//! Errors of the model queries.
use vstd::prelude::*;

verus! {

/// Why a model query failed.
#[derive(Debug)]
pub enum ModelError {
    /// The graph of a model could not be built.
    ModelGraphBuildingError(String),
    /// The model, version or element with this id does not exist.
    ModelNotFound(String),
    /// An id that must not be empty was empty.
    InvalidInput,
    /// The stored payload is not a valid compressed text.
    DecodeError,
    /// The decoded text does not have the shape of a model.
    ParseError,
}

impl ModelError {
    /// The message shown for the error; empty where the error carries none.
    pub fn to_message(&self) -> (r: String)
        ensures
            self matches ModelError::ModelGraphBuildingError(e) ==> r@ == "Error building model graph: "@ + e@,
            self matches ModelError::ModelNotFound(m) ==> r@ == "Model "@ + m@ + " not found"@,
            self matches ModelError::InvalidInput ==> r@ == Seq::<char>::empty(),
            self matches ModelError::DecodeError ==> r@ == "Unable to decompress saved model"@,
            self matches ModelError::ParseError ==> r@ == "Unable to read saved model"@,
    {
        let mut out = String::new();
        proof {
            reveal_strlit("Error building model graph: ");
            reveal_strlit("Model ");
            reveal_strlit(" not found");
            reveal_strlit("Unable to decompress saved model");
            reveal_strlit("Unable to read saved model");
        }
        match self {
            ModelError::ModelGraphBuildingError(e) => {
                out.append("Error building model graph: ");
                out.append(e.as_str());
            },
            ModelError::ModelNotFound(m) => {
                out.append("Model ");
                out.append(m.as_str());
                out.append(" not found");
            },
            ModelError::InvalidInput => {},
            ModelError::DecodeError => {
                out.append("Unable to decompress saved model");
            },
            ModelError::ParseError => {
                out.append("Unable to read saved model");
            },
        }
        out
    }
}

} // verus!
