//! Status messages shown to the user.
use vstd::prelude::*;

verus! {

/// The outcome of a request, as shown to the user.
#[derive(Debug)]
pub enum StatusMsg {
    OK(String),
    Error(String),
    Info(String),
    Empty,
}

impl StatusMsg {
    /// The text of the message; empty for `Empty`.
    pub fn get_msg(&self) -> (r: &str)
        ensures
            self matches StatusMsg::Empty ==> r@.len() == 0,
            self matches StatusMsg::OK(m) ==> r@ == m@,
            self matches StatusMsg::Error(m) ==> r@ == m@,
            self matches StatusMsg::Info(m) ==> r@ == m@,
    {
        match self {
            StatusMsg::OK(msg) => msg.as_str(),
            StatusMsg::Error(msg) => msg.as_str(),
            StatusMsg::Info(msg) => msg.as_str(),
            StatusMsg::Empty => {
                let e = "";
                proof {
                    reveal_strlit("");
                }
                e
            },
        }
    }
}

} // verus!
