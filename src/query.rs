//! Filtering, facet projection, limiting and depth truncation of element lists.
use vstd::prelude::*;
use crate::cache::AppState;
use crate::cubs_model::{Element, ModelData};
use crate::model_error::ModelError;
use crate::model_dict::ModelDictionary;
use crate::element_connector::string_eq;
use crate::json::{Json, JsonV, copy_json, copy_members, truncate, truncated};
use crate::pointer::{pointed, pointer};
use crate::parser::{is_uuid, uuid_text};

verus! {

/// Which facet map a projection keeps.
#[derive(Clone, Copy, Debug, PartialEq, Eq, Structural)]
pub enum FacetType {
    DynamicFacets,
    CoreFacets,
    Facets,
}

/// What a query keeps of each element.
#[derive(Debug)]
pub struct FacetSpec {
    pub facet_type: FacetType,
    /// A JSON pointer into the facet map; empty for the whole map.
    pub path: String,
    /// Whether to wrap the projection with the element's id, type, nature and name.
    pub is_detail: bool,
}

/// The answer to a listing query.
#[derive(Debug)]
pub struct QueryResult {
    pub data: Vec<Json>,
    pub result_count: usize,
    pub total_result_count: usize,
}

pub open spec fn all_filter() -> Seq<char> {
    "All"@
}

/// Whether element `e` passes the id, nature and type filters. An empty id and
/// the word `All` let every element through.
pub open spec fn keeps(e: Element, id: Seq<char>, types: Seq<char>, natures: Seq<char>) -> bool {
    &&& (id.len() == 0 || e.id@ == id)
    &&& (natures == all_filter() || e.nature@ == natures)
    &&& (types == all_filter() || e.type_@ == types)
}

pub open spec fn facet_key(t: FacetType) -> Seq<char> {
    match t {
        FacetType::DynamicFacets => "dynamicFacets"@,
        FacetType::CoreFacets => "coreFacets"@,
        FacetType::Facets => "facets"@,
    }
}

pub open spec fn facet_map(e: Element, t: FacetType) -> JsonV {
    match t {
        FacetType::DynamicFacets => JsonV::Object(Json::view_members(e.dynamic_facets@)),
        FacetType::CoreFacets => JsonV::Object(Json::view_members(e.core_facets@)),
        FacetType::Facets => JsonV::Object(Json::view_members(e.facets@)),
    }
}

/// What a query keeps of element `e`: its whole JSON form without a facet
/// spec; else the part of the requested facet map that the spec's pointer
/// designates (null when it designates nothing), wrapped with the element's
/// names when detail is asked for.
pub open spec fn projection(e: Element, facet: Option<FacetSpec>) -> JsonV {
    match facet {
        None => e.json(),
        Some(f) => {
            let w = match pointed(facet_map(e, f.facet_type), f.path@) {
                None => JsonV::Null,
                Some(w) => w,
            };
            if f.is_detail {
                JsonV::Object(
                    seq![
                        ("id"@, JsonV::Str(e.id@)),
                        ("type"@, JsonV::Str(e.type_@)),
                        ("nature"@, JsonV::Str(e.nature@)),
                        ("name"@, JsonV::Str(e.name@)),
                        (facet_key(f.facet_type), w),
                    ],
                )
            } else {
                w
            }
        },
    }
}

/// The projections of the elements that pass the filters, in order.
pub open spec fn selected(
    els: Seq<Element>,
    id: Seq<char>,
    types: Seq<char>,
    natures: Seq<char>,
    facet: Option<FacetSpec>,
) -> Seq<JsonV>
    decreases els.len(),
{
    if els.len() == 0 {
        seq![]
    } else {
        let p = selected(els.drop_last(), id, types, natures, facet);
        if keeps(els.last(), id, types, natures) {
            p.push(projection(els.last(), facet))
        } else {
            p
        }
    }
}

/// The elements of `els` that pass the filters, in order.
pub open spec fn kept(els: Seq<Element>, id: Seq<char>, types: Seq<char>, natures: Seq<char>) -> Seq<Element>
    decreases els.len(),
{
    if els.len() == 0 {
        seq![]
    } else if keeps(els.last(), id, types, natures) {
        kept(els.drop_last(), id, types, natures).push(els.last())
    } else {
        kept(els.drop_last(), id, types, natures)
    }
}

/// Without a facet spec each kept element comes back whole, in its JSON form;
/// with the `facets` kind, the empty pointer and no detail, only its facets
/// map comes back.
pub proof fn lemma_projection_kinds(
    els: Seq<Element>,
    id: Seq<char>,
    types: Seq<char>,
    natures: Seq<char>,
    path: String,
)
    requires
        path@.len() == 0,
    ensures
        selected(els, id, types, natures, None) == kept(els, id, types, natures).map_values(
            |e: Element| e.json(),
        ),
        selected(
            els,
            id,
            types,
            natures,
            Some(FacetSpec { facet_type: FacetType::Facets, path, is_detail: false }),
        ) == kept(els, id, types, natures).map_values(
            |e: Element| JsonV::Object(Json::view_members(e.facets@)),
        ),
    decreases els.len(),
{
    if els.len() > 0 {
        lemma_projection_kinds(els.drop_last(), id, types, natures, path);
        let k = kept(els.drop_last(), id, types, natures);
        let e = els.last();
        assert(pointed(facet_map(e, FacetType::Facets), path@) == Some(facet_map(e, FacetType::Facets)));
        if keeps(e, id, types, natures) {
            assert(k.push(e).map_values(|e: Element| e.json()) =~= k.map_values(
                |e: Element| e.json(),
            ).push(e.json()));
            assert(k.push(e).map_values(|e: Element| JsonV::Object(Json::view_members(e.facets@)))
                =~= k.map_values(|e: Element| JsonV::Object(Json::view_members(e.facets@))).push(
                JsonV::Object(Json::view_members(e.facets@)),
            ));
        }
    } else {
        assert(kept(els, id, types, natures).map_values(|e: Element| e.json()) =~= seq![]);
        assert(kept(els, id, types, natures).map_values(
            |e: Element| JsonV::Object(Json::view_members(e.facets@)),
        ) =~= seq![]);
    }
}

fn facet_map_of(e: &Element, t: FacetType) -> (r: Json)
    ensures
        r@ == facet_map(*e, t),
{
    match t {
        FacetType::DynamicFacets => Json::Object(copy_members(&e.dynamic_facets)),
        FacetType::CoreFacets => Json::Object(copy_members(&e.core_facets)),
        FacetType::Facets => Json::Object(copy_members(&e.facets)),
    }
}

/// What a query keeps of element `e`.
pub fn project(e: &Element, facet: &Option<FacetSpec>) -> (r: Json)
    ensures
        r@ == projection(*e, *facet),
{
    match facet {
        None => e.to_json(),
        Some(f) => {
            let m = facet_map_of(e, f.facet_type);
            let w = match pointer(&m, f.path.as_str()) {
                Some(w) => copy_json(w),
                None => Json::Null,
            };
            if f.is_detail {
                let key = match f.facet_type {
                    FacetType::DynamicFacets => "dynamicFacets".to_owned(),
                    FacetType::CoreFacets => "coreFacets".to_owned(),
                    FacetType::Facets => "facets".to_owned(),
                };
                let members: Vec<(String, Json)> = vec![
                    ("id".to_owned(), Json::Str(e.id.clone())),
                    ("type".to_owned(), Json::Str(e.type_.clone())),
                    ("nature".to_owned(), Json::Str(e.nature.clone())),
                    ("name".to_owned(), Json::Str(e.name.clone())),
                    (key, w),
                ];
                proof {
                    crate::json::lemma_view_members_map(members@);
                    assert(Json::view_members(members@) =~= projection(*e, *facet)->Object_0);
                }
                Json::Object(members)
            } else {
                w
            }
        },
    }
}

impl FacetSpec {
    /// The facet spec a request names: `dynamicFacets`, `coreFacets` or
    /// `facets` select a kind, anything else none; `path` is the pointer into
    /// the facet map; `is_detail` asks for detail.
    pub fn parse(facet_type: &str, path: &str, is_detail: Option<&str>) -> (r: Option<FacetSpec>)
        ensures
            facet_type@ == "dynamicFacets"@ || facet_type@ == "coreFacets"@ || facet_type@ == "facets"@
                <==> r is Some,
            r matches Some(f) ==> facet_key(f.facet_type) == facet_type@ && f.path@ == path@
                && f.is_detail == (is_detail matches Some(d) && d@ == "is_detail"@),
    {
        let detail = match is_detail {
            Some(d) => string_eq(d, "is_detail"),
            None => false,
        };
        if string_eq(facet_type, "dynamicFacets") {
            Some(FacetSpec { facet_type: FacetType::DynamicFacets, path: path.to_owned(), is_detail: detail })
        } else if string_eq(facet_type, "coreFacets") {
            Some(FacetSpec { facet_type: FacetType::CoreFacets, path: path.to_owned(), is_detail: detail })
        } else if string_eq(facet_type, "facets") {
            Some(FacetSpec { facet_type: FacetType::Facets, path: path.to_owned(), is_detail: detail })
        } else {
            None
        }
    }
}

/// Whether element `e` passes the filters.
pub fn passes(e: &Element, id: &str, types: &str, natures: &str) -> (r: bool)
    ensures
        r == keeps(*e, id@, types@, natures@),
{
    let id_ok = id.unicode_len() == 0 || string_eq(e.id.as_str(), id);
    let nature_ok = string_eq(natures, "All") || string_eq(e.nature.as_str(), natures);
    let type_ok = string_eq(types, "All") || string_eq(e.type_.as_str(), types);
    id_ok && nature_ok && type_ok
}

/// There is one selected projection per element that passes the filters.
pub proof fn lemma_selected_len(
    els: Seq<Element>,
    id: Seq<char>,
    types: Seq<char>,
    natures: Seq<char>,
    facet: Option<FacetSpec>,
)
    ensures
        selected(els, id, types, natures, facet).len() == kept(els, id, types, natures).len(),
    decreases els.len(),
{
    if els.len() > 0 {
        lemma_selected_len(els.drop_last(), id, types, natures, facet);
    }
}

/// `r` answers the listing query over `els`: `total_result_count` counts the
/// elements that pass the filters; the first `limit` of their projections
/// (none for a limit of 0) come back, truncated to `depth` levels unless
/// `depth` is 0.
pub open spec fn answers(
    r: QueryResult,
    els: Seq<Element>,
    id: Seq<char>,
    types: Seq<char>,
    natures: Seq<char>,
    facet: Option<FacetSpec>,
    depth: usize,
    limit: usize,
) -> bool {
    &&& r.total_result_count == kept(els, id, types, natures).len()
    &&& r.total_result_count == selected(els, id, types, natures, facet).len()
    &&& r.result_count == if limit < r.total_result_count {
        limit
    } else {
        r.total_result_count
    }
    &&& r.data@.len() == r.result_count
    &&& forall|i: int|
        0 <= i < r.result_count ==> (#[trigger] r.data@[i])@ == if depth == 0 {
            selected(els, id, types, natures, facet)[i]
        } else {
            truncated(selected(els, id, types, natures, facet)[i], depth as nat, 0)
        }
}

/// Runs a listing query: keeps the elements that pass the filters, projects
/// each, keeps the first `limit` of them (none when `limit` is 0), and
/// truncates each to `depth` levels unless `depth` is 0.
pub fn query_elements(
    elements: &[Element],
    id: &str,
    types: &str,
    natures: &str,
    facet: &Option<FacetSpec>,
    depth: usize,
    limit: usize,
) -> (r: QueryResult)
    ensures
        answers(r, elements@, id@, types@, natures@, *facet, depth, limit),
{
    let ghost sel = selected(elements@, id@, types@, natures@, *facet);
    let mut found: Vec<Json> = Vec::new();
    let mut i: usize = 0;
    while i < elements.len()
        invariant
            i <= elements@.len(),
            found@.len() == selected(elements@.subrange(0, i as int), id@, types@, natures@, *facet).len(),
            forall|j: int|
                0 <= j < found@.len() ==> (#[trigger] found@[j])@ == selected(
                    elements@.subrange(0, i as int),
                    id@,
                    types@,
                    natures@,
                    *facet,
                )[j],
        decreases elements@.len() - i,
    {
        assert(elements@.subrange(0, i + 1).drop_last() == elements@.subrange(0, i as int));
        if passes(&elements[i], id, types, natures) {
            found.push(project(&elements[i], facet));
        }
        i = i + 1;
    }
    assert(elements@.subrange(0, elements@.len() as int) == elements@);
    let total = found.len();
    let n = if limit < total { limit } else { total };
    let mut data: Vec<Json> = Vec::new();
    let mut k: usize = 0;
    while k < n
        invariant
            n <= found@.len(),
            k <= n,
            data@.len() == k,
            forall|j: int|
                0 <= j < k ==> (#[trigger] data@[j])@ == if depth == 0 {
                    found@[j]@
                } else {
                    truncated(found@[j]@, depth as nat, 0)
                },
        decreases n - k,
    {
        if depth == 0 {
            data.push(crate::json::copy_json(&found[k]));
        } else {
            data.push(truncate(&found[k], depth, 0));
        }
        k = k + 1;
    }
    proof {
        lemma_selected_len(elements@, id@, types@, natures@, *facet);
    }
    QueryResult { data, result_count: n, total_result_count: total }
}

impl QueryResult {
    /// The empty result.
    pub fn empty() -> (r: QueryResult)
        ensures
            r.data@.len() == 0,
            r.result_count == 0,
            r.total_result_count == 0,
    {
        QueryResult { data: Vec::new(), result_count: 0, total_result_count: 0 }
    }
}

/// Runs a listing query on the cached version `version` of model `model_id`.
/// An empty model id gives the empty result; a model that is not cached is
/// not found.
pub fn query_model(
    state: &AppState,
    model_id: &str,
    version: u32,
    id: &str,
    types: &str,
    natures: &str,
    facet: &Option<FacetSpec>,
    depth: usize,
    limit: usize,
) -> (r: Result<QueryResult, ModelError>)
    ensures
        model_id@.len() == 0 ==> (r matches Ok(q) && q.result_count == 0 && q.total_result_count
            == 0 && q.data@.len() == 0),
        model_id@.len() > 0 ==> (r matches Err(e) ==> (e matches ModelError::ModelNotFound(m)
            && m@ == model_id@)),
        model_id@.len() > 0 ==> (r matches Ok(q) ==> exists|els: Seq<Element>|
            #[trigger] answers(q, els, id@, types@, natures@, *facet, depth, limit)),
{
    if model_id.unicode_len() == 0 {
        return Ok(QueryResult::empty());
    }
    match state.get_model_cache().get(model_id, version) {
        Some(model) => {
            let q = query_elements(model.elements.as_slice(), id, types, natures, facet, depth, limit);
            let ghost els = model.elements@;
            let r: Result<QueryResult, ModelError> = Ok(q);
            assert(r matches Ok(q2) && answers(q2, els, id@, types@, natures@, *facet, depth, limit));
            r
        },
        None => Err(ModelError::ModelNotFound(model_id.to_owned())),
    }
}

/// The statistics of the cached version `version` of model `model_id`. A
/// model that is not cached is not found; so is one with more elements or
/// more relationships than a 32-bit count holds.
pub fn model_stats(state: &AppState, model_id: &str, version: u32) -> (r: Result<
    ModelDictionary,
    ModelError,
>)
    ensures
        r matches Err(e) ==> (e matches ModelError::ModelNotFound(m) && m@ == model_id@),
        r matches Ok(d) ==> exists|m: ModelData| #[trigger] d.describes(m),
{
    match state.get_model_cache().get(model_id, version) {
        Some(model) => if model.elements.len() <= u32::MAX as usize && model.relationships.len()
            <= u32::MAX as usize {
            let d = ModelDictionary::from(&model);
            assert(d.describes(model));
            Ok(d)
        } else {
            Err(ModelError::ModelNotFound(model_id.to_owned()))
        },
        None => Err(ModelError::ModelNotFound(model_id.to_owned())),
    }
}

/// The first step of a request for version `version` of model `model_id`:
/// a model id that is not a UUID is invalid input; otherwise the cached model,
/// or `None` when the caller has to fetch it.
pub fn read_model_data(state: &AppState, model_id: &str, version: u32) -> (r: Result<
    Option<ModelData>,
    ModelError,
>)
    ensures
        !uuid_text(model_id@) ==> (r matches Err(ModelError::InvalidInput)),
        uuid_text(model_id@) ==> r is Ok,
{
    if !is_uuid(model_id) {
        return Err(ModelError::InvalidInput);
    }
    Ok(state.get_model_cache().get(model_id, version))
}

} // verus!
