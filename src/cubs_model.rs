//! Elements, relationships and model versions.
use vstd::prelude::*;
use crate::json::{Json, JsonV, copy_members, lemma_view_members_map};
use crate::decimal::{decimal, digits};
use crate::element_connector::string_eq;

verus! {

/// One content object of a model.
#[derive(Clone, Debug)]
pub struct Element {
    pub id: String,
    pub type_: String,
    pub nature: String,
    pub name: String,
    pub version: u32,
    pub dynamic_facets: Vec<(String, Json)>,
    pub facets: Vec<(String, Json)>,
    pub core_facets: Vec<(String, Json)>,
}

/// A directed, typed edge between two elements. Its endpoints need not exist.
#[derive(Clone, Debug)]
pub struct Relationship {
    pub id: String,
    pub source_id: String,
    pub target_id: String,
    pub type_: String,
    pub nature: String,
    pub name: String,
    pub version: u32,
    pub dynamic_facets: Vec<(String, Json)>,
    pub facets: Vec<(String, Json)>,
    pub core_facets: Vec<(String, Json)>,
}

/// One version of a model.
#[derive(Clone, Debug)]
pub struct ModelData {
    pub schema_version: String,
    pub model_id: String,
    pub site_model_id: String,
    pub version: u32,
    pub elements: Vec<Element>,
    pub relationships: Vec<Relationship>,
}

/// What elements and relationships share: their names and their facet maps.
pub trait CusObject {
    spec fn id_of(&self) -> Seq<char>;

    spec fn type_of(&self) -> Seq<char>;

    spec fn nature_of(&self) -> Seq<char>;

    spec fn name_of(&self) -> Seq<char>;

    spec fn dynamic_facets_of(&self) -> Vec<(String, Json)>;

    spec fn facets_of(&self) -> Vec<(String, Json)>;

    spec fn core_facets_of(&self) -> Vec<(String, Json)>;

    fn get_nature(&self) -> (r: String)
        ensures
            r@ == self.nature_of(),
    ;

    fn get_type(&self) -> (r: String)
        ensures
            r@ == self.type_of(),
    ;

    fn get_id(&self) -> (r: String)
        ensures
            r@ == self.id_of(),
    ;

    fn get_name(&self) -> (r: String)
        ensures
            r@ == self.name_of(),
    ;

    fn get_dynamic_facet(&self) -> (r: &Vec<(String, Json)>)
        ensures
            *r == self.dynamic_facets_of(),
    ;

    fn get_facet(&self) -> (r: &Vec<(String, Json)>)
        ensures
            *r == self.facets_of(),
    ;

    fn get_core_facet(&self) -> (r: &Vec<(String, Json)>)
        ensures
            *r == self.core_facets_of(),
    ;
}

impl CusObject for Element {
    open spec fn id_of(&self) -> Seq<char> {
        self.id@
    }

    open spec fn type_of(&self) -> Seq<char> {
        self.type_@
    }

    open spec fn nature_of(&self) -> Seq<char> {
        self.nature@
    }

    open spec fn name_of(&self) -> Seq<char> {
        self.name@
    }

    open spec fn dynamic_facets_of(&self) -> Vec<(String, Json)> {
        self.dynamic_facets
    }

    open spec fn facets_of(&self) -> Vec<(String, Json)> {
        self.facets
    }

    open spec fn core_facets_of(&self) -> Vec<(String, Json)> {
        self.core_facets
    }

    fn get_nature(&self) -> String {
        self.nature.clone()
    }

    fn get_type(&self) -> String {
        self.type_.clone()
    }

    fn get_id(&self) -> String {
        self.id.clone()
    }

    fn get_name(&self) -> String {
        self.name.clone()
    }

    fn get_dynamic_facet(&self) -> &Vec<(String, Json)> {
        &self.dynamic_facets
    }

    fn get_facet(&self) -> &Vec<(String, Json)> {
        &self.facets
    }

    fn get_core_facet(&self) -> &Vec<(String, Json)> {
        &self.core_facets
    }
}

impl CusObject for Relationship {
    open spec fn id_of(&self) -> Seq<char> {
        self.id@
    }

    open spec fn type_of(&self) -> Seq<char> {
        self.type_@
    }

    open spec fn nature_of(&self) -> Seq<char> {
        self.nature@
    }

    open spec fn name_of(&self) -> Seq<char> {
        self.name@
    }

    open spec fn dynamic_facets_of(&self) -> Vec<(String, Json)> {
        self.dynamic_facets
    }

    open spec fn facets_of(&self) -> Vec<(String, Json)> {
        self.facets
    }

    open spec fn core_facets_of(&self) -> Vec<(String, Json)> {
        self.core_facets
    }

    fn get_nature(&self) -> String {
        self.nature.clone()
    }

    fn get_type(&self) -> String {
        self.type_.clone()
    }

    fn get_id(&self) -> String {
        self.id.clone()
    }

    fn get_name(&self) -> String {
        self.name.clone()
    }

    fn get_dynamic_facet(&self) -> &Vec<(String, Json)> {
        &self.dynamic_facets
    }

    fn get_facet(&self) -> &Vec<(String, Json)> {
        &self.facets
    }

    fn get_core_facet(&self) -> &Vec<(String, Json)> {
        &self.core_facets
    }
}

/// The link a relationship draws: (relationship id, source id, target id).
pub struct LinkV {
    pub id: Seq<char>,
    pub source: Seq<char>,
    pub target: Seq<char>,
}

impl Relationship {
    pub open spec fn link(self) -> LinkV {
        LinkV { id: self.id@, source: self.source_id@, target: self.target_id@ }
    }
}

pub open spec fn links_of(rels: Seq<Relationship>) -> Seq<LinkV> {
    rels.map_values(|r: Relationship| r.link())
}

pub open spec fn ids_of(elements: Seq<Element>) -> Seq<Seq<char>> {
    elements.map_values(|e: Element| e.id@)
}

impl Element {
    /// The JSON form of the element: its named fields, its two facet maps, and
    /// the remaining top-level fields after them.
    pub open spec fn json(self) -> JsonV {
        JsonV::Object(
            seq![
                ("id"@, JsonV::Str(self.id@)),
                ("type"@, JsonV::Str(self.type_@)),
                ("nature"@, JsonV::Str(self.nature@)),
                ("name"@, JsonV::Str(self.name@)),
                ("version"@, JsonV::Number(digits(self.version as nat))),
                ("dynamicFacets"@, JsonV::Object(Json::view_members(self.dynamic_facets@))),
                ("facets"@, JsonV::Object(Json::view_members(self.facets@))),
            ] + Json::view_members(self.core_facets@),
        )
    }

    /// The JSON form of the element.
    pub fn to_json(&self) -> (r: Json)
        ensures
            r@ == self.json(),
    {
        let fixed: Vec<(String, Json)> = vec![
            ("id".to_owned(), Json::Str(self.id.clone())),
            ("type".to_owned(), Json::Str(self.type_.clone())),
            ("nature".to_owned(), Json::Str(self.nature.clone())),
            ("name".to_owned(), Json::Str(self.name.clone())),
            ("version".to_owned(), Json::Number(decimal(self.version))),
            ("dynamicFacets".to_owned(), Json::Object(copy_members(&self.dynamic_facets))),
            ("facets".to_owned(), Json::Object(copy_members(&self.facets))),
        ];
        proof {
            lemma_view_members_map(fixed@);
            assert(Json::view_members(fixed@) =~= self.json()->Object_0.subrange(0, fixed@.len() as int));
            assert(self.json()->Object_0 =~= Json::view_members(fixed@) + Json::view_members(self.core_facets@));
        }
        Json::Object(with_members(fixed, &self.core_facets))
    }
}

impl Relationship {
    /// The JSON form of the relationship: its named fields, its two facet maps,
    /// and the remaining top-level fields after them.
    pub open spec fn json(self) -> JsonV {
        JsonV::Object(
            seq![
                ("id"@, JsonV::Str(self.id@)),
                ("sourceId"@, JsonV::Str(self.source_id@)),
                ("targetId"@, JsonV::Str(self.target_id@)),
                ("type"@, JsonV::Str(self.type_@)),
                ("nature"@, JsonV::Str(self.nature@)),
                ("name"@, JsonV::Str(self.name@)),
                ("version"@, JsonV::Number(digits(self.version as nat))),
                ("dynamicFacets"@, JsonV::Object(Json::view_members(self.dynamic_facets@))),
                ("facets"@, JsonV::Object(Json::view_members(self.facets@))),
            ] + Json::view_members(self.core_facets@),
        )
    }

    /// The JSON form of the relationship.
    pub fn to_json(&self) -> (r: Json)
        ensures
            r@ == self.json(),
    {
        let fixed: Vec<(String, Json)> = vec![
            ("id".to_owned(), Json::Str(self.id.clone())),
            ("sourceId".to_owned(), Json::Str(self.source_id.clone())),
            ("targetId".to_owned(), Json::Str(self.target_id.clone())),
            ("type".to_owned(), Json::Str(self.type_.clone())),
            ("nature".to_owned(), Json::Str(self.nature.clone())),
            ("name".to_owned(), Json::Str(self.name.clone())),
            ("version".to_owned(), Json::Number(decimal(self.version))),
            ("dynamicFacets".to_owned(), Json::Object(copy_members(&self.dynamic_facets))),
            ("facets".to_owned(), Json::Object(copy_members(&self.facets))),
        ];
        proof {
            lemma_view_members_map(fixed@);
            assert(Json::view_members(fixed@) =~= self.json()->Object_0.subrange(0, fixed@.len() as int));
            assert(self.json()->Object_0 =~= Json::view_members(fixed@) + Json::view_members(self.core_facets@));
        }
        Json::Object(with_members(fixed, &self.core_facets))
    }
}

/// The first element of `els` with id `id`.
pub open spec fn first_element(els: Seq<Element>, id: Seq<char>) -> Option<Element>
    decreases els.len(),
{
    if els.len() == 0 {
        None
    } else if els[0].id@ == id {
        Some(els[0])
    } else {
        first_element(els.subrange(1, els.len() as int), id)
    }
}

/// The first relationship of `rels` with id `id`.
pub open spec fn first_relationship(rels: Seq<Relationship>, id: Seq<char>) -> Option<Relationship>
    decreases rels.len(),
{
    if rels.len() == 0 {
        None
    } else if rels[0].id@ == id {
        Some(rels[0])
    } else {
        first_relationship(rels.subrange(1, rels.len() as int), id)
    }
}

impl ModelData {
    /// The JSON form of the element with id `id`, or else of the relationship
    /// with that id.
    pub open spec fn entity_json(self, id: Seq<char>) -> Option<JsonV> {
        match first_element(self.elements@, id) {
            Some(e) => Some(e.json()),
            None => match first_relationship(self.relationships@, id) {
                Some(r) => Some(r.json()),
                None => None,
            },
        }
    }

    /// The JSON form of the element, or else the relationship, with id `id`.
    pub fn find_entity_json(&self, id: &str) -> (r: Option<Json>)
        ensures
            r matches Some(j) ==> self.entity_json(id@) == Some(j@),
            r is None ==> self.entity_json(id@) is None,
    {
        let els = &self.elements;
        let mut i: usize = 0;
        assert(els@.subrange(0, els@.len() as int) == els@);
        while i < els.len()
            invariant
                i <= els@.len(),
                els@ == self.elements@,
                first_element(els@, id@) == first_element(els@.subrange(i as int, els@.len() as int), id@),
            decreases els@.len() - i,
        {
            let ghost rest = els@.subrange(i as int, els@.len() as int);
            assert(rest[0] == els@[i as int]);
            assert(rest.subrange(1, rest.len() as int) == els@.subrange(i + 1, els@.len() as int));
            if string_eq(els[i].id.as_str(), id) {
                assert(first_element(rest, id@) == Some(els@[i as int]));
                let j = els[i].to_json();
                assert(self.entity_json(id@) == Some(j@));
                return Some(j);
            }
            i = i + 1;
        }
        let rels = &self.relationships;
        let mut k: usize = 0;
        assert(rels@.subrange(0, rels@.len() as int) == rels@);
        while k < rels.len()
            invariant
                k <= rels@.len(),
                els@ == self.elements@,
                rels@ == self.relationships@,
                first_element(els@, id@) is None,
                first_relationship(rels@, id@) == first_relationship(
                    rels@.subrange(k as int, rels@.len() as int),
                    id@,
                ),
            decreases rels@.len() - k,
        {
            let ghost rest = rels@.subrange(k as int, rels@.len() as int);
            assert(rest[0] == rels@[k as int]);
            assert(rest.subrange(1, rest.len() as int) == rels@.subrange(k + 1, rels@.len() as int));
            if string_eq(rels[k].id.as_str(), id) {
                assert(first_relationship(rest, id@) == Some(rels@[k as int]));
                let j = rels[k].to_json();
                assert(self.entity_json(id@) == Some(j@));
                return Some(j);
            }
            k = k + 1;
        }
        None
    }
}

proof fn lemma_view_members_append(a: Seq<(String, Json)>, b: Seq<(String, Json)>)
    ensures
        Json::view_members(a + b) == Json::view_members(a) + Json::view_members(b),
    decreases b.len(),
{
    if b.len() == 0 {
        assert(a + b == a);
        assert(Json::view_members(a) + Json::view_members(b) == Json::view_members(a));
    } else {
        lemma_view_members_append(a, b.drop_last());
        assert((a + b).drop_last() == a + b.drop_last());
    }
}

/// `fixed` followed by copies of `rest`.
fn with_members(fixed: Vec<(String, Json)>, rest: &Vec<(String, Json)>) -> (r: Vec<(String, Json)>)
    ensures
        Json::view_members(r@) == Json::view_members(fixed@) + Json::view_members(rest@),
{
    let mut out = fixed;
    let mut tail = copy_members(rest);
    proof {
        lemma_view_members_append(out@, tail@);
    }
    out.append(&mut tail);
    out
}

} // verus!
