//! Statistics of a model: how many elements and relationships it has, by type
//! and by nature.
use vstd::prelude::*;
use crate::cubs_model::{Element, ModelData, Relationship};
use crate::element_connector::string_eq;
use crate::json::{Json, JsonV, first_member, lemma_view_items_map, lemma_view_members_map};

verus! {

/// How many items have one value of a field.
#[derive(Clone, Debug)]
pub struct ElementCount {
    pub element: String,
    pub count: u32,
}

/// Counts of the values of one field, most frequent first.
#[derive(Clone, Debug)]
pub struct ElementCounts {
    pub value: Vec<ElementCount>,
}

/// The counts of one collection.
#[derive(Clone, Debug)]
pub struct CubsObjectReport {
    pub all_count: u32,
    pub by_type: ElementCounts,
    pub by_nature: ElementCounts,
}

#[derive(Clone, Debug)]
pub struct ModelStats {
    pub elements_stats: Option<CubsObjectReport>,
    pub relationships_stats: Option<CubsObjectReport>,
}

/// The statistics of one model version.
#[derive(Clone, Debug)]
pub struct ModelDictionary {
    pub model_id: String,
    pub version: u32,
    pub model_stats: ModelStats,
}

/// The string that member `field` of `v` holds, if `v` is an object whose first
/// member of that name is a string.
pub open spec fn field_str(v: JsonV, field: Seq<char>) -> Option<Seq<char>> {
    match v {
        JsonV::Object(m) => match first_member(m, field) {
            Some(JsonV::Str(s)) => Some(s),
            _ => None,
        },
        _ => None,
    }
}

/// How many of `items` hold `s` in member `field`.
pub open spec fn occurrences(items: Seq<JsonV>, field: Seq<char>, s: Seq<char>) -> nat
    decreases items.len(),
{
    if items.len() == 0 {
        0
    } else {
        occurrences(items.drop_last(), field, s) + if field_str(items.last(), field) == Some(s) {
            1nat
        } else {
            0nat
        }
    }
}

pub open spec fn count_view(c: ElementCount) -> (Seq<char>, nat) {
    (c.element@, c.count as nat)
}

pub open spec fn values_of(cs: Seq<ElementCount>) -> Seq<Seq<char>> {
    cs.map_values(|c: ElementCount| c.element@)
}

/// `cs` counts the values of member `field` over `items` exactly: one entry
/// per value that occurs, with its number of occurrences.
pub open spec fn counts_exactly(cs: Seq<ElementCount>, items: Seq<JsonV>, field: Seq<char>) -> bool {
    &&& values_of(cs).no_duplicates()
    &&& forall|k: int|
        0 <= k < cs.len() ==> (#[trigger] cs[k]).count == occurrences(items, field, cs[k].element@)
            && cs[k].count > 0
    &&& forall|s: Seq<char>|
        occurrences(items, field, s) > 0 ==> #[trigger] values_of(cs).contains(s)
}

/// Counts never grow along `cs`.
pub open spec fn most_frequent_first(cs: Seq<ElementCount>) -> bool {
    forall|i: int, j: int| 0 <= i < j < cs.len() ==> (#[trigger] cs[i]).count >= (#[trigger] cs[j]).count
}

fn field_str_of<'a>(v: &'a Json, field: &str) -> (r: Option<&'a String>)
    ensures
        r matches Some(s) ==> field_str(v@, field@) == Some(s@),
        r is None ==> field_str(v@, field@) is None,
{
    match v {
        Json::Object(m) => {
            proof {
                lemma_view_members_map(m@);
            }
            let ghost mv = Json::view_members(m@);
            let mut i: usize = 0;
            assert(mv.subrange(0, mv.len() as int) == mv);
            while i < m.len()
                invariant
                    i <= m@.len(),
                    mv == Json::view_members(m@),
                    mv == m@.map_values(|p: (String, Json)| (p.0@, p.1@)),
                    *v == Json::Object(*m),
                    first_member(mv, field@) == first_member(mv.subrange(i as int, mv.len() as int), field@),
                decreases m@.len() - i,
            {
                let ghost rest = mv.subrange(i as int, mv.len() as int);
                assert(rest[0] == (m@[i as int].0@, m@[i as int].1@));
                assert(rest.subrange(1, rest.len() as int) == mv.subrange(i + 1, mv.len() as int));
                if string_eq(m[i].0.as_str(), field) {
                    return match &m[i].1 {
                        Json::Str(s) => Some(s),
                        _ => None,
                    };
                }
                i = i + 1;
            }
            None
        },
        _ => None,
    }
}

proof fn lemma_occurrences_step(items: Seq<JsonV>, field: Seq<char>, x: JsonV, s: Seq<char>)
    ensures
        occurrences(items.push(x), field, s) == occurrences(items, field, s) + if field_str(x, field)
            == Some(s) {
            1nat
        } else {
            0nat
        },
{
    assert(items.push(x).drop_last() == items);
}

/// Counts the string values of member `field_name` over the items of the
/// array `value`, most frequent first. `None` when `value` is not an array or
/// no item holds a string there.
pub fn generate_array_field_count(value: &Json, field_name: &str) -> (r: Option<ElementCounts>)
    requires
        value@ matches JsonV::Array(a) ==> a.len() <= u32::MAX,
    ensures
        !(value@ is Array) ==> r is None,
        value@ matches JsonV::Array(a) ==> match r {
            None => forall|s: Seq<char>| occurrences(a, field_name@, s) == 0,
            Some(c) => counts_exactly(c.value@, a, field_name@) && most_frequent_first(c.value@)
                && c.value@.len() > 0,
        },
{
    let arr = match value {
        Json::Array(a) => a,
        _ => return None,
    };
    proof {
        lemma_view_items_map(arr@);
    }
    let ghost items = Json::view_items(arr@);
    let mut counts: Vec<ElementCount> = Vec::new();
    let mut i: usize = 0;
    while i < arr.len()
        invariant
            i <= arr@.len(),
            arr@.len() <= u32::MAX,
            items == arr@.map_values(|j: Json| j@),
            counts_exactly(counts@, items.subrange(0, i as int), field_name@),
            forall|k: int| 0 <= k < counts@.len() ==> (#[trigger] counts@[k]).count <= i,
        decreases arr@.len() - i,
    {
        let ghost pre = items.subrange(0, i as int);
        let ghost x = arr@[i as int]@;
        assert(items.subrange(0, i + 1) == pre.push(x));
        let ghost old_counts = counts@;
        match field_str_of(&arr[i], field_name) {
            None => {
                assert forall|s: Seq<char>| true implies occurrences(pre.push(x), field_name@, s)
                    == occurrences(pre, field_name@, s) by {
                    lemma_occurrences_step(pre, field_name@, x, s);
                }
            },
            Some(s) => {
                let mut k: usize = 0;
                while k < counts.len() && !string_eq(counts[k].element.as_str(), s.as_str())
                    invariant
                        k <= counts@.len(),
                        counts@ == old_counts,
                        forall|j: int| 0 <= j < k ==> values_of(counts@)[j] != s@,
                    decreases counts@.len() - k,
                {
                    k = k + 1;
                }
                let found = k < counts.len();
                if found {
                    let c = counts[k].count + 1;
                    counts[k].count = c;
                    proof {
                        assert(values_of(counts@) =~= values_of(old_counts));
                        assert forall|j: int| 0 <= j < counts@.len() implies (#[trigger] counts@[j]).count
                            == occurrences(pre.push(x), field_name@, counts@[j].element@) by {
                            lemma_occurrences_step(pre, field_name@, x, counts@[j].element@);
                            if j != k {
                                assert(values_of(old_counts)[j] != values_of(old_counts)[k as int]);
                            }
                        }
                        assert forall|t: Seq<char>| occurrences(pre.push(x), field_name@, t) > 0
                            implies #[trigger] values_of(counts@).contains(t) by {
                            lemma_occurrences_step(pre, field_name@, x, t);
                            if t == s@ {
                                assert(values_of(counts@)[k as int] == t);
                            }
                        }
                    }
                } else {
                    counts.push(ElementCount { element: s.clone(), count: 1 });
                    proof {
                        assert(values_of(counts@) =~= values_of(old_counts).push(s@));
                        if occurrences(pre, field_name@, s@) > 0 {
                            assert(values_of(old_counts).contains(s@));
                            let j = choose|j: int| 0 <= j < values_of(old_counts).len() && values_of(old_counts)[j] == s@;
                            assert(values_of(old_counts)[j] != s@);
                        }
                        assert forall|j: int| 0 <= j < counts@.len() implies (#[trigger] counts@[j]).count
                            == occurrences(pre.push(x), field_name@, counts@[j].element@) by {
                            lemma_occurrences_step(pre, field_name@, x, counts@[j].element@);
                        }
                        assert forall|t: Seq<char>| occurrences(pre.push(x), field_name@, t) > 0
                            implies #[trigger] values_of(counts@).contains(t) by {
                            lemma_occurrences_step(pre, field_name@, x, t);
                            if t == s@ {
                                assert(values_of(counts@)[old_counts.len() as int] == t);
                            } else {
                                assert(values_of(old_counts).contains(t));
                                let j = choose|j: int| 0 <= j < values_of(old_counts).len() && values_of(old_counts)[j] == t;
                                assert(values_of(counts@)[j] == values_of(old_counts)[j]);
                                assert(values_of(counts@)[j] == t);
                            }
                        }
                    }
                }
            },
        }
        i = i + 1;
    }
    assert(items.subrange(0, arr@.len() as int) == items);
    if counts.len() == 0 {
        assert forall|s: Seq<char>| occurrences(items, field_name@, s) == 0 by {
            if occurrences(items, field_name@, s) > 0 {
                assert(values_of(counts@).contains(s));
            }
        }
        return None;
    }
    let sorted = most_frequent_first_order(&counts);
    proof {
        assert forall|k: int| 0 <= k < sorted@.len() implies (#[trigger] sorted@[k]).count
            == occurrences(items, field_name@, sorted@[k].element@) && sorted@[k].count > 0 by {
            assert(counts_view(sorted@)[k] == count_view(sorted@[k]));
            assert(counts_view(sorted@).contains(count_view(sorted@[k])));
            let m = choose|m: int| 0 <= m < counts@.len() && counts_view(counts@)[m] == count_view(sorted@[k]);
            assert(counts@[m].element@ == sorted@[k].element@);
        }
        assert forall|t: Seq<char>| occurrences(items, field_name@, t) > 0 implies #[trigger] values_of(
            sorted@,
        ).contains(t) by {
            assert(values_of(counts@).contains(t));
            let m = choose|m: int| 0 <= m < counts@.len() && values_of(counts@)[m] == t;
            assert(counts_view(counts@)[m] == count_view(counts@[m]));
            assert(counts_view(counts@).contains(count_view(counts@[m])));
            let k = choose|k: int| 0 <= k < sorted@.len() && counts_view(sorted@)[k] == count_view(counts@[m]);
            assert(values_of(sorted@)[k] == t);
        }
    }
    Some(ElementCounts { value: sorted })
}

pub open spec fn counts_view(cs: Seq<ElementCount>) -> Seq<(Seq<char>, nat)> {
    cs.map_values(|c: ElementCount| count_view(c))
}

/// `counts` reordered so that counts never grow, entries of equal count
/// keeping their order.
fn most_frequent_first_order(counts: &Vec<ElementCount>) -> (r: Vec<ElementCount>)
    requires
        values_of(counts@).no_duplicates(),
    ensures
        most_frequent_first(r@),
        r@.len() == counts@.len(),
        values_of(r@).no_duplicates(),
        forall|x: (Seq<char>, nat)| counts_view(r@).contains(x) <==> counts_view(counts@).contains(x),
{
    let mut sorted: Vec<ElementCount> = Vec::new();
    let mut i: usize = 0;
    while i < counts.len()
        invariant
            i <= counts@.len(),
            values_of(counts@).no_duplicates(),
            sorted@.len() == i,
            most_frequent_first(sorted@),
            values_of(sorted@).no_duplicates(),
            forall|x: (Seq<char>, nat)|
                counts_view(sorted@).contains(x) <==> counts_view(counts@.subrange(0, i as int)).contains(x),
        decreases counts@.len() - i,
    {
        let item = ElementCount { element: counts[i].element.clone(), count: counts[i].count };
        let mut pos: usize = 0;
        while pos < sorted.len() && sorted[pos].count >= item.count
            invariant
                pos <= sorted@.len(),
                forall|j: int| 0 <= j < pos ==> (#[trigger] sorted@[j]).count >= item.count,
            decreases sorted@.len() - pos,
        {
            pos = pos + 1;
        }
        let ghost before = sorted@;
        let ghost pre = counts@.subrange(0, i as int);
        proof {
            assert(counts@.subrange(0, i + 1) == pre.push(counts@[i as int]));
            assert(count_view(item) == count_view(counts@[i as int]));
            // the value of `item` is new
            assert forall|j: int| 0 <= j < before.len() implies values_of(before)[j] != item.element@ by {
                assert(counts_view(before).contains(counts_view(before)[j]));
                let m = choose|m: int| 0 <= m < pre.len() && counts_view(pre)[m] == counts_view(before)[j];
                assert(values_of(counts@)[m] == before[j].element@);
                assert(values_of(counts@)[i as int] == item.element@);
            }
        }
        sorted.insert(pos, item);
        proof {
            let after = sorted@;
            assert(after == before.insert(pos as int, item));
            assert forall|j: int| 0 <= j < after.len() implies #[trigger] after[j] == if j < pos {
                before[j]
            } else if j == pos {
                item
            } else {
                before[j - 1]
            } by {}
            assert forall|a: int, b: int| 0 <= a < b < after.len() implies (#[trigger] after[a]).count
                >= (#[trigger] after[b]).count by {
                if a < pos && b == pos {
                } else if a == pos && b > pos {
                    assert(before[pos as int].count < item.count);
                    if b - 1 > pos {
                        assert(before[pos as int].count >= before[b - 1].count);
                    }
                } else if a < pos && b > pos {
                } else {
                }
            }
            assert forall|a: int, b: int|
                0 <= a < values_of(after).len() && 0 <= b < values_of(after).len() && a != b
                    implies values_of(after)[a] != values_of(after)[b] by {
                assert(values_of(after)[a] == after[a].element@);
                assert(values_of(after)[b] == after[b].element@);
                if a != pos as int && b != pos as int {
                    let a0 = if a < pos { a } else { a - 1 };
                    let b0 = if b < pos { b } else { b - 1 };
                    assert(values_of(before)[a0] != values_of(before)[b0]);
                } else if a == pos {
                    let b0 = if b < pos { b } else { b - 1 };
                    assert(values_of(before)[b0] != item.element@);
                } else {
                    let a0 = if a < pos { a } else { a - 1 };
                    assert(values_of(before)[a0] != item.element@);
                }
            }
            assert forall|x: (Seq<char>, nat)|
                counts_view(after).contains(x) <==> counts_view(counts@.subrange(0, i + 1)).contains(x) by {
                let cur = counts@.subrange(0, i + 1);
                if counts_view(after).contains(x) {
                    let j = choose|j: int| 0 <= j < after.len() && counts_view(after)[j] == x;
                    if j == pos {
                        assert(counts_view(cur)[i as int] == x);
                    } else {
                        let j0 = if j < pos { j } else { j - 1 };
                        assert(after[j] == before[j0]);
                        assert(counts_view(after)[j] == count_view(after[j]));
                        assert(counts_view(before)[j0] == count_view(before[j0]));
                        assert(counts_view(before)[j0] == x);
                        assert(counts_view(before).contains(x));
                        let m = choose|m: int| 0 <= m < pre.len() && counts_view(pre)[m] == x;
                        assert(counts_view(cur)[m] == x);
                    }
                }
                if counts_view(cur).contains(x) {
                    let m = choose|m: int| 0 <= m < cur.len() && counts_view(cur)[m] == x;
                    if m == i {
                        assert(counts_view(after)[pos as int] == x);
                    } else {
                        assert(counts_view(pre)[m] == x);
                        assert(counts_view(pre).contains(x));
                        assert(counts_view(before).contains(x));
                        let j0 = choose|j0: int| 0 <= j0 < before.len() && counts_view(before)[j0] == x;
                        let j = if j0 < pos { j0 } else { j0 + 1 };
                        assert(after[j] == before[j0]);
                        assert(counts_view(after)[j] == count_view(after[j]));
                        assert(counts_view(before)[j0] == count_view(before[j0]));
                        assert(counts_view(after)[j] == x);
                    }
                }
            }
        }
        i = i + 1;
    }
    assert(counts@.subrange(0, counts@.len() as int) == counts@);
    sorted
}

/// `r` reports the counts of member `field` over `items`: exact counts, most
/// frequent first, and no entry when no item has the field.
pub open spec fn reports_counts(r: ElementCounts, items: Seq<JsonV>, field: Seq<char>) -> bool {
    &&& counts_exactly(r.value@, items, field)
    &&& most_frequent_first(r.value@)
}

fn counts_or_empty(items: &Json, field: &str) -> (r: ElementCounts)
    requires
        items@ is Array,
        items@->Array_0.len() <= u32::MAX,
    ensures
        reports_counts(r, items@->Array_0, field@),
{
    match generate_array_field_count(items, field) {
        Some(c) => c,
        None => {
            let r = ElementCounts { value: Vec::new() };
            assert(values_of(r.value@) =~= seq![]);
            r
        },
    }
}

fn elements_json(els: &Vec<Element>) -> (r: Json)
    ensures
        r@ == JsonV::Array(els@.map_values(|e: Element| e.json())),
{
    let mut out: Vec<Json> = Vec::new();
    let mut i: usize = 0;
    while i < els.len()
        invariant
            i <= els@.len(),
            out@.len() == i,
            forall|j: int| 0 <= j < i ==> (#[trigger] out@[j])@ == els@[j].json(),
        decreases els@.len() - i,
    {
        out.push(els[i].to_json());
        i = i + 1;
    }
    proof {
        crate::json::lemma_view_items_map(out@);
        assert(Json::view_items(out@) =~= els@.map_values(|e: Element| e.json()));
    }
    Json::Array(out)
}

fn relationships_json(rels: &Vec<Relationship>) -> (r: Json)
    ensures
        r@ == JsonV::Array(rels@.map_values(|e: Relationship| e.json())),
{
    let mut out: Vec<Json> = Vec::new();
    let mut i: usize = 0;
    while i < rels.len()
        invariant
            i <= rels@.len(),
            out@.len() == i,
            forall|j: int| 0 <= j < i ==> (#[trigger] out@[j])@ == rels@[j].json(),
        decreases rels@.len() - i,
    {
        out.push(rels[i].to_json());
        i = i + 1;
    }
    proof {
        crate::json::lemma_view_items_map(out@);
        assert(Json::view_items(out@) =~= rels@.map_values(|e: Relationship| e.json()));
    }
    Json::Array(out)
}

/// The number of items of the array `value`; 0 for any other value.
pub fn get_json_array_len(value: &Json) -> (r: u32)
    requires
        value@ matches JsonV::Array(a) ==> a.len() <= u32::MAX,
    ensures
        value@ matches JsonV::Array(a) ==> r == a.len(),
        !(value@ is Array) ==> r == 0,
{
    match value {
        Json::Array(a) => {
            proof {
                lemma_view_items_map(a@);
            }
            a.len() as u32
        },
        _ => 0,
    }
}

impl ModelDictionary {
    /// `self` holds the statistics of `model`: its id and version, and for its
    /// elements and for its relationships how many there are, and how many of
    /// each type and of each nature.
    pub open spec fn describes(self, model: ModelData) -> bool {
        &&& model.elements@.len() <= u32::MAX
        &&& model.relationships@.len() <= u32::MAX
        &&& self.model_id@ == model.model_id@
        &&& self.version == model.version
        &&& self.model_stats.elements_stats matches Some(e) && e.all_count == model.elements@.len()
            && reports_counts(e.by_type, model.elements@.map_values(|x: Element| x.json()), "type"@)
            && reports_counts(e.by_nature, model.elements@.map_values(|x: Element| x.json()), "nature"@)
        &&& self.model_stats.relationships_stats matches Some(e) && e.all_count
            == model.relationships@.len() && reports_counts(
            e.by_type,
            model.relationships@.map_values(|x: Relationship| x.json()),
            "type"@,
        ) && reports_counts(
            e.by_nature,
            model.relationships@.map_values(|x: Relationship| x.json()),
            "nature"@,
        )
    }

    /// The statistics of `model`: for its elements and for its relationships,
    /// how many there are, and how many of each type and of each nature.
    pub fn from(model: &ModelData) -> (r: Self)
        requires
            model.elements@.len() <= u32::MAX,
            model.relationships@.len() <= u32::MAX,
        ensures
            r.describes(*model),
    {
        let els = elements_json(&model.elements);
        let rels = relationships_json(&model.relationships);
        let element_type_count = counts_or_empty(&els, "type");
        let element_nature_count = counts_or_empty(&els, "nature");
        let rel_type_count = counts_or_empty(&rels, "type");
        let rel_nature_count = counts_or_empty(&rels, "nature");
        ModelDictionary {
            model_id: model.model_id.clone(),
            version: model.version,
            model_stats: ModelStats {
                elements_stats: Some(CubsObjectReport {
                    all_count: get_json_array_len(&els),
                    by_type: element_type_count,
                    by_nature: element_nature_count,
                }),
                relationships_stats: Some(CubsObjectReport {
                    all_count: get_json_array_len(&rels),
                    by_type: rel_type_count,
                    by_nature: rel_nature_count,
                }),
            },
        }
    }
}

} // verus!
