//! A JSON document type owned by the library, its mathematical model, and
//! depth truncation.
use vstd::prelude::*;

verus! {

broadcast use vstd::std_specs::vec::group_vec_axioms;

/// A JSON value. Numbers keep their literal text; object members keep their order.
#[derive(Debug)]
pub enum Json {
    Null,
    Bool(bool),
    Number(String),
    Str(String),
    Array(Vec<Json>),
    Object(Vec<(String, Json)>),
}

/// The mathematical model of a [`Json`] value.
pub enum JsonV {
    Null,
    Bool(bool),
    Number(Seq<char>),
    Str(Seq<char>),
    Array(Seq<JsonV>),
    Object(Seq<(Seq<char>, JsonV)>),
}

impl Json {
    pub open spec fn view(self) -> JsonV
        decreases self,
    {
        match self {
            Json::Null => JsonV::Null,
            Json::Bool(b) => JsonV::Bool(b),
            Json::Number(n) => JsonV::Number(n@),
            Json::Str(s) => JsonV::Str(s@),
            Json::Array(a) => JsonV::Array(Self::view_items(a@)),
            Json::Object(m) => JsonV::Object(Self::view_members(m@)),
        }
    }

    pub open spec fn view_items(s: Seq<Json>) -> Seq<JsonV>
        decreases s,
    {
        if s.len() == 0 {
            Seq::empty()
        } else {
            Self::view_items(s.drop_last()).push(s.last().view())
        }
    }

    pub open spec fn view_members(s: Seq<(String, Json)>) -> Seq<(Seq<char>, JsonV)>
        decreases s,
    {
        if s.len() == 0 {
            Seq::empty()
        } else {
            Self::view_members(s.drop_last()).push((s.last().0@, s.last().1.view()))
        }
    }
}

/// The model of a member list, member by member.
pub proof fn lemma_view_members_map(s: Seq<(String, Json)>)
    ensures
        Json::view_members(s) == s.map_values(|p: (String, Json)| (p.0@, p.1@)),
    decreases s.len(),
{
    if s.len() > 0 {
        lemma_view_members_map(s.drop_last());
        assert(s.map_values(|p: (String, Json)| (p.0@, p.1@)) =~= s.drop_last().map_values(
            |p: (String, Json)| (p.0@, p.1@),
        ).push((s.last().0@, s.last().1@)));
    } else {
        assert(s.map_values(|p: (String, Json)| (p.0@, p.1@)) =~= Seq::empty());
    }
}

impl Clone for Json {
    fn clone(&self) -> Self {
        copy_json(self)
    }
}

/// The model of an item list, item by item.
pub proof fn lemma_view_items_map(s: Seq<Json>)
    ensures
        Json::view_items(s) == s.map_values(|j: Json| j@),
    decreases s.len(),
{
    if s.len() > 0 {
        lemma_view_items_map(s.drop_last());
        assert(s.map_values(|j: Json| j@) =~= s.drop_last().map_values(|j: Json| j@).push(
            s.last()@,
        ));
    } else {
        assert(s.map_values(|j: Json| j@) =~= Seq::empty());
    }
}

/// The value of the first member of `m` named `key`.
pub open spec fn first_member(m: Seq<(Seq<char>, JsonV)>, key: Seq<char>) -> Option<JsonV>
    decreases m.len(),
{
    if m.len() == 0 {
        None
    } else if m[0].0 == key {
        Some(m[0].1)
    } else {
        first_member(m.subrange(1, m.len() as int), key)
    }
}

/// A copy of `v` with the same model.
pub fn copy_json(v: &Json) -> (r: Json)
    ensures
        r@ == v@,
    decreases v,
{
    match v {
        Json::Null => Json::Null,
        Json::Bool(b) => Json::Bool(*b),
        Json::Number(n) => Json::Number(n.clone()),
        Json::Str(t) => Json::Str(t.clone()),
        Json::Array(a) => {
            let mut out: Vec<Json> = Vec::new();
            let mut i: usize = 0;
            while i < a.len()
                invariant
                    i <= a.len(),
                    *v == Json::Array(*a),
                    Json::view_items(out@) == Json::view_items(a@.subrange(0, i as int)),
                decreases a.len() - i,
            {
                proof {
                    vstd::std_specs::vec::axiom_vec_index_decreases(*a, i as int);
                    assert(decreases_to!(*v => (*v)->Array_0));
                }
                let c = copy_json(&a[i]);
                let ghost prev = out@;
                out.push(c);
                assert(out@.drop_last() == prev);
                assert(a@.subrange(0, i + 1).drop_last() == a@.subrange(0, i as int));
                i = i + 1;
            }
            assert(a@.subrange(0, a.len() as int) == a@);
            Json::Array(out)
        },
        Json::Object(m) => {
            let mut out: Vec<(String, Json)> = Vec::new();
            let mut i: usize = 0;
            while i < m.len()
                invariant
                    i <= m.len(),
                    *v == Json::Object(*m),
                    Json::view_members(out@) == Json::view_members(m@.subrange(0, i as int)),
                decreases m.len() - i,
            {
                proof {
                    vstd::std_specs::vec::axiom_vec_index_decreases(*m, i as int);
                    assert(decreases_to!(*v => (*v)->Object_0));
                    assert(decreases_to!(m[i as int] => m[i as int].1));
                }
                let c = copy_json(&m[i].1);
                let ghost prev = out@;
                out.push((m[i].0.clone(), c));
                assert(out@.drop_last() == prev);
                assert(m@.subrange(0, i + 1).drop_last() == m@.subrange(0, i as int));
                i = i + 1;
            }
            assert(m@.subrange(0, m.len() as int) == m@);
            Json::Object(out)
        },
    }
}

/// `v` with every array or object that starts `max_depth - cur_depth` or more
/// levels below it replaced by null. Scalars are kept at any depth.
pub open spec fn truncated(v: JsonV, max_depth: nat, cur_depth: nat) -> JsonV
    decreases v,
{
    if cur_depth >= max_depth {
        match v {
            JsonV::Array(_) => JsonV::Null,
            JsonV::Object(_) => JsonV::Null,
            _ => v,
        }
    } else {
        match v {
            JsonV::Array(a) => JsonV::Array(truncated_items(a, max_depth, cur_depth + 1)),
            JsonV::Object(m) => JsonV::Object(truncated_members(m, max_depth, cur_depth + 1)),
            _ => v,
        }
    }
}

pub open spec fn truncated_items(s: Seq<JsonV>, max_depth: nat, cur_depth: nat) -> Seq<JsonV>
    decreases s,
{
    if s.len() == 0 {
        Seq::empty()
    } else {
        truncated_items(s.drop_last(), max_depth, cur_depth).push(
            truncated(s.last(), max_depth, cur_depth),
        )
    }
}

pub open spec fn truncated_members(
    s: Seq<(Seq<char>, JsonV)>,
    max_depth: nat,
    cur_depth: nat,
) -> Seq<(Seq<char>, JsonV)>
    decreases s,
{
    if s.len() == 0 {
        Seq::empty()
    } else {
        truncated_members(s.drop_last(), max_depth, cur_depth).push(
            (s.last().0, truncated(s.last().1, max_depth, cur_depth)),
        )
    }
}

/// A copy of the members `m` with the same model.
pub fn copy_members(m: &Vec<(String, Json)>) -> (r: Vec<(String, Json)>)
    ensures
        Json::view_members(r@) == Json::view_members(m@),
{
    let mut out: Vec<(String, Json)> = Vec::new();
    let mut i: usize = 0;
    while i < m.len()
        invariant
            i <= m.len(),
            Json::view_members(out@) == Json::view_members(m@.subrange(0, i as int)),
        decreases m.len() - i,
    {
        let c = copy_json(&m[i].1);
        let ghost prev = out@;
        out.push((m[i].0.clone(), c));
        assert(out@.drop_last() == prev);
        assert(m@.subrange(0, i + 1).drop_last() == m@.subrange(0, i as int));
        i = i + 1;
    }
    assert(m@.subrange(0, m.len() as int) == m@);
    out
}

/// Replaces each array or object that lies `max_depth - current_depth` levels
/// below `value` (or deeper) with null.
pub fn truncate(value: &Json, max_depth: usize, current_depth: usize) -> (r: Json)
    ensures
        r@ == truncated(value@, max_depth as nat, current_depth as nat),
    decreases value,
{
    if current_depth >= max_depth {
        return match value {
            Json::Array(_) => Json::Null,
            Json::Object(_) => Json::Null,
            other => copy_json(other),
        };
    }
    match value {
        Json::Array(a) => {
            let mut out: Vec<Json> = Vec::new();
            let mut i: usize = 0;
            while i < a.len()
                invariant
                    i <= a.len(),
                    current_depth < max_depth,
                    *value == Json::Array(*a),
                    Json::view_items(out@) == truncated_items(
                        Json::view_items(a@.subrange(0, i as int)),
                        max_depth as nat,
                        (current_depth + 1) as nat,
                    ),
                decreases a.len() - i,
            {
                proof {
                    vstd::std_specs::vec::axiom_vec_index_decreases(*a, i as int);
                    assert(decreases_to!(*value => (*value)->Array_0));
                }
                let c = truncate(&a[i], max_depth, current_depth + 1);
                let ghost prev = out@;
                out.push(c);
                proof {
                    assert(out@.drop_last() == prev);
                    assert(a@.subrange(0, i + 1).drop_last() == a@.subrange(0, i as int));
                    let vs = Json::view_items(a@.subrange(0, i as int));
                    assert(vs.push(a@[i as int]@).drop_last() == vs);
                }
                i = i + 1;
            }
            assert(a@.subrange(0, a.len() as int) == a@);
            Json::Array(out)
        },
        Json::Object(m) => {
            let mut out: Vec<(String, Json)> = Vec::new();
            let mut i: usize = 0;
            while i < m.len()
                invariant
                    i <= m.len(),
                    current_depth < max_depth,
                    *value == Json::Object(*m),
                    Json::view_members(out@) == truncated_members(
                        Json::view_members(m@.subrange(0, i as int)),
                        max_depth as nat,
                        (current_depth + 1) as nat,
                    ),
                decreases m.len() - i,
            {
                proof {
                    vstd::std_specs::vec::axiom_vec_index_decreases(*m, i as int);
                    assert(decreases_to!(*value => (*value)->Object_0));
                    assert(decreases_to!(m[i as int] => m[i as int].1));
                }
                let c = truncate(&m[i].1, max_depth, current_depth + 1);
                let ghost prev = out@;
                out.push((m[i].0.clone(), c));
                proof {
                    assert(out@.drop_last() == prev);
                    assert(m@.subrange(0, i + 1).drop_last() == m@.subrange(0, i as int));
                    let vs = Json::view_members(m@.subrange(0, i as int));
                    assert(vs.push((m@[i as int].0@, m@[i as int].1@)).drop_last() == vs);
                }
                i = i + 1;
            }
            assert(m@.subrange(0, m.len() as int) == m@);
            Json::Object(out)
        },
        other => copy_json(other),
    }
}

/// Truncates each value of `values` to `truncate_depth` levels.
pub fn truncate_value(values: &[Json], truncate_depth: usize) -> (r: Vec<Json>)
    ensures
        r@.len() == values@.len(),
        forall|i: int|
            0 <= i < values@.len() ==> #[trigger] r@[i]@ == truncated(
                values@[i]@,
                truncate_depth as nat,
                0,
            ),
{
    let mut out: Vec<Json> = Vec::new();
    let mut i: usize = 0;
    while i < values.len()
        invariant
            i <= values@.len(),
            out@.len() == i,
            forall|j: int|
                0 <= j < i ==> #[trigger] out@[j]@ == truncated(
                    values@[j]@,
                    truncate_depth as nat,
                    0,
                ),
        decreases values@.len() - i,
    {
        out.push(truncate(&values[i], truncate_depth, 0));
        i = i + 1;
    }
    out
}

} // verus!
