//! JSON pointers (RFC 6901) into [`Json`] values.
use vstd::prelude::*;
use crate::element_connector::string_eq;
use crate::json::{Json, JsonV, first_member, lemma_view_items_map, lemma_view_members_map};

verus! {

broadcast use vstd::std_specs::vec::group_vec_axioms;

/// The length of the token at the start of `s`: up to the first `/`.
pub open spec fn seg_len(s: Seq<char>) -> nat
    decreases s.len(),
{
    if s.len() == 0 || s[0] == '/' {
        0
    } else {
        1 + seg_len(s.subrange(1, s.len() as int))
    }
}

/// `s` with each occurrence of the pair `a b`, read left to right, replaced
/// by `by`.
pub open spec fn replace_pair(s: Seq<char>, a: char, b: char, by: char) -> Seq<char>
    decreases s.len(),
{
    if s.len() == 0 {
        s
    } else if s.len() >= 2 && s[0] == a && s[1] == b {
        seq![by] + replace_pair(s.subrange(2, s.len() as int), a, b, by)
    } else {
        seq![s[0]] + replace_pair(s.subrange(1, s.len() as int), a, b, by)
    }
}

/// A pointer token with its escapes `~1` and `~0` undone, in that order.
pub open spec fn unescaped(t: Seq<char>) -> Seq<char> {
    replace_pair(replace_pair(t, '~', '1', '/'), '~', '0', '~')
}

pub open spec fn is_digit(c: char) -> bool {
    '0' <= c && c <= '9'
}

/// The number the decimal digits `t` spell.
pub open spec fn digits_value(t: Seq<char>) -> nat
    decreases t.len(),
{
    if t.len() == 0 {
        0
    } else {
        digits_value(t.drop_last()) * 10 + ((t.last() as u32 - '0' as u32) as nat)
    }
}

/// The array index a token names: decimal digits without a leading zero
/// (but for `0` itself), within `usize`.
pub open spec fn index_token(t: Seq<char>) -> Option<nat> {
    if t.len() > 0 && (forall|i: int| 0 <= i < t.len() ==> is_digit(#[trigger] t[i])) && (t[0]
        != '0' || t.len() == 1) && digits_value(t) <= usize::MAX {
        Some(digits_value(t))
    } else {
        None
    }
}

/// One step of a pointer: the member named `tok` of an object, or the item at
/// index `tok` of an array.
pub open spec fn step(v: JsonV, tok: Seq<char>) -> Option<JsonV> {
    match v {
        JsonV::Object(m) => first_member(m, tok),
        JsonV::Array(a) => match index_token(tok) {
            Some(k) => if k < a.len() {
                Some(a[k as int])
            } else {
                None
            },
            None => None,
        },
        _ => None,
    }
}

/// Follows the tokens of `s`, separated by `/`, from `v`.
pub open spec fn follow(v: JsonV, s: Seq<char>) -> Option<JsonV>
    decreases s.len(),
{
    let k = seg_len(s);
    let next = step(v, unescaped(s.subrange(0, k as int)));
    if k >= s.len() {
        next
    } else {
        match next {
            Some(w) => follow(w, s.subrange(k as int + 1, s.len() as int)),
            None => None,
        }
    }
}

/// The part of `v` that pointer `p` designates: `v` itself for the empty
/// pointer, nothing for a pointer that does not start with `/`.
pub open spec fn pointed(v: JsonV, p: Seq<char>) -> Option<JsonV> {
    if p.len() == 0 {
        Some(v)
    } else if p[0] != '/' {
        None
    } else {
        follow(v, p.subrange(1, p.len() as int))
    }
}

proof fn lemma_seg_len(s: Seq<char>, e: int)
    requires
        0 <= e <= s.len(),
        forall|j: int| 0 <= j < e ==> s[j] != '/',
        e == s.len() || s[e] == '/',
    ensures
        seg_len(s) == e,
    decreases e,
{
    if e > 0 {
        let r = s.subrange(1, s.len() as int);
        lemma_seg_len(r, e - 1);
    }
}

fn segment_end(p: &str, start: usize) -> (r: usize)
    requires
        start <= p@.len(),
    ensures
        start <= r <= p@.len(),
        seg_len(p@.subrange(start as int, p@.len() as int)) == r - start,
{
    let n = p.unicode_len();
    let mut e = start;
    while e < n && p.get_char(e) != '/'
        invariant
            n == p@.len(),
            start <= e <= n,
            forall|j: int| start <= j < e ==> p@[j] != '/',
        decreases n - e,
    {
        e = e + 1;
    }
    proof {
        let s = p@.subrange(start as int, n as int);
        lemma_seg_len(s, e - start);
    }
    e
}

fn one_char(c: char) -> (r: &'static str)
    requires
        c == '/' || c == '~',
    ensures
        r@ == seq![c],
{
    let r = if c == '/' { "/" } else { "~" };
    proof {
        reveal_strlit("/");
        reveal_strlit("~");
        assert(r@ =~= seq![c]);
    }
    r
}

/// `s` with each pair `a b` replaced by `by`, left to right.
fn replace_pair_exec(s: &str, a: char, b: char, by: char) -> (r: String)
    requires
        by == '/' || by == '~',
    ensures
        r@ == replace_pair(s@, a, b, by),
{
    let n = s.unicode_len();
    let mut out = String::new();
    let mut i: usize = 0;
    assert(s@.subrange(0, n as int) == s@);
    while i < n
        invariant
            n == s@.len(),
            i <= n,
            by == '/' || by == '~',
            replace_pair(s@, a, b, by) == out@ + replace_pair(s@.subrange(i as int, n as int), a, b, by),
        decreases n - i,
    {
        let ghost rest = s@.subrange(i as int, n as int);
        if i + 1 < n && s.get_char(i) == a && s.get_char(i + 1) == b {
            out.append(one_char(by));
            proof {
                assert(rest.subrange(2, rest.len() as int) == s@.subrange(i + 2, n as int));
                assert(replace_pair(rest, a, b, by) == seq![by] + replace_pair(
                    s@.subrange(i + 2, n as int),
                    a,
                    b,
                    by,
                ));
            }
            i = i + 2;
        } else {
            out.append(s.substring_char(i, i + 1));
            proof {
                assert(rest.subrange(1, rest.len() as int) == s@.subrange(i + 1, n as int));
                assert(s@.subrange(i as int, i + 1) == seq![rest[0]]);
            }
            i = i + 1;
        }
    }
    assert(s@.subrange(n as int, n as int) =~= Seq::<char>::empty());
    assert(out@ + Seq::<char>::empty() =~= out@);
    out
}

proof fn lemma_digits_value_prefix(t: Seq<char>, j: int)
    requires
        0 <= j <= t.len(),
        forall|i: int| 0 <= i < t.len() ==> is_digit(#[trigger] t[i]),
    ensures
        digits_value(t.subrange(0, j)) <= digits_value(t),
    decreases t.len() - j,
{
    if j < t.len() {
        lemma_digits_value_prefix(t, j + 1);
        let u = t.subrange(0, j + 1);
        assert(u.drop_last() == t.subrange(0, j));
    } else {
        assert(t.subrange(0, j) == t);
    }
}

/// The number that the decimal digits `t` spell, if `t` is a non-empty run of
/// digits whose value fits in `usize`.
pub open spec fn digits_number(t: Seq<char>) -> Option<nat> {
    if t.len() > 0 && (forall|i: int| 0 <= i < t.len() ==> is_digit(#[trigger] t[i]))
        && digits_value(t) <= usize::MAX {
        Some(digits_value(t))
    } else {
        None
    }
}

/// The number that the decimal digits `t` spell.
pub fn parse_digits(t: &str) -> (r: Option<usize>)
    ensures
        r matches Some(k) ==> digits_number(t@) == Some(k as nat),
        r is None ==> digits_number(t@) is None,
{
    let n = t.unicode_len();
    if n == 0 {
        return None;
    }
    let mut acc: usize = 0;
    let mut i: usize = 0;
    while i < n
        invariant
            n == t@.len(),
            i <= n,
            forall|j: int| 0 <= j < i ==> is_digit(#[trigger] t@[j]),
            acc == digits_value(t@.subrange(0, i as int)),
        decreases n - i,
    {
        let c = t.get_char(i);
        if !('0' <= c && c <= '9') {
            return None;
        }
        let d = (c as u32 - '0' as u32) as usize;
        let ghost u = t@.subrange(0, i + 1);
        assert(u.drop_last() == t@.subrange(0, i as int));
        match acc.checked_mul(10) {
            Some(m) => match m.checked_add(d) {
                Some(v) => {
                    acc = v;
                },
                None => {
                    proof {
                        if forall|j: int| 0 <= j < n ==> is_digit(#[trigger] t@[j]) {
                            lemma_digits_value_prefix(t@, i + 1);
                        }
                    }
                    return None;
                },
            },
            None => {
                proof {
                    if forall|j: int| 0 <= j < n ==> is_digit(#[trigger] t@[j]) {
                        lemma_digits_value_prefix(t@, i + 1);
                    }
                }
                return None;
            },
        }
        i = i + 1;
    }
    assert(t@.subrange(0, n as int) == t@);
    Some(acc)
}

/// The array index that token `t` names, as serde_json reads it.
fn parse_index(t: &str) -> (r: Option<usize>)
    ensures
        r matches Some(k) ==> index_token(t@) == Some(k as nat),
        r is None ==> index_token(t@) is None,
{
    if t.unicode_len() > 1 && t.get_char(0) == '0' {
        return None;
    }
    parse_digits(t)
}

/// The token `p[start..end]` with its escapes undone.
fn token_at(p: &str, start: usize, end: usize) -> (r: String)
    requires
        start <= end <= p@.len(),
    ensures
        r@ == unescaped(p@.subrange(start as int, end as int)),
{
    let raw = p.substring_char(start, end);
    let once = replace_pair_exec(raw, '~', '1', '/');
    replace_pair_exec(once.as_str(), '~', '0', '~')
}

/// One pointer step from `v` with token `tok`.
fn step_exec<'a>(v: &'a Json, tok: &str) -> (r: Option<&'a Json>)
    ensures
        r matches Some(w) ==> step(v@, tok@) == Some(w@),
        r is None ==> step(v@, tok@) is None,
{
    match v {
        Json::Object(m) => {
            proof {
                lemma_view_members_map(m@);
            }
            let ghost mv = Json::view_members(m@);
            let mut i: usize = 0;
            assert(mv.subrange(0, mv.len() as int) == mv);
            while i < m.len()
                invariant
                    i <= m@.len(),
                    mv == Json::view_members(m@),
                    mv == m@.map_values(|p: (String, Json)| (p.0@, p.1@)),
                    *v == Json::Object(*m),
                    first_member(mv, tok@) == first_member(mv.subrange(i as int, mv.len() as int), tok@),
                decreases m@.len() - i,
            {
                let ghost rest = mv.subrange(i as int, mv.len() as int);
                assert(rest[0] == (m@[i as int].0@, m@[i as int].1@));
                assert(rest.subrange(1, rest.len() as int) == mv.subrange(i + 1, mv.len() as int));
                if string_eq(m[i].0.as_str(), tok) {
                    return Some(&m[i].1);
                }
                i = i + 1;
            }
            None
        },
        Json::Array(a) => {
            proof {
                lemma_view_items_map(a@);
            }
            match parse_index(tok) {
                Some(k) => if k < a.len() {
                    Some(&a[k])
                } else {
                    None
                },
                None => None,
            }
        },
        _ => None,
    }
}

/// The part of `v` that the JSON pointer `p` designates.
pub fn pointer<'a>(v: &'a Json, p: &str) -> (r: Option<&'a Json>)
    ensures
        r matches Some(w) ==> pointed(v@, p@) == Some(w@),
        r is None ==> pointed(v@, p@) is None,
{
    let n = p.unicode_len();
    if n == 0 {
        return Some(v);
    }
    if p.get_char(0) != '/' {
        return None;
    }
    let mut cur: &Json = v;
    let mut pos: usize = 1;
    while pos <= n
        invariant
            n == p@.len(),
            1 <= pos <= n,
            p@[0] == '/',
            pointed(v@, p@) == follow(cur@, p@.subrange(pos as int, n as int)),
        decreases n - pos,
    {
        let end = segment_end(p, pos);
        let tok = token_at(p, pos, end);
        let ghost s = p@.subrange(pos as int, n as int);
        assert(s.subrange(0, (end - pos) as int) == p@.subrange(pos as int, end as int));
        let next = step_exec(cur, tok.as_str());
        if end == n {
            return next;
        }
        assert(s.subrange(end - pos + 1, s.len() as int) == p@.subrange(end + 1, n as int));
        match next {
            Some(w) => {
                cur = w;
                pos = end + 1;
            },
            None => {
                return None;
            },
        }
    }
    None
}

} // verus!
