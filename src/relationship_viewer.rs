//! Bounded, cycle-safe walks from one element towards its ancestors or
//! descendants, and the lines that describe them.
use vstd::prelude::*;
use crate::cache::AppState;
use crate::cubs_model::ModelData;
use crate::element_connector::{
    ConnectorV, Edge, ElementConnectorGraph, GraphV, built, edges_view, string_eq,
};
use crate::json::Json;
use crate::model_error::ModelError;

verus! {

/// Which way a walk follows the edges: towards sources (parents) over incoming
/// edges, or towards targets (children) over outgoing edges.
#[derive(Clone, Copy, Debug, PartialEq, Eq, Structural)]
pub enum RelationshipDirection {
    Parent,
    Child,
}

pub open spec fn dir_edges(c: ConnectorV, dir: RelationshipDirection) -> Seq<(Seq<char>, Seq<char>)> {
    match dir {
        RelationshipDirection::Parent => c.ins,
        RelationshipDirection::Child => c.outs,
    }
}

/// The element a walk of `hops` (relationship, element) from `focal` ends at.
pub open spec fn path_end(focal: Seq<char>, hops: Seq<(Seq<char>, Seq<char>)>) -> Seq<char> {
    if hops.len() == 0 {
        focal
    } else {
        hops.last().1
    }
}

/// Each hop of `hops` leads to a registered element over an edge, in direction
/// `dir`, of the element reached by the hops before it.
pub open spec fn is_walk(
    g: GraphV,
    focal: Seq<char>,
    hops: Seq<(Seq<char>, Seq<char>)>,
    dir: RelationshipDirection,
) -> bool {
    forall|t: int|
        0 <= t < hops.len() ==> g.has(#[trigger] hops[t].1) && (g.lookup(
            path_end(focal, hops.subrange(0, t)),
        ) matches Some(c) && dir_edges(c, dir).contains(hops[t]))
}

pub open spec fn hops_of(paths: Seq<Vec<Edge>>) -> Seq<Seq<(Seq<char>, Seq<char>)>> {
    paths.map_values(|p: Vec<Edge>| edges_view(p@))
}

pub open spec fn ends_of(focal: Seq<char>, paths: Seq<Vec<Edge>>) -> Seq<Seq<char>> {
    paths.map_values(|p: Vec<Edge>| path_end(focal, edges_view(p@)))
}

pub open spec fn strings_view(v: Seq<String>) -> Seq<Seq<char>> {
    v.map_values(|s: String| s@)
}

fn copy_edge(e: &Edge) -> (r: Edge)
    ensures
        r@ == e@,
{
    Edge { relationship_id: e.relationship_id.clone(), endpoint_id: e.endpoint_id.clone() }
}

/// `p` with `e` appended.
fn extended(p: &Vec<Edge>, e: &Edge) -> (r: Vec<Edge>)
    ensures
        edges_view(r@) == edges_view(p@).push(e@),
{
    let mut out: Vec<Edge> = Vec::new();
    let mut i: usize = 0;
    while i < p.len()
        invariant
            i <= p@.len(),
            out@.len() == i,
            edges_view(out@) == edges_view(p@).subrange(0, i as int),
        decreases p@.len() - i,
    {
        out.push(copy_edge(&p[i]));
        assert(edges_view(out@) =~= edges_view(p@).subrange(0, i + 1));
        i = i + 1;
    }
    assert(edges_view(p@).subrange(0, p@.len() as int) == edges_view(p@));
    out.push(copy_edge(e));
    assert(edges_view(out@) =~= edges_view(p@).push(e@));
    out
}

fn contains_str(v: &Vec<String>, s: &str) -> (r: bool)
    ensures
        r == strings_view(v@).contains(s@),
{
    let mut i: usize = 0;
    while i < v.len()
        invariant
            i <= v@.len(),
            forall|j: int| 0 <= j < i ==> strings_view(v@)[j] != s@,
        decreases v@.len() - i,
    {
        if string_eq(v[i].as_str(), s) {
            assert(strings_view(v@)[i as int] == s@);
            return true;
        }
        i = i + 1;
    }
    false
}

proof fn lemma_walk_extended(
    g: GraphV,
    focal: Seq<char>,
    hp: Seq<(Seq<char>, Seq<char>)>,
    dir: RelationshipDirection,
    c: ConnectorV,
    e: (Seq<char>, Seq<char>),
)
    requires
        is_walk(g, focal, hp, dir),
        g.lookup(path_end(focal, hp)) == Some(c),
        dir_edges(c, dir).contains(e),
        g.has(e.1),
    ensures
        is_walk(g, focal, hp.push(e), dir),
{
    let hops = hp.push(e);
    assert forall|t: int| 0 <= t < hops.len() implies g.has(#[trigger] hops[t].1) && (g.lookup(
        path_end(focal, hops.subrange(0, t)),
    ) matches Some(c) && dir_edges(c, dir).contains(hops[t])) by {
        if t < hp.len() {
            assert(hops.subrange(0, t) == hp.subrange(0, t));
            assert(hops[t] == hp[t]);
        } else {
            assert(hops.subrange(0, t) == hp);
        }
    }
}

/// The elements along a walk: `focal`, then the element each hop reaches.
pub open spec fn path_nodes(focal: Seq<char>, hops: Seq<(Seq<char>, Seq<char>)>) -> Seq<Seq<char>> {
    seq![focal] + hops.map_values(|h: (Seq<char>, Seq<char>)| h.1)
}

/// No element occurs twice along the walk, and each one is in `vis`.
pub open spec fn fresh_path(
    focal: Seq<char>,
    hops: Seq<(Seq<char>, Seq<char>)>,
    vis: Seq<Seq<char>>,
) -> bool {
    &&& path_nodes(focal, hops).no_duplicates()
    &&& forall|j: int|
        0 <= j < path_nodes(focal, hops).len() ==> vis.contains(
            #[trigger] path_nodes(focal, hops)[j],
        )
}

proof fn lemma_fresh_extended(
    focal: Seq<char>,
    hp: Seq<(Seq<char>, Seq<char>)>,
    e: (Seq<char>, Seq<char>),
    vis0: Seq<Seq<char>>,
    vis: Seq<Seq<char>>,
)
    requires
        fresh_path(focal, hp, vis0),
        !vis0.contains(e.1),
        vis == vis0.push(e.1),
    ensures
        fresh_path(focal, hp.push(e), vis),
        path_nodes(focal, hp.push(e)).no_duplicates(),
{
    let a = path_nodes(focal, hp);
    let b = path_nodes(focal, hp.push(e));
    assert(b =~= a.push(e.1));
    assert forall|j: int| 0 <= j < b.len() implies vis.contains(#[trigger] b[j]) by {
        if j < a.len() {
            assert(b[j] == a[j]);
            assert(vis0.contains(a[j]));
            let t = choose|t: int| 0 <= t < vis0.len() && vis0[t] == a[j];
            assert(vis[t] == a[j]);
        } else {
            assert(vis[vis0.len() as int] == e.1);
        }
    }
    assert forall|x: int, y: int| 0 <= x < b.len() && 0 <= y < b.len() && x != y implies b[x] != b[y] by {
        if x < a.len() && y < a.len() {
        } else if x < a.len() {
            assert(vis0.contains(a[x]));
        } else if y < a.len() {
            assert(vis0.contains(a[y]));
        }
    }
}

proof fn lemma_fresh_grow(
    focal: Seq<char>,
    hp: Seq<(Seq<char>, Seq<char>)>,
    vis0: Seq<Seq<char>>,
    vis: Seq<Seq<char>>,
)
    requires
        fresh_path(focal, hp, vis0),
        forall|n: Seq<char>| vis0.contains(n) ==> #[trigger] vis.contains(n),
    ensures
        fresh_path(focal, hp, vis),
{
}

/// Element `n` ends a walk of at most `k` hops from `focal`.
pub open spec fn reachable(
    g: GraphV,
    focal: Seq<char>,
    n: Seq<char>,
    k: int,
    dir: RelationshipDirection,
) -> bool {
    exists|hops: Seq<(Seq<char>, Seq<char>)>|
        hops.len() <= k && is_walk(g, focal, hops, dir) && #[trigger] path_end(focal, hops) == n
}

proof fn lemma_reach_witness(
    g: GraphV,
    focal: Seq<char>,
    hops: Seq<(Seq<char>, Seq<char>)>,
    k: int,
    dir: RelationshipDirection,
)
    requires
        hops.len() <= k,
        is_walk(g, focal, hops, dir),
    ensures
        reachable(g, focal, path_end(focal, hops), k, dir),
{
}

/// The last hop of a walk of `l + 1` hops leaves an element reachable in `l`.
#[verifier::rlimit(30)]
proof fn lemma_reach_step(
    g: GraphV,
    focal: Seq<char>,
    hops: Seq<(Seq<char>, Seq<char>)>,
    l: int,
    dir: RelationshipDirection,
)
    requires
        0 <= l,
        hops.len() == l + 1,
        is_walk(g, focal, hops, dir),
    ensures
        reachable(g, focal, path_end(focal, hops.subrange(0, l)), l, dir),
        g.lookup(path_end(focal, hops.subrange(0, l))) matches Some(c) && dir_edges(c, dir).contains(
            hops[l],
        ),
        g.has(hops[l].1),
        path_end(focal, hops) == hops[l].1,
{
    let pre = hops.subrange(0, l);
    assert(g.has(hops[l].1));
    assert forall|t: int| 0 <= t < pre.len() implies g.has(#[trigger] pre[t].1) && (g.lookup(
        path_end(focal, pre.subrange(0, t)),
    ) matches Some(c) && dir_edges(c, dir).contains(pre[t])) by {
        assert(pre.subrange(0, t) =~= hops.subrange(0, t));
        assert(pre[t] == hops[t]);
        assert(g.has(hops[t].1));
    }
    assert(is_walk(g, focal, pre, dir));
    lemma_reach_witness(g, focal, pre, l, dir);
}

proof fn lemma_reach_extend(
    g: GraphV,
    focal: Seq<char>,
    p: Seq<char>,
    l: int,
    c: ConnectorV,
    e: (Seq<char>, Seq<char>),
    dir: RelationshipDirection,
)
    requires
        reachable(g, focal, p, l, dir),
        g.lookup(p) == Some(c),
        dir_edges(c, dir).contains(e),
        g.has(e.1),
    ensures
        reachable(g, focal, e.1, l + 1, dir),
{
    let hp = choose|hops: Seq<(Seq<char>, Seq<char>)>|
        hops.len() <= l && is_walk(g, focal, hops, dir) && #[trigger] path_end(focal, hops) == p;
    lemma_walk_extended(g, focal, hp, dir, c, e);
    lemma_reach_witness(g, focal, hp.push(e), l + 1, dir);
}

/// Walks from `focal` at most `depth` hops in direction `dir`, breadth first,
/// and returns, in the order they were reached, one path per element reached.
/// Every element that a walk of at most `depth` hops reaches is reached once:
/// cycles cannot repeat an element, nor bring back the focal element; edges
/// towards unregistered elements are not followed.
pub fn walk(
    graph: &ElementConnectorGraph,
    focal: &str,
    depth: usize,
    dir: RelationshipDirection,
) -> (r: Vec<Vec<Edge>>)
    requires
        graph@.has(focal@),
    ensures
        forall|i: int|
            0 <= i < r@.len() ==> 1 <= (#[trigger] hops_of(r@)[i]).len() <= depth && is_walk(
                graph@,
                focal@,
                hops_of(r@)[i],
                dir,
            ),
        seq![focal@].add(ends_of(focal@, r@)).no_duplicates(),
        forall|i: int|
            0 <= i < r@.len() ==> path_nodes(focal@, #[trigger] hops_of(r@)[i]).no_duplicates(),
        forall|n: Seq<char>|
            #[trigger] reachable(graph@, focal@, n, depth as int, dir) ==> seq![focal@].add(
                ends_of(focal@, r@),
            ).contains(n),
{
    let ghost g = graph@;
    let mut visited: Vec<String> = Vec::new();
    visited.push(focal.to_owned());
    let mut result: Vec<Vec<Edge>> = Vec::new();
    let mut frontier: Vec<Vec<Edge>> = Vec::new();
    frontier.push(Vec::new());
    proof {
        assert(strings_view(visited@) =~= seq![focal@].add(ends_of(focal@, result@)));
        assert(hops_of(frontier@)[0] =~= seq![]);
        assert(path_nodes(focal@, hops_of(frontier@)[0]) =~= seq![focal@]);
        assert(strings_view(visited@)[0] == focal@);
        assert(fresh_path(focal@, hops_of(frontier@)[0], strings_view(visited@)));
        assert(ends_of(focal@, frontier@)[0] == focal@);
        assert(strings_view(visited@)[0] == focal@);
        assert forall|n: Seq<char>| #[trigger] reachable(g, focal@, n, 0, dir) implies strings_view(
            visited@,
        ).contains(n) && ends_of(focal@, frontier@).contains(n) by {
            let h = choose|hops: Seq<(Seq<char>, Seq<char>)>|
                hops.len() <= 0 && is_walk(g, focal@, hops, dir) && #[trigger] path_end(focal@, hops) == n;
            assert(h.len() == 0);
        }
        assert forall|n: Seq<char>| #[trigger] strings_view(visited@).contains(n) implies reachable(
            g,
            focal@,
            n,
            0,
            dir,
        ) by {
            let e: Seq<(Seq<char>, Seq<char>)> = seq![];
            lemma_reach_witness(g, focal@, e, 0, dir);
        }
    }
    let mut level: usize = 0;
    while level < depth
        invariant
            g == graph@,
            graph@.has(focal@),
            level <= depth,
            strings_view(visited@) == seq![focal@].add(ends_of(focal@, result@)),
            strings_view(visited@).no_duplicates(),
            forall|i: int|
                0 <= i < result@.len() ==> 1 <= (#[trigger] hops_of(result@)[i]).len() <= level
                    && is_walk(graph@, focal@, hops_of(result@)[i], dir),
            forall|i: int|
                0 <= i < frontier@.len() ==> (#[trigger] hops_of(frontier@)[i]).len() == level
                    && is_walk(graph@, focal@, hops_of(frontier@)[i], dir),
            forall|i: int|
                0 <= i < result@.len() ==> path_nodes(focal@, #[trigger] hops_of(result@)[i]).no_duplicates(),
            forall|i: int|
                0 <= i < frontier@.len() ==> fresh_path(
                    focal@,
                    #[trigger] hops_of(frontier@)[i],
                    strings_view(visited@),
                ),
            forall|n: Seq<char>|
                #[trigger] reachable(g, focal@, n, level as int, dir) ==> strings_view(
                    visited@,
                ).contains(n),
            forall|n: Seq<char>|
                #[trigger] strings_view(visited@).contains(n) ==> reachable(
                    g,
                    focal@,
                    n,
                    level as int,
                    dir,
                ),
            forall|n: Seq<char>|
                #[trigger] reachable(g, focal@, n, level as int, dir) && !reachable(
                    g,
                    focal@,
                    n,
                    level - 1,
                    dir,
                ) ==> ends_of(focal@, frontier@).contains(n),
        decreases depth - level,
    {
        let mut next: Vec<Vec<Edge>> = Vec::new();
        let mut fi: usize = 0;
        while fi < frontier.len()
            invariant
                g == graph@,
                graph@.has(focal@),
                level < depth,
                fi <= frontier@.len(),
                strings_view(visited@) == seq![focal@].add(ends_of(focal@, result@)),
                strings_view(visited@).no_duplicates(),
                forall|i: int|
                    0 <= i < result@.len() ==> 1 <= (#[trigger] hops_of(result@)[i]).len() <= level
                        + 1 && is_walk(graph@, focal@, hops_of(result@)[i], dir),
                forall|i: int|
                    0 <= i < frontier@.len() ==> (#[trigger] hops_of(frontier@)[i]).len() == level
                        && is_walk(graph@, focal@, hops_of(frontier@)[i], dir),
                forall|i: int|
                    0 <= i < next@.len() ==> (#[trigger] hops_of(next@)[i]).len() == level + 1
                        && is_walk(graph@, focal@, hops_of(next@)[i], dir),
                forall|i: int|
                    0 <= i < result@.len() ==> path_nodes(focal@, #[trigger] hops_of(result@)[i]).no_duplicates(),
                forall|i: int|
                    0 <= i < frontier@.len() ==> fresh_path(
                        focal@,
                        #[trigger] hops_of(frontier@)[i],
                        strings_view(visited@),
                    ),
                forall|i: int|
                    0 <= i < next@.len() ==> fresh_path(
                        focal@,
                        #[trigger] hops_of(next@)[i],
                        strings_view(visited@),
                    ),
                forall|n: Seq<char>|
                    #[trigger] strings_view(visited@).contains(n) ==> reachable(
                        g,
                        focal@,
                        n,
                        level + 1,
                        dir,
                    ),
                forall|n: Seq<char>|
                    #[trigger] reachable(g, focal@, n, level as int, dir) ==> strings_view(
                        visited@,
                    ).contains(n),
                forall|n: Seq<char>|
                    #[trigger] strings_view(visited@).contains(n) ==> reachable(
                        g,
                        focal@,
                        n,
                        level as int,
                        dir,
                    ) || ends_of(focal@, next@).contains(n),
                forall|j: int, c: ConnectorV, e: (Seq<char>, Seq<char>)|
                    0 <= j < fi && #[trigger] g.lookup(path_end(focal@, hops_of(frontier@)[j]))
                        == Some(c) && #[trigger] dir_edges(c, dir).contains(e) && g.has(e.1)
                        ==> strings_view(visited@).contains(e.1),
                forall|n: Seq<char>|
                    #[trigger] reachable(g, focal@, n, level as int, dir) && !reachable(
                        g,
                        focal@,
                        n,
                        level - 1,
                        dir,
                    ) ==> ends_of(focal@, frontier@).contains(n),
            decreases frontier@.len() - fi,
        {
            let p = &frontier[fi];
            let ghost hp = edges_view(p@);
            assert(hp == hops_of(frontier@)[fi as int]);
            let node: &str = if p.len() == 0 {
                focal
            } else {
                p[p.len() - 1].endpoint_id.as_str()
            };
            assert(node@ == path_end(focal@, hp));
            proof {
                lemma_reach_witness(g, focal@, hp, level as int, dir);
            }
            match graph.get_connection(node) {
                None => {},
                Some(c) => {
                    let edges = match dir {
                        RelationshipDirection::Parent => &c.in_path,
                        RelationshipDirection::Child => &c.out_path,
                    };
                    assert(edges_view(edges@) == dir_edges(c@, dir));
                    let mut ei: usize = 0;
                    while ei < edges.len()
                        invariant
                            g == graph@,
                            graph@.has(focal@),
                            level < depth,
                            fi < frontier@.len(),
                            ei <= edges@.len(),
                            edges_view(edges@) == dir_edges(c@, dir),
                            graph@.lookup(path_end(focal@, hp)) == Some(c@),
                            hp == edges_view(p@),
                            hp == hops_of(frontier@)[fi as int],
                            hp.len() == level,
                            is_walk(graph@, focal@, hp, dir),
                            reachable(g, focal@, path_end(focal@, hp), level as int, dir),
                            strings_view(visited@) == seq![focal@].add(ends_of(focal@, result@)),
                            strings_view(visited@).no_duplicates(),
                            forall|i: int|
                                0 <= i < result@.len() ==> 1 <= (#[trigger] hops_of(
                                    result@,
                                )[i]).len() <= level + 1 && is_walk(
                                    graph@,
                                    focal@,
                                    hops_of(result@)[i],
                                    dir,
                                ),
                            forall|i: int|
                                0 <= i < next@.len() ==> (#[trigger] hops_of(next@)[i]).len()
                                    == level + 1 && is_walk(graph@, focal@, hops_of(next@)[i], dir),
                            forall|i: int|
                                0 <= i < result@.len() ==> path_nodes(
                                    focal@,
                                    #[trigger] hops_of(result@)[i],
                                ).no_duplicates(),
                            forall|i: int|
                                0 <= i < frontier@.len() ==> fresh_path(
                                    focal@,
                                    #[trigger] hops_of(frontier@)[i],
                                    strings_view(visited@),
                                ),
                            forall|i: int|
                                0 <= i < next@.len() ==> fresh_path(
                                    focal@,
                                    #[trigger] hops_of(next@)[i],
                                    strings_view(visited@),
                                ),
                            forall|n: Seq<char>|
                                #[trigger] strings_view(visited@).contains(n) ==> reachable(
                                    g,
                                    focal@,
                                    n,
                                    level + 1,
                                    dir,
                                ),
                            forall|n: Seq<char>|
                                #[trigger] reachable(g, focal@, n, level as int, dir)
                                    ==> strings_view(visited@).contains(n),
                            forall|n: Seq<char>|
                                #[trigger] strings_view(visited@).contains(n) ==> reachable(
                                    g,
                                    focal@,
                                    n,
                                    level as int,
                                    dir,
                                ) || ends_of(focal@, next@).contains(n),
                            forall|j: int, c: ConnectorV, e: (Seq<char>, Seq<char>)|
                                0 <= j < fi && #[trigger] g.lookup(
                                    path_end(focal@, hops_of(frontier@)[j]),
                                ) == Some(c) && #[trigger] dir_edges(c, dir).contains(e) && g.has(
                                    e.1,
                                ) ==> strings_view(visited@).contains(e.1),
                            forall|k: int|
                                0 <= k < ei && g.has(#[trigger] dir_edges(c@, dir)[k].1)
                                    ==> strings_view(visited@).contains(dir_edges(c@, dir)[k].1),
                        decreases edges@.len() - ei,
                    {
                        let e = &edges[ei];
                        let target = e.endpoint_id.as_str();
                        assert(dir_edges(c@, dir)[ei as int] == e@);
                        if graph.get_connection(target).is_some() && !contains_str(&visited, target) {
                            proof {
                                assert(dir_edges(c@, dir).contains(e@));
                                assert(graph@.has(e@.1));
                                lemma_walk_extended(graph@, focal@, hp, dir, c@, e@);
                                lemma_reach_witness(g, focal@, hp.push(e@), level + 1, dir);
                                assert(path_end(focal@, hp.push(e@)) == e@.1);
                            }
                            let ghost vis0 = strings_view(visited@);
                            let ghost res0 = result@;
                            let ghost next0 = next@;
                            visited.push(e.endpoint_id.clone());
                            let reached = extended(p, e);
                            let to_expand = extended(p, e);
                            result.push(reached);
                            next.push(to_expand);
                            proof {
                                assert(strings_view(visited@) =~= vis0.push(e@.1));
                                assert(ends_of(focal@, result@) =~= ends_of(focal@, res0).push(e@.1));
                                assert(strings_view(visited@) =~= seq![focal@].add(ends_of(focal@, result@)));
                                assert(hops_of(result@) =~= hops_of(res0).push(hp.push(e@)));
                                assert(hops_of(next@) =~= hops_of(next0).push(hp.push(e@)));
                                assert(ends_of(focal@, next@) =~= ends_of(focal@, next0).push(e@.1));
                                assert forall|n: Seq<char>| #[trigger] strings_view(visited@).contains(n)
                                    implies reachable(g, focal@, n, level + 1, dir) && (reachable(
                                    g,
                                    focal@,
                                    n,
                                    level as int,
                                    dir,
                                ) || ends_of(focal@, next@).contains(n)) by {
                                    if n == e@.1 {
                                        assert(ends_of(focal@, next@)[next0.len() as int] == n);
                                    } else {
                                        let t = choose|t: int| 0 <= t < strings_view(visited@).len() && strings_view(visited@)[t] == n;
                                        assert(t < vis0.len());
                                        assert(vis0[t] == n);
                                        assert(vis0.contains(n));
                                        if ends_of(focal@, next0).contains(n) {
                                            let u = choose|u: int| 0 <= u < ends_of(focal@, next0).len() && ends_of(focal@, next0)[u] == n;
                                            assert(ends_of(focal@, next@)[u] == n);
                                        }
                                    }
                                }
                                assert forall|n: Seq<char>| vis0.contains(n) implies #[trigger] strings_view(
                                    visited@,
                                ).contains(n) by {
                                    let t = choose|t: int| 0 <= t < vis0.len() && vis0[t] == n;
                                    assert(strings_view(visited@)[t] == n);
                                }
                                assert(strings_view(visited@)[vis0.len() as int] == e@.1);
                                assert(fresh_path(focal@, hp, vis0));
                                lemma_fresh_extended(focal@, hp, e@, vis0, strings_view(visited@));
                                assert forall|i: int| 0 <= i < frontier@.len() implies fresh_path(
                                    focal@,
                                    #[trigger] hops_of(frontier@)[i],
                                    strings_view(visited@),
                                ) by {
                                    lemma_fresh_grow(focal@, hops_of(frontier@)[i], vis0, strings_view(visited@));
                                }
                                assert forall|i: int| 0 <= i < next@.len() implies fresh_path(
                                    focal@,
                                    #[trigger] hops_of(next@)[i],
                                    strings_view(visited@),
                                ) by {
                                    if i < next0.len() {
                                        assert(hops_of(next@)[i] == hops_of(next0)[i]);
                                        lemma_fresh_grow(focal@, hops_of(next0)[i], vis0, strings_view(visited@));
                                    }
                                }
                                assert forall|i: int| 0 <= i < result@.len() implies path_nodes(
                                    focal@,
                                    #[trigger] hops_of(result@)[i],
                                ).no_duplicates() by {
                                    if i < res0.len() {
                                        assert(hops_of(result@)[i] == hops_of(res0)[i]);
                                    }
                                }
                            }
                        } else {
                            proof {
                                if graph@.has(e@.1) {
                                    assert(strings_view(visited@).contains(e@.1));
                                }
                            }
                        }
                        ei = ei + 1;
                    }
                    proof {
                        assert forall|c2: ConnectorV, e2: (Seq<char>, Seq<char>)|
                            #[trigger] g.lookup(path_end(focal@, hops_of(frontier@)[fi as int]))
                                == Some(c2) && #[trigger] dir_edges(c2, dir).contains(e2) && g.has(e2.1)
                                implies strings_view(visited@).contains(e2.1) by {
                            let k = choose|k: int| 0 <= k < dir_edges(c2, dir).len() && dir_edges(c2, dir)[k] == e2;
                            assert(c2 == c@);
                        }
                    }
                },
            }
            fi = fi + 1;
        }
        proof {
            let vis = strings_view(visited@);
            assert forall|n: Seq<char>| #[trigger] reachable(g, focal@, n, level + 1, dir) implies vis.contains(n) by {
                let h = choose|hops: Seq<(Seq<char>, Seq<char>)>|
                    hops.len() <= level + 1 && is_walk(g, focal@, hops, dir) && #[trigger] path_end(focal@, hops) == n;
                if h.len() <= level {
                    lemma_reach_witness(g, focal@, h, level as int, dir);
                } else {
                    lemma_reach_step(g, focal@, h, level as int, dir);
                    let pe = path_end(focal@, h.subrange(0, level as int));
                    let c = g.lookup(pe)->Some_0;
                    if level > 0 && reachable(g, focal@, pe, level - 1, dir) {
                        lemma_reach_extend(g, focal@, pe, level - 1, c, h[level as int], dir);
                        assert(reachable(g, focal@, n, level as int, dir));
                    } else {
                        if level == 0 {
                            assert(!reachable(g, focal@, pe, -1, dir));
                        }
                        assert(ends_of(focal@, frontier@).contains(pe));
                        let j = choose|j: int| 0 <= j < ends_of(focal@, frontier@).len() && ends_of(focal@, frontier@)[j] == pe;
                        assert(path_end(focal@, hops_of(frontier@)[j]) == pe);
                        assert(g.lookup(path_end(focal@, hops_of(frontier@)[j])) == Some(c));
                        assert(dir_edges(c, dir).contains(h[level as int]));
                    }
                }
            }
            assert forall|n: Seq<char>| #[trigger] reachable(g, focal@, n, level + 1, dir) && !reachable(
                g,
                focal@,
                n,
                level as int,
                dir,
            ) implies ends_of(focal@, next@).contains(n) by {
                assert(vis.contains(n));
            }
        }
        frontier = next;
        level = level + 1;
    }
    result
}

/// One token of an output line.
#[derive(Debug)]
pub enum OutputToken {
    /// An element or relationship id.
    Value(String),
    /// The next hop goes from a source towards the element before it.
    InArrow,
    /// The next hop goes from the element before it towards a target.
    OutArrow,
}

pub enum TokenV {
    Value(Seq<char>),
    InArrow,
    OutArrow,
}

impl View for OutputToken {
    type V = TokenV;

    open spec fn view(&self) -> TokenV {
        match self {
            OutputToken::Value(s) => TokenV::Value(s@),
            OutputToken::InArrow => TokenV::InArrow,
            OutputToken::OutArrow => TokenV::OutArrow,
        }
    }
}

/// A path from the focal element, as tokens.
#[derive(Debug)]
pub struct OutputLine {
    pub line: Vec<OutputToken>,
}

impl View for OutputLine {
    type V = Seq<TokenV>;

    open spec fn view(&self) -> Seq<TokenV> {
        self.line@.map_values(|t: OutputToken| t@)
    }
}

impl OutputLine {
    pub fn new() -> (r: Self)
        ensures
            r@ == Seq::<TokenV>::empty(),
    {
        OutputLine { line: Vec::new() }
    }

    pub fn push(&mut self, token: OutputToken)
        ensures
            final(self)@ == old(self)@.push(token@),
    {
        self.line.push(token);
        assert(self@ =~= old(self)@.push(token@));
    }
}

/// The answer to a relationship query: one line per ancestor and per
/// descendant reached, and the JSON form of every element and relationship
/// the lines name.
#[derive(Debug)]
pub struct OutputGraph {
    pub parent_lines: Vec<OutputLine>,
    pub child_lines: Vec<OutputLine>,
    pub elements_data: Vec<(String, Json)>,
}

pub open spec fn arrow(dir: RelationshipDirection) -> TokenV {
    match dir {
        RelationshipDirection::Parent => TokenV::InArrow,
        RelationshipDirection::Child => TokenV::OutArrow,
    }
}

/// The tokens of a path: the focal id, then for each hop an arrow, the
/// relationship id, an arrow and the element id.
pub open spec fn line_tokens(
    focal: Seq<char>,
    hops: Seq<(Seq<char>, Seq<char>)>,
    dir: RelationshipDirection,
) -> Seq<TokenV>
    decreases hops.len(),
{
    if hops.len() == 0 {
        seq![TokenV::Value(focal)]
    } else {
        line_tokens(focal, hops.drop_last(), dir) + seq![
            arrow(dir),
            TokenV::Value(hops.last().0),
            arrow(dir),
            TokenV::Value(hops.last().1),
        ]
    }
}

/// `line` describes a walk of 1 to `depth` hops from `focal` in direction
/// `dir` along which no element occurs twice.
pub open spec fn describes_walk(
    g: GraphV,
    focal: Seq<char>,
    line: Seq<TokenV>,
    depth: nat,
    dir: RelationshipDirection,
) -> bool {
    exists|hops: Seq<(Seq<char>, Seq<char>)>|
        1 <= hops.len() <= depth && is_walk(g, focal, hops, dir) && path_nodes(focal, hops).no_duplicates()
            && line == #[trigger] line_tokens(
            focal,
            hops,
            dir,
        )
}

/// Every element other than `focal` that a walk of at most `depth` hops in
/// direction `dir` reaches ends one of `lines`.
pub open spec fn covers(
    g: GraphV,
    focal: Seq<char>,
    lines: Seq<Seq<TokenV>>,
    depth: nat,
    dir: RelationshipDirection,
) -> bool {
    forall|n: Seq<char>|
        #[trigger] reachable(g, focal, n, depth as int, dir) && n != focal ==> exists|i: int|
            0 <= i < lines.len() && #[trigger] lines[i].last() == TokenV::Value(n)
}

proof fn lemma_walk_lines_cover(
    g: GraphV,
    focal: Seq<char>,
    paths: Seq<Vec<Edge>>,
    lines: Seq<Seq<TokenV>>,
    depth: nat,
    dir: RelationshipDirection,
)
    requires
        forall|n: Seq<char>|
            #[trigger] reachable(g, focal, n, depth as int, dir) ==> seq![focal].add(
                ends_of(focal, paths),
            ).contains(n),
        lines.len() == paths.len(),
        forall|i: int| 0 <= i < paths.len() ==> #[trigger] lines[i] == line_tokens(focal, hops_of(paths)[i], dir),
    ensures
        covers(g, focal, lines, depth, dir),
{
    let all = seq![focal].add(ends_of(focal, paths));
    assert forall|n: Seq<char>| #[trigger] reachable(g, focal, n, depth as int, dir) && n != focal
        implies exists|i: int| 0 <= i < lines.len() && #[trigger] lines[i].last() == TokenV::Value(n) by {
        let k = choose|k: int| 0 <= k < all.len() && all[k] == n;
        assert(k != 0);
        let i = k - 1;
        lemma_line_end(focal, hops_of(paths)[i], dir);
        assert(lines[i].last() == TokenV::Value(n));
    }
}

/// No two lines end at the same element, and none ends at the focal element.
pub open spec fn distinct_ends(focal: Seq<char>, lines: Seq<Seq<TokenV>>) -> bool {
    &&& forall|i: int, j: int|
        0 <= i < lines.len() && 0 <= j < lines.len() && i != j ==> (#[trigger] lines[i]).last()
            != (#[trigger] lines[j]).last()
    &&& forall|i: int| 0 <= i < lines.len() ==> (#[trigger] lines[i]).last() != TokenV::Value(focal)
}

proof fn lemma_line_end(focal: Seq<char>, hops: Seq<(Seq<char>, Seq<char>)>, dir: RelationshipDirection)
    ensures
        line_tokens(focal, hops, dir).len() > 0,
        line_tokens(focal, hops, dir).last() == TokenV::Value(path_end(focal, hops)),
    decreases hops.len(),
{
    if hops.len() > 0 {
        lemma_line_end(focal, hops.drop_last(), dir);
    }
}

proof fn lemma_walk_lines_distinct(
    focal: Seq<char>,
    paths: Seq<Vec<Edge>>,
    lines: Seq<Seq<TokenV>>,
    dir: RelationshipDirection,
)
    requires
        seq![focal].add(ends_of(focal, paths)).no_duplicates(),
        lines.len() == paths.len(),
        forall|i: int| 0 <= i < paths.len() ==> #[trigger] lines[i] == line_tokens(focal, hops_of(paths)[i], dir),
    ensures
        distinct_ends(focal, lines),
{
    let all = seq![focal].add(ends_of(focal, paths));
    assert forall|i: int| 0 <= i < lines.len() implies (#[trigger] lines[i]).last() == TokenV::Value(all[i + 1]) by {
        lemma_line_end(focal, hops_of(paths)[i], dir);
    }
    assert forall|i: int, j: int|
        0 <= i < lines.len() && 0 <= j < lines.len() && i != j implies (#[trigger] lines[i]).last()
            != (#[trigger] lines[j]).last() by {
        assert(lines[i].last() == TokenV::Value(all[i + 1]));
        assert(lines[j].last() == TokenV::Value(all[j + 1]));
    }
    assert forall|i: int| 0 <= i < lines.len() implies (#[trigger] lines[i]).last() != TokenV::Value(focal) by {
        assert(lines[i].last() == TokenV::Value(all[i + 1]));
        assert(all[0] == focal);
    }
}

fn arrow_token(dir: RelationshipDirection) -> (r: OutputToken)
    ensures
        r@ == arrow(dir),
{
    match dir {
        RelationshipDirection::Parent => OutputToken::InArrow,
        RelationshipDirection::Child => OutputToken::OutArrow,
    }
}

/// The line that describes path `p` from `focal`.
pub fn line_of(focal: &str, p: &Vec<Edge>, dir: RelationshipDirection) -> (r: OutputLine)
    ensures
        r@ == line_tokens(focal@, edges_view(p@), dir),
{
    let mut out = OutputLine::new();
    out.push(OutputToken::Value(focal.to_owned()));
    let mut i: usize = 0;
    assert(out@ =~= line_tokens(focal@, edges_view(p@).subrange(0, 0), dir));
    while i < p.len()
        invariant
            i <= p@.len(),
            out@ == line_tokens(focal@, edges_view(p@).subrange(0, i as int), dir),
        decreases p@.len() - i,
    {
        out.push(arrow_token(dir));
        out.push(OutputToken::Value(p[i].relationship_id.clone()));
        out.push(arrow_token(dir));
        out.push(OutputToken::Value(p[i].endpoint_id.clone()));
        proof {
            let h = edges_view(p@).subrange(0, i + 1);
            assert(h.drop_last() =~= edges_view(p@).subrange(0, i as int));
            assert(out@ =~= line_tokens(focal@, h, dir));
        }
        i = i + 1;
    }
    assert(edges_view(p@).subrange(0, p@.len() as int) =~= edges_view(p@));
    out
}

fn lines_of(focal: &str, paths: &Vec<Vec<Edge>>, dir: RelationshipDirection) -> (r: Vec<OutputLine>)
    ensures
        r@.len() == paths@.len(),
        forall|i: int|
            0 <= i < paths@.len() ==> (#[trigger] r@[i])@ == line_tokens(
                focal@,
                hops_of(paths@)[i],
                dir,
            ),
{
    let mut out: Vec<OutputLine> = Vec::new();
    let mut i: usize = 0;
    while i < paths.len()
        invariant
            i <= paths@.len(),
            out@.len() == i,
            forall|j: int|
                0 <= j < i ==> (#[trigger] out@[j])@ == line_tokens(focal@, hops_of(paths@)[j], dir),
        decreases paths@.len() - i,
    {
        out.push(line_of(focal, &paths[i], dir));
        i = i + 1;
    }
    out
}

pub open spec fn keys_of(data: Seq<(String, Json)>) -> Seq<Seq<char>> {
    data.map_values(|p: (String, Json)| p.0@)
}

fn has_key(data: &Vec<(String, Json)>, id: &str) -> (r: bool)
    ensures
        r == keys_of(data@).contains(id@),
{
    let mut i: usize = 0;
    while i < data.len()
        invariant
            i <= data@.len(),
            forall|j: int| 0 <= j < i ==> keys_of(data@)[j] != id@,
        decreases data@.len() - i,
    {
        if string_eq(data[i].0.as_str(), id) {
            assert(keys_of(data@)[i as int] == id@);
            return true;
        }
        i = i + 1;
    }
    false
}

/// Adds to `data` the JSON form of `id` from `model`, unless `data` holds it
/// already or the model has no element or relationship of that id.
fn add_entity(data: &mut Vec<(String, Json)>, model: &ModelData, id: &String)
    requires
        keys_of(old(data)@).no_duplicates(),
        forall|k: int|
            0 <= k < old(data)@.len() ==> model.entity_json((#[trigger] old(data)@[k]).0@) == Some(
                old(data)@[k].1@,
            ),
    ensures
        keys_of(final(data)@).no_duplicates(),
        forall|k: int|
            0 <= k < final(data)@.len() ==> model.entity_json((#[trigger] final(data)@[k]).0@)
                == Some(final(data)@[k].1@),
        forall|k: Seq<char>| keys_of(old(data)@).contains(k) ==> keys_of(final(data)@).contains(k),
        model.entity_json(id@) is Some ==> keys_of(final(data)@).contains(id@),
        forall|k: Seq<char>|
            #[trigger] keys_of(final(data)@).contains(k) ==> keys_of(old(data)@).contains(k) || k
                == id@,
{
    if has_key(data, id.as_str()) {
        return;
    }
    match model.find_entity_json(id.as_str()) {
        Some(j) => {
            let ghost before = data@;
            data.push((id.clone(), j));
            proof {
                assert(keys_of(data@) =~= keys_of(before).push(id@));
                assert(keys_of(data@)[before.len() as int] == id@);
                assert forall|k: Seq<char>| keys_of(before).contains(k) implies keys_of(
                    data@,
                ).contains(k) by {
                    let j = choose|j: int| 0 <= j < keys_of(before).len() && keys_of(before)[j] == k;
                    assert(keys_of(data@)[j] == k);
                }
                assert forall|k: Seq<char>| #[trigger] keys_of(data@).contains(k) implies keys_of(
                    before,
                ).contains(k) || k == id@ by {
                    let j = choose|j: int| 0 <= j < keys_of(data@).len() && keys_of(data@)[j] == k;
                    if j < before.len() {
                        assert(keys_of(before)[j] == k);
                    }
                }
            }
        },
        None => {},
    }
}

/// Every relationship and element that `paths` name and that `model` holds
/// has its entry in `data`.
pub open spec fn names_resolved(
    model: ModelData,
    data: Seq<(String, Json)>,
    paths: Seq<Seq<(Seq<char>, Seq<char>)>>,
) -> bool {
    forall|i: int, t: int|
        0 <= i < paths.len() && 0 <= t < paths[i].len() ==> {
            &&& (model.entity_json((#[trigger] paths[i][t]).0) is Some ==> keys_of(data).contains(
                paths[i][t].0,
            ))
            &&& (model.entity_json(paths[i][t].1) is Some ==> keys_of(data).contains(paths[i][t].1))
        }
}

/// `k` is the id of a relationship or element on one of the walks `paths`.
pub open spec fn named_in(paths: Seq<Seq<(Seq<char>, Seq<char>)>>, k: Seq<char>) -> bool {
    exists|i: int, t: int|
        0 <= i < paths.len() && 0 <= t < paths[i].len() && (#[trigger] paths[i][t].0 == k
            || paths[i][t].1 == k)
}

fn add_paths(data: &mut Vec<(String, Json)>, model: &ModelData, paths: &Vec<Vec<Edge>>)
    requires
        keys_of(old(data)@).no_duplicates(),
        forall|k: int|
            0 <= k < old(data)@.len() ==> model.entity_json((#[trigger] old(data)@[k]).0@) == Some(
                old(data)@[k].1@,
            ),
    ensures
        keys_of(final(data)@).no_duplicates(),
        forall|k: int|
            0 <= k < final(data)@.len() ==> model.entity_json((#[trigger] final(data)@[k]).0@)
                == Some(final(data)@[k].1@),
        forall|k: Seq<char>| keys_of(old(data)@).contains(k) ==> keys_of(final(data)@).contains(k),
        names_resolved(*model, final(data)@, hops_of(paths@)),
        forall|k: Seq<char>|
            #[trigger] keys_of(final(data)@).contains(k) ==> keys_of(old(data)@).contains(k)
                || named_in(hops_of(paths@), k),
{
    let ghost hs = hops_of(paths@);
    let mut i: usize = 0;
    while i < paths.len()
        invariant
            i <= paths@.len(),
            hs == hops_of(paths@),
            keys_of(data@).no_duplicates(),
            forall|k: int|
                0 <= k < data@.len() ==> model.entity_json((#[trigger] data@[k]).0@) == Some(
                    data@[k].1@,
                ),
            forall|k: Seq<char>| keys_of(old(data)@).contains(k) ==> keys_of(data@).contains(k),
            names_resolved(*model, data@, hs.subrange(0, i as int)),
            forall|k: Seq<char>|
                #[trigger] keys_of(data@).contains(k) ==> keys_of(old(data)@).contains(k)
                    || named_in(hs, k),
        decreases paths@.len() - i,
    {
        let p = &paths[i];
        let ghost before_path = data@;
        let mut t: usize = 0;
        while t < p.len()
            invariant
                t <= p@.len(),
                hs == hops_of(paths@),
                hs[i as int] == edges_view(p@),
                i < paths@.len(),
                keys_of(data@).no_duplicates(),
                forall|k: int|
                    0 <= k < data@.len() ==> model.entity_json((#[trigger] data@[k]).0@) == Some(
                        data@[k].1@,
                    ),
                forall|k: Seq<char>| keys_of(old(data)@).contains(k) ==> keys_of(data@).contains(k),
                forall|k: Seq<char>| keys_of(before_path).contains(k) ==> keys_of(data@).contains(k),
                forall|k: Seq<char>|
                    #[trigger] keys_of(data@).contains(k) ==> keys_of(old(data)@).contains(k)
                        || named_in(hs, k),
                names_resolved(*model, before_path, hs.subrange(0, i as int)),
                forall|u: int|
                    0 <= u < t ==> (model.entity_json((#[trigger] hs[i as int][u]).0) is Some
                        ==> keys_of(data@).contains(hs[i as int][u].0)) && (model.entity_json(
                        hs[i as int][u].1,
                    ) is Some ==> keys_of(data@).contains(hs[i as int][u].1)),
            decreases p@.len() - t,
        {
            let ghost d0 = data@;
            add_entity(data, model, &p[t].relationship_id);
            let ghost d1 = data@;
            add_entity(data, model, &p[t].endpoint_id);
            proof {
                assert(hs[i as int][t as int] == p@[t as int]@);
                assert forall|k: Seq<char>| #[trigger] keys_of(data@).contains(k) implies keys_of(
                    old(data)@,
                ).contains(k) || named_in(hs, k) by {
                    if k == hs[i as int][t as int].0 || k == hs[i as int][t as int].1 {
                        assert(named_in(hs, k));
                    } else {
                        assert(keys_of(d1).contains(k));
                        assert(keys_of(d0).contains(k));
                    }
                }
                assert forall|u: int|
                    0 <= u <= t implies (model.entity_json((#[trigger] hs[i as int][u]).0) is Some
                        ==> keys_of(data@).contains(hs[i as int][u].0)) && (model.entity_json(
                        hs[i as int][u].1,
                    ) is Some ==> keys_of(data@).contains(hs[i as int][u].1)) by {
                    if u < t {
                        if keys_of(d0).contains(hs[i as int][u].0) {
                            assert(keys_of(d1).contains(hs[i as int][u].0));
                        }
                        if keys_of(d0).contains(hs[i as int][u].1) {
                            assert(keys_of(d1).contains(hs[i as int][u].1));
                        }
                    } else {
                        if keys_of(d1).contains(hs[i as int][u].0) {
                            assert(keys_of(data@).contains(hs[i as int][u].0));
                        }
                    }
                }
            }
            t = t + 1;
        }
        proof {
            let sub = hs.subrange(0, i + 1);
            assert forall|a: int, b: int|
                0 <= a < sub.len() && 0 <= b < sub[a].len() implies {
                &&& (model.entity_json((#[trigger] sub[a][b]).0) is Some ==> keys_of(data@).contains(
                    sub[a][b].0,
                ))
                &&& (model.entity_json(sub[a][b].1) is Some ==> keys_of(data@).contains(sub[a][b].1))
            } by {
                if a < i {
                    let prev = hs.subrange(0, i as int);
                    assert(prev[a][b] == sub[a][b]);
                    if model.entity_json(sub[a][b].0) is Some {
                        assert(keys_of(before_path).contains(sub[a][b].0));
                    }
                    if model.entity_json(sub[a][b].1) is Some {
                        assert(keys_of(before_path).contains(sub[a][b].1));
                    }
                } else {
                    assert(sub[a][b] == hs[i as int][b]);
                }
            }
        }
        i = i + 1;
    }
    assert(hs.subrange(0, paths@.len() as int) == hs);
}

/// Builds the answer for the walks `parents` and `children` from `focal`: their
/// lines, and the JSON form of each element and relationship they name.
pub fn build_output(
    model: &ModelData,
    focal: &str,
    parents: &Vec<Vec<Edge>>,
    children: &Vec<Vec<Edge>>,
) -> (r: OutputGraph)
    ensures
        r.parent_lines@.len() == parents@.len(),
        forall|i: int|
            0 <= i < parents@.len() ==> (#[trigger] r.parent_lines@[i])@ == line_tokens(
                focal@,
                hops_of(parents@)[i],
                RelationshipDirection::Parent,
            ),
        r.child_lines@.len() == children@.len(),
        forall|i: int|
            0 <= i < children@.len() ==> (#[trigger] r.child_lines@[i])@ == line_tokens(
                focal@,
                hops_of(children@)[i],
                RelationshipDirection::Child,
            ),
        keys_of(r.elements_data@).no_duplicates(),
        forall|k: int|
            0 <= k < r.elements_data@.len() ==> model.entity_json(
                (#[trigger] r.elements_data@[k]).0@,
            ) == Some(r.elements_data@[k].1@),
        model.entity_json(focal@) is Some ==> keys_of(r.elements_data@).contains(focal@),
        names_resolved(*model, r.elements_data@, hops_of(parents@)),
        names_resolved(*model, r.elements_data@, hops_of(children@)),
        forall|k: Seq<char>|
            #[trigger] keys_of(r.elements_data@).contains(k) ==> k == focal@ || named_in(
                hops_of(parents@),
                k,
            ) || named_in(hops_of(children@), k),
{
    let parent_lines = lines_of(focal, parents, RelationshipDirection::Parent);
    let child_lines = lines_of(focal, children, RelationshipDirection::Child);
    let mut data: Vec<(String, Json)> = Vec::new();
    assert(keys_of(data@) =~= seq![]);
    add_entity(&mut data, model, &focal.to_owned());
    let ghost d1 = data@;
    add_paths(&mut data, model, parents);
    let ghost d2 = data@;
    add_paths(&mut data, model, children);
    proof {
        assert forall|k: Seq<char>| #[trigger] keys_of(data@).contains(k) implies k == focal@
            || named_in(hops_of(parents@), k) || named_in(hops_of(children@), k) by {
            if !named_in(hops_of(children@), k) {
                assert(keys_of(d2).contains(k));
                if !named_in(hops_of(parents@), k) {
                    assert(keys_of(d1).contains(k));
                    if k != focal@ {
                        assert(keys_of(Seq::<(String, Json)>::empty()).contains(k));
                    }
                }
            }
        }
    }
    OutputGraph { parent_lines, child_lines, elements_data: data }
}

proof fn lemma_line_len(focal: Seq<char>, hops: Seq<(Seq<char>, Seq<char>)>, dir: RelationshipDirection)
    ensures
        line_tokens(focal, hops, dir).len() == 1 + 4 * hops.len(),
        line_tokens(focal, hops, dir)[0] == TokenV::Value(focal),
    decreases hops.len(),
{
    if hops.len() > 0 {
        lemma_line_len(focal, hops.drop_last(), dir);
    }
}

/// The ids on a line are the focal id and the ids of its hops, each hop's
/// relationship at `4 k + 2` and element at `4 k + 4`.
proof fn lemma_line_values(
    focal: Seq<char>,
    hops: Seq<(Seq<char>, Seq<char>)>,
    dir: RelationshipDirection,
)
    ensures
        forall|t: int|
            0 <= t < line_tokens(focal, hops, dir).len() && (#[trigger] line_tokens(
                focal,
                hops,
                dir,
            )[t]) is Value ==> line_tokens(focal, hops, dir)[t]->Value_0 == focal || named_in(
                seq![hops],
                line_tokens(focal, hops, dir)[t]->Value_0,
            ),
        forall|k: int|
            0 <= k < hops.len() ==> line_tokens(focal, hops, dir)[4 * k + 2] == TokenV::Value(
                (#[trigger] hops[k]).0,
            ) && line_tokens(focal, hops, dir)[4 * k + 4] == TokenV::Value(hops[k].1),
    decreases hops.len(),
{
    lemma_line_len(focal, hops, dir);
    if hops.len() > 0 {
        let h = hops.drop_last();
        lemma_line_values(focal, h, dir);
        lemma_line_len(focal, h, dir);
        let pre = line_tokens(focal, h, dir);
        let all = line_tokens(focal, hops, dir);
        assert forall|t: int| 0 <= t < all.len() && (#[trigger] all[t]) is Value implies all[t]->Value_0
            == focal || named_in(seq![hops], all[t]->Value_0) by {
            let n = hops.len() - 1;
            if t < pre.len() {
                assert(all[t] == pre[t]);
                if pre[t]->Value_0 != focal {
                    assert(named_in(seq![h], pre[t]->Value_0));
                    let (a, b) = choose|a: int, b: int|
                        0 <= a < seq![h].len() && 0 <= b < seq![h][a].len() && (#[trigger] seq![h][a][b].0
                            == pre[t]->Value_0 || seq![h][a][b].1 == pre[t]->Value_0);
                    assert(seq![hops][0][b] == seq![h][a][b]);
                }
            } else if t == pre.len() + 1 {
                assert(seq![hops][0][n].0 == all[t]->Value_0);
            } else if t == pre.len() + 3 {
                assert(seq![hops][0][n].1 == all[t]->Value_0);
            }
        }
        assert forall|k: int| 0 <= k < hops.len() implies all[4 * k + 2] == TokenV::Value(
            (#[trigger] hops[k]).0,
        ) && all[4 * k + 4] == TokenV::Value(hops[k].1) by {
            if k < hops.len() - 1 {
                assert(h[k] == hops[k]);
                assert(all[4 * k + 2] == pre[4 * k + 2]);
                assert(all[4 * k + 4] == pre[4 * k + 4]);
            }
        }
    }
}

/// Every id on `lines` that names an element or relationship of `model` is a
/// key of `data`.
pub open spec fn lines_resolved(model: ModelData, data: Seq<(String, Json)>, lines: Seq<Seq<TokenV>>) -> bool {
    forall|i: int, t: int|
        0 <= i < lines.len() && 0 <= t < lines[i].len() && (#[trigger] lines[i][t]) is Value
            && model.entity_json(lines[i][t]->Value_0) is Some ==> keys_of(data).contains(
            lines[i][t]->Value_0,
        )
}

/// `k` stands on one of `lines`.
pub open spec fn on_lines(lines: Seq<Seq<TokenV>>, k: Seq<char>) -> bool {
    exists|i: int, t: int|
        0 <= i < lines.len() && 0 <= t < lines[i].len() && #[trigger] lines[i][t] == TokenV::Value(k)
}

proof fn lemma_lines_named(
    model: ModelData,
    data: Seq<(String, Json)>,
    focal: Seq<char>,
    paths: Seq<Vec<Edge>>,
    lines: Seq<Seq<TokenV>>,
    dir: RelationshipDirection,
)
    requires
        lines.len() == paths.len(),
        forall|i: int| 0 <= i < paths.len() ==> #[trigger] lines[i] == line_tokens(focal, hops_of(paths)[i], dir),
        names_resolved(model, data, hops_of(paths)),
        model.entity_json(focal) is Some ==> keys_of(data).contains(focal),
    ensures
        lines_resolved(model, data, lines),
        forall|k: Seq<char>| #[trigger] named_in(hops_of(paths), k) ==> on_lines(lines, k),
{
    let hs = hops_of(paths);
    assert forall|i: int, t: int|
        0 <= i < lines.len() && 0 <= t < lines[i].len() && (#[trigger] lines[i][t]) is Value
            && model.entity_json(lines[i][t]->Value_0) is Some implies keys_of(data).contains(
            lines[i][t]->Value_0,
        ) by {
        lemma_line_values(focal, hs[i], dir);
        let x = lines[i][t]->Value_0;
        assert(line_tokens(focal, hs[i], dir)[t] == lines[i][t]);
        if x != focal {
            assert(named_in(seq![hs[i]], x));
            let (a, b) = choose|a: int, b: int|
                0 <= a < seq![hs[i]].len() && 0 <= b < seq![hs[i]][a].len() && (#[trigger] seq![hs[i]][a][b].0
                    == x || seq![hs[i]][a][b].1 == x);
            assert(hs[i][b] == seq![hs[i]][a][b]);
        }
    }
    assert forall|k: Seq<char>| #[trigger] named_in(hs, k) implies on_lines(lines, k) by {
        let (i, t) = choose|i: int, t: int|
            0 <= i < hs.len() && 0 <= t < hs[i].len() && (#[trigger] hs[i][t].0 == k || hs[i][t].1 == k);
        lemma_line_values(focal, hs[i], dir);
        lemma_line_len(focal, hs[i], dir);
        assert(hs[i][t] == hs[i][t]);
        if hs[i][t].0 == k {
            assert(lines[i][4 * t + 2] == TokenV::Value(k));
        } else {
            assert(lines[i][4 * t + 4] == TokenV::Value(k));
        }
    }
}

/// `out` answers the relationship query for element `id` of `model` on graph
/// `g`: each line describes a walk within the depth bound, every reachable
/// element ends exactly one line, and `elements_data` holds the JSON form of
/// each element and relationship it names, once.
pub open spec fn detail_answer(
    model: ModelData,
    g: GraphV,
    id: Seq<char>,
    parent_depth: usize,
    child_depth: usize,
    out: OutputGraph,
) -> bool {
            &&& forall|i: int|
                0 <= i < out.parent_lines@.len() ==> describes_walk(
                    g,
                    id,
                    (#[trigger] out.parent_lines@[i])@,
                    parent_depth as nat,
                    RelationshipDirection::Parent,
                )
            &&& forall|i: int|
                0 <= i < out.child_lines@.len() ==> describes_walk(
                    g,
                    id,
                    (#[trigger] out.child_lines@[i])@,
                    child_depth as nat,
                    RelationshipDirection::Child,
                )
            &&& covers(
                g,
                id,
                out.parent_lines@.map_values(|l: OutputLine| l@),
                parent_depth as nat,
                RelationshipDirection::Parent,
            )
            &&& covers(
                g,
                id,
                out.child_lines@.map_values(|l: OutputLine| l@),
                child_depth as nat,
                RelationshipDirection::Child,
            )
            &&& distinct_ends(id, out.parent_lines@.map_values(|l: OutputLine| l@))
            &&& distinct_ends(id, out.child_lines@.map_values(|l: OutputLine| l@))
            &&& forall|k: int|
                0 <= k < out.elements_data@.len() ==> model.entity_json(
                    (#[trigger] out.elements_data@[k]).0@,
                ) == Some(out.elements_data@[k].1@)
            &&& keys_of(out.elements_data@).no_duplicates()
            &&& (model.entity_json(id) is Some ==> keys_of(out.elements_data@).contains(id))
            &&& lines_resolved(model, out.elements_data@, out.parent_lines@.map_values(|l: OutputLine| l@))
            &&& lines_resolved(model, out.elements_data@, out.child_lines@.map_values(|l: OutputLine| l@))
            &&& forall|k: Seq<char>|
                #[trigger] keys_of(out.elements_data@).contains(k) ==> k == id || on_lines(
                    out.parent_lines@.map_values(|l: OutputLine| l@),
                    k,
                ) || on_lines(out.child_lines@.map_values(|l: OutputLine| l@), k)
}

/// Answers a relationship query on `graph`, the graph of `model`:
/// the ancestors of `id` up to `parent_depth` hops and its descendants up to
/// `child_depth` hops, one line each. An empty id is invalid input; an id
/// without a connector is not found.
pub fn get_relationship_detail(
    model: &ModelData,
    graph: &ElementConnectorGraph,
    id: &str,
    parent_depth: usize,
    child_depth: usize,
) -> (r: Result<OutputGraph, ModelError>)
    ensures
        id@.len() == 0 ==> r matches Err(ModelError::InvalidInput),
        id@.len() > 0 && !graph@.has(id@) ==> (r matches Err(ModelError::ModelNotFound(m)) && m@ == id@),
        id@.len() > 0 && graph@.has(id@) ==> (r matches Ok(out) && detail_answer(
            *model,
            graph@,
            id@,
            parent_depth,
            child_depth,
            out,
        )),
{
    if id.unicode_len() == 0 {
        return Err(ModelError::InvalidInput);
    }
    if graph.get_connection(id).is_none() {
        return Err(ModelError::ModelNotFound(id.to_owned()));
    }
    let parents = walk(graph, id, parent_depth, RelationshipDirection::Parent);
    let children = walk(graph, id, child_depth, RelationshipDirection::Child);
    let out = build_output(model, id, &parents, &children);
    proof {
        let pl = out.parent_lines@.map_values(|l: OutputLine| l@);
        let cl = out.child_lines@.map_values(|l: OutputLine| l@);
        lemma_walk_lines_distinct(id@, parents@, pl, RelationshipDirection::Parent);
        lemma_walk_lines_distinct(id@, children@, cl, RelationshipDirection::Child);
        lemma_walk_lines_cover(graph@, id@, parents@, pl, parent_depth as nat, RelationshipDirection::Parent);
        lemma_walk_lines_cover(graph@, id@, children@, cl, child_depth as nat, RelationshipDirection::Child);
        lemma_lines_named(*model, out.elements_data@, id@, parents@, pl, RelationshipDirection::Parent);
        lemma_lines_named(*model, out.elements_data@, id@, children@, cl, RelationshipDirection::Child);
    }
    assert forall|i: int| 0 <= i < out.parent_lines@.len() implies describes_walk(
        graph@,
        id@,
        (#[trigger] out.parent_lines@[i])@,
        parent_depth as nat,
        RelationshipDirection::Parent,
    ) by {
        let h = hops_of(parents@)[i];
        assert(1 <= h.len() <= parent_depth && is_walk(graph@, id@, h, RelationshipDirection::Parent)
            && path_nodes(id@, h).no_duplicates() && out.parent_lines@[i]@ == line_tokens(id@, h, RelationshipDirection::Parent));
    }
    assert forall|i: int| 0 <= i < out.child_lines@.len() implies describes_walk(
        graph@,
        id@,
        (#[trigger] out.child_lines@[i])@,
        child_depth as nat,
        RelationshipDirection::Child,
    ) by {
        let h = hops_of(children@)[i];
        assert(1 <= h.len() <= child_depth && is_walk(graph@, id@, h, RelationshipDirection::Child)
            && path_nodes(id@, h).no_duplicates() && out.child_lines@[i]@ == line_tokens(id@, h, RelationshipDirection::Child));
    }
    Ok(out)
}

/// `cached` when there is one, else the graph built from `model`; the flag
/// tells whether it was built.
pub fn graph_from(cached: Option<ElementConnectorGraph>, model: &ModelData) -> (r: (
    ElementConnectorGraph,
    bool,
))
    ensures
        cached is None ==> r.1 && r.0@ == built(model.elements@, model.relationships@),
        cached matches Some(g) ==> !r.1 && r.0 == g,
{
    match cached {
        Some(graph) => (graph, false),
        None => (
            ElementConnectorGraph::build(model.elements.as_slice(), model.relationships.as_slice()),
            true,
        ),
    }
}

/// The graph of version `version` of model `model_id`, whose data is `model`:
/// from the graph cache, or built and cached, which the flag tells.
pub fn graph_of(state: &AppState, model_id: &str, version: u32, model: &ModelData) -> (r: (
    ElementConnectorGraph,
    bool,
))
    ensures
        r.1 ==> r.0@ == built(model.elements@, model.relationships@),
{
    let graph_cache = state.get_graph_cache();
    let (graph, fresh) = graph_from(graph_cache.get(model_id, version), model);
    if fresh {
        graph_cache.insert(model_id, version, &graph);
    }
    (graph, fresh)
}

/// Answers a relationship query on the cached version `version` of model
/// `model_id`. Empty ids are invalid input; a model that is not cached is not
/// found.
pub fn relationship_detail(
    state: &AppState,
    model_id: &str,
    version: u32,
    id: &str,
    parent_depth: usize,
    child_depth: usize,
) -> (r: Result<OutputGraph, ModelError>)
    ensures
        model_id@.len() == 0 || id@.len() == 0 ==> (r matches Err(ModelError::InvalidInput)),
        r matches Err(e) ==> (e is InvalidInput || e is ModelNotFound),
        r matches Ok(out) ==> exists|m: ModelData, g: GraphV|
            #[trigger] detail_answer(m, g, id@, parent_depth, child_depth, out),
{
    if model_id.unicode_len() == 0 || id.unicode_len() == 0 {
        return Err(ModelError::InvalidInput);
    }
    let model = match state.get_model_cache().get(model_id, version) {
        Some(m) => m,
        None => return Err(ModelError::ModelNotFound(model_id.to_owned())),
    };
    let (graph, _) = graph_of(state, model_id, version, &model);
    let r = get_relationship_detail(&model, &graph, id, parent_depth, child_depth);
    proof {
        assert(r matches Ok(out) ==> detail_answer(model, graph@, id@, parent_depth, child_depth, out));
    }
    r
}

} // verus!
