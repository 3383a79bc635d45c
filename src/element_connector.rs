//! The adjacency index over a model's elements and relationships.
use vstd::prelude::*;
use crate::cubs_model::{Element, Relationship, LinkV, links_of, ids_of};

verus! {

/// One end of a relationship as seen from an element: the relationship id
/// and the element at the other end.
#[derive(Clone, Debug)]
pub struct Edge {
    pub relationship_id: String,
    pub endpoint_id: String,
}

impl View for Edge {
    type V = (Seq<char>, Seq<char>);

    open spec fn view(&self) -> (Seq<char>, Seq<char>) {
        (self.relationship_id@, self.endpoint_id@)
    }
}

pub open spec fn edges_view(v: Seq<Edge>) -> Seq<(Seq<char>, Seq<char>)> {
    v.map_values(|e: Edge| e@)
}

/// The adjacency record of one element.
#[derive(Clone, Debug)]
pub struct ElementConnector {
    pub element_id: String,
    pub in_path: Vec<Edge>,
    pub out_path: Vec<Edge>,
}

/// Model of a connector: its element id, its incoming edges
/// (relationship, source) and its outgoing edges (relationship, target).
pub struct ConnectorV {
    pub id: Seq<char>,
    pub ins: Seq<(Seq<char>, Seq<char>)>,
    pub outs: Seq<(Seq<char>, Seq<char>)>,
}

impl View for ElementConnector {
    type V = ConnectorV;

    open spec fn view(&self) -> ConnectorV {
        ConnectorV {
            id: self.element_id@,
            ins: edges_view(self.in_path@),
            outs: edges_view(self.out_path@),
        }
    }
}

/// The adjacency index: one connector per element, and the ids of the
/// relationships whose both ends were found.
#[derive(Clone, Debug)]
pub struct ElementConnectorGraph {
    pub connectors: Vec<ElementConnector>,
    pub connected_relationship: Vec<String>,
}

pub struct GraphV {
    pub connectors: Seq<ConnectorV>,
    pub connected: Seq<Seq<char>>,
}

impl View for ElementConnectorGraph {
    type V = GraphV;

    open spec fn view(&self) -> GraphV {
        GraphV {
            connectors: self.connectors@.map_values(|c: ElementConnector| c@),
            connected: self.connected_relationship@.map_values(|s: String| s@),
        }
    }
}

impl GraphV {
    pub open spec fn has(self, id: Seq<char>) -> bool {
        exists|i: int| 0 <= i < self.connectors.len() && #[trigger] self.connectors[i].id == id
    }

    /// No two connectors share an element id.
    pub open spec fn wf(self) -> bool {
        forall|i: int, j: int|
            0 <= i < self.connectors.len() && 0 <= j < self.connectors.len() && i != j
                ==> #[trigger] self.connectors[i].id != #[trigger] self.connectors[j].id
    }

    /// The connector of element `id`, if there is one (the first, were there several).
    pub open spec fn lookup(self, id: Seq<char>) -> Option<ConnectorV> {
        let i = first_index(self.connectors, id);
        if i >= 0 {
            Some(self.connectors[i])
        } else {
            None
        }
    }

    /// The graph after registering element `id`: unchanged if it is already there,
    /// else with a new connector without edges at the end.
    pub open spec fn with_connector(self, id: Seq<char>) -> GraphV {
        if self.has(id) {
            self
        } else {
            GraphV {
                connectors: self.connectors.push(ConnectorV { id, ins: seq![], outs: seq![] }),
                connected: self.connected,
            }
        }
    }

    /// The graph after adding relationship `l`: the source gains an outgoing edge,
    /// the target an incoming one, each where it exists.
    pub open spec fn with_link(self, l: LinkV) -> GraphV {
        GraphV {
            connectors: self.connectors.map_values(
                |c: ConnectorV|
                    ConnectorV {
                        id: c.id,
                        ins: if c.id == l.target {
                            c.ins.push((l.id, l.source))
                        } else {
                            c.ins
                        },
                        outs: if c.id == l.source {
                            c.outs.push((l.id, l.target))
                        } else {
                            c.outs
                        },
                    },
            ),
            connected: if self.has(l.source) && self.has(l.target) {
                self.connected.push(l.id)
            } else {
                self.connected
            },
        }
    }
}

/// The index of the first connector of `cs` for element `id`, or -1.
pub open spec fn first_index(cs: Seq<ConnectorV>, id: Seq<char>) -> int
    decreases cs.len(),
{
    if cs.len() == 0 {
        -1
    } else {
        let p = first_index(cs.drop_last(), id);
        if p >= 0 {
            p
        } else if cs.last().id == id {
            cs.len() - 1
        } else {
            -1
        }
    }
}

pub proof fn lemma_first_index(cs: Seq<ConnectorV>, id: Seq<char>)
    ensures
        -1 <= first_index(cs, id) < cs.len(),
        first_index(cs, id) >= 0 ==> cs[first_index(cs, id)].id == id,
        forall|j: int| 0 <= j < first_index(cs, id) ==> #[trigger] cs[j].id != id,
        first_index(cs, id) < 0 ==> forall|j: int| 0 <= j < cs.len() ==> #[trigger] cs[j].id != id,
    decreases cs.len(),
{
    if cs.len() > 0 {
        lemma_first_index(cs.drop_last(), id);
        let p = cs.drop_last();
        assert forall|j: int| 0 <= j < p.len() implies #[trigger] cs[j] == p[j] by {}
    }
}

/// The graph holding one connector per distinct id of `ids`, in order of first
/// appearance, without edges.
pub open spec fn registered(ids: Seq<Seq<char>>) -> GraphV
    decreases ids.len(),
{
    if ids.len() == 0 {
        GraphV { connectors: seq![], connected: seq![] }
    } else {
        registered(ids.drop_last()).with_connector(ids.last())
    }
}

/// `g` after adding the relationships of `links` in order.
pub open spec fn linked(g: GraphV, links: Seq<LinkV>) -> GraphV
    decreases links.len(),
{
    if links.len() == 0 {
        g
    } else {
        linked(g, links.drop_last()).with_link(links.last())
    }
}

/// The graph built from `elements` and `relationships`.
pub open spec fn built(elements: Seq<Element>, relationships: Seq<Relationship>) -> GraphV {
    linked(registered(ids_of(elements)), links_of(relationships))
}

impl ElementConnectorGraph {
    /// An empty graph.
    pub fn new() -> (r: Self)
        ensures
            r@.connectors.len() == 0,
            r@.connected.len() == 0,
    {
        ElementConnectorGraph { connectors: Vec::new(), connected_relationship: Vec::new() }
    }

    fn position(&self, id: &str) -> (r: Option<usize>)
        ensures
            r matches Some(i) ==> i < self.connectors@.len() && self@.connectors[i as int].id
                == id@ && first_index(self@.connectors, id@) == i,
            r is None ==> !self@.has(id@) && first_index(self@.connectors, id@) == -1,
    {
        proof {
            lemma_first_index(self@.connectors, id@);
        }
        let mut i: usize = 0;
        while i < self.connectors.len()
            invariant
                i <= self.connectors@.len(),
                forall|j: int| 0 <= j < i ==> #[trigger] self@.connectors[j].id != id@,
            decreases self.connectors@.len() - i,
        {
            if string_eq(&self.connectors[i].element_id, id) {
                proof {
                    lemma_first_index(self@.connectors, id@);
                    let f = first_index(self@.connectors, id@);
                    assert(self@.connectors[i as int].id == id@);
                    if f < i {
                        assert(self@.connectors[f].id != id@);
                    }
                }
                return Some(i);
            }
            i = i + 1;
        }
        None
    }

    /// Registers element `id` with no edges, unless it is registered already.
    pub fn add_connector(&mut self, id: &str)
        requires
            old(self)@.wf(),
        ensures
            final(self)@ == old(self)@.with_connector(id@),
            final(self)@.wf(),
    {
        if self.position(id).is_none() {
            let c = ElementConnector {
                element_id: id.to_owned(),
                in_path: Vec::new(),
                out_path: Vec::new(),
            };
            self.connectors.push(c);
            proof {
                assert(self@.connectors =~= old(self)@.connectors.push(c@));
                assert(c@.ins =~= seq![]);
                assert(c@.outs =~= seq![]);
            }
        }
    }

    /// Adds relationship `relationship_id` from `from_id` to `to_id`. An end
    /// that is not registered is skipped.
    pub fn connect(&mut self, relationship_id: &str, from_id: &str, to_id: &str)
        requires
            old(self)@.wf(),
        ensures
            final(self)@ == old(self)@.with_link(
                LinkV { id: relationship_id@, source: from_id@, target: to_id@ },
            ),
            final(self)@.wf(),
    {
        let ghost l = LinkV { id: relationship_id@, source: from_id@, target: to_id@ };
        let ghost g0 = self@;
        let mut connected_in = false;
        let mut connected_out = false;
        let n = self.connectors.len();
        let mut i: usize = 0;
        while i < n
            invariant
                n == self.connectors@.len(),
                i <= n,
                g0 == old(self)@,
                g0.connectors.len() == n,
                l == (LinkV { id: relationship_id@, source: from_id@, target: to_id@ }),
                self.connected_relationship@ == old(self).connected_relationship@,
                forall|j: int|
                    0 <= j < i ==> #[trigger] self@.connectors[j] == g0.with_link(l).connectors[j],
                forall|j: int| i <= j < n ==> #[trigger] self@.connectors[j] == g0.connectors[j],
                connected_in <==> exists|j: int|
                    0 <= j < i && #[trigger] g0.connectors[j].id == from_id@,
                connected_out <==> exists|j: int|
                    0 <= j < i && #[trigger] g0.connectors[j].id == to_id@,
            decreases n - i,
        {
            let ghost before = self.connectors@[i as int];
            assert(self@.connectors[i as int] == g0.connectors[i as int]);
            assert(before@ == g0.connectors[i as int]);
            let ghost mid = self.connectors@;
            let ghost midv = self@.connectors;
            assert(midv == mid.map_values(|c: ElementConnector| c@));
            let is_from = string_eq(&self.connectors[i].element_id, from_id);
            let is_to = string_eq(&self.connectors[i].element_id, to_id);
            if is_from {
                let e = Edge {
                    relationship_id: relationship_id.to_owned(),
                    endpoint_id: to_id.to_owned(),
                };
                self.connectors[i].out_path.push(e);
                proof {
                    assert(edges_view(before.out_path@.push(e)) =~= edges_view(before.out_path@).push(e@));
                }
                connected_in = true;
            }
            if is_to {
                let e = Edge {
                    relationship_id: relationship_id.to_owned(),
                    endpoint_id: from_id.to_owned(),
                };
                self.connectors[i].in_path.push(e);
                proof {
                    assert(edges_view(before.in_path@.push(e)) =~= edges_view(before.in_path@).push(e@));
                }
                connected_out = true;
            }
            proof {
                let c = self.connectors@[i as int];
                assert(c.element_id@ == before.element_id@);
                let w = g0.with_link(l).connectors[i as int];
                assert(c.element_id@ == w.id);
                assert(c@.ins =~= w.ins);
                assert(c@.outs =~= w.outs);
                assert(c@ == w);
                assert(self.connectors@ == mid.update(i as int, c));
                assert forall|j: int| 0 <= j < n implies #[trigger] self@.connectors[j] == (if j
                    <= i {
                    g0.with_link(l).connectors[j]
                } else {
                    g0.connectors[j]
                }) by {
                    if j != i {
                        assert(self.connectors@[j] == mid[j]);
                        assert(midv[j] == mid[j]@);
                    }
                }
            }
            i = i + 1;
        }
        assert forall|j: int| 0 <= j < n implies #[trigger] self@.connectors[j]
            == g0.with_link(l).connectors[j] by {}
        assert(self@.connectors =~= g0.with_link(l).connectors);
        if connected_in && connected_out {
            self.connected_relationship.push(relationship_id.to_owned());
        }
        proof {
            assert(self@.connectors =~= g0.with_link(l).connectors);
            assert(self@.connected =~= g0.with_link(l).connected);
        }
    }

    /// The connector of element `id`.
    pub fn get_connection(&self, id: &str) -> (r: Option<&ElementConnector>)
        ensures
            r matches Some(c) ==> self@.lookup(id@) == Some(c@),
            r is None ==> self@.lookup(id@) is None,
            r is Some <==> self@.has(id@),
    {
        proof {
            lemma_first_index(self@.connectors, id@);
        }
        match self.position(id) {
            Some(i) => Some(&self.connectors[i]),
            None => None,
        }
    }

    /// The number of connectors, one per registered element.
    pub fn get_connection_count(&self) -> (r: usize)
        ensures
            r == self@.connectors.len(),
    {
        self.connectors.len()
    }

    /// The number of relationships whose both ends were registered.
    pub fn get_connected_relationship_count(&self) -> (r: usize)
        ensures
            r == self@.connected.len(),
    {
        self.connected_relationship.len()
    }
}

impl ElementConnectorGraph {
    /// Builds the index: one connector per element id, then each relationship
    /// in order, each end attached where its element exists.
    pub fn build(elements: &[Element], relationships: &[Relationship]) -> (r: Self)
        ensures
            r@ == built(elements@, relationships@),
            r@.wf(),
    {
        let mut g = ElementConnectorGraph::new();
        assert(g@.connectors =~= registered(seq![]).connectors);
        assert(g@.connected =~= registered(seq![]).connected);
        let mut i: usize = 0;
        while i < elements.len()
            invariant
                i <= elements@.len(),
                g@ == registered(ids_of(elements@).subrange(0, i as int)),
                g@.wf(),
            decreases elements@.len() - i,
        {
            g.add_connector(elements[i].id.as_str());
            assert(ids_of(elements@).subrange(0, i + 1).drop_last() == ids_of(elements@).subrange(
                0,
                i as int,
            ));
            i = i + 1;
        }
        assert(ids_of(elements@).subrange(0, elements@.len() as int) == ids_of(elements@));
        let ghost g0 = g@;
        let mut k: usize = 0;
        while k < relationships.len()
            invariant
                k <= relationships@.len(),
                g0 == registered(ids_of(elements@)),
                g@ == linked(g0, links_of(relationships@).subrange(0, k as int)),
                g@.wf(),
            decreases relationships@.len() - k,
        {
            let r = &relationships[k];
            g.connect(r.id.as_str(), r.source_id.as_str(), r.target_id.as_str());
            assert(links_of(relationships@).subrange(0, k + 1).drop_last() == links_of(
                relationships@,
            ).subrange(0, k as int));
            k = k + 1;
        }
        assert(links_of(relationships@).subrange(0, relationships@.len() as int) == links_of(
            relationships@,
        ));
        g
    }
}

/// The outgoing edges that `links` give element `id`, in order.
pub open spec fn out_edges_of(links: Seq<LinkV>, id: Seq<char>) -> Seq<(Seq<char>, Seq<char>)>
    decreases links.len(),
{
    if links.len() == 0 {
        seq![]
    } else if links.last().source == id {
        out_edges_of(links.drop_last(), id).push((links.last().id, links.last().target))
    } else {
        out_edges_of(links.drop_last(), id)
    }
}

/// The incoming edges that `links` give element `id`, in order.
pub open spec fn in_edges_of(links: Seq<LinkV>, id: Seq<char>) -> Seq<(Seq<char>, Seq<char>)>
    decreases links.len(),
{
    if links.len() == 0 {
        seq![]
    } else if links.last().target == id {
        in_edges_of(links.drop_last(), id).push((links.last().id, links.last().source))
    } else {
        in_edges_of(links.drop_last(), id)
    }
}

/// Registering ids yields a well-formed graph without edges, holding exactly
/// the ids that were registered.
pub proof fn lemma_registered(ids: Seq<Seq<char>>)
    ensures
        registered(ids).wf(),
        forall|i: int|
            0 <= i < registered(ids).connectors.len() ==> (#[trigger] registered(ids).connectors[i]).ins
                == Seq::<(Seq<char>, Seq<char>)>::empty() && registered(ids).connectors[i].outs
                == Seq::<(Seq<char>, Seq<char>)>::empty(),
        forall|id: Seq<char>| #[trigger] registered(ids).has(id) <==> ids.contains(id),
    decreases ids.len(),
{
    if ids.len() > 0 {
        lemma_registered(ids.drop_last());
        let p = registered(ids.drop_last());
        assert forall|id: Seq<char>| #[trigger] registered(ids).has(id) <==> ids.contains(id) by {
            if ids.contains(id) {
                let k = choose|k: int| 0 <= k < ids.len() && ids[k] == id;
                if k < ids.len() - 1 {
                    assert(ids.drop_last()[k] == id);
                    assert(p.has(id));
                    let j = choose|j: int| 0 <= j < p.connectors.len() && #[trigger] p.connectors[j].id == id;
                    assert(registered(ids).connectors[j].id == id);
                } else if !p.has(id) {
                    assert(registered(ids).connectors[p.connectors.len() as int].id == id);
                }
            }
            if registered(ids).has(id) {
                let j = choose|j: int|
                    0 <= j < registered(ids).connectors.len() && #[trigger] registered(ids).connectors[j].id == id;
                if j < p.connectors.len() {
                    assert(p.connectors[j].id == id);
                    assert(p.has(id));
                    assert(ids.drop_last().contains(id));
                    let k = choose|k: int| 0 <= k < ids.drop_last().len() && ids.drop_last()[k] == id;
                    assert(ids[k] == id);
                } else {
                    assert(ids[ids.len() - 1] == id);
                }
            }
        }
    }
}

/// Relationships only append edges: each connector keeps its element id, and
/// its lists are exactly the edges that `links` give it, in the order of `links`.
pub proof fn lemma_edge_order(g: GraphV, links: Seq<LinkV>)
    requires
        g.wf(),
        forall|i: int|
            0 <= i < g.connectors.len() ==> (#[trigger] g.connectors[i]).ins == Seq::<
                (Seq<char>, Seq<char>),
            >::empty() && g.connectors[i].outs == Seq::<(Seq<char>, Seq<char>)>::empty(),
    ensures
        linked(g, links).connectors.len() == g.connectors.len(),
        forall|i: int|
            0 <= i < g.connectors.len() ==> (#[trigger] linked(g, links).connectors[i]).id
                == g.connectors[i].id && linked(g, links).connectors[i].outs == out_edges_of(
                links,
                g.connectors[i].id,
            ) && linked(g, links).connectors[i].ins == in_edges_of(links, g.connectors[i].id),
    decreases links.len(),
{
    if links.len() > 0 {
        lemma_edge_order(g, links.drop_last());
    }
}

/// A relationship whose target is not registered adds no incoming edge: every
/// incoming list stays as it was, and only the source's outgoing list grows.
pub proof fn lemma_dangling_target(g: GraphV, l: LinkV)
    requires
        !g.has(l.target),
    ensures
        g.with_link(l).connectors.len() == g.connectors.len(),
        forall|i: int|
            0 <= i < g.connectors.len() ==> (#[trigger] g.with_link(l).connectors[i]).ins
                == g.connectors[i].ins,
        forall|i: int|
            0 <= i < g.connectors.len() ==> (#[trigger] g.with_link(l).connectors[i]).outs == if g.connectors[i].id
                == l.source {
                g.connectors[i].outs.push((l.id, l.target))
            } else {
                g.connectors[i].outs
            },
        g.with_link(l).connected == g.connected,
{
    assert forall|i: int| 0 <= i < g.connectors.len() implies (#[trigger] g.with_link(l).connectors[i]).ins
        == g.connectors[i].ins by {
        if g.connectors[i].id == l.target {
            assert(g.has(l.target));
        }
    }
}

proof fn lemma_out_edges_contain(links: Seq<LinkV>, k: int)
    requires
        0 <= k < links.len(),
    ensures
        out_edges_of(links, links[k].source).contains((links[k].id, links[k].target)),
        in_edges_of(links, links[k].target).contains((links[k].id, links[k].source)),
    decreases links.len(),
{
    let n = links.len() - 1;
    if k < n {
        lemma_out_edges_contain(links.drop_last(), k);
        let o = out_edges_of(links.drop_last(), links[k].source);
        let p = in_edges_of(links.drop_last(), links[k].target);
        let a = choose|a: int| 0 <= a < o.len() && o[a] == (links[k].id, links[k].target);
        let b = choose|b: int| 0 <= b < p.len() && p[b] == (links[k].id, links[k].source);
        if links.last().source == links[k].source {
            assert(o.push((links.last().id, links.last().target))[a] == o[a]);
        }
        if links.last().target == links[k].target {
            assert(p.push((links.last().id, links.last().source))[b] == p[b]);
        }
    } else {
        let o = out_edges_of(links.drop_last(), links[k].source);
        let p = in_edges_of(links.drop_last(), links[k].target);
        assert(o.push((links[k].id, links[k].target))[o.len() as int] == (links[k].id, links[k].target));
        assert(p.push((links[k].id, links[k].source))[p.len() as int] == (links[k].id, links[k].source));
    }
}

/// After `add_connector` for each of `ids` and then `connect` for each of
/// `links`, in order, the connector of each registered element lists as
/// outgoing edges exactly the links leaving it and as incoming edges exactly
/// those entering it, each in the order the links came.
pub proof fn lemma_connect_chain(ids: Seq<Seq<char>>, links: Seq<LinkV>, id: Seq<char>)
    requires
        ids.contains(id),
    ensures
        linked(registered(ids), links).lookup(id) matches Some(c) && c.id == id && c.outs
            == out_edges_of(links, id) && c.ins == in_edges_of(links, id),
{
    let g0 = registered(ids);
    lemma_registered(ids);
    lemma_edge_order(g0, links);
    let g = linked(g0, links);
    assert(g0.has(id));
    let j = choose|j: int| 0 <= j < g0.connectors.len() && #[trigger] g0.connectors[j].id == id;
    assert(g.connectors[j].id == id);
    lemma_first_index(g.connectors, id);
    let i = first_index(g.connectors, id);
    assert(g0.connectors[i].id == id);
}

/// In a built graph, the connector of each element lists as outgoing edges
/// exactly the relationships leaving it, and as incoming edges exactly those
/// entering it, each in the order the relationships were given.
pub proof fn lemma_built_edges(
    elements: Seq<Element>,
    relationships: Seq<Relationship>,
    id: Seq<char>,
)
    requires
        ids_of(elements).contains(id),
    ensures
        built(elements, relationships).lookup(id) matches Some(c) && c.id == id && c.outs
            == out_edges_of(links_of(relationships), id) && c.ins == in_edges_of(
            links_of(relationships),
            id,
        ),
{
    lemma_connect_chain(ids_of(elements), links_of(relationships), id);
}

/// A relationship whose two ends are both elements of the model appears in the
/// built graph as an outgoing edge of its source towards its target and as an
/// incoming edge of its target from its source.
pub proof fn lemma_resolved_link(
    elements: Seq<Element>,
    relationships: Seq<Relationship>,
    k: int,
)
    requires
        0 <= k < relationships.len(),
        ids_of(elements).contains(relationships[k].source_id@),
        ids_of(elements).contains(relationships[k].target_id@),
    ensures
        built(elements, relationships).lookup(relationships[k].source_id@) matches Some(c)
            && c.outs.contains((relationships[k].id@, relationships[k].target_id@)),
        built(elements, relationships).lookup(relationships[k].target_id@) matches Some(c)
            && c.ins.contains((relationships[k].id@, relationships[k].source_id@)),
{
    let links = links_of(relationships);
    assert(links[k] == relationships[k].link());
    lemma_out_edges_contain(links, k);
    lemma_built_edges(elements, relationships, relationships[k].source_id@);
    lemma_built_edges(elements, relationships, relationships[k].target_id@);
}

pub open spec fn in_text(edges: Seq<(Seq<char>, Seq<char>)>) -> Seq<char>
    decreases edges.len(),
{
    if edges.len() == 0 {
        seq![]
    } else {
        in_text(edges.drop_last()) + "<"@ + edges.last().1 + "> -- ("@ + edges.last().0
            + ") --> \n"@
    }
}

pub open spec fn out_text(edges: Seq<(Seq<char>, Seq<char>)>) -> Seq<char>
    decreases edges.len(),
{
    if edges.len() == 0 {
        seq![]
    } else {
        out_text(edges.drop_last()) + "                 -- ("@ + edges.last().0 + ") --> <"@
            + edges.last().1 + ">\n"@
    }
}

/// The text of a connector: a line per incoming edge, the element's own
/// line, then a line per outgoing edge.
pub open spec fn connector_text(c: ConnectorV) -> Seq<char> {
    in_text(c.ins) + "              ["@ + c.id + "] \n"@ + out_text(c.outs)
}

impl ElementConnector {
    /// The connector as text, one line per edge around the element's own line.
    pub fn to_text(&self) -> (r: String)
        ensures
            r@ == connector_text(self@),
    {
        let mut out = String::new();
        let mut i: usize = 0;
        assert(edges_view(self.in_path@).subrange(0, 0) =~= seq![]);
        while i < self.in_path.len()
            invariant
                i <= self.in_path@.len(),
                out@ == in_text(edges_view(self.in_path@).subrange(0, i as int)),
            decreases self.in_path@.len() - i,
        {
            let e = &self.in_path[i];
            let ghost before = out@;
            out.append("<");
            out.append(e.endpoint_id.as_str());
            out.append("> -- (");
            out.append(e.relationship_id.as_str());
            out.append(") --> \n");
            proof {
                reveal_strlit("<");
                reveal_strlit("> -- (");
                reveal_strlit(") --> \n");
                let h = edges_view(self.in_path@).subrange(0, i + 1);
                assert(h.drop_last() =~= edges_view(self.in_path@).subrange(0, i as int));
                assert(out@ =~= in_text(h));
            }
            i = i + 1;
        }
        assert(edges_view(self.in_path@).subrange(0, self.in_path@.len() as int) =~= edges_view(
            self.in_path@,
        ));
        let ghost ins = out@;
        out.append("              [");
        out.append(self.element_id.as_str());
        out.append("] \n");
        proof {
            reveal_strlit("              [");
            reveal_strlit("] \n");
        }
        let ghost head = out@;
        let mut k: usize = 0;
        assert(edges_view(self.out_path@).subrange(0, 0) =~= seq![]);
        assert(head =~= head + out_text(seq![]));
        while k < self.out_path.len()
            invariant
                k <= self.out_path@.len(),
                out@ == head + out_text(edges_view(self.out_path@).subrange(0, k as int)),
            decreases self.out_path@.len() - k,
        {
            let e = &self.out_path[k];
            out.append("                 -- (");
            out.append(e.relationship_id.as_str());
            out.append(") --> <");
            out.append(e.endpoint_id.as_str());
            out.append(">\n");
            proof {
                reveal_strlit("                 -- (");
                reveal_strlit(") --> <");
                reveal_strlit(">\n");
                let h = edges_view(self.out_path@).subrange(0, k + 1);
                assert(h.drop_last() =~= edges_view(self.out_path@).subrange(0, k as int));
                assert(out@ =~= head + out_text(h));
            }
            k = k + 1;
        }
        assert(edges_view(self.out_path@).subrange(0, self.out_path@.len() as int) =~= edges_view(
            self.out_path@,
        ));
        assert(out@ =~= connector_text(self@));
        out
    }
}

/// Whether two strings hold the same characters.
pub fn string_eq(a: &str, b: &str) -> (r: bool)
    ensures
        r == (a@ == b@),
{
    let la = a.unicode_len();
    if la != b.unicode_len() {
        return false;
    }
    let mut i: usize = 0;
    while i < la
        invariant
            la == a@.len(),
            la == b@.len(),
            i <= la,
            forall|j: int| 0 <= j < i ==> a@[j] == b@[j],
        decreases la - i,
    {
        if a.get_char(i) != b.get_char(i) {
            return false;
        }
        i = i + 1;
    }
    assert(a@ =~= b@);
    true
}

} // verus!
