//! The crate graph of a world with overlays.
//!
//! Every crate on disk is a node. Every overlaid crate of a session is a node of its own, rooted in
//! the overlay. A node on disk depends on nodes on disk only. A node of a session depends on nodes
//! of the same session where they exist, and on nodes on disk otherwise.
use crate::inputs::{crate_views, CrateData, CrateView};
use crate::ordered::{
    lemma_ascending_distinct, lemma_sorted_exists, lemma_sorted_keys, listed, sorted_keys, OrderedMap,
};
use crate::overlay::{overlay_views, ActiveSessionOverlay, OverlayView};
use vstd::prelude::*;

verus! {

#[derive(Clone, Copy, Debug, PartialEq, Eq, Structural)]
pub struct GraphNode {
    pub krate: u32,
    pub root_file: u32,
    pub session: Option<u64>,
}

/// An edge for the dependency at `dependency` in the list of the crate at `from`.
#[derive(Clone, Copy, Debug, PartialEq, Eq, Structural)]
pub struct GraphEdge {
    pub from: usize,
    pub to: usize,
    pub dependency: usize,
}

#[derive(Debug)]
pub struct CrateGraph {
    pub nodes: Vec<GraphNode>,
    pub edges: Vec<GraphEdge>,
}

pub open spec fn base_nodes(crates: Seq<CrateView>) -> Seq<GraphNode> {
    crates.map_values(|c: CrateView| GraphNode { krate: c.id, root_file: c.root_file, session: None })
}

/// The first `n` overlaid crates of a session.
pub open spec fn session_nodes(session: u64, crates: Map<u32, u32>, n: int) -> Seq<GraphNode> {
    Seq::new(
        n as nat,
        |i: int|
            GraphNode {
                krate: sorted_keys::<u32>(crates.dom())[i],
                root_file: crates[sorted_keys::<u32>(crates.dom())[i]],
                session: Some(session),
            },
    )
}

/// The overlaid crates of the first `n` sessions.
pub open spec fn overlay_nodes(overlays: Map<u64, OverlayView>, n: int) -> Seq<GraphNode>
    decreases n,
{
    if n <= 0 {
        Seq::empty()
    } else {
        let session = sorted_keys::<u64>(overlays.dom())[n - 1];
        let crates = overlays[session].crates;
        overlay_nodes(overlays, n - 1) + session_nodes(session, crates, sorted_keys::<u32>(crates.dom()).len() as int)
    }
}

pub open spec fn graph_nodes(crates: Seq<CrateView>, overlays: Map<u64, OverlayView>) -> Seq<GraphNode> {
    base_nodes(crates) + overlay_nodes(overlays, sorted_keys::<u64>(overlays.dom()).len() as int)
}

/// The node of a crate on disk, or in a session's overlay.
pub open spec fn node_of(nodes: Seq<GraphNode>, session: Option<u64>, krate: u32) -> Option<int>
    decreases nodes.len(),
{
    if nodes.len() == 0 {
        None
    } else if nodes.last().session == session && nodes.last().krate == krate {
        Some(nodes.len() - 1)
    } else {
        node_of(nodes.drop_last(), session, krate)
    }
}

/// Where a dependency of a node leads.
pub open spec fn target(nodes: Seq<GraphNode>, session: Option<u64>, krate: u32) -> Option<int> {
    if session is Some && node_of(nodes, session, krate) is Some {
        node_of(nodes, session, krate)
    } else {
        node_of(nodes, None, krate)
    }
}

/// The dependencies of a crate. One that is no longer there has none.
pub open spec fn dependencies_of(crates: Seq<CrateView>, krate: u32) -> Seq<u32>
    decreases crates.len(),
{
    if crates.len() == 0 {
        Seq::empty()
    } else if crates.last().id == krate {
        crates.last().dependencies
    } else {
        dependencies_of(crates.drop_last(), krate)
    }
}

/// The edges for the first `n` dependencies of a node.
pub open spec fn node_edges(nodes: Seq<GraphNode>, from: int, dependencies: Seq<u32>, n: int) -> Seq<GraphEdge>
    decreases n,
{
    if n <= 0 {
        Seq::empty()
    } else {
        let before = node_edges(nodes, from, dependencies, n - 1);
        match target(nodes, nodes[from].session, dependencies[n - 1]) {
            Some(to) => before.push(GraphEdge { from: from as usize, to: to as usize, dependency: (n - 1) as usize }),
            None => before,
        }
    }
}

/// The edges of the first `n` nodes.
pub open spec fn graph_edges(crates: Seq<CrateView>, nodes: Seq<GraphNode>, n: int) -> Seq<GraphEdge>
    decreases n,
{
    if n <= 0 {
        Seq::empty()
    } else {
        let dependencies = dependencies_of(crates, nodes[n - 1].krate);
        graph_edges(crates, nodes, n - 1) + node_edges(nodes, n - 1, dependencies, dependencies.len() as int)
    }
}

fn find_node(nodes: &Vec<GraphNode>, session: Option<u64>, krate: u32) -> (r: Option<usize>)
    ensures
        match r {
            Some(at) => node_of(nodes@, session, krate) == Some(at as int) && at < nodes.len(),
            None => node_of(nodes@, session, krate) is None,
        },
{
    let mut i: usize = nodes.len();
    proof {
        assert(nodes@.take(i as int) =~= nodes@);
    }
    while i > 0
        invariant
            i <= nodes.len(),
            node_of(nodes@, session, krate) == node_of(nodes@.take(i as int), session, krate),
        decreases i,
    {
        let node = nodes[i - 1];
        proof {
            assert(nodes@.take(i as int).drop_last() =~= nodes@.take(i - 1));
            assert(nodes@.take(i as int).last() == node);
        }
        let same_session = match (node.session, session) {
            (Some(a), Some(b)) => a == b,
            (None, None) => true,
            _ => false,
        };
        if same_session && node.krate == krate {
            return Some(i - 1);
        }
        i = i - 1;
    }
    None
}

fn find_crate(crates: &Vec<CrateData>, krate: u32) -> (r: Option<usize>)
    ensures
        match r {
            Some(at) => at < crates.len() && dependencies_of(crate_views(crates@), krate) == crates@[at as int].dependencies@,
            None => dependencies_of(crate_views(crates@), krate).len() == 0,
        },
{
    let ghost views = crate_views(crates@);
    let mut i: usize = crates.len();
    proof {
        assert(views.take(i as int) =~= views);
    }
    while i > 0
        invariant
            i <= crates.len(),
            views == crate_views(crates@),
            dependencies_of(views, krate) == dependencies_of(views.take(i as int), krate),
        decreases i,
    {
        proof {
            assert(views.take(i as int).drop_last() =~= views.take(i - 1));
            assert(views.take(i as int).last() == crates@[i - 1]@);
        }
        if crates[i - 1].id == krate {
            return Some(i - 1);
        }
        i = i - 1;
    }
    None
}

fn push_session_nodes(nodes: &mut Vec<GraphNode>, session: u64, crates: &OrderedMap<u32, u32>)
    ensures
        final(nodes)@ == old(nodes)@ + session_nodes(session, crates@, sorted_keys::<u32>(crates@.dom()).len() as int),
{
    let n = crates.len();
    let ghost start = nodes@;
    let mut i: usize = 0;
    proof {
        lemma_sorted_keys(*crates);
        assert(nodes@ =~= start + session_nodes(session, crates@, 0));
    }
    while i < n
        invariant
            i <= n,
            n == crates.keys().len(),
            listed(*crates),
            crates.keys() == sorted_keys::<u32>(crates@.dom()),
            nodes@ == start + session_nodes(session, crates@, i as int),
        decreases n - i,
    {
        nodes.push(
            GraphNode { krate: *crates.key_at(i), root_file: *crates.value_at(i), session: Some(session) },
        );
        proof {
            assert(crates@.contains_key(crates.keys()[i as int]));
            assert(nodes@ =~= start + session_nodes(session, crates@, i + 1));
        }
        i = i + 1;
    }
}

/// The crate graph of the crates on disk and the overlaid crates of all sessions.
pub fn overlay_crate_graph(crates: &Vec<CrateData>, overlays: &OrderedMap<u64, ActiveSessionOverlay>) -> (r: CrateGraph)
    ensures
        r.nodes@ == graph_nodes(crate_views(crates@), overlay_views(overlays@)),
        r.edges@ == graph_edges(crate_views(crates@), r.nodes@, r.nodes@.len() as int),
{
    let ghost views = crate_views(crates@);
    let ghost all = overlay_views(overlays@);
    let mut nodes: Vec<GraphNode> = Vec::new();
    let mut i: usize = 0;
    while i < crates.len()
        invariant
            i <= crates.len(),
            views == crate_views(crates@),
            nodes@ == base_nodes(views).take(i as int),
        decreases crates.len() - i,
    {
        nodes.push(GraphNode { krate: crates[i].id, root_file: crates[i].root_file, session: None });
        proof {
            assert(nodes@ =~= base_nodes(views).take(i + 1));
        }
        i = i + 1;
    }
    let n = overlays.len();
    let mut s: usize = 0;
    proof {
        lemma_sorted_keys(*overlays);
        assert(all.dom() =~= overlays@.dom());
        assert(base_nodes(views).take(i as int) =~= base_nodes(views));
        assert(nodes@ =~= base_nodes(views) + overlay_nodes(all, 0));
    }
    while s < n
        invariant
            s <= n,
            n == overlays.keys().len(),
            listed(*overlays),
            all == overlay_views(overlays@),
            overlays.keys() == sorted_keys::<u64>(all.dom()),
            nodes@ == base_nodes(views) + overlay_nodes(all, s as int),
        decreases n - s,
    {
        proof {
            assert(overlays@.contains_key(overlays.keys()[s as int]));
        }
        push_session_nodes(&mut nodes, *overlays.key_at(s), &overlays.value_at(s).crates);
        proof {
            assert(nodes@ =~= base_nodes(views) + overlay_nodes(all, s + 1));
        }
        s = s + 1;
    }
    let mut edges: Vec<GraphEdge> = Vec::new();
    let mut from: usize = 0;
    while from < nodes.len()
        invariant
            from <= nodes.len(),
            views == crate_views(crates@),
            edges@ == graph_edges(views, nodes@, from as int),
        decreases nodes.len() - from,
    {
        let session = nodes[from].session;
        let ghost dependencies = dependencies_of(views, nodes@[from as int].krate);
        let ghost start = edges@;
        match find_crate(crates, nodes[from].krate) {
            Some(at) => {
                let list = &crates[at].dependencies;
                let mut d: usize = 0;
                proof {
                    assert(edges@ =~= start + node_edges(nodes@, from as int, dependencies, 0));
                }
                while d < list.len()
                    invariant
                        d <= list.len(),
                        from < nodes.len(),
                        session == nodes@[from as int].session,
                        dependencies == list@,
                        edges@ == start + node_edges(nodes@, from as int, dependencies, d as int),
                    decreases list.len() - d,
                {
                    let krate: u32 = list[d];
                    let own = if session.is_some() {
                        find_node(&nodes, session, krate)
                    } else {
                        None
                    };
                    let to = if own.is_some() {
                        own
                    } else {
                        find_node(&nodes, None, krate)
                    };
                    let ghost before = node_edges(nodes@, from as int, dependencies, d as int);
                    match to {
                        Some(to) => {
                            edges.push(GraphEdge { from, to, dependency: d });
                            proof {
                                assert(target(nodes@, session, krate) == Some(to as int));
                                assert(edges@ =~= start + before.push(GraphEdge { from, to, dependency: d }));
                            }
                        },
                        None => {
                            proof {
                                assert(target(nodes@, session, krate) is None);
                            }
                        },
                    }
                    d = d + 1;
                }
            },
            None => {
                proof {
                    assert(edges@ =~= start + node_edges(nodes@, from as int, dependencies, 0));
                }
            },
        }
        from = from + 1;
    }
    CrateGraph { nodes, edges }
}

proof fn lemma_node_of(nodes: Seq<GraphNode>, session: Option<u64>, krate: u32)
    ensures
        node_of(nodes, session, krate) matches Some(i) ==> 0 <= i < nodes.len() && nodes[i].session == session && nodes[i].krate
            == krate,
    decreases nodes.len(),
{
    if nodes.len() > 0 {
        lemma_node_of(nodes.drop_last(), session, krate);
    }
}

proof fn lemma_node_edges(nodes: Seq<GraphNode>, from: int, dependencies: Seq<u32>, n: int, e: int)
    requires
        0 <= from < nodes.len() <= usize::MAX,
        n <= dependencies.len() <= usize::MAX,
        0 <= e < node_edges(nodes, from, dependencies, n).len(),
    ensures
        ({
            let edge = node_edges(nodes, from, dependencies, n)[e];
            &&& edge.from == from
            &&& edge.to < nodes.len()
            &&& edge.dependency < n
            &&& nodes[edge.to as int].krate == dependencies[edge.dependency as int]
            &&& nodes[edge.to as int].session is None || nodes[edge.to as int].session == nodes[from].session
        }),
    decreases n,
{
    if n > 0 {
        let before = node_edges(nodes, from, dependencies, n - 1);
        lemma_node_of(nodes, nodes[from].session, dependencies[n - 1]);
        lemma_node_of(nodes, None, dependencies[n - 1]);
        if e < before.len() {
            lemma_node_edges(nodes, from, dependencies, n - 1, e);
        }
    }
}

/// A session's overlaid crates are seen by that session alone: an edge leads to a crate on disk or
/// stays within the session it starts in, so no crate on disk and no crate of another session
/// depends on an overlaid crate.
pub proof fn law_overlaid_crates_are_private(crates: Seq<CrateView>, nodes: Seq<GraphNode>, n: int, e: int)
    requires
        0 <= n <= nodes.len() <= usize::MAX,
        forall|c: int| 0 <= c < crates.len() ==> (#[trigger] crates[c]).dependencies.len() <= usize::MAX,
        0 <= e < graph_edges(crates, nodes, n).len(),
    ensures
        ({
            let edge = graph_edges(crates, nodes, n)[e];
            &&& edge.from < nodes.len() && edge.to < nodes.len()
            &&& nodes[edge.to as int].session is None || nodes[edge.to as int].session == nodes[edge.from as int].session
        }),
    decreases n,
{
    if n > 0 {
        let dependencies = dependencies_of(crates, nodes[n - 1].krate);
        let before = graph_edges(crates, nodes, n - 1);
        lemma_dependencies_fit(crates, nodes[n - 1].krate);
        if e < before.len() {
            law_overlaid_crates_are_private(crates, nodes, n - 1, e);
        } else {
            lemma_node_edges(nodes, n - 1, dependencies, dependencies.len() as int, e - before.len());
        }
    }
}

proof fn lemma_dependencies_fit(crates: Seq<CrateView>, krate: u32)
    requires
        forall|c: int| 0 <= c < crates.len() ==> (#[trigger] crates[c]).dependencies.len() <= usize::MAX,
    ensures
        dependencies_of(crates, krate).len() <= usize::MAX,
    decreases crates.len(),
{
    if crates.len() > 0 {
        assert forall|c: int| 0 <= c < crates.drop_last().len() implies (#[trigger] crates.drop_last()[c]).dependencies.len()
            <= usize::MAX by {
            assert(crates.drop_last()[c] == crates[c]);
        }
        lemma_dependencies_fit(crates.drop_last(), krate);
        assert(crates[crates.len() - 1].dependencies.len() <= usize::MAX);
    }
}

proof fn lemma_last_node(nodes: Seq<GraphNode>, session: Option<u64>, krate: u32)
    ensures
        match node_of(nodes, session, krate) {
            Some(i) => 0 <= i < nodes.len() && nodes[i].session == session && nodes[i].krate == krate && forall|j: int|
                i < j < nodes.len() ==> !((#[trigger] nodes[j]).session == session && nodes[j].krate == krate),
            None => forall|j: int|
                0 <= j < nodes.len() ==> !((#[trigger] nodes[j]).session == session && nodes[j].krate == krate),
        },
    decreases nodes.len(),
{
    if nodes.len() > 0 && !(nodes.last().session == session && nodes.last().krate == krate) {
        let rest = nodes.drop_last();
        lemma_last_node(rest, session, krate);
        let from = match node_of(rest, session, krate) {
            Some(i) => i + 1,
            None => 0,
        };
        assert forall|j: int| from <= j < nodes.len() implies !((#[trigger] nodes[j]).session == session && nodes[j].krate
            == krate) by {
            if j < rest.len() {
                assert(rest[j] == nodes[j]);
            }
        }
    }
}

proof fn lemma_dependencies(crates: Seq<CrateView>, c: int)
    requires
        0 <= c < crates.len(),
        forall|e: int| c < e < crates.len() ==> (#[trigger] crates[e]).id != crates[c].id,
    ensures
        dependencies_of(crates, crates[c].id) == crates[c].dependencies,
    decreases crates.len(),
{
    let rest = crates.drop_last();
    if c < rest.len() {
        assert(crates[crates.len() - 1].id != crates[c].id);
        assert forall|e: int| c < e < rest.len() implies (#[trigger] rest[e]).id != rest[c].id by {
            assert(rest[e] == crates[e]);
        }
        lemma_dependencies(rest, c);
    }
}

proof fn lemma_no_dependencies(crates: Seq<CrateView>, krate: u32)
    requires
        dependencies_of(crates, krate).len() > 0,
    ensures
        exists|c: int|
            0 <= c < crates.len() && (#[trigger] crates[c]).id == krate && forall|e: int|
                c < e < crates.len() ==> (#[trigger] crates[e]).id != krate,
    decreases crates.len(),
{
    let rest = crates.drop_last();
    if crates.len() > 0 {
        let last = crates.len() - 1;
        if crates[last].id == krate {
            assert(crates[last].id == krate);
        } else {
            lemma_no_dependencies(rest, krate);
            let c = choose|c: int|
                0 <= c < rest.len() && (#[trigger] rest[c]).id == krate && forall|e: int|
                    c < e < rest.len() ==> (#[trigger] rest[e]).id != krate;
            assert(crates[c].id == krate);
            assert forall|e: int| c < e < crates.len() implies (#[trigger] crates[e]).id != krate by {
                if e < rest.len() {
                    assert(rest[e] == crates[e]);
                }
            }
        }
    }
}

proof fn lemma_node_edge(nodes: Seq<GraphNode>, from: int, dependencies: Seq<u32>, n: int, e: int)
    requires
        0 <= from < nodes.len() <= usize::MAX,
        n <= dependencies.len() <= usize::MAX,
        0 <= e < node_edges(nodes, from, dependencies, n).len(),
    ensures
        ({
            let edges = node_edges(nodes, from, dependencies, n);
            &&& edges[e].from == from
            &&& edges[e].dependency < n
            &&& target(nodes, nodes[from].session, dependencies[edges[e].dependency as int]) == Some(edges[e].to as int)
            &&& forall|f: int| 0 <= f < e ==> (#[trigger] edges[f]).dependency < edges[e].dependency
        }),
    decreases n,
{
    if n > 0 {
        let before = node_edges(nodes, from, dependencies, n - 1);
        let edges = node_edges(nodes, from, dependencies, n);
        lemma_node_of(nodes, nodes[from].session, dependencies[n - 1]);
        lemma_node_of(nodes, None, dependencies[n - 1]);
        if e < before.len() {
            lemma_node_edge(nodes, from, dependencies, n - 1, e);
            assert forall|f: int| 0 <= f < e implies (#[trigger] edges[f]).dependency < edges[e].dependency by {
                assert(before[f] == edges[f]);
            }
        } else {
            assert forall|f: int| 0 <= f < e implies (#[trigger] edges[f]).dependency < edges[e].dependency by {
                lemma_node_edge(nodes, from, dependencies, n - 1, f);
                assert(before[f] == edges[f]);
            }
        }
    }
}

proof fn lemma_node_edge_is_there(nodes: Seq<GraphNode>, from: int, dependencies: Seq<u32>, n: int, d: int) -> (e: int)
    requires
        0 <= from < nodes.len() <= usize::MAX,
        0 <= d < n <= dependencies.len() <= usize::MAX,
        target(nodes, nodes[from].session, dependencies[d]) is Some,
    ensures
        0 <= e < node_edges(nodes, from, dependencies, n).len(),
        node_edges(nodes, from, dependencies, n)[e].from == from,
        node_edges(nodes, from, dependencies, n)[e].dependency == d,
    decreases n,
{
    let before = node_edges(nodes, from, dependencies, n - 1);
    if d < n - 1 {
        lemma_node_edge_is_there(nodes, from, dependencies, n - 1, d)
    } else {
        before.len() as int
    }
}

proof fn lemma_graph_edge(crates: Seq<CrateView>, nodes: Seq<GraphNode>, n: int, e: int)
    requires
        0 <= n <= nodes.len() <= usize::MAX,
        forall|c: int| 0 <= c < crates.len() ==> (#[trigger] crates[c]).dependencies.len() <= usize::MAX,
        0 <= e < graph_edges(crates, nodes, n).len(),
    ensures
        ({
            let edges = graph_edges(crates, nodes, n);
            let from = edges[e].from as int;
            let dependencies = dependencies_of(crates, nodes[from].krate);
            &&& from < n
            &&& edges[e].dependency < dependencies.len()
            &&& target(nodes, nodes[from].session, dependencies[edges[e].dependency as int]) == Some(edges[e].to as int)
            &&& forall|f: int|
                0 <= f < e ==> (#[trigger] edges[f]).from < from || edges[f].from == from && edges[f].dependency
                    < edges[e].dependency
        }),
    decreases n,
{
    if n > 0 {
        let dependencies = dependencies_of(crates, nodes[n - 1].krate);
        let before = graph_edges(crates, nodes, n - 1);
        let own = node_edges(nodes, n - 1, dependencies, dependencies.len() as int);
        let edges = graph_edges(crates, nodes, n);
        assert(edges == before + own);
        lemma_dependencies_fit(crates, nodes[n - 1].krate);
        if e < before.len() {
            lemma_graph_edge(crates, nodes, n - 1, e);
            assert forall|f: int| 0 <= f < e implies (#[trigger] edges[f]).from < edges[e].from || edges[f].from == edges[e].from
                && edges[f].dependency < edges[e].dependency by {
                assert(before[f] == edges[f]);
            }
        } else {
            lemma_node_edge(nodes, n - 1, dependencies, dependencies.len() as int, e - before.len());
            assert(edges[e] == own[e - before.len()]);
            assert forall|f: int| 0 <= f < e implies (#[trigger] edges[f]).from < edges[e].from || edges[f].from == edges[e].from
                && edges[f].dependency < edges[e].dependency by {
                if f < before.len() {
                    lemma_graph_edge(crates, nodes, n - 1, f);
                    assert(before[f] == edges[f]);
                } else {
                    lemma_node_edge(nodes, n - 1, dependencies, dependencies.len() as int, f - before.len());
                    assert(edges[f] == own[f - before.len()]);
                }
            }
        }
    }
}

proof fn lemma_graph_edge_is_there(crates: Seq<CrateView>, nodes: Seq<GraphNode>, n: int, from: int, d: int) -> (e: int)
    requires
        0 <= from < n <= nodes.len() <= usize::MAX,
        forall|c: int| 0 <= c < crates.len() ==> (#[trigger] crates[c]).dependencies.len() <= usize::MAX,
        0 <= d < dependencies_of(crates, nodes[from].krate).len(),
        target(nodes, nodes[from].session, dependencies_of(crates, nodes[from].krate)[d]) is Some,
    ensures
        0 <= e < graph_edges(crates, nodes, n).len(),
        graph_edges(crates, nodes, n)[e].from == from,
        graph_edges(crates, nodes, n)[e].dependency == d,
    decreases n,
{
    let dependencies = dependencies_of(crates, nodes[n - 1].krate);
    let before = graph_edges(crates, nodes, n - 1);
    let own = node_edges(nodes, n - 1, dependencies, dependencies.len() as int);
    assert(graph_edges(crates, nodes, n) == before + own);
    lemma_dependencies_fit(crates, nodes[n - 1].krate);
    if from < n - 1 {
        lemma_graph_edge_is_there(crates, nodes, n - 1, from, d)
    } else {
        before.len() + lemma_node_edge_is_there(nodes, from, dependencies, dependencies.len() as int, d)
    }
}

/// A session's crates are analysed with all of its edits: where a session has a node for a
/// dependency of one of its crates, there is an edge for that dependency, and it leads to the
/// session's node. Where the session has none, it leads to the node on disk, and where the
/// dependency has no node at all, there is no edge. A crate on disk depends on nodes on disk. Of
/// crates with one number the last counts, and so does the last of nodes that are alike.
pub proof fn law_dependencies_lead_into_the_own_overlay(
    crates: Seq<CrateView>,
    nodes: Seq<GraphNode>,
    from: int,
    c: int,
    d: int,
)
    requires
        0 <= from < nodes.len() <= usize::MAX,
        forall|c: int| 0 <= c < crates.len() ==> (#[trigger] crates[c]).dependencies.len() <= usize::MAX,
        0 <= c < crates.len(),
        crates[c].id == nodes[from].krate,
        forall|e: int| c < e < crates.len() ==> (#[trigger] crates[e]).id != crates[c].id,
        0 <= d < crates[c].dependencies.len(),
    ensures
        ({
            let edges = graph_edges(crates, nodes, nodes.len() as int);
            let session = nodes[from].session;
            let krate = crates[c].dependencies[d];
            let owned = exists|j: int| 0 <= j < nodes.len() && (#[trigger] nodes[j]).session == session && nodes[j].krate == krate;
            let on_disk = exists|j: int| 0 <= j < nodes.len() && (#[trigger] nodes[j]).session is None && nodes[j].krate == krate;
            &&& (owned || on_disk) <==> exists|e: int|
                0 <= e < edges.len() && (#[trigger] edges[e]).from == from && edges[e].dependency == d
            &&& forall|e: int|
                0 <= e < edges.len() && (#[trigger] edges[e]).from == from && edges[e].dependency == d ==> {
                    &&& edges[e].to < nodes.len()
                    &&& nodes[edges[e].to as int].krate == krate
                    &&& owned ==> nodes[edges[e].to as int].session == session
                    &&& !owned ==> nodes[edges[e].to as int].session is None
                    &&& forall|j: int|
                        edges[e].to < j < nodes.len() ==> !((#[trigger] nodes[j]).session == nodes[edges[e].to as int].session
                            && nodes[j].krate == krate)
                }
        }),
{
    let n = nodes.len() as int;
    let edges = graph_edges(crates, nodes, n);
    let session = nodes[from].session;
    let krate = crates[c].dependencies[d];
    lemma_dependencies(crates, c);
    lemma_last_node(nodes, session, krate);
    lemma_last_node(nodes, None, krate);
    if target(nodes, session, krate) is Some {
        let e = lemma_graph_edge_is_there(crates, nodes, n, from, d);
        assert(edges[e].from == from && edges[e].dependency == d);
        let at = target(nodes, session, krate)->0;
        assert(nodes[at].krate == krate);
    }
    assert forall|e: int| 0 <= e < edges.len() && (#[trigger] edges[e]).from == from && edges[e].dependency == d implies target(
        nodes,
        session,
        krate,
    ) == Some(edges[e].to as int) by {
        lemma_graph_edge(crates, nodes, n, e);
    }
}

/// Every edge is one of a dependency: it starts at a node whose crate lists, at the place that the
/// edge names, the crate that it leads to. The edges are in order, first by node and then by
/// place, so none is there twice.
pub proof fn law_edges_are_dependencies(crates: Seq<CrateView>, nodes: Seq<GraphNode>, e: int)
    requires
        nodes.len() <= usize::MAX,
        forall|c: int| 0 <= c < crates.len() ==> (#[trigger] crates[c]).dependencies.len() <= usize::MAX,
        0 <= e < graph_edges(crates, nodes, nodes.len() as int).len(),
    ensures
        ({
            let edges = graph_edges(crates, nodes, nodes.len() as int);
            &&& edges[e].from < nodes.len() && edges[e].to < nodes.len()
            &&& exists|c: int|
                0 <= c < crates.len() && (#[trigger] crates[c]).id == nodes[edges[e].from as int].krate && edges[e].dependency
                    < crates[c].dependencies.len() && crates[c].dependencies[edges[e].dependency as int]
                    == nodes[edges[e].to as int].krate
            &&& forall|f: int|
                0 <= f < e ==> (#[trigger] edges[f]).from < edges[e].from || edges[f].from == edges[e].from && edges[f].dependency
                    < edges[e].dependency
        }),
{
    let edges = graph_edges(crates, nodes, nodes.len() as int);
    lemma_graph_edge(crates, nodes, nodes.len() as int, e);
    let from = nodes[edges[e].from as int];
    lemma_no_dependencies(crates, from.krate);
    let c = choose|c: int|
        0 <= c < crates.len() && (#[trigger] crates[c]).id == from.krate && forall|e: int|
            c < e < crates.len() ==> (#[trigger] crates[e]).id != from.krate;
    lemma_dependencies(crates, c);
    let krate = crates[c].dependencies[edges[e].dependency as int];
    lemma_node_of(nodes, from.session, krate);
    lemma_node_of(nodes, None, krate);
    assert(crates[c].id == from.krate);
}

/// The overlays can be listed: there are finitely many sessions, each with finitely many crates.
pub open spec fn finitely_overlaid(overlays: Map<u64, OverlayView>) -> bool {
    &&& overlays.dom().finite()
    &&& forall|s: u64| #[trigger] overlays.contains_key(s) ==> overlays[s].crates.dom().finite()
}

proof fn lemma_overlay_nodes(overlays: Map<u64, OverlayView>, n: int, i: int)
    requires
        finitely_overlaid(overlays),
        0 <= n <= sorted_keys::<u64>(overlays.dom()).len(),
        0 <= i < overlay_nodes(overlays, n).len(),
    ensures
        ({
            let node = overlay_nodes(overlays, n)[i];
            &&& node.session matches Some(s) && overlays.contains_key(s) && overlays[s].crates.contains_key(node.krate)
                && node.root_file == overlays[s].crates[node.krate] && sorted_keys::<u64>(overlays.dom()).take(n).contains(s)
        }),
    decreases n,
{
    let sessions = sorted_keys::<u64>(overlays.dom());
    lemma_sorted_exists::<u64>(overlays.dom());
    if n > 0 {
        let before = overlay_nodes(overlays, n - 1);
        let session = sessions[n - 1];
        assert(sessions.to_set().contains(session));
        assert(overlays.contains_key(session));
        let crates = overlays[session].crates;
        lemma_sorted_exists::<u32>(crates.dom());
        let keys = sorted_keys::<u32>(crates.dom());
        if i < before.len() {
            lemma_overlay_nodes(overlays, n - 1, i);
            let s = overlay_nodes(overlays, n)[i].session->0;
            let at = sessions.take(n - 1).index_of(s);
            assert(sessions.take(n)[at] == s);
        } else {
            assert(keys.to_set().contains(keys[i - before.len()]));
            assert(sessions.take(n)[n - 1] == session);
        }
    }
}

proof fn lemma_overlay_node_is_there(overlays: Map<u64, OverlayView>, n: int, at: int, krate: u32) -> (i: int)
    requires
        finitely_overlaid(overlays),
        0 <= at < n <= sorted_keys::<u64>(overlays.dom()).len(),
        overlays[sorted_keys::<u64>(overlays.dom())[at]].crates.contains_key(krate),
    ensures
        0 <= i < overlay_nodes(overlays, n).len(),
        overlay_nodes(overlays, n)[i].session == Some(sorted_keys::<u64>(overlays.dom())[at]),
        overlay_nodes(overlays, n)[i].krate == krate,
    decreases n,
{
    let sessions = sorted_keys::<u64>(overlays.dom());
    lemma_sorted_exists::<u64>(overlays.dom());
    let before = overlay_nodes(overlays, n - 1);
    if at < n - 1 {
        lemma_overlay_node_is_there(overlays, n - 1, at, krate)
    } else {
        assert(sessions.to_set().contains(sessions[at]));
        assert(overlays.contains_key(sessions[at]));
        let crates = overlays[sessions[at]].crates;
        lemma_sorted_exists::<u32>(crates.dom());
        let keys = sorted_keys::<u32>(crates.dom());
        assert(keys.to_set().contains(krate));
        let k = keys.index_of(krate);
        before.len() + k
    }
}

proof fn lemma_overlay_nodes_differ(overlays: Map<u64, OverlayView>, n: int, i: int, j: int)
    requires
        finitely_overlaid(overlays),
        0 <= n <= sorted_keys::<u64>(overlays.dom()).len(),
        0 <= i < j < overlay_nodes(overlays, n).len(),
    ensures
        !(overlay_nodes(overlays, n)[i].session == overlay_nodes(overlays, n)[j].session && overlay_nodes(overlays, n)[i].krate
            == overlay_nodes(overlays, n)[j].krate),
    decreases n,
{
    let sessions = sorted_keys::<u64>(overlays.dom());
    lemma_sorted_exists::<u64>(overlays.dom());
    lemma_ascending_distinct::<u64>(sessions);
    if n > 0 {
        let before = overlay_nodes(overlays, n - 1);
        let session = sessions[n - 1];
        assert(sessions.to_set().contains(session));
        assert(overlays.contains_key(session));
        let crates = overlays[session].crates;
        lemma_sorted_exists::<u32>(crates.dom());
        lemma_ascending_distinct::<u32>(sorted_keys::<u32>(crates.dom()));
        if j < before.len() {
            lemma_overlay_nodes_differ(overlays, n - 1, i, j);
        } else if i < before.len() {
            lemma_overlay_nodes(overlays, n - 1, i);
            let s = before[i].session->0;
            let at = sessions.take(n - 1).index_of(s);
            assert(sessions[at] == s);
        }
    }
}

/// The nodes are the crates on disk, in their order, each with its root on disk, and then the
/// overlaid crates of the sessions, each with its root in the overlay: every overlaid crate of every
/// session has exactly one node, and there are no others.
pub proof fn law_nodes_are_the_crates(crates: Seq<CrateView>, overlays: Map<u64, OverlayView>)
    requires
        finitely_overlaid(overlays),
    ensures
        ({
            let nodes = graph_nodes(crates, overlays);
            let first = crates.len();
            &&& first <= nodes.len()
            &&& forall|i: int|
                0 <= i < first ==> (#[trigger] nodes[i]).krate == crates[i].id && nodes[i].root_file == crates[i].root_file
                    && nodes[i].session is None
            &&& forall|i: int|
                first <= i < nodes.len() ==> ((#[trigger] nodes[i]).session matches Some(s) && overlays.contains_key(s)
                    && overlays[s].crates.contains_key(nodes[i].krate) && nodes[i].root_file
                    == overlays[s].crates[nodes[i].krate])
            &&& forall|s: u64, k: u32|
                overlays.contains_key(s) && #[trigger] overlays[s].crates.contains_key(k) ==> exists|i: int|
                    first <= i < nodes.len() && (#[trigger] nodes[i]).session == Some(s) && nodes[i].krate == k
            &&& forall|i: int, j: int|
                first <= i < j < nodes.len() ==> !((#[trigger] nodes[i]).session == (#[trigger] nodes[j]).session
                    && nodes[i].krate == nodes[j].krate)
        }),
{
    let sessions = sorted_keys::<u64>(overlays.dom());
    let n = sessions.len() as int;
    let base = base_nodes(crates);
    let overlaid = overlay_nodes(overlays, n);
    let nodes = graph_nodes(crates, overlays);
    let first = crates.len();
    lemma_sorted_exists::<u64>(overlays.dom());
    assert(nodes == base + overlaid);
    assert forall|i: int| 0 <= i < first implies (#[trigger] nodes[i]).krate == crates[i].id && nodes[i].root_file
        == crates[i].root_file && nodes[i].session is None by {
        assert(nodes[i] == base[i]);
    }
    assert forall|i: int| first <= i < nodes.len() implies ((#[trigger] nodes[i]).session matches Some(s) && overlays.contains_key(
        s,
    ) && overlays[s].crates.contains_key(nodes[i].krate) && nodes[i].root_file == overlays[s].crates[nodes[i].krate]) by {
        lemma_overlay_nodes(overlays, n, i - first);
        assert(nodes[i] == overlaid[i - first]);
    }
    assert forall|s: u64, k: u32| overlays.contains_key(s) && #[trigger] overlays[s].crates.contains_key(k) implies exists|i: int|
        first <= i < nodes.len() && (#[trigger] nodes[i]).session == Some(s) && nodes[i].krate == k by {
        assert(sessions.to_set().contains(s));
        let at = sessions.index_of(s);
        let i = lemma_overlay_node_is_there(overlays, n, at, k);
        assert(nodes[first + i] == overlaid[i]);
    }
    assert forall|i: int, j: int| first <= i < j < nodes.len() implies !((#[trigger] nodes[i]).session == (#[trigger] nodes[j]).session
        && nodes[i].krate == nodes[j].krate) by {
        lemma_overlay_nodes_differ(overlays, n, i - first, j - first);
        assert(nodes[i] == overlaid[i - first] && nodes[j] == overlaid[j - first]);
    }
}

} // verus!
