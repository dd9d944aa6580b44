//! The vertices that a demand-driven evaluation has to visit.
use crate::coord::VertexId;
use crate::fx::{map_get, set_contains, set_insert};
use crate::sort::{is_ascending, sorted_distinct};
use crate::vertex::VertexKind;
use rustc_hash::{FxHashMap, FxHashSet};
use vstd::prelude::*;

verus! {

/// An existing vertex as a demand-driven walk sees it: what it is, whether it is out of date, and
/// what it depends on, by graph edges and by virtual ones.
#[derive(Debug)]
pub struct DemandNode {
    pub kind: VertexKind,
    pub dirty: bool,
    pub volatile: bool,
    pub dependencies: Vec<VertexId>,
    pub virtual_dependencies: Vec<VertexId>,
}

/// The existing vertices.
pub struct DemandGraph {
    pub nodes: FxHashMap<u32, DemandNode>,
}

/// What the walk looks for.
#[derive(Clone, Copy, Debug, PartialEq, Eq, Structural)]
pub enum DemandMode {
    /// Everything that a demand-driven schedule holds, over graph edges and virtual edges.
    Subgraph,
    /// The formulas that are out of date, over graph edges only.
    DirtyPrecedents,
}

/// Whether the first vertex exists and depends on the second.
pub open spec fn depends(g: DemandGraph, mode: DemandMode, a: u32, b: u32) -> bool {
    g.nodes@.contains_key(a) && (g.nodes@[a].dependencies@.contains(b) || (mode
        == DemandMode::Subgraph && g.nodes@[a].virtual_dependencies@.contains(b)))
}

/// Whether the list leads from a target to the vertex, each step to something the one before it
/// depends on.
pub open spec fn is_path(
    g: DemandGraph,
    mode: DemandMode,
    targets: Seq<u32>,
    path: Seq<u32>,
    v: u32,
) -> bool {
    &&& path.len() > 0
    &&& targets.contains(path[0])
    &&& path.last() == v
    &&& forall|i: int| 0 <= i < path.len() - 1 ==> #[trigger] depends(g, mode, path[i], path[i + 1])
}

/// Whether the vertex is a target or a direct or indirect precedent of one.
pub open spec fn reachable(g: DemandGraph, mode: DemandMode, targets: Seq<u32>, v: u32) -> bool {
    exists|path: Seq<u32>| #[trigger] is_path(g, mode, targets, path, v)
}

/// Whether an existing vertex is scheduled: formulas that are out of date, and in a subgraph also
/// the names and ranges that pass values through.
pub open spec fn schedulable(n: DemandNode, mode: DemandMode) -> bool {
    match n.kind {
        VertexKind::FormulaScalar | VertexKind::FormulaArray => n.dirty || n.volatile,
        VertexKind::NamedScalar | VertexKind::NamedArray | VertexKind::Range
        | VertexKind::InfiniteRange => mode == DemandMode::Subgraph,
        _ => false,
    }
}

/// Whether the vertex is to be evaluated for the targets.
pub open spec fn demanded(g: DemandGraph, mode: DemandMode, targets: Seq<u32>, v: u32) -> bool {
    &&& g.nodes@.contains_key(v)
    &&& schedulable(g.nodes@[v], mode)
    &&& reachable(g, mode, targets, v)
}

fn is_schedulable(n: &DemandNode, mode: DemandMode) -> (b: bool)
    ensures
        b == schedulable(*n, mode),
{
    match n.kind {
        VertexKind::FormulaScalar | VertexKind::FormulaArray => n.dirty || n.volatile,
        VertexKind::NamedScalar | VertexKind::NamedArray | VertexKind::Range
        | VertexKind::InfiniteRange => mode == DemandMode::Subgraph,
        _ => false,
    }
}

proof fn lemma_step(g: DemandGraph, mode: DemandMode, targets: Seq<u32>, a: u32, b: u32)
    requires
        reachable(g, mode, targets, a),
        depends(g, mode, a, b),
    ensures
        reachable(g, mode, targets, b),
{
    let path = choose|path: Seq<u32>| #[trigger] is_path(g, mode, targets, path, a);
    let longer = path.push(b);
    assert forall|i: int| 0 <= i < longer.len() - 1 implies #[trigger] depends(
        g,
        mode,
        longer[i],
        longer[i + 1],
    ) by {
        if i < path.len() - 1 {
            assert(depends(g, mode, path[i], path[i + 1]));
        }
    }
    assert(is_path(g, mode, targets, longer, b));
}

proof fn lemma_target(g: DemandGraph, mode: DemandMode, targets: Seq<u32>, v: u32)
    requires
        targets.contains(v),
    ensures
        reachable(g, mode, targets, v),
{
    assert(is_path(g, mode, targets, seq![v], v));
}

/// A set that holds the targets and everything that its members depend on holds every vertex that
/// can be reached.
proof fn lemma_closed(
    g: DemandGraph,
    mode: DemandMode,
    targets: Seq<u32>,
    closed: Set<u32>,
    path: Seq<u32>,
    v: u32,
)
    requires
        is_path(g, mode, targets, path, v),
        forall|t: u32| #[trigger] targets.contains(t) ==> closed.contains(t),
        forall|a: u32, b: u32| closed.contains(a) && #[trigger] depends(g, mode, a, b)
            ==> closed.contains(b),
    ensures
        closed.contains(v),
    decreases path.len(),
{
    if path.len() > 1 {
        let shorter = path.drop_last();
        let u = shorter.last();
        assert forall|i: int| 0 <= i < shorter.len() - 1 implies #[trigger] depends(
            g,
            mode,
            shorter[i],
            shorter[i + 1],
        ) by {
            assert(depends(g, mode, path[i], path[i + 1]));
        }
        assert(is_path(g, mode, targets, shorter, u));
        lemma_closed(g, mode, targets, closed, shorter, u);
        let k = path.len() - 2;
        assert(depends(g, mode, path[k], path[k + 1]));
    }
}

/// There are no more vertices than identifiers.
proof fn lemma_vertices_bounded(s: Set<u32>)
    requires
        s.finite(),
    ensures
        s.len() <= 0x1_0000_0000,
{
    let f = |x: u32| x as int;
    let ints = s.map(f);
    let all = vstd::set_lib::set_int_range(0, 0x1_0000_0000);
    vstd::set_lib::lemma_int_range(0, 0x1_0000_0000);
    assert(ints.subset_of(all));
    vstd::set_lib::lemma_map_size(s, ints, f);
    vstd::set_lib::lemma_len_subset(ints, all);
}

/// The virtual dependencies that a walk found: for each visited vertex with any, the ids from the
/// smallest to the largest, each once.
pub struct VirtualDeps {
    pub entries: Vec<(VertexId, Vec<VertexId>)>,
}

/// Whether the entries are the virtual dependencies of the visited vertices.
pub open spec fn is_virtual_deps_of(
    g: DemandGraph,
    visited: Set<u32>,
    entries: Seq<(VertexId, Vec<VertexId>)>,
) -> bool {
    &&& forall|i: int|
        0 <= i < entries.len() ==> {
            let v = (#[trigger] entries[i]).0;
            &&& visited.contains(v) && g.nodes@.contains_key(v)
            &&& g.nodes@[v].virtual_dependencies@.len() > 0
            &&& is_ascending(entries[i].1@, g.nodes@[v].virtual_dependencies@.to_set())
        }
    &&& forall|i: int, j: int|
        0 <= i < j < entries.len() ==> (#[trigger] entries[i]).0 != (#[trigger] entries[j]).0
    &&& forall|v: u32|
        visited.contains(v) && g.nodes@.contains_key(v)
            && g.nodes@[v].virtual_dependencies@.len() > 0 ==> exists|i: int|
            0 <= i < entries.len() && (#[trigger] entries[i]).0 == v
}

/// What a walk found.
pub struct Demand {
    pub vertices: Vec<VertexId>,
    pub virtual_deps: VirtualDeps,
}

fn push_unvisited(stack: &mut Vec<u32>, visited: &FxHashSet<u32>, ids: &Vec<u32>)
    ensures
        forall|v: u32| #[trigger]
            final(stack)@.contains(v) <==> old(stack)@.contains(v) || (ids@.contains(v)
                && !visited@.contains(v)),
{
    let ghost before = stack@;
    let mut i: usize = 0;
    while i < ids.len()
        invariant
            i <= ids@.len(),
            forall|v: u32| #[trigger]
                stack@.contains(v) <==> before.contains(v) || (ids@.take(i as int).contains(v)
                    && !visited@.contains(v)),
        decreases ids@.len() - i,
    {
        let id = ids[i];
        let ghost prior = stack@;
        let seen = set_contains(visited, &id);
        if !seen {
            stack.push(id);
        }
        proof {
            let head = ids@.take(i as int);
            let longer = ids@.take(i + 1);
            assert(longer =~= head.push(id));
            assert forall|v: u32| #[trigger] stack@.contains(v) <==> before.contains(v) || (
            longer.contains(v) && !visited@.contains(v)) by {
                assert(longer.contains(v) <==> head.contains(v) || v == id) by {
                    if head.contains(v) {
                        let k = choose|k: int| 0 <= k < head.len() && head[k] == v;
                        assert(longer[k] == v);
                    }
                    if v == id {
                        assert(longer[i as int] == v);
                    }
                }
                assert(stack@.contains(v) <==> prior.contains(v) || (!seen && v == id)) by {
                    if prior.contains(v) {
                        let k = choose|k: int| 0 <= k < prior.len() && prior[k] == v;
                        assert(stack@[k] == v);
                    }
                    if !seen && v == id {
                        assert(stack@[prior.len() as int] == v);
                    }
                    if stack@.contains(v) {
                        let k = choose|k: int| 0 <= k < stack@.len() && stack@[k] == v;
                        if k < prior.len() {
                            assert(prior[k] == v);
                        }
                    }
                }
            }
        }
        i = i + 1;
    }
    assert(ids@.take(i as int) =~= ids@);
}

/// The vertices that evaluating the targets demands, from the smallest to the largest, and the
/// virtual dependencies of everything that was visited.
pub fn walk_demand(graph: &DemandGraph, mode: DemandMode, targets: &Vec<VertexId>) -> (r: Demand)
    ensures
        forall|i: int, j: int|
            0 <= i < j < r.vertices@.len() ==> (#[trigger] r.vertices@[i]) < (
            #[trigger] r.vertices@[j]),
        forall|v: u32| #[trigger]
            r.vertices@.contains(v) <==> demanded(*graph, mode, targets@, v),
        mode == DemandMode::Subgraph ==> is_virtual_deps_of(
            *graph,
            Set::new(|v: u32| reachable(*graph, mode, targets@, v)),
            r.virtual_deps.entries@,
        ),
        mode == DemandMode::DirtyPrecedents ==> r.virtual_deps.entries@.len() == 0,
{
    let mut visited: FxHashSet<u32> = FxHashSet::default();
    let mut stack: Vec<u32> = Vec::new();
    let mut found: Vec<u32> = Vec::new();
    let mut entries: Vec<(VertexId, Vec<VertexId>)> = Vec::new();
    assert(visited@ =~= Set::<u32>::empty());
    push_unvisited(&mut stack, &visited, targets);
    proof {
        assert forall|v: u32| stack@.contains(v) implies reachable(*graph, mode, targets@, v) by {
            lemma_target(*graph, mode, targets@, v);
        }
    }
    while stack.len() > 0
        invariant
            visited@.finite(),
            forall|v: u32| #[trigger]
                stack@.contains(v) ==> reachable(*graph, mode, targets@, v),
            forall|v: u32| #[trigger]
                visited@.contains(v) ==> reachable(*graph, mode, targets@, v),
            forall|t: u32| #[trigger]
                targets@.contains(t) ==> visited@.contains(t) || stack@.contains(t),
            forall|a: u32, b: u32|
                visited@.contains(a) && #[trigger] depends(*graph, mode, a, b)
                    ==> visited@.contains(b) || stack@.contains(b),
            forall|v: u32| #[trigger]
                found@.contains(v) <==> visited@.contains(v) && graph.nodes@.contains_key(v)
                    && schedulable(graph.nodes@[v], mode),
            mode == DemandMode::Subgraph ==> is_virtual_deps_of(*graph, visited@, entries@),
            mode == DemandMode::DirtyPrecedents ==> entries@.len() == 0,
        decreases 0x1_0000_0000 - visited@.len(), stack@.len(),
    {
        let ghost old_stack = stack@;
        let ghost old_visited = visited@;
        let ghost old_found = found@;
        let ghost old_entries = entries@;
        let v = stack.pop().unwrap();
        proof {
            assert(old_stack[old_stack.len() - 1] == v);
            assert(old_stack.contains(v));
            assert forall|u: u32| old_stack.contains(u) implies u == v || stack@.contains(u) by {
                let k = choose|k: int| 0 <= k < old_stack.len() && old_stack[k] == u;
                if k < old_stack.len() - 1 {
                    assert(stack@[k] == u);
                }
            }
            assert forall|u: u32| #[trigger] stack@.contains(u) implies old_stack.contains(u) by {
                let k = choose|k: int| 0 <= k < stack@.len() && stack@[k] == u;
                assert(old_stack[k] == u);
            }
            lemma_vertices_bounded(old_visited);
            lemma_vertices_bounded(old_visited.insert(v));
        }
        let fresh = set_insert(&mut visited, v);
        if !fresh {
            assert(visited@ =~= old_visited);
            continue;
        }
        let ghost popped = stack@;
        match map_get(&graph.nodes, &v) {
            None => {
                proof {
                    assert forall|u: u32| #[trigger] found@.contains(u) <==> visited@.contains(u)
                        && graph.nodes@.contains_key(u) && schedulable(graph.nodes@[u], mode) by {}
                    if mode == DemandMode::Subgraph {
                        assert(is_virtual_deps_of(*graph, visited@, entries@));
                    }
                }
            },
            Some(node) => {
                if is_schedulable(node, mode) {
                    found.push(v);
                }
                proof {
                    assert forall|u: u32| #[trigger] found@.contains(u) <==> visited@.contains(u)
                        && graph.nodes@.contains_key(u) && schedulable(graph.nodes@[u], mode) by {
                        if old_found.contains(u) {
                            let k = choose|k: int| 0 <= k < old_found.len() && old_found[k] == u;
                            assert(found@[k] == u);
                        }
                        if found@.contains(u) && !old_found.contains(u) {
                            let k = choose|k: int| 0 <= k < found@.len() && found@[k] == u;
                            if k < old_found.len() {
                                assert(old_found[k] == u);
                            }
                        }
                        if u == v && schedulable(graph.nodes@[v], mode) {
                            assert(found@[old_found.len() as int] == v);
                        }
                    }
                }
                push_unvisited(&mut stack, &visited, &node.dependencies);
                if mode == DemandMode::Subgraph {
                    push_unvisited(&mut stack, &visited, &node.virtual_dependencies);
                    if node.virtual_dependencies.len() > 0 {
                        entries.push((v, sorted_distinct(&node.virtual_dependencies)));
                    }
                    proof {
                        assert forall|u: u32|
                            visited@.contains(u) && graph.nodes@.contains_key(u)
                                && graph.nodes@[u].virtual_dependencies@.len()
                                > 0 implies exists|i: int|
                            0 <= i < entries@.len() && (#[trigger] entries@[i]).0 == u by {
                            if u == v {
                                assert(entries@[old_entries.len() as int].0 == v);
                            } else {
                                let i = choose|i: int|
                                    0 <= i < old_entries.len() && (#[trigger] old_entries[i]).0 == u;
                                assert(entries@[i].0 == u);
                            }
                        }
                        assert(is_virtual_deps_of(*graph, visited@, entries@));
                    }
                }
                proof {
                    assert forall|u: u32| #[trigger] stack@.contains(u) implies reachable(
                        *graph,
                        mode,
                        targets@,
                        u,
                    ) by {
                        if !popped.contains(u) {
                            assert(depends(*graph, mode, v, u));
                            lemma_step(*graph, mode, targets@, v, u);
                        }
                    }
                }
            },
        }
    }
    proof {
        assert forall|v: u32| #[trigger] visited@.contains(v) <==> reachable(
            *graph,
            mode,
            targets@,
            v,
        ) by {
            if reachable(*graph, mode, targets@, v) {
                let path = choose|path: Seq<u32>|
                    #[trigger] is_path(*graph, mode, targets@, path, v);
                lemma_closed(*graph, mode, targets@, visited@, path, v);
            }
        }
        assert(visited@ =~= Set::new(|v: u32| reachable(*graph, mode, targets@, v)));
    }
    let vertices = sorted_distinct(&found);
    Demand { vertices, virtual_deps: VirtualDeps { entries } }
}

/// The vertices to evaluate for the targets, and their virtual dependencies.
pub fn build_demand_subgraph(graph: &DemandGraph, target_vertices: &Vec<VertexId>) -> (r: Demand)
    ensures
        forall|i: int, j: int|
            0 <= i < j < r.vertices@.len() ==> (#[trigger] r.vertices@[i]) < (
            #[trigger] r.vertices@[j]),
        forall|v: u32| #[trigger]
            r.vertices@.contains(v) <==> demanded(
                *graph,
                DemandMode::Subgraph,
                target_vertices@,
                v,
            ),
        is_virtual_deps_of(
            *graph,
            Set::new(|v: u32| reachable(*graph, DemandMode::Subgraph, target_vertices@, v)),
            r.virtual_deps.entries@,
        ),
{
    walk_demand(graph, DemandMode::Subgraph, target_vertices)
}

/// The out-of-date formulas among the targets and their precedents, from the smallest to the
/// largest.
pub fn find_dirty_precedents(graph: &DemandGraph, target_vertices: &Vec<VertexId>) -> (r: Vec<
    VertexId,
>)
    ensures
        forall|i: int, j: int|
            0 <= i < j < r@.len() ==> (#[trigger] r@[i]) < (#[trigger] r@[j]),
        forall|v: u32| #[trigger]
            r@.contains(v) <==> demanded(
                *graph,
                DemandMode::DirtyPrecedents,
                target_vertices@,
                v,
            ),
{
    walk_demand(graph, DemandMode::DirtyPrecedents, target_vertices).vertices
}

/// More targets demand no less.
pub proof fn demand_grows_with_the_targets(
    g: DemandGraph,
    mode: DemandMode,
    few: Seq<u32>,
    many: Seq<u32>,
    v: u32,
)
    requires
        forall|t: u32| #[trigger] few.contains(t) ==> many.contains(t),
        demanded(g, mode, few, v),
    ensures
        demanded(g, mode, many, v),
{
    let path = choose|path: Seq<u32>| #[trigger] is_path(g, mode, few, path, v);
    assert(is_path(g, mode, many, path, v));
}

/// Whatever a demanded vertex depends on is demanded too, where it is to be scheduled at all.
pub proof fn demand_holds_the_precedents(
    g: DemandGraph,
    mode: DemandMode,
    targets: Seq<u32>,
    a: u32,
    b: u32,
)
    requires
        demanded(g, mode, targets, a),
        depends(g, mode, a, b),
        g.nodes@.contains_key(b),
        schedulable(g.nodes@[b], mode),
    ensures
        demanded(g, mode, targets, b),
{
    lemma_step(g, mode, targets, a, b);
}

/// What the targets need is found: an existing vertex is demanded where a chain of dependencies leads
/// to it from a target, each step over a graph edge or, in a subgraph, a virtual one, and the vertex is
/// a formula of either kind that is dirty or volatile, or, in a subgraph, a name or a range.
pub proof fn what_the_targets_need_is_demanded(
    g: DemandGraph,
    mode: DemandMode,
    targets: Seq<u32>,
    chain: Seq<u32>,
)
    requires
        chain.len() > 0,
        targets.contains(chain[0]),
        forall|i: int|
            0 <= i < chain.len() - 1 ==> g.nodes@.contains_key(#[trigger] chain[i]) && (
            g.nodes@[chain[i]].dependencies@.contains(chain[i + 1]) || (mode == DemandMode::Subgraph
                && g.nodes@[chain[i]].virtual_dependencies@.contains(chain[i + 1]))),
        g.nodes@.contains_key(chain.last()),
    ensures
        ({
            let n = g.nodes@[chain.last()];
            let formula = n.kind == VertexKind::FormulaScalar || n.kind == VertexKind::FormulaArray;
            let passes_through = n.kind == VertexKind::NamedScalar || n.kind == VertexKind::NamedArray
                || n.kind == VertexKind::Range || n.kind == VertexKind::InfiniteRange;
            demanded(g, mode, targets, chain.last()) <==> (formula && (n.dirty || n.volatile)) || (
            passes_through && mode == DemandMode::Subgraph)
        }),
{
    assert forall|i: int| 0 <= i < chain.len() - 1 implies #[trigger] depends(
        g,
        mode,
        chain[i],
        chain[i + 1],
    ) by {
        assert(g.nodes@.contains_key(chain[i]));
    }
    assert(is_path(g, mode, targets, chain, chain.last()));
}

/// Nothing else is demanded: a demanded vertex exists, and a chain of dependencies leads to it from a
/// target.
pub proof fn what_is_demanded_is_needed(
    g: DemandGraph,
    mode: DemandMode,
    targets: Seq<u32>,
    v: u32,
) -> (chain: Seq<u32>)
    requires
        demanded(g, mode, targets, v),
    ensures
        g.nodes@.contains_key(v),
        chain.len() > 0,
        targets.contains(chain[0]),
        chain.last() == v,
        forall|i: int|
            0 <= i < chain.len() - 1 ==> g.nodes@.contains_key(#[trigger] chain[i]) && (
            g.nodes@[chain[i]].dependencies@.contains(chain[i + 1]) || (mode == DemandMode::Subgraph
                && g.nodes@[chain[i]].virtual_dependencies@.contains(chain[i + 1]))),
{
    let path = choose|path: Seq<u32>| #[trigger] is_path(g, mode, targets, path, v);
    assert forall|i: int| 0 <= i < path.len() - 1 implies g.nodes@.contains_key(
        #[trigger] path[i],
    ) && (g.nodes@[path[i]].dependencies@.contains(path[i + 1]) || (mode == DemandMode::Subgraph
        && g.nodes@[path[i]].virtual_dependencies@.contains(path[i + 1]))) by {
        assert(depends(g, mode, path[i], path[i + 1]));
    }
    path
}

} // verus!
