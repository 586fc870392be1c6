//! Ordering of a dependency graph: a depth-first order that detects cycles,
//! and a grouping into layers that can be built in parallel.

use crate::names::{NameMap, NameSet};
use crate::order;
use crate::text;
use vstd::prelude::*;

verus! {

/// The dependencies of each name, as sets.
pub open spec fn edge_sets(edges: Map<Seq<char>, NameSet>) -> Map<Seq<char>, Set<Seq<char>>> {
    Map::new(|n: Seq<char>| edges.dom().contains(n), |n: Seq<char>| edges[n]@)
}

/// What `n` depends on.
pub open spec fn deps(edges: Map<Seq<char>, Set<Seq<char>>>, n: Seq<char>) -> Set<Seq<char>> {
    if edges.dom().contains(n) {
        edges[n]
    } else {
        Set::empty()
    }
}

/// The `i`-th name of `p` depends on the one after it.
pub open spec fn is_step(edges: Map<Seq<char>, Set<Seq<char>>>, p: Seq<Seq<char>>, i: int) -> bool {
    deps(edges, p[i]).contains(p[i + 1])
}

/// A walk through the graph: each name depends on the next.
pub open spec fn is_path(edges: Map<Seq<char>, Set<Seq<char>>>, p: Seq<Seq<char>>) -> bool {
    forall|i: int| 0 <= i < p.len() - 1 ==> #[trigger] is_step(edges, p, i)
}

/// A walk leads from one of `nodes` to `x`.
pub open spec fn reachable(
    nodes: Set<Seq<char>>,
    edges: Map<Seq<char>, Set<Seq<char>>>,
    x: Seq<char>,
) -> bool {
    exists|p: Seq<Seq<char>>|
        p.len() > 0 && #[trigger] is_path(edges, p) && nodes.contains(p[0]) && p.last() == x
}

/// A walk of at least one step leads from `x` back to `x`.
pub open spec fn on_cycle(edges: Map<Seq<char>, Set<Seq<char>>>, x: Seq<char>) -> bool {
    exists|p: Seq<Seq<char>>|
        p.len() > 1 && #[trigger] is_path(edges, p) && p[0] == x && p.last() == x
}

/// Nothing occurs twice, and each name comes after everything it depends on.
pub open spec fn is_build_order(edges: Map<Seq<char>, Set<Seq<char>>>, order: Seq<Seq<char>>) -> bool {
    &&& order.no_duplicates()
    &&& forall|i: int, d: Seq<char>|
        0 <= i < order.len() && #[trigger] deps(edges, order[i]).contains(d)
            ==> #[trigger] order.take(i).contains(d)
}

/// How a depth-first visit ends: with the names in the order in which they were
/// finished, or at a name that is met again on the way to it.
pub enum Visit {
    Done(Seq<Seq<char>>),
    Met(Seq<char>),
}

/// Visits one name: what it depends on in ascending order, then the name itself.
/// Names that are finished already are passed over. `open` holds the names that
/// are not on the way to this one.
pub open spec fn visited(
    edges: Map<Seq<char>, Set<Seq<char>>>,
    n: Seq<char>,
    open: Set<Seq<char>>,
    order: Seq<Seq<char>>,
) -> Visit
    decreases open.len(), 0nat,
{
    if order.contains(n) {
        Visit::Done(order)
    } else if !open.finite() || !open.contains(n) {
        Visit::Met(n)
    } else {
        match visited_all(edges, order::sorted_list(deps(edges, n)), open.remove(n), order) {
            Visit::Done(o) => Visit::Done(o.push(n)),
            Visit::Met(m) => Visit::Met(m),
        }
    }
}

/// Visits names one after another.
pub open spec fn visited_all(
    edges: Map<Seq<char>, Set<Seq<char>>>,
    list: Seq<Seq<char>>,
    open: Set<Seq<char>>,
    order: Seq<Seq<char>>,
) -> Visit
    decreases open.len(), list.len(),
{
    if list.len() == 0 {
        Visit::Done(order)
    } else {
        match visited(edges, list[0], open, order) {
            Visit::Done(o) => visited_all(edges, list.drop_first(), open, o),
            Visit::Met(m) => Visit::Met(m),
        }
    }
}

/// The names of a graph: the nodes and everything that is depended on.
pub open spec fn names_in(
    nodes: Set<Seq<char>>,
    edges: Map<Seq<char>, Set<Seq<char>>>,
) -> Set<Seq<char>> {
    Set::new(
        |n: Seq<char>|
            nodes.contains(n) || exists|k: Seq<char>|
                edges.dom().contains(k) && #[trigger] deps(edges, k).contains(n),
    )
}

/// The depth-first visit of all nodes in ascending order.
pub open spec fn visit_of(nodes: Set<Seq<char>>, edges: Map<Seq<char>, Set<Seq<char>>>) -> Visit {
    visited_all(edges, order::sorted_list(nodes), names_in(nodes, edges), Seq::empty())
}

/// Along a walk that starts in a build order, the names come ever earlier.
proof fn lemma_path_descends(
    edges: Map<Seq<char>, Set<Seq<char>>>,
    order: Seq<Seq<char>>,
    p: Seq<Seq<char>>,
    k: int,
)
    requires
        is_build_order(edges, order),
        is_path(edges, p),
        p.len() > 0,
        order.contains(p[0]),
        0 <= k < p.len(),
    ensures
        order.contains(p[k]),
        order.index_of(p[k]) <= order.index_of(p[0]),
        k > 0 ==> order.index_of(p[k]) < order.index_of(p[0]),
    decreases k,
{
    if k > 0 {
        lemma_path_descends(edges, order, p, k - 1);
        let i = order.index_of(p[k - 1]);
        assert(is_step(edges, p, k - 1));
        assert(deps(edges, order[i]).contains(p[k]));
        assert(order.take(i).contains(p[k]));
        let j = choose|j: int| 0 <= j < i && order.take(i)[j] == p[k];
        assert(order[j] == p[k]);
        assert(order.contains(p[k]));
        assert(order.index_of(p[k]) == j);
    }
}

/// A name of a build order lies on no cycle.
pub proof fn law_build_order_excludes_cycles(
    edges: Map<Seq<char>, Set<Seq<char>>>,
    order: Seq<Seq<char>>,
    x: Seq<char>,
)
    requires
        is_build_order(edges, order),
        order.contains(x),
    ensures
        !on_cycle(edges, x),
{
    if on_cycle(edges, x) {
        let p = choose|p: Seq<Seq<char>>|
            p.len() > 1 && #[trigger] is_path(edges, p) && p[0] == x && p.last() == x;
        lemma_path_descends(edges, order, p, p.len() - 1);
    }
}

/// A build order that holds `nodes` holds everything they lead to.
proof fn lemma_order_closed(
    nodes: Set<Seq<char>>,
    edges: Map<Seq<char>, Set<Seq<char>>>,
    order: Seq<Seq<char>>,
    x: Seq<char>,
)
    requires
        is_build_order(edges, order),
        forall|n: Seq<char>| nodes.contains(n) ==> order.contains(n),
        reachable(nodes, edges, x),
    ensures
        order.contains(x),
{
    let p = choose|p: Seq<Seq<char>>|
        p.len() > 0 && #[trigger] is_path(edges, p) && nodes.contains(p[0]) && p.last() == x;
    lemma_path_descends(edges, order, p, p.len() - 1);
}

/// A finite set that holds `nodes` and everything that is depended on.
proof fn lemma_universe(
    nodes: Set<Seq<char>>,
    edges: Map<Seq<char>, Set<Seq<char>>>,
    keys: Seq<Seq<char>>,
) -> (u: Set<Seq<char>>)
    requires
        nodes.finite(),
        forall|k: Seq<char>| edges.dom().contains(k) ==> #[trigger] edges[k].finite(),
    ensures
        u.finite(),
        nodes.subset_of(u),
        forall|k: Seq<char>| keys.contains(k) ==> #[trigger] deps(edges, k).subset_of(u),
    decreases keys.len(),
{
    if keys.len() == 0 {
        nodes
    } else {
        let v = lemma_universe(nodes, edges, keys.drop_last());
        let last = keys.last();
        if edges.dom().contains(last) {
            assert(edges[last].finite());
        }
        let u = v.union(deps(edges, last));
        assert forall|k: Seq<char>| keys.contains(k) implies #[trigger] deps(edges, k).subset_of(
            u,
        ) by {
            let i = choose|i: int| 0 <= i < keys.len() && keys[i] == k;
            if i < keys.len() - 1 {
                assert(keys.drop_last()[i] == k);
                assert(keys.drop_last().contains(k));
                assert(deps(edges, k).subset_of(v));
            } else {
                assert(k == last);
            }
            assert forall|x: Seq<char>| deps(edges, k).contains(x) implies u.contains(x) by {
                assert(v.contains(x) || deps(edges, last).contains(x));
            }
        }
        u
    }
}

/// A list of distinct elements of a finite set is no longer than the set.
proof fn lemma_distinct_len(s: Seq<Seq<char>>, u: Set<Seq<char>>)
    requires
        s.no_duplicates(),
        u.finite(),
        forall|i: int| 0 <= i < s.len() ==> u.contains(#[trigger] s[i]),
    ensures
        s.len() <= u.len(),
{
    s.unique_seq_to_set();
    assert(s.to_set().subset_of(u)) by {
        assert forall|x: Seq<char>| s.to_set().contains(x) implies u.contains(x) by {
            let i = choose|i: int| 0 <= i < s.len() && s[i] == x;
            assert(u.contains(s[i]));
        }
    }
    vstd::set_lib::lemma_len_subset(s.to_set(), u);
}

/// The mark of a name that was not visited yet, counting unknown names.
pub open spec fn mark(state: Map<Seq<char>, u8>, n: Seq<char>) -> u8 {
    if state.dom().contains(n) {
        state[n]
    } else {
        0
    }
}

/// The state of a depth-first visit: `path` leads from a root to the name being
/// visited, its names are marked 1, finished names are marked 2 and are in
/// `order`.
spec fn visiting(
    nodes: Set<Seq<char>>,
    edges: Map<Seq<char>, Set<Seq<char>>>,
    path: Seq<Seq<char>>,
    state: Map<Seq<char>, u8>,
    order: Seq<Seq<char>>,
) -> bool {
    &&& is_path(edges, path)
    &&& path.no_duplicates()
    &&& path.len() > 0 ==> nodes.contains(path[0])
    &&& is_build_order(edges, order)
    &&& forall|n: Seq<char>| #[trigger] order.contains(n) <==> mark(state, n) == 2
    &&& forall|n: Seq<char>| #[trigger] path.contains(n) <==> mark(state, n) == 1
    &&& forall|n: Seq<char>| #[trigger] order.contains(n) ==> reachable(nodes, edges, n)
}

/// A cycle in the dependencies.
#[derive(Debug)]
pub struct Cycle {
    /// A package that lies on the cycle.
    pub at: String,
}

/// `n` comes next after `path`.
spec fn comes_next(
    nodes: Set<Seq<char>>,
    edges: Map<Seq<char>, Set<Seq<char>>>,
    path: Seq<Seq<char>>,
    n: Seq<char>,
) -> bool {
    if path.len() == 0 {
        nodes.contains(n)
    } else {
        deps(edges, path.last()).contains(n)
    }
}

/// Extending the path by a name that comes next.
proof fn lemma_extend(
    nodes: Set<Seq<char>>,
    edges: Map<Seq<char>, Set<Seq<char>>>,
    path: Seq<Seq<char>>,
    n: Seq<char>,
)
    requires
        is_path(edges, path),
        path.len() > 0 ==> nodes.contains(path[0]),
        comes_next(nodes, edges, path, n),
    ensures
        is_path(edges, path.push(n)),
        nodes.contains(path.push(n)[0]),
        reachable(nodes, edges, n),
{
    let q = path.push(n);
    assert forall|i: int| 0 <= i < q.len() - 1 implies #[trigger] is_step(edges, q, i) by {
        if i < path.len() - 1 {
            assert(is_step(edges, path, i));
        }
    }
    assert(is_path(edges, q));
    assert(q.last() == n);
}

/// What can be reached stays within reach when nodes and edges are added.
pub proof fn lemma_reach_grows(
    nodes: Set<Seq<char>>,
    edges: Map<Seq<char>, Set<Seq<char>>>,
    more_nodes: Set<Seq<char>>,
    more_edges: Map<Seq<char>, Set<Seq<char>>>,
    x: Seq<char>,
)
    requires
        reachable(nodes, edges, x),
        nodes.subset_of(more_nodes),
        forall|n: Seq<char>| (#[trigger] deps(edges, n)).subset_of(deps(more_edges, n)),
    ensures
        reachable(more_nodes, more_edges, x),
{
    let p = choose|p: Seq<Seq<char>>|
        p.len() > 0 && #[trigger] is_path(edges, p) && nodes.contains(p[0]) && p.last() == x;
    assert forall|i: int| 0 <= i < p.len() - 1 implies #[trigger] is_step(more_edges, p, i) by {
        assert(is_step(edges, p, i));
        assert(deps(edges, p[i]).subset_of(deps(more_edges, p[i])));
    }
    assert(is_path(more_edges, p));
}

/// A node can be reached, and so can what a name within reach depends on.
pub proof fn lemma_reach_step(
    nodes: Set<Seq<char>>,
    edges: Map<Seq<char>, Set<Seq<char>>>,
    x: Seq<char>,
)
    ensures
        nodes.contains(x) ==> reachable(nodes, edges, x),
        reachable(nodes, edges, x) ==> forall|d: Seq<char>| #[trigger]
            deps(edges, x).contains(d) ==> reachable(nodes, edges, d),
{
    if nodes.contains(x) {
        let none = Seq::<Seq<char>>::empty();
        lemma_extend(nodes, edges, none, x);
    }
    if reachable(nodes, edges, x) {
        let p = choose|p: Seq<Seq<char>>|
            p.len() > 0 && #[trigger] is_path(edges, p) && nodes.contains(p[0]) && p.last() == x;
        assert forall|d: Seq<char>| #[trigger] deps(edges, x).contains(d) implies reachable(
            nodes,
            edges,
            d,
        ) by {
            lemma_extend(nodes, edges, p, d);
        }
    }
}

/// A set that holds the nodes and what its names depend on holds all that can be
/// reached.
pub proof fn lemma_reach_within(
    nodes: Set<Seq<char>>,
    edges: Map<Seq<char>, Set<Seq<char>>>,
    set: Set<Seq<char>>,
    x: Seq<char>,
)
    requires
        nodes.subset_of(set),
        forall|n: Seq<char>| set.contains(n) ==> (#[trigger] deps(edges, n)).subset_of(set),
        reachable(nodes, edges, x),
    ensures
        set.contains(x),
{
    let p = choose|p: Seq<Seq<char>>|
        p.len() > 0 && #[trigger] is_path(edges, p) && nodes.contains(p[0]) && p.last() == x;
    lemma_path_within(edges, set, p, p.len() - 1);
}

proof fn lemma_path_within(
    edges: Map<Seq<char>, Set<Seq<char>>>,
    set: Set<Seq<char>>,
    p: Seq<Seq<char>>,
    k: int,
)
    requires
        is_path(edges, p),
        0 <= k < p.len(),
        set.contains(p[0]),
        forall|n: Seq<char>| set.contains(n) ==> (#[trigger] deps(edges, n)).subset_of(set),
    ensures
        set.contains(p[k]),
    decreases k,
{
    if k > 0 {
        lemma_path_within(edges, set, p, k - 1);
        assert(is_step(edges, p, k - 1));
        assert(deps(edges, p[k - 1]).subset_of(set));
    }
}

/// A name that comes next and is on the path already closes a cycle.
proof fn lemma_closes_cycle(
    nodes: Set<Seq<char>>,
    edges: Map<Seq<char>, Set<Seq<char>>>,
    path: Seq<Seq<char>>,
    n: Seq<char>,
)
    requires
        is_path(edges, path),
        path.len() > 0 ==> nodes.contains(path[0]),
        comes_next(nodes, edges, path, n),
        path.contains(n),
    ensures
        on_cycle(edges, n),
        reachable(nodes, edges, n),
{
    lemma_extend(nodes, edges, path, n);
    let q = path.push(n);
    let i = choose|i: int| 0 <= i < path.len() && path[i] == n;
    let c = q.skip(i);
    assert forall|j: int| 0 <= j < c.len() - 1 implies #[trigger] is_step(edges, c, j) by {
        assert(is_step(edges, q, i + j));
    }
    assert(is_path(edges, c));
    assert(c[0] == n && c.last() == n && c.len() > 1);
}

/// Visits `node` and everything it depends on, appending each to `order` after
/// its own dependencies.
fn visit(
    node: &str,
    edges: &NameMap<NameSet>,
    state: &mut NameMap<u8>,
    order: &mut Vec<String>,
    Ghost(nodes): Ghost<Set<Seq<char>>>,
    Ghost(path): Ghost<Seq<Seq<char>>>,
    Ghost(universe): Ghost<Set<Seq<char>>>,
    Ghost(open): Ghost<Set<Seq<char>>>,
) -> (r: Result<(), Cycle>)
    requires
        open.finite(),
        forall|x: Seq<char>|
            #[trigger] open.contains(x) <==> universe.contains(x) && !path.contains(x),
        visiting(nodes, edge_sets(edges@), path, old(state)@, text::texts(old(order)@)),
        comes_next(nodes, edge_sets(edges@), path, node@),
        universe.finite(),
        universe.contains(node@),
        forall|i: int| 0 <= i < path.len() ==> universe.contains(#[trigger] path[i]),
        forall|k: Seq<char>| edges@.dom().contains(k) ==> #[trigger] deps(edge_sets(edges@), k).subset_of(
            universe,
        ),
    ensures
        match r {
            Ok(()) => {
                &&& visiting(nodes, edge_sets(edges@), path, final(state)@, text::texts(final(order)@))
                &&& text::texts(old(order)@).is_prefix_of(text::texts(final(order)@))
                &&& text::texts(final(order)@).contains(node@)
                &&& visited(edge_sets(edges@), node@, open, text::texts(old(order)@))
                    == Visit::Done(text::texts(final(order)@))
            },
            Err(c) => {
                &&& on_cycle(edge_sets(edges@), c.at@)
                &&& reachable(nodes, edge_sets(edges@), c.at@)
                &&& visited(edge_sets(edges@), node@, open, text::texts(old(order)@))
                    == Visit::Met(c.at@)
            },
        },
    decreases universe.len() - path.len(), 0nat,
{
    let m: u8 = match state.get(node) {
        Some(v) => *v,
        None => 0,
    };
    proof {
        assert(m == mark(state@, node@));
        lemma_distinct_len(path, universe);
    }
    if m == 2 {
        return Ok(());
    }
    if m == 1 {
        proof {
            assert(path.contains(node@));
            assert(!text::texts(order@).contains(node@)) by {
                assert(text::texts(order@).contains(node@) <==> mark(state@, node@) == 2);
            }
            lemma_closes_cycle(nodes, edge_sets(edges@), path, node@);
        }
        return Err(Cycle { at: String::from_str(node) });
    }
    let ghost state0 = state@;
    let ghost order0 = text::texts(order@);
    let ghost inner = path.push(node@);
    proof {
        assert(!order0.contains(node@) && !path.contains(node@)) by {
            assert(order0.contains(node@) <==> mark(state0, node@) == 2);
            assert(path.contains(node@) <==> mark(state0, node@) == 1);
        }
    }
    state.insert(String::from_str(node), 1);
    proof {
        lemma_extend(nodes, edge_sets(edges@), path, node@);
        lemma_distinct_len(inner, universe);
        assert forall|n: Seq<char>| #[trigger] inner.contains(n) <==> mark(state@, n) == 1 by {
            if path.contains(n) {
                let i = choose|i: int| 0 <= i < path.len() && path[i] == n;
                assert(inner[i] == n);
            }
            if inner.contains(n) && n != node@ {
                let i = choose|i: int| 0 <= i < inner.len() && inner[i] == n;
                assert(path[i] == n);
                assert(path.contains(n));
            }
            assert(inner[path.len() as int] == node@);
            assert(path.contains(n) <==> mark(state0, n) == 1);
        }
        assert forall|n: Seq<char>| #[trigger] order0.contains(n) <==> mark(state@, n) == 2 by {
            assert(order0.contains(n) <==> mark(state0, n) == 2);
        }
        assert(visiting(nodes, edge_sets(edges@), inner, state@, order0));
    }
    let ghost inner_open = open.remove(node@);
    let ghost todo = order::sorted_list(deps(edge_sets(edges@), node@));
    proof {
        assert(open.contains(node@));
        assert forall|x: Seq<char>| #[trigger] inner_open.contains(x) <==> universe.contains(x)
            && !inner.contains(x) by {
            assert(open.contains(x) <==> universe.contains(x) && !path.contains(x));
            lemma_push_contains(path, node@, x);
        }
    }
    match edges.get(node) {
        Some(set) => {
            let list = set.names();
            let mut i: usize = 0;
            proof {
                assert(todo.skip(0) =~= todo);
            }
            while i < list.len()
                invariant
                    i <= list@.len(),
                    visiting(nodes, edge_sets(edges@), inner, state@, text::texts(order@)),
                    order0.is_prefix_of(text::texts(order@)),
                    inner == path.push(node@),
                    universe.finite(),
                    inner.len() <= universe.len(),
                    forall|j: int| 0 <= j < inner.len() ==> universe.contains(#[trigger] inner[j]),
                    forall|k: Seq<char>|
                        edges@.dom().contains(k) ==> #[trigger] deps(edge_sets(edges@), k).subset_of(universe),
                    edges@.dom().contains(node@),
                    text::texts(list@).to_set() == deps(edge_sets(edges@), node@),
                    todo == text::texts(list@),
                    inner_open.finite(),
                    forall|x: Seq<char>|
                        #[trigger] inner_open.contains(x) <==> universe.contains(x)
                            && !inner.contains(x),
                    open.finite() && open.contains(node@) && !order0.contains(node@),
                    inner_open == open.remove(node@),
                    todo == order::sorted_list(deps(edge_sets(edges@), node@)),
                    order0 == text::texts(old(order)@),
                    visited_all(edge_sets(edges@), todo, inner_open, order0) == visited_all(
                        edge_sets(edges@),
                        todo.skip(i as int),
                        inner_open,
                        text::texts(order@),
                    ),
                    forall|j: int|
                        0 <= j < i ==> text::texts(order@).contains(#[trigger] list@[j]@),
                decreases list@.len() - i,
            {
                let ghost before = text::texts(order@);
                proof {
                    assert(text::texts(list@)[i as int] == list@[i as int]@);
                    assert(text::texts(list@).contains(list@[i as int]@));
                    assert(text::texts(list@).to_set().contains(list@[i as int]@));
                    assert(inner.last() == node@);
                    assert(todo.skip(i as int)[0] == list@[i as int]@);
                    assert(todo.skip(i as int).drop_first() =~= todo.skip(i + 1));
                    assert(deps(edge_sets(edges@), node@).subset_of(universe));
                }
                match visit(
                    list[i].as_str(),
                    edges,
                    state,
                    order,
                    Ghost(nodes),
                    Ghost(inner),
                    Ghost(universe),
                    Ghost(inner_open),
                ) {
                    Ok(()) => {},
                    Err(c) => {
                        return Err(c);
                    },
                }
                proof {
                    let now = text::texts(order@);
                    assert forall|j: int| 0 <= j < i + 1 implies now.contains(
                        #[trigger] list@[j]@,
                    ) by {
                        if j < i {
                            assert(before.contains(list@[j]@));
                            let k = choose|k: int| 0 <= k < before.len() && before[k] == list@[j]@;
                            assert(now[k] == before[k]);
                        }
                    }
                    assert(order0.is_prefix_of(now));
                }
                i += 1;
            }
            proof {
                let now = text::texts(order@);
                assert(todo.skip(todo.len() as int) =~= Seq::<Seq<char>>::empty());
                assert forall|d: Seq<char>| deps(edge_sets(edges@), node@).contains(d) implies now.contains(
                    d,
                ) by {
                    assert(text::texts(list@).to_set().contains(d));
                    assert(text::texts(list@).contains(d));
                    let j = choose|j: int| 0 <= j < list@.len() && text::texts(list@)[j] == d;
                    assert(list@[j]@ == d);
                }
            }
        },
        None => {
            proof {
                let none = Seq::<Seq<char>>::empty();
                assert(none.to_set() =~= deps(edge_sets(edges@), node@));
                order::lemma_sorted_list(none);
            }
        },
    }
    proof {
        assert(visited_all(edge_sets(edges@), todo, inner_open, order0) == Visit::Done(
            text::texts(order@),
        ));
    }
    let ghost state1 = state@;
    let ghost order1 = text::texts(order@);
    proof {
        assert(inner.contains(node@)) by {
            assert(inner[path.len() as int] == node@);
        }
        assert(!order1.contains(node@)) by {
            assert(inner.contains(node@) <==> mark(state1, node@) == 1);
            assert(order1.contains(node@) <==> mark(state1, node@) == 2);
        }
    }
    state.insert(String::from_str(node), 2);
    order.push(String::from_str(node));
    proof {
        let order2 = text::texts(order@);
        assert(order2 =~= order1.push(node@));
        assert forall|n: Seq<char>| #[trigger] order2.contains(n) <==> mark(state@, n) == 2 by {
            assert(order1.contains(n) <==> mark(state1, n) == 2);
            if order1.contains(n) {
                let i = choose|i: int| 0 <= i < order1.len() && order1[i] == n;
                assert(order2[i] == n);
            }
            assert(order2[order1.len() as int] == node@);
            if order2.contains(n) && n != node@ {
                let i = choose|i: int| 0 <= i < order2.len() && order2[i] == n;
                assert(order1[i] == n);
            }
        }
        assert forall|n: Seq<char>| #[trigger] path.contains(n) <==> mark(state@, n) == 1 by {
            assert(inner.contains(n) <==> mark(state1, n) == 1);
            if path.contains(n) {
                let i = choose|i: int| 0 <= i < path.len() && path[i] == n;
                assert(inner[i] == n);
            }
            if inner.contains(n) && n != node@ {
                let i = choose|i: int| 0 <= i < inner.len() && inner[i] == n;
                assert(path[i] == n);
            }
        }
        assert forall|n: Seq<char>| #[trigger] order2.contains(n) implies reachable(
            nodes,
            edge_sets(edges@),
            n,
        ) by {
            if n != node@ {
                let i = choose|i: int| 0 <= i < order2.len() && order2[i] == n;
                assert(order1[i] == n);
                assert(order1.contains(n));
            }
        }
        assert(is_build_order(edge_sets(edges@), order2)) by {
            assert forall|i: int, d: Seq<char>|
                0 <= i < order2.len() && #[trigger] deps(edge_sets(edges@), order2[i]).contains(d) implies #[trigger] order2.take(
                i,
            ).contains(d) by {
                if i < order1.len() {
                    assert(order1.take(i).contains(d)) by {
                        assert(deps(edge_sets(edges@), order1[i]).contains(d));
                    }
                    assert(order2.take(i) =~= order1.take(i));
                } else {
                    assert(order2.take(i) =~= order1);
                }
            }
            assert forall|i: int, j: int|
                0 <= i < order2.len() && 0 <= j < order2.len() && i != j implies order2[i]
                != order2[j] by {
                if i == order1.len() {
                    assert(order1.contains(order1[j]));
                } else if j == order1.len() {
                    assert(order1.contains(order1[i]));
                }
            }
        }
        assert(order2.contains(node@)) by {
            assert(order2[order1.len() as int] == node@);
        }
    }
    Ok(())
}

/// Orders the nodes, and everything they lead to, so that each package comes
/// after the packages it depends on. Fails exactly when a dependency cycle can
/// be reached.
pub fn topo_order(nodes: &NameSet, edges: &NameMap<NameSet>) -> (r: Result<Vec<String>, Cycle>)
    ensures
        match r {
            Ok(order) => visit_of(nodes@, edge_sets(edges@)) == Visit::Done(text::texts(order@)),
            Err(c) => visit_of(nodes@, edge_sets(edges@)) == Visit::Met(c.at@),
        },
        match r {
            Ok(order) => {
                &&& is_build_order(edge_sets(edges@), text::texts(order@))
                &&& forall|x: Seq<char>|
                    text::texts(order@).contains(x) <==> reachable(nodes@, edge_sets(edges@), x)
            },
            Err(c) => on_cycle(edge_sets(edges@), c.at@) && reachable(nodes@, edge_sets(edges@), c.at@),
        },
        r is Err <==> exists|x: Seq<char>|
            #[trigger] reachable(nodes@, edge_sets(edges@), x) && on_cycle(edge_sets(edges@), x),
{
    let mut state: NameMap<u8> = NameMap::new();
    let mut order: Vec<String> = Vec::new();
    let list = nodes.names();
    let keys = edges.keys();
    let ghost universe = names_in(nodes@, edge_sets(edges@));
    let ghost path = Seq::<Seq<char>>::empty();
    let ghost todo = order::sorted_list(nodes@);
    proof {
        nodes.lemma_finite();
        assert forall|k: Seq<char>| edge_sets(edges@).dom().contains(k) implies #[trigger] edge_sets(
            edges@,
        )[k].finite() by {
            edges@[k].lemma_finite();
        }
        let bound = lemma_universe(nodes@, edge_sets(edges@), text::texts(keys@));
        assert(universe.subset_of(bound)) by {
            assert forall|n: Seq<char>| universe.contains(n) implies bound.contains(n) by {
                if !nodes@.contains(n) {
                    let k = choose|k: Seq<char>|
                        edge_sets(edges@).dom().contains(k) && #[trigger] deps(
                            edge_sets(edges@),
                            k,
                        ).contains(n);
                    assert(text::texts(keys@).to_set().contains(k));
                    assert(deps(edge_sets(edges@), k).subset_of(bound));
                }
            }
        }
        vstd::set_lib::lemma_len_subset(universe, bound);
        assert forall|k: Seq<char>| edges@.dom().contains(k) implies #[trigger] deps(
            edge_sets(edges@),
            k,
        ).subset_of(universe) by {
            assert(edge_sets(edges@).dom().contains(k));
        }
        assert(todo.skip(0) =~= todo);
        assert(text::texts(order@) =~= Seq::<Seq<char>>::empty());
    }
    let mut i: usize = 0;
    while i < list.len()
        invariant
            i <= list@.len(),
            path.len() == 0,
            visiting(nodes@, edge_sets(edges@), path, state@, text::texts(order@)),
            universe.finite(),
            nodes@.subset_of(universe),
            text::texts(list@).to_set() == nodes@,
            todo == text::texts(list@),
            universe == names_in(nodes@, edge_sets(edges@)),
            visit_of(nodes@, edge_sets(edges@)) == visited_all(
                edge_sets(edges@),
                todo.skip(i as int),
                universe,
                text::texts(order@),
            ),
            forall|k: Seq<char>|
                edges@.dom().contains(k) ==> #[trigger] deps(edge_sets(edges@), k).subset_of(universe),
            forall|j: int| 0 <= j < i ==> text::texts(order@).contains(#[trigger] list@[j]@),
        decreases list@.len() - i,
    {
        let ghost before = text::texts(order@);
        proof {
            assert(text::texts(list@)[i as int] == list@[i as int]@);
            assert(text::texts(list@).contains(list@[i as int]@));
            assert(text::texts(list@).to_set().contains(list@[i as int]@));
            assert(todo.skip(i as int)[0] == list@[i as int]@);
            assert(todo.skip(i as int).drop_first() =~= todo.skip(i + 1));
        }
        match visit(
            list[i].as_str(),
            edges,
            &mut state,
            &mut order,
            Ghost(nodes@),
            Ghost(path),
            Ghost(universe),
            Ghost(universe),
        ) {
            Ok(()) => {},
            Err(c) => {
                return Err(c);
            },
        }
        proof {
            let now = text::texts(order@);
            assert forall|j: int| 0 <= j < i + 1 implies now.contains(#[trigger] list@[j]@) by {
                if j < i {
                    assert(before.contains(list@[j]@));
                    let k = choose|k: int| 0 <= k < before.len() && before[k] == list@[j]@;
                    assert(now[k] == before[k]);
                }
            }
        }
        i += 1;
    }
    proof {
        let now = text::texts(order@);
        assert(todo.skip(todo.len() as int) =~= Seq::<Seq<char>>::empty());
        assert forall|n: Seq<char>| nodes@.contains(n) implies now.contains(n) by {
            assert(text::texts(list@).to_set().contains(n));
            assert(text::texts(list@).contains(n));
            let j = choose|j: int| 0 <= j < list@.len() && text::texts(list@)[j] == n;
            assert(list@[j]@ == n);
        }
        assert forall|x: Seq<char>| now.contains(x) <==> reachable(nodes@, edge_sets(edges@), x) by {
            if reachable(nodes@, edge_sets(edges@), x) {
                lemma_order_closed(nodes@, edge_sets(edges@), now, x);
            }
        }
        assert forall|x: Seq<char>| #[trigger] reachable(nodes@, edge_sets(edges@), x) implies !on_cycle(
            edge_sets(edges@),
            x,
        ) by {
            law_build_order_excludes_cycles(edge_sets(edges@), now, x);
        }
    }
    Ok(order)
}

/// What the first `k` layers hold: each layer adds every node whose
/// dependencies are all in the layers before it.
pub open spec fn settled(
    nodes: Set<Seq<char>>,
    edges: Map<Seq<char>, Set<Seq<char>>>,
    k: nat,
) -> Set<Seq<char>>
    decreases k,
{
    if k == 0 {
        Set::empty()
    } else {
        let s = settled(nodes, edges, (k - 1) as nat);
        Set::new(
            |n: Seq<char>| s.contains(n) || (nodes.contains(n) && deps(edges, n).subset_of(s)),
        )
    }
}

/// Layer `k`: what the first `k + 1` layers hold and the first `k` do not.
pub open spec fn layer(
    nodes: Set<Seq<char>>,
    edges: Map<Seq<char>, Set<Seq<char>>>,
    k: nat,
) -> Set<Seq<char>> {
    settled(nodes, edges, k + 1).difference(settled(nodes, edges, k))
}

/// The names of the layers, in order.
pub open spec fn layer_texts(layers: Seq<Vec<String>>) -> Seq<Seq<Seq<char>>> {
    layers.map_values(|l: Vec<String>| text::texts(l@))
}

/// `layers` lists, each in ascending order, the layers of the graph up to the
/// first empty one.
pub open spec fn are_layers(
    nodes: Set<Seq<char>>,
    edges: Map<Seq<char>, Set<Seq<char>>>,
    layers: Seq<Seq<Seq<char>>>,
) -> bool {
    &&& forall|i: int|
        0 <= i < layers.len() ==> {
            &&& order::sorted(#[trigger] layers[i])
            &&& layers[i].to_set() == layer(nodes, edges, i as nat)
            &&& layers[i].len() > 0
        }
    &&& layer(nodes, edges, layers.len()) == Set::<Seq<char>>::empty()
}

/// Layers hold nodes only.
proof fn lemma_settled_nodes(nodes: Set<Seq<char>>, edges: Map<Seq<char>, Set<Seq<char>>>, k: nat)
    ensures
        settled(nodes, edges, k).subset_of(nodes),
    decreases k,
{
    if k > 0 {
        lemma_settled_nodes(nodes, edges, (k - 1) as nat);
    }
}

/// Whether all of `needed` are in `done`.
fn all_in(needed: &NameSet, done: &NameSet) -> (r: bool)
    ensures
        r == needed@.subset_of(done@),
{
    let list = needed.names();
    let mut i: usize = 0;
    while i < list.len()
        invariant
            i <= list@.len(),
            text::texts(list@).to_set() == needed@,
            forall|j: int| 0 <= j < i ==> done@.contains(#[trigger] list@[j]@),
        decreases list@.len() - i,
    {
        if !done.contains(list[i].as_str()) {
            proof {
                assert(text::texts(list@)[i as int] == list@[i as int]@);
                assert(text::texts(list@).contains(list@[i as int]@));
                assert(needed@.contains(list@[i as int]@));
            }
            return false;
        }
        i += 1;
    }
    proof {
        assert forall|d: Seq<char>| needed@.contains(d) implies done@.contains(d) by {
            assert(text::texts(list@).contains(d));
            let j = choose|j: int| 0 <= j < list@.len() && text::texts(list@)[j] == d;
            assert(list@[j]@ == d);
        }
    }
    true
}

/// The nodes that are not in `done` and depend only on what is, ascending.
fn next_layer(nodes: &NameSet, edges: &NameMap<NameSet>, done: &NameSet) -> (r: Vec<String>)
    ensures
        order::sorted(text::texts(r@)),
        forall|n: Seq<char>|
            #[trigger] text::texts(r@).contains(n) <==> nodes@.contains(n) && !done@.contains(n)
                && deps(edge_sets(edges@), n).subset_of(done@),
{
    let list = nodes.names();
    let ghost all = text::texts(list@);
    let mut out: Vec<String> = Vec::new();
    let mut i: usize = 0;
    while i < list.len()
        invariant
            i <= list@.len(),
            all == text::texts(list@),
            order::sorted(all),
            order::sorted(text::texts(out@)),
            forall|n: Seq<char>|
                #[trigger] text::texts(out@).contains(n) <==> all.take(i as int).contains(n)
                    && !done@.contains(n) && deps(edge_sets(edges@), n).subset_of(done@),
        decreases list@.len() - i,
    {
        let ready = match edges.get(list[i].as_str()) {
            Some(needed) => all_in(needed, done),
            None => true,
        };
        let ghost before = text::texts(out@);
        let ghost name = list@[i as int]@;
        let take = ready && !done.contains(list[i].as_str());
        if take {
            out.push(list[i].clone());
        }
        proof {
            assert(all.take(i + 1) =~= all.take(i as int).push(name));
            let now = text::texts(out@);
            if take {
                assert(now =~= before.push(name));
                assert forall|a: int, b: int| 0 <= a < b < now.len() implies order::text_lt(
                    #[trigger] now[a],
                    #[trigger] now[b],
                ) by {
                    if b == before.len() {
                        assert(before.contains(before[a]));
                        assert(all.take(i as int).contains(before[a]));
                        let c = choose|c: int|
                            0 <= c < i && all.take(i as int)[c] == before[a];
                        assert(all[c] == now[a] && all[i as int] == now[b]);
                    } else {
                        assert(before[a] == now[a] && before[b] == now[b]);
                    }
                }
            }
            assert forall|n: Seq<char>|
                #[trigger] now.contains(n) <==> all.take(i + 1).contains(n) && !done@.contains(n) && deps(
                    edge_sets(edges@),
                    n,
                ).subset_of(done@) by {
                lemma_push_contains(all.take(i as int), name, n);
                if take {
                    lemma_push_contains(before, name, n);
                }
                assert(before.contains(n) <==> all.take(i as int).contains(n) && !done@.contains(n)
                    && deps(edge_sets(edges@), n).subset_of(done@));
                assert(ready <==> deps(edge_sets(edges@), name).subset_of(done@));
            }
        }
        i += 1;
    }
    proof {
        assert(all.take(all.len() as int) =~= all);
        assert forall|n: Seq<char>|
            #[trigger] text::texts(out@).contains(n) <==> nodes@.contains(n) && !done@.contains(n)
                && deps(edge_sets(edges@), n).subset_of(done@) by {
            assert(all.to_set().contains(n) <==> all.contains(n));
        }
    }
    out
}

/// What a list holds after one more element.
proof fn lemma_push_contains(s: Seq<Seq<char>>, x: Seq<char>, n: Seq<char>)
    ensures
        s.push(x).contains(n) <==> s.contains(n) || n == x,
{
    let t = s.push(x);
    if s.contains(n) {
        let i = choose|i: int| 0 <= i < s.len() && s[i] == n;
        assert(t[i] == n);
    }
    assert(t[s.len() as int] == x);
    if t.contains(n) && n != x {
        let i = choose|i: int| 0 <= i < t.len() && t[i] == n;
        assert(s[i] == n);
    }
}

/// Groups the nodes into layers: a layer holds every node all of whose
/// dependencies are in earlier layers, in ascending order. Nodes of a layer do
/// not depend on each other.
pub fn build_layers(nodes: &NameSet, edges: &NameMap<NameSet>) -> (r: Vec<Vec<String>>)
    ensures
        are_layers(nodes@, edge_sets(edges@), layer_texts(r@)),
{
    let mut done = NameSet::new();
    let mut layers: Vec<Vec<String>> = Vec::new();
    let ghost n = nodes@;
    let ghost e = edge_sets(edges@);
    proof {
        nodes.lemma_finite();
        lemma_settled_nodes(n, e, 0);
    }
    loop
        invariant_except_break
            n == nodes@,
            e == edge_sets(edges@),
            n.finite(),
            done@ == settled(n, e, layers@.len()),
            done@.subset_of(n),
            forall|i: int|
                0 <= i < layers@.len() ==> {
                    &&& order::sorted(#[trigger] layer_texts(layers@)[i])
                    &&& layer_texts(layers@)[i].to_set() == layer(n, e, i as nat)
                    &&& layer_texts(layers@)[i].len() > 0
                },
        ensures
            are_layers(n, e, layer_texts(layers@)),
        decreases n.len() - done@.len(),
    {
        let ghost k = layers@.len();
        let ghost before = done@;
        if done.len() >= nodes.len() {
            proof {
                vstd::set_lib::lemma_len_subset(before, n);
                vstd::set_lib::lemma_subset_equality(before, n);
                lemma_settled_nodes(n, e, k + 1);
                assert(layer(n, e, k) =~= Set::<Seq<char>>::empty());
                assert(layer_texts(layers@).len() == k);
            }
            break;
        }
        let next = next_layer(nodes, edges, &done);
        let ghost names = text::texts(next@);
        proof {
            assert(names.to_set() =~= layer(n, e, k)) by {
                assert forall|x: Seq<char>|
                    names.to_set().contains(x) <==> layer(n, e, k).contains(x) by {
                    assert(names.to_set().contains(x) <==> names.contains(x));
                }
            }
        }
        if next.len() == 0 {
            proof {
                assert(names.to_set() =~= Set::<Seq<char>>::empty());
                assert(layer_texts(layers@).len() == k);
            }
            break;
        }
        let mut i: usize = 0;
        proof {
            assert(names.take(0).to_set() =~= Set::<Seq<char>>::empty());
            assert(done@ =~= before.union(names.take(0).to_set()));
        }
        while i < next.len()
            invariant
                i <= next@.len(),
                names == text::texts(next@),
                done@ == before.union(names.take(i as int).to_set()),
            decreases next@.len() - i,
        {
            done.insert(next[i].clone());
            proof {
                assert(names.take(i + 1) =~= names.take(i as int).push(names[i as int]));
                names.take(i as int).lemma_push_to_set_commute(names[i as int]);
                assert(done@ =~= before.union(names.take(i + 1).to_set()));
            }
            i += 1;
        }
        let ghost was = layer_texts(layers@);
        layers.push(next);
        proof {
            assert(names.take(names.len() as int) =~= names);
            lemma_settled_nodes(n, e, k + 1);
            assert(done@ =~= settled(n, e, k + 1));
            assert(layer_texts(layers@) =~= was.push(names));
            assert forall|i: int| 0 <= i < layers@.len() implies ({
                &&& order::sorted(#[trigger] layer_texts(layers@)[i])
                &&& layer_texts(layers@)[i].to_set() == layer(n, e, i as nat)
                &&& layer_texts(layers@)[i].len() > 0
            }) by {
                if i < k {
                    assert(was[i] == layer_texts(layers@)[i]);
                }
            }
            assert(names.contains(names[0]));
            assert(before.len() < done@.len()) by {
                assert(before.insert(names[0]).subset_of(done@)) by {
                    assert(names.to_set().contains(names[0]));
                }
                vstd::set_lib::lemma_len_subset(before, n);
                vstd::set_lib::lemma_len_subset(before.insert(names[0]), done@);
            }
            vstd::set_lib::lemma_len_subset(done@, n);
        }
    }
    layers
}

/// Every node of the order that is in `nodes` is in a layer before the first
/// empty one.
proof fn lemma_order_settles(
    nodes: Set<Seq<char>>,
    edges: Map<Seq<char>, Set<Seq<char>>>,
    order: Seq<Seq<char>>,
    k: nat,
    i: int,
)
    requires
        is_build_order(edges, order),
        forall|n: Seq<char>| nodes.contains(n) ==> #[trigger] deps(edges, n).subset_of(nodes),
        layer(nodes, edges, k) == Set::<Seq<char>>::empty(),
        0 <= i < order.len(),
        nodes.contains(order[i]),
    ensures
        settled(nodes, edges, k).contains(order[i]),
    decreases i,
{
    let n = order[i];
    let s = settled(nodes, edges, k);
    assert(deps(edges, n).subset_of(nodes));
    assert forall|d: Seq<char>| deps(edges, n).contains(d) implies s.contains(d) by {
        assert(deps(edges, order[i]).contains(d));
        assert(order.take(i).contains(d));
        let j = choose|j: int| 0 <= j < i && order.take(i)[j] == d;
        assert(order[j] == d);
        lemma_order_settles(nodes, edges, order, k, j);
    }
    assert(settled(nodes, edges, k + 1).contains(n));
    if !s.contains(n) {
        assert(layer(nodes, edges, k).contains(n));
    }
}

/// Where every node has a place in a build order, the layers hold every node.
pub proof fn law_layers_cover(
    nodes: Set<Seq<char>>,
    edges: Map<Seq<char>, Set<Seq<char>>>,
    layers: Seq<Seq<Seq<char>>>,
    order: Seq<Seq<char>>,
)
    requires
        are_layers(nodes, edges, layers),
        is_build_order(edges, order),
        forall|n: Seq<char>| nodes.contains(n) ==> order.contains(n),
        forall|n: Seq<char>| nodes.contains(n) ==> #[trigger] deps(edges, n).subset_of(nodes),
    ensures
        settled(nodes, edges, layers.len()) == nodes,
        layers.flatten().to_set() == nodes,
{
    let k = layers.len();
    lemma_settled_nodes(nodes, edges, k);
    assert forall|n: Seq<char>| nodes.contains(n) implies settled(nodes, edges, k).contains(n) by {
        let i = choose|i: int| 0 <= i < order.len() && order[i] == n;
        lemma_order_settles(nodes, edges, order, k, i);
    }
    assert(settled(nodes, edges, k) =~= nodes);
    lemma_layers_flatten(nodes, edges, layers, k);
    assert(layers.take(k as int) =~= layers);
}

/// The first `m` layers one after another: a build order of what they hold.
proof fn lemma_layers_flatten(
    nodes: Set<Seq<char>>,
    edges: Map<Seq<char>, Set<Seq<char>>>,
    layers: Seq<Seq<Seq<char>>>,
    m: nat,
)
    requires
        are_layers(nodes, edges, layers),
        m <= layers.len(),
    ensures
        is_build_order(edges, layers.take(m as int).flatten()),
        layers.take(m as int).flatten().to_set() == settled(nodes, edges, m),
    decreases m,
{
    let now = layers.take(m as int);
    now.lemma_flatten_and_flatten_alt_are_equivalent();
    if m == 0 {
        assert(now.flatten() =~= Seq::<Seq<char>>::empty());
        assert(now.flatten().to_set() =~= Set::<Seq<char>>::empty());
    } else {
        let p = (m - 1) as nat;
        let was = layers.take(p as int);
        lemma_layers_flatten(nodes, edges, layers, p);
        was.lemma_flatten_and_flatten_alt_are_equivalent();
        assert(now.drop_last() =~= was);
        assert(now.last() == layers[p as int]);
        let a = was.flatten();
        let b = layers[p as int];
        let c = now.flatten();
        let s = settled(nodes, edges, p);
        assert(c == a + b);
        order::lemma_sorted_distinct(b);
        assert(b.to_set() == layer(nodes, edges, p));
        assert forall|i: int| 0 <= i < b.len() implies layer(nodes, edges, p).contains(
            #[trigger] b[i],
        ) by {
            assert(b.to_set().contains(b[i]));
        }
        assert forall|i: int| 0 <= i < a.len() implies s.contains(#[trigger] a[i]) by {
            assert(a.to_set().contains(a[i]));
        }
        assert(is_build_order(edges, c)) by {
            assert forall|i: int, d: Seq<char>|
                0 <= i < c.len() && #[trigger] deps(edges, c[i]).contains(d) implies #[trigger] c.take(
                i,
            ).contains(d) by {
                if i < a.len() {
                    assert(deps(edges, a[i]).contains(d));
                    assert(a.take(i).contains(d));
                    assert(c.take(i) =~= a.take(i));
                } else {
                    assert(c[i] == b[i - a.len()]);
                    assert(layer(nodes, edges, p).contains(b[i - a.len()]));
                    assert(deps(edges, c[i]).subset_of(s));
                    assert(a.to_set().contains(d));
                    let j = choose|j: int| 0 <= j < a.len() && a[j] == d;
                    assert(c.take(i)[j] == d);
                }
            }
            assert forall|i: int, j: int|
                0 <= i < c.len() && 0 <= j < c.len() && i != j implies c[i] != c[j] by {
                if i < a.len() && j >= a.len() {
                    assert(s.contains(a[i]));
                    assert(!s.contains(b[j - a.len()]));
                } else if i >= a.len() && j < a.len() {
                    assert(s.contains(a[j]));
                    assert(!s.contains(b[i - a.len()]));
                } else if i >= a.len() {
                    assert(b[i - a.len()] != b[j - a.len()]);
                }
            }
        }
        assert(c.to_set() =~= settled(nodes, edges, m)) by {
            assert forall|x: Seq<char>|
                c.to_set().contains(x) <==> settled(nodes, edges, m).contains(x) by {
                if c.contains(x) {
                    let i = choose|i: int| 0 <= i < c.len() && c[i] == x;
                    if i < a.len() {
                        assert(s.contains(a[i]));
                    } else {
                        assert(layer(nodes, edges, p).contains(b[i - a.len()]));
                    }
                }
                if settled(nodes, edges, m).contains(x) {
                    if s.contains(x) {
                        assert(a.to_set().contains(x));
                        let j = choose|j: int| 0 <= j < a.len() && a[j] == x;
                        assert(c[j] == x);
                    } else {
                        assert(b.to_set().contains(x));
                        let j = choose|j: int| 0 <= j < b.len() && b[j] == x;
                        assert(c[a.len() + j] == x);
                    }
                }
            }
        }
    }
}

/// The layers one after another are a build order: nothing occurs twice, and
/// each package comes after what it depends on.
pub proof fn law_layers_are_build_order(
    nodes: Set<Seq<char>>,
    edges: Map<Seq<char>, Set<Seq<char>>>,
    layers: Seq<Seq<Seq<char>>>,
)
    requires
        are_layers(nodes, edges, layers),
    ensures
        is_build_order(edges, layers.flatten()),
        layers.flatten().to_set() == settled(nodes, edges, layers.len()),
{
    lemma_layers_flatten(nodes, edges, layers, layers.len());
    assert(layers.take(layers.len() as int) =~= layers);
}

/// A package of a layer depends on earlier layers only, so the packages of one
/// layer can be built side by side.
pub proof fn law_layer_is_independent(
    nodes: Set<Seq<char>>,
    edges: Map<Seq<char>, Set<Seq<char>>>,
    k: nat,
    a: Seq<char>,
    b: Seq<char>,
)
    requires
        layer(nodes, edges, k).contains(a),
        layer(nodes, edges, k).contains(b),
    ensures
        deps(edges, a).subset_of(settled(nodes, edges, k)),
        !deps(edges, a).contains(b),
{
}

/// The layers one after another.
pub fn flatten(layers: &Vec<Vec<String>>) -> (r: Vec<String>)
    ensures
        text::texts(r@) == layer_texts(layers@).flatten(),
{
    let ghost all = layer_texts(layers@);
    let mut out: Vec<String> = Vec::new();
    let mut i: usize = 0;
    proof {
        assert(all.take(0).flatten() =~= Seq::<Seq<char>>::empty());
        assert(text::texts(out@) =~= Seq::<Seq<char>>::empty());
    }
    while i < layers.len()
        invariant
            i <= layers@.len(),
            all == layer_texts(layers@),
            text::texts(out@) == all.take(i as int).flatten(),
        decreases layers@.len() - i,
    {
        let layer = &layers[i];
        let ghost start = text::texts(out@);
        let ghost names = text::texts(layer@);
        let mut j: usize = 0;
        proof {
            assert(start + names.take(0) =~= start);
        }
        while j < layer.len()
            invariant
                j <= layer@.len(),
                names == text::texts(layer@),
                text::texts(out@) == start + names.take(j as int),
            decreases layer@.len() - j,
        {
            let ghost before = text::texts(out@);
            out.push(layer[j].clone());
            proof {
                assert(text::texts(out@) =~= before.push(names[j as int]));
                assert(text::texts(out@) =~= start + names.take(j + 1));
            }
            j += 1;
        }
        proof {
            assert(names.take(names.len() as int) =~= names);
            let now = all.take(i + 1);
            now.lemma_flatten_and_flatten_alt_are_equivalent();
            all.take(i as int).lemma_flatten_and_flatten_alt_are_equivalent();
            assert(now.drop_last() =~= all.take(i as int));
            assert(now.last() == names);
        }
        i += 1;
    }
    proof {
        assert(all.take(all.len() as int) =~= all);
    }
    out
}

/// In a build order what a package depends on is built before it: it has a place,
/// and that place is earlier; and no package is built twice.
pub proof fn law_dependencies_come_first(
    edges: Map<Seq<char>, Set<Seq<char>>>,
    order: Seq<Seq<char>>,
    i: int,
    d: Seq<char>,
)
    requires
        is_build_order(edges, order),
        0 <= i < order.len(),
        edges.dom().contains(order[i]) && edges[order[i]].contains(d),
    ensures
        exists|j: int| 0 <= j < i && #[trigger] order[j] == d,
        forall|j: int, k: int|
            0 <= j < k < order.len() ==> #[trigger] order[j] != #[trigger] order[k],
{
    assert(deps(edges, order[i]).contains(d));
    assert(order.take(i).contains(d));
    let j = choose|j: int| 0 <= j < i && order.take(i)[j] == d;
    assert(order[j] == d);
}

/// A package is in the first layer in which it can be built: the one right after
/// the last of the layers that hold what it depends on, and the very first if it
/// depends on nothing.
pub proof fn law_layers_are_as_early_as_they_can_be(
    nodes: Set<Seq<char>>,
    edges: Map<Seq<char>, Set<Seq<char>>>,
    layers: Seq<Seq<Seq<char>>>,
    k: int,
    n: Seq<char>,
)
    requires
        are_layers(nodes, edges, layers),
        0 <= k < layers.len(),
        layers[k].contains(n),
    ensures
        nodes.contains(n),
        forall|d: Seq<char>|
            edges.dom().contains(n) && #[trigger] edges[n].contains(d) ==> in_a_layer(
                layers,
                k,
                d,
            ),
        k > 0 ==> edges.dom().contains(n) && exists|d: Seq<char>| #[trigger]
            edges[n].contains(d) && layers[k - 1].contains(d),
{
    let s = settled(nodes, edges, k as nat);
    lemma_settled_nodes(nodes, edges, k as nat + 1);
    assert(layers[k].to_set().contains(n));
    assert(layer(nodes, edges, k as nat).contains(n));
    assert(deps(edges, n).subset_of(s));
    assert forall|d: Seq<char>|
        edges.dom().contains(n) && #[trigger] edges[n].contains(d) implies in_a_layer(
        layers,
        k,
        d,
    ) by {
        assert(deps(edges, n).contains(d));
        lemma_settled_in_layers(nodes, edges, layers, k, d);
    }
    if k > 0 {
        let t = settled(nodes, edges, (k - 1) as nat);
        assert(!s.contains(n));
        assert(!deps(edges, n).subset_of(t));
        let d = choose|d: Seq<char>| deps(edges, n).contains(d) && !t.contains(d);
        assert(edges[n].contains(d));
        assert(layer(nodes, edges, (k - 1) as nat).contains(d));
        assert(layers[k - 1].to_set().contains(d));
    }
}

/// A name is in one of the first `k` layers.
pub open spec fn in_a_layer(layers: Seq<Seq<Seq<char>>>, k: int, d: Seq<char>) -> bool {
    exists|i: int| 0 <= i < k && (#[trigger] layers[i]).contains(d)
}

proof fn lemma_settled_in_layers(
    nodes: Set<Seq<char>>,
    edges: Map<Seq<char>, Set<Seq<char>>>,
    layers: Seq<Seq<Seq<char>>>,
    k: int,
    d: Seq<char>,
)
    requires
        are_layers(nodes, edges, layers),
        0 <= k <= layers.len(),
        settled(nodes, edges, k as nat).contains(d),
    ensures
        in_a_layer(layers, k, d),
    decreases k,
{
    if k > 0 {
        if settled(nodes, edges, (k - 1) as nat).contains(d) {
            lemma_settled_in_layers(nodes, edges, layers, k - 1, d);
            let i = choose|i: int| 0 <= i < k - 1 && (#[trigger] layers[i]).contains(d);
            assert(layers[i].contains(d));
        } else {
            assert(layer(nodes, edges, (k - 1) as nat).contains(d));
            assert(layers[k - 1].to_set().contains(d));
            assert(layers[k - 1].contains(d));
        }
    }
}

/// A requested package is reached, and so is whatever a reached package depends
/// on; two packages that depend on each other, or one on itself, are on a cycle.
pub proof fn law_reaching_and_cycles(
    nodes: Set<Seq<char>>,
    edges: Map<Seq<char>, Set<Seq<char>>>,
    a: Seq<char>,
    b: Seq<char>,
)
    ensures
        nodes.contains(a) ==> reachable(nodes, edges, a),
        reachable(nodes, edges, a) && edges.dom().contains(a) && edges[a].contains(b) ==> reachable(
            nodes,
            edges,
            b,
        ),
        edges.dom().contains(a) && edges[a].contains(a) ==> on_cycle(edges, a),
        edges.dom().contains(a) && edges[a].contains(b) && edges.dom().contains(b)
            && edges[b].contains(a) ==> on_cycle(edges, a),
        edges.dom() == Set::<Seq<char>>::empty() ==> !on_cycle(edges, a),
{
    if nodes.contains(a) {
        let p = seq![a];
        assert(is_path(edges, p));
        assert(p.last() == a);
    }
    if reachable(nodes, edges, a) && edges.dom().contains(a) && edges[a].contains(b) {
        let p = choose|p: Seq<Seq<char>>|
            p.len() > 0 && #[trigger] is_path(edges, p) && nodes.contains(p[0]) && p.last() == a;
        let q = p.push(b);
        assert forall|i: int| 0 <= i < q.len() - 1 implies #[trigger] is_step(edges, q, i) by {
            if i < p.len() - 1 {
                assert(is_step(edges, p, i));
            } else {
                assert(q[i] == a && q[i + 1] == b);
            }
        }
        assert(is_path(edges, q));
        assert(q.last() == b);
    }
    if edges.dom().contains(a) && edges[a].contains(a) {
        let p = seq![a, a];
        assert forall|i: int| 0 <= i < p.len() - 1 implies #[trigger] is_step(edges, p, i) by {
            assert(p[i] == a && p[i + 1] == a);
        }
        assert(is_path(edges, p));
        assert(p.last() == a);
    }
    if edges.dom().contains(a) && edges[a].contains(b) && edges.dom().contains(b)
        && edges[b].contains(a) {
        let p = seq![a, b, a];
        assert forall|i: int| 0 <= i < p.len() - 1 implies #[trigger] is_step(edges, p, i) by {
            if i == 0 {
                assert(p[0] == a && p[1] == b);
            } else {
                assert(p[1] == b && p[2] == a);
            }
        }
        assert(is_path(edges, p));
        assert(p.last() == a);
    }
    if edges.dom() == Set::<Seq<char>>::empty() && on_cycle(edges, a) {
        let p = choose|p: Seq<Seq<char>>|
            p.len() > 1 && #[trigger] is_path(edges, p) && p[0] == a && p.last() == a;
        assert(is_step(edges, p, 0));
    }
}

} // verus!
