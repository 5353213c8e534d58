//! The mathematical model of a dependency graph.
//!
//! A graph maps each registered name to the names it depends on, in the
//! order in which the edges were declared.

use vstd::prelude::*;

verus! {

/// A dependency graph: each registered name with its dependencies.
pub type Graph = Map<Seq<char>, Seq<Seq<char>>>;

/// A graph that a registry can hold: finitely many names, every edge ends
/// at a registered name, and no edge is listed twice.
pub open spec fn well_formed(g: Graph) -> bool {
    &&& g.dom().finite()
    &&& forall|n: Seq<char>| #[trigger] g.contains_key(n) ==> g[n].no_duplicates()
    &&& forall|n: Seq<char>, i: int|
        g.contains_key(n) && 0 <= i < g[n].len() ==> g.contains_key(#[trigger] g[n][i])
}

/// The graph after `name` was registered: it is there, with no dependency.
pub open spec fn with_node(g: Graph, name: Seq<char>) -> Graph {
    g.insert(name, Seq::empty())
}

/// True when an edge from `dependent` to `depended_on` can be declared.
pub open spec fn can_depend(g: Graph, dependent: Seq<char>, depended_on: Seq<char>) -> bool {
    g.contains_key(dependent) && g.contains_key(depended_on)
}

/// The graph after the edge from `dependent` to `depended_on` was declared.
/// An edge that is there already is not added again, and one whose ends are
/// not both registered is not added at all.
pub open spec fn with_edge(g: Graph, dependent: Seq<char>, depended_on: Seq<char>) -> Graph {
    if !can_depend(g, dependent, depended_on) || g[dependent].contains(depended_on) {
        g
    } else {
        g.insert(dependent, g[dependent].push(depended_on))
    }
}

/// The names that `name` depends on, as a set.
pub open spec fn dependency_set(g: Graph, name: Seq<char>) -> Set<Seq<char>> {
    g[name].to_set()
}

/// Registering a name keeps a graph well formed.
pub proof fn law_with_node_well_formed(g: Graph, name: Seq<char>)
    requires
        well_formed(g),
    ensures
        well_formed(with_node(g, name)),
{
    let h = with_node(g, name);
    assert forall|n: Seq<char>, i: int| h.contains_key(n) && 0 <= i < h[n].len() implies h.contains_key(
        #[trigger] h[n][i],
    ) by {
        assert(n != name);
        assert(g.contains_key(g[n][i]));
    }
}

/// Declaring an edge keeps a graph well formed.
pub proof fn law_with_edge_well_formed(g: Graph, dependent: Seq<char>, depended_on: Seq<char>)
    requires
        well_formed(g),
    ensures
        well_formed(with_edge(g, dependent, depended_on)),
{
    let h = with_edge(g, dependent, depended_on);
    if h != g {
        let old_deps = g[dependent];
        let new_deps = old_deps.push(depended_on);
        assert(h.dom() =~= g.dom());
        assert(new_deps.no_duplicates());
        assert forall|n: Seq<char>, i: int| h.contains_key(n) && 0 <= i < h[n].len() implies h.contains_key(
            #[trigger] h[n][i],
        ) by {
            if n == dependent {
                if i < old_deps.len() {
                    assert(g.contains_key(g[n][i]));
                }
            } else {
                assert(g.contains_key(g[n][i]));
            }
        }
    }
}

/// An edge can be declared exactly when both of its ends are registered;
/// then it is among the dependencies of its dependent, and nothing else
/// changes.  Otherwise the graph stays as it is.
pub proof fn law_with_edge_effect(g: Graph, dependent: Seq<char>, depended_on: Seq<char>)
    ensures
        with_edge(g, dependent, depended_on).dom() == g.dom(),
        !can_depend(g, dependent, depended_on) ==> with_edge(g, dependent, depended_on) == g,
        can_depend(g, dependent, depended_on) ==> dependency_set(
            with_edge(g, dependent, depended_on),
            dependent,
        ) == dependency_set(g, dependent).insert(depended_on),
        forall|n: Seq<char>|
            n != dependent ==> with_edge(g, dependent, depended_on)[n] == g[n],
{
    let h = with_edge(g, dependent, depended_on);
    assert(h.dom() =~= g.dom());
    if can_depend(g, dependent, depended_on) {
        let old_deps = g[dependent];
        if old_deps.contains(depended_on) {
            assert(old_deps.to_set() =~= old_deps.to_set().insert(depended_on));
        } else {
            let new_deps = old_deps.push(depended_on);
            assert forall|k: Seq<char>| new_deps.to_set().contains(k) <==> old_deps.to_set().insert(
                depended_on,
            ).contains(k) by {
                if new_deps.contains(k) {
                    let i = choose|i: int| 0 <= i < new_deps.len() && new_deps[i] == k;
                    if i < old_deps.len() {
                        assert(old_deps[i] == k);
                    }
                }
                if old_deps.contains(k) {
                    let i = choose|i: int| 0 <= i < old_deps.len() && old_deps[i] == k;
                    assert(new_deps[i] == k);
                }
                if k == depended_on {
                    assert(new_deps[old_deps.len() as int] == k);
                }
            }
            assert(new_deps.to_set() =~= old_deps.to_set().insert(depended_on));
        }
    }
}

/// Declaring the same edge a second time changes nothing: the second
/// declaration succeeds exactly when the first did, and leaves the graph
/// that the first produced.
pub proof fn law_with_edge_idempotent(g: Graph, dependent: Seq<char>, depended_on: Seq<char>)
    ensures
        can_depend(with_edge(g, dependent, depended_on), dependent, depended_on) == can_depend(
            g,
            dependent,
            depended_on,
        ),
        with_edge(with_edge(g, dependent, depended_on), dependent, depended_on) == with_edge(
            g,
            dependent,
            depended_on,
        ),
{
    let h = with_edge(g, dependent, depended_on);
    if can_depend(g, dependent, depended_on) && !g[dependent].contains(depended_on) {
        let new_deps = g[dependent].push(depended_on);
        assert(new_deps[g[dependent].len() as int] == depended_on);
        assert(h[dependent].contains(depended_on));
    }
}

/// Registering a name again forgets the edges that were declared for it.
pub proof fn law_with_node_resets(g: Graph, name: Seq<char>)
    ensures
        with_node(g, name)[name].len() == 0,
        dependency_set(with_node(g, name), name) == Set::<Seq<char>>::empty(),
        forall|n: Seq<char>| n != name ==> with_node(g, name)[n] == g[n],
{
    assert(Seq::<Seq<char>>::empty().to_set() =~= Set::<Seq<char>>::empty());
}

} // verus!
