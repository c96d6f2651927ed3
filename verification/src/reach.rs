//! Reachability under a relation, and the lemmas that the graph proofs use.

use vstd::prelude::*;

verus! {

/// Each element of `path` is related to the next one.
pub open spec fn is_path<A>(rel: spec_fn(A, A) -> bool, path: Seq<A>) -> bool {
    forall|i: int| 0 <= i < path.len() - 1 ==> rel(#[trigger] path[i], path[i + 1])
}

/// `path` starts in `sources`, follows `rel` and ends at `target`.
pub open spec fn connects<A>(
    rel: spec_fn(A, A) -> bool,
    sources: Set<A>,
    path: Seq<A>,
    target: A,
) -> bool {
    &&& path.len() > 0
    &&& sources.contains(path[0])
    &&& path.last() == target
    &&& is_path(rel, path)
}

/// Some path leads from a member of `sources` to `target`.
pub open spec fn reachable<A>(rel: spec_fn(A, A) -> bool, sources: Set<A>, target: A) -> bool {
    exists|path: Seq<A>| connects(rel, sources, path, target)
}

/// A source is reachable.
pub proof fn lemma_reachable_source<A>(rel: spec_fn(A, A) -> bool, sources: Set<A>, a: A)
    requires
        sources.contains(a),
    ensures
        reachable(rel, sources, a),
{
    assert(connects(rel, sources, seq![a], a));
}

/// What a reachable element is related to is reachable.
pub proof fn lemma_reachable_step<A>(rel: spec_fn(A, A) -> bool, sources: Set<A>, a: A, b: A)
    requires
        reachable(rel, sources, a),
        rel(a, b),
    ensures
        reachable(rel, sources, b),
{
    let path = choose|path: Seq<A>| connects(rel, sources, path, a);
    let longer = path.push(b);
    assert forall|i: int| 0 <= i < longer.len() - 1 implies rel(
        #[trigger] longer[i],
        longer[i + 1],
    ) by {
        if i < path.len() - 1 {
            assert(rel(path[i], path[i + 1]));
        }
    }
    assert(connects(rel, sources, longer, b));
}

/// Reachability survives when the relation and the sources grow.
pub proof fn lemma_reachable_mono<A>(
    rel: spec_fn(A, A) -> bool,
    wider: spec_fn(A, A) -> bool,
    sources: Set<A>,
    more: Set<A>,
    target: A,
)
    requires
        reachable(rel, sources, target),
        forall|a: A, b: A| #[trigger] rel(a, b) ==> wider(a, b),
        forall|a: A| #[trigger] sources.contains(a) ==> more.contains(a),
    ensures
        reachable(wider, more, target),
{
    let path = choose|path: Seq<A>| connects(rel, sources, path, target);
    assert forall|i: int| 0 <= i < path.len() - 1 implies wider(
        #[trigger] path[i],
        path[i + 1],
    ) by {
        assert(rel(path[i], path[i + 1]));
    }
    assert(connects(wider, more, path, target));
}

proof fn lemma_path_stays_inside<A>(
    rel: spec_fn(A, A) -> bool,
    inside: Set<A>,
    path: Seq<A>,
    i: int,
)
    requires
        path.len() > 0,
        inside.contains(path[0]),
        is_path(rel, path),
        forall|a: A, b: A| inside.contains(a) && #[trigger] rel(a, b) ==> inside.contains(b),
        0 <= i < path.len(),
    ensures
        inside.contains(path[i]),
    decreases i,
{
    if i > 0 {
        lemma_path_stays_inside(rel, inside, path, i - 1);
        assert(rel(path[i - 1], path[i - 1 + 1]));
    }
}

/// A set that holds the sources and is closed under the relation holds
/// everything reachable.
pub proof fn lemma_reachable_closed<A>(
    rel: spec_fn(A, A) -> bool,
    sources: Set<A>,
    inside: Set<A>,
    target: A,
)
    requires
        reachable(rel, sources, target),
        forall|a: A| #[trigger] sources.contains(a) ==> inside.contains(a),
        forall|a: A, b: A| inside.contains(a) && #[trigger] rel(a, b) ==> inside.contains(b),
    ensures
        inside.contains(target),
{
    let path = choose|path: Seq<A>| connects(rel, sources, path, target);
    lemma_path_stays_inside(rel, inside, path, path.len() - 1);
}

} // verus!
