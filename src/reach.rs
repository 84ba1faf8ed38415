//! Reachability over the reference graph of a rule set.
//!
//! The graph maps each registered id to the ids that its rule refers to. An id
//! that is referred to but not registered has no outgoing references.
use vstd::prelude::*;

verus! {

/// The reference graph: each registered id and the ids its rule refers to.
pub type RefGraph = Map<Seq<char>, Seq<Seq<char>>>;

/// `x` is registered in `g` and its rule refers to `y`.
pub open spec fn refers_to(g: RefGraph, x: Seq<char>, y: Seq<char>) -> bool {
    g.contains_key(x) && g[x].contains(y)
}

/// The ids reached from `starts` by following at most `n` references.
pub open spec fn reached_within(g: RefGraph, starts: Set<Seq<char>>, n: nat) -> Set<Seq<char>>
    decreases n,
{
    if n == 0 {
        starts
    } else {
        let prev = reached_within(g, starts, (n - 1) as nat);
        prev.union(Set::new(|y: Seq<char>| exists|x: Seq<char>| prev.contains(x) && refers_to(g, x, y)))
    }
}

/// `target` is one of `starts`, or is reached from one of them by following
/// references through the registered rules.
pub open spec fn reaches(g: RefGraph, starts: Set<Seq<char>>, target: Seq<char>) -> bool {
    exists|n: nat| #[trigger] reached_within(g, starts, n).contains(target)
}

/// Registering a rule under `id` that refers to `refs` closes a cycle: one of
/// the references leads back to `id` in the graph that holds the new rule.
pub open spec fn closes_cycle(g: RefGraph, id: Seq<char>, refs: Seq<Seq<char>>) -> bool {
    reaches(g.insert(id, refs), refs.to_set(), id)
}

/// One more reference from a reached id gives a reached id.
pub proof fn lemma_reached_step(g: RefGraph, starts: Set<Seq<char>>, n: nat, x: Seq<char>, y: Seq<char>)
    requires
        reached_within(g, starts, n).contains(x),
        refers_to(g, x, y),
    ensures
        reached_within(g, starts, n + 1).contains(y),
{
    let prev = reached_within(g, starts, n);
    assert(reached_within(g, starts, n + 1) == prev.union(
        Set::new(|z: Seq<char>| exists|w: Seq<char>| prev.contains(w) && refers_to(g, w, z)),
    ));
}

/// Within a set that holds the starts and is closed under references, every
/// reached id stays in that set.
pub proof fn lemma_closed_set_holds_reached(g: RefGraph, starts: Set<Seq<char>>, closed: Set<Seq<char>>, n: nat)
    requires
        starts.subset_of(closed),
        forall|x: Seq<char>, y: Seq<char>| closed.contains(x) && refers_to(g, x, y) ==> closed.contains(y),
    ensures
        reached_within(g, starts, n).subset_of(closed),
    decreases n,
{
    if n > 0 {
        lemma_closed_set_holds_reached(g, starts, closed, (n - 1) as nat);
    }
}

/// No registered id leads back to itself through the references of its rule.
pub open spec fn acyclic(g: RefGraph) -> bool {
    forall|k: Seq<char>| #[trigger] g.contains_key(k) ==> !reaches(g, g[k].to_set(), k)
}

/// Following one more step keeps every id reached so far.
pub proof fn lemma_reached_grows(g: RefGraph, starts: Set<Seq<char>>, n: nat, m: nat)
    requires
        n <= m,
    ensures
        reached_within(g, starts, n).subset_of(reached_within(g, starts, m)),
    decreases m - n,
{
    if n < m {
        lemma_reached_grows(g, starts, n, (m - 1) as nat);
    }
}

/// What is reached from the references of a reached id is reached too.
pub proof fn lemma_reaches_through(g: RefGraph, starts: Set<Seq<char>>, k: Seq<char>, z: Seq<char>)
    requires
        reaches(g, starts, k),
        g.contains_key(k),
        reaches(g, g[k].to_set(), z),
    ensures
        reaches(g, starts, z),
{
    let n = choose|n: nat| #[trigger] reached_within(g, starts, n).contains(k);
    let m = choose|m: nat| #[trigger] reached_within(g, g[k].to_set(), m).contains(z);
    lemma_reached_through_within(g, starts, k, n, m);
    assert(reached_within(g, starts, n + 1 + m).contains(z));
}

proof fn lemma_reached_through_within(g: RefGraph, starts: Set<Seq<char>>, k: Seq<char>, n: nat, m: nat)
    requires
        reached_within(g, starts, n).contains(k),
        g.contains_key(k),
    ensures
        reached_within(g, g[k].to_set(), m).subset_of(reached_within(g, starts, n + 1 + m)),
    decreases m,
{
    let inner = g[k].to_set();
    if m == 0 {
        assert forall|y: Seq<char>| reached_within(g, inner, 0).contains(y) implies reached_within(
            g,
            starts,
            n + 1,
        ).contains(y) by {
            assert(refers_to(g, k, y));
            lemma_reached_step(g, starts, n, k, y);
        }
    } else {
        let pm = (m - 1) as nat;
        lemma_reached_through_within(g, starts, k, n, pm);
        let prev = reached_within(g, inner, pm);
        assert forall|y: Seq<char>| reached_within(g, inner, m).contains(y) implies reached_within(
            g,
            starts,
            n + 1 + m,
        ).contains(y) by {
            if prev.contains(y) {
                lemma_reached_grows(g, starts, n + 1 + pm, n + 1 + m);
            } else {
                let w = choose|w: Seq<char>| prev.contains(w) && refers_to(g, w, y);
                lemma_reached_step(g, starts, n + 1 + pm, w, y);
            }
        }
    }
}

/// In the graph with `id` added, an id reached from `starts` is reached
/// without the new references, or else the new id is reached from `starts`
/// and the id is reached from the new references.
proof fn lemma_reached_after_insert(
    g: RefGraph,
    id: Seq<char>,
    refs: Seq<Seq<char>>,
    starts: Set<Seq<char>>,
    n: nat,
    x: Seq<char>,
)
    requires
        !g.contains_key(id),
        reached_within(g.insert(id, refs), starts, n).contains(x),
    ensures
        reached_within(g, starts, n).contains(x) || (reaches(g.insert(id, refs), starts, id) && reaches(
            g.insert(id, refs),
            refs.to_set(),
            x,
        )),
    decreases n,
{
    let g2 = g.insert(id, refs);
    if n > 0 {
        let pn = (n - 1) as nat;
        let prev2 = reached_within(g2, starts, pn);
        if prev2.contains(x) {
            lemma_reached_after_insert(g, id, refs, starts, pn, x);
            lemma_reached_grows(g, starts, pn, n);
        } else {
            let w = choose|w: Seq<char>| prev2.contains(w) && refers_to(g2, w, x);
            lemma_reached_after_insert(g, id, refs, starts, pn, w);
            if w == id {
                assert(reached_within(g2, starts, pn).contains(id));
                assert(reached_within(g2, refs.to_set(), 0).contains(x));
            } else if reached_within(g, starts, pn).contains(w) {
                assert(refers_to(g, w, x));
                lemma_reached_step(g, starts, pn, w, x);
            } else {
                let m = choose|m: nat| #[trigger] reached_within(g2, refs.to_set(), m).contains(w);
                lemma_reached_step(g2, refs.to_set(), m, w, x);
            }
        }
    }
}

/// Adding a rule that closes no cycle to an acyclic graph keeps it acyclic.
pub proof fn lemma_insert_keeps_acyclic(g: RefGraph, id: Seq<char>, refs: Seq<Seq<char>>)
    requires
        acyclic(g),
        !g.contains_key(id),
        !closes_cycle(g, id, refs),
    ensures
        acyclic(g.insert(id, refs)),
{
    let g2 = g.insert(id, refs);
    assert forall|k: Seq<char>| #[trigger] g2.contains_key(k) implies !reaches(g2, g2[k].to_set(), k) by {
        if k != id && reaches(g2, g2[k].to_set(), k) {
            let n = choose|n: nat| #[trigger] reached_within(g2, g2[k].to_set(), n).contains(k);
            lemma_reached_after_insert(g, id, refs, g[k].to_set(), n, k);
            if reached_within(g, g[k].to_set(), n).contains(k) {
                assert(g.contains_key(k));
            } else {
                lemma_reaches_through(g2, refs.to_set(), k, id);
            }
        }
    }
}

} // verus!
