//! The mapping from rule ids to compiled rules, with the references of each.
use vstd::prelude::*;
use vstd::hash_map::StringHashMap;
use vstd::string::StringExecFns;

use crate::error::ReferentRuleError;
use crate::reach::{RefGraph, acyclic, refers_to, reached_within, reaches, closes_cycle,
    lemma_reached_step, lemma_closed_set_holds_reached, lemma_insert_keeps_acyclic};

verus! {

/// The views of a list of ids.
pub open spec fn ids_of(v: Seq<String>) -> Seq<Seq<char>> {
    v.map_values(|s: String| s@)
}

/// A rule table: each id with its rule and the ids that the rule refers to.
pub type RuleTable<R> = Map<Seq<char>, (R, Seq<Seq<char>>)>;

/// The reference graph of a rule table.
pub open spec fn graph_of<R>(t: RuleTable<R>) -> RefGraph {
    t.map_values(|e: (R, Seq<Seq<char>>)| e.1)
}

/// The outcome of registering `rule`, which refers to `refs`, under `id` in
/// the table `pre`: the table `post` afterwards and the result `r`.
pub open spec fn insert_spec<R>(
    pre: RuleTable<R>,
    id: Seq<char>,
    rule: R,
    refs: Seq<Seq<char>>,
    post: RuleTable<R>,
    r: Result<(), ReferentRuleError>,
) -> bool {
    if pre.contains_key(id) {
        &&& post == pre
        &&& r matches Err(ReferentRuleError::DuplicateRule(s)) && s@ == id
    } else if closes_cycle(graph_of(pre), id, refs) {
        &&& post == pre
        &&& r matches Err(ReferentRuleError::CyclicRule(s)) && s@ == id
    } else {
        &&& post == pre.insert(id, (rule, refs))
        &&& r is Ok
    }
}

/// A compiled rule that may refer to other rules by id.
pub trait RuleRefs {
    /// The ids that this rule refers to, at any depth of nesting within it.
    spec fn referents(&self) -> Seq<Seq<char>>;

    /// The ids that this rule refers to, as `referents` gives them.
    fn referent_ids(&self) -> (r: Vec<String>)
        ensures
            ids_of(r@) == self.referents(),
    ;
}

/// A registered rule and the ids that it refers to.
pub struct RuleEntry<R> {
    rule: R,
    referents: Vec<String>,
}

/// The rules of one rule set, keyed by id.
#[verifier::reject_recursive_types(R)]
pub struct RuleMap<R> {
    rules: StringHashMap<RuleEntry<R>>,
}

impl<R> View for RuleMap<R> {
    type V = RuleTable<R>;

    closed spec fn view(&self) -> RuleTable<R> {
        self.rules@.map_values(|e: RuleEntry<R>| (e.rule, ids_of(e.referents@)))
    }
}

/// `k` is registered and no reference of its rule is `id` or an unvisited
/// registered id.
pub open spec fn closed_under(g: RefGraph, visited: Set<Seq<char>>, id: Seq<char>, k: Seq<char>) -> bool {
    forall|y: Seq<char>| #[trigger] refers_to(g, k, y) ==> y != id && (g.contains_key(y) ==> visited.contains(y))
}

impl<R> RuleMap<R> {
    /// The table holds finitely many rules.
    closed spec fn finite_table(&self) -> bool {
        self.rules@.dom().finite()
    }

    /// The table holds finitely many rules, and no rule leads back to its own
    /// id through the rules it refers to.
    pub closed spec fn wf(&self) -> bool {
        self.finite_table() && acyclic(graph_of(self@))
    }

    /// In a well-formed map no rule leads back to its own id.
    pub proof fn lemma_acyclic(&self)
        requires
            self.wf(),
        ensures
            acyclic(graph_of(self@)),
    {
    }

    proof fn lemma_dom_finite(&self)
        requires
            self.finite_table(),
        ensures
            self@.dom() == self.rules@.dom(),
            self@.dom().finite(),
    {
        assert(self@.dom() =~= self.rules@.dom());
    }

    /// An empty rule map.
    pub fn new() -> (m: Self)
        ensures
            m.wf(),
            m@ == RuleTable::<R>::empty(),
    {
        let m = RuleMap { rules: StringHashMap::new() };
        assert(m@ =~= RuleTable::<R>::empty());
        assert(graph_of(m@) =~= RefGraph::empty());
        m
    }

    /// Whether a rule is registered under `id`.
    pub fn contains_rule(&self, id: &str) -> (r: bool)
        ensures
            r == self@.contains_key(id@),
    {
        self.rules.contains_key(id)
    }

    /// The rule registered under `id`, if any.
    pub fn get(&self, id: &str) -> (r: Option<&R>)
        ensures
            match r {
                Some(rule) => self@.contains_key(id@) && *rule == self@[id@].0,
                None => !self@.contains_key(id@),
            },
    {
        match self.rules.get(id) {
            Some(entry) => Some(&entry.rule),
            None => None,
        }
    }

    /// Hands the rule registered under `id` to `f` and returns what `f`
    /// returns; `None` when no rule is registered under `id`.
    pub fn apply<T, F: FnOnce(&R) -> Option<T>>(&self, id: &str, f: F) -> (r: Option<T>)
        requires
            forall|rule: &R| f.requires((rule,)),
        ensures
            !self@.contains_key(id@) ==> r is None,
            self@.contains_key(id@) ==> f.ensures((&self@[id@].0,), r),
    {
        match self.rules.get(id) {
            Some(entry) => f(&entry.rule),
            None => None,
        }
    }

    /// The rule registered under `id`, or `RuleNotFound`.
    pub fn find(&self, id: &str) -> (r: Result<&R, ReferentRuleError>)
        ensures
            match r {
                Ok(rule) => self@.contains_key(id@) && *rule == self@[id@].0,
                Err(e) => !self@.contains_key(id@) && (e matches ReferentRuleError::RuleNotFound(s) && s@ == id@),
            },
    {
        match self.get(id) {
            Some(rule) => Ok(rule),
            None => Err(ReferentRuleError::RuleNotFound(String::from_str(id))),
        }
    }

    /// Follows the references `refs` one step: reports whether one of them is
    /// `id`, and otherwise marks each registered one that was not yet visited
    /// and queues it on `work`.
    fn visit_refs(
        &self,
        id: &String,
        refs: &Vec<String>,
        visited: &mut StringHashMap<()>,
        work: &mut Vec<String>,
    ) -> (found: bool)
        requires
            self.finite_table(),
            old(visited)@.dom().subset_of(self@.dom()),
            !old(visited)@.contains_key(id@),
        ensures
            found ==> ids_of(refs@).contains(id@),
            !found ==> forall|j: int|
                0 <= j < refs@.len() ==> refs@[j]@ != id@ && (self@.contains_key(refs@[j]@)
                    ==> final(visited)@.contains_key(#[trigger] refs@[j]@)),
            final(visited)@.dom().subset_of(self@.dom()),
            !final(visited)@.contains_key(id@),
            old(visited)@.dom().subset_of(final(visited)@.dom()),
            forall|k: Seq<char>|
                #[trigger] final(visited)@.contains_key(k) ==> old(visited)@.contains_key(k)
                    || ids_of(refs@).contains(k),
            forall|k: Seq<char>|
                final(visited)@.contains_key(k) && !old(visited)@.contains_key(k) ==> #[trigger] ids_of(
                    final(work)@,
                ).contains(k),
            final(work)@.len() >= old(work)@.len(),
            forall|i: int| 0 <= i < old(work)@.len() ==> #[trigger] final(work)@[i] == old(work)@[i],
            forall|i: int|
                old(work)@.len() <= i < final(work)@.len() ==> final(visited)@.contains_key(
                    #[trigger] final(work)@[i]@,
                ),
            final(work)@.len() - old(work)@.len() == final(visited)@.dom().len() - old(
                visited,
            )@.dom().len(),
    {
        let ghost v0 = visited@;
        let ghost w0 = work@;
        proof {
            self.lemma_dom_finite();
            vstd::set_lib::lemma_len_subset(visited@.dom(), self@.dom());
        }
        let mut j: usize = 0;
        while j < refs.len()
            invariant
                self.finite_table(),
                j <= refs@.len(),
                v0 == old(visited)@,
                w0 == old(work)@,
                v0.dom().subset_of(visited@.dom()),
                visited@.dom().subset_of(self@.dom()),
                visited@.dom().finite(),
                !visited@.contains_key(id@),
                forall|jj: int|
                    0 <= jj < j ==> refs@[jj]@ != id@ && (self@.contains_key(refs@[jj]@)
                        ==> visited@.contains_key(#[trigger] refs@[jj]@)),
                forall|k: Seq<char>|
                    #[trigger] visited@.contains_key(k) ==> v0.contains_key(k) || ids_of(refs@).contains(k),
                forall|k: Seq<char>|
                    visited@.contains_key(k) && !v0.contains_key(k) ==> #[trigger] ids_of(work@).contains(k),
                work@.len() >= w0.len(),
                forall|i: int| 0 <= i < w0.len() ==> #[trigger] work@[i] == w0[i],
                forall|i: int|
                    w0.len() <= i < work@.len() ==> visited@.contains_key(#[trigger] work@[i]@),
                work@.len() - w0.len() == visited@.dom().len() - v0.dom().len(),
            decreases refs@.len() - j,
        {
            let r = &refs[j];
            proof {
                assert(ids_of(refs@)[j as int] == r@);
            }
            if r.eq(id) {
                return true;
            }
            if self.rules.contains_key(r.as_str()) && !visited.contains_key(r.as_str()) {
                let ghost vb = visited@;
                let ghost wb = work@;
                visited.insert(r.clone(), ());
                work.push(r.clone());
                proof {
                    self.lemma_dom_finite();
                    vstd::set_lib::lemma_len_subset(vb.dom(), self@.dom());
                    assert(visited@.dom() =~= vb.dom().insert(r@));
                    assert(ids_of(work@) =~= ids_of(wb).push(r@));
                    assert(ids_of(work@)[wb.len() as int] == r@);
                    assert forall|k: Seq<char>|
                        visited@.contains_key(k) && !v0.contains_key(k) implies #[trigger] ids_of(
                        work@,
                    ).contains(k) by {
                        if k != r@ {
                            assert(vb.contains_key(k));
                            assert(ids_of(wb).contains(k));
                            let i = ids_of(wb).index_of(k);
                            assert(ids_of(work@)[i] == k);
                        }
                    }
                }
            }
            j = j + 1;
        }
        false
    }

    /// Whether `id` is one of `start` or is reached from them by following
    /// references through the registered rules.
    fn leads_back(&self, id: &String, start: &Vec<String>) -> (r: bool)
        requires
            self.finite_table(),
        ensures
            r == reaches(graph_of(self@), ids_of(start@).to_set(), id@),
    {
        let ghost g = graph_of(self@);
        let ghost starts = ids_of(start@).to_set();
        let mut visited: StringHashMap<()> = StringHashMap::new();
        let mut work: Vec<String> = Vec::new();
        proof {
            self.lemma_dom_finite();
            assert(visited@.dom() =~= Set::<Seq<char>>::empty());
        }
        if self.visit_refs(id, start, &mut visited, &mut work) {
            proof {
                assert(reached_within(g, starts, 0).contains(id@));
            }
            return true;
        }
        proof {
            assert forall|s: Seq<char>| starts.contains(s) implies s != id@ && (g.contains_key(s)
                ==> visited@.contains_key(s)) by {
                let j = ids_of(start@).index_of(s);
                assert(start@[j]@ == s);
            }
            assert forall|k: Seq<char>| visited@.contains_key(k) implies reaches(g, starts, k) by {
                assert(reached_within(g, starts, 0).contains(k));
            }
            vstd::set_lib::lemma_len_subset(visited@.dom(), self@.dom());
        }
        while work.len() > 0
            invariant
                self.finite_table(),
                g == graph_of(self@),
                starts == ids_of(start@).to_set(),
                visited@.dom().subset_of(self@.dom()),
                visited@.dom().finite(),
                !visited@.contains_key(id@),
                forall|i: int| 0 <= i < work@.len() ==> visited@.contains_key(#[trigger] work@[i]@),
                forall|k: Seq<char>| #[trigger] visited@.contains_key(k) ==> reaches(g, starts, k),
                forall|k: Seq<char>|
                    visited@.contains_key(k) && !ids_of(work@).contains(k) ==> #[trigger] closed_under(
                        g,
                        visited@.dom(),
                        id@,
                        k,
                    ),
                forall|s: Seq<char>|
                    #[trigger] starts.contains(s) ==> s != id@ && (g.contains_key(s) ==> visited@.contains_key(s)),
            decreases self@.dom().len() - visited@.dom().len(), work@.len(),
        {
            let ghost w_before = work@;
            let ghost v_before = visited@;
            let x = match work.pop() {
                Some(x) => x,
                None => return false,
            };
            proof {
                self.lemma_dom_finite();
                vstd::set_lib::lemma_len_subset(visited@.dom(), self@.dom());
                assert(ids_of(w_before) =~= ids_of(work@).push(x@));
            }
            match self.rules.get(x.as_str()) {
                Some(entry) => {
                    assert(g[x@] == ids_of(entry.referents@));
                    if self.visit_refs(id, &entry.referents, &mut visited, &mut work) {
                        proof {
                            let j = ids_of(entry.referents@).index_of(id@);
                            assert(refers_to(g, x@, id@));
                            let n = choose|n: nat| #[trigger] reached_within(g, starts, n).contains(x@);
                            lemma_reached_step(g, starts, n, x@, id@);
                        }
                        return true;
                    }
                    proof {
                        vstd::set_lib::lemma_len_subset(visited@.dom(), self@.dom());
                        let refs = ids_of(entry.referents@);
                        assert forall|k: Seq<char>| #[trigger] visited@.contains_key(k) implies reaches(g, starts, k) by {
                            if !v_before.contains_key(k) {
                                assert(refers_to(g, x@, k));
                                let n = choose|n: nat| #[trigger] reached_within(g, starts, n).contains(x@);
                                lemma_reached_step(g, starts, n, x@, k);
                            }
                        }
                        assert forall|k: Seq<char>|
                            visited@.contains_key(k) && !ids_of(work@).contains(k) implies #[trigger] closed_under(
                            g,
                            visited@.dom(),
                            id@,
                            k,
                        ) by {
                            if k == x@ {
                                assert forall|y: Seq<char>| #[trigger] refers_to(g, k, y) implies y != id@ && (
                                g.contains_key(y) ==> visited@.contains_key(y)) by {
                                    let j = refs.index_of(y);
                                    assert(entry.referents@[j]@ == y);
                                }
                            } else {
                                if v_before.contains_key(k) {
                                    if ids_of(w_before).contains(k) {
                                        // k sat below x on the queue, and that part is kept.
                                        let i = ids_of(w_before).index_of(k);
                                        assert(ids_of(work@)[i] == k);
                                    }
                                    assert(closed_under(g, v_before.dom(), id@, k));
                                }
                            }
                        }
                    }
                },
                None => {},
            }
        }
        proof {
            let closed = visited@.dom().union(Set::new(|y: Seq<char>| !g.contains_key(y) && y != id@));
            assert forall|x: Seq<char>, y: Seq<char>| closed.contains(x) && refers_to(g, x, y) implies closed.contains(y) by {
                assert(visited@.contains_key(x));
                assert(ids_of(work@) =~= Seq::<Seq<char>>::empty());
                assert(closed_under(g, visited@.dom(), id@, x));
            }
            assert forall|n: nat| !(#[trigger] reached_within(g, starts, n).contains(id@)) by {
                lemma_closed_set_holds_reached(g, starts, closed, n);
            }
        }
        false
    }

    /// Registers `rule`, which refers to `referents`, under `id`.
    ///
    /// An id that is already registered is refused and the map is left as it
    /// was. Otherwise the rule is installed, its references are followed
    /// through the registered rules, and if they lead back to `id` the entry
    /// is removed again and the insertion is refused as cyclic.
    pub fn insert_with_referents(&mut self, id: &str, rule: R, referents: Vec<String>) -> (r: Result<
        (),
        ReferentRuleError,
    >)
        requires
            old(self).wf(),
        ensures
            final(self).wf(),
            insert_spec(old(self)@, id@, rule, ids_of(referents@), final(self)@, r),
    {
        if self.rules.contains_key(id) {
            return Err(ReferentRuleError::DuplicateRule(String::from_str(id)));
        }
        let ghost pre = self.rules@;
        let ghost refs = ids_of(referents@);
        let key = String::from_str(id);
        let target = key.clone();
        self.rules.insert(key, RuleEntry { rule, referents });
        proof {
            assert(self@ =~= old(self)@.insert(id@, (rule, refs)));
            assert(graph_of(self@) =~= graph_of(old(self)@).insert(id@, refs));
        }
        let cyclic = match self.rules.get(id) {
            Some(entry) => self.leads_back(&target, &entry.referents),
            None => false,
        };
        if cyclic {
            self.rules.remove(id);
            proof {
                assert(self.rules@ =~= pre);
            }
            return Err(ReferentRuleError::CyclicRule(target));
        }
        proof {
            lemma_insert_keeps_acyclic(graph_of(old(self)@), id@, refs);
        }
        Ok(())
    }

    /// Registers `rule` under `id`, with the references that the rule reports:
    /// the outcome of `insert_with_referents` for `rule.referents()`.
    pub fn insert_rule(&mut self, id: &str, rule: R) -> (r: Result<(), ReferentRuleError>)
        where
            R: RuleRefs,
        requires
            old(self).wf(),
        ensures
            final(self).wf(),
            insert_spec(old(self)@, id@, rule, rule.referents(), final(self)@, r),
    {
        let referents = rule.referent_ids();
        self.insert_with_referents(id, rule, referents)
    }
}

/// Once a rule is registered under an id, a second insertion under the same
/// id is refused as a duplicate and the first definition stays in place.
pub proof fn lemma_second_insert_is_duplicate<R>(
    pre: RuleTable<R>,
    id: Seq<char>,
    first: R,
    first_refs: Seq<Seq<char>>,
    mid: RuleTable<R>,
    r1: Result<(), ReferentRuleError>,
    second: R,
    second_refs: Seq<Seq<char>>,
    post: RuleTable<R>,
    r2: Result<(), ReferentRuleError>,
)
    requires
        insert_spec(pre, id, first, first_refs, mid, r1),
        r1 is Ok,
        insert_spec(mid, id, second, second_refs, post, r2),
    ensures
        r2 matches Err(ReferentRuleError::DuplicateRule(s)) && s@ == id,
        post == mid,
        post.contains_key(id),
        post[id] == (first, first_refs),
{
}

/// A rule that refers to its own id is refused as cyclic, and the table is
/// left as it was.
pub proof fn lemma_self_reference_is_cyclic<R>(
    pre: RuleTable<R>,
    id: Seq<char>,
    rule: R,
    refs: Seq<Seq<char>>,
    post: RuleTable<R>,
    r: Result<(), ReferentRuleError>,
)
    requires
        !pre.contains_key(id),
        refs.contains(id),
        insert_spec(pre, id, rule, refs, post, r),
    ensures
        r matches Err(ReferentRuleError::CyclicRule(s)) && s@ == id,
        post == pre,
{
    assert(reached_within(graph_of(pre).insert(id, refs), refs.to_set(), 0).contains(id));
}

/// A rule whose references are all to ids not yet registered, and not to its
/// own id, is accepted: a reference may name a rule that comes later.
pub proof fn lemma_forward_reference_is_accepted<R>(
    pre: RuleTable<R>,
    id: Seq<char>,
    rule: R,
    refs: Seq<Seq<char>>,
    post: RuleTable<R>,
    r: Result<(), ReferentRuleError>,
)
    requires
        !pre.contains_key(id),
        forall|x: Seq<char>| #[trigger] refs.contains(x) ==> x != id && !pre.contains_key(x),
        insert_spec(pre, id, rule, refs, post, r),
    ensures
        r is Ok,
        post == pre.insert(id, (rule, refs)),
{
    let g = graph_of(pre).insert(id, refs);
    let closed = Set::new(|y: Seq<char>| y != id && !pre.contains_key(y));
    assert forall|n: nat| !(#[trigger] reached_within(g, refs.to_set(), n).contains(id)) by {
        lemma_closed_set_holds_reached(g, refs.to_set(), closed, n);
    }
}

/// With a rule under `a` that refers to `b`, a rule under `b` that refers to
/// `a` is refused as cyclic, and `b` stays unregistered.
pub proof fn lemma_mutual_reference_is_cyclic<R>(
    pre: RuleTable<R>,
    a: Seq<char>,
    b: Seq<char>,
    rule: R,
    refs: Seq<Seq<char>>,
    post: RuleTable<R>,
    r: Result<(), ReferentRuleError>,
)
    requires
        pre.contains_key(a),
        pre[a].1.contains(b),
        !pre.contains_key(b),
        refs.contains(a),
        insert_spec(pre, b, rule, refs, post, r),
    ensures
        r matches Err(ReferentRuleError::CyclicRule(s)) && s@ == b,
        post == pre,
        !post.contains_key(b),
{
    let g = graph_of(pre).insert(b, refs);
    assert(a != b);
    assert(reached_within(g, refs.to_set(), 0).contains(a));
    assert(refers_to(g, a, b));
    lemma_reached_step(g, refs.to_set(), 0, a, b);
}

} // verus!
