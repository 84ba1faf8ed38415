//! Shared ownership of a rule map, non-owning handles, and rules by reference.
use std::sync::{Arc, Weak};
use vstd::prelude::*;
use vstd::rwlock::{ReadHandle, RwLock, RwLockPredicate};

use crate::error::ReferentRuleError;
use crate::rule_map::{RuleMap, RuleRefs, ids_of, lemma_self_reference_is_cyclic};

verus! {

/// What the lock of a registration holds of its map at every moment.
pub struct WellFormed;

impl<R> RwLockPredicate<RuleMap<R>> for WellFormed {
    open spec fn inv(self, v: RuleMap<R>) -> bool {
        v.wf()
    }
}

/// The lock that guards a rule map.
pub type RuleLock<R> = RwLock<RuleMap<R>, WellFormed>;

/// A `std::sync::Weak` to the lock of a registration, held in a private field
/// that only `downgrade` and `upgrade` touch.
#[verifier::external_body]
#[verifier::reject_recursive_types(R)]
pub struct WeakHandle<R> {
    inner: Weak<RuleLock<R>>,
}

/// A non-owning handle to a lock, with the lock it was made from.
#[verifier::reject_recursive_types(R)]
pub struct WeakLock<R> {
    handle: WeakHandle<R>,
    target: Ghost<RuleLock<R>>,
}

/// Relies on `Arc::downgrade`: a handle to the same allocation that does not
/// keep it alive.
#[verifier::external_body]
fn downgrade<R>(a: &Arc<RuleLock<R>>) -> (w: WeakLock<R>)
    ensures
        w.target@ == **a,
{
    WeakLock { handle: WeakHandle { inner: Arc::downgrade(a) }, target: Ghost(**a) }
}

/// Relies on `Weak::upgrade`: an owning handle to the allocation the `Weak`
/// was made from while one still exists elsewhere, `None` once every owning
/// handle has been dropped.
#[verifier::external_body]
fn upgrade<R>(w: &WeakLock<R>) -> (r: Option<Arc<RuleLock<R>>>)
    ensures
        r matches Some(a) ==> *a == w.target@,
{
    w.handle.inner.upgrade()
}

/// The owner of one rule set: a shared, lockable map from rule ids to rules.
///
/// Clones share the same map; it lives while any of them does.
#[verifier::reject_recursive_types(R)]
pub struct RuleRegistration<R> {
    inner: Arc<RuleLock<R>>,
}

/// A non-owning handle to the map of a [`RuleRegistration`].
#[verifier::reject_recursive_types(R)]
pub struct RegistrationRef<R> {
    inner: WeakLock<R>,
}

impl<R> RuleRegistration<R> {
    /// The lock that this handle owns a share of.
    pub closed spec fn lock(&self) -> RuleLock<R> {
        *self.inner
    }

    /// A registration with no rules.
    pub fn new() -> (reg: Self)
        ensures
            reg.lock().pred() == WellFormed,
    {
        RuleRegistration { inner: Arc::new(RwLock::new(RuleMap::new(), Ghost(WellFormed))) }
    }

    /// Whether a rule is registered under `id` at the moment of the call.
    pub fn contains_rule(&self, id: &str) -> bool {
        let h = self.inner.acquire_read();
        let r = h.borrow().contains_rule(id);
        h.release_read();
        r
    }

    /// Another owning handle to the same map.
    pub fn share(&self) -> (reg: Self)
        ensures
            reg.lock() == self.lock(),
    {
        RuleRegistration { inner: self.inner.clone() }
    }

    /// Shared read access to the map. The map cannot change until the handle
    /// is given back with `release_read`; a handle dropped without it keeps
    /// writers out for good.
    pub fn get_rules(&self) -> (h: ReadHandle<'_, RuleMap<R>, WellFormed>)
        ensures
            h.rwlock() == self.lock(),
            h.view().wf(),
    {
        self.inner.acquire_read()
    }

    /// A non-owning handle to the same map.
    pub fn get_ref(&self) -> (r: RegistrationRef<R>)
        ensures
            r.lock() == self.lock(),
    {
        RegistrationRef { inner: downgrade(&self.inner) }
    }

    /// Registers `rule` under `id` while holding exclusive access to the map:
    /// the duplicate check, the insertion, the walk of references and the
    /// removal of a cyclic rule happen with no other access in between.
    pub fn insert_rule(&self, id: &str, rule: R) -> (r: Result<(), ReferentRuleError>)
        where
            R: RuleRefs,
        ensures
            r is Ok || (r matches Err(ReferentRuleError::DuplicateRule(s)) && s@ == id@) || (
            r matches Err(ReferentRuleError::CyclicRule(s)) && s@ == id@),
            rule.referents().contains(id@) ==> r is Err,
    {
        let (mut map, handle) = self.inner.acquire_write();
        let ghost pre = map@;
        let ghost refs = rule.referents();
        let r = map.insert_rule(id, rule);
        proof {
            if refs.contains(id@) && !pre.contains_key(id@) {
                lemma_self_reference_is_cyclic(pre, id@, rule, refs, map@, r);
            }
        }
        handle.release_write(map);
        r
    }
}

impl<R> RegistrationRef<R> {
    /// The lock of the registration that this handle was made from.
    pub closed spec fn lock(&self) -> RuleLock<R> {
        self.inner.target@
    }

    /// An owning handle to the map, or `UnavailableRegistry` once every
    /// owning handle has been dropped.
    pub fn unref(&self) -> (r: Result<RuleRegistration<R>, ReferentRuleError>)
        ensures
            r is Ok || r == Err::<RuleRegistration<R>, _>(ReferentRuleError::UnavailableRegistry),
            r matches Ok(reg) ==> reg.lock() == self.lock(),
    {
        match upgrade(&self.inner) {
            Some(inner) => Ok(RuleRegistration { inner }),
            None => Err(ReferentRuleError::UnavailableRegistry),
        }
    }
}

impl<R> Clone for RuleRegistration<R> {
    fn clone(&self) -> (reg: Self)
        ensures
            reg.lock() == self.lock(),
    {
        self.share()
    }
}

impl<R> Default for RuleRegistration<R> {
    fn default() -> (reg: Self)
        ensures
            reg.lock().pred() == WellFormed,
    {
        Self::new()
    }
}

/// A rule that stands for the rule registered under an id, resolved through
/// a non-owning handle each time it is used.
#[verifier::reject_recursive_types(R)]
pub struct ReferentRule<R> {
    rule_id: String,
    reg_ref: RegistrationRef<R>,
}

impl<R> RuleRefs for ReferentRule<R> {
    open spec fn referents(&self) -> Seq<Seq<char>> {
        seq![self.target()]
    }

    fn referent_ids(&self) -> (r: Vec<String>) {
        let mut v: Vec<String> = Vec::new();
        v.push(self.rule_id.clone());
        proof {
            assert(ids_of(v@) =~= seq![self.target()]);
        }
        v
    }
}

impl<R> ReferentRule<R> {
    /// The id of the rule that this rule stands for.
    pub closed spec fn target(&self) -> Seq<char> {
        self.rule_id@
    }

    /// The lock of the registration that this rule resolves its id in.
    pub closed spec fn registry(&self) -> RuleLock<R> {
        self.reg_ref.lock()
    }

    /// A rule that stands for the rule under `rule_id` in `registration`,
    /// whether or not that id is registered yet.
    pub fn try_new(rule_id: String, registration: &RuleRegistration<R>) -> (r: Result<
        Self,
        ReferentRuleError,
    >)
        ensures
            r matches Ok(rule) && rule.target() == rule_id@ && rule.registry() == registration.lock(),
    {
        Ok(ReferentRule { reg_ref: registration.get_ref(), rule_id })
    }

    /// The id of the rule that this rule stands for.
    pub fn rule_id(&self) -> (r: &str)
        ensures
            r@ == self.target(),
    {
        self.rule_id.as_str()
    }

    /// Resolves the registry and hands the rule now registered under the
    /// target id to `f`, under shared access to the map.
    ///
    /// `UnavailableRegistry` when the registry has been dropped; `Ok(None)`
    /// when the id is not registered; otherwise what `f` returned.
    pub fn try_delegate<T, F: FnOnce(&R) -> Option<T>>(&self, f: F) -> (r: Result<
        Option<T>,
        ReferentRuleError,
    >)
        requires
            forall|rule: &R| f.requires((rule,)),
        ensures
            r is Err ==> r == Err::<Option<T>, _>(ReferentRuleError::UnavailableRegistry),
            r matches Ok(Some(t)) ==> exists|rule: &R| f.ensures((rule,), Some(t)),
            r matches Ok(x) ==> exists|m: RuleMap<R>|
                #![trigger self.registry().inv(m)]
                self.registry().inv(m) && (m@.contains_key(self.target()) ==> f.ensures(
                    (&m@[self.target()].0,),
                    x,
                )) && (!m@.contains_key(self.target()) ==> x is None),
    {
        let registration = match self.reg_ref.unref() {
            Ok(registration) => registration,
            Err(e) => return Err(e),
        };
        let h = registration.get_rules();
        let map = h.borrow();
        let r = map.apply(self.rule_id.as_str(), f);
        proof {
            assert(self.registry().inv(*map));
            if r is Some {
                assert(r == Some(r->Some_0));
                assert(f.ensures((&map@[self.rule_id@].0,), Some(r->Some_0)));
            }
        }
        h.release_read();
        Ok(r)
    }

    /// As `try_delegate`, with an unresolvable registry or id read as no
    /// result: what a match or a query through this rule returns.
    pub fn delegate<T, F: FnOnce(&R) -> Option<T>>(&self, f: F) -> (r: Option<T>)
        requires
            forall|rule: &R| f.requires((rule,)),
        ensures
            r matches Some(t) ==> exists|rule: &R| f.ensures((rule,), Some(t)),
    {
        match self.try_delegate(f) {
            Ok(r) => r,
            Err(_) => None,
        }
    }
}

} // verus!
