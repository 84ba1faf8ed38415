//! A registry of named rules that rules can refer to by id.
//!
//! A [`RuleRegistration`] owns the shared table from rule ids to compiled
//! rules. A [`ReferentRule`] names a rule of that table and reaches it through
//! a non-owning [`RegistrationRef`], so that a rule set may hold forward and
//! recursive references without an ownership cycle. Every insertion walks the
//! references of the new rule and refuses one that leads back to its own id.

pub mod error;
pub mod reach;
pub mod rule_map;
pub mod registration;

pub use error::ReferentRuleError;

pub use registration::{ReferentRule, RegistrationRef, RuleRegistration};
pub use rule_map::{RuleMap, RuleRefs};
