use vstd::prelude::*;
use vstd::string::StringExecFns;

verus! {

/// What can go wrong when rules are registered or resolved by id.
#[derive(Debug, PartialEq, Eq)]
pub enum ReferentRuleError {
    /// No rule is registered under the id.
    RuleNotFound(String),
    /// A rule is already registered under the id.
    DuplicateRule(String),
    /// The rule would lead back to its own id through the rules it refers to.
    CyclicRule(String),
    /// Every owning handle of the registry has been dropped.
    UnavailableRegistry,
}

impl ReferentRuleError {
    /// A human-readable description of the error.
    pub fn message(&self) -> (r: String)
        ensures
            r@ == match self {
                ReferentRuleError::RuleNotFound(id) => "Rule `"@ + id@ + "` is not found."@,
                ReferentRuleError::DuplicateRule(id) => "Duplicate rule id `"@ + id@ + "` is found."@,
                ReferentRuleError::CyclicRule(id) => "Rule `"@ + id@
                    + "` has a cyclic dependency in its `matches` sub-rule."@,
                ReferentRuleError::UnavailableRegistry => "The rule registration has been dropped."@,
            },
    {
        match self {
            ReferentRuleError::RuleNotFound(id) => {
                let mut s = String::from_str("Rule `");
                s.append(id.as_str());
                s.append("` is not found.");
                s
            },
            ReferentRuleError::DuplicateRule(id) => {
                let mut s = String::from_str("Duplicate rule id `");
                s.append(id.as_str());
                s.append("` is found.");
                s
            },
            ReferentRuleError::CyclicRule(id) => {
                let mut s = String::from_str("Rule `");
                s.append(id.as_str());
                s.append("` has a cyclic dependency in its `matches` sub-rule.");
                s
            },
            ReferentRuleError::UnavailableRegistry => String::from_str(
                "The rule registration has been dropped.",
            ),
        }
    }
}

} // verus!
