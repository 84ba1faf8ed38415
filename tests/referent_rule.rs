use bit_set::BitSet;
use referent_rule::{ReferentRule, ReferentRuleError, RuleMap, RuleRefs, RuleRegistration};
use std::collections::HashMap;

/// A syntax node reduced to what the test rules read.
struct TestNode {
    kind: usize,
    text: String,
}

/// Capture bindings: a variable name and the text of the node bound to it.
type Env = HashMap<String, String>;

/// A small rule language: kind matchers that may bind a capture, references
/// to registered rules, and conjunction.
enum TestRule {
    Kind(Vec<usize>, Option<String>),
    Matches(ReferentRule<TestRule>),
    All(Vec<TestRule>),
}

impl TestRule {
    fn match_node(&self, node: &TestNode, env: &mut Env) -> Option<usize> {
        match self {
            TestRule::Kind(kinds, capture) => {
                if !kinds.contains(&node.kind) {
                    return None;
                }
                if let Some(name) = capture {
                    env.insert(name.clone(), node.text.clone());
                }
                Some(node.kind)
            }
            TestRule::Matches(r) => r.delegate(|rule: &TestRule| rule.match_node(node, env)),
            TestRule::All(rules) => {
                let mut last = None;
                for rule in rules {
                    last = Some(rule.match_node(node, env)?);
                }
                last
            }
        }
    }

    fn potential_kinds(&self) -> Option<BitSet> {
        match self {
            TestRule::Kind(kinds, _) => {
                let mut set = BitSet::new();
                for k in kinds {
                    set.insert(*k);
                }
                Some(set)
            }
            TestRule::Matches(r) => r.delegate(|rule: &TestRule| rule.potential_kinds()),
            TestRule::All(_) => None,
        }
    }
}

impl RuleRefs for TestRule {
    // This impl does not meet the trait's contract: `referents` should list
    // the views of what `referent_ids` returns. It is read only in proofs,
    // which do not cover this file, and it has no value to give at run time.
    fn referents(&self) -> vstd::seq::Seq<vstd::seq::Seq<char>> {
        vstd::seq::Seq::empty()
    }

    fn referent_ids(&self) -> Vec<String> {
        match self {
            TestRule::Kind(_, _) => vec![],
            TestRule::Matches(r) => vec![r.rule_id().to_string()],
            TestRule::All(rules) => rules.iter().flat_map(|r| r.referent_ids()).collect(),
        }
    }
}

fn referent(id: &str, reg: &RuleRegistration<TestRule>) -> TestRule {
    TestRule::Matches(ReferentRule::try_new(id.to_string(), reg).unwrap())
}

fn kind(kinds: &[usize]) -> TestRule {
    TestRule::Kind(kinds.to_vec(), None)
}

fn registered(reg: &RuleRegistration<TestRule>, id: &str) -> bool {
    let h = reg.get_rules();
    let r = h.borrow().contains_rule(id);
    h.release_read();
    r
}

#[test]
fn test_cyclic_error() -> Result<(), ReferentRuleError> {
    let registration = RuleRegistration::<TestRule>::default();
    let rule = ReferentRule::try_new("test".into(), &registration)?;
    let rule = TestRule::Matches(rule);
    let error = registration.insert_rule("test", rule);
    assert!(matches!(error, Err(ReferentRuleError::CyclicRule(_))));
    Ok(())
}

#[test]
fn duplicate_id_is_refused_and_first_kept() {
    let reg = RuleRegistration::<TestRule>::new();
    assert_eq!(reg.insert_rule("a", kind(&[1])), Ok(()));
    assert_eq!(
        reg.insert_rule("a", kind(&[2])),
        Err(ReferentRuleError::DuplicateRule("a".to_string()))
    );
    let r = referent("a", &reg);
    let mut env = Env::new();
    let one = TestNode { kind: 1, text: "x".to_string() };
    let two = TestNode { kind: 2, text: "y".to_string() };
    assert_eq!(r.match_node(&one, &mut env), Some(1));
    assert_eq!(r.match_node(&two, &mut env), None);
}

#[test]
fn direct_self_reference_is_cyclic_and_rolled_back() {
    let reg = RuleRegistration::<TestRule>::new();
    let err = reg.insert_rule("a", referent("a", &reg));
    assert_eq!(err, Err(ReferentRuleError::CyclicRule("a".to_string())));
    assert!(!registered(&reg, "a"));
    assert!(!reg.contains_rule("a"));
}

#[test]
fn indirect_cycle_is_refused() {
    let reg = RuleRegistration::<TestRule>::new();
    assert_eq!(reg.insert_rule("a", referent("b", &reg)), Ok(()));
    assert_eq!(
        reg.insert_rule("b", referent("a", &reg)),
        Err(ReferentRuleError::CyclicRule("b".to_string()))
    );
    assert!(registered(&reg, "a"));
    assert!(!registered(&reg, "b"));
}

#[test]
fn cycle_through_nested_reference_is_refused() {
    let reg = RuleRegistration::<TestRule>::new();
    assert_eq!(reg.insert_rule("a", TestRule::All(vec![kind(&[1]), referent("b", &reg)])), Ok(()));
    assert_eq!(reg.insert_rule("b", referent("c", &reg)), Ok(()));
    assert_eq!(
        reg.insert_rule("c", TestRule::All(vec![referent("a", &reg)])),
        Err(ReferentRuleError::CyclicRule("c".to_string()))
    );
    assert!(!registered(&reg, "c"));
    assert_eq!(reg.insert_rule("c", kind(&[1])), Ok(()));
}

#[test]
fn shared_target_without_cycle_is_accepted() {
    let reg = RuleRegistration::<TestRule>::new();
    assert_eq!(reg.insert_rule("leaf", kind(&[3])), Ok(()));
    assert_eq!(reg.insert_rule("left", referent("leaf", &reg)), Ok(()));
    assert_eq!(reg.insert_rule("right", referent("leaf", &reg)), Ok(()));
    let both = TestRule::All(vec![referent("left", &reg), referent("right", &reg)]);
    assert_eq!(reg.insert_rule("top", both), Ok(()));
}

#[test]
fn forward_reference_resolves_once_registered() {
    let reg = RuleRegistration::<TestRule>::new();
    assert_eq!(reg.insert_rule("a", referent("b", &reg)), Ok(()));
    let a = referent("a", &reg);
    let node = TestNode { kind: 7, text: "foo".to_string() };
    let mut env = Env::new();
    assert_eq!(a.match_node(&node, &mut env), None);
    assert!(env.is_empty());
    assert_eq!(reg.insert_rule("b", TestRule::Kind(vec![7], Some("X".to_string()))), Ok(()));
    assert_eq!(a.match_node(&node, &mut env), Some(7));
    assert_eq!(env.get("X"), Some(&"foo".to_string()));
}

#[test]
fn distinct_inserts_through_shared_handles_all_land() {
    let reg = RuleRegistration::<TestRule>::new();
    let n: usize = 8;
    let handles: Vec<RuleRegistration<TestRule>> = (0..n).map(|_| reg.clone()).collect();
    for (i, h) in handles.iter().enumerate() {
        let id = format!("rule{}", i);
        assert_eq!(h.insert_rule(&id, kind(&[i])), Ok(()));
    }
    for i in 0..n {
        assert!(registered(&reg, &format!("rule{}", i)));
    }
}

#[test]
fn dropped_registry_reads_as_no_match() {
    let reg = RuleRegistration::<TestRule>::new();
    assert_eq!(reg.insert_rule("a", kind(&[1])), Ok(()));
    let rule = ReferentRule::try_new("a".to_string(), &reg).unwrap();
    let handle = reg.get_ref();
    let copy = reg.clone();
    drop(reg);
    assert!(handle.unref().is_ok());
    drop(copy);
    assert!(matches!(handle.unref(), Err(ReferentRuleError::UnavailableRegistry)));
    let node = TestNode { kind: 1, text: "x".to_string() };
    let mut env = Env::new();
    assert_eq!(rule.delegate(|r: &TestRule| r.match_node(&node, &mut env)), None);
    assert!(matches!(
        rule.try_delegate(|r: &TestRule| r.potential_kinds()),
        Err(ReferentRuleError::UnavailableRegistry)
    ));
}

#[test]
fn potential_kinds_follow_the_target() {
    let reg = RuleRegistration::<TestRule>::new();
    assert_eq!(reg.insert_rule("k", kind(&[4, 9])), Ok(()));
    let to_k = referent("k", &reg);
    let kinds = to_k.potential_kinds().unwrap();
    assert_eq!(kinds.iter().collect::<Vec<usize>>(), vec![4, 9]);
    let to_missing = referent("missing", &reg);
    assert!(to_missing.potential_kinds().is_none());
}

#[test]
fn referent_rule_keeps_its_id() {
    let reg = RuleRegistration::<TestRule>::new();
    let r = ReferentRule::try_new("some-id".to_string(), &reg).unwrap();
    assert_eq!(r.rule_id(), "some-id");
    assert_eq!(r.try_delegate(|_: &TestRule| Some(1)), Ok(None));
}

#[test]
fn rule_map_insert_with_explicit_references() {
    let mut map: RuleMap<u32> = RuleMap::new();
    assert_eq!(map.insert_with_referents("a", 1, vec!["b".to_string()]), Ok(()));
    assert_eq!(map.insert_with_referents("b", 2, vec!["c".to_string()]), Ok(()));
    assert_eq!(
        map.insert_with_referents("c", 3, vec!["x".to_string(), "a".to_string()]),
        Err(ReferentRuleError::CyclicRule("c".to_string()))
    );
    assert!(!map.contains_rule("c"));
    assert_eq!(
        map.insert_with_referents("a", 9, vec![]),
        Err(ReferentRuleError::DuplicateRule("a".to_string()))
    );
    assert_eq!(map.get("a"), Some(&1));
    assert_eq!(map.apply("b", |v: &u32| Some(*v + 10)), Some(12));
    assert_eq!(map.apply("c", |v: &u32| Some(*v + 10)), None);
}

#[test]
fn rule_map_find_reports_missing_id() {
    let mut map: RuleMap<u32> = RuleMap::new();
    assert_eq!(map.insert_with_referents("a", 5, vec![]), Ok(()));
    assert_eq!(map.find("a"), Ok(&5));
    assert_eq!(map.find("z"), Err(ReferentRuleError::RuleNotFound("z".to_string())));
}

#[test]
fn error_messages_name_the_id() {
    assert_eq!(
        ReferentRuleError::RuleNotFound("r".to_string()).message(),
        "Rule `r` is not found."
    );
    assert_eq!(
        ReferentRuleError::DuplicateRule("r".to_string()).message(),
        "Duplicate rule id `r` is found."
    );
    assert_eq!(
        ReferentRuleError::CyclicRule("r".to_string()).message(),
        "Rule `r` has a cyclic dependency in its `matches` sub-rule."
    );
    assert_eq!(
        ReferentRuleError::UnavailableRegistry.message(),
        "The rule registration has been dropped."
    );
}
