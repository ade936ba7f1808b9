use smart_account::policy::ThresholdPolicyContract;
use smart_account::store::BasicAccountContract;
use smart_account::types::{ContextRuleType, PolicyEntry, Signer, SmartAccountError};

const ACCOUNT: u64 = 1000;
const POLICY: u64 = 2000;

fn native(a: u64) -> Signer {
    Signer::Native(a)
}

fn same_signers(a: &[Signer], b: &[Signer]) -> bool {
    a.len() == b.len() && a.iter().zip(b.iter()).all(|(x, y)| x.same_as(y))
}

#[test]
fn new_account_has_default_rule() {
    let acct = BasicAccountContract::new(ACCOUNT, vec![native(1)], vec![], &mut Vec::new()).unwrap();
    assert_eq!(acct.address(), ACCOUNT);
    assert_eq!(acct.rule_count(), 1);
    let rule = acct.get_context_rule(0).unwrap();
    assert_eq!(rule.id, 0);
    assert_eq!(rule.context_type, ContextRuleType::Default);
    assert_eq!(rule.name, "default");
    assert_eq!(rule.valid_until, None);
    assert!(same_signers(&rule.signers, &[native(1)]));
    assert!(rule.policies.is_empty());
}

#[test]
fn create_then_get_round_trip() {
    let mut acct = BasicAccountContract::new(ACCOUNT, vec![native(1)], vec![], &mut Vec::new()).unwrap();
    let mut caps = vec![ThresholdPolicyContract::new(POLICY)];
    let signers = vec![native(5), Signer::Delegated(77, vec![1, 2, 3])];
    let created = acct
        .add_context_rule(
            ContextRuleType::CallContract(42),
            String::from("payments"),
            Some(500),
            signers.clone(),
            vec![PolicyEntry { policy: POLICY, param: 1 }],
            &mut caps,
            100,
        )
        .unwrap();
    assert_eq!(created.id, 1);
    let got = acct.get_context_rule(created.id).unwrap();
    assert_eq!(got.id, created.id);
    assert_eq!(got.context_type, ContextRuleType::CallContract(42));
    assert_eq!(got.name, "payments");
    assert_eq!(got.valid_until, Some(500));
    assert!(same_signers(&got.signers, &signers));
    assert_eq!(got.policies, vec![PolicyEntry { policy: POLICY, param: 1 }]);
    assert_eq!(caps[0].get_threshold(1, ACCOUNT), Ok(1));
}

#[test]
fn ids_are_never_reused() {
    let mut acct = BasicAccountContract::new(ACCOUNT, vec![native(1)], vec![], &mut Vec::new()).unwrap();
    let mut caps = vec![ThresholdPolicyContract::new(POLICY)];
    let a = acct
        .add_context_rule(ContextRuleType::CallContract(1), String::from("a"), None, vec![native(2)], vec![], &mut caps, 0)
        .unwrap();
    assert_eq!(acct.remove_context_rule(a.id), Ok(()));
    assert_eq!(acct.get_context_rule(a.id).err(), Some(SmartAccountError::NotFound));
    let b = acct
        .add_context_rule(ContextRuleType::CallContract(1), String::from("b"), None, vec![native(2)], vec![], &mut caps, 0)
        .unwrap();
    assert_eq!(b.id, 2);
}

#[test]
fn second_default_is_rejected() {
    let mut acct = BasicAccountContract::new(ACCOUNT, vec![native(1)], vec![], &mut Vec::new()).unwrap();
    let mut caps = vec![ThresholdPolicyContract::new(POLICY)];
    let r = acct.add_context_rule(ContextRuleType::Default, String::from("again"), None, vec![native(2)], vec![], &mut caps, 0);
    assert_eq!(r.err(), Some(SmartAccountError::DuplicateDefault));
    assert_eq!(acct.rule_count(), 1);
}

#[test]
fn default_can_be_recreated_after_removal() {
    let mut acct = BasicAccountContract::new(ACCOUNT, vec![native(1)], vec![], &mut Vec::new()).unwrap();
    let mut caps = vec![ThresholdPolicyContract::new(POLICY)];
    acct.remove_context_rule(0).unwrap();
    let r = acct.add_context_rule(ContextRuleType::Default, String::from("again"), None, vec![native(2)], vec![], &mut caps, 0);
    assert_eq!(r.unwrap().id, 1);
}

#[test]
fn past_valid_until_is_rejected() {
    let mut acct = BasicAccountContract::new(ACCOUNT, vec![native(1)], vec![], &mut Vec::new()).unwrap();
    let mut caps = vec![ThresholdPolicyContract::new(POLICY)];
    let r = acct.add_context_rule(ContextRuleType::CallContract(3), String::from("old"), Some(9), vec![native(2)], vec![], &mut caps, 10);
    assert_eq!(r.err(), Some(SmartAccountError::ExpiredRule));
    assert_eq!(acct.update_context_rule_valid_until(0, Some(9), 10).err(), Some(SmartAccountError::ExpiredRule));
    assert_eq!(acct.get_context_rule(0).unwrap().valid_until, None);
}

#[test]
fn policy_of_unknown_capability_is_rejected() {
    let mut acct = BasicAccountContract::new(ACCOUNT, vec![native(1)], vec![], &mut Vec::new()).unwrap();
    let mut caps = vec![ThresholdPolicyContract::new(POLICY)];
    let r = acct.add_context_rule(
        ContextRuleType::CallContract(3),
        String::from("p"),
        None,
        vec![native(2)],
        vec![PolicyEntry { policy: POLICY + 5, param: 1 }],
        &mut caps,
        0,
    );
    assert_eq!(r.err(), Some(SmartAccountError::NotFound));
    assert_eq!(acct.rule_count(), 1);
}

#[test]
fn rules_listed_by_type_in_order() {
    let mut acct = BasicAccountContract::new(ACCOUNT, vec![native(1)], vec![], &mut Vec::new()).unwrap();
    let mut caps = vec![ThresholdPolicyContract::new(POLICY)];
    for (t, n) in [(7u64, "x"), (8, "y"), (7, "z")] {
        acct.add_context_rule(ContextRuleType::CallContract(t), String::from(n), None, vec![native(2)], vec![], &mut caps, 0)
            .unwrap();
    }
    let sevens = acct.get_context_rules(ContextRuleType::CallContract(7));
    let names: Vec<&str> = sevens.iter().map(|r| r.name.as_str()).collect();
    assert_eq!(names, vec!["x", "z"]);
    assert_eq!(acct.get_context_rules(ContextRuleType::Default).len(), 1);
    assert!(acct.get_context_rules(ContextRuleType::CreateContract(7)).is_empty());
}

#[test]
fn rename_and_missing_rule() {
    let mut acct = BasicAccountContract::new(ACCOUNT, vec![native(1)], vec![], &mut Vec::new()).unwrap();
    let r = acct.update_context_rule_name(0, String::from("main")).unwrap();
    assert_eq!(r.name, "main");
    assert_eq!(acct.get_context_rule(0).unwrap().name, "main");
    assert_eq!(acct.update_context_rule_name(3, String::from("x")).err(), Some(SmartAccountError::NotFound));
    assert_eq!(acct.remove_context_rule(3), Err(SmartAccountError::NotFound));
    assert_eq!(acct.add_signer(3, native(2)), Err(SmartAccountError::NotFound));
    assert_eq!(acct.remove_signer(3, native(1)), Err(SmartAccountError::NotFound));
}

#[test]
fn remove_last_signer_fails_and_keeps_rule() {
    let mut acct = BasicAccountContract::new(ACCOUNT, vec![native(1)], vec![], &mut Vec::new()).unwrap();
    assert_eq!(acct.remove_signer(0, native(1)), Err(SmartAccountError::LastSignerRemoval));
    let rule = acct.get_context_rule(0).unwrap();
    assert!(same_signers(&rule.signers, &[native(1)]));
}

#[test]
fn add_and_remove_signers() {
    let mut acct = BasicAccountContract::new(ACCOUNT, vec![native(1)], vec![], &mut Vec::new()).unwrap();
    assert_eq!(acct.add_signer(0, native(2)), Ok(()));
    assert_eq!(acct.add_signer(0, native(2)), Ok(()));
    assert!(same_signers(&acct.get_context_rule(0).unwrap().signers, &[native(1), native(2)]));
    assert_eq!(acct.remove_signer(0, native(9)), Err(SmartAccountError::SignerNotFound));
    assert_eq!(acct.remove_signer(0, native(1)), Ok(()));
    assert!(same_signers(&acct.get_context_rule(0).unwrap().signers, &[native(2)]));
}

#[test]
fn add_and_remove_policy() {
    let mut acct = BasicAccountContract::new(ACCOUNT, vec![native(1), native(2)], vec![], &mut Vec::new()).unwrap();
    let mut caps = vec![ThresholdPolicyContract::new(POLICY)];
    assert_eq!(acct.add_policy(9, POLICY, 1, &mut caps), Err(SmartAccountError::NotFound));
    assert_eq!(acct.remove_policy(0, POLICY, &mut caps), Err(SmartAccountError::NotFound));
    assert_eq!(acct.add_policy(0, POLICY, 1, &mut caps), Ok(()));
    assert_eq!(caps[0].get_threshold(0, ACCOUNT), Ok(1));
    assert_eq!(acct.add_policy(0, POLICY, 2, &mut caps), Ok(()));
    assert_eq!(caps[0].get_threshold(0, ACCOUNT), Ok(1));
    assert_eq!(acct.get_context_rule(0).unwrap().policies, vec![PolicyEntry { policy: POLICY, param: 1 }]);
    assert_eq!(acct.remove_policy(0, POLICY, &mut caps), Ok(()));
    assert!(acct.get_context_rule(0).unwrap().policies.is_empty());
    assert_eq!(caps[0].get_threshold(0, ACCOUNT), Err(SmartAccountError::NotInstalled));
}

#[test]
fn remove_policy_whose_state_is_gone() {
    let mut acct = BasicAccountContract::new(ACCOUNT, vec![native(1)], vec![], &mut Vec::new()).unwrap();
    let mut caps = vec![ThresholdPolicyContract::new(POLICY)];
    acct.add_policy(0, POLICY, 1, &mut caps).unwrap();
    let rule = acct.get_context_rule(0).unwrap();
    assert_eq!(caps[0].uninstall(&rule, ACCOUNT), Ok(()));
    assert_eq!(acct.remove_policy(0, POLICY, &mut caps), Err(SmartAccountError::NotInstalled));
    assert_eq!(acct.get_context_rule(0).unwrap().policies.len(), 1);
}

#[test]
fn next_id_grows_only_on_creation() {
    let mut acct = BasicAccountContract::new(ACCOUNT, vec![native(1)], vec![], &mut Vec::new()).unwrap();
    let mut caps = vec![ThresholdPolicyContract::new(POLICY)];
    assert_eq!(acct.next_rule_id(), 1);
    acct.remove_context_rule(0).unwrap();
    assert_eq!(acct.next_rule_id(), 1);
    let bad = acct.add_context_rule(ContextRuleType::CallContract(1), String::from("a"), Some(1), vec![native(2)], vec![], &mut caps, 2);
    assert!(bad.is_err());
    assert_eq!(acct.next_rule_id(), 1);
    acct.add_context_rule(ContextRuleType::CallContract(1), String::from("a"), None, vec![native(2)], vec![], &mut caps, 2).unwrap();
    assert_eq!(acct.next_rule_id(), 2);
}

#[test]
fn new_installs_given_policies() {
    let mut caps = vec![ThresholdPolicyContract::new(POLICY), ThresholdPolicyContract::new(POLICY + 1)];
    let acct = BasicAccountContract::new(
        ACCOUNT,
        vec![native(1), native(2)],
        vec![PolicyEntry { policy: POLICY + 1, param: 2 }],
        &mut caps,
    )
    .unwrap();
    assert_eq!(acct.get_context_rule(0).unwrap().policies, vec![PolicyEntry { policy: POLICY + 1, param: 2 }]);
    assert_eq!(caps[1].get_threshold(0, ACCOUNT), Ok(2));
    assert_eq!(caps[0].get_threshold(0, ACCOUNT), Err(SmartAccountError::NotInstalled));
}

#[test]
fn new_rejects_bad_signers() {
    let mut caps: Vec<ThresholdPolicyContract> = Vec::new();
    assert_eq!(BasicAccountContract::new(ACCOUNT, vec![], vec![], &mut caps).err(), Some(SmartAccountError::NoSigners));
    assert_eq!(
        BasicAccountContract::new(ACCOUNT, vec![native(1), native(1)], vec![], &mut caps).err(),
        Some(SmartAccountError::DuplicateSigner)
    );
    assert_eq!(
        BasicAccountContract::new(ACCOUNT, vec![native(1)], vec![PolicyEntry { policy: POLICY, param: 1 }], &mut caps).err(),
        Some(SmartAccountError::NotFound)
    );
}

#[test]
fn create_with_two_capabilities_installs_both() {
    let mut acct = BasicAccountContract::new(ACCOUNT, vec![native(1)], vec![], &mut Vec::new()).unwrap();
    let mut caps = vec![ThresholdPolicyContract::new(POLICY), ThresholdPolicyContract::new(POLICY + 1)];
    let policies = vec![PolicyEntry { policy: POLICY + 1, param: 4 }, PolicyEntry { policy: POLICY, param: 3 }];
    let r = acct
        .add_context_rule(ContextRuleType::CallContract(5), String::from("two"), None, vec![native(2)], policies.clone(), &mut caps, 0)
        .unwrap();
    assert_eq!(r.policies, policies);
    assert_eq!(caps[0].get_threshold(r.id, ACCOUNT), Ok(3));
    assert_eq!(caps[1].get_threshold(r.id, ACCOUNT), Ok(4));
}

#[test]
fn create_rejects_empty_or_repeated_parts() {
    let mut acct = BasicAccountContract::new(ACCOUNT, vec![native(1)], vec![], &mut Vec::new()).unwrap();
    let mut caps = vec![ThresholdPolicyContract::new(POLICY)];
    let t = ContextRuleType::CallContract(5);
    assert_eq!(
        acct.add_context_rule(t, String::from("a"), None, vec![], vec![], &mut caps, 0).err(),
        Some(SmartAccountError::NoSigners)
    );
    assert_eq!(
        acct.add_context_rule(t, String::from("a"), None, vec![native(2), native(2)], vec![], &mut caps, 0).err(),
        Some(SmartAccountError::DuplicateSigner)
    );
    let twice = vec![PolicyEntry { policy: POLICY, param: 1 }, PolicyEntry { policy: POLICY, param: 2 }];
    assert_eq!(
        acct.add_context_rule(t, String::from("a"), None, vec![native(2)], twice, &mut caps, 0).err(),
        Some(SmartAccountError::DuplicatePolicy)
    );
    assert_eq!(acct.rule_count(), 1);
    assert_eq!(acct.next_rule_id(), 1);
    assert_eq!(caps[0].get_threshold(1, ACCOUNT), Err(SmartAccountError::NotInstalled));
}
