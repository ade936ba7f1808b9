use smart_account::engine::{Ed25519VerifierContract, SignatureOutcome};
use smart_account::policy::ThresholdPolicyContract;
use smart_account::store::BasicAccountContract;
use smart_account::types::{AuthContext, ContextRuleType, PolicyEntry, Signer, SmartAccountError};

const ACCOUNT: u64 = 1000;
const POLICY: u64 = 2000;
const VERIFIER: u64 = 3000;

fn native(a: u64) -> Signer {
    Signer::Native(a)
}

fn signed(ids: &[u64]) -> Vec<SignatureOutcome> {
    ids.iter().map(|&a| SignatureOutcome { signer: native(a), valid: true }).collect()
}

fn account_abc() -> BasicAccountContract {
    BasicAccountContract::new(ACCOUNT, vec![native(1), native(2), native(3)], vec![], &mut Vec::new()).unwrap()
}

#[test]
fn unanimity_admits_when_all_signed() {
    let acct = account_abc();
    let mut caps = vec![ThresholdPolicyContract::new(POLICY)];
    let r = acct.check_auth(&mut caps, &signed(&[1, 2, 3]), &vec![AuthContext::Contract(9)], 5);
    assert_eq!(r, Ok(()));
    assert_eq!(caps[0].enforcement_count(), 0);
}

#[test]
fn unanimity_one_missing_is_unauthorized() {
    let acct = account_abc();
    let mut caps = vec![ThresholdPolicyContract::new(POLICY)];
    let r = acct.check_auth(&mut caps, &signed(&[1, 3]), &vec![AuthContext::Contract(9)], 5);
    assert_eq!(r, Err(SmartAccountError::Unauthorized));
}

#[test]
fn unanimity_one_invalid_is_unauthorized() {
    let acct = account_abc();
    let mut caps = vec![ThresholdPolicyContract::new(POLICY)];
    let mut sigs = signed(&[1, 2]);
    sigs.push(SignatureOutcome { signer: native(3), valid: false });
    let r = acct.check_auth(&mut caps, &sigs, &vec![AuthContext::Contract(9)], 5);
    assert_eq!(r, Err(SmartAccountError::Unauthorized));
}

#[test]
fn signatures_of_strangers_are_ignored() {
    let acct = account_abc();
    let mut caps = vec![ThresholdPolicyContract::new(POLICY)];
    let r = acct.check_auth(&mut caps, &signed(&[4, 1, 2, 3, 5]), &vec![AuthContext::Contract(9)], 5);
    assert_eq!(r, Ok(()));
}

#[test]
fn threshold_boundary_for_every_count() {
    let mut acct = account_abc();
    let mut caps = vec![ThresholdPolicyContract::new(POLICY)];
    assert_eq!(acct.add_policy(0, POLICY, 2, &mut caps), Ok(()));
    let rule = acct.get_context_rule(0).unwrap();
    let all = vec![native(1), native(2), native(3)];
    for n in 0..=3usize {
        let auth: Vec<Signer> = all[..n].to_vec();
        let admitted = caps[0].can_enforce(AuthContext::Contract(9), &auth, &rule, ACCOUNT);
        assert_eq!(admitted, n >= 2, "count {}", n);
    }
}

#[test]
fn threshold_not_installed_never_admits() {
    let acct = account_abc();
    let caps = vec![ThresholdPolicyContract::new(POLICY)];
    let rule = acct.get_context_rule(0).unwrap();
    let auth = vec![native(1), native(2), native(3)];
    assert!(!caps[0].can_enforce(AuthContext::Contract(9), &auth, &rule, ACCOUNT));
}

#[test]
fn expired_rule_falls_back_to_default() {
    let mut acct = account_abc();
    let mut caps = vec![ThresholdPolicyContract::new(POLICY)];
    let rule = acct
        .add_context_rule(
            ContextRuleType::CallContract(9),
            String::from("narrow"),
            Some(10),
            vec![native(7)],
            vec![],
            &mut caps,
            5,
        )
        .unwrap();
    assert_eq!(rule.id, 1);
    let ctx = vec![AuthContext::Contract(9)];
    assert_eq!(acct.check_auth(&mut caps, &signed(&[7]), &ctx, 10), Ok(()));
    assert_eq!(
        acct.check_auth(&mut caps, &signed(&[7]), &ctx, 11),
        Err(SmartAccountError::Unauthorized)
    );
    assert_eq!(acct.check_auth(&mut caps, &signed(&[1, 2, 3]), &ctx, 11), Ok(()));
}

#[test]
fn expired_default_gives_no_matching_rule() {
    let mut acct = account_abc();
    let mut caps = vec![ThresholdPolicyContract::new(POLICY)];
    acct.update_context_rule_valid_until(0, Some(20), 5).unwrap();
    let ctx = vec![AuthContext::Contract(9)];
    assert_eq!(acct.check_auth(&mut caps, &signed(&[1, 2, 3]), &ctx, 20), Ok(()));
    assert_eq!(
        acct.check_auth(&mut caps, &signed(&[1, 2, 3]), &ctx, 21),
        Err(SmartAccountError::NoMatchingRule)
    );
}

#[test]
fn no_rule_at_all_gives_no_matching_rule() {
    let mut acct = account_abc();
    let mut caps = vec![ThresholdPolicyContract::new(POLICY)];
    acct.remove_context_rule(0).unwrap();
    let r = acct.check_auth(&mut caps, &signed(&[1, 2, 3]), &vec![AuthContext::CreateContract(4)], 1);
    assert_eq!(r, Err(SmartAccountError::NoMatchingRule));
}

#[test]
fn specific_rule_wins_over_default() {
    let mut acct = account_abc();
    let mut caps = vec![ThresholdPolicyContract::new(POLICY)];
    acct.add_context_rule(
        ContextRuleType::CreateContract(44),
        String::from("deploy"),
        None,
        vec![native(8)],
        vec![],
        &mut caps,
        0,
    )
    .unwrap();
    let deploy = vec![AuthContext::CreateContract(44)];
    assert_eq!(acct.check_auth(&mut caps, &signed(&[8]), &deploy, 0), Ok(()));
    assert_eq!(
        acct.check_auth(&mut caps, &signed(&[1, 2, 3]), &deploy, 0),
        Err(SmartAccountError::Unauthorized)
    );
    let other = vec![AuthContext::CreateContract(45)];
    assert_eq!(acct.check_auth(&mut caps, &signed(&[1, 2, 3]), &other, 0), Ok(()));
}

#[test]
fn threshold_scenario_two_of_three() {
    let mut acct = account_abc();
    let mut caps = vec![ThresholdPolicyContract::new(POLICY)];
    assert_eq!(acct.add_policy(0, POLICY, 2, &mut caps), Ok(()));
    let ctx = vec![AuthContext::Contract(9)];
    assert_eq!(acct.check_auth(&mut caps, &signed(&[1, 2]), &ctx, 0), Ok(()));
    assert_eq!(caps[0].enforcement_count(), 1);
    assert_eq!(
        acct.check_auth(&mut caps, &signed(&[1]), &ctx, 0),
        Err(SmartAccountError::PolicyDenied)
    );
    assert_eq!(caps[0].enforcement_count(), 1);
    assert_eq!(acct.remove_policy(0, POLICY, &mut caps), Ok(()));
    assert_eq!(caps[0].get_threshold(0, ACCOUNT), Err(SmartAccountError::NotInstalled));
    assert_eq!(
        acct.check_auth(&mut caps, &signed(&[1, 2]), &ctx, 0),
        Err(SmartAccountError::Unauthorized)
    );
    assert_eq!(acct.check_auth(&mut caps, &signed(&[1, 2, 3]), &ctx, 0), Ok(()));
}

#[test]
fn policies_consulted_in_install_order() {
    let mut acct = account_abc();
    let mut caps = vec![ThresholdPolicyContract::new(POLICY), ThresholdPolicyContract::new(POLICY + 1)];
    assert_eq!(acct.add_policy(0, POLICY, 3, &mut caps), Ok(()));
    assert_eq!(acct.add_policy(0, POLICY + 1, 1, &mut caps), Ok(()));
    let ctx = vec![AuthContext::Contract(9)];
    assert_eq!(acct.check_auth(&mut caps, &signed(&[2]), &ctx, 0), Ok(()));
    assert_eq!(caps[0].enforcement_count(), 0);
    assert_eq!(caps[1].enforcement_count(), 1);
    assert_eq!(acct.check_auth(&mut caps, &signed(&[1, 2, 3]), &ctx, 0), Ok(()));
    assert_eq!(caps[0].enforcement_count(), 1);
    assert_eq!(caps[1].enforcement_count(), 1);
    assert_eq!(acct.check_auth(&mut caps, &signed(&[]), &ctx, 0), Err(SmartAccountError::PolicyDenied));
}

#[test]
fn policy_of_absent_capability_denies() {
    let mut acct = account_abc();
    let mut caps = vec![ThresholdPolicyContract::new(POLICY), ThresholdPolicyContract::new(POLICY + 1)];
    assert_eq!(acct.add_policy(0, POLICY + 1, 1, &mut caps), Ok(()));
    let ctx = vec![AuthContext::Contract(9)];
    let mut only_first = vec![ThresholdPolicyContract::new(POLICY)];
    assert_eq!(
        acct.check_auth(&mut only_first, &signed(&[1, 2, 3]), &ctx, 0),
        Err(SmartAccountError::PolicyDenied)
    );
    assert_eq!(acct.check_auth(&mut caps, &signed(&[2]), &ctx, 0), Ok(()));
}

#[test]
fn batch_with_one_denied_action_fails_whole() {
    let mut acct = account_abc();
    let mut caps = vec![ThresholdPolicyContract::new(POLICY)];
    acct.add_context_rule(
        ContextRuleType::CallContract(9),
        String::from("nine"),
        None,
        vec![native(1), native(2)],
        vec![PolicyEntry { policy: POLICY, param: 1 }],
        &mut caps,
        0,
    )
    .unwrap();
    let sigs = signed(&[1]);
    let batch = vec![AuthContext::Contract(9), AuthContext::Contract(10)];
    assert_eq!(acct.check_auth(&mut caps, &sigs, &batch, 0), Err(SmartAccountError::Unauthorized));
    assert_eq!(caps[0].enforcement_count(), 0);
    let good = vec![AuthContext::Contract(9), AuthContext::Contract(9)];
    assert_eq!(acct.check_auth(&mut caps, &sigs, &good, 0), Ok(()));
    assert_eq!(caps[0].enforcement_count(), 2);
    let rec = caps[0].enforcement(1);
    assert_eq!(rec.rule_id, 1);
    assert_eq!(rec.account, ACCOUNT);
}

#[test]
fn empty_batch_is_admitted() {
    let acct = account_abc();
    let mut caps = vec![ThresholdPolicyContract::new(POLICY)];
    assert_eq!(acct.check_auth(&mut caps, &vec![], &vec![], 0), Ok(()));
}

#[test]
fn delegated_signer_through_verifier() {
    let key = vec![7u8; 32];
    let acct = BasicAccountContract::new(ACCOUNT, vec![Signer::Delegated(VERIFIER, key.clone())], vec![], &mut Vec::new()).unwrap();
    let mut caps = vec![ThresholdPolicyContract::new(POLICY)];
    let verifier = Ed25519VerifierContract { address: VERIFIER };
    let ctx = vec![AuthContext::Contract(9)];
    let ok = verifier.outcome(Signer::Delegated(VERIFIER, key.clone()), true);
    assert!(ok.valid);
    assert_eq!(acct.check_auth(&mut caps, &vec![ok], &ctx, 0), Ok(()));
    let rejected = verifier.outcome(Signer::Delegated(VERIFIER, key.clone()), false);
    assert_eq!(
        acct.check_auth(&mut caps, &vec![rejected], &ctx, 0),
        Err(SmartAccountError::Unauthorized)
    );
    let other_key = verifier.outcome(Signer::Delegated(VERIFIER, vec![8u8; 32]), true);
    assert_eq!(
        acct.check_auth(&mut caps, &vec![other_key], &ctx, 0),
        Err(SmartAccountError::Unauthorized)
    );
    let foreign = Ed25519VerifierContract { address: VERIFIER + 1 };
    let wrong_verifier = foreign.outcome(Signer::Delegated(VERIFIER, key), true);
    assert!(!wrong_verifier.valid);
}
