use smart_account::policy::ThresholdPolicyContract;
use smart_account::store::BasicAccountContract;
use smart_account::types::{AuthContext, Signer, SmartAccountError};

#[test]
fn install_get_set_uninstall() {
    let acct = BasicAccountContract::new(10, vec![Signer::Native(1)], vec![], &mut Vec::new()).unwrap();
    let rule = acct.get_context_rule(0).unwrap();
    let mut pol = ThresholdPolicyContract::new(20);
    assert_eq!(pol.address(), 20);
    assert_eq!(pol.get_threshold(0, 10), Err(SmartAccountError::NotInstalled));
    assert_eq!(pol.set_threshold(3, &rule, 10), Err(SmartAccountError::NotInstalled));
    pol.install(2, &rule, 10);
    assert_eq!(pol.get_threshold(0, 10), Ok(2));
    assert_eq!(pol.get_threshold(0, 11), Err(SmartAccountError::NotInstalled));
    assert_eq!(pol.set_threshold(3, &rule, 10), Ok(()));
    assert_eq!(pol.get_threshold(0, 10), Ok(3));
    pol.install(1, &rule, 10);
    assert_eq!(pol.get_threshold(0, 10), Ok(1));
    assert_eq!(pol.uninstall(&rule, 10), Ok(()));
    assert_eq!(pol.uninstall(&rule, 10), Err(SmartAccountError::NotInstalled));
}

#[test]
fn thresholds_are_scoped_per_account() {
    let acct = BasicAccountContract::new(10, vec![Signer::Native(1)], vec![], &mut Vec::new()).unwrap();
    let rule = acct.get_context_rule(0).unwrap();
    let mut pol = ThresholdPolicyContract::new(20);
    pol.install(1, &rule, 10);
    pol.install(2, &rule, 11);
    assert_eq!(pol.get_threshold(0, 10), Ok(1));
    assert_eq!(pol.get_threshold(0, 11), Ok(2));
    assert_eq!(pol.uninstall(&rule, 10), Ok(()));
    assert_eq!(pol.get_threshold(0, 11), Ok(2));
    let one = vec![Signer::Native(1)];
    assert!(!pol.can_enforce(AuthContext::Contract(1), &one, &rule, 10));
    assert!(!pol.can_enforce(AuthContext::Contract(1), &one, &rule, 11));
}

#[test]
fn enforce_records_rule_and_account() {
    let acct = BasicAccountContract::new(10, vec![Signer::Native(1)], vec![], &mut Vec::new()).unwrap();
    let rule = acct.get_context_rule(0).unwrap();
    let mut pol = ThresholdPolicyContract::new(20);
    pol.enforce(AuthContext::Contract(1), &vec![], &rule, 10);
    assert_eq!(pol.enforcement_count(), 1);
    let rec = pol.enforcement(0);
    assert_eq!((rec.rule_id, rec.account), (0, 10));
}
