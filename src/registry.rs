//! The policy capabilities reachable by an account, each at its own address,
//! and the operations that act on one of them in place.
use vstd::prelude::*;
use crate::types::{Address, AuthContext, ContextRule, Signer, SmartAccountError};
use crate::policy::{EnforceRecord, ThresholdPolicyContract};

verus! {

/// Whether every capability is well formed and no two share an address.
pub open spec fn registry_wf(caps: Seq<ThresholdPolicyContract>) -> bool {
    &&& forall|k: int| 0 <= k < caps.len() ==> (#[trigger] caps[k]).wf()
    &&& forall|i: int, j: int|
        0 <= i < caps.len() && 0 <= j < caps.len() && i != j ==> (#[trigger] caps[i]).deployed_at()
            != (#[trigger] caps[j]).deployed_at()
}

/// Whether a capability is deployed at the address.
pub open spec fn is_registered(caps: Seq<ThresholdPolicyContract>, a: Address) -> bool {
    exists|k: int| 0 <= k < caps.len() && (#[trigger] caps[k]).deployed_at() == a
}

/// The position of the capability deployed at the address, where there is one.
pub open spec fn cap_index(caps: Seq<ThresholdPolicyContract>, a: Address) -> int {
    choose|k: int| 0 <= k < caps.len() && (#[trigger] caps[k]).deployed_at() == a
}

/// Whether `after` is `before` with threshold `t` installed for the rule of
/// the account, and nothing else changed.
pub open spec fn installed_as(
    before: ThresholdPolicyContract,
    after: ThresholdPolicyContract,
    rule_id: u32,
    account: Address,
    t: u32,
) -> bool {
    &&& after.wf()
    &&& after.deployed_at() == before.deployed_at()
    &&& after.log() == before.log()
    &&& after.thresholds() == before.thresholds().insert((rule_id, account), t)
}

/// The position of the capability deployed at `a`, if any.
pub fn find_capability(caps: &Vec<ThresholdPolicyContract>, a: Address) -> (r: Option<usize>)
    requires
        registry_wf(caps@),
    ensures
        match r {
            Some(k) => k < caps@.len() && is_registered(caps@, a) && k == cap_index(caps@, a),
            None => !is_registered(caps@, a),
        },
{
    let mut i: usize = 0;
    while i < caps.len()
        invariant
            registry_wf(caps@),
            i <= caps@.len(),
            forall|j: int| 0 <= j < i ==> (#[trigger] caps@[j]).deployed_at() != a,
        decreases caps@.len() - i,
    {
        if caps[i].address() == a {
            assert(is_registered(caps@, a));
            let ghost j = cap_index(caps@, a);
            assert(0 <= j < caps@.len() && caps@[j].deployed_at() == a);
            assert(j == i) by {
                if j != i {
                    assert(caps@[i as int].deployed_at() != caps@[j].deployed_at());
                }
            }
            return Some(i);
        }
        i = i + 1;
    }
    None
}

proof fn lemma_same_addresses(a: Seq<ThresholdPolicyContract>, b: Seq<ThresholdPolicyContract>)
    requires
        registry_wf(a),
        a.len() == b.len(),
        forall|k: int| 0 <= k < b.len() ==> (#[trigger] b[k]).wf(),
        forall|k: int| 0 <= k < a.len() ==> (#[trigger] b[k]).deployed_at() == a[k].deployed_at(),
    ensures
        registry_wf(b),
{
    assert forall|i: int, j: int|
        0 <= i < b.len() && 0 <= j < b.len() && i != j implies (#[trigger] b[i]).deployed_at()
        != (#[trigger] b[j]).deployed_at() by {
        assert(a[i].deployed_at() != a[j].deployed_at());
    }
}

/// Installs threshold `param` for the rule of the account on the
/// capability at position `k`; the others are left as they are.
pub fn install_in(
    caps: &mut Vec<ThresholdPolicyContract>,
    k: usize,
    param: u32,
    rule: &ContextRule,
    account: Address,
)
    requires
        registry_wf(old(caps)@),
        k < old(caps)@.len(),
    ensures
        registry_wf(final(caps)@),
        final(caps)@.len() == old(caps)@.len(),
        forall|j: int| 0 <= j < old(caps)@.len() && j != k ==> final(caps)@[j] == old(caps)@[j],
        installed_as(old(caps)@[k as int], final(caps)@[k as int], rule.id, account, param),
{
    let ghost before = caps@;
    let mut c = caps.remove(k);
    c.install(param, rule, account);
    caps.insert(k, c);
    assert forall|j: int| 0 <= j < before.len() implies (#[trigger] caps@[j]).deployed_at()
        == before[j].deployed_at() && caps@[j].wf() by {
        if j != k {
            assert(caps@[j] == before[j]);
        }
    }
    proof {
        lemma_same_addresses(before, caps@);
    }
}

/// Uninstalls the rule of the account from the capability at position `k`,
/// as `uninstall` does; the others are left as they are.
pub fn uninstall_in(
    caps: &mut Vec<ThresholdPolicyContract>,
    k: usize,
    rule: &ContextRule,
    account: Address,
) -> (r: Result<(), SmartAccountError>)
    requires
        registry_wf(old(caps)@),
        k < old(caps)@.len(),
    ensures
        registry_wf(final(caps)@),
        final(caps)@.len() == old(caps)@.len(),
        forall|j: int| 0 <= j < old(caps)@.len() && j != k ==> final(caps)@[j] == old(caps)@[j],
        final(caps)@[k as int].deployed_at() == old(caps)@[k as int].deployed_at(),
        final(caps)@[k as int].log() == old(caps)@[k as int].log(),
        old(caps)@[k as int].thresholds().contains_key((rule.id, account)) ==> r is Ok
            && final(caps)@[k as int].thresholds() == old(caps)@[k as int].thresholds().remove(
            (rule.id, account),
        ),
        !old(caps)@[k as int].thresholds().contains_key((rule.id, account)) ==> r == Err::<
            (),
            SmartAccountError,
        >(SmartAccountError::NotInstalled) && final(caps)@ == old(caps)@,
{
    let ghost before = caps@;
    let mut c = caps.remove(k);
    let ghost c0 = c;
    let r = c.uninstall(rule, account);
    if r.is_err() {
        assert(c == c0);
    }
    caps.insert(k, c);
    assert forall|j: int| 0 <= j < before.len() implies (#[trigger] caps@[j]).deployed_at()
        == before[j].deployed_at() && caps@[j].wf() by {
        if j != k {
            assert(caps@[j] == before[j]);
        }
    }
    proof {
        lemma_same_addresses(before, caps@);
        if r.is_err() {
            assert(caps@ =~= before);
        }
    }
    r
}

/// Has the capability at position `k` confirm an admitted action; the
/// others are left as they are.
pub fn enforce_in(
    caps: &mut Vec<ThresholdPolicyContract>,
    k: usize,
    context: AuthContext,
    authenticated_signers: &Vec<Signer>,
    rule: &ContextRule,
    account: Address,
)
    requires
        registry_wf(old(caps)@),
        k < old(caps)@.len(),
    ensures
        registry_wf(final(caps)@),
        final(caps)@.len() == old(caps)@.len(),
        forall|j: int| 0 <= j < old(caps)@.len() && j != k ==> final(caps)@[j] == old(caps)@[j],
        final(caps)@[k as int].deployed_at() == old(caps)@[k as int].deployed_at(),
        final(caps)@[k as int].thresholds() == old(caps)@[k as int].thresholds(),
        final(caps)@[k as int].log() == old(caps)@[k as int].log().push(
            EnforceRecord { rule_id: rule.id, account },
        ),
{
    let ghost before = caps@;
    let mut c = caps.remove(k);
    c.enforce(context, authenticated_signers, rule, account);
    caps.insert(k, c);
    assert forall|j: int| 0 <= j < before.len() implies (#[trigger] caps@[j]).deployed_at()
        == before[j].deployed_at() && caps@[j].wf() by {
        if j != k {
            assert(caps@[j] == before[j]);
        }
    }
    proof {
        lemma_same_addresses(before, caps@);
    }
}

} // verus!
