//! Properties that relate the engine's decisions, the threshold policy and
//! the rule store, proved over the models that their contracts use.
use vstd::prelude::*;
use crate::types::{Address, AuthContext, RuleView, SignerView, SmartAccountError, is_active};
use crate::policy::{ThresholdPolicyContract, threshold_admits};
use crate::store::{BasicAccountContract, has_id, rule_by_id, index_by_id, valid_until_past};
use crate::engine::{
    action_outcome, authenticated_of, batch_outcome, candidate, first_admitting, first_candidate,
    is_authenticated, policy_admits, selected, unanimous,
};
use crate::registry::cap_index;
use crate::types::PolicyEntry;

verus! {

/// Without a policy, a rule admits an action exactly when every one of its
/// signers authenticated; with one signer missing it fails `Unauthorized`.
pub proof fn unanimity_without_policy(
    rules: Seq<RuleView>,
    account: Address,
    caps: Seq<ThresholdPolicyContract>,
    sigs: Seq<(SignerView, bool)>,
    ctx: AuthContext,
    now: u32,
    i: int,
)
    requires
        selected(rules, ctx, now) == Some(i),
        rules[i].policies.len() == 0,
    ensures
        action_outcome(rules, account, caps, sigs, ctx, now) is Ok <==> unanimous(
            rules[i].signers,
            sigs,
        ),
        (exists|j: int|
            0 <= j < rules[i].signers.len() && !is_authenticated(sigs, #[trigger] rules[i].signers[j]))
            ==> action_outcome(rules, account, caps, sigs, ctx, now) == Err::<
            Option<(int, crate::policy::EnforceRecord)>,
            SmartAccountError,
        >(SmartAccountError::Unauthorized),
{
}

proof fn lemma_first_admitting(
    policies: Seq<PolicyEntry>,
    caps: Seq<ThresholdPolicyContract>,
    rule_id: u32,
    account: Address,
    n: nat,
    start: int,
)
    requires
        0 <= start,
    ensures
        match first_admitting(policies, caps, rule_id, account, n, start) {
            Some(j) => start <= j < policies.len() && policy_admits(
                caps,
                policies[j].policy,
                rule_id,
                account,
                n,
            ) && forall|i: int|
                start <= i < j ==> !policy_admits(
                    caps,
                    (#[trigger] policies[i]).policy,
                    rule_id,
                    account,
                    n,
                ),
            None => forall|i: int|
                start <= i < policies.len() ==> !policy_admits(
                    caps,
                    (#[trigger] policies[i]).policy,
                    rule_id,
                    account,
                    n,
                ),
        },
    decreases policies.len() - start,
{
    if start < policies.len() {
        lemma_first_admitting(policies, caps, rule_id, account, n, start + 1);
    }
}

/// With policies installed, a rule admits an action exactly when one of its
/// policies admits the authenticated signers; the capability that confirms
/// it is that of the first such policy in install order, and every policy
/// before it refused. Otherwise the action fails `PolicyDenied`.
pub proof fn policies_consulted_in_order(
    rules: Seq<RuleView>,
    account: Address,
    caps: Seq<ThresholdPolicyContract>,
    sigs: Seq<(SignerView, bool)>,
    ctx: AuthContext,
    now: u32,
    i: int,
)
    requires
        selected(rules, ctx, now) == Some(i),
        rules[i].policies.len() > 0,
    ensures
        ({
            let r = rules[i];
            let n = authenticated_of(r.signers, sigs).len();
            &&& action_outcome(rules, account, caps, sigs, ctx, now) is Ok <==> exists|j: int|
                0 <= j < r.policies.len() && policy_admits(
                    caps,
                    (#[trigger] r.policies[j]).policy,
                    r.id,
                    account,
                    n,
                )
            &&& action_outcome(rules, account, caps, sigs, ctx, now) is Err ==> action_outcome(
                rules,
                account,
                caps,
                sigs,
                ctx,
                now,
            ) == Err::<Option<(int, crate::policy::EnforceRecord)>, SmartAccountError>(
                SmartAccountError::PolicyDenied,
            )
            &&& action_outcome(rules, account, caps, sigs, ctx, now) is Ok ==> exists|j: int|
                0 <= j < r.policies.len() && policy_admits(
                    caps,
                    (#[trigger] r.policies[j]).policy,
                    r.id,
                    account,
                    n,
                ) && (forall|q: int|
                    0 <= q < j ==> !policy_admits(
                        caps,
                        (#[trigger] r.policies[q]).policy,
                        r.id,
                        account,
                        n,
                    )) && action_outcome(rules, account, caps, sigs, ctx, now) == Ok::<
                    Option<(int, crate::policy::EnforceRecord)>,
                    SmartAccountError,
                >(
                    Some(
                        (
                            cap_index(caps, r.policies[j].policy),
                            crate::policy::EnforceRecord { rule_id: r.id, account },
                        ),
                    ),
                )
        }),
{
    let r = rules[i];
    let n = authenticated_of(r.signers, sigs).len();
    lemma_first_admitting(r.policies, caps, r.id, account, n, 0);
}

/// With a threshold `t` installed for a rule of an account, the policy
/// admits exactly when at least `t` signers authenticated: for `n` below `t`
/// it refuses, for `n` of `t` or more it admits.
pub proof fn threshold_boundary(
    policy: ThresholdPolicyContract,
    rule_id: u32,
    account: Address,
    t: u32,
    n: nat,
)
    requires
        policy.stored(rule_id, account) == Some(t),
    ensures
        threshold_admits(policy.stored(rule_id, account), n) <==> n >= t,
        n + 1 == t ==> !threshold_admits(policy.stored(rule_id, account), n),
        n == t ==> threshold_admits(policy.stored(rule_id, account), n),
{
}

proof fn lemma_first_candidate_is_candidate(
    rules: Seq<RuleView>,
    ctx: AuthContext,
    now: u32,
    specific: bool,
    start: int,
)
    requires
        0 <= start,
    ensures
        match first_candidate(rules, ctx, now, specific, start) {
            Some(i) => start <= i < rules.len() && candidate(rules[i], ctx, now, specific),
            None => forall|j: int|
                start <= j < rules.len() ==> !candidate(#[trigger] rules[j], ctx, now, specific),
        },
    decreases rules.len() - start,
{
    if start < rules.len() {
        lemma_first_candidate_is_candidate(rules, ctx, now, specific, start + 1);
    }
}

/// A rule whose last valid sequence number is past never governs an action,
/// however fully it is signed.
pub proof fn expired_rule_never_selected(
    rules: Seq<RuleView>,
    ctx: AuthContext,
    now: u32,
    i: int,
)
    requires
        0 <= i < rules.len(),
        valid_until_past(rules[i].valid_until, now),
    ensures
        selected(rules, ctx, now) != Some(i),
{
    lemma_first_candidate_is_candidate(rules, ctx, now, true, 0);
    lemma_first_candidate_is_candidate(rules, ctx, now, false, 0);
}

/// Where no active rule matches the action, the default rule included (for
/// instance because each matching rule is past its last valid sequence
/// number), the action fails `NoMatchingRule`.
pub proof fn no_active_rule_no_match(
    rules: Seq<RuleView>,
    account: Address,
    caps: Seq<ThresholdPolicyContract>,
    sigs: Seq<(SignerView, bool)>,
    ctx: AuthContext,
    now: u32,
)
    requires
        forall|j: int|
            0 <= j < rules.len() && crate::types::type_matches(#[trigger] rules[j].context_type, ctx)
                ==> !is_active(rules[j], now),
    ensures
        selected(rules, ctx, now) == None::<int>,
        action_outcome(rules, account, caps, sigs, ctx, now) == Err::<
            Option<(int, crate::policy::EnforceRecord)>,
            SmartAccountError,
        >(SmartAccountError::NoMatchingRule),
{
    lemma_first_candidate_is_candidate(rules, ctx, now, true, 0);
    lemma_first_candidate_is_candidate(rules, ctx, now, false, 0);
}

/// A rule appended by creation is found again under its id, and that id
/// was held by no rule before: ids are fresh and never reused.
pub proof fn created_rule_found_by_id(
    before: BasicAccountContract,
    after: BasicAccountContract,
    v: RuleView,
)
    requires
        before.wf(),
        after.rules() == before.rules().push(v),
        v.id == before.next_id(),
    ensures
        !has_id(before.rules(), v.id),
        rule_by_id(after.rules(), v.id) == Some(v),
{
    let rs = after.rules();
    let n = before.rules().len();
    assert(rs[n as int] == v);
    assert(has_id(rs, v.id));
    let k = index_by_id(rs, v.id);
    if k < n {
        assert(before.rules()[k] == rs[k]);
    }
}

/// One action of a batch that fails makes the whole batch fail.
pub proof fn failing_action_fails_batch(
    rules: Seq<RuleView>,
    account: Address,
    caps: Seq<ThresholdPolicyContract>,
    sigs: Seq<(SignerView, bool)>,
    ctxs: Seq<AuthContext>,
    now: u32,
    k: int,
)
    requires
        0 <= k < ctxs.len(),
        action_outcome(rules, account, caps, sigs, ctxs[k], now) is Err,
    ensures
        batch_outcome(rules, account, caps, sigs, ctxs, now) is Err,
    decreases ctxs.len(),
{
    if k < ctxs.len() - 1 {
        let p = ctxs.drop_last();
        assert(p[k] == ctxs[k]);
        failing_action_fails_batch(rules, account, caps, sigs, p, now, k);
    }
}

} // verus!
