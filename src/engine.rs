//! The authorization engine: for each proposed action, select the matching
//! rule, collect the authenticated signers, and apply unanimity or the
//! rule's policy; a batch is admitted only if every action is.
use vstd::prelude::*;
use crate::types::{
    Address, AuthContext, ContextRuleType, PolicyEntry, RuleView, Signer, SignerView, SmartAccountError,
    is_active, is_specific, rule_is_active, rule_type_matches, signer_views, type_matches,
};
use crate::policy::{EnforceRecord, ThresholdPolicyContract, threshold_admits};
use crate::store::BasicAccountContract;
use crate::registry::{cap_index, enforce_in, find_capability, is_registered, registry_wf};

verus! {

/// One submitted signature and whether it checked out: for a delegated
/// signer, the verdict of its verifier capability on the payload; for a
/// native signer, the host's authorization of that address.
pub struct SignatureOutcome {
    pub signer: Signer,
    pub valid: bool,
}

/// The verifier capability for Ed25519 keys, deployed at an address. The
/// cryptographic check itself runs in the host; what the engine needs of it
/// is its verdict on each submitted signature.
pub struct Ed25519VerifierContract {
    pub address: Address,
}

impl Ed25519VerifierContract {
    /// The outcome of a submitted signature given this verifier's verdict on
    /// it: valid only if the verdict holds and the signer is a key delegated
    /// to this verifier.
    pub fn outcome(&self, signer: Signer, verdict: bool) -> (r: SignatureOutcome)
        ensures
            r.signer@ == signer@,
            r.valid == (verdict && match signer@ {
                SignerView::Delegated(v, _) => v == self.address,
                SignerView::Native(_) => false,
            }),
    {
        let bound = match &signer {
            Signer::Delegated(v, _) => *v == self.address,
            Signer::Native(_) => false,
        };
        SignatureOutcome { signer, valid: verdict && bound }
    }
}

/// The values of the submitted signatures.
pub open spec fn outcome_views(s: Seq<SignatureOutcome>) -> Seq<(SignerView, bool)> {
    s.map_values(|o: SignatureOutcome| (o.signer@, o.valid))
}

/// Whether a valid signature of `x` was submitted.
pub open spec fn is_authenticated(sigs: Seq<(SignerView, bool)>, x: SignerView) -> bool {
    exists|i: int| 0 <= i < sigs.len() && #[trigger] sigs[i] == (x, true)
}

/// The signers of a rule that authenticated, in the rule's order.
pub open spec fn authenticated_of(signers: Seq<SignerView>, sigs: Seq<(SignerView, bool)>) -> Seq<
    SignerView,
>
    decreases signers.len(),
{
    if signers.len() == 0 {
        Seq::empty()
    } else {
        let rest = authenticated_of(signers.drop_last(), sigs);
        if is_authenticated(sigs, signers.last()) {
            rest.push(signers.last())
        } else {
            rest
        }
    }
}

/// Whether every signer of a rule authenticated.
pub open spec fn unanimous(signers: Seq<SignerView>, sigs: Seq<(SignerView, bool)>) -> bool {
    forall|i: int| 0 <= i < signers.len() ==> is_authenticated(sigs, #[trigger] signers[i])
}

/// Whether a rule may govern the action: active at `now`, of a type that
/// matches it, and specific or default as asked.
pub open spec fn candidate(r: RuleView, ctx: AuthContext, now: u32, specific: bool) -> bool {
    is_active(r, now) && type_matches(r.context_type, ctx) && is_specific(r.context_type) == specific
}

/// The first candidate at or after position `start`.
pub open spec fn first_candidate(
    rules: Seq<RuleView>,
    ctx: AuthContext,
    now: u32,
    specific: bool,
    start: int,
) -> Option<int>
    decreases rules.len() - start,
{
    if start < 0 || start >= rules.len() {
        None
    } else if candidate(rules[start], ctx, now, specific) {
        Some(start)
    } else {
        first_candidate(rules, ctx, now, specific, start + 1)
    }
}

/// The position of the rule that governs the action: the oldest active
/// specific rule that matches it, else the active default rule.
pub open spec fn selected(rules: Seq<RuleView>, ctx: AuthContext, now: u32) -> Option<int> {
    match first_candidate(rules, ctx, now, true, 0) {
        Some(i) => Some(i),
        None => first_candidate(rules, ctx, now, false, 0),
    }
}

/// Whether the capability deployed at `a` is in the registry and its
/// threshold for the rule of the account admits `n` authenticated signers.
pub open spec fn policy_admits(
    caps: Seq<ThresholdPolicyContract>,
    a: Address,
    rule_id: u32,
    account: Address,
    n: nat,
) -> bool {
    is_registered(caps, a) && threshold_admits(caps[cap_index(caps, a)].stored(rule_id, account), n)
}

/// The first of the rule's policies, in install order from `start` on, that
/// admits `n` authenticated signers.
pub open spec fn first_admitting(
    policies: Seq<PolicyEntry>,
    caps: Seq<ThresholdPolicyContract>,
    rule_id: u32,
    account: Address,
    n: nat,
    start: int,
) -> Option<int>
    decreases policies.len() - start,
{
    if start < 0 || start >= policies.len() {
        None
    } else if policy_admits(caps, policies[start].policy, rule_id, account, n) {
        Some(start)
    } else {
        first_admitting(policies, caps, rule_id, account, n, start + 1)
    }
}

/// The decision on one action: an error, or success with, where a policy
/// admitted it, the registry position of that policy's capability and the
/// confirmation it records.
pub open spec fn action_outcome(
    rules: Seq<RuleView>,
    account: Address,
    caps: Seq<ThresholdPolicyContract>,
    sigs: Seq<(SignerView, bool)>,
    ctx: AuthContext,
    now: u32,
) -> Result<Option<(int, EnforceRecord)>, SmartAccountError> {
    match selected(rules, ctx, now) {
        None => Err(SmartAccountError::NoMatchingRule),
        Some(i) => {
            let r = rules[i];
            if r.policies.len() == 0 {
                if unanimous(r.signers, sigs) {
                    Ok(None)
                } else {
                    Err(SmartAccountError::Unauthorized)
                }
            } else {
                match first_admitting(
                    r.policies,
                    caps,
                    r.id,
                    account,
                    authenticated_of(r.signers, sigs).len(),
                    0,
                ) {
                    Some(j) => Ok(
                        Some(
                            (
                                cap_index(caps, r.policies[j].policy),
                                EnforceRecord { rule_id: r.id, account },
                            ),
                        ),
                    ),
                    None => Err(SmartAccountError::PolicyDenied),
                }
            }
        },
    }
}

/// The decision on a batch: the error of the first action that fails, or
/// success with the confirmations of all actions, in order, each with the
/// registry position of the capability that records it.
pub open spec fn batch_outcome(
    rules: Seq<RuleView>,
    account: Address,
    caps: Seq<ThresholdPolicyContract>,
    sigs: Seq<(SignerView, bool)>,
    ctxs: Seq<AuthContext>,
    now: u32,
) -> Result<Seq<(int, EnforceRecord)>, SmartAccountError>
    decreases ctxs.len(),
{
    if ctxs.len() == 0 {
        Ok(Seq::empty())
    } else {
        match batch_outcome(rules, account, caps, sigs, ctxs.drop_last(), now) {
            Err(e) => Err(e),
            Ok(recs) => match action_outcome(rules, account, caps, sigs, ctxs.last(), now) {
                Err(e) => Err(e),
                Ok(None) => Ok(recs),
                Ok(Some(rec)) => Ok(recs.push(rec)),
            },
        }
    }
}

/// The confirmations, in order, that go to the capability at position `c`.
pub open spec fn records_for(recs: Seq<(int, EnforceRecord)>, c: int) -> Seq<EnforceRecord>
    decreases recs.len(),
{
    if recs.len() == 0 {
        Seq::empty()
    } else {
        let rest = records_for(recs.drop_last(), c);
        if recs.last().0 == c {
            rest.push(recs.last().1)
        } else {
            rest
        }
    }
}

proof fn lemma_batch_error_stays(
    rules: Seq<RuleView>,
    account: Address,
    caps: Seq<ThresholdPolicyContract>,
    sigs: Seq<(SignerView, bool)>,
    ctxs: Seq<AuthContext>,
    now: u32,
    k: int,
)
    requires
        0 <= k <= ctxs.len(),
        batch_outcome(rules, account, caps, sigs, ctxs.take(k), now) is Err,
    ensures
        batch_outcome(rules, account, caps, sigs, ctxs, now) == batch_outcome(
            rules,
            account,
            caps,
            sigs,
            ctxs.take(k),
            now,
        ),
    decreases ctxs.len() - k,
{
    if k < ctxs.len() {
        assert(ctxs.take(k + 1).drop_last() =~= ctxs.take(k));
        lemma_batch_error_stays(rules, account, caps, sigs, ctxs, now, k + 1);
    } else {
        assert(ctxs.take(k) =~= ctxs);
    }
}

fn is_signed(sigs: &Vec<SignatureOutcome>, x: &Signer) -> (r: bool)
    ensures
        r == is_authenticated(outcome_views(sigs@), x@),
{
    let ghost v = outcome_views(sigs@);
    let mut i: usize = 0;
    while i < sigs.len()
        invariant
            v == outcome_views(sigs@),
            i <= sigs@.len(),
            forall|j: int| 0 <= j < i ==> v[j] != (x@, true),
        decreases sigs@.len() - i,
    {
        if sigs[i].valid && sigs[i].signer.same_as(x) {
            assert(v[i as int] == (x@, true));
            return true;
        }
        i = i + 1;
    }
    false
}

/// The signers of the rule whose signatures checked out, in the rule's order.
pub fn authenticated_signers(signers: &Vec<Signer>, signatures: &Vec<SignatureOutcome>) -> (r: Vec<
    Signer,
>)
    ensures
        signer_views(r@) == authenticated_of(signer_views(signers@), outcome_views(signatures@)),
{
    let ghost sv = signer_views(signers@);
    let ghost ov = outcome_views(signatures@);
    let mut out: Vec<Signer> = Vec::new();
    let mut i: usize = 0;
    while i < signers.len()
        invariant
            sv == signer_views(signers@),
            ov == outcome_views(signatures@),
            i <= signers@.len(),
            signer_views(out@) == authenticated_of(sv.take(i as int), ov),
        decreases signers@.len() - i,
    {
        assert(sv.take(i + 1).drop_last() =~= sv.take(i as int));
        assert(sv.take(i + 1).last() == signers@[i as int]@);
        let ghost before = signer_views(out@);
        if is_signed(signatures, &signers[i]) {
            out.push(signers[i].duplicate());
            assert(signer_views(out@) =~= before.push(signers@[i as int]@));
        }
        i = i + 1;
    }
    assert(sv.take(signers@.len() as int) =~= sv);
    out
}

fn all_signed(signers: &Vec<Signer>, signatures: &Vec<SignatureOutcome>) -> (r: bool)
    ensures
        r == unanimous(signer_views(signers@), outcome_views(signatures@)),
{
    let ghost sv = signer_views(signers@);
    let mut i: usize = 0;
    while i < signers.len()
        invariant
            sv == signer_views(signers@),
            i <= signers@.len(),
            forall|j: int| 0 <= j < i ==> is_authenticated(outcome_views(signatures@), #[trigger] sv[j]),
        decreases signers@.len() - i,
    {
        if !is_signed(signatures, &signers[i]) {
            assert(!is_authenticated(outcome_views(signatures@), sv[i as int]));
            return false;
        }
        i = i + 1;
    }
    true
}

impl BasicAccountContract {
    fn first_rule(&self, ctx: AuthContext, now: u32, specific: bool) -> (r: Option<usize>)
        ensures
            match r {
                Some(i) => i < self.rules().len() && first_candidate(self.rules(), ctx, now, specific, 0)
                    == Some(i as int),
                None => first_candidate(self.rules(), ctx, now, specific, 0) == None::<int>,
            },
    {
        let ghost rules = self.rules();
        let mut i: usize = 0;
        while i < self.rule_count()
            invariant
                rules == self.rules(),
                i <= rules.len(),
                first_candidate(rules, ctx, now, specific, 0) == first_candidate(
                    rules,
                    ctx,
                    now,
                    specific,
                    i as int,
                ),
            decreases rules.len() - i,
        {
            let r = self.rule_at(i);
            let spec_type = match r.context_type {
                ContextRuleType::Default => false,
                _ => true,
            };
            if rule_is_active(r, now) && rule_type_matches(r.context_type, ctx) && spec_type
                == specific {
                return Some(i);
            }
            i = i + 1;
        }
        None
    }

    fn select_rule(&self, ctx: AuthContext, now: u32) -> (r: Option<usize>)
        ensures
            match r {
                Some(i) => i < self.rules().len() && selected(self.rules(), ctx, now) == Some(i as int),
                None => selected(self.rules(), ctx, now) == None::<int>,
            },
    {
        match self.first_rule(ctx, now, true) {
            Some(i) => Some(i),
            None => self.first_rule(ctx, now, false),
        }
    }

    fn decide(
        &self,
        caps: &Vec<ThresholdPolicyContract>,
        signatures: &Vec<SignatureOutcome>,
        ctx: AuthContext,
        now: u32,
    ) -> (r: Result<Option<(usize, usize)>, SmartAccountError>)
        requires
            self.wf(),
            registry_wf(caps@),
        ensures
            match action_outcome(
                self.rules(),
                self.account(),
                caps@,
                outcome_views(signatures@),
                ctx,
                now,
            ) {
                Err(e) => r == Err::<Option<(usize, usize)>, SmartAccountError>(e),
                Ok(None) => r == Ok::<Option<(usize, usize)>, SmartAccountError>(None),
                Ok(Some(rec)) => {
                    &&& r is Ok
                    &&& r->Ok_0 is Some
                    &&& r->Ok_0->Some_0.0 < self.rules().len()
                    &&& r->Ok_0->Some_0.1 < caps@.len()
                    &&& rec == (
                        r->Ok_0->Some_0.1 as int,
                        EnforceRecord {
                            rule_id: self.rules()[r->Ok_0->Some_0.0 as int].id,
                            account: self.account(),
                        },
                    )
                },
            },
    {
        match self.select_rule(ctx, now) {
            None => Err(SmartAccountError::NoMatchingRule),
            Some(i) => {
                let rule = self.rule_at(i);
                if rule.policies.len() == 0 {
                    if all_signed(&rule.signers, signatures) {
                        Ok(None)
                    } else {
                        Err(SmartAccountError::Unauthorized)
                    }
                } else {
                    let auth = authenticated_signers(&rule.signers, signatures);
                    let acct = self.address();
                    let ghost p = rule.policies@;
                    let ghost n = auth@.len();
                    assert(signer_views(auth@).len() == auth@.len());
                    assert(rule@ == self.rules()[i as int]);
                    let mut j: usize = 0;
                    while j < rule.policies.len()
                        invariant
                            registry_wf(caps@),
                            i < self.rules().len(),
                            rule@ == self.rules()[i as int],
                            acct == self.account(),
                            selected(self.rules(), ctx, now) == Some(i as int),
                            n == authenticated_of(self.rules()[i as int].signers, outcome_views(signatures@)).len(),
                            p == rule.policies@,
                            n == auth@.len(),
                            j <= p.len(),
                            first_admitting(p, caps@, rule.id, acct, n, 0) == first_admitting(
                                p,
                                caps@,
                                rule.id,
                                acct,
                                n,
                                j as int,
                            ),
                        decreases p.len() - j,
                    {
                        match find_capability(caps, rule.policies[j].policy) {
                            Some(ci) => {
                                if caps[ci].can_enforce(ctx, &auth, rule, acct) {
                                    assert(signer_views(auth@).len() == auth@.len());
                                    assert(policy_admits(caps@, p[j as int].policy, rule.id, acct, n));
                                    return Ok(Some((i, ci)));
                                }
                            },
                            None => {},
                        }
                        j = j + 1;
                    }
                    Err(SmartAccountError::PolicyDenied)
                }
            },
        }
    }

    /// Decides whether the batch of actions is admitted by the submitted
    /// signatures at ledger sequence number `now`, with the policy
    /// capabilities in `caps`. For each action, the rule's policies are
    /// consulted in install order; a policy whose capability is not in `caps`
    /// does not admit. On success, the first admitting policy of each action
    /// confirms it, in order; on failure, with the error of the first action
    /// that fails, no capability is touched.
    pub fn check_auth(
        &self,
        caps: &mut Vec<ThresholdPolicyContract>,
        signatures: &Vec<SignatureOutcome>,
        auth_contexts: &Vec<AuthContext>,
        now: u32,
    ) -> (r: Result<(), SmartAccountError>)
        requires
            self.wf(),
            registry_wf(old(caps)@),
        ensures
            match batch_outcome(
                self.rules(),
                self.account(),
                old(caps)@,
                outcome_views(signatures@),
                auth_contexts@,
                now,
            ) {
                Err(e) => r == Err::<(), SmartAccountError>(e) && final(caps)@ == old(caps)@,
                Ok(recs) => {
                    &&& r is Ok
                    &&& registry_wf(final(caps)@)
                    &&& final(caps)@.len() == old(caps)@.len()
                    &&& forall|c: int|
                        0 <= c < old(caps)@.len() ==> {
                            &&& (#[trigger] final(caps)@[c]).deployed_at() == old(caps)@[c].deployed_at()
                            &&& final(caps)@[c].thresholds() == old(caps)@[c].thresholds()
                            &&& final(caps)@[c].log() == old(caps)@[c].log() + records_for(recs, c)
                        }
                },
            },
    {
        let ghost rules = self.rules();
        let ghost acct = self.account();
        let ghost pol = caps@;
        let ghost sv = outcome_views(signatures@);
        let ghost ctxs = auth_contexts@;
        let mut chosen: Vec<(usize, usize)> = Vec::new();
        let mut chosen_ctx: Vec<AuthContext> = Vec::new();
        let mut k: usize = 0;
        assert(ctxs.take(0) =~= Seq::<AuthContext>::empty());
        assert(chosen@.map_values(|t: (usize, usize)| (t.1 as int, EnforceRecord { rule_id: rules[t.0 as int].id, account: acct }))
            =~= Seq::<(int, EnforceRecord)>::empty());
        while k < auth_contexts.len()
            invariant
                self.wf(),
                registry_wf(caps@),
                caps@ == pol,
                rules == self.rules(),
                acct == self.account(),
                sv == outcome_views(signatures@),
                ctxs == auth_contexts@,
                k <= ctxs.len(),
                chosen_ctx@.len() == chosen@.len(),
                forall|j: int| 0 <= j < chosen@.len() ==> (#[trigger] chosen@[j]).0 < rules.len() && chosen@[j].1 < pol.len(),
                batch_outcome(rules, acct, pol, sv, ctxs.take(k as int), now) == Ok::<
                    Seq<(int, EnforceRecord)>,
                    SmartAccountError,
                >(chosen@.map_values(|t: (usize, usize)| (t.1 as int, EnforceRecord { rule_id: rules[t.0 as int].id, account: acct }))),
            decreases ctxs.len() - k,
        {
            assert(ctxs.take(k + 1).drop_last() =~= ctxs.take(k as int));
            assert(ctxs.take(k + 1).last() == ctxs[k as int]);
            let ghost before = chosen@;
            match self.decide(caps, signatures, auth_contexts[k], now) {
                Err(e) => {
                    proof {
                        lemma_batch_error_stays(rules, acct, pol, sv, ctxs, now, k + 1);
                    }
                    return Err(e);
                },
                Ok(None) => {},
                Ok(Some(t)) => {
                    chosen.push(t);
                    chosen_ctx.push(auth_contexts[k]);
                    assert(chosen@.map_values(|t: (usize, usize)| (t.1 as int, EnforceRecord { rule_id: rules[t.0 as int].id, account: acct }))
                        =~= before.map_values(|t: (usize, usize)| (t.1 as int, EnforceRecord { rule_id: rules[t.0 as int].id, account: acct })).push(
                        (t.1 as int, EnforceRecord { rule_id: rules[t.0 as int].id, account: acct })));
                },
            }
            k = k + 1;
        }
        assert(ctxs.take(ctxs.len() as int) =~= ctxs);
        let ghost recs = chosen@.map_values(|t: (usize, usize)| (t.1 as int, EnforceRecord { rule_id: rules[t.0 as int].id, account: acct }));
        let mut m: usize = 0;
        assert forall|c: int| 0 <= c < pol.len() implies (#[trigger] caps@[c]).log() == pol[c].log() + records_for(recs.take(0), c) by {
            assert(recs.take(0) =~= Seq::<(int, EnforceRecord)>::empty());
            assert(pol[c].log() + Seq::<EnforceRecord>::empty() =~= pol[c].log());
        }
        while m < chosen.len()
            invariant
                self.wf(),
                rules == self.rules(),
                acct == self.account(),
                m <= chosen@.len(),
                chosen_ctx@.len() == chosen@.len(),
                forall|j: int| 0 <= j < chosen@.len() ==> (#[trigger] chosen@[j]).0 < rules.len() && chosen@[j].1 < pol.len(),
                recs == chosen@.map_values(|t: (usize, usize)| (t.1 as int, EnforceRecord { rule_id: rules[t.0 as int].id, account: acct })),
                registry_wf(caps@),
                caps@.len() == pol.len(),
                forall|c: int|
                    0 <= c < pol.len() ==> {
                        &&& (#[trigger] caps@[c]).deployed_at() == pol[c].deployed_at()
                        &&& caps@[c].thresholds() == pol[c].thresholds()
                        &&& caps@[c].log() == pol[c].log() + records_for(recs.take(m as int), c)
                    },
            decreases chosen@.len() - m,
        {
            let (i, ci) = chosen[m];
            let rule = self.rule_at(i);
            let auth = authenticated_signers(&rule.signers, signatures);
            let ctx = chosen_ctx[m];
            let ghost prev = caps@;
            enforce_in(caps, ci, ctx, &auth, rule, self.address());
            assert(recs.take(m + 1).drop_last() =~= recs.take(m as int));
            assert(recs.take(m + 1).last() == recs[m as int]);
            assert forall|c: int| 0 <= c < pol.len() implies {
                &&& (#[trigger] caps@[c]).deployed_at() == pol[c].deployed_at()
                &&& caps@[c].thresholds() == pol[c].thresholds()
                &&& caps@[c].log() == pol[c].log() + records_for(recs.take(m + 1), c)
            } by {
                if c == ci {
                    assert(pol[c].log() + records_for(recs.take(m as int), c).push(recs[m as int].1)
                        =~= (pol[c].log() + records_for(recs.take(m as int), c)).push(recs[m as int].1));
                } else {
                    assert(caps@[c] == prev[c]);
                }
            }
            m = m + 1;
        }
        assert(recs.take(chosen@.len() as int) =~= recs);
        Ok(())
    }
}

} // verus!
