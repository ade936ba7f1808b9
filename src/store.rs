//! The context rule store of one account: creation, lookup, update and
//! removal of rules, their signers and their policies.
use vstd::prelude::*;
use crate::types::{
    Address, ContextRule, ContextRuleType, PolicyEntry, RuleView, Signer, SignerView,
    SmartAccountError, copy_signers, distinct_policies, distinct_signers, signer_views,
};
use crate::policy::ThresholdPolicyContract;
use crate::registry::{cap_index, find_capability, install_in, installed_as, is_registered, registry_wf, uninstall_in};

verus! {

/// A programmable account: its address and its context rules, oldest first.
pub struct BasicAccountContract {
    address: Address,
    rules: Vec<ContextRule>,
    next_id: u32,
}

/// Whether a rule's own invariants hold: a non-empty set of signers and
/// distinct policy addresses.
pub open spec fn rule_wf(r: RuleView) -> bool {
    &&& r.signers.len() > 0
    &&& distinct_signers(r.signers)
    &&& distinct_policies(r.policies)
}

/// Whether some rule of the store has the given id.
pub open spec fn has_id(rules: Seq<RuleView>, id: u32) -> bool {
    exists|i: int| 0 <= i < rules.len() && (#[trigger] rules[i]).id == id
}

/// The position of the rule with the given id, where one has it.
pub open spec fn index_by_id(rules: Seq<RuleView>, id: u32) -> int {
    choose|i: int| 0 <= i < rules.len() && (#[trigger] rules[i]).id == id
}

/// The rule with the given id, if the store holds one.
pub open spec fn rule_by_id(rules: Seq<RuleView>, id: u32) -> Option<RuleView> {
    if has_id(rules, id) {
        Some(rules[index_by_id(rules, id)])
    } else {
        None
    }
}

/// The position of a signer in a sequence that contains it.
pub open spec fn signer_pos(s: Seq<SignerView>, x: SignerView) -> int {
    choose|i: int| 0 <= i < s.len() && s[i] == x
}

/// The position of the policy at an address in a sequence that holds it.
pub open spec fn policy_pos(p: Seq<PolicyEntry>, a: Address) -> int {
    choose|i: int| 0 <= i < p.len() && (#[trigger] p[i]).policy == a
}

/// Whether a policy at the given address is installed in the sequence.
pub open spec fn has_policy(p: Seq<PolicyEntry>, a: Address) -> bool {
    exists|i: int| 0 <= i < p.len() && (#[trigger] p[i]).policy == a
}

/// Whether every entry names the policy at the given address.
pub open spec fn all_at(p: Seq<PolicyEntry>, a: Address) -> bool {
    forall|i: int| 0 <= i < p.len() ==> (#[trigger] p[i]).policy == a
}

fn find_signer(s: &Vec<Signer>, x: &Signer) -> (r: Option<usize>)
    requires
        distinct_signers(signer_views(s@)),
    ensures
        match r {
            Some(i) => i < s@.len() && signer_views(s@).contains(x@) && i == signer_pos(
                signer_views(s@),
                x@,
            ),
            None => !signer_views(s@).contains(x@),
        },
{
    let ghost v = signer_views(s@);
    let mut i: usize = 0;
    while i < s.len()
        invariant
            v == signer_views(s@),
            distinct_signers(v),
            i <= s@.len(),
            forall|j: int| 0 <= j < i ==> v[j] != x@,
        decreases s@.len() - i,
    {
        if s[i].same_as(x) {
            assert(v[i as int] == x@);
            let ghost j = signer_pos(v, x@);
            assert(0 <= j < v.len() && v[j] == x@);
            assert(j == i) by {
                if j > i {
                    assert(v[i as int] != v[j]);
                }
            }
            return Some(i);
        }
        i = i + 1;
    }
    None
}

pub(crate) fn find_policy(p: &Vec<PolicyEntry>, a: Address) -> (r: Option<usize>)
    requires
        distinct_policies(p@),
    ensures
        match r {
            Some(i) => i < p@.len() && has_policy(p@, a) && i == policy_pos(p@, a),
            None => !has_policy(p@, a),
        },
{
    let mut i: usize = 0;
    while i < p.len()
        invariant
            distinct_policies(p@),
            i <= p@.len(),
            forall|j: int| 0 <= j < i ==> (#[trigger] p@[j]).policy != a,
        decreases p@.len() - i,
    {
        if p[i].policy == a {
            assert(has_policy(p@, a));
            let ghost j = policy_pos(p@, a);
            assert(0 <= j < p@.len() && p@[j].policy == a);
            assert(j == i) by {
                if j > i {
                    assert(p@[i as int].policy != p@[j].policy);
                }
            }
            return Some(i);
        }
        i = i + 1;
    }
    None
}

fn entries_all_at(p: &Vec<PolicyEntry>, a: Address) -> (r: bool)
    ensures
        r == all_at(p@, a),
{
    let mut i: usize = 0;
    while i < p.len()
        invariant
            i <= p@.len(),
            forall|j: int| 0 <= j < i ==> (#[trigger] p@[j]).policy == a,
        decreases p@.len() - i,
    {
        if p[i].policy != a {
            return false;
        }
        i = i + 1;
    }
    true
}

/// Whether the store holds a rule of the default type.
pub open spec fn has_default(rules: Seq<RuleView>) -> bool {
    exists|i: int| 0 <= i < rules.len() && (#[trigger] rules[i]).context_type == ContextRuleType::Default
}

/// The rules of the given type, in store order.
pub open spec fn rules_of_type(rules: Seq<RuleView>, t: ContextRuleType) -> Seq<RuleView>
    decreases rules.len(),
{
    if rules.len() == 0 {
        Seq::empty()
    } else {
        let rest = rules_of_type(rules.drop_last(), t);
        if rules.last().context_type == t {
            rest.push(rules.last())
        } else {
            rest
        }
    }
}

/// Whether the rule is past its last valid sequence number at `now`.
pub open spec fn valid_until_past(valid_until: Option<u32>, now: u32) -> bool {
    match valid_until {
        Some(v) => v < now,
        None => false,
    }
}

/// The values of a sequence of rules.
pub open spec fn rule_views(s: Seq<ContextRule>) -> Seq<RuleView> {
    s.map_values(|r: ContextRule| r@)
}

/// The error that creating a rule with these parts fails with, checked in
/// this order, or none where the rule can be created.
pub open spec fn create_error(
    rules: Seq<RuleView>,
    context_type: ContextRuleType,
    valid_until: Option<u32>,
    signers: Seq<SignerView>,
    policies: Seq<PolicyEntry>,
    caps: Seq<ThresholdPolicyContract>,
    now: u32,
) -> Option<SmartAccountError> {
    if signers.len() == 0 {
        Some(SmartAccountError::NoSigners)
    } else if !distinct_signers(signers) {
        Some(SmartAccountError::DuplicateSigner)
    } else if !distinct_policies(policies) {
        Some(SmartAccountError::DuplicatePolicy)
    } else if context_type == ContextRuleType::Default && has_default(rules) {
        Some(SmartAccountError::DuplicateDefault)
    } else if valid_until_past(valid_until, now) {
        Some(SmartAccountError::ExpiredRule)
    } else if exists|i: int| 0 <= i < policies.len() && !is_registered(caps, (#[trigger] policies[i]).policy) {
        Some(SmartAccountError::NotFound)
    } else {
        None
    }
}

/// Whether `after` is `before` with each policy installed, with its
/// parameter, for the rule of the account on the capability at its address,
/// and every other capability left as it was.
pub open spec fn installed_all(
    before: Seq<ThresholdPolicyContract>,
    after: Seq<ThresholdPolicyContract>,
    policies: Seq<PolicyEntry>,
    rule_id: u32,
    account: Address,
) -> bool {
    &&& after.len() == before.len()
    &&& forall|c: int| 0 <= c < before.len() ==> {
        let a = before[c].deployed_at();
        &&& has_policy(policies, a) ==> installed_as(
            before[c],
            #[trigger] after[c],
            rule_id,
            account,
            policies[policy_pos(policies, a)].param,
        )
        &&& !has_policy(policies, a) ==> after[c] == before[c]
    }
}

proof fn lemma_has_policy_take(p: Seq<PolicyEntry>, j: int, a: Address)
    requires
        0 <= j < p.len(),
    ensures
        has_policy(p.take(j + 1), a) == (has_policy(p.take(j), a) || p[j].policy == a),
{
    if has_policy(p.take(j + 1), a) {
        let e = choose|e: int| 0 <= e < p.take(j + 1).len() && (#[trigger] p.take(j + 1)[e]).policy == a;
        if e < j {
            assert(p.take(j)[e].policy == a);
        }
    }
    if has_policy(p.take(j), a) {
        let e = choose|e: int| 0 <= e < p.take(j).len() && (#[trigger] p.take(j)[e]).policy == a;
        assert(p.take(j + 1)[e].policy == a);
    }
    if p[j].policy == a {
        assert(p.take(j + 1)[j].policy == a);
    }
}

fn signers_distinct(s: &Vec<Signer>) -> (r: bool)
    ensures
        r == distinct_signers(signer_views(s@)),
{
    let ghost v = signer_views(s@);
    let mut i: usize = 0;
    while i < s.len()
        invariant
            v == signer_views(s@),
            i <= s@.len(),
            forall|x: int, y: int| 0 <= x < y < s@.len() && x < i ==> #[trigger] v[x] != #[trigger] v[y],
        decreases s@.len() - i,
    {
        let mut j: usize = i + 1;
        while j < s.len()
            invariant
                v == signer_views(s@),
                i < s@.len(),
                i + 1 <= j <= s@.len(),
                forall|x: int, y: int| 0 <= x < y < s@.len() && x < i ==> #[trigger] v[x] != #[trigger] v[y],
                forall|y: int| i < y < j ==> v[i as int] != #[trigger] v[y],
            decreases s@.len() - j,
        {
            if s[i].same_as(&s[j]) {
                assert(v[i as int] == v[j as int]);
                return false;
            }
            j = j + 1;
        }
        i = i + 1;
    }
    true
}

fn policies_distinct(p: &Vec<PolicyEntry>) -> (r: bool)
    ensures
        r == distinct_policies(p@),
{
    let mut i: usize = 0;
    while i < p.len()
        invariant
            i <= p@.len(),
            forall|x: int, y: int| 0 <= x < y < p@.len() && x < i ==> (#[trigger] p@[x]).policy != (#[trigger] p@[y]).policy,
        decreases p@.len() - i,
    {
        let mut j: usize = i + 1;
        while j < p.len()
            invariant
                i < p@.len(),
                i + 1 <= j <= p@.len(),
                forall|x: int, y: int| 0 <= x < y < p@.len() && x < i ==> (#[trigger] p@[x]).policy != (#[trigger] p@[y]).policy,
                forall|y: int| i < y < j ==> p@[i as int].policy != (#[trigger] p@[y]).policy,
            decreases p@.len() - j,
        {
            if p[i].policy == p[j].policy {
                assert(p@[i as int].policy == p@[j as int].policy);
                return false;
            }
            j = j + 1;
        }
        i = i + 1;
    }
    true
}

fn all_registered(p: &Vec<PolicyEntry>, caps: &Vec<ThresholdPolicyContract>) -> (r: bool)
    requires
        registry_wf(caps@),
    ensures
        r == forall|i: int| 0 <= i < p@.len() ==> is_registered(caps@, (#[trigger] p@[i]).policy),
{
    let mut i: usize = 0;
    while i < p.len()
        invariant
            registry_wf(caps@),
            i <= p@.len(),
            forall|k: int| 0 <= k < i ==> is_registered(caps@, (#[trigger] p@[k]).policy),
        decreases p@.len() - i,
    {
        if find_capability(caps, p[i].policy).is_none() {
            return false;
        }
        i = i + 1;
    }
    true
}

impl BasicAccountContract {
    /// The account's rules, oldest first.
    pub closed spec fn rules(&self) -> Seq<RuleView> {
        rule_views(self.rules@)
    }

    /// The account's own address.
    pub closed spec fn account(&self) -> Address {
        self.address
    }

    /// The id that the next created rule receives.
    pub closed spec fn next_id(&self) -> u32 {
        self.next_id
    }

    /// Well-formedness: ids strictly increase in store order and stay below
    /// the next id, at most one rule is of the default type, and each rule's
    /// own invariants hold.
    pub open spec fn wf(&self) -> bool {
        &&& forall|i: int, j: int|
            0 <= i < j < self.rules().len() ==> (#[trigger] self.rules()[i]).id
                < (#[trigger] self.rules()[j]).id
        &&& forall|i: int| 0 <= i < self.rules().len() ==> (#[trigger] self.rules()[i]).id < self.next_id()
        &&& forall|i: int, j: int|
            0 <= i < self.rules().len() && 0 <= j < self.rules().len()
                && (#[trigger] self.rules()[i]).context_type == ContextRuleType::Default
                && (#[trigger] self.rules()[j]).context_type == ContextRuleType::Default ==> i == j
        &&& forall|i: int| 0 <= i < self.rules().len() ==> rule_wf(#[trigger] self.rules()[i])
    }

    /// The account's own address.
    pub fn address(&self) -> (r: Address)
        ensures
            r == self.account(),
    {
        self.address
    }

    /// The id that the next created rule receives.
    pub fn next_rule_id(&self) -> (r: u32)
        ensures
            r == self.next_id(),
    {
        self.next_id
    }

    /// The number of rules held.
    pub fn rule_count(&self) -> (r: usize)
        ensures
            r == self.rules().len(),
    {
        self.rules.len()
    }

    /// The rule at position `i` in store order.
    pub fn rule_at(&self, i: usize) -> (r: &ContextRule)
        requires
            i < self.rules().len(),
        ensures
            r@ == self.rules()[i as int],
    {
        &self.rules[i]
    }

    /// An account at `address` whose only rule is the default rule, named
    /// "default", with no expiry, the given signers and the given policies,
    /// each installed on its capability in `caps`. The account is set up as
    /// `add_context_rule` creates a rule, and fails as it does.
    pub fn new(
        address: Address,
        signers: Vec<Signer>,
        policies: Vec<PolicyEntry>,
        caps: &mut Vec<ThresholdPolicyContract>,
    ) -> (r: Result<BasicAccountContract, SmartAccountError>)
        requires
            registry_wf(old(caps)@),
        ensures
            match create_error(
                Seq::empty(),
                ContextRuleType::Default,
                None,
                signer_views(signers@),
                policies@,
                old(caps)@,
                0,
            ) {
                Some(e) => r == Err::<BasicAccountContract, SmartAccountError>(e) && final(caps)@
                    == old(caps)@,
                None => {
                    &&& r is Ok
                    &&& r->Ok_0.wf()
                    &&& r->Ok_0.account() == address
                    &&& r->Ok_0.rules() == seq![
                        RuleView {
                            id: 0,
                            context_type: ContextRuleType::Default,
                            name: "default"@,
                            valid_until: None,
                            signers: signer_views(signers@),
                            policies: policies@,
                        },
                    ]
                    &&& r->Ok_0.next_id() == 1
                    &&& installed_all(old(caps)@, final(caps)@, policies@, 0, address)
                },
            },
    {
        let mut acct = BasicAccountContract { address, rules: Vec::new(), next_id: 0 };
        assert(acct.rules() =~= Seq::<RuleView>::empty());
        let name = String::from_str("default");
        proof {
            reveal_strlit("default");
        }
        match acct.add_context_rule(ContextRuleType::Default, name, None, signers, policies, caps, 0) {
            Ok(_) => {
                assert(acct.rules() =~= seq![acct.rules()[0]]);
                Ok(acct)
            },
            Err(e) => Err(e),
        }
    }

    fn index_of(&self, id: u32) -> (r: Option<usize>)
        requires
            self.wf(),
        ensures
            match r {
                Some(i) => i < self.rules().len() && self.rules()[i as int].id == id
                    && has_id(self.rules(), id) && i == index_by_id(self.rules(), id)
                    && rule_by_id(self.rules(), id) == Some(self.rules()[i as int]),
                None => !has_id(self.rules(), id) && rule_by_id(self.rules(), id) == None::<RuleView>,
            },
    {
        let mut i: usize = 0;
        while i < self.rules.len()
            invariant
                self.wf(),
                i <= self.rules().len(),
                forall|j: int| 0 <= j < i ==> (#[trigger] self.rules()[j]).id != id,
            decreases self.rules().len() - i,
        {
            assert(self.rules()[i as int] == self.rules[i as int]@);
            if self.rules[i].id == id {
                let ghost rs = self.rules();
                assert(has_id(rs, id));
                let ghost j = index_by_id(rs, id);
                assert(j == i) by {
                    if j < i {
                    } else if j > i {
                        assert(rs[i as int].id < rs[j].id);
                    }
                }
                return Some(i);
            }
            i = i + 1;
        }
        None
    }

    /// The rule with the given id; `NotFound` where none has it.
    pub fn get_context_rule(&self, context_rule_id: u32) -> (r: Result<ContextRule, SmartAccountError>)
        requires
            self.wf(),
        ensures
            match rule_by_id(self.rules(), context_rule_id) {
                Some(v) => r is Ok && r->Ok_0@ == v,
                None => r == Err::<ContextRule, SmartAccountError>(SmartAccountError::NotFound),
            },
    {
        match self.index_of(context_rule_id) {
            Some(i) => Ok(self.rules[i].duplicate()),
            None => Err(SmartAccountError::NotFound),
        }
    }

    /// The rules of the given type, in store order.
    pub fn get_context_rules(&self, context_rule_type: ContextRuleType) -> (r: Vec<ContextRule>)
        ensures
            rule_views(r@) == rules_of_type(self.rules(), context_rule_type),
    {
        let mut out: Vec<ContextRule> = Vec::new();
        let mut i: usize = 0;
        while i < self.rules.len()
            invariant
                i <= self.rules().len(),
                rule_views(out@) == rules_of_type(self.rules().take(i as int), context_rule_type),
            decreases self.rules().len() - i,
        {
            let ghost before = out@;
            assert(self.rules().take(i + 1).drop_last() =~= self.rules().take(i as int));
            assert(self.rules()[i as int] == self.rules[i as int]@);
            if self.rules[i].context_type == context_rule_type {
                out.push(self.rules[i].duplicate());
                assert(rule_views(out@) =~= rule_views(before).push(self.rules()[i as int]));
            }
            i = i + 1;
        }
        assert(self.rules().take(self.rules().len() as int) =~= self.rules());
        out
    }
    fn replace_rule(&mut self, i: usize, rule: ContextRule)
        requires
            old(self).wf(),
            i < old(self).rules().len(),
            rule.id == old(self).rules()[i as int].id,
            rule.context_type == old(self).rules()[i as int].context_type,
            rule_wf(rule@),
        ensures
            final(self).wf(),
            final(self).rules() == old(self).rules().update(i as int, rule@),
            final(self).account() == old(self).account(),
            final(self).next_id() == old(self).next_id(),
    {
        let ghost before = self.rules();
        let ghost rv = rule@;
        self.rules.set(i, rule);
        assert(self.rules() =~= before.update(i as int, rv));
    }

    /// Renames the rule with the given id and returns it; `NotFound`, with
    /// nothing changed, where no rule has that id.
    pub fn update_context_rule_name(&mut self, context_rule_id: u32, name: String) -> (r: Result<
        ContextRule,
        SmartAccountError,
    >)
        requires
            old(self).wf(),
        ensures
            final(self).wf(),
            final(self).account() == old(self).account(),
            final(self).next_id() == old(self).next_id(),
            !has_id(old(self).rules(), context_rule_id) ==> r == Err::<ContextRule, SmartAccountError>(
                SmartAccountError::NotFound,
            ) && final(self).rules() == old(self).rules(),
            has_id(old(self).rules(), context_rule_id) ==> {
                let k = index_by_id(old(self).rules(), context_rule_id);
                let v = RuleView { name: name@, ..old(self).rules()[k] };
                &&& r is Ok
                &&& r->Ok_0@ == v
                &&& final(self).rules() == old(self).rules().update(k, v)
            },
    {
        match self.index_of(context_rule_id) {
            None => Err(SmartAccountError::NotFound),
            Some(i) => {
                let old_rule = self.rules[i].duplicate();
                let rule = ContextRule { name, ..old_rule };
                let out = rule.duplicate();
                self.replace_rule(i, rule);
                Ok(out)
            },
        }
    }

    /// Sets the last valid sequence number of the rule with the given id and
    /// returns it. Fails, with nothing changed, `NotFound` where no rule has
    /// that id and `ExpiredRule` where the new bound is already past at `now`.
    pub fn update_context_rule_valid_until(
        &mut self,
        context_rule_id: u32,
        valid_until: Option<u32>,
        now: u32,
    ) -> (r: Result<ContextRule, SmartAccountError>)
        requires
            old(self).wf(),
        ensures
            final(self).wf(),
            final(self).account() == old(self).account(),
            final(self).next_id() == old(self).next_id(),
            !has_id(old(self).rules(), context_rule_id) ==> r == Err::<ContextRule, SmartAccountError>(
                SmartAccountError::NotFound,
            ) && final(self).rules() == old(self).rules(),
            has_id(old(self).rules(), context_rule_id) && valid_until_past(valid_until, now) ==> r
                == Err::<ContextRule, SmartAccountError>(SmartAccountError::ExpiredRule)
                && final(self).rules() == old(self).rules(),
            has_id(old(self).rules(), context_rule_id) && !valid_until_past(valid_until, now) ==> {
                let k = index_by_id(old(self).rules(), context_rule_id);
                let v = RuleView { valid_until, ..old(self).rules()[k] };
                &&& r is Ok
                &&& r->Ok_0@ == v
                &&& final(self).rules() == old(self).rules().update(k, v)
            },
    {
        match self.index_of(context_rule_id) {
            None => Err(SmartAccountError::NotFound),
            Some(i) => {
                let past = match valid_until {
                    Some(v) => v < now,
                    None => false,
                };
                if past {
                    return Err(SmartAccountError::ExpiredRule);
                }
                let old_rule = self.rules[i].duplicate();
                let rule = ContextRule { valid_until, ..old_rule };
                let out = rule.duplicate();
                self.replace_rule(i, rule);
                Ok(out)
            },
        }
    }

    /// Removes the rule with the given id; `NotFound`, with nothing changed,
    /// where no rule has that id. Ids of removed rules are never given out
    /// again.
    pub fn remove_context_rule(&mut self, context_rule_id: u32) -> (r: Result<(), SmartAccountError>)
        requires
            old(self).wf(),
        ensures
            final(self).wf(),
            final(self).account() == old(self).account(),
            final(self).next_id() == old(self).next_id(),
            !has_id(old(self).rules(), context_rule_id) ==> r == Err::<(), SmartAccountError>(
                SmartAccountError::NotFound,
            ) && final(self).rules() == old(self).rules(),
            has_id(old(self).rules(), context_rule_id) ==> r is Ok && final(self).rules()
                == old(self).rules().remove(index_by_id(old(self).rules(), context_rule_id)),
    {
        match self.index_of(context_rule_id) {
            None => Err(SmartAccountError::NotFound),
            Some(i) => {
                let ghost before = self.rules();
                self.rules.remove(i);
                assert(self.rules() =~= before.remove(i as int));
                assert forall|a: int, b: int|
                    0 <= a < b < self.rules().len() implies (#[trigger] self.rules()[a]).id
                    < (#[trigger] self.rules()[b]).id by {
                    let a2 = if a < i { a } else { a + 1 };
                    let b2 = if b < i { b } else { b + 1 };
                    assert(before[a2].id < before[b2].id);
                }
                assert forall|a: int, b: int|
                    0 <= a < self.rules().len() && 0 <= b < self.rules().len()
                    && (#[trigger] self.rules()[a]).context_type == ContextRuleType::Default
                    && (#[trigger] self.rules()[b]).context_type == ContextRuleType::Default
                    implies a == b by {
                    let a2 = if a < i { a } else { a + 1 };
                    let b2 = if b < i { b } else { b + 1 };
                    assert(before[a2].context_type == ContextRuleType::Default);
                    assert(before[b2].context_type == ContextRuleType::Default);
                }
                Ok(())
            },
        }
    }
    /// Adds a signer to the rule with the given id; a signer already present
    /// leaves the rule as it is. `NotFound`, with nothing changed, where no
    /// rule has that id.
    pub fn add_signer(&mut self, context_rule_id: u32, signer: Signer) -> (r: Result<
        (),
        SmartAccountError,
    >)
        requires
            old(self).wf(),
        ensures
            final(self).wf(),
            final(self).account() == old(self).account(),
            final(self).next_id() == old(self).next_id(),
            !has_id(old(self).rules(), context_rule_id) ==> r == Err::<(), SmartAccountError>(
                SmartAccountError::NotFound,
            ) && final(self).rules() == old(self).rules(),
            has_id(old(self).rules(), context_rule_id) ==> {
                let k = index_by_id(old(self).rules(), context_rule_id);
                let old_rule = old(self).rules()[k];
                &&& r is Ok
                &&& old_rule.signers.contains(signer@) ==> final(self).rules() == old(self).rules()
                &&& !old_rule.signers.contains(signer@) ==> final(self).rules() == old(
                    self,
                ).rules().update(k, RuleView { signers: old_rule.signers.push(signer@), ..old_rule })
            },
    {
        match self.index_of(context_rule_id) {
            None => Err(SmartAccountError::NotFound),
            Some(i) => {
                assert(self.rules()[i as int] == self.rules[i as int]@);
                match find_signer(&self.rules[i].signers, &signer) {
                    Some(_) => Ok(()),
                    None => {
                        let old_rule = self.rules[i].duplicate();
                        let mut signers = copy_signers(&old_rule.signers);
                        let ghost sv = signer_views(signers@);
                        signers.push(signer);
                        assert(signer_views(signers@) =~= sv.push(signer@));
                        let rule = ContextRule { signers, ..old_rule };
                        assert(rule_wf(rule@)) by {
                            let s2 = rule@.signers;
                            assert forall|a: int, b: int| 0 <= a < b < s2.len() implies #[trigger] s2[a]
                                != #[trigger] s2[b] by {
                                if b == s2.len() - 1 {
                                    assert(sv[a] == s2[a]);
                                }
                            }
                        }
                        self.replace_rule(i, rule);
                        Ok(())
                    },
                }
            },
        }
    }

    /// Removes a signer from the rule with the given id. Fails, with nothing
    /// changed, `NotFound` where no rule has that id, `SignerNotFound` where
    /// the rule lacks the signer, and `LastSignerRemoval` where it is the
    /// rule's only signer.
    pub fn remove_signer(&mut self, context_rule_id: u32, signer: Signer) -> (r: Result<
        (),
        SmartAccountError,
    >)
        requires
            old(self).wf(),
        ensures
            final(self).wf(),
            final(self).account() == old(self).account(),
            final(self).next_id() == old(self).next_id(),
            r is Err ==> final(self).rules() == old(self).rules(),
            !has_id(old(self).rules(), context_rule_id) ==> r == Err::<(), SmartAccountError>(
                SmartAccountError::NotFound,
            ),
            has_id(old(self).rules(), context_rule_id) ==> {
                let k = index_by_id(old(self).rules(), context_rule_id);
                let old_rule = old(self).rules()[k];
                &&& !old_rule.signers.contains(signer@) ==> r == Err::<(), SmartAccountError>(
                    SmartAccountError::SignerNotFound,
                )
                &&& old_rule.signers.contains(signer@) && old_rule.signers.len() == 1 ==> r
                    == Err::<(), SmartAccountError>(SmartAccountError::LastSignerRemoval)
                &&& old_rule.signers.contains(signer@) && old_rule.signers.len() > 1 ==> r is Ok
                    && final(self).rules() == old(self).rules().update(
                    k,
                    RuleView {
                        signers: old_rule.signers.remove(signer_pos(old_rule.signers, signer@)),
                        ..old_rule
                    },
                )
            },
    {
        match self.index_of(context_rule_id) {
            None => Err(SmartAccountError::NotFound),
            Some(i) => {
                assert(self.rules()[i as int] == self.rules[i as int]@);
                match find_signer(&self.rules[i].signers, &signer) {
                    None => Err(SmartAccountError::SignerNotFound),
                    Some(j) => {
                        if self.rules[i].signers.len() == 1 {
                            return Err(SmartAccountError::LastSignerRemoval);
                        }
                        let old_rule = self.rules[i].duplicate();
                        let mut signers = copy_signers(&old_rule.signers);
                        let ghost sv = signer_views(signers@);
                        signers.remove(j);
                        assert(signer_views(signers@) =~= sv.remove(j as int));
                        let rule = ContextRule { signers, ..old_rule };
                        assert(rule_wf(rule@)) by {
                            let s2 = rule@.signers;
                            assert forall|a: int, b: int| 0 <= a < b < s2.len() implies #[trigger] s2[a]
                                != #[trigger] s2[b] by {
                                let a2 = if a < j { a } else { a + 1 };
                                let b2 = if b < j { b } else { b + 1 };
                                assert(sv[a2] != sv[b2]);
                            }
                        }
                        self.replace_rule(i, rule);
                        Ok(())
                    },
                }
            },
        }
    }

    /// Installs the policy capability at address `policy` on the rule with
    /// the given id: the capability's `install` receives the parameter, then
    /// the rule records the policy. A policy already on the rule leaves both
    /// as they are. Fails `NotFound`, with nothing changed, where no rule has
    /// that id or no capability in `caps` is deployed at `policy`.
    pub fn add_policy(
        &mut self,
        context_rule_id: u32,
        policy: Address,
        install_param: u32,
        caps: &mut Vec<ThresholdPolicyContract>,
    ) -> (r: Result<(), SmartAccountError>)
        requires
            old(self).wf(),
            registry_wf(old(caps)@),
        ensures
            final(self).wf(),
            registry_wf(final(caps)@),
            final(self).account() == old(self).account(),
            final(self).next_id() == old(self).next_id(),
            r is Err ==> final(self).rules() == old(self).rules() && final(caps)@ == old(caps)@,
            !has_id(old(self).rules(), context_rule_id) ==> r == Err::<(), SmartAccountError>(
                SmartAccountError::NotFound,
            ),
            has_id(old(self).rules(), context_rule_id) ==> {
                let k = index_by_id(old(self).rules(), context_rule_id);
                let old_rule = old(self).rules()[k];
                let ci = cap_index(old(caps)@, policy);
                &&& has_policy(old_rule.policies, policy) ==> r is Ok && final(self).rules() == old(
                    self,
                ).rules() && final(caps)@ == old(caps)@
                &&& !has_policy(old_rule.policies, policy) && !is_registered(old(caps)@, policy) ==> r
                    == Err::<(), SmartAccountError>(SmartAccountError::NotFound)
                &&& !has_policy(old_rule.policies, policy) && is_registered(old(caps)@, policy) ==> {
                    &&& r is Ok
                    &&& final(self).rules() == old(self).rules().update(
                        k,
                        RuleView {
                            policies: old_rule.policies.push(
                                PolicyEntry { policy, param: install_param },
                            ),
                            ..old_rule
                        },
                    )
                    &&& final(caps)@.len() == old(caps)@.len()
                    &&& forall|j: int|
                        0 <= j < old(caps)@.len() && j != ci ==> final(caps)@[j] == old(caps)@[j]
                    &&& installed_as(
                        old(caps)@[ci],
                        final(caps)@[ci],
                        context_rule_id,
                        old(self).account(),
                        install_param,
                    )
                }
            },
    {
        match self.index_of(context_rule_id) {
            None => Err(SmartAccountError::NotFound),
            Some(i) => {
                assert(self.rules()[i as int] == self.rules[i as int]@);
                match find_policy(&self.rules[i].policies, policy) {
                    Some(_) => Ok(()),
                    None => match find_capability(caps, policy) {
                        None => Err(SmartAccountError::NotFound),
                        Some(ci) => {
                            install_in(caps, ci, install_param, &self.rules[i], self.address);
                            let old_rule = self.rules[i].duplicate();
                            let mut policies = old_rule.policies;
                            let ghost pv = policies@;
                            policies.push(PolicyEntry { policy, param: install_param });
                            let rule = ContextRule { policies, ..old_rule };
                            assert(rule_wf(rule@)) by {
                                let p2 = rule@.policies;
                                assert forall|x: int, y: int| 0 <= x < y < p2.len() implies (
                                #[trigger] p2[x]).policy != (#[trigger] p2[y]).policy by {
                                    if y == p2.len() - 1 {
                                        assert(pv[x] == p2[x]);
                                    }
                                }
                            }
                            self.replace_rule(i, rule);
                            Ok(())
                        },
                    },
                }
            },
        }
    }

    /// Uninstalls the policy capability at address `policy` from the rule
    /// with the given id: the capability's `uninstall` runs, then the rule
    /// drops the policy. Fails, with nothing changed, `NotFound` where no rule
    /// has that id, the rule lacks the policy or no capability in `caps` is
    /// deployed at `policy`, and `NotInstalled` where the capability holds no
    /// state for the rule.
    pub fn remove_policy(
        &mut self,
        context_rule_id: u32,
        policy: Address,
        caps: &mut Vec<ThresholdPolicyContract>,
    ) -> (r: Result<(), SmartAccountError>)
        requires
            old(self).wf(),
            registry_wf(old(caps)@),
        ensures
            final(self).wf(),
            registry_wf(final(caps)@),
            final(self).account() == old(self).account(),
            final(self).next_id() == old(self).next_id(),
            r is Err ==> final(self).rules() == old(self).rules() && final(caps)@ == old(caps)@,
            !has_id(old(self).rules(), context_rule_id) ==> r == Err::<(), SmartAccountError>(
                SmartAccountError::NotFound,
            ),
            has_id(old(self).rules(), context_rule_id) ==> {
                let k = index_by_id(old(self).rules(), context_rule_id);
                let old_rule = old(self).rules()[k];
                let ci = cap_index(old(caps)@, policy);
                let key = (context_rule_id, old(self).account());
                &&& !(has_policy(old_rule.policies, policy) && is_registered(old(caps)@, policy))
                    ==> r == Err::<(), SmartAccountError>(SmartAccountError::NotFound)
                &&& has_policy(old_rule.policies, policy) && is_registered(old(caps)@, policy)
                    && !old(caps)@[ci].thresholds().contains_key(key) ==> r == Err::<
                    (),
                    SmartAccountError,
                >(SmartAccountError::NotInstalled)
                &&& has_policy(old_rule.policies, policy) && is_registered(old(caps)@, policy)
                    && old(caps)@[ci].thresholds().contains_key(key) ==> {
                    &&& r is Ok
                    &&& final(self).rules() == old(self).rules().update(
                        k,
                        RuleView {
                            policies: old_rule.policies.remove(policy_pos(old_rule.policies, policy)),
                            ..old_rule
                        },
                    )
                    &&& final(caps)@.len() == old(caps)@.len()
                    &&& forall|j: int|
                        0 <= j < old(caps)@.len() && j != ci ==> final(caps)@[j] == old(caps)@[j]
                    &&& final(caps)@[ci].deployed_at() == old(caps)@[ci].deployed_at()
                    &&& final(caps)@[ci].log() == old(caps)@[ci].log()
                    &&& final(caps)@[ci].thresholds() == old(caps)@[ci].thresholds().remove(key)
                }
            },
    {
        match self.index_of(context_rule_id) {
            None => Err(SmartAccountError::NotFound),
            Some(i) => {
                assert(self.rules()[i as int] == self.rules[i as int]@);
                match find_policy(&self.rules[i].policies, policy) {
                    None => Err(SmartAccountError::NotFound),
                    Some(j) => match find_capability(caps, policy) {
                        None => Err(SmartAccountError::NotFound),
                        Some(ci) => {
                            let res = uninstall_in(caps, ci, &self.rules[i], self.address);
                            if res.is_err() {
                                return Err(SmartAccountError::NotInstalled);
                            }
                            let old_rule = self.rules[i].duplicate();
                            let mut policies = old_rule.policies;
                            let ghost pv = policies@;
                            policies.remove(j);
                            let rule = ContextRule { policies, ..old_rule };
                            assert(rule_wf(rule@)) by {
                                let p2 = rule@.policies;
                                assert(p2 =~= pv.remove(j as int));
                                assert forall|x: int, y: int| 0 <= x < y < p2.len() implies (
                                #[trigger] p2[x]).policy != (#[trigger] p2[y]).policy by {
                                    let x2 = if x < j { x } else { x + 1 };
                                    let y2 = if y < j { y } else { y + 1 };
                                    assert(pv[x2].policy != pv[y2].policy);
                                }
                            }
                            self.replace_rule(i, rule);
                            Ok(())
                        },
                    },
                }
            },
        }
    }

    fn default_present(&self) -> (r: bool)
        ensures
            r == has_default(self.rules()),
    {
        let mut i: usize = 0;
        while i < self.rules.len()
            invariant
                i <= self.rules().len(),
                forall|j: int| 0 <= j < i ==> (#[trigger] self.rules()[j]).context_type
                    != ContextRuleType::Default,
            decreases self.rules().len() - i,
        {
            assert(self.rules()[i as int] == self.rules[i as int]@);
            if self.rules[i].context_type == ContextRuleType::Default {
                return true;
            }
            i = i + 1;
        }
        false
    }

    /// Creates a rule with a fresh id and returns it; each of its policies is
    /// installed, in order, on the capability in `caps` deployed at its
    /// address. Fails, with nothing changed, with the first error that
    /// `create_error` names: no signers, a repeated signer or policy, a
    /// second default rule, a `valid_until` already past at `now`
    /// (`ExpiredRule`), or a policy whose capability is not in `caps`
    /// (`NotFound`).
    pub fn add_context_rule(
        &mut self,
        context_type: ContextRuleType,
        name: String,
        valid_until: Option<u32>,
        signers: Vec<Signer>,
        policies: Vec<PolicyEntry>,
        caps: &mut Vec<ThresholdPolicyContract>,
        now: u32,
    ) -> (r: Result<ContextRule, SmartAccountError>)
        requires
            old(self).wf(),
            registry_wf(old(caps)@),
            old(self).next_id() < u32::MAX,
        ensures
            final(self).wf(),
            registry_wf(final(caps)@),
            final(self).account() == old(self).account(),
            match create_error(
                old(self).rules(),
                context_type,
                valid_until,
                signer_views(signers@),
                policies@,
                old(caps)@,
                now,
            ) {
                Some(e) => {
                    &&& r == Err::<ContextRule, SmartAccountError>(e)
                    &&& final(self).rules() == old(self).rules()
                    &&& final(self).next_id() == old(self).next_id()
                    &&& final(caps)@ == old(caps)@
                },
                None => {
                    let v = RuleView {
                        id: old(self).next_id(),
                        context_type,
                        name: name@,
                        valid_until,
                        signers: signer_views(signers@),
                        policies: policies@,
                    };
                    &&& r is Ok
                    &&& r->Ok_0@ == v
                    &&& final(self).rules() == old(self).rules().push(v)
                    &&& final(self).next_id() == old(self).next_id() + 1
                    &&& installed_all(
                        old(caps)@,
                        final(caps)@,
                        policies@,
                        old(self).next_id(),
                        old(self).account(),
                    )
                },
            },
    {
        if signers.len() == 0 {
            return Err(SmartAccountError::NoSigners);
        }
        if !signers_distinct(&signers) {
            return Err(SmartAccountError::DuplicateSigner);
        }
        if !policies_distinct(&policies) {
            return Err(SmartAccountError::DuplicatePolicy);
        }
        if context_type == ContextRuleType::Default && self.default_present() {
            return Err(SmartAccountError::DuplicateDefault);
        }
        let past = match valid_until {
            Some(v) => v < now,
            None => false,
        };
        if past {
            return Err(SmartAccountError::ExpiredRule);
        }
        if !all_registered(&policies, caps) {
            return Err(SmartAccountError::NotFound);
        }
        let rule = ContextRule { id: self.next_id, context_type, name, valid_until, signers, policies };
        let ghost old_caps = caps@;
        let ghost p = rule.policies@;
        let ghost acct = self.address;
        let mut j: usize = 0;
        while j < rule.policies.len()
            invariant
                p == rule.policies@,
                acct == self.address,
                distinct_policies(p),
                forall|e: int| 0 <= e < p.len() ==> is_registered(old_caps, (#[trigger] p[e]).policy),
                registry_wf(caps@),
                registry_wf(old_caps),
                j <= p.len(),
                caps@.len() == old_caps.len(),
                forall|c: int| 0 <= c < old_caps.len() ==> {
                    let a = old_caps[c].deployed_at();
                    &&& (#[trigger] caps@[c]).deployed_at() == a
                    &&& has_policy(p.take(j as int), a) ==> installed_as(
                        old_caps[c],
                        caps@[c],
                        rule.id,
                        acct,
                        p[policy_pos(p, a)].param,
                    )
                    &&& !has_policy(p.take(j as int), a) ==> caps@[c] == old_caps[c]
                },
            decreases p.len() - j,
        {
            let entry = rule.policies[j];
            let ghost a = entry.policy;
            let ghost oc = cap_index(old_caps, a);
            assert(is_registered(old_caps, a));
            assert(0 <= oc < old_caps.len() && old_caps[oc].deployed_at() == a);
            assert(caps@[oc].deployed_at() == a);
            assert(is_registered(caps@, a));
            let ghost before = caps@;
            match find_capability(caps, entry.policy) {
                None => {},
                Some(ci) => {
                    assert(ci == oc) by {
                        if ci != oc {
                            assert(before[ci as int].deployed_at() != before[oc].deployed_at());
                        }
                    }
                    proof {
                        assert(!has_policy(p.take(j as int), a)) by {
                            if has_policy(p.take(j as int), a) {
                                let e = choose|e: int| 0 <= e < p.take(j as int).len() && (#[trigger] p.take(j as int)[e]).policy == a;
                                assert(p[e].policy == p[j as int].policy);
                            }
                        }
                        assert(policy_pos(p, a) == j) by {
                            assert(has_policy(p, a) && p[j as int].policy == a);
                            let q = policy_pos(p, a);
                            assert(0 <= q < p.len() && p[q].policy == a);
                            if q != j {
                                if q < j {
                                    assert(p[q].policy != p[j as int].policy);
                                } else {
                                    assert(p[j as int].policy != p[q].policy);
                                }
                            }
                        }
                    }
                    install_in(caps, ci, entry.param, &rule, self.address);
                    assert forall|c: int| 0 <= c < old_caps.len() implies {
                        let b = old_caps[c].deployed_at();
                        &&& (#[trigger] caps@[c]).deployed_at() == b
                        &&& has_policy(p.take(j + 1), b) ==> installed_as(
                            old_caps[c],
                            caps@[c],
                            rule.id,
                            acct,
                            p[policy_pos(p, b)].param,
                        )
                        &&& !has_policy(p.take(j + 1), b) ==> caps@[c] == old_caps[c]
                    } by {
                        let b = old_caps[c].deployed_at();
                        lemma_has_policy_take(p, j as int, b);
                        if c != oc {
                            assert(old_caps[c].deployed_at() != old_caps[oc].deployed_at());
                        }
                    }
                },
            }
            j = j + 1;
        }
        assert(p.take(p.len() as int) =~= p);
        let out = rule.duplicate();
        let ghost before = self.rules();
        let ghost rv = rule@;
        self.rules.push(rule);
        self.next_id = self.next_id + 1;
        assert(self.rules() =~= before.push(rv));
        assert forall|x: int, y: int|
            0 <= x < self.rules().len() && 0 <= y < self.rules().len()
            && (#[trigger] self.rules()[x]).context_type == ContextRuleType::Default
            && (#[trigger] self.rules()[y]).context_type == ContextRuleType::Default
            implies x == y by {
            if x == before.len() && y < before.len() {
                assert(has_default(before));
            }
            if y == before.len() && x < before.len() {
                assert(has_default(before));
            }
        }
        Ok(out)
    }
}

} // verus!
