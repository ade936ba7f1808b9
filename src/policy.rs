//! The reference policy capability: an M-of-N threshold on the number of
//! authenticated signers, with one threshold per (rule, account) pair.
use vstd::prelude::*;
use crate::types::{Address, AuthContext, ContextRule, Signer, SmartAccountError};

verus! {

/// One stored threshold, scoped to a rule of an account.
#[derive(Clone, Copy, PartialEq, Eq, Structural, Debug)]
pub struct ThresholdEntry {
    pub rule_id: u32,
    pub account: Address,
    pub threshold: u32,
}

/// One confirmation recorded by `enforce`: the rule and the account.
#[derive(Clone, Copy, PartialEq, Eq, Structural, Debug)]
pub struct EnforceRecord {
    pub rule_id: u32,
    pub account: Address,
}

/// A deployed threshold policy, shared by many accounts.
pub struct ThresholdPolicyContract {
    address: Address,
    entries: Vec<ThresholdEntry>,
    log: Vec<EnforceRecord>,
}

/// Whether `n` authenticated signers meet the stored threshold, if any.
pub open spec fn threshold_admits(stored: Option<u32>, n: nat) -> bool {
    match stored {
        Some(t) => n >= t,
        None => false,
    }
}

spec fn key_of(e: ThresholdEntry) -> (u32, Address) {
    (e.rule_id, e.account)
}

spec fn has_key(s: Seq<ThresholdEntry>, k: (u32, Address)) -> bool {
    exists|i: int| 0 <= i < s.len() && key_of(#[trigger] s[i]) == k
}

spec fn keys_unique(s: Seq<ThresholdEntry>) -> bool {
    forall|i: int, j: int| 0 <= i < s.len() && 0 <= j < s.len() && i != j
        ==> key_of(#[trigger] s[i]) != key_of(#[trigger] s[j])
}

spec fn table_of(s: Seq<ThresholdEntry>) -> Map<(u32, Address), u32> {
    Map::new(
        |k: (u32, Address)| has_key(s, k),
        |k: (u32, Address)|
            s[choose|i: int| 0 <= i < s.len() && key_of(#[trigger] s[i]) == k].threshold,
    )
}

proof fn lemma_table_at(s: Seq<ThresholdEntry>, i: int)
    requires
        keys_unique(s),
        0 <= i < s.len(),
    ensures
        table_of(s).contains_key(key_of(s[i])),
        table_of(s)[key_of(s[i])] == s[i].threshold,
{
    let k = key_of(s[i]);
    assert(has_key(s, k));
    let j = choose|j: int| 0 <= j < s.len() && key_of(#[trigger] s[j]) == k;
    assert(key_of(s[j]) == k);
}

impl ThresholdPolicyContract {
    /// Well-formedness: at most one threshold per (rule, account) pair.
    pub closed spec fn wf(&self) -> bool {
        keys_unique(self.entries@)
    }

    /// The stored thresholds, keyed by (rule id, account).
    pub closed spec fn thresholds(&self) -> Map<(u32, Address), u32> {
        table_of(self.entries@)
    }

    /// The address at which the capability is deployed.
    pub closed spec fn deployed_at(&self) -> Address {
        self.address
    }

    /// The confirmations recorded so far, oldest first.
    pub closed spec fn log(&self) -> Seq<EnforceRecord> {
        self.log@
    }

    /// The threshold stored for a rule of an account, if installed.
    pub open spec fn stored(&self, rule_id: u32, account: Address) -> Option<u32> {
        if self.thresholds().contains_key((rule_id, account)) {
            Some(self.thresholds()[(rule_id, account)])
        } else {
            None
        }
    }

    /// A policy deployed at `address`, with nothing installed.
    pub fn new(address: Address) -> (r: ThresholdPolicyContract)
        ensures
            r.wf(),
            r.deployed_at() == address,
            r.thresholds() == Map::<(u32, Address), u32>::empty(),
            r.log() == Seq::<EnforceRecord>::empty(),
    {
        let r = ThresholdPolicyContract { address, entries: Vec::new(), log: Vec::new() };
        assert(r.thresholds() =~= Map::<(u32, Address), u32>::empty());
        r
    }

    /// The address at which the capability is deployed.
    pub fn address(&self) -> (r: Address)
        ensures
            r == self.deployed_at(),
    {
        self.address
    }

    fn find(&self, rule_id: u32, account: Address) -> (r: Option<usize>)
        requires
            self.wf(),
        ensures
            match r {
                Some(i) => i < self.entries@.len() && key_of(self.entries@[i as int]) == (
                rule_id, account),
                None => !has_key(self.entries@, (rule_id, account)),
            },
    {
        let mut i: usize = 0;
        while i < self.entries.len()
            invariant
                i <= self.entries@.len(),
                forall|j: int| 0 <= j < i ==> key_of(#[trigger] self.entries@[j]) != (rule_id, account),
            decreases self.entries@.len() - i,
        {
            let e = self.entries[i];
            if e.rule_id == rule_id && e.account == account {
                return Some(i);
            }
            i = i + 1;
        }
        None
    }

    /// Whether the number of authenticated signers meets the threshold stored
    /// for this rule of this account; false where none is installed.
    pub fn can_enforce(
        &self,
        context: AuthContext,
        authenticated_signers: &Vec<Signer>,
        context_rule: &ContextRule,
        smart_account: Address,
    ) -> (r: bool)
        requires
            self.wf(),
        ensures
            r == threshold_admits(
                self.stored(context_rule.id, smart_account),
                authenticated_signers@.len(),
            ),
    {
        match self.find(context_rule.id, smart_account) {
            Some(i) => {
                proof {
                    lemma_table_at(self.entries@, i as int);
                }
                authenticated_signers.len() >= self.entries[i].threshold as usize
            },
            None => false,
        }
    }

    /// Records that an action of this rule of this account was admitted.
    pub fn enforce(
        &mut self,
        context: AuthContext,
        authenticated_signers: &Vec<Signer>,
        context_rule: &ContextRule,
        smart_account: Address,
    )
        ensures
            final(self).deployed_at() == old(self).deployed_at(),
            final(self).wf() == old(self).wf(),
            final(self).thresholds() == old(self).thresholds(),
            final(self).log() == old(self).log().push(
                EnforceRecord { rule_id: context_rule.id, account: smart_account },
            ),
    {
        self.log.push(EnforceRecord { rule_id: context_rule.id, account: smart_account });
    }

    fn put(&mut self, rule_id: u32, account: Address, threshold: u32)
        requires
            old(self).wf(),
        ensures
            final(self).wf(),
            final(self).deployed_at() == old(self).deployed_at(),
            final(self).log() == old(self).log(),
            final(self).thresholds() == old(self).thresholds().insert((rule_id, account), threshold),
    {
        let k = Ghost((rule_id, account));
        let ghost old_entries = self.entries@;
        match self.find(rule_id, account) {
            Some(i) => {
                self.entries.set(i, ThresholdEntry { rule_id, account, threshold });
                let ghost s = self.entries@;
                assert forall|a: int, b: int|
                    0 <= a < s.len() && 0 <= b < s.len() && a != b
                    implies key_of(#[trigger] s[a]) != key_of(#[trigger] s[b]) by {
                    assert(key_of(s[a]) == key_of(old_entries[a]));
                    assert(key_of(s[b]) == key_of(old_entries[b]));
                }
                assert forall|q: (u32, Address)| #[trigger] has_key(s, q) == has_key(old_entries, q) by {
                    if has_key(s, q) {
                        let a = choose|a: int| 0 <= a < s.len() && key_of(#[trigger] s[a]) == q;
                        assert(key_of(old_entries[a]) == q);
                    }
                    if has_key(old_entries, q) {
                        let a = choose|a: int| 0 <= a < old_entries.len() && key_of(#[trigger] old_entries[a]) == q;
                        assert(key_of(s[a]) == q);
                    }
                }
                assert forall|q: (u32, Address)| #[trigger] table_of(s).contains_key(q) implies
                    table_of(s)[q] == table_of(old_entries).insert(k@, threshold)[q] by {
                    let a = choose|a: int| 0 <= a < s.len() && key_of(#[trigger] s[a]) == q;
                    lemma_table_at(s, a);
                    if q != k@ {
                        lemma_table_at(old_entries, a);
                    }
                }
                assert(table_of(s) =~= table_of(old_entries).insert(k@, threshold));
            },
            None => {
                self.entries.push(ThresholdEntry { rule_id, account, threshold });
                let ghost s = self.entries@;
                assert forall|a: int, b: int|
                    0 <= a < s.len() && 0 <= b < s.len() && a != b
                    implies key_of(#[trigger] s[a]) != key_of(#[trigger] s[b]) by {
                    if a == s.len() - 1 {
                        assert(key_of(old_entries[b]) == key_of(s[b]));
                    } else if b == s.len() - 1 {
                        assert(key_of(old_entries[a]) == key_of(s[a]));
                    }
                }
                assert forall|q: (u32, Address)| #[trigger] has_key(s, q) == (has_key(old_entries, q) || q == k@) by {
                    if has_key(s, q) && q != k@ {
                        let a = choose|a: int| 0 <= a < s.len() && key_of(#[trigger] s[a]) == q;
                        assert(key_of(old_entries[a]) == q);
                    }
                    if has_key(old_entries, q) {
                        let a = choose|a: int| 0 <= a < old_entries.len() && key_of(#[trigger] old_entries[a]) == q;
                        assert(key_of(s[a]) == q);
                    }
                    if q == k@ {
                        assert(key_of(s[s.len() - 1]) == q);
                    }
                }
                assert forall|q: (u32, Address)| #[trigger] table_of(s).contains_key(q) implies
                    table_of(s)[q] == table_of(old_entries).insert(k@, threshold)[q] by {
                    let a = choose|a: int| 0 <= a < s.len() && key_of(#[trigger] s[a]) == q;
                    lemma_table_at(s, a);
                    if q != k@ {
                        lemma_table_at(old_entries, a);
                    }
                }
                assert(table_of(s) =~= table_of(old_entries).insert(k@, threshold));
            },
        }
    }

    /// Stores the threshold given as install parameter for this rule of this
    /// account, replacing any earlier one.
    pub fn install(
        &mut self,
        install_params: u32,
        context_rule: &ContextRule,
        smart_account: Address,
    )
        requires
            old(self).wf(),
        ensures
            final(self).wf(),
            final(self).deployed_at() == old(self).deployed_at(),
            final(self).log() == old(self).log(),
            final(self).thresholds() == old(self).thresholds().insert(
                (context_rule.id, smart_account),
                install_params,
            ),
    {
        self.put(context_rule.id, smart_account, install_params);
    }
    /// Erases the threshold of this rule of this account; fails
    /// `NotInstalled` where none is stored, and then changes nothing.
    pub fn uninstall(&mut self, context_rule: &ContextRule, smart_account: Address) -> (r: Result<
        (),
        SmartAccountError,
    >)
        requires
            old(self).wf(),
        ensures
            final(self).wf(),
            final(self).deployed_at() == old(self).deployed_at(),
            final(self).log() == old(self).log(),
            old(self).thresholds().contains_key((context_rule.id, smart_account)) ==> r is Ok
                && final(self).thresholds() == old(self).thresholds().remove(
                (context_rule.id, smart_account),
            ),
            !old(self).thresholds().contains_key((context_rule.id, smart_account)) ==> r == Err::<
                (),
                SmartAccountError,
            >(SmartAccountError::NotInstalled) && *final(self) == *old(self),
    {
        let k = Ghost((context_rule.id, smart_account));
        let ghost old_entries = self.entries@;
        match self.find(context_rule.id, smart_account) {
            None => {
                assert(!table_of(old_entries).contains_key(k@));
                Err(SmartAccountError::NotInstalled)
            },
            Some(i) => {
                proof {
                    lemma_table_at(old_entries, i as int);
                }
                self.entries.remove(i);
                let ghost s = self.entries@;
                assert(s =~= old_entries.remove(i as int));
                assert forall|a: int, b: int|
                    0 <= a < s.len() && 0 <= b < s.len() && a != b
                    implies key_of(#[trigger] s[a]) != key_of(#[trigger] s[b]) by {
                    let a2 = if a < i { a } else { a + 1 };
                    let b2 = if b < i { b } else { b + 1 };
                    assert(key_of(s[a]) == key_of(old_entries[a2]));
                    assert(key_of(s[b]) == key_of(old_entries[b2]));
                }
                assert forall|q: (u32, Address)| #[trigger] has_key(s, q) == (has_key(old_entries, q) && q != k@) by {
                    if has_key(s, q) {
                        let a = choose|a: int| 0 <= a < s.len() && key_of(#[trigger] s[a]) == q;
                        let a2 = if a < i { a } else { a + 1 };
                        assert(key_of(old_entries[a2]) == q);
                        assert(a2 != i);
                    }
                    if has_key(old_entries, q) && q != k@ {
                        let a = choose|a: int| 0 <= a < old_entries.len() && key_of(#[trigger] old_entries[a]) == q;
                        assert(a != i);
                        let a1 = if a < i { a } else { a - 1 };
                        assert(key_of(s[a1]) == q);
                    }
                }
                assert forall|q: (u32, Address)| #[trigger] table_of(s).contains_key(q) implies
                    table_of(s)[q] == table_of(old_entries).remove(k@)[q] by {
                    let a = choose|a: int| 0 <= a < s.len() && key_of(#[trigger] s[a]) == q;
                    let a2 = if a < i { a } else { a + 1 };
                    lemma_table_at(s, a);
                    lemma_table_at(old_entries, a2);
                }
                assert(table_of(s) =~= table_of(old_entries).remove(k@));
                Ok(())
            },
        }
    }

    /// The threshold stored for a rule of an account; `NotInstalled` where
    /// none is.
    pub fn get_threshold(&self, context_rule_id: u32, smart_account: Address) -> (r: Result<
        u32,
        SmartAccountError,
    >)
        requires
            self.wf(),
        ensures
            r == match self.stored(context_rule_id, smart_account) {
                Some(t) => Ok::<u32, SmartAccountError>(t),
                None => Err(SmartAccountError::NotInstalled),
            },
    {
        match self.find(context_rule_id, smart_account) {
            Some(i) => {
                proof {
                    lemma_table_at(self.entries@, i as int);
                }
                Ok(self.entries[i].threshold)
            },
            None => Err(SmartAccountError::NotInstalled),
        }
    }

    /// Replaces the threshold of an installed rule of an account; fails
    /// `NotInstalled`, changing nothing, where none is stored.
    pub fn set_threshold(
        &mut self,
        threshold: u32,
        context_rule: &ContextRule,
        smart_account: Address,
    ) -> (r: Result<(), SmartAccountError>)
        requires
            old(self).wf(),
        ensures
            final(self).wf(),
            final(self).deployed_at() == old(self).deployed_at(),
            final(self).log() == old(self).log(),
            old(self).thresholds().contains_key((context_rule.id, smart_account)) ==> r is Ok
                && final(self).thresholds() == old(self).thresholds().insert(
                (context_rule.id, smart_account),
                threshold,
            ),
            !old(self).thresholds().contains_key((context_rule.id, smart_account)) ==> r == Err::<
                (),
                SmartAccountError,
            >(SmartAccountError::NotInstalled) && final(self).thresholds() == old(self).thresholds(),
    {
        match self.find(context_rule.id, smart_account) {
            None => Err(SmartAccountError::NotInstalled),
            Some(i) => {
                proof {
                    lemma_table_at(self.entries@, i as int);
                }
                self.put(context_rule.id, smart_account, threshold);
                Ok(())
            },
        }
    }

    /// The number of confirmations recorded so far.
    pub fn enforcement_count(&self) -> (r: usize)
        ensures
            r == self.log().len(),
    {
        self.log.len()
    }

    /// The confirmation recorded at position `i`, oldest first.
    pub fn enforcement(&self, i: usize) -> (r: EnforceRecord)
        requires
            i < self.log().len(),
        ensures
            r == self.log()[i as int],
    {
        self.log[i]
    }
}

} // verus!
