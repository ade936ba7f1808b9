//! The data model: signers, rule types, actions, context rules and errors.
use vstd::prelude::*;

verus! {

/// Identity of an account or of a deployed capability (verifier or policy).
pub type Address = u64;

/// One signer of a context rule.
#[derive(Clone, Debug)]
pub enum Signer {
    /// An identity checked by the host's own authorization of that address.
    Native(Address),
    /// A key checked by the verifier capability at the given address.
    Delegated(Address, Vec<u8>),
}

/// The mathematical value of a signer.
pub ghost enum SignerView {
    Native(Address),
    Delegated(Address, Seq<u8>),
}

impl View for Signer {
    type V = SignerView;

    open spec fn view(&self) -> SignerView {
        match self {
            Signer::Native(a) => SignerView::Native(*a),
            Signer::Delegated(v, k) => SignerView::Delegated(*v, k@),
        }
    }
}

fn copy_bytes(b: &Vec<u8>) -> (r: Vec<u8>)
    ensures
        r@ == b@,
{
    let mut r: Vec<u8> = Vec::new();
    let mut i: usize = 0;
    while i < b.len()
        invariant
            i <= b@.len(),
            r@ == b@.take(i as int),
        decreases b@.len() - i,
    {
        r.push(b[i]);
        i = i + 1;
        assert(r@ =~= b@.take(i as int));
    }
    assert(r@ =~= b@);
    r
}

fn bytes_equal(a: &Vec<u8>, b: &Vec<u8>) -> (r: bool)
    ensures
        r == (a@ == b@),
{
    if a.len() != b.len() {
        return false;
    }
    let mut i: usize = 0;
    while i < a.len()
        invariant
            a@.len() == b@.len(),
            i <= a@.len(),
            forall|j: int| 0 <= j < i ==> a@[j] == b@[j],
        decreases a@.len() - i,
    {
        if a[i] != b[i] {
            return false;
        }
        i = i + 1;
    }
    assert(a@ =~= b@);
    true
}

impl Signer {
    /// A copy of this signer with the same value.
    pub fn duplicate(&self) -> (r: Signer)
        ensures
            r@ == self@,
    {
        match self {
            Signer::Native(a) => Signer::Native(*a),
            Signer::Delegated(v, k) => Signer::Delegated(*v, copy_bytes(k)),
        }
    }

    /// Whether two signers denote the same identity.
    pub fn same_as(&self, other: &Signer) -> (r: bool)
        ensures
            r == (self@ == other@),
    {
        match (self, other) {
            (Signer::Native(a), Signer::Native(b)) => *a == *b,
            (Signer::Delegated(v, k), Signer::Delegated(w, l)) => {
                if *v != *w {
                    false
                } else {
                    bytes_equal(k, l)
                }
            },
            _ => false,
        }
    }
}

/// The class of actions that a context rule governs.
#[derive(Clone, Copy, PartialEq, Eq, Structural, Debug)]
pub enum ContextRuleType {
    /// The fallback rule, matching every action.
    Default,
    /// Calls into the contract at the given address.
    CallContract(Address),
    /// Deployments of the code with the given hash identifier.
    CreateContract(u64),
}

/// One proposed action, as described by the host.
#[derive(Clone, Copy, PartialEq, Eq, Structural, Debug)]
pub enum AuthContext {
    /// A call into the contract at the given address.
    Contract(Address),
    /// A deployment of the code with the given hash identifier.
    CreateContract(u64),
}

/// Whether a rule of type `t` governs the action `ctx`.
pub open spec fn type_matches(t: ContextRuleType, ctx: AuthContext) -> bool {
    match t {
        ContextRuleType::Default => true,
        ContextRuleType::CallContract(a) => ctx == AuthContext::Contract(a),
        ContextRuleType::CreateContract(h) => ctx == AuthContext::CreateContract(h),
    }
}

/// Whether the rule type is scoped to a class of actions narrower than all.
pub open spec fn is_specific(t: ContextRuleType) -> bool {
    t != ContextRuleType::Default
}

/// Whether a rule of type `t` governs the action `ctx`.
pub fn rule_type_matches(t: ContextRuleType, ctx: AuthContext) -> (r: bool)
    ensures
        r == type_matches(t, ctx),
{
    match t {
        ContextRuleType::Default => true,
        ContextRuleType::CallContract(a) => match ctx {
            AuthContext::Contract(b) => a == b,
            _ => false,
        },
        ContextRuleType::CreateContract(h) => match ctx {
            AuthContext::CreateContract(g) => h == g,
            _ => false,
        },
    }
}

/// An installed policy: the capability's address and its install parameter.
#[derive(Clone, Copy, PartialEq, Eq, Structural, Debug)]
pub struct PolicyEntry {
    pub policy: Address,
    pub param: u32,
}

/// A context rule: signers and policies bound to a class of actions.
#[derive(Debug)]
pub struct ContextRule {
    pub id: u32,
    pub context_type: ContextRuleType,
    pub name: String,
    /// The last ledger sequence number at which the rule is active.
    pub valid_until: Option<u32>,
    pub signers: Vec<Signer>,
    /// Installed policies, in order of installation.
    pub policies: Vec<PolicyEntry>,
}

/// The mathematical value of a context rule.
pub ghost struct RuleView {
    pub id: u32,
    pub context_type: ContextRuleType,
    pub name: Seq<char>,
    pub valid_until: Option<u32>,
    pub signers: Seq<SignerView>,
    pub policies: Seq<PolicyEntry>,
}

/// The values of a sequence of signers.
pub open spec fn signer_views(s: Seq<Signer>) -> Seq<SignerView> {
    s.map_values(|x: Signer| x@)
}

impl View for ContextRule {
    type V = RuleView;

    open spec fn view(&self) -> RuleView {
        RuleView {
            id: self.id,
            context_type: self.context_type,
            name: self.name@,
            valid_until: self.valid_until,
            signers: signer_views(self.signers@),
            policies: self.policies@,
        }
    }
}

/// Whether the rule may still match at ledger sequence number `now`.
pub open spec fn is_active(r: RuleView, now: u32) -> bool {
    match r.valid_until {
        None => true,
        Some(v) => now <= v,
    }
}

/// Whether the rule may still match at ledger sequence number `now`.
pub fn rule_is_active(r: &ContextRule, now: u32) -> (b: bool)
    ensures
        b == is_active(r@, now),
{
    match r.valid_until {
        None => true,
        Some(v) => now <= v,
    }
}

/// Whether no signer occurs twice.
pub open spec fn distinct_signers(s: Seq<SignerView>) -> bool {
    forall|i: int, j: int| 0 <= i < j < s.len() ==> #[trigger] s[i] != #[trigger] s[j]
}

/// Whether no policy address occurs twice.
pub open spec fn distinct_policies(p: Seq<PolicyEntry>) -> bool {
    forall|i: int, j: int| 0 <= i < j < p.len() ==> (#[trigger] p[i]).policy != (#[trigger] p[j]).policy
}

pub(crate) fn copy_signers(s: &Vec<Signer>) -> (r: Vec<Signer>)
    ensures
        signer_views(r@) == signer_views(s@),
{
    let mut r: Vec<Signer> = Vec::new();
    let mut i: usize = 0;
    while i < s.len()
        invariant
            i <= s@.len(),
            r@.len() == i,
            forall|k: int| 0 <= k < i ==> (#[trigger] r@[k])@ == s@[k]@,
        decreases s@.len() - i,
    {
        r.push(s[i].duplicate());
        i = i + 1;
    }
    assert(signer_views(r@) =~= signer_views(s@));
    r
}

pub(crate) fn copy_policies(p: &Vec<PolicyEntry>) -> (r: Vec<PolicyEntry>)
    ensures
        r@ == p@,
{
    let mut r: Vec<PolicyEntry> = Vec::new();
    let mut i: usize = 0;
    while i < p.len()
        invariant
            i <= p@.len(),
            r@ == p@.take(i as int),
        decreases p@.len() - i,
    {
        r.push(p[i]);
        i = i + 1;
        assert(r@ =~= p@.take(i as int));
    }
    assert(r@ =~= p@);
    r
}

impl ContextRule {
    /// A copy of this rule with the same value.
    pub fn duplicate(&self) -> (r: ContextRule)
        ensures
            r@ == self@,
    {
        ContextRule {
            id: self.id,
            context_type: self.context_type,
            name: self.name.clone(),
            valid_until: self.valid_until,
            signers: copy_signers(&self.signers),
            policies: copy_policies(&self.policies),
        }
    }
}

/// The ways an operation of the account or of a policy can fail.
#[derive(Clone, Copy, PartialEq, Eq, Structural, Debug)]
pub enum SmartAccountError {
    /// No rule has the id, or the rule lacks the named policy capability.
    NotFound,
    /// A second rule of the default type was asked for.
    DuplicateDefault,
    /// The removal would leave a rule without signers.
    LastSignerRemoval,
    /// The rule lacks the signer to be removed.
    SignerNotFound,
    /// No active rule matches the action, the default rule included.
    NoMatchingRule,
    /// The last valid sequence number given is already past.
    ExpiredRule,
    /// A rule without policies lacks the signature of one of its signers.
    Unauthorized,
    /// No installed policy admitted the action.
    PolicyDenied,
    /// The policy holds no state for the rule of the account.
    NotInstalled,
    /// A rule was to be created without signers.
    NoSigners,
    /// A signer occurs twice in a new rule.
    DuplicateSigner,
    /// A policy capability occurs twice in a new rule.
    DuplicatePolicy,
}

} // verus!
