//! The fixed role set and the authorization evaluator.
//!
//! A principal's permissions are carried as a *role code*: a string of
//! exactly four characters, each `'0'` or `'1'`, where position `i` records
//! whether the principal holds the role at position `i`. The last position
//! (`Admin`) is a superuser bit: when set, every requirement is satisfied.

use vstd::prelude::*;

verus! {

/// The capability tags, in their fixed order. The order determines each
/// role's character position in a role code and must never change: issued
/// tokens and stored role codes depend on it.
#[derive(Clone, Copy, Debug, PartialEq, Eq, Structural)]
pub enum Role {
    Learner,
    Teacher,
    Conceptor,
    Admin,
}

/// The character position of a role inside a role code.
pub open spec fn role_index(r: Role) -> int {
    match r {
        Role::Learner => 0,
        Role::Teacher => 1,
        Role::Conceptor => 2,
        Role::Admin => 3,
    }
}

impl Role {
    /// The character position of this role inside a role code.
    pub fn index(&self) -> (i: usize)
        ensures
            i == role_index(*self),
    {
        match self {
            Role::Learner => 0,
            Role::Teacher => 1,
            Role::Conceptor => 2,
            Role::Admin => 3,
        }
    }
}

/// A role code is well formed when it has exactly four characters, each
/// `'0'` or `'1'`.
pub open spec fn valid_code(s: Seq<char>) -> bool {
    s.len() == 4 && forall|i: int| 0 <= i < s.len() ==> s[i] == '0' || s[i] == '1'
}

/// Whether a well-formed role code grants the given role.
pub open spec fn spec_has_role(code: Seq<char>, r: Role) -> bool
    recommends
        valid_code(code),
{
    code[role_index(r)] == '1'
}

/// Returns whether `code` is a well-formed role code. This is the sole gate
/// before any bit of a code is read; malformed codes must be rejected by
/// callers, never coerced.
pub fn validate(code: &str) -> (r: bool)
    ensures
        r == valid_code(code@),
{
    if code.unicode_len() != 4 {
        return false;
    }
    let mut i: usize = 0;
    while i < 4
        invariant
            i <= 4,
            code@.len() == 4,
            forall|j: int| 0 <= j < i ==> code@[j] == '0' || code@[j] == '1',
        decreases 4 - i,
    {
        let c = code.get_char(i);
        if c != '0' && c != '1' {
            return false;
        }
        i = i + 1;
    }
    true
}

/// Returns whether a well-formed role code grants the given role.
pub fn has_role(code: &str, role: Role) -> (b: bool)
    requires
        valid_code(code@),
    ensures
        b == spec_has_role(code@, role),
{
    code.get_char(role.index()) == '1'
}

/// Returns whether a well-formed role code has the superuser bit set.
pub fn is_admin(code: &str) -> (b: bool)
    requires
        valid_code(code@),
    ensures
        b == spec_has_role(code@, Role::Admin),
{
    has_role(code, Role::Admin)
}

/// The outcome of an authorization check. `Malformed` means the principal's
/// role code itself was invalid: callers treat it as a denial, but it is kept
/// distinct because it indicates a data-integrity problem rather than an
/// ordinary unauthorized access.
#[derive(Clone, Copy, Debug, PartialEq, Eq, Structural)]
pub enum Decision {
    Allow,
    Deny,
    Malformed,
}

/// The authorization decision for a role code against a set of required
/// roles. An empty requirement always allows; an invalid code is reported as
/// malformed; the admin bit allows unconditionally; otherwise the required
/// roles are evaluated any-of.
pub open spec fn spec_authorize(code: Seq<char>, required: Seq<Role>) -> Decision {
    if required.len() == 0 {
        Decision::Allow
    } else if !valid_code(code) {
        Decision::Malformed
    } else if spec_has_role(code, Role::Admin) {
        Decision::Allow
    } else if exists|i: int| 0 <= i < required.len() && spec_has_role(code, required[i]) {
        Decision::Allow
    } else {
        Decision::Deny
    }
}

/// Decides whether the principal holding `code` may perform an operation
/// that requires any of `required`. Pure and total: safe to call with
/// attacker-controlled codes.
pub fn authorize(code: &str, required: &[Role]) -> (d: Decision)
    ensures
        d == spec_authorize(code@, required@),
{
    if required.len() == 0 {
        return Decision::Allow;
    }
    if !validate(code) {
        return Decision::Malformed;
    }
    if is_admin(code) {
        return Decision::Allow;
    }
    let n = required.len();
    let mut i: usize = 0;
    while i < n
        invariant
            i <= n,
            n == required@.len(),
            valid_code(code@),
            forall|j: int| 0 <= j < i ==> !spec_has_role(code@, required@[j]),
        decreases n - i,
    {
        if has_role(code, required[i]) {
            return Decision::Allow;
        }
        i = i + 1;
    }
    Decision::Deny
}

/// Law: a string that is not a well-formed role code never authorizes a
/// restricted operation; the evaluator reports it as malformed.
pub proof fn lemma_malformed_rejected(code: Seq<char>, required: Seq<Role>)
    requires
        !valid_code(code),
        required.len() > 0,
    ensures
        spec_authorize(code, required) == Decision::Malformed,
{
}

/// Law: a well-formed role code with the admin bit set is allowed against
/// every requirement, including requirements that do not name `Admin`.
pub proof fn lemma_admin_bypass(code: Seq<char>, required: Seq<Role>)
    requires
        valid_code(code),
        code[3] == '1',
    ensures
        spec_authorize(code, required) == Decision::Allow,
{
}

/// Law: an empty requirement allows every principal; authentication alone
/// suffices.
pub proof fn lemma_empty_requirement(code: Seq<char>)
    ensures
        spec_authorize(code, Seq::empty()) == Decision::Allow,
{
}

/// Law: for a well-formed, non-admin code, a non-empty requirement is
/// evaluated any-of: the decision is `Allow` exactly when the principal
/// holds at least one required role, and `Deny` otherwise.
pub proof fn lemma_any_of(code: Seq<char>, required: Seq<Role>)
    requires
        valid_code(code),
        code[3] != '1',
        required.len() > 0,
    ensures
        spec_authorize(code, required) == Decision::Allow <==> exists|i: int|
            0 <= i < required.len() && spec_has_role(code, required[i]),
        spec_authorize(code, required) == Decision::Deny <==> !exists|i: int|
            0 <= i < required.len() && spec_has_role(code, required[i]),
{
}

} // verus!
