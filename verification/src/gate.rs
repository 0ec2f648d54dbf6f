//! The request gate: the authenticate-then-authorize pipeline stage.
//!
//! One evaluation per request, no state across requests. A request first
//! presents its token; a missing or unverifiable token rejects the request
//! outright. A verified request then faces the operation's role requirement,
//! if it declares one: the claims' role code is evaluated against it, and an
//! insufficient role forbids the request without revealing more.

use vstd::prelude::*;

use crate::roles::Decision;
use crate::roles::Role;
use crate::roles::authorize;
use crate::roles::spec_authorize;
use crate::token::Claims;
use crate::token::ClaimsView;
use crate::token::spec_token;
use crate::token::verify;

verus! {

/// The outward-visible outcome of one gate evaluation: proceed with the
/// authenticated claims attached, reject as unauthenticated, or forbid an
/// authenticated caller whose roles do not suffice.
#[derive(Debug)]
pub enum GateOutcome {
    Authorized(Claims),
    Unauthorized,
    Forbidden,
}

/// A guard configured for one route: authentication alone, or
/// authentication followed by a role requirement.
pub struct AuthenticationGuard {
    required_roles: Option<Vec<Role>>,
}

impl AuthenticationGuard {
    /// The role requirement this guard enforces, if any.
    pub closed spec fn requirement(&self) -> Option<Seq<Role>> {
        match self.required_roles {
            Some(v) => Some(v@),
            None => None,
        }
    }

    /// A guard that requires authentication only.
    pub fn new() -> (g: Self)
        ensures
            g.requirement() is None,
    {
        AuthenticationGuard { required_roles: None }
    }

    /// A guard that requires authentication and any one of `roles`.
    pub fn with_roles(roles: Vec<Role>) -> (g: Self)
        ensures
            g.requirement() == Some(roles@),
    {
        AuthenticationGuard { required_roles: Some(roles) }
    }

    /// Evaluates one request: the token taken from the request's carrier (or
    /// none), the process secret, and the time of the check. A missing or
    /// unverifiable token is rejected without distinguishing the cause; a
    /// verified caller failing the role requirement is forbidden.
    pub fn evaluate(&self, token: Option<&str>, secret: &[u8], now: u64) -> (r: GateOutcome)
        ensures
            token is None ==> r is Unauthorized,
            r matches GateOutcome::Authorized(c) ==> token matches Some(t) && t@ == spec_token(
                c@,
                secret@,
            ) && now < c@.exp && (match self.requirement() {
                None => true,
                Some(req) => spec_authorize(c@.role, req) == Decision::Allow,
            }),
            token matches Some(t) ==> forall|cv: ClaimsView|
                t@ == #[trigger] spec_token(cv, secret@) ==> if now >= cv.exp {
                    r is Unauthorized
                } else {
                    match self.requirement() {
                        None => r is Authorized && r->Authorized_0@ == cv,
                        Some(req) => if spec_authorize(cv.role, req) == Decision::Allow {
                            r is Authorized && r->Authorized_0@ == cv
                        } else {
                            r is Forbidden
                        },
                    }
                },
            r is Forbidden ==> (token matches Some(t) && exists|cv: ClaimsView|
                t@ == #[trigger] spec_token(cv, secret@) && now < cv.exp && self.requirement()
                    is Some && spec_authorize(cv.role, self.requirement()->Some_0)
                    != Decision::Allow),
    {
        let t = match token {
            Some(t) => t,
            None => {
                return GateOutcome::Unauthorized;
            },
        };
        let claims = match verify(t, secret, now) {
            Ok(c) => c,
            Err(_) => {
                return GateOutcome::Unauthorized;
            },
        };
        match &self.required_roles {
            None => GateOutcome::Authorized(claims),
            Some(req) => {
                match authorize(claims.role.as_str(), req.as_slice()) {
                    Decision::Allow => GateOutcome::Authorized(claims),
                    Decision::Deny => GateOutcome::Forbidden,
                    Decision::Malformed => GateOutcome::Forbidden,
                }
            },
        }
    }
}

/// A guard that evaluates a role requirement against claims that an earlier
/// authentication stage already attached to the request.
pub struct RoleGuard {
    required_roles: Vec<Role>,
}

impl RoleGuard {
    /// The role requirement this guard enforces.
    pub closed spec fn requirement(&self) -> Seq<Role> {
        self.required_roles@
    }

    /// A guard requiring any one of `roles`.
    pub fn new(roles: Vec<Role>) -> (g: Self)
        ensures
            g.requirement() == roles@,
    {
        RoleGuard { required_roles: roles }
    }

    /// Evaluates the attached claims, if any, against the requirement: no
    /// claims rejects the request, an insufficient or malformed role code
    /// forbids it.
    pub fn evaluate(&self, claims: Option<&Claims>) -> (r: GateOutcome)
        ensures
            claims is None ==> r is Unauthorized,
            claims matches Some(c) ==> if spec_authorize(c@.role, self.requirement())
                == Decision::Allow {
                r is Authorized && r->Authorized_0@ == c@
            } else {
                r is Forbidden
            },
    {
        let c = match claims {
            Some(c) => c,
            None => {
                return GateOutcome::Unauthorized;
            },
        };
        match authorize(c.role.as_str(), self.required_roles.as_slice()) {
            Decision::Allow => GateOutcome::Authorized(c.duplicate()),
            Decision::Deny => GateOutcome::Forbidden,
            Decision::Malformed => GateOutcome::Forbidden,
        }
    }
}

} // verus!
