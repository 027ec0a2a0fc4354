//! The identity that a token carries, and when it stops being accepted.
use vstd::prelude::*;
use crate::token::AuthError;

verus! {

/// A verified identity: the subject, its display name, and the expiry time in Unix seconds.
#[derive(Debug, Clone)]
pub struct Claims {
    pub id: usize,
    pub name: String,
    pub exp: usize,
}

/// What checking claims that expire at `exp` gives at time `now`: they are in force strictly
/// before `exp`.
pub open spec fn verdict(exp: usize, now: usize) -> Result<(), AuthError> {
    if now < exp {
        Ok(())
    } else {
        Err(AuthError::Expired)
    }
}

impl Claims {
    /// Claims for `id` and `name` that expire `ttl` seconds after `now`, or `None` where that
    /// time does not fit in a `usize`.
    pub fn issue(id: usize, name: String, ttl: usize, now: usize) -> (r: Option<Claims>)
        ensures
            r is Some <==> now + ttl <= usize::MAX,
            r matches Some(c) ==> c.id == id && c.name@ == name@ && c.exp == now + ttl,
    {
        match now.checked_add(ttl) {
            Some(exp) => Some(Claims { id, name, exp }),
            None => None,
        }
    }

    /// These claims, if they are still in force at `now`.
    pub fn check_at(self, now: usize) -> (r: Result<Claims, AuthError>)
        ensures
            verdict(self.exp, now) is Ok ==> r == Ok::<Claims, AuthError>(self),
            verdict(self.exp, now) is Err ==> r == Err::<Claims, AuthError>(AuthError::Expired),
    {
        if now < self.exp {
            Ok(self)
        } else {
            Err(AuthError::Expired)
        }
    }
}

/// Claims issued with a positive lifetime pass the check at the time they were issued, and at
/// every time before they expire.
pub proof fn lemma_fresh_claims_pass(now: usize, ttl: usize, t: usize)
    requires
        ttl > 0,
        now + ttl <= usize::MAX,
        now <= t < now + ttl,
    ensures
        verdict((now + ttl) as usize, t) is Ok,
{
}

/// Claims issued with no lifetime are expired at the time they were issued and at every later
/// time.
pub proof fn lemma_zero_lifetime_expired(now: usize, t: usize)
    requires
        t >= now,
    ensures
        verdict(now, t) == Err::<(), AuthError>(AuthError::Expired),
{
}

} // verus!
