//! Agentic memory consultation policy.
//!
//! The policy answers whether a host must consult prior episodes before
//! promoting load-bearing reasoning.

use vstd::prelude::*;

verus! {

/// How strongly a run should depend on relevant prior episodes.
#[derive(Debug, Clone, Copy, PartialEq, Eq, Structural)]
pub enum PriorConsultationPolicy {
    /// Consult priors whenever available; continue without them when the
    /// episodic store is unavailable.
    RequireWhenAvailable,
    /// Block promotion of load-bearing claims if relevant priors cannot be
    /// consulted.
    RequireForLoadBearingClaims,
    /// Surface priors when recalled, but never block if recall is unavailable.
    OptionalAdvisory,
    /// Explicitly do not consult prior episodes for this run.
    IgnorePriors,
}

impl Default for PriorConsultationPolicy {
    fn default() -> (p: Self)
        ensures
            p == PriorConsultationPolicy::RequireWhenAvailable,
    {
        PriorConsultationPolicy::RequireWhenAvailable
    }
}

impl PriorConsultationPolicy {
    /// Returns whether missing prior recall should block load-bearing claims.
    pub fn blocks_without_priors(self) -> (b: bool)
        ensures
            b <==> self == PriorConsultationPolicy::RequireForLoadBearingClaims,
    {
        matches!(self, PriorConsultationPolicy::RequireForLoadBearingClaims)
    }

    /// Returns whether the policy permits prior recall.
    pub fn consults_priors(self) -> (b: bool)
        ensures
            b <==> self != PriorConsultationPolicy::IgnorePriors,
    {
        !matches!(self, PriorConsultationPolicy::IgnorePriors)
    }
}

/// A policy that blocks without priors always consults them: blocking is only
/// meaningful for a run that is allowed to recall.
pub proof fn lemma_blocking_policy_consults_priors(p: PriorConsultationPolicy)
    requires
        p == PriorConsultationPolicy::RequireForLoadBearingClaims,
    ensures
        p != PriorConsultationPolicy::IgnorePriors,
{
}

} // verus!
