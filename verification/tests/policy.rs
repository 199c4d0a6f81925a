use mnemos::policy::PriorConsultationPolicy;

#[test]
fn default_requires_priors_when_available() {
    assert_eq!(
        PriorConsultationPolicy::default(),
        PriorConsultationPolicy::RequireWhenAvailable
    );
}

#[test]
fn only_load_bearing_policy_blocks_when_priors_are_missing() {
    assert!(PriorConsultationPolicy::RequireForLoadBearingClaims.blocks_without_priors());
    assert!(!PriorConsultationPolicy::RequireWhenAvailable.blocks_without_priors());
    assert!(!PriorConsultationPolicy::OptionalAdvisory.blocks_without_priors());
    assert!(!PriorConsultationPolicy::IgnorePriors.blocks_without_priors());
}

#[test]
fn ignore_priors_disables_recall() {
    assert!(!PriorConsultationPolicy::IgnorePriors.consults_priors());
    assert!(PriorConsultationPolicy::OptionalAdvisory.consults_priors());
}

#[test]
fn every_policy_but_ignore_consults_priors() {
    assert!(PriorConsultationPolicy::RequireWhenAvailable.consults_priors());
    assert!(PriorConsultationPolicy::RequireForLoadBearingClaims.consults_priors());
}
