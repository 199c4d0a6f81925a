use mnemos::provenance::{Mnemos, MNEMOS_PROVENANCE};

#[test]
fn provenance_string_is_stable() {
    assert_eq!(MNEMOS_PROVENANCE.as_str(), "mnemos");
}

#[test]
fn marker_values_are_equal() {
    assert_eq!(MNEMOS_PROVENANCE, Mnemos);
    assert_eq!(Mnemos.as_str(), "mnemos");
}
