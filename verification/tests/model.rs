use gm_core::model::{default_model_type, is_false, Drainage, Interpolation, ProfileDatum};

#[test]
fn document_names_are_kebab_case() {
    assert_eq!(Interpolation::Linear.as_str(), "linear");
    assert_eq!(ProfileDatum::GroundLevel.as_str(), "ground-level");
    assert_eq!(ProfileDatum::default(), ProfileDatum::LayerTop);
    assert_eq!(Drainage::Undrained.as_str(), "undrained");
    assert_eq!(default_model_type(), "1d");
    assert!(is_false(&false));
    assert!(!is_false(&true));
}
