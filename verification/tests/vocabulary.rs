use gm_core::vocabulary::{constitutive_kinds, knows_constitutive_kind, properties, soil_classes};

#[test]
fn the_vocabulary_parses_and_is_not_empty() {
    assert!(!properties().is_empty());
    assert!(!soil_classes().is_empty());
    assert!(!constitutive_kinds().is_empty());
}

#[test]
fn kinds_with_parameter_checks_are_offered() {
    for kind in ["mohr-coulomb", "undrained-tresca"] {
        assert!(knows_constitutive_kind(kind), "{kind} is not in the vocabulary");
    }
    assert!(!knows_constitutive_kind("something-newer"));
}

#[test]
fn every_suggested_term_has_a_unit() {
    let kinds = constitutive_kinds();
    let props = properties();
    let terms = props.iter().chain(kinds.iter().flat_map(|k| k.parameters.iter()));
    for term in terms {
        assert!(!term.units.is_empty(), "{} suggests no unit", term.key);
        assert!(!term.label.is_empty(), "{} has no label", term.key);
    }
}

#[test]
fn every_offered_kind_is_known() {
    for k in constitutive_kinds() {
        assert!(knows_constitutive_kind(&k.kind));
    }
}

#[test]
fn every_offered_term_has_a_label_and_a_unit() {
    for term in properties().iter().chain(constitutive_kinds().iter().flat_map(|k| k.parameters.iter())) {
        assert!(!term.units.is_empty(), "{} suggests no unit", term.key);
        assert!(!term.label.is_empty(), "{} has no label", term.key);
    }
    assert_eq!(soil_classes().len(), 7);
}
