use gm_core::error::Error;
use gm_core::workspace::choose_file;

fn names(v: &[&str]) -> Vec<String> {
    v.iter().map(|s| s.to_string()).collect()
}

#[test]
fn a_single_file_is_used_without_asking() {
    assert_eq!(choose_file(&names(&["a13.gm"])).unwrap(), "a13.gm");
}

#[test]
fn no_file_is_refused_with_a_hint() {
    match choose_file(&Vec::new()) {
        Err(Error::Invalid(m)) => {
            assert_eq!(m, "no ground-model file found; pass --file or run `gm init`")
        }
        other => panic!("expected a refusal, got {other:?}"),
    }
}

#[test]
fn several_files_are_named_in_order() {
    match choose_file(&names(&["b.gm", "a.gm", "c.gm"])) {
        Err(Error::Invalid(m)) => {
            assert_eq!(m, "3 ground-model files here; pass --file to say which (a.gm, b.gm, c.gm)")
        }
        other => panic!("expected a refusal, got {other:?}"),
    }
}
