use xaerotools::corpus::{corpus_root, legacy_corpus_root, required_var, resolve_corpus, root_for};
use xaerotools::corpus::{CORPUS_VAR, LEGACY_CORPUS_VAR};
use xaerotools::synth::truncate_prefix;

#[test]
fn required_but_absent_is_an_error() {
    let r = resolve_corpus("XAERO_CORPUS", None, true, |_: &String| false);
    assert!(r.is_err(), "required + no data must fail, not skip");
}

#[test]
fn absent_and_not_required_is_none() {
    assert_eq!(
        resolve_corpus("XAERO_CORPUS", None, false, |_: &String| false).unwrap(),
        None
    );
}

#[test]
fn explicit_env_dir_is_used() {
    let r = resolve_corpus("XAERO_CORPUS", Some("/x".into()), false, |p: &String| {
        p.as_str() == "/x"
    });
    assert_eq!(r.unwrap(), Some(String::from("/x")));
}

#[test]
fn the_message_names_the_variable_the_caller_reads() {
    let e = resolve_corpus("XAERO_LEGACY_CORPUS", None, true, |_: &String| false).unwrap_err();
    assert!(
        e.contains("XAERO_LEGACY_CORPUS_REQUIRED") && !e.contains("XAERO_CORPUS_REQUIRED=1"),
        "message must name the legacy variable, got: {e}"
    );
    assert_eq!(
        e,
        "XAERO_LEGACY_CORPUS_REQUIRED=1 but XAERO_LEGACY_CORPUS is unset"
    );
}

#[test]
fn a_missing_directory_is_an_error_only_when_required() {
    let e = resolve_corpus("V", Some("/gone".into()), true, |_: &String| false).unwrap_err();
    assert_eq!(e, "V points at a missing directory: /gone");
    let r = resolve_corpus("V", Some("/gone".into()), false, |_: &String| false);
    assert_eq!(r, Ok(None));
}

#[test]
fn only_the_value_one_makes_a_corpus_mandatory() {
    assert_eq!(required_var(CORPUS_VAR), "XAERO_CORPUS_REQUIRED");
    for (value, fails) in [(None, false), (Some("1"), true), (Some("true"), false), (Some("0"), false)] {
        let r = root_for("V", None, value.map(String::from), |_: &String| true);
        assert_eq!(r.is_err(), fails, "{value:?}");
    }
}

#[test]
fn each_corpus_has_its_own_variable() {
    let one = || Some(String::from("1"));
    let e = corpus_root(None, one(), |_: &String| true).unwrap_err();
    assert!(e.contains(CORPUS_VAR));
    let e = legacy_corpus_root(None, one(), |_: &String| true).unwrap_err();
    assert!(e.contains(LEGACY_CORPUS_VAR));
    let found = corpus_root(Some("/data".into()), None, |p: &String| p.as_str() == "/data");
    assert_eq!(found, Ok(Some(String::from("/data"))));
}

#[test]
fn a_prefix_is_at_most_the_whole() {
    let bytes = [1u8, 2, 3];
    assert_eq!(truncate_prefix(&bytes, 0), Vec::<u8>::new());
    assert_eq!(truncate_prefix(&bytes, 2), vec![1, 2]);
    assert_eq!(truncate_prefix(&bytes, 3), vec![1, 2, 3]);
    assert_eq!(truncate_prefix(&bytes, 9), vec![1, 2, 3]);
    assert_eq!(truncate_prefix(&[], 1), Vec::<u8>::new());
}

#[test]
fn only_the_given_directory_is_asked_for() {
    let asked = |p: &String| {
        assert_eq!(p, "/data");
        true
    };
    assert_eq!(root_for("V", Some("/data".into()), None, asked), Ok(Some(String::from("/data"))));
    assert_eq!(root_for("V", None, None, |_: &String| panic!("nothing to ask for")), Ok(None));
}
