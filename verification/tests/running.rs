use comparer_rust::compile::{build_plan, finish_build};
use comparer_rust::inputgen::{generate_input, usize_to_string};
use comparer_rust::lang::RunLang;
use comparer_rust::run_code::{
    invocation_for, outcome_text, scratch_file_name, timeout_sentinel,
};

fn artifact(lang: RunLang) -> comparer_rust::compile::ExecutableArtifact {
    let plan = build_plan(lang, "/w/main.x", "/w", "cr");
    finish_build(lang, plan.artifact_path, true).ok().unwrap()
}

#[test]
fn native_artifacts_run_directly() {
    let inv = invocation_for(&artifact(RunLang::C));
    assert_eq!(inv.program, "/w/cr.exe");
    assert!(inv.args.is_empty());
}

#[test]
fn interpreted_artifacts_run_under_their_interpreter() {
    let inv = invocation_for(&artifact(RunLang::Python));
    assert_eq!(inv.program, "python3");
    assert_eq!(inv.args, vec!["/w/cr.py"]);
}

#[test]
fn archives_run_under_the_vm_with_the_manifest_entry_class() {
    let inv = invocation_for(&artifact(RunLang::Java));
    assert_eq!(inv.program, "java");
    assert_eq!(inv.args, vec!["-classpath", "/w/cr.jar", "Main"]);
}

#[test]
fn deadline_expiry_reports_the_sentinel() {
    let r = outcome_text(true, "partial".to_string(), "noise".to_string());
    assert_eq!(r, timeout_sentinel());
    assert_eq!(r, "Timeout");
}

#[test]
fn stderr_stands_in_for_stdout_when_present() {
    let r = outcome_text(false, "answer".to_string(), "panic at line 3".to_string());
    assert_eq!(r, "panic at line 3");
}

#[test]
fn stdout_is_reported_when_stderr_is_empty() {
    let r = outcome_text(false, "answer".to_string(), String::new());
    assert_eq!(r, "answer");
}

#[test]
fn scratch_names_are_long_random_and_txt() {
    let mut rng = rand::thread_rng();
    let a = scratch_file_name(&mut rng);
    let b = scratch_file_name(&mut rng);
    assert_eq!(a.len(), 34);
    assert!(a.ends_with(".txt"));
    assert!(a[..30].chars().all(|c| c.is_ascii_alphanumeric()));
    // 62^30 names: two draws colliding would be astonishing.
    assert_ne!(a, b);
}

#[test]
fn decimal_formatting_is_exact() {
    assert_eq!(usize_to_string(0), "0");
    assert_eq!(usize_to_string(7), "7");
    assert_eq!(usize_to_string(12345), "12345");
    assert_eq!(usize_to_string(1000000), "1000000");
}

#[test]
fn generated_inputs_are_one_bounded_value_per_line() {
    let mut rng = rand::thread_rng();
    for _ in 0..100 {
        let s = generate_input(&mut rng);
        assert!(s.ends_with('\n'));
        let v: usize = s.trim_end().parse().unwrap();
        assert!((1..=50000).contains(&v));
    }
}
