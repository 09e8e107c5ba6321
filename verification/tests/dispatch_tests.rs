use driver_dispatch::dispatch::{dispatch, file_stem, DispatchDecision};

fn dargs(xs: &[&str]) -> Vec<String> {
    let mut v: Vec<String> = Vec::new();
    for x in xs {
        v.push(x.to_string());
    }
    v
}

fn forward_args(d: &DispatchDecision) -> Vec<String> {
    match d {
        DispatchDecision::ForwardToCompiler { final_args } => final_args.clone(),
        _ => panic!("expected a forward decision"),
    }
}

fn analysis_args(d: &DispatchDecision) -> (Vec<String>, bool) {
    match d {
        DispatchDecision::RunAnalysis { final_args, no_deps } => (final_args.clone(), *no_deps),
        _ => panic!("expected an analysis decision"),
    }
}

fn exit_code(d: &DispatchDecision) -> i32 {
    match d {
        DispatchDecision::ExitEarly { code } => *code,
        _ => panic!("expected an early exit"),
    }
}

#[test]
fn passthrough_marker_forwards_to_compiler() {
    let d = dispatch(&dargs(&["--rustc", "extra"]), &None);
    // The marker is removed and the program slot is rewritten to "rustc".
    assert_eq!(forward_args(&d), dargs(&["rustc"]));

    let d = dispatch(&dargs(&["prog", "--rustc", "a.rs"]), &None);
    assert_eq!(forward_args(&d), dargs(&["rustc", "a.rs"]));
}

#[test]
fn lone_passthrough_marker_still_forwards() {
    // The decision tree is total: with nothing left after removing the
    // marker, the rewritten program slot alone is forwarded.
    let d = dispatch(&dargs(&["--rustc"]), &None);
    assert_eq!(forward_args(&d), dargs(&["rustc"]));
}

#[test]
fn passthrough_wins_over_version_and_help() {
    let d = dispatch(&dargs(&["prog", "--rustc", "--version"]), &None);
    assert_eq!(forward_args(&d), dargs(&["rustc", "--version"]));
    let d = dispatch(&dargs(&["prog", "--rustc", "--help"]), &None);
    assert_eq!(forward_args(&d), dargs(&["rustc", "--help"]));
}

#[test]
fn version_query_exits_early() {
    assert_eq!(exit_code(&dispatch(&dargs(&["--version"]), &None)), 0);
    assert_eq!(exit_code(&dispatch(&dargs(&["prog", "-V"]), &None)), 0);
}

#[test]
fn bare_invocation_exits_early() {
    assert_eq!(exit_code(&dispatch(&dargs(&["prog"]), &None)), 0);
}

#[test]
fn help_exits_early() {
    assert_eq!(exit_code(&dispatch(&dargs(&["prog", "--help"]), &None)), 0);
    assert_eq!(exit_code(&dispatch(&dargs(&["prog", "x.rs", "-h"]), &None)), 0);
}

#[test]
fn plain_invocation_runs_analysis() {
    let (final_args, no_deps) = analysis_args(&dispatch(&dargs(&["prog", "x.rs"]), &None));
    assert_eq!(final_args, dargs(&["prog", "x.rs"]));
    assert!(!no_deps);
}

#[test]
fn sysroot_injected_when_absent() {
    let env = Some("/opt/sys".to_string());
    let (final_args, _) = analysis_args(&dispatch(&dargs(&["prog", "x.rs"]), &env));
    assert_eq!(final_args, dargs(&["prog", "x.rs", "--sysroot", "/opt/sys"]));

    let d = dispatch(&dargs(&["prog", "--rustc", "a.rs"]), &env);
    assert_eq!(forward_args(&d), dargs(&["rustc", "a.rs", "--sysroot", "/opt/sys"]));
}

#[test]
fn explicit_sysroot_suppresses_injection() {
    let env = Some("/opt/sys".to_string());
    let (final_args, _) = analysis_args(&dispatch(&dargs(&["prog", "--sysroot=/x", "y.rs"]), &env));
    assert_eq!(final_args, dargs(&["prog", "--sysroot=/x", "y.rs"]));

    let (final_args, _) =
        analysis_args(&dispatch(&dargs(&["prog", "--sysroot", "/x", "y.rs"]), &env));
    assert_eq!(final_args, dargs(&["prog", "--sysroot", "/x", "y.rs"]));
}

#[test]
fn trailing_bare_sysroot_does_not_suppress_injection() {
    // A sysroot flag with no value available counts as "not found".
    let env = Some("/opt/sys".to_string());
    let (final_args, _) = analysis_args(&dispatch(&dargs(&["prog", "--sysroot"]), &env));
    assert_eq!(final_args, dargs(&["prog", "--sysroot", "--sysroot", "/opt/sys"]));
}

#[test]
fn wrapper_mode_trims_redundant_marker() {
    let (final_args, _) = analysis_args(&dispatch(&dargs(&["prog", "rustc", "x.rs"]), &None));
    assert_eq!(final_args, dargs(&["prog", "x.rs"]));

    let (final_args, _) =
        analysis_args(&dispatch(&dargs(&["prog", "/usr/bin/rustc", "x.rs"]), &None));
    assert_eq!(final_args, dargs(&["prog", "x.rs"]));
}

#[test]
fn wrapper_mode_skips_help_exit() {
    let (final_args, _) = analysis_args(&dispatch(&dargs(&["prog", "rustc", "--help"]), &None));
    assert_eq!(final_args, dargs(&["prog", "--help"]));
}

#[test]
fn decision_is_idempotent_over_a_snapshot() {
    let args = dargs(&["prog", "rustc", "x.rs", "--key=v"]);
    let env = Some("/opt/sys".to_string());
    let d1 = dispatch(&args, &env);
    let d2 = dispatch(&args, &env);
    assert_eq!(analysis_args(&d1), analysis_args(&d2));

    let fwd = dargs(&["prog", "--rustc", "x.rs"]);
    assert_eq!(
        forward_args(&dispatch(&fwd, &env)),
        forward_args(&dispatch(&fwd, &env))
    );
}

#[test]
fn file_stem_strips_directory_and_extension() {
    assert_eq!(file_stem("/usr/bin/rustc"), "rustc");
    assert_eq!(file_stem("rustc.exe"), "rustc");
    assert_eq!(file_stem("rustc"), "rustc");
    assert_eq!(file_stem("a/b.c.d"), "b.c");
    assert_eq!(file_stem(".hidden"), ".hidden");
    assert_eq!(file_stem("--sysroot"), "--sysroot");
}
