use std::time::Duration;
use theoremata_prover::exec::{read_capped, sh_quote, to_wsl_path, wsl_script, ExecOutcome, FormalRunners, ResourceLimits, Runner};
use theoremata_prover::formal::FormalSystem;

#[test]
fn read_capped_truncates_past_the_cap_but_keeps_draining() {
    let data = vec![b'x'; 5000];
    let (s, capped) = read_capped(Some(data.as_slice()), 1000);
    assert_eq!(s.len(), 1000);
    assert!(capped, "over-cap output must be flagged");
    let (s2, capped2) = read_capped(Some(data.as_slice()), 8000);
    assert_eq!(s2.len(), 5000);
    assert!(!capped2, "under-cap output must not be flagged");
    let (s3, capped3) = read_capped(None, 10);
    assert!(s3.is_empty() && !capped3);
}

#[test]
fn ordinary_failures_are_not_deterministic() {
    let nonzero = ExecOutcome {
        launched: true,
        code: Some(1),
        stdout: String::new(),
        stderr: "error: unknown identifier 'foo'".into(),
        timed_out: false,
        output_capped: false,
    };
    assert!(!nonzero.success());
    assert!(!nonzero.is_deterministic_failure());

    let capped = ExecOutcome { output_capped: true, code: Some(0), ..nonzero.clone() };
    assert!(!capped.is_deterministic_failure());

    let unlaunched = ExecOutcome::not_launched("no such file");
    assert!(!unlaunched.is_deterministic_failure());
}

#[test]
fn resource_limits_default_is_sane() {
    let d = ResourceLimits::default();
    assert_eq!(d.timeout, Duration::from_secs(300));
    assert!(d.max_output_bytes >= 1024 * 1024);
}

#[test]
fn settings_override_the_caps_only_when_positive() {
    let l = ResourceLimits::from_settings(Some(" 42 "), Some("2048"));
    assert_eq!(l.timeout, Duration::from_secs(42));
    assert_eq!(l.max_output_bytes, 2048);
    let l = ResourceLimits::from_settings(Some("0"), Some("lots"));
    assert_eq!(l.timeout, Duration::from_secs(300));
    assert_eq!(l.max_output_bytes, 16 * 1024 * 1024);
    let l = ResourceLimits::from_settings(Some("+7"), None);
    assert_eq!(l.timeout, Duration::from_secs(7));
    let l = ResourceLimits::from_settings(Some("-7"), Some("99999999999999999999999"));
    assert_eq!(l.timeout, Duration::from_secs(300));
    assert_eq!(l.max_output_bytes, 16 * 1024 * 1024);
}

#[test]
fn a_timed_out_run_fails_and_is_deterministic() {
    let out = ExecOutcome {
        launched: true,
        code: None,
        stdout: String::new(),
        stderr: "killed".into(),
        timed_out: true,
        output_capped: false,
    };
    assert!(!out.success());
    assert!(out.is_deterministic_failure());
    let ok = ExecOutcome { timed_out: false, code: Some(0), ..out };
    assert!(ok.success());
}

#[test]
fn windows_paths_map_under_mnt() {
    assert_eq!(to_wsl_path("C:\\Users\\x\\proj"), "/mnt/c/Users/x/proj");
    assert_eq!(to_wsl_path("\\\\?\\D:\\work"), "/mnt/d/work");
    assert_eq!(to_wsl_path("/home/u/ws"), "/home/u/ws");
    assert_eq!(to_wsl_path("rel\\dir"), "rel/dir");
}

#[test]
fn runner_tags_and_overrides() {
    assert_eq!(Runner::Native.tag(), "native");
    assert_eq!(Runner::Wsl { distro: "Ubuntu".into() }.tag(), "wsl:Ubuntu");
    assert_eq!(Runner::Docker { image: "lean:4".into() }.tag(), "docker:lean:4");
    let w = Runner::Wsl { distro: "Ubuntu".into() };
    assert_eq!(w.resolved(Some("Debian")), Runner::Wsl { distro: "Debian".into() });
    assert_eq!(w.resolved(Some("   ")), w);
    assert_eq!(w.resolved(None), w);
    assert_eq!(Runner::Native.resolved(Some("Debian")), Runner::Native);
}

#[test]
fn default_runners_per_system() {
    let r = FormalRunners::default();
    assert_eq!(r.for_system(FormalSystem::Lean, None), Runner::Native);
    assert_eq!(r.for_system(FormalSystem::Rocq, None), Runner::Wsl { distro: "Ubuntu".into() });
    assert_eq!(r.for_system(FormalSystem::Isabelle, Some("Arch")), Runner::Wsl { distro: "Arch".into() });
    assert_eq!(r.for_system(FormalSystem::Agda, Some("Arch")), Runner::Native);
}

#[test]
fn shell_quoting_and_the_wsl_script() {
    assert_eq!(sh_quote("/mnt/c/My Work"), "'/mnt/c/My Work'");
    assert_eq!(sh_quote("it's"), "'it'\\''s'");
    assert_eq!(wsl_script("/mnt/c/ws", &["~/bin/lean", "Main.lean"]), "cd '/mnt/c/ws' && ~/bin/lean Main.lean");
    assert_eq!(wsl_script("/w", &[]), "cd '/w' && ");
}
