//! Scenario tests for the graph diff engine.

use npingler::derivation::Derivation;
use npingler::derivation::Derivations;
use npingler::derivation::Dict;
use npingler::derivation::Input;
use npingler::derivation::Output;
use npingler::diff::diff_derivations;
use npingler::diff::DiffError;
use npingler::diff::DiffNovelty;

fn strings(items: &[&str]) -> Vec<String> {
    items.iter().map(|s| s.to_string()).collect()
}

fn basic(path: &str, name: &str, builder: &str, args: &[&str]) -> Derivation {
    let mut outputs: Dict<Output> = Dict::new();
    outputs.insert("out".to_string(), Output { path: format!("/store/{}-out", name) });
    Derivation {
        path: path.to_string(),
        args: strings(args),
        builder: builder.to_string(),
        env: Dict::new(),
        input_drvs: Dict::new(),
        input_srcs: Vec::new(),
        name: name.to_string(),
        outputs,
        system: "x86_64-linux".to_string(),
    }
}

fn add_input(d: &mut Derivation, dep_path: &str) {
    assert!(d.input_drvs.insert(dep_path.to_string(), Input { outputs: strings(&["out"]) }));
}

fn resolver_of(ds: Vec<Derivation>) -> Derivations {
    let mut r = Derivations::new();
    for d in ds {
        assert!(r.insert(d));
    }
    r
}

#[test]
fn novelty_join_is_a_semilattice() {
    assert_eq!(DiffNovelty::Boring.join(DiffNovelty::Boring), DiffNovelty::Boring);
    assert_eq!(DiffNovelty::Boring.join(DiffNovelty::Novel), DiffNovelty::Novel);
    assert_eq!(DiffNovelty::Novel.join(DiffNovelty::Boring), DiffNovelty::Novel);
    assert_eq!(DiffNovelty::Novel.join(DiffNovelty::Novel), DiffNovelty::Novel);
}

#[test]
fn identity_short_circuit_empty_output() {
    let d = basic("A", "pkg", "/bin/sh", &["-c", "make"]);
    let resolver = Derivations::new();
    let out = diff_derivations(&d, &d, &resolver, false).unwrap();
    assert_eq!(out, "");
}

#[test]
fn args_change_shows_args_block_only() {
    let old_d = basic("A", "pkg", "/bin/sh", &["-c", "make"]);
    let mut new_d = basic("B", "pkg", "/bin/sh", &["-c", "make"]);
    new_d.args.push("install".to_string());
    let resolver = Derivations::new();
    let out = diff_derivations(&old_d, &new_d, &resolver, false).unwrap();
    assert_eq!(out, "- A\n+ B\n  args changed:\n    -c\n    make\n  + install\n");
    assert!(out.contains("args changed:"));
    assert!(out.contains("+ install"));
    assert!(!out.contains("builder"));
    assert!(!out.contains("outputs"));
}

#[test]
fn collapse_only_ids_differ_root() {
    let old_d = basic("A", "pkg", "/bin/sh", &["-c", "make"]);
    let new_d = basic("B", "pkg", "/bin/sh", &["-c", "make"]);
    let resolver = Derivations::new();
    let out = diff_derivations(&old_d, &new_d, &resolver, false).unwrap();
    assert_eq!(out, "");
}

#[test]
fn collapse_only_ids_differ_deep() {
    // The referenced derivations differ only in their identifier; the
    // referrers differ only in their identifier and in which of the two they
    // reference. Nothing visible changed, so nothing is reported.
    let dep_old = basic("D1", "libdep", "/bin/cc", &["build"]);
    let dep_new = basic("D2", "libdep", "/bin/cc", &["build"]);
    let mut root_old = basic("A", "pkg", "/bin/sh", &["-c", "make"]);
    let mut root_new = basic("B", "pkg", "/bin/sh", &["-c", "make"]);
    add_input(&mut root_old, "D1");
    add_input(&mut root_new, "D2");
    let resolver = resolver_of(vec![dep_old, dep_new]);
    let out = diff_derivations(&root_old, &root_new, &resolver, false).unwrap();
    assert_eq!(out, "");
}

#[test]
fn memo_dedup_one_block_rest_notices() {
    // The same (old builder, new builder) pair differs at three positions:
    // the root pair and two referenced pairs. One full block, two notices.
    let mut root_old = basic("A", "pkg", "/bin/old-sh", &[]);
    let mut root_new = basic("B", "pkg", "/bin/new-sh", &[]);
    let dep1_old = basic("C1", "depone", "/bin/old-sh", &[]);
    let dep1_new = basic("C2", "depone", "/bin/new-sh", &[]);
    let dep2_old = basic("E1", "deptwo", "/bin/old-sh", &[]);
    let dep2_new = basic("E2", "deptwo", "/bin/new-sh", &[]);
    add_input(&mut root_old, "C1");
    add_input(&mut root_old, "E1");
    add_input(&mut root_new, "C2");
    add_input(&mut root_new, "E2");
    let resolver = resolver_of(vec![dep1_old, dep1_new, dep2_old, dep2_new]);
    let out = diff_derivations(&root_old, &root_new, &resolver, false).unwrap();
    assert_eq!(out.matches("builder changed:").count(), 1);
    assert_eq!(out.matches("builder already compared").count(), 2);
}

#[test]
fn shared_dependency_fifty_call_sites() {
    // Two graphs share one changed transitive dependency at fifty call
    // sites: exactly one full diff of its change, forty-nine notices.
    let libc_old = basic("L1", "libc", "/bin/old-cc", &[]);
    let libc_new = basic("L2", "libc", "/bin/new-cc", &[]);
    let mut resolver = Derivations::new();
    assert!(resolver.insert(libc_old));
    assert!(resolver.insert(libc_new));
    let mut root_old = basic("A", "profile", "/bin/sh", &[]);
    let mut root_new = basic("B", "profile", "/bin/sh", &[]);
    for k in 0..50 {
        let mut mid_old = basic(&format!("MO{:02}", k), &format!("mid{:02}", k), "/bin/sh", &[]);
        let mut mid_new = basic(&format!("MN{:02}", k), &format!("mid{:02}", k), "/bin/sh", &[]);
        add_input(&mut mid_old, "L1");
        add_input(&mut mid_new, "L2");
        add_input(&mut root_old, &format!("MO{:02}", k));
        add_input(&mut root_new, &format!("MN{:02}", k));
        assert!(resolver.insert(mid_old));
        assert!(resolver.insert(mid_new));
    }
    let out = diff_derivations(&root_old, &root_new, &resolver, false).unwrap();
    assert_eq!(out.matches("builder changed:").count(), 1);
    assert_eq!(out.matches("builder already compared").count(), 49);
}

#[test]
fn long_equal_run_shows_six_context_lines() {
    let mut args: Vec<&str> = vec!["a0", "a1", "a2", "a3", "a4", "a5", "a6", "a7", "a8", "a9"];
    args.push("X");
    let old_d = basic("A", "pkg", "/bin/sh", &args);
    args.pop();
    args.push("Y");
    let new_d = basic("B", "pkg", "/bin/sh", &args);
    let resolver = Derivations::new();
    let out = diff_derivations(&old_d, &new_d, &resolver, false).unwrap();
    // Two header lines, one block header, six context lines, one deletion,
    // one insertion.
    assert_eq!(out.lines().count(), 11);
    assert!(out.contains("a0"));
    assert!(out.contains("a2"));
    assert!(out.contains("a7"));
    assert!(out.contains("a9"));
    assert!(!out.contains("a4"));
    assert!(!out.contains("a5"));
    assert!(out.contains("- X"));
    assert!(out.contains("+ Y"));
}

#[test]
fn short_equal_run_shown_in_full() {
    let old_d = basic("A", "pkg", "/bin/sh", &["b0", "b1", "b2", "X"]);
    let new_d = basic("B", "pkg", "/bin/sh", &["b0", "b1", "b2", "Y"]);
    let resolver = Derivations::new();
    let out = diff_derivations(&old_d, &new_d, &resolver, false).unwrap();
    assert_eq!(out.lines().count(), 8);
    assert!(out.contains("b0"));
    assert!(out.contains("b1"));
    assert!(out.contains("b2"));
}

#[test]
fn unresolvable_reference_is_an_error() {
    let mut root_old = basic("A", "pkg", "/bin/sh", &[]);
    let root_new = basic("B", "pkg", "/bin/sh", &[]);
    add_input(&mut root_old, "MISSING");
    let resolver = Derivations::new();
    match diff_derivations(&root_old, &root_new, &resolver, false) {
        Err(DiffError::UnresolvableReference { path }) => assert_eq!(path, "MISSING"),
        _ => panic!("expected an unresolvable-reference error"),
    }
}

#[test]
fn env_value_change_is_labelled_per_key() {
    let mut old_d = basic("A", "pkg", "/bin/sh", &[]);
    let mut new_d = basic("B", "pkg", "/bin/sh", &[]);
    assert!(old_d.env.insert("CFLAGS".to_string(), "-O1".to_string()));
    assert!(new_d.env.insert("CFLAGS".to_string(), "-O2".to_string()));
    let resolver = Derivations::new();
    let out = diff_derivations(&old_d, &new_d, &resolver, false).unwrap();
    assert!(out.contains("env.CFLAGS changed:"));
    assert!(out.contains("- -O1"));
    assert!(out.contains("+ -O2"));
}

#[test]
fn env_key_addition_shows_key_set_diff() {
    let old_d = basic("A", "pkg", "/bin/sh", &[]);
    let mut new_d = basic("B", "pkg", "/bin/sh", &[]);
    assert!(new_d.env.insert("NEWVAR".to_string(), "1".to_string()));
    let resolver = Derivations::new();
    let out = diff_derivations(&old_d, &new_d, &resolver, false).unwrap();
    assert!(out.contains("env changed:"));
    assert!(out.contains("+ NEWVAR"));
}

#[test]
fn output_path_change_is_labelled_per_name() {
    let mut old_d = basic("A", "pkg", "/bin/sh", &[]);
    let mut new_d = basic("B", "pkg", "/bin/sh", &[]);
    old_d.outputs = Dict::new();
    new_d.outputs = Dict::new();
    assert!(old_d.outputs.insert("out".to_string(), Output { path: "/store/old".to_string() }));
    assert!(new_d.outputs.insert("out".to_string(), Output { path: "/store/new".to_string() }));
    let resolver = Derivations::new();
    let out = diff_derivations(&old_d, &new_d, &resolver, false).unwrap();
    assert!(out.contains("outputs.out changed:"));
    assert!(out.contains("- /store/old"));
    assert!(out.contains("+ /store/new"));
}

#[test]
fn color_mode_emits_ansi_codes() {
    let old_d = basic("A", "pkg", "/bin/sh", &["x"]);
    let new_d = basic("B", "pkg", "/bin/sh", &["y"]);
    let resolver = Derivations::new();
    let plain = diff_derivations(&old_d, &new_d, &resolver, false).unwrap();
    let colored = diff_derivations(&old_d, &new_d, &resolver, true).unwrap();
    assert!(!plain.contains('\u{1b}'));
    assert!(colored.contains("\u{1b}[31m"));
    assert!(colored.contains("\u{1b}[32m"));
    assert!(colored.contains("\u{1b}[1m"));
    assert!(colored.contains("\u{1b}[0m"));
}

#[test]
fn repeated_runs_render_byte_identical_reports() {
    let libc_old = basic("L1", "libc", "/bin/old-cc", &[]);
    let libc_new = basic("L2", "libc", "/bin/new-cc", &[]);
    let libc_old2 = basic("L1", "libc", "/bin/old-cc", &[]);
    let libc_new2 = basic("L2", "libc", "/bin/new-cc", &[]);
    let mut root_old = basic("A", "profile", "/bin/sh", &["-c", "make"]);
    let mut root_new = basic("B", "profile", "/bin/sh", &["-c", "make", "install"]);
    add_input(&mut root_old, "L1");
    add_input(&mut root_new, "L2");
    let resolver_one = resolver_of(vec![libc_old, libc_new]);
    let resolver_two = resolver_of(vec![libc_old2, libc_new2]);
    let first = diff_derivations(&root_old, &root_new, &resolver_one, false).unwrap();
    let second = diff_derivations(&root_old, &root_new, &resolver_two, false).unwrap();
    assert!(!first.is_empty());
    assert_eq!(first, second);
}

#[test]
fn system_change_is_reported() {
    let mut old_d = basic("A", "pkg", "/bin/sh", &[]);
    let new_d = basic("B", "pkg", "/bin/sh", &[]);
    old_d.system = "aarch64-linux".to_string();
    let resolver = Derivations::new();
    let out = diff_derivations(&old_d, &new_d, &resolver, false).unwrap();
    assert!(out.contains("system changed:"));
    assert!(out.contains("- aarch64-linux"));
    assert!(out.contains("+ x86_64-linux"));
}
