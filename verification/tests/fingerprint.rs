//! Request keys: roots, arguments and fingerprints.

use zccache::hash::ContentHash;
use zccache::keys::{
    client_env_value, compile_worktree_root, diag_path_remap_state, find_git_root,
    normalize_path_for_request_key, path_remap_auto_enabled, request_key_root,
    requires_worktree_in_key, resolve_worktree_root, split_cc_prefix_map_arg, worktree_probes,
    CompilerFamily, SessionRoot, SourceMode, PATH_REMAP_ENV, WORKTREE_ROOT_ENV,
};
use zccache::path::{NormalizedPath, PathStyle};
use zccache::probe::{FileKind, Probe};
use zccache::remap::{
    rust_remap_gate, rustc_context_key_root, rustc_workspace_wrapper_shim_len, RustRemapGate,
};
use zccache::request::{
    effective_compile_args, normalize_request_arg, request_env_fingerprint_vars,
    request_fingerprint, request_preimage,
};

const UNIX: PathStyle = PathStyle::Unix;
const WINDOWS: PathStyle = PathStyle::Windows;

type Env = Vec<(String, String)>;

fn texts(list: &[&str]) -> Vec<String> {
    list.iter().map(|t| t.to_string()).collect()
}

fn env(list: &[(&str, &str)]) -> Env {
    list.iter()
        .map(|(k, v)| (k.to_string(), v.to_string()))
        .collect()
}

fn path(text: &str) -> NormalizedPath {
    NormalizedPath::new(UNIX, text)
}

fn fingerprint(
    compiler: &str,
    args: &[String],
    cwd: &str,
    root: Option<&str>,
    vars: Option<&Env>,
) -> ContentHash {
    request_fingerprint(UNIX, compiler, args, cwd, root, vars.map(|v| v.as_slice()))
}

fn dir(path: &str) -> Probe {
    Probe {
        path: path.to_string(),
        kind: FileKind::Directory,
        size: 0,
    }
}

#[test]
fn request_fingerprint_normalizes_equivalent_windows_paths() {
    let args = vec!["-c".to_string(), "src/main.cpp".to_string()];
    let a = request_fingerprint(
        WINDOWS,
        r"C:\LLVM\bin\clang++.exe",
        &args,
        r"C:\Work\Project",
        None,
        None,
    );
    let b = request_fingerprint(
        WINDOWS,
        "c:/llvm/bin/clang++.exe",
        &args,
        "c:/work/project",
        None,
        None,
    );
    assert_eq!(a, b);
}

#[test]
fn find_git_root_detects_git_directory() {
    let root = "/tmp/t/repo";
    let nested = "/tmp/t/repo/crates/demo";
    let probes = [dir("/tmp/t/repo/.git")];
    assert_eq!(find_git_root(UNIX, nested, &probes), Some(path(root)));
    assert_eq!(find_git_root(UNIX, nested, &[]), None);
    // A file marks a worktree too, and the innermost one counts.
    let linked = [
        dir("/tmp/t/repo/.git"),
        Probe {
            path: "/tmp/t/repo/crates/.git".to_string(),
            kind: FileKind::File,
            size: 30,
        },
    ];
    assert_eq!(
        find_git_root(UNIX, nested, &linked),
        Some(path("/tmp/t/repo/crates"))
    );
}

#[test]
fn the_search_for_a_worktree_stops_at_the_share() {
    let cwd = r"\\server\share\repo\src";
    assert_eq!(
        worktree_probes(PathStyle::Windows, cwd, None),
        vec![
            r"//server/share/repo/src\.git",
            r"//server/share/repo\.git",
            "//server/share/.git",
        ]
    );
    let probes = [dir(r"//server/share/repo\.git")];
    assert_eq!(
        find_git_root(PathStyle::Windows, cwd, &probes).unwrap().as_str(),
        "//server/share/repo"
    );
    let outside = [dir("//.git"), dir(r"//server\.git")];
    assert_eq!(find_git_root(PathStyle::Windows, cwd, &outside), None);
}

#[test]
fn worktree_probes_list_what_is_looked_at() {
    let vars = env(&[(WORKTREE_ROOT_ENV, "sub")]);
    assert_eq!(
        worktree_probes(UNIX, "/a/b", Some(&vars)),
        texts(&["/a/b/.git", "/a/.git", "/.git", "/a/b/sub"])
    );
    assert_eq!(
        worktree_probes(UNIX, "a", None),
        texts(&["a/.git", ".git"])
    );
}

#[test]
fn path_remap_auto_enabled_recognizes_auto_case_insensitive() {
    let env = vec![("ZCCACHE_PATH_REMAP".to_string(), "auto".to_string())];
    assert!(path_remap_auto_enabled(Some(&env)));
    let env = vec![("ZCCACHE_PATH_REMAP".to_string(), "AUTO".to_string())];
    assert!(path_remap_auto_enabled(Some(&env)));
    let env = vec![("ZCCACHE_PATH_REMAP".to_string(), "off".to_string())];
    assert!(!path_remap_auto_enabled(Some(&env)));
    assert!(!path_remap_auto_enabled(None));
}

#[test]
fn diag_path_remap_state_tags() {
    let auto = vec![("ZCCACHE_PATH_REMAP".to_string(), "auto".to_string())];
    assert_eq!(diag_path_remap_state(Some(&auto), true), "auto");
    assert_eq!(diag_path_remap_state(Some(&auto), false), "auto_no_git");
    assert_eq!(diag_path_remap_state(None, true), "off");
    assert_eq!(diag_path_remap_state(None, false), "off");
}

#[test]
fn client_env_value_takes_the_first_and_no_empty_one() {
    let vars = env(&[("A", ""), ("B", "1"), ("A", "2"), ("B", "3")]);
    assert_eq!(client_env_value(Some(&vars), "A"), None);
    assert_eq!(client_env_value(Some(&vars), "B"), Some("1"));
    assert_eq!(client_env_value(Some(&vars), "C"), None);
    assert_eq!(client_env_value(None, "A"), None);
}

#[test]
fn resolve_worktree_root_prefers_client_env_override() {
    let cwd = "/tmp/t/repo/subdir";
    let override_root = "/tmp/t/override-root";
    let probes = [dir(override_root), dir("/tmp/t/repo/.git")];
    let vars = env(&[(WORKTREE_ROOT_ENV, override_root)]);
    assert_eq!(
        resolve_worktree_root(UNIX, cwd, Some(&vars), &probes),
        Some(path(override_root))
    );
    // A root that is no directory is not taken.
    assert_eq!(
        resolve_worktree_root(UNIX, cwd, Some(&vars), &probes[1..]),
        Some(path("/tmp/t/repo"))
    );
}

#[test]
fn compile_worktree_root_asks_the_session_first() {
    let auto = env(&[(PATH_REMAP_ENV, "auto")]);
    let probes = [dir("/w/.git")];
    let known = SessionRoot {
        root: Some(path("/w/inner")),
        working_dir: path("/w/inner"),
    };
    let none = SessionRoot {
        root: None,
        working_dir: path("/w/x"),
    };
    let root =
        |session: Option<&SessionRoot>, cwd: &str, vars: Option<&Env>, probes: &[Probe]| {
            compile_worktree_root(UNIX, session, cwd, vars.map(|v| v.as_slice()), probes)
        };
    assert_eq!(root(Some(&known), "/w/inner/src", None, &probes), Some(path("/w/inner")));
    assert_eq!(root(Some(&known), "/w/other", None, &probes), Some(path("/w")));
    assert_eq!(root(Some(&none), "/w/x/y", None, &probes), None);
    assert_eq!(root(Some(&none), "/w/x/y", Some(&auto), &probes), Some(path("/w")));
    assert_eq!(root(Some(&none), "/w/x/y", Some(&auto), &[]), Some(path("/w/x/y")));
    assert_eq!(root(None, "/w/x/y", Some(&auto), &[]), Some(path("/w/x/y")));
    assert_eq!(root(None, "/w/x/y", None, &[]), None);
    let configured = env(&[(WORKTREE_ROOT_ENV, "/cfg"), (PATH_REMAP_ENV, "auto")]);
    assert_eq!(root(Some(&known), "/w/inner", Some(&configured), &[]), None);
    assert_eq!(
        root(Some(&known), "/w/inner", Some(&configured), &[dir("/cfg")]),
        Some(path("/cfg"))
    );
}

const ROOT_A: &str = "/tmp/t/workspace-a";
const ROOT_B: &str = "/tmp/t/workspace-b";

#[test]
fn request_fingerprint_matches_equivalent_roots_for_safe_paths() {
    let args = |root: &str| {
        vec![
            "-I".to_string(),
            format!("{root}/include"),
            "-c".to_string(),
            format!("{root}/src/main.cpp"),
            "-o".to_string(),
            format!("{root}/build/main.o"),
        ]
    };
    let a = fingerprint("/usr/bin/clang++", &args(ROOT_A), ROOT_A, Some(ROOT_A), None);
    let b = fingerprint("/usr/bin/clang++", &args(ROOT_B), ROOT_B, Some(ROOT_B), None);
    assert_eq!(a, b);
}

#[test]
fn request_fingerprint_keeps_external_paths_distinct() {
    let args_a = vec!["-I".to_string(), "/external-a/include".to_string()];
    let args_b = vec!["-I".to_string(), "/external-b/include".to_string()];
    let a = fingerprint(
        "/usr/bin/clang++",
        &args_a,
        "/workspace-a",
        Some("/workspace-a"),
        None,
    );
    let b = fingerprint(
        "/usr/bin/clang++",
        &args_b,
        "/workspace-b",
        Some("/workspace-b"),
        None,
    );
    assert_ne!(a, b);
}

#[test]
fn request_fingerprint_normalizes_cc_prefix_map_old_side() {
    let args_a = vec![format!("-ffile-prefix-map={ROOT_A}=.")];
    let args_b = vec![format!("-ffile-prefix-map={ROOT_B}=.")];
    let a = fingerprint("/usr/bin/clang++", &args_a, ROOT_A, Some(ROOT_A), None);
    let b = fingerprint("/usr/bin/clang++", &args_b, ROOT_B, Some(ROOT_B), None);
    assert_eq!(a, b);
}

#[test]
fn request_fingerprint_normalizes_rust_remap_detached_old_side() {
    let args_a = vec!["--remap-path-prefix".to_string(), format!("{ROOT_A}=.")];
    let args_b = vec!["--remap-path-prefix".to_string(), format!("{ROOT_B}=.")];
    let a = fingerprint("rustc", &args_a, ROOT_A, Some(ROOT_A), None);
    let b = fingerprint("rustc", &args_b, ROOT_B, Some(ROOT_B), None);
    assert_eq!(a, b);
}

#[test]
fn request_fingerprint_normalizes_rust_remap_equals_old_side() {
    let args_a = vec![format!("--remap-path-prefix={ROOT_A}=.")];
    let args_b = vec![format!("--remap-path-prefix={ROOT_B}=.")];
    let a = fingerprint("rustc", &args_a, ROOT_A, Some(ROOT_A), None);
    let b = fingerprint("rustc", &args_b, ROOT_B, Some(ROOT_B), None);
    assert_eq!(a, b);
}

#[test]
fn request_fingerprint_preserves_rust_remap_new_prefixes() {
    let args_a = vec![format!("--remap-path-prefix={ROOT_A}=.")];
    let args_b = vec![format!("--remap-path-prefix={ROOT_B}=/src")];
    let a = fingerprint("rustc", &args_a, ROOT_A, Some(ROOT_A), None);
    let b = fingerprint("rustc", &args_b, ROOT_B, Some(ROOT_B), None);
    assert_ne!(a, b);
}

#[test]
fn request_fingerprint_keeps_malformed_rust_remap_detached_values_distinct() {
    let args_a = vec!["--remap-path-prefix".to_string(), ROOT_A.to_string()];
    let args_b = vec!["--remap-path-prefix".to_string(), ROOT_B.to_string()];
    let a = fingerprint("rustc", &args_a, ROOT_A, Some(ROOT_A), None);
    let b = fingerprint("rustc", &args_b, ROOT_B, Some(ROOT_B), None);
    assert_ne!(a, b);
}

#[test]
fn request_preimage_is_exact() {
    let vars = env(&[("CARGO_PKG_NAME", "x"), ("HOME", "/h"), ("CARGO_A", "1")]);
    let bytes = request_preimage(
        UNIX,
        "/usr/bin/../bin/cc",
        &texts(&["-I/w/inc", "--remap-path-prefix", "/w=.", "-c"]),
        "/w/build",
        Some("/w"),
        Some(&vars),
    );
    let expected = "zccache-request-v2\0/usr/bin/../bin/cc\0-I$ZCCACHE_WORKTREE_ROOT/inc\0\
                    --remap-path-prefix\0$ZCCACHE_WORKTREE_ROOT=.\0-c\0$ZCCACHE_WORKTREE_ROOT/build\0\
                    CARGO_A=1\0CARGO_PKG_NAME=x\0";
    assert_eq!(bytes, expected.as_bytes());
}

fn auto_env() -> Env {
    env(&[(PATH_REMAP_ENV, "auto")])
}

const ROOT: &str = "/tmp/t/workspace";

fn effective(args: &[String], family: CompilerFamily, cwd: &str) -> Vec<String> {
    effective_compile_args(UNIX, args, family, cwd, Some(&path(ROOT)), Some(&auto_env()))
}

#[test]
fn effective_compile_args_auto_adds_root_and_cwd_maps() {
    let cwd = format!("{ROOT}/build");
    let args = texts(&["-c", "src/main.cc"]);
    let effective = effective(&args, CompilerFamily::Clang, &cwd);
    assert!(effective.contains(&"-c".to_string()));
    for flag in &[
        "-ffile-prefix-map",
        "-fmacro-prefix-map",
        "-fdebug-prefix-map",
    ] {
        let root_arg = format!("{flag}={ROOT}=.");
        let cwd_arg = format!("{flag}={cwd}=.");
        assert!(effective.contains(&root_arg), "expected {root_arg:?} in {effective:?}");
        assert!(effective.contains(&cwd_arg), "expected {cwd_arg:?} in {effective:?}");
    }
    let root_file_pos = effective
        .iter()
        .position(|a| a == &format!("-ffile-prefix-map={ROOT}=."))
        .unwrap();
    let cwd_file_pos = effective
        .iter()
        .position(|a| a == &format!("-ffile-prefix-map={cwd}=."))
        .unwrap();
    assert!(root_file_pos < cwd_file_pos);
}

#[test]
fn effective_compile_args_auto_cc_maps_are_fallbacks_before_user_maps() {
    let user_map = format!("-ffile-prefix-map={ROOT}/src/generated=/generated");
    let args = vec![user_map.clone(), "-c".to_string(), "src/main.cc".to_string()];
    let effective = effective(&args, CompilerFamily::Clang, ROOT);
    assert_eq!(effective[0], format!("-ffile-prefix-map={ROOT}=."));
    let user_map_pos = effective.iter().position(|arg| arg == &user_map).unwrap();
    assert!(user_map_pos > 0);
}

#[test]
fn effective_compile_args_auto_cc_debug_map_does_not_suppress_file_map() {
    let debug_map = format!("-fdebug-prefix-map={ROOT}=/debug");
    let args = vec![debug_map.clone(), "-c".to_string(), "src/main.cc".to_string()];
    let effective = effective(&args, CompilerFamily::Clang, ROOT);
    assert_eq!(effective[0], format!("-ffile-prefix-map={ROOT}=."));
    assert!(effective.contains(&debug_map));
    assert_eq!(effective.len(), 5);
}

#[test]
fn effective_compile_args_auto_adds_rust_root_remap_as_fallback() {
    let args = texts(&["--crate-type", "lib", "src/lib.rs"]);
    let effective = effective(&args, CompilerFamily::Rustc, ROOT);
    assert_eq!(
        &effective[..2],
        &["--remap-path-prefix".to_string(), format!("{ROOT}=.")]
    );
}

#[test]
fn effective_compile_args_auto_rust_remap_is_before_user_subtree_remap() {
    let user_remap = format!("--remap-path-prefix={ROOT}/src/generated=/generated");
    let args = vec![user_remap.clone(), "src/lib.rs".to_string()];
    let effective = effective(&args, CompilerFamily::Rustc, ROOT);
    assert_eq!(
        &effective[..2],
        &["--remap-path-prefix".to_string(), format!("{ROOT}=.")]
    );
    let user_remap_pos = effective.iter().position(|arg| arg == &user_remap).unwrap();
    assert!(user_remap_pos > 1);
}

#[test]
fn effective_compile_args_auto_keeps_existing_rust_root_remap() {
    let args = vec![
        format!("--remap-path-prefix={ROOT}=/src"),
        "src/lib.rs".to_string(),
    ];
    let effective = effective(&args, CompilerFamily::Rustc, ROOT);
    assert_eq!(effective, args);
}

#[test]
fn effective_compile_args_rust_remap_follows_clippy_workspace_wrapper_shim() {
    let rustc_shim =
        "/home/user/.rustup/toolchains/stable-x86_64-unknown-linux-gnu/bin/rustc".to_string();
    let args = vec![
        rustc_shim.clone(),
        "--crate-name".to_string(),
        "demo".to_string(),
        "src/main.rs".to_string(),
    ];
    let effective = effective(&args, CompilerFamily::Rustc, ROOT);
    assert_eq!(effective[0], rustc_shim, "shim must remain first: {effective:?}");
    assert_eq!(
        &effective[1..3],
        &["--remap-path-prefix".to_string(), format!("{ROOT}=.")],
        "remap must follow the shim: {effective:?}"
    );
    assert_eq!(
        &effective[3..],
        &[
            "--crate-name".to_string(),
            "demo".to_string(),
            "src/main.rs".to_string(),
        ]
    );
}

#[test]
fn effective_compile_args_are_stable_and_off_by_default() {
    let args = texts(&["-c", "src/main.cc"]);
    for family in [
        CompilerFamily::Clang,
        CompilerFamily::Gcc,
        CompilerFamily::Rustc,
        CompilerFamily::Msvc,
        CompilerFamily::Other,
    ] {
        let once = effective(&args, family, "/elsewhere");
        assert_eq!(effective(&once, family, "/elsewhere"), once);
        let off = effective_compile_args(UNIX, &args, family, ROOT, Some(&path(ROOT)), None);
        assert_eq!(off, args);
        let rootless = effective_compile_args(UNIX, &args, family, ROOT, None, Some(&auto_env()));
        assert_eq!(rootless, args);
    }
    assert_eq!(effective(&args, CompilerFamily::Msvc, ROOT), args);
    assert_eq!(effective(&args, CompilerFamily::Other, ROOT), args);
}

#[test]
fn rustc_workspace_wrapper_shim_len_detects_leading_rustc_path() {
    assert_eq!(
        rustc_workspace_wrapper_shim_len(
            UNIX,
            &["/x/y/bin/rustc".to_string(), "--crate-name".to_string()]
        ),
        1
    );
    assert_eq!(
        rustc_workspace_wrapper_shim_len(
            UNIX,
            &["rustc.exe".to_string(), "src/lib.rs".to_string()]
        ),
        1
    );
    assert_eq!(
        rustc_workspace_wrapper_shim_len(
            UNIX,
            &["--crate-name".to_string(), "demo".to_string()]
        ),
        0
    );
    assert_eq!(rustc_workspace_wrapper_shim_len(UNIX, &[]), 0);
    assert_eq!(
        rustc_workspace_wrapper_shim_len(WINDOWS, &["C:rustc.exe".to_string()]),
        1
    );
}

#[test]
fn request_fingerprint_includes_rust_key_env() {
    let args = vec!["src/lib.rs".to_string()];
    let env_a = vec![("CARGO_PKG_VERSION".to_string(), "1.0.0".to_string())];
    let env_b = vec![("CARGO_PKG_VERSION".to_string(), "1.0.1".to_string())];
    let a = fingerprint(
        "/usr/bin/rustc",
        &args,
        "/workspace",
        Some("/workspace"),
        Some(&env_a),
    );
    let b = fingerprint(
        "/usr/bin/rustc",
        &args,
        "/workspace",
        Some("/workspace"),
        Some(&env_b),
    );
    assert_ne!(a, b);
}

#[test]
fn request_fingerprint_ignores_cargo_target_dir() {
    let args = vec!["src/lib.rs".to_string()];
    let env_a = vec![
        ("CARGO_PKG_VERSION".to_string(), "1.0.0".to_string()),
        (
            "CARGO_TARGET_DIR".to_string(),
            "/repo/.agent/worktrees/parent-cache-main-target".to_string(),
        ),
    ];
    let env_b = vec![
        ("CARGO_PKG_VERSION".to_string(), "1.0.0".to_string()),
        (
            "CARGO_TARGET_DIR".to_string(),
            "/repo/.agent/worktrees/parent-cache-sub-target".to_string(),
        ),
    ];
    let a = fingerprint(
        "/usr/bin/rustc",
        &args,
        "/workspace",
        Some("/workspace"),
        Some(&env_a),
    );
    let b = fingerprint(
        "/usr/bin/rustc",
        &args,
        "/workspace",
        Some("/workspace"),
        Some(&env_b),
    );
    assert_eq!(a, b);
}

#[test]
fn request_fingerprint_keeps_external_out_dirs_distinct() {
    let args_a = texts(&[
        "--crate-name",
        "dep",
        "--out-dir",
        "/external/agent-a-target",
        "src/dep.rs",
    ]);
    let args_b = texts(&[
        "--crate-name",
        "dep",
        "--out-dir",
        "/external/agent-b-target",
        "src/dep.rs",
    ]);
    let env_a = vec![
        ("CARGO_PKG_VERSION".to_string(), "1.0.0".to_string()),
        (
            "CARGO_TARGET_DIR".to_string(),
            "/external/agent-a-target".to_string(),
        ),
    ];
    let env_b = vec![
        ("CARGO_PKG_VERSION".to_string(), "1.0.0".to_string()),
        (
            "CARGO_TARGET_DIR".to_string(),
            "/external/agent-b-target".to_string(),
        ),
    ];
    let a = fingerprint(
        "/usr/bin/rustc",
        &args_a,
        "/workspace",
        Some("/workspace"),
        Some(&env_a),
    );
    let b = fingerprint(
        "/usr/bin/rustc",
        &args_b,
        "/workspace",
        Some("/workspace"),
        Some(&env_b),
    );
    assert_ne!(a, b);
}

#[test]
fn request_env_vars_are_filtered_and_sorted() {
    let vars = env(&[
        ("CARGO_PKG_NAME", "b"),
        ("PATH", "/bin"),
        ("CARGO_MAKEFLAGS", "-j"),
        ("CARGO_INCREMENTAL", "1"),
        ("CARGO_MANIFEST_DIR", "/x"),
        ("CARGO_MANIFEST_PATH", "/x/y"),
        ("CARGO_TARGET_DIR", "/t"),
        ("CARGO_PKG_AUTHORS", "a"),
        ("CARGO_PKG_NAME", "a"),
    ]);
    assert_eq!(
        request_env_fingerprint_vars(Some(&vars)),
        env(&[
            ("CARGO_PKG_AUTHORS", "a"),
            ("CARGO_PKG_NAME", "a"),
            ("CARGO_PKG_NAME", "b"),
        ])
    );
    assert!(request_env_fingerprint_vars(None).is_empty());
    let mut reversed = vars.clone();
    reversed.reverse();
    assert_eq!(
        request_env_fingerprint_vars(Some(&reversed)),
        request_env_fingerprint_vars(Some(&vars))
    );
}

#[test]
fn request_args_are_spelled_relative_to_the_root() {
    let spell = |arg: &str| normalize_request_arg(UNIX, arg, Some("/w"));
    assert_eq!(spell("/w/a.c"), "$ZCCACHE_WORKTREE_ROOT/a.c");
    assert_eq!(spell("/w"), "$ZCCACHE_WORKTREE_ROOT");
    assert_eq!(spell("/other//a.c"), "/other/a.c");
    assert_eq!(spell("-I/w/inc"), "-I$ZCCACHE_WORKTREE_ROOT/inc");
    assert_eq!(spell("-L/w/lib"), "-L$ZCCACHE_WORKTREE_ROOT/lib");
    assert_eq!(spell("-I"), "-I");
    assert_eq!(spell("-Iinc"), "-Iinc");
    assert_eq!(spell("--sysroot=/w/sys"), "--sysroot=$ZCCACHE_WORKTREE_ROOT/sys");
    assert_eq!(spell("/w/a=b"), "$ZCCACHE_WORKTREE_ROOT/a=b");
    assert_eq!(spell("--remap-path-prefix=/w=."), "--remap-path-prefix=$ZCCACHE_WORKTREE_ROOT=.");
    assert_eq!(spell("--remap-path-prefix=rel=."), "--remap-path-prefix=rel=.");
    assert_eq!(
        spell("-fprofile-prefix-map=/w/x=/y"),
        "-fprofile-prefix-map=$ZCCACHE_WORKTREE_ROOT/x=/y"
    );
    assert_eq!(spell("-DX=/w/y"), "-DX=$ZCCACHE_WORKTREE_ROOT/y");
    assert_eq!(spell("-O2"), "-O2");
    assert_eq!(normalize_request_arg(UNIX, "/w//a.c", None), "/w//a.c");
    assert_eq!(
        normalize_path_for_request_key(WINDOWS, r"C:\W\Src\A.c", Some("c:/W")),
        "$ZCCACHE_WORKTREE_ROOT/src/a.c"
    );
}

#[test]
fn cc_prefix_map_args_are_split_at_the_first_equals_signs() {
    assert_eq!(
        split_cc_prefix_map_arg("-fmacro-prefix-map=/a=/b=c"),
        Some(("-fmacro-prefix-map", "/a".to_string(), "/b=c".to_string()))
    );
    assert_eq!(split_cc_prefix_map_arg("-ffile-prefix-map=/a"), None);
    assert_eq!(split_cc_prefix_map_arg("-ffile-prefix-mapx=/a=/b"), None);
    assert_eq!(split_cc_prefix_map_arg("-Wall"), None);
}

#[test]
fn worktree_is_in_the_key_for_msvc_and_headers() {
    assert!(requires_worktree_in_key(CompilerFamily::Msvc, SourceMode::Source));
    assert!(requires_worktree_in_key(CompilerFamily::Msvc, SourceMode::Header));
    assert!(requires_worktree_in_key(CompilerFamily::Clang, SourceMode::Header));
    assert!(!requires_worktree_in_key(CompilerFamily::Clang, SourceMode::Source));
    assert!(!requires_worktree_in_key(CompilerFamily::Gcc, SourceMode::Source));
    assert!(!requires_worktree_in_key(CompilerFamily::Rustc, SourceMode::Source));
}

#[test]
fn key_roots_need_a_remap_for_rust_only() {
    let root = path("/w");
    let bare = texts(&["src/lib.rs"]);
    let mapped = texts(&["--remap-path-prefix", "/w/=.", "src/lib.rs"]);
    assert_eq!(
        request_key_root(UNIX, CompilerFamily::Clang, &bare, Some(&root)),
        Some(root.clone())
    );
    assert_eq!(request_key_root(UNIX, CompilerFamily::Rustc, &bare, Some(&root)), None);
    assert_eq!(
        request_key_root(UNIX, CompilerFamily::Rustc, &mapped, Some(&root)),
        Some(root.clone())
    );
    assert_eq!(request_key_root(UNIX, CompilerFamily::Rustc, &mapped, None), None);
    assert_eq!(
        rustc_context_key_root(UNIX, &texts(&["/x=.", "/w=."]), Some(&root)),
        Some(root.clone())
    );
    assert_eq!(rustc_context_key_root(UNIX, &texts(&["/x=."]), Some(&root)), None);
}

#[test]
fn rust_remaps_are_told_apart() {
    let root = path("/w");
    let tell = |values: &[&str]| rust_remap_gate(UNIX, &texts(values), Some(&root));
    assert_eq!(tell(&["junk", "/w=."]), RustRemapGate::Pass);
    assert_eq!(tell(&[]), RustRemapGate::Missing);
    assert_eq!(tell(&["/w/sub=."]), RustRemapGate::Missing);
    assert_eq!(tell(&["/wx=."]), RustRemapGate::OldOutsideRoot);
    assert_eq!(tell(&["/x=.", "w=."]), RustRemapGate::Malformed);
    assert_eq!(tell(&["junk"]), RustRemapGate::Malformed);
    assert_eq!(
        rust_remap_gate(UNIX, &texts(&["/w=."]), None),
        RustRemapGate::Missing
    );
    assert_eq!(RustRemapGate::Pass.as_str(), "rust_remap_gate_ok");
    assert_eq!(RustRemapGate::Missing.as_str(), "rust_remap_missing");
    assert_eq!(
        RustRemapGate::OldOutsideRoot.as_str(),
        "rust_remap_old_outside_root"
    );
    assert_eq!(RustRemapGate::Malformed.as_str(), "rust_remap_malformed");
}

#[test]
fn requests_move_with_the_worktree_in_every_form() {
    let args = |root: &str| {
        texts(&[
            &format!("{root}/a.c"),
            &format!("-I{root}/inc"),
            &format!("-L{root}/lib"),
            &format!("-fcoverage-prefix-map={root}/x=/y"),
            &format!("--remap-path-prefix={root}/x=/y"),
            &format!("--out={root}/o"),
            "--remap-path-prefix",
            &format!("{root}=."),
            "--remap-path-prefix",
            "/outside=/o",
            "--remap-path-prefix",
            "malformed",
            "-O2",
            "/usr/include",
        ])
    };
    let bytes = |root: &str| {
        let cwd = format!("{root}/build");
        request_preimage(UNIX, "cc", &args(root), &cwd, Some(root), None)
    };
    assert_eq!(bytes("/one"), bytes("/two/deep"));
    assert_ne!(bytes("/one"), request_preimage(UNIX, "cc", &args("/one"), "/", Some("/one"), None));
}
