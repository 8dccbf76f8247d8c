//! What `rustc` reads and writes.

use zccache::command::{
    argument_dialect, build_compile_context, ArgumentDialect, BuildContextResult, ParsedCommand,
};
use zccache::context::{IncludeSearchPaths, ParsedArgs, UserDepFlags};
use zccache::hash::hash_bytes;
use zccache::keys::CompilerFamily;
use zccache::path::{NormalizedPath, PathStyle};
use zccache::probe::{FileKind, Probe};
use zccache::rustc::depinfo::{
    depinfo_probes, parse_rustc_depinfo, rustc_depfile_path, scan_rustc_deps,
};
use zccache::rustc::outputs::{
    collect_rustc_output_files, rustc_expected_output_paths, rustc_output_probes,
};
use zccache::rustc::RustcParsedArgs;

const UNIX: PathStyle = PathStyle::Unix;

fn path(text: &str) -> NormalizedPath {
    NormalizedPath::new(UNIX, text)
}

fn paths(list: &[&str]) -> Vec<NormalizedPath> {
    list.iter().map(|p| path(p)).collect()
}

fn texts(list: &[&str]) -> Vec<String> {
    list.iter().map(|t| t.to_string()).collect()
}

fn files(list: &[&str]) -> Vec<Probe> {
    list.iter()
        .map(|p| Probe {
            path: p.to_string(),
            kind: FileKind::File,
            size: p.len() as u64,
        })
        .collect()
}

fn args(emit: &[&str], explicit: &[(&str, &str)]) -> RustcParsedArgs {
    RustcParsedArgs {
        source_file: path("/w/src/lib.rs"),
        emit_types: texts(emit),
        crate_name: Some("demo".to_string()),
        extra_filename: Some("-1a".to_string()),
        out_dir: Some(path("/out")),
        explicit_emit_paths: explicit
            .iter()
            .map(|(k, p)| (k.to_string(), path(p)))
            .collect(),
        remap_path_prefixes: Vec::new(),
    }
}

#[test]
fn depinfo_puts_the_rules_together() {
    let content = "/out/demo.d: src/lib.rs src/util.rs\n\
                   /out/libdemo.rlib: src/lib.rs src/util.rs /abs/gen.rs\r\n\
                   \n\
                   src/lib.rs:\n\
                   src/util.rs:\n\
                   # env-dep:ZED=1=2\n\
                   # env-dep: HOME \n\
                   # env-dep:ZED\n\
                   # env-dep:=x\n\
                   # a comment: src/not.rs\n\
                   no colon here\n";
    let known = files(&["/w/src/lib.rs", "/w/src/util.rs", "/abs/gen.rs"]);
    let scan = parse_rustc_depinfo(UNIX, content, "src/lib.rs", "/w", &known);
    assert_eq!(scan.scan.resolved, paths(&["/abs/gen.rs", "/w/src/util.rs"]));
    assert!(scan.scan.unresolved.is_empty());
    assert!(!scan.scan.has_computed);
    assert_eq!(scan.env_dep_names, texts(&["HOME", "ZED"]));
    // What is not there is left out.
    let scan = parse_rustc_depinfo(UNIX, content, "/w/src/lib.rs", "/w", &known[..2]);
    assert_eq!(scan.scan.resolved, paths(&["/w/src/util.rs"]));
    assert_eq!(
        depinfo_probes(UNIX, content, "src/lib.rs", "/w"),
        texts(&["/w/src/util.rs", "/abs/gen.rs"])
    );
}

#[test]
fn depinfo_lists_a_file_once_however_it_is_named() {
    let content = "a.d: src/u.rs\nlibx.rlib: /w/src/u.rs ./src//u.rs\n";
    let known = files(&["/w/src/u.rs", "/w/./src//u.rs"]);
    let scan = parse_rustc_depinfo(UNIX, content, "/w/src/lib.rs", "/w", &known);
    assert_eq!(scan.scan.resolved, paths(&["/w/src/u.rs"]));
}

#[test]
fn depinfo_reads_escapes_and_drive_letters() {
    assert_eq!(
        depinfo_probes(UNIX, "out: a\\ b.rs c\\\\d.rs\te.rs \\", "x", "/w"),
        texts(&["/w/a b.rs", "/w/c\\\\d.rs", "/w/e.rs", "/w/\\"])
    );
    assert_eq!(
        depinfo_probes(PathStyle::Windows, "C:\\t.d: D:\\a.rs b.rs", "x", "C:\\w"),
        texts(&["D:\\a.rs", "C:\\w\\b.rs"])
    );
    assert_eq!(
        depinfo_probes(UNIX, "C:\\t.d", "x", "/w"),
        Vec::<String>::new()
    );
}

#[test]
fn depfiles_are_found_where_they_are_written() {
    assert_eq!(
        rustc_depfile_path(UNIX, &args(&["dep-info"], &[]), "/w"),
        Some("/out/demo-1a.d".to_string())
    );
    assert_eq!(
        rustc_depfile_path(UNIX, &args(&["link", "dep-info"], &[("dep-info", "/x/y.d")]), "/w"),
        Some("/x/y.d".to_string())
    );
    assert_eq!(rustc_depfile_path(UNIX, &args(&["link"], &[]), "/w"), None);
    let mut bare = args(&["dep-info"], &[]);
    bare.crate_name = None;
    bare.extra_filename = None;
    bare.out_dir = None;
    assert_eq!(
        rustc_depfile_path(UNIX, &bare, "/w"),
        Some("/w/unknown.d".to_string())
    );
}

#[test]
fn scans_need_dep_info_and_its_content() {
    let known = files(&["/w/a.rs"]);
    let scan = |a: &RustcParsedArgs, content: Option<&str>| {
        scan_rustc_deps(UNIX, a, "src/lib.rs", "/w", content, &known)
            .scan
            .resolved
    };
    assert_eq!(scan(&args(&["dep-info"], &[]), Some("out: a.rs")), paths(&["/w/a.rs"]));
    assert!(scan(&args(&["dep-info"], &[]), None).is_empty());
    assert!(scan(&args(&["link"], &[]), Some("out: a.rs")).is_empty());
}

#[test]
fn expected_outputs_follow_the_emit_kinds() {
    let kinds = [
        "metadata", "link", "dep-info", "obj", "asm", "llvm-ir", "llvm-bc", "bitcode", "mir",
        "odd",
    ];
    assert_eq!(
        rustc_expected_output_paths(UNIX, &args(&kinds, &[]), "/out/libdemo-1a.rlib", "/w"),
        paths(&[
            "/out/libdemo-1a.rlib",
            "/out/libdemo-1a.rmeta",
            "/out/demo-1a.d",
            "/out/demo-1a.o",
            "/out/demo-1a.s",
            "/out/demo-1a.ll",
            "/out/demo-1a.bc",
            "/out/demo-1a.mir",
        ])
    );
}

#[test]
fn expected_outputs_take_given_paths() {
    assert_eq!(
        rustc_expected_output_paths(
            UNIX,
            &args(&["link", "metadata", "dep-info"], &[("link", "/bin/demo"), ("dep-info", "/x.d")]),
            "/out/libdemo-1a.rlib",
            "/w"
        ),
        paths(&["/bin/demo", "/out/libdemo-1a.rmeta", "/x.d"])
    );
    // A given path takes the place of one that it could be.
    assert_eq!(
        rustc_expected_output_paths(
            UNIX,
            &args(&["obj"], &[("asm", "/a.s"), ("asm", "/b.s")]),
            "/out/libdemo-1a.rlib",
            "/w"
        ),
        paths(&["/out/libdemo-1a.rlib", "/out/demo-1a.o", "/b.s"])
    );
}

#[test]
fn outputs_are_collected_once_by_name() {
    let a = args(
        &["link", "metadata", "dep-info", "obj"],
        &[("asm", "/else/demo.s"), ("mir", "/else/demo-1a.d")],
    );
    let primary = "/out/libdemo-1a.rmeta";
    let mut probes = files(&[
        "/out/libdemo-1a.rmeta",
        "/out/libdemo-1a.a",
        "/out/demo-1a.d",
        "/else/demo.s",
        "/else/demo-1a.d",
    ]);
    let names = |probes: &[Probe]| -> Vec<(String, String, u64)> {
        collect_rustc_output_files(UNIX, &a, primary, "/w", probes)
            .iter()
            .map(|o| (o.name.clone(), o.path.as_str().to_string(), o.size))
            .collect()
    };
    let found = |p: &str| {
        let name = p.rsplit('/').next().unwrap().to_string();
        (name, p.to_string(), p.len() as u64)
    };
    assert_eq!(
        names(&probes),
        vec![
            found(primary),
            found("/out/libdemo-1a.a"),
            found("/out/demo-1a.d"),
            found("/else/demo.s"),
        ]
    );
    // A directory is no output, and without the primary output there is none.
    probes[3].kind = FileKind::Directory;
    assert_eq!(names(&probes).len(), 3);
    assert!(names(&probes[1..]).is_empty());
    assert_eq!(
        rustc_output_probes(UNIX, &a, primary, "/w"),
        texts(&[
            "/out/libdemo-1a.rmeta",
            "/out/libdemo-1a.rmeta",
            "/out/libdemo-1a.rlib",
            "/out/libdemo-1a.a",
            "/out/demo-1a.d",
            "/else/demo.s",
            "/else/demo-1a.d",
        ])
    );
}

#[test]
fn contexts_are_built_from_parsed_commands() {
    let parsed = ParsedArgs {
        source_file: path("/w/first.c"),
        include_search: IncludeSearchPaths {
            user: paths(&["/w/inc"]),
            system: paths(&["/usr/include"]),
        },
        defines: texts(&["-DX"]),
        flags: texts(&["-O2"]),
        force_includes: Vec::new(),
        unknown_flags: Vec::new(),
        dep_flags: UserDepFlags {
            flags: texts(&["-MD"]),
        },
    };
    let built = build_compile_context(
        UNIX,
        ParsedCommand::Cc(parsed),
        "second.c",
        "/w",
        &paths(&["/usr/include", "/opt/include"]),
        None,
        None,
    );
    match built {
        BuildContextResult::Cc { ctx, dep_flags } => {
            assert_eq!(ctx.source_file, path("/w/second.c"));
            assert_eq!(
                ctx.include_search.system,
                paths(&["/usr/include", "/opt/include"])
            );
            assert_eq!(ctx.include_search.user, paths(&["/w/inc"]));
            assert_eq!(ctx.defines, texts(&["-DX"]));
            assert_eq!(dep_flags.flags, texts(&["-MD"]));
        }
        other => panic!("expected a C context, got {other:?}"),
    }

    let vars = vec![
        ("PATH".to_string(), "/bin".to_string()),
        ("CARGO_PKG_NAME".to_string(), "demo".to_string()),
    ];
    let built = build_compile_context(
        UNIX,
        ParsedCommand::Rustc(args(&["link"], &[])),
        "ignored.rs",
        "/w",
        &[],
        Some(&vars),
        Some(hash_bytes(b"rustc 1.0")),
    );
    match built {
        BuildContextResult::Rustc {
            rustc_ctx,
            compat_ctx,
            rustc_args,
        } => {
            assert_eq!(compat_ctx.source_file, path("/w/src/lib.rs"));
            assert!(compat_ctx.flags.is_empty());
            assert_eq!(rustc_ctx.key_env, vars[1..].to_vec());
            assert_eq!(rustc_ctx.compiler_hash, Some(hash_bytes(b"rustc 1.0")));
            assert_eq!(rustc_args.emit_types, texts(&["link"]));
        }
        other => panic!("expected a Rust context, got {other:?}"),
    }
    assert_eq!(argument_dialect(CompilerFamily::Rustc), ArgumentDialect::Rustc);
    assert_eq!(argument_dialect(CompilerFamily::Msvc), ArgumentDialect::Msvc);
    assert_eq!(argument_dialect(CompilerFamily::Gcc), ArgumentDialect::Gnu);
    assert_eq!(argument_dialect(CompilerFamily::Other), ArgumentDialect::Gnu);
}
