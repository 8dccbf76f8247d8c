//! From parsed command lines to compile contexts.

use vstd::prelude::*;
use crate::context::{
    merge_paths, parsed_context, CompileContext, ContextView, IncludeSearchPaths, ParsedArgs, UserDepFlags,
};
use crate::graph::ingest::with_system;
use crate::hash::ContentHash;
use crate::keys::{env_view, CompilerFamily};
use crate::path::{clean, path_views, resolve, resolved, NormalizedPath, PathStyle};
use crate::request::{key_vars, request_env_fingerprint_vars};
use crate::rustc::RustcParsedArgs;
use crate::text::pair_views;

verus! {

/// The command-line dialects.
#[derive(Clone, Copy, Debug, PartialEq, Eq, Structural)]
pub enum ArgumentDialect {
    /// That of GCC, which Clang shares.
    Gnu,
    /// That of Microsoft's compiler.
    Msvc,
    /// That of `rustc`.
    Rustc,
}

/// The dialect that a compiler's command line is written in.
pub fn argument_dialect(family: CompilerFamily) -> (dialect: ArgumentDialect)
    ensures
        dialect == (match family {
            CompilerFamily::Rustc => ArgumentDialect::Rustc,
            CompilerFamily::Msvc => ArgumentDialect::Msvc,
            _ => ArgumentDialect::Gnu,
        }),
{
    match family {
        CompilerFamily::Rustc => ArgumentDialect::Rustc,
        CompilerFamily::Msvc => ArgumentDialect::Msvc,
        CompilerFamily::Gcc => ArgumentDialect::Gnu,
        CompilerFamily::Clang => ArgumentDialect::Gnu,
        CompilerFamily::Other => ArgumentDialect::Gnu,
    }
}

/// What a Rust compilation depends on besides its files and arguments.
#[derive(Debug)]
pub struct RustcCompileContext {
    /// The crate root.
    pub source_file: NormalizedPath,
    /// The variables that count, in order.
    pub key_env: Vec<(String, String)>,
    /// The identity of the compiler, where it could be found out.
    pub compiler_hash: Option<ContentHash>,
}

/// A parsed command line.
#[derive(Debug)]
pub enum ParsedCommand {
    /// Of a C or C++ compiler.
    Cc(ParsedArgs),
    /// Of `rustc`.
    Rustc(RustcParsedArgs),
}

/// The context of a compilation.
#[derive(Debug)]
pub enum BuildContextResult {
    /// Of C or C++.
    Cc {
        /// The context.
        ctx: CompileContext,
        /// The dependency-file flags.
        dep_flags: UserDepFlags,
    },
    /// Of Rust.
    Rustc {
        /// What the context key is made of.
        rustc_ctx: RustcCompileContext,
        /// What the dependency graph stores: the crate root alone.
        compat_ctx: CompileContext,
        /// The arguments.
        rustc_args: RustcParsedArgs,
    },
}

/// The context of one source file of a C or C++ command line: with this source, whichever the
/// command line names first, and with the session's system search directories.
pub open spec fn cc_context(
    style: PathStyle,
    parsed: ParsedArgs,
    source: Seq<char>,
    cwd: Seq<char>,
    system: Seq<Seq<char>>,
) -> ContextView {
    ContextView {
        source: clean(style, resolved(style, cwd, source)),
        ..with_system(parsed_context(parsed), system)
    }
}

/// A context with a source file and nothing else.
pub open spec fn bare_context(source: Seq<char>) -> ContextView {
    ContextView {
        source,
        user: Seq::empty(),
        system: Seq::empty(),
        defines: Seq::empty(),
        flags: Seq::empty(),
        forced: Seq::empty(),
        unknown: Seq::empty(),
    }
}

/// The context of a Rust compilation.
pub fn build_rustc_compile_context(
    rustc_args: RustcParsedArgs,
    client_env: Option<&[(String, String)]>,
    compiler_hash: Option<ContentHash>,
) -> (result: BuildContextResult)
    ensures
        match result {
            BuildContextResult::Rustc { rustc_ctx, compat_ctx, rustc_args: kept } => {
                &&& rustc_ctx.source_file@ == rustc_args.source_file@
                &&& pair_views(rustc_ctx.key_env@) == key_vars(env_view(client_env))
                &&& rustc_ctx.compiler_hash == compiler_hash
                &&& compat_ctx@ == bare_context(rustc_args.source_file@)
                &&& kept == rustc_args
            },
            BuildContextResult::Cc { .. } => false,
        },
{
    let rustc_ctx = RustcCompileContext {
        source_file: rustc_args.source_file.clone(),
        key_env: request_env_fingerprint_vars(client_env),
        compiler_hash,
    };
    let compat_ctx = CompileContext {
        source_file: rustc_args.source_file.clone(),
        include_search: IncludeSearchPaths { user: Vec::new(), system: Vec::new() },
        defines: Vec::new(),
        flags: Vec::new(),
        force_includes: Vec::new(),
        unknown_flags: Vec::new(),
    };
    proof {
        let c = compat_ctx@;
        let none = Seq::<Seq<char>>::empty();
        assert(c.user =~= none && c.system =~= none && c.defines =~= none && c.flags =~= none && c.forced =~= none
            && c.unknown =~= none);
    }
    BuildContextResult::Rustc { rustc_ctx, compat_ctx, rustc_args }
}

/// The context of a compilation, from its parsed command line.
pub fn build_compile_context(
    style: PathStyle,
    parsed: ParsedCommand,
    source_file: &str,
    cwd: &str,
    system_includes: &[NormalizedPath],
    client_env: Option<&[(String, String)]>,
    compiler_hash: Option<ContentHash>,
) -> (result: BuildContextResult)
    ensures
        match (parsed, result) {
            (ParsedCommand::Cc(args), BuildContextResult::Cc { ctx, dep_flags }) => {
                &&& ctx@ == cc_context(style, args, source_file@, cwd@, path_views(system_includes@))
                &&& dep_flags == args.dep_flags
            },
            (ParsedCommand::Rustc(args), BuildContextResult::Rustc { rustc_ctx, compat_ctx, rustc_args }) => {
                &&& rustc_ctx.source_file@ == args.source_file@
                &&& pair_views(rustc_ctx.key_env@) == key_vars(env_view(client_env))
                &&& rustc_ctx.compiler_hash == compiler_hash
                &&& compat_ctx@ == bare_context(args.source_file@)
                &&& rustc_args == args
            },
            _ => false,
        },
{
    match parsed {
        ParsedCommand::Rustc(args) => build_rustc_compile_context(args, client_env, compiler_hash),
        ParsedCommand::Cc(args) => {
            let source = resolve(style, cwd, source_file);
            let mut ctx = CompileContext {
                source_file: NormalizedPath::new(style, source.as_str()),
                include_search: args.include_search,
                defines: args.defines,
                flags: args.flags,
                force_includes: args.force_includes,
                unknown_flags: args.unknown_flags,
            };
            merge_paths(&mut ctx.include_search.system, system_includes);
            BuildContextResult::Cc { ctx, dep_flags: args.dep_flags }
        },
    }
}

} // verus!
