//! Filling the graph from a list of compile commands.

use vstd::prelude::*;
use super::checks::{key_of, registered};
use super::{DepGraph, GraphView};
use crate::context::{merge_paths, merged, parsed_context, CompileContext, ContextView, ParsedArgs};
use crate::hash::ContextKey;
use crate::order::reversed;
use crate::path::{path_views, NormalizedPath, PathStyle};

verus! {

/// The context with these directories after its own system search directories, none twice.
pub open spec fn with_system(context: ContextView, system: Seq<Seq<char>>) -> ContextView {
    ContextView { system: merged(context.system, system), ..context }
}

/// The contexts of a list of commands.
pub open spec fn command_contexts(commands: Seq<ParsedArgs>, system: Seq<Seq<char>>) -> Seq<ContextView> {
    Seq::new(commands.len(), |i: int| with_system(parsed_context(commands[i]), system))
}

/// The keys of a list of contexts.
pub open spec fn keys_of(style: PathStyle, contexts: Seq<ContextView>) -> Seq<Seq<char>> {
    Seq::new(contexts.len(), |i: int| key_of(style, contexts[i], None, None))
}

/// The graph after the contexts were registered one after the other, each at its time.
pub open spec fn ingested(g: GraphView, contexts: Seq<ContextView>, times: Seq<u128>) -> GraphView
    decreases contexts.len(),
{
    if contexts.len() == 0 {
        g
    } else {
        let before = ingested(g, contexts.drop_last(), times);
        registered(
            before,
            key_of(g.style, contexts.last(), None, None),
            contexts.last(),
            None,
            times[contexts.len() - 1],
        )
    }
}

/// Ingesting leaves the path style alone and does not look at later times.
proof fn lemma_ingested(g: GraphView, contexts: Seq<ContextView>, times: Seq<u128>, more: u128)
    requires
        contexts.len() <= times.len(),
    ensures
        ingested(g, contexts, times).style == g.style,
        ingested(g, contexts, times.push(more)) == ingested(g, contexts, times),
    decreases contexts.len(),
{
    if contexts.len() > 0 {
        lemma_ingested(g, contexts.drop_last(), times, more);
    }
}

/// Which keys the graph has afterwards: those it had, and those of the contexts.
pub proof fn lemma_ingested_keys(g: GraphView, contexts: Seq<ContextView>, times: Seq<u128>)
    requires
        contexts.len() <= times.len(),
    ensures
        ingested(g, contexts, times).contexts.dom() == g.contexts.dom().union(keys_of(g.style, contexts).to_set()),
    decreases contexts.len(),
{
    let keys = keys_of(g.style, contexts);
    if contexts.len() > 0 {
        let init = contexts.drop_last();
        lemma_ingested_keys(g, init, times);
        let key = key_of(g.style, contexts.last(), None, None);
        assert(keys =~= keys_of(g.style, init).push(key));
        assert(keys.to_set() =~= keys_of(g.style, init).to_set().insert(key)) by {
            let front = keys_of(g.style, init);
            assert forall|x: Seq<char>| keys.contains(x) <==> front.contains(x) || x == key by {
                if front.contains(x) {
                    let i = front.index_of(x);
                    assert(keys[i] == x);
                }
                assert(keys[front.len() as int] == key);
                if keys.contains(x) && x != key {
                    let i = keys.index_of(x);
                    assert(front[i] == x);
                }
            }
        }
        assert(ingested(g, contexts, times).contexts.dom() =~= g.contexts.dom().union(keys.to_set()));
    } else {
        assert(g.contexts.dom() =~= g.contexts.dom().union(keys.to_set()));
    }
}

impl DepGraph {
    /// Registers the context of every command, with the given system search directories merged
    /// into its own. Returns the keys, in order.
    pub fn ingest_compile_commands(&mut self, commands: Vec<ParsedArgs>, system_includes: &[NormalizedPath]) -> (keys: Vec<
        ContextKey,
    >)
        requires
            old(self).wf(),
        ensures
            final(self).wf(),
            keys@.len() == commands@.len(),
            forall|i: int|
                0 <= i < keys@.len() ==> (#[trigger] keys@[i])@ == key_of(
                    old(self)@.style,
                    command_contexts(commands@, path_views(system_includes@))[i],
                    None,
                    None,
                ),
            exists|times: Seq<u128>|
                {
                    &&& times.len() == commands@.len()
                    &&& final(self)@ == #[trigger] ingested(
                        old(self)@,
                        command_contexts(commands@, path_views(system_includes@)),
                        times,
                    )
                },
    {
        let ghost start = self@;
        let ghost all = commands@;
        let ghost contexts = command_contexts(all, path_views(system_includes@));
        let ghost mut times: Seq<u128> = Seq::empty();
        let mut rest = reversed(commands);
        let mut keys: Vec<ContextKey> = Vec::new();
        assert(contexts.take(0) =~= Seq::<ContextView>::empty());
        while rest.len() > 0
            invariant
                self.wf(),
                rest@.len() + keys@.len() == all.len(),
                rest@ == all.reverse().take(rest@.len() as int),
                contexts == command_contexts(all, path_views(system_includes@)),
                times.len() == keys@.len(),
                self@ == ingested(start, contexts.take(keys@.len() as int), times),
                self@.style == start.style,
                forall|i: int| 0 <= i < keys@.len() ==> (#[trigger] keys@[i])@ == key_of(start.style, contexts[i], None, None),
            decreases rest@.len(),
        {
            let ghost n = keys@.len() as int;
            let ghost mid = self@;
            match rest.pop() {
                Some(parsed) => {
                    assert(parsed == all[n]);
                    assert(rest@ =~= all.reverse().take(rest@.len() as int));
                    let mut context = CompileContext::from_parsed_args(parsed);
                    merge_paths(&mut context.include_search.system, system_includes);
                    assert(context@ == contexts[n]);
                    let key = self.register(context);
                    proof {
                        let now = choose|now: u128| self@ == #[trigger] registered(mid, key@, context@, None, now);
                        let done = contexts.take(n);
                        lemma_ingested(start, done, times, now);
                        assert(contexts.take(n + 1).drop_last() =~= done);
                        assert(contexts.take(n + 1).last() == contexts[n]);
                        times = times.push(now);
                        assert(self@ == ingested(start, contexts.take(n + 1), times));
                    }
                    keys.push(key);
                },
                None => {},
            }
        }
        assert(contexts.take(contexts.len() as int) =~= contexts);
        keys
    }
}

} // verus!
