//! That the differ, answered truthfully, asks the right questions and ends
//! with the right plan.
//!
//! A script is the conversation that a comparison of a given source tree
//! with a given target side consists of: each request in turn, with the
//! answer that the two sides give to it.

use vstd::prelude::*;
use crate::differ::{
    is_skipped, lemma_stacked_first, resume, stacked, task_for, Phase, RequestView, ResponseView,
    Task, Walk,
};
use crate::plan::{
    lemma_followed_by_assoc, lemma_followed_by_empty, lemma_followed_by_one_directory,
    lemma_followed_by_one_file, Plan,
};
use crate::tree::{diff_entries, diff_entry, listing, SourceNode, Target};

verus! {

/// A request together with the answer given to it.
pub struct Exchange {
    pub request: RequestView,
    pub response: ResponseView,
}

/// The state that `walk` reaches when it makes the requests of `script` in
/// turn and is given its answers, or `None` if at some point it does not
/// make the request that the script has next.
pub open spec fn replay(walk: Walk, script: Seq<Exchange>) -> Option<Walk>
    decreases script.len(),
{
    if script.len() == 0 {
        Some(walk)
    } else if walk.request() != Some(script[0].request) {
        None
    } else {
        replay(walk.step(script[0].response), script.skip(1))
    }
}

/// The conversation about the entries `entries` of the source directory
/// `source`, whose counterpart is `target`.
pub open spec fn script_entries(
    entries: Seq<SourceNode>,
    source: Seq<Seq<char>>,
    target: Seq<Seq<char>>,
    existing: Target,
    excluded: Set<Seq<Seq<char>>>,
) -> Seq<Exchange>
    decreases entries,
{
    if entries.len() == 0 {
        Seq::empty()
    } else {
        script_entry(entries[0], source, target, existing, excluded) + script_entries(
            entries.subrange(1, entries.len() as int),
            source,
            target,
            existing,
            excluded,
        )
    }
}

/// The conversation about the entry `node` of the source directory
/// `source`, whose counterpart is `target`.
///
/// Nothing is asked about an excluded directory. Of any other entry it is
/// asked first whether its counterpart exists. For a file whose
/// counterpart exists the two times are asked next. For a directory its
/// listing is asked next, and the conversation about its entries follows.
pub open spec fn script_entry(
    node: SourceNode,
    source: Seq<Seq<char>>,
    target: Seq<Seq<char>>,
    existing: Target,
    excluded: Set<Seq<Seq<char>>>,
) -> Seq<Exchange>
    decreases node,
{
    let from = source.push(node.name());
    let to = target.push(node.name());
    let probe = Exchange {
        request: RequestView::Exists { target: to },
        response: ResponseView::Exists(existing.contains_key(to)),
    };
    match node {
        SourceNode::File { modified, .. } => {
            if existing.contains_key(to) {
                seq![
                    probe,
                    Exchange {
                        request: RequestView::Modified { source: from, target: to },
                        response: ResponseView::Modified { source: modified, target: existing[to] },
                    },
                ]
            } else {
                seq![probe]
            }
        },
        SourceNode::Directory { entries, .. } => {
            if excluded.contains(from) {
                Seq::empty()
            } else {
                seq![
                    probe,
                    Exchange {
                        request: RequestView::List { source: from },
                        response: ResponseView::Listing(listing(entries)),
                    },
                ] + script_entries(entries, from, to, existing, excluded)
            }
        },
    }
}

/// The whole conversation of the comparison of the directory `source`,
/// which has the entries `entries`, with `target`.
pub open spec fn script(
    entries: Seq<SourceNode>,
    source: Seq<Seq<char>>,
    target: Seq<Seq<char>>,
    existing: Target,
    excluded: Set<Seq<Seq<char>>>,
) -> Seq<Exchange> {
    seq![
        Exchange {
            request: RequestView::List { source },
            response: ResponseView::Listing(listing(entries)),
        },
    ] + script_entries(entries, source, target, existing, excluded)
}

/// The state of a comparison that has finished with the plan `plan`.
pub open spec fn finished(excluded: Set<Seq<Seq<char>>>, plan: Plan) -> Walk {
    Walk { excluded, pending: Seq::empty(), phase: Phase::Finished, plan }
}

/// Replaying a script that starts with `first` is making that request,
/// taking that answer, and replaying the rest.
proof fn lemma_replay_first(walk: Walk, first: Exchange, rest: Seq<Exchange>)
    ensures
        replay(walk, seq![first] + rest) == if walk.request() == Some(first.request) {
            replay(walk.step(first.response), rest)
        } else {
            None
        },
{
    let script = seq![first] + rest;
    assert(script[0] == first);
    assert(script.skip(1) =~= rest);
}

/// Replaying two scripts one after the other is replaying the two of them
/// joined.
proof fn lemma_replay_joined(walk: Walk, a: Seq<Exchange>, b: Seq<Exchange>)
    ensures
        replay(walk, a + b) == match replay(walk, a) {
            Some(between) => replay(between, b),
            None => None,
        },
    decreases a.len(),
{
    if a.len() == 0 {
        assert(a + b =~= b);
    } else {
        assert((a + b)[0] == a[0]);
        assert((a + b).skip(1) =~= a.skip(1) + b);
        if walk.request() == Some(a[0].request) {
            lemma_replay_joined(walk.step(a[0].response), a.skip(1), b);
        }
    }
}

/// The state in which the entries of a listing have just been put in line
/// on top of `below`, with `plan` planned so far.
pub open spec fn lined_up(
    entries: Seq<SourceNode>,
    source: Seq<Seq<char>>,
    target: Seq<Seq<char>>,
    excluded: Set<Seq<Seq<char>>>,
    below: Seq<Task>,
    plan: Plan,
) -> Walk {
    let pending = below + stacked(listing(entries), source, target, excluded);
    Walk { excluded, pending, phase: resume(pending), plan }
}

/// The state in which everything above `below` has been dealt with, with
/// `plan` planned so far.
pub open spec fn settled(excluded: Set<Seq<Seq<char>>>, below: Seq<Task>, plan: Plan) -> Walk {
    Walk { excluded, pending: below, phase: resume(below), plan }
}

/// With the entries of a directory in line, the conversation about them
/// leaves what was below them, and adds their plan to what was planned.
proof fn lemma_replay_entries(
    entries: Seq<SourceNode>,
    source: Seq<Seq<char>>,
    target: Seq<Seq<char>>,
    existing: Target,
    excluded: Set<Seq<Seq<char>>>,
    below: Seq<Task>,
    plan: Plan,
)
    ensures
        replay(
            lined_up(entries, source, target, excluded, below, plan),
            script_entries(entries, source, target, existing, excluded),
        ) == Some(
            settled(
                excluded,
                below,
                plan.followed_by(diff_entries(entries, source, target, existing, excluded)),
            ),
        ),
    decreases entries, 1nat,
{
    let start = lined_up(entries, source, target, excluded, below, plan);
    lemma_stacked_first(listing(entries), source, target, excluded);
    if entries.len() == 0 {
        assert(start.pending =~= below);
        lemma_followed_by_empty(plan);
    } else {
        let first = entries[0];
        let rest = entries.subrange(1, entries.len() as int);
        assert(listing(entries).skip(1) =~= listing(rest));
        assert(listing(entries)[0] == first.listed());
        let later = stacked(listing(rest), source, target, excluded);
        let first_script = script_entry(first, source, target, existing, excluded);
        let rest_script = script_entries(rest, source, target, existing, excluded);
        let first_plan = diff_entry(first, source, target, existing, excluded);
        let rest_plan = diff_entries(rest, source, target, existing, excluded);
        lemma_followed_by_assoc(plan, first_plan, rest_plan);
        if is_skipped(first.listed(), source, excluded) {
            assert(start.pending =~= below + later);
            assert(first_script + rest_script =~= rest_script);
            lemma_followed_by_empty(plan);
            lemma_replay_entries(rest, source, target, existing, excluded, below, plan);
        } else {
            let task = task_for(first.listed(), source, target);
            assert(start.pending =~= (below + later).push(task));
            lemma_replay_entry(first, source, target, existing, excluded, below + later, plan);
            lemma_replay_entries(
                rest,
                source,
                target,
                existing,
                excluded,
                below,
                plan.followed_by(first_plan),
            );
            lemma_replay_joined(start, first_script, rest_script);
        }
    }
}

/// With an entry first in line that is not left out, the conversation
/// about it leaves what was below it, and adds its plan to what was
/// planned.
proof fn lemma_replay_entry(
    node: SourceNode,
    source: Seq<Seq<char>>,
    target: Seq<Seq<char>>,
    existing: Target,
    excluded: Set<Seq<Seq<char>>>,
    below: Seq<Task>,
    plan: Plan,
)
    requires
        !is_skipped(node.listed(), source, excluded),
    ensures
        replay(
            Walk {
                excluded,
                pending: below.push(task_for(node.listed(), source, target)),
                phase: Phase::Probing,
                plan,
            },
            script_entry(node, source, target, existing, excluded),
        ) == Some(
            settled(
                excluded,
                below,
                plan.followed_by(diff_entry(node, source, target, existing, excluded)),
            ),
        ),
    decreases node, 0nat,
{
    let from = source.push(node.name());
    let to = target.push(node.name());
    let task = task_for(node.listed(), source, target);
    let start = Walk { excluded, pending: below.push(task), phase: Phase::Probing, plan };
    let found = existing.contains_key(to);
    let probe = Exchange {
        request: RequestView::Exists { target: to },
        response: ResponseView::Exists(found),
    };
    let probed = start.step(probe.response);
    assert(start.pending.drop_last() =~= below);
    match node {
        SourceNode::File { modified, .. } => {
            if found {
                let times = Exchange {
                    request: RequestView::Modified { source: from, target: to },
                    response: ResponseView::Modified { source: modified, target: existing[to] },
                };
                assert(seq![probe, times] =~= seq![probe] + (seq![times] + Seq::empty()));
                lemma_replay_first(start, probe, seq![times] + Seq::empty());
                lemma_replay_first(probed, times, Seq::empty());
                lemma_followed_by_empty(plan);
                lemma_followed_by_one_file(plan, from, to);
            } else {
                assert(seq![probe] =~= seq![probe] + Seq::empty());
                lemma_replay_first(start, probe, Seq::empty());
                lemma_followed_by_one_file(plan, from, to);
            }
        },
        SourceNode::Directory { entries, .. } => {
            let list = Exchange {
                request: RequestView::List { source: from },
                response: ResponseView::Listing(listing(entries)),
            };
            let below_script = script_entries(entries, from, to, existing, excluded);
            let below_plan = diff_entries(entries, from, to, existing, excluded);
            assert(seq![probe, list] + below_script =~= seq![probe] + (seq![list] + below_script));
            lemma_replay_first(start, probe, seq![list] + below_script);
            lemma_replay_first(probed, list, below_script);
            let listed = probed.step(list.response);
            assert(probed.pending.drop_last() =~= below);
            assert(listed == lined_up(entries, from, to, excluded, below, probed.plan));
            lemma_replay_entries(entries, from, to, existing, excluded, below, probed.plan);
            if found {
            } else {
                lemma_followed_by_one_directory(plan, to);
                lemma_followed_by_assoc(plan, Plan::empty().with_directory(to), below_plan);
            }
        },
    }
}

/// The comparison of a source directory with a target directory, when its
/// requests are answered as the two sides are, makes the requests of the
/// script in turn and finishes with the plan for the source tree.
pub proof fn lemma_walk_computes_diff(
    entries: Seq<SourceNode>,
    source: Seq<Seq<char>>,
    target: Seq<Seq<char>>,
    existing: Target,
    excluded: Set<Seq<Seq<char>>>,
)
    ensures
        replay(
            Walk::start(source, target, excluded),
            script(entries, source, target, existing, excluded),
        ) == Some(
            finished(excluded, diff_entries(entries, source, target, existing, excluded)),
        ),
{
    let start = Walk::start(source, target, excluded);
    let list = Exchange {
        request: RequestView::List { source },
        response: ResponseView::Listing(listing(entries)),
    };
    let below = Seq::<Task>::empty();
    lemma_replay_first(start, list, script_entries(entries, source, target, existing, excluded));
    assert(start.pending.drop_last() =~= below);
    assert(start.step(list.response) == lined_up(
        entries,
        source,
        target,
        excluded,
        below,
        Plan::empty(),
    ));
    lemma_replay_entries(entries, source, target, existing, excluded, below, Plan::empty());
    lemma_followed_by_empty(diff_entries(entries, source, target, existing, excluded));
}

/// The comparison of a source that is no directory finishes at once, and
/// plans nothing.
pub proof fn lemma_walk_of_non_directory(
    source: Seq<Seq<char>>,
    target: Seq<Seq<char>>,
    excluded: Set<Seq<Seq<char>>>,
)
    ensures
        replay(
            Walk::start(source, target, excluded),
            seq![
                Exchange {
                    request: RequestView::List { source },
                    response: ResponseView::NotADirectory,
                },
            ],
        ) == Some(finished(excluded, Plan::empty())),
{
    let start = Walk::start(source, target, excluded);
    let list = Exchange {
        request: RequestView::List { source },
        response: ResponseView::NotADirectory,
    };
    assert(seq![list] =~= seq![list] + Seq::empty());
    lemma_replay_first(start, list, Seq::empty());
    assert(start.pending.drop_last() =~= Seq::<Task>::empty());
}

} // verus!
