//! A build as a whole: what holds of everything it asks for, from the first
//! step to the last.

use crate::limits::{DEPTH_HARD_LIMIT, DIR_HARD_LIMIT, MAX_ITEMS, MIN_ITEMS};
use crate::plan::{
    frame_wf, law_depth_is_bounded, law_limits_hold, law_top_level_items, lemma_opened_wf,
    lemma_settled, next, opened, root_failed, settled, start, wf, ActionView, BuilderView,
};
use vstd::prelude::*;

verus! {

/// What one step takes in: how the pending action went, and what is drawn.
pub struct Event {
    /// Whether the pending action succeeded.
    pub created: bool,
    /// The item count for a directory that was just created.
    pub items: nat,
    /// The outcome of the branching draw.
    pub coin: bool,
    /// The name of the next item.
    pub name: Seq<char>,
}

/// The build after the steps `events`, taken from the start.
pub open spec fn run(base: nat, events: Seq<Event>) -> BuilderView
    decreases events.len(),
{
    if events.len() == 0 {
        start(base)
    } else {
        let last = events.last();
        next(run(base, events.drop_last()), last.created, last.items, last.coin, last.name)
    }
}

/// What the build asks for after the first `k` of the steps `events`.
pub open spec fn request(base: nat, events: Seq<Event>, k: int) -> ActionView {
    run(base, events.take(k)).pending
}

/// Every item count drawn lies within the limits.
pub open spec fn counts_allowed(events: Seq<Event>) -> bool {
    forall|k: int|
        0 <= k < events.len() ==> MIN_ITEMS <= (#[trigger] events[k]).items <= MAX_ITEMS
}

/// The outcomes in `events` are those of a filesystem: no directory was
/// created twice at one path.
pub open spec fn created_once(base: nat, events: Seq<Event>) -> bool {
    forall|j: int, k: int|
        0 <= j < k < events.len() && events[j].created && events[k].created
            && #[trigger] request(base, events, j) is CreateDir ==> request(base, events, j)
            != #[trigger] request(base, events, k)
}

/// Whether the steps `events` saw the directory at `path` created.
pub open spec fn was_created(base: nat, events: Seq<Event>, path: Seq<Seq<char>>) -> bool {
    exists|k: int|
        0 <= k < events.len() && events[k].created && #[trigger] request(base, events, k)
            == ActionView::CreateDir(path)
}

/// Whether `action` asks for a node directly in the directory at `parent`.
pub open spec fn asks_in(action: ActionView, parent: Seq<Seq<char>>) -> bool {
    match action {
        ActionView::CreateDir(path) => path.len() > 0 && path.drop_last() == parent,
        ActionView::CreateFile(path) => path.len() > 0 && path.drop_last() == parent,
        _ => false,
    }
}

/// How many nodes the steps `events` asked for directly in `parent`.
pub open spec fn children(base: nat, events: Seq<Event>, parent: Seq<Seq<char>>) -> nat
    decreases events.len(),
{
    if events.len() == 0 {
        0
    } else if asks_in(run(base, events).pending, parent) {
        children(base, events.drop_last(), parent) + 1
    } else {
        children(base, events.drop_last(), parent)
    }
}

/// How many directories the steps `events` asked for directly in `parent`.
pub open spec fn subdirs(base: nat, events: Seq<Event>, parent: Seq<Seq<char>>) -> nat
    decreases events.len(),
{
    if events.len() == 0 {
        0
    } else if run(base, events).pending is CreateDir && asks_in(run(base, events).pending, parent) {
        subdirs(base, events.drop_last(), parent) + 1
    } else {
        subdirs(base, events.drop_last(), parent)
    }
}

/// The limits hold in every state that a build can reach.
pub proof fn law_limits_always_hold(base: nat, events: Seq<Event>)
    requires
        base <= u8::MAX,
        counts_allowed(events),
    ensures
        wf(run(base, events)),
        run(base, events).base == base,
    decreases events.len(),
{
    if events.len() > 0 {
        let last = events.last();
        law_limits_always_hold(base, events.drop_last());
        law_limits_hold(
            run(base, events.drop_last()),
            last.created,
            last.items,
            last.coin,
            last.name,
        );
    }
}

/// No node is asked for deeper than the limit allows, at any point of a
/// build whose root lies within the limit: a directory lies at most at
/// [`DEPTH_HARD_LIMIT`] and a file at most one deeper, the depth of a node
/// being that of the root and one more for each name of its path.
pub proof fn law_depth_within_limit(base: nat, events: Seq<Event>)
    requires
        base <= DEPTH_HARD_LIMIT,
        counts_allowed(events),
    ensures
        run(base, events).pending matches ActionView::CreateDir(path) ==> base + path.len()
            <= DEPTH_HARD_LIMIT,
        run(base, events).pending matches ActionView::CreateFile(path) ==> base + path.len()
            <= DEPTH_HARD_LIMIT + 1,
{
    law_limits_always_hold(base, events);
    law_depth_is_bounded(run(base, events));
}

/// Under a filesystem's outcomes a directory is asked to hold what the
/// limits allow, however the build goes and wherever it stands:
///
/// - no more than [`MAX_ITEMS`] nodes are asked for directly in it, and no
///   more than [`DIR_HARD_LIMIT`] directories among them;
/// - none is asked for in a directory that was not created;
/// - once the build has finished, no fewer than [`MIN_ITEMS`] nodes have
///   been asked for in each directory that was created.
pub proof fn law_children_within_limits(base: nat, events: Seq<Event>, path: Seq<Seq<char>>)
    requires
        base <= u8::MAX,
        counts_allowed(events),
        created_once(base, events),
    ensures
        children(base, events, path) <= MAX_ITEMS,
        subdirs(base, events, path) <= DIR_HARD_LIMIT,
        subdirs(base, events, path) <= children(base, events, path),
        !was_created(base, events, path) ==> children(base, events, path) == 0,
        was_created(base, events, path) && run(base, events).pending is Finish ==> MIN_ITEMS
            <= children(base, events, path),
{
    lemma_counted(base, events, path);
    lemma_subdirs_are_children(base, events, path);
    law_limits_always_hold(base, events);
    if is_open(run(base, events), path) {
        assert(frame_wf(base, run(base, events).frames, path.len() as int));
    }
}

/// Of the nodes asked for directly in the root of a tree at depth 0, the
/// first [`DIR_HARD_LIMIT`] are directories and all later ones are files,
/// whatever is drawn and however the attempts go.
pub proof fn law_top_level_order(events: Seq<Event>)
    requires
        counts_allowed(events),
    ensures
        asks_in(run(0, events).pending, Seq::empty()) ==> (run(0, events).pending is CreateDir
            <==> children(0, events, Seq::empty()) <= DIR_HARD_LIMIT),
{
    let root = Seq::<Seq<char>>::empty();
    let now = run(0, events);
    if asks_in(now.pending, root) {
        let last = events.last();
        lemma_counted(0, events, root);
        law_limits_always_hold(0, events);
        law_limits_always_hold(0, events.drop_last());
        law_top_level_items(
            run(0, events.drop_last()),
            last.created,
            last.items,
            last.coin,
            last.name,
        );
        assert(frame_wf(0, now.frames, 0));
        assert(now.frames[0].path == root);
    }
}

/// Where the root cannot be created nothing is built: the build is
/// aborted, and no node is asked for in any directory, then or later.
pub proof fn law_failed_root_builds_nothing(base: nat, events: Seq<Event>, path: Seq<Seq<char>>)
    requires
        events.len() > 0,
        !events[0].created,
    ensures
        run(base, events).pending is Abort,
        children(base, events, path) == 0,
    decreases events.len(),
{
    let prev = events.drop_last();
    if prev.len() > 0 {
        assert(prev[0] == events[0]);
        law_failed_root_builds_nothing(base, prev, path);
    } else {
        assert(run(base, prev) == start(base));
        assert(children(base, prev, path) == 0);
    }
}

/// Whether the directory at `path` is being filled in `b`.
spec fn is_open(b: BuilderView, path: Seq<Seq<char>>) -> bool {
    path.len() < b.frames.len() && b.frames[path.len() as int].path == path
}

/// How the requests made so far add up for the directory at `path`: while
/// it is being filled they are the items it has received; once it is left
/// they are all its items; and a directory that was never created was
/// never asked to hold anything.
spec fn counted(base: nat, events: Seq<Event>, path: Seq<Seq<char>>) -> bool {
    let now = run(base, events);
    let all = children(base, events, path);
    let dirs = subdirs(base, events, path);
    if is_open(now, path) {
        let frame = now.frames[path.len() as int];
        was_created(base, events, path) && all == frame.made && dirs == frame.dirs
    } else if was_created(base, events, path) {
        MIN_ITEMS <= all <= MAX_ITEMS && dirs <= DIR_HARD_LIMIT
    } else {
        all == 0 && dirs == 0
    }
}

/// Whether the last of the steps `events` saw the directory at `path`
/// created.
spec fn created_last(base: nat, events: Seq<Event>, path: Seq<Seq<char>>) -> bool {
    events.len() > 0 && events.last().created && run(base, events.drop_last()).pending
        == ActionView::CreateDir(path)
}

/// The root is asked for at the start and never again.
proof fn lemma_root_asked_once(base: nat, events: Seq<Event>)
    requires
        events.len() > 0,
    ensures
        run(base, events).pending != ActionView::CreateDir(Seq::empty()),
    decreases events.len(),
{
    let pre = run(base, events.drop_last());
    let last = events.last();
    if events.len() > 1 {
        lemma_root_asked_once(base, events.drop_last());
    }
    if !(pre.pending is Finish) && !(pre.pending is Abort) && !root_failed(pre, last.created) {
        let open = settled(opened(pre, last.created, last.items));
        if open.len() > 0 {
            assert(open.last().path.push(last.name).len() > 0);
        }
    }
}

/// The first steps of a build are not changed by the steps that follow.
proof fn lemma_prefix(base: nat, events: Seq<Event>)
    requires
        events.len() > 0,
    ensures
        forall|k: int|
            0 <= k < events.len() ==> #[trigger] request(base, events.drop_last(), k) == request(
                base,
                events,
                k,
            ),
        request(base, events, events.len() - 1) == run(base, events.drop_last()).pending,
        counts_allowed(events) ==> counts_allowed(events.drop_last()),
        created_once(base, events) ==> created_once(base, events.drop_last()),
{
    let prev = events.drop_last();
    assert forall|k: int| 0 <= k < events.len() implies #[trigger] request(base, prev, k)
        == request(base, events, k) by {
        assert(prev.take(k) == events.take(k));
    }
    assert(events.take(events.len() - 1) == prev);
    if counts_allowed(events) {
        assert forall|k: int| 0 <= k < prev.len() implies MIN_ITEMS <= (#[trigger] prev[k]).items
            <= MAX_ITEMS by {
            assert(prev[k] == events[k]);
        }
    }
    if created_once(base, events) {
        assert forall|j: int, k: int|
            0 <= j < k < prev.len() && prev[j].created && prev[k].created && #[trigger] request(
                base,
                prev,
                j,
            ) is CreateDir implies request(base, prev, j) != #[trigger] request(base, prev, k) by {
            assert(request(base, events, j) != request(base, events, k));
        }
    }
}

/// A directory was created by now if it was before or is with the last
/// step, and never both.
proof fn lemma_created(base: nat, events: Seq<Event>, path: Seq<Seq<char>>)
    requires
        events.len() > 0,
        created_once(base, events) || path.len() == 0,
    ensures
        was_created(base, events, path) <==> was_created(base, events.drop_last(), path)
            || created_last(base, events, path),
        !(was_created(base, events.drop_last(), path) && created_last(base, events, path)),
{
    let prev = events.drop_last();
    let n = events.len() as int;
    let wanted = ActionView::CreateDir(path);
    lemma_prefix(base, events);
    if was_created(base, prev, path) {
        let k = choose|k: int|
            0 <= k < prev.len() && prev[k].created && #[trigger] request(base, prev, k) == wanted;
        assert(events[k].created && request(base, events, k) == wanted);
        if created_once(base, events) {
            assert(request(base, events, k) != request(base, events, n - 1) || !events[n
                - 1].created);
        } else {
            lemma_root_asked_once(base, prev);
            assert(path == Seq::<Seq<char>>::empty());
        }
    }
    if created_last(base, events, path) {
        assert(events[n - 1].created && request(base, events, n - 1) == wanted);
    }
    if was_created(base, events, path) && !created_last(base, events, path) {
        let k = choose|k: int|
            0 <= k < events.len() && events[k].created && #[trigger] request(base, events, k)
                == wanted;
        assert(prev[k].created && request(base, prev, k) == wanted);
    }
}

/// The requests add up for every directory, at every point of a build.
proof fn lemma_counted(base: nat, events: Seq<Event>, path: Seq<Seq<char>>)
    requires
        base <= u8::MAX,
        counts_allowed(events),
        created_once(base, events) || path.len() == 0,
    ensures
        counted(base, events, path),
    decreases events.len(),
{
    if events.len() > 0 {
        let prev = events.drop_last();
        let last = events.last();
        lemma_prefix(base, events);
        lemma_created(base, events, path);
        lemma_counted(base, prev, path);
        law_limits_always_hold(base, prev);
        let pre = run(base, prev);
        let post = run(base, events);
        if !(pre.pending is Finish) && !(pre.pending is Abort) && !root_failed(pre, last.created) {
            let before = opened(pre, last.created, last.items);
            let open = settled(before);
            lemma_opened_wf(pre, last.created, last.items);
            lemma_settled(pre.base, before);
            let at = path.len() as int;
            let open_before = at < before.len() && before[at].path == path;
            assert(open_before <==> is_open(pre, path) || created_last(base, events, path));
            if open_before {
                assert(children(base, prev, path) == before[at].made);
                assert(subdirs(base, prev, path) == before[at].dirs);
                assert(frame_wf(base, before, at));
            }
            if open.len() > 0 {
                let top = open.len() - 1;
                assert(open[top] == before[top]);
                assert(frame_wf(base, before, top));
                assert(open[top].path.push(last.name).drop_last() == open[top].path);
                assert(asks_in(post.pending, path) <==> at == top && before[top].path == path);
                if at < top {
                    assert(post.frames[at] == open[at]);
                }
            }
        }
    }
}

/// The directories asked for in a directory are among the nodes asked for
/// in it.
proof fn lemma_subdirs_are_children(base: nat, events: Seq<Event>, path: Seq<Seq<char>>)
    ensures
        subdirs(base, events, path) <= children(base, events, path),
    decreases events.len(),
{
    if events.len() > 0 {
        lemma_subdirs_are_children(base, events.drop_last(), path);
    }
}

} // verus!
