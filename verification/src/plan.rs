//! A build as a mathematical object: its states, its steps and what holds
//! of them.
//!
//! A tree is built depth first, one node at a time. A state holds the
//! directories that are still being filled and the node that was asked for
//! last; a step takes in how creating that node went and asks for the next.

use crate::limits::{becomes_directory, DEPTH_HARD_LIMIT, DIR_HARD_LIMIT, MAX_ITEMS, MIN_ITEMS};
use vstd::prelude::*;

verus! {

/// What a build asks of its caller. A path lists the names that lead from
/// the root of the tree to a node; the root itself is the empty path.
#[verifier::ext_equal]
pub enum ActionView {
    /// Create a directory at the path.
    CreateDir(Seq<Seq<char>>),
    /// Create an empty file at the path.
    CreateFile(Seq<Seq<char>>),
    /// The tree is complete.
    Finish,
    /// The root directory could not be created.
    Abort,
}

/// A directory that is being filled.
#[verifier::ext_equal]
pub struct FrameView {
    /// The names that lead to it from the root.
    pub path: Seq<Seq<char>>,
    /// Its depth, the root's being given.
    pub depth: nat,
    /// How many items it receives in all.
    pub items: nat,
    /// How many of them have been asked for so far.
    pub made: nat,
    /// How many of those were directories.
    pub dirs: nat,
}

/// The state of a build.
#[verifier::ext_equal]
pub struct BuilderView {
    /// The depth of the root.
    pub base: nat,
    /// The directories being filled, the root first; each is a child of
    /// the one before it.
    pub frames: Seq<FrameView>,
    /// What the caller was last asked to do.
    pub pending: ActionView,
}

/// The build before anything was created: it asks for the root directory.
pub open spec fn start(base: nat) -> BuilderView {
    BuilderView { base, frames: Seq::empty(), pending: ActionView::CreateDir(Seq::empty()) }
}

/// The directories being filled once the outcome of the pending action is
/// known: a directory that was created joins them with its item count.
pub open spec fn opened(pre: BuilderView, created: bool, items: nat) -> Seq<FrameView> {
    match pre.pending {
        ActionView::CreateDir(path) => if created {
            pre.frames.push(
                FrameView { path, depth: pre.base + path.len(), items, made: 0, dirs: 0 },
            )
        } else {
            pre.frames
        },
        _ => pre.frames,
    }
}

/// The directories that still lack items: those that have received all of
/// theirs are dropped from the end.
pub open spec fn settled(frames: Seq<FrameView>) -> Seq<FrameView>
    decreases frames.len(),
{
    if frames.len() > 0 && frames.last().made >= frames.last().items {
        settled(frames.drop_last())
    } else {
        frames
    }
}

/// The build after the next item of the innermost directory of `open` was
/// named `name` and decided with `coin`.
pub open spec fn placed(base: nat, open: Seq<FrameView>, coin: bool, name: Seq<char>) -> BuilderView
    recommends
        open.len() > 0,
{
    let top = open.last();
    let as_dir = becomes_directory(top.depth as int, top.dirs as int, coin);
    let child = top.path.push(name);
    let counted = FrameView {
        made: top.made + 1,
        dirs: if as_dir { top.dirs + 1 } else { top.dirs },
        ..top
    };
    BuilderView {
        base,
        frames: open.drop_last().push(counted),
        pending: if as_dir {
            ActionView::CreateDir(child)
        } else {
            ActionView::CreateFile(child)
        },
    }
}

/// Whether the pending action of `pre` was the root directory and failed.
pub open spec fn root_failed(pre: BuilderView, created: bool) -> bool {
    pre.pending is CreateDir && pre.frames.len() == 0 && !created
}

/// One step of the build. `created` tells how the pending action went;
/// `items`, `coin` and `name` are what the step draws at random: the item
/// count of a directory that was just created, the outcome of the branching
/// draw, and the name of the next item. A step that has no use for one of
/// them ignores it.
///
/// - Once the build is over, nothing changes.
/// - Where the root could not be created, the build is aborted.
/// - Else a directory that was created starts to be filled; a directory or
///   file that failed is passed over. Directories that are full are left,
///   and the next item of the innermost directory that is not is asked for,
///   or the build finishes where none is left.
pub open spec fn next(
    pre: BuilderView,
    created: bool,
    items: nat,
    coin: bool,
    name: Seq<char>,
) -> BuilderView {
    if pre.pending is Finish || pre.pending is Abort {
        pre
    } else if root_failed(pre, created) {
        BuilderView { base: pre.base, frames: Seq::empty(), pending: ActionView::Abort }
    } else {
        let open = settled(opened(pre, created, items));
        if open.len() == 0 {
            BuilderView { base: pre.base, frames: Seq::empty(), pending: ActionView::Finish }
        } else {
            placed(pre.base, open, coin, name)
        }
    }
}

/// What holds of the `i`-th directory being filled.
pub open spec fn frame_wf(base: nat, frames: Seq<FrameView>, i: int) -> bool {
    let f = frames[i];
    &&& f.path.len() == i
    &&& f.depth == base + i
    &&& MIN_ITEMS <= f.items <= MAX_ITEMS
    &&& f.dirs <= f.made <= f.items
    &&& f.dirs <= DIR_HARD_LIMIT
    &&& f.depth == 0 ==> f.dirs == if f.made <= DIR_HARD_LIMIT {
        f.made
    } else {
        DIR_HARD_LIMIT as nat
    }
    &&& f.depth >= DEPTH_HARD_LIMIT ==> f.dirs == 0
    &&& i > 0 ==> {
        &&& f.depth <= DEPTH_HARD_LIMIT
        &&& frames[i - 1].path == f.path.drop_last()
        &&& frames[i - 1].dirs >= 1
    }
}

/// What holds of the directories being filled.
pub open spec fn frames_wf(base: nat, frames: Seq<FrameView>) -> bool {
    forall|i: int| 0 <= i < frames.len() ==> frame_wf(base, frames, i)
}

/// What holds of a path that was asked for below the directories `frames`.
pub open spec fn child_wf(frames: Seq<FrameView>, path: Seq<Seq<char>>) -> bool {
    &&& frames.len() > 0
    &&& path.len() == frames.len()
    &&& path.drop_last() == frames.last().path
    &&& frames.last().made >= 1
}

/// The invariant of the build.
pub open spec fn wf(b: BuilderView) -> bool {
    &&& b.base <= u8::MAX
    &&& frames_wf(b.base, b.frames)
    &&& match b.pending {
        ActionView::CreateDir(path) => if b.frames.len() == 0 {
            path.len() == 0
        } else {
            &&& child_wf(b.frames, path)
            &&& b.frames.last().dirs >= 1
            &&& b.frames.last().depth < DEPTH_HARD_LIMIT
        },
        ActionView::CreateFile(path) => child_wf(b.frames, path),
        ActionView::Finish => b.frames.len() == 0,
        ActionView::Abort => b.frames.len() == 0,
    }
}

/// A directory that was just created is filled within the limits.
pub proof fn lemma_opened_wf(pre: BuilderView, created: bool, items: nat)
    requires
        wf(pre),
        MIN_ITEMS <= items <= MAX_ITEMS,
        !(pre.pending is Finish),
        !(pre.pending is Abort),
        !root_failed(pre, created),
    ensures
        frames_wf(pre.base, opened(pre, created, items)),
{
    let open = opened(pre, created, items);
    assert forall|i: int| 0 <= i < open.len() implies frame_wf(pre.base, open, i) by {
        if i < pre.frames.len() {
            assert(frame_wf(pre.base, pre.frames, i));
        } else if i > 0 {
            assert(frame_wf(pre.base, pre.frames, i - 1));
        }
    }
}

/// Leaving the full directories keeps the others as they are, and the
/// innermost of them lacks an item.
pub proof fn lemma_settled(base: nat, frames: Seq<FrameView>)
    requires
        frames_wf(base, frames),
    ensures
        frames_wf(base, settled(frames)),
        settled(frames).len() <= frames.len(),
        settled(frames) == frames.take(settled(frames).len() as int),
        settled(frames).len() > 0 ==> settled(frames).last().made < settled(frames).last().items,
        forall|i: int|
            settled(frames).len() <= i < frames.len() ==> (#[trigger] frames[i]).made
                == frames[i].items,
    decreases frames.len(),
{
    if frames.len() > 0 && frames.last().made >= frames.last().items {
        let rest = frames.drop_last();
        assert(frame_wf(base, frames, frames.len() - 1));
        assert forall|i: int| 0 <= i < rest.len() implies frame_wf(base, rest, i) by {
            assert(frame_wf(base, frames, i));
        }
        lemma_settled(base, rest);
        assert(settled(frames) == frames.take(settled(frames).len() as int));
        assert forall|i: int| settled(frames).len() <= i < frames.len() implies (
            #[trigger] frames[i]
        ).made == frames[i].items by {
            if i < rest.len() {
                assert(rest[i].made == rest[i].items);
            }
        }
    } else {
        assert(frames.take(frames.len() as int) == frames);
        if frames.len() > 0 {
            assert(frame_wf(base, frames, frames.len() - 1));
        }
    }
}

/// Asking for the next item of a directory that lacks one keeps the limits.
proof fn lemma_placed_wf(base: nat, open: Seq<FrameView>, coin: bool, name: Seq<char>)
    requires
        base <= u8::MAX,
        frames_wf(base, open),
        open.len() > 0,
        open.last().made < open.last().items,
    ensures
        wf(placed(base, open, coin, name)),
{
    let post = placed(base, open, coin, name);
    let top = open.last();
    assert(frame_wf(base, open, open.len() - 1));
    assert forall|i: int| 0 <= i < post.frames.len() implies frame_wf(base, post.frames, i) by {
        assert(frame_wf(base, open, i));
    }
    assert(top.path.push(name).drop_last() == top.path);
}

/// The limits hold throughout a build: whatever is drawn and however the
/// caller's attempts go, after each step every directory being filled
///
/// - receives between [`MIN_ITEMS`] and [`MAX_ITEMS`] items, of which no
///   more than that many have been asked for;
/// - holds no more than [`DIR_HARD_LIMIT`] directories among them, and none
///   at all from the depth limit on;
/// - lies no deeper than [`DEPTH_HARD_LIMIT`], at as many names below the
///   root as it is deep;
///
/// and the node asked for lies directly in the innermost of them.
pub proof fn law_limits_hold(
    pre: BuilderView,
    created: bool,
    items: nat,
    coin: bool,
    name: Seq<char>,
)
    requires
        wf(pre),
        MIN_ITEMS <= items <= MAX_ITEMS,
    ensures
        wf(next(pre, created, items, coin, name)),
{
    if pre.pending is Finish || pre.pending is Abort {
    } else if root_failed(pre, created) {
    } else {
        lemma_opened_wf(pre, created, items);
        lemma_settled(pre.base, opened(pre, created, items));
        let open = settled(opened(pre, created, items));
        if open.len() > 0 {
            lemma_placed_wf(pre.base, open, coin, name);
        }
    }
}

/// A directory is left only when it is full: of the directories that were
/// being filled before a step, those that are not after it have received
/// exactly their item count, and all the others but the innermost are as
/// they were. The innermost has one item more, the one that is asked for,
/// and one directory more if that item is a directory.
pub proof fn law_directories_are_filled(
    pre: BuilderView,
    created: bool,
    items: nat,
    coin: bool,
    name: Seq<char>,
)
    requires
        wf(pre),
        MIN_ITEMS <= items <= MAX_ITEMS,
        !(pre.pending is Finish),
        !(pre.pending is Abort),
        !root_failed(pre, created),
    ensures
        ({
            let before = opened(pre, created, items);
            let post = next(pre, created, items, coin, name);
            let kept = post.frames.len() as int;
            &&& kept <= before.len()
            &&& forall|i: int|
                kept <= i < before.len() ==> (#[trigger] before[i]).made == before[i].items
            &&& forall|i: int| 0 <= i < kept - 1 ==> #[trigger] post.frames[i] == before[i]
            &&& kept == 0 <==> post.pending is Finish
            &&& kept > 0 ==> {
                let parent = post.frames[kept - 1];
                &&& parent.path == before[kept - 1].path
                &&& parent.items == before[kept - 1].items
                &&& parent.made == before[kept - 1].made + 1
                &&& parent.dirs == before[kept - 1].dirs + if post.pending is CreateDir {
                    1nat
                } else {
                    0nat
                }
                &&& post.pending matches ActionView::CreateDir(path) ==> path
                    == parent.path.push(name)
                &&& post.pending matches ActionView::CreateFile(path) ==> path
                    == parent.path.push(name)
                &&& !(post.pending is Abort)
            }
        }),
{
    lemma_opened_wf(pre, created, items);
    lemma_settled(pre.base, opened(pre, created, items));
}

/// No node lies deeper than the limit allows: a directory that is asked
/// for lies at most at [`DEPTH_HARD_LIMIT`], a file at most one deeper,
/// where the root lies within the limit. A path holds as many names as its
/// node lies below the root.
pub proof fn law_depth_is_bounded(b: BuilderView)
    requires
        wf(b),
        b.base <= DEPTH_HARD_LIMIT,
    ensures
        b.frames.len() + b.base <= DEPTH_HARD_LIMIT + 1,
        b.pending matches ActionView::CreateDir(path) ==> path.len() + b.base <= DEPTH_HARD_LIMIT,
        b.pending matches ActionView::CreateFile(path) ==> path.len() + b.base
            <= DEPTH_HARD_LIMIT + 1,
{
    if b.frames.len() > 0 {
        assert(frame_wf(b.base, b.frames, b.frames.len() - 1));
    }
}

/// At depth 0 the first [`DIR_HARD_LIMIT`] items of a directory are
/// directories and all later ones are files, whatever is drawn.
pub proof fn law_top_level_items(
    pre: BuilderView,
    created: bool,
    items: nat,
    coin: bool,
    name: Seq<char>,
)
    requires
        wf(pre),
        MIN_ITEMS <= items <= MAX_ITEMS,
    ensures
        ({
            let post = next(pre, created, items, coin, name);
            post.frames.len() > 0 && post.frames.last().depth == 0 ==> (post.pending is CreateDir
                <==> post.frames.last().made <= DIR_HARD_LIMIT)
        }),
{
    let post = next(pre, created, items, coin, name);
    if pre.pending is Finish || pre.pending is Abort {
    } else if root_failed(pre, created) {
    } else {
        lemma_opened_wf(pre, created, items);
        lemma_settled(pre.base, opened(pre, created, items));
        let open = settled(opened(pre, created, items));
        if open.len() > 0 {
            assert(frame_wf(pre.base, open, open.len() - 1));
        }
    }
}

/// A build starts by asking for its root as a directory. Where that fails
/// the build is aborted at once, and an aborted or finished build asks for
/// nothing more.
pub proof fn law_failed_root_aborts(
    base: nat,
    b: BuilderView,
    created: bool,
    items: nat,
    coin: bool,
    name: Seq<char>,
)
    ensures
        start(base).pending == ActionView::CreateDir(Seq::empty()),
        next(start(base), false, items, coin, name) == (BuilderView {
            base,
            frames: Seq::empty(),
            pending: ActionView::Abort,
        }),
        b.pending is Abort || b.pending is Finish ==> next(b, created, items, coin, name) == b,
{
}

} // verus!
