//! The builder: the state of a build as it is kept while a tree is made.
//!
//! The builder never touches the filesystem. It asks its caller to create
//! one node at a time and is told whether that worked.

use crate::limits::{branching, places_directory, Branching, MAX_ITEMS, MIN_ITEMS};
use crate::phrase::{is_phrase, lemma_some_phrase, Dict};
use crate::plan::{
    frame_wf, frames_wf, law_limits_hold, lemma_opened_wf, lemma_settled, next, opened, placed,
    settled, start, wf, ActionView, BuilderView, FrameView,
};
use crate::random::{gen_range, gen_ratio};
use rand::rngs::ThreadRng;
use vstd::prelude::*;

verus! {

/// The names of a path, outermost first.
pub open spec fn names(path: Seq<String>) -> Seq<Seq<char>> {
    Seq::new(path.len(), |i: int| path[i]@)
}

/// What the builder asks of its caller. A path lists the names that lead
/// from the root of the tree to the node; the root itself is the empty path.
#[derive(Debug, PartialEq, Eq)]
pub enum Action {
    /// Create a directory at the path, and report whether that worked.
    CreateDir(Vec<String>),
    /// Create an empty file at the path, and report whether that worked.
    CreateFile(Vec<String>),
    /// The tree is complete: there is nothing left to create.
    Finish,
    /// The root directory could not be created: nothing was built, and
    /// nothing more is asked for.
    Abort,
}

impl View for Action {
    type V = ActionView;

    open spec fn view(&self) -> ActionView {
        match *self {
            Action::CreateDir(path) => ActionView::CreateDir(names(path@)),
            Action::CreateFile(path) => ActionView::CreateFile(names(path@)),
            Action::Finish => ActionView::Finish,
            Action::Abort => ActionView::Abort,
        }
    }
}

/// What a step of the build may lead to, the draws being left open: an
/// item count within the limits, either outcome of the branching draw, and
/// a name that is a phrase of `corpus`.
pub open spec fn step_allowed(
    pre: BuilderView,
    created: bool,
    corpus: Seq<Seq<char>>,
    post: BuilderView,
) -> bool {
    exists|items: nat, coin: bool, name: Seq<char>|
        {
            &&& MIN_ITEMS <= items <= MAX_ITEMS
            &&& is_phrase(corpus, name)
            &&& post == #[trigger] next(pre, created, items, coin, name)
        }
}

/// A directory being filled, as the builder keeps it.
struct Frame {
    path: Vec<String>,
    depth: u8,
    items: u8,
    made: u8,
    dirs: u8,
}

impl View for Frame {
    type V = FrameView;

    closed spec fn view(&self) -> FrameView {
        FrameView {
            path: names(self.path@),
            depth: self.depth as nat,
            items: self.items as nat,
            made: self.made as nat,
            dirs: self.dirs as nat,
        }
    }
}

spec fn frame_views(frames: Seq<Frame>) -> Seq<FrameView> {
    Seq::new(frames.len(), |i: int| frames[i]@)
}

/// Copies a path, name by name.
fn copy_path(path: &Vec<String>) -> (copy: Vec<String>)
    ensures
        names(copy@) == names(path@),
{
    let mut copy: Vec<String> = Vec::new();
    let mut i: usize = 0;
    while i < path.len()
        invariant
            i <= path.len(),
            copy@.len() == i,
            forall|k: int| 0 <= k < i ==> copy@[k]@ == path@[k]@,
        decreases path.len() - i,
    {
        copy.push(path[i].clone());
        i += 1;
    }
    copy
}

/// Copies an action.
fn copy_action(action: &Action) -> (copy: Action)
    ensures
        copy@ == action@,
{
    match action {
        Action::CreateDir(path) => Action::CreateDir(copy_path(path)),
        Action::CreateFile(path) => Action::CreateFile(copy_path(path)),
        Action::Finish => Action::Finish,
        Action::Abort => Action::Abort,
    }
}

/// The state of a build: the directories that are being filled, and the
/// node that the caller was last asked to create.
pub struct TreeBuilder {
    base: u8,
    frames: Vec<Frame>,
    pending: Action,
}

impl View for TreeBuilder {
    type V = BuilderView;

    closed spec fn view(&self) -> BuilderView {
        BuilderView {
            base: self.base as nat,
            frames: frame_views(self.frames@),
            pending: self.pending@,
        }
    }
}

impl TreeBuilder {
    /// The invariant of the build holds of this builder.
    pub open spec fn wf(&self) -> bool {
        wf(self@)
    }

    /// A builder for a tree whose root lies at `depth`. It asks for the
    /// root directory first.
    pub fn new(depth: u8) -> (builder: TreeBuilder)
        ensures
            builder@ == start(depth as nat),
            builder.wf(),
    {
        let builder = TreeBuilder {
            base: depth,
            frames: Vec::new(),
            pending: Action::CreateDir(Vec::new()),
        };
        assert(builder@.frames == Seq::<FrameView>::empty());
        assert(names(Seq::<String>::empty()) == Seq::<Seq<char>>::empty());
        builder
    }

    /// What the caller is asked to do.
    pub fn pending(&self) -> (action: Action)
        ensures
            action@ == self@.pending,
    {
        copy_action(&self.pending)
    }

    /// Takes in the outcome of the pending action.
    fn open(&mut self, created: bool, items: u8)
        requires
            wf(old(self)@),
            MIN_ITEMS <= items <= MAX_ITEMS,
        ensures
            final(self)@.base == old(self)@.base,
            final(self)@.frames == opened(old(self)@, created, items as nat),
    {
        let count = self.frames.len();
        match &self.pending {
            Action::CreateDir(path) => {
                if created {
                    let depth = if count == 0 {
                        self.base
                    } else {
                        assert(frame_wf(self@.base, self@.frames, count - 1));
                        self.frames[count - 1].depth + 1
                    };
                    let frame = Frame { path: copy_path(path), depth, items, made: 0, dirs: 0 };
                    self.frames.push(frame);
                }
            },
            _ => {},
        }
    }

    /// Whether the innermost directory has received all its items.
    fn top_is_full(&self) -> (full: bool)
        ensures
            full == (self@.frames.len() > 0 && self@.frames.last().made
                >= self@.frames.last().items),
    {
        let count = self.frames.len();
        count > 0 && self.frames[count - 1].made >= self.frames[count - 1].items
    }

    /// Leaves the directories that have received all their items.
    fn settle(&mut self)
        ensures
            final(self)@.base == old(self)@.base,
            final(self)@.frames == settled(old(self)@.frames),
    {
        let ghost before = self@.frames;
        while self.top_is_full()
            invariant
                self@.base == old(self)@.base,
                settled(self@.frames) == settled(before),
            decreases self.frames.len(),
        {
            assert(self@.frames.drop_last() == frame_views(self.frames@.drop_last()));
            self.frames.pop();
        }
    }

    /// Asks for the next item of the innermost directory.
    fn place(&mut self, coin: bool, name: String) -> (action: Action)
        requires
            frames_wf(old(self)@.base, old(self)@.frames),
            old(self)@.frames.len() > 0,
            old(self)@.frames.last().made < old(self)@.frames.last().items,
        ensures
            final(self)@ == placed(old(self)@.base, old(self)@.frames, coin, name@),
            action@ == final(self)@.pending,
    {
        let ghost open = self@.frames;
        assert(frame_wf(self@.base, open, open.len() - 1));
        assert(open.drop_last() == frame_views(self.frames@.drop_last()));
        let mut top = self.frames.pop().unwrap();
        let as_dir = places_directory(top.depth, top.dirs, coin);
        let mut child = copy_path(&top.path);
        child.push(name);
        assert(names(child@) == names(top.path@).push(name@));
        top.made = top.made + 1;
        if as_dir {
            top.dirs = top.dirs + 1;
        }
        self.frames.push(top);
        assert(self@.frames == open.drop_last().push(top@));
        if as_dir {
            let action = Action::CreateDir(copy_path(&child));
            self.pending = Action::CreateDir(child);
            action
        } else {
            let action = Action::CreateFile(copy_path(&child));
            self.pending = Action::CreateFile(child);
            action
        }
    }

    /// Whether the build is over.
    fn is_over(&self) -> (over: bool)
        ensures
            over == (self@.pending is Finish || self@.pending is Abort),
    {
        match &self.pending {
            Action::Finish => true,
            Action::Abort => true,
            _ => false,
        }
    }

    /// Whether a directory is awaited.
    fn awaits_directory(&self) -> (awaited: bool)
        ensures
            awaited == (self@.pending is CreateDir),
    {
        match &self.pending {
            Action::CreateDir(_) => true,
            _ => false,
        }
    }

    /// One step of the build with the draws given: takes in how the
    /// pending action went and says what to do next.
    pub fn advance(
        &mut self,
        created: bool,
        items: u8,
        coin: bool,
        name: String,
    ) -> (action: Action)
        requires
            old(self).wf(),
            MIN_ITEMS <= items <= MAX_ITEMS,
        ensures
            final(self)@ == next(old(self)@, created, items as nat, coin, name@),
            final(self).wf(),
            action@ == final(self)@.pending,
    {
        proof {
            law_limits_hold(self@, created, items as nat, coin, name@);
        }
        if self.is_over() {
            return copy_action(&self.pending);
        }
        if self.awaits_directory() && self.frames.len() == 0 && !created {
            self.pending = Action::Abort;
            return Action::Abort;
        }
        proof {
            lemma_opened_wf(self@, created, items as nat);
            lemma_settled(self@.base, opened(self@, created, items as nat));
        }
        self.open(created, items);
        self.settle();
        if self.frames.len() == 0 {
            self.pending = Action::Finish;
            Action::Finish
        } else {
            self.place(coin, name)
        }
    }

    /// One step of the build: takes in how the pending action went, draws
    /// what the step needs, and says what to do next.
    ///
    /// The item count of a directory is drawn when the directory has been
    /// created, the branching draw is made only where the depth leaves the
    /// choice open, and a name is drawn for every item.
    pub fn step(&mut self, created: bool, dict: &mut Dict, rng: &mut ThreadRng) -> (action: Action)
        requires
            old(self).wf(),
        ensures
            final(self).wf(),
            action@ == final(self)@.pending,
            final(dict).corpus() == old(dict).corpus(),
            step_allowed(old(self)@, created, old(dict).corpus(), final(self)@),
    {
        let ghost pre = self@;
        let ghost corpus = dict.corpus();
        proof {
            lemma_some_phrase(corpus);
        }
        let ghost spare = choose|text: Seq<char>| is_phrase(corpus, text);
        if self.is_over() {
            assert(pre == next(pre, created, MIN_ITEMS as nat, false, spare));
            return copy_action(&self.pending);
        }
        if self.awaits_directory() && self.frames.len() == 0 && !created {
            self.pending = Action::Abort;
            assert(self@ == next(pre, created, MIN_ITEMS as nat, false, spare));
            return Action::Abort;
        }
        let items = if created && self.awaits_directory() {
            gen_range(rng, MIN_ITEMS as usize, MAX_ITEMS as usize) as u8
        } else {
            MIN_ITEMS
        };
        proof {
            lemma_opened_wf(pre, created, items as nat);
            lemma_settled(pre.base, opened(pre, created, items as nat));
        }
        self.open(created, items);
        self.settle();
        let count = self.frames.len();
        if count == 0 {
            self.pending = Action::Finish;
            assert(self@ == next(pre, created, items as nat, false, spare));
            Action::Finish
        } else {
            let coin = match branching(self.frames[count - 1].depth) {
                Branching::OneIn(odds) => gen_ratio(rng, 1, odds),
                _ => false,
            };
            let name = dict.random_phrase();
            let ghost text = name@;
            let action = self.place(coin, name);
            proof {
                law_limits_hold(pre, created, items as nat, coin, text);
                assert(self@ == next(pre, created, items as nat, coin, text));
            }
            action
        }
    }
}

} // verus!
