//! The traversal engine: a depth-first walk over a tree, driven by an
//! explicit stack of frames, that lets a visitor observe and edit nodes and
//! returns the edited tree.
use vstd::prelude::*;
use crate::ast::{NodeKind, QueryAstNode, TreeM, views, slot_views, opt_view, lemma_view_slots};

verus! {

/// What a visitor asks of the engine when a node is entered or left.
#[derive(Debug, PartialEq)]
pub enum VisitorAction {
    /// Go on as usual.
    NoAction,
    /// Do not descend into this node's children; `leave` is still called.
    Skip,
    /// Stop the whole traversal, keeping the edits made so far.
    Break,
    /// Remove this node from its slot.
    DeleteNode,
    /// Put the given node in this node's place.
    ReplaceNode(QueryAstNode),
}

/// The mathematical value of what a hook returns: an action, or `Fail`
/// where the hook signalled an error.
pub enum ActionM {
    NoAction,
    Skip,
    Break,
    DeleteNode,
    ReplaceNode(TreeM),
    Fail,
}

impl View for VisitorAction {
    type V = ActionM;

    open spec fn view(&self) -> ActionM {
        match self {
            VisitorAction::NoAction => ActionM::NoAction,
            VisitorAction::Skip => ActionM::Skip,
            VisitorAction::Break => ActionM::Break,
            VisitorAction::DeleteNode => ActionM::DeleteNode,
            VisitorAction::ReplaceNode(n) => ActionM::ReplaceNode(n@),
        }
    }
}

/// The value of what a hook returned.
pub open spec fn hook_view<E>(r: Result<VisitorAction, E>) -> ActionM {
    match r {
        Ok(a) => a@,
        Err(_) => ActionM::Fail,
    }
}

impl VisitorAction {
    /// Whether this action stops the walk.
    pub fn is_break(&self) -> (r: bool)
        ensures
            r == (self@ is Break),
    {
        match self {
            VisitorAction::Break => true,
            _ => false,
        }
    }
}

/// A pass over a query document.
///
/// Each hook is described over `State`, the part of the visitor that its
/// hooks read and change: the action it returns for a node, and the state it
/// leaves behind. A verified visitor gives the five spec functions below; one
/// written in plain Rust may leave them out, and is then described by nothing
/// but the results its hooks return.
pub trait QueryVisitor: Sized {
    /// The model of the visitor's state.
    type State;

    /// What a hook returns when it ends the walk with an error.
    type Error;

    /// The visitor's state.
    open spec fn state(&self) -> Self::State {
        arbitrary()
    }

    /// What `enter` returns for `node` in state `s`.
    open spec fn enter_action(s: Self::State, node: TreeM) -> ActionM {
        arbitrary()
    }

    /// The state `enter` leaves behind.
    open spec fn after_enter(s: Self::State, node: TreeM) -> Self::State {
        arbitrary()
    }

    /// What `leave` returns for `node` in state `s`.
    open spec fn leave_action(s: Self::State, node: TreeM) -> ActionM {
        arbitrary()
    }

    /// The state `leave` leaves behind.
    open spec fn after_leave(s: Self::State, node: TreeM) -> Self::State {
        arbitrary()
    }

    /// Called when the traversal reaches `node`, before its children.
    fn enter(&mut self, node: &QueryAstNode) -> (r: Result<VisitorAction, Self::Error>)
        ensures
            hook_view(r) == Self::enter_action(old(self).state(), node@),
            final(self).state() == Self::after_enter(old(self).state(), node@),
    ;

    /// Called when the traversal is done with `node` and its children.
    fn leave(&mut self, node: &QueryAstNode) -> (r: Result<VisitorAction, Self::Error>)
        ensures
            hook_view(r) == Self::leave_action(old(self).state(), node@),
            final(self).state() == Self::after_leave(old(self).state(), node@),
    ;
}

/// The state of one tree level during a walk.
///
/// `out` holds the finished slots and, last, the output so far of the slot
/// being walked; `rest` the children of that slot not yet entered; `later`
/// the slots not yet reached. Children that are entered leave `rest`, so the
/// original order of what remains is never disturbed by edits.
pub struct FrameM {
    pub kind: NodeKind,
    pub out: Seq<Seq<TreeM>>,
    pub rest: Seq<TreeM>,
    pub later: Seq<Seq<TreeM>>,
}

/// The frame opened when a node is descended into.
pub open spec fn open_frame(n: TreeM) -> FrameM {
    FrameM { kind: n.kind, out: seq![], rest: seq![], later: n.slots }
}

/// The synthetic frame whose single slot holds the root.
pub open spec fn root_frame(root: TreeM) -> FrameM {
    FrameM { kind: NodeKind::Document, out: seq![], rest: seq![], later: seq![seq![root]] }
}

/// The node a frame stands for: its edited children so far, followed by the
/// children it has not reached, unchanged.
pub open spec fn rebuild(f: FrameM) -> TreeM {
    TreeM {
        kind: f.kind,
        slots: if f.out.len() == 0 {
            f.later
        } else {
            f.out.drop_last().push(f.out.last() + f.rest) + f.later
        },
    }
}

/// Records the outcome of the child last taken from `rest`.
pub open spec fn contribute(f: FrameM, x: Option<TreeM>) -> FrameM {
    match x {
        Some(t) => if f.out.len() == 0 {
            f
        } else {
            FrameM { out: f.out.update(f.out.len() - 1, f.out.last().push(t)), ..f }
        },
        None => f,
    }
}

/// What a slot holds after a `leave` hook returned `b`, where `p` is what it
/// held before.
pub open spec fn apply(b: ActionM, p: Option<TreeM>) -> Option<TreeM> {
    match b {
        ActionM::DeleteNode => None,
        ActionM::ReplaceNode(r) => Some(r),
        _ => p,
    }
}

/// The tree held by the synthetic root frame: absent if the root was deleted.
pub open spec fn root_result(f: FrameM) -> Option<TreeM> {
    let s = rebuild(f).slots;
    if s.len() > 0 && s[0].len() > 0 {
        Some(s[0][0])
    } else {
        None
    }
}

/// The tree that results from stopping with the given stack: each frame,
/// from the top, is rebuilt and recorded in the frame below.
pub open spec fn close_all(frames: Seq<FrameM>) -> Option<TreeM>
    decreases frames.len(),
{
    if frames.len() == 0 {
        None
    } else if frames.len() == 1 {
        root_result(frames[0])
    } else {
        let n = rebuild(frames.last());
        let below = frames.drop_last();
        close_all(below.update(below.len() - 1, contribute(below.last(), Some(n))))
    }
}

/// The whole state of a walk: the frame stack, the visitor, and, once the
/// walk has ended, whether a hook failed and, if none did, its result.
pub struct MachineM<V> {
    pub frames: Seq<FrameM>,
    pub visitor: V,
    pub finished: bool,
    pub failed: bool,
    pub result: Option<TreeM>,
}

/// A walk about to start on `root`.
pub open spec fn init<V>(root: TreeM, v: V) -> MachineM<V> {
    MachineM {
        frames: seq![root_frame(root)],
        visitor: v,
        finished: false,
        failed: false,
        result: None,
    }
}

/// A walk under way.
pub open spec fn running<V>(frames: Seq<FrameM>, v: V) -> MachineM<V> {
    MachineM { frames, visitor: v, finished: false, failed: false, result: None }
}

/// A walk that has ended normally: its result is what the stack holds.
pub open spec fn stopped<V>(frames: Seq<FrameM>, v: V) -> MachineM<V> {
    MachineM { frames, visitor: v, finished: true, failed: false, result: close_all(frames) }
}

/// The machine after a hook failed: the edits made so far are dropped.
pub open spec fn failed<V>(frames: Seq<FrameM>, v: V) -> MachineM<V> {
    MachineM { frames, visitor: v, finished: true, failed: true, result: None }
}

/// One step of a walk: it enters the next child of the top frame, moves the
/// top frame on to its next slot, or leaves the top frame's node.
pub open spec fn step<V: QueryVisitor>(m: MachineM<V::State>) -> MachineM<V::State> {
    if m.finished || m.frames.len() == 0 {
        m
    } else {
        let top = m.frames.last();
        let below = m.frames.drop_last();
        if top.rest.len() > 0 {
            let c = top.rest[0];
            let top1 = FrameM { rest: top.rest.drop_first(), ..top };
            let v1 = V::after_enter(m.visitor, c);
            match V::enter_action(m.visitor, c) {
                ActionM::Fail => failed(m.frames, v1),
                ActionM::Break => stopped(below.push(contribute(top1, Some(c))), v1),
                ActionM::NoAction => running(below.push(top1).push(open_frame(c)), v1),
                ActionM::ReplaceNode(r) => running(below.push(top1).push(open_frame(r)), v1),
                ActionM::Skip => {
                    let b = V::leave_action(v1, c);
                    let fs = below.push(contribute(top1, apply(b, Some(c))));
                    if b is Fail {
                        failed(m.frames, V::after_leave(v1, c))
                    } else if b is Break {
                        stopped(fs, V::after_leave(v1, c))
                    } else {
                        running(fs, V::after_leave(v1, c))
                    }
                },
                ActionM::DeleteNode => {
                    let b = V::leave_action(v1, c);
                    let fs = below.push(contribute(top1, apply(b, None)));
                    if b is Fail {
                        failed(m.frames, V::after_leave(v1, c))
                    } else if b is Break {
                        stopped(fs, V::after_leave(v1, c))
                    } else {
                        running(fs, V::after_leave(v1, c))
                    }
                },
            }
        } else if top.later.len() > 0 {
            running(
                below.push(
                    FrameM {
                        kind: top.kind,
                        out: top.out.push(seq![]),
                        rest: top.later[0],
                        later: top.later.drop_first(),
                    },
                ),
                m.visitor,
            )
        } else if below.len() == 0 {
            stopped(m.frames, m.visitor)
        } else {
            let n = rebuild(top);
            let b = V::leave_action(m.visitor, n);
            let fs = below.drop_last().push(contribute(below.last(), apply(b, Some(n))));
            if b is Fail {
                failed(m.frames, V::after_leave(m.visitor, n))
            } else if b is Break {
                stopped(fs, V::after_leave(m.visitor, n))
            } else {
                running(fs, V::after_leave(m.visitor, n))
            }
        }
    }
}

/// The machine after `n` steps.
pub open spec fn run<V: QueryVisitor>(m: MachineM<V::State>, n: nat) -> MachineM<V::State>
    decreases n,
{
    if n == 0 {
        m
    } else {
        step::<V>(run::<V>(m, (n - 1) as nat))
    }
}

/// The most steps a walk takes; a walk still going after that many stops as
/// if its last hook had returned `Break`.
pub const STEP_LIMIT: u64 = 18446744073709551615;

/// The tree a machine yields: its result if it has ended, else what stopping
/// it now would give.
pub open spec fn outcome<V>(m: MachineM<V>) -> Option<TreeM> {
    if m.finished {
        m.result
    } else {
        close_all(m.frames)
    }
}

/// The walk of `root` with visitor `v`, as far as it goes.
pub open spec fn walk<V: QueryVisitor>(root: TreeM, v: V::State) -> MachineM<V::State> {
    run::<V>(init(root, v), STEP_LIMIT as nat)
}

/// Mapping a function over `a` followed by `b` reversed.
proof fn lemma_map_concat_reverse<A, B>(a: Seq<A>, b: Seq<A>, f: spec_fn(A) -> B)
    ensures
        (a + b.reverse()).map_values(f) == a.map_values(f) + b.map_values(f).reverse(),
{
    assert((a + b.reverse()).map_values(f) =~= a.map_values(f) + b.map_values(f).reverse());
}

/// Mapping a function over a sequence without its last element.
proof fn lemma_map_drop_last_reverse<A, B>(s: Seq<A>, f: spec_fn(A) -> B)
    requires
        s.len() > 0,
    ensures
        s.drop_last().map_values(f).reverse() == s.map_values(f).reverse().drop_first(),
        s.map_values(f).reverse()[0] == f(s.last()),
{
    assert(s.drop_last().map_values(f).reverse() =~= s.map_values(f).reverse().drop_first());
}

/// Moves the items of `src` to the end of `dst`, last item first.
fn drain_reversed<T>(dst: &mut Vec<T>, src: Vec<T>)
    ensures
        final(dst)@ == old(dst)@ + src@.reverse(),
{
    let ghost d0 = dst@;
    let ghost s0 = src@;
    let mut src = src;
    while src.len() > 0
        invariant
            src@.len() <= s0.len(),
            src@ == s0.subrange(0, src@.len() as int),
            dst@ == d0 + s0.subrange(src@.len() as int, s0.len() as int).reverse(),
        decreases src@.len(),
    {
        let ghost k = src@.len() - 1;
        let x = src.pop().unwrap();
        assert(x == s0[k]);
        dst.push(x);
        assert(dst@ =~= d0 + s0.subrange(src@.len() as int, s0.len() as int).reverse());
        assert(src@ =~= s0.subrange(0, src@.len() as int));
    }
    assert(s0.subrange(0, s0.len() as int) =~= s0);
}

/// The executable state of one tree level. `rest` and `later` are kept in
/// reverse order, so that the next item is taken from the end.
pub(crate) struct Frame {
    pub(crate) kind: NodeKind,
    pub(crate) out: Vec<Vec<QueryAstNode>>,
    pub(crate) rest: Vec<QueryAstNode>,
    pub(crate) later: Vec<Vec<QueryAstNode>>,
}

impl View for Frame {
    type V = FrameM;

    closed spec fn view(&self) -> FrameM {
        FrameM {
            kind: self.kind,
            out: slot_views(self.out@),
            rest: views(self.rest@).reverse(),
            later: slot_views(self.later@).reverse(),
        }
    }
}

/// The values of a stack of frames.
closed spec fn frame_views(fs: Seq<Frame>) -> Seq<FrameM> {
    fs.map_values(|f: Frame| f@)
}

closed spec fn machine_of<V>(fs: Seq<Frame>, v: V) -> MachineM<V> {
    running(frame_views(fs), v)
}

impl Frame {
    fn open(n: QueryAstNode) -> (f: Frame)
        ensures
            f@ == open_frame(n@),
    {
        proof {
            lemma_view_slots(&n);
        }
        let QueryAstNode { kind, slots } = n;
        let mut later: Vec<Vec<QueryAstNode>> = Vec::new();
        drain_reversed(&mut later, slots);
        let f = Frame { kind, out: Vec::new(), rest: Vec::new(), later };
        proof {
            lemma_map_concat_reverse(Seq::<Vec<QueryAstNode>>::empty(), later@.reverse(), |v: Vec<QueryAstNode>| views(v@));
            assert(later@.reverse().reverse() =~= later@);
            assert(Seq::<Vec<QueryAstNode>>::empty() + slots@.reverse() =~= slots@.reverse());
            assert(f@.later =~= n@.slots);
            assert(f@.out =~= seq![]);
            assert(f@.rest =~= seq![]);
        }
        f
    }

    fn for_root(root: QueryAstNode) -> (f: Frame)
        ensures
            f@ == root_frame(root@),
    {
        let mut slot: Vec<QueryAstNode> = Vec::new();
        slot.push(root);
        let mut later: Vec<Vec<QueryAstNode>> = Vec::new();
        later.push(slot);
        let f = Frame { kind: NodeKind::Document, out: Vec::new(), rest: Vec::new(), later };
        proof {
            assert(views(slot@) =~= seq![root@]);
            assert(f@.later =~= seq![seq![root@]]);
            assert(f@.out =~= seq![]);
            assert(f@.rest =~= seq![]);
        }
        f
    }

    /// Takes the next child of the current slot.
    fn take_child(&mut self) -> (c: QueryAstNode)
        requires
            old(self)@.rest.len() > 0,
        ensures
            c@ == old(self)@.rest[0],
            final(self)@ == (FrameM { rest: old(self)@.rest.drop_first(), ..old(self)@ }),
    {
        proof {
            lemma_map_drop_last_reverse(self.rest@, |n: QueryAstNode| n@);
        }
        self.rest.pop().unwrap()
    }

    /// Records the outcome of the child last taken.
    fn contribute(&mut self, x: Option<QueryAstNode>)
        ensures
            final(self)@ == contribute(old(self)@, opt_view(x)),
    {
        match x {
            Some(t) => {
                match self.out.pop() {
                    Some(mut last) => {
                        let ghost l0 = last@;
                        last.push(t);
                        proof {
                            assert(views(last@) =~= views(l0).push(t@));
                        }
                        self.out.push(last);
                        proof {
                            assert(self@.out =~= old(self)@.out.update(
                                old(self)@.out.len() - 1,
                                old(self)@.out.last().push(t@),
                            ));
                        }
                    },
                    None => {},
                }
            },
            None => {},
        }
    }

    /// Moves on to the next slot.
    fn next_slot(&mut self)
        requires
            old(self)@.rest.len() == 0,
            old(self)@.later.len() > 0,
        ensures
            final(self)@ == (FrameM {
                kind: old(self)@.kind,
                out: old(self)@.out.push(seq![]),
                rest: old(self)@.later[0],
                later: old(self)@.later.drop_first(),
            }),
    {
        proof {
            lemma_map_drop_last_reverse(self.later@, |v: Vec<QueryAstNode>| views(v@));
        }
        let slot = self.later.pop().unwrap();
        let empty: Vec<QueryAstNode> = Vec::new();
        assert(views(empty@) =~= seq![]);
        self.out.push(empty);
        let mut rest: Vec<QueryAstNode> = Vec::new();
        drain_reversed(&mut rest, slot);
        self.rest = rest;
        proof {
            lemma_map_concat_reverse(Seq::<QueryAstNode>::empty(), slot@, |n: QueryAstNode| n@);
            assert(Seq::<QueryAstNode>::empty() + slot@.reverse() =~= slot@.reverse());
            assert(views(rest@).reverse() =~= views(slot@));
            assert(self@.out =~= old(self)@.out.push(seq![]));
        }
    }

    /// The node this frame stands for.
    fn rebuild(self) -> (n: QueryAstNode)
        ensures
            n@ == rebuild(self@),
    {
        let ghost f0 = self@;
        let Frame { kind, out, rest, later } = self;
        let mut out = out;
        let slots = if out.len() == 0 {
            let mut slots: Vec<Vec<QueryAstNode>> = Vec::new();
            drain_reversed(&mut slots, later);
            proof {
                lemma_map_concat_reverse(Seq::<Vec<QueryAstNode>>::empty(), later@, |v: Vec<QueryAstNode>| views(v@));
                assert(Seq::<Vec<QueryAstNode>>::empty() + later@.reverse() =~= later@.reverse());
                assert(slot_views(slots@) =~= f0.later);
            }
            slots
        } else {
            let mut last = out.pop().unwrap();
            let ghost l0 = last@;
            drain_reversed(&mut last, rest);
            out.push(last);
            let ghost o1 = out@;
            drain_reversed(&mut out, later);
            proof {
                lemma_map_concat_reverse(l0, rest@, |n: QueryAstNode| n@);
                lemma_map_concat_reverse(o1, later@, |v: Vec<QueryAstNode>| views(v@));
                assert(slot_views(o1) =~= f0.out.drop_last().push(f0.out.last() + f0.rest));
            }
            out
        };
        QueryAstNode::new(kind, slots)
    }
}


/// The first item of a vector, if any.
fn first_of<T>(v: Vec<T>) -> (r: Option<T>)
    ensures
        r == (if v@.len() > 0 {
            Some(v@[0])
        } else {
            None::<T>
        }),
{
    let mut v = v;
    if v.len() > 0 {
        Some(v.swap_remove(0))
    } else {
        None
    }
}

/// What the slot of a `leave` hook holds afterwards.
fn apply_action(b: VisitorAction, p: Option<QueryAstNode>) -> (r: Option<QueryAstNode>)
    ensures
        opt_view(r) == apply(b@, opt_view(p)),
{
    match b {
        VisitorAction::DeleteNode => None,
        VisitorAction::ReplaceNode(n) => Some(n),
        _ => p,
    }
}

proof fn lemma_frame_views_pop_push(fs: Seq<Frame>, f: Frame)
    requires
        fs.len() > 0,
    ensures
        frame_views(fs.drop_last()) == frame_views(fs).drop_last(),
        frame_views(fs).last() == fs.last()@,
        frame_views(fs.push(f)) == frame_views(fs).push(f@),
        frame_views(fs).len() == fs.len(),
{
    assert(frame_views(fs.drop_last()) =~= frame_views(fs).drop_last());
    assert(frame_views(fs.push(f)) =~= frame_views(fs).push(f@));
}

proof fn lemma_frame_views_push(fs: Seq<Frame>, f: Frame)
    ensures
        frame_views(fs.push(f)) == frame_views(fs).push(f@),
        frame_views(fs).len() == fs.len(),
{
    assert(frame_views(fs.push(f)) =~= frame_views(fs).push(f@));
}

/// Stops a walk: rebuilds each frame from the top and records it in the
/// frame below, then returns what the root frame holds.
fn close_frames(frames: &mut Vec<Frame>) -> (r: Option<QueryAstNode>)
    ensures
        opt_view(r) == close_all(frame_views(old(frames)@)),
{
    while frames.len() > 1
        invariant
            close_all(frame_views(frames@)) == close_all(frame_views(old(frames)@)),
        decreases frames@.len(),
    {
        let ghost fs0 = frames@;
        let top = frames.pop().unwrap();
        let n = top.rebuild();
        let ghost fs1 = frames@;
        let mut parent = frames.pop().unwrap();
        parent.contribute(Some(n));
        frames.push(parent);
        proof {
            lemma_frame_views_pop_push(fs0, top);
            lemma_frame_views_pop_push(fs1, parent);
            lemma_frame_views_push(fs1.drop_last(), parent);
            let below = frame_views(fs0).drop_last();
            assert(frame_views(frames@) =~= below.update(
                below.len() - 1,
                contribute(below.last(), Some(rebuild(frame_views(fs0).last()))),
            ));
        }
    }
    if frames.len() == 0 {
        None
    } else {
        let ghost fs0 = frames@;
        let f = frames.pop().unwrap();
        proof {
            lemma_frame_views_pop_push(fs0, f);
        }
        let n = f.rebuild();
        proof {
            lemma_view_slots(&n);
        }
        let QueryAstNode { kind: _, slots } = n;
        match first_of(slots) {
            Some(slot) => first_of(slot),
            None => None,
        }
    }
}

/// Performs one step of the walk; returns the resulting tree once the walk
/// has ended.
fn step_frames<V: QueryVisitor>(frames: &mut Vec<Frame>, visitor: &mut V) -> (r: Result<
    Option<Option<QueryAstNode>>,
    V::Error,
>)
    requires
        old(frames)@.len() > 0,
    ensures
        ({
            let m = step::<V>(machine_of(old(frames)@, old(visitor).state()));
            match r {
                Err(_) => m.finished && m.failed && final(visitor).state() == m.visitor,
                Ok(Some(x)) => m.finished && !m.failed && opt_view(x) == m.result
                    && final(visitor).state() == m.visitor,
                Ok(None) => !m.finished && machine_of(final(frames)@, final(visitor).state()) == m
                    && final(frames)@.len() > 0,
            }
        }),
{
    let ghost fs0 = frames@;
    let mut top = frames.pop().unwrap();
    proof {
        lemma_frame_views_pop_push(fs0, top);
        reveal(machine_of);
    }
    let ghost below = frame_views(frames@);
    if top.rest.len() > 0 {
        let ghost t0 = top@;
        let c = top.take_child();
        let ghost t1 = top@;
        let a = match visitor.enter(&c) {
            Ok(a) => a,
            Err(e) => {
                return Err(e);
            },
        };
        match a {
            VisitorAction::Break => {
                top.contribute(Some(c));
                frames.push(top);
                proof {
                    lemma_frame_views_push(fs0.drop_last(), top);
                }
                Ok(Some(close_frames(frames)))
            },
            VisitorAction::NoAction => {
                frames.push(top);
                let f = Frame::open(c);
                let ghost fs1 = frames@;
                frames.push(f);
                proof {
                    lemma_frame_views_push(fs0.drop_last(), top);
                    lemma_frame_views_push(fs1, f);
                }
                Ok(None)
            },
            VisitorAction::ReplaceNode(n) => {
                frames.push(top);
                let f = Frame::open(n);
                let ghost fs1 = frames@;
                frames.push(f);
                proof {
                    lemma_frame_views_push(fs0.drop_last(), top);
                    lemma_frame_views_push(fs1, f);
                }
                Ok(None)
            },
            VisitorAction::Skip => {
                let b = match visitor.leave(&c) {
                    Ok(b) => b,
                    Err(e) => {
                        return Err(e);
                    },
                };
                let brk = b.is_break();
                let x = apply_action(b, Some(c));
                top.contribute(x);
                frames.push(top);
                proof {
                    lemma_frame_views_push(fs0.drop_last(), top);
                }
                if brk {
                    Ok(Some(close_frames(frames)))
                } else {
                    Ok(None)
                }
            },
            VisitorAction::DeleteNode => {
                let b = match visitor.leave(&c) {
                    Ok(b) => b,
                    Err(e) => {
                        return Err(e);
                    },
                };
                let brk = b.is_break();
                let x = apply_action(b, None);
                top.contribute(x);
                frames.push(top);
                proof {
                    lemma_frame_views_push(fs0.drop_last(), top);
                }
                if brk {
                    Ok(Some(close_frames(frames)))
                } else {
                    Ok(None)
                }
            },
        }
    } else if top.later.len() > 0 {
        top.next_slot();
        frames.push(top);
        proof {
            lemma_frame_views_push(fs0.drop_last(), top);
        }
        Ok(None)
    } else if frames.len() == 0 {
        frames.push(top);
        proof {
            lemma_frame_views_push(fs0.drop_last(), top);
            assert(frames@ =~= fs0);
        }
        Ok(Some(close_frames(frames)))
    } else {
        let n = top.rebuild();
        let b = match visitor.leave(&n) {
            Ok(b) => b,
            Err(e) => {
                return Err(e);
            },
        };
        let brk = b.is_break();
        let x = apply_action(b, Some(n));
        let ghost fs1 = frames@;
        let mut parent = frames.pop().unwrap();
        parent.contribute(x);
        frames.push(parent);
        proof {
            lemma_frame_views_pop_push(fs1, parent);
            lemma_frame_views_push(fs1.drop_last(), parent);
        }
        if brk {
            Ok(Some(close_frames(frames)))
        } else {
            Ok(None)
        }
    }
}


/// A machine that has ended stays as it is.
pub proof fn lemma_run_finished<V: QueryVisitor>(m: MachineM<V::State>, k: nat, n: nat)
    requires
        k <= n,
        run::<V>(m, k).finished,
    ensures
        run::<V>(m, n) == run::<V>(m, k),
    decreases n,
{
    if n > k {
        lemma_run_finished::<V>(m, k, (n - 1) as nat);
    }
}

/// Walks `root` depth first, calling `visitor.enter` on each node before its
/// children and `visitor.leave` after them, and returns the tree with the
/// visitor's edits applied, or `None` if the root itself was deleted.
///
/// The walk is the one `walk` describes: the result is `Err` with the hook's
/// error exactly when a hook failed, and otherwise the tree that walk yields.
/// No recursion is used, so the depth of the tree is bounded by memory only.
pub fn visit<V: QueryVisitor>(root: QueryAstNode, visitor: &mut V) -> (r: Result<
    Option<QueryAstNode>,
    V::Error,
>)
    ensures
        r is Err <==> walk::<V>(root@, old(visitor).state()).failed,
        r matches Ok(x) ==> opt_view(x) == outcome(walk::<V>(root@, old(visitor).state())),
        final(visitor).state() == walk::<V>(root@, old(visitor).state()).visitor,
{
    let ghost root_v = root@;
    let ghost v0 = visitor.state();
    let mut frames: Vec<Frame> = Vec::new();
    let f = Frame::for_root(root);
    frames.push(f);
    proof {
        assert(frame_views(frames@) =~= seq![root_frame(root_v)]);
        assert(run::<V>(init(root_v, v0), 0) == init(root_v, v0));
    }
    let mut steps: u64 = 0;
    while steps < STEP_LIMIT
        invariant
            root_v == root@,
            v0 == old(visitor).state(),
            frames@.len() > 0,
            machine_of(frames@, visitor.state()) == run::<V>(init(root_v, v0), steps as nat),
        decreases STEP_LIMIT - steps,
    {
        let ghost m0 = run::<V>(init(root_v, v0), steps as nat);
        let res = step_frames(&mut frames, visitor);
        proof {
            assert(run::<V>(init(root_v, v0), (steps + 1) as nat) == step::<V>(m0));
        }
        match res {
            Err(e) => {
                proof {
                    lemma_run_finished::<V>(init(root_v, v0), (steps + 1) as nat, STEP_LIMIT as nat);
                }
                return Err(e);
            },
            Ok(Some(x)) => {
                proof {
                    lemma_run_finished::<V>(init(root_v, v0), (steps + 1) as nat, STEP_LIMIT as nat);
                }
                return Ok(x);
            },
            Ok(None) => {},
        }
        steps = steps + 1;
    }
    Ok(close_frames(&mut frames))
}


/// Every frame that still has children to enter has an open output slot,
/// and so does every frame below the top.
pub open spec fn stack_wf(fs: Seq<FrameM>) -> bool {
    &&& fs.len() >= 1
    &&& forall|i: int| 0 <= i < fs.len() && (#[trigger] fs[i]).rest.len() > 0 ==> fs[i].out.len() > 0
    &&& forall|i: int| 0 <= i < fs.len() - 1 ==> (#[trigger] fs[i]).out.len() > 0
}

/// Stopping depends on the top frame only through the node it stands for.
proof fn lemma_close_top(below: Seq<FrameM>, f1: FrameM, f2: FrameM)
    requires
        rebuild(f1) == rebuild(f2),
    ensures
        close_all(below.push(f1)) == close_all(below.push(f2)),
{
    assert(below.push(f1).drop_last() =~= below);
    assert(below.push(f2).drop_last() =~= below);
}

/// Recording the child just taken gives back the node the frame stood for.
proof fn lemma_take_and_record(top: FrameM)
    requires
        top.rest.len() > 0,
        top.out.len() > 0,
    ensures
        rebuild(contribute(FrameM { rest: top.rest.drop_first(), ..top }, Some(top.rest[0])))
            == rebuild(top),
{
    let top1 = FrameM { rest: top.rest.drop_first(), ..top };
    let f = contribute(top1, Some(top.rest[0]));
    assert(f.out.drop_last() =~= top.out.drop_last());
    assert(f.out.last() + f.rest =~= top.out.last() + top.rest);
    assert(rebuild(f).slots =~= rebuild(top).slots);
}

/// Stopping a stack of two or more frames records the top one below.
proof fn lemma_close_unfold(fs: Seq<FrameM>)
    requires
        fs.len() >= 2,
    ensures
        close_all(fs) == close_all(
            fs.drop_last().drop_last().push(
                contribute(fs.drop_last().last(), Some(rebuild(fs.last()))),
            ),
        ),
{
    let below = fs.drop_last();
    assert(below.update(below.len() - 1, contribute(below.last(), Some(rebuild(fs.last()))))
        =~= below.drop_last().push(contribute(below.last(), Some(rebuild(fs.last())))));
}

proof fn lemma_identity_run<V: QueryVisitor>(t: TreeM, v: V::State, n: nat)
    requires
        forall|s: V::State, x: TreeM| #[trigger] V::enter_action(s, x) == ActionM::NoAction,
        forall|s: V::State, x: TreeM| #[trigger] V::leave_action(s, x) == ActionM::NoAction,
    ensures
        !run::<V>(init(t, v), n).failed,
        run::<V>(init(t, v), n).finished ==> run::<V>(init(t, v), n).result == Some(t),
        !run::<V>(init(t, v), n).finished ==> stack_wf(run::<V>(init(t, v), n).frames)
            && close_all(run::<V>(init(t, v), n).frames) == Some(t),
    decreases n,
{
    if n == 0 {
        let f = root_frame(t);
        assert(rebuild(f).slots == seq![seq![t]]);
    } else {
        lemma_identity_run::<V>(t, v, (n - 1) as nat);
        let m = run::<V>(init(t, v), (n - 1) as nat);
        if !m.finished {
            let fs = m.frames;
            let top = fs.last();
            let below = fs.drop_last();
            assert(fs =~= below.push(top));
            if top.rest.len() > 0 {
                let c = top.rest[0];
                let top1 = FrameM { rest: top.rest.drop_first(), ..top };
                assert(V::enter_action(m.visitor, c) == ActionM::NoAction);
                let fs2 = below.push(top1).push(open_frame(c));
                assert(rebuild(open_frame(c)) == c);
                lemma_close_unfold(fs2);
                assert(fs2.drop_last() =~= below.push(top1));
                assert(fs2.drop_last().drop_last() =~= below);
                lemma_take_and_record(top);
                lemma_close_top(below, contribute(top1, Some(c)), top);
                assert forall|i: int| 0 <= i < fs2.len() - 1 implies (#[trigger] fs2[i]).out.len()
                    > 0 by {
                    if i < below.len() {
                        assert(fs2[i] == fs[i]);
                    }
                }
                assert forall|i: int|
                    0 <= i < fs2.len() && (#[trigger] fs2[i]).rest.len() > 0 implies fs2[i].out.len()
                    > 0 by {
                    if i < below.len() {
                        assert(fs2[i] == fs[i]);
                    }
                }
            } else if top.later.len() > 0 {
                let top2 = FrameM {
                    kind: top.kind,
                    out: top.out.push(seq![]),
                    rest: top.later[0],
                    later: top.later.drop_first(),
                };
                let fs2 = below.push(top2);
                assert(rebuild(top2).slots =~= rebuild(top).slots);
                lemma_close_top(below, top2, top);
                assert forall|i: int| 0 <= i < fs2.len() - 1 implies (#[trigger] fs2[i]).out.len()
                    > 0 by {
                    assert(fs2[i] == fs[i]);
                }
                assert forall|i: int|
                    0 <= i < fs2.len() && (#[trigger] fs2[i]).rest.len() > 0 implies fs2[i].out.len()
                    > 0 by {
                    if i < below.len() {
                        assert(fs2[i] == fs[i]);
                    }
                }
            } else if below.len() == 0 {
            } else {
                let nd = rebuild(top);
                assert(V::leave_action(m.visitor, nd) == ActionM::NoAction);
                let fs2 = below.drop_last().push(contribute(below.last(), Some(nd)));
                lemma_close_unfold(fs);
                assert(fs.drop_last() =~= below);
                assert forall|i: int| 0 <= i < fs2.len() - 1 implies (#[trigger] fs2[i]).out.len()
                    > 0 by {
                    assert(fs2[i] == fs[i]);
                }
                assert forall|i: int|
                    0 <= i < fs2.len() && (#[trigger] fs2[i]).rest.len() > 0 implies fs2[i].out.len()
                    > 0 by {
                    if i < fs2.len() - 1 {
                        assert(fs2[i] == fs[i]);
                    } else {
                        assert(fs[below.len() - 1].out.len() > 0);
                    }
                }
            }
        }
    }
}

/// A visitor whose hooks always return `NoAction` gets back the very tree
/// it was given.
pub proof fn lemma_visit_no_action<V: QueryVisitor>(t: TreeM, v: V::State)
    requires
        forall|s: V::State, x: TreeM| #[trigger] V::enter_action(s, x) == ActionM::NoAction,
        forall|s: V::State, x: TreeM| #[trigger] V::leave_action(s, x) == ActionM::NoAction,
    ensures
        !walk::<V>(t, v).failed,
        outcome(walk::<V>(t, v)) == Some(t),
{
    lemma_identity_run::<V>(t, v, STEP_LIMIT as nat);
}


/// Takes the next child of the frame's current slot and records `x` in its
/// place.
pub open spec fn record_next(f: FrameM, x: Option<TreeM>) -> FrameM {
    contribute(FrameM { rest: f.rest.drop_first(), ..f }, x)
}

/// Replacing a node on enter puts the replacement in the node's slot and
/// walks on into the replacement.
pub proof fn lemma_replace_on_enter<V: QueryVisitor>(m: MachineM<V::State>, r: TreeM)
    requires
        !m.finished,
        m.frames.len() > 0,
        m.frames.last().rest.len() > 0,
        V::enter_action(m.visitor, m.frames.last().rest[0]) == ActionM::ReplaceNode(r),
    ensures
        !step::<V>(m).finished,
        step::<V>(m).frames.len() == m.frames.len() + 1,
        step::<V>(m).frames.last() == open_frame(r),
        close_all(step::<V>(m).frames) == close_all(
            m.frames.drop_last().push(record_next(m.frames.last(), Some(r))),
        ),
{
    let top = m.frames.last();
    let top1 = FrameM { rest: top.rest.drop_first(), ..top };
    let fs2 = m.frames.drop_last().push(top1).push(open_frame(r));
    assert(rebuild(open_frame(r)) == r);
    lemma_close_unfold(fs2);
    assert(fs2.drop_last() =~= m.frames.drop_last().push(top1));
    assert(fs2.drop_last().drop_last() =~= m.frames.drop_last());
}

/// Deleting the middle one of three children keeps the other two, in their
/// order, and leaves the other slots alone.
pub proof fn lemma_delete_middle(f: FrameM, a: TreeM, b: TreeM, c: TreeM)
    requires
        f.out.len() > 0,
        f.out.last() == Seq::<TreeM>::empty(),
        f.rest == seq![a, b, c],
    ensures
        rebuild(record_next(record_next(record_next(f, Some(a)), None), Some(c))).slots
            == f.out.drop_last().push(seq![a, c]) + f.later,
{
    let g = record_next(record_next(record_next(f, Some(a)), None), Some(c));
    assert(g.rest =~= Seq::<TreeM>::empty());
    assert(g.out.last() =~= seq![a, c]);
    assert(g.out.drop_last() =~= f.out.drop_last());
    assert(g.out.last() + g.rest =~= seq![a, c]);
}

/// A machine that has ended takes no more steps: no hook is called again.
pub proof fn lemma_finished_stays<V: QueryVisitor>(m: MachineM<V::State>, n: nat)
    requires
        m.finished,
    ensures
        run::<V>(m, n) == m,
    decreases n,
{
    if n > 0 {
        lemma_finished_stays::<V>(m, (n - 1) as nat);
    }
}

/// `Break` on enter ends the walk at once: no hook is called after it, and
/// the result is the tree with the edits made before it.
pub proof fn lemma_break_on_enter<V: QueryVisitor>(m: MachineM<V::State>, n: nat)
    requires
        !m.finished,
        m.frames.len() > 0,
        m.frames.last().rest.len() > 0,
        V::enter_action(m.visitor, m.frames.last().rest[0]) == ActionM::Break,
    ensures
        step::<V>(m).finished,
        !step::<V>(m).failed,
        step::<V>(m).visitor == V::after_enter(m.visitor, m.frames.last().rest[0]),
        step::<V>(m).result == close_all(
            m.frames.drop_last().push(record_next(m.frames.last(), Some(m.frames.last().rest[0]))),
        ),
        run::<V>(step::<V>(m), n) == step::<V>(m),
{
    lemma_finished_stays::<V>(step::<V>(m), n);
}

/// `Break` on leaving a node whose children are done ends the walk at once:
/// no hook is called after it, and the result keeps the edits made so far,
/// those under the node included.
pub proof fn lemma_break_on_leave<V: QueryVisitor>(m: MachineM<V::State>, n: nat)
    requires
        !m.finished,
        m.frames.len() > 1,
        m.frames.last().rest.len() == 0,
        m.frames.last().later.len() == 0,
        V::leave_action(m.visitor, rebuild(m.frames.last())) == ActionM::Break,
    ensures
        step::<V>(m).finished,
        !step::<V>(m).failed,
        step::<V>(m).visitor == V::after_leave(m.visitor, rebuild(m.frames.last())),
        step::<V>(m).result == close_all(m.frames),
        run::<V>(step::<V>(m), n) == step::<V>(m),
{
    lemma_close_unfold(m.frames);
    lemma_finished_stays::<V>(step::<V>(m), n);
}


/// A hook that fails on enter ends the walk at once, with no tree: no hook
/// is called after it.
pub proof fn lemma_fail_on_enter<V: QueryVisitor>(m: MachineM<V::State>, n: nat)
    requires
        !m.finished,
        m.frames.len() > 0,
        m.frames.last().rest.len() > 0,
        V::enter_action(m.visitor, m.frames.last().rest[0]) == ActionM::Fail,
    ensures
        step::<V>(m).finished,
        step::<V>(m).failed,
        run::<V>(step::<V>(m), n) == step::<V>(m),
{
    lemma_finished_stays::<V>(step::<V>(m), n);
}


/// The number of steps a walk that never edits spends on a node: entering
/// it, one step per slot, its children, and leaving it.
pub open spec fn cost(n: TreeM) -> nat
    decreases n,
{
    2 + slots_cost(n.slots)
}

/// The steps spent on a list of slots.
pub open spec fn slots_cost(ss: Seq<Seq<TreeM>>) -> nat
    decreases ss,
{
    if ss.len() == 0 {
        0
    } else {
        slots_cost(ss.subrange(0, ss.len() - 1)) + 1 + items_cost(ss[ss.len() - 1])
    }
}

/// The steps spent on a list of nodes.
pub open spec fn items_cost(xs: Seq<TreeM>) -> nat
    decreases xs,
{
    if xs.len() == 0 {
        0
    } else {
        items_cost(xs.subrange(0, xs.len() - 1)) + cost(xs[xs.len() - 1])
    }
}

/// The steps a frame still needs, its own leaving included.
pub open spec fn frame_cost(f: FrameM) -> nat {
    items_cost(f.rest) + slots_cost(f.later) + 1
}

/// The steps a stack of frames still needs.
pub open spec fn stack_cost(fs: Seq<FrameM>) -> nat
    decreases fs.len(),
{
    if fs.len() == 0 {
        0
    } else {
        stack_cost(fs.drop_last()) + frame_cost(fs.last())
    }
}

proof fn lemma_items_cost_front(xs: Seq<TreeM>)
    requires
        xs.len() > 0,
    ensures
        items_cost(xs) == cost(xs[0]) + items_cost(xs.drop_first()),
    decreases xs.len(),
{
    let pre = xs.subrange(0, xs.len() - 1);
    if xs.len() == 1 {
        assert(pre =~= Seq::<TreeM>::empty());
        assert(xs.drop_first() =~= Seq::<TreeM>::empty());
    } else {
        lemma_items_cost_front(pre);
        assert(xs.drop_first().subrange(0, xs.drop_first().len() - 1) =~= pre.drop_first());
        assert(xs.drop_first()[xs.drop_first().len() - 1] == xs[xs.len() - 1]);
    }
}

proof fn lemma_slots_cost_front(ss: Seq<Seq<TreeM>>)
    requires
        ss.len() > 0,
    ensures
        slots_cost(ss) == 1 + items_cost(ss[0]) + slots_cost(ss.drop_first()),
    decreases ss.len(),
{
    let pre = ss.subrange(0, ss.len() - 1);
    if ss.len() == 1 {
        assert(pre =~= Seq::<Seq<TreeM>>::empty());
        assert(ss.drop_first() =~= Seq::<Seq<TreeM>>::empty());
    } else {
        lemma_slots_cost_front(pre);
        assert(ss.drop_first().subrange(0, ss.drop_first().len() - 1) =~= pre.drop_first());
        assert(ss.drop_first()[ss.drop_first().len() - 1] == ss[ss.len() - 1]);
    }
}

proof fn lemma_progress_run<V: QueryVisitor>(t: TreeM, v: V::State, n: nat)
    requires
        forall|s: V::State, x: TreeM| #[trigger] V::enter_action(s, x) == ActionM::NoAction,
        forall|s: V::State, x: TreeM| #[trigger] V::leave_action(s, x) == ActionM::NoAction,
    ensures
        !run::<V>(init(t, v), n).finished ==> run::<V>(init(t, v), n).frames.len() >= 1
            && stack_cost(run::<V>(init(t, v), n).frames) + n == cost(t) + 2,
    decreases n,
{
    if n == 0 {
        let f = root_frame(t);
        assert(seq![f].drop_last() =~= Seq::<FrameM>::empty());
        assert(seq![seq![t]].subrange(0, 0) =~= Seq::<Seq<TreeM>>::empty());
        assert(seq![t].subrange(0, 0) =~= Seq::<TreeM>::empty());
        assert(items_cost(Seq::<TreeM>::empty()) == 0);
        assert(slots_cost(Seq::<Seq<TreeM>>::empty()) == 0);
        assert(items_cost(seq![t]) == cost(t));
        assert(slots_cost(seq![seq![t]]) == 1 + cost(t));
        assert(frame_cost(f) == cost(t) + 2);
        assert(stack_cost(seq![f]) == stack_cost(Seq::<FrameM>::empty()) + frame_cost(f));
    } else {
        lemma_progress_run::<V>(t, v, (n - 1) as nat);
        let m = run::<V>(init(t, v), (n - 1) as nat);
        if !m.finished {
            let fs = m.frames;
            let top = fs.last();
            let below = fs.drop_last();
            if top.rest.len() > 0 {
                let c = top.rest[0];
                let top1 = FrameM { rest: top.rest.drop_first(), ..top };
                let fs2 = below.push(top1).push(open_frame(c));
                assert(V::enter_action(m.visitor, c) == ActionM::NoAction);
                lemma_items_cost_front(top.rest);
                assert(fs2.drop_last() =~= below.push(top1));
                assert(below.push(top1).drop_last() =~= below);
                assert(stack_cost(below.push(top1)) == stack_cost(below) + frame_cost(top1));
                assert(stack_cost(fs2) == stack_cost(below) + frame_cost(top1) + frame_cost(
                    open_frame(c),
                ));
            } else if top.later.len() > 0 {
                let top2 = FrameM {
                    kind: top.kind,
                    out: top.out.push(seq![]),
                    rest: top.later[0],
                    later: top.later.drop_first(),
                };
                lemma_slots_cost_front(top.later);
                assert(below.push(top2).drop_last() =~= below);
                assert(top.rest =~= Seq::<TreeM>::empty());
                assert(items_cost(top.rest) == 0);
                assert(stack_cost(below.push(top2)) == stack_cost(below) + frame_cost(top2));
            } else if below.len() == 0 {
            } else {
                let nd = rebuild(top);
                assert(V::leave_action(m.visitor, nd) == ActionM::NoAction);
                let p = contribute(below.last(), Some(nd));
                let fs2 = below.drop_last().push(p);
                assert(fs2.drop_last() =~= below.drop_last());
                assert(top.rest =~= Seq::<TreeM>::empty());
                assert(top.later =~= Seq::<Seq<TreeM>>::empty());
                assert(frame_cost(p) == frame_cost(below.last()));
                assert(items_cost(top.rest) == 0);
                assert(slots_cost(top.later) == 0);
                assert(stack_cost(fs2) == stack_cost(below.drop_last()) + frame_cost(p));
                assert(stack_cost(below) == stack_cost(below.drop_last()) + frame_cost(below.last()));
            }
        }
    }
}

/// A walk whose visitor never edits ends, within the step limit, with the
/// tree it was given, as long as the tree's cost fits under that limit.
pub proof fn lemma_no_action_walk_ends<V: QueryVisitor>(t: TreeM, v: V::State)
    requires
        forall|s: V::State, x: TreeM| #[trigger] V::enter_action(s, x) == ActionM::NoAction,
        forall|s: V::State, x: TreeM| #[trigger] V::leave_action(s, x) == ActionM::NoAction,
        cost(t) + 2 <= STEP_LIMIT,
    ensures
        walk::<V>(t, v).finished,
        !walk::<V>(t, v).failed,
        walk::<V>(t, v).result == Some(t),
{
    let k = cost(t) + 2;
    lemma_progress_run::<V>(t, v, k);
    lemma_identity_run::<V>(t, v, k);
    let m = run::<V>(init(t, v), k);
    if !m.finished {
        assert(m.frames =~= m.frames.drop_last().push(m.frames.last()));
        assert(stack_cost(m.frames) >= 1);
    }
    lemma_run_finished::<V>(init(t, v), k, STEP_LIMIT as nat);
}

} // verus!
