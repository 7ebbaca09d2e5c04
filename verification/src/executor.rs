use vstd::multiset::Multiset;
use vstd::prelude::*;
use crate::pipeline::PipelineError;

verus! {

broadcast use vstd::multiset::group_multiset_axioms;

/// Where the construction of a pipeline stands.
#[derive(Clone, Copy, PartialEq, Eq, Debug, Structural)]
pub enum Phase {
    /// Nothing has been asked for yet.
    Ready,
    /// A pipe was asked for; the answer is awaited.
    AwaitPipe,
    /// A fork was asked for; the answer is awaited.
    AwaitFork,
    /// Every child was handed over for waiting; nothing is left to do.
    Finished,
}

/// What the runner reports back to the driver.
#[derive(Clone, Copy, PartialEq, Eq, Debug, Structural)]
pub enum Event {
    /// The runner is ready for the first request.
    Begin,
    /// The pipe asked for exists, with these read and write descriptors.
    PipeCreated { read: i32, write: i32 },
    /// The pipe asked for could not be created.
    PipeFailed,
    /// The fork asked for succeeded; this is the parent, and `child` is the
    /// new process.
    Forked { child: i32 },
    /// The fork asked for failed.
    ForkFailed,
}

/// How a new child wires its standard streams before it runs its stage.
#[derive(Clone, Copy, PartialEq, Eq, Debug, Structural)]
pub struct ChildPlan {
    /// The index of the stage that the child runs.
    pub stage: usize,
    /// The read end of the pipe from the stage before, to become stdin.
    pub stdin: Option<i32>,
    /// The write end of the pipe to the next stage, to become stdout.
    pub stdout: Option<i32>,
    /// The read end of the pipe to the next stage, which the child has no
    /// use for.
    pub unused_read: Option<i32>,
}

/// One system call of a child before it runs its stage.
#[derive(Clone, Copy, PartialEq, Eq, Debug, Structural)]
pub enum ChildAction {
    /// Make descriptor `to` a copy of `from`.
    Dup2 { from: i32, to: i32 },
    /// Close the descriptor.
    Close(i32),
}

/// One thing the parent has to do, in the order given.
#[derive(Clone, Copy, PartialEq, Eq, Debug, Structural)]
pub enum Action {
    /// Close the descriptor; a failure is logged and nothing more.
    Close(i32),
    /// Create a pipe and report `PipeCreated` or `PipeFailed`.
    CreatePipe,
    /// Fork. The child follows the plan and never returns; the parent
    /// reports `Forked` or `ForkFailed`.
    Fork(ChildPlan),
    /// Wait for the child; a failure is logged and nothing more.
    Wait(i32),
    /// The pipeline is over. `complete` is false where a pipe or a fork
    /// failed.
    Done { complete: bool },
}

/// The state of a driver as contracts speak of it.
pub struct DriverView {
    /// The number of stages.
    pub total: usize,
    /// The index of the stage under construction.
    pub index: usize,
    /// The read end of the pipe from the stage before, held open.
    pub prev_read: Option<i32>,
    /// The pipe to the next stage, both ends held open.
    pub pipe: Option<(i32, i32)>,
    /// The children forked so far, oldest first.
    pub children: Seq<i32>,
    pub phase: Phase,
}

/// The state of a driver for `total` stages before `Begin`.
pub open spec fn fresh(total: usize) -> DriverView {
    DriverView {
        total,
        index: 0,
        prev_read: None,
        pipe: None,
        children: Seq::empty(),
        phase: Phase::Ready,
    }
}

/// The states that a driver can be in.
pub open spec fn consistent(d: DriverView) -> bool {
    &&& d.total >= 2
    &&& match d.phase {
        Phase::Ready => d == fresh(d.total),
        Phase::AwaitPipe => d.index + 1 < d.total && d.pipe.is_none(),
        Phase::AwaitFork => d.index < d.total && (d.pipe.is_some() <==> d.index + 1 < d.total),
        Phase::Finished => d.prev_read.is_none() && d.pipe.is_none(),
    }
}

/// One `Close` for a descriptor that is held, none for one that is not.
pub open spec fn close_if_held(fd: Option<i32>) -> Seq<Action> {
    match fd {
        Some(f) => seq![Action::Close(f)],
        None => Seq::empty(),
    }
}

/// One `Wait` for each child, oldest first.
pub open spec fn wait_all(children: Seq<i32>) -> Seq<Action> {
    Seq::new(children.len(), |i: int| Action::Wait(children[i]))
}

/// Stage `d.index` begins: with a pipe if another stage follows, with the
/// fork if it is the last.
pub open spec fn launch(d: DriverView) -> (DriverView, Seq<Action>) {
    if d.index + 1 < d.total {
        (DriverView { phase: Phase::AwaitPipe, ..d }, seq![Action::CreatePipe])
    } else {
        (
            DriverView { phase: Phase::AwaitFork, ..d },
            seq![
                Action::Fork(
                    ChildPlan { stage: d.index, stdin: d.prev_read, stdout: None, unused_read: None },
                ),
            ],
        )
    }
}

/// Construction is given up: every descriptor held is closed, the children
/// forked so far are waited for.
pub open spec fn abandon(d: DriverView) -> (DriverView, Seq<Action>) {
    let pipe_ends = match d.pipe {
        Some((r, w)) => seq![Action::Close(r), Action::Close(w)],
        None => Seq::empty(),
    };
    (
        DriverView { phase: Phase::Finished, prev_read: None, pipe: None, ..d },
        pipe_ends + close_if_held(d.prev_read) + wait_all(d.children) + seq![
            Action::Done { complete: false },
        ],
    )
}

/// The parent's side after a fork: it closes the write end of the new pipe
/// and the read end of the old one, keeps the read end of the new pipe for
/// the next stage, and goes on to that stage, or, after the last, to waiting.
pub open spec fn after_fork(d: DriverView, child: i32) -> (DriverView, Seq<Action>) {
    let closes = match d.pipe {
        Some((r, w)) => seq![Action::Close(w)],
        None => Seq::empty(),
    } + close_if_held(d.prev_read);
    let kept = match d.pipe {
        Some((r, w)) => Some(r),
        None => None,
    };
    let next = DriverView {
        index: (d.index + 1) as usize,
        prev_read: kept,
        pipe: None,
        children: d.children.push(child),
        ..d
    };
    if d.index + 1 < d.total {
        (launch(next).0, closes + launch(next).1)
    } else {
        (
            DriverView { phase: Phase::Finished, prev_read: None, ..next },
            closes + close_if_held(kept) + wait_all(next.children) + seq![
                Action::Done { complete: true },
            ],
        )
    }
}

/// The next state and what the parent has to do, for each state and event.
/// An event that the state does not await changes nothing.
pub open spec fn step_spec(d: DriverView, event: Event) -> (DriverView, Seq<Action>) {
    match (d.phase, event) {
        (Phase::Ready, Event::Begin) => launch(d),
        (Phase::AwaitPipe, Event::PipeCreated { read, write }) => (
            DriverView { pipe: Some((read, write)), phase: Phase::AwaitFork, ..d },
            seq![
                Action::Fork(
                    ChildPlan {
                        stage: d.index,
                        stdin: d.prev_read,
                        stdout: Some(write),
                        unused_read: Some(read),
                    },
                ),
            ],
        ),
        (Phase::AwaitPipe, Event::PipeFailed) => abandon(d),
        (Phase::AwaitFork, Event::Forked { child }) => after_fork(d, child),
        (Phase::AwaitFork, Event::ForkFailed) => abandon(d),
        _ => (d, Seq::empty()),
    }
}

/// Builds a pipeline of two or more stages: it says when to create a pipe,
/// when to fork and what to close, and the runner does it and reports back.
pub struct PipelineDriver {
    total: usize,
    index: usize,
    prev_read: Option<i32>,
    pipe: Option<(i32, i32)>,
    children: Vec<i32>,
    phase: Phase,
}

impl View for PipelineDriver {
    type V = DriverView;

    closed spec fn view(&self) -> DriverView {
        DriverView {
            total: self.total,
            index: self.index,
            prev_read: self.prev_read,
            pipe: self.pipe,
            children: self.children@,
            phase: self.phase,
        }
    }
}

impl PipelineDriver {
    #[verifier::type_invariant]
    spec fn well_formed(self) -> bool {
        consistent(self@)
    }

    /// A driver for `stages` stages. Fewer than two are refused.
    pub fn new(stages: usize) -> (driver: Result<PipelineDriver, PipelineError>)
        ensures
            stages < 2 ==> driver == Err::<PipelineDriver, PipelineError>(
                PipelineError::TooFewCommands,
            ),
            stages >= 2 ==> driver.is_ok() && driver.unwrap()@ == fresh(stages),
    {
        if stages < 2 {
            Err(PipelineError::TooFewCommands)
        } else {
            Ok(
                PipelineDriver {
                    total: stages,
                    index: 0,
                    prev_read: None,
                    pipe: None,
                    children: Vec::new(),
                    phase: Phase::Ready,
                },
            )
        }
    }

    /// Where the construction stands.
    pub fn phase(&self) -> (phase: Phase)
        ensures
            phase == self@.phase,
    {
        self.phase
    }

    /// Whether nothing is left to do.
    pub fn is_finished(&self) -> (finished: bool)
        ensures
            finished == (self@.phase == Phase::Finished),
    {
        self.phase == Phase::Finished
    }

    /// The number of children forked so far.
    pub fn child_count(&self) -> (count: usize)
        ensures
            count == self@.children.len(),
    {
        self.children.len()
    }

    fn push_waits(children: &Vec<i32>, actions: &mut Vec<Action>)
        ensures
            final(actions)@ == old(actions)@ + wait_all(children@),
    {
        let ghost start = actions@;
        let mut i: usize = 0;
        while i < children.len()
            invariant
                i <= children@.len(),
                actions@ == start + wait_all(children@).take(i as int),
            decreases children@.len() - i,
        {
            actions.push(Action::Wait(children[i]));
            proof {
                assert(wait_all(children@).take(i + 1) =~= wait_all(children@).take(
                    i as int,
                ).push(Action::Wait(children@[i as int])));
            }
            i = i + 1;
        }
        proof {
            assert(wait_all(children@).take(children@.len() as int) =~= wait_all(children@));
        }
    }

    fn give_up(self) -> (out: (PipelineDriver, Vec<Action>))
        ensures
            (out.0@, out.1@) == abandon(self@),
    {
        proof {
            use_type_invariant(&self);
        }
        let mut actions: Vec<Action> = Vec::new();
        if let Some((r, w)) = self.pipe {
            actions.push(Action::Close(r));
            actions.push(Action::Close(w));
        }
        if let Some(p) = self.prev_read {
            actions.push(Action::Close(p));
        }
        Self::push_waits(&self.children, &mut actions);
        actions.push(Action::Done { complete: false });
        let next = PipelineDriver {
            total: self.total,
            index: self.index,
            prev_read: None,
            pipe: None,
            children: self.children,
            phase: Phase::Finished,
        };
        proof {
            assert(actions@ =~= abandon(self@).1);
        }
        (next, actions)
    }

    /// Takes one event and gives the state that follows and the actions
    /// that the parent performs, in order, before it reports the next event.
    pub fn step(self, event: Event) -> (out: (PipelineDriver, Vec<Action>))
        ensures
            (out.0@, out.1@) == step_spec(self@, event),
            consistent(self@),
            consistent(out.0@),
    {
        proof {
            use_type_invariant(&self);
        }
        match (self.phase, event) {
            (Phase::Ready, Event::Begin) => {
                let mut actions: Vec<Action> = Vec::new();
                actions.push(Action::CreatePipe);
                let next = PipelineDriver {
                    total: self.total,
                    index: self.index,
                    prev_read: self.prev_read,
                    pipe: self.pipe,
                    children: self.children,
                    phase: Phase::AwaitPipe,
                };
                proof {
                    assert(actions@ =~= launch(self@).1);
                }
                (next, actions)
            },
            (Phase::AwaitPipe, Event::PipeCreated { read, write }) => {
                let mut actions: Vec<Action> = Vec::new();
                actions.push(
                    Action::Fork(
                        ChildPlan {
                            stage: self.index,
                            stdin: self.prev_read,
                            stdout: Some(write),
                            unused_read: Some(read),
                        },
                    ),
                );
                let next = PipelineDriver {
                    total: self.total,
                    index: self.index,
                    prev_read: self.prev_read,
                    pipe: Some((read, write)),
                    children: self.children,
                    phase: Phase::AwaitFork,
                };
                proof {
                    assert(actions@ =~= step_spec(self@, event).1);
                }
                (next, actions)
            },
            (Phase::AwaitPipe, Event::PipeFailed) => self.give_up(),
            (Phase::AwaitFork, Event::ForkFailed) => self.give_up(),
            (Phase::AwaitFork, Event::Forked { child }) => {
                let ghost before = self@;
                let mut actions: Vec<Action> = Vec::new();
                let mut kept: Option<i32> = None;
                if let Some((r, w)) = self.pipe {
                    actions.push(Action::Close(w));
                    kept = Some(r);
                }
                if let Some(p) = self.prev_read {
                    actions.push(Action::Close(p));
                }
                let mut children = self.children;
                children.push(child);
                let index = self.index + 1;
                if index < self.total {
                    let phase = if index + 1 < self.total {
                        actions.push(Action::CreatePipe);
                        Phase::AwaitPipe
                    } else {
                        actions.push(
                            Action::Fork(
                                ChildPlan { stage: index, stdin: kept, stdout: None, unused_read: None },
                            ),
                        );
                        Phase::AwaitFork
                    };
                    let next = PipelineDriver {
                        total: self.total,
                        index,
                        prev_read: kept,
                        pipe: None,
                        children,
                        phase,
                    };
                    proof {
                        assert(actions@ =~= after_fork(before, child).1);
                    }
                    (next, actions)
                } else {
                    if let Some(r) = kept {
                        actions.push(Action::Close(r));
                    }
                    Self::push_waits(&children, &mut actions);
                    actions.push(Action::Done { complete: true });
                    let next = PipelineDriver {
                        total: self.total,
                        index,
                        prev_read: None,
                        pipe: None,
                        children,
                        phase: Phase::Finished,
                    };
                    proof {
                        assert(actions@ =~= after_fork(before, child).1);
                    }
                    (next, actions)
                }
            },
            _ => (self, Vec::new()),
        }
    }
}

/// The system calls of a child, in order: the old pipe's read end becomes
/// stdin and is closed; the new pipe's write end becomes stdout, and both
/// ends of the new pipe are closed.
pub open spec fn child_steps(plan: ChildPlan) -> Seq<ChildAction> {
    let input = match plan.stdin {
        Some(p) => seq![ChildAction::Dup2 { from: p, to: 0 }, ChildAction::Close(p)],
        None => Seq::empty(),
    };
    let unused = match plan.unused_read {
        Some(r) => seq![ChildAction::Close(r)],
        None => Seq::empty(),
    };
    let output = match plan.stdout {
        Some(w) => seq![ChildAction::Dup2 { from: w, to: 1 }] + unused + seq![
            ChildAction::Close(w),
        ],
        None => unused,
    };
    input + output
}

impl ChildPlan {
    /// The system calls that the child makes before it runs its stage.
    pub fn steps(&self) -> (calls: Vec<ChildAction>)
        ensures
            calls@ == child_steps(*self),
    {
        let mut calls: Vec<ChildAction> = Vec::new();
        if let Some(p) = self.stdin {
            calls.push(ChildAction::Dup2 { from: p, to: 0 });
            calls.push(ChildAction::Close(p));
        }
        if let Some(w) = self.stdout {
            calls.push(ChildAction::Dup2 { from: w, to: 1 });
        }
        if let Some(r) = self.unused_read {
            calls.push(ChildAction::Close(r));
        }
        if let Some(w) = self.stdout {
            calls.push(ChildAction::Close(w));
        }
        proof {
            assert(calls@ =~= child_steps(*self));
        }
        calls
    }
}

/// The descriptors that a driver in state `d` holds open.
pub open spec fn held_fds(d: DriverView) -> Multiset<i32> {
    let old_pipe = match d.prev_read {
        Some(p) => Multiset::singleton(p),
        None => Multiset::empty(),
    };
    let new_pipe = match d.pipe {
        Some((r, w)) => Multiset::singleton(r).insert(w),
        None => Multiset::empty(),
    };
    old_pipe.add(new_pipe)
}

/// The descriptors that the event hands to a driver in state `d`.
pub open spec fn received_fds(d: DriverView, event: Event) -> Multiset<i32> {
    match (d.phase, event) {
        (Phase::AwaitPipe, Event::PipeCreated { read, write }) => Multiset::singleton(read).insert(
            write,
        ),
        _ => Multiset::empty(),
    }
}

/// The descriptors that the actions close, each as often as it is closed.
pub open spec fn closed_fds(actions: Seq<Action>) -> Multiset<i32>
    decreases actions.len(),
{
    if actions.len() == 0 {
        Multiset::empty()
    } else {
        match actions.last() {
            Action::Close(fd) => closed_fds(actions.drop_last()).insert(fd),
            _ => closed_fds(actions.drop_last()),
        }
    }
}

/// The children that the actions wait for, in order.
pub open spec fn waited(actions: Seq<Action>) -> Seq<i32>
    decreases actions.len(),
{
    if actions.len() == 0 {
        Seq::empty()
    } else {
        match actions.last() {
            Action::Wait(child) => waited(actions.drop_last()).push(child),
            _ => waited(actions.drop_last()),
        }
    }
}

/// A whole run: the state reached, everything the parent was told to do,
/// and every descriptor it was handed.
pub struct Run {
    pub state: DriverView,
    pub actions: Seq<Action>,
    pub received: Multiset<i32>,
}

/// The run of a driver from state `d` over `events`.
pub open spec fn run(d: DriverView, events: Seq<Event>) -> Run
    decreases events.len(),
{
    if events.len() == 0 {
        Run { state: d, actions: Seq::empty(), received: Multiset::empty() }
    } else {
        let before = run(d, events.drop_last());
        let (state, actions) = step_spec(before.state, events.last());
        Run {
            state,
            actions: before.actions + actions,
            received: before.received.add(received_fds(before.state, events.last())),
        }
    }
}

proof fn lemma_closed_fds_concat(a: Seq<Action>, b: Seq<Action>)
    ensures
        closed_fds(a + b) == closed_fds(a).add(closed_fds(b)),
    decreases b.len(),
{
    if b.len() == 0 {
        assert(a + b =~= a);
        assert(closed_fds(a).add(closed_fds(b)) =~= closed_fds(a));
    } else {
        lemma_closed_fds_concat(a, b.drop_last());
        assert((a + b).drop_last() =~= a + b.drop_last());
        assert((a + b).last() == b.last());
        assert(closed_fds(a + b) =~= closed_fds(a).add(closed_fds(b)));
    }
}

proof fn lemma_waited_concat(a: Seq<Action>, b: Seq<Action>)
    ensures
        waited(a + b) == waited(a) + waited(b),
    decreases b.len(),
{
    if b.len() == 0 {
        assert(a + b =~= a);
        assert(waited(a) + waited(b) =~= waited(a));
    } else {
        lemma_waited_concat(a, b.drop_last());
        assert((a + b).drop_last() =~= a + b.drop_last());
        assert((a + b).last() == b.last());
        assert(waited(a + b) =~= waited(a) + waited(b));
    }
}

proof fn lemma_wait_all(children: Seq<i32>)
    ensures
        closed_fds(wait_all(children)).len() == 0,
        closed_fds(wait_all(children)) == Multiset::<i32>::empty(),
        waited(wait_all(children)) == children,
    decreases children.len(),
{
    if children.len() > 0 {
        lemma_wait_all(children.drop_last());
        assert(wait_all(children).drop_last() =~= wait_all(children.drop_last()));
        assert(waited(wait_all(children)) =~= children);
    } else {
        assert(waited(wait_all(children)) =~= children);
    }
}

proof fn lemma_one_action(x: Action)
    ensures
        closed_fds(seq![x]) == (match x {
            Action::Close(fd) => Multiset::singleton(fd),
            _ => Multiset::empty(),
        }),
        waited(seq![x]) == (match x {
            Action::Wait(c) => seq![c],
            _ => Seq::empty(),
        }),
{
    let a = seq![x];
    assert(a.drop_last() =~= Seq::<Action>::empty());
    assert(closed_fds(a.drop_last()) == Multiset::<i32>::empty());
    assert(waited(a.drop_last()) =~= Seq::<i32>::empty());
    match x {
        Action::Close(fd) => {
            assert(closed_fds(a) =~= Multiset::singleton(fd));
        },
        Action::Wait(c) => {
            assert(waited(a) =~= seq![c]);
        },
        _ => {},
    }
    assert(waited(a) =~= (match x {
        Action::Wait(c) => seq![c],
        _ => Seq::empty(),
    }));
}

proof fn lemma_close_if_held(fd: Option<i32>)
    ensures
        closed_fds(close_if_held(fd)) == (match fd {
            Some(f) => Multiset::singleton(f),
            None => Multiset::empty(),
        }),
        waited(close_if_held(fd)) == Seq::<i32>::empty(),
{
    match fd {
        Some(f) => {
            lemma_one_action(Action::Close(f));
        },
        None => {},
    }
}

/// One step keeps the books: what is held afterwards and what the actions
/// close is what was held before and what the event handed over. Children
/// are waited for in the step that finishes the pipeline, all of them and in
/// the order of their forks, and in no other.
pub proof fn lemma_step_keeps_books(d: DriverView, event: Event)
    requires
        consistent(d),
    ensures
        consistent(step_spec(d, event).0),
        held_fds(step_spec(d, event).0).add(closed_fds(step_spec(d, event).1)) == held_fds(d).add(
            received_fds(d, event),
        ),
        waited(step_spec(d, event).1) == if d.phase != Phase::Finished && step_spec(
            d,
            event,
        ).0.phase == Phase::Finished {
            step_spec(d, event).0.children
        } else {
            Seq::empty()
        },
        d.phase == Phase::Finished ==> step_spec(d, event) == (d, Seq::<Action>::empty()),
{
    let (next, actions) = step_spec(d, event);
    match (d.phase, event) {
        (Phase::Ready, Event::Begin) => {
            lemma_one_action(Action::CreatePipe);
            assert(held_fds(next).add(closed_fds(actions)) =~= held_fds(d).add(
                received_fds(d, event),
            ));
        },
        (Phase::AwaitPipe, Event::PipeCreated { read, write }) => {
            lemma_one_action(actions[0]);
            assert(actions =~= seq![actions[0]]);
            assert(held_fds(next).add(closed_fds(actions)) =~= held_fds(d).add(
                received_fds(d, event),
            ));
        },
        (Phase::AwaitPipe, Event::PipeFailed) => {
            lemma_abandon(d);
        },
        (Phase::AwaitFork, Event::ForkFailed) => {
            lemma_abandon(d);
        },
        (Phase::AwaitFork, Event::Forked { child }) => {
            let first = match d.pipe {
                Some((r, w)) => seq![Action::Close(w)],
                None => Seq::empty(),
            };
            let closes = first + close_if_held(d.prev_read);
            lemma_close_if_held(d.prev_read);
            match d.pipe {
                Some((r, w)) => {
                    lemma_one_action(Action::Close(w));
                },
                None => {},
            }
            lemma_closed_fds_concat(first, close_if_held(d.prev_read));
            lemma_waited_concat(first, close_if_held(d.prev_read));
            let kept = match d.pipe {
                Some((r, w)) => Some(r),
                None => None,
            };
            let mid = DriverView {
                index: (d.index + 1) as usize,
                prev_read: kept,
                pipe: None,
                children: d.children.push(child),
                ..d
            };
            if d.index + 1 < d.total {
                let l = launch(mid).1;
                lemma_one_action(l[0]);
                assert(l =~= seq![l[0]]);
                lemma_closed_fds_concat(closes, l);
                lemma_waited_concat(closes, l);
                assert(waited(actions) =~= Seq::<i32>::empty());
                assert(held_fds(next).add(closed_fds(actions)) =~= held_fds(d).add(
                    received_fds(d, event),
                ));
            } else {
                let done = seq![Action::Done { complete: true }];
                lemma_one_action(Action::Done { complete: true });
                lemma_close_if_held(kept);
                lemma_wait_all(mid.children);
                lemma_closed_fds_concat(closes, close_if_held(kept));
                lemma_waited_concat(closes, close_if_held(kept));
                lemma_closed_fds_concat(closes + close_if_held(kept), wait_all(mid.children));
                lemma_waited_concat(closes + close_if_held(kept), wait_all(mid.children));
                lemma_closed_fds_concat(
                    closes + close_if_held(kept) + wait_all(mid.children),
                    done,
                );
                lemma_waited_concat(closes + close_if_held(kept) + wait_all(mid.children), done);
                assert(waited(actions) =~= mid.children);
                assert(held_fds(next).add(closed_fds(actions)) =~= held_fds(d).add(
                    received_fds(d, event),
                ));
            }
        },
        _ => {
            assert(held_fds(next).add(closed_fds(actions)) =~= held_fds(d).add(
                received_fds(d, event),
            ));
        },
    }
}

proof fn lemma_abandon(d: DriverView)
    requires
        consistent(d),
        d.phase != Phase::Finished,
    ensures
        consistent(abandon(d).0),
        held_fds(abandon(d).0).add(closed_fds(abandon(d).1)) == held_fds(d),
        waited(abandon(d).1) == d.children,
{
    let pipe_ends = match d.pipe {
        Some((r, w)) => seq![Action::Close(r), Action::Close(w)],
        None => Seq::empty(),
    };
    let done = seq![Action::Done { complete: false }];
    match d.pipe {
        Some((r, w)) => {
            lemma_one_action(Action::Close(r));
            lemma_one_action(Action::Close(w));
            assert(pipe_ends =~= seq![Action::Close(r)] + seq![Action::Close(w)]);
            lemma_closed_fds_concat(seq![Action::Close(r)], seq![Action::Close(w)]);
            lemma_waited_concat(seq![Action::Close(r)], seq![Action::Close(w)]);
        },
        None => {},
    }
    lemma_close_if_held(d.prev_read);
    lemma_wait_all(d.children);
    lemma_one_action(Action::Done { complete: false });
    lemma_closed_fds_concat(pipe_ends, close_if_held(d.prev_read));
    lemma_waited_concat(pipe_ends, close_if_held(d.prev_read));
    lemma_closed_fds_concat(pipe_ends + close_if_held(d.prev_read), wait_all(d.children));
    lemma_waited_concat(pipe_ends + close_if_held(d.prev_read), wait_all(d.children));
    lemma_closed_fds_concat(
        pipe_ends + close_if_held(d.prev_read) + wait_all(d.children),
        done,
    );
    lemma_waited_concat(pipe_ends + close_if_held(d.prev_read) + wait_all(d.children), done);
    assert(waited(abandon(d).1) =~= d.children);
    assert(held_fds(abandon(d).0).add(closed_fds(abandon(d).1)) =~= held_fds(d));
}

/// Whatever the events, a pipeline of two or more stages leaks nothing: at
/// every moment the descriptors handed to the parent are those it still
/// holds and those it was told to close, and once the pipeline is finished
/// it holds none, so each was closed exactly once, and every child forked
/// was waited for, in the order of the forks.
pub proof fn lemma_no_descriptor_leaks(total: usize, events: Seq<Event>)
    requires
        total >= 2,
    ensures
        ({
            let r = run(fresh(total), events);
            &&& consistent(r.state)
            &&& held_fds(r.state).add(closed_fds(r.actions)) == r.received
            &&& r.state.phase == Phase::Finished ==> {
                &&& held_fds(r.state) == Multiset::<i32>::empty()
                &&& closed_fds(r.actions) == r.received
                &&& waited(r.actions) == r.state.children
            }
            &&& r.state.phase != Phase::Finished ==> waited(r.actions) == Seq::<i32>::empty()
        }),
    decreases events.len(),
{
    let r = run(fresh(total), events);
    if events.len() == 0 {
        assert(held_fds(r.state).add(closed_fds(r.actions)) =~= r.received);
    } else {
        let before = run(fresh(total), events.drop_last());
        lemma_no_descriptor_leaks(total, events.drop_last());
        let (state, actions) = step_spec(before.state, events.last());
        lemma_step_keeps_books(before.state, events.last());
        lemma_closed_fds_concat(before.actions, actions);
        lemma_waited_concat(before.actions, actions);
        let gained = received_fds(before.state, events.last());
        assert(r.state == state);
        assert(r.actions == before.actions + actions);
        assert(r.received == before.received.add(gained));
        assert forall|fd: i32|
            held_fds(r.state).add(closed_fds(r.actions)).count(fd) == r.received.count(fd) by {
            assert(held_fds(state).add(closed_fds(actions)).count(fd) == held_fds(
                before.state,
            ).add(gained).count(fd));
            assert(held_fds(before.state).add(closed_fds(before.actions)).count(fd)
                == before.received.count(fd));
        }
        assert(held_fds(r.state).add(closed_fds(r.actions)) =~= r.received);
        if r.state.phase == Phase::Finished {
            assert(held_fds(r.state) =~= Multiset::<i32>::empty());
            assert(closed_fds(r.actions) =~= r.received);
            assert(waited(r.actions) =~= r.state.children);
        } else {
            assert(waited(r.actions) =~= Seq::<i32>::empty());
        }
    }
}

/// The stages for which the actions ask for a fork, in order.
pub open spec fn forked_stages(actions: Seq<Action>) -> Seq<usize>
    decreases actions.len(),
{
    if actions.len() == 0 {
        Seq::empty()
    } else {
        match actions.last() {
            Action::Fork(plan) => forked_stages(actions.drop_last()).push(plan.stage),
            _ => forked_stages(actions.drop_last()),
        }
    }
}

/// The actions say that the pipeline is over with every stage started.
pub open spec fn completes(actions: Seq<Action>) -> bool {
    exists|i: int| 0 <= i < actions.len() && actions[i] == (Action::Done { complete: true })
}

/// The stages `0` to `count - 1`, in order.
pub open spec fn first_stages(count: nat) -> Seq<usize> {
    Seq::new(count, |i: int| i as usize)
}

/// Actions that neither fork nor report a complete pipeline.
spec fn quiet(actions: Seq<Action>) -> bool {
    forall|i: int|
        0 <= i < actions.len() ==> !((#[trigger] actions[i]) is Fork) && actions[i] != (
            Action::Done { complete: true }
        )
}

/// What a state says of the forks asked for so far, `forks` in number, and
/// of whether the pipeline was reported complete.
spec fn on_course(d: DriverView, forks: nat, complete: bool) -> bool {
    &&& consistent(d)
    &&& match d.phase {
        Phase::Ready => forks == 0 && !complete,
        Phase::AwaitPipe => forks == d.index && d.children.len() == d.index && !complete,
        Phase::AwaitFork => forks == d.index + 1 && d.children.len() == d.index && !complete,
        Phase::Finished => forks <= d.total && (complete ==> forks == d.total
            && d.children.len() == d.total),
    }
}

proof fn lemma_forked_concat(a: Seq<Action>, b: Seq<Action>)
    ensures
        forked_stages(a + b) == forked_stages(a) + forked_stages(b),
        completes(a + b) == (completes(a) || completes(b)),
    decreases b.len(),
{
    if b.len() == 0 {
        assert(a + b =~= a);
        assert(forked_stages(a) + forked_stages(b) =~= forked_stages(a));
    } else {
        lemma_forked_concat(a, b.drop_last());
        assert((a + b).drop_last() =~= a + b.drop_last());
        assert((a + b).last() == b.last());
        assert(forked_stages(a + b) =~= forked_stages(a) + forked_stages(b));
    }
    if completes(a) {
        let i = choose|i: int| 0 <= i < a.len() && a[i] == (Action::Done { complete: true });
        assert((a + b)[i] == a[i]);
    }
    if completes(b) {
        let i = choose|i: int| 0 <= i < b.len() && b[i] == (Action::Done { complete: true });
        assert((a + b)[a.len() + i] == b[i]);
    }
    if completes(a + b) {
        let i = choose|i: int|
            0 <= i < (a + b).len() && (a + b)[i] == (Action::Done { complete: true });
        if i < a.len() {
            assert(a[i] == (a + b)[i]);
        } else {
            assert(b[i - a.len()] == (a + b)[i]);
        }
    }
}

proof fn lemma_quiet(a: Seq<Action>)
    requires
        quiet(a),
    ensures
        forked_stages(a) == Seq::<usize>::empty(),
        !completes(a),
    decreases a.len(),
{
    if a.len() > 0 {
        assert(!(a[a.len() - 1] is Fork));
        assert forall|i: int| 0 <= i < a.drop_last().len() implies !((
        #[trigger] a.drop_last()[i]) is Fork) && a.drop_last()[i] != (
            Action::Done { complete: true }
        ) by {
            assert(a.drop_last()[i] == a[i]);
        }
        lemma_quiet(a.drop_last());
    }
}

proof fn lemma_fork_alone(plan: ChildPlan)
    ensures
        forked_stages(seq![Action::Fork(plan)]) == seq![plan.stage],
        !completes(seq![Action::Fork(plan)]),
{
    let a = seq![Action::Fork(plan)];
    assert(a.drop_last() =~= Seq::<Action>::empty());
    assert(forked_stages(a.drop_last()) =~= Seq::<usize>::empty());
    assert(forked_stages(a) =~= seq![plan.stage]);
}

proof fn lemma_step_on_course(d: DriverView, event: Event, forks: nat, complete: bool)
    requires
        on_course(d, forks, complete),
    ensures
        ({
            let (next, actions) = step_spec(d, event);
            let asked = forked_stages(actions);
            &&& asked.len() <= 1
            &&& asked.len() == 1 ==> asked[0] == forks && forks < d.total
            &&& on_course(next, forks + asked.len(), complete || completes(actions))
        }),
{
    let (next, actions) = step_spec(d, event);
    match (d.phase, event) {
        (Phase::Ready, Event::Begin) => {
            assert(quiet(actions));
            lemma_quiet(actions);
        },
        (Phase::AwaitPipe, Event::PipeCreated { read, write }) => {
            let plan = ChildPlan {
                stage: d.index,
                stdin: d.prev_read,
                stdout: Some(write),
                unused_read: Some(read),
            };
            assert(actions =~= seq![Action::Fork(plan)]);
            lemma_fork_alone(plan);
        },
        (Phase::AwaitPipe, Event::PipeFailed) => {
            assert(quiet(actions));
            lemma_quiet(actions);
        },
        (Phase::AwaitFork, Event::ForkFailed) => {
            assert(quiet(actions));
            lemma_quiet(actions);
        },
        (Phase::AwaitFork, Event::Forked { child }) => {
            let closes = match d.pipe {
                Some((r, w)) => seq![Action::Close(w)],
                None => Seq::empty(),
            } + close_if_held(d.prev_read);
            assert(quiet(closes));
            lemma_quiet(closes);
            let kept = match d.pipe {
                Some((r, w)) => Some(r),
                None => None,
            };
            let mid = DriverView {
                index: (d.index + 1) as usize,
                prev_read: kept,
                pipe: None,
                children: d.children.push(child),
                ..d
            };
            if d.index + 1 < d.total {
                let l = launch(mid).1;
                lemma_forked_concat(closes, l);
                if mid.index + 1 < mid.total {
                    assert(quiet(l));
                    lemma_quiet(l);
                    assert(forked_stages(actions) =~= Seq::<usize>::empty());
                } else {
                    let plan = ChildPlan {
                        stage: mid.index,
                        stdin: mid.prev_read,
                        stdout: None,
                        unused_read: None,
                    };
                    assert(l =~= seq![Action::Fork(plan)]);
                    lemma_fork_alone(plan);
                    assert(forked_stages(actions) =~= seq![plan.stage]);
                }
            } else {
                let rest = close_if_held(kept) + wait_all(mid.children);
                assert(quiet(closes + rest));
                lemma_quiet(closes + rest);
                let done = seq![Action::Done { complete: true }];
                assert(actions =~= (closes + rest) + done);
                lemma_forked_concat(closes + rest, done);
                assert(done[0] == (Action::Done { complete: true }));
                assert(done.drop_last() =~= Seq::<Action>::empty());
                assert(forked_stages(done.drop_last()) =~= Seq::<usize>::empty());
                assert(forked_stages(done) =~= Seq::<usize>::empty());
                assert(forked_stages(actions) =~= Seq::<usize>::empty());
            }
        },
        _ => {
            lemma_quiet(actions);
        },
    }
}

/// Whatever the events, the stages of a pipeline get their forks in order,
/// each stage at most one and none before the stage before it; and where the
/// pipeline is reported complete, every stage got its fork and its child.
pub proof fn lemma_stages_forked_in_order(total: usize, events: Seq<Event>)
    requires
        total >= 2,
    ensures
        ({
            let r = run(fresh(total), events);
            let asked = forked_stages(r.actions);
            &&& asked == first_stages(asked.len())
            &&& asked.len() <= total
            &&& completes(r.actions) ==> {
                &&& asked.len() == total
                &&& r.state.children.len() == total
                &&& r.state.phase == Phase::Finished
            }
        }),
{
    lemma_run_on_course(total, events);
}

proof fn lemma_run_on_course(total: usize, events: Seq<Event>)
    requires
        total >= 2,
    ensures
        ({
            let r = run(fresh(total), events);
            let asked = forked_stages(r.actions);
            &&& r.state.total == total
            &&& asked == first_stages(asked.len())
            &&& asked.len() <= total
            &&& on_course(r.state, asked.len(), completes(r.actions))
        }),
    decreases events.len(),
{
    let r = run(fresh(total), events);
    if events.len() == 0 {
        assert(forked_stages(r.actions) =~= first_stages(0));
    } else {
        let before = run(fresh(total), events.drop_last());
        lemma_run_on_course(total, events.drop_last());
        let (state, actions) = step_spec(before.state, events.last());
        let had = forked_stages(before.actions);
        lemma_step_on_course(before.state, events.last(), had.len(), completes(before.actions));
        lemma_forked_concat(before.actions, actions);
        assert(r.state == state);
        assert(r.actions == before.actions + actions);
        let asked = forked_stages(r.actions);
        assert(asked =~= first_stages(asked.len()));
    }
}

/// A child closes every descriptor of a pipe that it was handed, each once,
/// and copies descriptors to stdin and stdout alone.
pub proof fn lemma_child_closes_what_it_got(plan: ChildPlan)
    ensures
        child_closed(child_steps(plan)) == plan_fds(plan),
        forall|i: int|
            0 <= i < child_steps(plan).len() ==> match #[trigger] child_steps(plan)[i] {
                ChildAction::Dup2 { from, to } => (to == 0 && plan.stdin == Some(from)) || (to == 1
                    && plan.stdout == Some(from)),
                ChildAction::Close(fd) => true,
            },
{
    let steps = child_steps(plan);
    let input = match plan.stdin {
        Some(p) => seq![ChildAction::Dup2 { from: p, to: 0 }, ChildAction::Close(p)],
        None => Seq::empty(),
    };
    let unused = match plan.unused_read {
        Some(r) => seq![ChildAction::Close(r)],
        None => Seq::empty(),
    };
    let output = match plan.stdout {
        Some(w) => seq![ChildAction::Dup2 { from: w, to: 1 }] + unused + seq![
            ChildAction::Close(w),
        ],
        None => unused,
    };
    lemma_child_closed_short(input);
    lemma_child_closed_short(unused);
    lemma_child_closed_concat(input, output);
    match plan.stdout {
        Some(w) => {
            let head = seq![ChildAction::Dup2 { from: w, to: 1 }];
            let tail = seq![ChildAction::Close(w)];
            lemma_child_closed_short(head);
            lemma_child_closed_short(tail);
            lemma_child_closed_concat(head, unused);
            lemma_child_closed_concat(head + unused, tail);
        },
        None => {},
    }
    assert(child_closed(steps) =~= plan_fds(plan));
}

/// The descriptors that the calls close, each as often as it is closed.
pub open spec fn child_closed(calls: Seq<ChildAction>) -> Multiset<i32>
    decreases calls.len(),
{
    if calls.len() == 0 {
        Multiset::empty()
    } else {
        match calls.last() {
            ChildAction::Close(fd) => child_closed(calls.drop_last()).insert(fd),
            _ => child_closed(calls.drop_last()),
        }
    }
}

/// The descriptors that a plan hands to the child.
pub open spec fn plan_fds(plan: ChildPlan) -> Multiset<i32> {
    let one = |fd: Option<i32>|
        match fd {
            Some(f) => Multiset::singleton(f),
            None => Multiset::empty(),
        };
    one(plan.stdin).add(one(plan.stdout)).add(one(plan.unused_read))
}

proof fn lemma_child_closed_concat(a: Seq<ChildAction>, b: Seq<ChildAction>)
    ensures
        child_closed(a + b) == child_closed(a).add(child_closed(b)),
    decreases b.len(),
{
    if b.len() == 0 {
        assert(a + b =~= a);
        assert(child_closed(a).add(child_closed(b)) =~= child_closed(a));
    } else {
        lemma_child_closed_concat(a, b.drop_last());
        assert((a + b).drop_last() =~= a + b.drop_last());
        assert((a + b).last() == b.last());
        assert(child_closed(a + b) =~= child_closed(a).add(child_closed(b)));
    }
}

proof fn lemma_child_closed_short(a: Seq<ChildAction>)
    requires
        a.len() <= 2,
    ensures
        a.len() == 0 ==> child_closed(a) == Multiset::<i32>::empty(),
        a.len() == 1 ==> child_closed(a) == (match a[0] {
            ChildAction::Close(fd) => Multiset::singleton(fd),
            _ => Multiset::empty(),
        }),
        a.len() == 2 ==> child_closed(a) == (match a[0] {
            ChildAction::Close(fd) => Multiset::singleton(fd),
            _ => Multiset::empty(),
        }).add(
            match a[1] {
                ChildAction::Close(fd) => Multiset::singleton(fd),
                _ => Multiset::empty(),
            },
        ),
    decreases a.len(),
{
    if a.len() >= 1 {
        lemma_child_closed_short(a.drop_last());
        if a.len() == 1 {
            assert(child_closed(a) =~= (match a[0] {
                ChildAction::Close(fd) => Multiset::singleton(fd),
                _ => Multiset::empty(),
            }));
        } else {
            assert(a.drop_last()[0] == a[0]);
            assert(child_closed(a) =~= (match a[0] {
                ChildAction::Close(fd) => Multiset::singleton(fd),
                _ => Multiset::empty(),
            }).add(
                match a[1] {
                    ChildAction::Close(fd) => Multiset::singleton(fd),
                    _ => Multiset::empty(),
                },
            ));
        }
    }
}

} // verus!
