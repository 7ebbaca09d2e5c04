use shell_core::executor::{Action, ChildAction, ChildPlan, Event, Phase, PipelineDriver};
use shell_core::pipeline::PipelineError;

fn closes(actions: &[Action]) -> Vec<i32> {
    actions
        .iter()
        .filter_map(|a| match a {
            Action::Close(fd) => Some(*fd),
            _ => None,
        })
        .collect()
}

#[test]
fn driver_needs_two_stages() {
    assert_eq!(PipelineDriver::new(0).err(), Some(PipelineError::TooFewCommands));
    assert_eq!(PipelineDriver::new(1).err(), Some(PipelineError::TooFewCommands));
    assert!(PipelineDriver::new(2).is_ok());
}

#[test]
fn incomplete_pipeline_message() {
    assert_eq!(
        PipelineError::Incomplete.message(),
        "could not start every command of the pipeline"
    );
}

#[test]
fn too_few_commands_message() {
    assert_eq!(
        PipelineError::TooFewCommands.message(),
        "Pipeline must have at least 2 commands"
    );
}

#[test]
fn driver_starts_ready() {
    let d = PipelineDriver::new(3).ok().unwrap();
    assert_eq!(d.phase(), Phase::Ready);
    assert!(!d.is_finished());
    assert_eq!(d.child_count(), 0);
}

#[test]
fn three_stage_pipeline_runs_to_the_end() {
    let d = PipelineDriver::new(3).ok().unwrap();
    let (d, a) = d.step(Event::Begin);
    assert_eq!(a, vec![Action::CreatePipe]);
    assert_eq!(d.phase(), Phase::AwaitPipe);

    let (d, a) = d.step(Event::PipeCreated { read: 3, write: 4 });
    assert_eq!(
        a,
        vec![Action::Fork(ChildPlan {
            stage: 0,
            stdin: None,
            stdout: Some(4),
            unused_read: Some(3)
        })]
    );
    assert_eq!(d.phase(), Phase::AwaitFork);

    let (d, a) = d.step(Event::Forked { child: 100 });
    assert_eq!(a, vec![Action::Close(4), Action::CreatePipe]);

    let (d, a) = d.step(Event::PipeCreated { read: 4, write: 5 });
    assert_eq!(
        a,
        vec![Action::Fork(ChildPlan {
            stage: 1,
            stdin: Some(3),
            stdout: Some(5),
            unused_read: Some(4)
        })]
    );

    let (d, a) = d.step(Event::Forked { child: 101 });
    assert_eq!(
        a,
        vec![
            Action::Close(5),
            Action::Close(3),
            Action::Fork(ChildPlan { stage: 2, stdin: Some(4), stdout: None, unused_read: None }),
        ]
    );
    assert_eq!(d.phase(), Phase::AwaitFork);

    let (d, a) = d.step(Event::Forked { child: 102 });
    assert_eq!(
        a,
        vec![
            Action::Close(4),
            Action::Wait(100),
            Action::Wait(101),
            Action::Wait(102),
            Action::Done { complete: true },
        ]
    );
    assert!(d.is_finished());
    assert_eq!(d.child_count(), 3);
}

#[test]
fn every_descriptor_handed_over_is_closed_once() {
    let mut d = PipelineDriver::new(4).ok().unwrap();
    let mut opened: Vec<i32> = Vec::new();
    let mut closed: Vec<i32> = Vec::new();
    let mut event = Event::Begin;
    let mut next_fd = 3;
    let mut next_pid = 500;
    let mut waits = Vec::new();
    loop {
        let (nd, actions) = d.step(event);
        d = nd;
        closed.extend(closes(&actions));
        let mut following = None;
        for a in &actions {
            match a {
                Action::CreatePipe => {
                    opened.push(next_fd);
                    opened.push(next_fd + 1);
                    following = Some(Event::PipeCreated { read: next_fd, write: next_fd + 1 });
                    next_fd += 2;
                }
                Action::Fork(_) => {
                    following = Some(Event::Forked { child: next_pid });
                    next_pid += 1;
                }
                Action::Wait(p) => waits.push(*p),
                _ => {}
            }
        }
        match following {
            Some(e) => event = e,
            None => break,
        }
    }
    assert!(d.is_finished());
    opened.sort();
    closed.sort();
    assert_eq!(opened, closed);
    assert_eq!(opened.len(), 6);
    assert_eq!(waits, vec![500, 501, 502, 503]);
}

#[test]
fn pipe_failure_gives_up_and_waits_for_the_children() {
    let d = PipelineDriver::new(3).ok().unwrap();
    let (d, _) = d.step(Event::Begin);
    let (d, _) = d.step(Event::PipeCreated { read: 3, write: 4 });
    let (d, _) = d.step(Event::Forked { child: 7 });
    let (d, a) = d.step(Event::PipeFailed);
    assert_eq!(a, vec![Action::Close(3), Action::Wait(7), Action::Done { complete: false }]);
    assert!(d.is_finished());
}

#[test]
fn pipe_failure_at_the_first_stage() {
    let d = PipelineDriver::new(2).ok().unwrap();
    let (d, _) = d.step(Event::Begin);
    let (d, a) = d.step(Event::PipeFailed);
    assert_eq!(a, vec![Action::Done { complete: false }]);
    assert!(d.is_finished());
}

#[test]
fn fork_failure_closes_both_ends_of_the_new_pipe() {
    let d = PipelineDriver::new(3).ok().unwrap();
    let (d, _) = d.step(Event::Begin);
    let (d, _) = d.step(Event::PipeCreated { read: 3, write: 4 });
    let (d, _) = d.step(Event::Forked { child: 7 });
    let (d, _) = d.step(Event::PipeCreated { read: 5, write: 6 });
    let (d, a) = d.step(Event::ForkFailed);
    assert_eq!(
        a,
        vec![
            Action::Close(5),
            Action::Close(6),
            Action::Close(3),
            Action::Wait(7),
            Action::Done { complete: false },
        ]
    );
    assert!(d.is_finished());
}

#[test]
fn fork_failure_at_the_last_stage() {
    let d = PipelineDriver::new(2).ok().unwrap();
    let (d, _) = d.step(Event::Begin);
    let (d, _) = d.step(Event::PipeCreated { read: 3, write: 4 });
    let (d, a) = d.step(Event::Forked { child: 9 });
    assert_eq!(
        a,
        vec![
            Action::Close(4),
            Action::Fork(ChildPlan { stage: 1, stdin: Some(3), stdout: None, unused_read: None }),
        ]
    );
    let (d, a) = d.step(Event::ForkFailed);
    assert_eq!(a, vec![Action::Close(3), Action::Wait(9), Action::Done { complete: false }]);
    assert!(d.is_finished());
}

#[test]
fn event_that_is_not_awaited_changes_nothing() {
    let d = PipelineDriver::new(2).ok().unwrap();
    let (d, a) = d.step(Event::Forked { child: 1 });
    assert!(a.is_empty());
    assert_eq!(d.phase(), Phase::Ready);
    let (d, a) = d.step(Event::PipeCreated { read: 3, write: 4 });
    assert!(a.is_empty());
    assert_eq!(d.phase(), Phase::Ready);
    let (d, _) = d.step(Event::Begin);
    let (d, a) = d.step(Event::Begin);
    assert!(a.is_empty());
    assert_eq!(d.phase(), Phase::AwaitPipe);
    let (d, a) = d.step(Event::ForkFailed);
    assert!(a.is_empty());
    assert_eq!(d.phase(), Phase::AwaitPipe);
}

#[test]
fn finished_driver_stays_finished() {
    let d = PipelineDriver::new(2).ok().unwrap();
    let (d, _) = d.step(Event::Begin);
    let (d, _) = d.step(Event::PipeFailed);
    for e in [Event::Begin, Event::PipeFailed, Event::ForkFailed, Event::Forked { child: 3 }] {
        let d2 = PipelineDriver::new(2).ok().unwrap();
        let (d2, _) = d2.step(Event::Begin);
        let (d2, _) = d2.step(Event::PipeFailed);
        let (d2, a) = d2.step(e);
        assert!(a.is_empty());
        assert!(d2.is_finished());
    }
    assert!(d.is_finished());
}

#[test]
fn child_of_a_middle_stage_wires_both_streams() {
    let plan = ChildPlan { stage: 1, stdin: Some(3), stdout: Some(5), unused_read: Some(4) };
    assert_eq!(
        plan.steps(),
        vec![
            ChildAction::Dup2 { from: 3, to: 0 },
            ChildAction::Close(3),
            ChildAction::Dup2 { from: 5, to: 1 },
            ChildAction::Close(4),
            ChildAction::Close(5),
        ]
    );
}

#[test]
fn child_of_the_first_stage_wires_stdout() {
    let plan = ChildPlan { stage: 0, stdin: None, stdout: Some(4), unused_read: Some(3) };
    assert_eq!(
        plan.steps(),
        vec![
            ChildAction::Dup2 { from: 4, to: 1 },
            ChildAction::Close(3),
            ChildAction::Close(4),
        ]
    );
}

#[test]
fn child_of_the_last_stage_wires_stdin() {
    let plan = ChildPlan { stage: 2, stdin: Some(4), stdout: None, unused_read: None };
    assert_eq!(
        plan.steps(),
        vec![ChildAction::Dup2 { from: 4, to: 0 }, ChildAction::Close(4)]
    );
}

#[test]
fn every_stage_is_forked_once_and_in_order() {
    let mut d = PipelineDriver::new(5).ok().unwrap();
    let mut event = Event::Begin;
    let mut stages = Vec::new();
    let mut fd = 10;
    let mut complete = false;
    loop {
        let (nd, actions) = d.step(event);
        d = nd;
        let mut following = None;
        for a in actions {
            match a {
                Action::CreatePipe => {
                    following = Some(Event::PipeCreated { read: fd, write: fd + 1 });
                    fd += 2;
                }
                Action::Fork(plan) => {
                    stages.push(plan.stage);
                    following = Some(Event::Forked { child: 1000 + plan.stage as i32 });
                }
                Action::Done { complete: c } => complete = c,
                _ => {}
            }
        }
        match following {
            Some(e) => event = e,
            None => break,
        }
    }
    assert!(complete);
    assert_eq!(stages, vec![0, 1, 2, 3, 4]);
    assert_eq!(d.child_count(), 5);
}

#[test]
fn child_closes_every_descriptor_it_was_handed() {
    let plans = [
        ChildPlan { stage: 0, stdin: None, stdout: Some(4), unused_read: Some(3) },
        ChildPlan { stage: 1, stdin: Some(3), stdout: Some(5), unused_read: Some(4) },
        ChildPlan { stage: 2, stdin: Some(4), stdout: None, unused_read: None },
    ];
    for plan in plans {
        let mut handed: Vec<i32> =
            [plan.stdin, plan.stdout, plan.unused_read].iter().flatten().copied().collect();
        let mut closed: Vec<i32> = plan
            .steps()
            .iter()
            .filter_map(|c| match c {
                ChildAction::Close(fd) => Some(*fd),
                _ => None,
            })
            .collect();
        handed.sort();
        closed.sort();
        assert_eq!(handed, closed);
    }
}
