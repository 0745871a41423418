use ltr::{
    BFScheduler, BooleanAcceptor, Canceable, EventReplay, MockEvent, MockInterpretation,
    MockInterpretationResult, MockPath, MockResultInterpretor, ScheduledStep, StepScheduler,
};
use std::cell::Cell;
use std::rc::Rc;

#[derive(Clone, Default)]
struct Token(Rc<Cell<bool>>);

impl Canceable for Token {
    fn cancel(&self) {
        self.0.set(true);
    }

    fn is_cancelled(&self) -> bool {
        self.0.get()
    }
}

type Sched = BFScheduler<MockPath, MockEvent, Token, MockInterpretation, BooleanAcceptor, 2>;

fn flags(path: &MockPath) -> Vec<bool> {
    (0..path.len()).map(|i| path.get(i).unwrap().0).collect()
}

fn take(s: &mut Sched) -> (ScheduledStep<MockPath, usize>, Token) {
    let token = Token::default();
    match s.next(token.clone()) {
        Ok(step) => (step, token),
        Err(_) => panic!("no step"),
    }
}

#[test]
fn hands_out_paths_breadth_first() {
    let mut s = Sched::new();
    let expected: Vec<Vec<bool>> = vec![
        vec![true],
        vec![false],
        vec![true, true],
        vec![true, false],
        vec![false, true],
        vec![false, false],
        vec![true, true, true],
        vec![true, true, false],
    ];
    for (i, want) in expected.iter().enumerate() {
        let (step, _) = take(&mut s);
        assert_eq!(&flags(step.path()), want);
        assert_eq!(*step.meta(), i);
    }
}

#[test]
fn rejected_result_cancels_the_subtree() {
    let mut s = Sched::new();
    let (a, ta) = take(&mut s); // [T]
    let (b, tb) = take(&mut s); // [F]
    let (aa, taa) = take(&mut s); // [T, T]
    let (ab, tab) = take(&mut s); // [T, F]
    let (ba, tba) = take(&mut s); // [F, T]
    assert!(!s.is_cancelled(&aa));
    s.put_result(a.clone(), MockInterpretation(false));
    assert!(taa.is_cancelled());
    assert!(tab.is_cancelled());
    assert!(s.is_cancelled(&aa));
    assert!(s.is_cancelled(&ab));
    assert!(!ta.is_cancelled());
    assert!(!s.is_cancelled(&a));
    assert!(!tb.is_cancelled());
    assert!(!tba.is_cancelled());
    assert!(!s.is_cancelled(&b));
    assert!(!s.is_cancelled(&ba));
    // the rejected task gets no more children: [F, F] comes next
    let (bb, _) = take(&mut s);
    assert_eq!(flags(bb.path()), vec![false, false]);
}

#[test]
fn accepted_child_becomes_the_root() {
    let mut s = Sched::new();
    let (a, ta) = take(&mut s); // [T]
    let (b, tb) = take(&mut s); // [F]
    let (aa, taa) = take(&mut s); // [T, T]
    let (ba, tba) = take(&mut s); // [T, F]
    let _ = ba;
    s.put_result(a.clone(), MockInterpretation(true));
    assert_eq!(s.root_branches(), vec![0]);
    // everything off the new root's subtree is cancelled, the root's own task too
    assert!(ta.is_cancelled());
    assert!(tb.is_cancelled());
    assert!(s.is_cancelled(&a));
    assert!(s.is_cancelled(&b));
    assert!(!taa.is_cancelled());
    assert!(!tba.is_cancelled());
    assert!(!s.is_cancelled(&aa));
    // the next step extends the new root
    let (next, _) = take(&mut s);
    assert_eq!(flags(next.path()), vec![true, true, true]);
}

#[test]
fn root_waits_for_every_child_without_acceptance() {
    type R = BFScheduler<
        MockPath,
        MockEvent,
        Token,
        MockInterpretationResult,
        MockResultInterpretor,
        2,
    >;
    let mut s = R::new();
    let t = Token::default();
    let a = s.next(t.clone()).ok().unwrap();
    let b = s.next(t.clone()).ok().unwrap();
    s.put_result(a, MockInterpretationResult::Valid { length: 5 });
    assert_eq!(s.root_branches(), Vec::<usize>::new());
    s.put_result(b, MockInterpretationResult::Valid { length: 3 });
    // the shorter query wins
    assert_eq!(s.root_branches(), vec![1]);
}

#[test]
fn exhausted_search_returns_the_token() {
    let mut s = Sched::new();
    let (a, _) = take(&mut s);
    let (b, _) = take(&mut s);
    s.put_result(a, MockInterpretation(false));
    s.put_result(b, MockInterpretation(false));
    assert_eq!(s.root_branches(), Vec::<usize>::new());
    let token = Token::default();
    match s.next(token) {
        Ok(_) => panic!("expected no step"),
        Err(back) => assert!(!back.is_cancelled()),
    }
}

#[test]
fn stale_results_are_ignored() {
    let mut s = Sched::new();
    let (a, _) = take(&mut s);
    let (b, _) = take(&mut s);
    let (aa, _) = take(&mut s);
    s.put_result(a, MockInterpretation(false));
    // aa was cut off; its result changes nothing
    s.put_result(aa, MockInterpretation(true));
    assert_eq!(s.root_branches(), Vec::<usize>::new());
    assert!(!s.is_cancelled(&b));
}

#[test]
fn notify_done_cancels_everything() {
    let mut s = Sched::new();
    let (a, ta) = take(&mut s);
    let (b, tb) = take(&mut s);
    let (aa, taa) = take(&mut s);
    StepScheduler::notify_done(&mut s);
    assert!(ta.is_cancelled() && tb.is_cancelled() && taa.is_cancelled());
    assert!(s.is_cancelled(&a) && s.is_cancelled(&b) && s.is_cancelled(&aa));
}

#[test]
fn step_scheduler_trait_drives_the_scheduler() {
    fn drive<S: StepScheduler<MockPath, Token, StateInterpretation = MockInterpretation>>(
        s: &mut S,
    ) -> usize {
        let mut handed = 0;
        for _ in 0..6 {
            match s.next(Token::default()) {
                Ok(step) => {
                    handed += 1;
                    let ok = step.path().len() % 2 == 1;
                    s.put_result(step, MockInterpretation(ok));
                }
                Err(_) => break,
            }
        }
        handed
    }
    // [T] is accepted and becomes the root; both of its children are
    // rejected, so the search runs dry after three steps.
    let mut s = Sched::new();
    assert_eq!(drive(&mut s), 3);
    assert_eq!(s.root_branches(), vec![0]);
}

#[test]
fn fresh_path_is_empty() {
    let p = <MockPath as EventReplay>::empty();
    assert_eq!(p.len(), 0);
}

#[test]
fn root_walks_down_through_accepted_grandchildren() {
    let mut s = Sched::new();
    let (a, _) = take(&mut s); // [T]
    let (_b, _) = take(&mut s); // [F]
    let (aa, taa) = take(&mut s); // [T, T]
    let (_ab, tab) = take(&mut s); // [T, F]
    // a result two levels down does not move the root yet
    s.put_result(aa.clone(), MockInterpretation(true));
    assert_eq!(s.root_branches(), Vec::<usize>::new());
    s.put_result(a, MockInterpretation(true));
    // the root moves to [T] and on to its accepted child [T, T]
    assert_eq!(s.root_branches(), vec![0, 0]);
    assert!(taa.is_cancelled());
    assert!(tab.is_cancelled());
    let (next, _) = take(&mut s);
    assert_eq!(flags(next.path()), vec![true, true, true]);
    let (after, _) = take(&mut s);
    assert_eq!(flags(after.path()), vec![true, true, false]);
}

#[test]
fn task_counters_track_the_arena() {
    let mut s = Sched::new();
    assert_eq!(s.task_count(), 0);
    assert!(!s.is_done());
    let _ = take(&mut s);
    let _ = take(&mut s);
    assert_eq!(s.task_count(), 2);
    s.notify_done();
    assert!(s.is_done());
    assert_eq!(s.task_count(), 2);
}

#[test]
fn cancellation_verdict_follows_liveness_and_token() {
    let mut s = Sched::new();
    let (a, _) = take(&mut s);
    let (_b, _) = take(&mut s);
    let (aa, _) = take(&mut s);
    assert!(!s.cancellation_verdict(&aa, false));
    assert!(s.cancellation_verdict(&aa, true));
    s.put_result(a, MockInterpretation(false));
    assert!(s.cancellation_verdict(&aa, false));
}

#[test]
fn stale_result_signals_no_token() {
    let mut s = Sched::new();
    let (a, ta) = take(&mut s);
    let (b, tb) = take(&mut s);
    let (aa, taa) = take(&mut s);
    s.put_result(a, MockInterpretation(false));
    assert!(taa.is_cancelled());
    s.put_result(aa, MockInterpretation(true));
    assert!(!ta.is_cancelled());
    assert!(!tb.is_cancelled());
    assert!(!s.is_cancelled(&b));
}

#[test]
fn deeper_result_only_records() {
    let mut s = Sched::new();
    let (_a, ta) = take(&mut s);
    let (_b, tb) = take(&mut s);
    let (aa, taa) = take(&mut s);
    let (ab, tab) = take(&mut s);
    s.put_result(aa, MockInterpretation(true));
    assert_eq!(s.root_branches(), Vec::<usize>::new());
    assert!(!ta.is_cancelled() && !tb.is_cancelled());
    assert!(!taa.is_cancelled() && !tab.is_cancelled());
    assert!(!s.is_cancelled(&ab));
}

#[test]
fn rejected_branch_is_never_extended() {
    let mut s = Sched::new();
    let (a, _) = take(&mut s);
    let (_b, _) = take(&mut s);
    s.put_result(a, MockInterpretation(false));
    for _ in 0..6 {
        let (step, token) = take(&mut s);
        assert!(!flags(step.path())[0]);
        assert!(!token.is_cancelled());
    }
}

#[test]
fn second_notify_done_signals_nothing_new() {
    let mut s = Sched::new();
    let (a, ta) = take(&mut s);
    let (_b, tb) = take(&mut s);
    s.put_result(a, MockInterpretation(false));
    let spare = Token::default();
    StepScheduler::notify_done(&mut s);
    StepScheduler::notify_done(&mut s);
    assert!(s.is_done());
    assert!(ta.is_cancelled() && tb.is_cancelled());
    assert!(!spare.is_cancelled());
    assert_eq!(s.task_count(), 2);
}
