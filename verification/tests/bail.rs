use staged_hooks::bail::{bail_step, BailStep, Hook, SyncBail, SyncBailHook};
use staged_hooks::bail_map::SyncBailHookMap;
use std::cell::Cell;
use std::rc::Rc;

struct Question;

impl Hook for Question {
    type Input = Vec<&'static str>;
    type Output = &'static str;
}

/// Appends its name to the input, counts its runs and gives a fixed answer.
struct Probe {
    name: &'static str,
    stage: i32,
    answer: Option<&'static str>,
    runs: Rc<Cell<u32>>,
}

impl SyncBail<Question> for Probe {
    fn run(&self, input: &mut Vec<&'static str>) -> Option<&'static str> {
        self.runs.set(self.runs.get() + 1);
        input.push(self.name);
        self.answer
    }

    fn stage(&self) -> i32 {
        self.stage
    }
}

fn probe(name: &'static str, stage: i32, answer: Option<&'static str>) -> (Probe, Rc<Cell<u32>>) {
    let runs = Rc::new(Cell::new(0));
    (Probe { name, stage, answer, runs: runs.clone() }, runs)
}

#[test]
fn bail_runs_in_stage_order_with_ties_by_registration() {
    let mut hook: SyncBailHook<Question> = SyncBailHook::new();
    hook.tap(probe("A", 5, None).0);
    hook.tap(probe("B", -10, None).0);
    hook.tap(probe("C", 5, None).0);
    hook.tap(probe("D", 0, None).0);
    let mut log = Vec::new();
    assert_eq!(hook.call(&mut log), None);
    assert_eq!(log, vec!["B", "D", "A", "C"]);
}

#[test]
fn bail_stops_at_first_answer() {
    let mut hook: SyncBailHook<Question> = SyncBailHook::new();
    let (first, first_runs) = probe("1", 0, None);
    let (second, second_runs) = probe("2", 1, None);
    let (third, third_runs) = probe("3", 2, Some("X"));
    let (fourth, fourth_runs) = probe("4", 3, Some("Y"));
    hook.tap(first);
    hook.tap(second);
    hook.tap(third);
    hook.tap(fourth);
    let mut log = Vec::new();
    assert_eq!(hook.call(&mut log), Some("X"));
    assert_eq!(first_runs.get(), 1);
    assert_eq!(second_runs.get(), 1);
    assert_eq!(third_runs.get(), 1);
    assert_eq!(fourth_runs.get(), 0);
    assert_eq!(log, vec!["1", "2", "3"]);
}

#[test]
fn bail_answer_follows_stage_not_registration() {
    let mut hook: SyncBailHook<Question> = SyncBailHook::new();
    hook.tap(probe("late", 7, Some("late")).0);
    hook.tap(probe("early", -7, Some("early")).0);
    let mut log = Vec::new();
    assert_eq!(hook.call(&mut log), Some("early"));
    assert_eq!(log, vec!["early"]);
}

#[test]
fn bail_empty_hook_answers_nothing() {
    let mut hook: SyncBailHook<Question> = SyncBailHook::default();
    let mut log = vec!["kept"];
    assert_eq!(hook.call(&mut log), None);
    assert_eq!(log, vec!["kept"]);
}

#[test]
fn bail_all_silent_runs_every_callback() {
    let mut hook: SyncBailHook<Question> = SyncBailHook::new();
    let (a, a_runs) = probe("a", 0, None);
    let (b, b_runs) = probe("b", 0, None);
    hook.tap(a);
    hook.tap(b);
    let mut log = Vec::new();
    assert_eq!(hook.call(&mut log), None);
    assert_eq!((a_runs.get(), b_runs.get()), (1, 1));
    assert_eq!(log, vec!["a", "b"]);
}

#[test]
fn bail_second_call_keeps_the_order() {
    let mut hook: SyncBailHook<Question> = SyncBailHook::new();
    hook.tap(probe("A", 5, None).0);
    hook.tap(probe("B", -10, None).0);
    hook.tap(probe("C", 5, None).0);
    hook.tap(probe("D", 0, None).0);
    let mut first = Vec::new();
    let mut second = Vec::new();
    hook.call(&mut first);
    hook.call(&mut second);
    assert_eq!(first, vec!["B", "D", "A", "C"]);
    assert_eq!(second, first);
}

#[test]
fn bail_closure_registers_at_stage_zero() {
    let mut hook: SyncBailHook<Question> = SyncBailHook::new();
    hook.tap(probe("one", 1, None).0);
    hook.tap(|input: &mut Vec<&'static str>| -> Option<&'static str> {
        input.push("closure");
        None
    });
    hook.tap(probe("minus", -1, None).0);
    let mut log = Vec::new();
    assert_eq!(hook.call(&mut log), None);
    assert_eq!(log, vec!["minus", "closure", "one"]);
}

#[test]
fn bail_pair_registers_at_its_stage() {
    let mut hook: SyncBailHook<Question> = SyncBailHook::new();
    hook.tap(probe("zero", 0, None).0);
    hook.tap((
        |input: &mut Vec<&'static str>| -> Option<&'static str> {
            input.push("pair");
            Some("from pair")
        },
        -3,
    ));
    let mut log = Vec::new();
    assert_eq!(hook.call(&mut log), Some("from pair"));
    assert_eq!(log, vec!["pair"]);
}

#[test]
fn bail_pair_overrides_the_stage_of_its_callback() {
    let mut hook: SyncBailHook<Question> = SyncBailHook::new();
    hook.tap(probe("first", 0, None).0);
    hook.tap((probe("moved", 100, None).0, -100));
    let mut log = Vec::new();
    hook.call(&mut log);
    assert_eq!(log, vec!["moved", "first"]);
}

#[test]
fn bail_extreme_stages() {
    let mut hook: SyncBailHook<Question> = SyncBailHook::new();
    hook.tap(probe("max", i32::MAX, None).0);
    hook.tap(probe("zero", 0, None).0);
    hook.tap(probe("min", i32::MIN, None).0);
    let mut log = Vec::new();
    hook.call(&mut log);
    assert_eq!(log, vec!["min", "zero", "max"]);
}

#[test]
fn bail_map_keeps_keys_apart() {
    let mut hooks: SyncBailHookMap<Question> = SyncBailHookMap::new();
    let (a, a_runs) = probe("a", 0, Some("from A"));
    let (b, b_runs) = probe("b", 0, Some("from B"));
    hooks.tap("A".to_string(), a);
    hooks.tap("B".to_string(), b);
    let mut log = Vec::new();
    assert_eq!(hooks.call("A", &mut log), Some("from A"));
    assert_eq!(a_runs.get(), 1);
    assert_eq!(b_runs.get(), 0);
    assert_eq!(log, vec!["a"]);
    assert_eq!(hooks.call("B", &mut log), Some("from B"));
    assert_eq!(a_runs.get(), 1);
    assert_eq!(b_runs.get(), 1);
    assert_eq!(log, vec!["a", "b"]);
}

#[test]
fn bail_map_unknown_key_answers_nothing() {
    let mut hooks: SyncBailHookMap<Question> = SyncBailHookMap::default();
    let (a, a_runs) = probe("a", 0, Some("from A"));
    hooks.tap("A".to_string(), a);
    let mut log = vec!["kept"];
    assert_eq!(hooks.call("never tapped", &mut log), None);
    assert_eq!(a_runs.get(), 0);
    assert_eq!(log, vec!["kept"]);
    assert_eq!(hooks.call("", &mut log), None);
    assert_eq!(hooks.call("a", &mut log), None);
    assert_eq!(log, vec!["kept"]);
}

#[test]
fn bail_map_empty_map_answers_nothing() {
    let mut hooks: SyncBailHookMap<Question> = SyncBailHookMap::new();
    let mut log = Vec::new();
    assert_eq!(hooks.call("A", &mut log), None);
    assert!(log.is_empty());
}

#[test]
fn bail_map_second_tap_joins_the_first() {
    let mut hooks: SyncBailHookMap<Question> = SyncBailHookMap::new();
    hooks.tap("K".to_string(), probe("late", 1, None).0);
    hooks.tap("other".to_string(), probe("other", 0, Some("other")).0);
    hooks.tap("K".to_string(), probe("early", -1, None).0);
    hooks.tap("K".to_string(), probe("last", 1, Some("done")).0);
    let mut log = Vec::new();
    assert_eq!(hooks.call("K", &mut log), Some("done"));
    assert_eq!(log, vec!["early", "late", "last"]);
}

#[test]
fn step_answer_ends_the_round() {
    assert!(matches!(bail_step(Some("X"), 2, 4), BailStep::Answered("X")));
    assert!(matches!(bail_step(Some("X"), 3, 4), BailStep::Answered("X")));
    assert!(matches!(bail_step(Some(1u8), 0, 1), BailStep::Answered(1)));
}

#[test]
fn step_silence_asks_the_next() {
    assert!(matches!(bail_step(None::<u8>, 0, 4), BailStep::Ask(1)));
    assert!(matches!(bail_step(None::<u8>, 2, 4), BailStep::Ask(3)));
}

#[test]
fn step_silence_of_the_last_ends_empty() {
    assert!(matches!(bail_step(None::<u8>, 3, 4), BailStep::Silent));
    assert!(matches!(bail_step(None::<u8>, 0, 1), BailStep::Silent));
    assert!(matches!(bail_step(None::<u8>, 0, 0), BailStep::Silent));
    assert!(matches!(bail_step(None::<u8>, usize::MAX, usize::MAX), BailStep::Silent));
}

struct Number;

impl Hook for Number {
    type Input = i32;
    type Output = i32;
}

#[test]
fn bail_later_stage_sees_what_the_earlier_left() {
    let mut hook: SyncBailHook<Number> = SyncBailHook::default();
    hook.tap((
        |x: &mut i32| -> Option<i32> {
            *x = 0;
            Some(-1)
        },
        3,
    ));
    hook.tap((
        |x: &mut i32| -> Option<i32> {
            *x *= 10;
            Some(*x)
        },
        2,
    ));
    hook.tap((
        |x: &mut i32| -> Option<i32> {
            *x += 1;
            None
        },
        1,
    ));
    let mut input = 1;
    assert_eq!(hook.call(&mut input), Some(20));
    assert_eq!(input, 20);
}

#[test]
fn callback_run_forwards_result_and_change() {
    let f = |x: &mut i32| -> Option<i32> {
        *x += 1;
        Some(*x * 2)
    };
    let mut x = 3;
    assert_eq!(SyncBail::<Number>::run(&f, &mut x), Some(8));
    assert_eq!(x, 4);
    assert_eq!(SyncBail::<Number>::stage(&f), 0);
    let pair = (f, 9);
    let mut y = 3;
    assert_eq!(SyncBail::<Number>::run(&pair, &mut y), Some(8));
    assert_eq!(y, 4);
    assert_eq!(SyncBail::<Number>::stage(&pair), 9);
}

#[test]
fn bail_map_first_tap_makes_the_key() {
    let mut hooks: SyncBailHookMap<Number> = SyncBailHookMap::default();
    let mut input = 0;
    assert_eq!(hooks.call("K", &mut input), None);
    hooks.tap("K".to_string(), |_: &mut i32| -> Option<i32> { Some(9) });
    assert_eq!(hooks.call("K", &mut input), Some(9));
}
