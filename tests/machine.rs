use brainf::compiler::compile;
use brainf::machine::{run, Event, Machine, RuntimeError, TAPE_SIZE};
use brainf::types::BrainCommand;

fn run_source(src: &str, input: Vec<u8>) -> (Vec<u8>, Result<(), RuntimeError>) {
    let program = compile(src).unwrap();
    let outcome = run(&program, &input, 1_000_000);
    (outcome.output, outcome.status)
}

#[test]
fn three_increments_print_three() {
    assert_eq!(run_source("+++.", vec![]), (vec![3], Ok(())));
}

#[test]
fn loop_clears_cell() {
    assert_eq!(run_source("++[-].", vec![]), (vec![0], Ok(())));
}

#[test]
fn input_is_echoed() {
    assert_eq!(run_source(",.", vec![65]), (vec![65], Ok(())));
}

#[test]
fn loop_on_zero_cell_is_skipped() {
    assert_eq!(run_source("[+.]+.", vec![]), (vec![1], Ok(())));
}

#[test]
fn loop_moves_value_between_cells() {
    assert_eq!(run_source("+++++[->++<]>.", vec![]), (vec![10], Ok(())));
}

#[test]
fn cells_wrap_at_byte_output() {
    assert_eq!(run_source("-.", vec![]), (vec![255], Ok(())));
    let src = "+".repeat(256) + ".";
    assert_eq!(run_source(&src, vec![]), (vec![0], Ok(())));
}

#[test]
fn moving_left_of_first_cell_fails() {
    assert_eq!(run_source("+.<.", vec![]), (vec![1], Err(RuntimeError::TapeBounds)));
}

#[test]
fn moving_right_of_last_cell_fails() {
    let src = ">".repeat(TAPE_SIZE - 1) + ".>";
    assert_eq!(run_source(&src, vec![]), (vec![0], Err(RuntimeError::TapeBounds)));
}

#[test]
fn reading_past_input_fails() {
    assert_eq!(
        run_source(",.,.", vec![7]),
        (vec![7], Err(RuntimeError::InputExhausted))
    );
}

#[test]
fn endless_loop_hits_step_limit() {
    let program = compile("+[]").unwrap();
    let outcome = run(&program, &vec![], 50);
    assert_eq!(outcome.output, Vec::<u8>::new());
    assert_eq!(outcome.status, Err(RuntimeError::StepLimit));
}

#[test]
fn noop_does_nothing() {
    let program = vec![BrainCommand::Noop, BrainCommand::Increment, BrainCommand::Output];
    let outcome = run(&program, &vec![], 10);
    assert_eq!(outcome.output, vec![1]);
    assert_eq!(outcome.status, Ok(()));
}

#[test]
fn step_reports_events() {
    let program = compile("+.,").unwrap();
    let mut m = Machine::new();
    assert_eq!(m.step(&program), Ok(Event::Continue));
    assert_eq!(m.current_cell(), 1);
    assert_eq!(m.step(&program), Ok(Event::Output(1)));
    assert_eq!(m.step(&program), Ok(Event::NeedInput));
    assert_eq!(m.pc(), 2);
    assert_eq!(m.supply_input(&program, Some(9)), Ok(()));
    assert_eq!(m.current_cell(), 9);
    assert_eq!(m.step(&program), Ok(Event::Halted));
}

#[test]
fn end_of_input_leaves_machine_waiting() {
    let program = vec![BrainCommand::Input];
    let mut m = Machine::new();
    assert_eq!(m.step(&program), Ok(Event::NeedInput));
    assert_eq!(m.supply_input(&program, None), Err(RuntimeError::InputExhausted));
    assert_eq!(m.pc(), 0);
    assert_eq!(m.pointer(), 0);
}
