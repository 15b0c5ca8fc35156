use peacenik::machine::{action, run_beatnik, Command, RunOutcome};
use peacenik::score::Word;

fn prog(scores: &[u8]) -> Vec<Word> {
    scores.iter().map(|s| Word { word: String::new(), score: *s }).collect()
}

const FUEL: u64 = 100_000;

#[test]
fn action_mapping() {
    assert_eq!(action(5), Command::PUSH);
    assert_eq!(action(9), Command::OUTPUT);
    assert_eq!(action(13), Command::SKIP_AHEAD_ZERO);
    assert_eq!(action(17), Command::STOP);
    assert_eq!(action(0), Command::NOP);
    assert_eq!(action(4), Command::NOP);
    assert_eq!(action(18), Command::NOP);
    assert_eq!(action(255), Command::NOP);
}

#[test]
fn push_then_output_emits_byte() {
    // PUSH the score 97, then OUTPUT: emits 'a'
    let words = prog(&[5, 97, 9]);
    match run_beatnik(&words, FUEL) {
        RunOutcome::Halted { output } => assert_eq!(output, b"a".to_vec()),
        other => panic!("unexpected outcome: {:?}", other),
    }
}

#[test]
fn push_leaves_operand_on_stack() {
    // PUSH 1 leaves the stack as [1]; OUTPUT then emits that 1
    let words = prog(&[5, 1, 9]);
    match run_beatnik(&words, FUEL) {
        RunOutcome::Halted { output } => assert_eq!(output, vec![1]),
        other => panic!("unexpected outcome: {:?}", other),
    }
}

#[test]
fn underflow_on_empty_stack() {
    // OUTPUT as the first instruction on an empty stack
    let words = prog(&[9]);
    match run_beatnik(&words, FUEL) {
        RunOutcome::StackUnderflow { output } => assert_eq!(output, Vec::<u8>::new()),
        other => panic!("unexpected outcome: {:?}", other),
    }
}

#[test]
fn skip_ahead_zero_skips_nops() {
    // stack [0]; SKIP_AHEAD_ZERO with operand 2 jumps over the two
    // NOP-scored words and lands on OUTPUT
    let words = prog(&[5, 66, 5, 0, 13, 2, 18, 18, 9, 17]);
    match run_beatnik(&words, FUEL) {
        RunOutcome::Halted { output } => assert_eq!(output, vec![66]),
        other => panic!("unexpected outcome: {:?}", other),
    }
}

#[test]
fn skip_ahead_zero_lands_exactly() {
    // were the branch not taken, execution would hit STOP and emit nothing
    let taken = prog(&[5, 66, 5, 0, 13, 2, 17, 18, 9, 17]);
    match run_beatnik(&taken, FUEL) {
        RunOutcome::Halted { output } => assert_eq!(output, vec![66]),
        other => panic!("unexpected outcome: {:?}", other),
    }
    // same program with SKIP_AHEAD_NONZERO: check is zero, no branch, STOP
    let not_taken = prog(&[5, 66, 5, 0, 14, 2, 17, 18, 9, 17]);
    match run_beatnik(&not_taken, FUEL) {
        RunOutcome::Halted { output } => assert_eq!(output, Vec::<u8>::new()),
        other => panic!("unexpected outcome: {:?}", other),
    }
}

#[test]
fn add_wraps() {
    // 200 + 100 wraps to 44
    let words = prog(&[5, 200, 5, 100, 7, 9]);
    match run_beatnik(&words, FUEL) {
        RunOutcome::Halted { output } => assert_eq!(output, vec![44]),
        other => panic!("unexpected outcome: {:?}", other),
    }
}

#[test]
fn subtract_wraps() {
    // 3 - 5 wraps to 254: SUBTRACT pops x then y and pushes y - x
    let words = prog(&[5, 3, 5, 5, 10, 9]);
    match run_beatnik(&words, FUEL) {
        RunOutcome::Halted { output } => assert_eq!(output, vec![254]),
        other => panic!("unexpected outcome: {:?}", other),
    }
}

#[test]
fn swap_reverses_top_two() {
    let words = prog(&[5, 1, 5, 2, 11, 9, 9]);
    match run_beatnik(&words, FUEL) {
        RunOutcome::Halted { output } => assert_eq!(output, vec![1, 2]),
        other => panic!("unexpected outcome: {:?}", other),
    }
}

#[test]
fn dup_duplicates_top() {
    let words = prog(&[5, 7, 12, 9, 9]);
    match run_beatnik(&words, FUEL) {
        RunOutcome::Halted { output } => assert_eq!(output, vec![7, 7]),
        other => panic!("unexpected outcome: {:?}", other),
    }
}

#[test]
fn input_pushes_placeholder() {
    let words = prog(&[8, 9]);
    match run_beatnik(&words, FUEL) {
        RunOutcome::Halted { output } => assert_eq!(output, b"a".to_vec()),
        other => panic!("unexpected outcome: {:?}", other),
    }
}

#[test]
fn discard_drops_top() {
    let words = prog(&[5, 1, 5, 2, 6, 9]);
    match run_beatnik(&words, FUEL) {
        RunOutcome::Halted { output } => assert_eq!(output, vec![1]),
        other => panic!("unexpected outcome: {:?}", other),
    }
}

#[test]
fn run_ends_at_program_end() {
    let words = prog(&[18, 18, 18]);
    assert!(matches!(run_beatnik(&words, FUEL), RunOutcome::Halted { .. }));
}

#[test]
fn empty_program_halts() {
    let words = prog(&[]);
    assert!(matches!(run_beatnik(&words, FUEL), RunOutcome::Halted { .. }));
}

#[test]
fn fuel_runs_out_on_a_loop() {
    // INPUT refills the stack and SKIP_BACK_NONZERO jumps back to it, so
    // the program never ends on its own
    let words = prog(&[18, 8, 16, 2]);
    assert!(matches!(run_beatnik(&words, 1000), RunOutcome::OutOfFuel { .. }));
}

#[test]
fn backward_skip_off_front_halts() {
    // stack [1]; SKIP_BACK_NONZERO with an operand larger than the
    // program counter walks off the front of the program
    let words = prog(&[5, 1, 16, 200]);
    assert!(matches!(run_beatnik(&words, FUEL), RunOutcome::Halted { .. }));
}
