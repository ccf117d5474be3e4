use doumi::ast::Ast;
use doumi::machine::{Deadfish, Outcome};
use doumi::semantics::Status;

const STEPS: u64 = 100_000;

fn run_text(fish: &mut Deadfish, program: &str) -> Outcome {
    fish.from_string(program.to_string());
    fish.run(STEPS)
}

fn fresh_run(program: &str) -> (Deadfish, Outcome) {
    let mut fish = Deadfish::new();
    let outcome = run_text(&mut fish, program);
    (fish, outcome)
}

#[test]
fn a_new_machine_is_empty() {
    let fish = Deadfish::new();
    assert!(fish.stack().is_empty());
    assert!(fish.ast().is_empty());
    assert!(fish.table().names().is_empty());
    assert_eq!(fish.peak(), 0);
}

#[test]
fn peak_is_the_last_value() {
    let (fish, outcome) = fresh_run("iii");
    assert_eq!(outcome.status, Status::Finished);
    assert_eq!(fish.stack(), &vec![1, 2, 3]);
    assert_eq!(fish.peak(), 3);
}

#[test]
fn increments_count_up() {
    for n in [0usize, 1, 2, 17, 255] {
        let (fish, outcome) = fresh_run(&"i".repeat(n));
        assert_eq!(outcome.status, Status::Finished);
        assert_eq!(fish.peak(), n as i64);
        assert_eq!(fish.stack(), &(1..=n as i64).collect::<Vec<i64>>());
    }
}

#[test]
fn decrements_at_zero_bounce() {
    let (fish, outcome) = fresh_run("ddd");
    assert_eq!(outcome.status, Status::Finished);
    assert_eq!(fish.stack(), &vec![-1, 0, -1, 0, -1, 0]);
    assert_eq!(fish.peak(), 0);
}

#[test]
fn increments_and_decrements_cancel() {
    let (fish, _) = fresh_run("iiidd");
    assert_eq!(fish.stack(), &vec![1, 2, 3, 2, 1]);
}

#[test]
fn the_value_256_wraps_to_zero() {
    let (fish, _) = fresh_run("iissi");
    assert_eq!(fish.stack(), &vec![1, 2, 4, 16, 17]);
    let (fish, _) = fresh_run("iisssi");
    assert_eq!(fish.stack(), &vec![1, 2, 4, 16, 256, 0, 1]);
    let (fish, _) = fresh_run(&"i".repeat(256));
    assert_eq!(fish.peak(), 0);
    assert_eq!(fish.stack().len(), 257);
    assert_eq!(fish.stack()[255], 256);
}

#[test]
fn only_256_and_negative_values_wrap() {
    let (fish, _) = fresh_run(&format!("{}s", "i".repeat(17)));
    assert_eq!(fish.peak(), 289);
    let (fish, _) = fresh_run(&format!("{}s{}", "i".repeat(16), "i"));
    assert_eq!(fish.peak(), 1);
    let (fish, _) = fresh_run(&format!("{}sd", "i".repeat(17)));
    assert_eq!(fish.peak(), 288);
}

#[test]
fn every_wrapping_value_is_followed_by_zero() {
    let (fish, _) = fresh_run("dddiisssddiiiisss(b;d)@b.@b.iisss@b.");
    let stack = fish.stack();
    for i in 0..stack.len() {
        if stack[i] < 0 || stack[i] == 256 {
            assert_eq!(stack[i + 1], 0);
        }
    }
    assert!(stack.iter().any(|v| *v == 256));
    assert!(stack.iter().any(|v| *v < 0));
}

#[test]
fn square_of_zero_is_zero() {
    let (fish, _) = fresh_run("rs");
    assert_eq!(fish.peak(), 0);
    assert_eq!(fish.stack(), &vec![0, 0]);
}

#[test]
fn square_of_one_is_one() {
    let (fish, _) = fresh_run("ris");
    assert_eq!(fish.peak(), 1);
    assert_eq!(fish.stack(), &vec![0, 1, 1]);
}

#[test]
fn square_multiplies() {
    let (fish, _) = fresh_run("iiiss");
    assert_eq!(fish.stack(), &vec![1, 2, 3, 9, 81]);
}

#[test]
fn reset_records_zero() {
    let (fish, _) = fresh_run("iiri");
    assert_eq!(fish.stack(), &vec![1, 2, 0, 1]);
}

#[test]
fn a_jump_to_the_start_never_ends() {
    let mut last_len = 0;
    for cap in [0u64, 1, 2, 3, 10, 100, 1000, 5000] {
        let mut fish = Deadfish::new();
        fish.from_string("iij".to_string());
        let outcome = fish.run(cap);
        assert_eq!(outcome.status, Status::OutOfSteps);
        assert!(fish.stack().len() >= last_len);
        last_len = fish.stack().len();
    }
    assert!(last_len > 3000);
}

#[test]
fn a_jump_runs_the_first_node_again() {
    let mut fish = Deadfish::new();
    fish.from_string("ij".to_string());
    let outcome = fish.run(6);
    assert_eq!(outcome.status, Status::OutOfSteps);
    assert_eq!(fish.stack(), &vec![1, 2, 3]);
}

#[test]
fn a_jump_in_a_block_restarts_the_block() {
    let mut fish = Deadfish::new();
    fish.from_string("(b;ij)ii@b.".to_string());
    let outcome = fish.run(50);
    assert_eq!(outcome.status, Status::OutOfSteps);
    assert_eq!(fish.stack(), &vec![1, 2]);
}

#[test]
fn steps_are_counted_per_node() {
    let mut fish = Deadfish::new();
    fish.from_string("iiii".to_string());
    assert_eq!(fish.run(4).status, Status::Finished);
    let mut fish = Deadfish::new();
    fish.from_string("iiii".to_string());
    assert_eq!(fish.run(3).status, Status::OutOfSteps);
    assert_eq!(fish.stack(), &vec![1, 2, 3]);
    let mut fish = Deadfish::new();
    fish.from_string("(b;ii)@b.".to_string());
    assert_eq!(fish.run(4).status, Status::Finished);
    let mut fish = Deadfish::new();
    fish.from_string("(b;ii)@b.".to_string());
    assert_eq!(fish.run(3).status, Status::OutOfSteps);
    assert!(fish.stack().is_empty());
}

#[test]
fn a_block_adds_its_result_to_the_caller() {
    let (fish, outcome) = fresh_run("(b;rii)iii@b.");
    assert_eq!(outcome.status, Status::Finished);
    assert_eq!(fish.peak(), 5);
    assert_eq!(fish.stack(), &vec![1, 2, 3, 5]);
}

#[test]
fn a_block_starts_from_zero_each_time() {
    let (fish, _) = fresh_run("(b;ii)@b.@b.@b.");
    assert_eq!(fish.stack(), &vec![2, 4, 6]);
}

#[test]
fn a_block_result_is_wrapped_in_the_caller() {
    let (fish, _) = fresh_run(&format!("(b;{}){}@b.i", "i".repeat(255), "i"));
    assert_eq!(fish.stack(), &vec![1, 256, 0, 1]);
}

#[test]
fn a_definition_records_nothing() {
    let (fish, outcome) = fresh_run("i(b;dd)i");
    assert_eq!(outcome.status, Status::Finished);
    assert_eq!(fish.stack(), &vec![1, 2]);
    assert_eq!(fish.table().names(), vec!["b".to_string()]);
    assert_eq!(fish.table().get(&"b".to_string()), Some(&vec![Ast::Dec, Ast::Dec]));
}

#[test]
fn a_definition_replaces_the_one_before() {
    let (fish, _) = fresh_run("(b;i)(c;ii)(b;iii)@b.");
    assert_eq!(fish.stack(), &vec![3]);
    assert_eq!(fish.table().names(), vec!["b".to_string(), "c".to_string()]);
}

#[test]
fn blocks_call_blocks() {
    let (fish, outcome) = fresh_run("(two;ii)(four;@two.@two.)i@four.");
    assert_eq!(outcome.status, Status::Finished);
    assert_eq!(fish.stack(), &vec![1, 5]);
}

#[test]
fn a_block_defined_in_a_block_stays_defined() {
    let (fish, outcome) = fresh_run("(a;(b;iii))@a.@b.");
    assert_eq!(outcome.status, Status::Finished);
    assert_eq!(fish.stack(), &vec![0, 3]);
}

#[test]
fn a_block_that_calls_itself_uses_up_the_steps() {
    let mut fish = Deadfish::new();
    fish.from_string("(a;i@a.)i@a.".to_string());
    let outcome = fish.run(500);
    assert_eq!(outcome.status, Status::OutOfSteps);
    assert_eq!(fish.stack(), &vec![1]);
    assert!(outcome.errors.is_empty());
}

#[test]
fn definitions_last_from_one_program_to_the_next() {
    let mut fish = Deadfish::new();
    assert_eq!(run_text(&mut fish, "(b;ii)i").status, Status::Finished);
    assert_eq!(run_text(&mut fish, "@b.").status, Status::Finished);
    assert_eq!(fish.stack(), &vec![1, 3]);
}

#[test]
fn an_unknown_block_is_reported() {
    let (fish, outcome) = fresh_run("(c;d)(a;i)(c;dd)ii@nope.dd");
    assert_eq!(outcome.status, Status::Aborted);
    assert_eq!(outcome.errors.len(), 1);
    assert_eq!(outcome.errors[0].name, "nope");
    assert_eq!(outcome.errors[0].known, vec!["c".to_string(), "a".to_string()]);
    assert_eq!(fish.stack(), &vec![1, 2]);
    assert_eq!(fish.peak(), 2);
    assert_eq!(outcome.output, "");
}

#[test]
fn an_unknown_block_leaves_the_machine_usable() {
    let mut fish = Deadfish::new();
    assert_eq!(run_text(&mut fish, "i@b.i").status, Status::Aborted);
    assert_eq!(run_text(&mut fish, "(b;ii)@b.").status, Status::Finished);
    assert_eq!(fish.stack(), &vec![1, 3]);
}

#[test]
fn an_unknown_block_in_a_block_ends_that_block_only() {
    let (fish, outcome) = fresh_run("(a;i@x.i)ii@a.i");
    assert_eq!(outcome.status, Status::Finished);
    assert_eq!(outcome.errors.len(), 1);
    assert_eq!(outcome.errors[0].name, "x");
    assert_eq!(outcome.errors[0].known, vec!["a".to_string()]);
    assert_eq!(fish.stack(), &vec![1, 2, 3, 4]);
}

#[test]
fn a_block_is_known_only_once_defined() {
    let (_, outcome) = fresh_run("@b.(b;i)");
    assert_eq!(outcome.status, Status::Aborted);
    assert_eq!(outcome.errors.len(), 1);
    assert!(outcome.errors[0].known.is_empty());
}

#[test]
fn output_raw_is_decimal() {
    let (_, outcome) = fresh_run("oiiosoiso");
    assert_eq!(outcome.output, "02425");
    let (_, outcome) = fresh_run(&format!("{}ssso", "i".repeat(10)));
    assert_eq!(outcome.output, "100000000");
}

#[test]
fn output_char_at_65_is_a() {
    let (_, outcome) = fresh_run(&format!("r{}p", "i".repeat(65)));
    assert_eq!(outcome.output, "A");
}

#[test]
fn output_char_after_wrap_is_that_of_zero() {
    let (_, wrapped) = fresh_run(&format!("r{}p", "i".repeat(256)));
    let (_, zero) = fresh_run("rp");
    assert_eq!(wrapped.output, zero.output);
    assert_eq!(zero.output, "\u{0}");
}

#[test]
fn output_char_covers_the_bytes() {
    let (_, outcome) = fresh_run(&format!("{}p", "i".repeat(255)));
    assert_eq!(outcome.output, "\u{ff}");
    let (_, outcome) = fresh_run(&format!("{}p", "i".repeat(233)));
    assert_eq!(outcome.output, "\u{e9}");
}

#[test]
fn output_char_falls_back_to_decimal() {
    let (_, outcome) = fresh_run(&format!("{}sp", "i".repeat(17)));
    assert_eq!(outcome.output, "289");
}

#[test]
fn outputs_follow_each_other_without_separators() {
    let (_, outcome) = fresh_run(&format!("{}popo", "i".repeat(72)));
    assert_eq!(outcome.output, "H72H72");
}

#[test]
fn a_block_puts_out_into_the_same_text() {
    let (_, outcome) = fresh_run("(b;iio)io@b.o");
    assert_eq!(outcome.output, "123");
}

#[test]
fn a_value_too_large_stops_the_run() {
    let (fish, outcome) = fresh_run("iiissssssio");
    assert_eq!(outcome.status, Status::Overflow);
    assert_eq!(fish.stack(), &vec![1, 2, 3, 9, 81, 6561, 43046721, 1853020188851841]);
    assert_eq!(outcome.output, "");
}

#[test]
fn a_sum_too_large_stops_the_run() {
    let (fish, outcome) = fresh_run("(big;iiisssss)@big.ss");
    assert_eq!(outcome.status, Status::Overflow);
    assert_eq!(fish.peak(), 1853020188851841);
    let text = format!("(b;iiisssss){}", "@b.".repeat(5000));
    let mut fish = Deadfish::new();
    fish.from_string(text);
    let outcome = fish.run(STEPS);
    assert_eq!(outcome.status, Status::Overflow);
    assert_eq!(fish.stack().len(), 4977);
    assert_eq!(fish.peak(), 4977 * 1853020188851841);
}

#[test]
fn output_peaked_is_the_decimal_text() {
    let (fish, _) = fresh_run(&format!("{}s", "i".repeat(12)));
    assert_eq!(fish.output_peaked(), "144");
    assert_eq!(Deadfish::new().output_peaked(), "0");
}

#[test]
fn output_peaked_ascii_is_the_character() {
    let (fish, _) = fresh_run(&"i".repeat(97));
    assert_eq!(fish.output_peaked_ascii(), "a");
    let (fish, _) = fresh_run(&format!("{}s", "i".repeat(16)));
    assert_eq!(fish.output_peaked_ascii(), "\u{0}");
    let (fish, _) = fresh_run(&format!("{}s", "i".repeat(20)));
    assert_eq!(fish.output_peaked_ascii(), "400");
}

#[test]
fn check_bounds_leaves_a_settled_machine() {
    let (mut fish, _) = fresh_run("iisss");
    assert_eq!(fish.stack(), &vec![1, 2, 4, 16, 256, 0]);
    fish.check_bounds();
    assert_eq!(fish.stack(), &vec![1, 2, 4, 16, 256, 0]);
    let mut fish = Deadfish::new();
    fish.check_bounds();
    assert!(fish.stack().is_empty());
}

#[test]
fn running_keeps_the_program() {
    let (mut fish, _) = fresh_run("ii");
    assert_eq!(fish.ast(), &vec![Ast::Inc, Ast::Inc]);
    assert_eq!(fish.run(STEPS).status, Status::Finished);
    assert_eq!(fish.stack(), &vec![1, 2, 3, 4]);
}

#[test]
fn more_steps_change_nothing_once_finished() {
    let text = "(b;iio)i@b.sso@nope.i";
    let mut small = Deadfish::new();
    small.from_string(text.to_string());
    let first = small.run(10);
    let mut large = Deadfish::new();
    large.from_string(text.to_string());
    let second = large.run(9_000);
    assert_eq!(first.status, Status::Aborted);
    assert_eq!(second.status, first.status);
    assert_eq!(second.output, first.output);
    assert_eq!(first.output, "281");
    assert_eq!(large.stack(), small.stack());
    assert_eq!(small.stack(), &vec![1, 3, 9, 81]);
}

#[test]
fn fewer_steps_leave_a_shorter_history() {
    let text = "(b;iio)i@b.sso(c;d@b.)@c.@c.o";
    let mut before: Vec<i64> = Vec::new();
    let mut put_out = String::new();
    for cap in 0..40u64 {
        let mut fish = Deadfish::new();
        fish.from_string(text.to_string());
        let outcome = fish.run(cap);
        assert!(fish.stack().starts_with(&before));
        assert!(outcome.output.starts_with(&put_out));
        before = fish.stack().clone();
        put_out = outcome.output;
    }
    assert_eq!(before, vec![1, 3, 9, 81, 83, 85]);
    assert_eq!(put_out, "2812285");
}

#[test]
fn the_default_machine_is_a_new_one() {
    let mut fish = Deadfish::default();
    assert!(fish.stack().is_empty());
    assert!(fish.ast().is_empty());
    assert_eq!(fish.run(STEPS).status, Status::Finished);
    assert!(fish.stack().is_empty());
}

#[test]
fn the_least_value_is_written_with_its_sign() {
    let mut fish = Deadfish::new();
    fish.from_string("do".to_string());
    let outcome = fish.run(STEPS);
    assert_eq!(outcome.output, "0");
    assert_eq!(fish.stack(), &vec![-1, 0]);
}

#[test]
fn calls_leave_the_blocks_as_they_are() {
    let mut fish = Deadfish::new();
    fish.from_string("(b;iio)(c;@b.d@b.)".to_string());
    assert_eq!(fish.run(STEPS).status, Status::Finished);
    let before = fish.dump_table();
    fish.from_string("@c.@b.@c.j".to_string());
    assert_eq!(fish.run(500).status, Status::OutOfSteps);
    assert_eq!(fish.dump_table(), before);
    assert_eq!(before, "(b;iio)(c;@b.d@b.)");
}

#[test]
fn a_step_records_two_values_at_most() {
    let mut fish = Deadfish::new();
    fish.from_string("dddd".to_string());
    let outcome = fish.run(STEPS);
    assert_eq!(outcome.steps_left, STEPS - 4);
    assert_eq!(fish.stack().len(), 8);
    for cap in [0u64, 1, 7, 64, 1000] {
        let mut fish = Deadfish::new();
        fish.from_string("(b;dio)d@b.sj".to_string());
        let outcome = fish.run(cap);
        assert_eq!(outcome.steps_left, 0);
        assert!(fish.stack().len() as u64 <= 2 * cap);
    }
}
