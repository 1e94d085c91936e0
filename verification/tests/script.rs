use drone_commander::script::{
    classify_line, normalise, parse_line, parse_script, Instruction, LineKind,
    DEFAULT_DELAY_SECONDS,
};

fn sleep_of(line: &str) -> u64 {
    match parse_line(line) {
        Instruction::Sleep(seconds) => seconds,
        other => panic!("{:?} is no delay", other),
    }
}

fn sent_to(line: &str) -> (usize, String, bool) {
    match parse_line(line) {
        Instruction::SendTo(index, command) => (index, command.cmd, command.blocking),
        other => panic!("{:?} is no targeted command", other),
    }
}

fn sent_to_all(line: &str) -> (String, bool) {
    match parse_line(line) {
        Instruction::SendAll(command) => (command.cmd, command.blocking),
        other => panic!("{:?} is no broadcast command", other),
    }
}

#[test]
fn blank_lines_are_skipped() {
    assert_eq!(classify_line(""), LineKind::Skip);
    assert_eq!(classify_line("   "), LineKind::Skip);
    assert_eq!(classify_line(" \t "), LineKind::Skip);
    assert_eq!(classify_line("\r"), LineKind::Skip);
    assert_eq!(classify_line("  \r"), LineKind::Skip);
    assert!(matches!(parse_line(""), Instruction::Nothing));
    assert!(matches!(parse_line("   "), Instruction::Nothing));
}

#[test]
fn comments_are_skipped() {
    assert_eq!(classify_line("# hi"), LineKind::Skip);
    assert_eq!(classify_line("#"), LineKind::Skip);
    assert_eq!(classify_line("   # indented"), LineKind::Skip);
    assert_eq!(classify_line("# 0 > takeoff@"), LineKind::Skip);
    assert_eq!(classify_line("#delay 1 9"), LineKind::Skip);
    assert!(matches!(parse_line("# hi"), Instruction::Nothing));
    assert!(matches!(parse_line("# 0 > takeoff@"), Instruction::Nothing));
}

#[test]
fn a_hash_inside_a_line_is_no_comment() {
    assert_eq!(classify_line("land # now"), LineKind::Broadcast);
    assert_eq!(sent_to_all("land # now"), ("land  now".to_string(), false));
}

#[test]
fn classification_takes_the_first_rule_that_applies() {
    assert_eq!(classify_line("delay 5"), LineKind::Delay);
    assert_eq!(classify_line("delay"), LineKind::Delay);
    assert_eq!(classify_line("delayed"), LineKind::Delay);
    assert_eq!(classify_line("delay > 3"), LineKind::Delay);
    assert_eq!(classify_line("await"), LineKind::Barrier);
    assert_eq!(classify_line("await all of them"), LineKind::Barrier);
    assert_eq!(classify_line("await > 1"), LineKind::Barrier);
    assert_eq!(classify_line("0 > takeoff"), LineKind::Targeted);
    assert_eq!(classify_line(">"), LineKind::Targeted);
    assert_eq!(classify_line("takeoff"), LineKind::Broadcast);
    assert_eq!(classify_line("takeoff@"), LineKind::Broadcast);
}

#[test]
fn keywords_are_case_sensitive_and_start_the_line() {
    assert_eq!(classify_line("Delay 5"), LineKind::Broadcast);
    assert_eq!(classify_line("AWAIT"), LineKind::Broadcast);
    assert_eq!(classify_line(" delay 5"), LineKind::Broadcast);
    assert_eq!(classify_line(" await"), LineKind::Broadcast);
    assert_eq!(classify_line("dela"), LineKind::Broadcast);
    assert_eq!(classify_line("awai"), LineKind::Broadcast);
}

#[test]
fn a_trailing_carriage_return_is_not_part_of_the_line() {
    assert_eq!(classify_line("takeoff\r"), LineKind::Broadcast);
    assert_eq!(sent_to_all("takeoff\r"), ("takeoff".to_string(), false));
    assert_eq!(sleep_of("delay for 2\r"), 2);
    assert_eq!(sent_to("1 > land\r"), (1, " land".to_string(), false));
}

#[test]
fn delay_reads_its_third_field() {
    assert_eq!(sleep_of("delay for 7"), 7);
    assert_eq!(sleep_of("delay x 0"), 0);
    assert_eq!(sleep_of("delay  12"), 12);
    assert_eq!(sleep_of("delay 5 3"), 3);
    assert_eq!(sleep_of("delay 5 3 9"), 3);
    assert_eq!(sleep_of("delay 5 +4"), 4);
    assert_eq!(sleep_of("delay 5 007"), 7);
}

#[test]
fn delay_without_a_readable_number_is_the_default() {
    assert_eq!(DEFAULT_DELAY_SECONDS, 1);
    assert_eq!(sleep_of("delay"), 1);
    assert_eq!(sleep_of("delay 5"), 1);
    assert_eq!(sleep_of("delay 30"), 1);
    assert_eq!(sleep_of("delay 5 "), 1);
    assert_eq!(sleep_of("delay 5 abc"), 1);
    assert_eq!(sleep_of("delay 5 -3"), 1);
    assert_eq!(sleep_of("delay 5 3s"), 1);
    assert_eq!(sleep_of("delay 5 +"), 1);
    assert_eq!(sleep_of("delay 5 ++1"), 1);
    assert_eq!(sleep_of("delay 5 1.5"), 1);
}

#[test]
fn delay_too_large_for_the_machine_is_the_default() {
    assert_eq!(sleep_of("delay for 999999999999999999999999999999"), 1);
    let largest = format!("delay for {}", usize::MAX);
    assert_eq!(sleep_of(&largest), usize::MAX as u64);
    let beyond = format!("delay for {}0", usize::MAX);
    assert_eq!(sleep_of(&beyond), 1);
}

#[test]
fn targeted_line_names_a_drone_and_a_payload() {
    assert_eq!(sent_to("0 > takeoff"), (0, " takeoff".to_string(), false));
    assert_eq!(sent_to("1>land"), (1, "land".to_string(), false));
    assert_eq!(sent_to("12 > cw 90"), (12, " cw 90".to_string(), false));
    assert_eq!(sent_to("5 > takeoff"), (5, " takeoff".to_string(), false));
}

#[test]
fn targeted_index_is_reduced_to_letters_and_digits() {
    assert_eq!(sent_to("1@ > land"), (1, " land".to_string(), true));
    assert_eq!(sent_to(" 0 > up 20"), (0, " up 20".to_string(), false));
    assert_eq!(sent_to("1 2 > x"), (12, " x".to_string(), false));
    assert_eq!(sent_to("+3 > x"), (3, " x".to_string(), false));
    assert_eq!(sent_to("-3 > x"), (3, " x".to_string(), false));
    assert_eq!(sent_to("007 > x"), (7, " x".to_string(), false));
}

#[test]
fn targeted_line_splits_at_the_first_angle() {
    assert_eq!(sent_to("1 > a > b"), (1, " a  b".to_string(), false));
    assert_eq!(sent_to("2>>x"), (2, "x".to_string(), false));
    assert_eq!(sent_to("0 >"), (0, "".to_string(), false));
}

#[test]
fn targeted_line_without_a_number_asks_for_nothing() {
    assert!(matches!(parse_line("x > takeoff"), Instruction::Nothing));
    assert!(matches!(parse_line(" > takeoff"), Instruction::Nothing));
    assert!(matches!(parse_line("> takeoff"), Instruction::Nothing));
    assert!(matches!(parse_line("1a > takeoff"), Instruction::Nothing));
    assert!(matches!(parse_line("@ > takeoff"), Instruction::Nothing));
    assert!(matches!(
        parse_line("99999999999999999999999999 > takeoff"),
        Instruction::Nothing
    ));
}

#[test]
fn blocking_flag_follows_the_at_sign() {
    assert_eq!(sent_to_all("takeoff@"), ("takeoff".to_string(), true));
    assert_eq!(sent_to_all("@takeoff"), ("takeoff".to_string(), true));
    assert_eq!(sent_to_all("take@off"), ("takeoff".to_string(), true));
    assert_eq!(sent_to_all("takeoff"), ("takeoff".to_string(), false));
    assert_eq!(sent_to("0 > land@"), (0, " land".to_string(), true));
    assert_eq!(sent_to("0@ > land"), (0, " land".to_string(), true));
    assert_eq!(sent_to("0 > land"), (0, " land".to_string(), false));
}

#[test]
fn broadcast_line_is_normalised_whole() {
    assert_eq!(sent_to_all("cw 90"), ("cw 90".to_string(), false));
    assert_eq!(sent_to_all("go! now?"), ("go now".to_string(), false));
    assert_eq!(sent_to_all("  up 20  "), ("  up 20  ".to_string(), false));
    assert_eq!(sent_to_all("!!!"), ("".to_string(), false));
    assert_eq!(sent_to_all("@"), ("".to_string(), true));
}

#[test]
fn normalise_keeps_letters_digits_and_spaces() {
    assert_eq!(normalise("takeoff"), "takeoff");
    assert_eq!(normalise("a>b@c#d\te-f"), "abcdef");
    assert_eq!(normalise("AZ az 09"), "AZ az 09");
    assert_eq!(normalise("line\nbreak\r"), "linebreak");
    assert_eq!(normalise("[`{/:^_"), "");
    assert_eq!(normalise(""), "");
}

#[test]
fn normalise_drops_everything_beyond_ascii() {
    assert_eq!(normalise("é1ß2"), "12");
    assert_eq!(normalise("up\u{a0}20"), "up20");
    assert_eq!(normalise("٣ 3"), " 3");
}

#[test]
fn normalise_is_idempotent() {
    let once = normalise("0@ > take-off, now!");
    assert_eq!(once, "0  takeoff now");
    assert_eq!(normalise(&once), once);
}

#[test]
fn normalised_payload_has_clean_bytes_only() {
    let all: String = (0u8..=127).map(|b| b as char).collect();
    let kept = normalise(&all);
    assert_eq!(
        kept,
        " 0123456789ABCDEFGHIJKLMNOPQRSTUVWXYZabcdefghijklmnopqrstuvwxyz"
    );
    for b in kept.bytes() {
        assert!(b.is_ascii_alphanumeric() || b == b' ');
    }
}

#[test]
fn script_is_read_line_by_line() {
    let program = parse_script("command\ntakeoff\ndelay 1\nland");
    assert_eq!(program.len(), 4);
    assert!(matches!(&program[0], Instruction::SendAll(c) if c.cmd == "command" && !c.blocking));
    assert!(matches!(&program[1], Instruction::SendAll(c) if c.cmd == "takeoff" && !c.blocking));
    assert!(matches!(&program[2], Instruction::Sleep(1)));
    assert!(matches!(&program[3], Instruction::SendAll(c) if c.cmd == "land" && !c.blocking));
}

#[test]
fn script_keeps_one_instruction_for_every_line() {
    assert_eq!(parse_script("").len(), 1);
    assert!(matches!(&parse_script("")[0], Instruction::Nothing));
    assert_eq!(parse_script("\n").len(), 2);
    assert_eq!(parse_script("a\n\nb\n").len(), 4);
    let program = parse_script("# hi\n\n   \ncommand");
    assert_eq!(program.len(), 4);
    assert!(matches!(&program[0], Instruction::Nothing));
    assert!(matches!(&program[1], Instruction::Nothing));
    assert!(matches!(&program[2], Instruction::Nothing));
    assert!(matches!(&program[3], Instruction::SendAll(c) if c.cmd == "command"));
}

#[test]
fn script_with_crlf_line_endings() {
    let program = parse_script("takeoff@\r\nawait\r\n1 > land\r\n");
    assert_eq!(program.len(), 4);
    assert!(matches!(&program[0], Instruction::SendAll(c) if c.cmd == "takeoff" && c.blocking));
    assert!(matches!(&program[1], Instruction::Barrier));
    assert!(matches!(&program[2], Instruction::SendTo(1, c) if c.cmd == " land"));
    assert!(matches!(&program[3], Instruction::Nothing));
}

#[test]
fn await_line_is_a_barrier_and_no_command() {
    assert!(matches!(parse_line("await"), Instruction::Barrier));
    assert!(matches!(parse_line("await@"), Instruction::Barrier));
    assert!(matches!(parse_line("await 0 > x"), Instruction::Barrier));
}
