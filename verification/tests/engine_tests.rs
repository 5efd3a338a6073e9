//! The compiler, the machine and the search, each on values worked out by
//! hand.

use tature::compiler::{compile, Compiler};
use tature::matcher::{match_at, search, MatchState};
use tature::opcodes::{CompiledOp, SyntaxOp, SyntaxType};
use tature::{Captures, ExecLimits, Regex, RegexError, SyntaxFlags};

fn limits(max_ticks: Option<usize>, max_failures: usize) -> ExecLimits {
    ExecLimits { max_ticks, max_failures }
}

fn awk(pattern: &str) -> Regex {
    Regex::with_syntax(pattern, SyntaxFlags::AWK()).unwrap()
}

fn failure_of(pattern: &str, syntax: SyntaxFlags) -> RegexError {
    match compile(pattern, syntax) {
        Ok(_) => panic!("{pattern} compiled"),
        Err(e) => e,
    }
}

#[test]
fn scenario_star_matches_zero_repetitions() {
    let regex = Regex::new("ab*c").unwrap();
    assert_eq!(regex.find("ac"), Some((0, 2)));
}

#[test]
fn scenario_star_matches_three_repetitions() {
    let regex = Regex::new("ab*c").unwrap();
    assert_eq!(regex.find("abbbc"), Some((0, 5)));
}

#[test]
fn scenario_plus_needs_one_repetition() {
    assert_eq!(awk("ab+c").find("ac"), None);
    assert_eq!(awk("ab+c").find("abc"), Some((0, 3)));
}

#[test]
fn scenario_group_plus_needs_whole_group() {
    assert_eq!(awk("(ab)+").find("a"), None);
    assert_eq!(awk("(ab)+").find("xababa"), Some((1, 5)));
}

#[test]
fn scenario_two_groups() {
    let captures = awk("([a-z]+) ([0-9]+)").captures("hello 123").unwrap();
    assert_eq!(captures.get(0), Some((0, 9)));
    assert_eq!(captures.get(1), Some((0, 5)));
    assert_eq!(captures.get(2), Some((6, 9)));
    assert_eq!(captures.get(3), None);
    assert_eq!(captures.len(), 3);
    assert!(!captures.is_empty());
}

#[test]
fn scenario_positions_count_characters_not_bytes() {
    let regex = Regex::new("café").unwrap();
    assert_eq!(regex.find("I love café au lait"), Some((7, 11)));
    assert_eq!(regex.find("cafe"), None);
    assert_eq!(Regex::new("b").unwrap().find("éééb"), Some((3, 4)));
}

#[test]
fn scenario_catastrophic_pattern_is_bounded() {
    let regex = awk("(a+a+)+b");
    let bounds = limits(Some(1000), 100);
    assert_eq!(regex.find_with_limits("aaaaaaaaaaaaaaac", bounds), None);
    assert!(regex.captures_with_limits("aaaaaaaaaaaaaaac", bounds).is_none());
}

#[test]
fn scenario_both_anchors() {
    let regex = Regex::new("^hello$").unwrap();
    assert_eq!(regex.find("hello"), Some((0, 5)));
    assert_eq!(regex.find("hello world"), None);
}

#[test]
fn scenario_hex_escape() {
    let regex = Regex::with_syntax("\\x41", SyntaxFlags::ANSI_HEX()).unwrap();
    assert_eq!(regex.find("ABC"), Some((0, 1)));
}

#[test]
fn scenario_greek_range() {
    let regex = Regex::new("[α-ω]").unwrap();
    assert_eq!(regex.find("λ"), Some((0, 1)));
    assert_eq!(regex.find("Α"), None);
}

#[test]
fn literal_code_is_exact_instructions_and_end() {
    let regex = Regex::new("aé").unwrap();
    assert_eq!(regex.buffer, vec![4, 1, 0x61, 4, 2, 0xC3, 0xA9, 0]);
}

#[test]
fn operands_of_every_width() {
    let regex = Regex::new("a\u{e9}\u{20ac}\u{1F600}").unwrap();
    assert_eq!(
        regex.buffer,
        vec![
            4, 1, 0x61, 4, 2, 0xC3, 0xA9, 4, 3, 0xE2, 0x82, 0xAC, 4, 4, 0xF0, 0x9F, 0x98, 0x80, 0
        ]
    );
    assert_eq!(regex.find("x a\u{e9}\u{20ac}\u{1F600}"), Some((2, 6)));
}

#[test]
fn optional_inserts_a_failure_jump() {
    // FailureJump +3 | Exact a | End
    assert_eq!(awk("a?").buffer, vec![11, 3, 0, 4, 1, 0x61, 0]);
}

#[test]
fn star_wraps_in_failure_jump_and_star_jump() {
    // FailureJump +6 | Exact a | StarJump -9 | End
    assert_eq!(awk("a*").buffer, vec![11, 6, 0, 4, 1, 0x61, 10, 0xF7, 0xFF, 0]);
}

#[test]
fn plus_adds_a_dummy_failure_jump() {
    // DummyFailureJump +3 | FailureJump +6 | Exact a | StarJump -9 | End
    assert_eq!(awk("a+").buffer, vec![13, 3, 0, 11, 6, 0, 4, 1, 0x61, 10, 0xF7, 0xFF, 0]);
}

#[test]
fn alternation_jumps_to_the_end() {
    // FailureJump +6 | Exact a | Jump +3 | Exact b | End
    assert_eq!(awk("a|b").buffer, vec![11, 6, 0, 4, 1, 0x61, 9, 3, 0, 4, 1, 0x62, 0]);
}

#[test]
fn three_alternatives_share_the_end() {
    // FailureJump +6 | a | Jump +12 | FailureJump +6 | b | Jump +3 | c | End
    assert_eq!(
        awk("a|b|c").buffer,
        vec![11, 6, 0, 4, 1, 0x61, 9, 12, 0, 11, 6, 0, 4, 1, 0x62, 9, 3, 0, 4, 1, 0x63, 0]
    );
}

#[test]
fn group_stores_its_register() {
    // StartMemory 1 | Exact a | EndMemory 1 | End
    assert_eq!(awk("(a)").buffer, vec![6, 1, 4, 1, 0x61, 7, 1, 0]);
}

#[test]
fn repeated_group_code() {
    assert_eq!(
        awk("(ab)+").buffer,
        vec![13, 3, 0, 11, 13, 0, 6, 1, 4, 1, 0x61, 4, 1, 0x62, 7, 1, 10, 0xF0, 0xFF, 0]
    );
}

#[test]
fn class_code_holds_flag_count_and_ranges() {
    assert_eq!(
        Regex::new("[a-cx]").unwrap().buffer,
        vec![3, 0, 3, 1, 0x61, 1, 0x61, 1, 0x61, 1, 0x63, 1, 0x78, 1, 0x78, 0]
    );
    assert_eq!(Regex::new("[^a]").unwrap().buffer, vec![3, 1, 1, 1, 0x61, 1, 0x61, 0]);
}

#[test]
fn class_bracket_first_and_dash_last_are_members() {
    let regex = Regex::new("[]a-]").unwrap();
    assert_eq!(
        regex.buffer,
        vec![3, 0, 3, 1, 0x5D, 1, 0x5D, 1, 0x61, 1, 0x61, 1, 0x2D, 1, 0x2D, 0]
    );
    assert!(regex.is_match("]"));
    assert!(regex.is_match("-"));
    assert!(!regex.is_match("b"));
    let leading = Regex::new("[-a]").unwrap();
    assert!(leading.is_match("-"));
}

#[test]
fn class_escapes_need_the_ansi_flag() {
    let ansi = Regex::with_syntax("[\\n]", SyntaxFlags::ANSI_HEX()).unwrap();
    assert!(ansi.is_match("\n"));
    assert!(!ansi.is_match("n"));
    let plain = Regex::new("[\\n]").unwrap();
    assert!(plain.is_match("n"));
    assert!(plain.is_match("\\"));
    assert!(!plain.is_match("\n"));
}

#[test]
fn anchors_and_gnu_escapes_are_single_instructions() {
    assert_eq!(Regex::new("^").unwrap().buffer, vec![1, 0]);
    assert_eq!(Regex::new("$").unwrap().buffer, vec![2, 0]);
    assert_eq!(Regex::new(".").unwrap().buffer, vec![5, 0]);
    assert_eq!(Regex::new("\\`").unwrap().buffer, vec![14, 0]);
    assert_eq!(Regex::new("\\'").unwrap().buffer, vec![15, 0]);
    assert_eq!(Regex::new("\\<").unwrap().buffer, vec![16, 0]);
    assert_eq!(Regex::new("\\>").unwrap().buffer, vec![17, 0]);
    assert_eq!(Regex::new("\\b").unwrap().buffer, vec![18, 0]);
    assert_eq!(Regex::new("\\B").unwrap().buffer, vec![19, 0]);
    assert_eq!(Regex::new("\\w").unwrap().buffer, vec![20, 1, 0]);
    assert_eq!(Regex::new("\\W").unwrap().buffer, vec![21, 1, 0]);
    assert_eq!(Regex::new("\\(a\\)\\1").unwrap().buffer, vec![6, 1, 4, 1, 0x61, 7, 1, 8, 1, 0]);
}

#[test]
fn gnu_escapes_can_be_switched_off() {
    let regex = Regex::with_syntax("\\w", SyntaxFlags::NO_GNU_EXTENSIONS()).unwrap();
    assert_eq!(regex.buffer, vec![4, 1, 0x77, 0]);
}

#[test]
fn extended_memory_reads_two_digits() {
    let regex = Regex::with_syntax("\\v12", SyntaxFlags::ANSI_HEX()).unwrap();
    assert_eq!(regex.buffer, vec![8, 12, 0]);
}

#[test]
fn operator_out_of_context_is_literal_in_emacs() {
    assert_eq!(Regex::new("a^").unwrap().buffer, vec![4, 1, 0x61, 4, 1, 0x5E, 0]);
    assert_eq!(Regex::new("$a").unwrap().buffer, vec![4, 1, 0x24, 4, 1, 0x61, 0]);
    assert_eq!(Regex::new("*").unwrap().buffer, vec![4, 1, 0x2A, 0]);
    assert!(Regex::new("a$b").unwrap().is_match("a$b"));
}

#[test]
fn newline_alternates_in_grep() {
    let regex = Regex::with_syntax("cat\ndog", SyntaxFlags::GREP()).unwrap();
    assert!(regex.is_match("dog"));
    assert!(regex.is_match("cat"));
    assert!(!regex.is_match("cow"));
    let emacs = Regex::new("cat\ndog").unwrap();
    assert!(!emacs.is_match("dog"));
    assert!(emacs.is_match("cat\ndog"));
}

#[test]
fn tight_vbar_changes_what_the_anchor_covers() {
    let loose = awk("^a|b");
    assert_eq!(loose.find("xb"), Some((1, 2)));
    let tight = Regex::with_syntax(
        "^a|b",
        SyntaxFlags::from_bits_truncate(SyntaxFlags::AWK().bits() | SyntaxFlags::TIGHT_VBAR().bits()),
    )
    .unwrap();
    assert_eq!(tight.find("xb"), None);
    assert_eq!(tight.find("b"), Some((0, 1)));
}

#[test]
fn error_too_complex_nesting() {
    let deep = "(".repeat(100);
    assert_eq!(failure_of(&deep, SyntaxFlags::AWK()), RegexError::TooComplex);
    assert!(Regex::with_syntax(&"(".repeat(99), SyntaxFlags::AWK()).is_ok());
}

#[test]
fn error_too_complex_alternations() {
    let many = "a|".repeat(100);
    assert!(Regex::with_syntax(&many, SyntaxFlags::AWK()).is_ok());
    let nested = format!("({}", "a|".repeat(101));
    assert_eq!(failure_of(&nested, SyntaxFlags::AWK()), RegexError::TooComplex);
}

#[test]
fn error_bad_hex_escape() {
    assert_eq!(failure_of("\\xZ1", SyntaxFlags::ANSI_HEX()), RegexError::BadHexEscape);
    assert_eq!(failure_of("\\x1Z", SyntaxFlags::ANSI_HEX()), RegexError::BadHexEscape);
    assert_eq!(failure_of("\\x80", SyntaxFlags::ANSI_HEX()), RegexError::BadHexEscape);
    assert!(Regex::with_syntax("\\x7f", SyntaxFlags::ANSI_HEX()).is_ok());
    assert!(Regex::with_syntax("\\X7F", SyntaxFlags::ANSI_HEX()).is_ok());
}

#[test]
fn error_bad_back_reference() {
    assert_eq!(failure_of("\\0", SyntaxFlags::EMACS()), RegexError::BadBackReference);
    assert_eq!(failure_of("\\v00", SyntaxFlags::ANSI_HEX()), RegexError::BadBackReference);
    assert_eq!(failure_of("\\v1x", SyntaxFlags::ANSI_HEX()), RegexError::BadBackReference);
    assert!(Regex::with_syntax("\\v99", SyntaxFlags::ANSI_HEX()).is_ok());
}

#[test]
fn error_bad_special_char() {
    assert_eq!(failure_of("*a", SyntaxFlags::AWK()), RegexError::BadSpecialChar);
    assert_eq!(failure_of("+a", SyntaxFlags::AWK()), RegexError::BadSpecialChar);
    assert_eq!(failure_of("?a", SyntaxFlags::AWK()), RegexError::BadSpecialChar);
    assert_eq!(failure_of("a^", SyntaxFlags::AWK()), RegexError::BadSpecialChar);
    assert_eq!(failure_of("a$b", SyntaxFlags::AWK()), RegexError::BadSpecialChar);
    assert_eq!(failure_of("(*a)", SyntaxFlags::AWK()), RegexError::BadSpecialChar);
    assert_eq!(failure_of("a|*", SyntaxFlags::AWK()), RegexError::BadSpecialChar);
    assert_eq!(failure_of("*", SyntaxFlags::MOO()), RegexError::BadSpecialChar);
}

#[test]
fn error_premature_end() {
    assert_eq!(failure_of("\\", SyntaxFlags::EMACS()), RegexError::PrematureEnd);
    assert_eq!(failure_of("[abc", SyntaxFlags::EMACS()), RegexError::PrematureEnd);
    assert_eq!(failure_of("[]", SyntaxFlags::EMACS()), RegexError::PrematureEnd);
    assert_eq!(failure_of("\\x4", SyntaxFlags::ANSI_HEX()), RegexError::PrematureEnd);
    assert_eq!(failure_of("\\v1", SyntaxFlags::ANSI_HEX()), RegexError::PrematureEnd);
}

#[test]
fn error_timeout_comes_from_the_tick_limit() {
    let regex = Regex::new("abc").unwrap();
    // Four instructions are fetched; the run stops short of the limit.
    assert!(match_at(&regex, "abc", 0, limits(Some(5), 10)).unwrap().is_some());
    assert_eq!(match_at(&regex, "abc", 0, limits(Some(4), 10)).unwrap_err(), RegexError::Timeout);
    assert_eq!(match_at(&regex, "abc", 0, limits(Some(0), 10)).unwrap_err(), RegexError::Timeout);
    assert_eq!(search(&regex, "abc", 0, 3, limits(Some(4), 10)), Err(RegexError::Timeout));
}

#[test]
fn error_execution_error_comes_from_the_stack_limit() {
    let regex = Regex::new("a*b").unwrap();
    assert_eq!(
        match_at(&regex, "aaab", 0, limits(None, 3)).unwrap_err(),
        RegexError::ExecutionError
    );
    assert!(match_at(&regex, "aaab", 0, limits(None, 5)).unwrap().is_some());
    assert_eq!(
        match_at(&regex, "b", 0, limits(None, 0)).unwrap_err(),
        RegexError::ExecutionError
    );
}

#[test]
fn error_execution_error_comes_from_malformed_code() {
    let mut regex = Regex::new("a").unwrap();
    let bounds = limits(Some(100), 10);
    regex.buffer = vec![99];
    assert_eq!(match_at(&regex, "a", 0, bounds).unwrap_err(), RegexError::ExecutionError);
    regex.buffer = vec![];
    assert_eq!(match_at(&regex, "a", 0, bounds).unwrap_err(), RegexError::ExecutionError);
    // An Exact whose operand is cut short, is overlong, or is no UTF-8.
    regex.buffer = vec![4, 2, 0xC3];
    assert_eq!(match_at(&regex, "a", 0, bounds).unwrap_err(), RegexError::ExecutionError);
    regex.buffer = vec![4, 2, 0xC0, 0x80, 0];
    assert_eq!(match_at(&regex, "a", 0, bounds).unwrap_err(), RegexError::ExecutionError);
    regex.buffer = vec![4, 1, 0x80, 0];
    assert_eq!(match_at(&regex, "a", 0, bounds).unwrap_err(), RegexError::ExecutionError);
    regex.buffer = vec![4, 0, 0];
    assert_eq!(match_at(&regex, "a", 0, bounds).unwrap_err(), RegexError::ExecutionError);
    // A jump out of the code, and a jump without its displacement.
    regex.buffer = vec![9, 100, 0, 0];
    assert_eq!(match_at(&regex, "a", 0, bounds).unwrap_err(), RegexError::ExecutionError);
    regex.buffer = vec![9, 0];
    assert_eq!(match_at(&regex, "a", 0, bounds).unwrap_err(), RegexError::ExecutionError);
    // A dummy failure jump that no failure jump follows.
    regex.buffer = vec![13, 3, 0, 0];
    assert_eq!(match_at(&regex, "a", 0, bounds).unwrap_err(), RegexError::ExecutionError);
    // A jump to itself runs into the tick limit.
    regex.buffer = vec![9, 0xFD, 0xFF];
    assert_eq!(match_at(&regex, "a", 0, bounds).unwrap_err(), RegexError::Timeout);
}

#[test]
fn search_moves_on_after_an_execution_error() {
    let regex = Regex::new("a*b").unwrap();
    // At 0 the stack would need four points; from 2 on, two are enough.
    assert_eq!(search(&regex, "aaab", 0, 4, limits(None, 3)), Ok(2));
}

#[test]
fn messages() {
    assert_eq!(
        RegexError::CompileError(String::from("what")).message(),
        "Regex compilation error: what"
    );
    assert_eq!(RegexError::TooComplex.message(), "Regular expression too complex");
    assert_eq!(RegexError::UnmatchedParenthesis.message(), "Badly placed parenthesis");
    assert_eq!(RegexError::BadHexEscape.message(), "Bad hexadecimal number");
    assert_eq!(RegexError::BadBackReference.message(), "Bad match register number");
    assert_eq!(RegexError::BadSpecialChar.message(), "Badly placed special character");
    assert_eq!(RegexError::PrematureEnd.message(), "Regular expression ends prematurely");
    assert_eq!(RegexError::OutOfMemory.message(), "Out of memory");
    assert_eq!(RegexError::Timeout.message(), "Regex execution timed out");
    assert_eq!(RegexError::ExecutionError.message(), "Regex execution error");
    assert_eq!(RegexError::InvalidUtf8.message(), "Invalid UTF-8 in input");
}

#[test]
fn opcode_bytes() {
    for byte in 0..=21u8 {
        let op = CompiledOp::from_byte(byte).unwrap();
        assert_eq!(op.to_byte(), byte);
    }
    for byte in 22..=255u8 {
        assert_eq!(CompiledOp::from_byte(byte), None);
    }
    assert_eq!(CompiledOp::from_byte(0), Some(CompiledOp::End));
    assert_eq!(CompiledOp::from_byte(3), Some(CompiledOp::CharSet));
    assert_eq!(CompiledOp::from_byte(13), Some(CompiledOp::DummyFailureJump));
    assert_eq!(CompiledOp::NotSyntaxSpec.to_byte(), 21);
}

#[test]
fn opcode_operand_counts() {
    assert_eq!(CompiledOp::End.arg_count(), 0);
    assert_eq!(CompiledOp::AnyChar.arg_count(), 0);
    assert_eq!(CompiledOp::CharSet.arg_count(), 0);
    assert_eq!(CompiledOp::Exact.arg_count(), 1);
    assert_eq!(CompiledOp::StartMemory.arg_count(), 1);
    assert_eq!(CompiledOp::MatchMemory.arg_count(), 1);
    assert_eq!(CompiledOp::NotSyntaxSpec.arg_count(), 1);
    assert_eq!(CompiledOp::Jump.arg_count(), 2);
    assert_eq!(CompiledOp::DummyFailureJump.arg_count(), 2);
}

#[test]
fn operator_numbers() {
    assert_eq!(SyntaxOp::End.code(), 0);
    assert_eq!(SyntaxOp::Or.code(), 9);
    assert_eq!(SyntaxOp::NotWordBound.code(), 22);
}

#[test]
fn flag_bits() {
    assert_eq!(SyntaxFlags::NO_BK_PARENS().bits(), 1);
    assert_eq!(SyntaxFlags::NO_BK_VBAR().bits(), 2);
    assert_eq!(SyntaxFlags::BK_PLUS_QM().bits(), 4);
    assert_eq!(SyntaxFlags::TIGHT_VBAR().bits(), 8);
    assert_eq!(SyntaxFlags::NEWLINE_OR().bits(), 16);
    assert_eq!(SyntaxFlags::CONTEXT_INDEP_OPS().bits(), 32);
    assert_eq!(SyntaxFlags::ANSI_HEX().bits(), 64);
    assert_eq!(SyntaxFlags::NO_GNU_EXTENSIONS().bits(), 128);
    assert_eq!(SyntaxFlags::CASE_INSENSITIVE().bits(), 256);
    assert_eq!(SyntaxFlags::EMACS().bits(), 0);
    assert_eq!(SyntaxFlags::AWK().bits(), 35);
    assert_eq!(SyntaxFlags::EGREP().bits(), 51);
    assert_eq!(SyntaxFlags::GREP().bits(), 20);
    assert_eq!(SyntaxFlags::MOO().bits(), 32);
    assert_eq!(SyntaxFlags::empty(), SyntaxFlags::EMACS());
    assert_eq!(SyntaxFlags::default(), SyntaxFlags::EMACS());
    assert_eq!(SyntaxFlags::from_bits_truncate(0xFFFF_FFFF).bits(), 0xFFFF_FFFF);
}

#[test]
fn flag_accessors() {
    let emacs = SyntaxFlags::EMACS();
    assert!(emacs.needs_backslash_parens());
    assert!(emacs.needs_backslash_vbar());
    assert!(!emacs.needs_backslash_plus_qm());
    assert!(!emacs.tight_vbar());
    assert!(!emacs.newline_or());
    assert!(!emacs.context_indep_ops());
    assert!(!emacs.ansi_sequences());
    assert!(!emacs.no_gnu_extensions());
    assert!(!emacs.case_insensitive());
    let awk = SyntaxFlags::AWK();
    assert!(!awk.needs_backslash_parens());
    assert!(!awk.needs_backslash_vbar());
    assert!(awk.context_indep_ops());
    assert!(awk.contains(SyntaxFlags::NO_BK_PARENS()));
    assert!(!awk.contains(SyntaxFlags::NEWLINE_OR()));
    assert!(!awk.contains(SyntaxFlags::empty()));
    let grep = SyntaxFlags::GREP();
    assert!(grep.needs_backslash_plus_qm());
    assert!(grep.newline_or());
    assert!(SyntaxFlags::EGREP().newline_or());
    assert!(SyntaxFlags::TIGHT_VBAR().tight_vbar());
    assert!(SyntaxFlags::ANSI_HEX().ansi_sequences());
    assert!(SyntaxFlags::NO_GNU_EXTENSIONS().no_gnu_extensions());
    assert!(SyntaxFlags::CASE_INSENSITIVE().case_insensitive());
}

#[test]
fn default_limits() {
    let limits = ExecLimits::default();
    assert_eq!(limits.max_ticks, None);
    assert_eq!(limits.max_failures, 100_000);
}

#[test]
fn captures_registers() {
    let mut groups = [(None, None); 100];
    groups[0] = (Some(1), Some(4));
    groups[1] = (Some(2), Some(3));
    groups[3] = (Some(3), Some(3));
    groups[5] = (Some(3), None);
    let captures = Captures::from_groups(groups);
    assert_eq!(captures.get(0), Some((1, 4)));
    assert_eq!(captures.get(1), Some((2, 3)));
    assert_eq!(captures.get(2), None);
    assert_eq!(captures.get(3), Some((3, 3)));
    assert_eq!(captures.get(5), None);
    assert_eq!(captures.get(99), None);
    assert_eq!(captures.get(100), None);
    assert_eq!(captures.len(), 6);
    assert!(!captures.is_empty());
    let none = Captures::from_groups([(None, None); 100]);
    assert_eq!(none.len(), 0);
    assert!(none.is_empty());
    let full = Captures::from_groups([(Some(0), Some(0)); 100]);
    assert_eq!(full.len(), 100);
}

#[test]
fn group_that_took_no_part_stays_unset() {
    let captures = awk("(a)|(b)").captures("b").unwrap();
    assert_eq!(captures.get(0), Some((0, 1)));
    assert_eq!(captures.get(1), None);
    assert_eq!(captures.get(2), Some((0, 1)));
    assert_eq!(captures.len(), 3);
}

#[test]
fn back_reference_repeats_the_group() {
    let regex = Regex::new("\\(a*\\)b\\1").unwrap();
    assert_eq!(regex.find("aabaa"), Some((0, 5)));
    assert_eq!(regex.find("aaba"), Some((1, 4)));
    let doubled = Regex::new("\\([a-z]\\)\\1").unwrap();
    assert_eq!(doubled.find("abccd"), Some((2, 4)));
    assert_eq!(doubled.find("abcd"), None);
    // A group that has not closed yet does not match.
    assert_eq!(Regex::new("\\1a").unwrap().find("a"), None);
}

#[test]
fn buffer_anchors() {
    let begin = Regex::new("\\`b").unwrap();
    assert_eq!(begin.find("b"), Some((0, 1)));
    assert_eq!(begin.find("a\nb"), None);
    let line = Regex::new("^b").unwrap();
    assert_eq!(line.find("a\nb"), Some((2, 3)));
    let end = Regex::new("a\\'").unwrap();
    assert_eq!(end.find("a\na"), Some((2, 3)));
    let line_end = Regex::new("a$").unwrap();
    assert_eq!(line_end.find("a\na"), Some((0, 1)));
}

#[test]
fn word_boundaries() {
    let bound = Regex::new("\\b").unwrap();
    assert_eq!(bound.find(""), None);
    assert_eq!(bound.find("  "), None);
    assert_eq!(bound.find(" ab "), Some((1, 1)));
    assert_eq!(bound.find("ab"), Some((0, 0)));
    let inner = Regex::new("\\B").unwrap();
    assert_eq!(inner.find(""), None);
    assert_eq!(inner.find("a"), None);
    assert_eq!(inner.find("ab"), Some((1, 1)));
    assert_eq!(inner.find("a  b"), Some((2, 2)));
    assert_eq!(Regex::new("\\<b").unwrap().find("ab b"), Some((3, 4)));
    assert_eq!(Regex::new("a\\>").unwrap().find("ab a"), Some((3, 4)));
    assert_eq!(Regex::new("\\w\\W").unwrap().find("ab_ é"), Some((2, 4)));
    assert_eq!(Regex::new("\\W").unwrap().find("ab_é"), Some((3, 4)));
}

#[test]
fn search_forward_and_backward() {
    let regex = Regex::new("ab").unwrap();
    let none = ExecLimits::default();
    let text = "ab ab ab";
    assert_eq!(search(&regex, text, 0, 8, none), Ok(0));
    assert_eq!(search(&regex, text, 1, 7, none), Ok(3));
    assert_eq!(search(&regex, text, 1, 1, none), Ok(-1));
    assert_eq!(search(&regex, text, 1, 2, none), Ok(3));
    assert_eq!(search(&regex, text, 7, 100, none), Ok(-1));
    assert_eq!(search(&regex, text, 9, 100, none), Ok(-1));
    assert_eq!(search(&regex, text, 8, -8, none), Ok(6));
    assert_eq!(search(&regex, text, 5, -8, none), Ok(3));
    assert_eq!(search(&regex, text, 5, -1, none), Ok(-1));
    assert_eq!(search(&regex, text, 5, -2, none), Ok(3));
    assert_eq!(search(&regex, text, 100, -100, none), Ok(6));
    assert_eq!(search(&regex, text, 100, -10, none), Ok(-1));
    assert_eq!(search(&regex, text, 0, 0, none), Ok(0));
    assert_eq!(search(&regex, text, 0, i32::MIN, none), Ok(0));
}

#[test]
fn match_at_one_position() {
    let regex = awk("(a)b");
    let none = ExecLimits::default();
    let found = match_at(&regex, "xab", 1, none).unwrap().unwrap();
    assert_eq!(found.get(0), Some((1, 3)));
    assert_eq!(found.get(1), Some((1, 2)));
    assert!(match_at(&regex, "xab", 0, none).unwrap().is_none());
    assert!(match_at(&regex, "xab", 3, none).unwrap().is_none());
    assert!(match_at(&regex, "xab", 4, none).unwrap().is_none());
    let empty = Regex::new("").unwrap();
    assert_eq!(match_at(&empty, "ab", 2, none).unwrap().unwrap().get(0), Some((2, 2)));
    assert!(match_at(&empty, "ab", 3, none).unwrap().is_none());
}

#[test]
fn law_literal_pattern_matches_itself() {
    for text in ["", "a", "hello world", "naïve café", "a)b", "x{y}z", "tab\there"] {
        let regex = Regex::new(text).unwrap();
        assert!(regex.is_match(text), "{text}");
        assert_eq!(regex.find(text), Some((0, text.chars().count())));
    }
    let awk_text = "no meta here";
    assert!(awk(awk_text).is_match(awk_text));
}

#[test]
fn law_anchored_match_starts_a_line() {
    let regex = Regex::new("^b*c").unwrap();
    assert_eq!(regex.find("abc\nbbc\nc"), Some((4, 7)));
    assert_eq!(regex.find("abc abc"), None);
    assert_eq!(regex.find("c"), Some((0, 1)));
    assert_eq!(regex.find("a\nc"), Some((2, 3)));
}

#[test]
fn law_alternation_matches_where_a_side_does() {
    for text in ["cat", "dog", "hotdog", "cow", "", "ca", "do"] {
        let both = awk("cat|dog").is_match(text);
        assert_eq!(both, awk("cat").is_match(text) || awk("dog").is_match(text), "{text}");
    }
    for text in ["ab", "b", "aab", "c", "xay"] {
        let both = awk("a+b|[xy]a").is_match(text);
        assert_eq!(both, awk("a+b").is_match(text) || awk("[xy]a").is_match(text), "{text}");
    }
}

#[test]
fn law_alternation_of_plain_patterns() {
    for text in ["hal", "hxl", "h\nl", "b_", "b ", "c9", "d9", "", "zzhulzz", "zzazz"] {
        let both = awk("h.l|[a-c]\\w").is_match(text);
        let either = awk("h.l").is_match(text) || awk("[a-c]\\w").is_match(text);
        assert_eq!(both, either, "{text}");
    }
    for text in ["", "x", "é"] {
        assert_eq!(awk("|é").is_match(text), awk("").is_match(text) || awk("é").is_match(text));
    }
}

#[test]
fn law_plain_pattern_matches_where_its_atoms_hold() {
    let regex = awk("[0-9].\\W");
    assert_eq!(regex.find("a1bc2d-"), Some((4, 7)));
    assert_eq!(regex.find("1ab"), None);
    assert_eq!(regex.find("1\n-"), None);
}

#[test]
fn law_plain_pattern_with_places() {
    let regex = Regex::new("\\<ab\\>").unwrap();
    assert_eq!(regex.find("xab ab."), Some((4, 6)));
    assert_eq!(regex.find("xab abc"), None);
    let regex = Regex::new("\\`a\\Bb\\'").unwrap();
    assert_eq!(regex.find("ab"), Some((0, 2)));
    assert_eq!(regex.find("xab"), None);
    assert_eq!(regex.find("abx"), None);
    let regex = Regex::new("a\\b.").unwrap();
    assert_eq!(regex.find("aa-a!"), Some((1, 3)));
}

#[test]
fn law_plus_is_one_then_star_for_every_atom() {
    for text in ["", "a", "abba", "xyz", "x-y", "\n\n", "a\nb"] {
        assert_eq!(awk("[ab]+").find(text), awk("[ab][ab]*").find(text), "{text}");
        assert_eq!(awk("[^ab]+").find(text), awk("[^ab][^ab]*").find(text), "{text}");
        assert_eq!(awk(".+").find(text), awk("..*").find(text), "{text}");
        assert_eq!(awk("\\w+").find(text), awk("\\w\\w*").find(text), "{text}");
        assert_eq!(awk("\\W+").find(text), awk("\\W\\W*").find(text), "{text}");
    }
    assert_eq!(awk("[ab]+").find("xabbay"), Some((1, 5)));
}

#[test]
fn law_plus_is_one_then_star() {
    for text in ["", "a", "aa", "b", "baaa", "ab", "abab", "xabx"] {
        assert_eq!(awk("a+").is_match(text), awk("aa*").is_match(text), "{text}");
        assert_eq!(awk("a+").find(text), awk("aa*").find(text), "{text}");
        assert_eq!(awk("(ab)+").is_match(text), awk("(ab)(ab)*").is_match(text), "{text}");
        assert_eq!(awk("[ab]+x").find(text), awk("[ab][ab]*x").find(text), "{text}");
    }
}

#[test]
fn law_group_plus_is_group_then_star() {
    for text in ["", "a", "ab", "abab", "xababab", "aab", "ba", "abxab", "a\nab"] {
        assert_eq!(awk("(ab)+").find(text), awk("(ab)(ab)*").find(text), "{text}");
        assert_eq!(awk("(a.)+").find(text), awk("(a.)(a.)*").find(text), "{text}");
        assert_eq!(awk("([ab]\\w)+").find(text), awk("([ab]\\w)([ab]\\w)*").find(text), "{text}");
    }
    for text in ["", "ab", "abab", "xabab", "aab", "abb", "ababa"] {
        assert_eq!(awk("((a)b)+").find(text), awk("((a)b)((a)b)*").find(text), "{text}");
        assert_eq!(awk("(()a(.))+").find(text), awk("(()a(.))(()a(.))*").find(text), "{text}");
    }
    assert_eq!(awk("((a)b)+").find("xabab"), Some((1, 5)));
    for text in ["a", "a a", "aa", "a-a-a", "-a", "ba-a"] {
        assert_eq!(awk("(\\<a\\W)+").find(text), awk("(\\<a\\W)(\\<a\\W)*").find(text), "{text}");
    }
    assert_eq!(awk("(\\<a\\W)+").find("ba-a-a-"), Some((3, 7)));
    assert_eq!(awk("(ab)+").find("xababab"), Some((1, 7)));
    assert_eq!(awk("(ab)(ab)*").find("xababab"), Some((1, 7)));
    assert_eq!(awk("(ab)+").find("xaba"), Some((1, 3)));
}

#[test]
fn law_alternation_of_patterns_with_groups() {
    for text in ["abc", "de", "ab", "d", "xxdexx", "xabcx", "abde", "", "c", "e"] {
        let both = awk("(ab)c|d(e)").is_match(text);
        let either = awk("(ab)c").is_match(text) || awk("d(e)").is_match(text);
        assert_eq!(both, either, "{text}");
        let both = awk("()a(.)|(b)()").is_match(text);
        let either = awk("()a(.)").is_match(text) || awk("(b)()").is_match(text);
        assert_eq!(both, either, "{text}");
    }
    for text in ["abc", "de", "ab", "d", "xdex", "abd", ""] {
        let both = awk("((a)b)c|d((e))").is_match(text);
        let either = awk("((a)b)c").is_match(text) || awk("d((e))").is_match(text);
        assert_eq!(both, either, "{text}");
    }
    for text in ["cat", "dog", "cats", "hotdog", "dogs", "a cat.", "my dog", ""] {
        let both = awk("\\<(cat)\\>|(dog)\\'").is_match(text);
        let either = awk("\\<(cat)\\>").is_match(text) || awk("(dog)\\'").is_match(text);
        assert_eq!(both, either, "{text}");
    }
    assert!(awk("\\<(cat)\\>|(dog)\\'").is_match("a cat."));
    assert!(!awk("\\<(cat)\\>|(dog)\\'").is_match("cats and dogs"));
    assert_eq!(awk("(ab)c|d(e)").find("xxdexx"), Some((2, 4)));
    assert_eq!(awk("(ab)c|d(e)").find("xabcx"), Some((1, 4)));
    // The groups of the second alternative take the registers behind
    // those of the first.
    let captures = awk("(ab)c|d(e)").captures("de").unwrap();
    assert_eq!(captures.get(0), Some((0, 2)));
    assert_eq!(captures.get(1), None);
    assert_eq!(captures.get(2), Some((1, 2)));
}

#[test]
fn law_class_and_complement_are_opposites() {
    let class = Regex::new("[a-cx]").unwrap();
    let complement = Regex::new("[^a-cx]").unwrap();
    let text = "abcdxyz\n é";
    let none = ExecLimits::default();
    for pos in 0..text.chars().count() {
        let inside = match_at(&class, text, pos, none).unwrap().is_some();
        let outside = match_at(&complement, text, pos, none).unwrap().is_some();
        assert_ne!(inside, outside, "{pos}");
    }
    // At the end of the text neither matches.
    let end = text.chars().count();
    assert!(match_at(&class, text, end, none).unwrap().is_none());
    assert!(match_at(&complement, text, end, none).unwrap().is_none());
}

#[test]
fn law_run_stays_within_its_ticks() {
    let regex = awk("(a*)*b");
    let text = "aaaaaaaaaaaaaaaaaaaaaaaaaaaaaaaaaaaaaaaa";
    for ticks in [0usize, 1, 2, 10, 100, 1000] {
        let res = match_at(&regex, text, 0, limits(Some(ticks), 1_000_000));
        assert_eq!(res.unwrap_err(), RegexError::Timeout);
    }
    assert_eq!(search(&regex, text, 0, 40, limits(Some(50), 1_000_000)), Err(RegexError::Timeout));
}

#[test]
fn class_with_256_ranges_keeps_only_the_low_bits_of_the_count() {
    let members: String = (0..256u32).map(|i| char::from_u32(0x100 + i).unwrap()).collect();
    let regex = Regex::new(&format!("[{members}]")).unwrap();
    assert_eq!(regex.buffer[0..3], [3, 0, 0]);
    let smaller: String = (0..255u32).map(|i| char::from_u32(0x100 + i).unwrap()).collect();
    let regex = Regex::new(&format!("[{smaller}]")).unwrap();
    assert_eq!(regex.buffer[0..3], [3, 0, 255]);
    assert!(regex.is_match("\u{1fe}"));
    assert!(!regex.is_match("\u{1ff}"));
}

#[test]
fn registers_run_out_after_99_groups() {
    let pattern = "(a)".repeat(100);
    let regex = awk(&pattern);
    let text = "a".repeat(100);
    let captures = regex.captures(&text).unwrap();
    assert_eq!(captures.get(0), Some((0, 100)));
    assert_eq!(captures.get(99), Some((98, 99)));
    assert_eq!(captures.len(), 100);
}

#[test]
fn alternation_law_needs_alternatives_without_repetition() {
    // A star jump refreshes the latest resume point, here that of the
    // alternation: the second alternative is tried one character late.
    assert!(!awk("a+c|ab").is_match("ab"));
    assert!(awk("ab").is_match("ab"));
    // A parenthesis in one alternative closes a group of the other.
    assert!(!awk("(x|y)z").is_match("x"));
    assert!(awk("(x").is_match("x"));
    // A back-reference reads what the other alternative left behind.
    assert!(awk("(a)b|\\1").is_match("ac"));
    assert!(!awk("(a)b").is_match("ac"));
    assert!(!awk("\\1").is_match("ac"));
}

#[test]
fn repetition_law_needs_one_atom_or_one_group_of_atoms() {
    // `+` repeats only what stands right before it.
    assert_eq!(awk("xy+").find("xyy"), Some((0, 3)));
    assert_eq!(awk("xyxy*").find("xyy"), None);
    assert!(!awk("a|b+").is_match("c"));
    assert!(awk("a|ba|b*").is_match("c"));
    // Behind a repeated group with alternatives the star jump refreshes a
    // resume point of the group.
    assert!(!awk("(a|ab)+c").is_match("abc"));
    assert!(awk("(a|ab)(a|ab)*c").is_match("abc"));
}

#[test]
fn anchoring_law_needs_the_anchor_to_cover_the_alternation() {
    assert_eq!(awk("^a|b").find("xb"), Some((1, 2)));
    assert_eq!(Regex::new("^a\\|b").unwrap().find("xb"), Some((1, 2)));
}

#[test]
fn star_jump_refreshes_the_resume_point() {
    // Each repetition stacks a resume point and the star jump moves it
    // behind the repetition: on the way back the loop is left after every
    // number of repetitions but none.
    let regex = Regex::new("a*ab").unwrap();
    assert_eq!(regex.find("aab"), Some((0, 3)));
    assert_eq!(regex.find("aaab"), Some((0, 4)));
    assert_eq!(regex.find("ab"), None);
    assert_eq!(Regex::new("a*b").unwrap().find("b"), Some((0, 1)));
}

#[test]
fn case_insensitive_flag_sets_up_no_translation() {
    let regex = Regex::with_syntax("abc", SyntaxFlags::CASE_INSENSITIVE()).unwrap();
    assert_eq!(regex.buffer, Regex::new("abc").unwrap().buffer);
    assert!(regex.is_match("abc"));
    assert!(!regex.is_match("ABC"));
}

#[test]
fn syntax_types_differ() {
    assert_ne!(SyntaxType::Normal, SyntaxType::Word);
}

/// The positions at which the instructions of `code` begin, and the end.
fn boundaries(code: &[u8]) -> Vec<usize> {
    let mut at = 0;
    let mut found = vec![0];
    while at < code.len() {
        let op = CompiledOp::from_byte(code[at]).unwrap();
        at += match op {
            CompiledOp::Exact => 2 + code[at + 1] as usize,
            CompiledOp::CharSet => {
                let mut end = at + 3;
                for _ in 0..2 * code[at + 2] as usize {
                    end += 1 + code[end] as usize;
                }
                end - at
            }
            _ => 1 + op.arg_count(),
        };
        found.push(at);
    }
    assert_eq!(at, code.len());
    found
}

#[test]
fn law_compiled_code_is_well_formed() {
    let patterns = [
        "",
        "abc",
        "a*b+c?",
        "(a|b)*c",
        "((a|bc)+|d?e)*f|g",
        "^[a-z]+(x|[^0-9]y)*$",
        "a|b|c|d",
        "(a(b(c|d)*)+)?",
        "\\w+\\W*|\\<x\\>",
        "x)y|z",
        "((((a",
    ];
    for pattern in patterns {
        let code = awk(pattern).buffer;
        let starts = boundaries(&code);
        assert_eq!(code[code.len() - 1], 0, "{pattern}");
        assert!(starts.contains(&(code.len() - 1)), "{pattern}");
        for &at in &starts[..starts.len() - 1] {
            let op = CompiledOp::from_byte(code[at]).unwrap();
            if op.arg_count() == 2 {
                let disp = i16::from_le_bytes([code[at + 1], code[at + 2]]);
                let target = at as i64 + 3 + disp as i64;
                assert!(0 <= target && (target as usize) < code.len(), "{pattern} at {at}");
                assert!(starts.contains(&(target as usize)), "{pattern} at {at}");
                if op == CompiledOp::DummyFailureJump {
                    assert_eq!(code[at + 3], 11, "{pattern} at {at}");
                }
            }
        }
    }
}

#[test]
fn law_compiled_code_runs_without_execution_error() {
    let bounds = limits(Some(10_000), 10_000);
    let texts = ["", "a", "abc", "aaab", "xyzzy", "a\nb", "((((a"];
    for pattern in ["a*b+c?", "(a|b)*c", "((a|bc)+|d?e)*f|g", "^[a-z]+(x|[^0-9]y)*$", "((((a"] {
        let regex = awk(pattern);
        for text in texts {
            for pos in 0..=text.chars().count() {
                match match_at(&regex, text, pos, bounds) {
                    Ok(_) | Err(RegexError::Timeout) => {}
                    Err(e) => panic!("{pattern} on {text} at {pos}: {e:?}"),
                }
            }
        }
    }
}

#[test]
fn law_found_span_lies_in_text() {
    let texts = ["", "a", "abab", "xaby", "a\nb", "ééé"];
    for pattern in ["a*", "(ab)+", "b|ab", "^", "$", "\\(a\\)\\1*", ".?"] {
        let regex = Regex::new(pattern).unwrap();
        for text in texts {
            if let Some((start, end)) = regex.find(text) {
                assert!(start <= end && end <= text.chars().count(), "{pattern} in {text}");
            }
        }
    }
}

#[test]
fn law_found_groups_lie_in_text() {
    let texts = ["", "a", "abab", "xaby", "aab", "ba", "ééaé"];
    for pattern in ["(a*)(b*)", "(a)|(b)", "((a)b)+", "(a|(b))*", "x(a)(b)y", "()(a)?"] {
        let regex = awk(pattern);
        for text in texts {
            if let Some(captures) = regex.captures(text) {
                let (found, _) = captures.get(0).unwrap();
                for group in 0..captures.len() {
                    if let Some((start, end)) = captures.get(group) {
                        assert!(found <= start && start <= text.chars().count(), "{pattern} in {text}");
                        assert!(found <= end && end <= text.chars().count(), "{pattern} in {text}");
                    }
                }
            }
        }
    }
    let captures = awk("x(a)(b)y").captures("--xaby").unwrap();
    assert_eq!(captures.get(0), Some((2, 6)));
    assert_eq!(captures.get(1), Some((3, 4)));
    assert_eq!(captures.get(2), Some((4, 5)));
}

#[test]
fn failed_repetition_leaves_the_code_alone() {
    for (op, ch) in [(SyntaxOp::Optional, '?'), (SyntaxOp::Star, '*'), (SyntaxOp::Plus, '+')] {
        let mut strict = Compiler::new("", SyntaxFlags::MOO()).unwrap();
        assert_eq!(strict.process_operation(op, ch), Err(RegexError::BadSpecialChar));
        assert_eq!(strict.compile().unwrap().buffer, vec![0]);
        let mut lenient = Compiler::new("", SyntaxFlags::EMACS()).unwrap();
        assert_eq!(lenient.process_operation(op, ch), Ok(()));
        assert_eq!(lenient.compile().unwrap().buffer, vec![4, 1, ch as u8, 0]);
    }
}

#[test]
fn backslash_has_no_lowering_of_its_own() {
    let mut compiler = Compiler::new("", SyntaxFlags::EMACS()).unwrap();
    assert_eq!(
        compiler.process_operation(SyntaxOp::Quote, '\\'),
        Err(RegexError::CompileError(String::from("Unimplemented operation: Quote")))
    );
    assert_eq!(compiler.compile().unwrap().buffer, vec![0]);
}

#[test]
fn failed_hex_digits_leave_the_code_alone() {
    for (pattern, error) in [
        ("", RegexError::PrematureEnd),
        ("4", RegexError::PrematureEnd),
        ("g1", RegexError::BadHexEscape),
        ("4g", RegexError::BadHexEscape),
        ("80", RegexError::BadHexEscape),
    ] {
        let mut compiler = Compiler::new(pattern, SyntaxFlags::ANSI_HEX()).unwrap();
        assert_eq!(compiler.get_hex(), Err(error), "{pattern}");
    }
    let mut compiler = Compiler::new("4g", SyntaxFlags::ANSI_HEX()).unwrap();
    assert!(compiler.get_hex().is_err());
    assert_eq!(compiler.compile().unwrap().buffer, vec![0]);
    let mut compiler = Compiler::new("4a", SyntaxFlags::ANSI_HEX()).unwrap();
    assert_eq!(compiler.get_hex(), Ok('J'));
    assert_eq!(compiler.compile().unwrap().buffer, vec![0]);
}

#[test]
fn execute_past_the_text_finds_nothing() {
    let regex = Regex::new("").unwrap();
    let mut state = MatchState::new(&regex, "ab", limits(Some(1), 1));
    assert_eq!(state.execute(3), Ok(None));
    assert_eq!(state.execute(usize::MAX), Ok(None));
    assert_eq!(state.execute(2), Err(RegexError::Timeout));
    let mut roomy = MatchState::new(&regex, "ab", limits(Some(2), 1));
    assert_eq!(roomy.execute(2), Ok(Some(2)));
}
