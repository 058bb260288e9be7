use fivedbf::error::LoadError;
use fivedbf::program::{check_targets, parse, Token};

#[test]
fn empty_source_gives_empty_program() {
    let prog = parse(b"").unwrap();
    assert_eq!(prog.len(), 0);
}

#[test]
fn plain_instructions_in_order() {
    let prog = parse(b"+-><,.~^v@").unwrap();
    assert_eq!(
        prog,
        vec![
            Token::Inc,
            Token::Dec,
            Token::Right,
            Token::Left,
            Token::Read,
            Token::Write,
            Token::Back,
            Token::Up,
            Token::Down,
            Token::Await,
        ]
    );
}

#[test]
fn unrecognized_bytes_are_skipped() {
    let prog = parse(b"a+ b- c\n>x").unwrap();
    assert_eq!(prog, vec![Token::Inc, Token::Dec, Token::Right]);
}

#[test]
fn bracket_pair_targets_point_at_each_other() {
    let prog = parse(b"[+]").unwrap();
    assert_eq!(prog, vec![Token::JumpZero(2), Token::Inc, Token::JumpNonzero(0)]);
}

#[test]
fn nested_brackets_match_round_trip() {
    let prog = parse(b"[[-]+]").unwrap();
    // positions:     012345
    assert_eq!(
        prog,
        vec![
            Token::JumpZero(5),
            Token::JumpZero(3),
            Token::Dec,
            Token::JumpNonzero(1),
            Token::Inc,
            Token::JumpNonzero(0),
        ]
    );
    // the round trip: each stored target names the matching partner
    for (j, tok) in prog.iter().enumerate() {
        match *tok {
            Token::JumpZero(n) => assert_eq!(prog[n], Token::JumpNonzero(j)),
            Token::JumpNonzero(m) => assert_eq!(prog[m], Token::JumpZero(j)),
            _ => {}
        }
    }
}

#[test]
fn paren_pair_resolves_to_kill_position() {
    let prog = parse(b"(+)").unwrap();
    assert_eq!(prog, vec![Token::Spawn(2), Token::Inc, Token::Kill]);
}

#[test]
fn brackets_and_parens_use_separate_stacks() {
    let prog = parse(b"[(])").unwrap();
    assert_eq!(
        prog,
        vec![Token::JumpZero(2), Token::Spawn(3), Token::JumpNonzero(0), Token::Kill]
    );
}

#[test]
fn unmatched_close_bracket_reports_position() {
    assert_eq!(parse(b"++]"), Err(LoadError::UnmatchedCloseBracket(2)));
}

#[test]
fn unmatched_close_paren_reports_position() {
    assert_eq!(parse(b")"), Err(LoadError::UnmatchedCloseParen(0)));
}

#[test]
fn unmatched_open_bracket_reports_position() {
    assert_eq!(parse(b"+[+"), Err(LoadError::UnmatchedOpenBracket(1)));
}

#[test]
fn unmatched_open_paren_reports_position() {
    assert_eq!(parse(b"(("), Err(LoadError::UnmatchedOpenParen(0)));
}

#[test]
fn first_unmatched_open_bracket_wins_over_paren() {
    // both stacks are nonempty at the end; the bracket is reported first
    assert_eq!(parse(b"[("), Err(LoadError::UnmatchedOpenBracket(0)));
}

#[test]
fn check_targets_accepts_assembled_programs() {
    let prog = parse(b"[(+)]").unwrap();
    assert!(check_targets(&prog));
}

#[test]
fn check_targets_rejects_out_of_range_target() {
    let prog = vec![Token::JumpZero(7), Token::Inc];
    assert!(!check_targets(&prog));
}
