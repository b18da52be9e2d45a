use minesweeper::parse::parse_command;
use minesweeper::types::{Action, Command, GameError};

#[test]
fn well_formed_commands_parse() {
    assert_eq!(
        parse_command(b"3 4 reveal"),
        Ok(Command { x: 3, y: 4, action: Action::Reveal })
    );
    assert_eq!(
        parse_command(b"0 0 flag"),
        Ok(Command { x: 0, y: 0, action: Action::Flag })
    );
    assert_eq!(
        parse_command(b"65535 65535 reveal"),
        Ok(Command { x: 65535, y: 65535, action: Action::Reveal })
    );
}

#[test]
fn surrounding_whitespace_is_ignored() {
    assert_eq!(
        parse_command(b"  7 \t 8   reveal \r\n"),
        Ok(Command { x: 7, y: 8, action: Action::Reveal })
    );
    assert_eq!(
        parse_command(b"12 9 flag\n"),
        Ok(Command { x: 12, y: 9, action: Action::Flag })
    );
}

#[test]
fn non_numeric_coordinate_is_malformed() {
    assert_eq!(parse_command(b"5 x reveal"), Err(GameError::MalformedCommand));
    assert_eq!(parse_command(b"x 5 reveal"), Err(GameError::MalformedCommand));
    assert_eq!(parse_command(b"5. 1 reveal"), Err(GameError::MalformedCommand));
    assert_eq!(parse_command(b"-1 1 reveal"), Err(GameError::MalformedCommand));
}

#[test]
fn wrong_token_count_is_malformed() {
    assert_eq!(parse_command(b""), Err(GameError::MalformedCommand));
    assert_eq!(parse_command(b"   "), Err(GameError::MalformedCommand));
    assert_eq!(parse_command(b"1 2"), Err(GameError::MalformedCommand));
    assert_eq!(parse_command(b"reveal"), Err(GameError::MalformedCommand));
    assert_eq!(parse_command(b"1 2 reveal extra"), Err(GameError::MalformedCommand));
}

#[test]
fn unknown_action_keyword_is_malformed() {
    assert_eq!(parse_command(b"1 2 mark"), Err(GameError::MalformedCommand));
    assert_eq!(parse_command(b"1 2 Reveal"), Err(GameError::MalformedCommand));
    assert_eq!(parse_command(b"1 2 revealx"), Err(GameError::MalformedCommand));
    assert_eq!(parse_command(b"1 2 fla"), Err(GameError::MalformedCommand));
}

#[test]
fn oversized_coordinate_is_malformed() {
    assert_eq!(parse_command(b"65536 0 reveal"), Err(GameError::MalformedCommand));
    assert_eq!(parse_command(b"0 99999999999999999999 flag"), Err(GameError::MalformedCommand));
}

#[test]
fn leading_zeros_are_accepted() {
    assert_eq!(
        parse_command(b"007 0000000000000000012 flag"),
        Ok(Command { x: 7, y: 12, action: Action::Flag })
    );
}
