use collatzish::console::{
    next_action, parse_command, parse_decimal, parse_input_number, Action, Command, InputError,
};

#[test]
fn single_letter_commands() {
    assert_eq!(parse_command(b"l\n"), Some(Command::Loop));
    assert_eq!(parse_command(b"q\n"), Some(Command::Quit));
    assert_eq!(parse_command(b"c\n"), Some(Command::Counts));
}

#[test]
fn commands_with_a_number() {
    assert_eq!(parse_command(b"p27\n"), Some(Command::Path(27)));
    assert_eq!(parse_command(b"a6\n"), Some(Command::Add(6)));
    assert_eq!(parse_command(b"p0\n"), Some(Command::Path(0)));
    assert_eq!(parse_command(b"a+15\n"), Some(Command::Add(15)));
    assert_eq!(parse_command(b"p18446744073709551615\n"), Some(Command::Path(u64::MAX)));
}

#[test]
fn lines_that_are_no_command() {
    assert_eq!(parse_command(b""), None);
    assert_eq!(parse_command(b"\n"), None);
    assert_eq!(parse_command(b"q"), None);
    assert_eq!(parse_command(b"x\n"), None);
    assert_eq!(parse_command(b"l5\n"), None);
    assert_eq!(parse_command(b"qq\n"), None);
    assert_eq!(parse_command(b" c\n"), None);
    assert_eq!(parse_command(b"c\r\n"), None);
    assert_eq!(parse_command(b"p\n"), None);
    assert_eq!(parse_command(b"a\n"), None);
    assert_eq!(parse_command(b"p 5\n"), None);
    assert_eq!(parse_command(b"p-5\n"), None);
    assert_eq!(parse_command(b"a5x\n"), None);
    assert_eq!(parse_command(b"p18446744073709551616\n"), None);
}

#[test]
fn decimal_numbers() {
    assert_eq!(parse_decimal(b"0"), Some(0));
    assert_eq!(parse_decimal(b"7"), Some(7));
    assert_eq!(parse_decimal(b"10000"), Some(10000));
    assert_eq!(parse_decimal(b"+42"), Some(42));
    assert_eq!(parse_decimal(b"000123"), Some(123));
    assert_eq!(parse_decimal(b"18446744073709551615"), Some(u64::MAX));
    assert_eq!(parse_decimal(b"00000000000000000000000000000001"), Some(1));
}

#[test]
fn texts_that_are_no_number() {
    assert_eq!(parse_decimal(b""), None);
    assert_eq!(parse_decimal(b"+"), None);
    assert_eq!(parse_decimal(b"-1"), None);
    assert_eq!(parse_decimal(b"-0"), None);
    assert_eq!(parse_decimal(b"++1"), None);
    assert_eq!(parse_decimal(b"1+"), None);
    assert_eq!(parse_decimal(b"12a"), None);
    assert_eq!(parse_decimal(b" 12"), None);
    assert_eq!(parse_decimal(b"12 "), None);
    assert_eq!(parse_decimal(b"1_000"), None);
    assert_eq!(parse_decimal(b"18446744073709551616"), None);
    assert_eq!(parse_decimal(b"99999999999999999999"), None);
    assert_eq!(parse_decimal(b"184467440737095516150"), None);
    // digits of another script, in UTF-8
    assert_eq!(parse_decimal(&[0xd9, 0xa1, 0xd9, 0xa2]), None);
}

#[test]
fn decimal_numbers_agree_with_the_standard_parser() {
    let texts = [
        "", "+", "-", "0", "+0", "-0", "1", "+1", "-1", "12", "0012", "+0012", "1a", "a1", " 1",
        "1 ", "18446744073709551615", "18446744073709551616", "+18446744073709551615",
        "28446744073709551615", "1844674407370955161", "3000000000000000000000",
    ];
    for text in texts {
        assert_eq!(parse_decimal(text.as_bytes()), text.parse::<u64>().ok(), "{:?}", text);
    }
}

#[test]
fn input_numbers() {
    assert_eq!(parse_input_number(b"5\n", Some(3)), Ok(5));
    assert_eq!(parse_input_number(b"5\n", None), Ok(5));
    assert_eq!(parse_input_number(b"10000\n", Some(1)), Ok(10000));
}

#[test]
fn empty_input_gives_the_default() {
    assert_eq!(parse_input_number(b"\n", Some(3)), Ok(3));
    assert_eq!(parse_input_number(b"\n", Some(10000)), Ok(10000));
    assert_eq!(parse_input_number(b"\n", None), Err(InputError::NotANumber));
}

#[test]
fn input_that_is_no_number() {
    assert_eq!(parse_input_number(b"", Some(3)), Err(InputError::Unterminated));
    assert_eq!(parse_input_number(b"5", Some(3)), Err(InputError::Unterminated));
    assert_eq!(parse_input_number(b"abc\n", Some(3)), Err(InputError::NotANumber));
    assert_eq!(parse_input_number(b"5\r\n", Some(3)), Err(InputError::NotANumber));
    assert_eq!(parse_input_number(b"abc\n12\n", Some(3)), Err(InputError::NotANumber));
    assert_eq!(parse_input_number(b"-1\n", None), Err(InputError::NotANumber));
}

#[test]
fn actions() {
    assert_eq!(next_action(Some(Command::Counts)), Action::ShowCounts);
    assert_eq!(next_action(Some(Command::Quit)), Action::Quit);
    assert_eq!(next_action(Some(Command::Loop)), Action::NotImplemented);
    assert_eq!(next_action(Some(Command::Path(5))), Action::NotImplemented);
    assert_eq!(next_action(Some(Command::Add(5))), Action::NotImplemented);
    assert_eq!(next_action(None), Action::Invalid);
}
