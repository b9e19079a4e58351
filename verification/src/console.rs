//! What the interactive shell decides: how a line of input is read as a
//! command or as a number, and what follows from a command. Reading and
//! printing are left to the caller.

use vstd::prelude::*;

verus! {

/// The byte that ends a line.
pub const NEWLINE: u8 = 10;

/// The sign that may stand before a number.
pub const PLUS: u8 = 43;

/// The digit `0`; the other digits follow it.
pub const DIGIT_ZERO: u8 = 48;

/// The digit `9`.
pub const DIGIT_NINE: u8 = 57;

/// The letter `l`.
pub const LETTER_L: u8 = 108;

/// The letter `q`.
pub const LETTER_Q: u8 = 113;

/// The letter `c`.
pub const LETTER_C: u8 = 99;

/// The letter `p`.
pub const LETTER_P: u8 = 112;

/// The letter `a`.
pub const LETTER_A: u8 = 97;

/// A command of the shell.
#[derive(Debug, Clone, Copy, PartialEq, Eq, Structural)]
pub enum Command {
    /// `l`
    Loop,
    /// `p` and a number: show the path of the number.
    Path(u64),
    /// `a` and a number: compute the path of the number.
    Add(u64),
    /// `q`
    Quit,
    /// `c`
    Counts,
}

/// Why a line did not give a number.
#[derive(Debug, Clone, Copy, PartialEq, Eq, Structural)]
pub enum InputError {
    /// The line does not end with a newline.
    Unterminated,
    /// What stands before the newline is not a number that fits in 64 bits.
    NotANumber,
}

/// What the shell does in answer to a line.
#[derive(Debug, Clone, Copy, PartialEq, Eq, Structural)]
pub enum Action {
    /// Print how many cached numbers end in each loop.
    ShowCounts,
    /// Leave the shell.
    Quit,
    /// Say that the command is not implemented.
    NotImplemented,
    /// Say that the line is no command.
    Invalid,
}

/// The byte is a decimal digit.
pub open spec fn is_digit(b: u8) -> bool {
    DIGIT_ZERO <= b <= DIGIT_NINE
}

/// Every byte of the string is a decimal digit.
pub open spec fn all_digits(s: Seq<u8>) -> bool {
    forall|i: int| 0 <= i < s.len() ==> is_digit(#[trigger] s[i])
}

/// The text without the `+` that may stand at its beginning.
pub open spec fn without_sign(text: Seq<u8>) -> Seq<u8> {
    if text.len() > 0 && text[0] == PLUS {
        text.skip(1)
    } else {
        text
    }
}

/// The number that a string of decimal digits denotes.
pub open spec fn digits_value(s: Seq<u8>) -> nat
    decreases s.len(),
{
    if s.len() == 0 {
        0
    } else {
        digits_value(s.drop_last()) * 10 + (s.last() - DIGIT_ZERO) as nat
    }
}

/// The number that a text denotes: an optional `+`, then at least one decimal
/// digit and nothing else, with a value that fits in 64 bits.
pub open spec fn decimal_value(text: Seq<u8>) -> Option<u64> {
    let digits = without_sign(text);
    if digits.len() > 0 && all_digits(digits) && digits_value(digits) <= u64::MAX {
        Some(digits_value(digits) as u64)
    } else {
        None
    }
}

/// The line without its newline, if it ends with one.
pub open spec fn line_body(line: Seq<u8>) -> Option<Seq<u8>> {
    if line.len() > 0 && line.last() == NEWLINE {
        Some(line.drop_last())
    } else {
        None
    }
}

/// The command that a line denotes: `l`, `q` or `c` alone, or `p` or `a`
/// followed by a number, each ended by a newline.
pub open spec fn command_of(line: Seq<u8>) -> Option<Command> {
    match line_body(line) {
        None => None,
        Some(body) => {
            if body =~= seq![LETTER_L] {
                Some(Command::Loop)
            } else if body =~= seq![LETTER_Q] {
                Some(Command::Quit)
            } else if body =~= seq![LETTER_C] {
                Some(Command::Counts)
            } else if body.len() > 0 && body[0] == LETTER_P {
                match decimal_value(body.skip(1)) {
                    Some(n) => Some(Command::Path(n)),
                    None => None,
                }
            } else if body.len() > 0 && body[0] == LETTER_A {
                match decimal_value(body.skip(1)) {
                    Some(n) => Some(Command::Add(n)),
                    None => None,
                }
            } else {
                None
            }
        },
    }
}

/// The number that a line of input gives: the default for an empty line
/// where there is a default, else the number written on the line.
pub open spec fn input_number_of(line: Seq<u8>, default_value: Option<u64>) -> Result<
    u64,
    InputError,
> {
    match line_body(line) {
        None => Err(InputError::Unterminated),
        Some(body) => {
            if default_value is Some && body.len() == 0 {
                Ok(default_value->Some_0)
            } else {
                match decimal_value(body) {
                    Some(n) => Ok(n),
                    None => Err(InputError::NotANumber),
                }
            }
        },
    }
}

/// What follows from a line that was read as `command`.
pub open spec fn action_for(command: Option<Command>) -> Action {
    match command {
        Some(Command::Counts) => Action::ShowCounts,
        Some(Command::Quit) => Action::Quit,
        Some(_) => Action::NotImplemented,
        None => Action::Invalid,
    }
}

/// A string of digits denotes at least what any of its beginnings denotes.
pub proof fn lemma_digits_value_grows(s: Seq<u8>, k: int)
    requires
        0 <= k <= s.len(),
        all_digits(s),
    ensures
        digits_value(s.take(k)) <= digits_value(s),
    decreases s.len(),
{
    if k < s.len() {
        let init = s.drop_last();
        lemma_digits_value_grows(init, k);
        assert(init.take(k) =~= s.take(k));
    } else {
        assert(s.take(k) =~= s);
    }
}

/// Reads `text` as a decimal number.
pub fn parse_decimal(text: &[u8]) -> (r: Option<u64>)
    ensures
        r == decimal_value(text@),
{
    let n = text.len();
    let start: usize = if n > 0 && text[0] == PLUS {
        1
    } else {
        0
    };
    if start == n {
        return None;
    }
    let ghost digits = without_sign(text@);
    let mut acc: u64 = 0;
    let mut i: usize = start;
    proof {
        assert(digits.take(0).len() == 0);
    }
    while i < n
        invariant
            start <= i <= n,
            n == text@.len(),
            digits == without_sign(text@),
            digits == text@.skip(start as int),
            all_digits(digits.take(i - start)),
            acc == digits_value(digits.take(i - start)),
        decreases n - i,
    {
        let b = text[i];
        if b < DIGIT_ZERO || b > DIGIT_NINE {
            proof {
                assert(!is_digit(digits[i - start]));
            }
            return None;
        }
        let d = (b - DIGIT_ZERO) as u64;
        proof {
            let longer = digits.take(i - start + 1);
            assert(longer.drop_last() =~= digits.take(i - start));
            assert(longer.last() == b);
            assert(digits_value(longer) == acc * 10 + d);
            assert(all_digits(longer)) by {
                assert forall|j: int| 0 <= j < longer.len() implies is_digit(#[trigger] longer[j]) by {
                    if j < i - start {
                        assert(digits.take(i - start)[j] == longer[j]);
                    }
                }
            }
            if all_digits(digits) {
                lemma_digits_value_grows(digits, i - start + 1);
            }
        }
        let shifted = match acc.checked_mul(10) {
            Some(v) => v,
            None => {
                return None;
            },
        };
        acc = match shifted.checked_add(d) {
            Some(v) => v,
            None => {
                return None;
            },
        };
        i += 1;
    }
    proof {
        assert(digits.take(n - start) =~= digits);
    }
    Some(acc)
}

/// Takes the newline off the end of a line.
fn strip_newline(line: &[u8]) -> (r: Option<&[u8]>)
    ensures
        match r {
            Some(body) => line_body(line@) == Some(body@),
            None => line_body(line@) is None,
        },
{
    let n = line.len();
    if n > 0 && line[n - 1] == NEWLINE {
        let body = vstd::slice::slice_subrange(line, 0, n - 1);
        proof {
            assert(body@ =~= line@.drop_last());
        }
        Some(body)
    } else {
        None
    }
}

/// Reads a line as a command of the shell.
pub fn parse_command(line: &[u8]) -> (r: Option<Command>)
    ensures
        r == command_of(line@),
{
    let body = match strip_newline(line) {
        Some(body) => body,
        None => {
            return None;
        },
    };
    let n = body.len();
    if n == 1 && body[0] == LETTER_L {
        proof {
            assert(body@ =~= seq![LETTER_L]);
        }
        return Some(Command::Loop);
    }
    if n == 1 && body[0] == LETTER_Q {
        proof {
            assert(body@ =~= seq![LETTER_Q]);
        }
        return Some(Command::Quit);
    }
    if n == 1 && body[0] == LETTER_C {
        proof {
            assert(body@ =~= seq![LETTER_C]);
        }
        return Some(Command::Counts);
    }
    proof {
        assert(!(body@ =~= seq![LETTER_L])) by {
            if body@ =~= seq![LETTER_L] {
                assert(seq![LETTER_L].len() == 1);
                assert(seq![LETTER_L][0] == LETTER_L);
            }
        }
        assert(!(body@ =~= seq![LETTER_Q])) by {
            if body@ =~= seq![LETTER_Q] {
                assert(seq![LETTER_Q].len() == 1);
                assert(seq![LETTER_Q][0] == LETTER_Q);
            }
        }
        assert(!(body@ =~= seq![LETTER_C])) by {
            if body@ =~= seq![LETTER_C] {
                assert(seq![LETTER_C].len() == 1);
                assert(seq![LETTER_C][0] == LETTER_C);
            }
        }
    }
    if n > 0 && body[0] == LETTER_P {
        let rest = vstd::slice::slice_subrange(body, 1, n);
        proof {
            assert(rest@ =~= body@.skip(1));
        }
        return match parse_decimal(rest) {
            Some(value) => Some(Command::Path(value)),
            None => None,
        };
    }
    if n > 0 && body[0] == LETTER_A {
        let rest = vstd::slice::slice_subrange(body, 1, n);
        proof {
            assert(rest@ =~= body@.skip(1));
        }
        return match parse_decimal(rest) {
            Some(value) => Some(Command::Add(value)),
            None => None,
        };
    }
    None
}

/// Reads a line as the answer to a prompt for a number: an empty line gives
/// the default where there is one.
pub fn parse_input_number(line: &[u8], default_value: Option<u64>) -> (r: Result<u64, InputError>)
    ensures
        r == input_number_of(line@, default_value),
{
    let body = match strip_newline(line) {
        Some(body) => body,
        None => {
            return Err(InputError::Unterminated);
        },
    };
    if let Some(default) = default_value {
        if body.len() == 0 {
            return Ok(default);
        }
    }
    match parse_decimal(body) {
        Some(value) => Ok(value),
        None => Err(InputError::NotANumber),
    }
}

/// What the shell does next, given what a line was read as.
pub fn next_action(command: Option<Command>) -> (r: Action)
    ensures
        r == action_for(command),
{
    match command {
        Some(Command::Counts) => Action::ShowCounts,
        Some(Command::Quit) => Action::Quit,
        Some(_) => Action::NotImplemented,
        None => Action::Invalid,
    }
}

} // verus!
