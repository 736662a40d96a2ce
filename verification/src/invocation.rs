//! What a command line asks for: a path to render, and how deep.

use vstd::prelude::*;

verus! {

/// The depth limit of an invocation that names none.
pub const DEFAULT_MAX_DEPTH: u32 = 2;

/// Why a command line could not be read.
#[derive(Debug, PartialEq, Eq, Structural, Clone, Copy)]
pub enum InvocationError {
    /// There are too few arguments or too many.
    Usage,
    /// The depth is not written as a number that a depth limit can hold.
    Depth,
}

/// What to render.
#[derive(Debug, PartialEq, Eq)]
pub struct Invocation {
    /// The path of the root, as it was given.
    pub path: String,
    /// The depth limit.
    pub max_depth: u32,
}

/// What an [`Invocation`] stands for.
pub struct Asked {
    pub path: Seq<char>,
    pub max_depth: u32,
}

impl View for Invocation {
    type V = Asked;

    open spec fn view(&self) -> Asked {
        Asked { path: self.path@, max_depth: self.max_depth }
    }
}

/// Whether `c` is one of the digits `0` to `9`.
pub open spec fn is_digit(c: char) -> bool {
    '0' as int <= c as int <= '9' as int
}

/// The number that a sequence of digits writes in base ten.
pub open spec fn decimal_value(digits: Seq<char>) -> nat
    decreases digits.len(),
{
    if digits.len() == 0 {
        0
    } else {
        10 * decimal_value(digits.drop_last()) + (digits.last() as int - '0' as int) as nat
    }
}

/// The digits of a depth: the text itself, without a plus sign at its
/// head.
pub open spec fn digits_of(text: Seq<char>) -> Seq<char> {
    if text.len() > 0 && text[0] == '+' {
        text.drop_first()
    } else {
        text
    }
}

/// The depth that `text` writes: there must be at least one digit and
/// nothing but digits behind an optional plus sign, and their number must
/// not be beyond the largest depth limit.
pub open spec fn depth_of(text: Seq<char>) -> Option<u32> {
    let digits = digits_of(text);
    if digits.len() > 0 && (forall|i: int| 0 <= i < digits.len() ==> is_digit(#[trigger] digits[i]))
        && decimal_value(digits) <= u32::MAX {
        Some(decimal_value(digits) as u32)
    } else {
        None
    }
}

/// What the arguments ask for, the program's own name being the first of
/// them: the second is the path, and the third, where there is one, the
/// depth.
pub open spec fn invocation_of(args: Seq<Seq<char>>) -> Result<Asked, InvocationError> {
    if args.len() < 2 || args.len() > 3 {
        Err(InvocationError::Usage)
    } else if args.len() == 2 {
        Ok(Asked { path: args[1], max_depth: DEFAULT_MAX_DEPTH })
    } else {
        match depth_of(args[2]) {
            Some(max_depth) => Ok(Asked { path: args[1], max_depth }),
            None => Err(InvocationError::Depth),
        }
    }
}

/// A number grows when a digit is written behind it.
proof fn lemma_decimal_value_grows(digits: Seq<char>, upto: int)
    requires
        0 <= upto <= digits.len(),
        forall|i: int| 0 <= i < digits.len() ==> is_digit(#[trigger] digits[i]),
    ensures
        decimal_value(digits.take(upto)) <= decimal_value(digits),
    decreases digits.len() - upto,
{
    if upto < digits.len() {
        lemma_decimal_value_grows(digits, upto + 1);
        assert(digits.take(upto + 1).drop_last() =~= digits.take(upto));
        assert(is_digit(digits[upto]));
    } else {
        assert(digits.take(upto) =~= digits);
    }
}

/// Reads a depth limit, written as the standard library has a `u32`
/// written: in decimal digits, with or without a plus sign before them.
pub fn parse_depth(text: &str) -> (depth: Option<u32>)
    ensures
        depth == depth_of(text@),
{
    let len = text.unicode_len();
    let mut at: usize = 0;
    if len > 0 && text.get_char(0) == '+' {
        at = 1;
    }
    let first = at;
    let ghost digits = digits_of(text@);
    assert(digits =~= text@.skip(first as int));
    if at == len {
        return None;
    }
    let mut value: u32 = 0;
    while at < len
        invariant
            first <= at <= len,
            len == text@.len(),
            digits == text@.skip(first as int),
            digits == digits_of(text@),
            forall|i: int| 0 <= i < at - first ==> is_digit(#[trigger] digits[i]),
            value == decimal_value(digits.take(at - first)),
        decreases len - at,
    {
        let c = text.get_char(at);
        let code = c as u32;
        assert(c == digits[at - first]);
        if code < '0' as u32 || code > '9' as u32 {
            assert(!is_digit(digits[at - first]));
            return None;
        }
        let digit = code - '0' as u32;
        proof {
            let longer = digits.take(at - first + 1);
            assert(longer.drop_last() =~= digits.take(at - first));
            assert(longer.last() == c);
            assert(decimal_value(longer) == 10 * value + digit);
        }
        if value > (u32::MAX - digit) / 10 {
            proof {
                assert(10 * value + digit > u32::MAX);
                if forall|i: int| 0 <= i < digits.len() ==> is_digit(#[trigger] digits[i]) {
                    lemma_decimal_value_grows(digits, at - first + 1);
                }
            }
            return None;
        }
        value = value * 10 + digit;
        at = at + 1;
    }
    assert(digits.take(at - first) =~= digits);
    Some(value)
}

/// Reads the arguments of the program, its own name being the first of
/// them.
pub fn read_args(args: &Vec<String>) -> (invocation: Result<Invocation, InvocationError>)
    ensures
        match invocation {
            Ok(asked) => invocation_of(args.deep_view()) == Ok::<Asked, InvocationError>(asked@),
            Err(error) => invocation_of(args.deep_view()) == Err::<Asked, InvocationError>(error),
        },
{
    if args.len() < 2 || args.len() > 3 {
        return Err(InvocationError::Usage);
    }
    let path = args[1].clone();
    if args.len() == 2 {
        return Ok(Invocation { path, max_depth: DEFAULT_MAX_DEPTH });
    }
    match parse_depth(args[2].as_str()) {
        Some(max_depth) => Ok(Invocation { path, max_depth }),
        None => Err(InvocationError::Depth),
    }
}

/// The two lines that tell how the program is called, for a program that
/// was called by the name `program`.
pub fn usage(program: &str) -> (lines: Vec<String>)
    ensures
        lines@.len() == 2,
        lines@[0]@ == "Usage: tree PATH"@,
        lines@[1]@ == "Example: "@ + program@ + " path/to/folder [:depth]"@,
{
    let mut lines: Vec<String> = Vec::new();
    lines.push(String::from_str("Usage: tree PATH"));
    let mut example = String::from_str("Example: ");
    example.append(program);
    example.append(" path/to/folder [:depth]");
    lines.push(example);
    lines
}

} // verus!
