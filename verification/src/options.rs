//! The command line: `debug-blargg <test> [--tima-trace] [--max N] [--halt-trace]`.

use crate::text::{chars_of, decimal, digit};
use vstd::prelude::*;

verus! {

/// How many instructions a run executes when the command line does not say.
pub const DEFAULT_MAX_INSTRUCTIONS: u64 = 10_000_000;

/// What a run traces and when it ends.
#[derive(Clone, Copy, Debug)]
pub struct Config {
    /// Report accesses to the timer counter TIMA, and no program counters.
    pub tima_trace: bool,
    /// Report HALT instructions and the time that passes after them.
    pub halt_trace: bool,
    /// The run ends once this many instructions were executed.
    pub max_instructions: u64,
}

/// A command line that names a test.
#[derive(Debug)]
pub struct Options {
    /// A built-in test, or the path of a ROM file.
    pub test_name: String,
    pub config: Config,
}

/// The characters of each argument.
pub open spec fn words(args: Seq<String>) -> Seq<Seq<char>> {
    args.map_values(|a: String| a@)
}

/// Is `c` one of the ten decimal digits?
pub open spec fn is_digit(c: char) -> bool {
    '0' <= c <= '9'
}

/// The number that decimal digits stand for.
pub open spec fn number(digits: Seq<char>) -> nat
    decreases digits.len(),
{
    if digits.len() == 0 {
        0
    } else {
        number(digits.drop_last()) * 10 + (digits.last() as nat - '0' as nat) as nat
    }
}

/// The decimal digits of a written number: an optional plus sign comes off.
pub open spec fn unsigned_part(s: Seq<char>) -> Seq<char> {
    if s.len() > 0 && s[0] == '+' {
        s.skip(1)
    } else {
        s
    }
}

/// The number that `s` writes: one or more decimal digits, after an optional
/// plus sign, whose value fits in 64 bits. Anything else is no number.
pub open spec fn written_number(s: Seq<char>) -> Option<u64> {
    let digits = unsigned_part(s);
    if digits.len() > 0 && (forall|i: int| 0 <= i < digits.len() ==> is_digit(#[trigger] digits[i]))
        && number(digits) <= u64::MAX {
        Some(number(digits) as u64)
    } else {
        None
    }
}

/// The limit that the arguments ask for, from position `i` on. Only the first
/// `--max` that has an argument after it counts: if that argument is no
/// number, the default holds, whatever follows.
pub open spec fn requested_max(args: Seq<Seq<char>>, i: int) -> u64
    decreases args.len() - i,
{
    if i + 1 >= args.len() {
        DEFAULT_MAX_INSTRUCTIONS
    } else if args[i] == "--max"@ {
        match written_number(args[i + 1]) {
            Some(n) => n,
            None => DEFAULT_MAX_INSTRUCTIONS,
        }
    } else {
        requested_max(args, i + 1)
    }
}

/// A prefix of a number is no larger than the number.
proof fn lemma_number_of_prefix(digits: Seq<char>, i: int)
    requires
        0 <= i <= digits.len(),
    ensures
        number(digits.take(i)) <= number(digits),
    decreases digits.len() - i,
{
    if i == digits.len() {
        assert(digits.take(i) =~= digits);
    } else {
        lemma_number_of_prefix(digits, i + 1);
        assert(digits.take(i + 1).drop_last() =~= digits.take(i));
    }
}

/// Reads an unsigned 64-bit number in base ten.
pub fn parse_number(s: &str) -> (n: Option<u64>)
    ensures
        n == written_number(s@),
{
    let chars = chars_of(s);
    let start: usize = if chars.len() > 0 && chars[0] == '+' {
        1
    } else {
        0
    };
    let ghost digits = unsigned_part(s@);
    assert(digits =~= s@.skip(start as int));
    if chars.len() == start {
        return None;
    }
    let mut value: u64 = 0;
    let mut i: usize = start;
    while i < chars.len()
        invariant
            chars@ == s@,
            digits == unsigned_part(s@),
            digits == s@.skip(start as int),
            start <= i <= chars.len(),
            forall|j: int| 0 <= j < i - start ==> is_digit(#[trigger] digits[j]),
            value == number(digits.take(i - start)),
        decreases chars.len() - i,
    {
        let c: char = chars[i];
        assert(c == digits[i - start]);
        if !('0' <= c && c <= '9') {
            return None;
        }
        let d: u64 = (c as u32 - '0' as u32) as u64;
        proof {
            assert(digits.take(i - start + 1).drop_last() =~= digits.take(i - start));
            lemma_number_of_prefix(digits, i - start + 1);
        }
        if value > (u64::MAX - d) / 10 {
            return None;
        }
        value = value * 10 + d;
        i = i + 1;
    }
    assert(digits.take(digits.len() as int) =~= digits);
    Some(value)
}

/// Is `word` among the arguments?
fn has_word(args: &Vec<String>, word: &str) -> (found: bool)
    ensures
        found == words(args@).contains(word@),
{
    let wanted = word.to_owned();
    let mut i: usize = 0;
    while i < args.len()
        invariant
            i <= args.len(),
            wanted@ == word@,
            forall|j: int| 0 <= j < i ==> (#[trigger] words(args@)[j]) != word@,
        decreases args.len() - i,
    {
        if args[i] == wanted {
            assert(words(args@)[i as int] == word@);
            return true;
        }
        i = i + 1;
    }
    false
}

/// Reads the limit on the number of instructions.
fn parse_max(args: &Vec<String>) -> (max: u64)
    ensures
        max == requested_max(words(args@), 0),
{
    let flag = "--max".to_owned();
    let mut i: usize = 0;
    while i < args.len() && i + 1 < args.len()
        invariant
            i <= args.len(),
            flag@ == "--max"@,
            requested_max(words(args@), 0) == requested_max(words(args@), i as int),
        decreases args.len() - i,
    {
        if args[i] == flag {
            assert(words(args@)[i + 1] == args@[i + 1]@);
            return match parse_number(args[i + 1].as_str()) {
                Some(n) => n,
                None => DEFAULT_MAX_INSTRUCTIONS,
            };
        }
        i = i + 1;
    }
    DEFAULT_MAX_INSTRUCTIONS
}

/// The test and the configuration that the words of a command line stand for.
pub open spec fn parsed(args: Seq<Seq<char>>) -> Option<(Seq<char>, Config)> {
    if args.len() < 2 {
        None
    } else {
        Some(
            (
                args[1],
                Config {
                    tima_trace: args.contains("--tima-trace"@),
                    halt_trace: args.contains("--halt-trace"@),
                    max_instructions: requested_max(args, 0),
                },
            ),
        )
    }
}

/// A flag is set by its own word, in full and wherever it stands, and by no
/// other. The test is the word after the program's name, be it a flag or not.
pub proof fn lemma_flags(args: Seq<Seq<char>>)
    ensures
        parsed(args) is None <==> args.len() == 0 || args.len() == 1,
        parsed(args) matches Some((test, config)) ==> {
            &&& test == args[1]
            &&& config.tima_trace <==> exists|i: int|
                0 <= i < args.len() && #[trigger] args[i] == "--tima-trace"@
            &&& config.halt_trace <==> exists|i: int|
                0 <= i < args.len() && #[trigger] args[i] == "--halt-trace"@
            &&& config.max_instructions == requested_max(args, 0)
        },
{
}

/// Reads the command line, in which the program's own name comes first. Without
/// a test there is nothing to run.
///
/// The test is the argument after the program's name. The flags are looked for
/// among all arguments, in any order.
pub fn parse_args(args: &Vec<String>) -> (options: Option<Options>)
    ensures
        options is Some <==> args@.len() >= 2,
        options matches Some(o) ==> {
            &&& o.test_name@ == args@[1]@
            &&& o.config.tima_trace == words(args@).contains("--tima-trace"@)
            &&& o.config.halt_trace == words(args@).contains("--halt-trace"@)
            &&& o.config.max_instructions == requested_max(words(args@), 0)
        },
        match options {
            Some(o) => parsed(words(args@)) == Some((o.test_name@, o.config)),
            None => parsed(words(args@)) is None,
        },
{
    if args.len() < 2 {
        return None;
    }
    Some(
        Options {
            test_name: args[1].clone(),
            config: Config {
                tima_trace: has_word(args, "--tima-trace"),
                halt_trace: has_word(args, "--halt-trace"),
                max_instructions: parse_max(args),
            },
        },
    )
}

/// What is shown in place of a run when no test is named.
pub fn usage() -> (line: String)
    ensures
        line@ == "Usage: debug-blargg <test> [--tima-trace] [--max N] [--halt-trace]"@,
{
    "Usage: debug-blargg <test> [--tima-trace] [--max N] [--halt-trace]".to_owned()
}

/// How it is said that a test has no ROM.
pub open spec fn unknown_test_text(name: Seq<char>) -> Seq<char> {
    "Unknown test: "@ + name
}

/// The line ends with the name, whole and unchanged, so that lines on two names
/// differ.
pub proof fn lemma_unknown_test(a: Seq<char>, b: Seq<char>)
    ensures
        unknown_test_text(a).take(14) == "Unknown test: "@,
        unknown_test_text(a).skip(14) == a,
        unknown_test_text(a) == unknown_test_text(b) ==> a == b,
{
    reveal_strlit("Unknown test: ");
    assert(unknown_test_text(a).take(14) =~= "Unknown test: "@);
    assert(unknown_test_text(a).skip(14) =~= a);
    assert(unknown_test_text(b).skip(14) =~= b);
}

/// What is shown in place of a run when the test has no ROM.
pub fn unknown_test(name: &str) -> (line: String)
    ensures
        line@ == "Unknown test: "@ + name@,
        line@ == unknown_test_text(name@),
{
    let mut line = "Unknown test: ".to_owned();
    line.append(name);
    line
}

/// A decimal digit is written as the character that stands for it.
proof fn lemma_digit(d: nat)
    requires
        d < 10,
    ensures
        is_digit(digit(d)),
        digit(d) as nat - '0' as nat == d,
{
    reveal_strlit("0123456789ABCDEF");
    let c = digit(d);
    assert(c == '0' || c == '1' || c == '2' || c == '3' || c == '4' || c == '5' || c == '6' || c
        == '7' || c == '8' || c == '9');
}

proof fn lemma_decimal_is_number(n: nat)
    ensures
        decimal(n).len() > 0,
        forall|i: int| 0 <= i < decimal(n).len() ==> is_digit(#[trigger] decimal(n)[i]),
        number(decimal(n)) == n,
    decreases n,
{
    reveal_with_fuel(number, 2);
    lemma_digit(n % 10);
    if n < 10 {
        assert(decimal(n).drop_last() =~= Seq::<char>::empty());
    } else {
        lemma_decimal_is_number(n / 10);
        assert(decimal(n).drop_last() =~= decimal(n / 10));
    }
}

/// A number that was written in base ten reads back as itself, with a plus sign
/// before it or without.
pub proof fn lemma_written_numbers_read_back(n: u64)
    ensures
        written_number(decimal(n as nat)) == Some(n),
        written_number(seq!['+'] + decimal(n as nat)) == Some(n),
{
    lemma_decimal_is_number(n as nat);
    let s = decimal(n as nat);
    assert(is_digit(s[0]));
    assert((seq!['+'] + s).skip(1) =~= s);
}

/// The first `--max` that has an argument after it decides the limit.
pub proof fn lemma_first_max_decides(args: Seq<Seq<char>>, i: int)
    requires
        0 <= i,
        i + 1 < args.len(),
        args[i] == "--max"@,
        forall|j: int| 0 <= j < i ==> #[trigger] args[j] != "--max"@,
    ensures
        requested_max(args, 0) == (match written_number(args[i + 1]) {
            Some(n) => n,
            None => DEFAULT_MAX_INSTRUCTIONS,
        }),
{
    lemma_max_is_later(args, i);
}

/// Without a `--max` that has an argument after it, the default limit holds.
pub proof fn lemma_default_max(args: Seq<Seq<char>>)
    requires
        forall|j: int| 0 <= j < args.len() - 1 ==> #[trigger] args[j] != "--max"@,
    ensures
        requested_max(args, 0) == DEFAULT_MAX_INSTRUCTIONS,
{
    if args.len() > 0 {
        lemma_max_is_later(args, args.len() - 1);
    }
}

proof fn lemma_max_is_later(args: Seq<Seq<char>>, i: int)
    requires
        0 <= i < args.len(),
        forall|j: int| 0 <= j < i ==> #[trigger] args[j] != "--max"@,
    ensures
        requested_max(args, 0) == requested_max(args, i),
    decreases i,
{
    if i > 0 {
        lemma_max_is_later(args, i - 1);
        assert(args[i - 1] != "--max"@);
    }
}

} // verus!
