//! Reads numbers and pieces back out of text, and proves that what is written on
//! a line, searched for or taken from the command line is what a reader finds
//! there.

use crate::options::{
    is_digit, lemma_default_max, lemma_first_max_decides, number, requested_max, unsigned_part,
    words, written_number,
};
use crate::text::{comma_separated, decimal, digit, hex, occurs, occurs_at, pad_left};
use vstd::prelude::*;

verus! {

/// What a digit stands for: `0` to `9`, then `A` to `F`.
pub open spec fn digit_value(c: char) -> Option<nat> {
    if '0' <= c <= '9' {
        Some((c as nat - '0' as nat) as nat)
    } else if 'A' <= c <= 'F' {
        Some((c as nat - 'A' as nat + 10) as nat)
    } else {
        None
    }
}

/// Is `s` made of digits of the base, and of at least one?
pub open spec fn is_numeral(s: Seq<char>, base: nat) -> bool {
    s.len() > 0 && (forall|i: int|
        0 <= i < s.len() ==> digit_value(#[trigger] s[i]) is Some && digit_value(s[i])->0 < base)
}

/// The number that the digits stand for.
pub open spec fn value(s: Seq<char>, base: nat) -> nat
    decreases s.len(),
{
    if s.len() == 0 {
        0
    } else {
        value(s.drop_last(), base) * base + digit_value(s.last())->0
    }
}

/// Is `s` the number `n` in base ten, without superfluous zeros?
pub open spec fn reads_as_decimal(s: Seq<char>, n: nat) -> bool {
    is_numeral(s, 10) && value(s, 10) == n && (s.len() > 1 ==> s[0] != '0')
}

/// Is `s` the number `n` in base sixteen, with zeros before it only up to
/// `width` characters?
pub open spec fn reads_as_hex(s: Seq<char>, width: nat, n: nat) -> bool {
    is_numeral(s, 16) && value(s, 16) == n && s.len() >= width && (s.len() > width && s.len() > 1
        ==> s[0] != '0')
}

/// Is `s` the number `n` in base ten, with spaces before it only up to `width`
/// characters?
pub open spec fn reads_as_column(s: Seq<char>, width: nat, n: nat) -> bool {
    exists|k: int|
        {
            &&& 0 <= k < s.len()
            &&& #[trigger] reads_as_decimal(s.skip(k), n)
            &&& forall|i: int| 0 <= i < k ==> #[trigger] s[i] == ' '
            &&& s.len() >= width
            &&& s.len() > width ==> k == 0
        }
}

/// Is `piece` somewhere in `s`?
pub open spec fn holds(s: Seq<char>, piece: Seq<char>) -> bool {
    exists|a: Seq<char>, b: Seq<char>| s == #[trigger] (a + piece + b)
}

// Searching.

/// A search finds a piece exactly where the text falls into something before
/// the piece, the piece itself and something after it.
pub proof fn lemma_search(s: Seq<char>, piece: Seq<char>)
    ensures
        occurs(s, piece) <==> holds(s, piece),
{
    if occurs(s, piece) {
        let i = choose|i: int| #[trigger] occurs_at(s, piece, i);
        assert(s =~= s.take(i) + piece + s.skip(i + piece.len()));
    }
    if holds(s, piece) {
        let (a, b) = choose|a: Seq<char>, b: Seq<char>| s == #[trigger] (a + piece + b);
        assert(s.subrange(a.len() as int, (a.len() + piece.len()) as int) =~= piece);
        assert(occurs_at(s, piece, a.len() as int));
    }
}

// Writing numbers.

proof fn lemma_digit_value(d: nat)
    requires
        d < 16,
    ensures
        digit_value(digit(d)) == Some(d),
        digit(d) == '0' <==> d == 0,
{
    reveal_strlit("0123456789ABCDEF");
    if d < 8 {
        if d < 4 {
            assert(d == 0 || d == 1 || d == 2 || d == 3);
        } else {
            assert(d == 4 || d == 5 || d == 6 || d == 7);
        }
    } else {
        if d < 12 {
            assert(d == 8 || d == 9 || d == 10 || d == 11);
        } else {
            assert(d == 12 || d == 13 || d == 14 || d == 15);
        }
    }
}

proof fn lemma_value_push(s: Seq<char>, c: char, base: nat)
    ensures
        value(s.push(c), base) == value(s, base) * base + digit_value(c)->0,
{
    assert(s.push(c).drop_last() =~= s);
}

/// What is written in base ten reads as the number that was written.
pub proof fn lemma_decimal_reads_back(n: nat)
    ensures
        reads_as_decimal(decimal(n), n),
        n > 0 ==> decimal(n)[0] != '0',
    decreases n,
{
    lemma_digit_value(n % 10);
    if n < 10 {
        assert(decimal(n) =~= Seq::<char>::empty().push(digit(n)));
        lemma_value_push(Seq::<char>::empty(), digit(n), 10);
        assert(value(decimal(n), 10) == n);
    } else {
        lemma_decimal_reads_back(n / 10);
        lemma_value_push(decimal(n / 10), digit(n % 10), 10);
        let s = decimal(n);
        let t = decimal(n / 10);
        assert(s == t.push(digit(n % 10)));
        assert(s[0] == t[0]);
        assert forall|i: int| 0 <= i < s.len() implies digit_value(#[trigger] s[i]) is Some
            && digit_value(s[i])->0 < 10 by {
            if i < t.len() {
                assert(s[i] == t[i]);
            }
        }
        assert(value(s, 10) == n);
    }
}

proof fn lemma_hex_numeral(n: nat)
    ensures
        reads_as_hex(hex(n), 0, n),
        n > 0 ==> hex(n)[0] != '0',
    decreases n,
{
    lemma_digit_value(n % 16);
    if n < 16 {
        assert(hex(n) =~= Seq::<char>::empty().push(digit(n)));
        lemma_value_push(Seq::<char>::empty(), digit(n), 16);
        assert(value(hex(n), 16) == n);
    } else {
        lemma_hex_numeral(n / 16);
        lemma_value_push(hex(n / 16), digit(n % 16), 16);
        let s = hex(n);
        let t = hex(n / 16);
        assert(s == t.push(digit(n % 16)));
        assert(s[0] == t[0]);
        assert forall|i: int| 0 <= i < s.len() implies digit_value(#[trigger] s[i]) is Some
            && digit_value(s[i])->0 < 16 by {
            if i < t.len() {
                assert(s[i] == t[i]);
            }
        }
        assert(value(s, 16) == n);
    }
}

proof fn lemma_value_of_padded(s: Seq<char>, k: nat, base: nat)
    requires
        is_numeral(s, base),
    ensures
        value(Seq::new(k, |i: int| '0') + s, base) == value(s, base),
    decreases s.len(),
{
    let zeros = Seq::new(k, |i: int| '0');
    if s.len() == 1 {
        lemma_value_of_zeros(k, base);
        assert((zeros + s).drop_last() =~= zeros);
        assert(s.drop_last() =~= Seq::<char>::empty());
        assert(value(zeros, base) * base == 0) by (nonlinear_arith)
            requires
                value(zeros, base) == 0,
        ;
        assert(value(s.drop_last(), base) * base == 0) by (nonlinear_arith)
            requires
                value(s.drop_last(), base) == 0,
        ;
    } else {
        assert((zeros + s).drop_last() =~= zeros + s.drop_last());
        lemma_value_of_padded(s.drop_last(), k, base);
    }
}

proof fn lemma_value_of_zeros(k: nat, base: nat)
    ensures
        value(Seq::new(k, |i: int| '0'), base) == 0,
    decreases k,
{
    let zeros = Seq::new(k, |i: int| '0');
    if k > 0 {
        let rest = Seq::new((k - 1) as nat, |i: int| '0');
        lemma_value_of_zeros((k - 1) as nat, base);
        assert(zeros.drop_last() =~= rest);
        assert(value(rest, base) * base == 0) by (nonlinear_arith)
            requires
                value(rest, base) == 0,
        ;
    }
}

/// What is written in base sixteen reads as the number that was written.
pub proof fn lemma_hex_reads_back(n: nat, width: nat)
    ensures
        reads_as_hex(pad_left(hex(n), width, '0'), width, n),
{
    lemma_hex_numeral(n);
    if hex(n).len() < width {
        lemma_value_of_padded(hex(n), (width - hex(n).len()) as nat, 16);
    }
}

/// What is written in a column reads as the number that was written.
pub proof fn lemma_column_reads_back(n: nat, width: nat)
    ensures
        reads_as_column(pad_left(decimal(n), width, ' '), width, n),
{
    lemma_decimal_reads_back(n);
    let s = pad_left(decimal(n), width, ' ');
    let k = s.len() - decimal(n).len();
    assert(s.skip(k) =~= decimal(n));
    assert(reads_as_decimal(s.skip(k), n));
}

proof fn lemma_value_is_positive(s: Seq<char>, base: nat)
    requires
        is_numeral(s, base),
        s[0] != '0',
    ensures
        value(s, base) > 0,
        s.len() > 1 ==> value(s, base) >= base,
    decreases s.len(),
{
    if s.len() > 1 {
        lemma_value_is_positive(s.drop_last(), base);
        assert(value(s.drop_last(), base) * base >= base) by (nonlinear_arith)
            requires
                value(s.drop_last(), base) > 0,
        ;
    } else {
        assert(s.drop_last().len() == 0);
        assert(value(s.drop_last(), base) * base == 0) by (nonlinear_arith)
            requires
                value(s.drop_last(), base) == 0,
        ;
    }
}

proof fn lemma_last_digits(s: Seq<char>, t: Seq<char>, base: nat)
    requires
        is_numeral(s, base),
        is_numeral(t, base),
        value(s, base) == value(t, base),
    ensures
        s.last() == t.last(),
        value(s.drop_last(), base) == value(t.drop_last(), base),
{
    let a = value(s.drop_last(), base);
    let b = value(t.drop_last(), base);
    let x = digit_value(s[s.len() - 1])->0;
    let y = digit_value(t[t.len() - 1])->0;
    assert(a == b && x == y) by (nonlinear_arith)
        requires
            a * base + x == b * base + y,
            x < base,
            y < base,
    ;
}

/// Digits of one length that stand for the same number are the same.
pub proof fn lemma_same_digits(s: Seq<char>, t: Seq<char>, base: nat)
    requires
        is_numeral(s, base),
        is_numeral(t, base),
        s.len() == t.len(),
        value(s, base) == value(t, base),
    ensures
        s == t,
    decreases s.len(),
{
    lemma_last_digits(s, t, base);
    if s.len() > 1 {
        lemma_same_digits(s.drop_last(), t.drop_last(), base);
        assert(s =~= s.drop_last().push(s.last()));
        assert(t =~= t.drop_last().push(t.last()));
    } else {
        assert(s =~= t);
    }
}

/// A number has one way to be written in base ten.
pub proof fn lemma_one_decimal(s: Seq<char>, t: Seq<char>, n: nat)
    requires
        reads_as_decimal(s, n),
        reads_as_decimal(t, n),
    ensures
        s == t,
    decreases s.len(),
{
    lemma_last_digits(s, t, 10);
    if s.len() > 1 {
        lemma_value_is_positive(s, 10);
    }
    if t.len() > 1 {
        lemma_value_is_positive(t, 10);
    }
    if s.len() > 1 && t.len() > 1 {
        lemma_one_decimal(s.drop_last(), t.drop_last(), value(s.drop_last(), 10));
        assert(s =~= s.drop_last().push(s.last()));
        assert(t =~= t.drop_last().push(t.last()));
    } else if s.len() == 1 && t.len() == 1 {
        assert(s =~= t);
    } else {
        let one = if s.len() == 1 { s } else { t };
        assert(one.drop_last().len() == 0);
        assert(value(one, 10) < 10);
    }
}

/// Bytes are written one like the other: a list falls into its parts, with a
/// comma and a space between them, down to single numbers.
pub proof fn lemma_lists_split(a: Seq<u8>, b: Seq<u8>)
    ensures
        a.len() > 0 && b.len() > 0 ==> comma_separated(a + b) == comma_separated(a) + ", "@
            + comma_separated(b),
        a.len() == 1 ==> reads_as_decimal(comma_separated(a), a[0] as nat),
        a.len() == 0 ==> comma_separated(a).len() == 0,
    decreases b.len(),
{
    if a.len() == 1 {
        lemma_decimal_reads_back(a[0] as nat);
    }
    if a.len() > 0 && b.len() > 0 {
        assert((a + b).drop_last() =~= a + b.drop_last());
        assert((a + b).last() == b.last());
        if b.len() == 1 {
            assert(a + b.drop_last() =~= a);
        } else {
            lemma_lists_split(a, b.drop_last());
            assert(comma_separated(a + b) =~= comma_separated(a) + ", "@ + comma_separated(b));
        }
    }
}

// The command line.

proof fn lemma_number_is_value(s: Seq<char>)
    requires
        forall|i: int| 0 <= i < s.len() ==> is_digit(#[trigger] s[i]),
    ensures
        number(s) == value(s, 10),
    decreases s.len(),
{
    if s.len() > 0 {
        assert forall|i: int| 0 <= i < s.drop_last().len() implies is_digit(
            #[trigger] s.drop_last()[i],
        ) by {
            assert(is_digit(s[i]));
        }
        assert(is_digit(s[s.len() - 1]));
        lemma_number_is_value(s.drop_last());
    }
}

/// Does `s` write `n`: decimal digits, as many as one likes but at least one,
/// after a plus sign or without?
pub open spec fn writes_number(s: Seq<char>, n: nat) -> bool {
    exists|digits: Seq<char>|
        {
            &&& #[trigger] is_numeral(digits, 10)
            &&& value(digits, 10) == n
            &&& s == digits || s == seq!['+'] + digits
        }
}

/// A word is taken for a number exactly where a reader finds that number in it.
pub proof fn lemma_numbers_are_read(s: Seq<char>, n: u64)
    ensures
        written_number(s) == Some(n) <==> writes_number(s, n as nat),
{
    let digits = unsigned_part(s);
    if written_number(s) == Some(n) {
        assert(is_numeral(digits, 10)) by {
            assert forall|i: int| 0 <= i < digits.len() implies digit_value(
                #[trigger] digits[i],
            ) is Some && digit_value(digits[i])->0 < 10 by {
                assert(is_digit(digits[i]));
            }
        }
        lemma_number_is_value(digits);
        if s[0] == '+' {
            assert(s =~= seq!['+'] + digits);
        }
    }
    if writes_number(s, n as nat) {
        let d = choose|d: Seq<char>|
            {
                &&& #[trigger] is_numeral(d, 10)
                &&& value(d, 10) == n
                &&& s == d || s == seq!['+'] + d
            };
        assert(digit_value(d[0]) is Some);
        if s == seq!['+'] + d {
            assert(s.skip(1) =~= d);
        }
        assert(digits == d);
        assert forall|i: int| 0 <= i < digits.len() implies is_digit(#[trigger] digits[i]) by {
            assert(digit_value(d[i])->0 < 10);
        }
        lemma_number_is_value(digits);
    }
}

/// Each argument is one word, in the order in which they stand.
pub proof fn lemma_words_are_the_arguments(args: Seq<String>)
    ensures
        words(args).len() == args.len(),
        forall|i: int| 0 <= i < args.len() ==> #[trigger] words(args)[i] == args[i]@,
{
}

/// The limit is the number that stands after the first `--max`; ten million if
/// that is no number or there is no such place.
pub proof fn lemma_limit(args: Seq<Seq<char>>, i: int)
    requires
        0 <= i < args.len(),
        forall|j: int| 0 <= j < i ==> #[trigger] args[j] != "--max"@,
    ensures
        i + 1 == args.len() ==> requested_max(args, 0) == 10_000_000,
        i + 1 < args.len() && args[i] == "--max"@ ==> {
            ||| writes_number(args[i + 1], requested_max(args, 0) as nat)
            ||| requested_max(args, 0) == 10_000_000 && (forall|n: nat|
                n <= u64::MAX ==> !#[trigger] writes_number(args[i + 1], n))
        },
{
    if i + 1 == args.len() {
        lemma_default_max(args);
    } else if args[i] == "--max"@ {
        lemma_first_max_decides(args, i);
        match written_number(args[i + 1]) {
            Some(n) => {
                lemma_numbers_are_read(args[i + 1], n);
            },
            None => {
                assert forall|n: nat| n <= u64::MAX implies !#[trigger] writes_number(
                    args[i + 1],
                    n,
                ) by {
                    lemma_numbers_are_read(args[i + 1], n as u64);
                }
            },
        }
    }
}

} // verus!
