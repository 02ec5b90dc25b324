//! Numbers and substrings: how values are written on a trace line, and how
//! text is searched and read back.

use vstd::prelude::*;

verus! {

/// The digit for `d`, in upper case above nine.
pub open spec fn digit(d: nat) -> char {
    "0123456789ABCDEF"@[d as int]
}

/// `n` in base ten, without leading zeros.
pub open spec fn decimal(n: nat) -> Seq<char>
    decreases n,
{
    if n < 10 {
        seq![digit(n)]
    } else {
        decimal(n / 10).push(digit(n % 10))
    }
}

/// `n` in base sixteen, in upper case, without leading zeros.
pub open spec fn hex(n: nat) -> Seq<char>
    decreases n,
{
    if n < 16 {
        seq![digit(n)]
    } else {
        hex(n / 16).push(digit(n % 16))
    }
}

/// `s` brought to at least `width` characters with `fill` on its left.
pub open spec fn pad_left(s: Seq<char>, width: nat, fill: char) -> Seq<char> {
    if s.len() < width {
        Seq::new((width - s.len()) as nat, |i: int| fill) + s
    } else {
        s
    }
}

/// A truth value as a word.
pub open spec fn word(b: bool) -> Seq<char> {
    if b {
        "true"@
    } else {
        "false"@
    }
}

/// Bytes in base ten, with a comma and a space between two of them.
pub open spec fn comma_separated(bytes: Seq<u8>) -> Seq<char>
    decreases bytes.len(),
{
    if bytes.len() == 0 {
        Seq::empty()
    } else if bytes.len() == 1 {
        decimal(bytes[0] as nat)
    } else {
        comma_separated(bytes.drop_last()) + ", "@ + decimal(bytes.last() as nat)
    }
}

/// Does `pattern` occur in `s`, as one uninterrupted piece?
pub open spec fn occurs(s: Seq<char>, pattern: Seq<char>) -> bool {
    exists|i: int| #[trigger] occurs_at(s, pattern, i)
}

/// Does `pattern` occur in `s` from position `i` on?
pub open spec fn occurs_at(s: Seq<char>, pattern: Seq<char>, i: int) -> bool {
    0 <= i && i + pattern.len() <= s.len() && s.subrange(i, i + pattern.len()) == pattern
}

/// The characters of a string, one by one.
pub fn chars_of(s: &str) -> (chars: Vec<char>)
    ensures
        chars@ == s@,
{
    let mut chars: Vec<char> = Vec::new();
    for c in it: s.chars()
        invariant
            it.seq() == s@,
            chars@ == s@.take(it.index() as int),
    {
        chars.push(c);
    }
    chars
}

/// Do the two strings hold the same characters?
pub fn same_text(a: &str, b: &str) -> (same: bool)
    ensures
        same == (a@ == b@),
{
    a.to_owned() == b.to_owned()
}

/// Searches `s` for `pattern`.
pub fn contains(s: &str, pattern: &str) -> (found: bool)
    ensures
        found == occurs(s@, pattern@),
{
    let s_chars = chars_of(s);
    let p_chars = chars_of(pattern);
    let mut i: usize = 0;
    while p_chars.len() <= s_chars.len() - i
        invariant
            s_chars@ == s@,
            p_chars@ == pattern@,
            i <= s_chars.len(),
            forall|j: int| 0 <= j < i ==> !#[trigger] occurs_at(s@, pattern@, j),
        decreases s_chars.len() - i,
    {
        let mut k: usize = 0;
        while k < p_chars.len() && s_chars[i + k] == p_chars[k]
            invariant
                s_chars@ == s@,
                p_chars@ == pattern@,
                i + p_chars.len() <= s_chars.len(),
                k <= p_chars.len(),
                forall|j: int| 0 <= j < k ==> s@[i + j] == #[trigger] pattern@[j],
            decreases p_chars.len() - k,
        {
            k = k + 1;
        }
        if k == p_chars.len() {
            assert(s@.subrange(i as int, i + pattern@.len()) =~= pattern@);
            assert(occurs_at(s@, pattern@, i as int));
            return true;
        }
        assert(!occurs_at(s@, pattern@, i as int)) by {
            assert(s@.subrange(i as int, i + pattern@.len())[k as int] == s@[i + k]);
        }
        i = i + 1;
    }
    false
}

/// Appends one digit.
fn push_digit(out: &mut String, d: u64)
    requires
        d < 16,
    ensures
        final(out)@ == old(out)@.push(digit(d as nat)),
{
    proof {
        reveal_strlit("0123456789ABCDEF");
        reveal_strlit("0");
        reveal_strlit("1");
        reveal_strlit("2");
        reveal_strlit("3");
        reveal_strlit("4");
        reveal_strlit("5");
        reveal_strlit("6");
        reveal_strlit("7");
        reveal_strlit("8");
        reveal_strlit("9");
        reveal_strlit("A");
        reveal_strlit("B");
        reveal_strlit("C");
        reveal_strlit("D");
        reveal_strlit("E");
        reveal_strlit("F");
    }
    let text: &str = match d {
        0 => "0",
        1 => "1",
        2 => "2",
        3 => "3",
        4 => "4",
        5 => "5",
        6 => "6",
        7 => "7",
        8 => "8",
        9 => "9",
        10 => "A",
        11 => "B",
        12 => "C",
        13 => "D",
        14 => "E",
        _ => "F",
    };
    assert(text@ =~= seq![digit(d as nat)]);
    out.append(text);
}

/// Appends `n` in base ten.
pub fn push_decimal(out: &mut String, n: u64)
    ensures
        final(out)@ == old(out)@ + decimal(n as nat),
    decreases n,
{
    if n >= 10 {
        push_decimal(out, n / 10);
    }
    push_digit(out, n % 10);
}

/// How many digits `n` has in base ten.
fn decimal_len(n: u64) -> (len: u64)
    ensures
        len == decimal(n as nat).len(),
{
    let mut rest: u64 = n;
    let mut len: u64 = 1;
    while rest >= 10
        invariant
            decimal(n as nat).len() == decimal(rest as nat).len() + len - 1,
            1 <= len,
            len + rest <= n + 1,
        decreases rest,
    {
        rest = rest / 10;
        len = len + 1;
    }
    len
}

/// Appends `n` in base ten, with spaces before it up to `width` characters.
pub fn push_decimal_padded(out: &mut String, n: u64, width: u64)
    ensures
        final(out)@ == old(out)@ + pad_left(decimal(n as nat), width as nat, ' '),
{
    let len: u64 = decimal_len(n);
    let mut i: u64 = len;
    while i < width
        invariant
            len <= i,
            i == len || i <= width,
            out@ == old(out)@ + Seq::new((i - len) as nat, |j: int| ' '),
        decreases width - i,
    {
        proof {
            reveal_strlit(" ");
        }
        out.append(" ");
        i = i + 1;
        assert(out@ =~= old(out)@ + Seq::new((i - len) as nat, |j: int| ' '));
    }
    push_decimal(out, n);
    assert(out@ =~= old(out)@ + pad_left(decimal(n as nat), width as nat, ' '));
}

proof fn lemma_pad_hex(n: nat, width: nat)
    ensures
        pad_left(hex(n), width, '0') == (if n < 16 && width <= 1 {
            seq![digit(n)]
        } else {
            pad_left(hex(n / 16), if width > 0 { (width - 1) as nat } else { 0 }, '0').push(
                digit(n % 16),
            )
        }),
{
    reveal_strlit("0123456789ABCDEF");
    if n < 16 {
        assert(hex(0) == seq!['0']);
        if width > 1 {
            assert(pad_left(hex(n), width, '0') =~= pad_left(
                hex(0),
                (width - 1) as nat,
                '0',
            ).push(digit(n)));
        }
    } else {
        let rest = if width > 0 { (width - 1) as nat } else { 0 };
        assert(hex(n) == hex(n / 16).push(digit(n % 16)));
        assert(pad_left(hex(n), width, '0') =~= pad_left(hex(n / 16), rest, '0').push(
            digit(n % 16),
        ));
    }
}

/// Appends `n` in base sixteen, with zeros before it up to `width` characters.
pub fn push_hex_padded(out: &mut String, n: u16, width: usize)
    ensures
        final(out)@ == old(out)@ + pad_left(hex(n as nat), width as nat, '0'),
    decreases width, n,
{
    proof {
        lemma_pad_hex(n as nat, width as nat);
    }
    if n >= 16 || width > 1 {
        push_hex_padded(out, n / 16, if width > 0 { width - 1 } else { 0 });
    }
    push_digit(out, (n % 16) as u64);
}

/// Appends `true` or `false`.
pub fn push_word(out: &mut String, b: bool)
    ensures
        final(out)@ == old(out)@ + word(b),
{
    if b {
        out.append("true");
    } else {
        out.append("false");
    }
}

/// Appends the bytes in base ten, with a comma and a space between two of them.
pub fn push_bytes(out: &mut String, bytes: &Vec<u8>)
    ensures
        final(out)@ == old(out)@ + comma_separated(bytes@),
{
    let mut i: usize = 0;
    while i < bytes.len()
        invariant
            i <= bytes.len(),
            out@ == old(out)@ + comma_separated(bytes@.take(i as int)),
        decreases bytes.len() - i,
    {
        let ghost done = bytes@.take(i as int);
        let ghost more = bytes@.take(i + 1);
        assert(more.drop_last() =~= done);
        if i > 0 {
            out.append(", ");
        }
        push_decimal(out, bytes[i] as u64);
        assert(out@ =~= old(out)@ + comma_separated(more));
        i = i + 1;
    }
    assert(bytes@.take(bytes@.len() as int) =~= bytes@);
}

} // verus!
