//! Text as sequences of characters: ASCII strings seen byte by byte, and
//! unsigned decimal numbers in both directions.

use vstd::prelude::*;
use vstd::string::*;

verus! {

/// `String::push` appends one character: the string then holds what it
/// held before, and that character at its end.
pub assume_specification[ String::push ](s: &mut String, c: char)
    ensures
        final(s)@ == old(s)@.push(c),
;

/// The bytes of an ASCII string, one per character.
pub open spec fn ascii_bytes(s: Seq<char>) -> Seq<u8> {
    Seq::new(s.len(), |i: int| s[i] as u8)
}

/// Borrows the bytes of an ASCII string; each byte is the code of the
/// character at the same position.
pub(crate) fn bytes_of_ascii(s: &str) -> (bytes: &[u8])
    requires
        s.is_ascii(),
    ensures
        bytes@ == ascii_bytes(s@),
        forall|i: int| 0 <= i < s@.len() ==> #[trigger] bytes@[i] < 128 && bytes@[i] as char == s@[i],
{
    broadcast use is_ascii_spec_bytes;

    let bytes = s.as_bytes();
    assert(bytes@ =~= ascii_bytes(s@));
    bytes
}

/// The code of the digit `0`.
pub const ZERO: u8 = 48;

/// The code of the digit `9`.
pub const NINE: u8 = 57;

/// True of the ten characters `0` to `9`.
pub open spec fn is_digit(c: char) -> bool {
    '0' <= c && c <= '9'
}

/// The number that a digit stands for.
pub open spec fn digit_value(c: char) -> nat {
    (c as int - '0' as int) as nat
}

/// The digit that stands for a number below ten.
pub open spec fn digit_char(d: nat) -> char {
    (d + '0' as nat) as char
}

/// True when every character is a digit; the empty text qualifies.
pub open spec fn all_digits(s: Seq<char>) -> bool {
    forall|i: int| 0 <= i < s.len() ==> is_digit(#[trigger] s[i])
}

/// The value of a text of digits read as a decimal number; the empty text
/// has the value 0.
pub open spec fn decimal_value(s: Seq<char>) -> nat
    decreases s.len(),
{
    if s.len() == 0 {
        0
    } else {
        decimal_value(s.drop_last()) * 10 + digit_value(s.last())
    }
}

/// The shortest decimal text of a number: no leading zero, and `"0"` for 0.
pub open spec fn decimal_text(n: nat) -> Seq<char>
    decreases n,
{
    if n < 10 {
        seq![digit_char(n)]
    } else {
        decimal_text(n / 10).push(digit_char(n % 10))
    }
}

/// Writing a number and reading it back gives the number again, and what is
/// written is a non-empty text of digits.
pub proof fn lemma_decimal_round_trip(n: nat)
    ensures
        decimal_text(n).len() > 0,
        all_digits(decimal_text(n)),
        decimal_value(decimal_text(n)) == n,
    decreases n,
{
    if n < 10 {
        let t = decimal_text(n);
        assert(t.drop_last() =~= Seq::<char>::empty());
        assert(decimal_value(t.drop_last()) == 0);
    } else {
        lemma_decimal_round_trip(n / 10);
        let t = decimal_text(n);
        assert(t.drop_last() =~= decimal_text(n / 10));
    }
}

/// A prefix of a text of digits has at most the value of the whole text.
pub proof fn lemma_decimal_prefix(s: Seq<char>, k: int)
    requires
        0 <= k <= s.len(),
    ensures
        decimal_value(s.take(k)) <= decimal_value(s),
    decreases s.len(),
{
    if k == s.len() {
        assert(s.take(k) =~= s);
    } else {
        lemma_decimal_prefix(s.drop_last(), k);
        assert(s.drop_last().take(k) =~= s.take(k));
    }
}

/// What a text says as an unsigned 64-bit decimal number: a value only for a
/// non-empty text of digits whose value fits.
pub open spec fn decimal_number(s: Seq<char>) -> Option<u64> {
    if s.len() > 0 && all_digits(s) && decimal_value(s) <= u64::MAX {
        Some(decimal_value(s) as u64)
    } else {
        None
    }
}

/// Reads an unsigned decimal number. Signs, blanks and anything else that is
/// not a digit are refused, and so is a number above `u64::MAX`.
pub fn parse_decimal(s: &str) -> (res: Option<u64>)
    ensures
        res == decimal_number(s@),
{
    if !s.is_ascii() {
        assert(!all_digits(s@)) by {
            if all_digits(s@) {
                assert forall|i: int| 0 <= i < s@.len() implies '\0' <= #[trigger] s@[i] <= '\u{7f}' by {
                    assert(is_digit(s@[i]));
                }
            }
        }
        return None;
    }
    let bytes = bytes_of_ascii(s);
    let n = bytes.len();
    if n == 0 {
        return None;
    }
    let mut acc: u64 = 0;
    let mut i: usize = 0;
    while i < n
        invariant
            n == s@.len(),
            bytes@ == ascii_bytes(s@),
            forall|j: int| 0 <= j < s@.len() ==> #[trigger] bytes@[j] < 128 && bytes@[j] as char == s@[j],
            0 <= i <= n,
            all_digits(s@.take(i as int)),
            acc == decimal_value(s@.take(i as int)),
        decreases n - i,
    {
        let b = bytes[i];
        if b < ZERO || b > NINE {
            assert(!is_digit(s@[i as int]));
            return None;
        }
        let d: u64 = (b - ZERO) as u64;
        proof {
            let next = s@.take(i + 1);
            assert(next.drop_last() =~= s@.take(i as int));
            assert(next.last() == s@[i as int]);
            assert(digit_value(s@[i as int]) == d);
            lemma_decimal_prefix(s@, i + 1);
        }
        if acc > (u64::MAX - d) / 10 {
            return None;
        }
        acc = acc * 10 + d;
        i += 1;
    }
    assert(s@.take(n as int) =~= s@);
    Some(acc)
}

/// Appends the decimal text of `n`.
pub fn push_decimal(out: &mut String, n: u64)
    ensures
        final(out)@ == old(out)@ + decimal_text(n as nat),
    decreases n,
{
    if n >= 10 {
        push_decimal(out, n / 10);
    }
    let d: u8 = (n % 10) as u8;
    out.push((ZERO + d) as char);
    assert(final(out)@ =~= old(out)@ + decimal_text(n as nat));
}

/// The decimal text of `n` as a new string.
pub fn to_decimal(n: u64) -> (res: String)
    ensures
        res@ == decimal_text(n as nat),
{
    let mut out = String::new();
    push_decimal(&mut out, n);
    assert(out@ =~= decimal_text(n as nat));
    out
}

/// Where `c` first stands in `s`; the length of `s` where it stands nowhere.
pub open spec fn find_char(s: Seq<char>, c: char) -> int
    decreases s.len(),
{
    if s.len() == 0 || s[0] == c {
        0
    } else {
        1 + find_char(s.drop_first(), c)
    }
}

/// `find_char` is the one position before which `c` does not occur and at
/// which it does, or the text ends.
pub proof fn lemma_find_char(s: Seq<char>, c: char, at: int)
    requires
        0 <= at <= s.len(),
        forall|j: int| 0 <= j < at ==> s[j] != c,
        at == s.len() || s[at] == c,
    ensures
        find_char(s, c) == at,
    decreases s.len(),
{
    if s.len() == 0 || s[0] == c {
    } else {
        let rest = s.drop_first();
        assert forall|j: int| 0 <= j < at - 1 implies rest[j] != c by {
            assert(rest[j] == s[j + 1]);
        }
        lemma_find_char(rest, c, at - 1);
    }
}

/// Where `find_char` points within the text, `c` stands, and nowhere
/// before.
pub proof fn lemma_find_char_found(s: Seq<char>, c: char)
    ensures
        0 <= find_char(s, c) <= s.len(),
        find_char(s, c) < s.len() ==> s[find_char(s, c)] == c,
        forall|j: int| 0 <= j < find_char(s, c) ==> s[j] != c,
    decreases s.len(),
{
    if s.len() == 0 || s[0] == c {
    } else {
        let rest = s.drop_first();
        lemma_find_char_found(rest, c);
        assert forall|j: int| 0 <= j < find_char(s, c) implies s[j] != c by {
            if j > 0 {
                assert(rest[j - 1] == s[j]);
            }
        }
    }
}

/// Tells whether `s` begins with `prefix`.
pub(crate) fn has_prefix(s: &str, prefix: &str) -> (res: bool)
    requires
        s.is_ascii(),
        prefix.is_ascii(),
    ensures
        res == prefix@.is_prefix_of(s@),
{
    let a = bytes_of_ascii(s);
    let p = bytes_of_ascii(prefix);
    if p.len() > a.len() {
        return false;
    }
    let mut i: usize = 0;
    while i < p.len()
        invariant
            p@.len() == prefix@.len(),
            a@.len() == s@.len(),
            p@.len() <= a@.len(),
            forall|j: int| 0 <= j < s@.len() ==> #[trigger] a@[j] < 128 && a@[j] as char == s@[j],
            forall|j: int| 0 <= j < prefix@.len() ==> #[trigger] p@[j] < 128 && p@[j] as char == prefix@[j],
            0 <= i <= p@.len(),
            forall|j: int| 0 <= j < i ==> s@[j] == prefix@[j],
        decreases p@.len() - i,
    {
        if a[i] != p[i] {
            assert(s@[i as int] != prefix@[i as int]);
            assert(s@.subrange(0, prefix@.len() as int)[i as int] == s@[i as int]);
            return false;
        }
        i += 1;
    }
    assert(s@.subrange(0, prefix@.len() as int) =~= prefix@);
    true
}

/// Where the ASCII character with code `c` first stands in `s` at or after
/// `from`, counted from `from`; the length of that rest where it does not.
pub(crate) fn find_from(s: &str, from: usize, c: u8) -> (at: usize)
    requires
        s.is_ascii(),
        from <= s@.len(),
        c < 128,
    ensures
        at == find_char(s@.skip(from as int), c as char),
        from + at <= s@.len(),
{
    let a = bytes_of_ascii(s);
    let n = a.len();
    let mut i: usize = from;
    while i < n && a[i] != c
        invariant
            n == s@.len(),
            n == a@.len(),
            forall|j: int| 0 <= j < s@.len() ==> #[trigger] a@[j] < 128 && a@[j] as char == s@[j],
            from <= i <= n,
            c < 128,
            forall|j: int| from <= j < i ==> s@[j] != c as char,
        decreases n - i,
    {
        i += 1;
    }
    proof {
        let rest = s@.skip(from as int);
        assert forall|j: int| 0 <= j < i - from implies rest[j] != c as char by {
            assert(rest[j] == s@[from + j]);
        }
        lemma_find_char(rest, c as char, i - from);
    }
    i - from
}

} // verus!
