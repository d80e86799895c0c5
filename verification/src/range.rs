//! `Range` header values: the three single-range forms, and how a range is
//! settled against the size of the file it asks for.

use crate::text::{
    all_digits, bytes_of_ascii, decimal_number, find_char, find_from, has_prefix, is_digit,
    lemma_decimal_round_trip, lemma_find_char, lemma_find_char_found, parse_decimal,
    push_decimal, decimal_text,
};
use std::str::FromStr;
use vstd::prelude::*;
use vstd::string::*;
use vstd::utf8::is_ascii_chars;

verus! {

/// Why a `Range` header value cannot be served.
#[derive(Clone, Copy, Debug, PartialEq, Eq, Structural)]
pub enum RangeError {
    /// The value is not one well-formed single range.
    Malformed,
    /// The range begins at or beyond the end of the file, or asks for no
    /// byte at all.
    Unsatisfiable,
}

/// A single range as a header writes it, before the file's size is known.
///
/// `bytes=a-b` has both fields, `bytes=a-` only `start`, and `bytes=-n`
/// only `end`, which then counts bytes from the end of the file.
#[derive(Clone, Copy, Debug, PartialEq, Eq)]
pub struct Range {
    pub start: Option<u64>,
    pub end: Option<u64>,
}

/// An inclusive range of byte positions within a file of `total` bytes.
#[derive(Clone, Copy, Debug, PartialEq, Eq, Structural)]
pub struct ByteRange {
    pub start: u64,
    pub end: u64,
    pub total: u64,
}

/// The code of `-`.
pub const DASH: u8 = 45;

/// The unit that every accepted header value begins with.
pub open spec fn unit_prefix() -> Seq<char> {
    seq!['b', 'y', 't', 'e', 's', '=']
}

/// What stands on one side of the dash: nothing, or a number that fits in
/// 64 bits. Anything else has no reading.
pub open spec fn optional_number(t: Seq<char>) -> Option<Option<u64>> {
    if t.len() == 0 {
        Some(None)
    } else {
        match decimal_number(t) {
            Some(v) => Some(Some(v)),
            None => None,
        }
    }
}

/// The reading of a header value: after `bytes=`, what stands before the
/// first dash and what stands after it are each empty or a number, not both
/// empty, and not in descending order.
pub open spec fn header_value(s: Seq<char>) -> Result<Range, RangeError> {
    if !unit_prefix().is_prefix_of(s) {
        Err(RangeError::Malformed)
    } else {
        let rest = s.skip(unit_prefix().len() as int);
        let dash = find_char(rest, '-');
        if dash >= rest.len() {
            Err(RangeError::Malformed)
        } else {
            match (optional_number(rest.take(dash)), optional_number(rest.skip(dash + 1))) {
                (Some(start), Some(end)) => {
                    let range = Range { start, end };
                    if range.wf() {
                        Ok(range)
                    } else {
                        Err(RangeError::Malformed)
                    }
                },
                _ => Err(RangeError::Malformed),
            }
        }
    }
}

/// The reading of a header value against a file of `total` bytes.
pub open spec fn parse_spec(s: Seq<char>, total: u64) -> Result<ByteRange, RangeError> {
    match header_value(s) {
        Ok(range) => range.resolve_spec(total),
        Err(e) => Err(e),
    }
}

/// A header value that has a reading is made of ASCII characters only.
pub proof fn lemma_header_is_ascii(s: Seq<char>)
    requires
        header_value(s) is Ok,
    ensures
        is_ascii_chars(s),
{
    let p = unit_prefix().len() as int;
    let rest = s.skip(p);
    let dash = find_char(rest, '-');
    let first = rest.take(dash);
    let last = rest.skip(dash + 1);
    lemma_find_char_found(rest, '-');
    assert forall|i: int| 0 <= i < s.len() implies '\0' <= #[trigger] s[i] <= '\u{7f}' by {
        if i < p {
            assert(s.subrange(0, p)[i] == unit_prefix()[i]);
        } else if i - p < dash {
            assert(first.len() > 0);
            assert(is_digit(first[i - p]));
        } else if i - p == dash {
        } else {
            assert(last.len() > 0);
            assert(is_digit(last[i - p - dash - 1]));
        }
    }
}

/// One side of the dash as a header writes it.
pub open spec fn side_text(side: Option<u64>) -> Seq<char> {
    match side {
        Some(v) => decimal_text(v as nat),
        None => Seq::empty(),
    }
}

/// The header value that asks for `range`.
pub open spec fn header_text(range: Range) -> Seq<char> {
    unit_prefix() + side_text(range.start) + seq!['-'] + side_text(range.end)
}

/// One side of the dash is read back as it was written.
pub proof fn lemma_side_round_trip(side: Option<u64>)
    ensures
        optional_number(side_text(side)) == Some(side),
        all_digits(side_text(side)),
{
    if let Some(v) = side {
        lemma_decimal_round_trip(v as nat);
    }
}

/// The header value that asks for a well-formed range reads as that range.
pub proof fn lemma_header_round_trip(range: Range)
    requires
        range.wf(),
    ensures
        header_value(header_text(range)) == Ok::<Range, RangeError>(range),
{
    let first = side_text(range.start);
    let last = side_text(range.end);
    let s = header_text(range);
    let rest = s.skip(unit_prefix().len() as int);
    lemma_side_round_trip(range.start);
    lemma_side_round_trip(range.end);
    assert(s.subrange(0, unit_prefix().len() as int) =~= unit_prefix());
    assert(rest =~= first + seq!['-'] + last);
    assert forall|j: int| 0 <= j < first.len() implies rest[j] != '-' by {
        assert(is_digit(first[j]));
    }
    lemma_find_char(rest, '-', first.len() as int);
    assert(rest.take(first.len() as int) =~= first);
    assert(rest.skip(first.len() as int + 1) =~= last);
}

/// A range that begins at or beyond the end of the file cannot be
/// satisfied, whatever its end.
pub proof fn lemma_start_beyond_file(range: Range, total: u64)
    requires
        range.wf(),
        range.start matches Some(a) && a >= total,
    ensures
        range.resolve_spec(total) == Err::<ByteRange, RangeError>(RangeError::Unsatisfiable),
        parse_spec(header_text(range), total) == Err::<ByteRange, RangeError>(
            RangeError::Unsatisfiable,
        ),
{
    lemma_header_round_trip(range);
}

/// A range that begins within the file and ends at or beyond its end is
/// served up to the last byte of the file.
pub proof fn lemma_end_beyond_file(start: u64, end: u64, total: u64)
    requires
        start < total <= end,
    ensures
        ({
            let range = Range { start: Some(start), end: Some(end) };
            let served = ByteRange { start, end: (total - 1) as u64, total };
            &&& range.resolve_spec(total) == Ok::<ByteRange, RangeError>(served)
            &&& parse_spec(header_text(range), total) == Ok::<ByteRange, RangeError>(served)
        }),
{
    lemma_header_round_trip(Range { start: Some(start), end: Some(end) });
}

/// A suffix at least as long as the file asks for the whole file, as the
/// range from 0 to the last byte does.
pub proof fn lemma_long_suffix(n: u64, total: u64)
    requires
        0 < total <= n,
    ensures
        ({
            let suffix = Range { start: None, end: Some(n) };
            let whole = Range { start: Some(0), end: Some((total - 1) as u64) };
            let served = ByteRange { start: 0, end: (total - 1) as u64, total };
            &&& suffix.resolve_spec(total) == Ok::<ByteRange, RangeError>(served)
            &&& whole.resolve_spec(total) == Ok::<ByteRange, RangeError>(served)
            &&& parse_spec(header_text(suffix), total) == parse_spec(header_text(whole), total)
        }),
{
    lemma_header_round_trip(Range { start: None, end: Some(n) });
    lemma_header_round_trip(Range { start: Some(0), end: Some((total - 1) as u64) });
}

/// A range that lies within the file is served as it was asked.
pub proof fn lemma_range_within_file(start: u64, end: u64, total: u64)
    requires
        start <= end < total,
    ensures
        parse_spec(header_text(Range { start: Some(start), end: Some(end) }), total) == Ok::<
            ByteRange,
            RangeError,
        >(ByteRange { start, end, total }),
{
    lemma_header_round_trip(Range { start: Some(start), end: Some(end) });
}

impl Range {
    /// A range names at least one side, and with both its start is not
    /// beyond its end.
    pub open spec fn wf(self) -> bool {
        match (self.start, self.end) {
            (Some(a), Some(b)) => a <= b,
            (None, None) => false,
            _ => true,
        }
    }

    /// How the range falls within a file of `total` bytes.
    ///
    /// A start at or beyond the end of the file cannot be satisfied, and
    /// neither can a suffix of no bytes or any range of an empty file. An
    /// end beyond the file is cut back to the last byte, and a suffix longer
    /// than the file is the whole file.
    pub open spec fn resolve_spec(self, total: u64) -> Result<ByteRange, RangeError> {
        match (self.start, self.end) {
            (Some(a), Some(b)) => if a > b {
                Err(RangeError::Malformed)
            } else if a >= total {
                Err(RangeError::Unsatisfiable)
            } else {
                Ok(
                    ByteRange {
                        start: a,
                        end: if b >= total {
                            (total - 1) as u64
                        } else {
                            b
                        },
                        total,
                    },
                )
            },
            (Some(a), None) => if a >= total {
                Err(RangeError::Unsatisfiable)
            } else {
                Ok(ByteRange { start: a, end: (total - 1) as u64, total })
            },
            (None, Some(n)) => if n == 0 || total == 0 {
                Err(RangeError::Unsatisfiable)
            } else {
                Ok(
                    ByteRange {
                        start: if n >= total {
                            0
                        } else {
                            (total - n) as u64
                        },
                        end: (total - 1) as u64,
                        total,
                    },
                )
            },
            (None, None) => Err(RangeError::Malformed),
        }
    }

    /// Reads a header value such as `bytes=0-99`, `bytes=100-` or
    /// `bytes=-50`. Several ranges in one value, blanks, signs and numbers
    /// that do not fit in 64 bits are all malformed.
    pub fn from_str(s: &str) -> (res: Result<Range, RangeError>)
        ensures
            res == header_value(s@),
    {
        if !s.is_ascii() {
            proof {
                if header_value(s@) is Ok {
                    lemma_header_is_ascii(s@);
                }
            }
            return Err(RangeError::Malformed);
        }
        proof {
            reveal_strlit("bytes=");
            assert("bytes="@ =~= unit_prefix());
        }
        if !has_prefix(s, "bytes=") {
            return Err(RangeError::Malformed);
        }
        let n = bytes_of_ascii(s).len();
        let dash = find_from(s, 6, DASH);
        if 6 + dash >= n {
            return Err(RangeError::Malformed);
        }
        let first = s.substring_ascii(6, 6 + dash);
        let last = s.substring_ascii(6 + dash + 1, n);
        proof {
            let rest = s@.skip(6);
            assert(first@ =~= rest.take(dash as int));
            assert(last@ =~= rest.skip(dash + 1));
        }
        let start = if dash == 0 {
            None
        } else {
            match parse_decimal(first) {
                Some(v) => Some(v),
                None => {
                    return Err(RangeError::Malformed);
                },
            }
        };
        let end = if 6 + dash + 1 == n {
            None
        } else {
            match parse_decimal(last) {
                Some(v) => Some(v),
                None => {
                    return Err(RangeError::Malformed);
                },
            }
        };
        match (start, end) {
            (None, None) => Err(RangeError::Malformed),
            (Some(a), Some(b)) => if a > b {
                Err(RangeError::Malformed)
            } else {
                Ok(Range { start, end })
            },
            _ => Ok(Range { start, end }),
        }
    }

    /// Settles the range against a file of `total` bytes.
    pub fn resolve(&self, total: u64) -> (res: Result<ByteRange, RangeError>)
        ensures
            res == self.resolve_spec(total),
            res matches Ok(r) ==> r.wf(),
    {
        match (self.start, self.end) {
            (Some(a), Some(b)) => {
                if a > b {
                    Err(RangeError::Malformed)
                } else if a >= total {
                    Err(RangeError::Unsatisfiable)
                } else {
                    let end = if b >= total {
                        total - 1
                    } else {
                        b
                    };
                    Ok(ByteRange { start: a, end, total })
                }
            },
            (Some(a), None) => {
                if a >= total {
                    Err(RangeError::Unsatisfiable)
                } else {
                    Ok(ByteRange { start: a, end: total - 1, total })
                }
            },
            (None, Some(n)) => {
                if n == 0 || total == 0 {
                    Err(RangeError::Unsatisfiable)
                } else {
                    let start = if n >= total {
                        0
                    } else {
                        total - n
                    };
                    Ok(ByteRange { start, end: total - 1, total })
                }
            },
            (None, None) => Err(RangeError::Malformed),
        }
    }
}

impl FromStr for Range {
    type Err = RangeError;

    /// Reads a header value as the method of the same name on `Range`
    /// does, so that `str::parse` gives the same reading.
    fn from_str(s: &str) -> (res: Result<Self, Self::Err>)
        ensures
            res == header_value(s@),
    {
        Range::from_str(s)
    }
}

impl ByteRange {
    /// The range lies within the file and is not empty.
    pub open spec fn wf(self) -> bool {
        self.start <= self.end && self.end < self.total
    }

    /// The number of bytes in the range.
    pub open spec fn spec_len(self) -> nat {
        (self.end - self.start + 1) as nat
    }

    /// The value of the `Content-Range` header that announces the range.
    pub open spec fn content_range_text(self) -> Seq<char> {
        "bytes "@ + decimal_text(self.start as nat) + "-"@ + decimal_text(self.end as nat) + "/"@
            + decimal_text(self.total as nat)
    }

    /// The value of the `Content-Range` header that announces the range:
    /// `bytes`, a blank, the first and the last position with a dash
    /// between them, a slash and the size of the file.
    pub fn content_range(&self) -> (res: String)
        ensures
            res@ == self.content_range_text(),
    {
        let mut out = "bytes ".to_owned();
        push_decimal(&mut out, self.start);
        out.append("-");
        push_decimal(&mut out, self.end);
        out.append("/");
        push_decimal(&mut out, self.total);
        out
    }

    /// The number of bytes in the range.
    pub fn len(&self) -> (n: u64)
        requires
            self.wf(),
        ensures
            n == self.spec_len(),
    {
        self.end - self.start + 1
    }
}

/// The value of the `Content-Range` header that answers a range which a
/// file of `total` bytes cannot satisfy.
pub open spec fn unsatisfied_range_text(total: u64) -> Seq<char> {
    "bytes */"@ + decimal_text(total as nat)
}

/// The value of the `Content-Range` header that answers a range which a
/// file of `total` bytes cannot satisfy: `bytes */` and the size.
pub fn unsatisfied_range(total: u64) -> (res: String)
    ensures
        res@ == unsatisfied_range_text(total),
{
    let mut out = "bytes */".to_owned();
    push_decimal(&mut out, total);
    out
}

/// Reads a header value against a file of `total` bytes.
pub fn parse(header: &str, total: u64) -> (res: Result<ByteRange, RangeError>)
    ensures
        res == parse_spec(header@, total),
        res matches Ok(r) ==> r.wf() && r.total == total,
{
    match Range::from_str(header) {
        Ok(range) => range.resolve(total),
        Err(e) => Err(e),
    }
}

} // verus!
