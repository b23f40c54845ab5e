//! Reading text files byte by byte: lines, space-separated pieces and
//! decimal integers.  Positions are byte offsets into the whole text, and a
//! piece of text is a `(start, end)` pair of offsets.
use vstd::prelude::*;

verus! {

/// The lines of `c[start..]`, scanning from `i`: a line ends at `\n`, a `\r`
/// just before that `\n` is dropped, and a final line that does not end in
/// `\n` is kept as it stands (an empty final piece is no line).
pub open spec fn lines_scan(c: Seq<u8>, start: int, i: int) -> Seq<(usize, usize)>
    decreases c.len() - i,
{
    if i >= c.len() {
        if start < c.len() {
            seq![(start as usize, c.len() as usize)]
        } else {
            Seq::empty()
        }
    } else if c[i] == 10u8 {
        seq![strip_cr(c, start, i)] + lines_scan(c, i + 1, i + 1)
    } else {
        lines_scan(c, start, i + 1)
    }
}

/// The line `c[start..i]` without a final `\r`.
pub open spec fn strip_cr(c: Seq<u8>, start: int, i: int) -> (usize, usize) {
    if i > start && c[i - 1] == 13u8 {
        (start as usize, (i - 1) as usize)
    } else {
        (start as usize, i as usize)
    }
}

/// The lines of the whole text `c`.
pub open spec fn text_lines(c: Seq<u8>) -> Seq<(usize, usize)> {
    lines_scan(c, 0, 0)
}

/// The pieces of `c[start..end]` separated by the byte `sep`, scanning from
/// `i`.  There is always at least one piece; two separators in a row give an
/// empty piece between them.
pub open spec fn pieces_scan(c: Seq<u8>, start: int, i: int, end: int, sep: u8) -> Seq<
    (usize, usize),
>
    decreases end - i,
{
    if i >= end {
        seq![(start as usize, end as usize)]
    } else if c[i] == sep {
        seq![(start as usize, i as usize)] + pieces_scan(c, i + 1, i + 1, end, sep)
    } else {
        pieces_scan(c, start, i + 1, end, sep)
    }
}

/// The pieces of `c[start..end]` separated by single spaces.
pub open spec fn space_pieces(c: Seq<u8>, start: int, end: int) -> Seq<(usize, usize)> {
    pieces_scan(c, start, start, end, 32u8)
}

/// Every span lies in `0..=len`, start before end.
pub open spec fn spans_within(spans: Seq<(usize, usize)>, len: int) -> bool {
    forall|k: int| 0 <= k < spans.len() ==> #[trigger] spans[k].0 <= spans[k].1 <= len
}

/// Splits `text` into lines (see `text_lines`).
pub fn split_lines(text: &[u8]) -> (lines: Vec<(usize, usize)>)
    ensures
        lines@ == text_lines(text@),
        spans_within(lines@, text@.len() as int),
{
    let mut lines: Vec<(usize, usize)> = Vec::new();
    let mut start: usize = 0;
    let mut i: usize = 0;
    let n = text.len();
    while i < n
        invariant
            n == text@.len(),
            start <= i <= n,
            lines@ + lines_scan(text@, start as int, i as int) == text_lines(text@),
            spans_within(lines@, n as int),
        decreases n - i,
    {
        if text[i] == 10u8 {
            let line = if i > start && text[i - 1] == 13u8 {
                (start, i - 1)
            } else {
                (start, i)
            };
            proof {
                assert(lines@.push(line) + lines_scan(text@, i + 1, i + 1) =~= lines@ + (seq![line]
                    + lines_scan(text@, i + 1, i + 1)));
            }
            lines.push(line);
            start = i + 1;
        }
        i = i + 1;
    }
    if start < n {
        proof {
            assert(lines@.push((start, n)) =~= lines@ + seq![(start, n)]);
        }
        let ghost before = lines@;
        lines.push((start, n));
        assert forall|k: int| 0 <= k < lines@.len() implies #[trigger] lines@[k].0 <= lines@[k].1
            <= n by {
            if k < before.len() {
                assert(lines@[k] == before[k]);
            }
        }
    } else {
        assert(lines@ + Seq::<(usize, usize)>::empty() =~= lines@);
    }
    assert(spans_within(lines@, n as int));
    assert(n == text@.len());
    lines
}

/// Splits `text[start..end]` at every single space (see `space_pieces`).
pub fn split_spaces(text: &[u8], start: usize, end: usize) -> (pieces: Vec<(usize, usize)>)
    requires
        start <= end <= text@.len(),
    ensures
        pieces@ == space_pieces(text@, start as int, end as int),
        pieces@.len() >= 1,
        spans_within(pieces@, text@.len() as int),
        forall|k: int| 0 <= k < pieces@.len() ==> start <= #[trigger] pieces@[k].0,
{
    let mut pieces: Vec<(usize, usize)> = Vec::new();
    let mut from: usize = start;
    let mut i: usize = start;
    while i < end
        invariant
            start <= from <= i <= end <= text@.len(),
            pieces@ + pieces_scan(text@, from as int, i as int, end as int, 32u8) == space_pieces(
                text@,
                start as int,
                end as int,
            ),
            spans_within(pieces@, text@.len() as int),
            forall|k: int| 0 <= k < pieces@.len() ==> start <= #[trigger] pieces@[k].0,
        decreases end - i,
    {
        if text[i] == 32u8 {
            proof {
                assert(pieces@.push((from, i)) + pieces_scan(text@, i + 1, i + 1, end as int, 32u8)
                    =~= pieces@ + (seq![(from, i)] + pieces_scan(
                    text@,
                    i + 1,
                    i + 1,
                    end as int,
                    32u8,
                )));
            }
            pieces.push((from, i));
            from = i + 1;
        }
        i = i + 1;
    }
    proof {
        assert(pieces@.push((from, end)) =~= pieces@ + seq![(from, end)]);
    }
    pieces.push((from, end));
    pieces
}

/// `b` is an ASCII decimal digit.
pub open spec fn is_digit(b: u8) -> bool {
    48u8 <= b <= 57u8
}

/// The value of a string of decimal digits (most significant first).
pub open spec fn digits_value(s: Seq<u8>) -> nat
    decreases s.len(),
{
    if s.len() == 0 {
        0
    } else {
        digits_value(s.drop_last()) * 10 + (s.last() - 48u8) as nat
    }
}

pub open spec fn all_digits(s: Seq<u8>) -> bool {
    forall|k: int| 0 <= k < s.len() ==> is_digit(#[trigger] s[k])
}

/// What the standard library's unsigned integer parsing gives for `s`, for a
/// type whose largest value is `max`: an optional `+`, then one or more
/// decimal digits whose value is at most `max`.
pub open spec fn parse_unsigned(s: Seq<u8>, max: nat) -> Option<nat> {
    let d = if s.len() > 0 && s[0] == 43u8 {
        s.drop_first()
    } else {
        s
    };
    if d.len() > 0 && all_digits(d) && digits_value(d) <= max {
        Some(digits_value(d))
    } else {
        None
    }
}

/// What the standard library's signed integer parsing gives for `s`, for a
/// type ranging over `min..=max`: an optional `+` or `-`, then one or more
/// decimal digits, the signed value in range.
pub open spec fn parse_signed(s: Seq<u8>, min: int, max: int) -> Option<int> {
    let negative = s.len() > 0 && s[0] == 45u8;
    let d = if s.len() > 0 && (s[0] == 43u8 || s[0] == 45u8) {
        s.drop_first()
    } else {
        s
    };
    let v: int = if negative {
        -digits_value(d)
    } else {
        digits_value(d) as int
    };
    if d.len() > 0 && all_digits(d) && min <= v <= max {
        Some(v)
    } else {
        None
    }
}

proof fn lemma_digits_value_prefix(s: Seq<u8>, k: int)
    requires
        0 <= k <= s.len(),
    ensures
        digits_value(s.take(k)) <= digits_value(s),
    decreases s.len() - k,
{
    if k < s.len() {
        lemma_digits_value_prefix(s, k + 1);
        assert(s.take(k + 1).drop_last() =~= s.take(k));
    } else {
        assert(s.take(k) =~= s);
    }
}

/// The digits `text[start..end]` as a number, when they are one or more
/// digits of value at most `limit`.
fn parse_digits(text: &[u8], start: usize, end: usize, limit: u64) -> (r: Option<u64>)
    requires
        start <= end <= text@.len(),
    ensures
        ({
            let d = text@.subrange(start as int, end as int);
            match r {
                Some(v) => d.len() > 0 && all_digits(d) && digits_value(d) <= limit && v
                    == digits_value(d),
                None => !(d.len() > 0 && all_digits(d) && digits_value(d) <= limit),
            }
        }),
{
    let ghost d = text@.subrange(start as int, end as int);
    if start == end {
        return None;
    }
    let mut value: u64 = 0;
    let mut i: usize = start;
    while i < end
        invariant
            start <= i <= end <= text@.len(),
            d == text@.subrange(start as int, end as int),
            all_digits(d.take(i - start)),
            value == digits_value(d.take(i - start)),
            value <= limit,
        decreases end - i,
    {
        let b = text[i];
        if b < 48u8 || b > 57u8 {
            assert(!is_digit(d[i - start]));
            return None;
        }
        let digit = (b - 48u8) as u64;
        proof {
            assert(d.take(i - start + 1).drop_last() =~= d.take(i - start));
            assert(d.take(i - start + 1).last() == b);
        }
        if digit > limit || value > (limit - digit) / 10 {
            proof {
                assert(digits_value(d.take(i - start + 1)) == value * 10 + digit);
                if digit <= limit {
                    assert(value * 10 + digit > limit) by (nonlinear_arith)
                        requires
                            value > (limit - digit) / 10,
                            digit <= limit,
                    ;
                }
                lemma_digits_value_prefix(d, i - start + 1);
            }
            return None;
        }
        proof {
            assert(value * 10 + digit <= limit) by (nonlinear_arith)
                requires
                    value <= (limit - digit) / 10,
                    digit <= limit,
            ;
        }
        value = value * 10 + digit;
        i = i + 1;
    }
    assert(d.take(end - start) =~= d);
    Some(value)
}

/// Unsigned decimal parsing of `text[start..end]` for a type whose largest
/// value is `max` (see `parse_unsigned`).
fn parse_unsigned_in(text: &[u8], start: usize, end: usize, max: u64) -> (r: Option<u64>)
    requires
        start <= end <= text@.len(),
    ensures
        match r {
            Some(v) => parse_unsigned(text@.subrange(start as int, end as int), max as nat) == Some(
                v as nat,
            ),
            None => parse_unsigned(text@.subrange(start as int, end as int), max as nat) is None,
        },
{
    let ghost s = text@.subrange(start as int, end as int);
    let mut from = start;
    if start < end && text[start] == 43u8 {
        from = start + 1;
        assert(s.drop_first() =~= text@.subrange(from as int, end as int));
    } else {
        assert(s =~= text@.subrange(from as int, end as int));
    }
    parse_digits(text, from, end, max)
}

/// Signed decimal parsing of `text[start..end]` for a type ranging over
/// `min..=max` (see `parse_signed`).
fn parse_signed_in(text: &[u8], start: usize, end: usize, min: i64, max: i64) -> (r: Option<i64>)
    requires
        start <= end <= text@.len(),
        min <= 0 <= max,
    ensures
        match r {
            Some(v) => parse_signed(text@.subrange(start as int, end as int), min as int, max as int)
                == Some(v as int),
            None => parse_signed(text@.subrange(start as int, end as int), min as int, max as int) is None,
        },
{
    let ghost s = text@.subrange(start as int, end as int);
    let negative = start < end && text[start] == 45u8;
    let mut from = start;
    if start < end && (text[start] == 43u8 || text[start] == 45u8) {
        from = start + 1;
        assert(s.drop_first() =~= text@.subrange(from as int, end as int));
    } else {
        assert(s =~= text@.subrange(from as int, end as int));
    }
    let limit: u64 = if negative {
        (-(min as i128)) as u64
    } else {
        max as u64
    };
    match parse_digits(text, from, end, limit) {
        Some(m) => {
            let v: i128 = if negative {
                -(m as i128)
            } else {
                m as i128
            };
            Some(v as i64)
        },
        None => None,
    }
}

/// `text[start..end]` parsed as a `usize`, as `str::parse::<usize>` does.
pub fn parse_usize_in(text: &[u8], start: usize, end: usize) -> (r: Option<usize>)
    requires
        start <= end <= text@.len(),
    ensures
        match r {
            Some(v) => parse_unsigned(text@.subrange(start as int, end as int), usize::MAX as nat)
                == Some(v as nat),
            None => parse_unsigned(text@.subrange(start as int, end as int), usize::MAX as nat) is None,
        },
{
    match parse_unsigned_in(text, start, end, usize::MAX as u64) {
        Some(v) => Some(v as usize),
        None => None,
    }
}

/// `text[start..end]` parsed as a `u32`, as `str::parse::<u32>` does.
pub fn parse_u32_in(text: &[u8], start: usize, end: usize) -> (r: Option<u32>)
    requires
        start <= end <= text@.len(),
    ensures
        match r {
            Some(v) => parse_unsigned(text@.subrange(start as int, end as int), u32::MAX as nat)
                == Some(v as nat),
            None => parse_unsigned(text@.subrange(start as int, end as int), u32::MAX as nat) is None,
        },
{
    match parse_unsigned_in(text, start, end, u32::MAX as u64) {
        Some(v) => Some(v as u32),
        None => None,
    }
}

/// `text[start..end]` parsed as an `i32`, as `str::parse::<i32>` does.
pub fn parse_i32_in(text: &[u8], start: usize, end: usize) -> (r: Option<i32>)
    requires
        start <= end <= text@.len(),
    ensures
        match r {
            Some(v) => parse_signed(text@.subrange(start as int, end as int), i32::MIN as int, i32::MAX as int)
                == Some(v as int),
            None => parse_signed(text@.subrange(start as int, end as int), i32::MIN as int, i32::MAX as int) is None,
        },
{
    match parse_signed_in(text, start, end, i32::MIN as i64, i32::MAX as i64) {
        Some(v) => Some(v as i32),
        None => None,
    }
}

/// `text[start..end]` parsed as an `isize`, as `str::parse::<isize>` does.
pub fn parse_isize_in(text: &[u8], start: usize, end: usize) -> (r: Option<isize>)
    requires
        start <= end <= text@.len(),
    ensures
        match r {
            Some(v) => parse_signed(text@.subrange(start as int, end as int), isize::MIN as int, isize::MAX as int)
                == Some(v as int),
            None => parse_signed(text@.subrange(start as int, end as int), isize::MIN as int, isize::MAX as int) is None,
        },
{
    match parse_signed_in(text, start, end, isize::MIN as i64, isize::MAX as i64) {
        Some(v) => Some(v as isize),
        None => None,
    }
}

} // verus!
