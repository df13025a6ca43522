//! The `Range` request header: `parse_range_header`.

use vstd::prelude::*;
use crate::num::{decimal, lemma_decimal_reads_as_i64, parse_i64, parse_i64_exec};
use crate::text::{
    chars_of, is_ws, lemma_find_char_unique, lemma_trim_of_trimmed, split_once, split_once_exec,
    starts_with, string_of_range, trim, trim_exec,
};

verus! {

/// The only error of range parsing: the header asks for bytes that cannot be served.
#[derive(Debug, Clone, Copy, PartialEq, Eq, Structural)]
pub enum RangeError {
    InvalidRange,
}

pub open spec fn bytes_unit() -> Seq<char> {
    seq!['b', 'y', 't', 'e', 's', '=']
}

pub open spec fn min_int(a: int, b: int) -> int {
    if a <= b {
        a
    } else {
        b
    }
}

pub open spec fn max_int(a: int, b: int) -> int {
    if a >= b {
        a
    } else {
        b
    }
}

/// The bounds that the spec `a-b` (after `bytes=`) names for an object of `size` bytes, before
/// they are checked: `-n` is the last `n` bytes, `a-` runs to the end, `a-b` stops at `b` or at the
/// last byte.
pub open spec fn range_bounds(a: Seq<char>, b: Seq<char>, size: int) -> Option<(int, int)> {
    if a.len() == 0 {
        match parse_i64(b) {
            Some(n) => if n <= 0 {
                None
            } else {
                Some((max_int(size - n, 0), size - 1))
            },
            None => None,
        }
    } else {
        match parse_i64(a) {
            Some(start) => if b.len() == 0 {
                Some((start as int, size - 1))
            } else {
                match parse_i64(b) {
                    Some(end) => Some((start as int, min_int(end as int, size - 1))),
                    None => None,
                }
            },
            None => None,
        }
    }
}

/// The inclusive byte range that the header value `value` asks of an object of `size` bytes, or
/// `None` when it is invalid.
pub open spec fn byte_range(value: Seq<char>, size: int) -> Option<(int, int)> {
    let t = trim(value);
    if !starts_with(t, bytes_unit()) {
        None
    } else {
        match split_once(t.skip(6), '-') {
            None => None,
            Some((a, b)) => if size <= 0 {
                None
            } else {
                match range_bounds(a, b, size) {
                    Some((s, e)) => if s < 0 || s >= size || e < s {
                        None
                    } else {
                        Some((s, e))
                    },
                    None => None,
                }
            },
        }
    }
}

/// `parse_range_header`: no header, no range; otherwise the range that `byte_range` gives, or
/// `InvalidRange`. A range that is returned lies within the object.
pub fn parse_range_header(value: Option<&str>, size: i64) -> (res: Result<Option<(i64, i64)>, RangeError>)
    ensures
        match value {
            None => res == Ok::<Option<(i64, i64)>, RangeError>(None),
            Some(v) => match byte_range(v@, size as int) {
                Some((s, e)) => res == Ok::<Option<(i64, i64)>, RangeError>(Some((s as i64, e as i64))),
                None => res == Err::<Option<(i64, i64)>, RangeError>(RangeError::InvalidRange),
            },
        },
        res matches Ok(Some((s, e))) ==> 0 <= s <= e < size,
{
    let v = match value {
        None => return Ok(None),
        Some(v) => v,
    };
    let t = trim_exec(v);
    let tc = chars_of(t.as_str());
    let unit = "bytes=";
    proof {
        reveal_strlit("bytes=");
        assert(unit@ =~= bytes_unit());
    }
    if !crate::text::starts_with_exec(t.as_str(), unit) {
        return Err(RangeError::InvalidRange);
    }
    let spec_part = string_of_range(&tc, 6, tc.len());
    assert(spec_part@ == t@.skip(6));
    let (a, b) = match split_once_exec(spec_part.as_str(), '-') {
        None => return Err(RangeError::InvalidRange),
        Some(p) => p,
    };
    if size <= 0 {
        return Err(RangeError::InvalidRange);
    }
    let (start, end): (i64, i64) = if a.as_str().is_empty() {
        let n = match parse_i64_exec(b.as_str()) {
            None => return Err(RangeError::InvalidRange),
            Some(n) => n,
        };
        if n <= 0 {
            return Err(RangeError::InvalidRange);
        }
        let s = if size - n > 0 {
            size - n
        } else {
            0
        };
        (s, size - 1)
    } else {
        let s = match parse_i64_exec(a.as_str()) {
            None => return Err(RangeError::InvalidRange),
            Some(s) => s,
        };
        let e = if b.as_str().is_empty() {
            size - 1
        } else {
            match parse_i64_exec(b.as_str()) {
                None => return Err(RangeError::InvalidRange),
                Some(e) => if e < size - 1 {
                    e
                } else {
                    size - 1
                },
            }
        };
        (s, e)
    };
    if start < 0 || start >= size || end < start {
        return Err(RangeError::InvalidRange);
    }
    Ok(Some((start, end)))
}


/// `bytes=`, then `first`, `-` and `last`.
pub open spec fn range_text(first: Seq<char>, last: Seq<char>) -> Seq<char> {
    seq!['b', 'y', 't', 'e', 's', '='] + first + seq!['-'] + last
}

/// Every range inside the object is served as asked: for `0 <= a <= b < size`, `bytes=a-b` is
/// the bytes `a..=b` (one byte when `a == b`); `bytes=a-` runs from `a` to the last byte; and
/// `bytes=-n`, for `1 <= n <= size`, is the last `n` bytes.
pub proof fn law_ranges_inside_are_served(a: nat, b: nat, n: nat, size: i64)
    requires
        a <= b < size,
        1 <= n <= size,
    ensures
        byte_range(range_text(decimal(a), decimal(b)), size as int) == Some((a as int, b as int)),
        byte_range(range_text(decimal(a), Seq::empty()), size as int) == Some((a as int, size - 1)),
        byte_range(range_text(Seq::empty(), decimal(n)), size as int) == Some((size - n, size - 1)),
{
    lemma_decimal_reads_as_i64(a);
    lemma_decimal_reads_as_i64(b);
    lemma_decimal_reads_as_i64(n);
    lemma_range_text(decimal(a), decimal(b), size);
    lemma_range_text(decimal(a), Seq::empty(), size);
    lemma_range_text(Seq::empty(), decimal(n), size);
}

/// How a well-formed range text splits: `first` and `last` are the two sides of the `-`.
proof fn lemma_range_text(first: Seq<char>, last: Seq<char>, size: i64)
    requires
        forall|i: int| 0 <= i < first.len() ==> '0' <= #[trigger] first[i] <= '9',
        forall|i: int| 0 <= i < last.len() ==> '0' <= #[trigger] last[i] <= '9',
    ensures
        byte_range(range_text(first, last), size as int) == (if size <= 0 {
            None
        } else {
            match range_bounds(first, last, size as int) {
                Some((s, e)) => if s < 0 || s >= size || e < s {
                    None
                } else {
                    Some((s, e))
                },
                None => None,
            }
        }),
{
    let v = range_text(first, last);
    let x = first + seq!['-'] + last;
    assert(!is_ws('b') && !is_ws('-'));
    assert(v[0] == 'b');
    if last.len() > 0 {
        assert(v.last() == last.last());
        assert(last[last.len() - 1] == last.last());
    } else {
        assert(v.last() == '-');
    }
    lemma_trim_of_trimmed(v);
    assert(v.take(6) =~= bytes_unit());
    assert(v.skip(6) =~= x);
    assert forall|j: int| 0 <= j < first.len() implies x[j] != '-' by {
        assert(x[j] == first[j]);
    }
    assert(x[first.len() as int] == '-');
    lemma_find_char_unique(x, '-', first.len() as int);
    assert(x.take(first.len() as int) =~= first);
    assert(x.skip(first.len() as int + 1) =~= last);
}

} // verus!
