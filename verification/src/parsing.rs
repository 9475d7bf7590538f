//! Verified text helpers for the input loaders: splitting a line at a
//! separator byte and reading decimal integers.

use crate::tokens::{digits_val, is_digit};
use vstd::prelude::*;

verus! {

/// Every byte is a decimal digit.
pub open spec fn all_digits(s: Seq<u8>) -> bool {
    forall|k: int| 0 <= k < s.len() ==> is_digit(#[trigger] s[k])
}

/// A longer digit prefix never denotes a smaller number.
proof fn lemma_digits_val_take_le(s: Seq<u8>, k: int)
    requires
        all_digits(s),
        0 <= k <= s.len(),
    ensures
        digits_val(s.take(k)) <= digits_val(s),
    decreases s.len() - k,
{
    if k == s.len() {
        assert(s.take(k) =~= s);
    } else {
        assert(s.take(k + 1).drop_last() =~= s.take(k));
        crate::tokens::lemma_digits_val_bound(s.take(k));
        assert(forall|j: int| 0 <= j < k ==> is_digit(#[trigger] s.take(k)[j]));
        lemma_digits_val_take_le(s, k + 1);
    }
}

/// Reads the decimal digits of `s` from position `from` on: the
/// denoted number, or `None` when the segment is empty, holds a
/// non-digit, or denotes more than the unsigned 64-bit range.
fn parse_digits(s: &Vec<u8>, from: usize) -> (r: Option<u64>)
    requires
        from <= s@.len(),
    ensures
        r.is_some() == (from < s@.len() && all_digits(s@.subrange(from as int, s@.len() as int))
            && digits_val(s@.subrange(from as int, s@.len() as int)) <= u64::MAX),
        r matches Some(v) ==> v == digits_val(s@.subrange(from as int, s@.len() as int)),
{
    let ghost seg = s@.subrange(from as int, s@.len() as int);
    let len = s.len();
    if from == len {
        return None;
    }
    let mut k: usize = from;
    let mut value: u64 = 0;
    #[verifier::loop_isolation(false)]
    while k < len
        invariant
            from <= k <= len,
            seg == s@.subrange(from as int, s@.len() as int),
            all_digits(seg.take(k - from)),
            value == digits_val(seg.take(k - from)),
        decreases len - k,
    {
        let b = s[k];
        if b < 48 || b > 57 {
            proof {
                assert(seg[k - from] == s@[k as int]);
                assert(!all_digits(seg));
            }
            return None;
        }
        proof {
            assert(seg.take(k - from + 1).drop_last() =~= seg.take(k - from));
            assert(seg.take(k - from + 1).last() == s@[k as int]);
        }
        let digit = (b - 48) as u64;
        value = match value.checked_mul(10) {
            Some(scaled) => match scaled.checked_add(digit) {
                Some(next) => next,
                None => {
                    proof {
                        lemma_overflow_means_too_large(seg, k - from);
                    }
                    return None;
                },
            },
            None => {
                proof {
                    lemma_overflow_means_too_large(seg, k - from);
                }
                return None;
            },
        };
        k = k + 1;
    }
    proof {
        assert(seg.take(len - from) =~= seg);
    }
    Some(value)
}

/// A digit string whose next step overflows denotes more than the
/// unsigned 64-bit range — unless a later byte is not a digit at all.
proof fn lemma_overflow_means_too_large(seg: Seq<u8>, k: int)
    requires
        0 <= k < seg.len(),
        all_digits(seg.take(k)),
        is_digit(seg[k]),
        digits_val(seg.take(k)) * 10 + (seg[k] - 48) > u64::MAX,
    ensures
        all_digits(seg) ==> digits_val(seg) > u64::MAX,
{
    if all_digits(seg) {
        assert(seg.take(k + 1).drop_last() =~= seg.take(k));
        assert(digits_val(seg.take(k + 1)) > u64::MAX);
        lemma_digits_val_take_le(seg, k + 1);
    }
}

/// Reads a whole byte string as an unsigned decimal number.
pub fn parse_u64(s: &Vec<u8>) -> (r: Option<u64>)
    ensures
        r.is_some() == (s@.len() > 0 && all_digits(s@) && digits_val(s@) <= u64::MAX),
        r matches Some(v) ==> v == digits_val(s@),
{
    proof {
        assert(s@.subrange(0, s@.len() as int) =~= s@);
    }
    parse_digits(s, 0)
}

/// The byte string spells a decimal integer, optionally signed.
pub open spec fn int_token_valid(s: Seq<u8>) -> bool {
    ||| (s.len() > 0 && all_digits(s))
    ||| (s.len() > 1 && s[0] == 45 && all_digits(s.skip(1)))
}

/// The integer a (possibly signed) decimal byte string denotes.
pub open spec fn int_token_value(s: Seq<u8>) -> int {
    if s.len() > 0 && s[0] == 45 {
        -digits_val(s.skip(1))
    } else {
        digits_val(s)
    }
}

/// Reads a whole byte string as a signed decimal number: `None` when
/// it is not a decimal spelling or leaves the signed 64-bit range.
pub fn parse_i64(s: &Vec<u8>) -> (r: Option<i64>)
    ensures
        r.is_some() == (int_token_valid(s@) && i64::MIN <= int_token_value(s@) <= i64::MAX),
        r matches Some(v) ==> v == int_token_value(s@),
{
    if s.len() > 0 && s[0] == 45 {
        proof {
            assert(s@.subrange(1, s@.len() as int) =~= s@.skip(1));
        }
        match parse_digits(s, 1) {
            Some(magnitude) => {
                if magnitude <= 0x7FFF_FFFF_FFFF_FFFF {
                    Some(-(magnitude as i64))
                } else if magnitude == 0x8000_0000_0000_0000 {
                    Some(i64::MIN)
                } else {
                    None
                }
            },
            None => None,
        }
    } else {
        match parse_u64(s) {
            Some(magnitude) => {
                if magnitude <= 0x7FFF_FFFF_FFFF_FFFF {
                    Some(magnitude as i64)
                } else {
                    None
                }
            },
            None => None,
        }
    }
}

/// The views of a list of byte strings.
pub open spec fn views_of(pieces: Seq<Vec<u8>>) -> Seq<Seq<u8>> {
    pieces.map_values(|p: Vec<u8>| p@)
}

/// The pieces of `s` between occurrences of `sep`, scanning from `i`
/// with the current piece starting at `start`; empty pieces included,
/// one more piece than separators.
pub open spec fn split_from(s: Seq<u8>, sep: u8, start: int, i: int) -> Seq<Seq<u8>>
    decreases s.len() - i when 0 <= start <= i <= s.len()
{
    if i >= s.len() {
        seq![s.subrange(start, i)]
    } else if s[i] == sep {
        seq![s.subrange(start, i)].add(split_from(s, sep, i + 1, i + 1))
    } else {
        split_from(s, sep, start, i + 1)
    }
}

/// The pieces of `s` between occurrences of `sep`.
pub open spec fn split_spec(s: Seq<u8>, sep: u8) -> Seq<Seq<u8>> {
    split_from(s, sep, 0, 0)
}

/// An exact copy of a byte range.
fn copy_range(v: &Vec<u8>, from: usize, to: usize) -> (r: Vec<u8>)
    requires
        from <= to <= v@.len(),
    ensures
        r@ == v@.subrange(from as int, to as int),
{
    let mut out: Vec<u8> = Vec::new();
    let mut k: usize = from;
    while k < to
        invariant
            from <= k <= to <= v@.len(),
            out@ =~= v@.subrange(from as int, k as int),
        decreases to - k,
    {
        proof {
            assert(v@.subrange(from as int, k as int + 1) =~= v@.subrange(
                from as int,
                k as int,
            ).push(v@[k as int]));
        }
        out.push(v[k]);
        k = k + 1;
    }
    out
}

/// Splits a line at every occurrence of the separator byte; empty
/// pieces are kept, so the result holds one more piece than the line
/// holds separators.
pub fn split_tokens(line: &Vec<u8>, separator: u8) -> (r: Vec<Vec<u8>>)
    ensures
        views_of(r@) == split_spec(line@, separator),
{
    let len = line.len();
    let mut pieces: Vec<Vec<u8>> = Vec::new();
    let mut start: usize = 0;
    let mut i: usize = 0;
    #[verifier::loop_isolation(false)]
    while i < len
        invariant
            0 <= start <= i <= len,
            split_spec(line@, separator) == views_of(pieces@).add(
                split_from(line@, separator, start as int, i as int),
            ),
        decreases len - i,
    {
        if line[i] == separator {
            let ghost pieces_prev = pieces@;
            let piece = copy_range(line, start, i);
            pieces.push(piece);
            proof {
                assert(views_of(pieces@) =~= views_of(pieces_prev).push(
                    line@.subrange(start as int, i as int),
                ));
                assert(views_of(pieces@).add(
                    split_from(line@, separator, i as int + 1, i as int + 1),
                ) =~= views_of(pieces_prev).add(
                    seq![line@.subrange(start as int, i as int)].add(
                        split_from(line@, separator, i as int + 1, i as int + 1),
                    ),
                ));
            }
            start = i + 1;
        }
        i = i + 1;
    }
    let ghost pieces_prev = pieces@;
    let piece = copy_range(line, start, len);
    pieces.push(piece);
    proof {
        assert(split_from(line@, separator, start as int, len as int) =~= seq![
            line@.subrange(start as int, len as int),
        ]);
        assert(views_of(pieces@) =~= views_of(pieces_prev).push(
            line@.subrange(start as int, len as int),
        ));
        assert(views_of(pieces@) =~= views_of(pieces_prev).add(
            seq![line@.subrange(start as int, len as int)],
        ));
    }
    pieces
}

} // verus!
