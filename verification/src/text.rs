//! Lines, fields and whole numbers in text that is held as bytes.

use vstd::prelude::*;

verus! {

/// The line feed.
pub const NEWLINE: u8 = 10;

/// The carriage return.
pub const CARRIAGE_RETURN: u8 = 13;

/// The blank.
pub const SPACE: u8 = 32;

/// The colon.
pub const COLON: u8 = 58;

/// The plus sign.
pub const PLUS: u8 = 43;

/// The minus sign.
pub const MINUS: u8 = 45;

/// The digit zero.
pub const ZERO: u8 = 48;

/// The digit nine.
pub const NINE: u8 = 57;

/// The place of the first `separator` in `text` at `from` or behind, or the
/// length of the text where there is none.
pub open spec fn first_separator(text: Seq<u8>, separator: u8, from: int) -> int
    decreases text.len() - from,
{
    if from < 0 || from >= text.len() {
        text.len() as int
    } else if text[from] == separator {
        from
    } else {
        first_separator(text, separator, from + 1)
    }
}

/// The first separator from a place on stands at that place or behind, within
/// the text or at its end.
pub proof fn lemma_first_separator(text: Seq<u8>, separator: u8, from: int)
    requires
        0 <= from <= text.len(),
    ensures
        from <= first_separator(text, separator, from) <= text.len(),
    decreases text.len() - from,
{
    if from < text.len() && text[from] != separator {
        lemma_first_separator(text, separator, from + 1);
    }
}

/// The pieces of `text` from `from` on between the separators, each as the
/// places where it starts and ends. A separator at the very end is followed
/// by an empty piece.
pub open spec fn pieces_from(text: Seq<u8>, separator: u8, from: int) -> Seq<(int, int)>
    decreases text.len() - from,
{
    let end = first_separator(text, separator, from);
    if from < 0 || end >= text.len() {
        seq![(from, text.len() as int)]
    } else {
        proof {
            lemma_first_separator(text, separator, from);
        }
        seq![(from, end)] + pieces_from(text, separator, end + 1)
    }
}

/// What a list of ranges stands for.
pub open spec fn ranges_view(ranges: Seq<(usize, usize)>) -> Seq<(int, int)> {
    Seq::new(ranges.len(), |k: int| (ranges[k].0 as int, ranges[k].1 as int))
}

/// Every piece lies within the text.
pub proof fn lemma_pieces_from(text: Seq<u8>, separator: u8, from: int)
    requires
        0 <= from <= text.len(),
    ensures
        pieces_from(text, separator, from).len() >= 1,
        forall|k: int|
            0 <= k < pieces_from(text, separator, from).len() ==> from <= (
            #[trigger] pieces_from(text, separator, from)[k]).0 <= pieces_from(
                text,
                separator,
                from,
            )[k].1 <= text.len(),
    decreases text.len() - from,
{
    let end = first_separator(text, separator, from);
    lemma_first_separator(text, separator, from);
    if end < text.len() {
        lemma_pieces_from(text, separator, end + 1);
        let rest = pieces_from(text, separator, end + 1);
        let all = pieces_from(text, separator, from);
        assert forall|k: int| 0 <= k < all.len() implies from <= (#[trigger] all[k]).0 <= all[k].1
            <= text.len() by {
            if k > 0 {
                assert(all[k] == rest[k - 1]);
            }
        }
    }
}

/// Splits `text` from its start into the pieces between the separators.
pub fn split(text: &[u8], separator: u8) -> (pieces: Vec<(usize, usize)>)
    ensures
        ranges_view(pieces@) == pieces_from(text@, separator, 0),
        pieces@.len() == pieces_from(text@, separator, 0).len(),
        pieces@.len() >= 1,
        forall|k: int|
            0 <= k < pieces@.len() ==> {
                &&& (#[trigger] pieces@[k]).0 == pieces_from(text@, separator, 0)[k].0
                &&& pieces@[k].1 == pieces_from(text@, separator, 0)[k].1
                &&& pieces@[k].0 <= pieces@[k].1 <= text@.len()
            },
{
    let ghost target = pieces_from(text@, separator, 0);
    let mut pieces: Vec<(usize, usize)> = Vec::new();
    let mut from: usize = 0;
    let count: usize = text.len();
    loop
        invariant
            count == text@.len(),
            from <= count,
            target == pieces_from(text@, separator, 0),
            target == Seq::new(pieces@.len(), |k: int| (pieces@[k].0 as int, pieces@[k].1 as int))
                + pieces_from(text@, separator, from as int),
            forall|k: int|
                0 <= k < pieces@.len() ==> (#[trigger] pieces@[k]).0 <= pieces@[k].1 <= count,
        decreases count - from,
    {
        let ghost built = Seq::new(pieces@.len(), |k: int| (pieces@[k].0 as int, pieces@[k].1 as int));
        let mut end: usize = from;
        while end < count && text[end] != separator
            invariant
                from <= end <= count,
                count == text@.len(),
                first_separator(text@, separator, from as int) == first_separator(
                    text@,
                    separator,
                    end as int,
                ),
            decreases count - end,
        {
            end = end + 1;
        }
        pieces.push((from, end));
        let ghost longer = Seq::new(pieces@.len(), |k: int| (pieces@[k].0 as int, pieces@[k].1 as int));
        if end >= count {
            proof {
                assert(longer =~= built + seq![(from as int, count as int)]);
                assert(ranges_view(pieces@) =~= longer);
                assert forall|k: int| 0 <= k < pieces@.len() implies {
                    &&& (#[trigger] pieces@[k]).0 == target[k].0
                    &&& pieces@[k].1 == target[k].1
                } by {
                    assert(longer[k] == target[k]);
                }
            }
            return pieces;
        }
        proof {
            assert(longer + pieces_from(text@, separator, end + 1) =~= built + (seq![
                (from as int, end as int),
            ] + pieces_from(text@, separator, end + 1)));
        }
        from = end + 1;
    }
}

/// Whether a byte is a decimal digit.
pub open spec fn is_digit(byte: u8) -> bool {
    ZERO <= byte <= NINE
}

/// Whether the text is made of decimal digits only.
pub open spec fn all_digits(text: Seq<u8>) -> bool {
    forall|i: int| 0 <= i < text.len() ==> is_digit(#[trigger] text[i])
}

/// The number that decimal digits spell.
pub open spec fn digits_value(digits: Seq<u8>) -> int
    decreases digits.len(),
{
    if digits.len() == 0 {
        0
    } else {
        digits_value(digits.drop_last()) * 10 + (digits.last() - ZERO)
    }
}

/// The whole number that the text spells: a sign or none, then at least one
/// decimal digit and nothing else, with a value that a 32-bit integer can
/// hold. `None` for any other text.
pub open spec fn integer_of(text: Seq<u8>) -> Option<i32> {
    let signed = text.len() > 0 && (text[0] == MINUS || text[0] == PLUS);
    let digits = if signed {
        text.skip(1)
    } else {
        text
    };
    let size = digits_value(digits);
    let value = if signed && text[0] == MINUS {
        -size
    } else {
        size
    };
    if digits.len() == 0 || !all_digits(digits) || value < i32::MIN || value > i32::MAX {
        None
    } else {
        Some(value as i32)
    }
}

/// Digits spell no smaller number than the first of them do.
pub proof fn lemma_digits_value_grows(digits: Seq<u8>, n: int)
    requires
        all_digits(digits),
        0 <= n <= digits.len(),
    ensures
        0 <= digits_value(digits.take(n)) <= digits_value(digits),
    decreases digits.len() - n,
{
    if n < digits.len() {
        lemma_digits_value_grows(digits, n + 1);
        assert(digits.take(n + 1).drop_last() =~= digits.take(n));
        assert(is_digit(digits[n]));
        lemma_digits_value_nonnegative(digits.take(n));
    } else {
        assert(digits.take(n) =~= digits);
        lemma_digits_value_nonnegative(digits);
    }
}

/// Digits spell no number below zero.
proof fn lemma_digits_value_nonnegative(digits: Seq<u8>)
    requires
        all_digits(digits),
    ensures
        0 <= digits_value(digits),
    decreases digits.len(),
{
    if digits.len() > 0 {
        assert(is_digit(digits[digits.len() - 1]));
        assert forall|i: int| 0 <= i < digits.drop_last().len() implies is_digit(
            #[trigger] digits.drop_last()[i],
        ) by {
            assert(is_digit(digits[i]));
        }
        lemma_digits_value_nonnegative(digits.drop_last());
    }
}

/// Reads the whole number that the bytes of `text` from `from` to before
/// `to` spell.
pub fn parse_integer(text: &[u8], from: usize, to: usize) -> (number: Option<i32>)
    requires
        from <= to <= text@.len(),
    ensures
        number == integer_of(text@.subrange(from as int, to as int)),
{
    let ghost piece = text@.subrange(from as int, to as int);
    if from == to {
        return None;
    }
    let negative: bool = text[from] == MINUS;
    let signed: bool = negative || text[from] == PLUS;
    let start: usize = if signed {
        from + 1
    } else {
        from
    };
    let ghost digits = if signed {
        piece.skip(1)
    } else {
        piece
    };
    assert(piece[0] == text@[from as int]);
    assert(digits =~= text@.subrange(start as int, to as int));
    if start == to {
        return None;
    }
    let mut size: i64 = 0;
    let mut i: usize = start;
    while i < to
        invariant
            from < to,
            start <= i <= to <= text@.len(),
            piece == text@.subrange(from as int, to as int),
            signed == (piece[0] == MINUS || piece[0] == PLUS),
            negative == (piece[0] == MINUS),
            digits == if signed {
                piece.skip(1)
            } else {
                piece
            },
            digits.len() == to - start,
            start < to,
            digits == text@.subrange(start as int, to as int),
            forall|k: int| 0 <= k < i - start ==> is_digit(#[trigger] digits[k]),
            size == digits_value(digits.take(i - start)),
            0 <= size <= 0x8000_0000,
        decreases to - i,
    {
        let byte: u8 = text[i];
        assert(digits[i - start] == byte);
        if byte < ZERO || byte > NINE {
            return None;
        }
        proof {
            assert(digits.take(i - start + 1).drop_last() =~= digits.take(i - start));
        }
        size = size * 10 + (byte - ZERO) as i64;
        if size > 0x8000_0000 {
            proof {
                if all_digits(digits) {
                    lemma_digits_value_grows(digits, i - start + 1);
                }
            }
            return None;
        }
        i = i + 1;
    }
    assert(digits.take(to - start) =~= digits);
    if negative {
        Some((-size) as i32)
    } else if size > 0x7fff_ffff {
        None
    } else {
        Some(size as i32)
    }
}

} // verus!
