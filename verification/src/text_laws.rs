//! What holds of the text functions of [`crate::text`] and
//! [`crate::format`], proved from their definitions: what trimming and
//! splitting leave of a text, that a count which was written is read back as
//! it was, and that an escaped text holds no markup.

use crate::format::digit_char;
use crate::format::digits_of;
use crate::format::escaped;
use crate::format::escaped_char;
use crate::text::all_digits;
use crate::text::decimal;
use crate::text::is_digit;
use crate::text::is_whitespace;
use crate::text::last_index_of;
use crate::text::parse_count;
use crate::text::split;
use crate::text::trim_end;
use crate::text::trim_start;
use crate::text::trimmed;
use crate::text::unsigned;
use vstd::prelude::*;

verus! {

/// Trimming at the start drops a run of white space from the start, and
/// stops at the first character that is not white space.
pub proof fn lemma_trim_start(text: Seq<char>)
    ensures
        trim_start(text).len() <= text.len(),
        trim_start(text) == text.skip(text.len() - trim_start(text).len()),
        forall|i: int|
            0 <= i < text.len() - trim_start(text).len() ==> is_whitespace(#[trigger] text[i]),
        trim_start(text).len() > 0 ==> !is_whitespace(trim_start(text).first()),
    decreases text.len(),
{
    if text.len() > 0 && is_whitespace(text.first()) {
        let rest = text.drop_first();
        let cut = text.len() - trim_start(text).len();
        lemma_trim_start(rest);
        assert(rest.skip(cut - 1) =~= text.skip(cut));
        assert forall|i: int| 0 <= i < cut implies is_whitespace(#[trigger] text[i]) by {
            if i > 0 {
                assert(text[i] == rest[i - 1]);
            }
        }
    } else {
        assert(text.skip(0) =~= text);
    }
}

/// Trimming at the end drops a run of white space from the end, and stops
/// at the last character that is not white space.
pub proof fn lemma_trim_end(text: Seq<char>)
    ensures
        trim_end(text).len() <= text.len(),
        trim_end(text) == text.take(trim_end(text).len() as int),
        forall|i: int| trim_end(text).len() <= i < text.len() ==> is_whitespace(#[trigger] text[i]),
        trim_end(text).len() > 0 ==> !is_whitespace(trim_end(text).last()),
    decreases text.len(),
{
    if text.len() > 0 && is_whitespace(text.last()) {
        let rest = text.drop_last();
        lemma_trim_end(rest);
        assert(rest.take(trim_end(rest).len() as int) =~= text.take(trim_end(text).len() as int));
        assert forall|i: int| trim_end(text).len() <= i < text.len() implies is_whitespace(
            #[trigger] text[i],
        ) by {
            if i < text.len() - 1 {
                assert(text[i] == rest[i]);
            }
        }
    } else {
        assert(text.take(text.len() as int) =~= text);
    }
}

/// A trimmed text is the part of the text between its first and its last
/// character that is not white space.
pub proof fn lemma_trimmed(text: Seq<char>)
    ensures
        ({
            let inner = trimmed(text);
            let lo = text.len() - trim_start(text).len();
            let hi = lo + inner.len();
            &&& 0 <= lo <= hi <= text.len()
            &&& inner == text.subrange(lo, hi)
            &&& forall|i: int| 0 <= i < lo ==> is_whitespace(#[trigger] text[i])
            &&& forall|i: int| hi <= i < text.len() ==> is_whitespace(#[trigger] text[i])
            &&& inner.len() > 0 ==> !is_whitespace(inner.first()) && !is_whitespace(inner.last())
        }),
{
    let tail = trim_start(text);
    let inner = trimmed(text);
    let lo = text.len() - tail.len();
    let hi = lo + inner.len();
    lemma_trim_start(text);
    lemma_trim_end(tail);
    assert(tail.take(inner.len() as int) =~= text.subrange(lo, hi));
    assert forall|i: int| hi <= i < text.len() implies is_whitespace(#[trigger] text[i]) by {
        assert(text[i] == tail[i - lo]);
    }
    if inner.len() > 0 {
        assert(inner.first() == tail.first());
    }
}

/// The position that [`last_index_of`] gives holds the character, and no
/// later one does; it gives none exactly if the text is without it.
pub proof fn lemma_last_index_of(text: Seq<char>, c: char)
    ensures
        match last_index_of(text, c) {
            Some(at) => {
                &&& 0 <= at < text.len()
                &&& text[at] == c
                &&& forall|i: int| at < i < text.len() ==> #[trigger] text[i] != c
            },
            None => !text.contains(c),
        },
    decreases text.len(),
{
    if text.len() > 0 && text.last() != c {
        let rest = text.drop_last();
        lemma_last_index_of(rest, c);
        match last_index_of(rest, c) {
            Some(at) => {
                assert(text[at] == rest[at]);
                assert forall|i: int| at < i < text.len() implies #[trigger] text[i] != c by {
                    if i < text.len() - 1 {
                        assert(text[i] == rest[i]);
                    }
                }
            },
            None => {
                assert forall|i: int| 0 <= i < text.len() implies text[i] != c by {
                    if i < text.len() - 1 {
                        assert(rest[i] == text[i]);
                        assert(rest.contains(rest[i]));
                    }
                }
            },
        }
    }
}

/// The pieces of `pieces` with `sep` between each and the next.
pub open spec fn joined(pieces: Seq<Seq<char>>, sep: char) -> Seq<char>
    decreases pieces.len(),
{
    if pieces.len() == 0 {
        Seq::empty()
    } else if pieces.len() == 1 {
        pieces[0]
    } else {
        joined(pieces.drop_last(), sep).push(sep) + pieces.last()
    }
}

/// Splitting cuts the text at its separators and nowhere else: there is at
/// least one piece, no piece holds a separator, and the pieces with the
/// separator between them are the text.
pub proof fn lemma_split(text: Seq<char>, sep: char)
    ensures
        split(text, sep).len() >= 1,
        forall|k: int|
            0 <= k < split(text, sep).len() ==> !(#[trigger] split(text, sep)[k]).contains(sep),
        joined(split(text, sep), sep) == text,
    decreases text.len(),
{
    let pieces = split(text, sep);
    if text.len() == 0 {
        assert(pieces[0] =~= Seq::<char>::empty());
        assert(joined(pieces, sep) =~= text);
    } else {
        let before = split(text.drop_last(), sep);
        lemma_split(text.drop_last(), sep);
        if text.last() == sep {
            assert(pieces.drop_last() =~= before);
            assert(joined(pieces, sep) =~= joined(before, sep).push(sep));
            assert(joined(before, sep).push(sep) =~= text);
            assert forall|k: int| 0 <= k < pieces.len() implies !(#[trigger] pieces[k]).contains(
                sep,
            ) by {
                if k < before.len() {
                    assert(pieces[k] == before[k]);
                }
            }
        } else {
            let grown = before.last().push(text.last());
            assert(pieces.last() == grown);
            assert(pieces.drop_last() =~= before.drop_last());
            assert forall|k: int| 0 <= k < pieces.len() implies !(#[trigger] pieces[k]).contains(
                sep,
            ) by {
                if k < before.len() - 1 {
                    assert(pieces[k] == before[k]);
                } else {
                    assert forall|i: int| 0 <= i < grown.len() implies grown[i] != sep by {
                        if i < grown.len() - 1 {
                            assert(before.last().contains(before.last()[i]));
                        }
                    }
                }
            }
            if before.len() == 1 {
                assert(joined(pieces, sep) =~= joined(before, sep).push(text.last()));
            } else {
                assert(joined(pieces, sep) =~= joined(before, sep).push(text.last()));
            }
            assert(joined(before, sep).push(text.last()) =~= text);
        }
    }
}

/// The digits of a number are digits, and stand for that number.
pub proof fn lemma_digits_of(n: nat)
    ensures
        digits_of(n).len() >= 1,
        all_digits(digits_of(n)),
        decimal(digits_of(n)) == n,
        digits_of(n).first() != '+',
    decreases n,
{
    let digits = digits_of(n);
    let low = digit_char((n % 10) as int);
    assert(is_digit(low) && low as u32 - 0x30 == n % 10 && low != '+') by {
        lemma_digit_char((n % 10) as int);
    }
    assert(digits.last() == low);
    if n < 10 {
        assert(digits.drop_last() =~= Seq::<char>::empty());
        assert(decimal(digits.drop_last()) == 0);
        assert(decimal(digits) == decimal(digits.drop_last()) * 10 + (low as u32 - 0x30) as nat);
    } else {
        lemma_digits_of(n / 10);
        assert(digits.drop_last() =~= digits_of(n / 10));
        assert(decimal(digits) == decimal(digits.drop_last()) * 10 + (low as u32 - 0x30) as nat);
        assert(digits.first() == digits_of(n / 10).first());
        assert forall|i: int| 0 <= i < digits.len() implies is_digit(#[trigger] digits[i]) by {
            if i < digits.len() - 1 {
                assert(digits[i] == digits_of(n / 10)[i]);
            }
        }
    }
}

/// Each of the ten digits stands for its value.
pub proof fn lemma_digit_char(value: int)
    requires
        0 <= value < 10,
    ensures
        is_digit(digit_char(value)),
        digit_char(value) as u32 - 0x30 == value,
        digit_char(value) != '+',
{
}

/// A count that is written in base ten is read back as it was.
pub proof fn lemma_count_round_trip(n: u64)
    ensures
        parse_count(digits_of(n as nat)) == Some(n),
{
    lemma_digits_of(n as nat);
    assert(unsigned(digits_of(n as nat)) == digits_of(n as nat));
}

/// None of the characters to which markup gives a meaning is left in an
/// escaped text, but for the `&` that begins an entity.
pub proof fn lemma_escaped_is_safe(text: Seq<char>)
    ensures
        forall|i: int|
            0 <= i < escaped(text).len() ==> {
                let c = #[trigger] escaped(text)[i];
                c != '<' && c != '>' && c != '"' && c != '\''
            },
    decreases text.len(),
{
    if text.len() > 0 {
        let front = escaped(text.drop_last());
        let tail = escaped_char(text.last());
        lemma_escaped_is_safe(text.drop_last());
        assert forall|i: int| 0 <= i < escaped(text).len() implies {
            let c = #[trigger] escaped(text)[i];
            c != '<' && c != '>' && c != '"' && c != '\''
        } by {
            if i < front.len() {
                assert(escaped(text)[i] == front[i]);
            } else {
                assert(escaped(text)[i] == tail[i - front.len()]);
            }
        }
    }
}

} // verus!
