//! The text of one input line: a stack of frame names separated by `;`, a
//! space, and the number of samples in which that stack was seen.
//!
//! Strings are built one character at a time; the specification of
//! `String::push` at the end of this file is the one thing that this module
//! takes on trust.

use vstd::prelude::*;

verus! {

/// The characters with the Unicode property `White_Space`.
pub open spec fn is_whitespace(c: char) -> bool {
    let code = c as u32;
    ||| 0x09 <= code <= 0x0D
    ||| code == 0x20
    ||| code == 0x85
    ||| code == 0xA0
    ||| code == 0x1680
    ||| 0x2000 <= code <= 0x200A
    ||| code == 0x2028
    ||| code == 0x2029
    ||| code == 0x202F
    ||| code == 0x205F
    ||| code == 0x3000
}

/// Whether `c` is white space.
pub fn is_space(c: char) -> (space: bool)
    ensures
        space == is_whitespace(c),
{
    let code = c as u32;
    (0x09 <= code && code <= 0x0D)
        || code == 0x20
        || code == 0x85
        || code == 0xA0
        || code == 0x1680
        || (0x2000 <= code && code <= 0x200A)
        || code == 0x2028
        || code == 0x2029
        || code == 0x202F
        || code == 0x205F
        || code == 0x3000
}

/// The characters of `line`.
pub fn chars_of(line: &str) -> (chars: Vec<char>)
    ensures
        chars@ == line@,
{
    let mut chars: Vec<char> = Vec::new();
    for c in iter: line.chars()
        invariant
            iter.seq() == line@,
            chars@ == iter.seq().take(iter.index() as int),
    {
        chars.push(c);
    }
    chars
}

/// `text` without the white space at its start.
pub open spec fn trim_start(text: Seq<char>) -> Seq<char>
    decreases text.len(),
{
    if text.len() > 0 && is_whitespace(text.first()) {
        trim_start(text.drop_first())
    } else {
        text
    }
}

/// `text` without the white space at its end.
pub open spec fn trim_end(text: Seq<char>) -> Seq<char>
    decreases text.len(),
{
    if text.len() > 0 && is_whitespace(text.last()) {
        trim_end(text.drop_last())
    } else {
        text
    }
}

/// `text` without the white space at its start and at its end.
pub open spec fn trimmed(text: Seq<char>) -> Seq<char> {
    trim_end(trim_start(text))
}

/// The position of the last `c` in `text`.
pub open spec fn last_index_of(text: Seq<char>, c: char) -> Option<int>
    decreases text.len(),
{
    if text.len() == 0 {
        None
    } else if text.last() == c {
        Some(text.len() - 1)
    } else {
        last_index_of(text.drop_last(), c)
    }
}

/// Whether `c` is one of the digits `0` to `9`.
pub open spec fn is_digit(c: char) -> bool {
    0x30 <= c as u32 <= 0x39
}

/// The number that a sequence of digits stands for in base ten.
pub open spec fn decimal(digits: Seq<char>) -> nat
    decreases digits.len(),
{
    if digits.len() == 0 {
        0
    } else {
        decimal(digits.drop_last()) * 10 + (digits.last() as u32 - 0x30) as nat
    }
}

/// Whether `text` is made of digits only.
pub open spec fn all_digits(text: Seq<char>) -> bool {
    forall|i: int| 0 <= i < text.len() ==> is_digit(#[trigger] text[i])
}

/// `text` without the `+` that may stand before a number.
pub open spec fn unsigned(text: Seq<char>) -> Seq<char> {
    if text.len() > 0 && text.first() == '+' {
        text.drop_first()
    } else {
        text
    }
}

/// The count that `text` stands for: one or more digits, with or without a
/// `+` before them, whose number fits 64 bits. Anything else is no count.
pub open spec fn parse_count(text: Seq<char>) -> Option<u64> {
    let digits = unsigned(text);
    if digits.len() > 0 && all_digits(digits) && decimal(digits) <= u64::MAX {
        Some(decimal(digits) as u64)
    } else {
        None
    }
}

/// The pieces of `text` between the separators `sep`: one more than there
/// are separators, in their order, empty ones included.
pub open spec fn split(text: Seq<char>, sep: char) -> Seq<Seq<char>>
    decreases text.len(),
{
    if text.len() == 0 {
        seq![Seq::empty()]
    } else {
        let before = split(text.drop_last(), sep);
        if text.last() == sep {
            before.push(Seq::empty())
        } else {
            before.drop_last().push(before.last().push(text.last()))
        }
    }
}

/// The frame names of a stack, outermost frame first: the pieces between
/// the `;` that are not empty. With `reverse` the order is turned round.
pub open spec fn frames_of(stack: Seq<char>, reverse: bool) -> Seq<Seq<char>> {
    let names = split(stack, ';').filter(|piece: Seq<char>| piece.len() > 0);
    if reverse {
        names.reverse()
    } else {
        names
    }
}

/// A line of input taken apart: the text of the stack, and the count.
pub struct Fields {
    pub stack: Seq<char>,
    pub count: u64,
}

/// The fields of a line. The line is trimmed; its last space parts the stack
/// from the count. A line without a space, or with no count after its last
/// space, is invalid.
pub open spec fn fields_of(line: Seq<char>) -> Option<Fields> {
    let text = trimmed(line);
    match last_index_of(text, ' ') {
        None => None,
        Some(at) => match parse_count(text.subrange(at + 1, text.len() as int)) {
            None => None,
            Some(count) => Some(Fields { stack: text.subrange(0, at), count }),
        },
    }
}

/// The texts of a sequence of strings.
pub open spec fn texts(strings: Seq<String>) -> Seq<Seq<char>> {
    strings.map_values(|s: String| s@)
}

/// One valid line of input: the frame names of the stack in the order in
/// which they go into the tree, and the count.
pub struct Sample {
    pub frames: Vec<String>,
    pub count: u64,
}

/// A [`Sample`] as a mathematical value.
pub struct SampleView {
    pub frames: Seq<Seq<char>>,
    pub count: u64,
}

impl View for Sample {
    type V = SampleView;

    open spec fn view(&self) -> SampleView {
        SampleView { frames: texts(self.frames@), count: self.count }
    }
}

/// The sample that a line stands for, if the line is valid. With `reverse`
/// the innermost frame of the stack comes first.
pub open spec fn sample_of(line: Seq<char>, reverse: bool) -> Option<SampleView> {
    match fields_of(line) {
        None => None,
        Some(fields) => Some(
            SampleView { frames: frames_of(fields.stack, reverse), count: fields.count },
        ),
    }
}

/// The bounds of `chars` without the white space at its start and end.
fn trim_bounds(chars: &Vec<char>) -> (bounds: (usize, usize))
    ensures
        bounds.0 <= bounds.1 <= chars@.len(),
        chars@.subrange(bounds.0 as int, bounds.1 as int) == trimmed(chars@),
{
    let mut lo: usize = 0;
    let len = chars.len();
    proof {
        assert(chars@.subrange(0, len as int) =~= chars@);
    }
    while lo < len && is_space(chars[lo])
        invariant
            lo <= len,
            len == chars@.len(),
            trim_start(chars@) == trim_start(chars@.subrange(lo as int, len as int)),
        decreases len - lo,
    {
        proof {
            let rest = chars@.subrange(lo as int, len as int);
            assert(rest.first() == chars@[lo as int]);
            assert(rest.drop_first() =~= chars@.subrange(lo + 1, len as int));
        }
        lo = lo + 1;
    }
    proof {
        let rest = chars@.subrange(lo as int, len as int);
        if lo < len {
            assert(rest.first() == chars@[lo as int]);
        }
        assert(trim_start(chars@) == rest);
    }
    let mut hi: usize = len;
    while hi > lo && is_space(chars[hi - 1])
        invariant
            lo <= hi <= len,
            len == chars@.len(),
            trimmed(chars@) == trim_end(chars@.subrange(lo as int, hi as int)),
        decreases hi,
    {
        proof {
            let rest = chars@.subrange(lo as int, hi as int);
            assert(rest.last() == chars@[hi - 1]);
            assert(rest.drop_last() =~= chars@.subrange(lo as int, hi - 1));
        }
        hi = hi - 1;
    }
    proof {
        let rest = chars@.subrange(lo as int, hi as int);
        if hi > lo {
            assert(rest.last() == chars@[hi - 1]);
        }
    }
    (lo, hi)
}

/// The position of the last space among `chars[lo..hi]`, counted from `lo`.
fn last_space(chars: &Vec<char>, lo: usize, hi: usize) -> (found: Option<usize>)
    requires
        lo <= hi <= chars@.len(),
    ensures
        match found {
            Some(at) => lo <= at < hi && last_index_of(
                chars@.subrange(lo as int, hi as int),
                ' ',
            ) == Some(at - lo),
            None => last_index_of(chars@.subrange(lo as int, hi as int), ' ') is None,
        },
{
    let mut at: usize = hi;
    proof {
        assert(chars@.subrange(lo as int, hi as int).subrange(0, hi - lo) =~= chars@.subrange(
            lo as int,
            hi as int,
        ));
    }
    while at > lo
        invariant
            lo <= at <= hi <= chars@.len(),
            last_index_of(chars@.subrange(lo as int, hi as int), ' ') == last_index_of(
                chars@.subrange(lo as int, at as int),
                ' ',
            ),
        decreases at,
    {
        proof {
            let rest = chars@.subrange(lo as int, at as int);
            assert(rest.last() == chars@[at - 1]);
            assert(rest.drop_last() =~= chars@.subrange(lo as int, at - 1));
        }
        if chars[at - 1] == ' ' {
            return Some(at - 1);
        }
        at = at - 1;
    }
    None
}

/// The first digits count no more than all of them.
proof fn lemma_decimal_prefix(digits: Seq<char>, n: int)
    requires
        0 <= n <= digits.len(),
    ensures
        decimal(digits.take(n)) <= decimal(digits),
    decreases digits.len(),
{
    if n < digits.len() {
        lemma_decimal_prefix(digits.drop_last(), n);
        assert(digits.drop_last().take(n) =~= digits.take(n));
    } else {
        assert(digits.take(n) =~= digits);
    }
}

/// The count that `chars[lo..hi]` stands for, if it is one.
fn count_of(chars: &Vec<char>, lo: usize, hi: usize) -> (count: Option<u64>)
    requires
        lo <= hi <= chars@.len(),
    ensures
        count == parse_count(chars@.subrange(lo as int, hi as int)),
{
    let ghost text = chars@.subrange(lo as int, hi as int);
    let start = if lo < hi && chars[lo] == '+' {
        lo + 1
    } else {
        lo
    };
    let ghost digits = chars@.subrange(start as int, hi as int);
    proof {
        if lo < hi {
            assert(text.first() == chars@[lo as int]);
        }
        if start > lo {
            assert(text.drop_first() =~= digits);
        } else {
            assert(text =~= digits);
        }
        assert(digits.take(0) =~= Seq::<char>::empty());
    }
    if start == hi {
        return None;
    }
    let mut value: u64 = 0;
    let mut i: usize = start;
    while i < hi
        invariant
            start <= i <= hi <= chars@.len(),
            start < hi,
            text == chars@.subrange(lo as int, hi as int),
            digits == chars@.subrange(start as int, hi as int),
            digits == unsigned(text),
            all_digits(digits.take(i - start)),
            value == decimal(digits.take(i - start)),
        decreases hi - i,
    {
        let code = chars[i] as u32;
        proof {
            assert(digits[i - start] == chars@[i as int]);
            assert(digits.take(i - start + 1).drop_last() =~= digits.take(i - start));
            assert(digits.take(i - start + 1).last() == digits[i - start]);
            lemma_decimal_prefix(digits, i - start + 1);
        }
        if code < 0x30 || code > 0x39 {
            proof {
                assert(!is_digit(digits[i - start]));
            }
            return None;
        }
        proof {
            assert forall|k: int| 0 <= k < i - start + 1 implies is_digit(
                #[trigger] digits.take(i - start + 1)[k],
            ) by {
                if k < i - start {
                    assert(digits.take(i - start + 1)[k] == digits.take(i - start)[k]);
                }
            }
        }
        let digit = (code - 0x30) as u64;
        match value.checked_mul(10) {
            Some(tens) => match tens.checked_add(digit) {
                Some(next) => {
                    value = next;
                },
                None => {
                    return None;
                },
            },
            None => {
                return None;
            },
        }
        i = i + 1;
    }
    proof {
        assert(digits.take(hi - start) =~= digits);
    }
    Some(value)
}

/// The frame names in `chars[lo..hi]`, outermost frame first.
fn names_of(chars: &Vec<char>, lo: usize, hi: usize) -> (names: Vec<String>)
    requires
        lo <= hi <= chars@.len(),
    ensures
        texts(names@) == frames_of(chars@.subrange(lo as int, hi as int), false),
{
    let ghost stack = chars@.subrange(lo as int, hi as int);
    let ghost nonempty = |piece: Seq<char>| piece.len() > 0;
    let mut names: Vec<String> = Vec::new();
    let mut name = String::new();
    let mut fresh = true;
    let ghost mut done: Seq<Seq<char>> = Seq::empty();
    let mut i: usize = lo;
    proof {
        assert(stack.take(0) =~= Seq::<char>::empty());
        assert(split(stack.take(0), ';') =~= done.push(name@));
        assert(texts(names@) =~= done.filter(nonempty));
    }
    while i < hi
        invariant
            lo <= i <= hi <= chars@.len(),
            stack == chars@.subrange(lo as int, hi as int),
            nonempty == |piece: Seq<char>| piece.len() > 0,
            split(stack.take(i - lo), ';') == done.push(name@),
            texts(names@) == done.filter(nonempty),
            fresh == (name@.len() == 0),
        decreases hi - i,
    {
        let c = chars[i];
        proof {
            assert(stack.take(i - lo + 1).drop_last() =~= stack.take(i - lo));
            assert(stack.take(i - lo + 1).last() == c);
            assert(done.push(name@).drop_last() =~= done);
        }
        if c == ';' {
            proof {
                assert(done.push(name@).drop_last() =~= done);
                assert(done.push(name@).last() == name@);
                reveal_with_fuel(Seq::filter, 2);
            }
            if !fresh {
                let ghost had = names@;
                names.push(name);
                proof {
                    assert(texts(names@) =~= texts(had).push(name@));
                }
            }
            proof {
                done = done.push(name@);
            }
            name = String::new();
            fresh = true;
        } else {
            name.push(c);
            fresh = false;
        }
        i = i + 1;
    }
    proof {
        assert(stack.take(hi - lo) =~= stack);
        assert(done.push(name@).drop_last() =~= done);
        reveal_with_fuel(Seq::filter, 2);
    }
    if !fresh {
        let ghost had = names@;
        names.push(name);
        proof {
            assert(texts(names@) =~= texts(had).push(name@));
        }
    }
    names
}

/// The strings of `names` in the opposite order.
fn reversed(names: Vec<String>) -> (turned: Vec<String>)
    ensures
        texts(turned@) == texts(names@).reverse(),
{
    let mut names = names;
    let ghost all = names@;
    let mut turned: Vec<String> = Vec::new();
    while names.len() > 0
        invariant
            names@.len() + turned@.len() == all.len(),
            forall|k: int| 0 <= k < names@.len() ==> names@[k] == all[k],
            forall|k: int| 0 <= k < turned@.len() ==> turned@[k] == all[all.len() - 1 - k],
        decreases names@.len(),
    {
        let name = names.pop().unwrap();
        turned.push(name);
    }
    proof {
        assert(texts(turned@) =~= texts(all).reverse());
    }
    turned
}

/// Takes one line of input apart.
///
/// The line is trimmed. Its last space parts the stack from the count; the
/// count is a decimal number that fits 64 bits. The stack is cut at every
/// `;`, and empty frame names are dropped. With `reverse` the frames come
/// innermost first. A line without a space or without a count gives `None`.
pub fn parse_line(line: &str, reverse: bool) -> (sample: Option<Sample>)
    ensures
        match sample {
            Some(sample) => Some(sample@) == sample_of(line@, reverse),
            None => sample_of(line@, reverse) is None,
        },
{
    let chars = chars_of(line);
    let (lo, hi) = trim_bounds(&chars);
    let ghost text = trimmed(line@);
    let at = match last_space(&chars, lo, hi) {
        Some(at) => at,
        None => {
            return None;
        },
    };
    proof {
        assert(text.subrange(at - lo + 1, text.len() as int) =~= chars@.subrange(
            at + 1,
            hi as int,
        ));
        assert(text.subrange(0, at - lo) =~= chars@.subrange(lo as int, at as int));
    }
    let count = match count_of(&chars, at + 1, hi) {
        Some(count) => count,
        None => {
            return None;
        },
    };
    let names = names_of(&chars, lo, at);
    let frames = if reverse {
        reversed(names)
    } else {
        names
    };
    Some(Sample { frames, count })
}

/// `String::push`, which the standard library documents as appending the
/// given character to the end of the string. This is taken on trust.
pub assume_specification[ String::push ](s: &mut String, c: char)
    ensures
        final(s)@ == old(s)@.push(c),
;

} // verus!
