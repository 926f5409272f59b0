//! Text for the output: numbers in base ten, with or without a separator
//! between the thousands, and names made safe for a markup document.

use vstd::prelude::*;

verus! {

/// The digit that stands for `value`, which is below ten.
pub open spec fn digit_char(value: int) -> char {
    if value == 0 {
        '0'
    } else if value == 1 {
        '1'
    } else if value == 2 {
        '2'
    } else if value == 3 {
        '3'
    } else if value == 4 {
        '4'
    } else if value == 5 {
        '5'
    } else if value == 6 {
        '6'
    } else if value == 7 {
        '7'
    } else if value == 8 {
        '8'
    } else {
        '9'
    }
}

/// `n` in base ten, without leading zeros.
pub open spec fn digits_of(n: nat) -> Seq<char>
    decreases n,
{
    if n < 10 {
        seq![digit_char(n as int)]
    } else {
        digits_of(n / 10).push(digit_char((n % 10) as int))
    }
}

/// The last `width` digits of `n` in base ten, with leading zeros where `n`
/// has fewer.
pub open spec fn padded_digits(n: nat, width: nat) -> Seq<char>
    decreases width,
{
    if width == 0 {
        Seq::empty()
    } else {
        padded_digits(n / 10, (width - 1) as nat).push(digit_char((n % 10) as int))
    }
}

/// `n` in base ten, its digits in groups of three from the right with
/// `separator` between the groups.
pub open spec fn grouped(n: nat, separator: char) -> Seq<char>
    decreases n,
{
    if n < 1000 {
        digits_of(n)
    } else {
        grouped(n / 1000, separator).push(separator) + padded_digits(n % 1000, 3)
    }
}

/// What stands for `c` in a markup document: a named entity for each of the
/// five characters that markup gives a meaning, and `c` itself otherwise.
pub open spec fn escaped_char(c: char) -> Seq<char> {
    if c == '&' {
        seq!['&', 'a', 'm', 'p', ';']
    } else if c == '<' {
        seq!['&', 'l', 't', ';']
    } else if c == '>' {
        seq!['&', 'g', 't', ';']
    } else if c == '"' {
        seq!['&', 'q', 'u', 'o', 't', ';']
    } else if c == '\'' {
        seq!['&', 'a', 'p', 'o', 's', ';']
    } else {
        seq![c]
    }
}

/// `text` with every character replaced by what stands for it in a markup
/// document.
pub open spec fn escaped(text: Seq<char>) -> Seq<char>
    decreases text.len(),
{
    if text.len() == 0 {
        Seq::empty()
    } else {
        escaped(text.drop_last()) + escaped_char(text.last())
    }
}

/// The digit that stands for `value`.
fn digit(value: u64) -> (c: char)
    requires
        value < 10,
    ensures
        c == digit_char(value as int),
{
    if value == 0 {
        '0'
    } else if value == 1 {
        '1'
    } else if value == 2 {
        '2'
    } else if value == 3 {
        '3'
    } else if value == 4 {
        '4'
    } else if value == 5 {
        '5'
    } else if value == 6 {
        '6'
    } else if value == 7 {
        '7'
    } else if value == 8 {
        '8'
    } else {
        '9'
    }
}

/// Appends the characters of `tail`, last one first, to `out`.
fn push_backwards(out: &mut String, tail: Vec<char>)
    ensures
        final(out)@ == old(out)@ + tail@.reverse(),
{
    let mut tail = tail;
    let ghost all = tail@;
    proof {
        assert(old(out)@ + Seq::<char>::empty() =~= old(out)@);
        assert(all.reverse().take(0) =~= Seq::<char>::empty());
    }
    while tail.len() > 0
        invariant
            tail@.len() <= all.len(),
            tail@ == all.take(tail@.len() as int),
            out@ == old(out)@ + all.reverse().take(all.len() - tail@.len()),
        decreases tail@.len(),
    {
        let ghost n = tail@.len();
        let c = tail.pop().unwrap();
        out.push(c);
        proof {
            let turned = all.reverse();
            assert(c == all[n - 1]);
            assert(turned[all.len() - n] == c);
            assert(turned.take(all.len() - n + 1) =~= turned.take(all.len() - n).push(c));
            assert(tail@ =~= all.take(n - 1));
            assert(out@ =~= old(out)@ + turned.take(all.len() - n + 1));
        }
    }
    proof {
        assert(all.reverse().take(all.len() as int) =~= all.reverse());
    }
}

/// Appends `n` in base ten to `out`.
pub fn push_number(out: &mut String, n: u64)
    ensures
        final(out)@ == old(out)@ + digits_of(n as nat),
{
    let mut tail: Vec<char> = Vec::new();
    let mut rest = n;
    while rest >= 10
        invariant
            digits_of(n as nat) == digits_of(rest as nat) + tail@.reverse(),
        decreases rest,
    {
        let ghost had = tail@;
        let c = digit(rest % 10);
        tail.push(c);
        proof {
            assert(digits_of(rest as nat) == digits_of((rest / 10) as nat).push(c));
            assert(tail@.reverse() =~= seq![c] + had.reverse());
            assert(digits_of((rest / 10) as nat).push(c) + had.reverse() =~= digits_of(
                (rest / 10) as nat,
            ) + tail@.reverse());
        }
        rest = rest / 10;
    }
    let ghost had = tail@;
    let c = digit(rest);
    tail.push(c);
    proof {
        assert(tail@.reverse() =~= seq![c] + had.reverse());
        assert(digits_of(n as nat) =~= tail@.reverse());
    }
    push_backwards(out, tail);
}

/// Appends `n` in base ten to `out`, with `separator` between each group
/// of three digits and the next.
pub fn push_grouped(out: &mut String, n: u64, separator: char)
    ensures
        final(out)@ == old(out)@ + grouped(n as nat, separator),
{
    let mut tail: Vec<char> = Vec::new();
    let mut rest = n;
    while rest >= 1000
        invariant
            grouped(n as nat, separator) == grouped(rest as nat, separator) + tail@.reverse(),
        decreases rest,
    {
        let ghost had = tail@;
        let group = rest % 1000;
        let ones = digit(group % 10);
        let tens = digit(group / 10 % 10);
        let hundreds = digit(group / 100);
        tail.push(ones);
        tail.push(tens);
        tail.push(hundreds);
        tail.push(separator);
        proof {
            let low = padded_digits(group as nat, 3);
            reveal_with_fuel(padded_digits, 4);
            assert(low =~= seq![hundreds, tens, ones]);
            assert(tail@.reverse() =~= seq![separator] + low + had.reverse());
            assert(grouped(rest as nat, separator) == grouped((rest / 1000) as nat, separator).push(
                separator,
            ) + low);
            assert(grouped(rest as nat, separator) + had.reverse() =~= grouped(
                (rest / 1000) as nat,
                separator,
            ) + tail@.reverse());
        }
        rest = rest / 1000;
    }
    proof {
        assert(old(out)@ + grouped(n as nat, separator) =~= old(out)@ + digits_of(rest as nat)
            + tail@.reverse());
    }
    push_number(out, rest);
    push_backwards(out, tail);
}

/// Appends `text` to `out`.
pub fn push_text(out: &mut String, text: &str)
    ensures
        final(out)@ == old(out)@ + text@,
{
    proof {
        assert(old(out)@ + text@.take(0) =~= old(out)@);
    }
    for c in iter: text.chars()
        invariant
            iter.seq() == text@,
            out@ == old(out)@ + text@.take(iter.index() as int),
    {
        proof {
            let n = iter.index() as int;
            assert(text@.take(n + 1) =~= text@.take(n).push(c));
            assert(old(out)@ + text@.take(n).push(c) =~= (old(out)@ + text@.take(n)).push(c));
        }
        out.push(c);
    }
    proof {
        assert(text@.take(text@.len() as int) =~= text@);
    }
}

/// Appends `text` to `out`, made safe for a markup document: `&`, `<`, `>`
/// and the two quotation marks are written as named entities.
pub fn push_escaped(out: &mut String, text: &str)
    ensures
        final(out)@ == old(out)@ + escaped(text@),
{
    proof {
        assert(text@.take(0) =~= Seq::<char>::empty());
        assert(old(out)@ + escaped(text@.take(0)) =~= old(out)@);
    }
    for c in iter: text.chars()
        invariant
            iter.seq() == text@,
            out@ == old(out)@ + escaped(text@.take(iter.index() as int)),
    {
        let ghost n = iter.index() as int;
        let ghost had = out@;
        proof {
            assert(text@.take(n + 1).drop_last() =~= text@.take(n));
            assert(text@.take(n + 1).last() == c);
        }
        if c == '&' {
            out.push('&');
            out.push('a');
            out.push('m');
            out.push('p');
            out.push(';');
        } else if c == '<' {
            out.push('&');
            out.push('l');
            out.push('t');
            out.push(';');
        } else if c == '>' {
            out.push('&');
            out.push('g');
            out.push('t');
            out.push(';');
        } else if c == '"' {
            out.push('&');
            out.push('q');
            out.push('u');
            out.push('o');
            out.push('t');
            out.push(';');
        } else if c == '\'' {
            out.push('&');
            out.push('a');
            out.push('p');
            out.push('o');
            out.push('s');
            out.push(';');
        } else {
            out.push(c);
        }
        proof {
            assert(out@ =~= had + escaped_char(c));
            assert(out@ =~= old(out)@ + escaped(text@.take(n + 1)));
        }
    }
    proof {
        assert(text@.take(text@.len() as int) =~= text@);
    }
}

} // verus!
