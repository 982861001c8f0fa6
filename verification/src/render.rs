//! Decimal text of integers, and the text of a list of clock entries.
use vstd::prelude::*;

verus! {

/// Appends `c` to `s`.
///
/// Trusted: `String::push`, which std documents as appending the char to
/// the end of the string.
#[verifier::external_body]
pub(crate) fn push_char(s: &mut String, c: char)
    ensures
        final(s)@ == old(s)@.push(c),
{
    s.push(c);
}

/// The character of the decimal digit `d`.
pub open spec fn digit_char(d: nat) -> char {
    if d == 0 {
        '0'
    } else if d == 1 {
        '1'
    } else if d == 2 {
        '2'
    } else if d == 3 {
        '3'
    } else if d == 4 {
        '4'
    } else if d == 5 {
        '5'
    } else if d == 6 {
        '6'
    } else if d == 7 {
        '7'
    } else if d == 8 {
        '8'
    } else {
        '9'
    }
}

/// The decimal digits of `n`, most significant first, without leading zeros.
pub open spec fn nat_text(n: nat) -> Seq<char>
    decreases n,
{
    if n < 10 {
        seq![digit_char(n)]
    } else {
        nat_text(n / 10).push(digit_char(n % 10))
    }
}

/// The decimal text of `n`, with a leading '-' where it is negative.
pub open spec fn int_text(n: int) -> Seq<char> {
    if n < 0 {
        seq!['-'] + nat_text((-n) as nat)
    } else {
        nat_text(n as nat)
    }
}

/// The text of one clock entry: `(process, count)`.
pub open spec fn entry_text(p: (i32, u32)) -> Seq<char> {
    seq!['('] + int_text(p.0 as int) + seq![',', ' '] + nat_text(p.1 as nat) + seq![')']
}

/// The entries' texts, separated by ", ".
pub open spec fn entries_text(s: Seq<(i32, u32)>) -> Seq<char>
    decreases s.len(),
{
    if s.len() == 0 {
        Seq::empty()
    } else if s.len() == 1 {
        entry_text(s[0])
    } else {
        entries_text(s.drop_last()) + seq![',', ' '] + entry_text(s.last())
    }
}

/// The text of a clock that lists the entries `s`: `[(p, c), (q, d)]`.
pub open spec fn clock_text(s: Seq<(i32, u32)>) -> Seq<char> {
    seq!['['] + entries_text(s) + seq![']']
}

/// The counts of the entries `s`, separated by ", ".
pub open spec fn values_text(s: Seq<(i32, u32)>) -> Seq<char>
    decreases s.len(),
{
    if s.len() == 0 {
        Seq::empty()
    } else if s.len() == 1 {
        nat_text(s[0].1 as nat)
    } else {
        values_text(s.drop_last()) + seq![',', ' '] + nat_text(s.last().1 as nat)
    }
}

/// The text of a list of counts: `[3, 0, 1]`, and nothing at all when the
/// list is empty.
pub open spec fn counts_text(s: Seq<(i32, u32)>) -> Seq<char> {
    if s.len() == 0 {
        Seq::empty()
    } else {
        seq!['['] + values_text(s) + seq![']']
    }
}

fn digit(d: u32) -> (c: char)
    requires
        d < 10,
    ensures
        c == digit_char(d as nat),
{
    match d {
        0 => '0',
        1 => '1',
        2 => '2',
        3 => '3',
        4 => '4',
        5 => '5',
        6 => '6',
        7 => '7',
        8 => '8',
        _ => '9',
    }
}

/// Appends the decimal text of `n`.
pub(crate) fn push_nat(s: &mut String, n: u32)
    ensures
        final(s)@ == old(s)@ + nat_text(n as nat),
    decreases n,
{
    if n >= 10 {
        push_nat(s, n / 10);
    }
    push_char(s, digit(n % 10));
    assert(final(s)@ =~= old(s)@ + nat_text(n as nat));
}

/// Appends the decimal text of `n`, with a '-' where it is negative.
pub(crate) fn push_int(s: &mut String, n: i32)
    ensures
        final(s)@ == old(s)@ + int_text(n as int),
{
    if n < 0 {
        push_char(s, '-');
        let m: u32 = (-(n + 1)) as u32 + 1;
        push_nat(s, m);
        assert(final(s)@ =~= old(s)@ + int_text(n as int));
    } else {
        push_nat(s, n as u32);
    }
}

/// Appends the text of one clock entry.
pub(crate) fn push_entry(s: &mut String, p: (i32, u32))
    ensures
        final(s)@ == old(s)@ + entry_text(p),
{
    push_char(s, '(');
    push_int(s, p.0);
    push_char(s, ',');
    push_char(s, ' ');
    push_nat(s, p.1);
    push_char(s, ')');
    assert(final(s)@ =~= old(s)@ + entry_text(p));
}

/// The text of a clock that lists `entries`.
pub(crate) fn entries_to_string(entries: &Vec<(i32, u32)>) -> (r: String)
    ensures
        r@ == clock_text(entries@),
{
    let mut s = String::new();
    push_char(&mut s, '[');
    let mut i: usize = 0;
    while i < entries.len()
        invariant
            0 <= i <= entries@.len(),
            s@ == seq!['['] + entries_text(entries@.take(i as int)),
        decreases entries@.len() - i,
    {
        let ghost before = s@;
        if i > 0 {
            push_char(&mut s, ',');
            push_char(&mut s, ' ');
        }
        push_entry(&mut s, entries[i]);
        proof {
            let t = entries@.take(i + 1);
            assert(t.drop_last() =~= entries@.take(i as int));
            assert(t.last() == entries@[i as int]);
            if i == 0 {
                assert(t.len() == 1);
                assert(s@ =~= seq!['['] + entries_text(t));
            } else {
                assert(s@ =~= seq!['['] + entries_text(t));
            }
        }
        i += 1;
    }
    assert(entries@.take(entries@.len() as int) =~= entries@);
    push_char(&mut s, ']');
    assert(s@ =~= clock_text(entries@));
    s
}

} // verus!

verus! {

/// The text of the counts of `entries`, by `counts_text`.
pub(crate) fn counts_to_string(entries: &Vec<(i32, u32)>) -> (r: String)
    ensures
        r@ == counts_text(entries@),
{
    let mut s = String::new();
    if entries.len() == 0 {
        return s;
    }
    push_char(&mut s, '[');
    let mut i: usize = 0;
    while i < entries.len()
        invariant
            0 <= i <= entries@.len(),
            entries@.len() > 0,
            s@ == seq!['['] + values_text(entries@.take(i as int)),
        decreases entries@.len() - i,
    {
        if i > 0 {
            push_char(&mut s, ',');
            push_char(&mut s, ' ');
        }
        push_nat(&mut s, entries[i].1);
        proof {
            let t = entries@.take(i + 1);
            assert(t.drop_last() =~= entries@.take(i as int));
            assert(t.last() == entries@[i as int]);
            assert(s@ =~= seq!['['] + values_text(t));
        }
        i += 1;
    }
    assert(entries@.take(entries@.len() as int) =~= entries@);
    push_char(&mut s, ']');
    assert(s@ =~= counts_text(entries@));
    s
}

} // verus!
