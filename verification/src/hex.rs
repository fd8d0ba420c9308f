//! Uppercase hexadecimal text for the diagnostic dump of run sequences.

use vstd::prelude::*;

verus! {

/// The character for one hexadecimal digit, upper case.
pub open spec fn hex_digit(d: int) -> char {
    if d == 0 {
        '0'
    } else if d == 1 {
        '1'
    } else if d == 2 {
        '2'
    } else if d == 3 {
        '3'
    } else if d == 4 {
        '4'
    } else if d == 5 {
        '5'
    } else if d == 6 {
        '6'
    } else if d == 7 {
        '7'
    } else if d == 8 {
        '8'
    } else if d == 9 {
        '9'
    } else if d == 10 {
        'A'
    } else if d == 11 {
        'B'
    } else if d == 12 {
        'C'
    } else if d == 13 {
        'D'
    } else if d == 14 {
        'E'
    } else {
        'F'
    }
}

/// The uppercase hexadecimal digits of `n`, most significant first,
/// with no leading zeros; empty when `n` is zero.
pub open spec fn hex_rec(n: int) -> Seq<char>
    decreases n,
{
    if n <= 0 {
        Seq::empty()
    } else {
        hex_rec(n / 16).push(hex_digit(n % 16))
    }
}

/// The uppercase hexadecimal text of `n`: its digits, or `0` alone.
pub open spec fn hex_digits(n: int) -> Seq<char> {
    if n == 0 {
        seq!['0']
    } else {
        hex_rec(n)
    }
}

/// The diagnostic text of a run sequence: an `INDEX:LENGTH,` token per
/// run, both numbers in uppercase hexadecimal.
pub open spec fn hex_of_runs(rs: Seq<(int, int)>) -> Seq<char>
    decreases rs.len(),
{
    if rs.len() == 0 {
        Seq::empty()
    } else {
        hex_digits(rs[0].0) + seq![':'] + hex_digits(rs[0].1) + seq![','] + hex_of_runs(
            rs.drop_first(),
        )
    }
}

/// The text of a run sequence is its first run's token, then the text
/// of the rest.
pub proof fn lemma_hex_of_runs_cons(head: (int, int), rest: Seq<(int, int)>)
    ensures
        hex_of_runs(seq![head] + rest) == hex_digits(head.0) + seq![':'] + hex_digits(head.1)
            + seq![','] + hex_of_runs(rest),
{
    let rs = seq![head] + rest;
    assert(rs[0] == head);
    assert(rs.drop_first() =~= rest);
}

/// The character for one hexadecimal digit, upper case.
fn hex_digit_char(d: usize) -> (c: char)
    requires
        d < 16,
    ensures
        c == hex_digit(d as int),
{
    if d == 0 {
        '0'
    } else if d == 1 {
        '1'
    } else if d == 2 {
        '2'
    } else if d == 3 {
        '3'
    } else if d == 4 {
        '4'
    } else if d == 5 {
        '5'
    } else if d == 6 {
        '6'
    } else if d == 7 {
        '7'
    } else if d == 8 {
        '8'
    } else if d == 9 {
        '9'
    } else if d == 10 {
        'A'
    } else if d == 11 {
        'B'
    } else if d == 12 {
        'C'
    } else if d == 13 {
        'D'
    } else if d == 14 {
        'E'
    } else {
        'F'
    }
}

/// Appends the digits of `n`, most significant first; nothing for zero.
fn push_hex_rec(out: &mut Vec<char>, n: usize)
    ensures
        final(out)@ == old(out)@ + hex_rec(n as int),
    decreases n,
{
    if n > 0 {
        push_hex_rec(out, n / 16);
        out.push(hex_digit_char(n % 16));
        proof {
            assert(out@ =~= old(out)@ + hex_rec(n as int));
        }
    } else {
        proof {
            assert(old(out)@ + hex_rec(0) =~= old(out)@);
        }
    }
}

/// Appends the uppercase hexadecimal text of `n`.
pub(crate) fn push_hex(out: &mut Vec<char>, n: usize)
    ensures
        final(out)@ == old(out)@ + hex_digits(n as int),
{
    if n == 0 {
        out.push('0');
        proof {
            assert(out@ =~= old(out)@ + hex_digits(0));
        }
    } else {
        push_hex_rec(out, n);
    }
}

} // verus!
