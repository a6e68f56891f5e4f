//! Decimal notation for the integers the export format writes: the digit
//! sequence of a number, the value of a digit sequence, and the executable
//! writer and reader, each tied to those specifications.

use vstd::prelude::*;

verus! {

/// Whether `c` is a decimal digit.
pub open spec fn is_digit_char(c: char) -> bool {
    48 <= c as int && c as int <= 57
}

/// The digit character for `d` in `0..10`.
pub open spec fn digit_char(d: int) -> char {
    if d == 0 {
        '0'
    } else if d == 1 {
        '1'
    } else if d == 2 {
        '2'
    } else if d == 3 {
        '3'
    } else if d == 4 {
        '4'
    } else if d == 5 {
        '5'
    } else if d == 6 {
        '6'
    } else if d == 7 {
        '7'
    } else if d == 8 {
        '8'
    } else {
        '9'
    }
}

/// The numeric value of a digit character.
pub open spec fn digit_val(c: char) -> int {
    c as int - 48
}

/// The decimal digits of `n`, most significant first, without a sign and
/// without leading zeros (`0` itself is the single digit `0`).
pub open spec fn dec_digits(n: nat) -> Seq<char>
    decreases n,
{
    if n < 10 {
        seq![digit_char(n as int)]
    } else {
        dec_digits(n / 10).push(digit_char((n % 10) as int))
    }
}

/// The value of a sequence of digit characters, read in decimal.
pub open spec fn dec_val(s: Seq<char>) -> int
    decreases s.len(),
{
    if s.len() == 0 {
        0
    } else {
        dec_val(s.drop_last()) * 10 + digit_val(s.last())
    }
}

/// `dec_digits` writes at least one character and nothing but digits.
pub proof fn lemma_dec_digits_shape(n: nat)
    ensures
        dec_digits(n).len() >= 1,
        forall|i: int| 0 <= i < dec_digits(n).len() ==> is_digit_char(#[trigger] dec_digits(n)[i]),
    decreases n,
{
    if n >= 10 {
        lemma_dec_digits_shape(n / 10);
    }
}

/// A digit character carries the digit it was made from.
pub proof fn lemma_digit_char_val(d: int)
    requires
        0 <= d < 10,
    ensures
        digit_val(digit_char(d)) == d,
        is_digit_char(digit_char(d)),
{
}

/// Reading the digits of `n` back in decimal yields `n`.
pub proof fn lemma_dec_val_of_digits(n: nat)
    ensures
        dec_val(dec_digits(n)) == n,
    decreases n,
{
    let s = dec_digits(n);
    assert(dec_val(s) == dec_val(s.drop_last()) * 10 + digit_val(s.last()));
    if n < 10 {
        lemma_digit_char_val(n as int);
        assert(s.drop_last() =~= Seq::<char>::empty());
        assert(dec_val(s.drop_last()) == 0);
        assert(s.last() == digit_char(n as int));
    } else {
        lemma_digit_char_val((n % 10) as int);
        lemma_dec_val_of_digits(n / 10);
        assert(s.drop_last() =~= dec_digits(n / 10));
        assert(s.last() == digit_char((n % 10) as int));
    }
}

/// A sequence of digit characters has a non-negative value.
pub proof fn lemma_dec_val_nonneg(s: Seq<char>)
    requires
        forall|i: int| 0 <= i < s.len() ==> is_digit_char(#[trigger] s[i]),
    ensures
        dec_val(s) >= 0,
    decreases s.len(),
{
    if s.len() > 0 {
        lemma_dec_val_nonneg(s.drop_last());
    }
}

/// Dropping digits from the end of a run never raises its value.
pub proof fn lemma_dec_val_take(s: Seq<char>, k: int)
    requires
        0 <= k <= s.len(),
        forall|i: int| 0 <= i < s.len() ==> is_digit_char(#[trigger] s[i]),
    ensures
        dec_val(s.take(k)) <= dec_val(s),
    decreases s.len() - k,
{
    if k == s.len() {
        assert(s.take(k) =~= s);
    } else {
        lemma_dec_val_nonneg(s.take(k));
        assert(s.take(k + 1).drop_last() =~= s.take(k));
        assert(s.take(k + 1).last() == s[k]);
        lemma_dec_val_take(s, k + 1);
    }
}

/// The length of the run of digit characters at the front of `s`.
pub open spec fn digit_run_len(s: Seq<char>) -> int
    decreases s.len(),
{
    if s.len() == 0 || !is_digit_char(s[0]) {
        0
    } else {
        1 + digit_run_len(s.skip(1))
    }
}

/// The digit run stays within `s` and covers digits only.
pub proof fn lemma_digit_run_bounds(s: Seq<char>)
    ensures
        0 <= digit_run_len(s) <= s.len(),
        forall|i: int| 0 <= i < digit_run_len(s) ==> is_digit_char(#[trigger] s[i]),
    decreases s.len(),
{
    if s.len() > 0 && is_digit_char(s[0]) {
        lemma_digit_run_bounds(s.skip(1));
        assert forall|i: int| 0 <= i < digit_run_len(s) implies is_digit_char(s[i]) by {
            if i >= 1 {
                assert(is_digit_char(s.skip(1)[i - 1]));
            }
        }
    }
}

/// A sequence made of digits and then either nothing or a non-digit has
/// exactly those digits as its run.
pub proof fn lemma_digit_run_of_prefix(a: Seq<char>, rest: Seq<char>)
    requires
        forall|i: int| 0 <= i < a.len() ==> is_digit_char(#[trigger] a[i]),
        rest.len() > 0 ==> !is_digit_char(rest[0]),
    ensures
        digit_run_len(a + rest) == a.len(),
    decreases a.len(),
{
    if a.len() == 0 {
        assert(a + rest =~= rest);
    } else {
        assert((a + rest)[0] == a[0]);
        assert((a + rest).skip(1) =~= a.skip(1) + rest);
        lemma_digit_run_of_prefix(a.skip(1), rest);
    }
}

/// The one-character string for digit `d`.
fn digit_str(d: usize) -> (r: &'static str)
    requires
        d < 10,
    ensures
        r@ == seq![digit_char(d as int)],
{
    let r: &'static str = match d {
        0 => "0",
        1 => "1",
        2 => "2",
        3 => "3",
        4 => "4",
        5 => "5",
        6 => "6",
        7 => "7",
        8 => "8",
        _ => "9",
    };
    proof {
        reveal_strlit("0");
        reveal_strlit("1");
        reveal_strlit("2");
        reveal_strlit("3");
        reveal_strlit("4");
        reveal_strlit("5");
        reveal_strlit("6");
        reveal_strlit("7");
        reveal_strlit("8");
        reveal_strlit("9");
        assert(r@ =~= seq![digit_char(d as int)]);
    }
    r
}

/// Appends the decimal digits of `n` to `out`.
pub fn push_decimal(out: &mut String, n: usize)
    ensures
        final(out)@ == old(out)@ + dec_digits(n as nat),
    decreases n,
{
    if n < 10 {
        out.append(digit_str(n));
        proof {
            assert(out@ =~= old(out)@ + dec_digits(n as nat));
        }
    } else {
        let d = n % 10;
        push_decimal(out, n / 10);
        out.append(digit_str(d));
        proof {
            assert(out@ =~= old(out)@ + dec_digits(n as nat));
        }
    }
}

/// Scans the digit run of `s` that starts at `pos` and returns the position
/// just past it.
pub fn scan_digits(s: &str, pos: usize, len: usize) -> (end: usize)
    requires
        len == s@.len(),
        pos <= len,
    ensures
        pos <= end <= len,
        end - pos == digit_run_len(s@.skip(pos as int)),
{
    let mut end = pos;
    loop
        invariant
            pos <= end <= len,
            len == s@.len(),
            digit_run_len(s@.skip(pos as int)) == end - pos + digit_run_len(s@.skip(end as int)),
        decreases len - end,
    {
        proof {
            lemma_digit_run_bounds(s@.skip(end as int));
        }
        if end == len {
            return end;
        }
        let c = s.get_char(end);
        let v = c as u32;
        if !(48 <= v && v <= 57) {
            proof {
                assert(s@.skip(end as int)[0] == s@[end as int]);
                assert(digit_run_len(s@.skip(end as int)) == 0);
            }
            return end;
        }
        proof {
            assert(s@.skip(end as int)[0] == s@[end as int]);
            assert(s@.skip(end as int).skip(1) =~= s@.skip(end + 1));
            assert(digit_run_len(s@.skip(end as int)) == 1 + digit_run_len(s@.skip(end + 1)));
        }
        end = end + 1;
    }
}

/// Reads the decimal value of the digit characters in `s[start..end)`;
/// `None` exactly when the value exceeds `usize::MAX`.
pub fn read_decimal(s: &str, start: usize, end: usize) -> (r: Option<usize>)
    requires
        start <= end <= s@.len(),
        s@.len() <= usize::MAX,
        forall|i: int| start <= i < end ==> is_digit_char(#[trigger] s@[i]),
    ensures
        match r {
            Some(v) => v == dec_val(s@.subrange(start as int, end as int)),
            None => dec_val(s@.subrange(start as int, end as int)) > usize::MAX,
        },
{
    let ghost whole = s@.subrange(start as int, end as int);
    let mut acc: usize = 0;
    let mut i = start;
    proof {
        assert(s@.subrange(start as int, start as int) =~= Seq::<char>::empty());
    }
    while i < end
        invariant
            start <= i <= end <= s@.len(),
            s@.len() <= usize::MAX,
            whole == s@.subrange(start as int, end as int),
            forall|j: int| start <= j < end ==> is_digit_char(#[trigger] s@[j]),
            acc == dec_val(s@.subrange(start as int, i as int)),
        decreases end - i,
    {
        let c = s.get_char(i);
        let d = (c as u32 - 48) as usize;
        proof {
            assert(is_digit_char(s@[i as int]));
            assert(s@.subrange(start as int, i + 1).drop_last() =~= s@.subrange(
                start as int,
                i as int,
            ));
            assert(s@.subrange(start as int, i + 1).last() == s@[i as int]);
        }
        if acc > (usize::MAX - d) / 10 {
            proof {
                assert(dec_val(s@.subrange(start as int, i + 1)) > usize::MAX);
                assert(whole.take(i + 1 - start) =~= s@.subrange(start as int, i + 1));
                lemma_dec_val_take(whole, i + 1 - start);
            }
            return None;
        }
        acc = acc * 10 + d;
        i = i + 1;
    }
    proof {
        assert(s@.subrange(start as int, i as int) =~= whole);
    }
    Some(acc)
}

} // verus!
