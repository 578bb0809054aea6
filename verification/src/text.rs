//! Decimal formatting and parsing of unsigned integers, shared by the frame
//! codec (the length header) and the message codec (sequence numbers).

use vstd::prelude::*;

verus! {

/// ASCII decimal digit.
pub open spec fn is_digit(c: u8) -> bool {
    48 <= c && c <= 57
}

/// Decimal digits of `n`, most significant first.
pub open spec fn dec_digits(n: nat) -> Seq<u8>
    decreases n,
{
    if n < 10 {
        seq![(48 + n) as u8]
    } else {
        dec_digits(n / 10) + seq![(48 + n % 10) as u8]
    }
}

/// Value of a sequence of decimal digits, most significant first.
pub open spec fn dec_val(s: Seq<u8>) -> int
    decreases s.len(),
{
    if s.len() == 0 {
        0
    } else {
        dec_val(s.drop_last()) * 10 + (s.last() - 48)
    }
}

pub proof fn lemma_dec_val_nonneg(s: Seq<u8>)
    requires
        forall|k: int| 0 <= k < s.len() ==> is_digit(#[trigger] s[k]),
    ensures
        dec_val(s) >= 0,
    decreases s.len(),
{
    if s.len() > 0 {
        lemma_dec_val_nonneg(s.drop_last());
        assert(dec_val(s.drop_last()) * 10 >= 0) by (nonlinear_arith)
            requires dec_val(s.drop_last()) >= 0;
    }
}

/// End of the run of decimal digits that starts at `i`: the first position at
/// or after `i` that reaches `end` or holds a non-digit.
pub open spec fn digit_run_end(b: Seq<u8>, i: int, end: int) -> int
    decreases end - i when 0 <= i <= end <= b.len()
{
    if i == end {
        i
    } else if is_digit(b[i]) {
        digit_run_end(b, i + 1, end)
    } else {
        i
    }
}

pub proof fn lemma_dec_digits_are_digits(n: nat)
    ensures
        dec_digits(n).len() >= 1,
        forall|k: int| 0 <= k < dec_digits(n).len() ==> is_digit(#[trigger] dec_digits(n)[k]),
    decreases n,
{
    if n >= 10 {
        lemma_dec_digits_are_digits(n / 10);
    }
}

pub proof fn lemma_dec_val_of_digits(n: nat)
    ensures
        dec_val(dec_digits(n)) == n,
    decreases n,
{
    assert(0 <= n % 10 < 10);
    if n < 10 {
        let s = dec_digits(n);
        assert(s == seq![(48 + n) as u8]);
        assert(s.len() == 1);
        assert(s.drop_last() =~= Seq::<u8>::empty());
        assert(dec_val(s.drop_last()) == 0);
        assert(s.last() == (48 + n) as u8);
        assert(dec_val(s) == dec_val(s.drop_last()) * 10 + (s.last() - 48));
        assert(((48 + n) as u8) - 48 == n);
    } else {
        lemma_dec_val_of_digits(n / 10);
        let s = dec_digits(n);
        assert(s == dec_digits(n / 10) + seq![(48 + n % 10) as u8]);
        assert(s.len() == dec_digits(n / 10).len() + 1);
        lemma_dec_digits_are_digits(n / 10);
        assert(s.drop_last() =~= dec_digits(n / 10));
        assert(s.last() == (48 + n % 10) as u8);
        assert(dec_val(s) == dec_val(s.drop_last()) * 10 + (s.last() - 48));
        assert(((48 + n % 10) as u8) - 48 == n % 10);
        assert(n / 10 * 10 + n % 10 == n) by (nonlinear_arith);
    }
}

pub proof fn lemma_digit_run_end_bounds(b: Seq<u8>, i: int, end: int)
    requires
        0 <= i <= end <= b.len(),
    ensures
        i <= digit_run_end(b, i, end) <= end,
        forall|k: int| i <= k < digit_run_end(b, i, end) ==> is_digit(b[k]),
        digit_run_end(b, i, end) < end ==> !is_digit(b[digit_run_end(b, i, end)]),
    decreases end - i,
{
    if i < end && is_digit(b[i]) {
        lemma_digit_run_end_bounds(b, i + 1, end);
    }
}

/// The digit run that starts at a known block of digits ends exactly where
/// the block does, provided the next byte is not a digit.
pub proof fn lemma_digit_run_end_of_block(b: Seq<u8>, i: int, j: int, end: int)
    requires
        0 <= i <= j <= end <= b.len(),
        forall|k: int| i <= k < j ==> is_digit(b[k]),
        j < end ==> !is_digit(b[j]),
    ensures
        digit_run_end(b, i, end) == j,
    decreases j - i,
{
    if i < j {
        lemma_digit_run_end_of_block(b, i + 1, j, end);
    }
}

/// Appending one digit to a digit string multiplies its value by ten.
pub proof fn lemma_dec_val_push(s: Seq<u8>, d: u8)
    ensures
        dec_val(s.push(d)) == dec_val(s) * 10 + (d - 48),
{
    assert(s.push(d).drop_last() =~= s);
}

/// Digit-string values never shrink as the string grows.
pub proof fn lemma_dec_val_grows(s: Seq<u8>, d: u8)
    requires
        is_digit(d),
        forall|k: int| 0 <= k < s.len() ==> is_digit(#[trigger] s[k]),
    ensures
        dec_val(s.push(d)) >= dec_val(s),
{
    lemma_dec_val_push(s, d);
    lemma_dec_val_nonneg(s);
    assert(dec_val(s) * 10 >= dec_val(s)) by (nonlinear_arith)
        requires dec_val(s) >= 0;
}

/// Renders `n` in decimal, most significant digit first.
pub fn u64_to_dec(n: u64) -> (r: Vec<u8>)
    ensures
        r@ == dec_digits(n as nat),
    decreases n,
{
    if n < 10 {
        let mut v: Vec<u8> = Vec::new();
        v.push((48 + n) as u8);
        proof {
            assert(v@ =~= dec_digits(n as nat));
        }
        v
    } else {
        let mut v = u64_to_dec(n / 10);
        v.push((48 + n % 10) as u8);
        proof {
            assert(v@ =~= dec_digits(n as nat));
        }
        v
    }
}

/// Reads the run of decimal digits that starts at `i` (never past `end`) and
/// returns its value, or `None` in the first slot when the value does not fit
/// in a `u64`. The second slot is always the end of the run.
pub fn parse_dec_run(b: &[u8], i: usize, end: usize) -> (r: (Option<u64>, usize))
    requires
        i <= end <= b@.len(),
    ensures
        r.1 == digit_run_end(b@, i as int, end as int),
        i <= r.1 <= end,
        forall|k: int| i <= k < r.1 ==> is_digit(#[trigger] b@[k]),
        r.0 matches Some(v) ==> v == dec_val(b@.subrange(i as int, r.1 as int)),
        r.0 is None ==> dec_val(b@.subrange(i as int, r.1 as int)) > u64::MAX,
{
    let ghost bs = b@;
    let mut j: usize = i;
    let mut acc: u64 = 0;
    let mut over: bool = false;
    proof {
        lemma_digit_run_end_bounds(bs, i as int, end as int);
        assert(bs.subrange(i as int, i as int) =~= Seq::<u8>::empty());
    }
    while j < end && b[j] >= 48 && b[j] <= 57
        invariant
            i <= j <= end <= bs.len(),
            bs == b@,
            digit_run_end(bs, i as int, end as int) == digit_run_end(bs, j as int, end as int),
            forall|k: int| i <= k < j ==> is_digit(#[trigger] bs[k]),
            !over ==> acc == dec_val(bs.subrange(i as int, j as int)),
            over ==> dec_val(bs.subrange(i as int, j as int)) > u64::MAX,
        decreases end - j,
    {
        let d = b[j];
        proof {
            assert(bs.subrange(i as int, j + 1 as int) =~= bs.subrange(i as int, j as int).push(d));
            lemma_dec_val_push(bs.subrange(i as int, j as int), d);
            lemma_dec_val_grows(bs.subrange(i as int, j as int), d);
        }
        if !over {
            if acc > (u64::MAX - ((d - 48) as u64)) / 10 {
                proof {
                    let prev = dec_val(bs.subrange(i as int, j as int));
                    assert(prev * 10 + (d - 48) > u64::MAX) by (nonlinear_arith)
                        requires
                            prev == acc,
                            acc > (u64::MAX - ((d - 48) as u64)) / 10,
                            48 <= d <= 57;
                }
                over = true;
            } else {
                proof {
                    let prev = dec_val(bs.subrange(i as int, j as int));
                    assert(prev * 10 + (d - 48) <= u64::MAX) by (nonlinear_arith)
                        requires
                            prev == acc,
                            acc <= (u64::MAX - ((d - 48) as u64)) / 10,
                            48 <= d <= 57;
                }
                acc = acc * 10 + ((d - 48) as u64);
            }
        }
        j = j + 1;
    }
    proof {
        lemma_digit_run_end_bounds(bs, j as int, end as int);
    }
    if over {
        (None, j)
    } else {
        (Some(acc), j)
    }
}

} // verus!
