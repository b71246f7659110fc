//! Picking digits, in order, to make the largest number of a fixed length.
use vstd::prelude::*;
use crate::error::InputError;
use crate::text::{input_lines, is_digit, read_lines};

verus! {

pub open spec fn pow10(k: nat) -> nat
    decreases k,
{
    if k == 0 {
        1
    } else {
        10 * pow10((k - 1) as nat)
    }
}

/// The number whose decimal digits are `s`, most significant first.
pub open spec fn digits_value(s: Seq<u64>) -> nat
    decreases s.len(),
{
    if s.len() == 0 {
        0
    } else {
        digits_value(s.drop_last()) * 10 + s.last() as nat
    }
}

/// Each item is a decimal digit.
pub open spec fn digits_ok(s: Seq<u64>) -> bool {
    forall|i: int| 0 <= i < s.len() ==> #[trigger] s[i] <= 9
}

/// The largest number made of `leftover + 1` digits of `s` taken in order (all
/// of `s` when it is no longer than that): either the first digit is skipped, or
/// it is taken at its place value and `leftover` more digits follow from the rest.
pub open spec fn joltage_spec(s: Seq<u64>, leftover: nat) -> nat
    decreases s.len(),
{
    if s.len() <= leftover + 1 {
        digits_value(s)
    } else if leftover == 0 {
        let rest = joltage_spec(s.drop_first(), 0);
        if s[0] >= rest {
            s[0] as nat
        } else {
            rest
        }
    } else {
        let skip = joltage_spec(s.drop_first(), leftover);
        let take = s[0] as nat * pow10(leftover) + joltage_spec(s.drop_first(), (leftover - 1) as nat);
        if skip >= take {
            skip
        } else {
            take
        }
    }
}

proof fn lemma_pow10_pos(k: nat)
    ensures
        pow10(k) >= 1,
    decreases k,
{
    if k > 0 {
        lemma_pow10_pos((k - 1) as nat);
    }
}

proof fn lemma_pow10_mono(a: nat, b: nat)
    requires
        a <= b,
    ensures
        pow10(a) <= pow10(b),
    decreases b,
{
    if a < b {
        lemma_pow10_mono(a, (b - 1) as nat);
        lemma_pow10_pos((b - 1) as nat);
    }
}

proof fn lemma_value_bound(s: Seq<u64>)
    requires
        digits_ok(s),
    ensures
        digits_value(s) < pow10(s.len()),
    decreases s.len(),
{
    if s.len() > 0 {
        let t = s.drop_last();
        lemma_value_bound(t);
        let v = digits_value(t);
        let p = pow10(t.len());
        assert(s.last() <= 9);
        assert(v * 10 + s.last() < 10 * p) by (nonlinear_arith)
            requires
                v < p,
                s.last() <= 9,
        ;
    }
}

proof fn lemma_joltage_bound(s: Seq<u64>, leftover: nat)
    requires
        digits_ok(s),
    ensures
        joltage_spec(s, leftover) < pow10(leftover + 1),
    decreases s.len(),
{
    if s.len() <= leftover + 1 {
        lemma_value_bound(s);
        lemma_pow10_mono(s.len(), leftover + 1);
    } else {
        let t = s.drop_first();
        assert(digits_ok(t));
        assert(s[0] <= 9);
        if leftover == 0 {
            lemma_joltage_bound(t, 0);
        } else {
            lemma_joltage_bound(t, leftover);
            lemma_joltage_bound(t, (leftover - 1) as nat);
            let p = pow10(leftover);
            let j = joltage_spec(t, (leftover - 1) as nat);
            assert(s[0] * p + j < 10 * p) by (nonlinear_arith)
                requires
                    s[0] <= 9,
                    j < p,
            ;
        }
    }
}

proof fn lemma_pow10_values()
    ensures
        pow10(18) == 1_000_000_000_000_000_000nat,
        pow10(19) == 10_000_000_000_000_000_000nat,
{
    reveal_with_fuel(pow10, 20);
}

fn pow10_exec(k: usize) -> (r: u64)
    requires
        k <= 19,
    ensures
        r == pow10(k as nat),
{
    let mut r: u64 = 1;
    let mut i: usize = 0;
    while i < k
        invariant
            i <= k <= 19,
            r == pow10(i as nat),
        decreases k - i,
    {
        proof {
            lemma_pow10_mono((i + 1) as nat, 19);
            lemma_pow10_values();
        }
        r = r * 10;
        i = i + 1;
    }
    r
}

/// The number written by `s[p..]`, at most 19 digits.
fn value_from(s: &Vec<u64>, p: usize) -> (r: u64)
    requires
        p <= s@.len(),
        s@.len() - p <= 19,
        digits_ok(s@),
    ensures
        r == digits_value(s@.skip(p as int)),
{
    let mut acc: u64 = 0;
    let mut i: usize = p;
    assert(s@.subrange(p as int, p as int) =~= Seq::<u64>::empty());
    while i < s.len()
        invariant
            p <= i <= s@.len(),
            s@.len() - p <= 19,
            digits_ok(s@),
            acc == digits_value(s@.subrange(p as int, i as int)),
        decreases s@.len() - i,
    {
        let ghost t = s@.subrange(p as int, i as int + 1);
        assert(t.drop_last() =~= s@.subrange(p as int, i as int));
        proof {
            assert(digits_ok(t));
            lemma_value_bound(t);
            lemma_pow10_mono(t.len(), 19);
            lemma_pow10_values();
        }
        acc = acc * 10 + s[i];
        i = i + 1;
    }
    assert(s@.subrange(p as int, i as int) =~= s@.skip(p as int));
    acc
}

/// The largest number made of `leftover + 1` of the digits, taken in order.
/// A table over (start of the remaining digits, budget), filled from the end,
/// holds each value once.
pub fn joltage(digits: &Vec<u64>, leftover: u32) -> (r: u64)
    requires
        leftover <= 18,
        digits_ok(digits@),
    ensures
        r == joltage_spec(digits@, leftover as nat),
{
    let ghost s = digits@;
    let n = digits.len();
    let big = leftover as usize;
    let mut next: Vec<u64> = Vec::new();
    while next.len() <= big
        invariant
            next@.len() <= big + 1,
            forall|k: int| 0 <= k < next@.len() ==> next@[k] == 0,
        decreases big + 1 - next@.len(),
    {
        next.push(0);
    }
    assert(s.skip(n as int) =~= Seq::<u64>::empty());
    let mut p: usize = n;
    while p > 0
        invariant
            s == digits@,
            n == s.len(),
            digits_ok(s),
            big == leftover as usize,
            big <= 18,
            p <= n,
            next@.len() == big + 1,
            forall|k: int| 0 <= k <= big ==> next@[k] == joltage_spec(s.skip(p as int), k as nat),
        decreases p,
    {
        p = p - 1;
        let ghost t = s.skip(p as int);
        assert(t.drop_first() =~= s.skip(p + 1));
        assert(t[0] == s[p as int]);
        assert(digits_ok(t));
        let mut cur: Vec<u64> = Vec::new();
        let mut l: usize = 0;
        while l <= big
            invariant
                s == digits@,
                n == s.len(),
                digits_ok(s),
                big <= 18,
                p < n,
                t == s.skip(p as int),
                t.drop_first() == s.skip(p + 1),
                digits_ok(t),
                t[0] == s[p as int],
                next@.len() == big + 1,
                forall|k: int| 0 <= k <= big ==> next@[k] == joltage_spec(s.skip(p + 1), k as nat),
                l <= big + 1,
                cur@.len() == l,
                forall|k: int| 0 <= k < l ==> cur@[k] == joltage_spec(t, k as nat),
            decreases big + 1 - l,
        {
            let v: u64 = if n - p <= l + 1 {
                value_from(digits, p)
            } else if l == 0 {
                if digits[p] >= next[0] {
                    digits[p]
                } else {
                    next[0]
                }
            } else {
                proof {
                    lemma_joltage_bound(s.skip(p + 1), (l - 1) as nat);
                    lemma_pow10_mono(l as nat, 18);
                    lemma_pow10_values();
                    let q = pow10(l as nat);
                    assert(s[p as int] * q + next@[l - 1] < 10 * q) by (nonlinear_arith)
                        requires
                            s[p as int] <= 9,
                            next@[l - 1] < q,
                    ;
                }
                let take = digits[p] * pow10_exec(l) + next[l - 1];
                if next[l] >= take {
                    next[l]
                } else {
                    take
                }
            };
            cur.push(v);
            l = l + 1;
        }
        next = cur;
    }
    assert(s.skip(0) =~= s);
    next[big]
}

/// The digits of a line of digit bytes.
pub open spec fn line_digits(l: Seq<u8>) -> Seq<u64> {
    Seq::new(l.len(), |i: int| (l[i] - 48) as u64)
}

pub open spec fn line_ok(l: Seq<u8>) -> bool {
    forall|i: int| 0 <= i < l.len() ==> is_digit(#[trigger] l[i])
}

pub open spec fn all_ok(ls: Seq<Seq<u8>>) -> bool {
    forall|i: int| 0 <= i < ls.len() ==> line_ok(#[trigger] ls[i])
}

pub open spec fn first_bad(ls: Seq<Seq<u8>>, i: int) -> bool {
    &&& 0 <= i < ls.len()
    &&& !line_ok(ls[i])
    &&& forall|j: int| 0 <= j < i ==> line_ok(#[trigger] ls[j])
}

/// The sum over the lines of the largest number of `leftover + 1` of their digits.
pub open spec fn total_joltage(ls: Seq<Seq<u8>>, leftover: nat) -> nat
    decreases ls.len(),
{
    if ls.len() == 0 {
        0
    } else {
        total_joltage(ls.drop_last(), leftover) + joltage_spec(line_digits(ls.last()), leftover)
    }
}

fn line_to_digits(l: &Vec<u8>) -> (r: Option<Vec<u64>>)
    ensures
        match r {
            Some(d) => line_ok(l@) && d@ == line_digits(l@),
            None => !line_ok(l@),
        },
{
    let mut d: Vec<u64> = Vec::new();
    let mut i: usize = 0;
    while i < l.len()
        invariant
            i <= l@.len(),
            d@.len() == i,
            forall|j: int| 0 <= j < i ==> is_digit(#[trigger] l@[j]),
            forall|j: int| 0 <= j < i ==> #[trigger] d@[j] == (l@[j] - 48) as u64,
        decreases l@.len() - i,
    {
        let b = l[i];
        if b < 48 || b > 57 {
            return None;
        }
        d.push((b - 48) as u64);
        i = i + 1;
    }
    assert(d@ =~= line_digits(l@));
    Some(d)
}

fn solve(input: &str, leftover: u32) -> (r: Result<u128, InputError>)
    requires
        leftover <= 18,
    ensures
        match r {
            Ok(v) => all_ok(input_lines(input)) && v == total_joltage(
                input_lines(input),
                leftover as nat,
            ),
            Err(e) => exists|i: int|
                #[trigger] first_bad(input_lines(input), i) && e == InputError::Malformed {
                    line: i as usize,
                },
        },
{
    let ghost ls = input_lines(input);
    let lines = read_lines(input);
    let mut sum: u128 = 0;
    let mut i: usize = 0;
    assert(ls.take(0) =~= Seq::<Seq<u8>>::empty());
    while i < lines.len()
        invariant
            ls == input_lines(input),
            lines@.len() == ls.len(),
            forall|j: int| 0 <= j < ls.len() ==> #[trigger] lines@[j]@ == ls[j],
            leftover <= 18,
            i <= ls.len(),
            forall|j: int| 0 <= j < i ==> line_ok(#[trigger] ls[j]),
            sum == total_joltage(ls.take(i as int), leftover as nat),
            sum <= i * 10_000_000_000_000_000_000,
        decreases ls.len() - i,
    {
        match line_to_digits(&lines[i]) {
            Some(d) => {
                proof {
                    assert(digits_ok(d@));
                    lemma_joltage_bound(d@, leftover as nat);
                    lemma_pow10_mono(leftover as nat + 1, 19);
                    lemma_pow10_values();
                    assert(ls.take(i + 1).drop_last() =~= ls.take(i as int));
                }
                let j = joltage(&d, leftover);
                assert(sum + j <= (i + 1) * 10_000_000_000_000_000_000) by (nonlinear_arith)
                    requires
                        sum <= i * 10_000_000_000_000_000_000,
                        j <= 10_000_000_000_000_000_000,
                ;
                sum = sum + j as u128;
            },
            None => {
                assert(first_bad(ls, i as int));
                return Err(InputError::Malformed { line: i });
            },
        }
        i = i + 1;
    }
    assert(ls.take(i as int) =~= ls);
    Ok(sum)
}

/// The sum over the lines of the largest two-digit number each makes.
pub fn part_one(input: &str) -> (r: Result<u128, InputError>)
    ensures
        match r {
            Ok(v) => all_ok(input_lines(input)) && v == total_joltage(input_lines(input), 1),
            Err(e) => exists|i: int|
                #[trigger] first_bad(input_lines(input), i) && e == InputError::Malformed {
                    line: i as usize,
                },
        },
{
    solve(input, 1)
}

/// The sum over the lines of the largest twelve-digit number each makes.
pub fn part_two(input: &str) -> (r: Result<u128, InputError>)
    ensures
        match r {
            Ok(v) => all_ok(input_lines(input)) && v == total_joltage(input_lines(input), 11),
            Err(e) => exists|i: int|
                #[trigger] first_bad(input_lines(input), i) && e == InputError::Malformed {
                    line: i as usize,
                },
        },
{
    solve(input, 11)
}

} // verus!
