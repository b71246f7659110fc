//! A dial of a hundred positions turned left and right.
use vstd::prelude::*;
use crate::error::InputError;
use crate::text::{first_failing, input_lines, parse_u64, parse_u64_spec, read_lines};

verus! {

/// The step written on a line: `L` (left, negative) or `R` (right, positive)
/// followed by a count of positions that fits in an `i32`.
pub open spec fn parse_line_spec(l: Seq<u8>) -> Option<i32> {
    if l.len() >= 1 && (l[0] == 76 || l[0] == 82) && parse_u64_spec(l.drop_first()) is Some
        && parse_u64_spec(l.drop_first())->Some_0 <= i32::MAX {
        let v = parse_u64_spec(l.drop_first())->Some_0 as int;
        Some((if l[0] == 76 { -v } else { v }) as i32)
    } else {
        None
    }
}

pub open spec fn line_ok(l: Seq<u8>) -> bool {
    parse_line_spec(l) is Some
}

/// Line `i` of `ls` is the first that holds no step.
pub open spec fn first_bad(ls: Seq<Seq<u8>>, i: int) -> bool {
    first_failing(ls, |l: Seq<u8>| line_ok(l), i)
}

pub open spec fn all_ok(ls: Seq<Seq<u8>>) -> bool {
    forall|i: int| 0 <= i < ls.len() ==> line_ok(#[trigger] ls[i])
}

/// The steps of the lines.
pub open spec fn steps_of(ls: Seq<Seq<u8>>) -> Seq<i32> {
    Seq::new(ls.len(), |i: int| parse_line_spec(ls[i])->Some_0)
}

/// How many of the steps, taken from `start`, leave the dial at zero.
pub open spec fn zero_landings(start: int, steps: Seq<i32>) -> nat
    decreases steps.len(),
{
    if steps.len() == 0 {
        0
    } else {
        let d = (start + steps[0]) % 100;
        (if d == 0 { 1nat } else { 0nat }) + zero_landings(d, steps.drop_first())
    }
}

/// How many times the dial points at zero while turning from `from` by `step`,
/// counting where it stops.
pub open spec fn crossings(from: int, step: int) -> int {
    let to = from + step;
    if step < 0 {
        (from - 1) / 100 - (to - 1) / 100
    } else if step > 0 {
        to / 100
    } else {
        0
    }
}

/// How many times the dial points at zero while taking the steps from `start`.
pub open spec fn zero_passes(start: int, steps: Seq<i32>) -> int
    decreases steps.len(),
{
    if steps.len() == 0 {
        0
    } else {
        crossings(start, steps[0] as int) + zero_passes((start + steps[0]) % 100, steps.drop_first())
    }
}

/// The first line that holds a step of zero, which the second part refuses.
pub open spec fn first_zero(steps: Seq<i32>, i: int) -> bool {
    &&& 0 <= i < steps.len()
    &&& steps[i] == 0
    &&& forall|j: int| 0 <= j < i ==> steps[j] != 0
}

fn parse_line(l: &Vec<u8>) -> (r: Option<i32>)
    ensures
        r == parse_line_spec(l@),
{
    if l.len() == 0 || (l[0] != 76 && l[0] != 82) {
        return None;
    }
    assert(l@.subrange(1, l@.len() as int) =~= l@.drop_first());
    match parse_u64(l.as_slice(), 1, l.len()) {
        Some(v) => {
            if v > i32::MAX as u64 {
                None
            } else if l[0] == 76 {
                Some(-(v as i32))
            } else {
                Some(v as i32)
            }
        },
        None => None,
    }
}

/// Reads one step per line.
pub fn parse(input: &str) -> (r: Result<Vec<i32>, InputError>)
    ensures
        match r {
            Ok(v) => all_ok(input_lines(input)) && v@ == steps_of(input_lines(input)),
            Err(e) => exists|i: int|
                #[trigger] first_bad(input_lines(input), i) && e == InputError::Malformed {
                    line: i as usize,
                },
        },
{
    let ghost ls = input_lines(input);
    let lines = read_lines(input);
    let mut out: Vec<i32> = Vec::new();
    let mut i: usize = 0;
    while i < lines.len()
        invariant
            ls == input_lines(input),
            lines@.len() == ls.len(),
            forall|j: int| 0 <= j < ls.len() ==> #[trigger] lines@[j]@ == ls[j],
            i <= ls.len(),
            out@.len() == i,
            forall|j: int| 0 <= j < i ==> parse_line_spec(#[trigger] ls[j]) == Some(out@[j]),
        decreases ls.len() - i,
    {
        match parse_line(&lines[i]) {
            Some(p) => out.push(p),
            None => {
                assert(first_bad(ls, i as int));
                return Err(InputError::Malformed { line: i });
            },
        }
        i = i + 1;
    }
    assert(out@ =~= steps_of(ls));
    Ok(out)
}

/// How many steps, from 50, leave the dial at zero.
pub fn part_one(input: &str) -> (r: Result<usize, InputError>)
    ensures
        all_ok(input_lines(input)) ==> r == Ok::<usize, InputError>(
            zero_landings(50, steps_of(input_lines(input))) as usize,
        ),
        !all_ok(input_lines(input)) ==> exists|i: int|
            #[trigger] first_bad(input_lines(input), i) && r == Err::<usize, InputError>(
                InputError::Malformed { line: i as usize },
            ),
{
    let steps = match parse(input) {
        Ok(s) => s,
        Err(e) => return Err(e),
    };
    let ghost s = steps@;
    let mut password: usize = 0;
    let mut dial: i64 = 50;
    let mut i: usize = 0;
    assert(s.skip(0) =~= s);
    while i < steps.len()
        invariant
            s == steps@,
            i <= s.len(),
            0 <= dial < 100,
            password <= i,
            password + zero_landings(dial as int, s.skip(i as int)) == zero_landings(50, s),
        decreases s.len() - i,
    {
        assert(s.skip(i as int).drop_first() =~= s.skip(i + 1));
        dial = (dial + steps[i] as i64) % 100;
        if dial < 0 {
            dial = dial + 100;
        }
        if dial == 0 {
            password = password + 1;
        }
        i = i + 1;
    }
    Ok(password)
}

proof fn lemma_crossings_bound(from: int, step: int)
    requires
        0 <= from < 100,
        i32::MIN <= step <= i32::MAX,
    ensures
        0 <= crossings(from, step) <= 0x200_0000,
{
    let to = from + step;
    if step < 0 {
        assert(0 <= (from - 1) / 100 - (to - 1) / 100 <= 0x200_0000) by (nonlinear_arith)
            requires
                0 <= from < 100,
                i32::MIN <= step < 0,
                to == from + step,
        ;
    } else if step > 0 {
        assert(0 <= to / 100 <= 0x200_0000) by (nonlinear_arith)
            requires
                0 <= from < 100,
                0 < step <= i32::MAX,
                to == from + step,
        ;
    }
}

/// `a / 100`, rounded towards negative infinity.
fn floor_div100(a: i64) -> (r: i64)
    ensures
        r == a as int / 100,
{
    if a >= 0 {
        a / 100
    } else {
        let b = -(a + 1);
        let q = -(b / 100) - 1;
        assert(b as int == 100 * (b as int / 100) + b as int % 100);
        assert(a as int == 100 * q + (99 - b as int % 100));
        q
    }
}

/// How many times, from 50, the dial points at zero during all the steps; a
/// step of zero is refused.
pub fn part_two(input: &str) -> (r: Result<u128, InputError>)
    ensures
        all_ok(input_lines(input)) ==> ({
            let s = steps_of(input_lines(input));
            match r {
                Ok(v) => (forall|j: int| 0 <= j < s.len() ==> s[j] != 0) && v == zero_passes(
                    50,
                    s,
                ),
                Err(e) => exists|i: int|
                    #[trigger] first_zero(s, i) && e == InputError::Malformed { line: i as usize },
            }
        }),
        !all_ok(input_lines(input)) ==> exists|i: int|
            #[trigger] first_bad(input_lines(input), i) && r == Err::<u128, InputError>(
                InputError::Malformed { line: i as usize },
            ),
{
    let steps = match parse(input) {
        Ok(s) => s,
        Err(e) => return Err(e),
    };
    let ghost s = steps@;
    let mut password: u128 = 0;
    let mut dial: i64 = 50;
    let mut i: usize = 0;
    assert(s.skip(0) =~= s);
    while i < steps.len()
        invariant
            s == steps@,
            all_ok(input_lines(input)),
            s == steps_of(input_lines(input)),
            i <= s.len(),
            0 <= dial < 100,
            password <= i * 0x200_0000,
            forall|j: int| 0 <= j < i ==> s[j] != 0,
            password + zero_passes(dial as int, s.skip(i as int)) == zero_passes(50, s),
        decreases s.len() - i,
    {
        assert(s.skip(i as int).drop_first() =~= s.skip(i + 1));
        let step = steps[i] as i64;
        if step == 0 {
            assert(first_zero(s, i as int));
            return Err(InputError::Malformed { line: i });
        }
        proof {
            lemma_crossings_bound(dial as int, step as int);
        }
        let old = dial;
        let new = dial + step;
        let zeros: i64 = if step < 0 {
            floor_div100(old - 1) - floor_div100(new - 1)
        } else {
            new / 100
        };
        assert(zeros == crossings(old as int, step as int));
        assert(password + zeros <= (i + 1) * 0x200_0000) by (nonlinear_arith)
            requires
                password <= i * 0x200_0000,
                zeros <= 0x200_0000,
        ;
        password = password + zeros as u128;
        dial = new % 100;
        if dial < 0 {
            dial = dial + 100;
        }
        assert(dial == (old + step) % 100);
        i = i + 1;
    }
    Ok(password)
}

} // verus!
