//! Beams that split in two at each splitter they meet, row after row.
use vstd::prelude::*;
use crate::error::InputError;
use crate::text::{find_byte, find_first, input_lines, read_lines};

verus! {

/// Row `row` has a splitter (`^`) at position `x`.
pub open spec fn splitter(row: Seq<u8>, x: int) -> bool {
    0 <= x < row.len() && row[x] == 94
}

/// The beams of `t` that meet a splitter of `row`.
pub open spec fn hits(t: Set<int>, row: Seq<u8>) -> Set<int> {
    t.filter(|x: int| splitter(row, x))
}

/// The beams after `row`: a beam that meets a splitter is replaced by beams on
/// both sides of it.
pub open spec fn next_beams(t: Set<int>, row: Seq<u8>) -> Set<int> {
    let h = hits(t, row);
    Set::new(|y: int| (t.contains(y) || h.contains(y - 1) || h.contains(y + 1)) && !h.contains(y))
}

/// How many times a beam meets a splitter, from the beams `t`, over `rows`.
pub open spec fn splits(t: Set<int>, rows: Seq<Seq<u8>>) -> nat
    decreases rows.len(),
{
    if rows.len() == 0 {
        0
    } else {
        hits(t, rows[0]).len() + splits(next_beams(t, rows[0]), rows.drop_first())
    }
}

/// How many paths a beam at `x` can take through `rows`, going either way at
/// each splitter it meets.
pub open spec fn branches(x: int, rows: Seq<Seq<u8>>) -> nat
    decreases rows.len(),
{
    if rows.len() == 0 {
        1
    } else if splitter(rows[0], x) {
        branches(x - 1, rows.drop_first()) + branches(x + 1, rows.drop_first())
    } else {
        branches(x, rows.drop_first())
    }
}

/// No row is wider than `w`.
pub open spec fn rows_within(rows: Seq<Seq<u8>>, w: int) -> bool {
    forall|i: int| 0 <= i < rows.len() ==> #[trigger] rows[i].len() <= w
}

/// The start position: the first `S` of the first line.
pub open spec fn start_of(ls: Seq<Seq<u8>>) -> int {
    find_byte(ls[0], 83, 0)
}

/// The input has a first line with an `S` in it.
pub open spec fn input_ok(ls: Seq<Seq<u8>>) -> bool {
    ls.len() > 0 && start_of(ls) < ls[0].len()
}

proof fn lemma_splits_window(t1: Set<int>, t2: Set<int>, rows: Seq<Seq<u8>>, w: int)
    requires
        rows_within(rows, w),
        forall|x: int| 0 <= x < w ==> (t1.contains(x) <==> t2.contains(x)),
    ensures
        splits(t1, rows) == splits(t2, rows),
    decreases rows.len(),
{
    if rows.len() > 0 {
        let row = rows[0];
        assert(row.len() <= w);
        assert(hits(t1, row) =~= hits(t2, row));
        let n1 = next_beams(t1, row);
        let n2 = next_beams(t2, row);
        let rest = rows.drop_first();
        assert(rows_within(rest, w)) by {
            assert forall|i: int| 0 <= i < rest.len() implies #[trigger] rest[i].len() <= w by {
                assert(rest[i] == rows[i + 1]);
            }
        }
        lemma_splits_window(n1, n2, rest, w);
    }
}

proof fn lemma_branches_outside(x: int, rows: Seq<Seq<u8>>, w: int)
    requires
        rows_within(rows, w),
        x < 0 || x >= w,
    ensures
        branches(x, rows) == 1,
    decreases rows.len(),
{
    if rows.len() > 0 {
        assert(rows[0].len() <= w);
        let rest = rows.drop_first();
        assert(rows_within(rest, w)) by {
            assert forall|i: int| 0 <= i < rest.len() implies #[trigger] rest[i].len() <= w by {
                assert(rest[i] == rows[i + 1]);
            }
        }
        lemma_branches_outside(x, rest, w);
    }
}

/// The set of positions below `w` whose flag in `v` is set.
pub open spec fn flagged(v: Seq<bool>, w: int) -> Set<int> {
    Set::new(|x: int| 0 <= x < w && v[x])
}

fn widest(lines: &Vec<Vec<u8>>) -> (w: usize)
    ensures
        forall|i: int| 0 <= i < lines@.len() ==> #[trigger] lines@[i]@.len() <= w,
{
    let mut w: usize = 0;
    let mut i: usize = 0;
    while i < lines.len()
        invariant
            i <= lines@.len(),
            forall|j: int| 0 <= j < i ==> #[trigger] lines@[j]@.len() <= w,
        decreases lines@.len() - i,
    {
        if lines[i].len() > w {
            w = lines[i].len();
        }
        i = i + 1;
    }
    w
}

fn is_splitter(row: &Vec<u8>, x: usize) -> (r: bool)
    ensures
        r == splitter(row@, x as int),
{
    x < row.len() && row[x] == 94
}

/// Reads the start position, with the lines and their width.
fn read(input: &str) -> (r: Result<(Vec<Vec<u8>>, usize, usize), InputError>)
    ensures
        match r {
            Ok((lines, start, w)) => input_ok(input_lines(input)) && start == start_of(
                input_lines(input),
            ) && lines@.len() == input_lines(input).len() && (forall|j: int|
                0 <= j < lines@.len() ==> #[trigger] lines@[j]@ == input_lines(input)[j])
                && rows_within(input_lines(input), w as int),
            Err(e) => !input_ok(input_lines(input)) && e == InputError::Missing,
        },
{
    let lines = read_lines(input);
    if lines.len() == 0 {
        return Err(InputError::Missing);
    }
    let start = find_first(&lines[0], 83);
    if start == lines[0].len() {
        return Err(InputError::Missing);
    }
    let w = widest(&lines);
    let ghost ls = input_lines(input);
    assert(lines@[0]@ == ls[0]);
    assert forall|i: int| 0 <= i < ls.len() implies #[trigger] ls[i].len() <= w by {
        assert(lines@[i]@ == ls[i]);
    }
    Ok((lines, start, w))
}

/// How many times a beam meets a splitter, starting from one beam at the `S`.
pub fn part_one(input: &str) -> (r: Result<u128, InputError>)
    ensures
        match r {
            Ok(v) => input_ok(input_lines(input)) && v == splits(
                set![start_of(input_lines(input))],
                input_lines(input).drop_first(),
            ),
            Err(e) => !input_ok(input_lines(input)) && e == InputError::Missing,
        },
{
    let (lines, start, w) = match read(input) {
        Ok(v) => v,
        Err(e) => return Err(e),
    };
    let ghost ls = input_lines(input);
    let ghost rows = ls.drop_first();
    let mut act: Vec<bool> = Vec::new();
    while act.len() < w
        invariant
            act@.len() <= w,
            forall|x: int| 0 <= x < act@.len() ==> act@[x] == (x == start),
        decreases w - act@.len(),
    {
        act.push(act.len() == start);
    }
    assert(ls[0].len() <= w);
    proof {
        lemma_splits_window(flagged(act@, w as int), set![start as int], rows, w as int);
    }
    let mut count: u128 = 0;
    let mut r: usize = 1;
    assert(rows.skip(0) =~= rows);
    while r < lines.len()
        invariant
            ls == input_lines(input),
            rows == ls.drop_first(),
            lines@.len() == ls.len(),
            forall|j: int| 0 <= j < ls.len() ==> #[trigger] lines@[j]@ == ls[j],
            rows_within(ls, w as int),
            1 <= r <= ls.len(),
            act@.len() == w,
            count <= (r - 1) * w,
            count + splits(flagged(act@, w as int), rows.skip(r - 1)) == splits(
                set![start_of(ls)],
                rows,
            ),
        decreases ls.len() - r,
    {
        let row = &lines[r];
        let ghost t = flagged(act@, w as int);
        let ghost rw = rows.skip(r - 1);
        assert(rw[0] == ls[r as int]);
        assert(rw.drop_first() =~= rows.skip(r as int));
        assert(row@.len() <= w);
        let mut hit: Vec<bool> = Vec::new();
        let mut h: usize = 0;
        let mut x: usize = 0;
        proof {
            assert(Set::new(|y: int| 0 <= y < 0 && act@[y] && splitter(row@, y)) =~= Set::<
                int,
            >::empty());
        }
        while x < w
            invariant
                act@.len() == w,
                x <= w,
                hit@.len() == x,
                forall|y: int| 0 <= y < x ==> hit@[y] == (act@[y] && splitter(row@, y)),
                Set::new(|y: int| 0 <= y < x && act@[y] && splitter(row@, y)).finite(),
                h == Set::new(|y: int| 0 <= y < x && act@[y] && splitter(row@, y)).len(),
                h <= x,
            decreases w - x,
        {
            let ghost s0 = Set::new(|y: int| 0 <= y < x && act@[y] && splitter(row@, y));
            let ghost s1 = Set::new(|y: int| 0 <= y < x + 1 && act@[y] && splitter(row@, y));
            let c = act[x] && is_splitter(row, x);
            if c {
                assert(s1 =~= s0.insert(x as int));
                h = h + 1;
            } else {
                assert(s1 =~= s0);
            }
            hit.push(c);
            x = x + 1;
        }
        assert(Set::new(|y: int| 0 <= y < w && act@[y] && splitter(row@, y)) =~= hits(t, rw[0]));
        let mut nact: Vec<bool> = Vec::new();
        let mut x: usize = 0;
        while x < w
            invariant
                act@.len() == w,
                hit@.len() == w,
                x <= w,
                nact@.len() == x,
                forall|y: int|
                    0 <= y < x ==> nact@[y] == ((act@[y] || (y > 0 && hit@[y - 1]) || (y + 1 < w
                        && hit@[y + 1])) && !hit@[y]),
            decreases w - x,
        {
            let left = x > 0 && hit[x - 1];
            let right = x + 1 < w && hit[x + 1];
            nact.push((act[x] || left || right) && !hit[x]);
            x = x + 1;
        }
        proof {
            let n = next_beams(t, rw[0]);
            assert forall|y: int| 0 <= y < w implies (flagged(nact@, w as int).contains(y)
                <==> n.contains(y)) by {
                if y > 0 {
                    assert(hit@[y - 1] == hits(t, rw[0]).contains(y - 1));
                }
                if y + 1 < w {
                    assert(hit@[y + 1] == hits(t, rw[0]).contains(y + 1));
                }
                assert(hit@[y] == hits(t, rw[0]).contains(y));
                assert(!hits(t, rw[0]).contains(-1));
                assert(!hits(t, rw[0]).contains(w as int));
            }
            let rest = rows.skip(r as int);
            assert forall|i: int| 0 <= i < rest.len() implies #[trigger] rest[i].len() <= w by {
                assert(rest[i] == ls[r + 1 + i]);
            }
            lemma_splits_window(flagged(nact@, w as int), n, rest, w as int);
            assert(count + h <= r * w) by (nonlinear_arith)
                requires
                    count <= (r - 1) * w,
                    h <= w,
            ;
            assert(r * w <= u128::MAX) by (nonlinear_arith)
                requires
                    r <= usize::MAX,
                    w <= usize::MAX,
            ;
        }
        count = count + h as u128;
        act = nact;
        r = r + 1;
    }
    assert(rows.skip(r - 1) =~= Seq::<Seq<u8>>::empty());
    Ok(count)
}

/// How many paths the beam from the `S` can take, going either way at each
/// splitter. A table over (row, position), filled from the last row up, holds
/// each count once; `Overflow` when a count in it does not fit in a `u128`.
pub fn part_two(input: &str) -> (r: Result<u128, InputError>)
    ensures
        match r {
            Ok(v) => input_ok(input_lines(input)) && v == branches(
                start_of(input_lines(input)),
                input_lines(input).drop_first(),
            ),
            Err(InputError::Overflow) => input_ok(input_lines(input)) && exists|k: int, x: int|
                0 <= k < input_lines(input).len() && #[trigger] branches(
                    x,
                    input_lines(input).drop_first().skip(k),
                ) > u128::MAX,
            Err(e) => !input_ok(input_lines(input)) && e == InputError::Missing,
        },
{
    let (lines, start, w) = match read(input) {
        Ok(v) => v,
        Err(e) => return Err(e),
    };
    let ghost ls = input_lines(input);
    let ghost rows = ls.drop_first();
    let mut f: Vec<u128> = Vec::new();
    assert(rows.skip(rows.len() as int) =~= Seq::<Seq<u8>>::empty());
    while f.len() < w
        invariant
            f@.len() <= w,
            forall|x: int| 0 <= x < f@.len() ==> f@[x] == 1,
        decreases w - f@.len(),
    {
        f.push(1);
    }
    let mut r: usize = lines.len() - 1;
    while r > 0
        invariant
            ls == input_lines(input),
            input_ok(ls),
            rows == ls.drop_first(),
            lines@.len() == ls.len(),
            forall|j: int| 0 <= j < ls.len() ==> #[trigger] lines@[j]@ == ls[j],
            rows_within(ls, w as int),
            r <= rows.len(),
            f@.len() == w,
            forall|x: int| 0 <= x < w ==> f@[x] == branches(x, rows.skip(r as int)),
        decreases r,
    {
        r = r - 1;
        let row = &lines[r + 1];
        let ghost rw = rows.skip(r as int);
        assert(rw[0] == ls[r + 1]);
        assert(rw.drop_first() =~= rows.skip(r + 1));
        let ghost rest = rows.skip(r + 1);
        assert(rows_within(rest, w as int)) by {
            assert forall|i: int| 0 <= i < rest.len() implies #[trigger] rest[i].len() <= w by {
                assert(rest[i] == ls[r + 2 + i]);
            }
        }
        let mut g: Vec<u128> = Vec::new();
        let mut x: usize = 0;
        while x < w
            invariant
                ls == input_lines(input),
                input_ok(ls),
                rows == ls.drop_first(),
                r < rows.len(),
                rw == rows.skip(r as int),
                rw[0] == row@,
                rw.drop_first() == rest,
                rows_within(rest, w as int),
                f@.len() == w,
                forall|y: int| 0 <= y < w ==> f@[y] == branches(y, rest),
                x <= w,
                g@.len() == x,
                forall|y: int| 0 <= y < x ==> g@[y] == branches(y, rw),
            decreases w - x,
        {
            let ghost xi = x as int;
            if is_splitter(row, x) {
                assert(branches(xi, rw) == branches(xi - 1, rest) + branches(xi + 1, rest));
                let left: u128 = if x == 0 {
                    proof {
                        lemma_branches_outside(-1, rest, w as int);
                    }
                    1
                } else {
                    assert(f@[xi - 1] == branches(xi - 1, rest));
                    f[x - 1]
                };
                let right: u128 = if x + 1 < w {
                    assert(f@[xi + 1] == branches(xi + 1, rest));
                    f[x + 1]
                } else {
                    proof {
                        lemma_branches_outside(x + 1, rest, w as int);
                    }
                    1
                };
                match left.checked_add(right) {
                    Some(v) => g.push(v),
                    None => {
                        assert(branches(x as int, rw) > u128::MAX);
                        assert(rows.skip(r as int) == rw);
                        return Err(InputError::Overflow);
                    },
                }
            } else {
                assert(branches(xi, rw) == branches(xi, rest));
                g.push(f[x]);
            }
            x = x + 1;
        }
        f = g;
    }
    assert(rows.skip(0) =~= rows);
    assert(ls[0].len() <= w);
    Ok(f[start])
}

/// The sum of `f` over `lo <= y < hi`.
pub open spec fn rsum(f: spec_fn(int) -> int, lo: int, hi: int) -> int
    decreases hi - lo,
{
    if hi <= lo {
        0
    } else {
        rsum(f, lo, hi - 1) + f(hi - 1)
    }
}

proof fn lemma_rsum_le(f: spec_fn(int) -> int, g: spec_fn(int) -> int, lo: int, hi: int)
    requires
        forall|y: int| lo <= y < hi ==> #[trigger] f(y) <= g(y),
    ensures
        rsum(f, lo, hi) <= rsum(g, lo, hi),
    decreases hi - lo,
{
    if hi > lo {
        lemma_rsum_le(f, g, lo, hi - 1);
    }
}

proof fn lemma_rsum_ext(f: spec_fn(int) -> int, g: spec_fn(int) -> int, lo: int, hi: int)
    requires
        forall|y: int| lo <= y < hi ==> #[trigger] f(y) == g(y),
    ensures
        rsum(f, lo, hi) == rsum(g, lo, hi),
{
    lemma_rsum_le(f, g, lo, hi);
    lemma_rsum_le(g, f, lo, hi);
}

proof fn lemma_rsum_add(f: spec_fn(int) -> int, g: spec_fn(int) -> int, lo: int, hi: int)
    ensures
        rsum(|y: int| f(y) + g(y), lo, hi) == rsum(f, lo, hi) + rsum(g, lo, hi),
    decreases hi - lo,
{
    if hi > lo {
        lemma_rsum_add(f, g, lo, hi - 1);
    }
}

proof fn lemma_rsum_sub(f: spec_fn(int) -> int, g: spec_fn(int) -> int, lo: int, hi: int)
    ensures
        rsum(|y: int| f(y) - g(y), lo, hi) == rsum(f, lo, hi) - rsum(g, lo, hi),
    decreases hi - lo,
{
    if hi > lo {
        lemma_rsum_sub(f, g, lo, hi - 1);
    }
}

proof fn lemma_rsum_shift_up(f: spec_fn(int) -> int, lo: int, hi: int)
    ensures
        rsum(|y: int| f(y + 1), lo, hi) == rsum(f, lo + 1, hi + 1),
    decreases hi - lo,
{
    if hi > lo {
        lemma_rsum_shift_up(f, lo, hi - 1);
    }
}

proof fn lemma_rsum_shift_down(f: spec_fn(int) -> int, lo: int, hi: int)
    ensures
        rsum(|y: int| f(y - 1), lo, hi) == rsum(f, lo - 1, hi - 1),
    decreases hi - lo,
{
    if hi > lo {
        lemma_rsum_shift_down(f, lo, hi - 1);
    }
}

/// Peeling the first term off a sum.
proof fn lemma_rsum_front(f: spec_fn(int) -> int, lo: int, hi: int)
    requires
        lo < hi,
    ensures
        rsum(f, lo, hi) == f(lo) + rsum(f, lo + 1, hi),
    decreases hi - lo,
{
    if hi - 1 > lo {
        lemma_rsum_front(f, lo, hi - 1);
        assert(rsum(f, lo + 1, hi) == rsum(f, lo + 1, hi - 1) + f(hi - 1));
    } else {
        assert(rsum(f, lo, hi) == rsum(f, lo, lo) + f(lo));
    }
}

/// A sum over a range equals the sum over a smaller range outside which the
/// terms are zero.
proof fn lemma_rsum_window(f: spec_fn(int) -> int, lo: int, hi: int, a: int, b: int)
    requires
        lo <= a <= b <= hi,
        forall|y: int| lo <= y < hi && !(a <= y < b) ==> #[trigger] f(y) == 0,
    ensures
        rsum(f, lo, hi) == rsum(f, a, b),
    decreases (hi - b) + (a - lo),
{
    if hi > b {
        lemma_rsum_window(f, lo, hi - 1, a, b);
    } else if a > lo {
        lemma_rsum_front(f, lo, hi);
        lemma_rsum_window(f, lo + 1, hi, a, b);
    }
}

pub open spec fn ind(s: Set<int>, y: int) -> int {
    if s.contains(y) {
        1
    } else {
        0
    }
}

/// The size of a finite set of integers is the sum of its indicator over a
/// range that holds it.
proof fn lemma_rsum_card(s: Set<int>, lo: int, hi: int)
    requires
        s.finite(),
        forall|y: int| s.contains(y) ==> lo <= y < hi,
    ensures
        rsum(|y: int| ind(s, y), lo, hi) == s.len(),
    decreases hi - lo,
{
    if hi <= lo {
        assert(s =~= Set::<int>::empty());
    } else {
        let t = s.remove(hi - 1);
        lemma_rsum_card(t, lo, hi - 1);
        lemma_rsum_ext(|y: int| ind(s, y), |y: int| ind(t, y), lo, hi - 1);
        if s.contains(hi - 1) {
            assert(s =~= t.insert(hi - 1));
        } else {
            assert(s =~= t);
        }
    }
}

proof fn lemma_branches_pos(x: int, rows: Seq<Seq<u8>>)
    ensures
        branches(x, rows) >= 1,
    decreases rows.len(),
{
    if rows.len() > 0 {
        lemma_branches_pos(x - 1, rows.drop_first());
        lemma_branches_pos(x, rows.drop_first());
        lemma_branches_pos(x + 1, rows.drop_first());
    }
}

proof fn lemma_hits_finite(t: Set<int>, row: Seq<u8>)
    requires
        t.finite(),
    ensures
        hits(t, row).finite(),
        hits(t, row).subset_of(t),
        t.difference(hits(t, row)).len() + hits(t, row).len() == t.len(),
{
    vstd::set_lib::lemma_len_subset(hits(t, row), t);
    vstd::set_lib::lemma_set_difference_len(t, hits(t, row));
    assert(t.intersect(hits(t, row)) =~= hits(t, row));
}

/// The paths of the beams of `t`, counted over a range that holds them, are at
/// least as many as the beams plus the times a beam meets a splitter.
proof fn lemma_paths(t: Set<int>, rows: Seq<Seq<u8>>, lo: int, hi: int)
    requires
        t.finite(),
        forall|y: int| t.contains(y) ==> lo + rows.len() + 1 <= y < hi - rows.len() - 1,
        lo + 2 * rows.len() + 2 <= hi,
    ensures
        rsum(|y: int| if t.contains(y) { branches(y, rows) as int } else { 0 }, lo, hi) >= t.len()
            + splits(t, rows),
    decreases rows.len(),
{
    if rows.len() == 0 {
        lemma_rsum_card(t, lo, hi);
        lemma_rsum_ext(
            |y: int| if t.contains(y) { branches(y, rows) as int } else { 0 },
            |y: int| ind(t, y),
            lo,
            hi,
        );
        return;
    }
    let row = rows[0];
    let rest = rows.drop_first();
    let h = hits(t, row);
    let u = t.difference(h);
    let nx = next_beams(t, row);
    lemma_hits_finite(t, row);
    // the paths from each beam, split by what the beam does at the first row
    let fu = |y: int| if u.contains(y) { branches(y, rest) as int } else { 0 };
    let gl = |y: int| if h.contains(y) { branches(y - 1, rest) as int } else { 0 };
    let gr = |y: int| if h.contains(y) { branches(y + 1, rest) as int } else { 0 };
    let fl = |y: int| if h.contains(y + 1) { branches(y, rest) as int } else { 0 };
    let fr = |y: int| if h.contains(y - 1) { branches(y, rest) as int } else { 0 };
    let ft = |y: int| if t.contains(y) { branches(y, rows) as int } else { 0 };
    assert forall|y: int| #![trigger ft(y)] lo <= y < hi implies ft(y) == (fu(y) + gl(y)) + gr(
        y,
    ) by {
        if h.contains(y) {
            assert(branches(y, rows) == branches(y - 1, rest) + branches(y + 1, rest));
        } else if t.contains(y) {
            assert(branches(y, rows) == branches(y, rest));
        }
    }
    let fug = |y: int| fu(y) + gl(y);
    lemma_rsum_ext(ft, |y: int| fug(y) + gr(y), lo, hi);
    lemma_rsum_add(fug, gr, lo, hi);
    lemma_rsum_add(fu, gl, lo, hi);
    // the paths through the neighbours of the splitting beams, counted at the neighbours
    lemma_rsum_shift_down(fl, lo, hi);
    lemma_rsum_ext(|y: int| fl(y - 1), gl, lo, hi);
    lemma_rsum_window(fl, lo - 1, hi - 1, lo + 1, hi - 1);
    lemma_rsum_window(fl, lo, hi, lo + 1, hi - 1);
    lemma_rsum_shift_up(fr, lo, hi);
    lemma_rsum_ext(|y: int| fr(y + 1), gr, lo, hi);
    lemma_rsum_window(fr, lo + 1, hi + 1, lo + 1, hi - 1);
    lemma_rsum_window(fr, lo, hi, lo + 1, hi - 1);
    // the weights of the next beams, and what is left over
    let iu = |y: int| ind(u, y);
    let il = |y: int| ind(h, y + 1);
    let ir = |y: int| ind(h, y - 1);
    let ih = |y: int| ind(h, y);
    let cu = |y: int| iu(y) + il(y);
    let c = |y: int| cu(y) + ir(y);
    let d = |y: int| ind(nx, y);
    let fuf = |y: int| fu(y) + fl(y);
    let fc = |y: int| fuf(y) + fr(y);
    let fd = |y: int| if nx.contains(y) { branches(y, rest) as int } else { 0 };
    let fe = |y: int| (c(y) - d(y)) * (branches(y, rest) as int);
    assert forall|y: int| #![trigger fc(y)] lo <= y < hi implies fc(y) == fd(y) + fe(y) && c(y)
        - d(y) <= fe(y) by {
        lemma_branches_pos(y, rest);
        let bb = branches(y, rest) as int;
        assert(c(y) >= d(y));
        assert((c(y) - d(y)) * bb >= (c(y) - d(y))) by (nonlinear_arith)
            requires
                c(y) >= d(y),
                bb >= 1,
        ;
        let iu = ind(u, y);
        let il = ind(h, y + 1);
        let ir = ind(h, y - 1);
        let id = ind(nx, y);
        assert(fu(y) == iu * bb) by {
            if u.contains(y) {
                assert(iu == 1);
            } else {
                assert(iu == 0);
            }
        }
        assert(fl(y) == il * bb) by {
            if h.contains(y + 1) {
                assert(il == 1);
            } else {
                assert(il == 0);
            }
        }
        assert(fr(y) == ir * bb) by {
            if h.contains(y - 1) {
                assert(ir == 1);
            } else {
                assert(ir == 0);
            }
        }
        assert(fd(y) == id * bb) by {
            if nx.contains(y) {
                assert(id == 1);
            } else {
                assert(id == 0);
            }
        }
        assert(iu * bb + il * bb + ir * bb == (iu + il + ir) * bb) by (nonlinear_arith);
        assert(fc(y) == c(y) * bb);
        assert(fd(y) == d(y) * bb);
        assert(c(y) * bb == d(y) * bb + (c(y) - d(y)) * bb) by (nonlinear_arith);
    }
    lemma_rsum_add(fuf, fr, lo, hi);
    lemma_rsum_add(fu, fl, lo, hi);
    lemma_rsum_ext(fc, |y: int| fd(y) + fe(y), lo, hi);
    lemma_rsum_add(fd, fe, lo, hi);
    assert forall|y: int| #![trigger fe(y)] lo <= y < hi implies c(y) - d(y) <= fe(y) by {
        assert(fc(y) == fd(y) + fe(y));
    }
    lemma_rsum_le(|y: int| c(y) - d(y), fe, lo, hi);
    lemma_rsum_sub(c, d, lo, hi);
    // the indicator sums are the sizes of the sets
    lemma_rsum_add(cu, ir, lo, hi);
    lemma_rsum_add(iu, il, lo, hi);
    lemma_rsum_card(u, lo, hi);
    lemma_rsum_ext(iu, |y: int| ind(u, y), lo, hi);
    lemma_rsum_card(h, lo, hi);
    lemma_rsum_shift_up(ih, lo, hi);
    lemma_rsum_ext(|y: int| ih(y + 1), il, lo, hi);
    lemma_rsum_window(ih, lo + 1, hi + 1, lo + 1, hi - 1);
    lemma_rsum_window(ih, lo, hi, lo + 1, hi - 1);
    lemma_rsum_shift_down(ih, lo, hi);
    lemma_rsum_ext(|y: int| ih(y - 1), ir, lo, hi);
    lemma_rsum_window(ih, lo - 1, hi - 1, lo + 1, hi - 1);
    let side = Set::new(|y: int| h.contains(y - 1) || h.contains(y + 1));
    assert(side =~= h.map(|z: int| z + 1) + h.map(|z: int| z - 1));
    assert(nx.subset_of(u + side));
    h.lemma_map_finite(|z: int| z + 1);
    h.lemma_map_finite(|z: int| z - 1);
    vstd::set_lib::lemma_len_subset(u, t);
    vstd::set_lib::lemma_len_subset(nx, u + side);
    lemma_rsum_card(nx, lo, hi);
    // the next beams, with one row fewer
    lemma_paths(nx, rest, lo, hi);
    lemma_rsum_ext(fd, |y: int| if nx.contains(y) { branches(y, rest) as int } else { 0 }, lo, hi);
    lemma_rsum_ext(ih, |y: int| ind(h, y), lo, hi);
    lemma_rsum_ext(ft, |y: int| if t.contains(y) { branches(y, rows) as int } else { 0 }, lo, hi);
}

/// The law that the paths of the beam from `start` are more than the times its
/// beams meet a splitter: at each split the paths double while the beams may merge.
pub proof fn lemma_paths_exceed_splits(start: int, rows: Seq<Seq<u8>>)
    ensures
        branches(start, rows) >= splits(set![start], rows) + 1,
{
    let t = set![start];
    let n = rows.len() as int;
    let lo = start - n - 1;
    let hi = start + n + 2;
    lemma_paths(t, rows, lo, hi);
    assert(t.len() == 1);
    lemma_rsum_ext(
        |y: int| if t.contains(y) { branches(y, rows) as int } else { 0 },
        |y: int| if y == start { branches(start, rows) as int } else { 0 },
        lo,
        hi,
    );
    lemma_rsum_single(start, branches(start, rows) as int, lo, hi);
}

proof fn lemma_rsum_single(p: int, v: int, lo: int, hi: int)
    requires
        lo <= p < hi,
    ensures
        rsum(|y: int| if y == p { v } else { 0 }, lo, hi) == v,
    decreases hi - lo,
{
    if hi - 1 > p {
        lemma_rsum_single(p, v, lo, hi - 1);
    } else {
        lemma_rsum_zero(|y: int| if y == p { v } else { 0 }, lo, hi - 1);
    }
}

proof fn lemma_rsum_zero(f: spec_fn(int) -> int, lo: int, hi: int)
    requires
        forall|y: int| lo <= y < hi ==> #[trigger] f(y) == 0,
    ensures
        rsum(f, lo, hi) == 0,
    decreases hi - lo,
{
    if hi > lo {
        lemma_rsum_zero(f, lo, hi - 1);
    }
}

} // verus!
