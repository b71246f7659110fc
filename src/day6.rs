//! Columns of numbers, each summed or multiplied by the operator under it.
use vstd::prelude::*;
use crate::error::InputError;
use crate::text::{input_lines, parse_u64_all, parse_u64_spec, read_lines, split_space, split_spaces};

verus! {

#[derive(Debug, Clone, Copy, PartialEq, Eq, Structural)]
pub enum Op {
    Add,
    Mul,
}

/// One column: its numbers and its operator.
pub struct Problem {
    pub numbers: Vec<u64>,
    pub op: Op,
}

/// The numbers of `v` combined by `op`, from the first on.
pub open spec fn fold_op(op: Op, v: Seq<u64>) -> nat
    decreases v.len(),
{
    if v.len() == 0 {
        match op {
            Op::Add => 0,
            Op::Mul => 1,
        }
    } else {
        match op {
            Op::Add => fold_op(op, v.drop_last()) + v.last() as nat,
            Op::Mul => fold_op(op, v.drop_last()) * (v.last() as nat),
        }
    }
}

/// Every step of combining `v` by `op` fits in a `u64`.
pub open spec fn fold_fits(op: Op, v: Seq<u64>) -> bool {
    forall|k: int| 0 <= k <= v.len() ==> #[trigger] fold_op(op, v.take(k)) <= u64::MAX
}

/// A problem as values.
pub open spec fn problem_view(p: Problem) -> (Op, Seq<u64>) {
    (p.op, p.numbers@)
}

/// The sum of the values of the problems.
pub open spec fn total(ps: Seq<(Op, Seq<u64>)>) -> nat
    decreases ps.len(),
{
    if ps.len() == 0 {
        0
    } else {
        total(ps.drop_last()) + fold_op(ps.last().0, ps.last().1)
    }
}

/// Every value and every partial sum fits in a `u64`.
pub open spec fn total_fits(ps: Seq<(Op, Seq<u64>)>) -> bool {
    &&& forall|i: int| 0 <= i < ps.len() ==> fold_fits(#[trigger] ps[i].0, ps[i].1)
    &&& forall|k: int| 0 <= k <= ps.len() ==> #[trigger] total(ps.take(k)) <= u64::MAX
}

fn fold_problem(p: &Problem) -> (r: Option<u64>)
    ensures
        match r {
            Some(v) => fold_fits(p.op, p.numbers@) && v == fold_op(p.op, p.numbers@),
            None => !fold_fits(p.op, p.numbers@),
        },
{
    let ghost v = p.numbers@;
    let mut acc: u64 = match p.op {
        Op::Add => 0,
        Op::Mul => 1,
    };
    let mut i: usize = 0;
    assert(v.take(0) =~= Seq::<u64>::empty());
    while i < p.numbers.len()
        invariant
            v == p.numbers@,
            i <= v.len(),
            acc == fold_op(p.op, v.take(i as int)),
            forall|k: int| 0 <= k <= i ==> #[trigger] fold_op(p.op, v.take(k)) <= u64::MAX,
        decreases v.len() - i,
    {
        assert(v.take(i + 1).drop_last() =~= v.take(i as int));
        let x = p.numbers[i];
        let next = match p.op {
            Op::Add => acc.checked_add(x),
            Op::Mul => acc.checked_mul(x),
        };
        match next {
            Some(n) => {
                acc = n;
            },
            None => {
                assert(fold_op(p.op, v.take(i + 1)) > u64::MAX);
                return None;
            },
        }
        i = i + 1;
    }
    assert(v.take(i as int) =~= v);
    Some(acc)
}

/// The sum of the values of the problems; `Overflow` where a step does not fit in a `u64`.
pub fn solve_problems(ps: &Vec<Problem>) -> (r: Result<u64, InputError>)
    ensures
        match r {
            Ok(v) => total_fits(ps@.map_values(|p: Problem| problem_view(p))) && v == total(
                ps@.map_values(|p: Problem| problem_view(p)),
            ),
            Err(e) => e == InputError::Overflow && !total_fits(
                ps@.map_values(|p: Problem| problem_view(p)),
            ),
        },
{
    let ghost s = ps@.map_values(|p: Problem| problem_view(p));
    let mut acc: u64 = 0;
    let mut i: usize = 0;
    assert(s.take(0) =~= Seq::<(Op, Seq<u64>)>::empty());
    while i < ps.len()
        invariant
            s == ps@.map_values(|p: Problem| problem_view(p)),
            i <= s.len(),
            acc == total(s.take(i as int)),
            forall|k: int| 0 <= k <= i ==> #[trigger] total(s.take(k)) <= u64::MAX,
            forall|j: int| 0 <= j < i ==> fold_fits(#[trigger] s[j].0, s[j].1),
        decreases s.len() - i,
    {
        assert(s.take(i + 1).drop_last() =~= s.take(i as int));
        assert(s[i as int] == problem_view(ps@[i as int]));
        match fold_problem(&ps[i]) {
            Some(v) => match acc.checked_add(v) {
                Some(n) => {
                    acc = n;
                },
                None => {
                    assert(total(s.take(i + 1)) > u64::MAX);
                    return Err(InputError::Overflow);
                },
            },
            None => {
                return Err(InputError::Overflow);
            },
        }
        i = i + 1;
    }
    assert(s.take(i as int) =~= s);
    Ok(acc)
}

/// The operator written as `+` or `*`.
pub open spec fn op_of(w: Seq<u8>) -> Option<Op> {
    if w == seq![43u8] {
        Some(Op::Add)
    } else if w == seq![42u8] {
        Some(Op::Mul)
    } else {
        None
    }
}

/// The non-empty pieces of `p`, in order.
pub open spec fn nonempty(p: Seq<Seq<u8>>) -> Seq<Seq<u8>>
    decreases p.len(),
{
    if p.len() == 0 {
        Seq::empty()
    } else if p.last().len() == 0 {
        nonempty(p.drop_last())
    } else {
        nonempty(p.drop_last()).push(p.last())
    }
}

/// The words of a line: its runs of bytes other than whitespace.
pub open spec fn words(l: Seq<u8>) -> Seq<Seq<u8>> {
    nonempty(split_space(l))
}

fn split_words(l: &Vec<u8>) -> (r: Vec<Vec<u8>>)
    ensures
        r@.len() == words(l@).len(),
        forall|i: int| 0 <= i < r@.len() ==> #[trigger] r@[i]@ == words(l@)[i],
{
    let pieces = split_spaces(l.as_slice());
    let ghost p = split_space(l@);
    let mut out: Vec<Vec<u8>> = Vec::new();
    let mut i: usize = 0;
    assert(p.take(0) =~= Seq::<Seq<u8>>::empty());
    while i < pieces.len()
        invariant
            p == split_space(l@),
            pieces@.len() == p.len(),
            forall|j: int| 0 <= j < p.len() ==> #[trigger] pieces@[j]@ == p[j],
            i <= p.len(),
            out@.len() == nonempty(p.take(i as int)).len(),
            forall|j: int| 0 <= j < out@.len() ==> #[trigger] out@[j]@ == nonempty(p.take(i as int))[j],
        decreases p.len() - i,
    {
        assert(p.take(i + 1).drop_last() =~= p.take(i as int));
        assert(p.take(i + 1).last() == p[i as int]);
        if pieces[i].len() > 0 {
            let w = pieces[i].clone();
            assert(w@ == p[i as int]);
            out.push(w);
        }
        i = i + 1;
    }
    assert(p.take(i as int) =~= p);
    out
}

/// The number rows of part one: the words of each line but the last.
pub open spec fn number_words(ls: Seq<Seq<u8>>) -> Seq<Seq<Seq<u8>>> {
    Seq::new((ls.len() - 1) as nat, |r: int| words(ls[r]))
}

/// The operators of the last line.
pub open spec fn ops_ok(ls: Seq<Seq<u8>>) -> bool {
    forall|i: int| 0 <= i < words(ls.last()).len() ==> op_of(#[trigger] words(ls.last())[i]) is Some
}

/// The input of part one is well formed: a row of operators after at least one
/// row of numbers, every row of numbers with as many words, as many operators,
/// and every word of a row of numbers a number.
pub open spec fn wf_one(ls: Seq<Seq<u8>>) -> bool {
    let nw = number_words(ls);
    &&& ls.len() >= 2
    &&& ops_ok(ls)
    &&& forall|r: int| 0 <= r < nw.len() ==> #[trigger] nw[r].len() == nw[0].len()
    &&& words(ls.last()).len() == nw[0].len()
    &&& forall|r: int, c: int|
        0 <= r < nw.len() && 0 <= c < nw[r].len() ==> parse_u64_spec(#[trigger] nw[r][c]) is Some
}

/// The problems of part one: column `c` holds word `c` of every row of numbers.
pub open spec fn problems_one(ls: Seq<Seq<u8>>) -> Seq<(Op, Seq<u64>)> {
    let nw = number_words(ls);
    Seq::new(
        nw[0].len(),
        |c: int|
            (
                op_of(words(ls.last())[c])->Some_0,
                Seq::new(nw.len(), |r: int| parse_u64_spec(nw[r][c])->Some_0),
            ),
    )
}

fn read_op(w: &Vec<u8>) -> (r: Option<Op>)
    ensures
        r == op_of(w@),
{
    if w.len() == 1 && w[0] == 43 {
        assert(w@ =~= seq![43u8]);
        Some(Op::Add)
    } else if w.len() == 1 && w[0] == 42 {
        assert(w@ =~= seq![42u8]);
        Some(Op::Mul)
    } else {
        assert(w@.len() != 1 || (w@ != seq![43u8] && w@ != seq![42u8]));
        None
    }
}

/// The operators of a line.
fn read_ops(l: &Vec<u8>) -> (r: Option<Vec<Op>>)
    ensures
        match r {
            Some(ops) => (forall|i: int|
                0 <= i < words(l@).len() ==> op_of(#[trigger] words(l@)[i]) is Some) && ops@
                == Seq::new(words(l@).len(), |i: int| op_of(words(l@)[i])->Some_0),
            None => exists|i: int|
                0 <= i < words(l@).len() && op_of(#[trigger] words(l@)[i]) is None,
        },
{
    let ws = split_words(l);
    let mut ops: Vec<Op> = Vec::new();
    let mut i: usize = 0;
    while i < ws.len()
        invariant
            ws@.len() == words(l@).len(),
            forall|j: int| 0 <= j < ws@.len() ==> #[trigger] ws@[j]@ == words(l@)[j],
            i <= ws@.len(),
            ops@.len() == i,
            forall|j: int| 0 <= j < i ==> op_of(#[trigger] words(l@)[j]) == Some(ops@[j]),
        decreases ws@.len() - i,
    {
        match read_op(&ws[i]) {
            Some(o) => ops.push(o),
            None => {
                assert(op_of(words(l@)[i as int]) is None);
                return None;
            },
        }
        i = i + 1;
    }
    assert(ops@ =~= Seq::new(words(l@).len(), |i: int| op_of(words(l@)[i])->Some_0));
    Some(ops)
}

/// Reads the problems of part one: the numbers of each column of words, and
/// the operator under it.
pub fn parse(input: &str) -> (r: Result<Vec<Problem>, InputError>)
    ensures
        match r {
            Ok(ps) => wf_one(input_lines(input)) && ps@.map_values(|p: Problem| problem_view(p))
                == problems_one(input_lines(input)),
            Err(e) => !wf_one(input_lines(input)) && e != InputError::Overflow,
        },
{
    let ghost ls = input_lines(input);
    let lines = read_lines(input);
    if lines.len() < 2 {
        return Err(InputError::Missing);
    }
    let last = lines.len() - 1;
    assert(lines@[last as int]@ == ls.last());
    let ops = match read_ops(&lines[last]) {
        Some(o) => o,
        None => return Err(InputError::Malformed { line: last }),
    };
    let ghost nw = number_words(ls);
    let mut rows: Vec<Vec<u64>> = Vec::new();
    let mut n: usize = 0;
    let mut r: usize = 0;
    while r < last
        invariant
            ls == input_lines(input),
            nw == number_words(ls),
            lines@.len() == ls.len(),
            last == ls.len() - 1,
            forall|j: int| 0 <= j < ls.len() ==> #[trigger] lines@[j]@ == ls[j],
            r <= last,
            rows@.len() == r,
            r > 0 ==> n == nw[0].len(),
            forall|j: int| 0 <= j < r ==> #[trigger] nw[j].len() == n,
            forall|j: int| 0 <= j < r ==> #[trigger] rows@[j]@.len() == n,
            forall|j: int, c: int|
                0 <= j < r && 0 <= c < n ==> parse_u64_spec(#[trigger] nw[j][c]) == Some(
                    rows@[j]@[c],
                ),
        decreases last - r,
    {
        let ws = split_words(&lines[r]);
        assert(nw[r as int] == words(ls[r as int]));
        if r == 0 {
            n = ws.len();
        } else if ws.len() != n {
            return Err(InputError::Malformed { line: r });
        }
        let mut vals: Vec<u64> = Vec::new();
        let mut c: usize = 0;
        while c < ws.len()
            invariant
                ls == input_lines(input),
                nw == number_words(ls),
                nw.len() == last,
                r < last,
                ws@.len() == n,
                ws@.len() == nw[r as int].len(),
                forall|j: int| 0 <= j < ws@.len() ==> #[trigger] ws@[j]@ == nw[r as int][j],
                c <= n,
                vals@.len() == c,
                forall|k: int| 0 <= k < c ==> parse_u64_spec(#[trigger] nw[r as int][k]) == Some(vals@[k]),
            decreases n - c,
        {
            match parse_u64_all(&ws[c]) {
                Some(v) => vals.push(v),
                None => {
                    assert(parse_u64_spec(nw[r as int][c as int]) is None);
                    return Err(InputError::Malformed { line: r });
                },
            }
            c = c + 1;
        }
        rows.push(vals);
        r = r + 1;
    }
    if ops.len() != n {
        return Err(InputError::Malformed { line: last });
    }
    let mut ps: Vec<Problem> = Vec::new();
    let mut c: usize = 0;
    while c < n
        invariant
            ls == input_lines(input),
            nw == number_words(ls),
            last == ls.len() - 1,
            last >= 1,
            rows@.len() == last,
            n == nw[0].len(),
            n <= ops@.len(),
            ops@ == Seq::new(words(ls.last()).len(), |i: int| op_of(words(ls.last())[i])->Some_0),
            forall|j: int| 0 <= j < last ==> #[trigger] rows@[j]@.len() == n,
            forall|j: int, k: int|
                0 <= j < last && 0 <= k < n ==> parse_u64_spec(#[trigger] nw[j][k]) == Some(
                    rows@[j]@[k],
                ),
            c <= n,
            ps@.len() == c,
            forall|k: int| 0 <= k < c ==> #[trigger] problem_view(ps@[k]) == problems_one(ls)[k],
        decreases n - c,
    {
        let mut nums: Vec<u64> = Vec::new();
        let mut j: usize = 0;
        while j < last
            invariant
                rows@.len() == last,
                c < n,
                forall|q: int| 0 <= q < last ==> #[trigger] rows@[q]@.len() == n,
                j <= last,
                nums@.len() == j,
                forall|q: int| 0 <= q < j ==> #[trigger] nums@[q] == rows@[q]@[c as int],
            decreases last - j,
        {
            nums.push(rows[j][c]);
            j = j + 1;
        }
        let p = Problem { numbers: nums, op: ops[c] };
        assert(p.numbers@ =~= Seq::new(nw.len(), |q: int| parse_u64_spec(nw[q][c as int])->Some_0));
        ps.push(p);
        c = c + 1;
    }
    assert(ps@.map_values(|p: Problem| problem_view(p)) =~= problems_one(ls));
    Ok(ps)
}

/// The sum over the columns of words of their numbers combined by their operators.
pub fn part_one(input: &str) -> (r: Result<u64, InputError>)
    ensures
        match r {
            Ok(v) => wf_one(input_lines(input)) && total_fits(problems_one(input_lines(input)))
                && v == total(problems_one(input_lines(input))),
            Err(InputError::Overflow) => wf_one(input_lines(input)) && !total_fits(
                problems_one(input_lines(input)),
            ),
            Err(_) => !wf_one(input_lines(input)),
        },
{
    let ps = match parse(input) {
        Ok(ps) => ps,
        Err(e) => return Err(e),
    };
    solve_problems(&ps)
}

/// Every line has a space at position `p`.
pub open spec fn is_sep(ls: Seq<Seq<u8>>, p: int) -> bool {
    forall|i: int| 0 <= i < ls.len() ==> p < #[trigger] ls[i].len() && ls[i][p] == 32
}

/// The positions below `p` at which every line has a space, ascending.
pub open spec fn seps_upto(ls: Seq<Seq<u8>>, p: int) -> Seq<int>
    decreases p,
{
    if p <= 0 {
        Seq::empty()
    } else if is_sep(ls, p - 1) {
        seps_upto(ls, p - 1).push(p - 1)
    } else {
        seps_upto(ls, p - 1)
    }
}

/// The positions at which every line has a space, ascending.
pub open spec fn seps(ls: Seq<Seq<u8>>) -> Seq<int> {
    seps_upto(ls, ls[0].len() as int)
}

proof fn lemma_seps(ls: Seq<Seq<u8>>, p: int)
    requires
        p >= 0,
    ensures
        forall|i: int|
            0 <= i < seps_upto(ls, p).len() ==> 0 <= #[trigger] seps_upto(ls, p)[i] < p && is_sep(
                ls,
                seps_upto(ls, p)[i],
            ),
        forall|i: int, j: int|
            0 <= i < j < seps_upto(ls, p).len() ==> seps_upto(ls, p)[i] < seps_upto(ls, p)[j],
    decreases p,
{
    if p > 0 {
        lemma_seps(ls, p - 1);
        let t = seps_upto(ls, p - 1);
        if is_sep(ls, p - 1) {
            let u = t.push(p - 1);
            assert(forall|i: int| 0 <= i < t.len() ==> u[i] == t[i]);
            assert(u[t.len() as int] == p - 1);
        }
    }
}

/// Where field `k` of a line starts, after the separators `s`.
pub open spec fn field_start(s: Seq<int>, k: int) -> int {
    if k < s.len() {
        if k == 0 || s[k - 1] == 0 {
            0
        } else {
            s[k - 1] + 1
        }
    } else if s.len() == 0 {
        0
    } else {
        s.last() + 1
    }
}

/// Field `k` of line `l`: between separator `k - 1` and separator `k`, the last
/// one running to the end of the line.
pub open spec fn field(l: Seq<u8>, s: Seq<int>, k: int) -> Seq<u8> {
    if k < s.len() {
        l.subrange(field_start(s, k), s[k])
    } else {
        l.subrange(field_start(s, k), l.len() as int)
    }
}

/// The fields of column `c` in every line but the last.
pub open spec fn col_fields(ls: Seq<Seq<u8>>, c: int) -> Seq<Seq<u8>> {
    Seq::new((ls.len() - 1) as nat, |r: int| field(ls[r], seps(ls), c))
}

/// The length of the longest of `fs`.
pub open spec fn longest(fs: Seq<Seq<u8>>) -> nat
    decreases fs.len(),
{
    if fs.len() == 0 {
        0
    } else if longest(fs.drop_last()) >= fs.last().len() {
        longest(fs.drop_last())
    } else {
        fs.last().len()
    }
}

/// The bytes at position `j` of the fields, top to bottom, spaces and short
/// fields left out.
pub open spec fn vertical(fs: Seq<Seq<u8>>, j: int) -> Seq<u8>
    decreases fs.len(),
{
    if fs.len() == 0 {
        Seq::empty()
    } else if j < fs.last().len() && fs.last()[j] != 32 {
        vertical(fs.drop_last(), j).push(fs.last()[j])
    } else {
        vertical(fs.drop_last(), j)
    }
}

/// The input of part two is well formed: a row of operators after at least one
/// row of numbers, one operator per column, and every
/// number read down a column a number.
pub open spec fn wf_two(ls: Seq<Seq<u8>>) -> bool {
    let ops = words(ls.last());
    &&& ls.len() >= 2
    &&& ops_ok(ls)
    &&& ops.len() == seps(ls).len() + 1
    &&& forall|c: int, j: int|
        0 <= c < ops.len() && 0 <= j < longest(col_fields(ls, c)) ==> parse_u64_spec(
            #[trigger] vertical(col_fields(ls, c), j),
        ) is Some
}

/// The problems of part two: one per operator, its numbers read down the
/// digit positions of its column.
pub open spec fn problems_two(ls: Seq<Seq<u8>>) -> Seq<(Op, Seq<u64>)> {
    let ops = words(ls.last());
    Seq::new(
        ops.len(),
        |c: int|
            (
                op_of(ops[c])->Some_0,
                Seq::new(
                    longest(col_fields(ls, c)),
                    |j: int| parse_u64_spec(vertical(col_fields(ls, c), j))->Some_0,
                ),
            ),
    )
}

fn slice(l: &Vec<u8>, a: usize, b: usize) -> (r: Vec<u8>)
    requires
        a <= b <= l@.len(),
    ensures
        r@ == l@.subrange(a as int, b as int),
{
    let mut r: Vec<u8> = Vec::new();
    let mut i: usize = a;
    while i < b
        invariant
            a <= i <= b <= l@.len(),
            r@ == l@.subrange(a as int, i as int),
        decreases b - i,
    {
        r.push(l[i]);
        i = i + 1;
        assert(r@ =~= l@.subrange(a as int, i as int));
    }
    r
}

fn all_space_at(lines: &Vec<Vec<u8>>, p: usize) -> (r: bool)
    ensures
        r == is_sep(lines@.map_values(|l: Vec<u8>| l@), p as int),
{
    let ghost ls = lines@.map_values(|l: Vec<u8>| l@);
    let mut i: usize = 0;
    while i < lines.len()
        invariant
            ls == lines@.map_values(|l: Vec<u8>| l@),
            i <= ls.len(),
            forall|j: int| #![trigger ls[j]] 0 <= j < i ==> p < ls[j].len() && ls[j][p as int] == 32,
        decreases ls.len() - i,
    {
        let l = &lines[i];
        assert(l@ == ls[i as int]);
        if !(p < l.len() && l[p] == 32) {
            return false;
        }
        assert(p < ls[i as int].len() && ls[i as int][p as int] == 32);
        i = i + 1;
    }
    true
}

/// Reads the problems of part two.
pub fn parse_aligned(input: &str) -> (r: Result<Vec<Problem>, InputError>)
    ensures
        match r {
            Ok(ps) => wf_two(input_lines(input)) && ps@.map_values(|p: Problem| problem_view(p))
                == problems_two(input_lines(input)),
            Err(e) => !wf_two(input_lines(input)) && e != InputError::Overflow,
        },
{
    let ghost ls = input_lines(input);
    let lines = read_lines(input);
    if lines.len() < 2 {
        return Err(InputError::Missing);
    }
    assert(lines@.map_values(|l: Vec<u8>| l@) =~= ls);
    let last = lines.len() - 1;
    let ghost s = seps(ls);
    let mut sepv: Vec<usize> = Vec::new();
    let mut p: usize = 0;
    while p < lines[0].len()
        invariant
            ls == input_lines(input),
            lines@.map_values(|l: Vec<u8>| l@) == ls,
            ls.len() >= 2,
            p <= ls[0].len(),
            sepv@.len() == seps_upto(ls, p as int).len(),
            forall|i: int| 0 <= i < sepv@.len() ==> #[trigger] sepv@[i] as int == seps_upto(ls, p as int)[i],
        decreases ls[0].len() - p,
    {
        assert(lines@[0]@ == ls[0]);
        if all_space_at(&lines, p) {
            sepv.push(p);
        }
        p = p + 1;
    }
    assert(lines@[0]@ == ls[0]);
    proof {
        lemma_seps(ls, ls[0].len() as int);
    }
    let ns = sepv.len();
    assert(lines@[last as int]@ == ls.last());
    let ops = match read_ops(&lines[last]) {
        Some(o) => o,
        None => return Err(InputError::Malformed { line: last }),
    };
    assert(ns == s.len());
    if ops.len() == 0 || ops.len() - 1 != ns {
        return Err(InputError::Malformed { line: last });
    }
    let mut ps: Vec<Problem> = Vec::new();
    let mut c: usize = 0;
    while c < ops.len()
        invariant
            ls == input_lines(input),
            lines@.map_values(|l: Vec<u8>| l@) == ls,
            ls.len() >= 2,
            last == ls.len() - 1,
            s == seps(ls),
            ns == s.len(),
            sepv@.len() == ns,
            forall|i: int| 0 <= i < ns ==> #[trigger] sepv@[i] as int == s[i],
            forall|i: int| 0 <= i < s.len() ==> 0 <= #[trigger] s[i] && is_sep(ls, s[i]),
            forall|i: int, j: int| 0 <= i < j < s.len() ==> s[i] < s[j],
            ops_ok(ls),
            ops@ == Seq::new(words(ls.last()).len(), |i: int| op_of(words(ls.last())[i])->Some_0),
            ops@.len() == ns + 1,
            c <= ops@.len(),
            ps@.len() == c,
            forall|k: int| 0 <= k < c ==> #[trigger] problem_view(ps@[k]) == problems_two(ls)[k],
            forall|k: int, j: int|
                0 <= k < c && 0 <= j < longest(col_fields(ls, k)) ==> parse_u64_spec(
                    #[trigger] vertical(col_fields(ls, k), j),
                ) is Some,
        decreases ops@.len() - c,
    {
        let ghost fs = col_fields(ls, c as int);
        let mut fields: Vec<Vec<u8>> = Vec::new();
        let mut r: usize = 0;
        let mut long: usize = 0;
        assert(fs.take(0) =~= Seq::<Seq<u8>>::empty());
        while r < last
            invariant
                lines@.map_values(|l: Vec<u8>| l@) == ls,
                last == ls.len() - 1,
                s == seps(ls),
                ns == s.len(),
                sepv@.len() == ns,
                forall|i: int| 0 <= i < ns ==> #[trigger] sepv@[i] as int == s[i],
                forall|i: int| 0 <= i < s.len() ==> 0 <= #[trigger] s[i] && is_sep(ls, s[i]),
                forall|i: int, j: int| 0 <= i < j < s.len() ==> s[i] < s[j],
                    c <= ns,
                fs == col_fields(ls, c as int),
                r <= last,
                fields@.len() == r,
                forall|q: int| 0 <= q < r ==> #[trigger] fields@[q]@ == fs[q],
                long == longest(fs.take(r as int)),
            decreases last - r,
        {
            let row = &lines[r];
            assert(row@ == ls[r as int]);
            let (a, b) = if c < ns {
                let b = sepv[c];
                assert(is_sep(ls, s[c as int]));
                assert(b < ls[r as int].len());
                let a = if c == 0 || sepv[c - 1] == 0 {
                    0
                } else {
                    assert(s[c - 1] < s[c as int]);
                    sepv[c - 1] + 1
                };
                (a, b)
            } else if ns == 0 {
                (0, row.len())
            } else {
                assert(is_sep(ls, s[ns - 1]));
                let rl = row.len();
                assert(sepv[ns - 1] < rl);
                (sepv[ns - 1] + 1, rl)
            };
            let f = slice(row, a, b);
            assert(f@ == fs[r as int]);
            assert(fs.take(r + 1).drop_last() =~= fs.take(r as int));
            if f.len() > long {
                long = f.len();
            }
            fields.push(f);
            r = r + 1;
        }
        assert(fs.take(r as int) =~= fs);
        let mut nums: Vec<u64> = Vec::new();
        let mut j: usize = 0;
        while j < long
            invariant
                ls == input_lines(input),
                fs == col_fields(ls, c as int),
                c < ops@.len(),
                ops@.len() == words(ls.last()).len(),
                fields@.len() == fs.len(),
                forall|q: int| 0 <= q < fs.len() ==> #[trigger] fields@[q]@ == fs[q],
                long == longest(fs),
                j <= long,
                nums@.len() == j,
                forall|k: int| 0 <= k < j ==> parse_u64_spec(#[trigger] vertical(fs, k)) == Some(nums@[k]),
            decreases long - j,
        {
            let mut digits: Vec<u8> = Vec::new();
            let mut q: usize = 0;
            assert(fs.take(0) =~= Seq::<Seq<u8>>::empty());
            while q < fields.len()
                invariant
                    fields@.len() == fs.len(),
                    forall|t: int| 0 <= t < fs.len() ==> #[trigger] fields@[t]@ == fs[t],
                    q <= fs.len(),
                    digits@ == vertical(fs.take(q as int), j as int),
                decreases fs.len() - q,
            {
                assert(fs.take(q + 1).drop_last() =~= fs.take(q as int));
                assert(fs.take(q + 1).last() == fs[q as int]);
                if j < fields[q].len() && fields[q][j] != 32 {
                    digits.push(fields[q][j]);
                }
                q = q + 1;
            }
            assert(fs.take(q as int) =~= fs);
            match parse_u64_all(&digits) {
                Some(v) => nums.push(v),
                None => {
                    assert(parse_u64_spec(vertical(col_fields(ls, c as int), j as int)) is None);
                    return Err(InputError::BadColumn { column: c });
                },
            }
            j = j + 1;
        }
        let p = Problem { numbers: nums, op: ops[c] };
        assert(p.numbers@ =~= problems_two(ls)[c as int].1);
        ps.push(p);
        c = c + 1;
    }
    assert(ps@.map_values(|p: Problem| problem_view(p)) =~= problems_two(ls));
    Ok(ps)
}

/// The sum over the columns found by alignment of their numbers, read down
/// the digit positions, combined by their operators.
pub fn part_two(input: &str) -> (r: Result<u64, InputError>)
    ensures
        match r {
            Ok(v) => wf_two(input_lines(input)) && total_fits(problems_two(input_lines(input)))
                && v == total(problems_two(input_lines(input))),
            Err(InputError::Overflow) => wf_two(input_lines(input)) && !total_fits(
                problems_two(input_lines(input)),
            ),
            Err(_) => !wf_two(input_lines(input)),
        },
{
    let ps = match parse_aligned(input) {
        Ok(ps) => ps,
        Err(e) => return Err(e),
    };
    solve_problems(&ps)
}

} // verus!
