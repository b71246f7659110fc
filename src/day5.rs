//! Closed ranges of ids: which ids they hold, and how many ids in all.
use vstd::prelude::*;
use vstd::set_lib::{lemma_int_range, lemma_len_subset, lemma_set_disjoint_lens, set_int_range};
use crate::error::InputError;
use crate::text::{input_lines, parse_u64_all, parse_u64_spec, read_lines, split_bytes, split_on};

verus! {

broadcast use vstd::seq_lib::group_to_multiset_ensures;

/// `x` lies in one of the closed ranges of `r`.
pub open spec fn in_some(r: Seq<(u64, u64)>, x: int) -> bool {
    exists|i: int| #![trigger r[i]] 0 <= i < r.len() && r[i].0 <= x <= r[i].1
}

/// The ids that the ranges of `r` hold.
pub open spec fn covered_set(r: Seq<(u64, u64)>) -> Set<int> {
    Set::new(|x: int| in_some(r, x))
}

/// How many of `ids` lie in one of the ranges.
pub open spec fn count_fresh_spec(r: Seq<(u64, u64)>, ids: Seq<u64>) -> nat
    decreases ids.len(),
{
    if ids.len() == 0 {
        0
    } else {
        count_fresh_spec(r, ids.drop_last()) + if in_some(r, ids.last() as int) {
            1nat
        } else {
            0nat
        }
    }
}

/// The ranges and the ids to look up.
pub struct Input {
    pub ranges: Vec<(u64, u64)>,
    pub ingredients: Vec<u64>,
}

/// The range written on a line as two numbers around a `-` (anything after
/// a second `-` is not read).
pub open spec fn range_spec(l: Seq<u8>) -> Option<(u64, u64)> {
    let f = split_on(l, 45);
    if f.len() >= 2 && parse_u64_spec(f[0]) is Some && parse_u64_spec(f[1]) is Some {
        Some((parse_u64_spec(f[0])->Some_0, parse_u64_spec(f[1])->Some_0))
    } else {
        None
    }
}

/// The index of the first empty line of `ls` from `from` on; `ls.len()` if none.
pub open spec fn first_blank_from(ls: Seq<Seq<u8>>, from: int) -> int
    decreases ls.len() - from,
{
    if from < 0 || from >= ls.len() {
        ls.len() as int
    } else if ls[from].len() == 0 {
        from
    } else {
        first_blank_from(ls, from + 1)
    }
}

/// Line `j` is well formed: a range before the first empty line, an id
/// between it and the next one; lines after that are not read.
pub open spec fn line_ok(ls: Seq<Seq<u8>>, j: int) -> bool {
    let e = first_blank_from(ls, 0);
    let f = first_blank_from(ls, e + 1);
    if j < e {
        range_spec(ls[j]) is Some
    } else if e < j < f {
        parse_u64_spec(ls[j]) is Some
    } else {
        true
    }
}

pub open spec fn all_ok(ls: Seq<Seq<u8>>) -> bool {
    forall|j: int| 0 <= j < ls.len() ==> #[trigger] line_ok(ls, j)
}

pub open spec fn first_bad(ls: Seq<Seq<u8>>, j: int) -> bool {
    &&& 0 <= j < ls.len()
    &&& !line_ok(ls, j)
    &&& forall|k: int| 0 <= k < j ==> #[trigger] line_ok(ls, k)
}

/// The input is well formed: it has an empty line, and every line it reads is well formed.
pub open spec fn input_ok(ls: Seq<Seq<u8>>) -> bool {
    first_blank_from(ls, 0) < ls.len() && all_ok(ls)
}

/// The ranges of a well-formed input.
pub open spec fn ranges_of(ls: Seq<Seq<u8>>) -> Seq<(u64, u64)> {
    Seq::new(first_blank_from(ls, 0) as nat, |j: int| range_spec(ls[j])->Some_0)
}

/// The ids of a well-formed input.
pub open spec fn ids_of(ls: Seq<Seq<u8>>) -> Seq<u64> {
    let e = first_blank_from(ls, 0);
    let f = first_blank_from(ls, e + 1);
    Seq::new((f - e - 1) as nat, |j: int| parse_u64_spec(ls[e + 1 + j])->Some_0)
}

/// The error of a malformed input.
pub open spec fn input_error(ls: Seq<Seq<u8>>, err: InputError) -> bool {
    if first_blank_from(ls, 0) >= ls.len() {
        err == InputError::Missing
    } else {
        exists|j: int| #[trigger] first_bad(ls, j) && err == InputError::Malformed { line: j as usize }
    }
}

proof fn lemma_first_blank(ls: Seq<Seq<u8>>, from: int)
    requires
        0 <= from,
    ensures
        from <= first_blank_from(ls, from) <= ls.len() || (from > ls.len()
            && first_blank_from(ls, from) == ls.len()),
        first_blank_from(ls, from) < ls.len() ==> ls[first_blank_from(ls, from)].len() == 0,
        forall|k: int| from <= k < first_blank_from(ls, from) ==> ls[k].len() != 0,
    decreases ls.len() - from,
{
    if from < ls.len() && ls[from].len() != 0 {
        lemma_first_blank(ls, from + 1);
    }
}

fn find_blank(lines: &Vec<Vec<u8>>, from: usize, ls: Ghost<Seq<Seq<u8>>>) -> (r: usize)
    requires
        lines@.len() == ls@.len(),
        forall|j: int| 0 <= j < ls@.len() ==> #[trigger] lines@[j]@ == ls@[j],
        from <= ls@.len(),
    ensures
        r == first_blank_from(ls@, from as int),
{
    let mut k = from;
    proof {
        lemma_first_blank(ls@, from as int);
    }
    while k < lines.len() && lines[k].len() != 0
        invariant
            from <= k <= ls@.len(),
            lines@.len() == ls@.len(),
            forall|j: int| 0 <= j < ls@.len() ==> #[trigger] lines@[j]@ == ls@[j],
            first_blank_from(ls@, k as int) == first_blank_from(ls@, from as int),
        decreases ls@.len() - k,
    {
        k = k + 1;
    }
    k
}

fn parse_range(l: &Vec<u8>) -> (r: Option<(u64, u64)>)
    ensures
        r == range_spec(l@),
{
    let f = split_bytes(l.as_slice(), 45);
    if f.len() < 2 {
        return None;
    }
    match (parse_u64_all(&f[0]), parse_u64_all(&f[1])) {
        (Some(a), Some(b)) => Some((a, b)),
        _ => None,
    }
}

/// Reads the ranges, one per line, then after an empty line the ids, one per line.
pub fn parse(input: &str) -> (r: Result<Input, InputError>)
    ensures
        match r {
            Ok(v) => input_ok(input_lines(input)) && v.ranges@ == ranges_of(input_lines(input))
                && v.ingredients@ == ids_of(input_lines(input)),
            Err(e) => !input_ok(input_lines(input)) && input_error(input_lines(input), e),
        },
{
    let ghost ls = input_lines(input);
    let lines = read_lines(input);
    let e = find_blank(&lines, 0, Ghost(ls));
    proof {
        lemma_first_blank(ls, 0);
    }
    if e == lines.len() {
        return Err(InputError::Missing);
    }
    let f = find_blank(&lines, e + 1, Ghost(ls));
    proof {
        lemma_first_blank(ls, e + 1);
    }
    let mut ranges: Vec<(u64, u64)> = Vec::new();
    let mut i: usize = 0;
    while i < e
        invariant
            ls == input_lines(input),
            lines@.len() == ls.len(),
            forall|j: int| 0 <= j < ls.len() ==> #[trigger] lines@[j]@ == ls[j],
            e == first_blank_from(ls, 0),
            f == first_blank_from(ls, e + 1),
            e < f <= ls.len(),
            i <= e,
            ranges@.len() == i,
            forall|j: int| 0 <= j < i ==> line_ok(ls, j),
            forall|j: int| 0 <= j < i ==> range_spec(#[trigger] ls[j]) == Some(ranges@[j]),
        decreases e - i,
    {
        match parse_range(&lines[i]) {
            Some(p) => ranges.push(p),
            None => {
                assert(first_bad(ls, i as int));
                return Err(InputError::Malformed { line: i });
            },
        }
        i = i + 1;
    }
    assert(line_ok(ls, e as int));
    let mut ids: Vec<u64> = Vec::new();
    let mut i: usize = e + 1;
    while i < f
        invariant
            ls == input_lines(input),
            lines@.len() == ls.len(),
            forall|j: int| 0 <= j < ls.len() ==> #[trigger] lines@[j]@ == ls[j],
            e == first_blank_from(ls, 0),
            f == first_blank_from(ls, e + 1),
            e < f <= ls.len(),
            e < i <= f,
            ids@.len() == i - e - 1,
            forall|j: int| 0 <= j < i ==> line_ok(ls, j),
            forall|j: int| 0 <= j < ids@.len() ==> parse_u64_spec(#[trigger] ls[e + 1 + j]) == Some(ids@[j]),
            ranges@ == ranges_of(ls),
        decreases f - i,
    {
        match parse_u64_all(&lines[i]) {
            Some(p) => ids.push(p),
            None => {
                assert(first_bad(ls, i as int));
                return Err(InputError::Malformed { line: i });
            },
        }
        i = i + 1;
    }
    assert(ranges@ =~= ranges_of(ls));
    assert(ids@ =~= ids_of(ls));
    assert(all_ok(ls));
    Ok(Input { ranges, ingredients: ids })
}

fn in_ranges(ranges: &Vec<(u64, u64)>, x: u64) -> (r: bool)
    ensures
        r == in_some(ranges@, x as int),
{
    let mut i: usize = 0;
    while i < ranges.len()
        invariant
            i <= ranges@.len(),
            forall|j: int| #![trigger ranges@[j]] 0 <= j < i ==> !(ranges@[j].0 <= x <= ranges@[j].1),
        decreases ranges@.len() - i,
    {
        if ranges[i].0 <= x && x <= ranges[i].1 {
            return true;
        }
        i = i + 1;
    }
    false
}

/// How many of `ids` lie in one of `ranges`.
pub fn count_fresh(ranges: &Vec<(u64, u64)>, ids: &Vec<u64>) -> (r: usize)
    ensures
        r == count_fresh_spec(ranges@, ids@),
{
    let mut n: usize = 0;
    let mut i: usize = 0;
    assert(ids@.take(0) =~= Seq::<u64>::empty());
    while i < ids.len()
        invariant
            i <= ids@.len(),
            n <= i,
            n == count_fresh_spec(ranges@, ids@.take(i as int)),
        decreases ids@.len() - i,
    {
        assert(ids@.take(i + 1).drop_last() =~= ids@.take(i as int));
        if in_ranges(ranges, ids[i]) {
            n = n + 1;
        }
        i = i + 1;
    }
    assert(ids@.take(i as int) =~= ids@);
    n
}

/// Relies on slice::sort_by_key: the items are reordered, ascending by the key.
#[verifier::external_body]
fn sort_by_start(v: &mut Vec<(u64, u64)>)
    ensures
        final(v)@.to_multiset() == old(v)@.to_multiset(),
        forall|i: int, j: int| 0 <= i < j < final(v)@.len() ==> final(v)@[i].0 <= final(v)@[j].0,
{
    v.sort_by_key(|r| r.0);
}

proof fn lemma_covered_finite(r: Seq<(u64, u64)>)
    ensures
        covered_set(r).finite(),
{
    lemma_int_range(0, 0x1_0000_0000_0000_0000);
    lemma_len_subset(covered_set(r), set_int_range(0, 0x1_0000_0000_0000_0000));
}

proof fn lemma_covered_push(t: Seq<(u64, u64)>, i: int)
    requires
        0 <= i < t.len(),
    ensures
        covered_set(t.take(i + 1)) == covered_set(t.take(i)) + set_int_range(
            t[i].0 as int,
            t[i].1 + 1,
        ),
{
    let a = covered_set(t.take(i + 1));
    let b = covered_set(t.take(i)) + set_int_range(t[i].0 as int, t[i].1 + 1);
    assert forall|x: int| a.contains(x) implies b.contains(x) by {
        let j = choose|j: int| #![trigger t.take(i + 1)[j]] 0 <= j < i + 1 && t.take(i + 1)[j].0 <= x <= t.take(i + 1)[j].1;
        if j < i {
            assert(t.take(i)[j] == t[j]);
        }
    }
    assert forall|x: int| b.contains(x) implies a.contains(x) by {
        if covered_set(t.take(i)).contains(x) {
            let j = choose|j: int| #![trigger t.take(i)[j]] 0 <= j < i && t.take(i)[j].0 <= x <= t.take(i)[j].1;
            assert(t.take(i + 1)[j] == t[j]);
        } else {
            assert(t.take(i + 1)[i] == t[i]);
        }
    }
    assert(a =~= b);
}

/// The law that reordering the ranges does not change which ids they hold.
pub proof fn lemma_union_reorder(r1: Seq<(u64, u64)>, r2: Seq<(u64, u64)>)
    requires
        r1.to_multiset() == r2.to_multiset(),
    ensures
        covered_set(r1) == covered_set(r2),
        covered_set(r1).len() == covered_set(r2).len(),
{
    assert forall|x: int| covered_set(r1).contains(x) implies covered_set(r2).contains(x) by {
        let j = choose|j: int| #![trigger r1[j]] 0 <= j < r1.len() && r1[j].0 <= x <= r1[j].1;
        assert(r1.contains(r1[j]));
        assert(r1.to_multiset().count(r1[j]) > 0);
        assert(r2.contains(r1[j]));
        let k = choose|k: int| #![trigger r2[k]] 0 <= k < r2.len() && r2[k] == r1[j];
    }
    assert forall|x: int| covered_set(r2).contains(x) implies covered_set(r1).contains(x) by {
        let j = choose|j: int| #![trigger r2[j]] 0 <= j < r2.len() && r2[j].0 <= x <= r2[j].1;
        assert(r2.contains(r2[j]));
        assert(r2.to_multiset().count(r2[j]) > 0);
        assert(r1.contains(r2[j]));
        let k = choose|k: int| #![trigger r1[k]] 0 <= k < r1.len() && r1[k] == r2[j];
    }
    assert(covered_set(r1) =~= covered_set(r2));
}

/// How many ids the union of `ranges` holds.
pub fn union_size(ranges: Vec<(u64, u64)>) -> (r: u128)
    ensures
        r == covered_set(ranges@).len(),
{
    let ghost r0 = ranges@;
    let mut ranges = ranges;
    sort_by_start(&mut ranges);
    let ghost t = ranges@;
    proof {
        lemma_union_reorder(r0, t);
    }
    let mut idx: u128 = 0;
    let mut acc: u128 = 0;
    let ghost mut lo: int = 0;
    let mut i: usize = 0;
    proof {
        assert(covered_set(t.take(0)) =~= Set::<int>::empty());
    }
    while i < ranges.len()
        invariant
            t == ranges@,
            forall|a: int, b: int| 0 <= a < b < t.len() ==> t[a].0 <= t[b].0,
            i <= t.len(),
            covered_set(t.take(i as int)).finite(),
            acc == covered_set(t.take(i as int)).len(),
            idx <= 0x1_0000_0000_0000_0000,
            forall|x: int| covered_set(t.take(i as int)).contains(x) ==> x < idx,
            0 <= lo <= idx,
            forall|j: int| i <= j < t.len() ==> lo <= t[j].0,
            set_int_range(lo, idx as int).subset_of(covered_set(t.take(i as int))),
        decreases t.len() - i,
    {
        let s = ranges[i].0;
        let e = ranges[i].1;
        proof {
            lemma_covered_push(t, i as int);
            lemma_covered_finite(t.take(i + 1));
        }
        let ghost a = covered_set(t.take(i as int));
        let ghost b = set_int_range(s as int, e + 1);
        if idx > e as u128 || s > e {
            assert(b.subset_of(a));
            assert(a + b =~= a);
        } else {
            let start: u128 = if (s as u128) < idx {
                idx
            } else {
                s as u128
            };
            let ghost c = set_int_range(start as int, e + 1);
            proof {
                lemma_int_range(start as int, e + 1);
                assert(a + b =~= a + c);
                assert(a.disjoint(c));
                lemma_set_disjoint_lens(a, c);
                lemma_int_range(0, idx as int);
                lemma_len_subset(a, set_int_range(0, idx as int));
                lemma_int_range(0, e + 1);
                lemma_len_subset(a + c, set_int_range(0, e + 1));
            }
            acc = acc + (e as u128 + 1 - start);
            idx = e as u128 + 1;
            proof {
                lo = s as int;
            }
        }
        i = i + 1;
    }
    assert(t.take(i as int) =~= t);
    acc
}

/// How many of the ids lie in one of the ranges.
pub fn part_one(input: &str) -> (r: Result<usize, InputError>)
    ensures
        match r {
            Ok(n) => input_ok(input_lines(input)) && n == count_fresh_spec(
                ranges_of(input_lines(input)),
                ids_of(input_lines(input)),
            ),
            Err(e) => !input_ok(input_lines(input)) && input_error(input_lines(input), e),
        },
{
    match parse(input) {
        Ok(v) => Ok(count_fresh(&v.ranges, &v.ingredients)),
        Err(e) => Err(e),
    }
}

/// How many ids the ranges hold together.
pub fn part_two(input: &str) -> (r: Result<u128, InputError>)
    ensures
        match r {
            Ok(n) => input_ok(input_lines(input)) && n == covered_set(
                ranges_of(input_lines(input)),
            ).len(),
            Err(e) => !input_ok(input_lines(input)) && input_error(input_lines(input), e),
        },
{
    match parse(input) {
        Ok(v) => Ok(union_size(v.ranges)),
        Err(e) => Err(e),
    }
}

} // verus!
