//! Lines and decimal numbers over the bytes of an input.
use vstd::prelude::*;
use vstd::string::StringSliceAdditionalSpecFns;

verus! {

pub open spec fn is_digit(b: u8) -> bool {
    48 <= b <= 57
}

/// A non-empty run of decimal digits.
pub open spec fn all_digits(s: Seq<u8>) -> bool {
    s.len() > 0 && forall|i: int| 0 <= i < s.len() ==> is_digit(#[trigger] s[i])
}

/// The value of a run of decimal digits, most significant first.
pub open spec fn decimal(s: Seq<u8>) -> nat
    decreases s.len(),
{
    if s.len() == 0 {
        0
    } else {
        decimal(s.drop_last()) * 10 + (s.last() - 48) as nat
    }
}

/// The number written by `s`, if it is a run of digits whose value fits in a `u64`.
pub open spec fn parse_u64_spec(s: Seq<u8>) -> Option<u64> {
    if all_digits(s) && decimal(s) <= u64::MAX {
        Some(decimal(s) as u64)
    } else {
        None
    }
}

/// The number written by `s`, digits with an optional leading minus sign, if it
/// fits in an `i64`.
pub open spec fn parse_i64_spec(s: Seq<u8>) -> Option<i64> {
    if s.len() > 0 && s[0] == 45 {
        let d = s.drop_first();
        if all_digits(d) && decimal(d) <= 0x8000_0000_0000_0000 {
            Some((-decimal(d)) as i64)
        } else {
            None
        }
    } else if all_digits(s) && decimal(s) <= i64::MAX {
        Some(decimal(s) as i64)
    } else {
        None
    }
}

pub proof fn lemma_decimal_prefix(s: Seq<u8>, k: int)
    requires
        0 <= k <= s.len(),
        forall|i: int| 0 <= i < s.len() ==> is_digit(#[trigger] s[i]),
    ensures
        decimal(s.subrange(0, k)) <= decimal(s),
    decreases s.len(),
{
    if k < s.len() {
        let t = s.drop_last();
        lemma_decimal_prefix(t, k);
        assert(t.subrange(0, k) =~= s.subrange(0, k));
    } else {
        assert(s.subrange(0, k) =~= s);
    }
}

/// Reads the digits `s[lo..hi]` as a number.
pub fn parse_u64(s: &[u8], lo: usize, hi: usize) -> (r: Option<u64>)
    requires
        lo <= hi <= s@.len(),
    ensures
        r == parse_u64_spec(s@.subrange(lo as int, hi as int)),
{
    let ghost full = s@.subrange(lo as int, hi as int);
    if lo == hi {
        return None;
    }
    let mut acc: u64 = 0;
    let mut i: usize = lo;
    while i < hi
        invariant
            lo <= i <= hi <= s@.len(),
            full == s@.subrange(lo as int, hi as int),
            forall|j: int| lo <= j < i ==> is_digit(#[trigger] s@[j]),
            acc == decimal(s@.subrange(lo as int, i as int)),
        decreases hi - i,
    {
        let b = s[i];
        if b < 48 || b > 57 {
            assert(full[i - lo] == b);
            return None;
        }
        let d = (b - 48) as u64;
        let ghost pre = s@.subrange(lo as int, i as int + 1);
        assert(pre.drop_last() =~= s@.subrange(lo as int, i as int));
        assert(decimal(pre) == acc * 10 + d);
        if acc > (u64::MAX - d) / 10 {
            assert(acc * 10 + d > u64::MAX) by (nonlinear_arith)
                requires
                    acc > (u64::MAX - d) / 10,
                    d <= 9,
            ;
            proof {
                if all_digits(full) {
                    lemma_decimal_prefix(full, i - lo + 1);
                    assert(full.subrange(0, i - lo + 1) =~= pre);
                }
            }
            return None;
        }
        assert(acc * 10 + d <= u64::MAX) by (nonlinear_arith)
            requires
                acc <= (u64::MAX - d) / 10,
                d <= 9,
        ;
        acc = acc * 10 + d;
        i = i + 1;
    }
    assert(s@.subrange(lo as int, i as int) =~= full);
    Some(acc)
}

/// Reads `s[lo..hi]`, digits with an optional leading minus sign, as a number.
pub fn parse_i64(s: &[u8], lo: usize, hi: usize) -> (r: Option<i64>)
    requires
        lo <= hi <= s@.len(),
    ensures
        r == parse_i64_spec(s@.subrange(lo as int, hi as int)),
{
    let ghost full = s@.subrange(lo as int, hi as int);
    if lo < hi && s[lo] == 45 {
        assert(full.drop_first() =~= s@.subrange(lo + 1, hi as int));
        match parse_u64(s, lo + 1, hi) {
            Some(v) => {
                if v <= 0x8000_0000_0000_0000 {
                    if v == 0x8000_0000_0000_0000 {
                        Some(i64::MIN)
                    } else {
                        Some(-(v as i64))
                    }
                } else {
                    None
                }
            },
            None => None,
        }
    } else {
        match parse_u64(s, lo, hi) {
            Some(v) => {
                if v <= i64::MAX as u64 {
                    Some(v as i64)
                } else {
                    None
                }
            },
            None => None,
        }
    }
}

/// The pieces of `s` between the bytes equal to `sep`: one more than there are
/// such bytes.
pub open spec fn split_on(s: Seq<u8>, sep: u8) -> Seq<Seq<u8>>
    decreases s.len(),
{
    if s.len() == 0 {
        seq![Seq::empty()]
    } else if s.last() == sep {
        split_on(s.drop_last(), sep).push(Seq::empty())
    } else {
        let p = split_on(s.drop_last(), sep);
        p.update(p.len() - 1, p.last().push(s.last()))
    }
}

pub proof fn lemma_split_nonempty(s: Seq<u8>, sep: u8)
    ensures
        split_on(s, sep).len() >= 1,
    decreases s.len(),
{
    if s.len() > 0 {
        lemma_split_nonempty(s.drop_last(), sep);
    }
}

/// `p` without a final carriage return.
pub open spec fn strip_cr(p: Seq<u8>) -> Seq<u8> {
    if p.len() > 0 && p.last() == 13 {
        p.drop_last()
    } else {
        p
    }
}

/// The lines of `s`: the pieces between newlines, each without the carriage
/// return before its newline, and without the empty piece after a final
/// newline (so an empty input has no lines).
pub open spec fn lines(s: Seq<u8>) -> Seq<Seq<u8>> {
    let p = split_on(s, 10);
    let q = Seq::new(p.len(), |i: int| if i < p.len() - 1 { strip_cr(p[i]) } else { p[i] });
    if p.last().len() == 0 {
        q.drop_last()
    } else {
        q
    }
}

/// Whitespace: space, tab, newline, vertical tab, form feed or carriage return.
pub open spec fn is_space(b: u8) -> bool {
    b == 32 || (9 <= b <= 13)
}

/// The pieces of `s` between whitespace bytes.
pub open spec fn split_space(s: Seq<u8>) -> Seq<Seq<u8>>
    decreases s.len(),
{
    if s.len() == 0 {
        seq![Seq::empty()]
    } else if is_space(s.last()) {
        split_space(s.drop_last()).push(Seq::empty())
    } else {
        let p = split_space(s.drop_last());
        p.update(p.len() - 1, p.last().push(s.last()))
    }
}

proof fn lemma_split_space_nonempty(s: Seq<u8>)
    ensures
        split_space(s).len() >= 1,
    decreases s.len(),
{
    if s.len() > 0 {
        lemma_split_space_nonempty(s.drop_last());
    }
}

/// Splits `s` at every whitespace byte.
pub fn split_spaces(s: &[u8]) -> (r: Vec<Vec<u8>>)
    ensures
        r@.len() == split_space(s@).len(),
        forall|i: int| 0 <= i < r@.len() ==> #[trigger] r@[i]@ == split_space(s@)[i],
{
    let mut done: Vec<Vec<u8>> = Vec::new();
    let mut cur: Vec<u8> = Vec::new();
    let mut i: usize = 0;
    while i < s.len()
        invariant
            i <= s@.len(),
            split_space(s@.subrange(0, i as int)).len() == done@.len() + 1,
            forall|j: int|
                0 <= j < done@.len() ==> #[trigger] done@[j]@ == split_space(
                    s@.subrange(0, i as int),
                )[j],
            cur@ == split_space(s@.subrange(0, i as int)).last(),
        decreases s@.len() - i,
    {
        let ghost pre = s@.subrange(0, i as int + 1);
        assert(pre.drop_last() =~= s@.subrange(0, i as int));
        let b = s[i];
        if b == 32 || (9 <= b && b <= 13) {
            let old_cur = cur;
            done.push(old_cur);
            cur = Vec::new();
        } else {
            cur.push(b);
        }
        i = i + 1;
    }
    assert(s@.subrange(0, i as int) =~= s@);
    done.push(cur);
    done
}

/// Splits `s` at every byte equal to `sep`.
pub fn split_bytes(s: &[u8], sep: u8) -> (r: Vec<Vec<u8>>)
    ensures
        r@.len() == split_on(s@, sep).len(),
        forall|i: int| 0 <= i < r@.len() ==> #[trigger] r@[i]@ == split_on(s@, sep)[i],
{
    let mut done: Vec<Vec<u8>> = Vec::new();
    let mut cur: Vec<u8> = Vec::new();
    let mut i: usize = 0;
    while i < s.len()
        invariant
            i <= s@.len(),
            split_on(s@.subrange(0, i as int), sep).len() == done@.len() + 1,
            forall|j: int|
                0 <= j < done@.len() ==> #[trigger] done@[j]@ == split_on(
                    s@.subrange(0, i as int),
                    sep,
                )[j],
            cur@ == split_on(s@.subrange(0, i as int), sep).last(),
        decreases s@.len() - i,
    {
        let ghost pre = s@.subrange(0, i as int + 1);
        assert(pre.drop_last() =~= s@.subrange(0, i as int));
        let b = s[i];
        if b == sep {
            let old_cur = cur;
            done.push(old_cur);
            cur = Vec::new();
        } else {
            cur.push(b);
        }
        i = i + 1;
    }
    assert(s@.subrange(0, i as int) =~= s@);
    done.push(cur);
    done
}

/// `i` is the first line of `ls` that `ok` does not accept.
pub open spec fn first_failing(ls: Seq<Seq<u8>>, ok: spec_fn(Seq<u8>) -> bool, i: int) -> bool {
    &&& 0 <= i < ls.len()
    &&& !ok(ls[i])
    &&& forall|j: int| 0 <= j < i ==> ok(#[trigger] ls[j])
}

/// Splits `s` into its lines.
pub fn split_lines(s: &[u8]) -> (r: Vec<Vec<u8>>)
    ensures
        r@.len() == lines(s@).len(),
        forall|i: int| 0 <= i < r@.len() ==> #[trigger] r@[i]@ == lines(s@)[i],
{
    let pieces = split_bytes(s, 10);
    let ghost p = split_on(s@, 10);
    proof {
        lemma_split_nonempty(s@, 10);
    }
    let n = pieces.len();
    let mut r: Vec<Vec<u8>> = Vec::new();
    let mut i: usize = 0;
    while i < n
        invariant
            n == p.len(),
            n >= 1,
            pieces@.len() == n,
            forall|j: int| 0 <= j < n ==> #[trigger] pieces@[j]@ == p[j],
            i <= n,
            r@.len() == i,
            forall|j: int|
                0 <= j < i ==> #[trigger] r@[j]@ == (if j < n - 1 {
                    strip_cr(p[j])
                } else {
                    p[j]
                }),
        decreases n - i,
    {
        let mut v = pieces[i].clone();
        assert(v@ == p[i as int]);
        if i + 1 < n && v.len() > 0 && v[v.len() - 1] == 13 {
            let _ = v.pop();
        }
        r.push(v);
        i = i + 1;
    }
    if pieces[n - 1].len() == 0 {
        let _ = r.pop();
    }
    r
}

/// The lines of the bytes of `input`.
pub open spec fn input_lines(input: &str) -> Seq<Seq<u8>> {
    lines(input.spec_bytes())
}

/// Splits `input` into its lines of bytes.
pub fn read_lines(input: &str) -> (r: Vec<Vec<u8>>)
    ensures
        r@.len() == input_lines(input).len(),
        forall|i: int| 0 <= i < r@.len() ==> #[trigger] r@[i]@ == input_lines(input)[i],
{
    split_lines(input.as_bytes())
}

/// Reads all of `s` as a number, digits with an optional leading minus sign.
pub fn parse_i64_all(s: &Vec<u8>) -> (r: Option<i64>)
    ensures
        r == parse_i64_spec(s@),
{
    assert(s@.subrange(0, s@.len() as int) =~= s@);
    parse_i64(s.as_slice(), 0, s.len())
}

/// Reads all of `s` as a number.
pub fn parse_u64_all(s: &Vec<u8>) -> (r: Option<u64>)
    ensures
        r == parse_u64_spec(s@),
{
    assert(s@.subrange(0, s@.len() as int) =~= s@);
    parse_u64(s.as_slice(), 0, s.len())
}

/// The index of the first byte `b` of `l` from `from` on; `l.len()` if none.
pub open spec fn find_byte(l: Seq<u8>, b: u8, from: int) -> int
    decreases l.len() - from,
{
    if from < 0 || from >= l.len() {
        l.len() as int
    } else if l[from] == b {
        from
    } else {
        find_byte(l, b, from + 1)
    }
}

/// The index of the first byte `b` of `l`; its length if there is none.
pub fn find_first(l: &Vec<u8>, b: u8) -> (r: usize)
    ensures
        r == find_byte(l@, b, 0),
        r <= l@.len(),
        r < l@.len() ==> l@[r as int] == b,
{
    let mut i: usize = 0;
    while i < l.len()
        invariant
            i <= l@.len(),
            find_byte(l@, b, i as int) == find_byte(l@, b, 0),
        decreases l@.len() - i,
    {
        if l[i] == b {
            return i;
        }
        i = i + 1;
    }
    i
}

} // verus!
