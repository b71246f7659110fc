//! Joining points into circuits, nearest pairs first.
use vstd::prelude::*;
use crate::error::InputError;
use crate::text::{first_failing, input_lines, parse_i64_all, parse_i64_spec, read_lines, split_bytes, split_on};

verus! {

/// A point in space.
#[derive(Debug, Clone, Copy, PartialEq, Eq, Structural)]
pub struct Coords {
    pub x: i64,
    pub y: i64,
    pub z: i64,
}

/// The squared Euclidean distance between two points.
pub open spec fn sq_dist(p: Coords, q: Coords) -> int {
    (p.x - q.x) * (p.x - q.x) + (p.y - q.y) * (p.y - q.y) + (p.z - q.z) * (p.z - q.z)
}

/// The largest `r` with `r * r <= n`.
pub open spec fn floor_sqrt(n: nat) -> nat
    decreases n,
{
    if n == 0 {
        0
    } else {
        let r = floor_sqrt((n - 1) as nat);
        if (r + 1) * (r + 1) <= n {
            r + 1
        } else {
            r
        }
    }
}

pub proof fn lemma_floor_sqrt(n: nat)
    ensures
        floor_sqrt(n) * floor_sqrt(n) <= n < (floor_sqrt(n) + 1) * (floor_sqrt(n) + 1),
    decreases n,
{
    if n > 0 {
        lemma_floor_sqrt((n - 1) as nat);
        let r = floor_sqrt((n - 1) as nat);
        if (r + 1) * (r + 1) <= n {
            assert(floor_sqrt(n) == r + 1);
            assert((r + 1) * (r + 1) <= n < (r + 2) * (r + 2)) by (nonlinear_arith)
                requires
                    (r + 1) * (r + 1) <= n,
                    n - 1 < (r + 1) * (r + 1),
            ;
        } else {
            assert(floor_sqrt(n) == r);
            assert(r * r <= n) by (nonlinear_arith)
                requires
                    r * r <= n - 1,
            ;
        }
    } else {
        assert(floor_sqrt(n) == 0);
        assert(0 * 0 <= n < (0 + 1) * (0 + 1)) by (nonlinear_arith)
            requires
                n == 0,
        ;
    }
}

pub proof fn lemma_floor_sqrt_unique(n: nat, r: int)
    requires
        r >= 0,
        r * r <= n,
        n < (r + 1) * (r + 1),
    ensures
        r == floor_sqrt(n),
{
    lemma_floor_sqrt(n);
    let s = floor_sqrt(n) as int;
    if r < s {
        assert((r + 1) * (r + 1) <= s * s) by (nonlinear_arith)
            requires
                r + 1 <= s,
                r >= 0,
        ;
    }
    if s < r {
        assert((s + 1) * (s + 1) <= r * r) by (nonlinear_arith)
            requires
                s + 1 <= r,
                s >= 0,
        ;
    }
}

proof fn lemma_square_bound(d: int)
    requires
        d * d <= i64::MAX,
    ensures
        -0x1_0000_0000 < d < 0x1_0000_0000,
{
    if d >= 0x1_0000_0000 {
        assert(d * d >= 0x1_0000_0000 * 0x1_0000_0000) by (nonlinear_arith)
            requires
                d >= 0x1_0000_0000,
        ;
    }
    if d <= -0x1_0000_0000 {
        assert(d * d >= 0x1_0000_0000 * 0x1_0000_0000) by (nonlinear_arith)
            requires
                d <= -0x1_0000_0000,
        ;
    }
}

/// Relies on i64::isqrt: the square root of a non-negative number, rounded down.
#[verifier::external_body]
fn isqrt(n: i64) -> (r: i64)
    requires
        n >= 0,
    ensures
        r >= 0,
        r * r <= n,
        n < (r + 1) * (r + 1),
{
    n.isqrt()
}

impl Coords {
    /// The Euclidean distance to `other`, rounded down.
    pub fn dist(&self, other: &Coords) -> (r: i64)
        requires
            sq_dist(*self, *other) <= i64::MAX,
        ensures
            r == floor_sqrt(sq_dist(*self, *other) as nat),
    {
        proof {
            let dx = self.x - other.x;
            let dy = self.y - other.y;
            let dz = self.z - other.z;
            assert(dx * dx >= 0 && dy * dy >= 0 && dz * dz >= 0) by (nonlinear_arith);
            lemma_square_bound(dx);
            lemma_square_bound(dy);
            lemma_square_bound(dz);
        }
        let dx = self.x - other.x;
        let dy = self.y - other.y;
        let dz = self.z - other.z;
        let x = dx * dx;
        let y = dy * dy;
        let z = dz * dz;
        let r = isqrt(x + y + z);
        proof {
            lemma_floor_sqrt_unique(sq_dist(*self, *other) as nat, r as int);
        }
        r
    }
}

/// A pair of points, by index, and the distance between them.
#[derive(Debug, Clone, Copy, PartialEq, Eq, Structural)]
pub struct Distance {
    pub distance: i64,
    pub a: usize,
    pub b: usize,
}

/// `v` placed after the last item of `s` whose distance is not above its own.
pub open spec fn sorted_insert(s: Seq<Distance>, v: Distance) -> Seq<Distance>
    decreases s.len(),
{
    if s.len() == 0 || s.last().distance <= v.distance {
        s.push(v)
    } else {
        sorted_insert(s.drop_last(), v).push(s.last())
    }
}

/// One step of keeping the `k` smallest: below `k` items, `v` goes in; at `k`,
/// it takes the place of the largest only if it is strictly smaller.
pub open spec fn top_insert(s: Seq<Distance>, v: Distance, k: nat) -> Seq<Distance> {
    if s.len() < k {
        sorted_insert(s, v)
    } else if s.len() > 0 && s.last().distance > v.distance {
        sorted_insert(s.drop_last(), v)
    } else {
        s
    }
}

/// The `k` smallest items of the stream `s`, in ascending order of distance.
pub open spec fn keep_smallest(s: Seq<Distance>, k: nat) -> Seq<Distance>
    decreases s.len(),
{
    if s.len() == 0 {
        Seq::empty()
    } else {
        top_insert(keep_smallest(s.drop_last(), k), s.last(), k)
    }
}

/// The law of the count kept: as many items as the stream holds, up to `k`.
pub proof fn lemma_keep_len(s: Seq<Distance>, k: nat)
    ensures
        keep_smallest(s, k).len() == if s.len() < k {
            s.len()
        } else {
            k
        },
    decreases s.len(),
{
    if s.len() > 0 {
        lemma_keep_len(s.drop_last(), k);
        let t = keep_smallest(s.drop_last(), k);
        lemma_sorted_insert(t, s.last(), 0);
        if t.len() > 0 {
            lemma_sorted_insert(t.drop_last(), s.last(), 0);
        }
    }
}

/// The sequence is sorted by ascending distance.
pub open spec fn ascending(s: Seq<Distance>) -> bool {
    forall|i: int, j: int| 0 <= i < j < s.len() ==> s[i].distance <= s[j].distance
}

/// Every item names two points below `n`.
pub open spec fn in_range(s: Seq<Distance>, n: nat) -> bool {
    forall|i: int| #![trigger s[i]] 0 <= i < s.len() ==> s[i].a < n && s[i].b < n
}

proof fn lemma_sorted_insert(s: Seq<Distance>, v: Distance, n: nat)
    ensures
        sorted_insert(s, v).len() == s.len() + 1,
        ascending(s) ==> ascending(sorted_insert(s, v)),
        in_range(s, n) && v.a < n && v.b < n ==> in_range(sorted_insert(s, v), n),
    decreases s.len(),
{
    if s.len() > 0 && s.last().distance > v.distance {
        let t = sorted_insert(s.drop_last(), v);
        lemma_sorted_insert(s.drop_last(), v, n);
        if ascending(s) {
            assert(ascending(s.drop_last()));
            assert(forall|i: int|
                0 <= i < s.drop_last().len() ==> #[trigger] s.drop_last()[i].distance
                    <= s.last().distance);
            lemma_sorted_insert_bound(s.drop_last(), v, s.last().distance);
        }
        if in_range(s, n) && v.a < n && v.b < n {
            assert(in_range(s.drop_last(), n));
            let last = s[s.len() - 1];
            assert(last.a < n && last.b < n);
            assert(forall|i: int| 0 <= i < t.len() ==> #[trigger] t.push(last)[i] == t[i]);
            assert(t.push(last)[t.len() as int] == last);
            assert(in_range(t.push(last), n));
        }
    }
}

proof fn lemma_sorted_insert_bound(s: Seq<Distance>, v: Distance, m: i64)
    requires
        forall|i: int| 0 <= i < s.len() ==> #[trigger] s[i].distance <= m,
        v.distance <= m,
    ensures
        forall|i: int|
            0 <= i < sorted_insert(s, v).len() ==> #[trigger] sorted_insert(s, v)[i].distance
                <= m,
    decreases s.len(),
{
    if s.len() > 0 && s.last().distance > v.distance {
        lemma_sorted_insert_bound(s.drop_last(), v, m);
        lemma_sorted_insert(s.drop_last(), v, 0);
    }
}

proof fn lemma_keep_smallest(s: Seq<Distance>, k: nat, n: nat)
    requires
        in_range(s, n),
    ensures
        ascending(keep_smallest(s, k)),
        in_range(keep_smallest(s, k), n),
    decreases s.len(),
{
    if s.len() > 0 {
        let t = keep_smallest(s.drop_last(), k);
        assert(in_range(s.drop_last(), n));
        lemma_keep_smallest(s.drop_last(), k, n);
        assert(s.last().a < n && s.last().b < n);
        lemma_sorted_insert(t, s.last(), n);
        if t.len() > 0 {
            assert(ascending(t.drop_last()));
            assert(in_range(t.drop_last(), n));
            lemma_sorted_insert(t.drop_last(), s.last(), n);
        }
    }
}

/// Places `v` after the last item of `list` whose distance is not above its own.
fn insert_sorted(list: &mut Vec<Distance>, v: Distance)
    ensures
        final(list)@ == sorted_insert(old(list)@, v),
{
    let ghost s = list@;
    let mut p: usize = list.len();
    assert(s.take(p as int) =~= s);
    assert(s.skip(p as int) =~= Seq::<Distance>::empty());
    assert(s + Seq::<Distance>::empty() =~= s);
    while p > 0 && list[p - 1].distance > v.distance
        invariant
            list@ == s,
            p <= s.len(),
            sorted_insert(s, v) == sorted_insert(s.take(p as int), v) + s.skip(p as int),
        decreases p,
    {
        let ghost t = s.take(p as int);
        assert(t.drop_last() =~= s.take(p - 1));
        assert(seq![t.last()] + s.skip(p as int) =~= s.skip(p - 1));
        assert(sorted_insert(t, v) == sorted_insert(s.take(p - 1), v).push(t.last()));
        assert(sorted_insert(s.take(p - 1), v).push(t.last()) + s.skip(p as int)
            =~= sorted_insert(s.take(p - 1), v) + s.skip(p - 1));
        p = p - 1;
    }
    list.insert(p, v);
    assert(sorted_insert(s.take(p as int), v) =~= s.take(p as int).push(v));
    assert(list@ =~= s.take(p as int).push(v) + s.skip(p as int));
}

/// The smallest items seen so far, at most `maxlen` of them, in ascending order.
pub struct Top {
    pub list: Vec<Distance>,
    pub maxlen: usize,
}

impl Top {
    /// The items are in ascending order of distance, and at most `maxlen` of them.
    pub open spec fn wf(&self) -> bool {
        ascending(self.list@) && self.list@.len() <= self.maxlen
    }

    pub fn new(maxlen: usize) -> (r: Top)
        ensures
            r.list@ == Seq::<Distance>::empty(),
            r.maxlen == maxlen,
            r.wf(),
    {
        Top { list: Vec::new(), maxlen }
    }

    pub fn insert(&mut self, val: Distance)
        ensures
            final(self).list@ == top_insert(old(self).list@, val, old(self).maxlen as nat),
            final(self).maxlen == old(self).maxlen,
            old(self).wf() ==> final(self).wf(),
    {
        proof {
            let s = self.list@;
            lemma_sorted_insert(s, val, 0);
            if s.len() > 0 {
                if ascending(s) {
                    assert(ascending(s.drop_last()));
                }
                lemma_sorted_insert(s.drop_last(), val, 0);
            }
        }
        if self.list.len() < self.maxlen {
            insert_sorted(&mut self.list, val);
            return;
        }
        let n = self.list.len();
        if n > 0 && self.list[n - 1].distance > val.distance {
            let _ = self.list.pop();
            insert_sorted(&mut self.list, val);
        }
    }

    pub fn into_sorted_vec(self) -> (r: Vec<Distance>)
        ensures
            r@ == self.list@,
            self.wf() ==> ascending(r@),
    {
        self.list
    }
}

/// The pair of points `a` and `b` of `c`.
pub open spec fn pair(c: Seq<Coords>, a: int, b: int) -> Distance {
    Distance { distance: floor_sqrt(sq_dist(c[a], c[b]) as nat) as i64, a: a as usize, b: b as usize }
}

/// The pairs `(a, b)` with `a < b` and `a` below `end`, in order of `a`, then of `b`.
pub open spec fn pairs_before(c: Seq<Coords>, end: int) -> Seq<Distance>
    decreases end,
{
    if end <= 0 {
        Seq::empty()
    } else {
        pairs_before(c, end - 1) + Seq::new(
            (c.len() - end) as nat,
            |j: int| pair(c, end - 1, end + j),
        )
    }
}

/// Every pair of distinct points, in the order in which they are enumerated.
pub open spec fn all_pairs(c: Seq<Coords>) -> Seq<Distance> {
    pairs_before(c, c.len() as int)
}

proof fn lemma_pairs_in_range(c: Seq<Coords>, end: int)
    requires
        end <= c.len(),
    ensures
        in_range(pairs_before(c, end), c.len()),
    decreases end,
{
    if end > 0 {
        lemma_pairs_in_range(c, end - 1);
    }
}

/// The squared distance between every two points fits in an `i64`.
pub open spec fn pairs_fit(c: Seq<Coords>) -> bool {
    forall|a: int, b: int| 0 <= a < b < c.len() ==> #[trigger] sq_dist(c[a], c[b]) <= i64::MAX
}

/// The squared distance between `p` and `q` fits in an `i64`.
fn pair_fits(p: &Coords, q: &Coords) -> (r: bool)
    ensures
        r == (sq_dist(*p, *q) <= i64::MAX),
{
    let dx = p.x as i128 - q.x as i128;
    let dy = p.y as i128 - q.y as i128;
    let dz = p.z as i128 - q.z as i128;
    proof {
        assert(dx * dx >= 0 && dy * dy >= 0 && dz * dz >= 0) by (nonlinear_arith);
        if sq_dist(*p, *q) <= i64::MAX {
            lemma_square_bound(dx as int);
            lemma_square_bound(dy as int);
            lemma_square_bound(dz as int);
        }
    }
    if dx > 0x1_0000_0000 || dx < -0x1_0000_0000 || dy > 0x1_0000_0000 || dy < -0x1_0000_0000
        || dz > 0x1_0000_0000 || dz < -0x1_0000_0000 {
        return false;
    }
    assert(dx * dx <= 0x1_0000_0000_0000_0000) by (nonlinear_arith)
        requires
            -0x1_0000_0000 <= dx <= 0x1_0000_0000,
    ;
    assert(dy * dy <= 0x1_0000_0000_0000_0000) by (nonlinear_arith)
        requires
            -0x1_0000_0000 <= dy <= 0x1_0000_0000,
    ;
    assert(dz * dz <= 0x1_0000_0000_0000_0000) by (nonlinear_arith)
        requires
            -0x1_0000_0000 <= dz <= 0x1_0000_0000,
    ;
    dx * dx + dy * dy + dz * dz <= i64::MAX as i128
}

/// Whether the squared distance between every two points fits in an `i64`.
pub fn check_pairs(coords: &Vec<Coords>) -> (r: bool)
    ensures
        r == pairs_fit(coords@),
{
    let ghost c = coords@;
    let n = coords.len();
    let mut a: usize = 0;
    while a < n
        invariant
            c == coords@,
            n == c.len(),
            a <= n,
            forall|i: int, j: int| 0 <= i < a && i < j < n ==> #[trigger] sq_dist(c[i], c[j]) <= i64::MAX,
        decreases n - a,
    {
        let mut b: usize = a + 1;
        while b < n
            invariant
                c == coords@,
                n == c.len(),
                a < n,
                a < b <= n,
                forall|i: int, j: int| 0 <= i < a && i < j < n ==> #[trigger] sq_dist(c[i], c[j]) <= i64::MAX,
                forall|j: int| a < j < b ==> #[trigger] sq_dist(c[a as int], c[j]) <= i64::MAX,
            decreases n - b,
        {
            if !pair_fits(&coords[a], &coords[b]) {
                return false;
            }
            b = b + 1;
        }
        a = a + 1;
    }
    true
}

/// The `maxlen` closest pairs of `coords`, closest first.
pub fn shortest_connections(coords: &Vec<Coords>, maxlen: usize) -> (r: Vec<Distance>)
    requires
        pairs_fit(coords@),
    ensures
        r@ == keep_smallest(all_pairs(coords@), maxlen as nat),
        ascending(r@),
        in_range(r@, coords@.len()),
{
    let ghost c = coords@;
    let ghost k = maxlen as nat;
    let len = coords.len();
    let mut top = Top::new(maxlen);
    let mut a: usize = 0;
    while a < len
        invariant
            c == coords@,
            len == c.len(),
            a <= len,
            top.maxlen == maxlen,
            k == maxlen as nat,
            pairs_fit(c),
            top.list@ == keep_smallest(pairs_before(c, a as int), k),
        decreases len - a,
    {
        let mut b: usize = a + 1;
        assert(pairs_before(c, a as int) + Seq::new(0, |j: int| pair(c, a as int, a + 1 + j))
            =~= pairs_before(c, a as int));
        while b < len
            invariant
                c == coords@,
                len == c.len(),
                a < b <= len,
                top.maxlen == maxlen,
                k == maxlen as nat,
                pairs_fit(c),
                top.list@ == keep_smallest(
                    pairs_before(c, a as int) + Seq::new(
                        (b - a - 1) as nat,
                        |j: int| pair(c, a as int, a + 1 + j),
                    ),
                    k,
                ),
            decreases len - b,
        {
            assert(sq_dist(c[a as int], c[b as int]) <= i64::MAX);
            let dist = coords[a].dist(&coords[b]);
            let d = Distance { distance: dist, a, b };
            let ghost before = pairs_before(c, a as int) + Seq::new(
                (b - a - 1) as nat,
                |j: int| pair(c, a as int, a + 1 + j),
            );
            let ghost after = pairs_before(c, a as int) + Seq::new(
                (b - a) as nat,
                |j: int| pair(c, a as int, a + 1 + j),
            );
            assert(after.drop_last() =~= before);
            assert(after.last() == d);
            assert(keep_smallest(after, k) == top_insert(keep_smallest(before, k), d, k));
            top.insert(d);
            b = b + 1;
            assert(after =~= pairs_before(c, a as int) + Seq::new(
                (b - a - 1) as nat,
                |j: int| pair(c, a as int, a + 1 + j),
            ));
        }
        assert(pairs_before(c, a as int) + Seq::new(
            (b - a - 1) as nat,
            |j: int| pair(c, a as int, a + 1 + j),
        ) =~= pairs_before(c, a + 1));
        a = a + 1;
    }
    proof {
        lemma_pairs_in_range(c, c.len() as int);
        lemma_keep_smallest(all_pairs(c), k, c.len());
    }
    top.into_sorted_vec()
}

/// The index of the last circuit of `c` that holds point `p`.
pub open spec fn find_circuit(c: Seq<Seq<usize>>, p: usize) -> Option<int>
    decreases c.len(),
{
    if c.len() == 0 {
        None
    } else if c.last().contains(p) {
        Some(c.len() - 1)
    } else {
        find_circuit(c.drop_last(), p)
    }
}

/// The circuits after joining points `a` and `b`: a new circuit when neither is
/// in one, the other point added when one is, the two circuits merged into the
/// place of `a`'s when they are in different ones.
pub open spec fn join(c: Seq<Seq<usize>>, a: usize, b: usize) -> Seq<Seq<usize>> {
    match (find_circuit(c, a), find_circuit(c, b)) {
        (None, None) => c.push(if a == b { seq![a] } else { seq![a, b] }),
        (Some(i), None) => c.update(i, c[i].push(b)),
        (None, Some(j)) => c.update(j, c[j].push(a)),
        (Some(i), Some(j)) => if i == j {
            c
        } else {
            c.update(i, c[i] + c[j]).remove(j)
        },
    }
}

/// No point is twice in one circuit, nor in two circuits.
pub open spec fn disjoint_circuits(c: Seq<Seq<usize>>) -> bool {
    &&& forall|i: int, k: int, l: int|
        0 <= i < c.len() && 0 <= k < l < c[i].len() ==> #[trigger] c[i][k] != #[trigger] c[i][l]
    &&& forall|i: int, j: int, p: usize|
        0 <= i < j < c.len() ==> !(#[trigger] c[i].contains(p) && #[trigger] c[j].contains(p))
}

proof fn lemma_find_circuit(c: Seq<Seq<usize>>, p: usize)
    ensures
        find_circuit(c, p) matches Some(i) ==> 0 <= i < c.len() && c[i].contains(p),
        find_circuit(c, p) is None ==> forall|i: int| 0 <= i < c.len() ==> !c[i].contains(p),
    decreases c.len(),
{
    if c.len() > 0 {
        lemma_find_circuit(c.drop_last(), p);
        assert(forall|i: int| 0 <= i < c.len() - 1 ==> c.drop_last()[i] == c[i]);
    }
}

/// Joining two points keeps circuits disjoint and free of repeats.
pub proof fn lemma_join_disjoint(c: Seq<Seq<usize>>, a: usize, b: usize)
    requires
        disjoint_circuits(c),
    ensures
        disjoint_circuits(join(c, a, b)),
{
    lemma_find_circuit(c, a);
    lemma_find_circuit(c, b);
    let r = join(c, a, b);
    match (find_circuit(c, a), find_circuit(c, b)) {
        (None, None) => {
            assert forall|i: int, j: int, p: usize|
                0 <= i < j < r.len() implies !(#[trigger] r[i].contains(p) && #[trigger] r[j].contains(p)) by {
                if j == c.len() {
                    if r[j].contains(p) {
                        assert(p == a || p == b);
                    }
                }
            }
        },
        (Some(i0), None) => {
            assert forall|i: int, k: int, l: int|
                0 <= i < r.len() && 0 <= k < l < r[i].len() implies #[trigger] r[i][k] != #[trigger] r[i][l] by {
                if i == i0 && l == c[i0].len() {
                    assert(c[i0].contains(r[i][k]));
                }
            }
            assert forall|i: int, j: int, p: usize|
                0 <= i < j < r.len() implies !(#[trigger] r[i].contains(p) && #[trigger] r[j].contains(p)) by {
                if r[i].contains(p) && r[j].contains(p) {
                    if i == i0 {
                        let k = choose|k: int| 0 <= k < r[i].len() && r[i][k] == p;
                        if k < c[i0].len() {
                            assert(c[i0].contains(p));
                        }
                    } else if j == i0 {
                        let k = choose|k: int| 0 <= k < r[j].len() && r[j][k] == p;
                        if k < c[i0].len() {
                            assert(c[i0].contains(p));
                        }
                    }
                }
            }
        },
        (None, Some(j0)) => {
            assert forall|i: int, k: int, l: int|
                0 <= i < r.len() && 0 <= k < l < r[i].len() implies #[trigger] r[i][k] != #[trigger] r[i][l] by {
                if i == j0 && l == c[j0].len() {
                    assert(c[j0].contains(r[i][k]));
                }
            }
            assert forall|i: int, j: int, p: usize|
                0 <= i < j < r.len() implies !(#[trigger] r[i].contains(p) && #[trigger] r[j].contains(p)) by {
                if r[i].contains(p) && r[j].contains(p) {
                    if i == j0 {
                        let k = choose|k: int| 0 <= k < r[i].len() && r[i][k] == p;
                        if k < c[j0].len() {
                            assert(c[j0].contains(p));
                        }
                    } else if j == j0 {
                        let k = choose|k: int| 0 <= k < r[j].len() && r[j][k] == p;
                        if k < c[j0].len() {
                            assert(c[j0].contains(p));
                        }
                    }
                }
            }
        },
        (Some(i0), Some(j0)) => {
            if i0 != j0 {
                let m = c.update(i0, c[i0] + c[j0]);
                assert forall|i: int, k: int, l: int|
                    0 <= i < r.len() && 0 <= k < l < r[i].len() implies #[trigger] r[i][k] != #[trigger] r[i][l] by {
                    let ii = if i < j0 { i } else { i + 1 };
                    assert(r[i] == m[ii]);
                    if ii == i0 {
                        let n0 = c[i0].len() as int;
                        if k < n0 && l >= n0 {
                            assert(c[i0].contains(r[i][k]));
                            assert(c[j0].contains(r[i][l]));
                            assert(r[i][l] == c[j0][l - n0]);
                        }
                    }
                }
                assert forall|i: int, j: int, p: usize|
                    0 <= i < j < r.len() implies !(#[trigger] r[i].contains(p) && #[trigger] r[j].contains(p)) by {
                    let ii = if i < j0 { i } else { i + 1 };
                    let jj = if j < j0 { j } else { j + 1 };
                    assert(r[i] == m[ii]);
                    assert(r[j] == m[jj]);
                    if r[i].contains(p) && r[j].contains(p) {
                        if ii == i0 {
                            let k = choose|k: int| 0 <= k < r[i].len() && r[i][k] == p;
                            if k < c[i0].len() {
                                assert(c[i0].contains(p));
                            } else {
                                assert(c[j0][k - c[i0].len()] == p);
                                assert(c[j0].contains(p));
                            }
                        } else if jj == i0 {
                            let k = choose|k: int| 0 <= k < r[j].len() && r[j][k] == p;
                            if k < c[i0].len() {
                                assert(c[i0].contains(p));
                            } else {
                                assert(c[j0][k - c[i0].len()] == p);
                                assert(c[j0].contains(p));
                            }
                        }
                    }
                }
            }
        },
    }
}

/// The circuits after joining the pairs of `edges` in order, from none.
pub open spec fn circuits_after(edges: Seq<Distance>) -> Seq<Seq<usize>>
    decreases edges.len(),
{
    if edges.len() == 0 {
        Seq::empty()
    } else {
        join(circuits_after(edges.drop_last()), edges.last().a, edges.last().b)
    }
}

/// `x` placed into the descending sequence `t` before its first smaller item.
pub open spec fn insert_desc(t: Seq<nat>, x: nat) -> Seq<nat>
    decreases t.len(),
{
    if t.len() == 0 {
        seq![x]
    } else if t[0] >= x {
        seq![t[0]] + insert_desc(t.drop_first(), x)
    } else {
        seq![x] + t
    }
}

pub open spec fn first3(t: Seq<nat>) -> Seq<nat> {
    if t.len() > 3 {
        t.take(3)
    } else {
        t
    }
}

/// The three largest items of `s` (fewer if `s` is shorter), in descending order.
pub open spec fn largest3(s: Seq<nat>) -> Seq<nat>
    decreases s.len(),
{
    if s.len() == 0 {
        Seq::empty()
    } else {
        first3(insert_desc(largest3(s.drop_last()), s.last()))
    }
}

pub open spec fn product(t: Seq<nat>) -> nat
    decreases t.len(),
{
    if t.len() == 0 {
        1
    } else {
        t[0] * product(t.drop_first())
    }
}

pub open spec fn sizes(c: Seq<Seq<usize>>) -> Seq<nat> {
    Seq::new(c.len(), |i: int| c[i].len())
}

/// The product of the sizes of the three largest circuits, if it fits in a `u128`.
pub open spec fn top3_spec(c: Seq<Seq<usize>>) -> Option<u128> {
    let p = product(largest3(sizes(c)));
    if p <= u128::MAX {
        Some(p as u128)
    } else {
        None
    }
}

/// All `n` points are in one circuit.
pub open spec fn one_circuit(c: Seq<Seq<usize>>, n: nat) -> bool {
    c.len() == 1 && c[0].len() == n
}

fn contains(v: &Vec<usize>, p: usize) -> (r: bool)
    ensures
        r == v@.contains(p),
{
    let mut i: usize = 0;
    while i < v.len()
        invariant
            i <= v@.len(),
            forall|j: int| 0 <= j < i ==> v@[j] != p,
        decreases v@.len() - i,
    {
        if v[i] == p {
            return true;
        }
        i = i + 1;
    }
    false
}

/// Circuits of points, each a list of point indices.
pub struct Circuits {
    pub circuits: Vec<Vec<usize>>,
}

impl View for Circuits {
    type V = Seq<Seq<usize>>;

    open spec fn view(&self) -> Seq<Seq<usize>> {
        self.circuits@.map_values(|c: Vec<usize>| c@)
    }
}

impl Default for Circuits {
    fn default() -> (r: Circuits)
        ensures
            r@ == Seq::<Seq<usize>>::empty(),
            r.wf(),
    {
        let r = Circuits { circuits: Vec::new() };
        assert(r@ =~= Seq::<Seq<usize>>::empty());
        r
    }
}

impl Circuits {
    fn find(&self, p: usize) -> (r: Option<usize>)
        ensures
            r matches Some(i) ==> i < self@.len(),
            find_circuit(self@, p) == (match r {
                Some(i) => Some(i as int),
                None => None,
            }),
    {
        let ghost c = self@;
        let mut i: usize = self.circuits.len();
        assert(c.take(i as int) =~= c);
        while i > 0
            invariant
                c == self@,
                i <= c.len(),
                find_circuit(c, p) == find_circuit(c.take(i as int), p),
            decreases i,
        {
            let ghost t = c.take(i as int);
            assert(t.drop_last() =~= c.take(i - 1));
            if contains(&self.circuits[i - 1], p) {
                return Some(i - 1);
            }
            i = i - 1;
        }
        None
    }

    /// No point is twice in one circuit, nor in two circuits.
    pub open spec fn wf(&self) -> bool {
        disjoint_circuits(self@)
    }

    /// Joins the two points of `distance` into one circuit.
    pub fn add(&mut self, distance: &Distance)
        ensures
            final(self)@ == join(old(self)@, distance.a, distance.b),
            old(self).wf() ==> final(self).wf(),
    {
        let ghost c = self@;
        proof {
            if disjoint_circuits(c) {
                lemma_join_disjoint(c, distance.a, distance.b);
            }
        }
        let a = distance.a;
        let b = distance.b;
        let ca = self.find(a);
        let cb = self.find(b);
        match (ca, cb) {
            (None, None) => {
                let mut v: Vec<usize> = Vec::new();
                v.push(a);
                if a != b {
                    v.push(b);
                }
                assert(v@ =~= if a == b { seq![a] } else { seq![a, b] });
                self.circuits.push(v);
                assert(self@ =~= c.push(if a == b { seq![a] } else { seq![a, b] }));
            },
            (Some(i), None) => {
                let mut v = self.circuits.remove(i);
                v.push(b);
                self.circuits.insert(i, v);
                assert(self@ =~= c.update(i as int, c[i as int].push(b)));
            },
            (None, Some(j)) => {
                let mut v = self.circuits.remove(j);
                v.push(a);
                self.circuits.insert(j, v);
                assert(self@ =~= c.update(j as int, c[j as int].push(a)));
            },
            (Some(i), Some(j)) => {
                if i != j {
                    let mut vj = self.circuits.remove(j);
                    let i2 = if i < j {
                        i
                    } else {
                        i - 1
                    };
                    let mut vi = self.circuits.remove(i2);
                    vi.append(&mut vj);
                    self.circuits.insert(i2, vi);
                    assert(self@ =~= c.update(i as int, c[i as int] + c[j as int]).remove(
                        j as int,
                    ));
                }
            },
        }
    }

    /// All `coords_len` points are in one circuit.
    pub fn one_big_circuit(&self, coords_len: usize) -> (r: bool)
        ensures
            r == one_circuit(self@, coords_len as nat),
    {
        self.circuits.len() == 1 && self.circuits[0].len() == coords_len
    }

    /// The product of the sizes of the three largest circuits; `None` where it
    /// does not fit in a `u128`.
    pub fn top3(&self) -> (r: Option<u128>)
        ensures
            r == top3_spec(self@),
    {
        let ghost sz = sizes(self@);
        let mut t: Vec<u128> = Vec::new();
        let mut k: usize = 0;
        assert(sz.take(0) =~= Seq::<nat>::empty());
        while k < self.circuits.len()
            invariant
                sz == sizes(self@),
                k <= sz.len(),
                t@.len() <= 3,
                t@.map_values(|x: u128| x as nat) == largest3(sz.take(k as int)),
            decreases sz.len() - k,
        {
            let x = self.circuits[k].len() as u128;
            let ghost before = t@.map_values(|x: u128| x as nat);
            let mut p: usize = 0;
            assert(before.skip(0) =~= before);
            assert(before.take(0) + insert_desc(before, x as nat) =~= insert_desc(before, x as nat));
            while p < t.len() && t[p] >= x
                invariant
                    p <= t@.len(),
                    t@.map_values(|x: u128| x as nat) == before,
                    insert_desc(before, x as nat) == before.take(p as int) + insert_desc(
                        before.skip(p as int),
                        x as nat,
                    ),
                decreases t@.len() - p,
            {
                let ghost u = before.skip(p as int);
                assert(u.drop_first() =~= before.skip(p + 1));
                assert(before.take(p as int) + seq![u[0]] =~= before.take(p + 1));
                p = p + 1;
            }
            t.insert(p, x);
            if t.len() > 3 {
                t.truncate(3);
            }
            assert(sz.take(k + 1).drop_last() =~= sz.take(k as int));
            assert(t@.map_values(|x: u128| x as nat) =~= first3(
                before.take(p as int) + insert_desc(before.skip(p as int), x as nat),
            ));
            k = k + 1;
        }
        assert(sz.take(k as int) =~= sz);
        let ghost m = t@.map_values(|x: u128| x as nat);
        let mut i: usize = 0;
        while i < t.len()
            invariant
                i <= t@.len(),
                m == t@.map_values(|x: u128| x as nat),
                m == largest3(sizes(self@)),
                forall|j: int| 0 <= j < i ==> t@[j] != 0,
            decreases t@.len() - i,
        {
            if t[i] == 0 {
                proof {
                    lemma_product_zero(m, i as int);
                }
                return Some(0);
            }
            i = i + 1;
        }
        assert(forall|j: int| 0 <= j < m.len() ==> m[j] != 0);
        let mut r: u128 = 1;
        let mut i: usize = t.len();
        assert(m.skip(i as int) =~= Seq::<nat>::empty());
        while i > 0
            invariant
                i <= t@.len(),
                m == t@.map_values(|x: u128| x as nat),
                m == largest3(sizes(self@)),
                forall|j: int| 0 <= j < m.len() ==> m[j] != 0,
                r == product(m.skip(i as int)),
            decreases i,
        {
            assert(m.skip(i - 1).drop_first() =~= m.skip(i as int));
            match t[i - 1].checked_mul(r) {
                Some(v) => {
                    r = v;
                },
                None => {
                    proof {
                        lemma_product_grows(m, i - 1);
                        assert(product(m.skip(i - 1)) == m[i - 1] * product(m.skip(i as int)));
                    }
                    return None;
                },
            }
            i = i - 1;
        }
        assert(m.skip(0) =~= m);
        Some(r)
    }
}

proof fn lemma_product_zero(m: Seq<nat>, i: int)
    requires
        0 <= i < m.len(),
        m[i] == 0,
    ensures
        product(m) == 0,
    decreases i,
{
    let d = m.drop_first();
    assert(product(m) == m[0] * product(d));
    if i > 0 {
        lemma_product_zero(d, i - 1);
        assert(m[0] * 0 == 0) by (nonlinear_arith);
    } else {
        assert(0 * product(d) == 0) by (nonlinear_arith);
    }
}

proof fn lemma_product_grows(m: Seq<nat>, i: int)
    requires
        0 <= i <= m.len(),
        forall|j: int| 0 <= j < m.len() ==> m[j] != 0,
    ensures
        product(m) >= product(m.skip(i)),
    decreases i,
{
    if i > 0 {
        let d = m.drop_first();
        lemma_product_grows(d, i - 1);
        assert(d.skip(i - 1) =~= m.skip(i));
        assert(m[0] * product(d) >= product(d)) by (nonlinear_arith)
            requires
                m[0] >= 1,
        ;
    } else {
        assert(m.skip(0) =~= m);
    }
}

/// The point written on a line as three comma-separated coordinates (anything
/// after a third comma is not read).
pub open spec fn parse_line_spec(l: Seq<u8>) -> Option<Coords> {
    let f = split_on(l, 44);
    if f.len() >= 3 && parse_i64_spec(f[0]) is Some && parse_i64_spec(f[1]) is Some
        && parse_i64_spec(f[2]) is Some {
        Some(
            Coords {
                x: parse_i64_spec(f[0])->Some_0,
                y: parse_i64_spec(f[1])->Some_0,
                z: parse_i64_spec(f[2])->Some_0,
            },
        )
    } else {
        None
    }
}

pub open spec fn line_ok(l: Seq<u8>) -> bool {
    parse_line_spec(l) is Some
}

/// Line `i` of `ls` is the first that holds no point.
pub open spec fn first_bad(ls: Seq<Seq<u8>>, i: int) -> bool {
    first_failing(ls, |l: Seq<u8>| line_ok(l), i)
}

/// Every line holds a point.
pub open spec fn all_ok(ls: Seq<Seq<u8>>) -> bool {
    forall|i: int| 0 <= i < ls.len() ==> line_ok(#[trigger] ls[i])
}

/// The points of the lines.
pub open spec fn coords_of(ls: Seq<Seq<u8>>) -> Seq<Coords> {
    Seq::new(ls.len(), |i: int| parse_line_spec(ls[i])->Some_0)
}

/// What the first part answers for the points `c`, joining the `k` closest pairs.
pub open spec fn part_one_spec(c: Seq<Coords>, k: nat) -> Result<u128, InputError> {
    match top3_spec(circuits_after(keep_smallest(all_pairs(c), k))) {
        Some(p) => Ok(p),
        None => Err(InputError::Overflow),
    }
}

/// All pairs of `c`, closest first.
pub open spec fn sorted_pairs(c: Seq<Coords>) -> Seq<Distance> {
    keep_smallest(all_pairs(c), usize::MAX as nat)
}

/// Joining the first `k + 1` pairs of `e` puts all `n` points in one circuit.
pub open spec fn joins_all(e: Seq<Distance>, k: int, n: nat) -> bool {
    one_circuit(circuits_after(e.take(k + 1)), n)
}

fn parse_line(l: &Vec<u8>) -> (r: Option<Coords>)
    ensures
        r == parse_line_spec(l@),
{
    let f = split_bytes(l.as_slice(), 44);
    if f.len() < 3 {
        return None;
    }
    let x = parse_i64_all(&f[0]);
    let y = parse_i64_all(&f[1]);
    let z = parse_i64_all(&f[2]);
    match (x, y, z) {
        (Some(x), Some(y), Some(z)) => Some(Coords { x, y, z }),
        _ => None,
    }
}

/// Reads one point per line.
pub fn parse(input: &str) -> (r: Result<Vec<Coords>, InputError>)
    ensures
        match r {
            Ok(v) => all_ok(input_lines(input)) && v@ == coords_of(input_lines(input)),
            Err(e) => exists|i: int|
                #[trigger] first_bad(input_lines(input), i) && e
                    == InputError::Malformed { line: i as usize },
        },
{
    let ghost ls = input_lines(input);
    let lines = read_lines(input);
    let mut out: Vec<Coords> = Vec::new();
    let mut i: usize = 0;
    while i < lines.len()
        invariant
            ls == input_lines(input),
            lines@.len() == ls.len(),
            forall|j: int| 0 <= j < ls.len() ==> #[trigger] lines@[j]@ == ls[j],
            i <= ls.len(),
            out@.len() == i,
            forall|j: int| 0 <= j < i ==> parse_line_spec(#[trigger] ls[j]) == Some(out@[j]),
        decreases ls.len() - i,
    {
        match parse_line(&lines[i]) {
            Some(p) => out.push(p),
            None => {
                assert(first_bad(ls, i as int));
                return Err(InputError::Malformed { line: i });
            },
        }
        i = i + 1;
    }
    assert(out@ =~= coords_of(ls));
    Ok(out)
}

/// The product of the sizes of the three largest circuits after joining the
/// `maxlen` closest pairs of the points of `input`.
pub fn solve_part_one(input: &str, maxlen: usize) -> (r: Result<u128, InputError>)
    ensures
        all_ok(input_lines(input)) && pairs_fit(coords_of(input_lines(input))) ==> r
            == part_one_spec(coords_of(input_lines(input)), maxlen as nat),
        all_ok(input_lines(input)) && !pairs_fit(coords_of(input_lines(input))) ==> r == Err::<
            u128,
            InputError,
        >(InputError::Overflow),
        !all_ok(input_lines(input)) ==> exists|i: int|
            #[trigger] first_bad(input_lines(input), i) && r == Err::<
                u128,
                InputError,
            >(InputError::Malformed { line: i as usize }),
{
    let coords = match parse(input) {
        Ok(c) => c,
        Err(e) => return Err(e),
    };
    let ghost c = coords@;
    if !check_pairs(&coords) {
        return Err(InputError::Overflow);
    }
    let distances = shortest_connections(&coords, maxlen);
    let ghost e = distances@;
    let mut circuits = Circuits::default();
    let mut i: usize = 0;
    assert(e.take(0) =~= Seq::<Distance>::empty());
    while i < distances.len()
        invariant
            e == distances@,
            i <= e.len(),
            circuits@ == circuits_after(e.take(i as int)),
        decreases e.len() - i,
    {
        circuits.add(&distances[i]);
        assert(e.take(i + 1).drop_last() =~= e.take(i as int));
        i = i + 1;
    }
    assert(e.take(i as int) =~= e);
    match circuits.top3() {
        Some(p) => Ok(p),
        None => Err(InputError::Overflow),
    }
}

/// The first part, joining the thousand closest pairs.
pub fn part_one(input: &str) -> (r: Result<u128, InputError>)
    ensures
        all_ok(input_lines(input)) && pairs_fit(coords_of(input_lines(input))) ==> r
            == part_one_spec(coords_of(input_lines(input)), 1000),
        all_ok(input_lines(input)) && !pairs_fit(coords_of(input_lines(input))) ==> r == Err::<
            u128,
            InputError,
        >(InputError::Overflow),
        !all_ok(input_lines(input)) ==> exists|i: int|
            #[trigger] first_bad(input_lines(input), i) && r == Err::<
                u128,
                InputError,
            >(InputError::Malformed { line: i as usize }),
{
    solve_part_one(input, 1000)
}

proof fn lemma_x_product(p: i64, q: i64)
    ensures
        -0x4000_0000_0000_0000_0000_0000_0000_0000 <= p * q <= 0x4000_0000_0000_0000_0000_0000_0000_0000,
{
    assert(-0x4000_0000_0000_0000_0000_0000_0000_0000 <= p * q
        <= 0x4000_0000_0000_0000_0000_0000_0000_0000) by (nonlinear_arith)
        requires
            -0x8000_0000_0000_0000 <= p <= 0x7fff_ffff_ffff_ffff,
            -0x8000_0000_0000_0000 <= q <= 0x7fff_ffff_ffff_ffff,
    ;
}

/// The product of the x coordinates of the two points of the first pair, in
/// ascending order of distance, after whose joining all points are in one circuit.
pub fn part_two(input: &str) -> (r: Result<i128, InputError>)
    ensures
        all_ok(input_lines(input)) && !pairs_fit(coords_of(input_lines(input))) ==> r == Err::<
            i128,
            InputError,
        >(InputError::Overflow),
        all_ok(input_lines(input)) && pairs_fit(coords_of(input_lines(input))) ==> ({
            let c = coords_of(input_lines(input));
            let e = sorted_pairs(c);
            match r {
                Ok(v) => exists|k: int|
                    0 <= k < e.len() && joins_all(e, k, c.len()) && (forall|j: int|
                        0 <= j < k ==> !joins_all(e, j, c.len())) && v == c[e[k].a as int].x
                        * c[e[k].b as int].x,
                Err(err) => err == InputError::NoSolution && forall|k: int|
                    0 <= k < e.len() ==> !joins_all(e, k, c.len()),
            }
        }),
        !all_ok(input_lines(input)) ==> exists|i: int|
            #[trigger] first_bad(input_lines(input), i) && r == Err::<
                i128,
                InputError,
            >(InputError::Malformed { line: i as usize }),
{
    let coords = match parse(input) {
        Ok(c) => c,
        Err(e) => return Err(e),
    };
    let ghost c = coords@;
    let ghost n = c.len();
    if !check_pairs(&coords) {
        return Err(InputError::Overflow);
    }
    let distances = shortest_connections(&coords, usize::MAX);
    let ghost e = distances@;
    proof {
        lemma_pairs_in_range(c, c.len() as int);
        lemma_keep_smallest(all_pairs(c), usize::MAX as nat, n);
    }
    let mut circuits = Circuits::default();
    let mut i: usize = 0;
    assert(e.take(0) =~= Seq::<Distance>::empty());
    while i < distances.len()
        invariant
            c == coords@,
            all_ok(input_lines(input)),
            c == coords_of(input_lines(input)),
            n == c.len(),
            e == distances@,
            e == sorted_pairs(c),
            in_range(e, n),
            pairs_fit(c),
            i <= e.len(),
            circuits@ == circuits_after(e.take(i as int)),
            forall|j: int| 0 <= j < i ==> !joins_all(e, j, n),
        decreases e.len() - i,
    {
        let d = distances[i];
        circuits.add(&d);
        assert(e.take(i + 1).drop_last() =~= e.take(i as int));
        if circuits.one_big_circuit(coords.len()) {
            assert(joins_all(e, i as int, n));
            assert(d.a < n && d.b < n);
            let pa = coords[d.a].x;
            let pb = coords[d.b].x;
            proof {
                lemma_x_product(pa, pb);
                assert(pa * pb == c[e[i as int].a as int].x * c[e[i as int].b as int].x);
            }
            return Ok(pa as i128 * pb as i128);
        }
        i = i + 1;
    }
    Err(InputError::NoSolution)
}

} // verus!
