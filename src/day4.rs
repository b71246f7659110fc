//! Rolls on a grid that can be reached: fewer than four of the eight cells
//! around them hold a roll. Reachable rolls are taken away in rounds.
use vstd::prelude::*;
use vstd::set_lib::{lemma_len_subset, lemma_set_difference_len};
use crate::error::InputError;
use crate::text::{input_lines, read_lines};

verus! {

/// The cells `(x, y)` that hold a roll: row `y`, column `x`.
pub open spec fn cells(grid: Seq<Seq<bool>>) -> Set<(int, int)> {
    Set::new(|c: (int, int)| 0 <= c.1 < grid.len() && 0 <= c.0 < grid[c.1].len() && grid[c.1][c.0])
}

pub open spec fn occ(g: Set<(int, int)>, x: int, y: int) -> nat {
    if g.contains((x, y)) {
        1
    } else {
        0
    }
}

/// How many of the eight cells around `(x, y)` hold a roll.
pub open spec fn neighbors(g: Set<(int, int)>, x: int, y: int) -> nat {
    occ(g, x - 1, y - 1) + occ(g, x, y - 1) + occ(g, x + 1, y - 1) + occ(g, x - 1, y) + occ(
        g,
        x + 1,
        y,
    ) + occ(g, x - 1, y + 1) + occ(g, x, y + 1) + occ(g, x + 1, y + 1)
}

/// The rolls that can be reached.
pub open spec fn round(g: Set<(int, int)>) -> Set<(int, int)> {
    g.filter(|c: (int, int)| neighbors(g, c.0, c.1) < 4)
}

pub proof fn lemma_round_shrinks(g: Set<(int, int)>)
    requires
        g.finite(),
    ensures
        round(g).finite(),
        round(g).subset_of(g),
        g.difference(round(g)).finite(),
        g.difference(round(g)).len() == g.len() - round(g).len(),
{
    lemma_len_subset(round(g), g);
    lemma_set_difference_len(g, round(g));
    assert(g.intersect(round(g)) =~= round(g));
    lemma_len_subset(g.difference(round(g)), g);
}

/// How many rolls are taken away in all, a round at a time, each round taking
/// every roll that can be reached at its start, until a round takes none.
pub open spec fn peel_total(g: Set<(int, int)>) -> nat
    decreases g.len(),
    when g.finite()
{
    let r = round(g);
    if r.len() == 0 {
        0
    } else {
        proof {
            lemma_round_shrinks(g);
        }
        r.len() + peel_total(g.difference(r))
    }
}

/// The law of the rounds: the total taken away is what the first round takes
/// plus the total taken from what is left, each round leaves fewer rolls, and
/// a round that takes nothing ends the process.
pub proof fn lemma_peel_rounds(g: Set<(int, int)>)
    requires
        g.finite(),
    ensures
        round(g).len() == 0 ==> peel_total(g) == 0,
        round(g).len() > 0 ==> peel_total(g) == round(g).len() + peel_total(
            g.difference(round(g)),
        ),
        round(g).len() > 0 ==> g.difference(round(g)).len() < g.len(),
        g.difference(round(g)).finite(),
{
    lemma_round_shrinks(g);
}

pub open spec fn line_ok(l: Seq<u8>) -> bool {
    forall|i: int| 0 <= i < l.len() ==> (#[trigger] l[i] == 64 || l[i] == 46)
}

pub open spec fn first_bad(ls: Seq<Seq<u8>>, i: int) -> bool {
    &&& 0 <= i < ls.len()
    &&& !line_ok(ls[i])
    &&& forall|j: int| 0 <= j < i ==> line_ok(#[trigger] ls[j])
}

pub open spec fn all_ok(ls: Seq<Seq<u8>>) -> bool {
    forall|i: int| 0 <= i < ls.len() ==> line_ok(#[trigger] ls[i])
}

/// The grid of the lines: `@` is a roll, `.` is empty.
pub open spec fn grid_of(ls: Seq<Seq<u8>>) -> Seq<Seq<bool>> {
    Seq::new(ls.len(), |y: int| Seq::new(ls[y].len(), |x: int| ls[y][x] == 64))
}

/// The view of a grid.
pub open spec fn view_of(grid: Seq<Vec<bool>>) -> Seq<Seq<bool>> {
    grid.map_values(|r: Vec<bool>| r@)
}

fn parse_line(l: &Vec<u8>) -> (r: Option<Vec<bool>>)
    ensures
        match r {
            Some(v) => line_ok(l@) && v@ == Seq::new(l@.len(), |x: int| l@[x] == 64),
            None => !line_ok(l@),
        },
{
    let mut v: Vec<bool> = Vec::new();
    let mut i: usize = 0;
    while i < l.len()
        invariant
            i <= l@.len(),
            v@.len() == i,
            forall|j: int| 0 <= j < i ==> (#[trigger] l@[j] == 64 || l@[j] == 46),
            forall|j: int| 0 <= j < i ==> #[trigger] v@[j] == (l@[j] == 64),
        decreases l@.len() - i,
    {
        let b = l[i];
        if b != 64 && b != 46 {
            return None;
        }
        v.push(b == 64);
        i = i + 1;
    }
    assert(v@ =~= Seq::new(l@.len(), |x: int| l@[x] == 64));
    Some(v)
}

/// Reads the grid, one row per line.
pub fn parse(input: &str) -> (r: Result<Vec<Vec<bool>>, InputError>)
    ensures
        match r {
            Ok(g) => all_ok(input_lines(input)) && view_of(g@) == grid_of(input_lines(input)),
            Err(e) => exists|i: int|
                #[trigger] first_bad(input_lines(input), i) && e == InputError::Malformed {
                    line: i as usize,
                },
        },
{
    let ghost ls = input_lines(input);
    let lines = read_lines(input);
    let mut g: Vec<Vec<bool>> = Vec::new();
    let mut i: usize = 0;
    while i < lines.len()
        invariant
            ls == input_lines(input),
            lines@.len() == ls.len(),
            forall|j: int| 0 <= j < ls.len() ==> #[trigger] lines@[j]@ == ls[j],
            i <= ls.len(),
            g@.len() == i,
            forall|j: int| 0 <= j < i ==> line_ok(#[trigger] ls[j]),
            forall|j: int|
                0 <= j < i ==> #[trigger] g@[j]@ == Seq::new(ls[j].len(), |x: int| ls[j][x] == 64),
        decreases ls.len() - i,
    {
        match parse_line(&lines[i]) {
            Some(v) => g.push(v),
            None => {
                assert(first_bad(ls, i as int));
                return Err(InputError::Malformed { line: i });
            },
        }
        i = i + 1;
    }
    assert(view_of(g@) =~= grid_of(ls));
    Ok(g)
}

/// The part of `grid` before row `y`, column `x`, that holds a roll.
pub open spec fn cells_before(grid: Seq<Seq<bool>>, y: int, x: int) -> Set<(int, int)> {
    cells(grid).filter(|c: (int, int)| c.1 < y || (c.1 == y && c.0 < x))
}

/// How many cells of `grid` hold a roll.
fn count_marked(grid: &Vec<Vec<bool>>) -> (r: u128)
    ensures
        cells(view_of(grid@)).finite(),
        r == cells(view_of(grid@)).len(),
{
    let ghost g = view_of(grid@);
    let mut r: u128 = 0;
    let mut y: usize = 0;
    assert(cells_before(g, 0, 0) =~= Set::<(int, int)>::empty());
    while y < grid.len()
        invariant
            g == view_of(grid@),
            y <= g.len(),
            cells_before(g, y as int, 0).finite(),
            r == cells_before(g, y as int, 0).len(),
            r <= y * 0x1_0000_0000_0000_0000,
        decreases g.len() - y,
    {
        let row = &grid[y];
        assert(row@ == g[y as int]);
        let mut x: usize = 0;
        while x < row.len()
            invariant
                g == view_of(grid@),
                y < g.len(),
                row@ == g[y as int],
                x <= row@.len(),
                cells_before(g, y as int, x as int).finite(),
                r == cells_before(g, y as int, x as int).len(),
                r <= y * 0x1_0000_0000_0000_0000 + x,
            decreases row@.len() - x,
        {
            let ghost s0 = cells_before(g, y as int, x as int);
            let ghost s1 = cells_before(g, y as int, x + 1);
            if row[x] {
                assert(s1 =~= s0.insert((x as int, y as int)));
                assert(!s0.contains((x as int, y as int)));
                r = r + 1;
            } else {
                assert(s1 =~= s0);
            }
            x = x + 1;
        }
        assert(cells_before(g, y as int, x as int) =~= cells_before(g, y + 1, 0));
        y = y + 1;
    }
    assert(cells_before(g, y as int, 0) =~= cells(g));
    r
}

fn at(grid: &Vec<Vec<bool>>, x: usize, y: usize) -> (r: bool)
    ensures
        r == cells(view_of(grid@)).contains((x as int, y as int)),
{
    y < grid.len() && x < grid[y].len() && grid[y][x]
}

/// How many of the eight cells around `(x, y)` hold a roll.
fn count_neighbors(grid: &Vec<Vec<bool>>, x: usize, y: usize) -> (r: u8)
    requires
        x < usize::MAX,
        y < usize::MAX,
    ensures
        r == neighbors(cells(view_of(grid@)), x as int, y as int),
{
    let ghost g = cells(view_of(grid@));
    let mut n: u8 = 0;
    if y > 0 {
        if x > 0 && at(grid, x - 1, y - 1) {
            n = n + 1;
        }
        if at(grid, x, y - 1) {
            n = n + 1;
        }
        if at(grid, x + 1, y - 1) {
            n = n + 1;
        }
    }
    if x > 0 && at(grid, x - 1, y) {
        n = n + 1;
    }
    if at(grid, x + 1, y) {
        n = n + 1;
    }
    if x > 0 && at(grid, x - 1, y + 1) {
        n = n + 1;
    }
    if at(grid, x, y + 1) {
        n = n + 1;
    }
    if at(grid, x + 1, y + 1) {
        n = n + 1;
    }
    assert(!g.contains((x - 1, y - 1)) || (x > 0 && y > 0));
    assert(!g.contains((x as int, y - 1)) || y > 0);
    assert(!g.contains((x + 1, y - 1)) || y > 0);
    assert(!g.contains((x - 1, y as int)) || x > 0);
    assert(!g.contains((x - 1, y + 1)) || x > 0);
    n
}

/// The grid of the rolls that can be reached.
pub fn paper_rolls(grid: &Vec<Vec<bool>>) -> (r: Vec<Vec<bool>>)
    ensures
        cells(view_of(r@)) == round(cells(view_of(grid@))),
        r@.len() == grid@.len(),
        forall|y: int| 0 <= y < r@.len() ==> #[trigger] r@[y]@.len() == grid@[y]@.len(),
{
    let ghost g = cells(view_of(grid@));
    let mut out: Vec<Vec<bool>> = Vec::new();
    let mut y: usize = 0;
    while y < grid.len()
        invariant
            g == cells(view_of(grid@)),
            y <= grid@.len(),
            out@.len() == y,
            forall|j: int| 0 <= j < y ==> #[trigger] out@[j]@.len() == grid@[j]@.len(),
            forall|j: int, i: int|
                0 <= j < y && 0 <= i < out@[j]@.len() ==> out@[j]@[i] == (grid@[j]@[i]
                    && neighbors(g, i, j) < 4),
        decreases grid@.len() - y,
    {
        let mut row: Vec<bool> = Vec::new();
        let mut x: usize = 0;
        let w = grid[y].len();
        let n = grid.len();
        while x < w
            invariant
                g == cells(view_of(grid@)),
                w == grid@[y as int]@.len(),
                n == grid@.len(),
                y < grid@.len(),
                x <= grid@[y as int]@.len(),
                row@.len() == x,
                forall|i: int|
                    0 <= i < x ==> row@[i] == (grid@[y as int]@[i] && neighbors(g, i, y as int)
                        < 4),
            decreases grid@[y as int]@.len() - x,
        {
            let v = grid[y][x] && count_neighbors(grid, x, y) < 4;
            row.push(v);
            x = x + 1;
        }
        out.push(row);
        y = y + 1;
    }
    assert forall|c: (int, int)| cells(view_of(out@)).contains(c) <==> round(g).contains(c) by {
        if 0 <= c.1 < out@.len() {
            assert(view_of(out@)[c.1] == out@[c.1]@);
            assert(view_of(grid@)[c.1] == grid@[c.1]@);
            assert(out@[c.1]@.len() == grid@[c.1]@.len());
            if 0 <= c.0 < out@[c.1]@.len() {
                assert(out@[c.1]@[c.0] == (grid@[c.1]@[c.0] && neighbors(g, c.0, c.1) < 4));
            }
        }
    }
    assert(cells(view_of(out@)) =~= round(g));
    out
}

/// The grid with the rolls of `rem` taken away.
fn take_away(grid: &Vec<Vec<bool>>, rem: &Vec<Vec<bool>>) -> (r: Vec<Vec<bool>>)
    requires
        rem@.len() == grid@.len(),
        forall|y: int| 0 <= y < rem@.len() ==> #[trigger] rem@[y]@.len() == grid@[y]@.len(),
    ensures
        cells(view_of(r@)) == cells(view_of(grid@)).difference(cells(view_of(rem@))),
{
    let mut out: Vec<Vec<bool>> = Vec::new();
    let mut y: usize = 0;
    while y < grid.len()
        invariant
            rem@.len() == grid@.len(),
            forall|j: int| 0 <= j < rem@.len() ==> #[trigger] rem@[j]@.len() == grid@[j]@.len(),
            y <= grid@.len(),
            out@.len() == y,
            forall|j: int| 0 <= j < y ==> #[trigger] out@[j]@.len() == grid@[j]@.len(),
            forall|j: int, i: int|
                0 <= j < y && 0 <= i < out@[j]@.len() ==> out@[j]@[i] == (grid@[j]@[i]
                    && !rem@[j]@[i]),
        decreases grid@.len() - y,
    {
        let mut row: Vec<bool> = Vec::new();
        let mut x: usize = 0;
        assert(rem@[y as int]@.len() == grid@[y as int]@.len());
        while x < grid[y].len()
            invariant
                rem@.len() == grid@.len(),
                y < grid@.len(),
                rem@[y as int]@.len() == grid@[y as int]@.len(),
                x <= grid@[y as int]@.len(),
                row@.len() == x,
                forall|i: int|
                    0 <= i < x ==> row@[i] == (grid@[y as int]@[i] && !rem@[y as int]@[i]),
            decreases grid@[y as int]@.len() - x,
        {
            row.push(grid[y][x] && !rem[y][x]);
            x = x + 1;
        }
        out.push(row);
        y = y + 1;
    }
    assert forall|c: (int, int)|
        cells(view_of(out@)).contains(c) <==> cells(view_of(grid@)).difference(
            cells(view_of(rem@)),
        ).contains(c) by {
        if 0 <= c.1 < out@.len() {
            assert(view_of(out@)[c.1] == out@[c.1]@);
            assert(view_of(grid@)[c.1] == grid@[c.1]@);
            assert(view_of(rem@)[c.1] == rem@[c.1]@);
        }
    }
    assert(cells(view_of(out@)) =~= cells(view_of(grid@)).difference(cells(view_of(rem@))));
    out
}

/// How many rolls can be reached.
pub fn part_one(input: &str) -> (r: Result<u128, InputError>)
    ensures
        match r {
            Ok(v) => all_ok(input_lines(input)) && v == round(
                cells(grid_of(input_lines(input))),
            ).len(),
            Err(e) => exists|i: int|
                #[trigger] first_bad(input_lines(input), i) && e == InputError::Malformed {
                    line: i as usize,
                },
        },
{
    let grid = match parse(input) {
        Ok(g) => g,
        Err(e) => return Err(e),
    };
    let rem = paper_rolls(&grid);
    Ok(count_marked(&rem))
}

/// How many rolls are taken away in all, in rounds, until none can be reached.
pub fn part_two(input: &str) -> (r: Result<u128, InputError>)
    ensures
        match r {
            Ok(v) => all_ok(input_lines(input)) && v == peel_total(
                cells(grid_of(input_lines(input))),
            ),
            Err(e) => exists|i: int|
                #[trigger] first_bad(input_lines(input), i) && e == InputError::Malformed {
                    line: i as usize,
                },
        },
{
    let mut grid = match parse(input) {
        Ok(g) => g,
        Err(e) => return Err(e),
    };
    let ghost g0 = cells(view_of(grid@));
    let n0 = count_marked(&grid);
    let mut count: u128 = 0;
    loop
        invariant
            g0 == cells(grid_of(input_lines(input))),
            all_ok(input_lines(input)),
            g0.finite(),
            n0 == g0.len(),
            cells(view_of(grid@)).finite(),
            count + cells(view_of(grid@)).len() == n0,
            count + peel_total(cells(view_of(grid@))) == peel_total(g0),
        decreases cells(view_of(grid@)).len(),
    {
        let ghost g = cells(view_of(grid@));
        let rem = paper_rolls(&grid);
        let k = count_marked(&rem);
        proof {
            lemma_round_shrinks(g);
        }
        if k == 0 {
            return Ok(count);
        }
        grid = take_away(&grid, &rem);
        count = count + k;
    }
}

} // verus!
