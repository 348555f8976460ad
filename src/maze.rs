use rand::distributions::IndependentSample;
use rand::distributions::Range;
use vstd::prelude::*;

verus! {

/// Relies on rand's `Range::new(0, n)` and `IndependentSample::ind_sample`
/// with the thread's generator: a value in `[0, n)`, by rejection sampling.
/// `Range::new` panics unless `0 < n`.
#[verifier::external_body]
fn random_below(n: usize) -> (r: usize)
    requires
        n > 0,
    ensures
        r < n,
{
    let mut rng = rand::thread_rng();
    Range::new(0, n).ind_sample(&mut rng)
}

/// A wall that may be raised between two cells, by its middle cell: a
/// vertical one joins the cells above and below, a horizontal one those on
/// its left and right.
#[derive(Clone, Copy, Debug, PartialEq, Eq, Structural)]
pub enum Wall {
    Vertical(usize, usize),
    Horizontal(usize, usize),
}

/// A maze size that the generator accepts: odd sides of at least five cells.
pub open spec fn valid_size(width: usize, height: usize) -> bool {
    &&& width % 2 == 1
    &&& height % 2 == 1
    &&& 5 <= width
    &&& 5 <= height
    &&& width * height <= usize::MAX
}

/// Cell (`x`, `y`) is on the maze's border.
pub open spec fn on_border(width: int, height: int, x: int, y: int) -> bool {
    x == 0 || x == width - 1 || y == 0 || y == height - 1
}

proof fn lemma_index_unique(w: int, x1: int, y1: int, x2: int, y2: int)
    requires
        w > 0,
        0 <= x1 < w,
        0 <= x2 < w,
        0 <= y1,
        0 <= y2,
        y1 * w + x1 == y2 * w + x2,
    ensures
        x1 == x2 && y1 == y2,
{
    assert(y1 == y2) by (nonlinear_arith)
        requires
            w > 0,
            0 <= x1 < w,
            0 <= x2 < w,
            y1 * w + x1 == y2 * w + x2,
    ;
}

proof fn lemma_index_bound(w: int, h: int, x: int, y: int)
    requires
        0 <= x < w,
        0 <= y < h,
    ensures
        0 <= y * w + x < w * h,
{
    assert(0 <= y * w + x < w * h) by (nonlinear_arith)
        requires
            0 <= x < w,
            0 <= y < h,
    ;
}

proof fn lemma_div_mod_bound(i: int, a: int, b: int)
    requires
        0 <= i < a * b,
        a > 0,
    ensures
        i / a < b,
        i % a < a,
        0 <= i / a,
        0 <= i % a,
{
    vstd::arithmetic::div_mod::lemma_fundamental_div_mod(i, a);
    let q = i / a;
    let r = i % a;
    assert(q < b) by (nonlinear_arith)
        requires
            i == a * q + r,
            0 <= r < a,
            i < a * b,
            a > 0,
    ;
    assert(0 <= q) by (nonlinear_arith)
        requires
            i == a * q + r,
            0 <= r < a,
            0 <= i,
            a > 0,
    ;
}

/// `wl` is one of the generator's candidate walls: a vertical one on an even
/// column and odd row, a horizontal one on an odd column and even row, each
/// at least two cells from the border.
pub open spec fn is_candidate(wl: Wall, width: int, height: int) -> bool {
    match wl {
        Wall::Vertical(x, y) => x % 2 == 0 && 2 <= x <= width - 3 && y % 2 == 1 && 3 <= y <= height - 4,
        Wall::Horizontal(x, y) => x % 2 == 1 && 3 <= x <= width - 4 && y % 2 == 0 && 2 <= y <= height - 3,
    }
}

/// The three cells of a wall, as (x, y) pairs: first end, middle, second end.
pub open spec fn wall_cells(wl: Wall) -> (int, int, int, int, int, int) {
    match wl {
        Wall::Vertical(x, y) => (x as int, y - 1, x as int, y as int, x as int, y + 1),
        Wall::Horizontal(x, y) => (x - 1, y as int, x as int, y as int, x + 1, y as int),
    }
}

/// Cell (`x`, `y`) is one of the three cells of `wl`.
pub open spec fn covers(wl: Wall, x: int, y: int) -> bool {
    let c = wall_cells(wl);
    (x == c.0 && y == c.1) || (x == c.2 && y == c.3) || (x == c.4 && y == c.5)
}

/// Some wall of `raised` covers cell (`x`, `y`).
pub open spec fn covered(raised: Seq<Wall>, x: int, y: int) -> bool {
    exists|k: int| 0 <= k < raised.len() && covers(#[trigger] raised[k], x, y)
}

/// One draw of the generator on `grid` (wall flag and group label of each cell,
/// row by row): when the two ends of `wl` lie in different groups, its three
/// cells become walls and every cell of the middle's or the second end's group
/// joins the first end's group; otherwise nothing changes.
pub open spec fn raised_grid(g: Seq<(bool, usize)>, w: int, wl: Wall) -> Seq<(bool, usize)> {
    let c = wall_cells(wl);
    let c1 = c.1 * w + c.0;
    let c2 = c.3 * w + c.2;
    let c3 = c.5 * w + c.4;
    let s1 = g[c1].1;
    let s2 = g[c2].1;
    let s3 = g[c3].1;
    if s1 != s3 {
        Seq::new(
            g.len(),
            |q: int|
                (
                    g[q].0 || q == c1 || q == c2 || q == c3,
                    if g[q].1 == s2 || g[q].1 == s3 {
                        s1
                    } else {
                        g[q].1
                    },
                ),
        )
    } else {
        g
    }
}

/// The cells are walled on the border and open where both coordinates are odd.
pub open spec fn cells_ok(g: Seq<(bool, usize)>, w: int, h: int) -> bool {
    &&& g.len() == w * h
    &&& forall|x: int, y: int|
        0 <= x < w && 0 <= y < h && on_border(w, h, x, y) ==> (#[trigger] g[y * w + x]).0
    &&& forall|x: int, y: int|
        0 <= x < w && 0 <= y < h && x % 2 == 1 && y % 2 == 1 ==> !(#[trigger] g[y * w + x]).0
}

/// Setting the wall flag of cell (`x`, `y`), which is not open by rule, keeps
/// the cells well formed.
proof fn lemma_raise_keeps_cells(g: Seq<(bool, usize)>, w: int, h: int, x: int, y: int, label: usize)
    requires
        cells_ok(g, w, h),
        w > 0,
        0 <= x < w,
        0 <= y < h,
        x % 2 == 0 || y % 2 == 0,
    ensures
        cells_ok(g.update(y * w + x, (true, label)), w, h),
{
    lemma_index_bound(w, h, x, y);
    let g2 = g.update(y * w + x, (true, label));
    assert forall|a: int, b: int| 0 <= a < w && 0 <= b < h && on_border(w, h, a, b) implies (#[trigger] g2[b * w + a]).0 by {
        lemma_index_bound(w, h, a, b);
    }
    assert forall|a: int, b: int| 0 <= a < w && 0 <= b < h && a % 2 == 1 && b % 2 == 1 implies !(#[trigger] g2[b * w + a]).0 by {
        lemma_index_bound(w, h, a, b);
        if b * w + a == y * w + x {
            lemma_index_unique(w, a, b, x, y);
        }
    }
}

/// Every wall of `r` off the border is covered by a wall of `raised`, and every
/// wall of `raised` is a candidate.
pub open spec fn explained(r: Seq<bool>, w: int, h: int, raised: Seq<Wall>) -> bool {
    &&& forall|k: int| 0 <= k < raised.len() ==> is_candidate(#[trigger] raised[k], w, h)
    &&& forall|x: int, y: int|
        0 <= x < w && 0 <= y < h && #[trigger] r[y * w + x] && !on_border(w, h, x, y) ==> covered(raised, x, y)
}

/// One draw of the generator: raises `wl` on `grid` when its two ends lie in
/// different groups, and merges the groups.
pub fn raise_wall(grid: &mut Vec<(bool, usize)>, width: usize, height: usize, wl: Wall)
    requires
        valid_size(width, height),
        old(grid)@.len() == width * height,
        is_candidate(wl, width as int, height as int),
    ensures
        final(grid)@ == raised_grid(old(grid)@, width as int, wl),
{
    let w = width;
    let ghost wi = w as int;
    let ghost hi = height as int;
    let (x1, y1, x2, y2, x3, y3) = match wl {
        Wall::Vertical(x, y) => (x, y - 1, x, y, x, y + 1),
        Wall::Horizontal(x, y) => (x - 1, y, x, y, x + 1, y),
    };
    proof {
        lemma_index_bound(wi, hi, x1 as int, y1 as int);
        lemma_index_bound(wi, hi, x2 as int, y2 as int);
        lemma_index_bound(wi, hi, x3 as int, y3 as int);
    }
    let c1 = y1 * w + x1;
    let c2 = y2 * w + x2;
    let c3 = y3 * w + x3;
    let s1 = grid[c1].1;
    let s2 = grid[c2].1;
    let s3 = grid[c3].1;
    let ghost g0 = grid@;
    if s1 != s3 {
        grid[c1] = (true, s1);
        grid[c2] = (true, s2);
        grid[c3] = (true, s3);
        let m = grid.len();
        let mut j: usize = 0;
        while j < m
            invariant
                m == grid@.len(),
                m == g0.len(),
                0 <= j <= m,
                0 <= c1 < m && 0 <= c2 < m && 0 <= c3 < m,
                s1 == g0[c1 as int].1 && s2 == g0[c2 as int].1 && s3 == g0[c3 as int].1,
                forall|q: int|
                    0 <= q < m ==> #[trigger] grid@[q] == if q < j {
                        (
                            g0[q].0 || q == c1 || q == c2 || q == c3,
                            if g0[q].1 == s2 || g0[q].1 == s3 {
                                s1
                            } else {
                                g0[q].1
                            },
                        )
                    } else {
                        (g0[q].0 || q == c1 || q == c2 || q == c3, g0[q].1)
                    },
            decreases m - j,
        {
            let (b, lab) = grid[j];
            if lab == s2 || lab == s3 {
                grid[j] = (b, s1);
            }
            j = j + 1;
        }
        assert(grid@ =~= raised_grid(g0, wi, wl));
    }
}

/// Grows walls by a reversed randomised Kruskal: starting from the border,
/// candidate walls are drawn at random and raised where they join two wall
/// groups not yet joined, until `percent` percent of the candidates have been
/// drawn. The result gives, row by row, whether each cell is a wall. Whatever
/// is drawn, the border is walled and every cell with two odd coordinates is
/// open.
pub fn generate_partial_reverse_randomized_kruskal(width: usize, height: usize, percent: u64) -> (r: Vec<
    bool,
>)
    requires
        valid_size(width, height),
        percent <= 100,
    ensures
        r@.len() == width * height,
        forall|x: int, y: int|
            0 <= x < width && 0 <= y < height && on_border(width as int, height as int, x, y)
                ==> #[trigger] r@[y * width + x],
        forall|x: int, y: int|
            0 <= x < width && 0 <= y < height && x % 2 == 1 && y % 2 == 1 ==> !#[trigger] r@[y * width
                + x],
        exists|raised: Seq<Wall>| #[trigger] explained(r@, width as int, height as int, raised),
{
    let w = width;
    let h = height;
    let ghost wi = w as int;
    let ghost hi = h as int;
    let n = w * h;
    let mut grid: Vec<(bool, usize)> = Vec::new();
    let mut i: usize = 0;
    while i < n
        invariant
            valid_size(w, h),
            wi == w && hi == h,
            n == w * h,
            0 <= i <= n,
            grid@.len() == i,
            forall|q: int| 0 <= q < i ==> (#[trigger] grid@[q]).0 == on_border(wi, hi, q % wi, q / wi),
        decreases n - i,
    {
        let x = i % w;
        let y = i / w;
        grid.push((x == 0 || x == w - 1 || y == 0 || y == h - 1, i));
        i = i + 1;
    }
    proof {
        assert forall|x: int, y: int|
            0 <= x < wi && 0 <= y < hi && on_border(wi, hi, x, y) implies (#[trigger] grid@[y * wi + x]).0 by {
            lemma_index_bound(wi, hi, x, y);
            vstd::arithmetic::div_mod::lemma_fundamental_div_mod_converse(y * wi + x, wi, y, x);
        }
        assert forall|x: int, y: int|
            0 <= x < wi && 0 <= y < hi && x % 2 == 1 && y % 2 == 1 implies !(#[trigger] grid@[y * wi + x]).0 by {
            lemma_index_bound(wi, hi, x, y);
            vstd::arithmetic::div_mod::lemma_fundamental_div_mod_converse(y * wi + x, wi, y, x);
            assert((wi - 1) % 2 == 0 && (hi - 1) % 2 == 0);
        }
        assert forall|x: int, y: int|
            0 <= x < wi && 0 <= y < hi && (#[trigger] grid@[y * wi + x]).0 implies on_border(wi, hi, x, y) by {
            lemma_index_bound(wi, hi, x, y);
            vstd::arithmetic::div_mod::lemma_fundamental_div_mod_converse(y * wi + x, wi, y, x);
        }
        assert(cells_ok(grid@, wi, hi));
    }

    let vw = (w - 3) / 2;
    let hw = (w - 5) / 2;
    proof {
        assert(vw * (h - 5) <= w * h && hw * (h - 3) <= w * h) by (nonlinear_arith)
            requires
                vw <= w,
                hw <= w,
                5 <= h,
        ;
    }
    let vertical_wall = vw * (h - 5) / 2;
    let horizontal_wall = hw * (h - 3) / 2;
    let ghost vh = (hi - 5) / 2;
    let ghost hh = (hi - 3) / 2;
    proof {
        assert(vertical_wall == vw * vh) by (nonlinear_arith)
            requires
                vertical_wall == (vw * (hi - 5)) / 2,
                hi - 5 == 2 * vh,
        ;
        assert(horizontal_wall == hw * hh) by (nonlinear_arith)
            requires
                horizontal_wall == (hw * (hi - 3)) / 2,
                hi - 3 == 2 * hh,
        ;
    }
    let mut walls: Vec<Wall> = Vec::new();
    i = 0;
    while i < vertical_wall
        invariant
            valid_size(w, h),
            wi == w && hi == h,
            vw == (wi - 3) / 2,
            vh == (hi - 5) / 2,
            vertical_wall == vw * vh,
            0 <= i <= vertical_wall,
            walls@.len() == i,
            forall|k: int| 0 <= k < walls@.len() ==> is_candidate(#[trigger] walls@[k], wi, hi),
        decreases vertical_wall - i,
    {
        proof {
            lemma_div_mod_bound(i as int, vw as int, vh);
        }
        let x = (i % vw) * 2 + 2;
        let y = (i / vw) * 2 + 3;
        walls.push(Wall::Vertical(x, y));
        i = i + 1;
    }
    i = 0;
    while i < horizontal_wall
        invariant
            valid_size(w, h),
            wi == w && hi == h,
            hw == (wi - 5) / 2,
            hh == (hi - 3) / 2,
            horizontal_wall == hw * hh,
            0 <= i <= horizontal_wall,
            forall|k: int| 0 <= k < walls@.len() ==> is_candidate(#[trigger] walls@[k], wi, hi),
        decreases horizontal_wall - i,
    {
        proof {
            assert(hw > 0) by (nonlinear_arith)
                requires
                    i < horizontal_wall,
                    horizontal_wall == hw * hh,
                    hw >= 0,
            ;
            lemma_div_mod_bound(i as int, hw as int, hh);
        }
        let x = (i % hw) * 2 + 3;
        let y = (i / hw) * 2 + 2;
        walls.push(Wall::Horizontal(x, y));
        i = i + 1;
    }
    proof {
        assert(cells_ok(grid@, wi, hi));
    }
    let len = walls.len();
    proof {
        assert(len * (100 - percent) <= len * 100) by (nonlinear_arith)
            requires
                percent <= 100,
        ;
        assert(len * 100 <= 0xffff_ffff_ffff_ffff * 100) by (nonlinear_arith)
            requires
                len <= 0xffff_ffff_ffff_ffff,
        ;
    }
    let stop = ((len as u128 * (100 - percent) as u128) / 100) as usize;
    let ghost mut raised: Seq<Wall> = Seq::empty();
    while walls.len() > stop
        invariant
            valid_size(w, h),
            wi == w && hi == h,
            cells_ok(grid@, wi, hi),
            forall|k: int| 0 <= k < raised.len() ==> is_candidate(#[trigger] raised[k], wi, hi),
            forall|x: int, y: int|
                0 <= x < wi && 0 <= y < hi && (#[trigger] grid@[y * wi + x]).0 && !on_border(wi, hi, x, y)
                    ==> covered(raised, x, y),
            forall|k: int| 0 <= k < walls@.len() ==> is_candidate(#[trigger] walls@[k], wi, hi),
        decreases walls@.len(),
    {
        let k = random_below(walls.len());
        let ghost before = walls@;
        let wl = walls.swap_remove(k);
        proof {
            assert(is_candidate(before[k as int], wi, hi));
            assert forall|m: int| 0 <= m < walls@.len() implies is_candidate(#[trigger] walls@[m], wi, hi) by {
                if m == k {
                    assert(walls@[m] == before.last());
                    assert(is_candidate(before[before.len() - 1], wi, hi));
                } else {
                    assert(walls@[m] == before[m]);
                }
            }
        }
        proof {
            assert(is_candidate(wl, wi, hi));
        }
        let ghost g0 = grid@;
        raise_wall(&mut grid, w, h, wl);
        proof {
            let c = wall_cells(wl);
            lemma_index_bound(wi, hi, c.0, c.1);
            lemma_index_bound(wi, hi, c.2, c.3);
            lemma_index_bound(wi, hi, c.4, c.5);
            let nr = raised.push(wl);
            assert(nr[raised.len() as int] == wl);
            assert forall|x: int, y: int|
                0 <= x < wi && 0 <= y < hi && x % 2 == 1 && y % 2 == 1 implies !(#[trigger] grid@[y * wi + x]).0 by {
                lemma_index_bound(wi, hi, x, y);
                if y * wi + x == c.1 * wi + c.0 {
                    lemma_index_unique(wi, x, y, c.0, c.1);
                }
                if y * wi + x == c.3 * wi + c.2 {
                    lemma_index_unique(wi, x, y, c.2, c.3);
                }
                if y * wi + x == c.5 * wi + c.4 {
                    lemma_index_unique(wi, x, y, c.4, c.5);
                }
            }
            assert forall|x: int, y: int|
                0 <= x < wi && 0 <= y < hi && on_border(wi, hi, x, y) implies (#[trigger] grid@[y * wi + x]).0 by {
                lemma_index_bound(wi, hi, x, y);
            }
            assert forall|x: int, y: int|
                0 <= x < wi && 0 <= y < hi && (#[trigger] grid@[y * wi + x]).0 && !on_border(wi, hi, x, y)
                    implies covered(nr, x, y) by {
                lemma_index_bound(wi, hi, x, y);
                if g0[y * wi + x].0 {
                    let k = choose|k: int| 0 <= k < raised.len() && covers(#[trigger] raised[k], x, y);
                    assert(nr[k] == raised[k]);
                } else {
                    if y * wi + x == c.1 * wi + c.0 {
                        lemma_index_unique(wi, x, y, c.0, c.1);
                    } else if y * wi + x == c.3 * wi + c.2 {
                        lemma_index_unique(wi, x, y, c.2, c.3);
                    } else {
                        lemma_index_unique(wi, x, y, c.4, c.5);
                    }
                    assert(covers(nr[raised.len() as int], x, y));
                }
            }
            assert forall|k: int| 0 <= k < nr.len() implies is_candidate(#[trigger] nr[k], wi, hi) by {
                if k < raised.len() {
                    assert(nr[k] == raised[k]);
                }
            }
            raised = nr;
        }
    }
    let mut out: Vec<bool> = Vec::new();
    let m = grid.len();
    let mut j: usize = 0;
    while j < m
        invariant
            m == grid@.len(),
            0 <= j <= m,
            out@.len() == j,
            forall|q: int| 0 <= q < j ==> out@[q] == (#[trigger] grid@[q]).0,
        decreases m - j,
    {
        out.push(grid[j].0);
        j = j + 1;
    }
    proof {
        assert forall|x: int, y: int|
            0 <= x < wi && 0 <= y < hi && on_border(wi, hi, x, y) implies #[trigger] out@[y * wi + x] by {
            lemma_index_bound(wi, hi, x, y);
            assert(grid@[y * wi + x].0);
        }
        assert forall|x: int, y: int|
            0 <= x < wi && 0 <= y < hi && x % 2 == 1 && y % 2 == 1 implies !#[trigger] out@[y * wi + x] by {
            lemma_index_bound(wi, hi, x, y);
            assert(!grid@[y * wi + x].0);
        }
        assert forall|x: int, y: int|
            0 <= x < wi && 0 <= y < hi && #[trigger] out@[y * wi + x] && !on_border(wi, hi, x, y)
                implies covered(raised, x, y) by {
            lemma_index_bound(wi, hi, x, y);
            assert(grid@[y * wi + x].0);
        }
        assert(explained(out@, wi, hi, raised));
    }
    out
}

} // verus!
