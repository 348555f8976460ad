use std::collections::HashMap;
use std::collections::HashSet;
use vstd::prelude::*;

verus! {

broadcast use vstd::std_specs::hash::group_hash_axioms;

/// Something stored in a spatial hash, known by an identifier that stays the
/// same for as long as it is stored.
pub trait Identifiable {
    spec fn spec_id(&self) -> usize;

    fn id(&self) -> (r: usize)
        ensures
            r == self.spec_id(),
    ;
}

/// Receives the occupants found by a query, one call per occupant.
pub trait Visitor<T> {
    /// Everything handed to this visitor so far, in order.
    spec fn visits(&self) -> Seq<T>;

    fn visit(&mut self, t: &T)
        ensures
            final(self).visits() == old(self).visits().push(*t),
    ;
}

/// A visitor that keeps a copy of everything it is handed.
pub struct Collector<T> {
    pub items: Vec<T>,
}

impl<T: Copy> Visitor<T> for Collector<T> {
    open spec fn visits(&self) -> Seq<T> {
        self.items@
    }

    fn visit(&mut self, t: &T) {
        self.items.push(*t);
    }
}

/// An axis-aligned bounding box.
#[derive(Clone, Copy, Debug, PartialEq, Eq)]
pub struct Location {
    pub up: i64,
    pub down: i64,
    pub left: i64,
    pub right: i64,
}

/// Integer coordinates of one square cell of the grid.
pub type CellIndex = (i64, i64);

/// Largest integer not greater than `a / b`, for `b > 0`.
pub open spec fn floor_div(a: int, b: int) -> int {
    a / b
}

/// Smallest integer not less than `a / b`, for `b > 0`.
pub open spec fn ceil_div(a: int, b: int) -> int {
    -((-a) / b)
}

/// The cells that a bounding box overlaps on a grid of side `unit`: columns from
/// `floor(left / unit)` up to, not including, `ceil(right / unit)`, and rows from
/// `floor(down / unit)` up to, not including, `ceil(up / unit)`.
pub open spec fn in_region(loc: Location, unit: int, c: CellIndex) -> bool {
    &&& floor_div(loc.left as int, unit) <= c.0 < ceil_div(loc.right as int, unit)
    &&& floor_div(loc.down as int, unit) <= c.1 < ceil_div(loc.up as int, unit)
}

/// Number of integers in `[lo, hi)`.
pub open spec fn span(lo: int, hi: int) -> nat {
    if lo < hi {
        (hi - lo) as nat
    } else {
        0
    }
}

/// The `k`-th cell of `loc`'s region in the order `index` lists them: columns
/// from left to right, and within a column rows from bottom to top.
pub open spec fn cell_at(loc: Location, unit: int, k: int) -> CellIndex {
    let x0 = floor_div(loc.left as int, unit);
    let y0 = floor_div(loc.down as int, unit);
    let ny = span(y0, ceil_div(loc.up as int, unit)) as int;
    ((x0 + k / ny) as i64, (y0 + k % ny) as i64)
}

/// Number of cells that a bounding box overlaps.
pub open spec fn region_size(loc: Location, unit: int) -> nat {
    span(floor_div(loc.left as int, unit), ceil_div(loc.right as int, unit)) * span(
        floor_div(loc.down as int, unit),
        ceil_div(loc.up as int, unit),
    )
}

/// The key under which the occupants of a cell are stored.
pub open spec fn key_of(c: CellIndex) -> i128 {
    (c.0 as int * 0x1_0000_0000_0000_0000 + (c.1 as int + 0x8000_0000_0000_0000)) as i128
}

proof fn lemma_key_range(c: CellIndex)
    ensures
        i128::MIN <= c.0 as int * 0x1_0000_0000_0000_0000 + (c.1 as int + 0x8000_0000_0000_0000) <= i128::MAX,
{
    let k = c.0 as int * 0x1_0000_0000_0000_0000 + (c.1 as int + 0x8000_0000_0000_0000);
    assert(-0x8000_0000_0000_0000 * 0x1_0000_0000_0000_0000 <= k
        <= 0x7fff_ffff_ffff_ffff * 0x1_0000_0000_0000_0000 + 0xffff_ffff_ffff_ffff)
        by (nonlinear_arith)
        requires
            -0x8000_0000_0000_0000 <= c.0 <= 0x7fff_ffff_ffff_ffff,
            -0x8000_0000_0000_0000 <= c.1 <= 0x7fff_ffff_ffff_ffff,
            k == c.0 as int * 0x1_0000_0000_0000_0000 + (c.1 as int + 0x8000_0000_0000_0000),
    ;
}

proof fn lemma_key_of_injective(a: CellIndex, b: CellIndex)
    requires
        key_of(a) == key_of(b),
    ensures
        a == b,
{
    lemma_key_range(a);
    lemma_key_range(b);
    let ka = a.0 as int * 0x1_0000_0000_0000_0000 + (a.1 as int + 0x8000_0000_0000_0000);
    let kb = b.0 as int * 0x1_0000_0000_0000_0000 + (b.1 as int + 0x8000_0000_0000_0000);
    assert(ka == kb);
    assert(a.0 == b.0) by (nonlinear_arith)
        requires
            ka == kb,
            ka == a.0 as int * 0x1_0000_0000_0000_0000 + (a.1 as int + 0x8000_0000_0000_0000),
            kb == b.0 as int * 0x1_0000_0000_0000_0000 + (b.1 as int + 0x8000_0000_0000_0000),
            -0x8000_0000_0000_0000 <= a.1 <= 0x7fff_ffff_ffff_ffff,
            -0x8000_0000_0000_0000 <= b.1 <= 0x7fff_ffff_ffff_ffff,
    ;
}

fn cell_key(c: CellIndex) -> (r: i128)
    ensures
        r == key_of(c),
{
    proof {
        lemma_key_range(c);
        assert(-0x8000_0000_0000_0000 * 0x1_0000_0000_0000_0000 <= c.0 as int * 0x1_0000_0000_0000_0000
            <= 0x7fff_ffff_ffff_ffff * 0x1_0000_0000_0000_0000) by (nonlinear_arith)
            requires
                -0x8000_0000_0000_0000 <= c.0 <= 0x7fff_ffff_ffff_ffff,
        ;
    }
    c.0 as i128 * 0x1_0000_0000_0000_0000i128 + (c.1 as i128 + 0x8000_0000_0000_0000i128)
}

pub(crate) proof fn lemma_div_bounds(a: int, b: int)
    requires
        b > 0,
    ensures
        a >= 0 ==> 0 <= a / b <= a,
        a < 0 ==> a <= a / b < 0,
{
    vstd::arithmetic::div_mod::lemma_fundamental_div_mod(a, b);
    let q = a / b;
    let r = a % b;
    assert(a >= 0 ==> 0 <= q <= a) by (nonlinear_arith)
        requires
            a == b * q + r,
            0 <= r < b,
    ;
    assert(a < 0 ==> a <= q < 0) by (nonlinear_arith)
        requires
            a == b * q + r,
            0 <= r < b,
    ;
}

fn floor_div_exec(a: i64, b: i64) -> (r: i64)
    requires
        b > 0,
    ensures
        r == floor_div(a as int, b as int),
{
    proof {
        lemma_div_bounds(a as int, b as int);
    }
    let q = (a as i128).checked_div_euclid(b as i128);
    match q {
        Some(q) => q as i64,
        None => 0,
    }
}

fn ceil_div_exec(a: i64, b: i64) -> (r: i64)
    requires
        b > 0,
    ensures
        r == ceil_div(a as int, b as int),
{
    proof {
        lemma_div_bounds(-a, b as int);
    }
    let q = (-(a as i128)).checked_div_euclid(b as i128);
    match q {
        Some(q) => (-q) as i64,
        None => 0,
    }
}

/// A uniform grid of square cells of side `unit`, each holding copies of the
/// occupants whose bounding box overlaps it.
pub struct SpatialHashing<T> {
    unit: i64,
    hashmap: HashMap<i128, Vec<T>>,
}

impl<T: Copy + Identifiable> SpatialHashing<T> {
    /// Side of a cell.
    pub closed spec fn spec_unit(&self) -> int {
        self.unit as int
    }

    /// The occupants stored in cell `c`, empty for a cell that holds none.
    pub closed spec fn bucket(&self, c: CellIndex) -> Seq<T> {
        if self.hashmap@.contains_key(key_of(c)) {
            self.hashmap@[key_of(c)]@
        } else {
            Seq::empty()
        }
    }

    /// The cell side is positive and no cell is stored without an occupant.
    pub closed spec fn wf(&self) -> bool {
        &&& self.unit > 0
        &&& forall|k: i128| #[trigger] self.hashmap@.contains_key(k) ==> self.hashmap@[k]@.len() > 0
    }

    /// `t` is stored in some cell that `loc` overlaps.
    pub open spec fn stored_in_region(&self, loc: Location, t: T) -> bool {
        exists|c: CellIndex| in_region(loc, self.spec_unit(), c) && #[trigger] self.bucket(c).contains(t)
    }

    /// `r` lists what a query of `loc` finds: each occupant of an overlapped cell
    /// appears once by identifier, and nothing else appears.
    pub open spec fn is_query_result(&self, loc: Location, r: Seq<T>) -> bool {
        &&& forall|i: int| 0 <= i < r.len() ==> #[trigger] self.stored_in_region(loc, r[i])
        &&& forall|c: CellIndex, t: T|
            in_region(loc, self.spec_unit(), c) && #[trigger] self.bucket(c).contains(t) ==> exists|
                i: int,
            |
                0 <= i < r.len() && #[trigger] r[i].spec_id() == t.spec_id()
        &&& forall|i: int, j: int|
            0 <= i < r.len() && 0 <= j < r.len() && i != j ==> #[trigger] r[i].spec_id()
                != #[trigger] r[j].spec_id()
    }

    pub fn new(unit: i64) -> (r: SpatialHashing<T>)
        requires
            unit > 0,
        ensures
            r.wf(),
            r.spec_unit() == unit,
            forall|c: CellIndex| #[trigger] r.bucket(c) == Seq::<T>::empty(),
    {
        SpatialHashing { unit: unit, hashmap: HashMap::new() }
    }

    /// Every cell that `loc` overlaps, each once.
    pub fn index(&self, loc: &Location) -> (r: Vec<CellIndex>)
        requires
            self.wf(),
        ensures
            forall|c: CellIndex| r@.contains(c) <==> in_region(*loc, self.spec_unit(), c),
            r@.no_duplicates(),
            r@.len() == region_size(*loc, self.spec_unit()),
            forall|k: int| 0 <= k < r@.len() ==> #[trigger] r@[k] == cell_at(*loc, self.spec_unit(), k),
    {
        let min_x = floor_div_exec(loc.left, self.unit);
        let max_x = ceil_div_exec(loc.right, self.unit);
        let min_y = floor_div_exec(loc.down, self.unit);
        let max_y = ceil_div_exec(loc.up, self.unit);
        let ghost ny = span(min_y as int, max_y as int);

        let mut vec: Vec<CellIndex> = Vec::new();
        let mut x: i64 = min_x;
        while x < max_x
            invariant
                min_x <= x,
                x <= max_x || x == min_x,
                min_x == floor_div(loc.left as int, self.unit as int),
                max_x == ceil_div(loc.right as int, self.unit as int),
                min_y == floor_div(loc.down as int, self.unit as int),
                max_y == ceil_div(loc.up as int, self.unit as int),
                ny == span(min_y as int, max_y as int),
                vec@.len() == span(min_x as int, x as int) * ny,
                vec@.no_duplicates(),
                forall|c: CellIndex|
                    vec@.contains(c) <==> (min_x <= c.0 < x && min_y <= c.1 < max_y),
                forall|k: int| 0 <= k < vec@.len() ==> #[trigger] vec@[k] == cell_at(*loc, self.unit as int, k),
                self.unit > 0,
            decreases max_x - x,
        {
            let mut y: i64 = min_y;
            let ghost before = vec@;
            while y < max_y
                invariant
                    min_x <= x < max_x,
                    min_y <= y,
                    y <= max_y || y == min_y,
                    before.no_duplicates(),
                    forall|c: CellIndex| before.contains(c) <==> (min_x <= c.0 < x && min_y <= c.1 < max_y),
                    vec@.len() == before.len() + span(min_y as int, y as int),
                    vec@.no_duplicates(),
                    forall|c: CellIndex|
                        #[trigger] vec@.contains(c) <==> (before.contains(c) || (c.0 == x && min_y <= c.1 < y)),
                    before.len() == span(min_x as int, x as int) * ny,
                    ny == span(min_y as int, max_y as int),
                    min_x == floor_div(loc.left as int, self.unit as int),
                    min_y == floor_div(loc.down as int, self.unit as int),
                    max_y == ceil_div(loc.up as int, self.unit as int),
                    self.unit > 0,
                    forall|k: int| 0 <= k < vec@.len() ==> #[trigger] vec@[k] == cell_at(*loc, self.unit as int, k),
                decreases max_y - y,
            {
                let ghost prev = vec@;
                proof {
                    assert(!before.contains((x, y)));
                    assert(!prev.contains((x, y)));
                }
                vec.push((x, y));
                proof {
                    lemma_push_cell_order(prev, *loc, self.unit as int, x, y, ny as int);
                    lemma_push_unique(prev, (x, y));
                    assert forall|c: CellIndex|
                        vec@.contains(c) <==> (before.contains(c) || (c.0 == x && min_y <= c.1 < y + 1)) by {
                        lemma_push_contains(prev, (x, y), c);
                    }
                }
                y = y + 1;
            }
            proof {
                let sx = span(min_x as int, x as int);
                assert(span(min_x as int, x as int + 1) == sx + 1);
                assert(min_y <= max_y ==> y == max_y);
                assert(min_y > max_y ==> y == min_y);
                assert forall|c: CellIndex|
                    vec@.contains(c) <==> (min_x <= c.0 < x + 1 && min_y <= c.1 < max_y) by {
                    assert(vec@.contains(c) <==> (before.contains(c) || (c.0 == x && min_y <= c.1 < y)));
                    assert(before.contains(c) <==> (min_x <= c.0 < x && min_y <= c.1 < max_y));
                }
                assert(span(min_y as int, y as int) == ny);
                assert(sx * ny + ny == (sx + 1) * ny) by (nonlinear_arith);
            }
            x = x + 1;
        }
        proof {
            if min_x <= max_x {
                assert(x == max_x);
            } else {
                assert(x == min_x);
            }
        }
        vec
    }

    /// Adds a copy of `obj` to the one cell `index`.
    pub fn insert_on_index(&mut self, index: &CellIndex, obj: &T)
        requires
            old(self).wf(),
        ensures
            final(self).wf(),
            final(self).spec_unit() == old(self).spec_unit(),
            forall|c: CellIndex|
                #[trigger] final(self).bucket(c) == if c == *index {
                    old(self).bucket(c).push(*obj)
                } else {
                    old(self).bucket(c)
                },
    {
        let key = cell_key(*index);
        let ghost before = self.hashmap@;
        match self.hashmap.remove(&key) {
            Some(mut vec) => {
                vec.push(*obj);
                self.hashmap.insert(key, vec);
            },
            None => {
                let mut vec: Vec<T> = Vec::new();
                vec.push(*obj);
                self.hashmap.insert(key, vec);
            },
        }
        proof {
            assert forall|c: CellIndex|
                #[trigger] self.bucket(c) == if c == *index {
                    old(self).bucket(c).push(*obj)
                } else {
                    old(self).bucket(c)
                } by {
                if key_of(c) == key {
                    lemma_key_of_injective(c, *index);
                }
            }
        }
    }

    /// Adds a copy of `obj` to every cell that `loc` overlaps.
    pub fn insert_locally(&mut self, loc: &Location, obj: &T)
        requires
            old(self).wf(),
        ensures
            final(self).wf(),
            final(self).spec_unit() == old(self).spec_unit(),
            forall|c: CellIndex|
                #[trigger] final(self).bucket(c) == if in_region(*loc, old(self).spec_unit(), c) {
                    old(self).bucket(c).push(*obj)
                } else {
                    old(self).bucket(c)
                },
    {
        let index = self.index(loc);
        let n = index.len();
        let mut i: usize = 0;
        while i < n
            invariant
                n == index@.len(),
                0 <= i <= n,
                index@.no_duplicates(),
                self.wf(),
                self.spec_unit() == old(self).spec_unit(),
                forall|c: CellIndex|
                    #[trigger] self.bucket(c) == if seen(index@, i as int, c) {
                        old(self).bucket(c).push(*obj)
                    } else {
                        old(self).bucket(c)
                    },
            decreases n - i,
        {
            let ghost mid = *self;
            self.insert_on_index(&index[i], obj);
            proof {
                assert forall|c: CellIndex|
                    #[trigger] self.bucket(c) == if seen(index@, i + 1, c) {
                        old(self).bucket(c).push(*obj)
                    } else {
                        old(self).bucket(c)
                    } by {
                    if c == index@[i as int] {
                        assert(seen(index@, i + 1, c));
                        if seen(index@, i as int, c) {
                            let k = choose|k: int| 0 <= k < i && index@[k] == c;
                            assert(index@[k] == index@[i as int]);
                        }
                        assert(mid.bucket(c) == old(self).bucket(c));
                    } else {
                        assert(seen(index@, i + 1, c) == seen(index@, i as int, c)) by {
                            if seen(index@, i + 1, c) {
                                let k = choose|k: int| 0 <= k < i + 1 && index@[k] == c;
                                assert(k < i);
                            }
                        }
                        assert(self.bucket(c) == mid.bucket(c));
                    }
                }
            }
            i = i + 1;
        }
        proof {
            assert forall|c: CellIndex| seen(index@, n as int, c) == in_region(*loc, old(self).spec_unit(), c) by {
                if seen(index@, n as int, c) {
                    let k = choose|k: int| 0 <= k < n && index@[k] == c;
                    assert(index@.contains(c));
                }
                if index@.contains(c) {
                    let k = choose|k: int| 0 <= k < index@.len() && index@[k] == c;
                    assert(seen(index@, n as int, c));
                }
            }
        }
    }

    /// Hands each occupant of cell `index` to `callback`, in stored order.
    pub fn apply_on_index<F: Visitor<T>>(&self, index: &CellIndex, callback: &mut F)
        requires
            self.wf(),
        ensures
            final(callback).visits() == old(callback).visits() + self.bucket(*index),
    {
        let key = cell_key(*index);
        match self.hashmap.get(&key) {
            Some(vec) => {
                let n = vec.len();
                let mut j: usize = 0;
                while j < n
                    invariant
                        n == vec@.len(),
                        0 <= j <= n,
                        vec@ == self.bucket(*index),
                        callback.visits() == old(callback).visits() + vec@.subrange(0, j as int),
                    decreases n - j,
                {
                    callback.visit(&vec[j]);
                    proof {
                        assert(vec@.subrange(0, j + 1) == vec@.subrange(0, j as int).push(vec@[j as int]));
                    }
                    j = j + 1;
                }
                proof {
                    assert(vec@.subrange(0, n as int) == vec@);
                }
            },
            None => {
                assert(old(callback).visits() + self.bucket(*index) == old(callback).visits());
            },
        }
    }

    /// The occupants of cell `index`.
    pub fn get_on_index(&self, index: &CellIndex) -> (r: Vec<T>)
        requires
            self.wf(),
        ensures
            r@ == self.bucket(*index),
    {
        let mut collector = Collector { items: Vec::new() };
        self.apply_on_index(index, &mut collector);
        assert(collector.items@ == Seq::<T>::empty() + self.bucket(*index));
        collector.items
    }

    /// Hands to `callback` each occupant of the cells that `loc` overlaps, once
    /// per identifier, however many of those cells hold it.
    pub fn apply_locally<F: Visitor<T>>(&self, loc: &Location, callback: &mut F)
        requires
            self.wf(),
        ensures
            final(callback).visits().len() >= old(callback).visits().len(),
            final(callback).visits().subrange(0, old(callback).visits().len() as int)
                == old(callback).visits(),
            self.is_query_result(
                *loc,
                final(callback).visits().subrange(
                    old(callback).visits().len() as int,
                    final(callback).visits().len() as int,
                ),
            ),
    {
        let index = self.index(loc);
        let mut visited: HashSet<usize> = HashSet::new();
        let ghost start = callback.visits();
        let ghost unit = self.spec_unit();
        let n = index.len();
        let mut i: usize = 0;
        while i < n
            invariant
                self.wf(),
                unit == self.spec_unit(),
                n == index@.len(),
                0 <= i <= n,
                forall|c: CellIndex| index@.contains(c) <==> in_region(*loc, unit, c),
                callback.visits().len() >= start.len(),
                callback.visits().subrange(0, start.len() as int) == start,
                forall|k: usize|
                    #[trigger] visited@.contains(k) <==> exists|j: int|
                        start.len() <= j < callback.visits().len() && #[trigger] callback.visits()[j].spec_id() == k,
                forall|j1: int, j2: int|
                    start.len() <= j1 < callback.visits().len() && start.len() <= j2 < callback.visits().len()
                        && j1 != j2 ==> #[trigger] callback.visits()[j1].spec_id()
                        != #[trigger] callback.visits()[j2].spec_id(),
                forall|j: int|
                    start.len() <= j < callback.visits().len() ==> #[trigger] self.stored_in_region(
                        *loc,
                        callback.visits()[j],
                    ),
                forall|k: int, t: T|
                    0 <= k < i && #[trigger] self.bucket(index@[k]).contains(t) ==> visited@.contains(
                        t.spec_id(),
                    ),
            decreases n - i,
        {
            let cell = index[i];
            assert(index@.contains(cell));
            let key = cell_key(cell);
            match self.hashmap.get(&key) {
                Some(vec) => {
                    let m = vec.len();
                    let mut j: usize = 0;
                    while j < m
                        invariant
                            self.wf(),
                            unit == self.spec_unit(),
                            m == vec@.len(),
                            0 <= j <= m,
                            0 <= i < n,
                            n == index@.len(),
                            cell == index@[i as int],
                            in_region(*loc, unit, cell),
                            vec@ == self.bucket(cell),
                            callback.visits().len() >= start.len(),
                            callback.visits().subrange(0, start.len() as int) == start,
                            forall|k: usize|
                                #[trigger] visited@.contains(k) <==> exists|jj: int|
                                    start.len() <= jj < callback.visits().len()
                                        && #[trigger] callback.visits()[jj].spec_id() == k,
                            forall|j1: int, j2: int|
                                start.len() <= j1 < callback.visits().len() && start.len() <= j2
                                    < callback.visits().len() && j1 != j2
                                    ==> #[trigger] callback.visits()[j1].spec_id()
                                    != #[trigger] callback.visits()[j2].spec_id(),
                            forall|jj: int|
                                start.len() <= jj < callback.visits().len()
                                    ==> #[trigger] self.stored_in_region(*loc, callback.visits()[jj]),
                            forall|k: int, t: T|
                                0 <= k < i && #[trigger] self.bucket(index@[k]).contains(t)
                                    ==> visited@.contains(t.spec_id()),
                            forall|jj: int| 0 <= jj < j ==> visited@.contains(#[trigger] vec@[jj].spec_id()),
                        decreases m - j,
                    {
                        let t = &vec[j];
                        let id = t.id();
                        if !visited.contains(&id) {
                            let ghost before = callback.visits();
                            callback.visit(t);
                            visited.insert(id);
                            proof {
                                let after = callback.visits();
                                assert(after.subrange(0, start.len() as int) =~= before.subrange(
                                    0,
                                    start.len() as int,
                                ));
                                assert(self.bucket(cell).contains(*t)) by {
                                    assert(vec@[j as int] == *t);
                                }
                                assert(self.stored_in_region(*loc, *t));
                                assert forall|jj: int|
                                    start.len() <= jj < after.len() implies #[trigger] self.stored_in_region(
                                        *loc,
                                        after[jj],
                                    ) by {
                                    if jj < before.len() {
                                        assert(after[jj] == before[jj]);
                                    }
                                }
                                assert forall|k: usize|
                                    #[trigger] visited@.contains(k) <==> exists|jj: int|
                                        start.len() <= jj < after.len() && #[trigger] after[jj].spec_id() == k by {
                                    if visited@.contains(k) && k != id {
                                        let jj = choose|jj: int|
                                            start.len() <= jj < before.len() && #[trigger] before[jj].spec_id() == k;
                                        assert(after[jj] == before[jj]);
                                    }
                                    if k == id {
                                        assert(after[before.len() as int] == *t);
                                    }
                                    if exists|jj: int| start.len() <= jj < after.len() && #[trigger] after[jj].spec_id() == k {
                                        let jj = choose|jj: int|
                                            start.len() <= jj < after.len() && #[trigger] after[jj].spec_id() == k;
                                        if jj < before.len() {
                                            assert(after[jj] == before[jj]);
                                        }
                                    }
                                }
                                assert forall|j1: int, j2: int|
                                    start.len() <= j1 < after.len() && start.len() <= j2 < after.len() && j1 != j2
                                        implies #[trigger] after[j1].spec_id() != #[trigger] after[j2].spec_id() by {
                                    if j1 < before.len() && j2 < before.len() {
                                        assert(after[j1] == before[j1] && after[j2] == before[j2]);
                                    } else if j1 < before.len() {
                                        assert(after[j1] == before[j1]);
                                    } else if j2 < before.len() {
                                        assert(after[j2] == before[j2]);
                                    }
                                }
                            }
                        }
                        j = j + 1;
                    }
                },
                None => {},
            }
            proof {
                assert forall|k: int, t: T|
                    0 <= k < i + 1 && #[trigger] self.bucket(index@[k]).contains(t) implies visited@.contains(
                        t.spec_id(),
                    ) by {
                    if k == i {
                        let jj = choose|jj: int| 0 <= jj < self.bucket(cell).len() && self.bucket(cell)[jj] == t;
                    }
                }
            }
            i = i + 1;
        }
        proof {
            let fin = callback.visits();
            let r = fin.subrange(start.len() as int, fin.len() as int);
            assert forall|i: int| 0 <= i < r.len() implies #[trigger] self.stored_in_region(*loc, r[i]) by {
                assert(r[i] == fin[start.len() + i]);
            }
            assert forall|c: CellIndex, t: T|
                in_region(*loc, self.spec_unit(), c) && #[trigger] self.bucket(c).contains(t) implies exists|
                    i: int,
                |
                    0 <= i < r.len() && #[trigger] r[i].spec_id() == t.spec_id() by {
                assert(index@.contains(c));
                let k = choose|k: int| 0 <= k < index@.len() && index@[k] == c;
                assert(self.bucket(index@[k]).contains(t));
                assert(visited@.contains(t.spec_id()));
                let jj = choose|jj: int| start.len() <= jj < fin.len() && #[trigger] fin[jj].spec_id() == t.spec_id();
                assert(r[jj - start.len()] == fin[jj]);
            }
            assert forall|i: int, j: int|
                0 <= i < r.len() && 0 <= j < r.len() && i != j implies #[trigger] r[i].spec_id()
                    != #[trigger] r[j].spec_id() by {
                assert(r[i] == fin[start.len() + i]);
                assert(r[j] == fin[start.len() + j]);
            }
        }
    }

    /// Each occupant of the cells that `loc` overlaps, once per identifier.
    pub fn get_locally(&self, loc: &Location) -> (r: Vec<T>)
        requires
            self.wf(),
        ensures
            self.is_query_result(*loc, r@),
    {
        let mut collector = Collector { items: Vec::new() };
        self.apply_locally(loc, &mut collector);
        assert(collector.items@.subrange(0, collector.items@.len() as int) == collector.items@);
        collector.items
    }

    /// Removes every occupant.
    pub fn clear(&mut self)
        requires
            old(self).wf(),
        ensures
            final(self).wf(),
            final(self).spec_unit() == old(self).spec_unit(),
            forall|c: CellIndex| #[trigger] final(self).bucket(c) == Seq::<T>::empty(),
    {
        self.hashmap.clear();
    }

    pub fn unit(&self) -> (r: i64)
        ensures
            r == self.spec_unit(),
    {
        self.unit
    }
}

proof fn lemma_floor_ceil_multiple(k: int, unit: int)
    requires
        unit > 0,
    ensures
        floor_div(k * unit, unit) == k,
        ceil_div(k * unit, unit) == k,
{
    vstd::arithmetic::div_mod::lemma_div_multiples_vanish(k, unit);
    vstd::arithmetic::div_mod::lemma_div_multiples_vanish(-k, unit);
    assert(unit * k == k * unit) by (nonlinear_arith);
    assert(unit * (-k) == -(k * unit)) by (nonlinear_arith);
}

/// A box whose edges lie on grid lines and whose sides are one cell long
/// overlaps exactly one cell.
pub proof fn lemma_aligned_cell_is_one_cell(loc: Location, unit: int, k: int, m: int)
    requires
        unit > 0,
        loc.left == k * unit,
        loc.right == (k + 1) * unit,
        loc.down == m * unit,
        loc.up == (m + 1) * unit,
    ensures
        region_size(loc, unit) == 1,
{
    lemma_floor_ceil_multiple(k, unit);
    lemma_floor_ceil_multiple(k + 1, unit);
    lemma_floor_ceil_multiple(m, unit);
    lemma_floor_ceil_multiple(m + 1, unit);
    assert(span(floor_div(loc.left as int, unit), ceil_div(loc.right as int, unit)) == 1);
    assert(span(floor_div(loc.down as int, unit), ceil_div(loc.up as int, unit)) == 1);
}

/// A box two cells wide and two cells high, centred on a grid intersection,
/// overlaps exactly four cells.
pub proof fn lemma_centred_double_cell_is_four_cells(loc: Location, unit: int, k: int, m: int)
    requires
        unit > 0,
        loc.left == (k - 1) * unit,
        loc.right == (k + 1) * unit,
        loc.down == (m - 1) * unit,
        loc.up == (m + 1) * unit,
    ensures
        region_size(loc, unit) == 4,
{
    lemma_floor_ceil_multiple(k - 1, unit);
    lemma_floor_ceil_multiple(k + 1, unit);
    lemma_floor_ceil_multiple(m - 1, unit);
    lemma_floor_ceil_multiple(m + 1, unit);
    assert(span(floor_div(loc.left as int, unit), ceil_div(loc.right as int, unit)) == 2);
    assert(span(floor_div(loc.down as int, unit), ceil_div(loc.up as int, unit)) == 2);
}

/// Once an occupant has been added to the cells of `loc`, a query of a box that
/// overlaps one of those cells finds it exactly once, whatever number of cells
/// it was stored in.
pub proof fn lemma_inserted_found_once<T: Copy + Identifiable>(
    before: SpatialHashing<T>,
    after: SpatialHashing<T>,
    loc: Location,
    obj: T,
    query: Location,
    c: CellIndex,
    r: Seq<T>,
)
    requires
        after.spec_unit() == before.spec_unit(),
        forall|d: CellIndex|
            #[trigger] after.bucket(d) == if in_region(loc, before.spec_unit(), d) {
                before.bucket(d).push(obj)
            } else {
                before.bucket(d)
            },
        in_region(loc, before.spec_unit(), c),
        in_region(query, before.spec_unit(), c),
        after.is_query_result(query, r),
    ensures
        exists|i: int| 0 <= i < r.len() && #[trigger] r[i].spec_id() == obj.spec_id(),
        forall|i: int, j: int|
            0 <= i < r.len() && 0 <= j < r.len() && r[i].spec_id() == obj.spec_id()
                && r[j].spec_id() == obj.spec_id() ==> i == j,
{
    let b = before.bucket(c);
    assert(after.bucket(c) == b.push(obj));
    assert(after.bucket(c)[b.len() as int] == obj);
    assert(after.bucket(c).contains(obj));
}

/// `c` is among the first `n` items of `s`.
pub open spec fn seen(s: Seq<CellIndex>, n: int, c: CellIndex) -> bool {
    exists|k: int| 0 <= k < n && s[k] == c
}

proof fn lemma_push_cell_order(prev: Seq<CellIndex>, loc: Location, unit: int, x: i64, y: i64, ny: int)
    requires
        unit > 0,
        floor_div(loc.left as int, unit) <= x,
        floor_div(loc.down as int, unit) <= y < ceil_div(loc.up as int, unit),
        ny == span(floor_div(loc.down as int, unit), ceil_div(loc.up as int, unit)),
        prev.len() == (x - floor_div(loc.left as int, unit)) * ny + (y - floor_div(loc.down as int, unit)),
        forall|k: int| 0 <= k < prev.len() ==> #[trigger] prev[k] == cell_at(loc, unit, k),
    ensures
        forall|k: int| 0 <= k < prev.len() + 1 ==> #[trigger] prev.push((x, y))[k] == cell_at(loc, unit, k),
{
    let x0 = floor_div(loc.left as int, unit);
    let y0 = floor_div(loc.down as int, unit);
    let k = prev.len() as int;
    vstd::arithmetic::div_mod::lemma_fundamental_div_mod_converse(k, ny, x - x0, y - y0);
    assert forall|q: int| 0 <= q < prev.len() + 1 implies #[trigger] prev.push((x, y))[q] == cell_at(loc, unit, q) by {
        if q < k {
            assert(prev.push((x, y))[q] == prev[q]);
        }
    }
}

proof fn lemma_push_contains<A>(s: Seq<A>, e: A, c: A)
    ensures
        s.push(e).contains(c) <==> (s.contains(c) || c == e),
{
    if s.push(e).contains(c) {
        let k = choose|k: int| 0 <= k < s.push(e).len() && s.push(e)[k] == c;
        if k < s.len() {
            assert(s[k] == c);
        }
    }
    if s.contains(c) {
        let k = choose|k: int| 0 <= k < s.len() && s[k] == c;
        assert(s.push(e)[k] == c);
    }
    if c == e {
        assert(s.push(e)[s.len() as int] == e);
    }
}

proof fn lemma_push_unique<A>(s: Seq<A>, e: A)
    requires
        s.no_duplicates(),
        !s.contains(e),
    ensures
        s.push(e).no_duplicates(),
{
    let t = s.push(e);
    assert forall|i: int, j: int| 0 <= i < t.len() && 0 <= j < t.len() && i != j implies t[i] != t[j] by {
        if i == s.len() {
            assert(t[j] == s[j]);
        } else if j == s.len() {
            assert(t[i] == s[i]);
        } else {
            assert(t[i] == s[i] && t[j] == s[j]);
        }
    }
}

} // verus!
