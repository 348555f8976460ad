use crate::spatial_hashing::in_region;
use crate::spatial_hashing::CellIndex;
use crate::spatial_hashing::Identifiable;
use crate::spatial_hashing::Location;
use crate::spatial_hashing::SpatialHashing;
use vstd::prelude::*;

verus! {

/// Largest side, radius or width a shape may have.
pub const MAX_DIM: i64 = 1048576;

/// Largest distance from the origin, on either axis, of a shape's position.
pub const MAX_COORD: i64 = 1099511627776;

/// The weight that marks a body that nothing can move.
pub const WEIGHT_MAX: u64 = 18446744073709551615;

/// The outline of a body around its position.
#[derive(Clone, Copy, Debug, PartialEq, Eq, Structural)]
pub enum Shape {
    Circle(i64),
    Rectangle(i64, i64),
}

/// What a body does to its velocity once it has been pushed out of an overlap.
#[derive(Clone, Copy, Debug, PartialEq, Eq, Structural)]
pub enum CollisionBehavior {
    Persist,
    Bounce,
    Stop,
    Back,
}

/// How far a body has to move to leave an overlap.
#[derive(Clone, Copy, Debug, PartialEq, Eq, Structural)]
pub struct Collision {
    pub delta_x: i64,
    pub delta_y: i64,
}

/// A positional correction.
#[derive(Clone, Copy, Debug, PartialEq, Eq, Structural)]
pub struct Resolution {
    pub dx: i64,
    pub dy: i64,
}

pub open spec fn valid_shape(s: Shape) -> bool {
    match s {
        Shape::Circle(r) => 0 <= r <= MAX_DIM,
        Shape::Rectangle(w, h) => 0 <= w <= MAX_DIM && 0 <= h <= MAX_DIM,
    }
}

pub open spec fn valid_pos(p: (i64, i64)) -> bool {
    -MAX_COORD <= p.0 <= MAX_COORD && -MAX_COORD <= p.1 <= MAX_COORD
}

/// A square of side `side`.
pub fn square(side: i64) -> (r: Shape)
    ensures
        r == Shape::Rectangle(side, side),
{
    Shape::Rectangle(side, side)
}

/// Bounding box of `shape` placed at `pos`, as (left, right, down, up). A
/// circle is bounded by the square around it; a rectangle's odd length leaves
/// the extra unit above and to the right of its position.
pub open spec fn bbox(pos: (i64, i64), shape: Shape) -> (int, int, int, int) {
    match shape {
        Shape::Circle(r) => (pos.0 - r, pos.0 + r, pos.1 - r, pos.1 + r),
        Shape::Rectangle(w, h) => (
            pos.0 - w / 2,
            pos.0 - w / 2 + w,
            pos.1 - h / 2,
            pos.1 - h / 2 + h,
        ),
    }
}

pub open spec fn min(a: int, b: int) -> int {
    if a <= b {
        a
    } else {
        b
    }
}

pub open spec fn max(a: int, b: int) -> int {
    if a >= b {
        a
    } else {
        b
    }
}

/// Length of the overlap of `[l1, r1]` and `[l2, r2]`, negative when apart.
pub open spec fn overlap(l1: int, r1: int, l2: int, r2: int) -> int {
    min(r1, r2) - max(l1, l2)
}

/// The smallest move of the first box out of the second along one axis: the
/// axis with the smaller overlap, `x` on a tie; towards the side on which its
/// centre lies, towards negative coordinates when the centres coincide.
/// `None` when the boxes do not overlap on both axes.
pub open spec fn box_penetration(
    a_pos: (i64, i64),
    a_shape: Shape,
    b_pos: (i64, i64),
    b_shape: Shape,
) -> Option<(int, int)> {
    let a = bbox(a_pos, a_shape);
    let b = bbox(b_pos, b_shape);
    let ox = overlap(a.0, a.1, b.0, b.1);
    let oy = overlap(a.2, a.3, b.2, b.3);
    if ox > 0 && oy > 0 {
        if ox <= oy {
            Some(
                (
                    if a.0 + a.1 <= b.0 + b.1 {
                        -ox
                    } else {
                        ox
                    },
                    0,
                ),
            )
        } else {
            Some(
                (
                    0,
                    if a.2 + a.3 <= b.2 + b.3 {
                        -oy
                    } else {
                        oy
                    },
                ),
            )
        }
    } else {
        None
    }
}

/// Bounding box of `shape` placed at `pos`.
pub fn bounding_box(pos: (i64, i64), shape: Shape) -> (r: Location)
    requires
        valid_pos(pos),
        valid_shape(shape),
    ensures
        (r.left as int, r.right as int, r.down as int, r.up as int) == bbox(pos, shape),
{
    match shape {
        Shape::Circle(rad) => Location {
            left: pos.0 - rad,
            right: pos.0 + rad,
            down: pos.1 - rad,
            up: pos.1 + rad,
        },
        Shape::Rectangle(w, h) => {
            let left = pos.0 - w / 2;
            let down = pos.1 - h / 2;
            Location { left: left, right: left + w, down: down, up: down + h }
        },
    }
}

fn min_i64(a: i64, b: i64) -> (r: i64)
    ensures
        r == min(a as int, b as int),
{
    if a <= b {
        a
    } else {
        b
    }
}

fn max_i64(a: i64, b: i64) -> (r: i64)
    ensures
        r == max(a as int, b as int),
{
    if a >= b {
        a
    } else {
        b
    }
}

fn collide_boxes(a_pos: (i64, i64), a_shape: Shape, b_pos: (i64, i64), b_shape: Shape) -> (r: Option<
    Collision,
>)
    requires
        valid_pos(a_pos),
        valid_shape(a_shape),
        valid_pos(b_pos),
        valid_shape(b_shape),
    ensures
        match box_penetration(a_pos, a_shape, b_pos, b_shape) {
            Some(d) => r == Some(Collision { delta_x: d.0 as i64, delta_y: d.1 as i64 }) && d.0
                == r->0.delta_x && d.1 == r->0.delta_y,
            None => r.is_none(),
        },
{
    let a = bounding_box(a_pos, a_shape);
    let b = bounding_box(b_pos, b_shape);
    let ox = min_i64(a.right, b.right) - max_i64(a.left, b.left);
    let oy = min_i64(a.up, b.up) - max_i64(a.down, b.down);
    if ox > 0 && oy > 0 {
        if ox <= oy {
            let dx = if a.left + a.right <= b.left + b.right {
                -ox
            } else {
                ox
            };
            Some(Collision { delta_x: dx, delta_y: 0 })
        } else {
            let dy = if a.down + a.up <= b.down + b.up {
                -oy
            } else {
                oy
            };
            Some(Collision { delta_x: 0, delta_y: dy })
        }
    } else {
        None
    }
}

/// `v` held within `[lo, hi]`.
pub open spec fn clamp(v: int, lo: int, hi: int) -> int {
    if v < lo {
        lo
    } else if v > hi {
        hi
    } else {
        v
    }
}

/// A circle of radius `r` centred at `c` reaches strictly inside the box
/// (left, right, down, up): the box's nearest point is closer than `r`.
pub open spec fn circle_touches_box(c: (i64, i64), r: int, b: (int, int, int, int)) -> bool {
    let px = clamp(c.0 as int, b.0, b.1);
    let py = clamp(c.1 as int, b.2, b.3);
    (c.0 - px) * (c.0 - px) + (c.1 - py) * (c.1 - py) < r * r
}

/// The move of a circle of radius `r1` at `a` out of one of radius `r2` at
/// `b`, along the line of their centres, to where the centres are `r1 + r2`
/// apart; each component rounded down, with the distance taken as its integer
/// square root. Concentric circles move towards negative `x`. `None` when the
/// centres are at least `r1 + r2` apart.
pub open spec fn circle_penetration(a: (i64, i64), r1: int, b: (i64, i64), r2: int) -> Option<(int, int)> {
    let dx = a.0 - b.0;
    let dy = a.1 - b.1;
    let rr = r1 + r2;
    let n = dx * dx + dy * dy;
    if n < rr * rr {
        let d = isqrt(n);
        if d == 0 {
            Some((-rr, 0))
        } else {
            Some(((dx * rr) / d - dx, (dy * rr) / d - dy))
        }
    } else {
        None
    }
}

/// The smallest move of the first shape out of the second, if they overlap.
/// Two circles overlap when their centres are closer than the sum of their
/// radii, and separate along the line of their centres. A circle and a
/// rectangle overlap when the rectangle's nearest point is closer to the
/// centre than the radius; two rectangles when they overlap on both axes.
/// Both of these separate as their bounding boxes do.
pub open spec fn penetration(
    a_pos: (i64, i64),
    a_shape: Shape,
    b_pos: (i64, i64),
    b_shape: Shape,
) -> Option<(int, int)> {
    match (a_shape, b_shape) {
        (Shape::Circle(r1), Shape::Circle(r2)) => circle_penetration(a_pos, r1 as int, b_pos, r2 as int),
        (Shape::Circle(r), Shape::Rectangle(_, _)) => if circle_touches_box(a_pos, r as int, bbox(b_pos, b_shape)) {
            box_penetration(a_pos, a_shape, b_pos, b_shape)
        } else {
            None
        },
        (Shape::Rectangle(_, _), Shape::Circle(r)) => if circle_touches_box(b_pos, r as int, bbox(a_pos, a_shape)) {
            box_penetration(a_pos, a_shape, b_pos, b_shape)
        } else {
            None
        },
        _ => box_penetration(a_pos, a_shape, b_pos, b_shape),
    }
}

fn clamp_exec(v: i64, lo: i64, hi: i64) -> (r: i64)
    ensures
        r == clamp(v as int, lo as int, hi as int),
{
    if v < lo {
        lo
    } else if v > hi {
        hi
    } else {
        v
    }
}

fn circle_touches_box_exec(c: (i64, i64), r: i64, b: Location) -> (t: bool)
    requires
        valid_pos(c),
        0 <= r <= MAX_DIM,
        -MAX_COORD - MAX_DIM <= b.left <= MAX_COORD + MAX_DIM,
        -MAX_COORD - MAX_DIM <= b.right <= MAX_COORD + MAX_DIM,
        -MAX_COORD - MAX_DIM <= b.down <= MAX_COORD + MAX_DIM,
        -MAX_COORD - MAX_DIM <= b.up <= MAX_COORD + MAX_DIM,
    ensures
        t == circle_touches_box(c, r as int, (b.left as int, b.right as int, b.down as int, b.up as int)),
{
    let px = clamp_exec(c.0, b.left, b.right);
    let py = clamp_exec(c.1, b.down, b.up);
    let ex = c.0 as i128 - px as i128;
    let ey = c.1 as i128 - py as i128;
    proof {
        assert(ex * ex <= 0x100_0000_0000_0000_0000_0000 && ey * ey <= 0x100_0000_0000_0000_0000_0000
            && r * r <= 0x100_0000_0000_0000_0000_0000 && ex * ex >= 0 && ey * ey >= 0) by (nonlinear_arith)
            requires
                -0x400_0000_0000 <= ex <= 0x400_0000_0000,
                -0x400_0000_0000 <= ey <= 0x400_0000_0000,
                0 <= r <= 0x400_0000_0000,
        ;
    }
    ex * ex + ey * ey < r as i128 * r as i128
}

proof fn lemma_circle_bounds(dx: int, dy: int, rr: int)
    requires
        0 <= rr <= 2 * MAX_DIM,
        dx * dx + dy * dy < rr * rr,
        isqrt(dx * dx + dy * dy) > 0,
    ensures
        -2 * rr <= (dx * rr) / isqrt(dx * dx + dy * dy) - dx <= 2 * rr,
        -2 * rr <= (dy * rr) / isqrt(dx * dx + dy * dy) - dy <= 2 * rr,
{
    let n = dx * dx + dy * dy;
    let d = isqrt(n);
    assert(dx * dx >= 0 && dy * dy >= 0) by (nonlinear_arith);
    lemma_isqrt_exists(n);
    assert(is_isqrt(n, d));
    assert(d < rr) by (nonlinear_arith)
        requires
            d * d <= n,
            n < rr * rr,
            d > 0,
            rr >= 0,
    ;
    lemma_one_component(dx, dy, rr, n, d);
    lemma_one_component(dy, dx, rr, n, d);
}

proof fn lemma_one_component(u: int, v: int, rr: int, n: int, d: int)
    requires
        n == u * u + v * v,
        is_isqrt(n, d),
        d > 0,
        d < rr,
    ensures
        -2 * rr <= (u * rr) / d - u <= 2 * rr,
{
    assert(-d <= u <= d) by (nonlinear_arith)
        requires
            n == u * u + v * v,
            n < (d + 1) * (d + 1),
            d > 0,
    ;
    let x = u * rr;
    vstd::arithmetic::div_mod::lemma_fundamental_div_mod(x, d);
    let q = x / d;
    let m = x % d;
    assert(-rr <= q <= rr) by (nonlinear_arith)
        requires
            x == d * q + m,
            0 <= m < d,
            -d <= u <= d,
            x == u * rr,
            rr > 0,
    ;
}

proof fn lemma_isqrt_exists(n: int)
    requires
        n >= 0,
    ensures
        exists|r: int| #[trigger] is_isqrt(n, r),
    decreases n,
{
    if n == 0 {
        assert(is_isqrt(0, 0));
    } else {
        lemma_isqrt_exists(n - 1);
        let r = choose|r: int| #[trigger] is_isqrt(n - 1, r);
        if n < (r + 1) * (r + 1) {
            assert(is_isqrt(n, r));
        } else {
            assert(is_isqrt(n, r + 1)) by (nonlinear_arith)
                requires
                    r >= 0,
                    n == (r + 1) * (r + 1),
            ;
        }
    }
}

fn circle_collide(a: (i64, i64), r1: i64, b: (i64, i64), r2: i64) -> (r: Option<Collision>)
    requires
        valid_pos(a),
        valid_pos(b),
        0 <= r1 <= MAX_DIM,
        0 <= r2 <= MAX_DIM,
    ensures
        match circle_penetration(a, r1 as int, b, r2 as int) {
            Some(d) => r == Some(Collision { delta_x: d.0 as i64, delta_y: d.1 as i64 }) && d.0
                == r->0.delta_x && d.1 == r->0.delta_y,
            None => r.is_none(),
        },
{
    let dx = a.0 as i128 - b.0 as i128;
    let dy = a.1 as i128 - b.1 as i128;
    let rr = r1 as i128 + r2 as i128;
    proof {
        lemma_product_fits(dx as int, dx as int);
        lemma_product_fits(dy as int, dy as int);
        lemma_product_fits(rr as int, rr as int);
        assert(dx * dx >= 0 && dy * dy >= 0) by (nonlinear_arith);
        assert(dx * dx <= 0x40_0000_0000_0000_0000_0000 && dy * dy <= 0x40_0000_0000_0000_0000_0000) by (nonlinear_arith)
            requires
                -0x200_0000_0000 <= dx <= 0x200_0000_0000,
                -0x200_0000_0000 <= dy <= 0x200_0000_0000,
        ;
    }
    let n = dx * dx + dy * dy;
    if n < rr * rr {
        let d = isqrt_exec(n as u128);
        if d == 0 {
            Some(Collision { delta_x: -(rr as i64), delta_y: 0 })
        } else {
            let di = d as i128;
            proof {
                lemma_circle_bounds(dx as int, dy as int, rr as int);
                lemma_product_fits(dx as int, rr as int);
                lemma_product_fits(dy as int, rr as int);
                assert(d < rr) by (nonlinear_arith)
                    requires
                        d * d <= n,
                        n < rr * rr,
                        rr >= 0,
                ;
            }
            let qx = match (dx * rr).checked_div_euclid(di) {
                Some(q) => q,
                None => 0,
            };
            let qy = match (dy * rr).checked_div_euclid(di) {
                Some(q) => q,
                None => 0,
            };
            Some(Collision { delta_x: (qx - dx) as i64, delta_y: (qy - dy) as i64 })
        }
    } else {
        None
    }
}

/// The smallest move of the first shape out of the second, if they overlap.
pub fn collide(a_pos: (i64, i64), a_shape: Shape, b_pos: (i64, i64), b_shape: Shape) -> (r: Option<
    Collision,
>)
    requires
        valid_pos(a_pos),
        valid_shape(a_shape),
        valid_pos(b_pos),
        valid_shape(b_shape),
    ensures
        match penetration(a_pos, a_shape, b_pos, b_shape) {
            Some(d) => r == Some(Collision { delta_x: d.0 as i64, delta_y: d.1 as i64 }) && d.0
                == r->0.delta_x && d.1 == r->0.delta_y,
            None => r.is_none(),
        },
{
    match (a_shape, b_shape) {
        (Shape::Circle(r1), Shape::Circle(r2)) => circle_collide(a_pos, r1, b_pos, r2),
        (Shape::Circle(r), Shape::Rectangle(_, _)) => {
            let bb = bounding_box(b_pos, b_shape);
            if circle_touches_box_exec(a_pos, r, bb) {
                collide_boxes(a_pos, a_shape, b_pos, b_shape)
            } else {
                None
            }
        },
        (Shape::Rectangle(_, _), Shape::Circle(r)) => {
            let ab = bounding_box(a_pos, a_shape);
            if circle_touches_box_exec(b_pos, r, ab) {
                collide_boxes(a_pos, a_shape, b_pos, b_shape)
            } else {
                None
            }
        },
        _ => collide_boxes(a_pos, a_shape, b_pos, b_shape),
    }
}

/// Share of the separating move `d` that a body of weight `ws` takes on itself
/// when it overlaps a body of weight `wo`: `wo / (ws + wo)` of it, rounded down,
/// so that the heavier body moves less. Two immovable bodies share it in halves;
/// an immovable body takes none of it, and a movable one facing an immovable one
/// takes all of it.
pub open spec fn retained(ws: u64, wo: u64, d: int) -> int {
    if ws == WEIGHT_MAX && wo == WEIGHT_MAX {
        d / 2
    } else if ws == WEIGHT_MAX {
        0
    } else if wo == WEIGHT_MAX {
        d
    } else {
        (d * wo) / (ws + wo)
    }
}

/// Whether the probing body of weight `ws` receives a correction: not when it
/// is immovable and the other is not.
pub open spec fn moves_self(ws: u64, wo: u64) -> bool {
    !(ws == WEIGHT_MAX && wo != WEIGHT_MAX)
}

/// Whether the other body receives a correction: not when it is immovable and
/// the probing one is not.
pub open spec fn moves_other(ws: u64, wo: u64) -> bool {
    !(wo == WEIGHT_MAX && ws != WEIGHT_MAX)
}

proof fn lemma_share_bounds(d: int, wo: int, total: int)
    requires
        0 < wo <= total,
    ensures
        d >= 0 ==> 0 <= (d * wo) / total <= d,
        d < 0 ==> d <= (d * wo) / total <= 0,
{
    vstd::arithmetic::div_mod::lemma_fundamental_div_mod(d * wo, total);
    let q = (d * wo) / total;
    let m = (d * wo) % total;
    assert(d >= 0 ==> 0 <= q <= d) by (nonlinear_arith)
        requires
            d * wo == total * q + m,
            0 <= m < total,
            0 < wo <= total,
    ;
    assert(d < 0 ==> d <= q <= 0) by (nonlinear_arith)
        requires
            d * wo == total * q + m,
            0 <= m < total,
            0 < wo <= total,
    ;
}

fn retained_exec(ws: u64, wo: u64, d: i64) -> (r: i64)
    requires
        ws > 0,
        wo > 0,
    ensures
        r == retained(ws, wo, d as int),
{
    if ws == WEIGHT_MAX && wo == WEIGHT_MAX {
        proof {
            crate::spatial_hashing::lemma_div_bounds(d as int, 2);
        }
        match (d as i128).checked_div_euclid(2) {
            Some(q) => q as i64,
            None => 0,
        }
    } else if ws == WEIGHT_MAX {
        0
    } else if wo == WEIGHT_MAX {
        d
    } else {
        let total = ws as i128 + wo as i128;
        proof {
            lemma_share_bounds(d as int, wo as int, total as int);
            assert(-0x8000_0000_0000_0000 * 0xffff_ffff_ffff_ffff <= d * wo <= 0x7fff_ffff_ffff_ffff
                * 0xffff_ffff_ffff_ffff) by (nonlinear_arith)
                requires
                    -0x8000_0000_0000_0000 <= d <= 0x7fff_ffff_ffff_ffff,
                    0 < wo <= 0xffff_ffff_ffff_ffff,
            ;
        }
        let prod = d as i128 * wo as i128;
        match prod.checked_div_euclid(total) {
            Some(q) => q as i64,
            None => 0,
        }
    }
}

/// Splits the separating move of an overlap between a probing body of weight
/// `ws` and another of weight `wo`: the first correction goes to the probing
/// body, which keeps its share of the move; the second to the other body, which
/// takes the rest in the opposite direction.
pub fn split_collision(ws: u64, wo: u64, col: Collision) -> (r: (Option<Resolution>, Option<Resolution>))
    requires
        ws > 0,
        wo > 0,
        -MAX_COORD <= col.delta_x <= MAX_COORD,
        -MAX_COORD <= col.delta_y <= MAX_COORD,
    ensures
        r.0 == if moves_self(ws, wo) {
            Some(
                Resolution {
                    dx: retained(ws, wo, col.delta_x as int) as i64,
                    dy: retained(ws, wo, col.delta_y as int) as i64,
                },
            )
        } else {
            None
        },
        r.1 == if moves_other(ws, wo) {
            Some(
                Resolution {
                    dx: (retained(ws, wo, col.delta_x as int) - col.delta_x) as i64,
                    dy: (retained(ws, wo, col.delta_y as int) - col.delta_y) as i64,
                },
            )
        } else {
            None
        },
        r.0 matches Some(s) ==> s.dx == retained(ws, wo, col.delta_x as int) && s.dy == retained(
            ws,
            wo,
            col.delta_y as int,
        ),
        r.1 matches Some(o) ==> o.dx == retained(ws, wo, col.delta_x as int) - col.delta_x && o.dy
            == retained(ws, wo, col.delta_y as int) - col.delta_y,
{
    proof {
        lemma_retained_within(ws, wo, col.delta_x as int);
        lemma_retained_within(ws, wo, col.delta_y as int);
    }
    let kx = retained_exec(ws, wo, col.delta_x);
    let ky = retained_exec(ws, wo, col.delta_y);
    let mine = if ws == WEIGHT_MAX && wo != WEIGHT_MAX {
        None
    } else {
        Some(Resolution { dx: kx, dy: ky })
    };
    let theirs = if wo == WEIGHT_MAX && ws != WEIGHT_MAX {
        None
    } else {
        Some(Resolution { dx: kx - col.delta_x, dy: ky - col.delta_y })
    };
    (mine, theirs)
}

proof fn lemma_retained_within(ws: u64, wo: u64, d: int)
    requires
        ws > 0,
        wo > 0,
    ensures
        d >= 0 ==> 0 <= retained(ws, wo, d) <= d,
        d < 0 ==> d <= retained(ws, wo, d) <= 0,
{
    if ws == WEIGHT_MAX && wo == WEIGHT_MAX {
        crate::spatial_hashing::lemma_div_bounds(d, 2);
        vstd::arithmetic::div_mod::lemma_fundamental_div_mod(d, 2);
    } else if ws != WEIGHT_MAX && wo != WEIGHT_MAX {
        lemma_share_bounds(d, wo as int, ws + wo);
    }
}

/// Between two movable bodies the move is shared by weight: the probing body
/// keeps `wo / (ws + wo)` of it, rounded down, the other takes the rest, and
/// the two corrections point in opposite directions and add up to the whole
/// move.
pub proof fn lemma_finite_split(ws: u64, wo: u64, d: int)
    requires
        0 < ws < WEIGHT_MAX,
        0 < wo < WEIGHT_MAX,
    ensures
        retained(ws, wo, d) * (ws + wo) <= d * wo < (retained(ws, wo, d) + 1) * (ws + wo),
        retained(ws, wo, d) - (retained(ws, wo, d) - d) == d,
        d >= 0 ==> retained(ws, wo, d) >= 0 && d - retained(ws, wo, d) >= 0,
        d < 0 ==> retained(ws, wo, d) <= 0 && d - retained(ws, wo, d) <= 0,
        moves_self(ws, wo) && moves_other(ws, wo),
{
    let t = ws + wo;
    vstd::arithmetic::div_mod::lemma_fundamental_div_mod(d * wo, t);
    let q = (d * wo) / t;
    let m = (d * wo) % t;
    assert(q * t <= d * wo < (q + 1) * t) by (nonlinear_arith)
        requires
            d * wo == t * q + m,
            0 <= m < t,
    ;
    lemma_retained_within(ws, wo, d);
}

/// Two immovable bodies share the move in halves, the probing one taking the
/// lower half when it is odd; an immovable body facing a movable one is not
/// corrected and the movable one takes the whole move, whatever its weight.
pub proof fn lemma_immovable_split(w: u64, d: int)
    requires
        0 < w < WEIGHT_MAX,
    ensures
        retained(WEIGHT_MAX, WEIGHT_MAX, d) + retained(WEIGHT_MAX, WEIGHT_MAX, d) == d || retained(
            WEIGHT_MAX,
            WEIGHT_MAX,
            d,
        ) + retained(WEIGHT_MAX, WEIGHT_MAX, d) + 1 == d,
        moves_self(WEIGHT_MAX, WEIGHT_MAX) && moves_other(WEIGHT_MAX, WEIGHT_MAX),
        !moves_self(WEIGHT_MAX, w) && moves_other(WEIGHT_MAX, w),
        retained(WEIGHT_MAX, w, d) - d == -d,
        moves_self(w, WEIGHT_MAX) && !moves_other(w, WEIGHT_MAX),
        retained(w, WEIGHT_MAX, d) == d,
{
    vstd::arithmetic::div_mod::lemma_fundamental_div_mod(d, 2);
}

/// Position, velocity and acceleration of a body.
#[derive(Clone, Copy, Debug, PartialEq, Eq)]
pub struct PhysicState {
    pub pos: (i64, i64),
    pub vel: (i64, i64),
    pub acc: (i64, i64),
}

impl PhysicState {
    /// A body at rest at `pos`.
    pub fn new(pos: (i64, i64)) -> (r: PhysicState)
        ensures
            r == (PhysicState { pos: pos, vel: (0, 0), acc: (0, 0) }),
    {
        PhysicState { pos: pos, vel: (0, 0), acc: (0, 0) }
    }
}

/// Net force on one axis: the damping against the velocity plus the driving
/// force, each absent when the body has none.
pub open spec fn net_force(vel: int, damping: Option<i64>, force: Option<i64>) -> int {
    (match damping {
        Some(d) => -(d * vel),
        None => 0,
    }) + (match force {
        Some(f) => f as int,
        None => 0,
    })
}

/// One step of semi-implicit Euler on one axis, as (acceleration, velocity,
/// position): the acceleration is the net force over the weight, rounded
/// down; the velocity moves by `dt` times it, and the position by `dt` times
/// the new velocity.
pub open spec fn step_axis(
    pos: int,
    vel: int,
    damping: Option<i64>,
    force: Option<i64>,
    weight: u64,
    dt: int,
) -> (int, int, int) {
    let acc = net_force(vel, damping, force) / (weight as int);
    let v = vel + dt * acc;
    (acc, v, pos + dt * v)
}

pub open spec fn force_x(force: Option<(i64, i64)>) -> Option<i64> {
    match force {
        Some(f) => Some(f.0),
        None => None,
    }
}

pub open spec fn force_y(force: Option<(i64, i64)>) -> Option<i64> {
    match force {
        Some(f) => Some(f.1),
        None => None,
    }
}

/// The state after one integration step is representable: speeds and
/// accelerations fit in `i64` and the position stays within `MAX_COORD`.
pub open spec fn integration_fits(
    s: PhysicState,
    damping: Option<i64>,
    force: Option<(i64, i64)>,
    weight: u64,
    dt: i64,
) -> bool {
    let x = step_axis(s.pos.0 as int, s.vel.0 as int, damping, force_x(force), weight, dt as int);
    let y = step_axis(s.pos.1 as int, s.vel.1 as int, damping, force_y(force), weight, dt as int);
    &&& i64::MIN <= x.0 <= i64::MAX
    &&& i64::MIN <= x.1 <= i64::MAX
    &&& -MAX_COORD <= x.2 <= MAX_COORD
    &&& i64::MIN <= y.0 <= i64::MAX
    &&& i64::MIN <= y.1 <= i64::MAX
    &&& -MAX_COORD <= y.2 <= MAX_COORD
}

/// The state after one integration step.
pub open spec fn integrated(
    s: PhysicState,
    damping: Option<i64>,
    force: Option<(i64, i64)>,
    weight: u64,
    dt: i64,
) -> PhysicState {
    let x = step_axis(s.pos.0 as int, s.vel.0 as int, damping, force_x(force), weight, dt as int);
    let y = step_axis(s.pos.1 as int, s.vel.1 as int, damping, force_y(force), weight, dt as int);
    PhysicState {
        pos: (x.2 as i64, y.2 as i64),
        vel: (x.1 as i64, y.1 as i64),
        acc: (x.0 as i64, y.0 as i64),
    }
}

proof fn lemma_product_fits(a: int, b: int)
    requires
        -0x8000_0000_0000_0000 <= a <= 0x7fff_ffff_ffff_ffff,
        -0x8000_0000_0000_0000 <= b <= 0x7fff_ffff_ffff_ffff,
    ensures
        -0x4000_0000_0000_0000_0000_0000_0000_0000 <= a * b <= 0x4000_0000_0000_0000_0000_0000_0000_0000,
{
    assert(-0x4000_0000_0000_0000_0000_0000_0000_0000 <= a * b <= 0x4000_0000_0000_0000_0000_0000_0000_0000)
        by (nonlinear_arith)
        requires
            -0x8000_0000_0000_0000 <= a <= 0x7fff_ffff_ffff_ffff,
            -0x8000_0000_0000_0000 <= b <= 0x7fff_ffff_ffff_ffff,
    ;
}

fn step_axis_exec(pos: i64, vel: i64, damping: Option<i64>, force: Option<i64>, weight: u64, dt: i64) -> (r: (
    i64,
    i64,
    i64,
))
    requires
        weight > 0,
        i64::MIN <= step_axis(pos as int, vel as int, damping, force, weight, dt as int).0 <= i64::MAX,
        i64::MIN <= step_axis(pos as int, vel as int, damping, force, weight, dt as int).1 <= i64::MAX,
        -MAX_COORD <= step_axis(pos as int, vel as int, damping, force, weight, dt as int).2 <= MAX_COORD,
    ensures
        r.0 == step_axis(pos as int, vel as int, damping, force, weight, dt as int).0,
        r.1 == step_axis(pos as int, vel as int, damping, force, weight, dt as int).1,
        r.2 == step_axis(pos as int, vel as int, damping, force, weight, dt as int).2,
{
    let mut f: i128 = 0;
    match damping {
        Some(d) => {
            proof {
                lemma_product_fits(d as int, vel as int);
            }
            f = -(d as i128 * vel as i128);
        },
        None => {},
    }
    match force {
        Some(g) => {
            f = f + g as i128;
        },
        None => {},
    }
    proof {
        crate::spatial_hashing::lemma_div_bounds(f as int, weight as int);
    }
    let acc = match f.checked_div_euclid(weight as i128) {
        Some(q) => q as i64,
        None => 0,
    };
    proof {
        lemma_product_fits(dt as int, acc as int);
    }
    let v = (vel as i128 + dt as i128 * acc as i128) as i64;
    proof {
        lemma_product_fits(dt as int, v as int);
    }
    let p = (pos as i128 + dt as i128 * v as i128) as i64;
    (acc, v, p)
}

/// Advances a body by one step of `dt` under its damping and driving force.
pub fn integrate(
    state: &mut PhysicState,
    damping: Option<i64>,
    force: Option<(i64, i64)>,
    weight: u64,
    dt: i64,
)
    requires
        weight > 0,
        integration_fits(*old(state), damping, force, weight, dt),
    ensures
        *final(state) == integrated(*old(state), damping, force, weight, dt),
        valid_pos(final(state).pos),
{
    let (fx, fy) = match force {
        Some(f) => (Some(f.0), Some(f.1)),
        None => (None, None),
    };
    let x = step_axis_exec(state.pos.0, state.vel.0, damping, fx, weight, dt);
    let y = step_axis_exec(state.pos.1, state.vel.1, damping, fy, weight, dt);
    state.acc = (x.0, y.0);
    state.vel = (x.1, y.1);
    state.pos = (x.2, y.2);
}

/// What a body is, what it collides with, its outline, its weight and how it
/// reacts to a collision.
#[derive(Clone, Copy, Debug, PartialEq, Eq, Structural)]
pub struct PhysicType {
    pub group: u32,
    pub mask: u32,
    pub shape: Shape,
    pub weight: u64,
    pub collision: CollisionBehavior,
}

impl PhysicType {
    /// A body that never moves.
    pub fn new_static(group: u32, mask: u32, shape: Shape) -> (r: PhysicType)
        ensures
            r == (PhysicType {
                group: group,
                mask: mask,
                shape: shape,
                weight: WEIGHT_MAX,
                collision: CollisionBehavior::Persist,
            }),
    {
        PhysicType {
            group: group,
            mask: mask,
            shape: shape,
            weight: WEIGHT_MAX,
            collision: CollisionBehavior::Persist,
        }
    }

    /// A body that moves.
    pub fn new_movable(
        group: u32,
        mask: u32,
        shape: Shape,
        collision: CollisionBehavior,
        weight: u64,
    ) -> (r: PhysicType)
        ensures
            r == (PhysicType {
                group: group,
                mask: mask,
                shape: shape,
                weight: weight,
                collision: collision,
            }),
    {
        PhysicType { group: group, mask: mask, shape: shape, weight: weight, collision: collision }
    }
}

/// The footprint of one body as the spatial hash stores it.
#[derive(Clone, Copy, Debug, PartialEq, Eq)]
pub struct EntityInformation {
    pub entity: usize,
    pub pos: (i64, i64),
    pub group: u32,
    pub mask: u32,
    pub shape: Shape,
}

impl Identifiable for EntityInformation {
    open spec fn spec_id(&self) -> usize {
        self.entity
    }

    fn id(&self) -> (r: usize) {
        self.entity
    }
}

pub open spec fn valid_info(t: EntityInformation) -> bool {
    valid_pos(t.pos) && valid_shape(t.shape)
}

/// A probe: a shape at a position with its masks, and the entities it ignores.
pub struct ShapeCast {
    pub pos: (i64, i64),
    pub shape: Shape,
    pub mask: u32,
    pub group: u32,
    pub not: Vec<usize>,
}

/// A probe with mask `mask` that ignores the entities `not` may report `t`: `t`
/// is not ignored and is in a group that the mask selects.
pub open spec fn selects(mask: u32, not: Seq<usize>, t: EntityInformation) -> bool {
    &&& !not.contains(t.entity)
    &&& mask & t.group != 0
}

/// The occupants of `s` that a probe of `shape` at `pos` selects and overlaps,
/// in order, each with the move that takes the probe out of it.
pub open spec fn hits(
    pos: (i64, i64),
    shape: Shape,
    mask: u32,
    not: Seq<usize>,
    s: Seq<EntityInformation>,
) -> Seq<(EntityInformation, Collision)>
    decreases s.len(),
{
    if s.len() == 0 {
        Seq::empty()
    } else {
        let prev = hits(pos, shape, mask, not, s.drop_last());
        let t = s.last();
        if selects(mask, not, t) {
            match penetration(pos, shape, t.pos, t.shape) {
                Some(d) => prev.push((t, Collision { delta_x: d.0 as i64, delta_y: d.1 as i64 })),
                None => prev,
            }
        } else {
            prev
        }
    }
}

proof fn lemma_no_hits_without_mask(cast: &ShapeCast, s: Seq<EntityInformation>)
    requires
        cast.mask == 0,
    ensures
        hits(cast.pos, cast.shape, cast.mask, cast.not@, s).len() == 0,
    decreases s.len(),
{
    if s.len() > 0 {
        lemma_no_hits_without_mask(cast, s.drop_last());
        let g = s.last().group;
        assert(0u32 & g == 0) by (bit_vector);
    }
}

/// Occupants of the world, static ones and moving ones in two spatial hashes.
pub struct PhysicWorld {
    pub statics: SpatialHashing<EntityInformation>,
    pub movable: SpatialHashing<EntityInformation>,
}

impl PhysicWorld {
    /// Both hashes are well formed, and everything stored has a valid position
    /// and shape.
    pub open spec fn wf(&self) -> bool {
        &&& self.statics.wf()
        &&& self.movable.wf()
        &&& forall|c: CellIndex, i: int|
            0 <= i < self.statics.bucket(c).len() ==> valid_info(#[trigger] self.statics.bucket(c)[i])
        &&& forall|c: CellIndex, i: int|
            0 <= i < self.movable.bucket(c).len() ==> valid_info(#[trigger] self.movable.bucket(c)[i])
    }

    /// Every stored occupant names an entity below `n`.
    pub open spec fn ids_below(&self, n: nat) -> bool {
        &&& forall|c: CellIndex, i: int|
            0 <= i < self.statics.bucket(c).len() ==> (#[trigger] self.statics.bucket(c)[i]).entity < n
        &&& forall|c: CellIndex, i: int|
            0 <= i < self.movable.bucket(c).len() ==> (#[trigger] self.movable.bucket(c)[i]).entity < n
    }

    /// An empty world with cells of side `unit`.
    pub fn new(unit: i64) -> (r: PhysicWorld)
        requires
            unit > 0,
        ensures
            r.wf(),
            r.ids_below(0),
            r.statics.spec_unit() == unit,
            r.movable.spec_unit() == unit,
            forall|c: CellIndex| #[trigger] r.statics.bucket(c) == Seq::<EntityInformation>::empty(),
            forall|c: CellIndex| #[trigger] r.movable.bucket(c) == Seq::<EntityInformation>::empty(),
    {
        PhysicWorld { statics: SpatialHashing::new(unit), movable: SpatialHashing::new(unit) }
    }

    /// Replaces the static occupants with `infos`.
    pub fn fill(&mut self, infos: &Vec<EntityInformation>)
        requires
            old(self).wf(),
            forall|i: int| 0 <= i < infos@.len() ==> valid_info(#[trigger] infos@[i]),
        ensures
            final(self).wf(),
            final(self).movable == old(self).movable,
            final(self).statics.spec_unit() == old(self).statics.spec_unit(),
            forall|c: CellIndex, t: EntityInformation|
                #[trigger] final(self).statics.bucket(c).contains(t) ==> infos@.contains(t),
            forall|i: int, c: CellIndex|
                0 <= i < infos@.len() && in_region(
                    bbox_location(infos@[i].pos, infos@[i].shape),
                    final(self).statics.spec_unit(),
                    c,
                ) ==> #[trigger] final(self).statics.bucket(c).contains(infos@[i]),
    {
        self.statics.clear();
        let n = infos.len();
        let mut k: usize = 0;
        while k < n
            invariant
                n == infos@.len(),
                0 <= k <= n,
                self.wf(),
                self.movable == old(self).movable,
                self.statics.spec_unit() == old(self).statics.spec_unit(),
                forall|i: int| 0 <= i < infos@.len() ==> valid_info(#[trigger] infos@[i]),
                forall|c: CellIndex, t: EntityInformation|
                    #[trigger] self.statics.bucket(c).contains(t) ==> infos@.contains(t),
                forall|i: int, c: CellIndex|
                    0 <= i < k && in_region(
                        bbox_location(infos@[i].pos, infos@[i].shape),
                        self.statics.spec_unit(),
                        c,
                    ) ==> #[trigger] self.statics.bucket(c).contains(infos@[i]),
            decreases n - k,
        {
            let info = infos[k];
            assert(valid_info(infos@[k as int]));
            let loc = bounding_box(info.pos, info.shape);
            let ghost before = self.statics;
            self.statics.insert_locally(&loc, &info);
            proof {
                assert forall|c: CellIndex, i: int|
                    0 <= i < self.statics.bucket(c).len() implies valid_info(#[trigger] self.statics.bucket(c)[i]) by {
                    if in_region(loc, before.spec_unit(), c) && i == before.bucket(c).len() {
                    } else {
                        assert(self.statics.bucket(c)[i] == before.bucket(c)[i]);
                    }
                }
                assert forall|c: CellIndex, t: EntityInformation|
                    #[trigger] self.statics.bucket(c).contains(t) implies infos@.contains(t) by {
                    let j = choose|j: int| 0 <= j < self.statics.bucket(c).len() && self.statics.bucket(c)[j] == t;
                    if in_region(loc, before.spec_unit(), c) && j == before.bucket(c).len() {
                        assert(infos@[k as int] == t);
                    } else {
                        assert(before.bucket(c)[j] == t);
                        assert(before.bucket(c).contains(t));
                    }
                }
                assert forall|i: int, c: CellIndex|
                    0 <= i < k + 1 && in_region(
                        bbox_location(infos@[i].pos, infos@[i].shape),
                        self.statics.spec_unit(),
                        c,
                    ) implies #[trigger] self.statics.bucket(c).contains(infos@[i]) by {
                    if i == k {
                        assert(self.statics.bucket(c)[before.bucket(c).len() as int] == info);
                    } else {
                        assert(before.bucket(c).contains(infos@[i]));
                        let j = choose|j: int| 0 <= j < before.bucket(c).len() && before.bucket(c)[j] == infos@[i];
                        assert(self.statics.bucket(c)[j] == infos@[i]);
                    }
                }
            }
            k = k + 1;
        }
    }

    /// Adds the footprint of a moving body.
    pub fn insert_dynamic(&mut self, info: EntityInformation)
        requires
            old(self).wf(),
            valid_info(info),
        ensures
            final(self).wf(),
            final(self).statics == old(self).statics,
            final(self).movable.spec_unit() == old(self).movable.spec_unit(),
            forall|c: CellIndex|
                #[trigger] final(self).movable.bucket(c) == if in_region(
                    bbox_location(info.pos, info.shape),
                    old(self).movable.spec_unit(),
                    c,
                ) {
                    old(self).movable.bucket(c).push(info)
                } else {
                    old(self).movable.bucket(c)
                },
    {
        let loc = bounding_box(info.pos, info.shape);
        let ghost before = self.movable;
        self.movable.insert_locally(&loc, &info);
        proof {
            assert forall|c: CellIndex, i: int|
                0 <= i < self.movable.bucket(c).len() implies valid_info(#[trigger] self.movable.bucket(c)[i]) by {
                if in_region(loc, before.spec_unit(), c) && i == before.bucket(c).len() {
                } else {
                    assert(self.movable.bucket(c)[i] == before.bucket(c)[i]);
                }
            }
        }
    }

    /// Removes every moving occupant.
    pub fn clear_dynamic(&mut self)
        requires
            old(self).wf(),
        ensures
            final(self).wf(),
            final(self).statics == old(self).statics,
            final(self).movable.spec_unit() == old(self).movable.spec_unit(),
            forall|c: CellIndex| #[trigger] final(self).movable.bucket(c) == Seq::<EntityInformation>::empty(),
    {
        self.movable.clear();
    }

    /// Everything that the probe selects and overlaps, static occupants first,
    /// each with the move that takes the probe out of it. Each occupant comes at
    /// most once from each hash.
    pub fn apply_on_shape(&self, cast: &ShapeCast) -> (r: Vec<(EntityInformation, Collision)>)
        requires
            self.wf(),
            valid_pos(cast.pos),
            valid_shape(cast.shape),
        ensures
            exists|s: Seq<EntityInformation>, d: Seq<EntityInformation>|
                {
                    &&& self.statics.is_query_result(bbox_location(cast.pos, cast.shape), s)
                    &&& self.movable.is_query_result(bbox_location(cast.pos, cast.shape), d)
                    &&& #[trigger] hits(cast.pos, cast.shape, cast.mask, cast.not@, s + d) == r@
                },
            cast.mask == 0 ==> r@.len() == 0,
    {
        let loc = bounding_box(cast.pos, cast.shape);
        let mut cands = self.statics.get_locally(&loc);
        let ghost s = cands@;
        let mut dyn_cands = self.movable.get_locally(&loc);
        let ghost d = dyn_cands@;
        cands.append(&mut dyn_cands);
        let ghost all = cands@;
        assert(all == s + d);
        proof {
            assert forall|i: int| 0 <= i < all.len() implies valid_info(#[trigger] all[i]) by {
                if i < s.len() {
                    assert(self.statics.stored_in_region(loc, s[i]));
                    let c = choose|c: CellIndex| in_region(loc, self.statics.spec_unit(), c) && #[trigger] self.statics.bucket(c).contains(s[i]);
                    let j = choose|j: int| 0 <= j < self.statics.bucket(c).len() && self.statics.bucket(c)[j] == s[i];
                } else {
                    assert(all[i] == d[i - s.len()]);
                    assert(self.movable.stored_in_region(loc, d[i - s.len()]));
                    let c = choose|c: CellIndex| in_region(loc, self.movable.spec_unit(), c) && #[trigger] self.movable.bucket(c).contains(d[i - s.len()]);
                    let j = choose|j: int| 0 <= j < self.movable.bucket(c).len() && self.movable.bucket(c)[j] == d[i - s.len()];
                }
            }
        }
        let mut r: Vec<(EntityInformation, Collision)> = Vec::new();
        let n = cands.len();
        let mut k: usize = 0;
        while k < n
            invariant
                n == all.len(),
                cands@ == all,
                0 <= k <= n,
                valid_pos(cast.pos),
                valid_shape(cast.shape),
                forall|i: int| 0 <= i < all.len() ==> valid_info(#[trigger] all[i]),
                r@ == hits(cast.pos, cast.shape, cast.mask, cast.not@, all.subrange(0, k as int)),
            decreases n - k,
        {
            let t = cands[k];
            assert(valid_info(all[k as int]));
            assert(all.subrange(0, k + 1).drop_last() == all.subrange(0, k as int));
            let excluded = contains_usize(&cast.not, t.entity);
            if !excluded && cast.mask & t.group != 0 {
                match collide(cast.pos, cast.shape, t.pos, t.shape) {
                    Some(col) => {
                        r.push((t, col));
                    },
                    None => {},
                }
            }
            k = k + 1;
        }
        proof {
            assert(all.subrange(0, n as int) == all);
            if cast.mask == 0 {
                lemma_no_hits_without_mask(cast, all);
            }
        }
        r
    }
}

/// The bounding box of a shape at a position, as a `Location`.
pub open spec fn bbox_location(pos: (i64, i64), shape: Shape) -> Location {
    let b = bbox(pos, shape);
    Location { left: b.0 as i64, right: b.1 as i64, down: b.2 as i64, up: b.3 as i64 }
}

fn contains_usize(v: &Vec<usize>, x: usize) -> (r: bool)
    ensures
        r == v@.contains(x),
{
    let n = v.len();
    let mut i: usize = 0;
    while i < n
        invariant
            n == v@.len(),
            0 <= i <= n,
            forall|j: int| 0 <= j < i ==> v@[j] != x,
        decreases n - i,
    {
        if v[i] == x {
            assert(v@[i as int] == x);
            return true;
        }
        i = i + 1;
    }
    false
}

/// Speed of a body right after it bounces.
pub const UNIT_SPEED: i64 = 1000;

/// `x` held within the range of `i64`.
pub open spec fn sat(x: int) -> int {
    if x < i64::MIN {
        i64::MIN as int
    } else if x > i64::MAX {
        i64::MAX as int
    } else {
        x
    }
}

/// `x` held within `[-MAX_COORD, MAX_COORD]`.
pub open spec fn clamp_coord(x: int) -> int {
    if x < -MAX_COORD {
        -MAX_COORD as int
    } else if x > MAX_COORD {
        MAX_COORD as int
    } else {
        x
    }
}

fn sat_add(a: i64, b: i64) -> (r: i64)
    ensures
        r == sat(a + b),
{
    if b > 0 && a > i64::MAX - b {
        i64::MAX
    } else if b < 0 && a < i64::MIN - b {
        i64::MIN
    } else {
        a + b
    }
}

fn clamp_coord_exec(a: i64, b: i64) -> (r: i64)
    ensures
        r == clamp_coord(a + b),
{
    let s = a as i128 + b as i128;
    if s < -(MAX_COORD as i128) {
        -MAX_COORD
    } else if s > MAX_COORD as i128 {
        MAX_COORD
    } else {
        s as i64
    }
}

/// Integer square root: the largest `r` with `r * r <= n`.
pub open spec fn is_isqrt(n: int, r: int) -> bool {
    0 <= r && r * r <= n < (r + 1) * (r + 1)
}

pub open spec fn isqrt(n: int) -> int {
    choose|r: int| is_isqrt(n, r)
}

proof fn lemma_isqrt_unique(n: int, a: int, b: int)
    requires
        is_isqrt(n, a),
        is_isqrt(n, b),
    ensures
        a == b,
{
    if a < b {
        assert((a + 1) * (a + 1) <= b * b) by (nonlinear_arith)
            requires
                0 <= a < b,
        ;
    } else if b < a {
        assert((b + 1) * (b + 1) <= a * a) by (nonlinear_arith)
            requires
                0 <= b < a,
        ;
    }
}

fn isqrt_exec(n: u128) -> (r: u128)
    ensures
        is_isqrt(n as int, r as int),
        r as int == isqrt(n as int),
{
    let mut lo: u128 = 0;
    let mut hi: u128 = 0x1_0000_0000_0000_0000;
    assert(hi * hi > n);
    while hi - lo > 1
        invariant
            lo < hi <= 0x1_0000_0000_0000_0000,
            lo * lo <= n,
            n < hi * hi,
        decreases hi - lo,
    {
        let mid = lo + (hi - lo) / 2;
        assert(mid * mid <= 0xffff_ffff_ffff_ffff * 0xffff_ffff_ffff_ffff) by (nonlinear_arith)
            requires
                mid <= 0xffff_ffff_ffff_ffff,
        ;
        if mid * mid <= n {
            lo = mid;
        } else {
            hi = mid;
        }
    }
    proof {
        assert(hi == lo + 1);
        assert(is_isqrt(n as int, lo as int));
        let c = isqrt(n as int);
        assert(is_isqrt(n as int, c));
        lemma_isqrt_unique(n as int, lo as int, c);
    }
    lo
}

/// The velocity after a bounce: the opposite direction at `UNIT_SPEED`, each
/// component rounded down; a body at rest bounces towards negative `x`.
pub open spec fn bounced(vel: (i64, i64)) -> (i64, i64) {
    let len = isqrt(vel.0 * vel.0 + vel.1 * vel.1);
    if len == 0 {
        (-UNIT_SPEED as i64, 0)
    } else {
        (((-vel.0 * UNIT_SPEED) / len) as i64, ((-vel.1 * UNIT_SPEED) / len) as i64)
    }
}

/// The velocity after a collision, by behaviour.
pub open spec fn reacted(vel: (i64, i64), behavior: CollisionBehavior) -> (i64, i64) {
    match behavior {
        CollisionBehavior::Persist => vel,
        CollisionBehavior::Stop => (0, 0),
        CollisionBehavior::Back => (sat(-vel.0) as i64, sat(-vel.1) as i64),
        CollisionBehavior::Bounce => bounced(vel),
    }
}

proof fn lemma_bounce_component(v: int, len: int, n: int)
    requires
        is_isqrt(n, len),
        len > 0,
        v * v <= n,
        -0x8000_0000_0000_0000 <= v <= 0x7fff_ffff_ffff_ffff,
    ensures
        -2 * UNIT_SPEED <= (-v * UNIT_SPEED) / len <= 2 * UNIT_SPEED,
{
    assert(-(len + 1) < v < len + 1) by (nonlinear_arith)
        requires
            v * v <= n,
            n < (len + 1) * (len + 1),
            len > 0,
    ;
    let x = -v * UNIT_SPEED;
    vstd::arithmetic::div_mod::lemma_fundamental_div_mod(x, len);
    let q = x / len;
    let m = x % len;
    assert(-2 * UNIT_SPEED <= q <= 2 * UNIT_SPEED) by (nonlinear_arith)
        requires
            x == len * q + m,
            0 <= m < len,
            -(len + 1) < v < len + 1,
            x == -v * 1000,
            len > 0,
    ;
}

/// The velocity after a collision, by behaviour.
pub fn react(vel: (i64, i64), behavior: CollisionBehavior) -> (r: (i64, i64))
    ensures
        r == reacted(vel, behavior),
{
    match behavior {
        CollisionBehavior::Persist => vel,
        CollisionBehavior::Stop => (0, 0),
        CollisionBehavior::Back => (neg_sat(vel.0), neg_sat(vel.1)),
        CollisionBehavior::Bounce => {
            proof {
                lemma_product_fits(vel.0 as int, vel.0 as int);
                lemma_product_fits(vel.1 as int, vel.1 as int);
                assert(vel.0 * vel.0 >= 0 && vel.1 * vel.1 >= 0) by (nonlinear_arith);
            }
            let n = (vel.0 as i128 * vel.0 as i128) as u128 + (vel.1 as i128 * vel.1 as i128) as u128;
            let len = isqrt_exec(n);
            if len == 0 {
                (-UNIT_SPEED, 0)
            } else {
                proof {
                    lemma_bounce_component(vel.0 as int, len as int, n as int);
                    lemma_bounce_component(vel.1 as int, len as int, n as int);
                    assert(len <= 0x1_0000_0000_0000_0000) by (nonlinear_arith)
                        requires
                            len * len <= n,
                            n <= 0x8000_0000_0000_0000_0000_0000_0000_0000,
                    ;
                }
                let l = len as i128;
                let x = match (-(vel.0 as i128) * (UNIT_SPEED as i128)).checked_div_euclid(l) {
                    Some(q) => q as i64,
                    None => 0,
                };
                let y = match (-(vel.1 as i128) * (UNIT_SPEED as i128)).checked_div_euclid(l) {
                    Some(q) => q as i64,
                    None => 0,
                };
                (x, y)
            }
        },
    }
}

fn neg_sat(a: i64) -> (r: i64)
    ensures
        r == sat(-a),
{
    if a == i64::MIN {
        i64::MAX
    } else {
        -a
    }
}

/// `total` with one more correction added to it.
pub open spec fn accumulate(total: Option<Resolution>, r: Resolution) -> Option<Resolution> {
    match total {
        None => Some(r),
        Some(t) => Some(Resolution { dx: sat(t.dx + r.dx) as i64, dy: sat(t.dy + r.dy) as i64 }),
    }
}

/// The per-entity totals after adding the corrections `corr`, in order.
pub open spec fn accumulated(totals: Seq<Option<Resolution>>, corr: Seq<(usize, Resolution)>) -> Seq<
    Option<Resolution>,
>
    decreases corr.len(),
{
    if corr.len() == 0 {
        totals
    } else {
        let t = accumulated(totals, corr.drop_last());
        let e = corr.last().0 as int;
        if e < t.len() {
            t.update(e, accumulate(t[e], corr.last().1))
        } else {
            t
        }
    }
}

proof fn lemma_accumulated_len(totals: Seq<Option<Resolution>>, corr: Seq<(usize, Resolution)>)
    ensures
        accumulated(totals, corr).len() == totals.len(),
    decreases corr.len(),
{
    if corr.len() > 0 {
        lemma_accumulated_len(totals, corr.drop_last());
    }
}

/// `n` totals with no correction yet.
pub open spec fn no_corrections(n: nat) -> Seq<Option<Resolution>> {
    Seq::new(n, |i: int| None::<Resolution>)
}

proof fn lemma_accumulated_concat(
    totals: Seq<Option<Resolution>>,
    a: Seq<(usize, Resolution)>,
    b: Seq<(usize, Resolution)>,
)
    ensures
        accumulated(totals, a + b) == accumulated(accumulated(totals, a), b),
    decreases b.len(),
{
    if b.len() == 0 {
        assert(a + b =~= a);
    } else {
        assert((a + b).drop_last() =~= a + b.drop_last());
        assert((a + b).last() == b.last());
        lemma_accumulated_concat(totals, a, b.drop_last());
    }
}

fn accumulate_exec(total: Option<Resolution>, r: Resolution) -> (out: Option<Resolution>)
    ensures
        out == accumulate(total, r),
{
    match total {
        None => Some(r),
        Some(t) => Some(Resolution { dx: sat_add(t.dx, r.dx), dy: sat_add(t.dy, r.dy) }),
    }
}

/// Adds each correction of `corr` to the total of the entity it names.
pub fn accumulate_all(totals: &mut Vec<Option<Resolution>>, corr: &Vec<(usize, Resolution)>)
    ensures
        final(totals)@ == accumulated(old(totals)@, corr@),
{
    let n = corr.len();
    let mut k: usize = 0;
    while k < n
        invariant
            n == corr@.len(),
            0 <= k <= n,
            totals@ == accumulated(old(totals)@, corr@.subrange(0, k as int)),
        decreases n - k,
    {
        let (e, r) = corr[k];
        proof {
            assert(corr@.subrange(0, k + 1).drop_last() == corr@.subrange(0, k as int));
            lemma_accumulated_len(old(totals)@, corr@.subrange(0, k as int));
        }
        if e < totals.len() {
            let t = accumulate_exec(totals[e], r);
            totals[e] = t;
        }
        k = k + 1;
    }
    assert(corr@.subrange(0, n as int) == corr@);
}

/// The corrections that one probe hands out for its hits, in order: for each
/// hit, first the probing entity's own share, then the other entity's, each
/// only where the weights let that body move.
pub open spec fn corrections(
    entity: usize,
    w: u64,
    weights: Seq<u64>,
    h: Seq<(EntityInformation, Collision)>,
) -> Seq<(usize, Resolution)>
    decreases h.len(),
{
    if h.len() == 0 {
        Seq::empty()
    } else {
        let prev = corrections(entity, w, weights, h.drop_last());
        let t = h.last().0;
        let col = h.last().1;
        let ow = weights[t.entity as int];
        let mine = if moves_self(w, ow) {
            prev.push(
                (
                    entity,
                    Resolution {
                        dx: retained(w, ow, col.delta_x as int) as i64,
                        dy: retained(w, ow, col.delta_y as int) as i64,
                    },
                ),
            )
        } else {
            prev
        };
        if moves_other(w, ow) {
            mine.push(
                (
                    t.entity,
                    Resolution {
                        dx: (retained(w, ow, col.delta_x as int) - col.delta_x) as i64,
                        dy: (retained(w, ow, col.delta_y as int) - col.delta_y) as i64,
                    },
                ),
            )
        } else {
            mine
        }
    }
}

proof fn lemma_hits_from(cast: &ShapeCast, q: Seq<EntityInformation>)
    ensures
        forall|i: int|
            0 <= i < hits(cast.pos, cast.shape, cast.mask, cast.not@, q).len() ==> {
                &&& q.contains(#[trigger] hits(cast.pos, cast.shape, cast.mask, cast.not@, q)[i].0)
                &&& penetration(cast.pos, cast.shape, hits(cast.pos, cast.shape, cast.mask, cast.not@, q)[i].0.pos, hits(cast.pos, cast.shape, cast.mask, cast.not@, q)[i].0.shape)
                    matches Some(d) && hits(cast.pos, cast.shape, cast.mask, cast.not@, q)[i].1 == (Collision {
                    delta_x: d.0 as i64,
                    delta_y: d.1 as i64,
                })
            },
    decreases q.len(),
{
    if q.len() > 0 {
        let p = q.drop_last();
        lemma_hits_from(cast, p);
        assert forall|i: int| 0 <= i < hits(cast.pos, cast.shape, cast.mask, cast.not@, q).len() implies q.contains(#[trigger] hits(cast.pos, cast.shape, cast.mask, cast.not@, q)[i].0) by {
            if i < hits(cast.pos, cast.shape, cast.mask, cast.not@, p).len() {
                assert(hits(cast.pos, cast.shape, cast.mask, cast.not@, q)[i] == hits(cast.pos, cast.shape, cast.mask, cast.not@, p)[i]);
                let j = choose|j: int| 0 <= j < p.len() && p[j] == hits(cast.pos, cast.shape, cast.mask, cast.not@, p)[i].0;
                assert(q[j] == p[j]);
            } else {
                assert(q[q.len() - 1] == q.last());
            }
        }
    }
}

proof fn lemma_box_penetration_bound(a_pos: (i64, i64), a_shape: Shape, b_pos: (i64, i64), b_shape: Shape)
    requires
        valid_shape(a_shape),
    ensures
        box_penetration(a_pos, a_shape, b_pos, b_shape) matches Some(d) ==> -2 * MAX_DIM <= d.0 <= 2 * MAX_DIM
            && -2 * MAX_DIM <= d.1 <= 2 * MAX_DIM,
{
}

proof fn lemma_penetration_bound(a_pos: (i64, i64), a_shape: Shape, b_pos: (i64, i64), b_shape: Shape)
    requires
        valid_shape(a_shape),
        valid_shape(b_shape),
    ensures
        penetration(a_pos, a_shape, b_pos, b_shape) matches Some(d) ==> -4 * MAX_DIM <= d.0 <= 4 * MAX_DIM
            && -4 * MAX_DIM <= d.1 <= 4 * MAX_DIM,
{
    lemma_box_penetration_bound(a_pos, a_shape, b_pos, b_shape);
    match (a_shape, b_shape) {
        (Shape::Circle(r1), Shape::Circle(r2)) => {
            let dx = a_pos.0 - b_pos.0;
            let dy = a_pos.1 - b_pos.1;
            let rr = r1 + r2;
            let n = dx * dx + dy * dy;
            if n < rr * rr {
                assert(dx * dx >= 0 && dy * dy >= 0) by (nonlinear_arith);
                lemma_isqrt_exists(n);
                assert(is_isqrt(n, isqrt(n)));
                if isqrt(n) == 0 {
                    assert(circle_penetration(a_pos, r1 as int, b_pos, r2 as int) == Some((-rr, 0int)));
                } else {
                    lemma_circle_bounds(dx, dy, rr);
                    assert(circle_penetration(a_pos, r1 as int, b_pos, r2 as int) == Some(
                        ((dx * rr) / isqrt(n) - dx, (dy * rr) / isqrt(n) - dy),
                    ));
                }
            }
        },
        _ => {},
    }
}

/// Probes the world with `cast` on behalf of `entity`, of weight `w`, and
/// returns the corrections that its hits hand out; `weights` gives the weight
/// of every entity.
pub fn resolve_contacts(
    world: &PhysicWorld,
    entity: usize,
    cast: &ShapeCast,
    w: u64,
    weights: &Vec<u64>,
) -> (r: Vec<(usize, Resolution)>)
    requires
        world.wf(),
        world.ids_below(weights@.len()),
        valid_pos(cast.pos),
        valid_shape(cast.shape),
        w > 0,
        forall|i: int| 0 <= i < weights@.len() ==> #[trigger] weights@[i] > 0,
    ensures
        exists|s: Seq<EntityInformation>, d: Seq<EntityInformation>|
            {
                &&& world.statics.is_query_result(bbox_location(cast.pos, cast.shape), s)
                &&& world.movable.is_query_result(bbox_location(cast.pos, cast.shape), d)
                &&& #[trigger] corrections(entity, w, weights@, hits(cast.pos, cast.shape, cast.mask, cast.not@, s + d)) == r@
            },
        cast.mask == 0 ==> r@.len() == 0,
        forall|k: int| 0 <= k < r@.len() ==> (#[trigger] r@[k]).0 == entity || r@[k].0 < weights@.len(),
{
    let h = world.apply_on_shape(cast);
    let ghost loc = bbox_location(cast.pos, cast.shape);
    let ghost (s, d) = choose|s: Seq<EntityInformation>, d: Seq<EntityInformation>|
        {
            &&& world.statics.is_query_result(loc, s)
            &&& world.movable.is_query_result(loc, d)
            &&& #[trigger] hits(cast.pos, cast.shape, cast.mask, cast.not@, s + d) == h@
        };
    proof {
        lemma_hits_from(cast, s + d);
    }
    let mut r: Vec<(usize, Resolution)> = Vec::new();
    let n = h.len();
    let mut k: usize = 0;
    while k < n
        invariant
            n == h@.len(),
            0 <= k <= n,
            h@ == hits(cast.pos, cast.shape, cast.mask, cast.not@, s + d),
            world.wf(),
            world.ids_below(weights@.len()),
            world.statics.is_query_result(loc, s),
            world.movable.is_query_result(loc, d),
            valid_shape(cast.shape),
            w > 0,
            forall|i: int| 0 <= i < weights@.len() ==> #[trigger] weights@[i] > 0,
            forall|i: int|
                0 <= i < h@.len() ==> {
                    &&& (s + d).contains(#[trigger] h@[i].0)
                    &&& penetration(cast.pos, cast.shape, h@[i].0.pos, h@[i].0.shape) matches Some(dd)
                        && h@[i].1 == (Collision { delta_x: dd.0 as i64, delta_y: dd.1 as i64 })
                },
            r@ == corrections(entity, w, weights@, h@.subrange(0, k as int)),
            forall|j: int| 0 <= j < r@.len() ==> (#[trigger] r@[j]).0 == entity || r@[j].0 < weights@.len(),
        decreases n - k,
    {
        let (t, col) = h[k];
        proof {
            assert(h@.subrange(0, k + 1).drop_last() == h@.subrange(0, k as int));
            assert(h@.subrange(0, k + 1).last() == h@[k as int]);
            assert((s + d).contains(h@[k as int].0));
            let j = choose|j: int| 0 <= j < (s + d).len() && (s + d)[j] == t;
            if j < s.len() {
                assert(world.statics.stored_in_region(loc, s[j]));
                let c = choose|c: CellIndex| in_region(loc, world.statics.spec_unit(), c) && #[trigger] world.statics.bucket(c).contains(s[j]);
                let m = choose|m: int| 0 <= m < world.statics.bucket(c).len() && world.statics.bucket(c)[m] == s[j];
                assert(t.entity < weights@.len());
            } else {
                assert((s + d)[j] == d[j - s.len()]);
                assert(world.movable.stored_in_region(loc, d[j - s.len()]));
                let c = choose|c: CellIndex| in_region(loc, world.movable.spec_unit(), c) && #[trigger] world.movable.bucket(c).contains(d[j - s.len()]);
                let m = choose|m: int| 0 <= m < world.movable.bucket(c).len() && world.movable.bucket(c)[m] == d[j - s.len()];
                assert(t.entity < weights@.len());
            }
            assert(valid_shape(t.shape));
            lemma_penetration_bound(cast.pos, cast.shape, t.pos, t.shape);
        }
        let ow = weights[t.entity];
        let (mine, theirs) = split_collision(w, ow, col);
        match mine {
            Some(m) => {
                r.push((entity, m));
            },
            None => {},
        }
        match theirs {
            Some(o) => {
                r.push((t.entity, o));
            },
            None => {},
        }
        k = k + 1;
    }
    proof {
        assert(h@.subrange(0, n as int) == h@);
        if cast.mask == 0 {
            lemma_no_hits_without_mask(cast, s + d);
        }
    }
    r
}

/// One entity of the simulation, with its optional damping and driving force.
#[derive(Clone, Copy, Debug, PartialEq, Eq)]
pub struct Body {
    pub state: PhysicState,
    pub damping: Option<i64>,
    pub force: Option<(i64, i64)>,
    pub typ: PhysicType,
    pub dynamic: bool,
}

/// A body that a step of `dt` can advance: positive weight, valid shape and
/// position, and, for a moving body, a representable integration step.
pub open spec fn valid_body(b: Body, dt: i64) -> bool {
    &&& b.typ.weight > 0
    &&& valid_shape(b.typ.shape)
    &&& valid_pos(b.state.pos)
    &&& b.dynamic ==> integration_fits(b.state, b.damping, b.force, b.typ.weight, dt)
}

/// The state of a body once integrated, before any correction.
pub open spec fn moved(b: Body, dt: i64) -> PhysicState {
    if b.dynamic {
        integrated(b.state, b.damping, b.force, b.typ.weight, dt)
    } else {
        b.state
    }
}

/// The state after a correction: the position moves by it, held within
/// `MAX_COORD`, and the velocity reacts by behaviour.
pub open spec fn settled(s: PhysicState, r: Option<Resolution>, behavior: CollisionBehavior) -> PhysicState {
    match r {
        None => s,
        Some(r) => PhysicState {
            pos: (clamp_coord(s.pos.0 + r.dx) as i64, clamp_coord(s.pos.1 + r.dy) as i64),
            vel: reacted(s.vel, behavior),
            acc: s.acc,
        },
    }
}

pub open spec fn info_of(entity: usize, pos: (i64, i64), typ: PhysicType) -> EntityInformation {
    EntityInformation { entity: entity, pos: pos, group: typ.group, mask: typ.mask, shape: typ.shape }
}

/// The world after a step for the occupants of `bodies`.
pub open spec fn holds_dynamic(world: PhysicWorld, bodies: Seq<Body>) -> bool {
    forall|i: int, c: CellIndex|
        0 <= i < bodies.len() && bodies[i].dynamic && in_region(
            bbox_location(bodies[i].state.pos, bodies[i].typ.shape),
            world.movable.spec_unit(),
            c,
        ) ==> #[trigger] world.movable.bucket(c).contains(
            info_of(i as usize, bodies[i].state.pos, bodies[i].typ),
        )
}

/// Every record of the moving hash is the final record of a moving body.
pub open spec fn only_final_records(world: PhysicWorld, bodies: Seq<Body>) -> bool {
    forall|c: CellIndex, k: int|
        0 <= k < world.movable.bucket(c).len() ==> is_final_record(bodies, #[trigger] world.movable.bucket(c)[k])
}

/// The weight of every body, by entity.
pub open spec fn weights_of(bodies: Seq<Body>) -> Seq<u64> {
    Seq::new(bodies.len(), |j: int| bodies[j].typ.weight)
}

/// The record of body `i` once it has been integrated.
pub open spec fn moved_record(b: Body, i: int, dt: i64) -> EntityInformation {
    info_of(i as usize, moved(b, dt).pos, b.typ)
}

/// The moving hash after body `i` of the sweep has had its turn: a moving body
/// adds its integrated record to the cells of its box; any other body leaves
/// the hash as it was.
pub open spec fn sweep_step(
    before: SpatialHashing<EntityInformation>,
    after: SpatialHashing<EntityInformation>,
    b: Body,
    i: int,
    dt: i64,
) -> bool {
    &&& after.spec_unit() == before.spec_unit()
    &&& forall|c: CellIndex|
        #[trigger] after.bucket(c) == if b.dynamic && in_region(
            bbox_location(moved(b, dt).pos, b.typ.shape),
            before.spec_unit(),
            c,
        ) {
            before.bucket(c).push(moved_record(b, i, dt))
        } else {
            before.bucket(c)
        }
}

/// The corrections handed out by body `i`'s probe, made when the moving hash
/// was `movable`: a moving body with a non-zero mask probes at its integrated
/// position, ignoring itself, and hands out the corrections of its hits; any
/// other body hands out none.
pub open spec fn probe_piece(
    statics: SpatialHashing<EntityInformation>,
    movable: SpatialHashing<EntityInformation>,
    b: Body,
    i: int,
    weights: Seq<u64>,
    dt: i64,
    piece: Seq<(usize, Resolution)>,
) -> bool {
    if b.dynamic && b.typ.mask != 0 {
        let pos = moved(b, dt).pos;
        let loc = bbox_location(pos, b.typ.shape);
        exists|s: Seq<EntityInformation>, d: Seq<EntityInformation>|
            {
                &&& statics.is_query_result(loc, s)
                &&& movable.is_query_result(loc, d)
                &&& #[trigger] corrections(
                    i as usize,
                    b.typ.weight,
                    weights,
                    hits(pos, b.typ.shape, b.typ.mask, seq![i as usize], s + d),
                ) == piece
            }
    } else {
        piece.len() == 0
    }
}

/// The sweep of a step over `bodies`, in order: `mids[i]` is the moving hash
/// that body `i` probed, starting from `world`'s, and `pieces[i]` the
/// corrections that its probe handed out.
pub open spec fn sweep(
    world: PhysicWorld,
    bodies: Seq<Body>,
    dt: i64,
    mids: Seq<SpatialHashing<EntityInformation>>,
    pieces: Seq<Seq<(usize, Resolution)>>,
) -> bool {
    &&& pieces.len() == bodies.len()
    &&& mids.len() == bodies.len() + 1
    &&& mids[0] == world.movable
    &&& forall|i: int|
        0 <= i < bodies.len() ==> #[trigger] sweep_step(mids[i], mids[i + 1], bodies[i], i, dt)
    &&& forall|i: int|
        0 <= i < bodies.len() ==> #[trigger] probe_piece(
            world.statics,
            mids[i],
            bodies[i],
            i,
            weights_of(bodies),
            dt,
            pieces[i],
        )
}

/// `t` is the final record of a moving body of `bodies`.
pub open spec fn is_final_record(bodies: Seq<Body>, t: EntityInformation) -> bool {
    &&& t.entity < bodies.len()
    &&& bodies[t.entity as int].dynamic
    &&& t == info_of(t.entity, bodies[t.entity as int].state.pos, bodies[t.entity as int].typ)
}

pub open spec fn with_state(b: Body, s: PhysicState) -> Body {
    Body { state: s, damping: b.damping, force: b.force, typ: b.typ, dynamic: b.dynamic }
}

proof fn lemma_insert_keeps_ids(before: PhysicWorld, after: PhysicWorld, info: EntityInformation, n: nat)
    requires
        before.ids_below(n),
        info.entity < n,
        after.statics == before.statics,
        forall|c: CellIndex|
            #[trigger] after.movable.bucket(c) == if in_region(
                bbox_location(info.pos, info.shape),
                before.movable.spec_unit(),
                c,
            ) {
                before.movable.bucket(c).push(info)
            } else {
                before.movable.bucket(c)
            },
    ensures
        after.ids_below(n),
{
    assert forall|c: CellIndex, i: int|
        0 <= i < after.movable.bucket(c).len() implies (#[trigger] after.movable.bucket(c)[i]).entity < n by {
        if in_region(bbox_location(info.pos, info.shape), before.movable.spec_unit(), c) && i
            == before.movable.bucket(c).len() {
        } else {
            assert(after.movable.bucket(c)[i] == before.movable.bucket(c)[i]);
        }
    }
}

/// One step of the simulation over `bodies`, where an entity is its index.
/// Each moving body in turn is integrated over `dt`; unless its mask is zero it
/// probes the world at its new position, ignoring itself, and every hit hands
/// out corrections by weight; then its new footprint joins the moving
/// occupants, where later probes of the same step see it. Once all have moved,
/// each body's corrections, summed, are applied to its position and its
/// velocity reacts; the moving occupants are then rebuilt from the final
/// positions. Returns the summed correction of each body.
pub fn tick(world: &mut PhysicWorld, bodies: &mut Vec<Body>, dt: i64) -> (r: Vec<Option<Resolution>>)
    requires
        old(world).wf(),
        old(world).ids_below(old(bodies)@.len()),
        forall|i: int| 0 <= i < old(bodies)@.len() ==> valid_body(#[trigger] old(bodies)@[i], dt),
    ensures
        final(world).wf(),
        final(world).ids_below(old(bodies)@.len()),
        final(world).statics == old(world).statics,
        final(bodies)@.len() == old(bodies)@.len(),
        r@.len() == old(bodies)@.len(),
        exists|mids: Seq<SpatialHashing<EntityInformation>>, pieces: Seq<Seq<(usize, Resolution)>>|
            {
                &&& #[trigger] sweep(*old(world), old(bodies)@, dt, mids, pieces)
                &&& accumulated(no_corrections(old(bodies)@.len()), pieces.flatten()) == r@
            },
        forall|i: int|
            0 <= i < old(bodies)@.len() ==> #[trigger] final(bodies)@[i] == with_state(
                old(bodies)@[i],
                settled(moved(old(bodies)@[i], dt), r@[i], old(bodies)@[i].typ.collision),
            ),
        holds_dynamic(*final(world), final(bodies)@),
        only_final_records(*final(world), final(bodies)@),
{
    let n = bodies.len();
    let ghost start = bodies@;
    let mut weights: Vec<u64> = Vec::new();
    let mut totals: Vec<Option<Resolution>> = Vec::new();
    let mut i: usize = 0;
    while i < n
        invariant
            n == bodies@.len(),
            bodies@ == start,
            0 <= i <= n,
            weights@.len() == i,
            totals@.len() == i,
            forall|j: int| 0 <= j < i ==> #[trigger] weights@[j] == start[j].typ.weight,
            forall|j: int| 0 <= j < i ==> (#[trigger] totals@[j]) is None,
        decreases n - i,
    {
        weights.push(bodies[i].typ.weight);
        totals.push(None);
        i = i + 1;
    }
    proof {
        assert forall|j: int| 0 <= j < weights@.len() implies #[trigger] weights@[j] > 0 by {
            assert(valid_body(start[j], dt));
        }
    }
    assert(weights@ =~= weights_of(start));
    let ghost init = no_corrections(n as nat);
    let ghost mut mids: Seq<SpatialHashing<EntityInformation>> = seq![world.movable];
    let ghost mut log: Seq<(usize, Resolution)> = Seq::empty();
    let ghost mut pieces: Seq<Seq<(usize, Resolution)>> = Seq::empty();
    proof {
        assert(totals@ =~= init);
    }
    i = 0;
    while i < n
        invariant
            n == bodies@.len(),
            n == start.len(),
            0 <= i <= n,
            weights@.len() == n,
            totals@.len() == n,
            forall|j: int| 0 <= j < n ==> #[trigger] weights@[j] > 0,
            forall|j: int| 0 <= j < n ==> valid_body(#[trigger] start[j], dt),
            forall|j: int|
                0 <= j < n ==> #[trigger] bodies@[j] == if j < i {
                    with_state(start[j], moved(start[j], dt))
                } else {
                    start[j]
                },
            world.wf(),
            world.ids_below(n as nat),
            world.statics == old(world).statics,
            init.len() == n,
            totals@ == accumulated(init, log),
            forall|k: int| 0 <= k < log.len() ==> (#[trigger] log[k]).0 < n,
            pieces.len() == i,
            log == pieces.flatten(),
            forall|j: int|
                0 <= j < i && (!start[j].dynamic || start[j].typ.mask == 0) ==> (#[trigger] pieces[j]).len() == 0,
            forall|j: int, k: int| 0 <= j < i && 0 <= k < pieces[j].len() ==> (#[trigger] pieces[j][k]).0 < n,
            weights@ == weights_of(start),
            mids.len() == i + 1,
            mids[0] == old(world).movable,
            mids[i as int] == world.movable,
            forall|j: int| 0 <= j < i ==> #[trigger] sweep_step(mids[j], mids[j + 1], start[j], j, dt),
            forall|j: int|
                0 <= j < i ==> #[trigger] probe_piece(
                    old(world).statics,
                    mids[j],
                    start[j],
                    j,
                    weights_of(start),
                    dt,
                    pieces[j],
                ),
        decreases n - i,
    {
        let b = bodies[i];
        assert(valid_body(start[i as int], dt));
        let ghost pieces_before = pieces;
        let ghost mids_before = mids;
        if b.dynamic {
            let mut st = b.state;
            integrate(&mut st, b.damping, b.force, b.typ.weight, dt);
            bodies[i] = Body { state: st, damping: b.damping, force: b.force, typ: b.typ, dynamic: b.dynamic };
            if b.typ.mask != 0 {
                let mut not: Vec<usize> = Vec::new();
                not.push(i);
                assert(not@ =~= seq![i]);
                let cast = ShapeCast { pos: st.pos, shape: b.typ.shape, mask: b.typ.mask, group: b.typ.group, not: not };
                let corr = resolve_contacts(world, i, &cast, b.typ.weight, &weights);
                assert(probe_piece(old(world).statics, mids[i as int], start[i as int], i as int, weights_of(start), dt, corr@));
                let ghost tb = totals@;
                accumulate_all(&mut totals, &corr);
                proof {
                    lemma_accumulated_len(tb, corr@);
                    lemma_accumulated_concat(init, log, corr@);
                    let nl = log + corr@;
                    assert forall|k: int| 0 <= k < nl.len() implies (#[trigger] nl[k]).0 < n by {
                        if k < log.len() {
                            assert(nl[k] == log[k]);
                        } else {
                            assert(nl[k] == corr@[k - log.len()]);
                        }
                    }
                    log = nl;
                    pieces.lemma_flatten_push(corr@);
                    pieces = pieces.push(corr@);
                    assert(forall|k: int| 0 <= k < pieces[i as int].len() ==> (#[trigger] pieces[i as int][k]).0 < n);
                    assert(pieces.len() == i + 1);
                }
            }
            let info = EntityInformation { entity: i, pos: st.pos, group: b.typ.group, mask: b.typ.mask, shape: b.typ.shape };
            let ghost before = *world;
            world.insert_dynamic(info);
            proof {
                lemma_insert_keeps_ids(before, *world, info, n as nat);
                assert(info == moved_record(start[i as int], i as int, dt));
                mids = mids.push(world.movable);
                assert(sweep_step(mids[i as int], mids[i + 1], start[i as int], i as int, dt));
            }
        } else {
            proof {
                mids = mids.push(world.movable);
                assert(sweep_step(mids[i as int], mids[i + 1], start[i as int], i as int, dt));
            }
        }
        proof {
            if pieces.len() == i {
                pieces.lemma_flatten_push(Seq::empty());
                assert(log + Seq::<(usize, Resolution)>::empty() =~= log);
                pieces = pieces.push(Seq::empty());
            }
            assert forall|j: int|
                0 <= j < i + 1 && (!start[j].dynamic || start[j].typ.mask == 0) implies (#[trigger] pieces[j]).len() == 0 by {
                if j < i {
                    assert(pieces[j] == pieces_before[j]);
                }
            }
            assert forall|j: int, k: int| 0 <= j < i + 1 && 0 <= k < pieces[j].len() implies (#[trigger] pieces[j][k]).0 < n by {
                if j < i {
                    assert(pieces[j] == pieces_before[j]);
                }
            }
            assert(probe_piece(old(world).statics, mids[i as int], start[i as int], i as int, weights_of(start), dt, pieces[i as int]));
            assert forall|j: int| 0 <= j < i + 1 implies #[trigger] sweep_step(mids[j], mids[j + 1], start[j], j, dt) by {
                if j < i {
                    assert(mids[j] == mids_before[j] && mids[j + 1] == mids_before[j + 1]);
                }
            }
            assert forall|j: int|
                0 <= j < i + 1 implies #[trigger] probe_piece(
                    old(world).statics,
                    mids[j],
                    start[j],
                    j,
                    weights_of(start),
                    dt,
                    pieces[j],
                ) by {
                if j < i {
                    assert(mids[j] == mids_before[j] && pieces[j] == pieces_before[j]);
                }
            }
            assert forall|j: int|
                0 <= j < n implies #[trigger] bodies@[j] == if j < i + 1 {
                    with_state(start[j], moved(start[j], dt))
                } else {
                    start[j]
                } by {
                if j == i && !b.dynamic {
                    assert(with_state(start[j], moved(start[j], dt)) == start[j]);
                }
            }
        }
        i = i + 1;
    }
    proof {
        assert(sweep(*old(world), start, dt, mids, pieces));
    }
    i = 0;
    while i < n
        invariant
            n == bodies@.len(),
            n == start.len(),
            0 <= i <= n,
            totals@.len() == n,
            totals@ == accumulated(init, log),
            forall|k: int| 0 <= k < log.len() ==> (#[trigger] log[k]).0 < n,
            pieces.len() == n,
            log == pieces.flatten(),
            sweep(*old(world), start, dt, mids, pieces),
            forall|j: int|
                0 <= j < n && (!start[j].dynamic || start[j].typ.mask == 0) ==> (#[trigger] pieces[j]).len() == 0,
            forall|j: int, k: int| 0 <= j < n && 0 <= k < pieces[j].len() ==> (#[trigger] pieces[j][k]).0 < n,
            forall|j: int| 0 <= j < n ==> valid_body(#[trigger] start[j], dt),
            forall|j: int|
                0 <= j < n ==> #[trigger] bodies@[j] == if j < i {
                    with_state(start[j], settled(moved(start[j], dt), totals@[j], start[j].typ.collision))
                } else {
                    with_state(start[j], moved(start[j], dt))
                },
        decreases n - i,
    {
        let b = bodies[i];
        match totals[i] {
            Some(res) => {
                let px = clamp_coord_exec(b.state.pos.0, res.dx);
                let py = clamp_coord_exec(b.state.pos.1, res.dy);
                let v = react(b.state.vel, b.typ.collision);
                let st = PhysicState { pos: (px, py), vel: v, acc: b.state.acc };
                bodies[i] = Body { state: st, damping: b.damping, force: b.force, typ: b.typ, dynamic: b.dynamic };
            },
            None => {},
        }
        i = i + 1;
    }
    world.clear_dynamic();
    proof {
        assert forall|c: CellIndex, k: int|
            0 <= k < world.movable.bucket(c).len() implies (#[trigger] world.movable.bucket(c)[k]).entity < n by {
        }
    }
    i = 0;
    while i < n
        invariant
            n == bodies@.len(),
            n == start.len(),
            0 <= i <= n,
            totals@.len() == n,
            totals@ == accumulated(init, log),
            forall|k: int| 0 <= k < log.len() ==> (#[trigger] log[k]).0 < n,
            pieces.len() == n,
            log == pieces.flatten(),
            sweep(*old(world), start, dt, mids, pieces),
            forall|j: int|
                0 <= j < n && (!start[j].dynamic || start[j].typ.mask == 0) ==> (#[trigger] pieces[j]).len() == 0,
            forall|j: int, k: int| 0 <= j < n && 0 <= k < pieces[j].len() ==> (#[trigger] pieces[j][k]).0 < n,
            forall|j: int| 0 <= j < n ==> valid_body(#[trigger] start[j], dt),
            forall|j: int|
                0 <= j < n ==> #[trigger] bodies@[j] == with_state(
                    start[j],
                    settled(moved(start[j], dt), totals@[j], start[j].typ.collision),
                ),
            world.wf(),
            world.ids_below(n as nat),
            world.statics == old(world).statics,
            forall|j: int, c: CellIndex|
                0 <= j < i && bodies@[j].dynamic && in_region(
                    bbox_location(bodies@[j].state.pos, bodies@[j].typ.shape),
                    world.movable.spec_unit(),
                    c,
                ) ==> #[trigger] world.movable.bucket(c).contains(
                    info_of(j as usize, bodies@[j].state.pos, bodies@[j].typ),
                ),
            forall|c: CellIndex, k: int|
                0 <= k < world.movable.bucket(c).len() ==> (#[trigger] world.movable.bucket(c)[k]).entity < i
                    && is_final_record(bodies@, world.movable.bucket(c)[k]),
        decreases n - i,
    {
        let b = bodies[i];
        if b.dynamic {
            assert(valid_body(start[i as int], dt));
            let info = EntityInformation { entity: i, pos: b.state.pos, group: b.typ.group, mask: b.typ.mask, shape: b.typ.shape };
            let ghost before = *world;
            world.insert_dynamic(info);
            proof {
                lemma_insert_keeps_ids(before, *world, info, n as nat);
                assert forall|j: int, c: CellIndex|
                    0 <= j < i + 1 && bodies@[j].dynamic && in_region(
                        bbox_location(bodies@[j].state.pos, bodies@[j].typ.shape),
                        world.movable.spec_unit(),
                        c,
                    ) implies #[trigger] world.movable.bucket(c).contains(
                        info_of(j as usize, bodies@[j].state.pos, bodies@[j].typ),
                    ) by {
                    if j == i {
                        assert(world.movable.bucket(c)[before.movable.bucket(c).len() as int] == info);
                    } else {
                        let x = info_of(j as usize, bodies@[j].state.pos, bodies@[j].typ);
                        assert(before.movable.bucket(c).contains(x));
                        let m = choose|m: int| 0 <= m < before.movable.bucket(c).len() && before.movable.bucket(c)[m] == x;
                        assert(world.movable.bucket(c)[m] == x);
                    }
                }
                assert forall|c: CellIndex, k: int|
                    0 <= k < world.movable.bucket(c).len() implies (#[trigger] world.movable.bucket(c)[k]).entity < i + 1
                        && is_final_record(bodies@, world.movable.bucket(c)[k]) by {
                    if k < before.movable.bucket(c).len() {
                        assert(world.movable.bucket(c)[k] == before.movable.bucket(c)[k]);
                    }
                }
            }
        }
        i = i + 1;
    }
    totals
}

/// Integrating one body touches no other: advancing `a` then `b` gives the
/// same bodies as advancing `b` then `a`.
pub proof fn lemma_integration_order_free(s: Seq<Body>, a: int, b: int, dt: i64)
    requires
        0 <= a < s.len(),
        0 <= b < s.len(),
        a != b,
    ensures
        s.update(a, with_state(s[a], moved(s[a], dt))).update(b, with_state(s[b], moved(s[b], dt)))
            == s.update(b, with_state(s[b], moved(s[b], dt))).update(a, with_state(s[a], moved(s[a], dt))),
{
    assert(s.update(a, with_state(s[a], moved(s[a], dt))).update(b, with_state(s[b], moved(s[b], dt)))
        =~= s.update(b, with_state(s[b], moved(s[b], dt))).update(a, with_state(s[a], moved(s[a], dt))));
}

/// Two corrections added to a total in either order give the same total,
/// as long as no sum leaves the range of `i64`.
pub proof fn lemma_accumulation_order_free(t: Option<Resolution>, x: Resolution, y: Resolution)
    requires
        i64::MIN <= x.dx + y.dx <= i64::MAX,
        i64::MIN <= x.dy + y.dy <= i64::MAX,
        t matches Some(t) ==> {
            &&& i64::MIN <= t.dx + x.dx <= i64::MAX
            &&& i64::MIN <= t.dx + y.dx <= i64::MAX
            &&& i64::MIN <= t.dx + x.dx + y.dx <= i64::MAX
            &&& i64::MIN <= t.dy + x.dy <= i64::MAX
            &&& i64::MIN <= t.dy + y.dy <= i64::MAX
            &&& i64::MIN <= t.dy + x.dy + y.dy <= i64::MAX
        },
    ensures
        accumulate(accumulate(t, x), y) == accumulate(accumulate(t, y), x),
{
}

} // verus!
