use crate::levels::Level;
use vstd::prelude::*;

verus! {

broadcast use vstd::string::to_string_from_display_ensures_for_str;

/// Largest corridor or hall length, and largest number of exits, of a layout.
pub const MAX_LENGTH: i64 = 1048576;

/// Something a level layout puts in the world. Text positions are in quarters
/// of a cell; a title is drawn large, other text at the usual font size.
#[derive(Clone, Debug)]
pub enum Placement {
    Wall(i64, i64),
    Character(i64, i64),
    Portal(i64, i64, Level),
    Text { x4: i64, y4: i64, title: bool, text: String },
    CameraText(String),
}

/// The portals of a layout, in order, with their destinations.
pub open spec fn portals(s: Seq<Placement>) -> Seq<(i64, i64, Level)>
    decreases s.len(),
{
    if s.len() == 0 {
        Seq::empty()
    } else {
        match s.last() {
            Placement::Portal(x, y, l) => portals(s.drop_last()).push((x, y, l)),
            _ => portals(s.drop_last()),
        }
    }
}

/// The characters of a layout, in order.
pub open spec fn characters(s: Seq<Placement>) -> Seq<(i64, i64)>
    decreases s.len(),
{
    if s.len() == 0 {
        Seq::empty()
    } else {
        match s.last() {
            Placement::Character(x, y) => characters(s.drop_last()).push((x, y)),
            _ => characters(s.drop_last()),
        }
    }
}

/// The texts of a layout, in order.
pub open spec fn texts(s: Seq<Placement>) -> Seq<(i64, i64, bool, Seq<char>)>
    decreases s.len(),
{
    if s.len() == 0 {
        Seq::empty()
    } else {
        match s.last() {
            Placement::Text { x4, y4, title, text } => texts(s.drop_last()).push((x4, y4, title, text@)),
            _ => texts(s.drop_last()),
        }
    }
}

/// Every wall of `s` lies in the rectangle `[lx, hx] x [ly, hy]`.
pub open spec fn walls_within(s: Seq<Placement>, lx: int, hx: int, ly: int, hy: int) -> bool {
    forall|i: int|
        0 <= i < s.len() ==> match #[trigger] s[i] {
            Placement::Wall(x, y) => lx <= x <= hx && ly <= y <= hy,
            _ => true,
        }
}

/// `s` has a wall at (`x`, `y`).
pub open spec fn has_wall(s: Seq<Placement>, x: int, y: int) -> bool {
    exists|i: int| 0 <= i < s.len() && #[trigger] s[i] == Placement::Wall(x as i64, y as i64)
}

pub open spec fn wall_in(p: Placement, lx: int, hx: int, ly: int, hy: int) -> bool {
    match p {
        Placement::Wall(x, y) => lx <= x <= hx && ly <= y <= hy,
        _ => true,
    }
}

/// A wall at (`x`, `y`) and another two cells above it.
pub open spec fn floor_and_ceiling(s: Seq<Placement>, x: int, y: int) -> bool {
    has_wall(s, x, y) && has_wall(s, x, y + 2)
}

fn put(v: &mut Vec<Placement>, p: Placement, lx: Ghost<int>, hx: Ghost<int>, ly: Ghost<int>, hy: Ghost<int>)
    requires
        walls_within(old(v)@, lx@, hx@, ly@, hy@),
        wall_in(p, lx@, hx@, ly@, hy@),
    ensures
        final(v)@ == old(v)@.push(p),
        portals(final(v)@) == match p {
            Placement::Portal(x, y, l) => portals(old(v)@).push((x, y, l)),
            _ => portals(old(v)@),
        },
        characters(final(v)@) == match p {
            Placement::Character(x, y) => characters(old(v)@).push((x, y)),
            _ => characters(old(v)@),
        },
        texts(final(v)@) == match p {
            Placement::Text { x4, y4, title, text } => texts(old(v)@).push((x4, y4, title, text@)),
            _ => texts(old(v)@),
        },
        walls_within(final(v)@, lx@, hx@, ly@, hy@),
        p matches Placement::Wall(x, y) ==> has_wall(final(v)@, x as int, y as int),
        forall|a: int, b: int| has_wall(old(v)@, a, b) ==> has_wall(final(v)@, a, b),
{
    let ghost before = v@;
    let ghost q = p;
    v.push(p);
    proof {
        assert(v@.drop_last() == before);
        assert(v@[before.len() as int] == q);
        assert forall|i: int| 0 <= i < v@.len() implies match #[trigger] v@[i] {
            Placement::Wall(x, y) => lx@ <= x <= hx@ && ly@ <= y <= hy@,
            _ => true,
        } by {
            if i < before.len() {
                assert(v@[i] == before[i]);
            }
        }
        assert forall|a: int, b: int| has_wall(before, a, b) implies has_wall(v@, a, b) by {
            let i = choose|i: int| 0 <= i < before.len() && #[trigger] before[i] == Placement::Wall(a as i64, b as i64);
            assert(v@[i] == before[i]);
        }
    }
}

fn put_wall(v: &mut Vec<Placement>, x: i64, y: i64, lx: Ghost<int>, hx: Ghost<int>, ly: Ghost<int>, hy: Ghost<int>)
    requires
        walls_within(old(v)@, lx@, hx@, ly@, hy@),
        lx@ <= x <= hx@,
        ly@ <= y <= hy@,
    ensures
        final(v)@ == old(v)@.push(Placement::Wall(x, y)),
        portals(final(v)@) == portals(old(v)@),
        characters(final(v)@) == characters(old(v)@),
        texts(final(v)@) == texts(old(v)@),
        walls_within(final(v)@, lx@, hx@, ly@, hy@),
        has_wall(final(v)@, x as int, y as int),
        forall|a: int, b: int| has_wall(old(v)@, a, b) ==> has_wall(final(v)@, a, b),
{
    put(v, Placement::Wall(x, y), lx, hx, ly, hy);
}

/// The room of a text level: the text shown on screen, a floor and a ceiling
/// from `left` to `right - 6`, the character at the left end and a portal to
/// `next` at the right end, each closed by a wall.
pub fn text_level_layout(next: Level, text: String, left: i64, right: i64, bottom: i64) -> (r: Vec<Placement>)
    requires
        -MAX_LENGTH <= left < right - 6,
        right <= MAX_LENGTH,
        -MAX_LENGTH <= bottom <= MAX_LENGTH,
    ensures
        characters(r@) == seq![((left + 1) as i64, (bottom + 1) as i64)],
        portals(r@) == seq![((right - 7) as i64, (bottom + 1) as i64, next)],
        texts(r@) == Seq::<(i64, i64, bool, Seq<char>)>::empty(),
        r@.len() > 0 && (r@[0] matches Placement::CameraText(t) && t@ == text@),
        walls_within(r@, left as int, right - 6, bottom as int, bottom + 2),
        has_wall(r@, left as int, bottom + 1),
        has_wall(r@, right - 6, bottom + 1),
        forall|x: int| left <= x < right - 5 ==> #[trigger] floor_and_ceiling(r@, x, bottom as int),
{
    let ghost lx = left as int;
    let ghost hx = right - 6;
    let ghost ly = bottom as int;
    let ghost hy = bottom + 2;
    let mut v: Vec<Placement> = Vec::new();
    let ghost t = text@;
    put(&mut v, Placement::CameraText(text), Ghost(lx), Ghost(hx), Ghost(ly), Ghost(hy));
    put(&mut v, Placement::Character(left + 1, bottom + 1), Ghost(lx), Ghost(hx), Ghost(ly), Ghost(hy));
    put(&mut v, Placement::Portal(right - 7, bottom + 1, next), Ghost(lx), Ghost(hx), Ghost(ly), Ghost(hy));
    assert(v@[0] matches Placement::CameraText(s) && s@ == t);
    let ghost head = v@[0];
    let ghost p0 = v@;
    put_wall(&mut v, left, bottom + 1, Ghost(lx), Ghost(hx), Ghost(ly), Ghost(hy));
    put_wall(&mut v, right - 6, bottom + 1, Ghost(lx), Ghost(hx), Ghost(ly), Ghost(hy));
    assert(v@[0] == p0[0]);
    let mut x: i64 = left;
    while x < right - 5
        invariant
            left <= x <= right - 5,
            right <= MAX_LENGTH,
            -MAX_LENGTH <= bottom <= MAX_LENGTH,
            lx == left && hx == right - 6 && ly == bottom && hy == bottom + 2,
            v@.len() > 0 && v@[0] == head,
            characters(v@) == seq![((left + 1) as i64, (bottom + 1) as i64)],
            portals(v@) == seq![((right - 7) as i64, (bottom + 1) as i64, next)],
            texts(v@) == Seq::<(i64, i64, bool, Seq<char>)>::empty(),
            walls_within(v@, lx, hx, ly, hy),
            has_wall(v@, left as int, bottom + 1),
            has_wall(v@, right - 6, bottom + 1),
            forall|z: int| left <= z < x ==> #[trigger] floor_and_ceiling(v@, z, bottom as int),
        decreases right - 5 - x,
    {
        let ghost b0 = v@;
        put_wall(&mut v, x, bottom + 2, Ghost(lx), Ghost(hx), Ghost(ly), Ghost(hy));
        let ghost b1 = v@;
        put_wall(&mut v, x, bottom, Ghost(lx), Ghost(hx), Ghost(ly), Ghost(hy));
        proof {
            assert(has_wall(b1, x as int, bottom + 2));
            assert(has_wall(v@, x as int, bottom + 2));
            assert forall|z: int| left <= z < x + 1 implies #[trigger] floor_and_ceiling(v@, z, bottom as int) by {
                if z < x {
                    assert(floor_and_ceiling(b0, z, bottom as int));
                    assert(floor_and_ceiling(b1, z, bottom as int));
                }
            }
        }
        x = x + 1;
    }
    v
}

fn wall_row(
    v: &mut Vec<Placement>,
    from: i64,
    to: i64,
    y: i64,
    lx: Ghost<int>,
    hx: Ghost<int>,
    ly: Ghost<int>,
    hy: Ghost<int>,
)
    requires
        walls_within(old(v)@, lx@, hx@, ly@, hy@),
        from < to ==> lx@ <= from && to - 1 <= hx@,
        ly@ <= y <= hy@,
        -MAX_LENGTH * 4 <= from,
        to <= MAX_LENGTH * 4,
    ensures
        portals(final(v)@) == portals(old(v)@),
        characters(final(v)@) == characters(old(v)@),
        texts(final(v)@) == texts(old(v)@),
        walls_within(final(v)@, lx@, hx@, ly@, hy@),
        forall|x: int| from <= x < to ==> has_wall(final(v)@, x, y as int),
        forall|a: int, b: int| has_wall(old(v)@, a, b) ==> has_wall(final(v)@, a, b),
{
    let mut x: i64 = from;
    let ghost start = v@;
    while x < to
        invariant
            from <= to ==> from <= x <= to,
            from > to ==> x == from,
            from < to ==> lx@ <= from && to - 1 <= hx@,
            ly@ <= y <= hy@,
            to <= MAX_LENGTH * 4,
            portals(v@) == portals(start),
            characters(v@) == characters(start),
            texts(v@) == texts(start),
            walls_within(v@, lx@, hx@, ly@, hy@),
            forall|z: int| from <= z < x ==> has_wall(v@, z, y as int),
            forall|a: int, b: int| has_wall(start, a, b) ==> has_wall(v@, a, b),
        decreases to - x,
    {
        let ghost b0 = v@;
        put_wall(v, x, y, lx, hx, ly, hy);
        proof {
            assert forall|z: int| from <= z < x + 1 implies has_wall(v@, z, y as int) by {
                if z < x {
                    assert(has_wall(b0, z, y as int));
                }
            }
        }
        x = x + 1;
    }
}

fn wall_column(
    v: &mut Vec<Placement>,
    x: i64,
    from: i64,
    to: i64,
    lx: Ghost<int>,
    hx: Ghost<int>,
    ly: Ghost<int>,
    hy: Ghost<int>,
)
    requires
        walls_within(old(v)@, lx@, hx@, ly@, hy@),
        from < to ==> ly@ <= from && to - 1 <= hy@,
        lx@ <= x <= hx@,
        -MAX_LENGTH * 4 <= from,
        to <= MAX_LENGTH * 4,
    ensures
        portals(final(v)@) == portals(old(v)@),
        characters(final(v)@) == characters(old(v)@),
        texts(final(v)@) == texts(old(v)@),
        walls_within(final(v)@, lx@, hx@, ly@, hy@),
        forall|y: int| from <= y < to ==> has_wall(final(v)@, x as int, y),
        forall|a: int, b: int| has_wall(old(v)@, a, b) ==> has_wall(final(v)@, a, b),
{
    let mut y: i64 = from;
    let ghost start = v@;
    while y < to
        invariant
            from <= to ==> from <= y <= to,
            from > to ==> y == from,
            from < to ==> ly@ <= from && to - 1 <= hy@,
            lx@ <= x <= hx@,
            to <= MAX_LENGTH * 4,
            portals(v@) == portals(start),
            characters(v@) == characters(start),
            texts(v@) == texts(start),
            walls_within(v@, lx@, hx@, ly@, hy@),
            forall|z: int| from <= z < y ==> has_wall(v@, x as int, z),
            forall|a: int, b: int| has_wall(start, a, b) ==> has_wall(v@, a, b),
        decreases to - y,
    {
        let ghost b0 = v@;
        put_wall(v, x, y, lx, hx, ly, hy);
        proof {
            assert forall|z: int| from <= z < y + 1 implies has_wall(v@, x as int, z) by {
                if z < y {
                    assert(has_wall(b0, x as int, z));
                }
            }
        }
        y = y + 1;
    }
}

/// The portals that a corridor offers, one per exit, stacked downwards two
/// cells apart at the far end of the hall.
pub open spec fn exit_portals(levels: Seq<(String, Level)>, c: int, h: int) -> Seq<(i64, i64, Level)> {
    Seq::new(levels.len(), |i: int| ((h + c) as i64, (-2 * i) as i64, levels[i].1))
}

/// The name of each exit, written beyond its portal.
pub open spec fn exit_names(levels: Seq<(String, Level)>, c: int, h: int) -> Seq<(i64, i64, bool, Seq<char>)> {
    Seq::new(levels.len(), |i: int| ((4 * (h + c) + 10) as i64, (-8 * i + 1) as i64, false, levels[i].0@))
}

/// The portal bay of exit `i`, at column `x`, is closed behind and below.
pub open spec fn bay_closed(s: Seq<Placement>, x: int, i: int) -> bool {
    has_wall(s, x + 1, -2 * i) && has_wall(s, x, -2 * i - 1)
}

/// Lowest row that a corridor's walls reach.
pub open spec fn corridor_bottom(n: int) -> int {
    if 1 - 2 * n < -3 {
        1 - 2 * n
    } else {
        -3
    }
}

/// The corridor of a castle, or the entry hall when there is no way `back`:
/// a hall of length `hall_length` whose far end, beyond a corridor of length
/// `corridor_length`, holds one portal per exit of `levels`, each named and
/// closed by a wall behind it. With a way back, the character starts at the
/// near end of a second corridor that leads the other way, beside a portal
/// back, under the text "Exit"; without one, the character starts at the top
/// of the far end, under the title.
pub fn corridor_layout(
    back: Option<Level>,
    levels: &Vec<(String, Level)>,
    corridor_length: i64,
    hall_length: i64,
) -> (r: Vec<Placement>)
    requires
        0 <= corridor_length <= MAX_LENGTH,
        0 <= hall_length <= MAX_LENGTH,
        levels@.len() <= MAX_LENGTH,
    ensures
        characters(r@) == match back {
            Some(_) => seq![((-corridor_length - 1) as i64, 0i64)],
            None => seq![((hall_length + corridor_length) as i64, 2i64)],
        },
        portals(r@) == match back {
            Some(b) => seq![((-corridor_length - 1) as i64, -2i64, b)],
            None => Seq::empty(),
        } + exit_portals(levels@, corridor_length as int, hall_length as int),
        texts(r@) == match back {
            Some(_) => seq![((-4 * (hall_length + corridor_length + 3)) as i64, -7i64, false, "Exit"@)],
            None => seq![(-28i64, 22i64, true, "Ruga"@)],
        } + exit_names(levels@, corridor_length as int, hall_length as int),
        walls_within(
            r@,
            -corridor_length - 2,
            hall_length + corridor_length + 1,
            corridor_bottom(levels@.len() as int),
            3,
        ),
        forall|i: int| 0 <= i < levels@.len() ==> #[trigger] bay_closed(r@, hall_length + corridor_length, i),
{
    let c = corridor_length;
    let h = hall_length;
    let n = levels.len() as i64;
    let ghost lx = -c - 2;
    let ghost hx = h + c + 1;
    let ghost ly = corridor_bottom(n as int);
    let ghost hy = 3int;
    let gl = Ghost(lx);
    let gh = Ghost(hx);
    let gb = Ghost(ly);
    let gt = Ghost(hy);
    let mut v: Vec<Placement> = Vec::new();
    match back {
        Some(b) => {
            put(&mut v, Placement::Character(-c - 1, 0), gl, gh, gb, gt);
            put(&mut v, Placement::Portal(-c - 1, -2, b), gl, gh, gb, gt);
            put(&mut v, Placement::Text { x4: -4 * (h + c + 3), y4: -7, title: false, text: "Exit".to_string() }, gl, gh, gb, gt);
            wall_row(&mut v, -c - 1, 0, -1, gl, gh, gb, gt);
            wall_row(&mut v, -c - 1, 0, 1, gl, gh, gb, gt);
            wall_row(&mut v, -c - 1, 0, -3, gl, gh, gb, gt);
            wall_column(&mut v, -2 - c, -3, 2, gl, gh, gb, gt);
            wall_row(&mut v, 0, h, 1, gl, gh, gb, gt);
            let low = if n >= 2 { 1 - n * 2 } else { -3 };
            wall_row(&mut v, 0, h, low, gl, gh, gb, gt);
            if n == 0 {
                wall_column(&mut v, h, -3, 2, gl, gh, gb, gt);
            } else if n == 1 {
                wall_column(&mut v, h, -3, 0, gl, gh, gb, gt);
            }
            if n != 0 {
                wall_row(&mut v, h, h + c + 2, 1, gl, gh, gb, gt);
            }
        },
        None => {
            put(&mut v, Placement::Text { x4: -28, y4: 22, title: true, text: "Ruga".to_string() }, gl, gh, gb, gt);
            wall_row(&mut v, h, h + c + 2, 3, gl, gh, gb, gt);
            put_wall(&mut v, h + c + 1, 2, gl, gh, gb, gt);
            put(&mut v, Placement::Character(h + c, 2), gl, gh, gb, gt);
            wall_column(&mut v, -1, 1, 4, gl, gh, gb, gt);
            if n == 1 {
                wall_column(&mut v, -1, -1, 1, gl, gh, gb, gt);
            } else if n > 1 {
                wall_column(&mut v, -1, -3, 1, gl, gh, gb, gt);
            }
            wall_row(&mut v, 0, h, 3, gl, gh, gb, gt);
            wall_row(&mut v, 0, h, 1 - n * 2, gl, gh, gb, gt);
            wall_row(&mut v, h, h + c + 2, 1, gl, gh, gb, gt);
        },
    }
    let ghost chars = characters(v@);
    let ghost first_portals = portals(v@);
    let ghost first_texts = texts(v@);
    let mut i: usize = 0;
    while i < levels.len()
        invariant
            n == levels@.len(),
            0 <= c <= MAX_LENGTH,
            0 <= h <= MAX_LENGTH,
            n <= MAX_LENGTH,
            lx == -c - 2 && hx == h + c + 1 && ly == corridor_bottom(n as int) && hy == 3,
            gl@ == lx && gh@ == hx && gb@ == ly && gt@ == hy,
            0 <= i <= n,
            characters(v@) == chars,
            portals(v@) == first_portals + exit_portals(levels@.subrange(0, i as int), c as int, h as int),
            texts(v@) == first_texts + exit_names(levels@.subrange(0, i as int), c as int, h as int),
            walls_within(v@, lx, hx, ly, hy),
            forall|k: int| 0 <= k < i ==> #[trigger] bay_closed(v@, h + c, k),
        decreases n - i,
    {
        let y = -2 * (i as i64);
        let name = levels[i].0.clone();
        let level = levels[i].1;
        let ghost b0 = v@;
        put(&mut v, Placement::Text { x4: 4 * (h + c) + 10, y4: 4 * y + 1, title: false, text: name }, gl, gh, gb, gt);
        if i != 0 && i != 1 {
            put_wall(&mut v, -1, y, gl, gh, gb, gt);
            put_wall(&mut v, -1, y - 1, gl, gh, gb, gt);
        }
        wall_row(&mut v, h, h + c + 2, y - 1, gl, gh, gb, gt);
        put_wall(&mut v, h + c + 1, y, gl, gh, gb, gt);
        put(&mut v, Placement::Portal(h + c, y, level), gl, gh, gb, gt);
        proof {
            assert(exit_portals(levels@.subrange(0, i + 1), c as int, h as int) =~= exit_portals(
                levels@.subrange(0, i as int),
                c as int,
                h as int,
            ).push(((h + c) as i64, y, level)));
            assert(exit_names(levels@.subrange(0, i + 1), c as int, h as int) =~= exit_names(
                levels@.subrange(0, i as int),
                c as int,
                h as int,
            ).push(((4 * (h + c) + 10) as i64, (4 * y + 1) as i64, false, levels@[i as int].0@)));
            assert forall|k: int| 0 <= k < i + 1 implies #[trigger] bay_closed(v@, h + c, k) by {
                if k < i {
                    assert(bay_closed(b0, h + c, k));
                } else {
                    assert(has_wall(v@, h + c, y - 1));
                }
            }
        }
        i = i + 1;
    }
    proof {
        assert(levels@.subrange(0, n as int) == levels@);
    }
    v
}

} // verus!
