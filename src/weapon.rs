use vstd::prelude::*;

verus! {

/// Progress of a timed phase in thousandths: a phase ends when its progress
/// reaches `ONE`.
pub const ONE: u64 = 1000;

/// Kind of weapon; a hammer swings from one side to the other at each shot.
#[derive(Clone, Copy, Debug, PartialEq, Eq, Structural)]
pub enum Kind {
    Sniper,
    Hammer(bool),
}

/// Phase of a weapon, with the progress of the timed ones.
#[derive(Clone, Copy, Debug, PartialEq, Eq, Structural)]
pub enum State {
    Ready,
    Reload(u64),
    Setup(u64),
    Setdown(u64),
}

/// A weapon; each factor is the progress, in thousandths, that its phase makes
/// in one unit of time.
#[derive(Clone, Copy, Debug, PartialEq, Eq, Structural)]
pub struct Weapon {
    pub reload_factor: u64,
    pub setup_factor: u64,
    pub setdown_factor: u64,
    pub state: State,
    pub kind: Kind,
}

/// Progress made in `dt` thousandths of a time unit at `factor`, rounded down
/// and held within `u64`.
pub open spec fn progress(dt: u64, factor: u64) -> u64 {
    let p = (dt * factor) / (ONE as int);
    if p > u64::MAX {
        u64::MAX
    } else {
        p as u64
    }
}

pub open spec fn sat_add(a: u64, b: u64) -> u64 {
    if a + b > u64::MAX {
        u64::MAX
    } else {
        (a + b) as u64
    }
}

/// The phase once a pending swap has been noticed: any phase but a set-down
/// starts setting down.
pub open spec fn noticed(state: State, swap_pending: bool) -> State {
    match state {
        State::Setdown(t) => State::Setdown(t),
        _ => if swap_pending {
            State::Setdown(0)
        } else {
            state
        },
    }
}

/// The phase once it has made its progress over `dt`.
pub open spec fn advanced(w: Weapon, state: State, dt: u64) -> State {
    match state {
        State::Reload(t) => State::Reload(sat_add(t, progress(dt, w.reload_factor))),
        State::Setup(t) => State::Setup(sat_add(t, progress(dt, w.setup_factor))),
        State::Setdown(t) => State::Setdown(sat_add(t, progress(dt, w.setdown_factor))),
        State::Ready => State::Ready,
    }
}

/// The kind after a shot.
pub open spec fn fired(kind: Kind) -> Kind {
    match kind {
        Kind::Hammer(b) => Kind::Hammer(!b),
        Kind::Sniper => Kind::Sniper,
    }
}

/// A weapon that can enter a set-down only with a swap pending.
pub open spec fn swap_ready(w: Weapon, next: Option<Weapon>) -> bool {
    w.state matches State::Setdown(_) ==> next.is_some()
}

/// The weapon and the pending swap after one update over `dt`: a pending swap
/// starts a set-down; the timed phase progresses; then a finished reload or
/// setup either fires again, while shooting, keeping the overshoot, or becomes
/// ready; a ready weapon that shoots starts reloading with one step of
/// progress; a finished set-down hands over to the next weapon, which starts
/// its setup with the overshoot, or, with no swap pending, stays set down.
pub open spec fn updated(w: Weapon, next: Option<Weapon>, shoot: bool, dt: u64) -> (Weapon, Option<Weapon>) {
    let s = advanced(w, noticed(w.state, next.is_some()), dt);
    match s {
        State::Reload(t) => if t >= ONE {
            if shoot {
                (Weapon { state: State::Reload((t - ONE) as u64), kind: fired(w.kind), ..w }, next)
            } else {
                (Weapon { state: State::Ready, ..w }, next)
            }
        } else {
            (Weapon { state: s, ..w }, next)
        },
        State::Setup(t) => if t >= ONE {
            if shoot {
                (Weapon { state: State::Reload((t - ONE) as u64), kind: fired(w.kind), ..w }, next)
            } else {
                (Weapon { state: State::Ready, ..w }, next)
            }
        } else {
            (Weapon { state: s, ..w }, next)
        },
        State::Ready => if shoot {
            (Weapon { state: State::Reload(progress(dt, w.reload_factor)), ..w }, next)
        } else {
            (Weapon { state: s, ..w }, next)
        },
        State::Setdown(t) => if t >= ONE {
            match next {
                Some(n) => (Weapon { state: State::Setup((t - ONE) as u64), ..n }, None),
                None => (Weapon { state: s, ..w }, next),
            }
        } else {
            (Weapon { state: s, ..w }, next)
        },
    }
}

fn progress_exec(dt: u64, factor: u64) -> (r: u64)
    ensures
        r == progress(dt, factor),
{
    proof {
        assert(dt * factor <= 0xffff_ffff_ffff_ffff * 0xffff_ffff_ffff_ffff) by (nonlinear_arith)
            requires
                dt <= 0xffff_ffff_ffff_ffff,
                factor <= 0xffff_ffff_ffff_ffff,
        ;
    }
    let p = (dt as u128 * factor as u128) / (ONE as u128);
    if p > u64::MAX as u128 {
        u64::MAX
    } else {
        p as u64
    }
}

/// The stand-in given to an entity that awaits a weapon and has none: fully
/// set down, so that the next update hands over at once.
pub fn placeholder() -> (r: Weapon)
    ensures
        r == (Weapon {
            reload_factor: 0,
            setup_factor: 0,
            setdown_factor: 0,
            state: State::Setdown(ONE),
            kind: Kind::Sniper,
        }),
{
    Weapon {
        reload_factor: 0,
        setup_factor: 0,
        setdown_factor: 0,
        state: State::Setdown(ONE),
        kind: Kind::Sniper,
    }
}

/// Gives an entity that awaits a weapon and has none the placeholder.
pub fn prepare(weapon: &mut Option<Weapon>, next: &Option<Weapon>)
    ensures
        *final(weapon) == if old(weapon).is_none() && next.is_some() {
            Some(placeholder_spec())
        } else {
            *old(weapon)
        },
{
    if weapon.is_none() && next.is_some() {
        *weapon = Some(placeholder());
    }
}

pub open spec fn placeholder_spec() -> Weapon {
    Weapon {
        reload_factor: 0,
        setup_factor: 0,
        setdown_factor: 0,
        state: State::Setdown(ONE),
        kind: Kind::Sniper,
    }
}

/// One update of a weapon over `dt` thousandths of a time unit, with `next`
/// the weapon that a pending swap brings, if any.
pub fn update(weapon: &mut Weapon, next: &mut Option<Weapon>, shoot: bool, dt: u64)
    ensures
        (*final(weapon), *final(next)) == updated(*old(weapon), *old(next), shoot, dt),
        swap_ready(*old(weapon), *old(next)) ==> swap_ready(*final(weapon), *final(next)),
{
    match weapon.state {
        State::Setdown(_) => {},
        _ => if next.is_some() {
            weapon.state = State::Setdown(0);
        },
    }
    match weapon.state {
        State::Reload(t) => {
            weapon.state = State::Reload(t.saturating_add(progress_exec(dt, weapon.reload_factor)));
        },
        State::Setup(t) => {
            weapon.state = State::Setup(t.saturating_add(progress_exec(dt, weapon.setup_factor)));
        },
        State::Setdown(t) => {
            weapon.state = State::Setdown(t.saturating_add(progress_exec(dt, weapon.setdown_factor)));
        },
        State::Ready => {},
    }
    match weapon.state {
        State::Reload(t) | State::Setup(t) => if t >= ONE {
            if shoot {
                weapon.state = State::Reload(t - ONE);
                match weapon.kind {
                    Kind::Hammer(b) => {
                        weapon.kind = Kind::Hammer(!b);
                    },
                    Kind::Sniper => {},
                }
            } else {
                weapon.state = State::Ready;
            }
        },
        State::Ready => if shoot {
            weapon.state = State::Reload(progress_exec(dt, weapon.reload_factor));
        },
        State::Setdown(t) => if t >= ONE {
            match next.take() {
                Some(n) => {
                    *weapon = n;
                    weapon.state = State::Setup(t - ONE);
                },
                None => {},
            }
        },
    }
}

/// A weapon that shoots at every update never becomes ready, whether it was
/// ready or reloading, as long as no swap is pending.
pub proof fn lemma_continuous_fire_never_ready(w: Weapon, dt: u64)
    requires
        w.state matches State::Ready || w.state matches State::Reload(_),
    ensures
        updated(w, None, true, dt).0.state matches State::Reload(_),
        updated(w, None, true, dt).1 == None::<Weapon>,
{
}

} // verus!
