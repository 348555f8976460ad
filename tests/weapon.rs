use ruga::weapon::{placeholder, prepare, update, Kind, State, Weapon, ONE};

fn rifle(state: State) -> Weapon {
    Weapon { reload_factor: 500, setup_factor: 250, setdown_factor: 1000, state, kind: Kind::Sniper }
}

#[test]
fn continuous_fire_keeps_reloading() {
    let mut w = rifle(State::Ready);
    let mut next = None;
    update(&mut w, &mut next, true, 1000);
    assert_eq!(w.state, State::Reload(500));
    update(&mut w, &mut next, true, 1000);
    assert_eq!(w.state, State::Reload(0));
    update(&mut w, &mut next, true, 1000);
    assert_eq!(w.state, State::Reload(500));
    for _ in 0..10 {
        update(&mut w, &mut next, true, 1000);
        assert!(w.state != State::Ready);
    }
}

#[test]
fn reload_ends_ready_without_shooting() {
    let mut w = rifle(State::Reload(600));
    let mut next = None;
    update(&mut w, &mut next, false, 1000);
    assert_eq!(w.state, State::Ready);
    update(&mut w, &mut next, false, 1000);
    assert_eq!(w.state, State::Ready);
}

#[test]
fn reload_keeps_overshoot() {
    let mut w = rifle(State::Reload(900));
    let mut next = None;
    update(&mut w, &mut next, true, 1000);
    assert_eq!(w.state, State::Reload(400));
}

#[test]
fn hammer_swings_at_each_shot() {
    let mut w = Weapon { reload_factor: 1000, setup_factor: 0, setdown_factor: 0, state: State::Reload(0), kind: Kind::Hammer(false) };
    let mut next = None;
    update(&mut w, &mut next, true, 1000);
    assert_eq!(w.kind, Kind::Hammer(true));
    assert_eq!(w.state, State::Reload(0));
    update(&mut w, &mut next, true, 1000);
    assert_eq!(w.kind, Kind::Hammer(false));
}

#[test]
fn swap_sets_down_then_sets_up_next() {
    let mut w = rifle(State::Reload(300));
    let other = Weapon { reload_factor: 100, setup_factor: 500, setdown_factor: 100, state: State::Ready, kind: Kind::Hammer(false) };
    let mut next = Some(other);
    update(&mut w, &mut next, false, 500);
    assert_eq!(w.state, State::Setdown(500));
    assert!(next.is_some());
    update(&mut w, &mut next, false, 700);
    assert_eq!(next, None);
    assert_eq!(w.kind, Kind::Hammer(false));
    assert_eq!(w.reload_factor, 100);
    assert_eq!(w.state, State::Setup(200));
    update(&mut w, &mut next, false, 2000);
    assert_eq!(w.state, State::Ready);
}

#[test]
fn placeholder_hands_over_at_once() {
    let other = rifle(State::Ready);
    let mut weapon = None;
    prepare(&mut weapon, &Some(other));
    assert_eq!(weapon, Some(placeholder()));
    let mut w = weapon.unwrap();
    assert_eq!(w.state, State::Setdown(ONE));
    let mut next = Some(other);
    update(&mut w, &mut next, false, 16);
    assert_eq!(next, None);
    assert_eq!(w.state, State::Setup(0));
    assert_eq!(w.setup_factor, 250);
    let mut kept = Some(rifle(State::Ready));
    prepare(&mut kept, &Some(other));
    assert_eq!(kept, Some(rifle(State::Ready)));
}

#[test]
fn setdown_without_swap_keeps_advancing() {
    let mut w = rifle(State::Setdown(200));
    let mut next = None;
    update(&mut w, &mut next, true, 500);
    assert_eq!(w.state, State::Setdown(700));
    update(&mut w, &mut next, false, 500);
    assert_eq!(w.state, State::Setdown(1200));
    assert_eq!(next, None);
}

#[test]
fn setdown_is_not_restarted_by_a_swap() {
    let mut w = rifle(State::Setdown(300));
    let mut next = Some(rifle(State::Ready));
    update(&mut w, &mut next, false, 100);
    assert_eq!(w.state, State::Setdown(400));
}
