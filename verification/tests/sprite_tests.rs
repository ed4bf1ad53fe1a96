use hotcold::sprite::ActorUpdate;
use hotcold::sprite::SpriteSelector;
use hotcold::sprite::SpriteSelectorUpdate;

const MS: u128 = 1_000_000;

#[test]
fn new_clamps_the_start_frame() {
    let s = SpriteSelector::new(0, 2, 6, 4, None);
    assert_eq!(s.at, 2);
    let s = SpriteSelector::new(9, 2, 6, 4, None);
    assert_eq!(s.at, 5);
    let s = SpriteSelector::new(4, 2, 6, 4, None);
    assert_eq!(s.at, 4);
    assert!(!s.on);
    assert_eq!(s.time, 0);
}

#[test]
fn play_needs_a_frame_duration() {
    let mut s = SpriteSelector::new(0, 0, 4, 2, None);
    s.play();
    assert!(!s.on);
    let mut s = SpriteSelector::new(0, 0, 4, 2, Some(20 * MS));
    s.play();
    assert!(s.on);
    s.stop();
    assert!(!s.on);
}

#[test]
fn stopped_selectors_ignore_time() {
    let mut s = SpriteSelector::new(0, 0, 4, 2, Some(20 * MS));
    s.add_time(5 * MS);
    assert_eq!(s.time, 0);
    s.play();
    s.add_time(5 * MS);
    assert_eq!(s.time, 5 * MS);
}

#[test]
fn update_spends_whole_frames_and_keeps_the_rest() {
    let mut s = SpriteSelector::new(0, 0, 4, 2, Some(20 * MS));
    s.play();
    s.add_time(45 * MS);
    s.update();
    // Two frames of 20 ms pass; 5 ms remain.
    assert_eq!(s.at, 2);
    assert_eq!(s.time, 5 * MS);
    s.update();
    assert_eq!(s.at, 2);
    assert_eq!(s.time, 5 * MS);
}

#[test]
fn update_wraps_modulo_max_but_not_below_min() {
    let mut s = SpriteSelector::new(2, 2, 6, 4, Some(MS));
    s.play();
    // Four frames from 2 wrap to (2 + 4) % 6 == 0, below min: raised to 2.
    s.add_time(4 * MS);
    s.update();
    assert_eq!(s.at, 2);
    // Three frames from 2 land on 5.
    s.add_time(3 * MS);
    s.update();
    assert_eq!(s.at, 5);
}

#[test]
fn set_checks_the_range() {
    let mut s = SpriteSelector::new(2, 2, 6, 4, None);
    assert_eq!(s._set(3), Ok(()));
    assert_eq!(s.at, 5);
    assert_eq!(s._set(4), Err(()));
    assert_eq!(s.at, 5);
}

#[test]
fn cells_are_counted_row_by_row() {
    let s = SpriteSelector::new(0, 0, 12, 4, None);
    assert_eq!(s.cell(0), (0, 0));
    assert_eq!(s.cell(5), (1, 1));
    assert_eq!(s.cell(11), (3, 2));
    let mut s = s;
    s._set(7).unwrap();
    assert_eq!(s.current_cell(), (3, 1));
    assert_eq!(s.cell_at(5), Ok((1, 1)));
    assert_eq!(s.cell_at(12), Err(()));
}

#[test]
fn selector_system_advances_every_running_selector() {
    let mut v = vec![
        SpriteSelector::new(0, 0, 4, 2, Some(10 * MS)),
        SpriteSelector::new(0, 0, 4, 2, Some(10 * MS)),
    ];
    v[0].play();
    SpriteSelectorUpdate::run(&mut v, 25 * MS);
    assert_eq!(v[0].at, 2);
    assert_eq!(v[0].time, 5 * MS);
    assert_eq!(v[1].at, 0);
    assert_eq!(v[1].time, 0);
    // A tick of no elapsed time changes nothing.
    SpriteSelectorUpdate::run(&mut v, 0);
    assert_eq!(v[0].time, 5 * MS);
}

#[test]
fn actor_system_switches_animations_with_the_clock() {
    let mut v = vec![
        SpriteSelector::new(0, 0, 4, 2, Some(10 * MS)),
        SpriteSelector::new(0, 0, 4, 2, None),
    ];
    ActorUpdate::run(&mut v, true);
    assert!(v[0].on);
    assert!(!v[1].on);
    ActorUpdate::run(&mut v, false);
    assert!(!v[0].on);
    assert!(!v[1].on);
}
