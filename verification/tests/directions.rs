use wave_function_collapse::Direction;

#[test]
fn opposite_of_each_direction() {
    assert_eq!(Direction::Up.opposite(), Direction::Down);
    assert_eq!(Direction::Down.opposite(), Direction::Up);
    assert_eq!(Direction::Right.opposite(), Direction::Left);
    assert_eq!(Direction::Left.opposite(), Direction::Right);
}

#[test]
fn opposite_twice_returns_to_start() {
    for d in Direction::all() {
        assert_eq!(d.opposite().opposite(), d);
    }
}

#[test]
fn all_lists_the_four_directions_once() {
    let dirs = Direction::all();
    assert_eq!(dirs.len(), 4);
    assert_eq!(dirs[0], Direction::Up);
    assert_eq!(dirs[1], Direction::Right);
    assert_eq!(dirs[2], Direction::Down);
    assert_eq!(dirs[3], Direction::Left);
}
