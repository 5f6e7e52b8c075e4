use wfc::arcade::{blue_button_frame, joystick_frame, red_button_frame, AnimDef, PlayerAnimation};

use PlayerAnimation::{
    MoveDownLeft, MoveDownRight, MoveUpLeft, MoveUpRight, StoppedLeft, StoppedRight,
};

const ALL: [PlayerAnimation; 6] =
    [MoveDownRight, MoveDownLeft, MoveUpRight, MoveUpLeft, StoppedLeft, StoppedRight];

#[test]
fn sideways_and_down_show_the_front() {
    for current in ALL.iter() {
        assert_eq!(current.next(1, 0), MoveDownRight);
        assert_eq!(current.next(5, 3), MoveDownRight);
        assert_eq!(current.next(-1, 0), MoveDownLeft);
        assert_eq!(current.next(-2, 7), MoveDownLeft);
    }
}

#[test]
fn up_shows_the_back() {
    for current in ALL.iter() {
        assert_eq!(current.next(0, -1), MoveUpRight);
        assert_eq!(current.next(1, -1), MoveUpRight);
        assert_eq!(current.next(-1, -1), MoveUpLeft);
    }
}

#[test]
fn straight_down_keeps_the_side() {
    assert_eq!(MoveDownLeft.next(0, 1), MoveDownLeft);
    assert_eq!(StoppedLeft.next(0, 1), MoveDownLeft);
    assert_eq!(MoveUpLeft.next(0, 1), MoveDownRight);
    assert_eq!(MoveDownRight.next(0, 1), MoveDownRight);
    assert_eq!(MoveUpRight.next(0, 1), MoveDownRight);
    assert_eq!(StoppedRight.next(0, 1), MoveDownRight);
}

#[test]
fn standing_still_keeps_the_side() {
    assert_eq!(MoveDownLeft.next(0, 0), StoppedLeft);
    assert_eq!(MoveUpLeft.next(0, 0), StoppedLeft);
    assert_eq!(StoppedLeft.next(0, 0), StoppedLeft);
    assert_eq!(MoveDownRight.next(0, 0), StoppedRight);
    assert_eq!(MoveUpRight.next(0, 0), StoppedRight);
    assert_eq!(StoppedRight.next(0, 0), StoppedRight);
}

#[test]
fn frames_run_round() {
    let walk = AnimDef {
        frames: vec!["a".to_string(), "b".to_string(), "c".to_string()],
        flip_x: false,
    };
    assert_eq!(walk.next_frame(0), 1);
    assert_eq!(walk.next_frame(1), 2);
    assert_eq!(walk.next_frame(2), 0);
    assert_eq!(walk.next_frame(9), 0);
    assert_eq!(walk.next_frame(usize::MAX), 0);
    let still = AnimDef { frames: vec!["a".to_string()], flip_x: true };
    assert_eq!(still.next_frame(0), 0);
    let none = AnimDef { frames: vec![], flip_x: true };
    assert_eq!(none.next_frame(0), 0);
}

#[test]
fn the_joystick_has_nine_pictures() {
    // left, right, up, down
    assert_eq!(joystick_frame(false, false, false, false), 4);
    assert_eq!(joystick_frame(true, false, false, false), 3);
    assert_eq!(joystick_frame(false, true, false, false), 5);
    assert_eq!(joystick_frame(false, false, true, false), 1);
    assert_eq!(joystick_frame(false, false, false, true), 7);
    assert_eq!(joystick_frame(true, false, true, false), 0);
    assert_eq!(joystick_frame(false, true, true, false), 2);
    assert_eq!(joystick_frame(true, false, false, true), 6);
    assert_eq!(joystick_frame(false, true, false, true), 8);
    assert_eq!(joystick_frame(true, true, false, false), 4);
    assert_eq!(joystick_frame(false, false, true, true), 4);
    assert_eq!(joystick_frame(true, true, true, true), 4);
    assert_eq!(joystick_frame(true, true, true, false), 1);
}

#[test]
fn buttons_have_two_pictures_each() {
    assert_eq!(blue_button_frame(false), 0);
    assert_eq!(blue_button_frame(true), 1);
    assert_eq!(red_button_frame(false), 2);
    assert_eq!(red_button_frame(true), 3);
}
