use vstd::prelude::*;

verus! {

/// What the player's sprite shows.
#[derive(Debug, Hash, PartialEq, Eq, Clone, Copy, Structural)]
pub enum PlayerAnimation {
    MoveDownRight,
    MoveDownLeft,
    MoveUpRight,
    MoveUpLeft,
    StoppedLeft,
    StoppedRight,
}

impl PlayerAnimation {
    /// The animation that follows `self` when the player moves by `(x, y)`,
    /// of which only the signs count; `y` grows downwards. Moving down or
    /// sideways shows the front, moving up the back; straight down and
    /// standing still keep the side that was shown.
    pub open spec fn spec_next(self, x: int, y: int) -> PlayerAnimation {
        if x > 0 && y >= 0 {
            PlayerAnimation::MoveDownRight
        } else if x == 0 && y > 0 {
            if self == PlayerAnimation::MoveDownLeft || self == PlayerAnimation::StoppedLeft {
                PlayerAnimation::MoveDownLeft
            } else {
                PlayerAnimation::MoveDownRight
            }
        } else if x < 0 && y >= 0 {
            PlayerAnimation::MoveDownLeft
        } else if x >= 0 && y < 0 {
            PlayerAnimation::MoveUpRight
        } else if x <= 0 && y < 0 {
            PlayerAnimation::MoveUpLeft
        } else {
            match self {
                PlayerAnimation::MoveDownLeft => PlayerAnimation::StoppedLeft,
                PlayerAnimation::MoveUpLeft => PlayerAnimation::StoppedLeft,
                PlayerAnimation::StoppedLeft => PlayerAnimation::StoppedLeft,
                _ => PlayerAnimation::StoppedRight,
            }
        }
    }

    /// The animation that follows `self` when the player moves by `(x, y)`.
    pub fn next(self, x: i32, y: i32) -> (following: PlayerAnimation)
        ensures
            following == self.spec_next(x as int, y as int),
    {
        if x > 0 && y >= 0 {
            PlayerAnimation::MoveDownRight
        } else if x == 0 && y > 0 {
            match self {
                PlayerAnimation::MoveDownLeft => PlayerAnimation::MoveDownLeft,
                PlayerAnimation::StoppedLeft => PlayerAnimation::MoveDownLeft,
                _ => PlayerAnimation::MoveDownRight,
            }
        } else if x < 0 && y >= 0 {
            PlayerAnimation::MoveDownLeft
        } else if x >= 0 && y < 0 {
            PlayerAnimation::MoveUpRight
        } else if y < 0 {
            PlayerAnimation::MoveUpLeft
        } else {
            match self {
                PlayerAnimation::MoveDownLeft => PlayerAnimation::StoppedLeft,
                PlayerAnimation::MoveUpLeft => PlayerAnimation::StoppedLeft,
                PlayerAnimation::StoppedLeft => PlayerAnimation::StoppedLeft,
                _ => PlayerAnimation::StoppedRight,
            }
        }
    }
}

/// The frames of an animation, and whether they are drawn mirrored.
pub struct AnimDef {
    pub frames: Vec<String>,
    pub flip_x: bool,
}

impl AnimDef {
    /// The frame that follows `frame`: the next one, and the first one after
    /// the last.
    pub fn next_frame(&self, frame: usize) -> (following: usize)
        ensures
            following == if frame + 1 < self.frames@.len() {
                frame + 1
            } else {
                0
            },
    {
        if frame < self.frames.len() && frame + 1 < self.frames.len() {
            frame + 1
        } else {
            0
        }
    }
}

/// Where a stick stands on one axis, from the two keys that push it: 0 with
/// the first key alone, 2 with the second alone, 1 in the middle.
pub open spec fn axis_position(first: bool, second: bool) -> int {
    if first && !second {
        0
    } else if second && !first {
        2
    } else {
        1
    }
}

/// The picture of the joystick, of nine laid out in three rows, for the keys
/// that are down.
pub fn joystick_frame(left: bool, right: bool, up: bool, down: bool) -> (frame: usize)
    ensures
        frame == 3 * axis_position(up, down) + axis_position(left, right),
        frame < 9,
{
    let joystick_x: usize = if left && right {
        1
    } else if left {
        0
    } else if right {
        2
    } else {
        1
    };
    let joystick_y: usize = if up && down {
        1
    } else if up {
        0
    } else if down {
        2
    } else {
        1
    };
    3 * joystick_y + joystick_x
}

/// The picture of the blue button, of four button pictures: 1 when it is
/// pressed, 0 when it is free.
pub fn blue_button_frame(pressed: bool) -> (frame: usize)
    ensures
        frame == if pressed {
            1int
        } else {
            0int
        },
{
    if pressed {
        1
    } else {
        0
    }
}

/// The picture of the red button, of four button pictures: 3 when it is
/// pressed, 2 when it is free.
pub fn red_button_frame(pressed: bool) -> (frame: usize)
    ensures
        frame == if pressed {
            3int
        } else {
            2int
        },
{
    if pressed {
        3
    } else {
        2
    }
}

} // verus!
