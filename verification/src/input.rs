use vstd::prelude::*;
use crate::calc::Key;
use crate::config::layout_spec;

verus! {

/// Where the joystick leans.
#[derive(Clone, Copy, Debug, PartialEq, Eq, Structural)]
pub enum Dir {
    Up,
    Down,
    Left,
    Right,
    Center,
}

/// Map raw joystick readings to a direction: a dead zone of 200 around the
/// midpoint 512 reads as center, with the horizontal axis winning ties.
pub fn read_joystick_direction(x: u16, y: u16) -> (d: Dir)
    ensures
        d == (if x > 712 {
            Dir::Right
        } else if x < 312 {
            Dir::Left
        } else if y > 712 {
            Dir::Down
        } else if y < 312 {
            Dir::Up
        } else {
            Dir::Center
        }),
{
    if x > 512 + 200 {
        Dir::Right
    } else if x < 512 - 200 {
        Dir::Left
    } else if y > 512 + 200 {
        Dir::Down
    } else if y < 512 - 200 {
        Dir::Up
    } else {
        Dir::Center
    }
}

/// The cursor on the pad, with edge detection for direction changes and
/// button presses.
pub struct InputState {
    pos: (u8, u8),
    old_dir: Dir,
    already_pressed: bool,
}

impl InputState {
    pub closed spec fn pos_spec(self) -> (u8, u8) {
        self.pos
    }

    pub closed spec fn old_dir_spec(self) -> Dir {
        self.old_dir
    }

    pub closed spec fn pressed_spec(self) -> bool {
        self.already_pressed
    }

    pub fn new() -> (r: InputState)
        ensures
            r.pos_spec() == (2u8, 3u8),
            r.old_dir_spec() == Dir::Center,
            !r.pressed_spec(),
    {
        InputState { pos: crate::config::default_pos(), old_dir: Dir::Center, already_pressed: false }
    }

    /// Record the new direction and button level; report whether something
    /// happened: the stick left center in a new direction, or the button
    /// went down after being up.
    pub fn update(&mut self, dir: Dir, pressed: bool) -> (changed: bool)
        ensures
            final(self).pos_spec() == old(self).pos_spec(),
            final(self).old_dir_spec() == dir,
            final(self).pressed_spec() == (if !old(self).pressed_spec() && pressed {
                true
            } else if old(self).pressed_spec() && !pressed {
                false
            } else {
                old(self).pressed_spec()
            }),
            changed == ((dir != old(self).old_dir_spec() && dir != Dir::Center) || (!old(
                self,
            ).pressed_spec() && pressed)),
    {
        let dir_changed = dir != self.old_dir && dir != Dir::Center;
        self.old_dir = dir;
        let pressed_edge = if !self.already_pressed && pressed {
            self.already_pressed = true;
            true
        } else {
            if self.already_pressed && !pressed {
                self.already_pressed = false;
            }
            false
        };
        dir_changed || pressed_edge
    }

    /// Move the cursor one cell, saturating at the pad's edge counters.
    pub fn update_position(&mut self, dir: Dir) -> (r: bool)
        ensures
            r == false,
            final(self).old_dir_spec() == old(self).old_dir_spec(),
            final(self).pressed_spec() == old(self).pressed_spec(),
            ({
                let p = old(self).pos_spec();
                let q = final(self).pos_spec();
                match dir {
                    Dir::Up => q.0 == p.0 && q.1 == (if p.1 == 255 {
                        255u8
                    } else {
                        (p.1 + 1) as u8
                    }),
                    Dir::Down => q.0 == p.0 && q.1 == (if p.1 == 0 {
                        0u8
                    } else {
                        (p.1 - 1) as u8
                    }),
                    Dir::Left => q.1 == p.1 && q.0 == (if p.0 == 0 {
                        0u8
                    } else {
                        (p.0 - 1) as u8
                    }),
                    Dir::Right => q.1 == p.1 && q.0 == (if p.0 == 255 {
                        255u8
                    } else {
                        (p.0 + 1) as u8
                    }),
                    Dir::Center => q == p,
                }
            }),
    {
        match dir {
            Dir::Up => {
                self.pos.1 = if self.pos.1 == 255 {
                    255
                } else {
                    self.pos.1 + 1
                };
            },
            Dir::Down => {
                self.pos.1 = if self.pos.1 == 0 {
                    0
                } else {
                    self.pos.1 - 1
                };
            },
            Dir::Left => {
                self.pos.0 = if self.pos.0 == 0 {
                    0
                } else {
                    self.pos.0 - 1
                };
            },
            Dir::Right => {
                self.pos.0 = if self.pos.0 == 255 {
                    255
                } else {
                    self.pos.0 + 1
                };
            },
            Dir::Center => {},
        }
        false
    }

    /// The key under the cursor, reading rows bottom-up; positions off the
    /// pad land on no key.
    pub fn key(&self) -> (k: Key)
        ensures
            k == (if self.pos_spec().1 < 7 && self.pos_spec().0 < 7 {
                layout_spec()[6 - self.pos_spec().1][self.pos_spec().0 as int]
            } else {
                Key::Blank
            }),
    {
        let layout = crate::config::keyboard_layout();
        let y = self.pos.1;
        let x = self.pos.0;
        if y < 7 && x < 7 {
            layout[(6 - y) as usize][x as usize]
        } else {
            Key::Blank
        }
    }

    /// Send the cursor back to the default cell.
    pub fn reset_position(&mut self)
        ensures
            final(self).pos_spec() == (2u8, 3u8),
            final(self).old_dir_spec() == old(self).old_dir_spec(),
            final(self).pressed_spec() == old(self).pressed_spec(),
    {
        self.pos = crate::config::default_pos();
    }
}

} // verus!
