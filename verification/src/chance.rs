//! The game's dice. Every random choice of the game is a roll of
//! `random_in_range`; the functions that turn a roll into a game value are
//! exact, the rolls themselves are not stated beyond their range.

use vstd::prelude::*;
use crate::entities::{Direction, PowerUpKind};

verus! {

/// Calls `macroquad::rand::gen_range(low, high)` on `i32`.
///
/// The generator draws a `u32`, divides it by 2^32 (giving a value in
/// `[0, 1)`), scales it to `low + (high - low) * r` in `f64` and truncates the
/// result. For `0 <= low < high <= 1024` every step is exact in `f64`, so the
/// result lies in `[low, high)`. Which value comes back depends on the
/// generator's hidden state and is not stated.
#[verifier::external_body]
pub(crate) fn random_in_range(low: i32, high: i32) -> (r: i32)
    requires
        0 <= low < high <= 1024,
    ensures
        low <= r < high,
{
    macroquad::rand::gen_range(low, high)
}

/// A destroyed brick leaves a power-up behind on a roll of `0..100` below this.
pub const POWER_UP_DROP_PERCENT: i32 = 30;

/// Whether a drop roll (out of `0..100`) leaves a power-up behind.
pub fn power_up_drops(roll: i32) -> (r: bool)
    ensures
        r == (roll < POWER_UP_DROP_PERCENT),
{
    roll < POWER_UP_DROP_PERCENT
}

/// Rolls the drop die of a destroyed brick.
pub fn roll_power_up_drop() -> (roll: i32)
    ensures
        0 <= roll < 100,
{
    random_in_range(0, 100)
}

/// The kind of power-up that a kind roll (out of `0..2`) gives.
pub open spec fn power_up_kind_of_roll(roll: i32) -> PowerUpKind {
    if roll == 0 {
        PowerUpKind::Range
    } else {
        PowerUpKind::Bomb
    }
}

/// The kind of power-up that a kind roll gives.
pub fn power_up_kind_from_roll(roll: i32) -> (k: PowerUpKind)
    ensures
        k == power_up_kind_of_roll(roll),
{
    match roll {
        0 => PowerUpKind::Range,
        _ => PowerUpKind::Bomb,
    }
}

/// Picks a power-up kind at random; either kind may come back.
pub fn random_power_up_kind() -> (k: PowerUpKind) {
    let roll = random_in_range(0, 2);
    power_up_kind_from_roll(roll)
}

/// The direction that a direction roll (out of `0..4`) gives.
pub open spec fn direction_of_roll(roll: i32) -> Direction {
    if roll == 0 {
        Direction::Up
    } else if roll == 1 {
        Direction::Down
    } else if roll == 2 {
        Direction::Left
    } else {
        Direction::Right
    }
}

/// The direction that a direction roll gives.
pub fn direction_from_roll(roll: i32) -> (d: Direction)
    ensures
        d == direction_of_roll(roll),
{
    match roll {
        0 => Direction::Up,
        1 => Direction::Down,
        2 => Direction::Left,
        _ => Direction::Right,
    }
}

/// Picks a walking direction at random; any direction may come back.
pub fn random_direction() -> (d: Direction) {
    let roll = random_in_range(0, 4);
    direction_from_roll(roll)
}

} // verus!
