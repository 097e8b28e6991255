use vstd::prelude::*;
use crate::map::quad_root::QuadRoot;

verus! {

/// A measure of a position that the board keeps up to date as tiles change.
pub trait Heuristic: Sized + Copy {
    /// The winner that the measure tells: positive for X, negative for O, 0 for none.
    spec fn winner(&self) -> int;

    fn new() -> Self;

    /// The measure of a position won by X.
    fn new_max() -> Self;

    /// The measure of a position won by O.
    fn new_min() -> Self;

    /// How far, in tiles, the measure looks around a tile.
    fn get_extra(&self) -> i64;

    /// Whether the position calls for a deeper search.
    fn is_critical(&self) -> (r: bool)
        default_ensures
            r == false,
    {
        false
    }

    fn won_by(&self) -> (r: i16)
        ensures
            r == self.winner(),
    ;

    /// Adds `mult` times what the tiles around (x, y) contribute to the measure.
    fn update(&mut self, map: &mut QuadRoot, x: i64, y: i64, mult: i16)
        requires
            i64::MIN + 5 <= x <= i64::MAX - 5,
            i64::MIN + 5 <= y <= i64::MAX - 5,
        ensures
            *final(map) == *old(map),
    ;

    fn update_step(&mut self, step: i32)
        ensures
            *final(self) == *old(self),
    {
    }
}

} // verus!
