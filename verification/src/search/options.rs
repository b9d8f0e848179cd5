use vstd::prelude::*;

verus! {

/// Limits of a search: the clocks and increments of both sides in
/// milliseconds, a fixed time and a fixed depth.
pub struct Options {
    pub white_time: i32,
    pub black_time: i32,
    pub white_increment: i32,
    pub black_increment: i32,
    pub target_time: Option<i32>,
    pub depth: Option<i16>,
}

impl Options {
    /// No limit but the clocks, which are unbounded.
    pub fn new() -> (r: Self)
        ensures
            r.white_time == i32::MAX,
            r.black_time == i32::MAX,
            r.white_increment == 0,
            r.black_increment == 0,
            r.target_time is None,
            r.depth is None,
    {
        Self {
            white_time: 2147483647,
            black_time: 2147483647,
            white_increment: 0,
            black_increment: 0,
            target_time: None,
            depth: None,
        }
    }
}

} // verus!
