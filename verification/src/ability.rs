use vstd::prelude::*;

verus! {

/// The numbers that describe what an ability does.
pub struct AbilityInfo {
    pub damage: u32,
    pub distance: u32,
    pub speed: u32,
}

/// What happens where an ability lands: its animation, its numbers and its sound.
pub struct Impact {
    pub animation: String,
    pub info: AbilityInfo,
    pub sound: String,
}

} // verus!
