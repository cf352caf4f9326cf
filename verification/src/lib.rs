//! Game rules of a small third-person brawler: ability cooldowns, the
//! decisions taken on each frame of keyboard input, and the bookkeeping that
//! turns loaded scene meshes into colliders.

pub mod ability;
pub mod controls;
pub mod cooldown;
pub mod loading;
