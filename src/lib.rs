//! A two-sided lane skirmish simulation: fighters walk toward each other,
//! block, engage, trade blows and siege the far edge for money, while timed
//! effects expire and take their dependents with them.
//!
//! Lengths are measured in millionths of a pixel and times in microseconds,
//! so that one unit of speed moves a fighter three length units per
//! microsecond.
pub mod skills;
pub mod fighter;
pub mod collision;
pub mod world;
pub mod dice;
pub mod combat;
pub mod siege;
pub mod movement;
pub mod economy;
pub mod timeout;
pub mod sim;
