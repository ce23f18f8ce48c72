//! Price-triggered, crowd-funded missions: a price-drop detector over an
//! oracle feed, and the mission lifecycle that consumes its signal.

pub mod price;
pub mod mission;
