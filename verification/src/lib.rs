//! Move selection for a Battle Line card-game bot: recognising the formations
//! that a hand can complete on a flag, and choosing the next play.
pub mod card;
pub mod formations;
pub mod hand;
pub mod play;
pub mod bot;
