//! Verified core of the Small Deck agent: the F13–F24 key protocol of the
//! XPAD, the persisted key → program bindings, the launch decisions and the
//! icon data-URL encoder.

pub mod text;
pub mod xpad;
pub mod store;
pub mod launcher;
pub mod icons;
