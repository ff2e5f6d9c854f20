//! The decisions of a daemon that adjusts lighting to suit the ambient light.
//!
//! A sensor's raw readings become shares of full light (`sensor`), a control
//! moves toward each share at a steady pace (`control`), and where it stands
//! becomes the raw brightness of a backlight (`control::linux_backlight`). Each
//! of these is a state that takes an event and says what to do about it; waiting
//! for events and doing what is said is up to the caller.
//!
//! All numbers are exact: `binary64` holds the arithmetic that they are computed
//! with, and `laws` modules state what holds of the whole.

pub mod binary64;
pub mod clock;
pub mod config;
pub mod control;
pub mod ipc_server;
pub mod range;
pub mod sensor;
pub mod startup;
