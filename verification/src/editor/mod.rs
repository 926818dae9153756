//! The editor's command language: keystrokes, the commands they make up, and the log of
//! executed commands.

pub mod keystroke_log;
pub mod layout;
pub mod normal_mode;
pub mod state;

pub use crate::base::key_display::{Key, KeyEvent};
