//! Window selection for the kitty terminal: the rows offered to the
//! fuzzy finder, the preview shown beside them, and the decisions taken on
//! the windows that were picked.

pub mod text;
pub mod kitty_api;
pub mod utils;
pub mod encoding;
pub mod display;
pub mod order;
pub mod preview;
pub mod selection;
pub mod kitty_client;
pub mod fzf;
pub mod ranking;
