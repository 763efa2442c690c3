//! A status bar core: the status-command feed parser, the measured block
//! cache, the width-fitting block layout and click hit regions.

pub mod button_manager;
pub mod json;
pub mod block;
pub mod i3bar_protocol;
pub mod blocks_cache;
pub mod layout;
pub mod status_feed;
pub mod pointer_btn;
pub mod tags;
pub mod config;
pub mod lines_buffer;
