//! Verified core of the stock calculator and portfolio apps: number text
//! formatting and live reformatting, single-instance bookkeeping, the
//! calculator's input history, the window icon and a few window texts.

pub mod text;
pub mod format;
pub mod icon;
pub mod instance;
pub mod labels;
pub mod model;
