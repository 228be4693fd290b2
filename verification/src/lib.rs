//! LiteList: a desktop to-do list with reminders, notes and goal trees.
//!
//! The verified library holds the document model and its rules; reading and
//! writing files, the local time zone and the window system live in `app/`.
pub mod text;
pub mod model;
pub mod reminders;
pub mod storage;
