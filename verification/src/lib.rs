//! A font toolbox: the text, selection and reporting logic behind its tools.

pub mod text;
pub mod support;
pub mod naming;
pub mod features;
pub mod scanning;
pub mod layout;
pub mod dispatch;
