//! Storage core of a small SQL-like shell: a fixed-layout row codec, fixed-size
//! pages of row slots, and a capacity-bounded table that addresses rows by
//! their logical position.

pub mod layout;
pub mod row;
pub mod codec;
pub mod page;
pub mod table;
pub mod command;
