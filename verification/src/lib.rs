//! Blocks between the lines of an editor.

pub mod block;
pub mod buffer;
pub mod buffer_rows;
pub mod changes;
pub mod chunks;
pub mod effects;
pub mod inputs;
pub mod laws;
pub mod layout;
pub mod likeness;
pub mod lines;
pub mod map;
pub mod names;
pub mod order;
pub mod patch;
pub mod point;
pub mod points;
pub mod render;
pub mod shown;
pub mod snapshot;
pub mod sync;
pub mod table;
pub mod text;
pub mod transforms;
pub mod wrap;
