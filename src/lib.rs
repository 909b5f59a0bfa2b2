//! Space bookkeeping for a compositor: which windows and layers sit where,
//! which outputs they show on, and what part of each output must be repainted.
//!
//! A frame goes: `Space::refresh` (enter and leave notifications),
//! `Space::render_output` (the damage and what to repaint), the renderer's
//! work, `Space::finish_render`, then `Space::send_frames`.
pub mod geometry;
pub mod damage;
pub mod side_table;
pub mod entity;
pub mod ids;
pub mod painted;
pub mod frame;
pub mod membership;
pub mod space;
pub mod lemmas;
