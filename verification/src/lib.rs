//! A desktop selection box for Wayland: the drag state machine, the geometry
//! of the rubber-band rectangle and its rounded corners, the software renderer
//! that paints it, each output's repaint decisions, and the settings.
pub mod config;
pub mod geometry;
pub mod monitor;
pub mod render;
pub mod selection;
