//! The data model and navigation of a multi-day MLB schedule display: the
//! rules that turn fetched schedule days and recap images into an ordered
//! board of display-ready game records, and the focus state machine over
//! that board.
pub mod board;
pub mod game;
pub mod nav;
