pub mod cards;
pub mod coords;
pub mod display;
pub mod messages;
pub mod models;
pub mod names;
pub mod text;
pub mod update;
