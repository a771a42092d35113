//! The client: what a player sees and what the keys do.

pub mod app;
pub mod chart;
pub mod coast;
pub mod courses;
pub mod hints;
pub mod hulls;
pub mod input;
pub mod laws;
pub mod news;
pub mod overview;
pub mod picture;
pub mod render;
pub mod sailing;
pub mod scene;
pub mod screens;
pub mod session;
pub mod steps;
pub mod titles;
pub mod typing;
pub mod version;
