//! A retained-mode user interface runtime.
//!
//! The runtime keeps a tree of entities, resolves their styles, has their layout
//! computed, hands events to their handlers along the tree, and rebuilds the views
//! that watch application data when that data changes. A frame is taken step by
//! step through [`application::Application::advance`], which says after each step
//! what the platform has to do next.
//!
//! Lengths are whole layout units throughout.

pub mod application;
pub mod binding;
pub mod cache;
pub mod context;
pub mod draw;
pub mod entity;
pub mod events;
pub mod hover_system;
pub mod layout;
pub mod mouse;
pub mod resource;
pub mod storage;
pub mod style;
pub mod style_system;
pub mod tree;
