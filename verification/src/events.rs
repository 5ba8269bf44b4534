pub mod event;
pub mod event_manager;
