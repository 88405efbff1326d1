pub mod action;
pub mod dispatch;
pub mod entity;
pub mod laws;
pub mod order;
pub mod registry;
pub mod state;
