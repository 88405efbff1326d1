//! A terminal client for Home Assistant: the entity model, the room and
//! dashboard grouping, selection and filtering, the Lovelace dashboard
//! import and the small pieces of the WebSocket protocol the client decides on.
pub mod text;
pub mod ui;
pub mod json;
pub mod app;
pub mod ha;
pub mod config;
