//! The shapes of Home Assistant's WebSocket messages, as plain values. The
//! wire encoding (JSON with a `type` tag) is read and written around the
//! library; these are what the library decides on.
use vstd::prelude::*;
use crate::json::Json;

verus! {

/// Messages sent from HA to us over the WS connection. Unknown message
/// types become `Other`, so an unexpected shape never stops the client.
#[derive(Debug, PartialEq)]
pub enum Incoming {
    AuthRequired { ha_version: Option<String> },
    AuthOk { ha_version: Option<String> },
    AuthInvalid { message: Option<String> },
    Result { id: u64, success: bool, result: Option<Json>, error: Option<ResultError> },
    Event { id: u64, event: EventPayload },
    Other,
}

#[derive(Debug, Clone, PartialEq)]
pub struct ResultError {
    pub code: Option<String>,
    pub message: Option<String>,
}

#[derive(Debug, PartialEq)]
pub struct EventPayload {
    pub event_type: Option<String>,
    pub data: Option<Json>,
}

/// A parsed `state_changed` event's `data` field.
#[derive(Debug, PartialEq)]
pub struct StateChangedData {
    pub entity_id: String,
    pub old_state: Option<StateObject>,
    pub new_state: Option<StateObject>,
}

/// One entity's state as HA reports it.
#[derive(Debug, PartialEq)]
pub struct StateObject {
    pub entity_id: String,
    pub state: String,
    pub attributes: Json,
    pub last_updated: Option<String>,
    pub last_changed: Option<String>,
}

/// An area (room) of the area registry.
#[derive(Debug, Clone, PartialEq)]
pub struct AreaEntry {
    pub area_id: String,
    pub name: String,
}

/// A device of the device registry, with the area it is placed in.
#[derive(Debug, Clone, PartialEq)]
pub struct DeviceEntry {
    pub id: String,
    pub area_id: Option<String>,
}

/// An entity of the entity registry: its own area and its device.
#[derive(Debug, Clone, PartialEq)]
pub struct EntityRegistryEntry {
    pub entity_id: String,
    pub device_id: Option<String>,
    pub area_id: Option<String>,
}

/// Messages we send to HA. Each request carries an `id` from the
/// connection's counter, except `Auth`, which comes before any request.
#[derive(Debug, PartialEq)]
pub enum Outgoing {
    Auth { access_token: String },
    SubscribeEvents { id: u64, event_type: Option<String> },
    GetStates { id: u64 },
    AreaRegistryList { id: u64 },
    DeviceRegistryList { id: u64 },
    EntityRegistryList { id: u64 },
    LovelaceConfig { id: u64 },
    HistoryDuringPeriod {
        id: u64,
        start_time: String,
        entity_ids: Vec<String>,
        minimal_response: bool,
        no_attributes: bool,
    },
    CallService {
        id: u64,
        domain: String,
        service: String,
        service_data: Option<Json>,
        target: Option<Json>,
    },
}

} // verus!
