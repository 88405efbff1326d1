use ha_tui::ha::client::{
    auth_outcome, await_step, entity_target, expects_token, next_backoff, state_changed_data, to_ws_url, AuthOutcome,
    AwaitStep, PendingEvents, RequestIds, WsUrlError, INITIAL_BACKOFF_SECS, MAX_BACKOFF_SECS,
};
use ha_tui::ha::client::{on_socket_read, SocketStep};
use ha_tui::ha::protocol::{EventPayload, Incoming, ResultError};
use ha_tui::json::{Json, JsonNumber};

fn event(id: u64, event_type: &str) -> Incoming {
    Incoming::Event {
        id,
        event: EventPayload { event_type: Some(event_type.to_string()), data: None },
    }
}

#[test]
fn https_becomes_wss_and_http_becomes_ws() {
    assert_eq!(to_ws_url("https://ha.example.com").unwrap(), "wss://ha.example.com/api/websocket");
    assert_eq!(to_ws_url("http://homeassistant.local:8123").unwrap(), "ws://homeassistant.local:8123/api/websocket");
}

#[test]
fn ws_schemes_are_kept_and_trailing_slashes_dropped() {
    assert_eq!(to_ws_url("ws://10.0.0.2:8123/").unwrap(), "ws://10.0.0.2:8123/api/websocket");
    assert_eq!(to_ws_url("wss://ha.example.com///").unwrap(), "wss://ha.example.com/api/websocket");
    assert_eq!(to_ws_url("https://ha.example.com/sub/").unwrap(), "wss://ha.example.com/sub/api/websocket");
}

#[test]
fn other_schemes_are_refused() {
    assert_eq!(to_ws_url("ftp://ha.example.com"), Err(WsUrlError::UnsupportedScheme));
    assert_eq!(to_ws_url("ha.example.com"), Err(WsUrlError::UnsupportedScheme));
    assert_eq!(to_ws_url(""), Err(WsUrlError::UnsupportedScheme));
    assert_eq!(
        WsUrlError::UnsupportedScheme.message(),
        "ha_url must start with http://, https://, ws:// or wss://"
    );
}

#[test]
fn backoff_doubles_up_to_thirty_seconds() {
    let mut delays = vec![INITIAL_BACKOFF_SECS];
    for _ in 0..7 {
        let last = *delays.last().unwrap();
        delays.push(next_backoff(last));
    }
    assert_eq!(delays, vec![1, 2, 4, 8, 16, 30, 30, 30]);
    assert_eq!(next_backoff(MAX_BACKOFF_SECS), 30);
    assert_eq!(next_backoff(14), 28);
    assert_eq!(next_backoff(15), 30);
}

#[test]
fn request_ids_count_up_from_one() {
    let mut ids = RequestIds::new();
    assert_eq!(ids.next_id(), 1);
    assert_eq!(ids.next_id(), 2);
    assert_eq!(ids.next_id(), 3);
    let mut last = RequestIds { next: u64::MAX };
    assert_eq!(last.next_id(), u64::MAX);
    assert_eq!(last.next_id(), 0);
}

#[test]
fn pending_events_come_out_in_arrival_order() {
    let mut q = PendingEvents::new();
    assert_eq!(q.pop_front(), None);
    q.push_back(event(1, "a"));
    q.push_back(event(2, "b"));
    assert_eq!(q.pop_front(), Some(event(1, "a")));
    q.push_back(event(3, "c"));
    assert_eq!(q.pop_front(), Some(event(2, "b")));
    assert_eq!(q.pop_front(), Some(event(3, "c")));
    assert_eq!(q.pop_front(), None);
}

#[test]
fn handshake_expects_auth_required_then_auth_ok() {
    assert!(expects_token(&Incoming::AuthRequired { ha_version: Some("2026.9".into()) }));
    assert!(!expects_token(&Incoming::AuthOk { ha_version: None }));
    assert_eq!(auth_outcome(Incoming::AuthOk { ha_version: None }), AuthOutcome::Accepted);
    assert_eq!(
        auth_outcome(Incoming::AuthInvalid { message: Some("Invalid access token".into()) }),
        AuthOutcome::Rejected("Invalid access token".into())
    );
    assert_eq!(auth_outcome(Incoming::AuthInvalid { message: None }), AuthOutcome::Rejected(String::new()));
    assert_eq!(auth_outcome(Incoming::Other), AuthOutcome::Unexpected(Incoming::Other));
}

#[test]
fn waiting_for_a_result_queues_events_and_skips_other_results() {
    let payload = Json::Number(JsonNumber { as_u64: Some(7), text: "7".into() });
    let done = await_step(5, Incoming::Result { id: 5, success: true, result: Some(payload), error: None });
    assert_eq!(done, AwaitStep::Done(Some(Json::Number(JsonNumber { as_u64: Some(7), text: "7".into() }))));
    assert_eq!(
        await_step(5, Incoming::Result { id: 4, success: true, result: None, error: None }),
        AwaitStep::Skip
    );
    assert_eq!(await_step(5, event(2, "state_changed")), AwaitStep::Queue(event(2, "state_changed")));
    assert_eq!(await_step(5, Incoming::Other), AwaitStep::Skip);
}

#[test]
fn a_failed_result_names_the_command_and_the_reason() {
    let failed = await_step(
        12,
        Incoming::Result {
            id: 12,
            success: false,
            result: None,
            error: Some(ResultError { code: Some("not_found".into()), message: Some("Entity not found".into()) }),
        },
    );
    assert_eq!(failed, AwaitStep::Failed("HA command 12 failed: Entity not found".into()));
    let unknown = await_step(3, Incoming::Result { id: 3, success: false, result: None, error: None });
    assert_eq!(unknown, AwaitStep::Failed("HA command 3 failed: unknown error".into()));
    let no_message = await_step(
        3,
        Incoming::Result { id: 3, success: false, result: None, error: Some(ResultError { code: None, message: None }) },
    );
    assert_eq!(no_message, AwaitStep::Failed("HA command 3 failed: unknown error".into()));
}

#[test]
fn only_state_changed_events_hand_out_their_data() {
    let data = Json::Object(vec![("entity_id".to_string(), Json::Str("light.a".into()))]);
    let changed = EventPayload { event_type: Some("state_changed".into()), data: Some(data) };
    assert_eq!(
        state_changed_data(&changed),
        Some(&Json::Object(vec![("entity_id".to_string(), Json::Str("light.a".into()))]))
    );
    let other = EventPayload { event_type: Some("call_service".into()), data: Some(Json::Null) };
    assert_eq!(state_changed_data(&other), None);
    let untyped = EventPayload { event_type: None, data: Some(Json::Null) };
    assert_eq!(state_changed_data(&untyped), None);
    let empty = EventPayload { event_type: Some("state_changed".into()), data: None };
    assert_eq!(state_changed_data(&empty), None);
}

#[test]
fn service_targets_name_the_entity() {
    assert_eq!(
        entity_target("light.a"),
        Json::Object(vec![("entity_id".to_string(), Json::Str("light.a".into()))])
    );
}

#[test]
fn socket_reads_decide_forward_ignore_or_reconnect() {
    assert_eq!(on_socket_read(None), SocketStep::Reconnect);
    assert_eq!(on_socket_read(Some(Incoming::Other)), SocketStep::Ignore);
    assert_eq!(on_socket_read(Some(event(1, "call_service"))), SocketStep::Ignore);
    let data = Json::Object(vec![("entity_id".to_string(), Json::Str("light.a".into()))]);
    let changed = Incoming::Event {
        id: 9,
        event: EventPayload { event_type: Some("state_changed".into()), data: Some(data) },
    };
    assert_eq!(
        on_socket_read(Some(changed)),
        SocketStep::Changed(Json::Object(vec![("entity_id".to_string(), Json::Str("light.a".into()))]))
    );
}
