//! The decisions the WebSocket client makes: the socket URL for a
//! configured base URL, the reconnect backoff, request ids, the backlog of
//! events read while waiting for a result, and what each message read
//! during the handshake or while waiting for a request's result means.
use vstd::prelude::*;
use std::collections::VecDeque;
use crate::json::Json;
use crate::ha::protocol::{EventPayload, Incoming, ResultError};
use crate::text::{append_str, chars_of, decimal, decimal_string, string_from_chars, str_eq};

verus! {

/// Requests the app sends to the WebSocket task.
#[derive(Debug, PartialEq)]
pub enum Command {
    CallService {
        domain: String,
        service: String,
        service_data: Option<Json>,
        target: Option<Json>,
    },
}

/// `{"entity_id": id}`: a service call's target.
pub open spec fn is_entity_target(j: Json, id: Seq<char>) -> bool {
    j matches Json::Object(m) && m@.len() == 1 && m@[0].0@ == "entity_id"@ && (m@[0].1 matches Json::Str(s) && s@ == id)
}

/// The target `{"entity_id": id}` of a service call.
pub fn entity_target(id: &str) -> (r: Json)
    ensures
        is_entity_target(r, id@),
{
    let mut m: Vec<(String, Json)> = Vec::new();
    m.push((String::from_str("entity_id"), Json::Str(String::from_str(id))));
    Json::Object(m)
}

// ---------------------------------------------------------------------
// The socket URL
// ---------------------------------------------------------------------

/// `s` without its trailing `/` characters (all of them).
pub open spec fn trim_end_slashes(s: Seq<char>) -> Seq<char>
    decreases s.len(),
{
    if s.len() > 0 && s.last() == '/' {
        trim_end_slashes(s.drop_last())
    } else {
        s
    }
}

/// `s` begins with `p`.
pub open spec fn has_prefix(s: Seq<char>, p: Seq<char>) -> bool {
    p.len() <= s.len() && s.take(p.len() as int) == p
}

/// The WebSocket base for an HTTP(S) or WS(S) base URL: `https://` becomes
/// `wss://`, `http://` becomes `ws://`, `ws://` and `wss://` stay; any other
/// scheme has none.
pub open spec fn ws_base(url: Seq<char>) -> Option<Seq<char>> {
    if has_prefix(url, "https://"@) {
        Some("wss://"@ + url.skip("https://"@.len() as int))
    } else if has_prefix(url, "http://"@) {
        Some("ws://"@ + url.skip("http://"@.len() as int))
    } else if has_prefix(url, "ws://"@) || has_prefix(url, "wss://"@) {
        Some(url)
    } else {
        None
    }
}

/// The WebSocket endpoint of HA at `base_url`: trailing slashes dropped,
/// the scheme mapped by `ws_base`, then `/api/websocket`.
pub open spec fn ws_url(base_url: Seq<char>) -> Option<Seq<char>> {
    match ws_base(trim_end_slashes(base_url)) {
        Some(w) => Some(w + "/api/websocket"@),
        None => None,
    }
}

/// Why a base URL has no WebSocket endpoint.
#[derive(Debug, PartialEq, Eq)]
pub enum WsUrlError {
    /// The URL starts with none of `http://`, `https://`, `ws://`, `wss://`.
    UnsupportedScheme,
}

impl WsUrlError {
    /// The error's text, as the app reports it.
    pub fn message(&self) -> (r: String)
        ensures
            r@ == "ha_url must start with http://, https://, ws:// or wss://"@,
    {
        String::from_str("ha_url must start with http://, https://, ws:// or wss://")
    }
}

/// Whether `s` begins with the characters of `p`.
fn starts_with_chars(s: &Vec<char>, p: &Vec<char>) -> (r: bool)
    ensures
        r == has_prefix(s@, p@),
{
    if p.len() > s.len() {
        return false;
    }
    let mut i: usize = 0;
    while i < p.len()
        invariant
            p.len() <= s.len(),
            i <= p.len(),
            forall|k: int| 0 <= k < i ==> s@[k] == p@[k],
        decreases p.len() - i,
    {
        if s[i] != p[i] {
            assert(s@.take(p.len() as int)[i as int] != p@[i as int]);
            return false;
        }
        i = i + 1;
    }
    assert(s@.take(p.len() as int) =~= p@);
    true
}

/// The characters of `s` from `start` on.
fn chars_from(s: &Vec<char>, start: usize) -> (r: Vec<char>)
    requires
        start <= s.len(),
    ensures
        r@ == s@.skip(start as int),
{
    let mut r: Vec<char> = Vec::new();
    let mut i: usize = start;
    while i < s.len()
        invariant
            start <= i <= s.len(),
            r@ == s@.subrange(start as int, i as int),
        decreases s.len() - i,
    {
        r.push(s[i]);
        i = i + 1;
        assert(r@ =~= s@.subrange(start as int, i as int));
    }
    assert(r@ =~= s@.skip(start as int));
    r
}

proof fn lemma_trim_end_slashes(s: Seq<char>, n: int)
    requires
        0 <= n <= s.len(),
        forall|k: int| n <= k < s.len() ==> s[k] == '/',
        n == 0 || s[n - 1] != '/',
    ensures
        trim_end_slashes(s) == s.take(n),
    decreases s.len(),
{
    if s.len() > 0 && s.last() == '/' {
        if n == s.len() {
            assert(s[n - 1] == s.last());
        }
        lemma_trim_end_slashes(s.drop_last(), n);
        assert(s.drop_last().take(n) =~= s.take(n));
    } else {
        if n < s.len() {
            assert(s[s.len() - 1] == '/');
        }
        assert(s.take(n) =~= s);
    }
}

/// The WebSocket endpoint for a configured `ha_url` (see `ws_url`).
pub fn to_ws_url(base_url: &str) -> (r: Result<String, WsUrlError>)
    ensures
        match r {
            Ok(s) => ws_url(base_url@) == Some(s@),
            Err(e) => ws_url(base_url@) is None && e == WsUrlError::UnsupportedScheme,
        },
{
    let all = chars_of(base_url);
    let mut n: usize = all.len();
    while n > 0 && all[n - 1] == '/'
        invariant
            n <= all.len(),
            forall|k: int| n <= k < all.len() ==> all@[k] == '/',
        decreases n,
    {
        n = n - 1;
    }
    proof {
        lemma_trim_end_slashes(all@, n as int);
    }
    let mut url: Vec<char> = Vec::new();
    let mut i: usize = 0;
    while i < n
        invariant
            n <= all.len(),
            i <= n,
            url@ == all@.take(i as int),
        decreases n - i,
    {
        url.push(all[i]);
        i = i + 1;
        assert(url@ =~= all@.take(i as int));
    }
    let ghost trimmed = trim_end_slashes(base_url@);
    assert(url@ == trimmed);
    let https = chars_of("https://");
    let http = chars_of("http://");
    let ws = chars_of("ws://");
    let wss = chars_of("wss://");
    let mut out: String;
    if starts_with_chars(&url, &https) {
        out = String::from_str("wss://");
        let rest = chars_from(&url, https.len());
        let rest_s = string_from_chars(&rest);
        append_str(&mut out, rest_s.as_str());
    } else if starts_with_chars(&url, &http) {
        out = String::from_str("ws://");
        let rest = chars_from(&url, http.len());
        let rest_s = string_from_chars(&rest);
        append_str(&mut out, rest_s.as_str());
    } else if starts_with_chars(&url, &ws) || starts_with_chars(&url, &wss) {
        out = string_from_chars(&url);
    } else {
        return Err(WsUrlError::UnsupportedScheme);
    }
    append_str(&mut out, "/api/websocket");
    Ok(out)
}

/// `s` ends with `p`.
pub open spec fn has_suffix(s: Seq<char>, p: Seq<char>) -> bool {
    p.len() <= s.len() && s.skip(s.len() - p.len()) == p
}

/// Every WebSocket endpoint is a `ws://` or `wss://` URL ending in
/// `/api/websocket`; the scheme is secure exactly when the base URL's was
/// (`https://` or `wss://`).
pub proof fn lemma_ws_url_shape(base_url: Seq<char>)
    ensures
        ws_url(base_url) matches Some(u) ==> {
            &&& has_suffix(u, "/api/websocket"@)
            &&& has_prefix(u, "ws://"@) || has_prefix(u, "wss://"@)
        },
        has_prefix(trim_end_slashes(base_url), "https://"@) ==> (ws_url(base_url) matches Some(u) && has_prefix(u, "wss://"@)),
        has_prefix(trim_end_slashes(base_url), "http://"@) ==> (ws_url(base_url) matches Some(u) && has_prefix(u, "ws://"@)),
{
    let t = trim_end_slashes(base_url);
    if has_prefix(t, "http://"@) && has_prefix(t, "https://"@) {
        reveal_strlit("http://");
        reveal_strlit("https://");
        assert(t.take(7)[4] == ':');
        assert(t.take(8)[4] == 's');
    }
    match ws_base(t) {
        Some(w) => {
            let u = w + "/api/websocket"@;
            assert(u.skip(u.len() - "/api/websocket"@.len()) =~= "/api/websocket"@);
            if has_prefix(t, "https://"@) {
                let p = "wss://"@;
                assert(w == p + t.skip("https://"@.len() as int));
                assert(u.take(p.len() as int) =~= p);
            } else if has_prefix(t, "http://"@) {
                let p = "ws://"@;
                assert(w == p + t.skip("http://"@.len() as int));
                assert(u.take(p.len() as int) =~= p);
            } else if has_prefix(t, "ws://"@) {
                assert(u.take("ws://"@.len() as int) =~= t.take("ws://"@.len() as int));
            } else {
                assert(u.take("wss://"@.len() as int) =~= t.take("wss://"@.len() as int));
            }
        },
        None => {},
    }
}

// ---------------------------------------------------------------------
// Reconnect backoff
// ---------------------------------------------------------------------

/// The delay before the first reconnect attempt, in seconds.
pub const INITIAL_BACKOFF_SECS: u64 = 1;
/// The longest delay between reconnect attempts, in seconds.
pub const MAX_BACKOFF_SECS: u64 = 30;

/// The delay after one of `secs` seconds failed: doubled, capped at 30 s.
pub open spec fn spec_next_backoff(secs: int) -> int {
    if 2 * secs < MAX_BACKOFF_SECS { 2 * secs } else { MAX_BACKOFF_SECS as int }
}

/// The delay, in seconds, to wait after a failed attempt that waited `secs`.
pub fn next_backoff(secs: u64) -> (r: u64)
    requires
        secs <= u64::MAX / 2,
    ensures
        r == spec_next_backoff(secs as int),
{
    let doubled = secs * 2;
    if doubled < MAX_BACKOFF_SECS { doubled } else { MAX_BACKOFF_SECS }
}

/// The delay before attempt `k + 1`, after `k` failed attempts.
pub open spec fn backoff_after(k: nat) -> int
    decreases k,
{
    if k == 0 {
        INITIAL_BACKOFF_SECS as int
    } else {
        spec_next_backoff(backoff_after((k - 1) as nat))
    }
}

/// `2` to the power `k`.
pub open spec fn doubling(k: nat) -> int
    decreases k,
{
    if k == 0 { 1 } else { 2 * doubling((k - 1) as nat) }
}

proof fn lemma_doubling_positive(k: nat)
    ensures
        doubling(k) >= 1,
    decreases k,
{
    if k > 0 {
        lemma_doubling_positive((k - 1) as nat);
    }
}

/// The delays grow exponentially (1 s, 2 s, 4 s, ...) and are capped at
/// 30 s: after `k` failed attempts the delay is `min(2^k, 30)` seconds.
pub proof fn lemma_backoff_doubles_to_cap(k: nat)
    ensures
        backoff_after(k) == (if doubling(k) < MAX_BACKOFF_SECS { doubling(k) } else { MAX_BACKOFF_SECS as int }),
        1 <= backoff_after(k) <= MAX_BACKOFF_SECS,
    decreases k,
{
    lemma_doubling_positive(k);
    if k > 0 {
        lemma_backoff_doubles_to_cap((k - 1) as nat);
    }
}

// ---------------------------------------------------------------------
// Request ids
// ---------------------------------------------------------------------

/// The counter a connection draws its request ids from. The first id is 1;
/// each draw gives the next (wrapping past `u64::MAX`, as an atomic
/// counter's `fetch_add` does).
#[derive(Debug, Clone, Copy, PartialEq, Eq, Structural)]
pub struct RequestIds {
    pub next: u64,
}

impl RequestIds {
    pub fn new() -> (r: RequestIds)
        ensures
            r.next == 1,
    {
        RequestIds { next: 1 }
    }

    /// Draws an id.
    pub fn next_id(&mut self) -> (r: u64)
        ensures
            r == old(self).next,
            final(self).next == (old(self).next + 1) % 0x1_0000_0000_0000_0000,
    {
        let r = self.next;
        self.next = if r == u64::MAX { 0 } else { r + 1 };
        r
    }
}

/// Two successive draws never give the same id.
pub proof fn lemma_successive_ids_differ(first: u64)
    ensures
        ((first + 1) % 0x1_0000_0000_0000_0000) as u64 != first,
{
}

// ---------------------------------------------------------------------
// Events read while waiting for a result
// ---------------------------------------------------------------------

/// The `Event` messages that arrived while the connection waited for an
/// unrelated request's result, oldest first. They are handed out before the
/// socket is read again, so events reach the app in wire order.
#[derive(Debug)]
pub struct PendingEvents {
    pub queue: VecDeque<Incoming>,
}

impl View for PendingEvents {
    type V = Seq<Incoming>;

    open spec fn view(&self) -> Seq<Incoming> {
        self.queue@
    }
}

impl PendingEvents {
    pub fn new() -> (r: PendingEvents)
        ensures
            r@ == Seq::<Incoming>::empty(),
    {
        PendingEvents { queue: VecDeque::new() }
    }

    /// Queues an event behind those already waiting.
    pub fn push_back(&mut self, event: Incoming)
        ensures
            final(self)@ == old(self)@.push(event),
    {
        self.queue.push_back(event);
    }

    /// The oldest waiting event, if any, taken off the queue.
    pub fn pop_front(&mut self) -> (r: Option<Incoming>)
        ensures
            old(self)@.len() == 0 ==> r is None && final(self)@ == old(self)@,
            old(self)@.len() > 0 ==> r == Some(old(self)@[0]) && final(self)@ == old(self)@.drop_first(),
    {
        let r = self.queue.pop_front();
        proof {
            if old(self)@.len() > 0 {
                assert(self@ =~= old(self)@.drop_first());
            }
        }
        r
    }
}

/// Events come out of the backlog in the order they went in: after queueing
/// `a` then `b` behind the backlog `q`, the first draw that reaches them
/// gives `a` and the next gives `b`.
pub proof fn lemma_pending_events_in_order(q: Seq<Incoming>, a: Incoming, b: Incoming)
    ensures
        q.push(a).push(b).skip(q.len() as int)[0] == a,
        q.push(a).push(b).skip(q.len() as int)[1] == b,
        q.push(a).push(b).skip(q.len() as int).len() == 2,
{
}

// ---------------------------------------------------------------------
// The handshake and waiting for a result
// ---------------------------------------------------------------------

/// How the auth handshake ends, read from HA's reply to our token.
#[derive(Debug, PartialEq)]
pub enum AuthOutcome {
    /// `auth_ok`: the connection is ready.
    Accepted,
    /// `auth_invalid`, with HA's message (empty when it gave none).
    Rejected(String),
    /// Any other message.
    Unexpected(Incoming),
}

/// HA's first message must be `auth_required`.
pub fn expects_token(msg: &Incoming) -> (r: bool)
    ensures
        r == (*msg is AuthRequired),
{
    match msg {
        Incoming::AuthRequired { .. } => true,
        _ => false,
    }
}

/// What HA's reply to our token means.
pub fn auth_outcome(msg: Incoming) -> (r: AuthOutcome)
    ensures
        (msg is AuthOk) <==> (r is Accepted),
        msg matches Incoming::AuthInvalid { message } ==> (r matches AuthOutcome::Rejected(m) && m@ == match message {
            Some(t) => t@,
            None => Seq::<char>::empty(),
        }),
        !(msg is AuthOk) && !(msg is AuthInvalid) ==> r == AuthOutcome::Unexpected(msg),
{
    match msg {
        Incoming::AuthOk { .. } => AuthOutcome::Accepted,
        Incoming::AuthInvalid { message } => match message {
            Some(t) => AuthOutcome::Rejected(t),
            None => AuthOutcome::Rejected(String::new()),
        },
        other => AuthOutcome::Unexpected(other),
    }
}

/// What one message read while waiting for the result of request `id`
/// means.
#[derive(Debug, PartialEq)]
pub enum AwaitStep {
    /// The result of `id` arrived and reports success, with its payload.
    Done(Option<Json>),
    /// The result of `id` arrived and reports failure; the text says why.
    Failed(String),
    /// An event: keep it for the app, and keep waiting.
    Queue(Incoming),
    /// Anything else (another request's result, ...): keep waiting.
    Skip,
}

/// `HA command {id} failed: {msg}`.
pub open spec fn failure_text(id: u64, msg: Seq<char>) -> Seq<char> {
    "HA command "@ + decimal(id as nat) + " failed: "@ + msg
}

/// The reason a failed result gives: its error's message, or
/// `unknown error` when it has none.
pub open spec fn failure_reason(error: Option<ResultError>) -> Seq<char> {
    match error {
        Some(e) => match e.message {
            Some(m) => m@,
            None => "unknown error"@,
        },
        None => "unknown error"@,
    }
}

/// Decides what a message read while waiting for request `id` means.
pub fn await_step(id: u64, msg: Incoming) -> (r: AwaitStep)
    ensures
        match msg {
            Incoming::Result { id: rid, success, result, error } => if rid == id {
                if success {
                    r == AwaitStep::Done(result)
                } else {
                    r matches AwaitStep::Failed(t) && t@ == failure_text(id, failure_reason(error))
                }
            } else {
                r is Skip
            },
            Incoming::Event { .. } => r == AwaitStep::Queue(msg),
            _ => r is Skip,
        },
{
    match msg {
        Incoming::Result { id: rid, success, result, error } => {
            if rid != id {
                return AwaitStep::Skip;
            }
            if success {
                return AwaitStep::Done(result);
            }
            let reason: String = match error {
                Some(e) => match e.message {
                    Some(m) => m,
                    None => String::from_str("unknown error"),
                },
                None => String::from_str("unknown error"),
            };
            let mut t = String::from_str("HA command ");
            let num = decimal_string(id);
            append_str(&mut t, num.as_str());
            append_str(&mut t, " failed: ");
            append_str(&mut t, reason.as_str());
            AwaitStep::Failed(t)
        },
        Incoming::Event { id: eid, event } => AwaitStep::Queue(Incoming::Event { id: eid, event }),
        _ => AwaitStep::Skip,
    }
}

/// The `data` of `event` when it is a `state_changed` event.
pub open spec fn spec_state_changed_data(event: EventPayload) -> Option<Json> {
    match event.event_type {
        Some(t) => if t@ == "state_changed"@ { event.data } else { None },
        None => None,
    }
}

/// The `data` of a `state_changed` event; `None` for any other event type
/// or an event without data.
pub fn state_changed_data(event: &EventPayload) -> (r: Option<&Json>)
    ensures
        match r {
            Some(d) => spec_state_changed_data(*event) == Some(*d),
            None => spec_state_changed_data(*event) is None,
        },
{
    match &event.event_type {
        Some(t) => {
            if str_eq(t.as_str(), "state_changed") {
                match &event.data {
                    Some(d) => Some(d),
                    None => None,
                }
            } else {
                None
            }
        },
        None => None,
    }
}

/// What the event loop does with one read from the socket.
#[derive(Debug, PartialEq)]
pub enum SocketStep {
    /// A `state_changed` event: its data, to parse and hand to the app.
    Changed(Json),
    /// Anything else: keep reading.
    Ignore,
    /// The connection closed: reconnect.
    Reconnect,
}

/// Decides what a read from the socket means (`None`: the stream ended).
pub fn on_socket_read(read: Option<Incoming>) -> (r: SocketStep)
    ensures
        match read {
            None => r is Reconnect,
            Some(Incoming::Event { event, .. }) => match spec_state_changed_data(event) {
                Some(d) => r == SocketStep::Changed(d),
                None => r is Ignore,
            },
            Some(_) => r is Ignore,
        },
{
    match read {
        None => SocketStep::Reconnect,
        Some(Incoming::Event { id: _, event }) => {
            let is_change = state_changed_data(&event).is_some();
            if is_change {
                match event.data {
                    Some(d) => SocketStep::Changed(d),
                    None => SocketStep::Ignore,
                }
            } else {
                SocketStep::Ignore
            }
        },
        Some(_) => SocketStep::Ignore,
    }
}

} // verus!
