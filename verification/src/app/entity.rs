//! A live entity and the typed views over its attributes for the domains
//! the dashboard renders specially.
use vstd::prelude::*;
use crate::json::{Json, JsonNumber};
use crate::ha::protocol::StateObject;
use crate::text::{decimal, decimal_string, append_str, str_eq};

verus! {

/// A live entity: its identity, current state string, and raw attributes.
/// Domain-specific fields are read through the typed views (`as_light`,
/// `as_switch`, ...) rather than copied onto this struct.
#[derive(Debug)]
pub struct Entity {
    pub entity_id: String,
    pub domain: String,
    pub state: String,
    pub attributes: Json,
    pub last_updated: Option<String>,
}

/// The characters of an entity id before its first `.` (the whole id when
/// it has none): `light.kitchen` has domain `light`.
pub open spec fn spec_domain_of(id: Seq<char>) -> Seq<char>
    decreases id.len(),
{
    if id.len() == 0 || id[0] == '.' {
        Seq::empty()
    } else {
        seq![id[0]] + spec_domain_of(id.drop_first())
    }
}

/// An entity's domain is the part of its id before the first `.`: a
/// prefix of the id with no `.` in it, followed by a `.` unless it is the
/// whole id.
pub proof fn lemma_domain_is_prefix_before_dot(id: Seq<char>)
    ensures
        spec_domain_of(id).len() <= id.len(),
        id.take(spec_domain_of(id).len() as int) == spec_domain_of(id),
        forall|k: int| 0 <= k < spec_domain_of(id).len() ==> #[trigger] spec_domain_of(id)[k] != '.',
        spec_domain_of(id).len() < id.len() ==> id[spec_domain_of(id).len() as int] == '.',
    decreases id.len(),
{
    if id.len() > 0 && id[0] != '.' {
        let rest = id.drop_first();
        lemma_domain_is_prefix_before_dot(rest);
        let d = spec_domain_of(rest);
        assert(spec_domain_of(id) == seq![id[0]] + d);
        assert(id.take(d.len() + 1int) =~= seq![id[0]] + rest.take(d.len() as int));
        assert forall|k: int| 0 <= k < d.len() + 1int implies #[trigger] (seq![id[0]] + d)[k] != '.' by {
            if k > 0 {
                assert((seq![id[0]] + d)[k] == d[k - 1]);
            }
        }
        if d.len() < rest.len() {
            assert(id[d.len() + 1int] == rest[d.len() as int]);
        }
    } else {
        assert(id.take(0) =~= Seq::<char>::empty());
    }
}

pub fn domain_of(entity_id: &str) -> (r: String)
    ensures
        r@ == spec_domain_of(entity_id@),
{
    let n = entity_id.unicode_len();
    let mut r = String::new();
    let mut i: usize = 0;
    let mut done = false;
    assert(entity_id@.skip(0) =~= entity_id@);
    while i < n && !done
        invariant
            n == entity_id@.len(),
            i <= n,
            done ==> i < n && entity_id@[i as int] == '.',
            spec_domain_of(entity_id@) == r@ + spec_domain_of(entity_id@.skip(i as int)),
        decreases n - i + (if done { 0int } else { 1int }),
    {
        let c = entity_id.get_char(i);
        if c == '.' {
            done = true;
        } else {
            proof {
                let rest = entity_id@.skip(i as int);
                assert(rest[0] == c);
                assert(rest.drop_first() =~= entity_id@.skip(i + 1));
                assert(r@.push(c) + spec_domain_of(entity_id@.skip(i + 1)) =~= r@ + (seq![c]
                    + spec_domain_of(entity_id@.skip(i + 1))));
            }
            crate::text::push_char(&mut r, c);
            i = i + 1;
        }
    }
    proof {
        let rest = entity_id@.skip(i as int);
        if done {
            assert(rest[0] == '.');
        }
        assert(spec_domain_of(rest) =~= Seq::<char>::empty());
        assert(r@ + Seq::<char>::empty() =~= r@);
    }
    r
}

/// `Some(text)` of a JSON number, as `Value::as_f64` would read it.
pub open spec fn spec_number_text(v: Option<Json>) -> Option<Seq<char>> {
    match v {
        Some(Json::Number(n)) => Some(n.text@),
        _ => None,
    }
}

/// `Some(s)` of a JSON string.
pub open spec fn spec_str_of(v: Option<Json>) -> Option<Seq<char>> {
    match v {
        Some(Json::Str(s)) => Some(s@),
        _ => None,
    }
}

/// `Some(n)` of a JSON number that is a non-negative integer fitting in `u64`.
pub open spec fn spec_u64_of(v: Option<Json>) -> Option<u64> {
    match v {
        Some(Json::Number(n)) => n.as_u64,
        _ => None,
    }
}

/// How an entity's state reads in the entity list. The sensor and climate
/// forms carry the raw texts their numbers are rendered from.
#[derive(Debug, Clone, PartialEq)]
pub enum StateText {
    Text(String),
    Sensor { value: String, unit: Option<String> },
    Climate { hvac_mode: String, current: Option<String>, target: Option<String> },
}

pub ghost enum StateTextView {
    Text(Seq<char>),
    Sensor { value: Seq<char>, unit: Option<Seq<char>> },
    Climate { hvac_mode: Seq<char>, current: Option<Seq<char>>, target: Option<Seq<char>> },
}

pub open spec fn opt_view(o: Option<String>) -> Option<Seq<char>> {
    match o {
        Some(s) => Some(s@),
        None => None,
    }
}

impl View for StateText {
    type V = StateTextView;

    open spec fn view(&self) -> StateTextView {
        match self {
            StateText::Text(s) => StateTextView::Text(s@),
            StateText::Sensor { value, unit } => StateTextView::Sensor { value: value@, unit: opt_view(*unit) },
            StateText::Climate { hvac_mode, current, target } => StateTextView::Climate {
                hvac_mode: hvac_mode@,
                current: opt_view(*current),
                target: opt_view(*target),
            },
        }
    }
}

/// The text of a light's state: `on (brightness B/255)`, `on`, or `off`.
pub open spec fn light_text(on: bool, brightness: Option<u8>) -> Seq<char> {
    if on {
        match brightness {
            Some(b) => "on (brightness "@ + decimal(b as nat) + "/255)"@,
            None => "on"@,
        }
    } else {
        "off"@
    }
}

pub fn light_state_text(on: bool, brightness: Option<u8>) -> (r: String)
    ensures
        r@ == light_text(on, brightness),
{
    if on {
        match brightness {
            Some(b) => {
                let mut s = String::from_str("on (brightness ");
                let d = decimal_string(b as u64);
                append_str(&mut s, d.as_str());
                append_str(&mut s, "/255)");
                s
            },
            None => String::from_str("on"),
        }
    } else {
        String::from_str("off")
    }
}

impl Entity {
    pub open spec fn spec_friendly_name(&self) -> Seq<char> {
        match spec_str_of(self.attributes.spec_get("friendly_name"@)) {
            Some(name) => name,
            None => self.entity_id@,
        }
    }

    pub open spec fn spec_is_on(&self) -> bool {
        self.state@ == "on"@
    }

    pub open spec fn spec_brightness(&self) -> Option<u8> {
        match spec_u64_of(self.attributes.spec_get("brightness"@)) {
            Some(v) => Some(v as u8),
            None => None,
        }
    }

    pub open spec fn spec_unit(&self) -> Option<Seq<char>> {
        spec_str_of(self.attributes.spec_get("unit_of_measurement"@))
    }

    /// What `display_state` gives for this entity.
    pub open spec fn spec_display(&self) -> StateTextView {
        if self.domain@ == "light"@ {
            StateTextView::Text(light_text(self.spec_is_on(), self.spec_brightness()))
        } else if self.domain@ == "climate"@ {
            StateTextView::Climate {
                hvac_mode: self.state@,
                current: spec_number_text(self.attributes.spec_get("current_temperature"@)),
                target: spec_number_text(self.attributes.spec_get("temperature"@)),
            }
        } else if self.domain@ == "switch"@ {
            StateTextView::Text(if self.spec_is_on() { "on"@ } else { "off"@ })
        } else if self.domain@ == "sensor"@ {
            StateTextView::Sensor { value: self.state@, unit: self.spec_unit() }
        } else {
            StateTextView::Text(self.state@)
        }
    }

    pub fn from_state(state: StateObject) -> (r: Entity)
        ensures
            r.entity_id@ == state.entity_id@,
            r.domain@ == spec_domain_of(state.entity_id@),
            r.state@ == state.state@,
            r.attributes == state.attributes,
            r.last_updated == state.last_updated,
    {
        let domain = domain_of(state.entity_id.as_str());
        Entity {
            domain,
            entity_id: state.entity_id,
            state: state.state,
            attributes: state.attributes,
            last_updated: state.last_updated,
        }
    }

    /// The `friendly_name` attribute when it is a string, else the entity id.
    pub fn friendly_name(&self) -> (r: &str)
        ensures
            r@ == self.spec_friendly_name(),
    {
        match self.attributes.get("friendly_name") {
            Some(v) => match v.as_str() {
                Some(s) => s,
                None => self.entity_id.as_str(),
            },
            None => self.entity_id.as_str(),
        }
    }

    pub fn is_unavailable(&self) -> (r: bool)
        ensures
            r == (self.state@ == "unavailable"@ || self.state@ == "unknown"@),
    {
        str_eq(self.state.as_str(), "unavailable") || str_eq(self.state.as_str(), "unknown")
    }

    pub fn as_light(&self) -> (r: Option<LightView<'_>>)
        ensures
            r is Some <==> self.domain@ == "light"@,
            r matches Some(v) ==> v.0 == self,
    {
        if str_eq(self.domain.as_str(), "light") { Some(LightView(self)) } else { None }
    }

    pub fn as_switch(&self) -> (r: Option<SwitchView<'_>>)
        ensures
            r is Some <==> self.domain@ == "switch"@,
            r matches Some(v) ==> v.0 == self,
    {
        if str_eq(self.domain.as_str(), "switch") { Some(SwitchView(self)) } else { None }
    }

    pub fn as_climate(&self) -> (r: Option<ClimateView<'_>>)
        ensures
            r is Some <==> self.domain@ == "climate"@,
            r matches Some(v) ==> v.0 == self,
    {
        if str_eq(self.domain.as_str(), "climate") { Some(ClimateView(self)) } else { None }
    }

    pub fn as_sensor(&self) -> (r: Option<SensorView<'_>>)
        ensures
            r is Some <==> self.domain@ == "sensor"@,
            r matches Some(v) ==> v.0 == self,
    {
        if str_eq(self.domain.as_str(), "sensor") { Some(SensorView(self)) } else { None }
    }

    /// Human-readable state for the entity list, with domain-specific
    /// detail (brightness, temperatures, unit) where a typed view exists.
    pub fn display_state(&self) -> (r: StateText)
        ensures
            r@ == self.spec_display(),
    {
        if let Some(light) = self.as_light() {
            return StateText::Text(light_state_text(light.is_on(), light.brightness()));
        }
        if let Some(climate) = self.as_climate() {
            let current = match climate.current_temperature_text() {
                Some(t) => Some(String::from_str(t)),
                None => None,
            };
            let target = match climate.target_temperature_text() {
                Some(t) => Some(String::from_str(t)),
                None => None,
            };
            return StateText::Climate { hvac_mode: String::from_str(climate.hvac_mode()), current, target };
        }
        if let Some(switch) = self.as_switch() {
            return StateText::Text(if switch.is_on() { String::from_str("on") } else { String::from_str("off") });
        }
        if let Some(sensor) = self.as_sensor() {
            let unit = match sensor.unit() {
                Some(u) => Some(String::from_str(u)),
                None => None,
            };
            return StateText::Sensor { value: String::from_str(sensor.value()), unit };
        }
        StateText::Text(self.state.clone())
    }
}

/// The text of a JSON number attribute.
fn number_attr<'a>(entity: &'a Entity, key: &str) -> (r: Option<&'a str>)
    ensures
        r is Some <==> spec_number_text(entity.attributes.spec_get(key@)) is Some,
        r matches Some(t) ==> spec_number_text(entity.attributes.spec_get(key@)) == Some(t@),
{
    match entity.attributes.get(key) {
        Some(Json::Number(n)) => Some(n.text.as_str()),
        _ => None,
    }
}

pub struct LightView<'a>(pub &'a Entity);

impl LightView<'_> {
    pub fn is_on(&self) -> (r: bool)
        ensures
            r == self.0.spec_is_on(),
    {
        str_eq(self.0.state.as_str(), "on")
    }

    /// The `brightness` attribute, truncated to a byte as HA's 0-255 scale.
    pub fn brightness(&self) -> (r: Option<u8>)
        ensures
            r == self.0.spec_brightness(),
    {
        match self.0.attributes.get("brightness") {
            Some(v) => match v.as_u64() {
                Some(b) => Some(b as u8),
                None => None,
            },
            None => None,
        }
    }

    pub fn color_temp(&self) -> (r: Option<u32>)
        ensures
            r == (match spec_u64_of(self.0.attributes.spec_get("color_temp"@)) {
                Some(v) => Some(v as u32),
                None => None,
            }),
    {
        match self.0.attributes.get("color_temp") {
            Some(v) => match v.as_u64() {
                Some(t) => Some(t as u32),
                None => None,
            },
            None => None,
        }
    }
}

pub struct SwitchView<'a>(pub &'a Entity);

impl SwitchView<'_> {
    pub fn is_on(&self) -> (r: bool)
        ensures
            r == self.0.spec_is_on(),
    {
        str_eq(self.0.state.as_str(), "on")
    }
}

pub struct ClimateView<'a>(pub &'a Entity);

impl ClimateView<'_> {
    /// HA models a climate entity's state as its hvac mode ("off", "heat", ...).
    pub fn hvac_mode(&self) -> (r: &str)
        ensures
            r@ == self.0.state@,
    {
        self.0.state.as_str()
    }

    /// The text of the `current_temperature` attribute when it is a number.
    pub fn current_temperature_text(&self) -> (r: Option<&str>)
        ensures
            r is Some <==> spec_number_text(self.0.attributes.spec_get("current_temperature"@)) is Some,
            r matches Some(t) ==> spec_number_text(self.0.attributes.spec_get("current_temperature"@)) == Some(t@),
    {
        number_attr(self.0, "current_temperature")
    }

    /// The text of the `temperature` (target) attribute when it is a number.
    pub fn target_temperature_text(&self) -> (r: Option<&str>)
        ensures
            r is Some <==> spec_number_text(self.0.attributes.spec_get("temperature"@)) is Some,
            r matches Some(t) ==> spec_number_text(self.0.attributes.spec_get("temperature"@)) == Some(t@),
    {
        number_attr(self.0, "temperature")
    }
}

pub struct SensorView<'a>(pub &'a Entity);

impl SensorView<'_> {
    pub fn value(&self) -> (r: &str)
        ensures
            r@ == self.0.state@,
    {
        self.0.state.as_str()
    }

    pub fn unit(&self) -> (r: Option<&str>)
        ensures
            r is Some <==> self.0.spec_unit() is Some,
            r matches Some(u) ==> self.0.spec_unit() == Some(u@),
    {
        match self.0.attributes.get("unit_of_measurement") {
            Some(v) => v.as_str(),
            None => None,
        }
    }
}

} // verus!
