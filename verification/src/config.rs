//! The configuration the client runs with, and the dashboard layout model
//! (tabs of cards of entity ids) that configured or imported dashboards use.
use vstd::prelude::*;

verus! {

/// `char::is_whitespace`: the Unicode `White_Space` property.
pub open spec fn spec_is_whitespace(c: char) -> bool {
    let u = c as u32;
    (0x9 <= u && u <= 0xD) || u == 0x20 || u == 0x85 || u == 0xA0 || u == 0x1680 || (0x2000 <= u
        && u <= 0x200A) || u == 0x2028 || u == 0x2029 || u == 0x202F || u == 0x205F || u == 0x3000
}

/// `s.trim().is_empty()`: nothing but whitespace.
pub open spec fn spec_is_blank(s: Seq<char>) -> bool {
    forall|i: int| 0 <= i < s.len() ==> spec_is_whitespace(#[trigger] s[i])
}

pub fn is_whitespace(c: char) -> (r: bool)
    ensures
        r == spec_is_whitespace(c),
{
    let u = c as u32;
    (0x9 <= u && u <= 0xD) || u == 0x20 || u == 0x85 || u == 0xA0 || u == 0x1680 || (0x2000 <= u
        && u <= 0x200A) || u == 0x2028 || u == 0x2029 || u == 0x202F || u == 0x205F || u == 0x3000
}

/// Whether a string is empty once surrounding whitespace is trimmed.
pub fn is_blank(s: &str) -> (r: bool)
    ensures
        r == spec_is_blank(s@),
{
    let n = s.unicode_len();
    let mut i: usize = 0;
    while i < n
        invariant
            n == s@.len(),
            i <= n,
            forall|k: int| 0 <= k < i ==> spec_is_whitespace(#[trigger] s@[k]),
        decreases n - i,
    {
        if !is_whitespace(s.get_char(i)) {
            return false;
        }
        i = i + 1;
    }
    true
}

/// Connection settings read from `config.toml`.
#[derive(Debug, Clone, PartialEq)]
pub struct Config {
    pub ha_url: String,
    pub ha_token: String,
    /// Accept self-signed / otherwise invalid TLS certs on the HA connection.
    /// Only meant for trusted local instances - off by default.
    pub insecure_skip_verify: bool,
}

/// Why a configuration was refused.
#[derive(Debug, PartialEq, Eq)]
pub enum ConfigError {
    EmptyUrl,
    EmptyToken,
}

impl ConfigError {
    /// The message the client reports for this error.
    pub fn message(&self) -> (r: String)
        ensures
            r@ == (match self {
                ConfigError::EmptyUrl => "config `ha_url` must not be empty"@,
                ConfigError::EmptyToken => "config `ha_token` must not be empty"@,
            }),
    {
        match self {
            ConfigError::EmptyUrl => String::from_str("config `ha_url` must not be empty"),
            ConfigError::EmptyToken => String::from_str("config `ha_token` must not be empty"),
        }
    }
}

impl Config {
    /// A configuration is usable when neither the URL nor the token is blank;
    /// the URL is checked first.
    pub fn validate(&self) -> (r: Result<(), ConfigError>)
        ensures
            spec_is_blank(self.ha_url@) ==> r == Err::<(), ConfigError>(ConfigError::EmptyUrl),
            !spec_is_blank(self.ha_url@) && spec_is_blank(self.ha_token@) ==> r == Err::<(), ConfigError>(
                ConfigError::EmptyToken,
            ),
            !spec_is_blank(self.ha_url@) && !spec_is_blank(self.ha_token@) ==> r is Ok,
    {
        if is_blank(self.ha_url.as_str()) {
            return Err(ConfigError::EmptyUrl);
        }
        if is_blank(self.ha_token.as_str()) {
            return Err(ConfigError::EmptyToken);
        }
        Ok(())
    }
}

/// The characters of each string, in order.
pub open spec fn strings_view(v: Seq<String>) -> Seq<Seq<char>> {
    v.map_values(|s: String| s@)
}

/// A copy of a list of strings.
pub fn clone_strings(v: &Vec<String>) -> (r: Vec<String>)
    ensures
        strings_view(r@) == strings_view(v@),
{
    let mut r: Vec<String> = Vec::new();
    let mut i: usize = 0;
    while i < v.len()
        invariant
            i <= v.len(),
            r@.len() == i,
            forall|j: int| 0 <= j < i ==> #[trigger] r@[j]@ == v@[j]@,
        decreases v.len() - i,
    {
        let s = v[i].clone();
        r.push(s);
        i = i + 1;
    }
    assert(strings_view(r@) =~= strings_view(v@));
    r
}

/// One dashboard panel: an optional title, the entity ids it shows in
/// order, and which of them the dashboard draws a history graph for.
#[derive(Debug, Clone, PartialEq)]
pub struct DashboardCard {
    pub title: Option<String>,
    pub entity_ids: Vec<String>,
    pub graph_entity_ids: Vec<String>,
}

pub ghost struct CardView {
    pub title: Option<Seq<char>>,
    pub entity_ids: Seq<Seq<char>>,
    pub graph_entity_ids: Seq<Seq<char>>,
}

pub open spec fn opt_string_view(o: Option<String>) -> Option<Seq<char>> {
    match o {
        Some(s) => Some(s@),
        None => None,
    }
}

impl View for DashboardCard {
    type V = CardView;

    open spec fn view(&self) -> CardView {
        CardView {
            title: opt_string_view(self.title),
            entity_ids: strings_view(self.entity_ids@),
            graph_entity_ids: strings_view(self.graph_entity_ids@),
        }
    }
}

impl Default for DashboardCard {
    fn default() -> (r: DashboardCard)
        ensures
            r.title is None,
            r.entity_ids@.len() == 0,
            r.graph_entity_ids@.len() == 0,
    {
        DashboardCard { title: None, entity_ids: Vec::new(), graph_entity_ids: Vec::new() }
    }
}

impl DashboardCard {
    pub fn copy(&self) -> (r: DashboardCard)
        ensures
            r@ == self@,
    {
        let title = match &self.title {
            Some(t) => Some(t.clone()),
            None => None,
        };
        DashboardCard {
            title,
            entity_ids: clone_strings(&self.entity_ids),
            graph_entity_ids: clone_strings(&self.graph_entity_ids),
        }
    }
}

/// One dashboard tab: a name, plus either a plain list of entity ids
/// (a manually configured tab), a list of cards (an imported dashboard
/// view), or both.
#[derive(Debug, Clone, PartialEq)]
pub struct DashboardTab {
    pub name: String,
    pub entity_ids: Vec<String>,
    pub cards: Vec<DashboardCard>,
}

pub open spec fn cards_view(cards: Seq<DashboardCard>) -> Seq<CardView> {
    cards.map_values(|c: DashboardCard| c@)
}

impl DashboardTab {
    /// The panels this tab shows: its plain entity list as one untitled
    /// card (when it has one), followed by its own cards in order.
    pub open spec fn spec_resolved_cards(&self) -> Seq<CardView> {
        self.spec_plain_card() + cards_view(self.cards@)
    }

    /// The tab's plain entity list as an untitled card, when it has one.
    pub open spec fn spec_plain_card(&self) -> Seq<CardView> {
        if self.entity_ids@.len() > 0 {
            seq![CardView { title: None, entity_ids: strings_view(self.entity_ids@), graph_entity_ids: Seq::empty() }]
        } else {
            Seq::empty()
        }
    }

    /// A manually configured tab showing `entity_ids` in order.
    pub fn new(name: &str, entity_ids: Vec<String>) -> (r: DashboardTab)
        ensures
            r.name@ == name@,
            r.entity_ids@ == entity_ids@,
            r.cards@.len() == 0,
    {
        DashboardTab { name: String::from_str(name), entity_ids, cards: Vec::new() }
    }

    pub fn resolved_cards(&self) -> (r: Vec<DashboardCard>)
        ensures
            cards_view(r@) == self.spec_resolved_cards(),
    {
        let mut r: Vec<DashboardCard> = Vec::new();
        if self.entity_ids.len() > 0 {
            r.push(
                DashboardCard { title: None, entity_ids: clone_strings(&self.entity_ids), graph_entity_ids: Vec::new() },
            );
        }
        let ghost first = cards_view(r@);
        proof {
            if self.entity_ids.len() > 0 {
                assert(strings_view(r@[0].graph_entity_ids@) =~= Seq::<Seq<char>>::empty());
            }
            assert(first =~= self.spec_plain_card());
        }
        let mut i: usize = 0;
        while i < self.cards.len()
            invariant
                i <= self.cards.len(),
                r@.len() == first.len() + i,
                forall|j: int| 0 <= j < first.len() ==> #[trigger] r@[j]@ == first[j],
                forall|j: int| 0 <= j < i ==> #[trigger] r@[first.len() + j]@ == self.cards@[j]@,
            decreases self.cards.len() - i,
        {
            let c = self.cards[i].copy();
            r.push(c);
            i = i + 1;
        }
        assert forall|j: int| 0 <= j < r@.len() implies #[trigger] cards_view(r@)[j] == self.spec_resolved_cards()[j] by {
            if j >= first.len() {
                assert(r@[first.len() + (j - first.len())]@ == self.cards@[j - first.len()]@);
            }
        }
        assert(cards_view(r@) =~= self.spec_resolved_cards());
        r
    }
}

/// The tabs the dashboard shows: the manually configured tabs when there
/// are any, else the tabs imported from Home Assistant's dashboard (which
/// may be none, leaving the automatic grouping).
pub fn chosen_dashboard(configured: Vec<DashboardTab>, imported: Vec<DashboardTab>) -> (r: Vec<DashboardTab>)
    ensures
        r@ == (if configured@.len() > 0 { configured@ } else { imported@ }),
{
    if configured.len() > 0 {
        configured
    } else {
        imported
    }
}

} // verus!
