//! The application state: the live entity list, its grouping into tabs and
//! cards (configured dashboard or automatic room/domain grouping), the
//! selection within that grid, the search filter, optimistic updates and
//! the transient status line.
use vstd::prelude::*;
use crate::app::entity::{Entity, StateText, StateTextView};
use crate::app::order::{
    keys_lt, keys_less, key_view, keys_view, sort_by_keys, sort_indices, runs, runs_view, group_runs,
    labels_view,
};
use crate::app::registry::Registry;
use crate::config::{CardView, DashboardTab, DashboardCard, strings_view};
use crate::ha::protocol::StateObject;
use crate::text::{chars_of, str_eq, push_char, append_str, decimal, decimal_string};
use crate::ha::client::{Command, entity_target, is_entity_target};
use crate::json::{Json, JsonNumber};

verus! {

/// The last entity in `ents` with id `id`.
pub open spec fn lookup(ents: Seq<Entity>, id: Seq<char>) -> Option<Entity>
    decreases ents.len(),
{
    if ents.len() == 0 {
        None
    } else if ents.last().entity_id@ == id {
        Some(ents.last())
    } else {
        lookup(ents.drop_last(), id)
    }
}

/// No two entities share an id.
pub open spec fn ids_unique(ents: Seq<Entity>) -> bool {
    forall|i: int, j: int|
        0 <= i < ents.len() && 0 <= j < ents.len() && i != j ==> #[trigger] ents[i].entity_id@
            != #[trigger] ents[j].entity_id@
}

/// `char::to_uppercase` of one character, as a string (it can be longer
/// than one character for some scripts).
pub uninterp spec fn char_upper(c: char) -> Seq<char>;

/// `str::to_lowercase` of a string.
pub uninterp spec fn str_lower(s: Seq<char>) -> Seq<char>;

/// `char::to_uppercase`, collected into a string.
#[verifier::external_body]
fn upper_of(c: char) -> (r: String)
    ensures
        r@ == char_upper(c),
{
    c.to_uppercase().collect::<String>()
}

/// `str::to_lowercase`.
#[verifier::external_body]
fn lower_of(s: &str) -> (r: String)
    ensures
        r@ == str_lower(s@),
{
    s.to_lowercase()
}

/// `titleize_from(s, true)`: each `_`-separated word capitalised, words
/// joined by spaces ("binary_sensor" -> "Binary Sensor").
pub open spec fn titleize_from(s: Seq<char>, at_word_start: bool) -> Seq<char>
    decreases s.len(),
{
    if s.len() == 0 {
        Seq::empty()
    } else if s[0] == '_' {
        seq![' '] + titleize_from(s.drop_first(), true)
    } else if at_word_start {
        char_upper(s[0]) + titleize_from(s.drop_first(), false)
    } else {
        seq![s[0]] + titleize_from(s.drop_first(), false)
    }
}

pub open spec fn spec_titleize(domain: Seq<char>) -> Seq<char> {
    titleize_from(domain, true)
}

/// "climate" -> "Climate", "binary_sensor" -> "Binary Sensor": the titles
/// of automatically generated cards.
pub fn titleize(domain: &str) -> (r: String)
    ensures
        r@ == spec_titleize(domain@),
{
    let n = domain.unicode_len();
    let mut r = String::new();
    let mut start = true;
    let mut i: usize = 0;
    assert(domain@.skip(0) =~= domain@);
    while i < n
        invariant
            n == domain@.len(),
            i <= n,
            spec_titleize(domain@) == r@ + titleize_from(domain@.skip(i as int), start),
        decreases n - i,
    {
        let c = domain.get_char(i);
        let ghost rest = domain@.skip(i as int);
        let ghost before = r@;
        proof {
            assert(rest[0] == c);
            assert(rest.drop_first() =~= domain@.skip(i + 1));
        }
        if c == '_' {
            push_char(&mut r, ' ');
            start = true;
            assert(r@ + titleize_from(domain@.skip(i + 1), start) =~= before + titleize_from(rest, false || true));
        } else if start {
            let u = upper_of(c);
            append_str(&mut r, u.as_str());
            start = false;
            assert(r@ + titleize_from(domain@.skip(i + 1), start) =~= before + titleize_from(rest, true));
        } else {
            push_char(&mut r, c);
            assert(r@ + titleize_from(domain@.skip(i + 1), start) =~= before + titleize_from(rest, false));
        }
        i = i + 1;
    }
    assert(titleize_from(domain@.skip(n as int), start) =~= Seq::<char>::empty());
    assert(r@ + Seq::<char>::empty() =~= r@);
    r
}


/// Time, in nanoseconds since the state was created.
#[verifier::external_type_specification]
#[verifier::external_body]
pub struct ExInstant(std::time::Instant);

/// `Instant::now()`: the clock the state's timestamps count from.
#[verifier::external_body]
fn clock_start() -> std::time::Instant {
    std::time::Instant::now()
}

/// `Instant::elapsed`, in whole nanoseconds.
#[verifier::external_body]
fn nanos_since(start: &std::time::Instant) -> u64 {
    start.elapsed().as_nanos() as u64
}

/// How long an optimistic update stays shown without a confirming event.
pub const PENDING_TIMEOUT_NS: u64 = 5_000_000_000;
/// How long a status message stays shown.
pub const STATUS_TIMEOUT_NS: u64 = 5_000_000_000;
/// How long a row stays flashed after its state changes.
pub const FLASH_DURATION_NS: u64 = 600_000_000;
/// How long a tab switch's expand-in animation runs.
pub const TAB_TRANSITION_NS: u64 = 220_000_000;
/// Frame pacing (about 60 fps) while the tab animation runs.
pub const ANIMATION_FRAME_NS: u64 = 16_000_000;

/// One dashboard panel with its entities resolved: an optional title and
/// the entities it shows, in order.
pub struct ResolvedCard<'a> {
    pub title: Option<String>,
    pub entities: Vec<&'a Entity>,
}

pub ghost struct CardModel {
    pub title: Option<Seq<char>>,
    pub entities: Seq<Entity>,
}

pub ghost struct TabModel {
    pub name: Seq<char>,
    pub cards: Seq<CardModel>,
}

pub open spec fn opt_str(o: Option<String>) -> Option<Seq<char>> {
    match o {
        Some(s) => Some(s@),
        None => None,
    }
}

pub open spec fn card_model(c: ResolvedCard) -> CardModel {
    CardModel { title: opt_str(c.title), entities: c.entities@.map_values(|e: &Entity| *e) }
}

pub open spec fn cards_model(cs: Seq<ResolvedCard>) -> Seq<CardModel> {
    cs.map_values(|c: ResolvedCard| card_model(c))
}

pub open spec fn tabs_model(ts: Seq<(String, Vec<ResolvedCard>)>) -> Seq<TabModel> {
    ts.map_values(|t: (String, Vec<ResolvedCard>)| TabModel { name: t.0@, cards: cards_model(t.1@) })
}

/// The search filter: the query, whether keys still go into it, and the
/// selected row in its flat result list.
struct FilterState {
    query: String,
    editing: bool,
    selected: usize,
}

pub ghost struct FilterModel {
    pub query: Seq<char>,
    pub editing: bool,
    pub selected: usize,
}

/// A locally applied guess at an entity's next display state, shown until
/// a real update for the entity arrives or it times out.
struct Pending {
    entity_id: String,
    display_state: String,
    issued_at: u64,
}

struct Flash {
    entity_id: String,
    at: u64,
}

/// Everything the contracts say of an `AppState`.
pub ghost struct AppModel {
    pub entities: Seq<Entity>,
    pub registry: Registry,
    pub group: usize,
    pub card: usize,
    pub row: usize,
    pub show_help: bool,
    pub detail_entity: Option<Seq<char>>,
    pub detail_card_title: Option<Seq<char>>,
    pub detail_group: Seq<Seq<char>>,
    pub dashboard: Seq<DashboardTab>,
    pub filter: Option<FilterModel>,
    /// (entity id, display text, issued at) of each optimistic update.
    pub pending: Seq<(Seq<char>, Seq<char>, u64)>,
    pub status: Option<(Seq<char>, u64)>,
    pub graph_ids: Seq<Seq<char>>,
    /// (entity id, changed at) of each recent state change.
    pub flashes: Seq<(Seq<char>, u64)>,
    pub tab_transition_started_at: Option<u64>,
}

/// Holds the live entity list and the grouping derived from it, plus which
/// tab, card and row the UI has selected.
pub struct AppState {
    entities: Vec<Entity>,
    pub registry: Registry,
    pub selected_group: usize,
    /// Which panel (card) is selected within the current tab.
    pub selected_card: usize,
    /// Which entity row is selected within `selected_card`.
    pub selected_row: usize,
    pub show_help: bool,
    detail_entity: Option<String>,
    detail_card_title: Option<String>,
    detail_group: Vec<String>,
    dashboard: Vec<DashboardTab>,
    filter: Option<FilterState>,
    pending: Vec<Pending>,
    status: Option<(String, u64)>,
    graph_entity_ids: Vec<String>,
    flashes: Vec<Flash>,
    tab_transition_started_at: Option<u64>,
    clock: std::time::Instant,
}

impl View for AppState {
    type V = AppModel;

    closed spec fn view(&self) -> AppModel {
        AppModel {
            entities: self.entities@,
            registry: self.registry,
            group: self.selected_group,
            card: self.selected_card,
            row: self.selected_row,
            show_help: self.show_help,
            detail_entity: opt_str(self.detail_entity),
            detail_card_title: opt_str(self.detail_card_title),
            detail_group: strings_view(self.detail_group@),
            dashboard: self.dashboard@,
            filter: match self.filter {
                Some(f) => Some(FilterModel { query: f.query@, editing: f.editing, selected: f.selected }),
                None => None,
            },
            pending: self.pending@.map_values(|p: Pending| (p.entity_id@, p.display_state@, p.issued_at)),
            status: match self.status {
                Some((m, t)) => Some((m@, t)),
                None => None,
            },
            graph_ids: strings_view(self.graph_entity_ids@),
            flashes: self.flashes@.map_values(|f: Flash| (f.entity_id@, f.at)),
            tab_transition_started_at: self.tab_transition_started_at,
        }
    }
}

/// The room an entity is grouped under automatically: its registry area's
/// name, else its domain.
pub open spec fn room_of(reg: Registry, e: Entity) -> Seq<char> {
    match reg.spec_area_name_for(e.entity_id@) {
        Some(n) => n,
        None => e.domain@,
    }
}

/// The order of the automatic grouping: room, then domain, then name, then id.
pub open spec fn group_key(reg: Registry, e: Entity) -> Seq<Seq<char>> {
    seq![room_of(reg, e), e.domain@, e.spec_friendly_name(), e.entity_id@]
}

/// The order of search results and of a card's rows: name, then id.
pub open spec fn name_key(e: Entity) -> Seq<Seq<char>> {
    seq![e.spec_friendly_name(), e.entity_id@]
}

pub open spec fn all_indices(n: nat) -> Seq<usize> {
    Seq::new(n, |i: int| i as usize)
}

pub open spec fn entities_at(ents: Seq<Entity>, idx: Seq<usize>) -> Seq<Entity> {
    idx.map_values(|i: usize| ents[i as int])
}

/// The entities that ids resolve to, skipping ids with no entity.
pub open spec fn resolve_ids(ents: Seq<Entity>, ids: Seq<Seq<char>>) -> Seq<Entity>
    decreases ids.len(),
{
    if ids.len() == 0 {
        Seq::empty()
    } else {
        let r = resolve_ids(ents, ids.drop_last());
        match lookup(ents, ids.last()) {
            Some(e) => r.push(e),
            None => r,
        }
    }
}

/// A configured card with its entities resolved. An untitled card showing
/// exactly one entity takes that entity's name.
pub open spec fn resolve_card(ents: Seq<Entity>, c: CardView) -> CardModel {
    let es = resolve_ids(ents, c.entity_ids);
    CardModel {
        title: match c.title {
            Some(t) => Some(t),
            None => if es.len() == 1 { Some(es[0].spec_friendly_name()) } else { None },
        },
        entities: es,
    }
}

impl AppModel {
    pub open spec fn room_labels(self) -> Seq<Seq<char>> {
        self.entities.map_values(|e: Entity| room_of(self.registry, e))
    }

    pub open spec fn domain_labels(self) -> Seq<Seq<char>> {
        self.entities.map_values(|e: Entity| e.domain@)
    }

    pub open spec fn group_keys(self) -> Seq<Seq<Seq<char>>> {
        self.entities.map_values(|e: Entity| group_key(self.registry, e))
    }

    /// The automatic tabs: entities sorted by (room, domain, name, id), one
    /// tab per room in order, one card per domain within it, titled with the
    /// titleized domain.
    pub open spec fn auto_tabs(self) -> Seq<TabModel> {
        let sorted = sort_by_keys(all_indices(self.entities.len()), self.group_keys());
        runs(sorted, self.room_labels()).map_values(|g: Seq<usize>| TabModel {
            name: self.room_labels()[g[0] as int],
            cards: runs(g, self.domain_labels()).map_values(|c: Seq<usize>| CardModel {
                title: Some(spec_titleize(self.domain_labels()[c[0] as int])),
                entities: entities_at(self.entities, c),
            }),
        })
    }

    /// The configured tabs, in configured order, each card's ids resolved
    /// against the entities HA currently knows.
    pub open spec fn dashboard_tabs(self) -> Seq<TabModel> {
        self.dashboard.map_values(|t: DashboardTab| TabModel {
            name: t.name@,
            cards: t.spec_resolved_cards().map_values(|c: CardView| resolve_card(self.entities, c)),
        })
    }

    /// Tabs with their cards, in display order.
    pub open spec fn tabs(self) -> Seq<TabModel> {
        if self.dashboard.len() > 0 {
            self.dashboard_tabs()
        } else {
            self.auto_tabs()
        }
    }

    pub open spec fn wf(self) -> bool {
        ids_unique(self.entities)
    }
}

impl AppState {
    /// The index of the last entity with id `id`.
    fn find(&self, id: &str) -> (r: Option<usize>)
        ensures
            r is None ==> lookup(self@.entities, id@) is None,
            r matches Some(i) ==> i < self@.entities.len() && lookup(self@.entities, id@) == Some(
                self@.entities[i as int],
            ) && self@.entities[i as int].entity_id@ == id@,
    {
        let mut i = self.entities.len();
        assert(self.entities@.take(i as int) =~= self.entities@);
        while i > 0
            invariant
                i <= self.entities.len(),
                lookup(self.entities@, id@) == lookup(self.entities@.take(i as int), id@),
            decreases i,
        {
            proof {
                assert(self.entities@.take(i as int).drop_last() =~= self.entities@.take(i - 1));
            }
            if str_eq(self.entities[i - 1].entity_id.as_str(), id) {
                return Some(i - 1);
            }
            i = i - 1;
        }
        None
    }

    /// The entity with id `id`, if HA currently knows it.
    pub fn entity(&self, id: &str) -> (r: Option<&Entity>)
        ensures
            r is Some <==> lookup(self@.entities, id@) is Some,
            r matches Some(e) ==> lookup(self@.entities, id@) == Some(*e),
    {
        match self.find(id) {
            Some(i) => Some(&self.entities[i]),
            None => None,
        }
    }

    /// How many entities HA currently knows.
    pub fn entity_count(&self) -> (r: usize)
        ensures
            r == self@.entities.len(),
    {
        self.entities.len()
    }

    /// Tabs with their cards, in display order. With configured dashboard
    /// tabs, those are used verbatim (ids HA does not know skipped);
    /// otherwise entities are grouped by room (area name, else domain),
    /// alphabetically, with one card per domain, rows sorted by name then id.
    pub fn tabs(&self) -> (r: Vec<(String, Vec<ResolvedCard<'_>>)>)
        ensures
            tabs_model(r@) == self@.tabs(),
    {
        if self.dashboard.len() > 0 {
            self.dashboard_tabs()
        } else {
            self.auto_tabs()
        }
    }

    fn dashboard_tabs(&self) -> (r: Vec<(String, Vec<ResolvedCard<'_>>)>)
        ensures
            tabs_model(r@) == self@.dashboard_tabs(),
    {
        let mut out: Vec<(String, Vec<ResolvedCard<'_>>)> = Vec::new();
        let mut t: usize = 0;
        while t < self.dashboard.len()
            invariant
                t <= self.dashboard.len(),
                out@.len() == t,
                forall|k: int| 0 <= k < t ==> (TabModel { name: (#[trigger] out@[k]).0@, cards: cards_model(out@[k].1@) }) == self@.dashboard_tabs()[k],
            decreases self.dashboard.len() - t,
        {
            let tab = &self.dashboard[t];
            let cards = tab.resolved_cards();
            let mut rcs: Vec<ResolvedCard<'_>> = Vec::new();
            let mut c: usize = 0;
            while c < cards.len()
                invariant
                    c <= cards.len(),
                    rcs@.len() == c,
                    tab == self.dashboard@[t as int],
                    crate::config::cards_view(cards@) == tab.spec_resolved_cards(),
                    forall|k: int| 0 <= k < c ==> card_model(#[trigger] rcs@[k]) == resolve_card(self@.entities, cards@[k]@),
                decreases cards.len() - c,
            {
                let rc = self.resolve_card(&cards[c]);
                rcs.push(rc);
                c = c + 1;
            }
            proof {
                assert(cards_model(rcs@) =~= tab.spec_resolved_cards().map_values(|cv: CardView| resolve_card(self@.entities, cv)));
            }
            out.push((tab.name.clone(), rcs));
            t = t + 1;
        }
        assert(tabs_model(out@) =~= self@.dashboard_tabs()) by {
            assert forall|k: int| 0 <= k < out@.len() implies #[trigger] tabs_model(out@)[k] == self@.dashboard_tabs()[k] by {
                assert(tabs_model(out@)[k] == TabModel { name: out@[k].0@, cards: cards_model(out@[k].1@) });
            }
        }
        out
    }

    fn resolve_card(&self, card: &DashboardCard) -> (r: ResolvedCard<'_>)
        ensures
            card_model(r) == resolve_card(self@.entities, card@),
    {
        let mut es: Vec<&Entity> = Vec::new();
        let mut i: usize = 0;
        while i < card.entity_ids.len()
            invariant
                i <= card.entity_ids.len(),
                es@.map_values(|e: &Entity| *e) == resolve_ids(self@.entities, strings_view(card.entity_ids@.take(i as int))),
            decreases card.entity_ids.len() - i,
        {
            let ghost before = es@.map_values(|e: &Entity| *e);
            proof {
                let ids = strings_view(card.entity_ids@.take(i + 1));
                assert(ids.drop_last() =~= strings_view(card.entity_ids@.take(i as int)));
                assert(ids.last() == card.entity_ids@[i as int]@);
            }
            match self.entity(card.entity_ids[i].as_str()) {
                Some(e) => {
                    es.push(e);
                    assert(es@.map_values(|e: &Entity| *e) =~= before.push(*e));
                },
                None => {},
            }
            i = i + 1;
        }
        assert(card.entity_ids@.take(card.entity_ids.len() as int) =~= card.entity_ids@);
        let title = match &card.title {
            Some(t) => Some(t.clone()),
            None => if es.len() == 1 {
                Some(String::from_str(es[0].friendly_name()))
            } else {
                None
            },
        };
        ResolvedCard { title, entities: es }
    }

    fn auto_tabs(&self) -> (r: Vec<(String, Vec<ResolvedCard<'_>>)>)
        ensures
            tabs_model(r@) == self@.auto_tabs(),
    {
        let n = self.entities.len();
        let mut keys: Vec<Vec<Vec<char>>> = Vec::new();
        let mut rooms: Vec<Vec<char>> = Vec::new();
        let mut domains: Vec<Vec<char>> = Vec::new();
        let mut items: Vec<usize> = Vec::new();
        let mut i: usize = 0;
        while i < n
            invariant
                n == self.entities.len(),
                i <= n,
                keys@.len() == i,
                rooms@.len() == i,
                domains@.len() == i,
                items@ == all_indices(i as nat),
                forall|k: int| 0 <= k < i ==> #[trigger] key_view(keys@[k]@) == group_key(self.registry, self.entities@[k]),
                forall|k: int| 0 <= k < i ==> #[trigger] rooms@[k]@ == room_of(self.registry, self.entities@[k]),
                forall|k: int| 0 <= k < i ==> #[trigger] domains@[k]@ == self.entities@[k].domain@,
            decreases n - i,
        {
            let e = &self.entities[i];
            let room = match self.registry.area_name_for(e.entity_id.as_str()) {
                Some(name) => chars_of(name),
                None => chars_of(e.domain.as_str()),
            };
            let mut key: Vec<Vec<char>> = Vec::new();
            key.push(chars_of_vec(&room));
            key.push(chars_of(e.domain.as_str()));
            key.push(chars_of(e.friendly_name()));
            key.push(chars_of(e.entity_id.as_str()));
            assert(key_view(key@) =~= group_key(self.registry, *e));
            keys.push(key);
            rooms.push(room);
            domains.push(chars_of(e.domain.as_str()));
            items.push(i);
            assert(items@ =~= all_indices((i + 1) as nat));
            i = i + 1;
        }
        assert(keys_view(keys@) =~= self@.group_keys());
        assert(labels_view(rooms@) =~= self@.room_labels());
        assert(labels_view(domains@) =~= self@.domain_labels());
        let sorted = sort_indices(&keys, &items);
        proof {
            lemma_sort_keeps_indices(items@, keys_view(keys@), n as nat);
        }
        assert(items@ =~= all_indices(n as nat));
        assert(sorted@ == sort_by_keys(all_indices(self@.entities.len()), self@.group_keys()));
        let groups = group_runs(&sorted, &rooms);
        let ghost gs = runs(sorted@, self@.room_labels());
        proof {
            lemma_runs_indices(sorted@, self@.room_labels(), n as nat);
        }
        let mut out: Vec<(String, Vec<ResolvedCard<'_>>)> = Vec::new();
        let mut g: usize = 0;
        while g < groups.len()
            invariant
                g <= groups.len(),
                n == self.entities.len(),
                runs_view(groups@) == gs,
                gs == runs(sorted@, self@.room_labels()),
                sorted@ == sort_by_keys(all_indices(self@.entities.len()), self@.group_keys()),
                labels_view(rooms@) =~= self@.room_labels(),
                labels_view(domains@) =~= self@.domain_labels(),
                rooms@.len() == n,
                domains@.len() == n,
                forall|k: int, m: int| 0 <= k < gs.len() && 0 <= m < gs[k].len() ==> #[trigger] gs[k][m] < n,
                forall|k: int| 0 <= k < gs.len() ==> #[trigger] gs[k].len() > 0,
                out@.len() == g,
                forall|k: int| 0 <= k < g ==> (TabModel { name: (#[trigger] out@[k]).0@, cards: cards_model(out@[k].1@) }) == self@.auto_tabs()[k],
            decreases groups.len() - g,
        {
            let grp = &groups[g];
            assert(grp@ == gs[g as int]);
            let first = grp[0];
            let name = crate::text::string_from_chars(&rooms[first]);
            let cards_idx = group_runs(grp, &domains);
            let ghost cs = runs(grp@, self@.domain_labels());
            proof {
                lemma_runs_indices(grp@, self@.domain_labels(), n as nat);
            }
            let mut cards: Vec<ResolvedCard<'_>> = Vec::new();
            let mut c: usize = 0;
            while c < cards_idx.len()
                invariant
                    c <= cards_idx.len(),
                    n == self.entities.len(),
                    runs_view(cards_idx@) == cs,
                    labels_view(domains@) =~= self@.domain_labels(),
                    domains@.len() == n,
                    forall|k: int, m: int| 0 <= k < cs.len() && 0 <= m < cs[k].len() ==> #[trigger] cs[k][m] < n,
                    forall|k: int| 0 <= k < cs.len() ==> #[trigger] cs[k].len() > 0,
                    cards@.len() == c,
                    forall|k: int| 0 <= k < c ==> card_model(#[trigger] cards@[k]) == (CardModel {
                        title: Some(spec_titleize(self@.domain_labels()[cs[k][0] as int])),
                        entities: entities_at(self@.entities, cs[k]),
                    }),
                decreases cards_idx.len() - c,
            {
                let idx = &cards_idx[c];
                assert(idx@ == cs[c as int]);
                let d = crate::text::string_from_chars(&domains[idx[0]]);
                let title = titleize(d.as_str());
                let mut es: Vec<&Entity> = Vec::new();
                let mut m: usize = 0;
                while m < idx.len()
                    invariant
                        m <= idx.len(),
                        n == self.entities.len(),
                        idx@ == cs[c as int],
                        forall|q: int| 0 <= q < idx@.len() ==> #[trigger] idx@[q] < n,
                        es@.len() == m,
                        forall|q: int| 0 <= q < m ==> *(#[trigger] es@[q]) == self.entities@[idx@[q] as int],
                    decreases idx.len() - m,
                {
                    es.push(&self.entities[idx[m]]);
                    m = m + 1;
                }
                assert(es@.map_values(|e: &Entity| *e) =~= entities_at(self@.entities, idx@));
                cards.push(ResolvedCard { title: Some(title), entities: es });
                c = c + 1;
            }
            proof {
                assert(cards_model(cards@) =~= self@.auto_tabs()[g as int].cards) by {
                    let sorted_s = sort_by_keys(all_indices(self@.entities.len()), self@.group_keys());
                    assert(sorted_s == sorted@);
                    assert(self@.auto_tabs().len() == gs.len());
                    assert(cards@.len() == cs.len());
                    assert(self@.auto_tabs()[g as int].cards == cs.map_values(|c: Seq<usize>| CardModel {
                        title: Some(spec_titleize(self@.domain_labels()[c[0] as int])),
                        entities: entities_at(self@.entities, c),
                    }));
                    assert forall|k: int| 0 <= k < cards@.len() implies #[trigger] cards_model(cards@)[k] == self@.auto_tabs()[g as int].cards[k] by {
                        assert(cards_model(cards@)[k] == card_model(cards@[k]));
                    }
                }
            }
            out.push((name, cards));
            g = g + 1;
        }
        assert(tabs_model(out@) =~= self@.auto_tabs()) by {
            assert forall|k: int| 0 <= k < out@.len() implies #[trigger] tabs_model(out@)[k] == self@.auto_tabs()[k] by {
                assert(tabs_model(out@)[k] == TabModel { name: out@[k].0@, cards: cards_model(out@[k].1@) });
            }
        }
        out
    }
}

/// A copy of a character vector.
fn chars_of_vec(v: &Vec<char>) -> (r: Vec<char>)
    ensures
        r@ == v@,
{
    let mut r: Vec<char> = Vec::new();
    let mut i: usize = 0;
    while i < v.len()
        invariant
            i <= v.len(),
            r@ == v@.take(i as int),
        decreases v.len() - i,
    {
        r.push(v[i]);
        assert(r@ =~= v@.take(i + 1));
        i = i + 1;
    }
    assert(v@.take(v.len() as int) =~= v@);
    r
}

proof fn lemma_insert_keeps_indices(s: Seq<usize>, x: usize, ks: Seq<Seq<Seq<char>>>, n: nat)
    requires
        forall|k: int| 0 <= k < s.len() ==> #[trigger] s[k] < n,
        x < n,
    ensures
        forall|k: int| 0 <= k < crate::app::order::insert_by_key(s, x, ks).len() ==> #[trigger] crate::app::order::insert_by_key(s, x, ks)[k] < n,
    decreases s.len(),
{
    if s.len() > 0 {
        lemma_insert_keeps_indices(s.drop_first(), x, ks, n);
        let r = crate::app::order::insert_by_key(s, x, ks);
        if !keys_lt(ks[x as int], ks[s[0] as int]) {
            let t = crate::app::order::insert_by_key(s.drop_first(), x, ks);
            assert forall|k: int| 0 <= k < r.len() implies #[trigger] r[k] < n by {
                if k > 0 {
                    assert(r[k] == t[k - 1]);
                }
            }
        }
    }
}

proof fn lemma_sort_keeps_indices(s: Seq<usize>, ks: Seq<Seq<Seq<char>>>, n: nat)
    requires
        forall|k: int| 0 <= k < s.len() ==> #[trigger] s[k] < n,
    ensures
        forall|k: int| 0 <= k < sort_by_keys(s, ks).len() ==> #[trigger] sort_by_keys(s, ks)[k] < n,
    decreases s.len(),
{
    if s.len() > 0 {
        lemma_sort_keeps_indices(s.drop_last(), ks, n);
        lemma_insert_keeps_indices(sort_by_keys(s.drop_last(), ks), s.last(), ks, n);
    }
}

proof fn lemma_runs_indices(s: Seq<usize>, labels: Seq<Seq<char>>, n: nat)
    requires
        forall|k: int| 0 <= k < s.len() ==> #[trigger] s[k] < n,
    ensures
        forall|k: int, m: int| 0 <= k < runs(s, labels).len() && 0 <= m < runs(s, labels)[k].len() ==> #[trigger] runs(s, labels)[k][m] < n,
        forall|k: int| 0 <= k < runs(s, labels).len() ==> #[trigger] runs(s, labels)[k].len() > 0,
    decreases s.len(),
{
    if s.len() > 0 {
        lemma_runs_indices(s.drop_last(), labels, n);
        let g = runs(s.drop_last(), labels);
        let r = runs(s, labels);
        assert forall|k: int, m: int| 0 <= k < r.len() && 0 <= m < r[k].len() implies #[trigger] r[k][m] < n by {
            if k < g.len() && m < g[k].len() {
                assert(g[k][m] < n);
            }
        }
        assert forall|k: int| 0 <= k < r.len() implies #[trigger] r[k].len() > 0 by {
            if k < g.len() {
                assert(g[k].len() > 0);
            }
        }
    }
}


/// `e` is the entity `Entity::from_state(s)` builds.
pub open spec fn is_entity_of(e: Entity, s: StateObject) -> bool {
    &&& e.entity_id@ == s.entity_id@
    &&& e.domain@ == crate::app::entity::spec_domain_of(s.entity_id@)
    &&& e.state@ == s.state@
    &&& e.attributes == s.attributes
    &&& e.last_updated == s.last_updated
}

/// The index of the last entity with id `id`.
pub open spec fn index_of_id(ents: Seq<Entity>, id: Seq<char>) -> Option<int>
    decreases ents.len(),
{
    if ents.len() == 0 {
        None
    } else if ents.last().entity_id@ == id {
        Some(ents.len() - 1)
    } else {
        index_of_id(ents.drop_last(), id)
    }
}

/// The last state reported for entity `id`.
pub open spec fn last_state(states: Seq<StateObject>, id: Seq<char>) -> Option<StateObject>
    decreases states.len(),
{
    if states.len() == 0 {
        None
    } else if states.last().entity_id@ == id {
        Some(states.last())
    } else {
        last_state(states.drop_last(), id)
    }
}

/// The positions of the first state reported for each entity, in order.
pub open spec fn first_reports(states: Seq<StateObject>) -> Seq<int>
    decreases states.len(),
{
    if states.len() == 0 {
        Seq::empty()
    } else {
        let f = first_reports(states.drop_last());
        if last_state(states.drop_last(), states.last().entity_id@) is Some {
            f
        } else {
            f.push(states.len() - 1)
        }
    }
}

/// The entity list a snapshot of states gives: one entity per reported id,
/// in the order ids first appear, each built from the last state reported
/// for its id.
pub open spec fn is_snapshot_of(ents: Seq<Entity>, states: Seq<StateObject>) -> bool {
    let f = first_reports(states);
    &&& ents.len() == f.len()
    &&& forall|k: int|
        0 <= k < ents.len() ==> (#[trigger] last_state(states, states[f[k]].entity_id@) matches Some(s)
            && is_entity_of(ents[k], s))
}

/// Whether an entity's friendly name contains the query, ignoring case.
pub open spec fn name_matches(e: Entity, query: Seq<char>) -> bool {
    crate::text::contains_seq(str_lower(e.spec_friendly_name()), str_lower(query))
}

/// The indices of the entities whose name matches `query`, in order.
pub open spec fn matching(ents: Seq<Entity>, query: Seq<char>) -> Seq<usize>
    decreases ents.len(),
{
    if ents.len() == 0 {
        Seq::empty()
    } else {
        let r = matching(ents.drop_last(), query);
        if name_matches(ents.last(), query) {
            r.push((ents.len() - 1) as usize)
        } else {
            r
        }
    }
}

pub open spec fn name_keys(ents: Seq<Entity>) -> Seq<Seq<Seq<char>>> {
    ents.map_values(|e: Entity| name_key(e))
}

pub open spec fn min_usize(a: usize, b: usize) -> usize {
    if a <= b { a } else { b }
}

impl AppModel {
    /// The active query (empty without a filter).
    pub open spec fn query(self) -> Seq<char> {
        match self.filter {
            Some(f) => f.query,
            None => Seq::empty(),
        }
    }

    /// Every entity whose name contains the query, ignoring case, across all
    /// tabs, sorted by name then id.
    pub open spec fn filtered(self) -> Seq<Entity> {
        entities_at(self.entities, sort_by_keys(matching(self.entities, self.query()), name_keys(self.entities)))
    }

    /// The selected tab's own cards.
    pub open spec fn tab_cards(self) -> Seq<CardModel> {
        if self.group < self.tabs().len() {
            self.tabs()[self.group as int].cards
        } else {
            Seq::empty()
        }
    }

    /// The cards in the main panel: one untitled card of search results
    /// while filtering, else the selected tab's cards.
    pub open spec fn visible_cards(self) -> Seq<CardModel> {
        if self.filter is Some {
            seq![CardModel { title: None, entities: self.filtered() }]
        } else {
            self.tab_cards()
        }
    }

    /// The selected (card, row) within `visible_cards`.
    pub open spec fn position(self) -> (usize, usize) {
        match self.filter {
            Some(f) => (0, f.selected),
            None => (self.card, self.row),
        }
    }

    pub open spec fn selected(self) -> Option<Entity> {
        let (c, r) = self.position();
        if c < self.visible_cards().len() && r < self.visible_cards()[c as int].entities.len() {
            Some(self.visible_cards()[c as int].entities[r as int])
        } else {
            None
        }
    }

    /// The selection kept in bounds after the entities or the filter change:
    /// the filter row clamped to its results, else tab, card and row each
    /// clamped to what exists (0 when nothing does).
    pub open spec fn clamped(self) -> AppModel {
        match self.filter {
            Some(f) => {
                let count = self.filtered().len();
                AppModel {
                    filter: Some(FilterModel {
                        selected: if count == 0 { 0 } else if f.selected >= count { (count - 1) as usize } else { f.selected },
                        ..f
                    }),
                    ..self
                }
            },
            None => {
                let tabs = self.tabs();
                if tabs.len() == 0 {
                    AppModel { group: 0, card: 0, row: 0, ..self }
                } else {
                    let g = min_usize(self.group, (tabs.len() - 1) as usize);
                    let cards = tabs[g as int].cards;
                    if cards.len() == 0 {
                        AppModel { group: g, card: 0, row: 0, ..self }
                    } else {
                        let c = min_usize(self.card, (cards.len() - 1) as usize);
                        let n = cards[c as int].entities.len();
                        AppModel { group: g, card: c, row: if n == 0 { 0 } else { min_usize(self.row, (n - 1) as usize) }, ..self }
                    }
                }
            },
        }
    }
}

impl AppModel {
    /// `now` is no earlier than any time the state has recorded: each
    /// optimistic update's issue time, the status message's time, each row
    /// flash and the start of the tab animation.
    pub open spec fn stamps_at_most(self, now: u64) -> bool {
        &&& forall|k: int| 0 <= k < self.pending.len() ==> (#[trigger] self.pending[k]).2 <= now
        &&& (self.status matches Some(st) ==> st.1 <= now)
        &&& forall|k: int| 0 <= k < self.flashes.len() ==> (#[trigger] self.flashes[k]).1 <= now
        &&& (self.tab_transition_started_at matches Some(t) ==> t <= now)
    }
}

impl AppState {
    /// The entities matching the filter query, sorted by name then id.
    fn filtered_entities(&self) -> (r: Vec<&Entity>)
        ensures
            r@.map_values(|e: &Entity| *e) == self@.filtered(),
    {
        let q = match &self.filter {
            Some(f) => lower_of(f.query.as_str()),
            None => lower_of(""),
        };
        let ghost query = self@.query();
        proof {
            assert(""@ =~= Seq::<char>::empty()) by {
                reveal_strlit("");
            }
        }
        let qc = chars_of(q.as_str());
        let n = self.entities.len();
        let mut keys: Vec<Vec<Vec<char>>> = Vec::new();
        let mut items: Vec<usize> = Vec::new();
        let mut i: usize = 0;
        while i < n
            invariant
                n == self.entities.len(),
                i <= n,
                qc@ == str_lower(query),
                query == self@.query(),
                keys@.len() == i,
                forall|k: int| 0 <= k < i ==> #[trigger] key_view(keys@[k]@) == name_key(self.entities@[k]),
                items@ == matching(self.entities@.take(i as int), query),
                forall|k: int| 0 <= k < items@.len() ==> #[trigger] items@[k] < i,
            decreases n - i,
        {
            let e = &self.entities[i];
            let name = e.friendly_name();
            let lname = lower_of(name);
            let lc = chars_of(lname.as_str());
            let mut key: Vec<Vec<char>> = Vec::new();
            key.push(chars_of(name));
            key.push(chars_of(e.entity_id.as_str()));
            assert(key_view(key@) =~= name_key(*e));
            keys.push(key);
            proof {
                let t = self.entities@.take(i + 1);
                assert(t.drop_last() =~= self.entities@.take(i as int));
                assert(t.last() == *e);
            }
            if crate::text::chars_contain(&lc, &qc) {
                items.push(i);
            }
            i = i + 1;
        }
        assert(self.entities@.take(n as int) =~= self.entities@);
        assert(keys_view(keys@) =~= name_keys(self.entities@));
        let sorted = sort_indices(&keys, &items);
        proof {
            lemma_sort_keeps_indices(items@, keys_view(keys@), n as nat);
        }
        let mut out: Vec<&Entity> = Vec::new();
        let mut k: usize = 0;
        while k < sorted.len()
            invariant
                k <= sorted.len(),
                n == self.entities.len(),
                forall|m: int| 0 <= m < sorted@.len() ==> #[trigger] sorted@[m] < n,
                out@.len() == k,
                forall|m: int| 0 <= m < k ==> *(#[trigger] out@[m]) == self.entities@[sorted@[m] as int],
            decreases sorted.len() - k,
        {
            out.push(&self.entities[sorted[k]]);
            k = k + 1;
        }
        assert(out@.map_values(|e: &Entity| *e) =~= self@.filtered());
        out
    }

    /// The selected tab's own cards (ignores any active filter).
    fn selected_tab_cards(&self) -> (r: Vec<ResolvedCard<'_>>)
        ensures
            cards_model(r@) == self@.tab_cards(),
    {
        let mut tabs = self.tabs();
        if self.selected_group < tabs.len() {
            let ghost before = tabs_model(tabs@);
            let (_, cards) = tabs.remove(self.selected_group);
            assert(cards_model(cards@) == before[self.selected_group as int].cards);
            cards
        } else {
            Vec::new()
        }
    }

    /// The cards shown in the main panel: a single untitled card of search
    /// results while filtering, else the selected tab's cards.
    pub fn visible_cards(&self) -> (r: Vec<ResolvedCard<'_>>)
        ensures
            cards_model(r@) == self@.visible_cards(),
    {
        if self.filter.is_some() {
            let mut v: Vec<ResolvedCard<'_>> = Vec::new();
            v.push(ResolvedCard { title: None, entities: self.filtered_entities() });
            assert(cards_model(v@) =~= self@.visible_cards());
            return v;
        }
        self.selected_tab_cards()
    }

    /// (card, row) into `visible_cards()` that is currently selected.
    pub fn selected_position(&self) -> (r: (usize, usize))
        ensures
            r == self@.position(),
    {
        match &self.filter {
            Some(f) => (0, f.selected),
            None => (self.selected_card, self.selected_row),
        }
    }

    pub fn selected_entity(&self) -> (r: Option<&Entity>)
        ensures
            r is Some <==> self@.selected() is Some,
            r matches Some(e) ==> self@.selected() == Some(*e),
    {
        let (card, row) = self.selected_position();
        let mut cards = self.visible_cards();
        if card < cards.len() {
            let ghost cm = cards_model(cards@);
            let c = cards.remove(card);
            assert(card_model(c) == cm[card as int]);
            if row < c.entities.len() {
                return Some(c.entities[row]);
            }
        }
        None
    }

    /// Keeps the selection in bounds after the entity list or the filter
    /// changes size.
    fn clamp_selection(&mut self)
        ensures
            final(self)@ == old(self)@.clamped(),
    {
        if self.filter.is_some() {
            let count = self.filtered_entities().len();
            match &mut self.filter {
                Some(f) => {
                    if count == 0 {
                        f.selected = 0;
                    } else if f.selected >= count {
                        f.selected = count - 1;
                    }
                },
                None => {},
            }
            return;
        }
        let (group, card, row) = {
            let mut tabs = self.tabs();
            let group_count = tabs.len();
            if group_count == 0 {
                (0, 0, 0)
            } else {
                let group = if self.selected_group < group_count - 1 { self.selected_group } else { group_count - 1 };
                let ghost tm = tabs_model(tabs@);
                let (_, mut cards) = tabs.remove(group);
                assert(cards_model(cards@) == tm[group as int].cards);
                let card_count = cards.len();
                if card_count == 0 {
                    (group, 0, 0)
                } else {
                    let card = if self.selected_card < card_count - 1 { self.selected_card } else { card_count - 1 };
                    let ghost cm = cards_model(cards@);
                    let c = cards.remove(card);
                    assert(card_model(c) == cm[card as int]);
                    let entity_count = c.entities.len();
                    let row = if entity_count == 0 {
                        0
                    } else if self.selected_row < entity_count - 1 {
                        self.selected_row
                    } else {
                        entity_count - 1
                    };
                    (group, card, row)
                }
            }
        };
        self.selected_group = group;
        self.selected_card = card;
        self.selected_row = row;
    }
}


pub proof fn lemma_index_of_id(ents: Seq<Entity>, id: Seq<char>)
    ensures
        index_of_id(ents, id) is None ==> forall|k: int| 0 <= k < ents.len() ==> #[trigger] ents[k].entity_id@ != id,
        index_of_id(ents, id) matches Some(i) ==> 0 <= i < ents.len() && ents[i].entity_id@ == id
            && lookup(ents, id) == Some(ents[i]),
        index_of_id(ents, id) is None ==> lookup(ents, id) is None,
    decreases ents.len(),
{
    if ents.len() > 0 {
        lemma_index_of_id(ents.drop_last(), id);
        if index_of_id(ents, id) is None {
            assert forall|k: int| 0 <= k < ents.len() implies #[trigger] ents[k].entity_id@ != id by {
                if k < ents.len() - 1 {
                    assert(ents.drop_last()[k] == ents[k]);
                }
            }
        }
    }
}

proof fn lemma_last_state_step(states: Seq<StateObject>, i: int, id: Seq<char>)
    requires
        0 <= i < states.len(),
    ensures
        last_state(states.take(i + 1), id) == (if states[i].entity_id@ == id {
            Some(states[i])
        } else {
            last_state(states.take(i), id)
        }),
{
    let t = states.take(i + 1);
    assert(t.drop_last() =~= states.take(i));
}

/// One entity per reported id, built from the last state for it, in the
/// order ids first appear.
pub fn from_states(states: Vec<StateObject>) -> (r: Vec<Entity>)
    ensures
        is_snapshot_of(r@, states@),
        ids_unique(r@),
{
    let ghost all = states@;
    let mut rest = states;
    let mut r: Vec<Entity> = Vec::new();
    let mut i: usize = 0;
    let n = rest.len();
    while i < n
        invariant
            n == all.len(),
            i <= n,
            rest@ == all.skip(i as int),
            ids_unique(r@),
            r@.len() == first_reports(all.take(i as int)).len(),
            forall|k: int| 0 <= k < r@.len() ==> 0 <= #[trigger] first_reports(all.take(i as int))[k] < i,
            forall|k: int|
                0 <= k < r@.len() ==> (#[trigger] r@[k]).entity_id@ == all[first_reports(all.take(i as int))[k]].entity_id@,
            forall|k: int|
                0 <= k < r@.len() ==> (last_state(all.take(i as int), (#[trigger] r@[k]).entity_id@) matches Some(s)
                    && is_entity_of(r@[k], s)),
            forall|id: Seq<char>| #[trigger] last_state(all.take(i as int), id) is Some <==> index_of_id(r@, id) is Some,
        decreases n - i,
    {
        let st = rest.remove(0);
        assert(st == all[i as int]);
        assert(rest@ =~= all.skip(i + 1));
        let ghost f_old = first_reports(all.take(i as int));
        let ghost r_old = r@;
        proof {
            let t = all.take(i + 1);
            assert(t.drop_last() =~= all.take(i as int));
            assert(t.last() == all[i as int]);
            lemma_index_of_id(r_old, st.entity_id@);
        }
        let e = Entity::from_state(st);
        let found = find_in(&r, e.entity_id.as_str());
        assert(e.entity_id@ == all[i as int].entity_id@);
        proof {
            lemma_index_of_id(r_old, e.entity_id@);
            match index_of_id(r_old, e.entity_id@) {
                Some(q) => {
                    assert(r_old.len() == r.len());
                    assert(found == Some(q as usize));
                    assert(r_old[q].entity_id@ == e.entity_id@);
                },
                None => {},
            }
        }
        assert(found is Some ==> r_old[found.unwrap() as int].entity_id@ == all[i as int].entity_id@);
        match found {
            Some(j) => {
                r.set(j, e);
            },
            None => {
                r.push(e);
            },
        }
        proof {
            let id_i = all[i as int].entity_id@;
            let f_new = first_reports(all.take(i + 1));
            assert(last_state(all.take(i as int), id_i) is Some <==> found is Some);
            assert forall|id: Seq<char>| #[trigger] last_state(all.take(i + 1), id) is Some <==> index_of_id(r@, id) is Some by {
                lemma_last_state_step(all, i as int, id);
                lemma_index_of_id(r@, id);
                lemma_index_of_id(r_old, id);
                if id != id_i {
                    match index_of_id(r_old, id) {
                        Some(q) => {
                            lemma_index_of_id(r_old, id_i);
                            if found is Some && found.unwrap() == q {
                                assert(r_old[q].entity_id@ == id_i);
                            } else {
                                assert(r@[q] == r_old[q]);
                            }
                            assert(r@[q].entity_id@ == id);
                        },
                        None => {},
                    }
                    match index_of_id(r@, id) {
                        Some(q) => {
                            assert(q < r_old.len());
                            assert(r_old[q].entity_id@ == id);
                        },
                        None => {},
                    }
                } else {
                    assert(r@[if found is Some { found.unwrap() as int } else { r_old.len() as int }].entity_id@ == id);
                }
            }
            assert forall|k: int| 0 <= k < r@.len() implies (last_state(all.take(i + 1), (#[trigger] r@[k]).entity_id@) matches Some(s)
                && is_entity_of(r@[k], s)) by {
                lemma_last_state_step(all, i as int, r@[k].entity_id@);
                if k < r_old.len() && (found is None || found.unwrap() != k) {
                    assert(r@[k] == r_old[k]);
                    if r_old[k].entity_id@ == id_i {
                        lemma_index_of_id(r_old, id_i);
                    }
                }
            }
            assert forall|a: int, b: int| 0 <= a < r@.len() && 0 <= b < r@.len() && a != b implies #[trigger] r@[a].entity_id@
                != #[trigger] r@[b].entity_id@ by {
                if found is None {
                    if a == r_old.len() {
                        assert(r_old[b].entity_id@ != id_i);
                    } else if b == r_old.len() {
                        assert(r_old[a].entity_id@ != id_i);
                    } else {
                        assert(r@[a] == r_old[a] && r@[b] == r_old[b]);
                    }
                } else {
                    let j = found.unwrap() as int;
                    if a == j {
                        assert(r@[b] == r_old[b]);
                        assert(r_old[j].entity_id@ == id_i);
                        assert(r_old[b].entity_id@ != r_old[j].entity_id@);
                    } else if b == j {
                        assert(r@[a] == r_old[a]);
                        assert(r_old[a].entity_id@ != r_old[j].entity_id@);
                    } else {
                        assert(r@[a] == r_old[a] && r@[b] == r_old[b]);
                    }
                }
            }
            if found is None {
                assert(f_new == f_old.push(i as int));
            } else {
                assert(f_new == f_old);
            }
            assert forall|k: int| 0 <= k < r@.len() implies (#[trigger] r@[k]).entity_id@ == all[f_new[k]].entity_id@ by {
                if k < r_old.len() {
                    if found is Some && found.unwrap() == k {
                        assert(r_old[k].entity_id@ == id_i);
                    } else {
                        assert(r@[k] == r_old[k]);
                    }
                }
            }
            assert forall|k: int| 0 <= k < r@.len() implies 0 <= #[trigger] f_new[k] < i + 1 by {
                if k < r_old.len() {
                    assert(f_new[k] == f_old[k]);
                }
            }
        }
        i = i + 1;
    }
    proof {
        assert(all.take(n as int) =~= all);
        let f = first_reports(all);
        assert forall|k: int| 0 <= k < r@.len() implies (#[trigger] last_state(all, all[f[k]].entity_id@) matches Some(s)
            && is_entity_of(r@[k], s)) by {
            assert(r@[k].entity_id@ == all[f[k]].entity_id@);
        }
    }
    r
}

/// The index of the last entity with id `id` in `ents`.
fn find_in(ents: &Vec<Entity>, id: &str) -> (r: Option<usize>)
    ensures
        r == (match index_of_id(ents@, id@) {
            Some(i) => Some(i as usize),
            None => None::<usize>,
        }),
{
    let mut i = ents.len();
    assert(ents@.take(i as int) =~= ents@);
    while i > 0
        invariant
            i <= ents.len(),
            index_of_id(ents@, id@) == index_of_id(ents@.take(i as int), id@),
        decreases i,
    {
        proof {
            assert(ents@.take(i as int).drop_last() =~= ents@.take(i - 1));
        }
        if str_eq(ents[i - 1].entity_id.as_str(), id) {
            return Some(i - 1);
        }
        i = i - 1;
    }
    None
}


/// `pend` without the optimistic updates for `id`.
pub open spec fn pending_without(pend: Seq<(Seq<char>, Seq<char>, u64)>, id: Seq<char>) -> Seq<(Seq<char>, Seq<char>, u64)>
    decreases pend.len(),
{
    if pend.len() == 0 {
        pend
    } else {
        let r = pending_without(pend.drop_last(), id);
        if pend.last().0 == id { r } else { r.push(pend.last()) }
    }
}

/// The display text of the last optimistic update for `id`.
pub open spec fn pending_text(pend: Seq<(Seq<char>, Seq<char>, u64)>, id: Seq<char>) -> Option<Seq<char>>
    decreases pend.len(),
{
    if pend.len() == 0 {
        None
    } else if pend.last().0 == id {
        Some(pend.last().1)
    } else {
        pending_text(pend.drop_last(), id)
    }
}

/// `flashes` without the entries for `id`.
pub open spec fn flashes_without(flashes: Seq<(Seq<char>, u64)>, id: Seq<char>) -> Seq<(Seq<char>, u64)>
    decreases flashes.len(),
{
    if flashes.len() == 0 {
        flashes
    } else {
        let r = flashes_without(flashes.drop_last(), id);
        if flashes.last().0 == id { r } else { r.push(flashes.last()) }
    }
}

pub open spec fn flashed(flashes: Seq<(Seq<char>, u64)>, id: Seq<char>) -> bool {
    exists|k: int| 0 <= k < flashes.len() && (#[trigger] flashes[k]).0 == id
}

/// How long ago `at` was at time `now` (zero if `at` is later).
pub open spec fn age(now: u64, at: u64) -> int {
    if now >= at { now - at } else { 0 }
}

/// The optimistic updates younger than the pending timeout at `now`.
pub open spec fn pending_fresh(pend: Seq<(Seq<char>, Seq<char>, u64)>, now: u64) -> Seq<(Seq<char>, Seq<char>, u64)>
    decreases pend.len(),
{
    if pend.len() == 0 {
        pend
    } else {
        let r = pending_fresh(pend.drop_last(), now);
        if age(now, pend.last().2) < PENDING_TIMEOUT_NS { r.push(pend.last()) } else { r }
    }
}

/// The flashes younger than the flash duration at `now`.
pub open spec fn flashes_fresh(flashes: Seq<(Seq<char>, u64)>, now: u64) -> Seq<(Seq<char>, u64)>
    decreases flashes.len(),
{
    if flashes.len() == 0 {
        flashes
    } else {
        let r = flashes_fresh(flashes.drop_last(), now);
        if age(now, flashes.last().1) < FLASH_DURATION_NS { r.push(flashes.last()) } else { r }
    }
}

/// The entity `e` after a state update: from the new state, in place of
/// the entity with that id or appended when there was none.
pub open spec fn upserted(before: Seq<Entity>, after: Seq<Entity>, s: StateObject) -> bool {
    match index_of_id(before, s.entity_id@) {
        Some(i) => after.len() == before.len() && is_entity_of(after[i], s) && forall|k: int|
            0 <= k < before.len() && k != i ==> #[trigger] after[k] == before[k],
        None => after.len() == before.len() + 1 && is_entity_of(after.last(), s) && forall|k: int|
            0 <= k < before.len() ==> #[trigger] after[k] == before[k],
    }
}

/// `before` without the entity with id `id`, the others in order.
pub open spec fn removed(before: Seq<Entity>, id: Seq<char>) -> Seq<Entity> {
    match index_of_id(before, id) {
        Some(i) => before.remove(i),
        None => before,
    }
}

/// The status text of a toggle: `toggling ID...`.
pub open spec fn toggling_text(id: Seq<char>) -> Seq<char> {
    "toggling "@ + id + "..."@
}

impl AppModel {
    /// Whether `id` is one of the graphed entities of the dashboard.
    pub open spec fn is_graphed(self, id: Seq<char>) -> bool {
        self.graph_ids.contains(id)
    }

    /// What the entity list shows for `e`: its optimistic text while one is
    /// pending, else its own display state.
    pub open spec fn display_state(self, e: Entity) -> StateTextView {
        match pending_text(self.pending, e.entity_id@) {
            Some(t) => StateTextView::Text(t),
            None => e.spec_display(),
        }
    }
}

impl AppState {
    pub fn new(states: Vec<StateObject>, registry: Registry, dashboard: Vec<DashboardTab>) -> (r: AppState)
        ensures
            r@.wf(),
            is_snapshot_of(r@.entities, states@),
            r@ == (AppModel {
                entities: r@.entities,
                registry,
                group: 0,
                card: 0,
                row: 0,
                show_help: false,
                detail_entity: None,
                detail_card_title: None,
                detail_group: Seq::empty(),
                dashboard: dashboard@,
                filter: None,
                pending: Seq::empty(),
                status: None,
                graph_ids: r@.graph_ids,
                flashes: Seq::empty(),
                tab_transition_started_at: None,
            }).clamped(),
            r@.graph_ids == all_graph_ids(dashboard@),
    {
        let graph_entity_ids = collect_graph_ids(&dashboard);
        let entities = from_states(states);
        let mut app = AppState {
            entities,
            registry,
            selected_group: 0,
            selected_card: 0,
            selected_row: 0,
            show_help: false,
            detail_entity: None,
            detail_card_title: None,
            detail_group: Vec::new(),
            dashboard,
            filter: None,
            pending: Vec::new(),
            status: None,
            graph_entity_ids,
            flashes: Vec::new(),
            tab_transition_started_at: None,
            clock: clock_start(),
        };
        proof {
            assert(strings_view(app.detail_group@) =~= Seq::<Seq<char>>::empty());
            assert(app.pending@.map_values(|p: Pending| (p.entity_id@, p.display_state@, p.issued_at)) =~= Seq::empty());
            assert(app.flashes@.map_values(|f: Flash| (f.entity_id@, f.at)) =~= Seq::empty());
        }
        app.clamp_selection();
        app
    }

    /// Replaces the entity list and the registry with a fresh snapshot (after
    /// a reconnect); the selection is clamped, not reset.
    pub fn replace_snapshot(&mut self, states: Vec<StateObject>, registry: Registry)
        ensures
            final(self)@.wf(),
            is_snapshot_of(final(self)@.entities, states@),
            final(self)@ == (AppModel { entities: final(self)@.entities, registry, ..old(self)@ }).clamped(),
    {
        self.entities = from_states(states);
        self.registry = registry;
        self.clamp_selection();
    }

    /// Applies a `state_changed` update: the new state replaces the old,
    /// any optimistic update for the entity is dropped, and a change of the
    /// state string flashes the row.
    pub fn apply_state(&mut self, state: StateObject)
        ensures
            old(self)@.wf() ==> final(self)@.wf(),
            exists|now: u64| old(self)@.stamps_at_most(now) && #[trigger] old(self)@.applied(state, now, final(self)@),
    {
        let now = self.elapsed_ns();
        self.apply_state_at(state, now);
    }

    /// `apply_state` at time `now`.
    pub fn apply_state_at(&mut self, state: StateObject, now: u64)
        ensures
            old(self)@.wf() ==> final(self)@.wf(),
            old(self)@.applied(state, now, final(self)@),
    {
        let ghost st = state;
        let ghost before = self@;
        let e = Entity::from_state(state);
        self.remove_pending(e.entity_id.as_str());
        let found = find_in(&self.entities, e.entity_id.as_str());
        proof {
            lemma_index_of_id(before.entities, st.entity_id@);
        }
        let changed = match found {
            Some(i) => !str_eq(self.entities[i].state.as_str(), e.state.as_str()),
            None => false,
        };
        if changed {
            self.set_flash(e.entity_id.as_str(), now);
        }
        let ghost ents_before = self.entities@;
        let ghost eid = e.entity_id@;
        assert(ents_before == before.entities);
        assert(eid == st.entity_id@);
        proof {
            match index_of_id(ents_before, eid) {
                Some(q) => {
                    assert(ents_before.len() == self.entities.len());
                    assert(found == Some(q as usize));
                },
                None => {},
            }
        }
        assert(found is Some ==> ents_before[found.unwrap() as int].entity_id@ == eid);
        assert(found is None ==> forall|k: int| 0 <= k < ents_before.len() ==> #[trigger] ents_before[k].entity_id@ != eid);
        match found {
            Some(i) => {
                self.entities.set(i, e);
            },
            None => {
                self.entities.push(e);
            },
        }
        proof {
            let after = self.entities@;
            if ids_unique(ents_before) {
                assert forall|a: int, b: int| 0 <= a < after.len() && 0 <= b < after.len() && a != b implies #[trigger] after[a].entity_id@
                    != #[trigger] after[b].entity_id@ by {
                    match found {
                        Some(i) => {
                            let i = i as int;
                            if a != i && b != i {
                                assert(after[a] == ents_before[a] && after[b] == ents_before[b]);
                            } else if a == i {
                                assert(after[b] == ents_before[b]);
                            } else {
                                assert(after[a] == ents_before[a]);
                            }
                        },
                        None => {
                            if a < ents_before.len() && b < ents_before.len() {
                                assert(after[a] == ents_before[a] && after[b] == ents_before[b]);
                            } else if a < ents_before.len() {
                                assert(after[a] == ents_before[a]);
                            } else {
                                assert(after[b] == ents_before[b]);
                            }
                        },
                    }
                }
            }
        }
        let ghost mid = self@;
        self.clamp_selection();
        proof {
            assert(mid == AppModel {
                entities: mid.entities,
                pending: pending_without(before.pending, st.entity_id@),
                flashes: if before.changes(st) { flashes_without(before.flashes, st.entity_id@).push((st.entity_id@, now)) } else { before.flashes },
                ..before
            });
        }
    }

    /// Removes an entity (HA reported it gone), along with any optimistic
    /// update for it.
    pub fn remove_entity(&mut self, entity_id: &str)
        ensures
            old(self)@.wf() ==> final(self)@.wf(),
            final(self)@ == (AppModel {
                entities: removed(old(self)@.entities, entity_id@),
                pending: pending_without(old(self)@.pending, entity_id@),
                ..old(self)@
            }).clamped(),
    {
        let ghost before = self@;
        proof {
            lemma_index_of_id(before.entities, entity_id@);
        }
        let found = find_in(&self.entities, entity_id);
        proof {
            match index_of_id(before.entities, entity_id@) {
                Some(q) => {
                    assert(before.entities.len() == self.entities.len());
                    assert(found == Some(q as usize));
                },
                None => {},
            }
        }
        match found {
            Some(i) => {
                self.entities.remove(i);
            },
            None => {},
        }
        proof {
            let after = self.entities@;
            assert(after == removed(before.entities, entity_id@));
            if ids_unique(before.entities) {
                assert forall|a: int, b: int| 0 <= a < after.len() && 0 <= b < after.len() && a != b implies #[trigger] after[a].entity_id@
                    != #[trigger] after[b].entity_id@ by {
                    match index_of_id(before.entities, entity_id@) {
                        Some(i) => {
                            let a2 = if a < i { a } else { a + 1 };
                            let b2 = if b < i { b } else { b + 1 };
                            assert(after[a] == before.entities[a2]);
                            assert(after[b] == before.entities[b2]);
                        },
                        None => {},
                    }
                }
            }
        }
        self.remove_pending(entity_id);
        self.clamp_selection();
    }

    fn remove_pending(&mut self, id: &str)
        ensures
            final(self)@ == (AppModel { pending: pending_without(old(self)@.pending, id@), ..old(self)@ }),
            final(self).entities == old(self).entities,
            final(self).clock == old(self).clock,
    {
        let mut kept: Vec<Pending> = Vec::new();
        let mut i: usize = 0;
        while i < self.pending.len()
            invariant
                i <= self.pending.len(),
                kept@.map_values(|p: Pending| (p.entity_id@, p.display_state@, p.issued_at)) == pending_without(
                    self.pending@.take(i as int).map_values(|p: Pending| (p.entity_id@, p.display_state@, p.issued_at)),
                    id@,
                ),
            decreases self.pending.len() - i,
        {
            let p = &self.pending[i];
            let ghost before = kept@.map_values(|p: Pending| (p.entity_id@, p.display_state@, p.issued_at));
            proof {
                let t = self.pending@.take(i + 1).map_values(|p: Pending| (p.entity_id@, p.display_state@, p.issued_at));
                assert(t.drop_last() =~= self.pending@.take(i as int).map_values(|p: Pending| (p.entity_id@, p.display_state@, p.issued_at)));
            }
            if !str_eq(p.entity_id.as_str(), id) {
                kept.push(Pending { entity_id: p.entity_id.clone(), display_state: p.display_state.clone(), issued_at: p.issued_at });
                assert(kept@.map_values(|p: Pending| (p.entity_id@, p.display_state@, p.issued_at)) =~= before.push((p.entity_id@, p.display_state@, p.issued_at)));
            }
            i = i + 1;
        }
        assert(self.pending@.take(self.pending.len() as int) =~= self.pending@);
        self.pending = kept;
    }

    fn remove_flash(&mut self, id: &str)
        ensures
            final(self)@ == (AppModel { flashes: flashes_without(old(self)@.flashes, id@), ..old(self)@ }),
            final(self).entities == old(self).entities,
            final(self).clock == old(self).clock,
    {
        let mut kept: Vec<Flash> = Vec::new();
        let mut i: usize = 0;
        while i < self.flashes.len()
            invariant
                i <= self.flashes.len(),
                kept@.map_values(|f: Flash| (f.entity_id@, f.at)) == flashes_without(
                    self.flashes@.take(i as int).map_values(|f: Flash| (f.entity_id@, f.at)),
                    id@,
                ),
            decreases self.flashes.len() - i,
        {
            let f = &self.flashes[i];
            let ghost before = kept@.map_values(|f: Flash| (f.entity_id@, f.at));
            proof {
                let t = self.flashes@.take(i + 1).map_values(|f: Flash| (f.entity_id@, f.at));
                assert(t.drop_last() =~= self.flashes@.take(i as int).map_values(|f: Flash| (f.entity_id@, f.at)));
            }
            if !str_eq(f.entity_id.as_str(), id) {
                kept.push(Flash { entity_id: f.entity_id.clone(), at: f.at });
                assert(kept@.map_values(|f: Flash| (f.entity_id@, f.at)) =~= before.push((f.entity_id@, f.at)));
            }
            i = i + 1;
        }
        assert(self.flashes@.take(self.flashes.len() as int) =~= self.flashes@);
        self.flashes = kept;
    }

    fn set_flash(&mut self, id: &str, now: u64)
        ensures
            final(self)@ == (AppModel { flashes: flashes_without(old(self)@.flashes, id@).push((id@, now)), ..old(self)@ }),
            final(self).entities == old(self).entities,
            final(self).clock == old(self).clock,
    {
        self.remove_flash(id);
        let ghost before = self.flashes@.map_values(|f: Flash| (f.entity_id@, f.at));
        self.flashes.push(Flash { entity_id: String::from_str(id), at: now });
        assert(self.flashes@.map_values(|f: Flash| (f.entity_id@, f.at)) =~= before.push((id@, now)));
    }

    /// Records an optimistic display text for `entity_id`, replacing any
    /// earlier one, issued at time `now`.
    pub fn set_pending_at(&mut self, entity_id: &str, display_state: String, now: u64)
        ensures
            final(self)@ == (AppModel {
                pending: pending_without(old(self)@.pending, entity_id@).push((entity_id@, display_state@, now)),
                ..old(self)@
            }),
    {
        self.remove_pending(entity_id);
        let ghost before = self.pending@.map_values(|p: Pending| (p.entity_id@, p.display_state@, p.issued_at));
        self.pending.push(Pending { entity_id: String::from_str(entity_id), display_state, issued_at: now });
        assert(self.pending@.map_values(|p: Pending| (p.entity_id@, p.display_state@, p.issued_at)) =~= before.push(
            (entity_id@, display_state@, now),
        ));
    }

    /// Records an optimistic display text for `entity_id` now.
    pub fn set_pending(&mut self, entity_id: &str, display_state: String)
        ensures
            exists|now: u64| old(self)@.stamps_at_most(now) && final(self)@ == #[trigger] old(self)@.with_pending(entity_id@, display_state@, now),
    {
        let now = self.elapsed_ns();
        let ghost text = display_state@;
        self.set_pending_at(entity_id, display_state, now);
        assert(self@ == old(self)@.with_pending(entity_id@, text, now));
    }

    /// Whether an optimistic update is shown for `entity_id`.
    pub fn has_pending(&self, entity_id: &str) -> (r: bool)
        ensures
            r == (pending_text(self@.pending, entity_id@) is Some),
    {
        self.pending_display(entity_id).is_some()
    }

    fn pending_display(&self, id: &str) -> (r: Option<&String>)
        ensures
            r is Some <==> pending_text(self@.pending, id@) is Some,
            r matches Some(t) ==> pending_text(self@.pending, id@) == Some(t@),
    {
        let ghost pv = self@.pending;
        let mut i = self.pending.len();
        assert(pv.take(i as int) =~= pv);
        while i > 0
            invariant
                i <= self.pending.len(),
                pv == self@.pending,
                pv.len() == self.pending@.len(),
                forall|k: int| 0 <= k < pv.len() ==> #[trigger] pv[k] == (self.pending@[k].entity_id@, self.pending@[k].display_state@, self.pending@[k].issued_at),
                pending_text(pv, id@) == pending_text(pv.take(i as int), id@),
            decreases i,
        {
            proof {
                assert(pv.take(i as int).drop_last() =~= pv.take(i - 1));
            }
            if str_eq(self.pending[i - 1].entity_id.as_str(), id) {
                return Some(&self.pending[i - 1].display_state);
            }
            i = i - 1;
        }
        None
    }

    /// The text to show for an entity's state: its pending optimistic value
    /// while a service call is in flight, else its own display state.
    pub fn display_state(&self, entity: &Entity) -> (r: StateText)
        ensures
            r@ == self@.display_state(*entity),
    {
        match self.pending_display(entity.entity_id.as_str()) {
            Some(t) => StateText::Text(t.clone()),
            None => entity.display_state(),
        }
    }

    pub fn status_message(&self) -> (r: Option<&str>)
        ensures
            r is Some <==> self@.status is Some,
            r matches Some(m) ==> self@.status.unwrap().0 == m@,
    {
        match &self.status {
            Some((m, _)) => Some(m.as_str()),
            None => None,
        }
    }

    /// Shows `message` on the status line from time `now`.
    pub fn set_status_at(&mut self, message: String, now: u64)
        ensures
            final(self)@ == (AppModel { status: Some((message@, now)), ..old(self)@ }),
    {
        self.status = Some((message, now));
    }

    pub fn set_status(&mut self, message: String)
        ensures
            exists|now: u64| old(self)@.stamps_at_most(now) && final(self)@ == #[trigger] old(self)@.with_status(message@, now),
    {
        let now = self.elapsed_ns();
        let ghost m = message@;
        self.set_status_at(message, now);
        assert(self@ == old(self)@.with_status(m, now));
    }

    /// The WS task reported a failed service call: `error: MESSAGE`.
    pub fn command_failed(&mut self, message: &str)
        ensures
            exists|now: u64| old(self)@.stamps_at_most(now) && final(self)@ == #[trigger] old(self)@.with_status("error: "@ + message@, now),
    {
        let mut m = String::from_str("error: ");
        append_str(&mut m, message);
        let now = self.elapsed_ns();
        let ghost mv = m@;
        self.set_status_at(m, now);
        assert(self@ == old(self)@.with_status(mv, now));
    }

    /// The latest time the state has recorded (0 with none).
    fn latest_stamp(&self) -> (r: u64)
        ensures
            self@.stamps_at_most(r),
    {
        let mut r: u64 = 0;
        let mut i: usize = 0;
        while i < self.pending.len()
            invariant
                i <= self.pending.len(),
                forall|k: int| 0 <= k < i ==> (#[trigger] self.pending@[k]).issued_at <= r,
            decreases self.pending.len() - i,
        {
            if self.pending[i].issued_at > r {
                r = self.pending[i].issued_at;
            }
            i = i + 1;
        }
        let mut j: usize = 0;
        while j < self.flashes.len()
            invariant
                j <= self.flashes.len(),
                forall|k: int| 0 <= k < self.pending.len() ==> (#[trigger] self.pending@[k]).issued_at <= r,
                forall|k: int| 0 <= k < j ==> (#[trigger] self.flashes@[k]).at <= r,
            decreases self.flashes.len() - j,
        {
            if self.flashes[j].at > r {
                r = self.flashes[j].at;
            }
            j = j + 1;
        }
        match &self.status {
            Some((_, t)) => {
                if *t > r {
                    r = *t;
                }
            },
            None => {},
        }
        match self.tab_transition_started_at {
            Some(t) => {
                if t > r {
                    r = t;
                }
            },
            None => {},
        }
        assert forall|k: int| 0 <= k < self@.pending.len() implies (#[trigger] self@.pending[k]).2 <= r by {
            assert(self@.pending[k].2 == self.pending@[k].issued_at);
        }
        assert forall|k: int| 0 <= k < self@.flashes.len() implies (#[trigger] self@.flashes[k]).1 <= r by {
            assert(self@.flashes[k].1 == self.flashes@[k].at);
        }
        r
    }

    /// Nanoseconds since the state was created: the time its timestamps
    /// count from. It is the clock reading, never earlier than a time the
    /// state has already recorded (the clock only moves forward); nothing
    /// more is promised of it.
    pub fn elapsed_ns(&self) -> (r: u64)
        ensures
            self@.stamps_at_most(r),
    {
        let reading = nanos_since(&self.clock);
        let latest = self.latest_stamp();
        if reading >= latest { reading } else { latest }
    }

    /// The selected (tab, card, row) of the grid.
    pub fn selection(&self) -> (r: (usize, usize, usize))
        ensures
            r == (self@.group, self@.card, self@.row),
    {
        (self.selected_group, self.selected_card, self.selected_row)
    }

    /// Whether the keybindings overlay is up.
    pub fn help_shown(&self) -> (r: bool)
        ensures
            r == self@.show_help,
    {
        self.show_help
    }

    pub fn toggle_help(&mut self)
        ensures
            final(self)@ == (AppModel { show_help: !old(self)@.show_help, ..old(self)@ }),
    {
        self.show_help = !self.show_help;
    }

    pub fn close_help(&mut self)
        ensures
            final(self)@ == (AppModel { show_help: false, ..old(self)@ }),
    {
        self.show_help = false;
    }

    pub fn is_graphed(&self, entity_id: &str) -> (r: bool)
        ensures
            r == self@.is_graphed(entity_id@),
    {
        let mut i: usize = 0;
        while i < self.graph_entity_ids.len()
            invariant
                i <= self.graph_entity_ids.len(),
                forall|k: int| 0 <= k < i ==> self.graph_entity_ids@[k]@ != entity_id@,
            decreases self.graph_entity_ids.len() - i,
        {
            if str_eq(self.graph_entity_ids[i].as_str(), entity_id) {
                assert(self@.graph_ids[i as int] == entity_id@);
                return true;
            }
            i = i + 1;
        }
        proof {
            if self@.graph_ids.contains(entity_id@) {
                let k = choose|k: int| 0 <= k < self@.graph_ids.len() && self@.graph_ids[k] == entity_id@;
                assert(self.graph_entity_ids@[k]@ == entity_id@);
            }
        }
        false
    }

    /// Whether `entity_id`'s state changed recently enough to still flash.
    pub fn is_recently_changed(&self, entity_id: &str) -> (r: bool)
        ensures
            r == flashed(self@.flashes, entity_id@),
    {
        let mut i: usize = 0;
        while i < self.flashes.len()
            invariant
                i <= self.flashes.len(),
                forall|k: int| 0 <= k < i ==> self.flashes@[k].entity_id@ != entity_id@,
            decreases self.flashes.len() - i,
        {
            if str_eq(self.flashes[i].entity_id.as_str(), entity_id) {
                assert(self@.flashes[i as int].0 == entity_id@);
                return true;
            }
            i = i + 1;
        }
        proof {
            if flashed(self@.flashes, entity_id@) {
                let k = choose|k: int| 0 <= k < self@.flashes.len() && (#[trigger] self@.flashes[k]).0 == entity_id@;
                assert(self.flashes@[k].entity_id@ == entity_id@);
            }
        }
        false
    }
}

impl AppModel {
    /// This state with optimistic text `text` for `id`, issued at `now`.
    pub open spec fn with_pending(self, id: Seq<char>, text: Seq<char>, now: u64) -> AppModel {
        AppModel { pending: pending_without(self.pending, id).push((id, text, now)), ..self }
    }

    /// This state with status message `message`, shown from `now`.
    pub open spec fn with_status(self, message: Seq<char>, now: u64) -> AppModel {
        AppModel { status: Some((message, now)), ..self }
    }

    /// Whether a state update for `s.entity_id` changes a known entity's state string.
    pub open spec fn changes(self, s: StateObject) -> bool {
        lookup(self.entities, s.entity_id@) matches Some(e) && e.state@ != s.state@
    }

    /// `after` is this state with update `s` applied at time `now`.
    pub open spec fn applied(self, s: StateObject, now: u64, after: AppModel) -> bool {
        &&& upserted(self.entities, after.entities, s)
        &&& after == (AppModel {
            entities: after.entities,
            pending: pending_without(self.pending, s.entity_id@),
            flashes: if self.changes(s) {
                flashes_without(self.flashes, s.entity_id@).push((s.entity_id@, now))
            } else {
                self.flashes
            },
            ..self
        }).clamped()
    }
}

/// The graph ids of a list of cards, in order.
pub open spec fn cards_graph_ids(cards: Seq<DashboardCard>) -> Seq<Seq<char>>
    decreases cards.len(),
{
    if cards.len() == 0 {
        Seq::empty()
    } else {
        cards_graph_ids(cards.drop_last()) + strings_view(cards.last().graph_entity_ids@)
    }
}

/// Every graph id of every card of every tab, in order.
pub open spec fn all_graph_ids(tabs: Seq<DashboardTab>) -> Seq<Seq<char>>
    decreases tabs.len(),
{
    if tabs.len() == 0 {
        Seq::empty()
    } else {
        all_graph_ids(tabs.drop_last()) + cards_graph_ids(tabs.last().cards@)
    }
}

fn collect_graph_ids(dashboard: &Vec<DashboardTab>) -> (r: Vec<String>)
    ensures
        strings_view(r@) == all_graph_ids(dashboard@),
{
    let mut r: Vec<String> = Vec::new();
    let mut t: usize = 0;
    while t < dashboard.len()
        invariant
            t <= dashboard.len(),
            strings_view(r@) == all_graph_ids(dashboard@.take(t as int)),
        decreases dashboard.len() - t,
    {
        let tab = &dashboard[t];
        let ghost r0 = strings_view(r@);
        let mut c: usize = 0;
        while c < tab.cards.len()
            invariant
                c <= tab.cards.len(),
                tab == dashboard@[t as int],
                strings_view(r@) == r0 + cards_graph_ids(tab.cards@.take(c as int)),
            decreases tab.cards.len() - c,
        {
            let card = &tab.cards[c];
            let ghost r1 = strings_view(r@);
            let mut k: usize = 0;
            while k < card.graph_entity_ids.len()
                invariant
                    k <= card.graph_entity_ids.len(),
                    card == tab.cards@[c as int],
                    strings_view(r@) == r1 + strings_view(card.graph_entity_ids@.take(k as int)),
                decreases card.graph_entity_ids.len() - k,
            {
                let ghost r2 = strings_view(r@);
                let g = card.graph_entity_ids[k].clone();
                assert(g@ == card.graph_entity_ids@[k as int]@);
                r.push(g);
                assert(strings_view(r@) =~= r2.push(card.graph_entity_ids@[k as int]@));
                assert(strings_view(card.graph_entity_ids@.take(k + 1)) =~= strings_view(card.graph_entity_ids@.take(k as int)).push(card.graph_entity_ids@[k as int]@));
                assert(strings_view(r@) =~= r1 + strings_view(card.graph_entity_ids@.take(k + 1)));
                k = k + 1;
            }
            proof {
                assert(card.graph_entity_ids@.take(k as int) =~= card.graph_entity_ids@);
                let t2 = tab.cards@.take(c + 1);
                assert(t2.drop_last() =~= tab.cards@.take(c as int));
                assert(strings_view(r@) =~= r0 + cards_graph_ids(t2));
            }
            c = c + 1;
        }
        proof {
            assert(tab.cards@.take(c as int) =~= tab.cards@);
            let d1 = dashboard@.take(t + 1);
            assert(d1.drop_last() =~= dashboard@.take(t as int));
            assert(strings_view(r@) =~= all_graph_ids(d1));
        }
        t = t + 1;
    }
    assert(dashboard@.take(dashboard.len() as int) =~= dashboard@);
    r
}


/// The ids of `ids` that are graphed, in order.
pub open spec fn graphed_only(ids: Seq<Seq<char>>, graph_ids: Seq<Seq<char>>) -> Seq<Seq<char>>
    decreases ids.len(),
{
    if ids.len() == 0 {
        ids
    } else {
        let r = graphed_only(ids.drop_last(), graph_ids);
        if graph_ids.contains(ids.last()) { r.push(ids.last()) } else { r }
    }
}

pub open spec fn ids_of(es: Seq<Entity>) -> Seq<Seq<char>> {
    es.map_values(|e: Entity| e.entity_id@)
}

/// The entities of the cards, card after card.
pub open spec fn flatten_cards(cards: Seq<CardModel>) -> Seq<Entity>
    decreases cards.len(),
{
    if cards.len() == 0 {
        Seq::empty()
    } else {
        flatten_cards(cards.drop_last()) + cards.last().entities
    }
}

/// How many rows the first `k` cards have together.
pub open spec fn rows_before(cards: Seq<CardModel>, k: int) -> int
    decreases k,
{
    if k <= 0 || cards.len() == 0 {
        0
    } else if k > cards.len() {
        rows_before(cards, cards.len() as int)
    } else {
        rows_before(cards, k - 1) + cards[k - 1].entities.len()
    }
}

/// `{"brightness": b}`: a light's `turn_on` service data.
pub open spec fn is_brightness_data(j: Json, b: u64) -> bool {
    j matches Json::Object(m) && m@.len() == 1 && m@[0].0@ == "brightness"@ && (m@[0].1 matches Json::Number(n)
        && n.as_u64 == Some(b) && n.text@ == decimal(b as nat))
}

/// The call `domain.service(target: {"entity_id": id})` with the given data.
pub open spec fn is_call(
    c: Command,
    domain: Seq<char>,
    service: Seq<char>,
    id: Seq<char>,
) -> bool {
    match c {
        Command::CallService { domain: d, service: sv, service_data: _, target } => d@ == domain && sv@ == service
            && (target matches Some(t) && is_entity_target(t, id)),
    }
}

pub open spec fn call_data(c: Command) -> Option<Json> {
    match c {
        Command::CallService { service_data, .. } => service_data,
    }
}

/// A light's brightness after one `+`/`-` step: 25 up or down, kept in 0..=255.
pub open spec fn stepped_brightness(current: u8, direction: i64) -> int {
    let v = current + direction * 25;
    if v < 0 { 0 } else if v > 255 { 255 } else { v }
}

/// What `adjust_selected` hands back: a service call ready to send for a
/// light, or, for a climate entity, its id and the text of its current
/// target temperature (the new target is computed from that number).
pub enum Adjustment {
    Light(Command),
    Climate { entity_id: String, target: Option<String> },
}

/// `Duration::from_nanos`.
pub uninterp spec fn duration_of_nanos(n: u64) -> std::time::Duration;

#[verifier::external_body]
fn duration_from_nanos(n: u64) -> (r: std::time::Duration)
    ensures
        r == duration_of_nanos(n),
{
    std::time::Duration::from_nanos(n)
}

impl AppModel {
    /// The outcome of toggling the selection at time `now`.
    pub open spec fn toggled(self, now: u64, after: AppModel, r: Option<Command>) -> bool {
        match self.selected() {
            Some(e) => if e.domain@ == "light"@ || e.domain@ == "switch"@ {
                let id = e.entity_id@;
                &&& r matches Some(c) && is_call(c, e.domain@, "toggle"@, id) && call_data(c) is None
                &&& after == self.with_pending(id, if e.state@ == "on"@ { "off"@ } else { "on"@ }, now).with_status(toggling_text(id), now)
            } else {
                r is None && after == self
            },
            None => r is None && after == self,
        }
    }

    /// The outcome of a `+`/`-` step (`direction` +1 or -1) on the selection at `now`.
    pub open spec fn adjusted(self, direction: i64, now: u64, after: AppModel, r: Option<Adjustment>) -> bool {
        match self.selected() {
            Some(e) => if e.domain@ == "light"@ {
                let id = e.entity_id@;
                let cur: u8 = match e.spec_brightness() {
                    Some(b) => b,
                    None => 0,
                };
                let nb = stepped_brightness(cur, direction);
                &&& r matches Some(Adjustment::Light(c)) && is_call(c, "light"@, "turn_on"@, id) && (call_data(c) matches Some(d)
                    && is_brightness_data(d, nb as u64))
                &&& after == self.with_pending(id, crate::app::entity::light_text(true, Some(nb as u8)), now).with_status(
                    "setting "@ + id + " brightness to "@ + decimal(nb as nat) + "..."@,
                    now,
                )
            } else if e.domain@ == "climate"@ {
                &&& r matches Some(Adjustment::Climate { entity_id, target }) && entity_id@ == e.entity_id@ && opt_str(target)
                    == crate::app::entity::spec_number_text(e.attributes.spec_get("temperature"@))
                &&& after == self
            } else {
                r is None && after == self
            },
            None => r is None && after == self,
        }
    }

    /// The status line after `expire_stale` at `now`.
    pub open spec fn status_after(self, now: u64) -> Option<(Seq<char>, u64)> {
        match self.status {
            Some((m, at)) => if age(now, at) >= STATUS_TIMEOUT_NS { None } else { Some((m, at)) },
            None => None,
        }
    }

    /// The entities of the selected tab, card after card.
    pub open spec fn group_entities(self) -> Seq<Entity> {
        if self.group < self.tabs().len() {
            flatten_cards(self.tabs()[self.group as int].cards)
        } else {
            Seq::empty()
        }
    }

    /// The entity list of the main panel: search results while filtering,
    /// else the selected tab's entities.
    pub open spec fn visible_entities(self) -> Seq<Entity> {
        if self.filter is Some { self.filtered() } else { self.group_entities() }
    }

    /// A tab switch: no-op while filtering or for the current or a missing
    /// tab; else the tab changes, the selection goes to its top and the
    /// expand-in animation starts at `now`.
    pub open spec fn tab_switched(self, index: usize, now: u64) -> AppModel {
        if self.filter is Some || index == self.group || index >= self.tabs().len() {
            self
        } else {
            AppModel { group: index, card: 0, row: 0, tab_transition_started_at: Some(now), ..self }
        }
    }

    /// `move_up` with `columns` cards per grid row.
    pub open spec fn moved_up(self, columns: usize) -> AppModel {
        match self.filter {
            Some(f) => AppModel { filter: Some(FilterModel { selected: if f.selected > 0 { (f.selected - 1) as usize } else { 0 }, ..f }), ..self },
            None => if self.row > 0 {
                AppModel { row: (self.row - 1) as usize, ..self }
            } else {
                let cols = if columns == 0 { 1 } else { columns };
                if self.card < cols || self.card - cols >= self.tab_cards().len() {
                    self
                } else {
                    let target = (self.card - cols) as usize;
                    let n = self.tab_cards()[target as int].entities.len();
                    AppModel { card: target, row: if n > 0 { (n - 1) as usize } else { 0 }, ..self }
                }
            },
        }
    }

    /// `move_down` with `columns` cards per grid row.
    pub open spec fn moved_down(self, columns: usize) -> AppModel {
        match self.filter {
            Some(f) => {
                let n = self.filtered().len();
                if n > 0 {
                    AppModel { filter: Some(FilterModel { selected: min_usize((f.selected + 1) as usize, (n - 1) as usize), ..f }), ..self }
                } else {
                    self
                }
            },
            None => if self.card >= self.tab_cards().len() {
                self
            } else if self.row + 1 < self.tab_cards()[self.card as int].entities.len() {
                AppModel { row: (self.row + 1) as usize, ..self }
            } else {
                let cols = if columns == 0 { 1 } else { columns };
                if self.card + cols < self.tab_cards().len() {
                    AppModel { card: (self.card + cols) as usize, row: 0, ..self }
                } else {
                    self
                }
            },
        }
    }

    /// Selects card `card` of the selected tab, keeping the row where it fits.
    pub open spec fn card_selected(self, card: usize) -> AppModel {
        if card < self.tab_cards().len() {
            let n = self.tab_cards()[card as int].entities.len();
            AppModel { card, row: min_usize(self.row, if n > 0 { (n - 1) as usize } else { 0 }), ..self }
        } else {
            self
        }
    }

    pub open spec fn moved_left(self, columns: usize) -> AppModel {
        if self.filter is Some || columns <= 1 || self.card % columns == 0 {
            self
        } else {
            self.card_selected((self.card - 1) as usize)
        }
    }

    pub open spec fn moved_right(self, columns: usize) -> AppModel {
        if self.filter is Some || columns <= 1 {
            self
        } else {
            let row_start = self.card - self.card % columns;
            let row_end = if row_start + columns < self.tab_cards().len() { row_start + columns } else { self.tab_cards().len() as int };
            if self.card + 1 < row_end { self.card_selected((self.card + 1) as usize) } else { self }
        }
    }

    /// `select(card, row)`: the search result `row` (clamped) while
    /// filtering, else card `card` and its row `row` (clamped); a no-op for
    /// an empty or missing card.
    pub open spec fn selected_at(self, card: usize, row: usize) -> AppModel {
        match self.filter {
            Some(f) => {
                let n = self.filtered().len();
                if n == 0 {
                    self
                } else {
                    AppModel { filter: Some(FilterModel { selected: min_usize(row, (n - 1) as usize), ..f }), ..self }
                }
            },
            None => if card < self.tab_cards().len() && self.tab_cards()[card as int].entities.len() > 0 {
                let n = self.tab_cards()[card as int].entities.len();
                AppModel { card, row: min_usize(row, (n - 1) as usize), ..self }
            } else {
                self
            },
        }
    }

    /// The selection is a graphed entity: activating it opens its chart.
    pub open spec fn selection_graphed(self) -> bool {
        self.selected() matches Some(e) && self.is_graphed(e.entity_id@)
    }

    /// Activating the selection at `now`: the chart of a graphed entity
    /// opens, anything else is toggled; `r` says whether anything happened
    /// and carries the service call to send.
    pub open spec fn activated(self, now: u64, after: AppModel, r: (bool, Option<Command>)) -> bool {
        if self.selection_graphed() {
            after == self.detail_opened() && r == (true, None::<Command>)
        } else {
            self.toggled(now, after, r.1) && r.0 == r.1 is Some
        }
    }

    /// The detail popup closed.
    pub open spec fn detail_closed(self) -> AppModel {
        AppModel { detail_entity: None, detail_card_title: None, detail_group: Seq::empty(), ..self }
    }

    /// The detail popup opened on the selection: only for a graphed entity,
    /// remembering its card's title and the card's graphed entity ids in order.
    pub open spec fn detail_opened(self) -> AppModel {
        match self.selected() {
            Some(e) => if self.is_graphed(e.entity_id@) {
                let card = self.visible_cards()[self.position().0 as int];
                AppModel {
                    detail_entity: Some(e.entity_id@),
                    detail_card_title: card.title,
                    detail_group: graphed_only(ids_of(card.entities), self.graph_ids),
                    ..self
                }
            } else {
                self
            },
            None => self,
        }
    }
}


impl AppModel {
    /// `/`: the filter input opened, keeping any active query.
    pub open spec fn filter_started(self) -> AppModel {
        AppModel { filter: Some(FilterModel { query: self.query(), editing: true, selected: 0 }), ..self }
    }

    /// A character typed into the filter: appended to the query, the
    /// selection back on the first result.
    pub open spec fn char_pushed(self, c: char) -> AppModel {
        match self.filter {
            Some(f) => AppModel { filter: Some(FilterModel { query: f.query.push(c), selected: 0, ..f }), ..self },
            None => self,
        }
    }

    /// Backspace in the filter: the query's last character dropped (none
    /// when it is empty), the selection back on the first result.
    pub open spec fn backspaced(self) -> AppModel {
        match self.filter {
            Some(f) => AppModel {
                filter: Some(FilterModel { query: if f.query.len() > 0 { f.query.drop_last() } else { f.query }, selected: 0, ..f }),
                ..self
            },
            None => self,
        }
    }

    /// Enter in the filter: keys stop going into the query, the filter stays.
    pub open spec fn filter_confirmed(self) -> AppModel {
        match self.filter {
            Some(f) => AppModel { filter: Some(FilterModel { editing: false, ..f }), ..self },
            None => self,
        }
    }

    /// Esc: the filter cleared entirely.
    pub open spec fn filter_cancelled(self) -> AppModel {
        AppModel { filter: None, ..self }
    }
}

impl AppState {
    pub fn is_filter_editing(&self) -> (r: bool)
        ensures
            r == (self@.filter matches Some(f) && f.editing),
    {
        match &self.filter {
            Some(f) => f.editing,
            None => false,
        }
    }

    pub fn is_filtering(&self) -> (r: bool)
        ensures
            r == self@.filter is Some,
    {
        self.filter.is_some()
    }

    pub fn filter_query(&self) -> (r: Option<&str>)
        ensures
            r is Some <==> self@.filter is Some,
            r matches Some(q) ==> self@.filter.unwrap().query == q@,
    {
        match &self.filter {
            Some(f) => Some(f.query.as_str()),
            None => None,
        }
    }

    /// `/`: opens the filter input, keeping any active query.
    pub fn start_filter(&mut self)
        ensures
            final(self)@ == old(self)@.filter_started(),
    {
        let query = match &self.filter {
            Some(f) => f.query.clone(),
            None => String::new(),
        };
        self.filter = Some(FilterState { query, editing: true, selected: 0 });
    }

    pub fn filter_push_char(&mut self, c: char)
        ensures
            final(self)@ == old(self)@.char_pushed(c),
    {
        match &mut self.filter {
            Some(f) => {
                push_char(&mut f.query, c);
                f.selected = 0;
            },
            None => {},
        }
    }

    /// Removes the query's last character (nothing when it is empty).
    pub fn filter_backspace(&mut self)
        ensures
            final(self)@ == old(self)@.backspaced(),
    {
        match &mut self.filter {
            Some(f) => {
                let cs = chars_of(f.query.as_str());
                let mut q = String::new();
                let n = cs.len();
                let keep = if n > 0 { n - 1 } else { 0 };
                let mut i: usize = 0;
                while i < keep
                    invariant
                        keep <= cs.len(),
                        i <= keep,
                        q@ == cs@.take(i as int),
                    decreases keep - i,
                {
                    push_char(&mut q, cs[i]);
                    assert(cs@.take(i + 1) =~= cs@.take(i as int).push(cs@[i as int]));
                    i = i + 1;
                }
                assert(n > 0 ==> cs@.take(keep as int) =~= cs@.drop_last());
                assert(n == 0 ==> cs@.take(0) =~= cs@);
                f.query = q;
                f.selected = 0;
            },
            None => {},
        }
    }

    /// Enter: stop capturing keys into the query, keeping the filter applied.
    pub fn confirm_filter(&mut self)
        ensures
            final(self)@ == old(self)@.filter_confirmed(),
    {
        match &mut self.filter {
            Some(f) => {
                f.editing = false;
            },
            None => {},
        }
    }

    /// Esc: clears the filter entirely.
    pub fn cancel_filter(&mut self)
        ensures
            final(self)@ == old(self)@.filter_cancelled(),
    {
        self.filter = None;
    }

    /// Enter/Space on a row, or a double-click on one: opens the history
    /// chart for a graphed selection, otherwise toggles it (keyboard and
    /// mouse activation thus always agree). Hands back whether anything
    /// happened and the service call to send, if any.
    pub fn activate_selected(&mut self) -> (r: (bool, Option<Command>))
        ensures
            exists|now: u64| old(self)@.stamps_at_most(now) && #[trigger] old(self)@.activated(now, final(self)@, r),
    {
        let now = self.elapsed_ns();
        let r = self.activate_selected_at(now);
        assert(old(self)@.activated(now, self@, r));
        r
    }

    /// `activate_selected` at time `now`.
    pub fn activate_selected_at(&mut self, now: u64) -> (r: (bool, Option<Command>))
        ensures
            old(self)@.activated(now, final(self)@, r),
    {
        let graphed = match self.selected_entity() {
            Some(e) => self.is_graphed(e.entity_id.as_str()),
            None => false,
        };
        if graphed {
            self.open_detail();
            (true, None)
        } else {
            let cmd = self.toggle_selected_at(now);
            (cmd.is_some(), cmd)
        }
    }

    /// Toggles the selected entity if it is a light or a switch, returning
    /// the service call to send, and shows the flipped state optimistically.
    pub fn toggle_selected(&mut self) -> (r: Option<Command>)
        ensures
            exists|now: u64| old(self)@.stamps_at_most(now) && #[trigger] old(self)@.toggled(now, final(self)@, r),
    {
        let now = self.elapsed_ns();
        let r = self.toggle_selected_at(now);
        assert(old(self)@.toggled(now, self@, r));
        r
    }

    /// `toggle_selected` at time `now`.
    pub fn toggle_selected_at(&mut self, now: u64) -> (r: Option<Command>)
        ensures
            old(self)@.toggled(now, final(self)@, r),
    {
        let (entity_id, domain, new_state) = match self.selected_entity() {
            Some(entity) => {
                if !str_eq(entity.domain.as_str(), "light") && !str_eq(entity.domain.as_str(), "switch") {
                    return None;
                }
                let new_state = if str_eq(entity.state.as_str(), "on") { String::from_str("off") } else { String::from_str("on") };
                (entity.entity_id.clone(), entity.domain.clone(), new_state)
            },
            None => {
                return None;
            },
        };
        self.set_pending_at(entity_id.as_str(), new_state, now);
        let mut status = String::from_str("toggling ");
        append_str(&mut status, entity_id.as_str());
        append_str(&mut status, "...");
        self.set_status_at(status, now);
        Some(Command::CallService {
            domain,
            service: String::from_str("toggle"),
            service_data: None,
            target: Some(entity_target(entity_id.as_str())),
        })
    }

    /// `direction` is +1 (`Increase`) or -1 (`Decrease`), read per the
    /// selected entity's domain: a light's brightness moves a step of 25
    /// within 0..=255; a climate entity's target temperature moves half a
    /// degree (computed by the caller from the target handed back).
    pub fn adjust_selected(&mut self, direction: i64) -> (r: Option<Adjustment>)
        requires
            -368934881474191032 <= direction <= 368934881474191022,
        ensures
            exists|now: u64| old(self)@.stamps_at_most(now) && #[trigger] old(self)@.adjusted(direction, now, final(self)@, r),
    {
        let now = self.elapsed_ns();
        let r = self.adjust_selected_at(direction, now);
        assert(old(self)@.adjusted(direction, now, self@, r));
        r
    }

    /// `adjust_selected` at time `now`.
    pub fn adjust_selected_at(&mut self, direction: i64, now: u64) -> (r: Option<Adjustment>)
        requires
            -368934881474191032 <= direction <= 368934881474191022,
        ensures
            old(self)@.adjusted(direction, now, final(self)@, r),
    {
        let (entity_id, nb) = match self.selected_entity() {
            Some(entity) => {
                if str_eq(entity.domain.as_str(), "light") {
                    let light = entity.as_light().unwrap();
                    let current: i64 = match light.brightness() {
                        Some(b) => b as i64,
                        None => 0,
                    };
                    let v = current + direction * 25;
                    let nb: u64 = if v < 0 { 0 } else if v > 255 { 255 } else { v as u64 };
                    (entity.entity_id.clone(), nb)
                } else if str_eq(entity.domain.as_str(), "climate") {
                    let climate = entity.as_climate().unwrap();
                    let target = match climate.target_temperature_text() {
                        Some(t) => Some(String::from_str(t)),
                        None => None,
                    };
                    return Some(Adjustment::Climate { entity_id: entity.entity_id.clone(), target });
                } else {
                    return None;
                }
            },
            None => {
                return None;
            },
        };
        let text = crate::app::entity::light_state_text(true, Some(nb as u8));
        self.set_pending_at(entity_id.as_str(), text, now);
        let mut status = String::from_str("setting ");
        append_str(&mut status, entity_id.as_str());
        append_str(&mut status, " brightness to ");
        let d = decimal_string(nb);
        append_str(&mut status, d.as_str());
        append_str(&mut status, "...");
        self.set_status_at(status, now);
        let mut data: Vec<(String, Json)> = Vec::new();
        data.push((String::from_str("brightness"), Json::Number(JsonNumber { as_u64: Some(nb), text: decimal_string(nb) })));
        Some(Adjustment::Light(Command::CallService {
            domain: String::from_str("light"),
            service: String::from_str("turn_on"),
            service_data: Some(Json::Object(data)),
            target: Some(entity_target(entity_id.as_str())),
        }))
    }
}


/// `{"temperature": t}`: a climate service call's data.
pub open spec fn is_temperature_data(j: Json, t: Json) -> bool {
    j matches Json::Object(m) && m@.len() == 1 && m@[0].0@ == "temperature"@ && m@[0].1 == t
}

impl AppModel {
    /// This state after a new target `target_text` (the stepped target,
    /// written with one decimal) was chosen for climate entity `id` at `now`:
    /// the optimistic `target <t>°` and the status `setting <id> target temp
    /// to <t>...`.
    pub open spec fn climate_target_set(self, id: Seq<char>, target_text: Seq<char>, now: u64) -> AppModel {
        self.with_pending(id, "target "@ + target_text + "°"@, now).with_status(
            "setting "@ + id + " target temp to "@ + target_text + "..."@,
            now,
        )
    }
}

impl AppState {
    /// `set_climate_target` at time `now`.
    pub fn set_climate_target_at(&mut self, entity_id: &str, target_text: &str, temperature: Json, now: u64) -> (r: Command)
        ensures
            is_call(r, "climate"@, "set_temperature"@, entity_id@),
            call_data(r) matches Some(d) && is_temperature_data(d, temperature),
            final(self)@ == old(self)@.climate_target_set(entity_id@, target_text@, now),
    {
        let mut pending_text = String::from_str("target ");
        append_str(&mut pending_text, target_text);
        append_str(&mut pending_text, "°");
        self.set_pending_at(entity_id, pending_text, now);
        let mut status = String::from_str("setting ");
        append_str(&mut status, entity_id);
        append_str(&mut status, " target temp to ");
        append_str(&mut status, target_text);
        append_str(&mut status, "...");
        self.set_status_at(status, now);
        let mut data: Vec<(String, Json)> = Vec::new();
        data.push((String::from_str("temperature"), temperature));
        Command::CallService {
            domain: String::from_str("climate"),
            service: String::from_str("set_temperature"),
            service_data: Some(Json::Object(data)),
            target: Some(entity_target(entity_id)),
        }
    }

    /// After `adjust_selected` handed back a climate entity's target, the
    /// program steps it (a decimal number) and passes the new target here,
    /// as text with one decimal and as the JSON number to send: this records
    /// the optimistic `target <t>°` and the status line, and returns the
    /// `climate.set_temperature` call for `entity_id`.
    pub fn set_climate_target(&mut self, entity_id: &str, target_text: &str, temperature: Json) -> (r: Command)
        ensures
            is_call(r, "climate"@, "set_temperature"@, entity_id@),
            call_data(r) matches Some(d) && is_temperature_data(d, temperature),
            exists|now: u64| old(self)@.stamps_at_most(now) && final(self)@ == #[trigger] old(self)@.climate_target_set(entity_id@, target_text@, now),
    {
        let now = self.elapsed_ns();
        self.set_climate_target_at(entity_id, target_text, temperature, now)
    }
}

impl AppState {
    /// Clears optimistic updates, the status message and row flashes that
    /// have outlived their timeouts; returns whether anything was cleared.
    pub fn expire_stale(&mut self) -> (r: bool)
        ensures
            exists|now: u64| old(self)@.stamps_at_most(now) && #[trigger] old(self)@.expired(now, final(self)@, r),
    {
        let now = self.elapsed_ns();
        let r = self.expire_stale_at(now);
        assert(old(self)@.expired(now, self@, r));
        r
    }

    /// `expire_stale` at time `now`.
    pub fn expire_stale_at(&mut self, now: u64) -> (r: bool)
        ensures
            old(self)@.expired(now, final(self)@, r),
    {
        let before_pending = self.pending.len();
        let mut kept: Vec<Pending> = Vec::new();
        let mut i: usize = 0;
        while i < self.pending.len()
            invariant
                i <= self.pending.len(),
                kept@.map_values(|p: Pending| (p.entity_id@, p.display_state@, p.issued_at)) == pending_fresh(
                    self.pending@.take(i as int).map_values(|p: Pending| (p.entity_id@, p.display_state@, p.issued_at)),
                    now,
                ),
            decreases self.pending.len() - i,
        {
            let p = &self.pending[i];
            let ghost before = kept@.map_values(|p: Pending| (p.entity_id@, p.display_state@, p.issued_at));
            proof {
                let t = self.pending@.take(i + 1).map_values(|p: Pending| (p.entity_id@, p.display_state@, p.issued_at));
                assert(t.drop_last() =~= self.pending@.take(i as int).map_values(|p: Pending| (p.entity_id@, p.display_state@, p.issued_at)));
            }
            let age = if now >= p.issued_at { now - p.issued_at } else { 0 };
            if age < PENDING_TIMEOUT_NS {
                kept.push(Pending { entity_id: p.entity_id.clone(), display_state: p.display_state.clone(), issued_at: p.issued_at });
                assert(kept@.map_values(|p: Pending| (p.entity_id@, p.display_state@, p.issued_at)) =~= before.push((p.entity_id@, p.display_state@, p.issued_at)));
            }
            i = i + 1;
        }
        assert(self.pending@.take(self.pending.len() as int) =~= self.pending@);
        self.pending = kept;
        let pending_changed = self.pending.len() != before_pending;

        let status_changed = match &self.status {
            Some((_, at)) => {
                let age = if now >= *at { now - *at } else { 0 };
                age >= STATUS_TIMEOUT_NS
            },
            None => false,
        };
        if status_changed {
            self.status = None;
        }

        let before_flashes = self.flashes.len();
        let mut fresh: Vec<Flash> = Vec::new();
        let mut j: usize = 0;
        while j < self.flashes.len()
            invariant
                j <= self.flashes.len(),
                fresh@.map_values(|f: Flash| (f.entity_id@, f.at)) == flashes_fresh(
                    self.flashes@.take(j as int).map_values(|f: Flash| (f.entity_id@, f.at)),
                    now,
                ),
            decreases self.flashes.len() - j,
        {
            let f = &self.flashes[j];
            let ghost before = fresh@.map_values(|f: Flash| (f.entity_id@, f.at));
            proof {
                let t = self.flashes@.take(j + 1).map_values(|f: Flash| (f.entity_id@, f.at));
                assert(t.drop_last() =~= self.flashes@.take(j as int).map_values(|f: Flash| (f.entity_id@, f.at)));
            }
            let age = if now >= f.at { now - f.at } else { 0 };
            if age < FLASH_DURATION_NS {
                fresh.push(Flash { entity_id: f.entity_id.clone(), at: f.at });
                assert(fresh@.map_values(|f: Flash| (f.entity_id@, f.at)) =~= before.push((f.entity_id@, f.at)));
            }
            j = j + 1;
        }
        assert(self.flashes@.take(self.flashes.len() as int) =~= self.flashes@);
        self.flashes = fresh;
        let flashes_changed = self.flashes.len() != before_flashes;

        pending_changed || status_changed || flashes_changed
    }

    /// Enter on a graphed row: opens the detail chart for the selection and
    /// snapshots the graphed entities of the card on screen, in its order.
    /// A no-op when the selection is not graphed.
    pub fn open_detail(&mut self)
        ensures
            final(self)@ == old(self)@.detail_opened(),
    {
        let ghost before = self@;
        let id = match self.selected_entity() {
            Some(e) => e.entity_id.clone(),
            None => {
                return;
            },
        };
        if !self.is_graphed(id.as_str()) {
            return;
        }
        let (card_title, ids) = {
            let (pos, _) = self.selected_position();
            let mut cards = self.visible_cards();
            let ghost cm = cards_model(cards@);
            assert(pos < cards.len());
            let card = cards.remove(pos);
            assert(card_model(card) == cm[pos as int]);
            let mut ids: Vec<String> = Vec::new();
            let mut k: usize = 0;
            while k < card.entities.len()
                invariant
                    k <= card.entities.len(),
                    strings_view(ids@) == graphed_only(ids_of(card_model(card).entities.take(k as int)), before.graph_ids),
                    before.graph_ids == self@.graph_ids,
                decreases card.entities.len() - k,
            {
                let eid = &card.entities[k].entity_id;
                let ghost prev = strings_view(ids@);
                proof {
                    let t = ids_of(card_model(card).entities.take(k + 1));
                    assert(t.drop_last() =~= ids_of(card_model(card).entities.take(k as int)));
                    assert(t.last() == eid@);
                }
                if self.is_graphed(eid.as_str()) {
                    ids.push(eid.clone());
                    assert(strings_view(ids@) =~= prev.push(eid@));
                }
                k = k + 1;
            }
            assert(card_model(card).entities.take(k as int) =~= card_model(card).entities);
            let title = match &card.title {
                Some(t) => Some(t.clone()),
                None => None,
            };
            (title, ids)
        };
        self.detail_card_title = card_title;
        self.detail_group = ids;
        self.detail_entity = Some(id);
    }

    pub fn close_detail(&mut self)
        ensures
            final(self)@ == old(self)@.detail_closed(),
    {
        self.detail_entity = None;
        self.detail_card_title = None;
        self.detail_group = Vec::new();
        assert(strings_view(self.detail_group@) =~= Seq::<Seq<char>>::empty());
    }

    /// The title of the card the detail popup was opened from.
    pub fn detail_card_title(&self) -> (r: Option<&str>)
        ensures
            r is Some <==> self@.detail_card_title is Some,
            r matches Some(t) ==> self@.detail_card_title == Some(t@),
    {
        match &self.detail_card_title {
            Some(t) => Some(t.as_str()),
            None => None,
        }
    }

    pub fn detail_entity(&self) -> (r: Option<&str>)
        ensures
            r is Some <==> self@.detail_entity is Some,
            r matches Some(t) ==> self@.detail_entity == Some(t@),
    {
        match &self.detail_entity {
            Some(t) => Some(t.as_str()),
            None => None,
        }
    }

    /// The graphed entities of the detail popup's card, in the card's order
    /// (ids HA no longer knows are skipped).
    pub fn detail_group(&self) -> (r: Vec<&Entity>)
        ensures
            r@.map_values(|e: &Entity| *e) == resolve_ids(self@.entities, self@.detail_group),
    {
        let mut es: Vec<&Entity> = Vec::new();
        let mut i: usize = 0;
        while i < self.detail_group.len()
            invariant
                i <= self.detail_group.len(),
                es@.map_values(|e: &Entity| *e) == resolve_ids(self@.entities, strings_view(self.detail_group@.take(i as int))),
            decreases self.detail_group.len() - i,
        {
            let ghost before = es@.map_values(|e: &Entity| *e);
            proof {
                let ids = strings_view(self.detail_group@.take(i + 1));
                assert(ids.drop_last() =~= strings_view(self.detail_group@.take(i as int)));
                assert(ids.last() == self.detail_group@[i as int]@);
            }
            match self.entity(self.detail_group[i].as_str()) {
                Some(e) => {
                    es.push(e);
                    assert(es@.map_values(|e: &Entity| *e) =~= before.push(*e));
                },
                None => {},
            }
            i = i + 1;
        }
        assert(self.detail_group@.take(self.detail_group.len() as int) =~= self.detail_group@);
        es
    }
}

impl AppModel {
    /// `after` is this state once `expire_stale` ran at `now`, `r` whether
    /// anything was cleared.
    pub open spec fn expired(self, now: u64, after: AppModel, r: bool) -> bool {
        &&& after == (AppModel {
            pending: pending_fresh(self.pending, now),
            status: self.status_after(now),
            flashes: flashes_fresh(self.flashes, now),
            ..self
        })
        &&& r == (after.pending.len() != self.pending.len() || after.status != self.status || after.flashes.len()
            != self.flashes.len())
    }
}


impl AppState {
    /// "Dashboard" with configured or imported tabs, "Rooms" with the
    /// automatic grouping.
    pub fn tabs_label(&self) -> (r: &'static str)
        ensures
            r@ == (if self@.dashboard.len() == 0 { "Rooms"@ } else { "Dashboard"@ }),
    {
        if self.dashboard.len() == 0 {
            "Rooms"
        } else {
            "Dashboard"
        }
    }

    /// The tabs, each with its cards flattened into one ordered list.
    pub fn grouped(&self) -> (r: Vec<(String, Vec<&Entity>)>)
        ensures
            r@.len() == self@.tabs().len(),
            forall|k: int| 0 <= k < r@.len() ==> (#[trigger] r@[k]).0@ == self@.tabs()[k].name
                && r@[k].1@.map_values(|e: &Entity| *e) == flatten_cards(self@.tabs()[k].cards),
    {
        let tabs = self.tabs();
        let ghost tm = tabs_model(tabs@);
        let mut out: Vec<(String, Vec<&Entity>)> = Vec::new();
        let mut t: usize = 0;
        while t < tabs.len()
            invariant
                t <= tabs.len(),
                tm == tabs_model(tabs@),
                tm == self@.tabs(),
                out@.len() == t,
                forall|k: int| 0 <= k < t ==> (#[trigger] out@[k]).0@ == tm[k].name
                    && out@[k].1@.map_values(|e: &Entity| *e) == flatten_cards(tm[k].cards),
            decreases tabs.len() - t,
        {
            let flat = flatten(&tabs[t].1);
            out.push((tabs[t].0.clone(), flat));
            t = t + 1;
        }
        out
    }

    pub fn group_names(&self) -> (r: Vec<String>)
        ensures
            strings_view(r@) == self@.tabs().map_values(|t: TabModel| t.name),
    {
        let tabs = self.tabs();
        let ghost tm = tabs_model(tabs@);
        let mut out: Vec<String> = Vec::new();
        let mut t: usize = 0;
        while t < tabs.len()
            invariant
                t <= tabs.len(),
                tm == tabs_model(tabs@),
                tm == self@.tabs(),
                out@.len() == t,
                forall|k: int| 0 <= k < t ==> (#[trigger] out@[k])@ == tm[k].name,
            decreases tabs.len() - t,
        {
            out.push(tabs[t].0.clone());
            t = t + 1;
        }
        assert(strings_view(out@) =~= self@.tabs().map_values(|t: TabModel| t.name));
        out
    }

    pub fn selected_group_name(&self) -> (r: Option<String>)
        ensures
            r is Some <==> self@.group < self@.tabs().len(),
            r matches Some(n) ==> n@ == self@.tabs()[self@.group as int].name,
    {
        let mut tabs = self.tabs();
        if self.selected_group < tabs.len() {
            let ghost tm = tabs_model(tabs@);
            let (name, _) = tabs.remove(self.selected_group);
            assert(name@ == tm[self.selected_group as int].name);
            Some(name)
        } else {
            None
        }
    }

    /// The entities of the selected tab, card after card.
    pub fn selected_group_entities(&self) -> (r: Vec<&Entity>)
        ensures
            r@.map_values(|e: &Entity| *e) == self@.group_entities(),
    {
        let cards = self.selected_tab_cards();
        flatten(&cards)
    }

    /// The entity list of the main panel: the filter's matches, or the
    /// selected tab's entities.
    pub fn visible_entities(&self) -> (r: Vec<&Entity>)
        ensures
            r@.map_values(|e: &Entity| *e) == self@.visible_entities(),
    {
        if self.filter.is_some() {
            self.filtered_entities()
        } else {
            self.selected_group_entities()
        }
    }

    /// The index into `visible_entities()` of the selection (saturating at
    /// `usize::MAX`, which no list in memory reaches).
    pub fn visible_selected_index(&self) -> (r: usize)
        ensures
            r == (if rows_before(self@.visible_cards(), self@.position().0 as int) + self@.position().1 <= usize::MAX {
                (rows_before(self@.visible_cards(), self@.position().0 as int) + self@.position().1) as usize
            } else {
                usize::MAX
            }),
    {
        let (card, row) = self.selected_position();
        let cards = self.visible_cards();
        let ghost cm = cards_model(cards@);
        let limit = if card < cards.len() { card } else { cards.len() };
        let mut sum: usize = 0;
        let mut saturated = false;
        let mut k: usize = 0;
        while k < limit
            invariant
                k <= limit,
                limit <= cards.len(),
                cm == cards_model(cards@),
                saturated ==> rows_before(cm, k as int) > usize::MAX,
                !saturated ==> sum == rows_before(cm, k as int),
            decreases limit - k,
        {
            let n = cards[k].entities.len();
            assert(cm[k as int].entities.len() == n);
            if !saturated {
                if sum <= usize::MAX - n {
                    sum = sum + n;
                } else {
                    saturated = true;
                }
            }
            k = k + 1;
        }
        proof {
            lemma_rows_before_clamped(cm, card as int);
        }
        if saturated || sum > usize::MAX - row {
            usize::MAX
        } else {
            sum + row
        }
    }

    /// Selects tab `index` directly (e.g. a click on its label).
    pub fn select_group(&mut self, index: usize)
        ensures
            exists|now: u64| old(self)@.stamps_at_most(now) && final(self)@ == #[trigger] old(self)@.tab_switched(index, now),
    {
        let now = self.elapsed_ns();
        self.select_group_at(index, now);
        assert(self@ == old(self)@.tab_switched(index, now));
    }

    /// `select_group` at time `now`.
    pub fn select_group_at(&mut self, index: usize, now: u64)
        ensures
            final(self)@ == old(self)@.tab_switched(index, now),
    {
        if self.filter.is_some() || index == self.selected_group {
            return;
        }
        if index >= self.tabs().len() {
            return;
        }
        self.selected_group = index;
        self.selected_card = 0;
        self.selected_row = 0;
        self.tab_transition_started_at = Some(now);
    }

    /// Switches to the next tab, wrapping around (no-op while filtering or
    /// with fewer than two tabs).
    pub fn next_group(&mut self)
        requires
            old(self)@.group < usize::MAX,
        ensures
            exists|now: u64| old(self)@.stamps_at_most(now) && final(self)@ == #[trigger] old(self)@.tab_stepped(true, now),
    {
        let now = self.elapsed_ns();
        self.step_group(true, now);
        assert(self@ == old(self)@.tab_stepped(true, now));
    }

    /// Switches to the previous tab, wrapping around.
    pub fn prev_group(&mut self)
        requires
            old(self)@.group + old(self)@.tabs().len() <= usize::MAX,
        ensures
            exists|now: u64| old(self)@.stamps_at_most(now) && final(self)@ == #[trigger] old(self)@.tab_stepped(false, now),
    {
        let now = self.elapsed_ns();
        self.step_group(false, now);
        assert(self@ == old(self)@.tab_stepped(false, now));
    }

    /// One tab forward or back at time `now`.
    pub fn step_group(&mut self, forward: bool, now: u64)
        requires
            forward ==> old(self)@.group < usize::MAX,
            !forward ==> old(self)@.group + old(self)@.tabs().len() <= usize::MAX,
        ensures
            final(self)@ == old(self)@.tab_stepped(forward, now),
    {
        if self.filter.is_some() {
            return;
        }
        let count = self.tabs().len();
        if count <= 1 {
            return;
        }
        self.selected_group = if forward {
            (self.selected_group + 1) % count
        } else {
            (self.selected_group + count - 1) % count
        };
        self.selected_card = 0;
        self.selected_row = 0;
        self.tab_transition_started_at = Some(now);
    }

    /// How far the tab-switch animation has run at time `now`, if one was
    /// ever started: nanoseconds since it started.
    pub fn tab_transition_elapsed_at(&self, now: u64) -> (r: Option<u64>)
        ensures
            r == (match self@.tab_transition_started_at {
                Some(t) => Some(age(now, t) as u64),
                None => None,
            }),
    {
        match self.tab_transition_started_at {
            Some(t) => Some(if now >= t { now - t } else { 0 }),
            None => None,
        }
    }

    /// Nanoseconds since the last tab switch started its animation, if any.
    pub fn tab_transition_elapsed(&self) -> (r: Option<u64>)
        ensures
            exists|now: u64| #[trigger] self@.stamps_at_most(now) && r == (match self@.tab_transition_started_at {
                Some(t) => Some((now - t) as u64),
                None => None,
            }),
    {
        let now = self.elapsed_ns();
        self.tab_transition_elapsed_at(now)
    }

    /// The frame delay (in nanoseconds) while the tab animation runs at `now`.
    pub fn next_animation_delay_at(&self, now: u64) -> (r: Option<u64>)
        ensures
            r == (match self@.tab_transition_started_at {
                Some(t) => if age(now, t) < TAB_TRANSITION_NS { Some(ANIMATION_FRAME_NS) } else { None },
                None => None,
            }),
    {
        match self.tab_transition_started_at {
            Some(t) => {
                let elapsed = if now >= t { now - t } else { 0 };
                if elapsed < TAB_TRANSITION_NS { Some(ANIMATION_FRAME_NS) } else { None }
            },
            None => None,
        }
    }

    /// How long the render loop should wait for the next animation frame,
    /// or `None` when nothing animates. Whether the animation still runs
    /// rests on the clock reading; `next_animation_delay_at` gives the
    /// result for each reading.
    pub fn next_animation_delay(&self) -> (r: Option<std::time::Duration>)
        ensures
            exists|now: u64| #[trigger] self@.stamps_at_most(now) && r == (match self@.tab_transition_started_at {
                Some(t) => if now - t < TAB_TRANSITION_NS { Some(duration_of_nanos(ANIMATION_FRAME_NS)) } else { None },
                None => None,
            }),
    {
        let now = self.elapsed_ns();
        match self.next_animation_delay_at(now) {
            Some(ns) => Some(duration_from_nanos(ns)),
            None => None,
        }
    }

    /// Up within the selected card's rows; from the top row, to the bottom
    /// row of the card directly above in a grid of `columns` cards per row.
    pub fn move_up(&mut self, columns: usize)
        ensures
            final(self)@ == old(self)@.moved_up(columns),
    {
        match &mut self.filter {
            Some(f) => {
                f.selected = if f.selected > 0 { f.selected - 1 } else { 0 };
                return;
            },
            None => {},
        }
        if self.selected_row > 0 {
            self.selected_row = self.selected_row - 1;
            return;
        }
        let cols = if columns == 0 { 1 } else { columns };
        if self.selected_card < cols {
            return;
        }
        let target = self.selected_card - cols;
        let mut cards = self.selected_tab_cards();
        if target < cards.len() {
            let ghost cm = cards_model(cards@);
            let c = cards.remove(target);
            assert(card_model(c) == cm[target as int]);
            let n = c.entities.len();
            self.selected_card = target;
            self.selected_row = if n > 0 { n - 1 } else { 0 };
        }
    }

    /// Down within the selected card's rows; from the bottom row, to the top
    /// row of the card directly below.
    pub fn move_down(&mut self, columns: usize)
        requires
            old(self)@.filter matches Some(f) ==> f.selected < usize::MAX,
            old(self)@.filter is None ==> old(self)@.row < usize::MAX && old(self)@.card + columns <= usize::MAX,
        ensures
            final(self)@ == old(self)@.moved_down(columns),
    {
        if self.filter.is_some() {
            let n = self.filtered_entities().len();
            match &mut self.filter {
                Some(f) => {
                    if n > 0 {
                        let next = f.selected + 1;
                        f.selected = if next < n - 1 { next } else { n - 1 };
                    }
                },
                None => {},
            }
            return;
        }
        let mut cards = self.selected_tab_cards();
        let count = cards.len();
        if self.selected_card >= count {
            return;
        }
        let ghost cm = cards_model(cards@);
        let c = cards.remove(self.selected_card);
        assert(card_model(c) == cm[self.selected_card as int]);
        if self.selected_row + 1 < c.entities.len() {
            self.selected_row = self.selected_row + 1;
            return;
        }
        let cols = if columns == 0 { 1 } else { columns };
        let target = self.selected_card + cols;
        if target < count {
            self.selected_card = target;
            self.selected_row = 0;
        }
    }

    /// To the card on the left in the same grid row.
    pub fn move_left(&mut self, columns: usize)
        ensures
            final(self)@ == old(self)@.moved_left(columns),
    {
        if self.filter.is_some() || columns <= 1 {
            return;
        }
        if self.selected_card % columns == 0 {
            return;
        }
        let card = self.selected_card;
        assert(card > 0) by (nonlinear_arith)
            requires
                card % columns != 0,
                columns > 1,
        ;
        self.select_card(self.selected_card - 1);
    }

    /// To the card on the right in the same grid row.
    pub fn move_right(&mut self, columns: usize)
        requires
            old(self)@.card + columns <= usize::MAX,
        ensures
            final(self)@ == old(self)@.moved_right(columns),
    {
        if self.filter.is_some() || columns <= 1 {
            return;
        }
        let count = self.selected_tab_cards().len();
        let col = self.selected_card % columns;
        let card = self.selected_card;
        assert(col <= card) by (nonlinear_arith)
            requires
                col == card % columns,
                columns > 1,
        ;
        let row_start = self.selected_card - col;
        let row_end = if row_start + columns < count { row_start + columns } else { count };
        let target = self.selected_card + 1;
        if target < row_end {
            self.select_card(target);
        }
    }

    /// Selects `card`/`row` directly (e.g. a click on a row), clamping `row`.
    pub fn select(&mut self, card: usize, row: usize)
        ensures
            final(self)@ == old(self)@.selected_at(card, row),
    {
        if self.filter.is_some() {
            let n = self.filtered_entities().len();
            if n == 0 {
                return;
            }
            match &mut self.filter {
                Some(f) => {
                    f.selected = if row < n - 1 { row } else { n - 1 };
                },
                None => {},
            }
            return;
        }
        let mut cards = self.selected_tab_cards();
        if card < cards.len() {
            let ghost cm = cards_model(cards@);
            let c = cards.remove(card);
            assert(card_model(c) == cm[card as int]);
            let n = c.entities.len();
            if n == 0 {
                return;
            }
            self.selected_card = card;
            self.selected_row = if row < n - 1 { row } else { n - 1 };
        }
    }

    /// Selects `card`, keeping the row index where it still fits.
    fn select_card(&mut self, card: usize)
        ensures
            final(self)@ == old(self)@.card_selected(card),
    {
        let mut cards = self.selected_tab_cards();
        if card < cards.len() {
            let ghost cm = cards_model(cards@);
            let c = cards.remove(card);
            assert(card_model(c) == cm[card as int]);
            let n = c.entities.len();
            let last = if n > 0 { n - 1 } else { 0 };
            self.selected_card = card;
            self.selected_row = if self.selected_row < last { self.selected_row } else { last };
        }
    }
}

impl AppModel {
    /// One tab forward (`forward`) or back, wrapping around; a no-op while
    /// filtering or with fewer than two tabs. The selection goes to the top
    /// of the new tab and its animation starts at `now`.
    pub open spec fn tab_stepped(self, forward: bool, now: u64) -> AppModel {
        let count = self.tabs().len();
        if self.filter is Some || count <= 1 {
            self
        } else {
            AppModel {
                group: (if forward { (self.group + 1) % (count as int) } else { (self.group + count - 1) % (count as int) }) as usize,
                card: 0,
                row: 0,
                tab_transition_started_at: Some(now),
                ..self
            }
        }
    }
}

proof fn lemma_rows_before_clamped(cards: Seq<CardModel>, k: int)
    ensures
        k > cards.len() ==> rows_before(cards, k) == rows_before(cards, cards.len() as int),
{
}

/// The entities of the cards, card after card.
fn flatten<'a>(cards: &Vec<ResolvedCard<'a>>) -> (r: Vec<&'a Entity>)
    ensures
        r@.map_values(|e: &Entity| *e) == flatten_cards(cards_model(cards@)),
{
    let mut out: Vec<&'a Entity> = Vec::new();
    let mut c: usize = 0;
    while c < cards.len()
        invariant
            c <= cards.len(),
            out@.map_values(|e: &Entity| *e) == flatten_cards(cards_model(cards@.take(c as int))),
        decreases cards.len() - c,
    {
        let ghost before = out@.map_values(|e: &Entity| *e);
        let mut k: usize = 0;
        while k < cards[c].entities.len()
            invariant
                c < cards.len(),
                k <= cards[c as int].entities.len(),
                out@.map_values(|e: &Entity| *e) == before + cards[c as int].entities@.take(k as int).map_values(|e: &Entity| *e),
            decreases cards[c as int].entities.len() - k,
        {
            let ghost prev = out@.map_values(|e: &Entity| *e);
            out.push(cards[c].entities[k]);
            assert(out@.map_values(|e: &Entity| *e) =~= prev.push(*cards[c as int].entities@[k as int]));
            assert(cards[c as int].entities@.take(k + 1).map_values(|e: &Entity| *e) =~= cards[c as int].entities@.take(k as int).map_values(|e: &Entity| *e).push(*cards[c as int].entities@[k as int]));
            assert(out@.map_values(|e: &Entity| *e) =~= before + cards[c as int].entities@.take(k + 1).map_values(|e: &Entity| *e));
            k = k + 1;
        }
        proof {
            let t = cards_model(cards@.take(c + 1));
            assert(t.drop_last() =~= cards_model(cards@.take(c as int)));
            assert(cards[c as int].entities@.take(k as int) =~= cards[c as int].entities@);
            assert(t.last().entities == cards[c as int].entities@.map_values(|e: &Entity| *e));
        }
        c = c + 1;
    }
    assert(cards@.take(cards.len() as int) =~= cards@);
    out
}

} // verus!
