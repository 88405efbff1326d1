//! Extraction of a Lovelace dashboard config (`lovelace/config`'s JSON)
//! into the tab/card model. Each top-level entry of a view's `cards`
//! (masonry layout) or `sections` (grid layout) is one panel, however much
//! nesting it holds; every entity found anywhere inside it joins that panel.
use vstd::prelude::*;
use crate::json::{Json, members_get};
use crate::config::{DashboardCard, DashboardTab, strings_view, spec_is_whitespace, is_whitespace};
use crate::text::{str_eq, chars_of, contains_seq, push_char, append_str, decimal, decimal_string};

verus! {

/// `members_get` finds a member of the object it searches.
pub proof fn lemma_member_smaller(m: Seq<(String, Json)>, key: Seq<char>)
    ensures
        members_get(m, key) matches Some(v) ==> decreases_to!(m => v),
    decreases m.len(),
{
    if m.len() > 0 {
        let n = m.len() - 1;
        if m[n].0@ == key {
            assert(decreases_to!(m => m[n]));
            assert(decreases_to!(m[n] => m[n].1));
        } else {
            lemma_member_smaller(m.drop_last(), key);
            assert(m.drop_last() == m.subrange(0, n));
            assert(decreases_to!(m => m.subrange(0, n)));
        }
    }
}

/// The string member `key` of an object's members.
pub open spec fn str_member(m: Seq<(String, Json)>, key: Seq<char>) -> Option<Seq<char>> {
    match members_get(m, key) {
        Some(Json::Str(s)) => Some(s@),
        _ => None,
    }
}

/// Whether a card type plots a history graph by itself (suffix-matched for
/// third-party `custom:*` chart cards).
pub open spec fn spec_type_wants_graph(t: Seq<char>) -> bool {
    t == "history-graph"@ || t == "sensor-graph"@ || "apexcharts-card"@.is_suffix_of(t) || "mini-graph-card"@.is_suffix_of(t)
}

/// A card wants a graph by its own `type`, or by a `graph` key other than "none".
pub open spec fn spec_card_wants_graph(m: Seq<(String, Json)>) -> bool {
    (str_member(m, "type"@) matches Some(t) && spec_type_wants_graph(t)) || (str_member(m, "graph"@) matches Some(g)
        && g != "none"@)
}

/// The entity ids of an `entities`/`series` array: plain strings, or
/// objects' `entity` strings, each tagged with `wants_graph`.
pub open spec fn array_found(items: Seq<Json>, wants_graph: bool) -> Seq<(Seq<char>, bool)>
    decreases items.len(),
{
    if items.len() == 0 {
        Seq::empty()
    } else {
        let r = array_found(items.drop_last(), wants_graph);
        match items.last() {
            Json::Str(id) => r.push((id@, wants_graph)),
            Json::Object(o) => match members_get(o@, "entity"@) {
                Some(Json::Str(id)) => r.push((id@, wants_graph)),
                _ => r,
            },
            _ => r,
        }
    }
}

pub open spec fn member_array_found(m: Seq<(String, Json)>, key: Seq<char>, wants_graph: bool) -> Seq<(Seq<char>, bool)> {
    match members_get(m, key) {
        Some(Json::Array(items)) => array_found(items@, wants_graph),
        _ => Seq::empty(),
    }
}

/// Every entity id referenced anywhere inside a card, in traversal order,
/// each tagged with whether the card it sits in wants a graph: the card's
/// own `entity`, its `entities` and `series` arrays, then its nested `cards`
/// and `sections`, then a wrapped `card`.
pub open spec fn found(v: Json) -> Seq<(Seq<char>, bool)>
    decreases v, 1nat,
{
    match v {
        Json::Object(m) => {
            let g = spec_card_wants_graph(m@);
            let own = match members_get(m@, "entity"@) {
                Some(Json::Str(id)) => seq![(id@, g)],
                _ => Seq::empty(),
            };
            proof {
                lemma_member_smaller(m@, "cards"@);
                lemma_member_smaller(m@, "sections"@);
                lemma_member_smaller(m@, "card"@);
            }
            let cards = match members_get(m@, "cards"@) {
                Some(Json::Array(items)) => found_all(items@),
                _ => Seq::empty(),
            };
            let sections = match members_get(m@, "sections"@) {
                Some(Json::Array(items)) => found_all(items@),
                _ => Seq::empty(),
            };
            let wrapped = match members_get(m@, "card"@) {
                Some(c) => found(c),
                None => Seq::empty(),
            };
            own + member_array_found(m@, "entities"@, g) + member_array_found(m@, "series"@, g) + cards + sections + wrapped
        },
        _ => Seq::empty(),
    }
}

pub open spec fn found_all(items: Seq<Json>) -> Seq<(Seq<char>, bool)>
    decreases items, 0nat,
{
    if items.len() == 0 {
        Seq::empty()
    } else {
        found_all(items.drop_last()) + found(items.last())
    }
}

pub open spec fn ids_of_found(f: Seq<(Seq<char>, bool)>) -> Seq<Seq<char>> {
    f.map_values(|p: (Seq<char>, bool)| p.0)
}

/// The found ids that look like entity ids (contain a `.`), first
/// occurrence only, keeping that occurrence's graph flag.
pub open spec fn dedup_found(f: Seq<(Seq<char>, bool)>) -> Seq<(Seq<char>, bool)>
    decreases f.len(),
{
    if f.len() == 0 {
        Seq::empty()
    } else {
        let d = dedup_found(f.drop_last());
        if f.last().0.contains('.') && !ids_of_found(d).contains(f.last().0) {
            d.push(f.last())
        } else {
            d
        }
    }
}

/// The ids flagged for a graph, in order.
pub open spec fn graph_ids_of(d: Seq<(Seq<char>, bool)>) -> Seq<Seq<char>>
    decreases d.len(),
{
    if d.len() == 0 {
        Seq::empty()
    } else {
        let r = graph_ids_of(d.drop_last());
        if d.last().1 { r.push(d.last().0) } else { r }
    }
}

/// Entity ids gathered for one card, first occurrence wins, only ids with a `.`.
struct Collected {
    entity_ids: Vec<String>,
    graph_entity_ids: Vec<String>,
    /// Every (id, graph flag) pushed so far, duplicates included.
    pushed: Ghost<Seq<(Seq<char>, bool)>>,
}

/// Whether `s` contains the character `c`.
pub fn has_char(s: &str, c: char) -> (r: bool)
    ensures
        r == s@.contains(c),
{
    let n = s.unicode_len();
    let mut i: usize = 0;
    while i < n
        invariant
            n == s@.len(),
            i <= n,
            forall|k: int| 0 <= k < i ==> s@[k] != c,
        decreases n - i,
    {
        if s.get_char(i) == c {
            return true;
        }
        i = i + 1;
    }
    false
}

impl Collected {
    spec fn seen(&self) -> Seq<(Seq<char>, bool)> {
        self.pushed@
    }

    #[verifier::opaque]
    spec fn holds(&self, f: Seq<(Seq<char>, bool)>) -> bool {
        &&& strings_view(self.entity_ids@) == ids_of_found(dedup_found(f))
        &&& strings_view(self.graph_entity_ids@) == graph_ids_of(dedup_found(f))
    }

    fn new() -> (r: Collected)
        ensures
            r.holds(Seq::empty()),
            r.seen() == Seq::<(Seq<char>, bool)>::empty(),
    {
        let r = Collected { entity_ids: Vec::new(), graph_entity_ids: Vec::new(), pushed: Ghost(Seq::empty()) };
        reveal(Collected::holds);
        assert(strings_view(r.entity_ids@) =~= Seq::<Seq<char>>::empty());
        assert(strings_view(r.graph_entity_ids@) =~= Seq::<Seq<char>>::empty());
        assert(ids_of_found(Seq::<(Seq<char>, bool)>::empty()) =~= Seq::<Seq<char>>::empty());
        r
    }

    fn push(&mut self, id: &str, wants_graph: bool)
        requires
            old(self).holds(old(self).seen()),
        ensures
            final(self).holds(old(self).seen().push((id@, wants_graph))),
            final(self).seen() == old(self).seen().push((id@, wants_graph)),
    {
        reveal(Collected::holds);
        let ghost f = self.seen();
        let ghost d = dedup_found(f);
        let ghost fl = f.push((id@, wants_graph));
        assert(fl.drop_last() =~= f);
        let has_dot = has_char(id, '.');
        let mut known = false;
        let mut i: usize = 0;
        while i < self.entity_ids.len()
            invariant
                i <= self.entity_ids.len(),
                strings_view(self.entity_ids@) == ids_of_found(d),
                known == exists|k: int| 0 <= k < i && #[trigger] self.entity_ids@[k]@ == id@,
            decreases self.entity_ids.len() - i,
        {
            if str_eq(self.entity_ids[i].as_str(), id) {
                known = true;
            }
            i = i + 1;
        }
        proof {
            if known {
                let k = choose|k: int| 0 <= k < i && #[trigger] self.entity_ids@[k]@ == id@;
                assert(ids_of_found(d)[k] == id@);
            }
            if ids_of_found(d).contains(id@) {
                let k = choose|k: int| 0 <= k < ids_of_found(d).len() && ids_of_found(d)[k] == id@;
                assert(self.entity_ids@[k]@ == id@);
            }
        }
        if has_dot && !known {
            let ghost ev = strings_view(self.entity_ids@);
            let ghost gv = strings_view(self.graph_entity_ids@);
            self.entity_ids.push(String::from_str(id));
            assert(strings_view(self.entity_ids@) =~= ev.push(id@));
            if wants_graph {
                self.graph_entity_ids.push(String::from_str(id));
                assert(strings_view(self.graph_entity_ids@) =~= gv.push(id@));
            }
            assert(ids_of_found(d.push((id@, wants_graph))) =~= ids_of_found(d).push(id@));
        }
        proof {
            assert(known == ids_of_found(d).contains(id@));
            if has_dot && !known {
                assert(dedup_found(fl) == d.push((id@, wants_graph)));
                let dp = d.push((id@, wants_graph));
                assert(dp.drop_last() =~= d);
                assert(graph_ids_of(dp) == if wants_graph { graph_ids_of(d).push(id@) } else { graph_ids_of(d) });
            } else {
                assert(dedup_found(fl) == d);
            }
        }
        self.pushed = Ghost(fl);
    }
}


/// Whether `suffix` ends `s`.
fn ends_with(s: &Vec<char>, suffix: &Vec<char>) -> (r: bool)
    ensures
        r == suffix@.is_suffix_of(s@),
{
    if suffix.len() > s.len() {
        return false;
    }
    let off = s.len() - suffix.len();
    let mut i: usize = 0;
    while i < suffix.len()
        invariant
            off == s.len() - suffix.len(),
            suffix.len() <= s.len(),
            i <= suffix.len(),
            forall|k: int| 0 <= k < i ==> s@[off + k] == suffix@[k],
        decreases suffix.len() - i,
    {
        if s[off + i] != suffix[i] {
            assert(s@.subrange(off as int, s@.len() as int)[i as int] == s@[off + i]);
            return false;
        }
        i = i + 1;
    }
    assert(suffix@ =~= s@.subrange(off as int, s@.len() as int));
    true
}

/// Whether a card type plots a history graph by itself.
pub fn type_wants_graph(card_type: &str) -> (r: bool)
    ensures
        r == spec_type_wants_graph(card_type@),
{
    if str_eq(card_type, "history-graph") || str_eq(card_type, "sensor-graph") {
        return true;
    }
    let t = chars_of(card_type);
    ends_with(&t, &chars_of("apexcharts-card")) || ends_with(&t, &chars_of("mini-graph-card"))
}

/// The string member `key` of an object.
fn str_of<'a>(m: &'a Vec<(String, Json)>, key: &str) -> (r: Option<&'a str>)
    ensures
        r is Some <==> str_member(m@, key@) is Some,
        r matches Some(s) ==> str_member(m@, key@) == Some(s@),
{
    match Json::get_member(m, key) {
        Some(Json::Str(s)) => Some(s.as_str()),
        _ => None,
    }
}

fn card_wants_graph(m: &Vec<(String, Json)>) -> (r: bool)
    ensures
        r == spec_card_wants_graph(m@),
{
    if let Some(t) = str_of(m, "type") {
        if type_wants_graph(t) {
            return true;
        }
    }
    match str_of(m, "graph") {
        Some(g) => !str_eq(g, "none"),
        None => false,
    }
}

proof fn lemma_array_member_smaller(v: Json, key: Seq<char>, i: int)
    requires
        v is Object,
        members_get(v->Object_0@, key) matches Some(Json::Array(items)) && 0 <= i < items@.len(),
    ensures
        members_get(v->Object_0@, key) matches Some(Json::Array(items)) && decreases_to!(v => items@[i]),
{
    let m = v->Object_0;
    lemma_member_smaller(m@, key);
    let a = members_get(m@, key).unwrap();
    let items = a->Array_0;
    assert(decreases_to!(v => v->Object_0));
    assert(decreases_to!(m => m@));
    assert(decreases_to!(a => a->Array_0));
    assert(decreases_to!(items => items@));
    assert(decreases_to!(items@ => items@[i]));
}

fn collect_entity_array(items: &Vec<Json>, collected: &mut Collected, wants_graph: bool)
    requires
        old(collected).holds(old(collected).seen()),
    ensures
        final(collected).holds(final(collected).seen()),
        final(collected).seen() == old(collected).seen() + array_found(items@, wants_graph),
{
    let ghost start = collected.seen();
    let mut i: usize = 0;
    while i < items.len()
        invariant
            i <= items.len(),
            collected.holds(collected.seen()),
            collected.seen() == start + array_found(items@.take(i as int), wants_graph),
        decreases items.len() - i,
    {
        proof {
            let t = items@.take(i + 1);
            assert(t.drop_last() =~= items@.take(i as int));
            assert(t.last() == items@[i as int]);
        }
        match &items[i] {
            Json::Str(id) => {
                collected.push(id.as_str(), wants_graph);
            },
            Json::Object(o) => {
                match Json::get_member(o, "entity") {
                    Some(Json::Str(id)) => {
                        collected.push(id.as_str(), wants_graph);
                    },
                    _ => {},
                }
            },
            _ => {},
        }
        assert(collected.seen() =~= start + array_found(items@.take(i + 1), wants_graph));
        i = i + 1;
    }
    assert(items@.take(items.len() as int) =~= items@);
}

fn collect_all(items: &Vec<Json>, collected: &mut Collected, Ghost(parent): Ghost<Json>)
    requires
        old(collected).holds(old(collected).seen()),
        forall|i: int| 0 <= i < items@.len() ==> decreases_to!(parent => #[trigger] items@[i]),
    ensures
        final(collected).holds(final(collected).seen()),
        final(collected).seen() == old(collected).seen() + found_all(items@),
    decreases parent, 0nat,
{
    let ghost start = collected.seen();
    let mut i: usize = 0;
    while i < items.len()
        invariant
            i <= items.len(),
            forall|k: int| 0 <= k < items@.len() ==> decreases_to!(parent => #[trigger] items@[k]),
            collected.holds(collected.seen()),
            collected.seen() == start + found_all(items@.take(i as int)),
        decreases items.len() - i,
    {
        proof {
            let t = items@.take(i + 1);
            assert(t.drop_last() =~= items@.take(i as int));
            assert(t.last() == items@[i as int]);
        }
        let ghost before = collected.seen();
        assert(found_all(items@.take(i + 1)) == found_all(items@.take(i as int)) + found(items@[i as int])) by {
            let t = items@.take(i + 1);
            assert(t.drop_last() =~= items@.take(i as int));
            assert(t.last() == items@[i as int]);
            assert(t.len() > 0);
        }
        collect_entities(&items[i], collected);
        assert(collected.seen() == before + found(items@[i as int]));
        assert(collected.seen() =~= start + found_all(items@.take(i + 1)));
        i = i + 1;
    }
    assert(items@.take(items.len() as int) =~= items@);
}

/// The pieces `found` joins for an object card, in order.
pub open spec fn own_found(m: Seq<(String, Json)>) -> Seq<(Seq<char>, bool)> {
    match members_get(m, "entity"@) {
        Some(Json::Str(id)) => seq![(id@, spec_card_wants_graph(m))],
        _ => Seq::empty(),
    }
}

pub open spec fn nested_found(m: Seq<(String, Json)>, key: Seq<char>) -> Seq<(Seq<char>, bool)> {
    match members_get(m, key) {
        Some(Json::Array(items)) => found_all(items@),
        _ => Seq::empty(),
    }
}

pub open spec fn wrapped_found(m: Seq<(String, Json)>) -> Seq<(Seq<char>, bool)> {
    match members_get(m, "card"@) {
        Some(c) => found(c),
        None => Seq::empty(),
    }
}

proof fn lemma_found_object(v: Json)
    requires
        v is Object,
    ensures
        found(v) == own_found(v->Object_0@) + member_array_found(v->Object_0@, "entities"@, spec_card_wants_graph(v->Object_0@))
            + member_array_found(v->Object_0@, "series"@, spec_card_wants_graph(v->Object_0@)) + nested_found(v->Object_0@, "cards"@)
            + nested_found(v->Object_0@, "sections"@) + wrapped_found(v->Object_0@),
{
}

proof fn lemma_found_other(v: Json)
    requires
        !(v is Object),
    ensures
        found(v) == Seq::<(Seq<char>, bool)>::empty(),
{
}

/// Collects a card object's own ids: its `entity`, then its `entities`
/// and `series` arrays.
fn collect_own(m: &Vec<(String, Json)>, collected: &mut Collected)
    requires
        old(collected).holds(old(collected).seen()),
    ensures
        final(collected).holds(final(collected).seen()),
        final(collected).seen() == old(collected).seen() + own_found(m@) + member_array_found(m@, "entities"@, spec_card_wants_graph(m@))
            + member_array_found(m@, "series"@, spec_card_wants_graph(m@)),
{
    let ghost start = collected.seen();
    let wants_graph = card_wants_graph(m);
    match Json::get_member(m, "entity") {
        Some(Json::Str(id)) => {
            collected.push(id.as_str(), wants_graph);
        },
        _ => {},
    }
    let ghost a = collected.seen();
    assert(a == start + own_found(m@));
    if let Some(Json::Array(items)) = Json::get_member(m, "entities") {
        collect_entity_array(items, collected, wants_graph);
    }
    let ghost b = collected.seen();
    assert(b == a + member_array_found(m@, "entities"@, wants_graph));
    if let Some(Json::Array(items)) = Json::get_member(m, "series") {
        collect_entity_array(items, collected, wants_graph);
    }
    assert(collected.seen() == b + member_array_found(m@, "series"@, wants_graph));
    assert(collected.seen() =~= start + own_found(m@) + member_array_found(m@, "entities"@, wants_graph)
        + member_array_found(m@, "series"@, wants_graph));
}

/// Collects the cards nested under member `key` (an array) of `parent`.
fn collect_nested(m: &Vec<(String, Json)>, key: &str, collected: &mut Collected, Ghost(parent): Ghost<Json>)
    requires
        old(collected).holds(old(collected).seen()),
        parent == Json::Object(*m),
    ensures
        final(collected).holds(final(collected).seen()),
        final(collected).seen() == old(collected).seen() + nested_found(m@, key@),
    decreases parent, 1nat,
{
    if let Some(Json::Array(items)) = Json::get_member(m, key) {
        proof {
            assert forall|i: int| 0 <= i < items@.len() implies decreases_to!(parent => #[trigger] items@[i]) by {
                lemma_array_member_smaller(parent, key@, i);
            }
        }
        collect_all(items, collected, Ghost(parent));
    } else {
        assert(collected.seen() =~= collected.seen() + nested_found(m@, key@));
    }
}

fn collect_entities(value: &Json, collected: &mut Collected)
    requires
        old(collected).holds(old(collected).seen()),
    ensures
        final(collected).holds(final(collected).seen()),
        final(collected).seen() == old(collected).seen() + found(*value),
    decreases *value, 2nat,
{
    let ghost start = collected.seen();
    let m = match value {
        Json::Object(m) => m,
        _ => {
            proof {
                lemma_found_other(*value);
                assert(collected.seen() =~= start + found(*value));
            }
            return;
        },
    };
    collect_own(m, collected);
    let ghost a = collected.seen();
    collect_nested(m, "cards", collected, Ghost(*value));
    let ghost b = collected.seen();
    collect_nested(m, "sections", collected, Ghost(*value));
    let ghost c = collected.seen();
    if let Some(card) = Json::get_member(m, "card") {
        proof {
            lemma_member_smaller(m@, "card"@);
            assert(decreases_to!(*value => value->Object_0));
            assert(decreases_to!(*m => m@));
        }
        collect_entities(card, collected);
    } else {
        assert(collected.seen() =~= c + wrapped_found(m@));
    }
    proof {
        assert(collected.seen() == c + wrapped_found(m@));
        lemma_found_object(*value);
        assert(collected.seen() =~= start + found(*value));
    }
}


/// A card object's own label: its `title`, `heading` or `name` string (in
/// that order), else a `header.title` string.
pub open spec fn spec_own_title(m: Seq<(String, Json)>) -> Option<Seq<char>> {
    match str_member(m, "title"@) {
        Some(t) => Some(t),
        None => match str_member(m, "heading"@) {
            Some(t) => Some(t),
            None => match str_member(m, "name"@) {
                Some(t) => Some(t),
                None => match members_get(m, "header"@) {
                    Some(Json::Object(h)) => str_member(h@, "title"@),
                    _ => None,
                },
            },
        },
    }
}

fn own_title(m: &Vec<(String, Json)>) -> (r: Option<String>)
    ensures
        opt_view(r) == spec_own_title(m@),
{
    if let Some(t) = str_of(m, "title") {
        return Some(String::from_str(t));
    }
    if let Some(t) = str_of(m, "heading") {
        return Some(String::from_str(t));
    }
    if let Some(t) = str_of(m, "name") {
        return Some(String::from_str(t));
    }
    match Json::get_member(m, "header") {
        Some(Json::Object(h)) => match str_of(h, "title") {
            Some(t) => Some(String::from_str(t)),
            None => None,
        },
        _ => None,
    }
}

pub open spec fn opt_view(o: Option<String>) -> Option<Seq<char>> {
    match o {
        Some(s) => Some(s@),
        None => None,
    }
}

/// The first `heading` card's text found inside `v`: `v` itself when it is
/// a `"type": "heading"` card with a `heading` string, else the first found
/// in its `cards`, then its `sections`, then its wrapped `card`.
pub open spec fn heading_of(v: Json) -> Option<Seq<char>>
    decreases v, 1nat,
{
    match v {
        Json::Object(m) => {
            proof {
                lemma_member_smaller(m@, "cards"@);
                lemma_member_smaller(m@, "sections"@);
                lemma_member_smaller(m@, "card"@);
            }
            if str_member(m@, "type"@) == Some("heading"@) && str_member(m@, "heading"@) is Some {
                str_member(m@, "heading"@)
            } else {
                let a = match members_get(m@, "cards"@) {
                    Some(Json::Array(items)) => heading_in(items@),
                    _ => None,
                };
                if a is Some {
                    a
                } else {
                    let b = match members_get(m@, "sections"@) {
                        Some(Json::Array(items)) => heading_in(items@),
                        _ => None,
                    };
                    if b is Some {
                        b
                    } else {
                        match members_get(m@, "card"@) {
                            Some(c) => heading_of(c),
                            None => None,
                        }
                    }
                }
            }
        },
        _ => None,
    }
}

/// The first heading found among `items`, in order.
pub open spec fn heading_in(items: Seq<Json>) -> Option<Seq<char>>
    decreases items, 0nat,
{
    if items.len() == 0 {
        None
    } else {
        let a = heading_in(items.drop_last());
        if a is Some { a } else { heading_of(items.last()) }
    }
}

fn heading_in_items(items: &Vec<Json>, Ghost(parent): Ghost<Json>) -> (r: Option<String>)
    requires
        forall|i: int| 0 <= i < items@.len() ==> decreases_to!(parent => #[trigger] items@[i]),
    ensures
        opt_view(r) == heading_in(items@),
    decreases parent, 0nat,
{
    let mut i: usize = 0;
    while i < items.len()
        invariant
            i <= items.len(),
            forall|k: int| 0 <= k < items@.len() ==> decreases_to!(parent => #[trigger] items@[k]),
            heading_in(items@.take(i as int)) is None,
        decreases items.len() - i,
    {
        proof {
            let t = items@.take(i + 1);
            assert(t.drop_last() =~= items@.take(i as int));
            assert(t.last() == items@[i as int]);
        }
        let h = find_heading_card(&items[i]);
        if h.is_some() {
            proof {
                lemma_heading_in_prefix(items@, i as int + 1);
            }
            return h;
        }
        i = i + 1;
    }
    assert(items@.take(items.len() as int) =~= items@);
    None
}

/// Once found in a prefix, the first heading stays the first.
proof fn lemma_heading_in_prefix(items: Seq<Json>, k: int)
    requires
        0 <= k <= items.len(),
        heading_in(items.take(k)) is Some,
    ensures
        heading_in(items) == heading_in(items.take(k)),
    decreases items.len() - k,
{
    if k < items.len() {
        let t = items.take(k + 1);
        assert(t.drop_last() =~= items.take(k));
        lemma_heading_in_prefix(items, k + 1);
    } else {
        assert(items.take(k) =~= items);
    }
}

fn find_heading_card(value: &Json) -> (r: Option<String>)
    ensures
        opt_view(r) == heading_of(*value),
    decreases *value, 1nat,
{
    let m = match value {
        Json::Object(m) => m,
        _ => {
            return None;
        },
    };
    let is_heading = match str_of(m, "type") {
        Some(t) => str_eq(t, "heading"),
        None => false,
    };
    if is_heading {
        if let Some(h) = str_of(m, "heading") {
            return Some(String::from_str(h));
        }
    }
    if let Some(Json::Array(items)) = Json::get_member(m, "cards") {
        proof {
            assert forall|i: int| 0 <= i < items@.len() implies decreases_to!(*value => #[trigger] items@[i]) by {
                lemma_array_member_smaller(*value, "cards"@, i);
            }
        }
        let a = heading_in_items(items, Ghost(*value));
        if a.is_some() {
            return a;
        }
    }
    if let Some(Json::Array(items)) = Json::get_member(m, "sections") {
        proof {
            assert forall|i: int| 0 <= i < items@.len() implies decreases_to!(*value => #[trigger] items@[i]) by {
                lemma_array_member_smaller(*value, "sections"@, i);
            }
        }
        let b = heading_in_items(items, Ghost(*value));
        if b.is_some() {
            return b;
        }
    }
    match Json::get_member(m, "card") {
        Some(card) => {
            proof {
                lemma_member_smaller(m@, "card"@);
                assert(decreases_to!(*value => value->Object_0));
                assert(decreases_to!(*m => m@));
            }
            find_heading_card(card)
        },
        None => None,
    }
}

/// The names of every leaf card inside `v`: a card with an `entity`,
/// `entities` or `series` member contributes its own label; then its
/// `cards`, `sections` and wrapped `card` in turn.
pub open spec fn leaf_names(v: Json) -> Seq<Seq<char>>
    decreases v, 1nat,
{
    match v {
        Json::Object(m) => {
            proof {
                lemma_member_smaller(m@, "cards"@);
                lemma_member_smaller(m@, "sections"@);
                lemma_member_smaller(m@, "card"@);
            }
            let has = members_get(m@, "entity"@) is Some || members_get(m@, "entities"@) is Some || members_get(m@, "series"@) is Some;
            let own: Seq<Seq<char>> = if has && spec_own_title(m@) is Some { seq![spec_own_title(m@).unwrap()] } else { Seq::empty() };
            let a = match members_get(m@, "cards"@) {
                Some(Json::Array(items)) => leaf_names_all(items@),
                _ => Seq::empty(),
            };
            let b = match members_get(m@, "sections"@) {
                Some(Json::Array(items)) => leaf_names_all(items@),
                _ => Seq::empty(),
            };
            let c = match members_get(m@, "card"@) {
                Some(card) => leaf_names(card),
                None => Seq::empty(),
            };
            own + a + b + c
        },
        _ => Seq::empty(),
    }
}

pub open spec fn leaf_names_all(items: Seq<Json>) -> Seq<Seq<char>>
    decreases items, 0nat,
{
    if items.len() == 0 {
        Seq::empty()
    } else {
        leaf_names_all(items.drop_last()) + leaf_names(items.last())
    }
}

fn collect_leaf_names_all(items: &Vec<Json>, out: &mut Vec<String>, Ghost(parent): Ghost<Json>)
    requires
        forall|i: int| 0 <= i < items@.len() ==> decreases_to!(parent => #[trigger] items@[i]),
    ensures
        strings_view(final(out)@) == strings_view(old(out)@) + leaf_names_all(items@),
    decreases parent, 0nat,
{
    let ghost start = strings_view(out@);
    let mut i: usize = 0;
    while i < items.len()
        invariant
            i <= items.len(),
            forall|k: int| 0 <= k < items@.len() ==> decreases_to!(parent => #[trigger] items@[k]),
            strings_view(out@) == start + leaf_names_all(items@.take(i as int)),
        decreases items.len() - i,
    {
        proof {
            let t = items@.take(i + 1);
            assert(t.drop_last() =~= items@.take(i as int));
            assert(t.last() == items@[i as int]);
        }
        collect_leaf_names(&items[i], out);
        assert(strings_view(out@) =~= start + leaf_names_all(items@.take(i + 1)));
        i = i + 1;
    }
    assert(items@.take(items.len() as int) =~= items@);
}

fn collect_leaf_names(value: &Json, out: &mut Vec<String>)
    ensures
        strings_view(final(out)@) == strings_view(old(out)@) + leaf_names(*value),
    decreases *value, 1nat,
{
    let ghost start = strings_view(out@);
    let m = match value {
        Json::Object(m) => m,
        _ => {
            assert(strings_view(out@) =~= start + leaf_names(*value));
            return;
        },
    };
    let has = Json::get_member(m, "entity").is_some() || Json::get_member(m, "entities").is_some() || Json::get_member(m, "series").is_some();
    if has {
        if let Some(t) = own_title(m) {
            out.push(t);
        }
    }
    let ghost a = strings_view(out@);
    assert(a =~= start + (if has && spec_own_title(m@) is Some { seq![spec_own_title(m@).unwrap()] } else { Seq::<Seq<char>>::empty() }));
    if let Some(Json::Array(items)) = Json::get_member(m, "cards") {
        proof {
            assert forall|i: int| 0 <= i < items@.len() implies decreases_to!(*value => #[trigger] items@[i]) by {
                lemma_array_member_smaller(*value, "cards"@, i);
            }
        }
        collect_leaf_names_all(items, out, Ghost(*value));
    }
    let ghost b = strings_view(out@);
    if let Some(Json::Array(items)) = Json::get_member(m, "sections") {
        proof {
            assert forall|i: int| 0 <= i < items@.len() implies decreases_to!(*value => #[trigger] items@[i]) by {
                lemma_array_member_smaller(*value, "sections"@, i);
            }
        }
        collect_leaf_names_all(items, out, Ghost(*value));
    }
    let ghost c = strings_view(out@);
    if let Some(card) = Json::get_member(m, "card") {
        proof {
            lemma_member_smaller(m@, "card"@);
            assert(decreases_to!(*value => value->Object_0));
            assert(decreases_to!(*m => m@));
        }
        collect_leaf_names(card, out);
    }
    assert(strings_view(out@) =~= start + leaf_names(*value));
}


/// Left-to-right tokenizer state after `s`: the completed words and the
/// word being read.
pub open spec fn scan_words(s: Seq<char>) -> (Seq<Seq<char>>, Seq<char>)
    decreases s.len(),
{
    if s.len() == 0 {
        (Seq::empty(), Seq::empty())
    } else {
        let (done, cur) = scan_words(s.drop_last());
        if spec_is_whitespace(s.last()) {
            if cur.len() > 0 { (done.push(cur), Seq::empty()) } else { (done, Seq::empty()) }
        } else {
            (done, cur.push(s.last()))
        }
    }
}

/// `str::split_whitespace`: the maximal runs of non-whitespace characters.
pub open spec fn words(s: Seq<char>) -> Seq<Seq<char>> {
    let (done, cur) = scan_words(s);
    if cur.len() > 0 { done.push(cur) } else { done }
}

/// The words of `s`, as character vectors.
fn split_words(s: &str) -> (r: Vec<Vec<char>>)
    ensures
        r@.map_values(|w: Vec<char>| w@) == words(s@),
{
    let n = s.unicode_len();
    let mut done: Vec<Vec<char>> = Vec::new();
    let mut cur: Vec<char> = Vec::new();
    let mut i: usize = 0;
    while i < n
        invariant
            n == s@.len(),
            i <= n,
            (done@.map_values(|w: Vec<char>| w@), cur@) == scan_words(s@.take(i as int)),
        decreases n - i,
    {
        let c = s.get_char(i);
        proof {
            let t = s@.take(i + 1);
            assert(t.drop_last() =~= s@.take(i as int));
            assert(t.last() == c);
        }
        let ghost dv = done@.map_values(|w: Vec<char>| w@);
        if is_whitespace(c) {
            if cur.len() > 0 {
                let ghost cv = cur@;
                done.push(cur);
                assert(done@.map_values(|w: Vec<char>| w@) =~= dv.push(cv));
                cur = Vec::new();
            } else {
                cur = Vec::new();
            }
            assert(cur@ =~= Seq::<char>::empty());
        } else {
            cur.push(c);
        }
        i = i + 1;
    }
    assert(s@.take(n as int) =~= s@);
    if cur.len() > 0 {
        let ghost dv = done@.map_values(|w: Vec<char>| w@);
        let ghost cv = cur@;
        done.push(cur);
        assert(done@.map_values(|w: Vec<char>| w@) =~= dv.push(cv));
    }
    done
}

/// Words joined by single spaces.
pub open spec fn join_words(ws: Seq<Seq<char>>) -> Seq<char>
    decreases ws.len(),
{
    if ws.len() == 0 {
        Seq::empty()
    } else if ws.len() == 1 {
        ws[0]
    } else {
        join_words(ws.drop_last()) + seq![' '] + ws.last()
    }
}

/// The fewest words any list has.
pub open spec fn min_words(lists: Seq<Seq<Seq<char>>>) -> int
    decreases lists.len(),
{
    if lists.len() == 0 {
        0
    } else if lists.len() == 1 {
        lists[0].len() as int
    } else {
        let m = min_words(lists.drop_last());
        if lists.last().len() < m { lists.last().len() as int } else { m }
    }
}

/// Every list has at position `i` the same word as the first list.
pub open spec fn agree_at(lists: Seq<Seq<Seq<char>>>, i: int) -> bool {
    forall|j: int| 0 <= j < lists.len() ==> #[trigger] lists[j][i] == lists[0][i]
}

/// How many leading positions from `i` on (below `m`) all lists agree at.
pub open spec fn common_from(lists: Seq<Seq<Seq<char>>>, i: int, m: int) -> int
    decreases m - i,
{
    if i < m && agree_at(lists, i) { 1 + common_from(lists, i + 1, m) } else { 0 }
}

/// The leading words every name shares, joined by spaces; `None` when there
/// are no names or they share no leading word.
pub open spec fn spec_common_word_prefix(names: Seq<Seq<char>>) -> Option<Seq<char>> {
    let lists = names.map_values(|n: Seq<char>| words(n));
    if names.len() == 0 {
        None
    } else {
        let c = common_from(lists, 0, min_words(lists));
        if c == 0 { None } else { Some(join_words(lists[0].take(c))) }
    }
}

proof fn lemma_min_words(lists: Seq<Seq<Seq<char>>>)
    requires
        lists.len() > 0,
    ensures
        forall|j: int| 0 <= j < lists.len() ==> min_words(lists) <= #[trigger] lists[j].len(),
        0 <= min_words(lists),
    decreases lists.len(),
{
    if lists.len() > 1 {
        lemma_min_words(lists.drop_last());
        assert forall|j: int| 0 <= j < lists.len() implies min_words(lists) <= #[trigger] lists[j].len() by {
            if j < lists.len() - 1 {
                assert(lists.drop_last()[j] == lists[j]);
            }
        }
    }
}

proof fn lemma_common_from_stop(lists: Seq<Seq<Seq<char>>>, i: int, m: int)
    requires
        0 <= i <= m,
        forall|k: int| 0 <= k < i ==> agree_at(lists, k),
        i == m || !agree_at(lists, i),
    ensures
        common_from(lists, 0, m) == i,
    decreases i,
{
    lemma_common_from_shift(lists, 0, i, m);
}

proof fn lemma_common_from_shift(lists: Seq<Seq<Seq<char>>>, a: int, i: int, m: int)
    requires
        0 <= a <= i <= m,
        forall|k: int| a <= k < i ==> agree_at(lists, k),
        i == m || !agree_at(lists, i),
    ensures
        common_from(lists, a, m) == i - a,
    decreases i - a,
{
    if a < i {
        lemma_common_from_shift(lists, a + 1, i, m);
    }
}

/// The leading words all `names` share, joined by spaces.
pub fn common_word_prefix(names: &Vec<String>) -> (r: Option<String>)
    ensures
        opt_view(r) == spec_common_word_prefix(strings_view(names@)),
{
    let ghost nv = strings_view(names@);
    let ghost lists = nv.map_values(|n: Seq<char>| words(n));
    if names.len() == 0 {
        return None;
    }
    let mut word_lists: Vec<Vec<Vec<char>>> = Vec::new();
    let mut j: usize = 0;
    while j < names.len()
        invariant
            j <= names.len(),
            nv == strings_view(names@),
            lists == nv.map_values(|n: Seq<char>| words(n)),
            word_lists@.len() == j,
            forall|k: int| 0 <= k < j ==> (#[trigger] word_lists@[k])@.map_values(|w: Vec<char>| w@) == lists[k],
        decreases names.len() - j,
    {
        word_lists.push(split_words(names[j].as_str()));
        j = j + 1;
    }
    // the shortest list's length
    let mut min_len = word_lists[0].len();
    let mut k: usize = 1;
    assert(lists.take(1) =~= seq![lists[0]]);
    while k < word_lists.len()
        invariant
            1 <= k <= word_lists.len(),
            word_lists@.len() == lists.len(),
            forall|q: int| 0 <= q < word_lists@.len() ==> (#[trigger] word_lists@[q])@.map_values(|w: Vec<char>| w@) == lists[q],
            min_len == min_words(lists.take(k as int)),
        decreases word_lists.len() - k,
    {
        proof {
            let t = lists.take(k + 1);
            assert(t.drop_last() =~= lists.take(k as int));
            assert(t.last() == lists[k as int]);
            assert(word_lists@[k as int]@.len() == lists[k as int].len());
        }
        if word_lists[k].len() < min_len {
            min_len = word_lists[k].len();
        }
        k = k + 1;
    }
    assert(lists.take(word_lists.len() as int) =~= lists);
    proof {
        lemma_min_words(lists);
    }
    let mut i: usize = 0;
    let mut stop = false;
    while i < min_len && !stop
        invariant
            min_len == min_words(lists),
            word_lists@.len() == lists.len(),
            lists.len() > 0,
            forall|q: int| 0 <= q < word_lists@.len() ==> (#[trigger] word_lists@[q])@.map_values(|w: Vec<char>| w@) == lists[q],
            forall|q: int| 0 <= q < lists.len() ==> min_words(lists) <= #[trigger] lists[q].len(),
            i <= min_len,
            forall|q: int| 0 <= q < i ==> agree_at(lists, q),
            stop ==> !agree_at(lists, i as int),
        decreases min_len - i + (if stop { 0int } else { 1int }),
    {
        let mut all = true;
        let mut q: usize = 0;
        while q < word_lists.len()
            invariant
                i < min_len,
                min_len == min_words(lists),
                word_lists@.len() == lists.len(),
                lists.len() > 0,
                forall|p: int| 0 <= p < word_lists@.len() ==> (#[trigger] word_lists@[p])@.map_values(|w: Vec<char>| w@) == lists[p],
                forall|p: int| 0 <= p < lists.len() ==> min_words(lists) <= #[trigger] lists[p].len(),
                q <= word_lists.len(),
                all == forall|p: int| 0 <= p < q ==> #[trigger] lists[p][i as int] == lists[0][i as int],
            decreases word_lists.len() - q,
        {
            assert(word_lists@[q as int]@[i as int]@ == lists[q as int][i as int]);
            assert(word_lists@[0]@[i as int]@ == lists[0][i as int]);
            if !crate::text::chars_equal(&word_lists[q][i], &word_lists[0][i]) {
                all = false;
            }
            q = q + 1;
        }
        if all {
            i = i + 1;
        } else {
            stop = true;
        }
    }
    proof {
        lemma_common_from_stop(lists, i as int, min_len as int);
    }
    if i == 0 {
        return None;
    }
    let mut out = String::new();
    let mut w: usize = 0;
    while w < i
        invariant
            w <= i,
            i <= min_len,
            min_len == min_words(lists),
            forall|p: int| 0 <= p < lists.len() ==> min_words(lists) <= #[trigger] lists[p].len(),
            lists.len() > 0,
            word_lists@.len() == lists.len(),
            forall|p: int| 0 <= p < word_lists@.len() ==> (#[trigger] word_lists@[p])@.map_values(|w: Vec<char>| w@) == lists[p],
            out@ == join_words(lists[0].take(w as int)),
        decreases i - w,
    {
        proof {
            let t = lists[0].take(w + 1);
            assert(t.drop_last() =~= lists[0].take(w as int));
            assert(t.last() == lists[0][w as int]);
            assert(word_lists@[0]@[w as int]@ == lists[0][w as int]);
        }
        if w > 0 {
            push_char(&mut out, ' ');
        }
        let piece = crate::text::string_from_chars(&word_lists[0][w]);
        append_str(&mut out, piece.as_str());
        proof {
            if w == 0 {
                assert(lists[0].take(1) =~= seq![lists[0][0]]);
                assert(out@ =~= lists[0][0]);
            } else {
                assert(out@ =~= join_words(lists[0].take(w as int)) + seq![' '] + lists[0][w as int]);
            }
        }
        w = w + 1;
    }
    Some(out)
}

/// The label of a merged card: its own label, else the first heading card
/// inside it, else the leading words its leaves' names share.
pub open spec fn spec_find_title(v: Json) -> Option<Seq<char>> {
    let own = match v {
        Json::Object(m) => spec_own_title(m@),
        _ => None,
    };
    if own is Some {
        own
    } else if heading_of(v) is Some {
        heading_of(v)
    } else {
        spec_common_word_prefix(leaf_names(v))
    }
}

fn find_title(value: &Json) -> (r: Option<String>)
    ensures
        opt_view(r) == spec_find_title(*value),
{
    if let Json::Object(m) = value {
        if let Some(t) = own_title(m) {
            return Some(t);
        }
    }
    let h = find_heading_card(value);
    if h.is_some() {
        return h;
    }
    let mut names: Vec<String> = Vec::new();
    collect_leaf_names(value, &mut names);
    assert(strings_view(names@) =~= leaf_names(*value));
    common_word_prefix(&names)
}

/// The card one top-level entry of a view becomes: every entity found
/// inside it, titled by `spec_find_title`; `None` when it has no entities.
pub open spec fn merged_card(v: Json) -> Option<crate::config::CardView> {
    let d = dedup_found(found(v));
    if d.len() == 0 {
        None
    } else {
        Some(crate::config::CardView { title: spec_find_title(v), entity_ids: ids_of_found(d), graph_entity_ids: graph_ids_of(d) })
    }
}

fn merge_into_one_card(value: &Json) -> (r: Option<DashboardCard>)
    ensures
        r is Some <==> merged_card(*value) is Some,
        r matches Some(c) ==> Some(c@) == merged_card(*value),
{
    let mut collected = Collected::new();
    collect_entities(value, &mut collected);
    assert(collected.seen() =~= found(*value));
    reveal(Collected::holds);
    let ghost d = dedup_found(found(*value));
    assert(ids_of_found(d).len() == d.len());
    assert(strings_view(collected.entity_ids@).len() == collected.entity_ids@.len());
    if collected.entity_ids.len() == 0 {
        return None;
    }
    let title = find_title(value);
    let card = DashboardCard { title, entity_ids: collected.entity_ids, graph_entity_ids: collected.graph_entity_ids };
    assert(card@ == (crate::config::CardView { title: spec_find_title(*value), entity_ids: ids_of_found(d), graph_entity_ids: graph_ids_of(d) }));
    Some(card)
}

/// The id a badge names: a plain string, or an object's `entity` string.
pub open spec fn badge_id(item: Json) -> Option<Seq<char>> {
    match item {
        Json::Str(id) => Some(id@),
        Json::Object(o) => str_member(o@, "entity"@),
        _ => None,
    }
}

/// A badge becomes an untitled card of its one entity (ids without a `.` are skipped).
pub open spec fn badge_card(item: Json) -> Option<crate::config::CardView> {
    match badge_id(item) {
        Some(id) => if id.contains('.') {
            Some(crate::config::CardView { title: None, entity_ids: seq![id], graph_entity_ids: Seq::empty() })
        } else {
            None
        },
        None => None,
    }
}

fn single_card_from_badge(item: &Json) -> (r: Option<DashboardCard>)
    ensures
        r is Some <==> badge_card(*item) is Some,
        r matches Some(c) ==> Some(c@) == badge_card(*item),
{
    let id: &str = match item {
        Json::Str(id) => id.as_str(),
        Json::Object(o) => match str_of(o, "entity") {
            Some(id) => id,
            None => {
                return None;
            },
        },
        _ => {
            return None;
        },
    };
    if !has_char(id, '.') {
        return None;
    }
    let mut ids: Vec<String> = Vec::new();
    ids.push(String::from_str(id));
    let card = DashboardCard { title: None, entity_ids: ids, graph_entity_ids: Vec::new() };
    assert(strings_view(card.entity_ids@) =~= seq![id@]);
    assert(strings_view(card.graph_entity_ids@) =~= Seq::<Seq<char>>::empty());
    Some(card)
}


/// A view's tab name: its `title`, else its `path`, else `View N` for the
/// `N`th view (counting from 1).
pub open spec fn view_name(view: Json, i: int) -> Seq<char> {
    match view.spec_get("title"@) {
        Some(Json::Str(t)) => t@,
        _ => match view.spec_get("path"@) {
            Some(Json::Str(p)) => p@,
            _ => "View "@ + decimal((i + 1) as nat),
        },
    }
}

pub open spec fn badge_cards(items: Seq<Json>) -> Seq<crate::config::CardView>
    decreases items.len(),
{
    if items.len() == 0 {
        Seq::empty()
    } else {
        let r = badge_cards(items.drop_last());
        match badge_card(items.last()) {
            Some(c) => r.push(c),
            None => r,
        }
    }
}

pub open spec fn merged_cards(items: Seq<Json>) -> Seq<crate::config::CardView>
    decreases items.len(),
{
    if items.len() == 0 {
        Seq::empty()
    } else {
        let r = merged_cards(items.drop_last());
        match merged_card(items.last()) {
            Some(c) => r.push(c),
            None => r,
        }
    }
}

/// A view's top-level panels: its `sections` when that is a non-empty
/// array, else its `cards` array.
pub open spec fn top_level(view: Json) -> Seq<Json> {
    match view.spec_get("sections"@) {
        Some(Json::Array(items)) if items@.len() > 0 => items@,
        _ => match view.spec_get("cards"@) {
            Some(Json::Array(items)) => items@,
            _ => Seq::empty(),
        },
    }
}

/// A view's cards: one per badge, then one per top-level panel, each kept
/// only when it has entities.
pub open spec fn view_cards(view: Json) -> Seq<crate::config::CardView> {
    let badges = match view.spec_get("badges"@) {
        Some(Json::Array(items)) => badge_cards(items@),
        _ => Seq::empty(),
    };
    badges + merged_cards(top_level(view))
}

pub ghost struct TabView {
    pub name: Seq<char>,
    pub entity_ids: Seq<Seq<char>>,
    pub cards: Seq<crate::config::CardView>,
}

pub open spec fn tab_view(t: DashboardTab) -> TabView {
    TabView { name: t.name@, entity_ids: strings_view(t.entity_ids@), cards: crate::config::cards_view(t.cards@) }
}

/// One tab per view that yields cards, in order.
pub open spec fn extracted(views: Seq<Json>) -> Seq<TabView>
    decreases views.len(),
{
    if views.len() == 0 {
        Seq::empty()
    } else {
        let r = extracted(views.drop_last());
        let cards = view_cards(views.last());
        if cards.len() > 0 {
            r.push(TabView { name: view_name(views.last(), views.len() - 1), entity_ids: Seq::empty(), cards })
        } else {
            r
        }
    }
}

/// The tabs of a Lovelace config: its `views`, or none.
pub open spec fn spec_extract_tabs(config: Json) -> Seq<TabView> {
    match config.spec_get("views"@) {
        Some(Json::Array(views)) => extracted(views@),
        _ => Seq::empty(),
    }
}

fn view_tab_name(view: &Json, i: usize) -> (r: String)
    requires
        i < u64::MAX,
    ensures
        r@ == view_name(*view, i as int),
{
    if let Some(Json::Str(t)) = view.get("title") {
        return t.clone();
    }
    if let Some(Json::Str(p)) = view.get("path") {
        return p.clone();
    }
    let mut name = String::from_str("View ");
    let n = decimal_string((i as u64) + 1);
    append_str(&mut name, n.as_str());
    name
}

fn view_cards_of(view: &Json) -> (r: Vec<DashboardCard>)
    ensures
        crate::config::cards_view(r@) == view_cards(*view),
{
    let mut cards: Vec<DashboardCard> = Vec::new();
    if let Some(Json::Array(items)) = view.get("badges") {
        let mut i: usize = 0;
        while i < items.len()
            invariant
                i <= items.len(),
                view.spec_get("badges"@) == Some(Json::Array(*items)),
                crate::config::cards_view(cards@) == badge_cards(items@.take(i as int)),
            decreases items.len() - i,
        {
            proof {
                let t = items@.take(i + 1);
                assert(t.drop_last() =~= items@.take(i as int));
                assert(t.last() == items@[i as int]);
            }
            let ghost before = crate::config::cards_view(cards@);
            match single_card_from_badge(&items[i]) {
                Some(c) => {
                    cards.push(c);
                    assert(crate::config::cards_view(cards@) =~= before.push(c@));
                },
                None => {},
            }
            i = i + 1;
        }
        assert(items@.take(items.len() as int) =~= items@);
    } else {
        assert(crate::config::cards_view(cards@) =~= Seq::<crate::config::CardView>::empty());
    }
    let ghost b = crate::config::cards_view(cards@);
    let top: Option<&Vec<Json>> = match view.get("sections") {
        Some(Json::Array(items)) if items.len() > 0 => Some(items),
        _ => match view.get("cards") {
            Some(Json::Array(items)) => Some(items),
            _ => None,
        },
    };
    if let Some(items) = top {
        assert(items@ == top_level(*view));
        let mut i: usize = 0;
        while i < items.len()
            invariant
                i <= items.len(),
                items@ == top_level(*view),
                crate::config::cards_view(cards@) == b + merged_cards(items@.take(i as int)),
            decreases items.len() - i,
        {
            proof {
                let t = items@.take(i + 1);
                assert(t.drop_last() =~= items@.take(i as int));
                assert(t.last() == items@[i as int]);
            }
            let ghost before = crate::config::cards_view(cards@);
            match merge_into_one_card(&items[i]) {
                Some(c) => {
                    cards.push(c);
                    assert(crate::config::cards_view(cards@) =~= before.push(c@));
                },
                None => {},
            }
            assert(crate::config::cards_view(cards@) =~= b + merged_cards(items@.take(i + 1)));
            i = i + 1;
        }
        assert(items@.take(items.len() as int) =~= items@);
    } else {
        assert(top_level(*view) =~= Seq::<Json>::empty());
        assert(crate::config::cards_view(cards@) =~= b + merged_cards(top_level(*view)));
    }
    cards
}

/// One tab per dashboard view, named after the view's `title` (else its
/// `path`, else `View N`); views that yield no cards are dropped.
pub fn extract_tabs(config: &Json) -> (r: Vec<DashboardTab>)
    ensures
        r@.map_values(|t: DashboardTab| tab_view(t)) == spec_extract_tabs(*config),
{
    let mut tabs: Vec<DashboardTab> = Vec::new();
    let views = match config.get("views") {
        Some(Json::Array(views)) => views,
        _ => {
            assert(tabs@.map_values(|t: DashboardTab| tab_view(t)) =~= spec_extract_tabs(*config));
            return tabs;
        },
    };
    let mut i: usize = 0;
    while i < views.len()
        invariant
            i <= views.len(),
            config.spec_get("views"@) == Some(Json::Array(*views)),
            tabs@.map_values(|t: DashboardTab| tab_view(t)) == extracted(views@.take(i as int)),
        decreases views.len() - i,
    {
        proof {
            let t = views@.take(i + 1);
            assert(t.drop_last() =~= views@.take(i as int));
            assert(t.last() == views@[i as int]);
        }
        let ghost before = tabs@.map_values(|t: DashboardTab| tab_view(t));
        let cards = view_cards_of(&views[i]);
        if cards.len() > 0 {
            let name = view_tab_name(&views[i], i);
            let tab = DashboardTab { name, entity_ids: Vec::new(), cards };
            assert(strings_view(tab.entity_ids@) =~= Seq::<Seq<char>>::empty());
            tabs.push(tab);
            assert(tabs@.map_values(|t: DashboardTab| tab_view(t)) =~= before.push(tab_view(tab)));
        }
        i = i + 1;
    }
    assert(views@.take(views.len() as int) =~= views@);
    tabs
}

/// A card as extraction makes it: at least one entity id, no id twice,
/// every id holding a `.`, and every graphed id one of its entity ids.
pub open spec fn card_well_formed(c: crate::config::CardView) -> bool {
    &&& c.entity_ids.len() > 0
    &&& forall|i: int, j: int| 0 <= i < j < c.entity_ids.len() ==> #[trigger] c.entity_ids[i] != #[trigger] c.entity_ids[j]
    &&& forall|k: int| 0 <= k < c.entity_ids.len() ==> (#[trigger] c.entity_ids[k]).contains('.')
    &&& forall|k: int| 0 <= k < c.graph_entity_ids.len() ==> c.entity_ids.contains(#[trigger] c.graph_entity_ids[k])
}

proof fn lemma_dedup_well_formed(f: Seq<(Seq<char>, bool)>)
    ensures
        forall|i: int, j: int| 0 <= i < j < ids_of_found(dedup_found(f)).len()
            ==> #[trigger] ids_of_found(dedup_found(f))[i] != #[trigger] ids_of_found(dedup_found(f))[j],
        forall|k: int| 0 <= k < ids_of_found(dedup_found(f)).len() ==> (#[trigger] ids_of_found(dedup_found(f))[k]).contains('.'),
        forall|k: int| 0 <= k < graph_ids_of(dedup_found(f)).len()
            ==> ids_of_found(dedup_found(f)).contains(#[trigger] graph_ids_of(dedup_found(f))[k]),
    decreases f.len(),
{
    if f.len() > 0 {
        let init = f.drop_last();
        lemma_dedup_well_formed(init);
        let d = dedup_found(init);
        let x = f.last();
        if x.0.contains('.') && !ids_of_found(d).contains(x.0) {
            let nd = d.push(x);
            assert(ids_of_found(nd) =~= ids_of_found(d).push(x.0));
            assert(nd.drop_last() =~= d);
            let ids = ids_of_found(nd);
            assert forall|i: int, j: int| 0 <= i < j < ids.len() implies #[trigger] ids[i] != #[trigger] ids[j] by {
                if j == ids.len() - 1 {
                    assert(ids_of_found(d)[i] == ids[i]);
                    if ids[i] == ids[j] {
                        assert(ids_of_found(d).contains(x.0));
                    }
                } else {
                    assert(ids_of_found(d)[i] == ids[i] && ids_of_found(d)[j] == ids[j]);
                }
            }
            assert forall|k: int| 0 <= k < ids.len() implies (#[trigger] ids[k]).contains('.') by {
                if k < ids.len() - 1 {
                    assert(ids_of_found(d)[k] == ids[k]);
                }
            }
            let g = graph_ids_of(nd);
            let g0 = graph_ids_of(d);
            assert forall|k: int| 0 <= k < g.len() implies ids.contains(#[trigger] g[k]) by {
                if k < g0.len() {
                    assert(g[k] == g0[k]);
                    assert(ids_of_found(d).contains(g0[k]));
                    let q = choose|q: int| 0 <= q < ids_of_found(d).len() && ids_of_found(d)[q] == g0[k];
                    assert(ids[q] == g0[k]);
                } else {
                    assert(g[k] == x.0);
                    assert(ids[ids.len() - 1] == x.0);
                }
            }
        }
    }
}

proof fn lemma_array_found_flags(items: Seq<Json>, g: bool)
    ensures
        forall|k: int| 0 <= k < array_found(items, g).len() ==> (#[trigger] array_found(items, g)[k]).1 == g,
    decreases items.len(),
{
    if items.len() > 0 {
        lemma_array_found_flags(items.drop_last(), g);
        let r0 = array_found(items.drop_last(), g);
        assert forall|k: int| 0 <= k < array_found(items, g).len() implies (#[trigger] array_found(items, g)[k]).1 == g by {
            if k < r0.len() {
                assert(array_found(items, g)[k] == r0[k]);
            }
        }
    }
}

/// A card with no nested cards flags its entities for a graph exactly when
/// its `type` is a graph type (`history-graph`, `sensor-graph`, or one ending
/// in `apexcharts-card` or `mini-graph-card`) or it has a `graph` string
/// other than `"none"`; so `"graph": "none"` on a plain card graphs nothing.
pub proof fn lemma_card_graph_flag(v: Json)
    requires
        v is Object,
        members_get(v->Object_0@, "cards"@) is None,
        members_get(v->Object_0@, "sections"@) is None,
        members_get(v->Object_0@, "card"@) is None,
    ensures
        ({
            let m = v->Object_0@;
            let typed = str_member(m, "type"@) matches Some(t) && (t == "history-graph"@ || t == "sensor-graph"@
                || "apexcharts-card"@.is_suffix_of(t) || "mini-graph-card"@.is_suffix_of(t));
            let keyed = str_member(m, "graph"@) matches Some(g) && g != "none"@;
            &&& forall|k: int| 0 <= k < found(v).len() ==> (#[trigger] found(v)[k]).1 == (typed || keyed)
            &&& str_member(m, "graph"@) == Some("none"@) && !typed ==> forall|k: int| 0 <= k < found(v).len() ==> !(#[trigger] found(v)[k]).1
        }),
{
    let m = v->Object_0@;
    let g = spec_card_wants_graph(m);
    lemma_array_found_flags(member_array_found_items(m, "entities"@), g);
    lemma_array_found_flags(member_array_found_items(m, "series"@), g);
    let own = match members_get(m, "entity"@) {
        Some(Json::Str(id)) => seq![(id@, g)],
        _ => Seq::<(Seq<char>, bool)>::empty(),
    };
    let ea = member_array_found(m, "entities"@, g);
    let sa = member_array_found(m, "series"@, g);
    assert(found(v) =~= own + ea + sa);
    assert forall|k: int| 0 <= k < found(v).len() implies (#[trigger] found(v)[k]).1 == g by {
        if k < own.len() {
        } else if k < own.len() + ea.len() {
            assert(found(v)[k] == ea[k - own.len()]);
        } else {
            assert(found(v)[k] == sa[k - own.len() - ea.len()]);
        }
    }
}

/// The items of an array member (empty when the member is not an array).
spec fn member_array_found_items(m: Seq<(String, Json)>, key: Seq<char>) -> Seq<Json> {
    match members_get(m, key) {
        Some(Json::Array(items)) => items@,
        _ => Seq::empty(),
    }
}

/// The found pairs whose graph flag is set, in order.
pub open spec fn flagged_pairs(d: Seq<(Seq<char>, bool)>) -> Seq<(Seq<char>, bool)> {
    d.filter(|p: (Seq<char>, bool)| p.1)
}

proof fn lemma_graph_ids_are_flagged(d: Seq<(Seq<char>, bool)>)
    ensures
        graph_ids_of(d) == ids_of_found(flagged_pairs(d)),
    decreases d.len(),
{
    reveal(Seq::filter);
    if d.len() > 0 {
        let init = d.drop_last();
        lemma_graph_ids_are_flagged(init);
        if d.last().1 {
            assert(flagged_pairs(d) == flagged_pairs(init).push(d.last()));
            assert(ids_of_found(flagged_pairs(d)) =~= ids_of_found(flagged_pairs(init)).push(d.last().0));
        } else {
            assert(flagged_pairs(d) == flagged_pairs(init));
        }
    } else {
        assert(ids_of_found(flagged_pairs(d)) =~= Seq::<Seq<char>>::empty());
    }
}

/// Gathering a card's ids: the ids gathered from the pushes `f` are unique,
/// each holds a `.`, and the graphed ones are, in order, those gathered with
/// the graph flag. Pushing one more id appends it to the ids (and, when it
/// wants a graph, to the graphed ids) exactly when it holds a `.` and was not
/// gathered before; otherwise nothing changes, so a repeated id never gains
/// the graph flag later.
pub proof fn lemma_collect_step(f: Seq<(Seq<char>, bool)>, id: Seq<char>, wants_graph: bool)
    ensures
        forall|i: int, j: int| 0 <= i < j < ids_of_found(dedup_found(f)).len()
            ==> #[trigger] ids_of_found(dedup_found(f))[i] != #[trigger] ids_of_found(dedup_found(f))[j],
        forall|k: int| 0 <= k < ids_of_found(dedup_found(f)).len() ==> (#[trigger] ids_of_found(dedup_found(f))[k]).contains('.'),
        graph_ids_of(dedup_found(f)) == ids_of_found(flagged_pairs(dedup_found(f))),
        ids_of_found(dedup_found(f.push((id, wants_graph)))) == (if id.contains('.') && !ids_of_found(dedup_found(f)).contains(id) {
            ids_of_found(dedup_found(f)).push(id)
        } else {
            ids_of_found(dedup_found(f))
        }),
        graph_ids_of(dedup_found(f.push((id, wants_graph)))) == (if id.contains('.') && !ids_of_found(dedup_found(f)).contains(id) && wants_graph {
            graph_ids_of(dedup_found(f)).push(id)
        } else {
            graph_ids_of(dedup_found(f))
        }),
{
    lemma_dedup_well_formed(f);
    lemma_graph_ids_are_flagged(dedup_found(f));
    let d = dedup_found(f);
    let fl = f.push((id, wants_graph));
    assert(fl.drop_last() =~= f);
    if id.contains('.') && !ids_of_found(d).contains(id) {
        let nd = d.push((id, wants_graph));
        assert(dedup_found(fl) == nd);
        assert(nd.drop_last() =~= d);
        assert(ids_of_found(nd) =~= ids_of_found(d).push(id));
    } else {
        assert(dedup_found(fl) == d);
    }
}

proof fn lemma_cards_well_formed(items: Seq<Json>)
    ensures
        forall|k: int| 0 <= k < badge_cards(items).len() ==> card_well_formed(#[trigger] badge_cards(items)[k]),
        forall|k: int| 0 <= k < merged_cards(items).len() ==> card_well_formed(#[trigger] merged_cards(items)[k]),
    decreases items.len(),
{
    if items.len() > 0 {
        let init = items.drop_last();
        lemma_cards_well_formed(init);
        let last = items.last();
        let b = badge_cards(items);
        let b0 = badge_cards(init);
        match badge_card(last) {
            Some(c) => {
                assert(c.entity_ids =~= seq![badge_id(last).unwrap()]);
                assert forall|k: int| 0 <= k < b.len() implies card_well_formed(#[trigger] b[k]) by {
                    if k < b0.len() {
                        assert(b[k] == b0[k]);
                    }
                }
            },
            None => {},
        }
        let mc = merged_cards(items);
        let m0 = merged_cards(init);
        match merged_card(last) {
            Some(c) => {
                lemma_dedup_well_formed(found(last));
                assert forall|k: int| 0 <= k < mc.len() implies card_well_formed(#[trigger] mc[k]) by {
                    if k < m0.len() {
                        assert(mc[k] == m0[k]);
                    }
                }
            },
            None => {},
        }
    }
}

proof fn lemma_extracted_well_formed(views: Seq<Json>)
    ensures
        forall|t: int| 0 <= t < extracted(views).len() ==> {
            &&& (#[trigger] extracted(views)[t]).cards.len() > 0
            &&& extracted(views)[t].entity_ids.len() == 0
            &&& forall|c: int| 0 <= c < extracted(views)[t].cards.len() ==> card_well_formed(#[trigger] extracted(views)[t].cards[c])
        },
    decreases views.len(),
{
    if views.len() > 0 {
        let init = views.drop_last();
        lemma_extracted_well_formed(init);
        let v = views.last();
        let cards = view_cards(v);
        let r0 = extracted(init);
        let r = extracted(views);
        if cards.len() > 0 {
            let badges = match v.spec_get("badges"@) {
                Some(Json::Array(items)) => badge_cards(items@),
                _ => Seq::empty(),
            };
            match v.spec_get("badges"@) {
                Some(Json::Array(items)) => lemma_cards_well_formed(items@),
                _ => {},
            }
            lemma_cards_well_formed(top_level(v));
            assert(cards == badges + merged_cards(top_level(v)));
            assert forall|c: int| 0 <= c < cards.len() implies card_well_formed(#[trigger] cards[c]) by {
                if c < badges.len() {
                    assert(cards[c] == badges[c]);
                } else {
                    assert(cards[c] == merged_cards(top_level(v))[c - badges.len()]);
                }
            }
            assert forall|t: int| 0 <= t < r.len() implies {
                &&& (#[trigger] r[t]).cards.len() > 0
                &&& r[t].entity_ids.len() == 0
                &&& forall|c: int| 0 <= c < r[t].cards.len() ==> card_well_formed(#[trigger] r[t].cards[c])
            } by {
                if t < r0.len() {
                    assert(r[t] == r0[t]);
                }
            }
        }
    }
}

/// Every tab extracted from a dashboard has at least one card (views with
/// nothing to show are dropped) and no plain entity list of its own; every
/// card lists at least one entity, never one twice, only ids that hold a
/// `.`, and graphs only entities it lists.
pub proof fn lemma_extracted_tabs_well_formed(config: Json)
    ensures
        forall|t: int| 0 <= t < spec_extract_tabs(config).len() ==> {
            &&& (#[trigger] spec_extract_tabs(config)[t]).cards.len() > 0
            &&& spec_extract_tabs(config)[t].entity_ids.len() == 0
            &&& forall|c: int| 0 <= c < spec_extract_tabs(config)[t].cards.len()
                ==> card_well_formed(#[trigger] spec_extract_tabs(config)[t].cards[c])
        },
{
    match config.spec_get("views"@) {
        Some(Json::Array(views)) => lemma_extracted_well_formed(views@),
        _ => {},
    }
}

} // verus!
