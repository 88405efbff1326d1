//! What holds of the application state across operations: an update reads
//! back, a removal removes, the selection stays in bounds, a search edit can
//! be undone, tab steps undo each other, expiry keeps exactly what is fresh.
use vstd::prelude::*;
use crate::app::entity::StateTextView;
use crate::app::entity::Entity;
use crate::app::state::{
    AppModel, FilterModel, toggling_text, lookup, ids_unique, index_of_id, lemma_index_of_id, is_entity_of,
    upserted, removed, pending_without, pending_text, pending_fresh, flashes_fresh, age, PENDING_TIMEOUT_NS,
    FLASH_DURATION_NS, STATUS_TIMEOUT_NS, min_usize, resolve_ids, matching, name_matches, name_key, name_keys,
    entities_at,
};
use crate::app::order::{keys_lt, sort_by_keys, sorted_by, lemma_sort_sorts, runs};
use crate::text::{chars_lt, lemma_chars_lt_total, lemma_chars_lt_transitive};
use crate::app::state::{all_indices, room_of, group_key, spec_titleize, TabModel, CardModel, Adjustment, is_call, call_data, is_brightness_data};
use crate::text::decimal;
use crate::config::CardView;
use crate::ha::protocol::StateObject;

verus! {

/// The tabs depend only on the entities, the registry and the dashboard.
pub proof fn lemma_tabs_follow_entities(a: AppModel, b: AppModel)
    requires
        a.entities == b.entities,
        a.registry == b.registry,
        a.dashboard == b.dashboard,
    ensures
        a.tabs() == b.tabs(),
        a.filtered() == b.filtered() || a.query() != b.query(),
{
    assert(a.room_labels() == b.room_labels());
    assert(a.domain_labels() == b.domain_labels());
    assert(a.group_keys() == b.group_keys());
    assert(a.auto_tabs() == b.auto_tabs());
    assert(a.dashboard_tabs() == b.dashboard_tabs());
}

/// Typing a character into the search and then deleting it gives back the
/// query there was before (the selection is back on the first result).
pub proof fn lemma_backspace_undoes_push(m: AppModel, c: char)
    requires
        m.filter is Some,
    ensures
        m.char_pushed(c).backspaced() == (AppModel {
            filter: Some(FilterModel { selected: 0, ..m.filter.unwrap() }),
            ..m
        }),
{
    let f = m.filter.unwrap();
    assert(f.query.push(c).drop_last() =~= f.query);
}

/// Opening the search and cancelling it right away leaves the state as it
/// was, when no search was active.
pub proof fn lemma_cancel_undoes_start(m: AppModel)
    requires
        m.filter is None,
    ensures
        m.filter_started().filter_cancelled() == m,
{
}

/// Reopening the search keeps the query that was active.
pub proof fn lemma_start_keeps_query(m: AppModel)
    ensures
        m.filter_started().query() == m.query(),
        m.filter_started().filter matches Some(f) && f.editing,
{
}

/// Toggling a light or a switch shows its flipped state at once ("on" ->
/// "off", anything else -> "on") and says so on the status line, until a
/// real update arrives.
pub proof fn lemma_toggle_shows_flipped_state(
    m: AppModel,
    now: u64,
    after: AppModel,
    r: Option<crate::ha::client::Command>,
)
    requires
        m.toggled(now, after, r),
        m.selected() matches Some(e) && (e.domain@ == "light"@ || e.domain@ == "switch"@),
    ensures
        r is Some,
        after.display_state(m.selected().unwrap()) == StateTextView::Text(
            if m.selected().unwrap().state@ == "on"@ { "off"@ } else { "on"@ },
        ),
        after.status == Some((toggling_text(m.selected().unwrap().entity_id@), now)),
        after.entities == m.entities,
{
}

/// Stepping to the next tab and back returns to the tab one started on,
/// with the selection at its top.
pub proof fn lemma_next_then_prev_tab(m: AppModel, t1: u64, t2: u64)
    requires
        m.filter is None,
        m.group < m.tabs().len(),
        m.tabs().len() <= usize::MAX,
    ensures
        m.tab_stepped(true, t1).tab_stepped(false, t2).group == m.group,
{
    let n = m.tabs().len() as int;
    let a = m.tab_stepped(true, t1);
    lemma_tabs_follow_entities(m, a);
    if n > 1 {
        let g = m.group as int;
        assert(((g + 1) % n + n - 1) % n == g) by (nonlinear_arith)
            requires
                0 <= g < n,
                n > 1,
        {
            if g + 1 < n {
                assert((g + 1) % n == g + 1);
                assert((g + n) % n == g);
            } else {
                assert((g + 1) % n == 0);
                assert((n - 1) % n == n - 1);
            }
        }
        assert(0 <= (g + 1) % n < n) by (nonlinear_arith)
            requires
                0 <= g < n,
                n > 1,
        ;
        assert(a.group as int == (g + 1) % n);
        assert(a.tabs().len() == n);
    }
}

/// Stepping to the previous tab and then the next returns to the tab one
/// started on.
pub proof fn lemma_prev_then_next_tab(m: AppModel, t1: u64, t2: u64)
    requires
        m.filter is None,
        m.group < m.tabs().len(),
        m.tabs().len() <= usize::MAX,
    ensures
        m.tab_stepped(false, t1).tab_stepped(true, t2).group == m.group,
{
    let n = m.tabs().len() as int;
    let a = m.tab_stepped(false, t1);
    lemma_tabs_follow_entities(m, a);
    if n > 1 {
        let g = m.group as int;
        assert(((g + n - 1) % n + 1) % n == g) by (nonlinear_arith)
            requires
                0 <= g < n,
                n > 1,
        {
            if g > 0 {
                assert((g + n - 1) % n == g - 1);
                assert(g % n == g);
            } else {
                assert((n - 1) % n == n - 1);
                assert(n % n == 0);
            }
        }
        assert(0 <= (g + n - 1) % n < n) by (nonlinear_arith)
            requires
                0 <= g < n,
                n > 1,
        ;
        assert(a.group as int == (g + n - 1) % n);
        assert(a.tabs().len() == n);
    }
}

/// With exactly one entity of id `id`, at `i`, a lookup finds that one.
proof fn lemma_lookup_single(ents: Seq<Entity>, id: Seq<char>, i: int)
    requires
        0 <= i < ents.len(),
        ents[i].entity_id@ == id,
        forall|k: int| 0 <= k < ents.len() && k != i ==> #[trigger] ents[k].entity_id@ != id,
    ensures
        lookup(ents, id) == Some(ents[i]),
    decreases ents.len(),
{
    if i < ents.len() - 1 {
        assert(ents.last().entity_id@ != id);
        lemma_lookup_single(ents.drop_last(), id, i);
    }
}

/// Without an entity of id `id`, a lookup finds none.
proof fn lemma_lookup_absent(ents: Seq<Entity>, id: Seq<char>)
    requires
        forall|k: int| 0 <= k < ents.len() ==> #[trigger] ents[k].entity_id@ != id,
    ensures
        lookup(ents, id) is None,
    decreases ents.len(),
{
    if ents.len() > 0 {
        assert(ents.last().entity_id@ != id);
        lemma_lookup_absent(ents.drop_last(), id);
    }
}

/// Two lists that agree wherever either holds id `id` look it up alike.
proof fn lemma_lookup_agree(a: Seq<Entity>, b: Seq<Entity>, id: Seq<char>)
    requires
        a.len() == b.len(),
        forall|k: int| 0 <= k < a.len() && (a[k].entity_id@ == id || b[k].entity_id@ == id) ==> #[trigger] a[k] == b[k],
    ensures
        lookup(a, id) == lookup(b, id),
    decreases a.len(),
{
    if a.len() > 0 {
        let n = a.len() - 1;
        assert(a.last() == a[n] && b.last() == b[n]);
        if a[n].entity_id@ == id || b[n].entity_id@ == id {
            assert(a[n] == b[n]);
        }
        lemma_lookup_agree(a.drop_last(), b.drop_last(), id);
    }
}

/// Removing an entry of another id does not change a lookup.
proof fn lemma_lookup_remove_other(ents: Seq<Entity>, i: int, id: Seq<char>)
    requires
        0 <= i < ents.len(),
        ents[i].entity_id@ != id,
    ensures
        lookup(ents.remove(i), id) == lookup(ents, id),
    decreases ents.len(),
{
    if i == ents.len() - 1 {
        assert(ents.remove(i) =~= ents.drop_last());
    } else {
        let r = ents.remove(i);
        assert(r.last() == ents.last());
        assert(r.drop_last() =~= ents.drop_last().remove(i));
        lemma_lookup_remove_other(ents.drop_last(), i, id);
    }
}

/// Dropping the updates of `id` leaves none for it.
proof fn lemma_pending_without_clears(pend: Seq<(Seq<char>, Seq<char>, u64)>, id: Seq<char>)
    ensures
        pending_text(pending_without(pend, id), id) is None,
    decreases pend.len(),
{
    if pend.len() > 0 {
        lemma_pending_without_clears(pend.drop_last(), id);
        let r = pending_without(pend.drop_last(), id);
        assert(r.push(pend.last()).drop_last() =~= r);
    }
}

/// Dropping the updates of `id` keeps those of every other id.
proof fn lemma_pending_without_keeps(pend: Seq<(Seq<char>, Seq<char>, u64)>, id: Seq<char>, other: Seq<char>)
    requires
        other != id,
    ensures
        pending_text(pending_without(pend, id), other) == pending_text(pend, other),
    decreases pend.len(),
{
    if pend.len() > 0 {
        lemma_pending_without_keeps(pend.drop_last(), id, other);
        let r = pending_without(pend.drop_last(), id);
        assert(r.push(pend.last()).drop_last() =~= r);
    }
}

/// A state update reads back: afterwards the entity of its id is the one
/// the new state describes, its optimistic update is gone, and every other
/// entity and optimistic update is as it was.
pub proof fn lemma_update_reads_back(m: AppModel, s: StateObject, now: u64, after: AppModel)
    requires
        m.wf(),
        m.applied(s, now, after),
    ensures
        lookup(after.entities, s.entity_id@) matches Some(e) && is_entity_of(e, s),
        pending_text(after.pending, s.entity_id@) is None,
        forall|id: Seq<char>| id != s.entity_id@ ==> #[trigger] lookup(after.entities, id) == lookup(m.entities, id),
        forall|id: Seq<char>| id != s.entity_id@ ==> #[trigger] pending_text(after.pending, id) == pending_text(m.pending, id),
{
    let id = s.entity_id@;
    let a = m.entities;
    let b = after.entities;
    lemma_index_of_id(a, id);
    match index_of_id(a, id) {
        Some(i) => {
            assert forall|k: int| 0 <= k < b.len() && k != i implies #[trigger] b[k].entity_id@ != id by {
                assert(b[k] == a[k]);
                assert(a[k].entity_id@ != a[i].entity_id@);
            }
            lemma_lookup_single(b, id, i);
            assert forall|other: Seq<char>| other != id implies #[trigger] lookup(b, other) == lookup(a, other) by {
                assert forall|k: int| 0 <= k < a.len() && (a[k].entity_id@ == other || b[k].entity_id@ == other) implies #[trigger] a[k] == b[k] by {
                    if k == i {
                        assert(b[i].entity_id@ == id);
                        assert(a[i].entity_id@ == id);
                    }
                }
                lemma_lookup_agree(a, b, other);
            }
        },
        None => {
            let n = a.len() as int;
            assert forall|k: int| 0 <= k < b.len() && k != n implies #[trigger] b[k].entity_id@ != id by {
                assert(b[k] == a[k]);
            }
            assert(b[n] == b.last());
            lemma_lookup_single(b, id, n);
            assert forall|other: Seq<char>| other != id implies #[trigger] lookup(b, other) == lookup(a, other) by {
                assert(b.drop_last() =~= a);
                assert(b.last().entity_id@ == id);
            }
        },
    }
    lemma_pending_without_clears(m.pending, id);
    assert forall|other: Seq<char>| other != id implies #[trigger] pending_text(after.pending, other) == pending_text(m.pending, other) by {
        lemma_pending_without_keeps(m.pending, id, other);
    }
}

/// A removed entity is gone afterwards, with its optimistic update; every
/// other entity and optimistic update is as it was.
pub proof fn lemma_removal_removes(m: AppModel, id: Seq<char>)
    requires
        m.wf(),
    ensures
        ({
            let after = (AppModel {
                entities: removed(m.entities, id),
                pending: pending_without(m.pending, id),
                ..m
            }).clamped();
            &&& lookup(after.entities, id) is None
            &&& pending_text(after.pending, id) is None
            &&& forall|other: Seq<char>| other != id ==> #[trigger] lookup(after.entities, other) == lookup(m.entities, other)
            &&& forall|other: Seq<char>| other != id ==> #[trigger] pending_text(after.pending, other) == pending_text(m.pending, other)
        }),
{
    let a = m.entities;
    let b = removed(a, id);
    lemma_index_of_id(a, id);
    match index_of_id(a, id) {
        Some(i) => {
            assert forall|k: int| 0 <= k < b.len() implies #[trigger] b[k].entity_id@ != id by {
                let k2 = if k < i { k } else { k + 1 };
                assert(b[k] == a[k2]);
                assert(a[k2].entity_id@ != a[i].entity_id@);
            }
            lemma_lookup_absent(b, id);
            assert forall|other: Seq<char>| other != id implies #[trigger] lookup(b, other) == lookup(a, other) by {
                lemma_lookup_remove_other(a, i, other);
            }
        },
        None => {},
    }
    lemma_pending_without_clears(m.pending, id);
    assert forall|other: Seq<char>| other != id implies #[trigger] pending_text(pending_without(m.pending, id), other) == pending_text(m.pending, other) by {
        lemma_pending_without_keeps(m.pending, id, other);
    }
}

/// Every list the state shows has a length that fits a `usize`, as the
/// lengths of real vectors do.
pub open spec fn lengths_fit(m: AppModel) -> bool {
    &&& m.tabs().len() <= usize::MAX
    &&& forall|t: int| 0 <= t < m.tabs().len() ==> (#[trigger] m.tabs()[t]).cards.len() <= usize::MAX
    &&& forall|t: int, c: int| 0 <= t < m.tabs().len() && 0 <= c < m.tabs()[t].cards.len()
        ==> (#[trigger] m.tabs()[t].cards[c]).entities.len() <= usize::MAX
    &&& m.filtered().len() <= usize::MAX
}

/// The selection is in bounds: the search row is one of the results (0
/// with none); otherwise the tab exists (0 with none), the card is one of
/// its cards (0 with none) and the row one of the card's rows (0 with none).
pub open spec fn selection_in_bounds(m: AppModel) -> bool {
    match m.filter {
        Some(f) => (m.filtered().len() == 0 && f.selected == 0) || f.selected < m.filtered().len(),
        None => {
            let tabs = m.tabs();
            if tabs.len() == 0 {
                m.group == 0 && m.card == 0 && m.row == 0
            } else {
                let cards = tabs[m.group as int].cards;
                &&& m.group < tabs.len()
                &&& if cards.len() == 0 {
                    m.card == 0 && m.row == 0
                } else {
                    let n = cards[m.card as int].entities.len();
                    &&& m.card < cards.len()
                    &&& (n == 0 && m.row == 0) || m.row < n
                }
            }
        },
    }
}

/// The smaller of two integers.
pub open spec fn min_int(a: int, b: int) -> int {
    if a <= b { a } else { b }
}

/// A clamp pulls the selection back into range and keeps it where it was
/// when it fits. While searching, the result index becomes the smaller of
/// itself and the last of the `n` matches (0 with none). Otherwise, with no
/// tabs, the selection goes to (0, 0, 0). With tabs, the tab index becomes the
/// smaller of itself and the last tab; the card index the smaller of itself
/// and that tab's last card (0 with none); the row the smaller of itself and
/// that card's last row (0 with none). Nothing else changes.
pub proof fn lemma_clamp_keeps_what_fits(m: AppModel)
    requires
        lengths_fit(m),
    ensures
        m.filter matches Some(f) ==> {
            let n = m.filtered().len() as int;
            &&& m.clamped().filter matches Some(g) && g.query == f.query && g.editing == f.editing
                && g.selected == (if n == 0 { 0 } else { min_int(f.selected as int, n - 1) })
            &&& m.clamped() == (AppModel { filter: m.clamped().filter, ..m })
        },
        m.filter is None ==> {
            let tabs = m.tabs();
            let c = m.clamped();
            &&& c == (AppModel { group: c.group, card: c.card, row: c.row, ..m })
            &&& tabs.len() == 0 ==> c.group == 0 && c.card == 0 && c.row == 0
            &&& tabs.len() > 0 ==> {
                let cards = tabs[c.group as int].cards;
                &&& c.group == min_int(m.group as int, tabs.len() - 1)
                &&& cards.len() == 0 ==> c.card == 0 && c.row == 0
                &&& cards.len() > 0 ==> {
                    let rows = cards[c.card as int].entities.len() as int;
                    &&& c.card == min_int(m.card as int, cards.len() - 1)
                    &&& c.row == (if rows == 0 { 0 } else { min_int(m.row as int, rows - 1) })
                }
            }
        },
{
}

/// The selection after a clamp is in bounds: the search row is one of the
/// results (0 with none); otherwise the tab exists (0 with none), the card
/// is one of its cards (0 with none) and the row one of the card's rows (0
/// with none). So whenever the card the selection is in has rows, a row is
/// selected. Clamping a second time changes nothing.
pub proof fn lemma_selection_in_bounds(m: AppModel)
    requires
        lengths_fit(m),
    ensures
        ({
            let c = m.clamped();
            &&& c.entities == m.entities
            &&& c.tabs() == m.tabs()
            &&& selection_in_bounds(c)
            &&& (c.position().0 < c.visible_cards().len() && c.visible_cards()[c.position().0 as int].entities.len() > 0)
                ==> c.selected() is Some
            &&& c.clamped() == c
        }),
{
    let c = m.clamped();
    lemma_tabs_follow_entities(m, c);
    assert(c.query() == m.query());
    assert(c.filtered() == m.filtered());
    let cc = c.clamped();
    lemma_tabs_follow_entities(c, cc);
    match m.filter {
        Some(f) => {
            assert(cc == c);
        },
        None => {
            let tabs = m.tabs();
            if tabs.len() > 0 {
                let g = c.group;
                assert(g < tabs.len());
                let cards = tabs[g as int].cards;
                if cards.len() > 0 {
                    assert(cards.len() <= usize::MAX);
                    assert(c.card < cards.len());
                    assert(cards[c.card as int].entities.len() <= usize::MAX);
                }
            }
            assert(cc == c);
        },
    }
}

proof fn lemma_pending_fresh_members(pend: Seq<(Seq<char>, Seq<char>, u64)>, now: u64)
    ensures
        forall|x: (Seq<char>, Seq<char>, u64)| #[trigger] pending_fresh(pend, now).contains(x)
            <==> pend.contains(x) && age(now, x.2) < PENDING_TIMEOUT_NS,
        pending_fresh(pending_fresh(pend, now), now) == pending_fresh(pend, now),
    decreases pend.len(),
{
    if pend.len() > 0 {
        let init = pend.drop_last();
        lemma_pending_fresh_members(init, now);
        let r = pending_fresh(init, now);
        assert(pend =~= init.push(pend.last()));
        if age(now, pend.last().2) < PENDING_TIMEOUT_NS {
            assert(r.push(pend.last()).drop_last() =~= r);
            assert forall|x: (Seq<char>, Seq<char>, u64)| #[trigger] pending_fresh(pend, now).contains(x)
                <==> pend.contains(x) && age(now, x.2) < PENDING_TIMEOUT_NS by {
                if pend.contains(x) && age(now, x.2) < PENDING_TIMEOUT_NS {
                    let k = choose|k: int| 0 <= k < pend.len() && pend[k] == x;
                    if k < init.len() {
                        assert(init[k] == x);
                        assert(init.contains(x));
                        assert(r.contains(x));
                        let j = choose|j: int| 0 <= j < r.len() && r[j] == x;
                        assert(r.push(pend.last())[j] == x);
                    } else {
                        assert(r.push(pend.last())[r.len() as int] == x);
                    }
                }
                if pending_fresh(pend, now).contains(x) {
                    let j = choose|j: int| 0 <= j < r.len() + 1 && r.push(pend.last())[j] == x;
                    if j < r.len() {
                        assert(r[j] == x);
                        assert(r.contains(x));
                        let k = choose|k: int| 0 <= k < init.len() && init[k] == x;
                        assert(pend[k] == x);
                    } else {
                        assert(pend[pend.len() - 1] == x);
                    }
                }
            }
        } else {
            assert forall|x: (Seq<char>, Seq<char>, u64)| #[trigger] pending_fresh(pend, now).contains(x)
                <==> pend.contains(x) && age(now, x.2) < PENDING_TIMEOUT_NS by {
                if pend.contains(x) && age(now, x.2) < PENDING_TIMEOUT_NS {
                    let k = choose|k: int| 0 <= k < pend.len() && pend[k] == x;
                    assert(k < init.len());
                    assert(init[k] == x);
                }
                if r.contains(x) {
                    let k = choose|k: int| 0 <= k < init.len() && init[k] == x;
                    assert(pend[k] == x);
                }
            }
        }
    }
}

proof fn lemma_flashes_fresh_members(flashes: Seq<(Seq<char>, u64)>, now: u64)
    ensures
        forall|x: (Seq<char>, u64)| #[trigger] flashes_fresh(flashes, now).contains(x)
            <==> flashes.contains(x) && age(now, x.1) < FLASH_DURATION_NS,
        flashes_fresh(flashes_fresh(flashes, now), now) == flashes_fresh(flashes, now),
    decreases flashes.len(),
{
    if flashes.len() > 0 {
        let init = flashes.drop_last();
        lemma_flashes_fresh_members(init, now);
        let r = flashes_fresh(init, now);
        assert(flashes =~= init.push(flashes.last()));
        if age(now, flashes.last().1) < FLASH_DURATION_NS {
            assert(r.push(flashes.last()).drop_last() =~= r);
            assert forall|x: (Seq<char>, u64)| #[trigger] flashes_fresh(flashes, now).contains(x)
                <==> flashes.contains(x) && age(now, x.1) < FLASH_DURATION_NS by {
                if flashes.contains(x) && age(now, x.1) < FLASH_DURATION_NS {
                    let k = choose|k: int| 0 <= k < flashes.len() && flashes[k] == x;
                    if k < init.len() {
                        assert(init[k] == x);
                        assert(init.contains(x));
                        assert(r.contains(x));
                        let j = choose|j: int| 0 <= j < r.len() && r[j] == x;
                        assert(r.push(flashes.last())[j] == x);
                    } else {
                        assert(r.push(flashes.last())[r.len() as int] == x);
                    }
                }
                if flashes_fresh(flashes, now).contains(x) {
                    let j = choose|j: int| 0 <= j < r.len() + 1 && r.push(flashes.last())[j] == x;
                    if j < r.len() {
                        assert(r[j] == x);
                        assert(r.contains(x));
                        let k = choose|k: int| 0 <= k < init.len() && init[k] == x;
                        assert(flashes[k] == x);
                    } else {
                        assert(flashes[flashes.len() - 1] == x);
                    }
                }
            }
        } else {
            assert forall|x: (Seq<char>, u64)| #[trigger] flashes_fresh(flashes, now).contains(x)
                <==> flashes.contains(x) && age(now, x.1) < FLASH_DURATION_NS by {
                if flashes.contains(x) && age(now, x.1) < FLASH_DURATION_NS {
                    let k = choose|k: int| 0 <= k < flashes.len() && flashes[k] == x;
                    assert(k < init.len());
                    assert(init[k] == x);
                }
                if r.contains(x) {
                    let k = choose|k: int| 0 <= k < init.len() && init[k] == x;
                    assert(flashes[k] == x);
                }
            }
        }
    }
}

/// Expiry at time `now` keeps exactly the optimistic updates and row
/// flashes that are still fresh, drops a status message that has outlived
/// its timeout, and touches nothing else; running it again at the same time
/// finds nothing more to clear.
pub proof fn lemma_expiry_keeps_exactly_the_fresh(m: AppModel, now: u64, after: AppModel, r: bool)
    requires
        m.expired(now, after, r),
    ensures
        forall|x: (Seq<char>, Seq<char>, u64)| #[trigger] after.pending.contains(x)
            <==> m.pending.contains(x) && age(now, x.2) < PENDING_TIMEOUT_NS,
        forall|x: (Seq<char>, u64)| #[trigger] after.flashes.contains(x)
            <==> m.flashes.contains(x) && age(now, x.1) < FLASH_DURATION_NS,
        after.status matches Some((_, at)) ==> age(now, at) < STATUS_TIMEOUT_NS,
        m.status matches Some((_, at)) && age(now, at) < STATUS_TIMEOUT_NS ==> after.status == m.status,
        after.entities == m.entities,
        forall|again: AppModel, r2: bool| #[trigger] after.expired(now, again, r2) ==> again == after && !r2,
{
    lemma_pending_fresh_members(m.pending, now);
    lemma_flashes_fresh_members(m.flashes, now);
}

proof fn lemma_lookup_has_id(ents: Seq<Entity>, id: Seq<char>)
    ensures
        lookup(ents, id) matches Some(e) ==> e.entity_id@ == id,
    decreases ents.len(),
{
    if ents.len() > 0 {
        lemma_lookup_has_id(ents.drop_last(), id);
    }
}

proof fn lemma_resolved_are_known(ents: Seq<Entity>, ids: Seq<Seq<char>>)
    ensures
        forall|k: int| 0 <= k < resolve_ids(ents, ids).len() ==> lookup(ents, (#[trigger] resolve_ids(ents, ids)[k]).entity_id@)
            == Some(resolve_ids(ents, ids)[k]),
    decreases ids.len(),
{
    if ids.len() > 0 {
        lemma_resolved_are_known(ents, ids.drop_last());
        lemma_lookup_has_id(ents, ids.last());
    }
}

/// Configured (or imported) dashboard tabs replace the automatic grouping:
/// there is one tab per configured tab, in the configured order and under
/// its configured name, and a card only shows entities HA currently knows
/// (configured ids it does not know are skipped), each as HA last reported it.
pub proof fn lemma_dashboard_tabs_as_configured(m: AppModel)
    requires
        m.dashboard.len() > 0,
    ensures
        m.tabs().len() == m.dashboard.len(),
        forall|t: int| 0 <= t < m.tabs().len() ==> (#[trigger] m.tabs()[t]).name == m.dashboard[t].name@,
        forall|t: int, c: int, k: int|
            0 <= t < m.tabs().len() && 0 <= c < m.tabs()[t].cards.len() && 0 <= k < m.tabs()[t].cards[c].entities.len()
            ==> lookup(m.entities, (#[trigger] m.tabs()[t].cards[c].entities[k]).entity_id@) == Some(m.tabs()[t].cards[c].entities[k]),
{
    assert forall|t: int, c: int, k: int|
        0 <= t < m.tabs().len() && 0 <= c < m.tabs()[t].cards.len() && 0 <= k < m.tabs()[t].cards[c].entities.len()
        implies lookup(m.entities, (#[trigger] m.tabs()[t].cards[c].entities[k]).entity_id@) == Some(m.tabs()[t].cards[c].entities[k]) by {
        let cv: CardView = m.dashboard[t].spec_resolved_cards()[c];
        lemma_resolved_are_known(m.entities, cv.entity_ids);
        assert(m.tabs()[t].cards[c].entities == resolve_ids(m.entities, cv.entity_ids));
    }
}

proof fn lemma_matching_members(ents: Seq<Entity>, q: Seq<char>)
    requires
        ents.len() <= usize::MAX,
    ensures
        forall|k: int| 0 <= k < matching(ents, q).len() ==> (#[trigger] matching(ents, q)[k]) < ents.len()
            && name_matches(ents[matching(ents, q)[k] as int], q),
        forall|i: int| 0 <= i < ents.len() && name_matches(ents[i], q) ==> #[trigger] matching(ents, q).contains(i as usize),
    decreases ents.len(),
{
    if ents.len() > 0 {
        let init = ents.drop_last();
        lemma_matching_members(init, q);
        let r = matching(init, q);
        let n = ents.len() - 1;
        assert forall|k: int| 0 <= k < matching(ents, q).len() implies (#[trigger] matching(ents, q)[k]) < ents.len()
            && name_matches(ents[matching(ents, q)[k] as int], q) by {
            if k < r.len() {
                assert(matching(ents, q)[k] == r[k]);
                assert(ents[r[k] as int] == init[r[k] as int]);
            }
        }
        assert forall|i: int| 0 <= i < ents.len() && name_matches(ents[i], q) implies #[trigger] matching(ents, q).contains(i as usize) by {
            if i < n {
                assert(init[i] == ents[i]);
                assert(r.contains(i as usize));
                let k = choose|k: int| 0 <= k < r.len() && r[k] == i as usize;
                assert(matching(ents, q)[k] == i as usize);
            } else {
                assert(ents.last() == ents[i]);
                assert(matching(ents, q)[r.len() as int] == i as usize);
            }
        }
    }
}

/// A search finds exactly the entities whose friendly name contains the
/// query (ignoring case), across every tab, and lists them by name, then
/// by id.
pub proof fn lemma_search_results(m: AppModel)
    requires
        m.entities.len() <= usize::MAX,
    ensures
        forall|k: int| 0 <= k < m.filtered().len() ==> name_matches(#[trigger] m.filtered()[k], m.query())
            && m.entities.contains(m.filtered()[k]),
        forall|i: int| 0 <= i < m.entities.len() && name_matches(#[trigger] m.entities[i], m.query())
            ==> m.filtered().contains(m.entities[i]),
        forall|a: int, b: int| 0 <= a < b < m.filtered().len()
            ==> !keys_lt(name_key(#[trigger] m.filtered()[b]), name_key(#[trigger] m.filtered()[a])),
{
    broadcast use vstd::seq_lib::group_to_multiset_ensures;
    let ents = m.entities;
    let q = m.query();
    let mt = matching(ents, q);
    let ks = name_keys(ents);
    let srt = sort_by_keys(mt, ks);
    lemma_matching_members(ents, q);
    lemma_sort_sorts(mt, ks);
    let f = m.filtered();
    assert(f == entities_at(ents, srt));
    assert forall|k: int| 0 <= k < srt.len() implies #[trigger] mt.contains(srt[k]) by {
        assert(srt.contains(srt[k]));
        assert(srt.to_multiset().count(srt[k]) > 0);
    }
    assert forall|k: int| 0 <= k < f.len() implies name_matches(#[trigger] f[k], q) && ents.contains(f[k]) by {
        assert(mt.contains(srt[k]));
        let j = choose|j: int| 0 <= j < mt.len() && mt[j] == srt[k];
        assert(mt[j] < ents.len());
        assert(f[k] == ents[srt[k] as int]);
    }
    assert forall|i: int| 0 <= i < ents.len() && name_matches(#[trigger] ents[i], q) implies f.contains(ents[i]) by {
        assert(mt.contains(i as usize));
        assert(mt.to_multiset().count(i as usize) > 0);
        assert(srt.contains(i as usize));
        let k = choose|k: int| 0 <= k < srt.len() && srt[k] == i as usize;
        assert(f[k] == ents[i]);
    }
    assert forall|a: int, b: int| 0 <= a < b < f.len()
        implies !keys_lt(name_key(#[trigger] f[b]), name_key(#[trigger] f[a])) by {
        assert(!keys_lt(ks[srt[b] as int], ks[srt[a] as int]));
        assert(mt.contains(srt[a]) && mt.contains(srt[b]));
        let ja = choose|j: int| 0 <= j < mt.len() && mt[j] == srt[a];
        let jb = choose|j: int| 0 <= j < mt.len() && mt[j] == srt[b];
        assert(srt[a] < ents.len() && srt[b] < ents.len());
        assert(ks[srt[a] as int] == name_key(ents[srt[a] as int]));
        assert(ks[srt[b] as int] == name_key(ents[srt[b] as int]));
    }
}

/// The groups' elements, group after group.
pub open spec fn concat(gs: Seq<Seq<usize>>) -> Seq<usize>
    decreases gs.len(),
{
    if gs.len() == 0 {
        Seq::empty()
    } else {
        concat(gs.drop_last()) + gs.last()
    }
}

proof fn lemma_runs_concat(s: Seq<usize>, labels: Seq<Seq<char>>)
    ensures
        concat(runs(s, labels)) == s,
        forall|k: int, m: int| 0 <= k < runs(s, labels).len() && 0 <= m < runs(s, labels)[k].len()
            ==> labels[(#[trigger] runs(s, labels)[k][m]) as int] == labels[runs(s, labels)[k][0] as int],
        forall|k: int| 0 <= k < runs(s, labels).len() ==> (#[trigger] runs(s, labels)[k]).len() > 0,
    decreases s.len(),
{
    if s.len() > 0 {
        let init = s.drop_last();
        let x = s.last();
        lemma_runs_concat(init, labels);
        let g = runs(init, labels);
        let r = runs(s, labels);
        if g.len() > 0 && g.last().len() > 0 && labels[g.last().last() as int] == labels[x as int] {
            let n = g.len() - 1;
            assert(r.drop_last() =~= g.drop_last());
            assert(r.last() == g.last().push(x));
            assert(concat(r) =~= concat(g.drop_last()) + g.last().push(x));
            assert(concat(g) == concat(g.drop_last()) + g.last());
            assert(s =~= init.push(x));
            assert forall|k: int, m: int| 0 <= k < r.len() && 0 <= m < r[k].len()
                implies labels[(#[trigger] r[k][m]) as int] == labels[r[k][0] as int] by {
                if k < n {
                    assert(r[k] == g[k]);
                } else if m < g[n].len() {
                    assert(r[k][m] == g[n][m]);
                    assert(r[k][0] == g[n][0]);
                } else {
                    assert(r[k][m] == x);
                    assert(r[k][0] == g[n][0]);
                    assert(g.last().last() == g[n][g[n].len() - 1]);
                }
            }
            assert forall|k: int| 0 <= k < r.len() implies (#[trigger] r[k]).len() > 0 by {
                if k < n {
                    assert(r[k] == g[k]);
                }
            }
        } else {
            assert(r.drop_last() =~= g);
            assert(concat(r) =~= concat(g) + seq![x]);
            assert(s =~= init.push(x));
            assert forall|k: int, m: int| 0 <= k < r.len() && 0 <= m < r[k].len()
                implies labels[(#[trigger] r[k][m]) as int] == labels[r[k][0] as int] by {
                if k < g.len() {
                    assert(r[k] == g[k]);
                }
            }
            assert forall|k: int| 0 <= k < r.len() implies (#[trigger] r[k]).len() > 0 by {
                if k < g.len() {
                    assert(r[k] == g[k]);
                }
            }
        }
    } else {
        assert(concat(runs(s, labels)) =~= s);
    }
}

proof fn lemma_concat_members(gs: Seq<Seq<usize>>, x: usize)
    ensures
        concat(gs).contains(x) ==> exists|k: int, m: int| 0 <= k < gs.len() && 0 <= m < gs[k].len() && #[trigger] gs[k][m] == x,
        forall|k: int, m: int| 0 <= k < gs.len() && 0 <= m < gs[k].len() ==> concat(gs).contains(#[trigger] gs[k][m]),
    decreases gs.len(),
{
    if gs.len() > 0 {
        let init = gs.drop_last();
        lemma_concat_members(init, x);
        let c = concat(gs);
        let ci = concat(init);
        assert(c == ci + gs.last());
        if c.contains(x) {
            let j = choose|j: int| 0 <= j < c.len() && c[j] == x;
            if j < ci.len() {
                assert(ci[j] == x);
                assert(ci.contains(x));
                let (k, m) = choose|k: int, m: int| 0 <= k < init.len() && 0 <= m < init[k].len() && #[trigger] init[k][m] == x;
                assert(gs[k][m] == x);
            } else {
                assert(gs[gs.len() - 1][j - ci.len()] == x);
            }
        }
        assert forall|k: int, m: int| 0 <= k < gs.len() && 0 <= m < gs[k].len() implies c.contains(#[trigger] gs[k][m]) by {
            if k < init.len() {
                lemma_concat_members(init, gs[k][m]);
                assert(init[k][m] == gs[k][m]);
                assert(ci.contains(gs[k][m]));
                let j = choose|j: int| 0 <= j < ci.len() && ci[j] == gs[k][m];
                assert(c[j] == gs[k][m]);
            } else {
                assert(c[ci.len() + m] == gs[k][m]);
            }
        }
    }
}

/// The automatic grouping puts every entity on a card: each tab is one
/// room (its registry area's name, else its domain), each card within it
/// one domain, titled with the domain titleized; so every entity of a card
/// belongs to the tab's room and to the card's domain.
pub proof fn lemma_auto_grouping(m: AppModel)
    requires
        m.entities.len() <= usize::MAX,
    ensures
        forall|i: int| #![trigger m.entities[i]] 0 <= i < m.entities.len() ==> exists|t: int, c: int, k: int|
            0 <= t < m.auto_tabs().len() && 0 <= c < m.auto_tabs()[t].cards.len()
            && 0 <= k < m.auto_tabs()[t].cards[c].entities.len()
            && #[trigger] m.auto_tabs()[t].cards[c].entities[k] == m.entities[i],
        forall|t: int, c: int, k: int|
            0 <= t < m.auto_tabs().len() && 0 <= c < m.auto_tabs()[t].cards.len()
            && 0 <= k < m.auto_tabs()[t].cards[c].entities.len() ==> {
                let e = #[trigger] m.auto_tabs()[t].cards[c].entities[k];
                &&& m.entities.contains(e)
                &&& room_of(m.registry, e) == m.auto_tabs()[t].name
                &&& m.auto_tabs()[t].cards[c].title == Some(spec_titleize(e.domain@))
            },
{
    broadcast use vstd::seq_lib::group_to_multiset_ensures;
    let ents = m.entities;
    let n = ents.len();
    let all = all_indices(n);
    let srt = sort_by_keys(all, m.group_keys());
    let rl = m.room_labels();
    let dl = m.domain_labels();
    let gs = runs(srt, rl);
    lemma_sort_sorts(all, m.group_keys());
    lemma_runs_concat(srt, rl);
    let tabs = m.auto_tabs();
    assert(tabs.len() == gs.len());
    assert forall|x: usize| #[trigger] srt.contains(x) implies x < n by {
        assert(srt.to_multiset().count(x) > 0);
        assert(all.contains(x));
        let j = choose|j: int| 0 <= j < all.len() && all[j] == x;
    }
    assert forall|i: int| #![trigger ents[i]] 0 <= i < n implies exists|t: int, c: int, k: int|
        0 <= t < tabs.len() && 0 <= c < tabs[t].cards.len() && 0 <= k < tabs[t].cards[c].entities.len()
        && #[trigger] tabs[t].cards[c].entities[k] == ents[i] by {
        assert(all[i] == i as usize);
        assert(all.contains(i as usize));
        assert(srt.to_multiset().count(i as usize) > 0);
        assert(srt.contains(i as usize));
        lemma_concat_members(gs, i as usize);
        let (t, j) = choose|t: int, j: int| 0 <= t < gs.len() && 0 <= j < gs[t].len() && #[trigger] gs[t][j] == i as usize;
        let g = gs[t];
        lemma_runs_concat(g, dl);
        let cs = runs(g, dl);
        assert(g.contains(i as usize)) by {
            assert(g[j] == i as usize);
        }
        lemma_concat_members(cs, i as usize);
        let (c, k) = choose|c: int, k: int| 0 <= c < cs.len() && 0 <= k < cs[c].len() && #[trigger] cs[c][k] == i as usize;
        assert(tabs[t].cards[c].entities[k] == ents[i]);
    }
    assert forall|t: int, c: int, k: int|
        0 <= t < tabs.len() && 0 <= c < tabs[t].cards.len() && 0 <= k < tabs[t].cards[c].entities.len() implies {
            let e = #[trigger] tabs[t].cards[c].entities[k];
            &&& ents.contains(e)
            &&& room_of(m.registry, e) == tabs[t].name
            &&& tabs[t].cards[c].title == Some(spec_titleize(e.domain@))
        } by {
        let g = gs[t];
        lemma_runs_concat(g, dl);
        let cs = runs(g, dl);
        let idx = cs[c][k];
        lemma_concat_members(cs, idx);
        assert(g.contains(idx));
        let j = choose|j: int| 0 <= j < g.len() && g[j] == idx;
        lemma_concat_members(gs, idx);
        assert(srt.contains(idx));
        assert(idx < n);
        assert(tabs[t].cards[c].entities[k] == ents[idx as int]);
        assert(ents.contains(ents[idx as int]));
        assert(rl[idx as int] == rl[g[0] as int]);
        assert(dl[idx as int] == dl[cs[c][0] as int]);
        assert(g.contains(g[0]));
        lemma_concat_members(gs, g[0]);
        assert(srt.contains(g[0]));
        lemma_concat_members(cs, cs[c][0]);
        assert(g.contains(cs[c][0]));
        let j0 = choose|j0: int| 0 <= j0 < g.len() && g[j0] == cs[c][0];
        lemma_concat_members(gs, cs[c][0]);
        assert(srt.contains(cs[c][0]));
    }
}

/// Navigation never leaves the grid: from a selection in bounds, moving
/// up, down, left or right, selecting a (panel, row) directly, switching to
/// a tab or stepping through the tabs keeps it in bounds.
pub proof fn lemma_navigation_stays_in_bounds(m: AppModel, columns: usize, card: usize, row: usize, index: usize, now: u64)
    requires
        lengths_fit(m),
        selection_in_bounds(m),
        m.card + columns <= usize::MAX,
        m.row < usize::MAX,
        m.filter matches Some(f) ==> f.selected < usize::MAX,
    ensures
        selection_in_bounds(m.moved_up(columns)),
        selection_in_bounds(m.moved_down(columns)),
        selection_in_bounds(m.moved_left(columns)),
        selection_in_bounds(m.moved_right(columns)),
        selection_in_bounds(m.selected_at(card, row)),
        selection_in_bounds(m.tab_switched(index, now)),
        selection_in_bounds(m.tab_stepped(true, now)),
        selection_in_bounds(m.tab_stepped(false, now)),
{
    let tabs = m.tabs();
    let up = m.moved_up(columns);
    let down = m.moved_down(columns);
    let left = m.moved_left(columns);
    let right = m.moved_right(columns);
    let at = m.selected_at(card, row);
    let sw = m.tab_switched(index, now);
    let fw = m.tab_stepped(true, now);
    let bw = m.tab_stepped(false, now);
    lemma_tabs_follow_entities(m, up);
    lemma_tabs_follow_entities(m, down);
    lemma_tabs_follow_entities(m, left);
    lemma_tabs_follow_entities(m, right);
    lemma_tabs_follow_entities(m, at);
    lemma_tabs_follow_entities(m, sw);
    lemma_tabs_follow_entities(m, fw);
    lemma_tabs_follow_entities(m, bw);
    assert(up.query() == m.query() && down.query() == m.query() && at.query() == m.query());
    assert(up.filtered() == m.filtered());
    assert(down.filtered() == m.filtered());
    assert(at.filtered() == m.filtered());
    if m.filter is None && tabs.len() > 0 {
        let g = m.group as int;
        assert(m.tab_cards() == tabs[g].cards);
        let cards = tabs[g].cards;
        assert(cards.len() <= usize::MAX);
        assert forall|c: int| 0 <= c < cards.len() implies (#[trigger] cards[c]).entities.len() <= usize::MAX by {
            assert(tabs[g].cards[c] == cards[c]);
        }
        if tabs.len() > 1 {
            let n = tabs.len() as int;
            assert(0 <= (m.group + 1) % n < n) by (nonlinear_arith)
                requires
                    n > 1,
            ;
            assert(0 <= (m.group + n - 1) % n < n) by (nonlinear_arith)
                requires
                    n > 1,
                    m.group >= 0,
            ;
        }
        if columns > 1 && cards.len() > 0 {
            assert(m.card % columns <= m.card) by (nonlinear_arith)
                requires
                    columns > 1,
            ;
        }
    }
}

/// Search edits keep the selection in bounds: opening the search, typing
/// or deleting a character puts it on the first result, confirming keeps it.
pub proof fn lemma_search_edits_stay_in_bounds(m: AppModel, c: char)
    requires
        selection_in_bounds(m),
    ensures
        selection_in_bounds(m.filter_started()),
        selection_in_bounds(m.char_pushed(c)),
        selection_in_bounds(m.backspaced()),
        selection_in_bounds(m.filter_confirmed()),
{
    lemma_tabs_follow_entities(m, m.char_pushed(c));
    lemma_tabs_follow_entities(m, m.backspaced());
    lemma_tabs_follow_entities(m, m.filter_confirmed());
    assert(m.filter_confirmed().query() == m.query());
    assert(m.filter_confirmed().filtered() == m.filtered());
}

/// The labels along `s` never decrease.
pub open spec fn labels_ascending(s: Seq<usize>, labels: Seq<Seq<char>>) -> bool {
    forall|i: int, j: int| 0 <= i < j < s.len() ==> labels[s[i] as int] == labels[s[j] as int]
        || chars_lt(#[trigger] labels[s[i] as int], #[trigger] labels[s[j] as int])
}

proof fn lemma_concat_last(gs: Seq<Seq<usize>>)
    requires
        gs.len() > 0,
        gs.last().len() > 0,
    ensures
        concat(gs).len() > 0,
        concat(gs).last() == gs.last().last(),
{
}

/// Over labels that never decrease, the runs' labels strictly increase.
proof fn lemma_runs_labels_increase(s: Seq<usize>, labels: Seq<Seq<char>>)
    requires
        labels_ascending(s, labels),
    ensures
        forall|t: int, u: int| 0 <= t < u < runs(s, labels).len()
            ==> chars_lt(#[trigger] labels[runs(s, labels)[t][0] as int], #[trigger] labels[runs(s, labels)[u][0] as int]),
    decreases s.len(),
{
    if s.len() > 0 {
        let init = s.drop_last();
        let x = s.last();
        assert forall|i: int, j: int| 0 <= i < j < init.len() implies labels[init[i] as int] == labels[init[j] as int]
            || chars_lt(#[trigger] labels[init[i] as int], #[trigger] labels[init[j] as int]) by {
            assert(init[i] == s[i] && init[j] == s[j]);
        }
        lemma_runs_labels_increase(init, labels);
        lemma_runs_concat(init, labels);
        let g = runs(init, labels);
        let r = runs(s, labels);
        if g.len() > 0 && g.last().len() > 0 && labels[g.last().last() as int] == labels[x as int] {
            assert forall|t: int| 0 <= t < r.len() implies (#[trigger] r[t])[0] == g[t][0] by {
                if t == g.len() - 1 {
                    assert(r[t] == g[t].push(x));
                }
            }
            assert forall|t: int, u: int| 0 <= t < u < r.len()
                implies chars_lt(#[trigger] labels[r[t][0] as int], #[trigger] labels[r[u][0] as int]) by {
                assert(r[t][0] == g[t][0] && r[u][0] == g[u][0]);
            }
        } else {
            assert(r == g.push(seq![x]));
            if g.len() > 0 {
                let lastg = g.last();
                assert(lastg.len() > 0);
                lemma_concat_last(g);
                assert(concat(g) == init);
                let y = lastg.last();
                assert(init.last() == y);
                assert(s[s.len() - 2] == y && s[s.len() - 1] == x);
                assert(labels[y as int] != labels[x as int]);
                assert(chars_lt(labels[y as int], labels[x as int]));
                assert(labels[lastg[lastg.len() - 1] as int] == labels[lastg[0] as int]);
                assert forall|t: int, u: int| 0 <= t < u < r.len()
                    implies chars_lt(#[trigger] labels[r[t][0] as int], #[trigger] labels[r[u][0] as int]) by {
                    if u < g.len() {
                        assert(r[t] == g[t] && r[u] == g[u]);
                    } else {
                        assert(r[u][0] == x);
                        assert(r[t] == g[t]);
                        if t < g.len() - 1 {
                            assert(chars_lt(labels[g[t][0] as int], labels[g[g.len() - 1][0] as int]));
                            lemma_chars_lt_transitive(labels[g[t][0] as int], labels[y as int], labels[x as int]);
                        }
                    }
                }
            }
        }
    }
}

/// Each run of a key-sorted sequence is key-sorted.
proof fn lemma_runs_sorted(s: Seq<usize>, labels: Seq<Seq<char>>, ks: Seq<Seq<Seq<char>>>)
    requires
        sorted_by(s, ks),
    ensures
        forall|t: int| 0 <= t < runs(s, labels).len() ==> sorted_by(#[trigger] runs(s, labels)[t], ks),
    decreases s.len(),
{
    if s.len() > 0 {
        let init = s.drop_last();
        let x = s.last();
        assert forall|i: int, j: int| 0 <= i < j < init.len() implies !keys_lt(#[trigger] ks[init[j] as int], #[trigger] ks[init[i] as int]) by {
            assert(init[i] == s[i] && init[j] == s[j]);
        }
        lemma_runs_sorted(init, labels, ks);
        lemma_runs_concat(init, labels);
        let g = runs(init, labels);
        let r = runs(s, labels);
        if g.len() > 0 && g.last().len() > 0 && labels[g.last().last() as int] == labels[x as int] {
            let n = g.len() - 1;
            let nl = g[n].push(x);
            assert(r[n] == nl);
            assert forall|i: int, j: int| 0 <= i < j < nl.len() implies !keys_lt(#[trigger] ks[nl[j] as int], #[trigger] ks[nl[i] as int]) by {
                if j < g[n].len() {
                    assert(nl[i] == g[n][i] && nl[j] == g[n][j]);
                } else {
                    assert(nl[j] == x);
                    assert(nl[i] == g[n][i]);
                    lemma_concat_members(g, g[n][i]);
                    assert(init.contains(g[n][i]));
                    let p = choose|p: int| 0 <= p < init.len() && init[p] == g[n][i];
                    assert(s[p] == g[n][i] && s[s.len() - 1] == x);
                }
            }
            assert forall|t: int| 0 <= t < r.len() implies sorted_by(#[trigger] r[t], ks) by {
                if t < n {
                    assert(r[t] == g[t]);
                }
            }
        } else {
            assert forall|t: int| 0 <= t < r.len() implies sorted_by(#[trigger] r[t], ks) by {
                if t < g.len() {
                    assert(r[t] == g[t]);
                }
            }
        }
    }
}

proof fn lemma_group_key_order(a: Seq<Seq<char>>, b: Seq<Seq<char>>)
    requires
        a.len() == 4,
        b.len() == 4,
    ensures
        a[0] != b[0] ==> (keys_lt(a, b) == chars_lt(a[0], b[0])),
        a[0] == b[0] && a[1] != b[1] ==> (keys_lt(a, b) == chars_lt(a[1], b[1])),
        a[0] == b[0] && a[1] == b[1] ==> (keys_lt(a, b) == keys_lt(a.skip(2), b.skip(2))),
{
    if a[0] == b[0] {
        let a1 = a.drop_first();
        let b1 = b.drop_first();
        assert(a1[0] == a[1] && b1[0] == b[1]);
        assert(keys_lt(a, b) == keys_lt(a1, b1));
        assert(a1.len() == 3 && b1.len() == 3);
        assert(keys_lt(a1, b1) == (if a1[0] != b1[0] { chars_lt(a1[0], b1[0]) } else { keys_lt(a1.drop_first(), b1.drop_first()) }));
        if a[1] == b[1] {
            assert(a1.drop_first() =~= a.skip(2));
            assert(b1.drop_first() =~= b.skip(2));
        }
    }
}

/// The automatic grouping's order: tabs by room name and, within a tab,
/// cards by domain, both strictly alphabetical; a card's rows by name, then
/// by id.
pub proof fn lemma_auto_grouping_order(m: AppModel)
    requires
        m.entities.len() <= usize::MAX,
    ensures
        forall|t: int, u: int| 0 <= t < u < m.auto_tabs().len()
            ==> chars_lt(#[trigger] m.auto_tabs()[t].name, #[trigger] m.auto_tabs()[u].name),
        forall|t: int, c: int, d: int| 0 <= t < m.auto_tabs().len() && 0 <= c < d < m.auto_tabs()[t].cards.len()
            ==> chars_lt(#[trigger] m.auto_tabs()[t].cards[c].entities[0].domain@, #[trigger] m.auto_tabs()[t].cards[d].entities[0].domain@),
        forall|t: int, c: int, k: int, q: int|
            0 <= t < m.auto_tabs().len() && 0 <= c < m.auto_tabs()[t].cards.len()
            && 0 <= k < q < m.auto_tabs()[t].cards[c].entities.len()
            ==> !keys_lt(name_key(#[trigger] m.auto_tabs()[t].cards[c].entities[q]), name_key(#[trigger] m.auto_tabs()[t].cards[c].entities[k])),
{
    broadcast use vstd::seq_lib::group_to_multiset_ensures;
    let ents = m.entities;
    let n = ents.len();
    let all = all_indices(n);
    let gk = m.group_keys();
    let srt = sort_by_keys(all, gk);
    let rl = m.room_labels();
    let dl = m.domain_labels();
    let gs = runs(srt, rl);
    lemma_sort_sorts(all, gk);
    lemma_runs_concat(srt, rl);
    let tabs = m.auto_tabs();
    assert forall|x: usize| #[trigger] srt.contains(x) implies x < n by {
        assert(srt.to_multiset().count(x) > 0);
        assert(all.contains(x));
        let j = choose|j: int| 0 <= j < all.len() && all[j] == x;
    }
    // Rooms never decrease along the sorted indices.
    assert forall|i: int, j: int| 0 <= i < j < srt.len() implies rl[srt[i] as int] == rl[srt[j] as int]
        || chars_lt(#[trigger] rl[srt[i] as int], #[trigger] rl[srt[j] as int]) by {
        assert(srt.contains(srt[i]) && srt.contains(srt[j]));
        let a = gk[srt[i] as int];
        let b = gk[srt[j] as int];
        assert(!keys_lt(b, a));
        lemma_group_key_order(b, a);
        lemma_chars_lt_total(a[0], b[0]);
    }
    lemma_runs_labels_increase(srt, rl);
    lemma_runs_sorted(srt, rl, gk);
    assert forall|t: int, u: int| 0 <= t < u < tabs.len()
        implies chars_lt(#[trigger] tabs[t].name, #[trigger] tabs[u].name) by {
        assert(tabs[t].name == rl[gs[t][0] as int]);
        assert(tabs[u].name == rl[gs[u][0] as int]);
    }
    assert forall|t: int, c: int, d: int| 0 <= t < tabs.len() && 0 <= c < d < tabs[t].cards.len()
        implies chars_lt(#[trigger] tabs[t].cards[c].entities[0].domain@, #[trigger] tabs[t].cards[d].entities[0].domain@) by {
        let g = gs[t];
        lemma_runs_concat(g, dl);
        let cs = runs(g, dl);
        assert forall|k: int| 0 <= k < g.len() implies #[trigger] g[k] < n by {
            lemma_concat_members(gs, g[k]);
            assert(srt.contains(g[k]));
        }
        assert forall|i: int, j: int| 0 <= i < j < g.len() implies dl[g[i] as int] == dl[g[j] as int]
            || chars_lt(#[trigger] dl[g[i] as int], #[trigger] dl[g[j] as int]) by {
            let a = gk[g[i] as int];
            let b = gk[g[j] as int];
            assert(sorted_by(g, gk));
            assert(!keys_lt(b, a));
            assert(rl[g[i] as int] == rl[g[0] as int] && rl[g[j] as int] == rl[g[0] as int]);
            assert(a[0] == rl[g[i] as int] && b[0] == rl[g[j] as int]);
            assert(a[1] == dl[g[i] as int] && b[1] == dl[g[j] as int]);
            lemma_group_key_order(b, a);
            lemma_chars_lt_total(a[1], b[1]);
        }
        lemma_runs_labels_increase(g, dl);
        assert(cs[c].len() > 0 && cs[d].len() > 0);
        lemma_concat_members(cs, cs[c][0]);
        lemma_concat_members(cs, cs[d][0]);
        assert(g.contains(cs[c][0]) && g.contains(cs[d][0]));
        let pc = choose|p: int| 0 <= p < g.len() && g[p] == cs[c][0];
        let pd = choose|p: int| 0 <= p < g.len() && g[p] == cs[d][0];
        assert(cs[c][0] < n && cs[d][0] < n);
        assert(tabs[t].cards[c].entities[0] == ents[cs[c][0] as int]);
        assert(tabs[t].cards[d].entities[0] == ents[cs[d][0] as int]);
    }
    assert forall|t: int, c: int, k: int, q: int|
        0 <= t < tabs.len() && 0 <= c < tabs[t].cards.len() && 0 <= k < q < tabs[t].cards[c].entities.len()
        implies !keys_lt(name_key(#[trigger] tabs[t].cards[c].entities[q]), name_key(#[trigger] tabs[t].cards[c].entities[k])) by {
        let g = gs[t];
        lemma_runs_concat(g, dl);
        lemma_runs_sorted(g, dl, gk);
        let cs = runs(g, dl);
        let card = cs[c];
        assert(sorted_by(g, gk));
        assert(sorted_by(card, gk));
        let ik = card[k];
        let iq = card[q];
        lemma_concat_members(cs, ik);
        lemma_concat_members(cs, iq);
        assert(g.contains(ik) && g.contains(iq));
        let pk = choose|p: int| 0 <= p < g.len() && g[p] == ik;
        let pq = choose|p: int| 0 <= p < g.len() && g[p] == iq;
        lemma_concat_members(gs, ik);
        lemma_concat_members(gs, iq);
        assert(srt.contains(ik) && srt.contains(iq));
        assert(ik < n && iq < n);
        let a = gk[ik as int];
        let b = gk[iq as int];
        assert(!keys_lt(b, a));
        assert(rl[ik as int] == rl[g[0] as int] && rl[iq as int] == rl[g[0] as int]);
        assert(dl[ik as int] == dl[card[0] as int] && dl[iq as int] == dl[card[0] as int]);
        lemma_group_key_order(b, a);
        assert(a.skip(2) =~= name_key(ents[ik as int]));
        assert(b.skip(2) =~= name_key(ents[iq as int]));
        assert(tabs[t].cards[c].entities[k] == ents[ik as int]);
        assert(tabs[t].cards[c].entities[q] == ents[iq as int]);
    }
}


/// How many rows the cards show, all cards together.
pub open spec fn rows_in_cards(cards: Seq<CardModel>) -> nat
    decreases cards.len(),
{
    if cards.len() == 0 {
        0
    } else {
        rows_in_cards(cards.drop_last()) + cards.last().entities.len()
    }
}

/// How many rows the tabs show, all tabs together.
pub open spec fn rows_in_tabs(tabs: Seq<TabModel>) -> nat
    decreases tabs.len(),
{
    if tabs.len() == 0 {
        0
    } else {
        rows_in_tabs(tabs.drop_last()) + rows_in_cards(tabs.last().cards)
    }
}

proof fn lemma_cards_count_groups(cards: Seq<CardModel>, gs: Seq<Seq<usize>>)
    requires
        cards.len() == gs.len(),
        forall|k: int| 0 <= k < gs.len() ==> (#[trigger] cards[k]).entities.len() == gs[k].len(),
    ensures
        rows_in_cards(cards) == concat(gs).len(),
    decreases gs.len(),
{
    if gs.len() > 0 {
        let k = gs.len() - 1;
        assert(cards[k].entities.len() == gs[k].len());
        lemma_cards_count_groups(cards.drop_last(), gs.drop_last());
    }
}

proof fn lemma_tabs_count_groups(tabs: Seq<TabModel>, gs: Seq<Seq<usize>>)
    requires
        tabs.len() == gs.len(),
        forall|k: int| 0 <= k < gs.len() ==> rows_in_cards((#[trigger] tabs[k]).cards) == gs[k].len(),
    ensures
        rows_in_tabs(tabs) == concat(gs).len(),
    decreases gs.len(),
{
    if gs.len() > 0 {
        let k = gs.len() - 1;
        assert(rows_in_cards(tabs[k].cards) == gs[k].len());
        lemma_tabs_count_groups(tabs.drop_last(), gs.drop_last());
    }
}

/// The automatic grouping shows as many rows as there are entities: with
/// every entity on some card, no entity is shown twice.
pub proof fn lemma_auto_grouping_counts(m: AppModel)
    ensures
        rows_in_tabs(m.auto_tabs()) == m.entities.len(),
{
    broadcast use vstd::seq_lib::group_to_multiset_ensures;
    let n = m.entities.len();
    let all = all_indices(n);
    let srt = sort_by_keys(all, m.group_keys());
    let rl = m.room_labels();
    let dl = m.domain_labels();
    let gs = runs(srt, rl);
    lemma_sort_sorts(all, m.group_keys());
    lemma_runs_concat(srt, rl);
    assert(srt.len() == srt.to_multiset().len());
    assert(all.len() == all.to_multiset().len());
    let tabs = m.auto_tabs();
    assert forall|k: int| 0 <= k < gs.len() implies rows_in_cards((#[trigger] tabs[k]).cards) == gs[k].len() by {
        let g = gs[k];
        let cs = runs(g, dl);
        lemma_runs_concat(g, dl);
        let cards = tabs[k].cards;
        assert(cards.len() == cs.len());
        assert forall|j: int| 0 <= j < cs.len() implies (#[trigger] cards[j]).entities.len() == cs[j].len() by {
            assert(cards[j].entities == entities_at(m.entities, cs[j]));
        }
        lemma_cards_count_groups(cards, cs);
    }
    lemma_tabs_count_groups(tabs, gs);
}

/// `+`/`-` on a selected light sends `light.turn_on` with the brightness
/// moved 25 steps (of 255) up or down from its current brightness (0 when it
/// reports none), kept within 0..=255: when the step stays in range the value
/// sent differs from the current one by exactly 25 per unit of `direction`.
/// The new brightness shows at once as `on (brightness N/255)` and the status
/// line reads `setting <id> brightness to N...`.
pub proof fn lemma_brightness_steps_by_25(m: AppModel, direction: i64, now: u64, after: AppModel, r: Option<Adjustment>)
    requires
        m.adjusted(direction, now, after, r),
        m.selected() matches Some(e) && e.domain@ == "light"@,
    ensures
        ({
            let e = m.selected().unwrap();
            let b: int = match e.spec_brightness() {
                Some(b) => b as int,
                None => 0,
            };
            let want: int = b + 25 * direction;
            let sent: int = if want < 0 { 0 } else if want > 255 { 255 } else { want };
            &&& 0 <= sent <= 255
            &&& 0 <= want <= 255 ==> sent - b == 25 * direction
            &&& want < 0 ==> sent == 0
            &&& want > 255 ==> sent == 255
            &&& r matches Some(Adjustment::Light(c)) && is_call(c, "light"@, "turn_on"@, e.entity_id@)
                && (call_data(c) matches Some(d) && is_brightness_data(d, sent as u64))
            &&& after == m.with_pending(e.entity_id@, "on (brightness "@ + decimal(sent as nat) + "/255)"@, now).with_status(
                "setting "@ + e.entity_id@ + " brightness to "@ + decimal(sent as nat) + "..."@,
                now,
            )
        }),
{
}

/// While searching, Up moves to the previous result (staying on the first),
/// changing nothing else; Down then Up from any result but the last, and Up
/// then Down from any result but the first, come back to the same result.
pub proof fn lemma_search_steps_up_and_down(m: AppModel, columns: usize)
    requires
        m.filter is Some,
        m.filtered().len() <= usize::MAX,
    ensures
        ({
            let f = m.filter.unwrap();
            let n = m.filtered().len();
            &&& f.selected > 0 ==> m.moved_up(columns) == (AppModel {
                filter: Some(FilterModel { query: f.query, editing: f.editing, selected: (f.selected - 1) as usize }),
                ..m
            })
            &&& f.selected == 0 ==> m.moved_up(columns) == m
            &&& f.selected + 1 < n ==> m.moved_down(columns).moved_up(columns) == m
            &&& 0 < f.selected < n ==> m.moved_up(columns).moved_down(columns) == m
        }),
{
    let f = m.filter.unwrap();
    let n = m.filtered().len();
    let down = m.moved_down(columns);
    let up = m.moved_up(columns);
    assert(down.query() == m.query() && down.entities == m.entities);
    assert(down.filtered() == m.filtered());
    assert(up.query() == m.query() && up.entities == m.entities);
    assert(up.filtered() == m.filtered());
    if f.selected + 1 < n {
        assert(down.filter.unwrap().selected == f.selected + 1);
        assert(down.moved_up(columns) =~= m);
    }
    if 0 < f.selected < n {
        assert(up.moved_down(columns) =~= m);
    }
}

proof fn lemma_resolved_complete(ents: Seq<Entity>, ids: Seq<Seq<char>>)
    ensures
        forall|k: int| 0 <= k < ids.len() && (lookup(ents, #[trigger] ids[k]) is Some)
            ==> resolve_ids(ents, ids).contains(lookup(ents, ids[k]).unwrap()),
    decreases ids.len(),
{
    if ids.len() > 0 {
        let init = ids.drop_last();
        lemma_resolved_complete(ents, init);
        let r0 = resolve_ids(ents, init);
        let r = resolve_ids(ents, ids);
        assert forall|k: int| 0 <= k < ids.len() && (lookup(ents, #[trigger] ids[k]) is Some)
            implies r.contains(lookup(ents, ids[k]).unwrap()) by {
            if k < ids.len() - 1 {
                assert(init[k] == ids[k]);
                let e = lookup(ents, ids[k]).unwrap();
                assert(r0.contains(e));
                let j = choose|j: int| 0 <= j < r0.len() && r0[j] == e;
                assert(r[j] == e);
            } else {
                assert(r[r.len() - 1] == lookup(ents, ids[k]).unwrap());
            }
        }
    }
}

/// A configured (or imported) dashboard card shows every entity it lists
/// that HA knows, and only those: an unknown id is skipped without hiding
/// the known ids listed after it.
pub proof fn lemma_dashboard_cards_show_every_known_id(m: AppModel)
    requires
        m.dashboard.len() > 0,
    ensures
        forall|t: int, c: int, k: int|
            0 <= t < m.dashboard.len() && 0 <= c < m.dashboard[t].spec_resolved_cards().len()
            && 0 <= k < m.dashboard[t].spec_resolved_cards()[c].entity_ids.len()
            && (lookup(m.entities, #[trigger] m.dashboard[t].spec_resolved_cards()[c].entity_ids[k]) is Some)
            ==> m.tabs()[t].cards[c].entities.contains(lookup(m.entities, m.dashboard[t].spec_resolved_cards()[c].entity_ids[k]).unwrap()),
        forall|t: int, c: int, k: int|
            0 <= t < m.tabs().len() && 0 <= c < m.tabs()[t].cards.len() && 0 <= k < m.tabs()[t].cards[c].entities.len()
            ==> lookup(m.entities, (#[trigger] m.tabs()[t].cards[c].entities[k]).entity_id@) == Some(m.tabs()[t].cards[c].entities[k]),
{
    lemma_dashboard_tabs_as_configured(m);
    assert forall|t: int, c: int, k: int|
        0 <= t < m.dashboard.len() && 0 <= c < m.dashboard[t].spec_resolved_cards().len()
        && 0 <= k < m.dashboard[t].spec_resolved_cards()[c].entity_ids.len()
        && (lookup(m.entities, #[trigger] m.dashboard[t].spec_resolved_cards()[c].entity_ids[k]) is Some)
        implies m.tabs()[t].cards[c].entities.contains(lookup(m.entities, m.dashboard[t].spec_resolved_cards()[c].entity_ids[k]).unwrap()) by {
        let cv: CardView = m.dashboard[t].spec_resolved_cards()[c];
        lemma_resolved_complete(m.entities, cv.entity_ids);
        assert(m.tabs()[t].cards[c].entities == resolve_ids(m.entities, cv.entity_ids));
    }
}

} // verus!
