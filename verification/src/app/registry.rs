//! The area, device and entity registries fetched at startup, reduced to
//! what grouping needs: which room each entity sits in.
use vstd::prelude::*;
use crate::ha::protocol::{AreaEntry, DeviceEntry, EntityRegistryEntry};
use crate::text::str_eq;

verus! {

/// The area of the last device listed with id `id` that has an area
/// (a later listing of the same id replaces an earlier one).
pub open spec fn device_area(devices: Seq<DeviceEntry>, id: Seq<char>) -> Option<Seq<char>>
    decreases devices.len(),
{
    if devices.len() == 0 {
        None
    } else {
        let d = devices.last();
        if d.id@ == id && d.area_id is Some {
            Some(d.area_id.unwrap()@)
        } else {
            device_area(devices.drop_last(), id)
        }
    }
}

/// An entity's own area if it has one, else its device's area.
pub open spec fn resolved_area(e: EntityRegistryEntry, devices: Seq<DeviceEntry>) -> Option<Seq<char>> {
    match e.area_id {
        Some(a) => Some(a@),
        None => match e.device_id {
            Some(d) => device_area(devices, d@),
            None => None,
        },
    }
}

/// An entity's own area takes precedence over its device's; without its own,
/// it inherits its device's; with neither, it has none.
pub proof fn lemma_own_area_takes_precedence(e: EntityRegistryEntry, devices: Seq<DeviceEntry>)
    ensures
        e.area_id matches Some(a) ==> resolved_area(e, devices) == Some(a@),
        e.area_id is None ==> (e.device_id matches Some(d) ==> resolved_area(e, devices) == device_area(devices, d@)),
        e.area_id is None && e.device_id is None ==> resolved_area(e, devices) is None,
{
}

/// The area id of the last registry entry for `id` that resolves to an area.
pub open spec fn registry_area(
    entities: Seq<EntityRegistryEntry>,
    devices: Seq<DeviceEntry>,
    id: Seq<char>,
) -> Option<Seq<char>>
    decreases entities.len(),
{
    if entities.len() == 0 {
        None
    } else {
        let e = entities.last();
        if e.entity_id@ == id && resolved_area(e, devices) is Some {
            resolved_area(e, devices)
        } else {
            registry_area(entities.drop_last(), devices, id)
        }
    }
}

/// The name of the last area listed with id `area_id`.
pub open spec fn area_name(areas: Seq<AreaEntry>, area_id: Seq<char>) -> Option<Seq<char>>
    decreases areas.len(),
{
    if areas.len() == 0 {
        None
    } else if areas.last().area_id@ == area_id {
        Some(areas.last().name@)
    } else {
        area_name(areas.drop_last(), area_id)
    }
}

/// The room name of entity `id` given the three registries: the name of its
/// own area, else of its device's area; `None` when neither is known.
pub open spec fn room_of(
    areas: Seq<AreaEntry>,
    devices: Seq<DeviceEntry>,
    entities: Seq<EntityRegistryEntry>,
    id: Seq<char>,
) -> Option<Seq<char>> {
    match registry_area(entities, devices, id) {
        Some(a) => area_name(areas, a),
        None => None,
    }
}

/// The first entity entry listed with id `id`.
pub open spec fn first_entity(entities: Seq<EntityRegistryEntry>, id: Seq<char>) -> Option<EntityRegistryEntry>
    decreases entities.len(),
{
    if entities.len() == 0 {
        None
    } else if entities[0].entity_id@ == id {
        Some(entities[0])
    } else {
        first_entity(entities.drop_first(), id)
    }
}

/// The first device listed with id `id`.
pub open spec fn first_device(devices: Seq<DeviceEntry>, id: Seq<char>) -> Option<DeviceEntry>
    decreases devices.len(),
{
    if devices.len() == 0 {
        None
    } else if devices[0].id@ == id {
        Some(devices[0])
    } else {
        first_device(devices.drop_first(), id)
    }
}

/// The first area listed with id `area_id`.
pub open spec fn first_area(areas: Seq<AreaEntry>, area_id: Seq<char>) -> Option<AreaEntry>
    decreases areas.len(),
{
    if areas.len() == 0 {
        None
    } else if areas[0].area_id@ == area_id {
        Some(areas[0])
    } else {
        first_area(areas.drop_first(), area_id)
    }
}

/// The room of entity `id` read off the lists front to back: the first
/// entry for the entity; its own area, else the area of the first device
/// with its device id; the name of the first area with that id.
pub open spec fn first_room(
    areas: Seq<AreaEntry>,
    devices: Seq<DeviceEntry>,
    entities: Seq<EntityRegistryEntry>,
    id: Seq<char>,
) -> Option<Seq<char>> {
    match first_entity(entities, id) {
        None => None,
        Some(e) => {
            let area = match e.area_id {
                Some(a) => Some(a@),
                None => match e.device_id {
                    Some(d) => match first_device(devices, d@) {
                        Some(dv) => match dv.area_id {
                            Some(a) => Some(a@),
                            None => None,
                        },
                        None => None,
                    },
                    None => None,
                },
            };
            match area {
                Some(a) => match first_area(areas, a) {
                    Some(ar) => Some(ar.name@),
                    None => None,
                },
                None => None,
            }
        },
    }
}

/// No two areas share an id.
pub open spec fn area_ids_unique(areas: Seq<AreaEntry>) -> bool {
    forall|i: int, j: int| 0 <= i < j < areas.len() ==> #[trigger] areas[i].area_id@ != #[trigger] areas[j].area_id@
}

/// No two devices share an id.
pub open spec fn device_ids_unique(devices: Seq<DeviceEntry>) -> bool {
    forall|i: int, j: int| 0 <= i < j < devices.len() ==> #[trigger] devices[i].id@ != #[trigger] devices[j].id@
}

/// No two entity entries share an id.
pub open spec fn entity_ids_unique(entities: Seq<EntityRegistryEntry>) -> bool {
    forall|i: int, j: int| 0 <= i < j < entities.len() ==> #[trigger] entities[i].entity_id@ != #[trigger] entities[j].entity_id@
}

proof fn lemma_registry_area_sole(es: Seq<EntityRegistryEntry>, ds: Seq<DeviceEntry>, id: Seq<char>, e: EntityRegistryEntry)
    requires
        forall|i: int| 0 <= i < es.len() && (#[trigger] es[i]).entity_id@ == id ==> es[i] == e,
    ensures
        registry_area(es, ds, id) == (if es.contains(e) && e.entity_id@ == id { resolved_area(e, ds) } else { None }),
        first_entity(es, id) == (if es.contains(e) && e.entity_id@ == id { Some(e) } else { None }),
    decreases es.len(),
{
    if es.len() > 0 {
        let init = es.drop_last();
        let tail = es.drop_first();
        assert forall|i: int| 0 <= i < init.len() && (#[trigger] init[i]).entity_id@ == id implies init[i] == e by {
            assert(init[i] == es[i]);
        }
        assert forall|i: int| 0 <= i < tail.len() && (#[trigger] tail[i]).entity_id@ == id implies tail[i] == e by {
            assert(tail[i] == es[i + 1]);
        }
        lemma_registry_area_sole(init, ds, id, e);
        lemma_registry_area_sole(tail, ds, id, e);
        assert(es =~= init.push(es.last()));
        assert(es =~= seq![es[0]] + tail);
        if es.contains(e) && e.entity_id@ == id {
            let k = choose|k: int| 0 <= k < es.len() && es[k] == e;
            if k < es.len() - 1 {
                assert(init[k] == e);
            }
            if k > 0 {
                assert(tail[k - 1] == e);
            }
        } else {
            assert(es.last() != e || e.entity_id@ != id);
            if init.contains(e) {
                let k = choose|k: int| 0 <= k < init.len() && init[k] == e;
                assert(es[k] == e);
            }
            if tail.contains(e) {
                let k = choose|k: int| 0 <= k < tail.len() && tail[k] == e;
                assert(es[k + 1] == e);
            }
        }
    }
}

proof fn lemma_device_area_sole(ds: Seq<DeviceEntry>, id: Seq<char>, dv: DeviceEntry)
    requires
        forall|i: int| 0 <= i < ds.len() && (#[trigger] ds[i]).id@ == id ==> ds[i] == dv,
    ensures
        device_area(ds, id) == (if ds.contains(dv) && dv.id@ == id {
            match dv.area_id { Some(a) => Some(a@), None => None }
        } else {
            None
        }),
        first_device(ds, id) == (if ds.contains(dv) && dv.id@ == id { Some(dv) } else { None }),
    decreases ds.len(),
{
    if ds.len() > 0 {
        let init = ds.drop_last();
        let tail = ds.drop_first();
        assert forall|i: int| 0 <= i < init.len() && (#[trigger] init[i]).id@ == id implies init[i] == dv by {
            assert(init[i] == ds[i]);
        }
        assert forall|i: int| 0 <= i < tail.len() && (#[trigger] tail[i]).id@ == id implies tail[i] == dv by {
            assert(tail[i] == ds[i + 1]);
        }
        lemma_device_area_sole(init, id, dv);
        lemma_device_area_sole(tail, id, dv);
        if ds.contains(dv) && dv.id@ == id {
            let k = choose|k: int| 0 <= k < ds.len() && ds[k] == dv;
            if k < ds.len() - 1 {
                assert(init[k] == dv);
            }
            if k > 0 {
                assert(tail[k - 1] == dv);
            }
        } else {
            if init.contains(dv) {
                let k = choose|k: int| 0 <= k < init.len() && init[k] == dv;
                assert(ds[k] == dv);
            }
            if tail.contains(dv) {
                let k = choose|k: int| 0 <= k < tail.len() && tail[k] == dv;
                assert(ds[k + 1] == dv);
            }
        }
    }
}

proof fn lemma_area_name_sole(areas: Seq<AreaEntry>, a: Seq<char>, ar: AreaEntry)
    requires
        forall|i: int| 0 <= i < areas.len() && (#[trigger] areas[i]).area_id@ == a ==> areas[i] == ar,
    ensures
        area_name(areas, a) == (if areas.contains(ar) && ar.area_id@ == a { Some(ar.name@) } else { None }),
        first_area(areas, a) == (if areas.contains(ar) && ar.area_id@ == a { Some(ar) } else { None }),
    decreases areas.len(),
{
    if areas.len() > 0 {
        let init = areas.drop_last();
        let tail = areas.drop_first();
        assert forall|i: int| 0 <= i < init.len() && (#[trigger] init[i]).area_id@ == a implies init[i] == ar by {
            assert(init[i] == areas[i]);
        }
        assert forall|i: int| 0 <= i < tail.len() && (#[trigger] tail[i]).area_id@ == a implies tail[i] == ar by {
            assert(tail[i] == areas[i + 1]);
        }
        lemma_area_name_sole(init, a, ar);
        lemma_area_name_sole(tail, a, ar);
        if areas.contains(ar) && ar.area_id@ == a {
            let k = choose|k: int| 0 <= k < areas.len() && areas[k] == ar;
            if k < areas.len() - 1 {
                assert(init[k] == ar);
            }
            if k > 0 {
                assert(tail[k - 1] == ar);
            }
        } else {
            if init.contains(ar) {
                let k = choose|k: int| 0 <= k < init.len() && init[k] == ar;
                assert(areas[k] == ar);
            }
            if tail.contains(ar) {
                let k = choose|k: int| 0 <= k < tail.len() && tail[k] == ar;
                assert(areas[k + 1] == ar);
            }
        }
    }
}

proof fn sole_entity(es: Seq<EntityRegistryEntry>, id: Seq<char>) -> (e: EntityRegistryEntry)
    requires
        entity_ids_unique(es),
    ensures
        forall|i: int| 0 <= i < es.len() && (#[trigger] es[i]).entity_id@ == id ==> es[i] == e,
{
    if exists|k: int| 0 <= k < es.len() && (#[trigger] es[k]).entity_id@ == id {
        let k = choose|k: int| 0 <= k < es.len() && (#[trigger] es[k]).entity_id@ == id;
        assert forall|i: int| 0 <= i < es.len() && (#[trigger] es[i]).entity_id@ == id implies es[i] == es[k] by {
            if i < k {
                assert(es[i].entity_id@ != es[k].entity_id@);
            } else if k < i {
                assert(es[k].entity_id@ != es[i].entity_id@);
            }
        }
        es[k]
    } else {
        vstd::pervasive::arbitrary()
    }
}

proof fn sole_device(ds: Seq<DeviceEntry>, id: Seq<char>) -> (dv: DeviceEntry)
    requires
        device_ids_unique(ds),
    ensures
        forall|i: int| 0 <= i < ds.len() && (#[trigger] ds[i]).id@ == id ==> ds[i] == dv,
{
    if exists|k: int| 0 <= k < ds.len() && (#[trigger] ds[k]).id@ == id {
        let k = choose|k: int| 0 <= k < ds.len() && (#[trigger] ds[k]).id@ == id;
        assert forall|i: int| 0 <= i < ds.len() && (#[trigger] ds[i]).id@ == id implies ds[i] == ds[k] by {
            if i < k {
                assert(ds[i].id@ != ds[k].id@);
            } else if k < i {
                assert(ds[k].id@ != ds[i].id@);
            }
        }
        ds[k]
    } else {
        vstd::pervasive::arbitrary()
    }
}

proof fn sole_area(areas: Seq<AreaEntry>, a: Seq<char>) -> (ar: AreaEntry)
    requires
        area_ids_unique(areas),
    ensures
        forall|i: int| 0 <= i < areas.len() && (#[trigger] areas[i]).area_id@ == a ==> areas[i] == ar,
{
    if exists|k: int| 0 <= k < areas.len() && (#[trigger] areas[k]).area_id@ == a {
        let k = choose|k: int| 0 <= k < areas.len() && (#[trigger] areas[k]).area_id@ == a;
        assert forall|i: int| 0 <= i < areas.len() && (#[trigger] areas[i]).area_id@ == a implies areas[i] == areas[k] by {
            if i < k {
                assert(areas[i].area_id@ != areas[k].area_id@);
            } else if k < i {
                assert(areas[k].area_id@ != areas[i].area_id@);
            }
        }
        areas[k]
    } else {
        vstd::pervasive::arbitrary()
    }
}

/// With ids unique within each list, the room `Registry::build` resolves is
/// the one read off the lists front to back: the entity's first entry, its
/// own area else its device's, that area's name.
pub proof fn lemma_room_found_first(
    areas: Seq<AreaEntry>,
    devices: Seq<DeviceEntry>,
    entities: Seq<EntityRegistryEntry>,
    id: Seq<char>,
)
    requires
        area_ids_unique(areas),
        device_ids_unique(devices),
        entity_ids_unique(entities),
    ensures
        room_of(areas, devices, entities, id) == first_room(areas, devices, entities, id),
{
    let e = sole_entity(entities, id);
    lemma_registry_area_sole(entities, devices, id, e);
    if entities.contains(e) && e.entity_id@ == id {
        match e.area_id {
            Some(a) => {},
            None => match e.device_id {
                Some(d) => {
                    let dv = sole_device(devices, d@);
                    lemma_device_area_sole(devices, d@, dv);
                },
                None => {},
            },
        }
        match resolved_area(e, devices) {
            Some(a) => {
                let ar = sole_area(areas, a);
                lemma_area_name_sole(areas, a, ar);
            },
            None => {},
        }
    }
}

/// With ids unique within each list, the order in which the three
/// registries list their entries does not change any entity's room.
pub proof fn lemma_room_ignores_order(
    areas: Seq<AreaEntry>,
    devices: Seq<DeviceEntry>,
    entities: Seq<EntityRegistryEntry>,
    areas2: Seq<AreaEntry>,
    devices2: Seq<DeviceEntry>,
    entities2: Seq<EntityRegistryEntry>,
    id: Seq<char>,
)
    requires
        area_ids_unique(areas),
        device_ids_unique(devices),
        entity_ids_unique(entities),
        areas2.to_multiset() == areas.to_multiset(),
        devices2.to_multiset() == devices.to_multiset(),
        entities2.to_multiset() == entities.to_multiset(),
    ensures
        room_of(areas, devices, entities, id) == room_of(areas2, devices2, entities2, id),
{
    broadcast use vstd::seq_lib::group_to_multiset_ensures;
    let e = sole_entity(entities, id);
    assert forall|i: int| 0 <= i < entities2.len() && (#[trigger] entities2[i]).entity_id@ == id implies entities2[i] == e by {
        assert(entities2.contains(entities2[i]));
        assert(entities2.to_multiset().count(entities2[i]) > 0);
        assert(entities.contains(entities2[i]));
    }
    assert(entities.contains(e) <==> entities2.contains(e)) by {
        vstd::seq_lib::to_multiset_contains(entities, e);
        vstd::seq_lib::to_multiset_contains(entities2, e);
    }
    lemma_registry_area_sole(entities, devices, id, e);
    lemma_registry_area_sole(entities2, devices2, id, e);
    if entities.contains(e) && e.entity_id@ == id {
        match e.area_id {
            Some(a) => {},
            None => match e.device_id {
                Some(d) => {
                    let dv = sole_device(devices, d@);
                    assert forall|i: int| 0 <= i < devices2.len() && (#[trigger] devices2[i]).id@ == d@ implies devices2[i] == dv by {
                        assert(devices2.contains(devices2[i]));
                        assert(devices2.to_multiset().count(devices2[i]) > 0);
                        assert(devices.contains(devices2[i]));
                    }
                    assert(devices.contains(dv) <==> devices2.contains(dv)) by {
                        vstd::seq_lib::to_multiset_contains(devices, dv);
        vstd::seq_lib::to_multiset_contains(devices2, dv);
                    }
                    lemma_device_area_sole(devices, d@, dv);
                    lemma_device_area_sole(devices2, d@, dv);
                },
                None => {},
            },
        }
        assert(resolved_area(e, devices) == resolved_area(e, devices2));
        match resolved_area(e, devices) {
            Some(a) => {
                let ar = sole_area(areas, a);
                assert forall|i: int| 0 <= i < areas2.len() && (#[trigger] areas2[i]).area_id@ == a implies areas2[i] == ar by {
                    assert(areas2.contains(areas2[i]));
                    assert(areas2.to_multiset().count(areas2[i]) > 0);
                    assert(areas.contains(areas2[i]));
                }
                assert(areas.contains(ar) <==> areas2.contains(ar)) by {
                    vstd::seq_lib::to_multiset_contains(areas, ar);
        vstd::seq_lib::to_multiset_contains(areas2, ar);
                }
                lemma_area_name_sole(areas, a, ar);
                lemma_area_name_sole(areas2, a, ar);
            },
            None => {},
        }
    }
}

/// The value of the last pair whose key is `key`.
pub open spec fn last_value(pairs: Seq<(String, String)>, key: Seq<char>) -> Option<Seq<char>>
    decreases pairs.len(),
{
    if pairs.len() == 0 {
        None
    } else if pairs.last().0@ == key {
        Some(pairs.last().1@)
    } else {
        last_value(pairs.drop_last(), key)
    }
}

/// Caches the registries and resolves each entity to a room name: its own
/// `area_id` if set, else its device's `area_id`, else no area (the caller
/// then groups the entity by domain).
pub struct Registry {
    areas: Vec<AreaEntry>,
    /// (entity id, area id) for each registry entity that resolved to an area.
    entity_area: Vec<(String, String)>,
}

impl Default for Registry {
    /// An empty registry: no entity has a room.
    fn default() -> (r: Registry)
        ensures
            forall|id: Seq<char>| r.spec_area_name_for(id) is None,
    {
        Registry::new()
    }
}

impl Registry {
    /// The room name `area_name_for` gives for entity `id`.
    pub closed spec fn spec_area_name_for(&self, id: Seq<char>) -> Option<Seq<char>> {
        match last_value(self.entity_area@, id) {
            Some(a) => area_name(self.areas@, a),
            None => None,
        }
    }

    pub fn new() -> (r: Registry)
        ensures
            forall|id: Seq<char>| r.spec_area_name_for(id) is None,
    {
        Registry { areas: Vec::new(), entity_area: Vec::new() }
    }

    pub fn build(
        areas: Vec<AreaEntry>,
        devices: Vec<DeviceEntry>,
        entities: Vec<EntityRegistryEntry>,
    ) -> (r: Registry)
        ensures
            forall|id: Seq<char>| #[trigger] r.spec_area_name_for(id) == room_of(areas@, devices@, entities@, id),
    {
        let mut entity_area: Vec<(String, String)> = Vec::new();
        let mut i: usize = 0;
        while i < entities.len()
            invariant
                i <= entities.len(),
                forall|id: Seq<char>| #[trigger] last_value(entity_area@, id) == registry_area(entities@.take(i as int), devices@, id),
            decreases entities.len() - i,
        {
            let e = &entities[i];
            let resolved: Option<String> = match &e.area_id {
                Some(a) => Some(a.clone()),
                None => match &e.device_id {
                    Some(d) => device_area_of(&devices, d.as_str()),
                    None => None,
                },
            };
            assert(resolved is Some <==> resolved_area(*e, devices@) is Some);
            assert(resolved is Some ==> resolved_area(*e, devices@) == Some(resolved.unwrap()@));
            let ghost old_pairs = entity_area@;
            assert(forall|id: Seq<char>| #[trigger] last_value(old_pairs, id) == registry_area(entities@.take(i as int), devices@, id));
            match resolved {
                Some(a) => {
                    entity_area.push((e.entity_id.clone(), a));
                },
                None => {},
            }
            proof {
                let t = entities@.take(i + 1);
                assert(t.drop_last() =~= entities@.take(i as int));
                assert(t.last() == entities@[i as int]);
                assert forall|id: Seq<char>| #[trigger] last_value(entity_area@, id) == registry_area(t, devices@, id) by {
                    assert(last_value(old_pairs, id) == registry_area(entities@.take(i as int), devices@, id));
                    if resolved is Some {
                        assert(entity_area@.drop_last() =~= old_pairs);
                    } else {
                        assert(entity_area@ == old_pairs);
                    }
                }
            }
            i = i + 1;
        }
        assert(entities@.take(entities.len() as int) =~= entities@);
        Registry { areas, entity_area }
    }

    /// The room/area name for an entity, if it (or its device) is assigned one.
    pub fn area_name_for(&self, entity_id: &str) -> (r: Option<&str>)
        ensures
            r is Some <==> self.spec_area_name_for(entity_id@) is Some,
            r matches Some(n) ==> self.spec_area_name_for(entity_id@) == Some(n@),
    {
        let mut i = self.entity_area.len();
        assert(self.entity_area@.take(i as int) =~= self.entity_area@);
        while i > 0
            invariant
                i <= self.entity_area.len(),
                last_value(self.entity_area@, entity_id@) == last_value(self.entity_area@.take(i as int), entity_id@),
            decreases i,
        {
            proof {
                assert(self.entity_area@.take(i as int).drop_last() =~= self.entity_area@.take(i - 1));
            }
            if str_eq(self.entity_area[i - 1].0.as_str(), entity_id) {
                return self.area_name(self.entity_area[i - 1].1.as_str());
            }
            i = i - 1;
        }
        None
    }

    fn area_name(&self, area_id: &str) -> (r: Option<&str>)
        ensures
            r is Some <==> area_name(self.areas@, area_id@) is Some,
            r matches Some(n) ==> area_name(self.areas@, area_id@) == Some(n@),
    {
        let mut i = self.areas.len();
        assert(self.areas@.take(i as int) =~= self.areas@);
        while i > 0
            invariant
                i <= self.areas.len(),
                area_name(self.areas@, area_id@) == area_name(self.areas@.take(i as int), area_id@),
            decreases i,
        {
            proof {
                assert(self.areas@.take(i as int).drop_last() =~= self.areas@.take(i - 1));
            }
            if str_eq(self.areas[i - 1].area_id.as_str(), area_id) {
                return Some(self.areas[i - 1].name.as_str());
            }
            i = i - 1;
        }
        None
    }
}

/// The area of the last listed device with id `id` that has one.
fn device_area_of(devices: &Vec<DeviceEntry>, id: &str) -> (r: Option<String>)
    ensures
        r is Some <==> device_area(devices@, id@) is Some,
        r matches Some(a) ==> device_area(devices@, id@) == Some(a@),
{
    let mut i = devices.len();
    assert(devices@.take(i as int) =~= devices@);
    while i > 0
        invariant
            i <= devices.len(),
            device_area(devices@, id@) == device_area(devices@.take(i as int), id@),
        decreases i,
    {
        proof {
            assert(devices@.take(i as int).drop_last() =~= devices@.take(i - 1));
        }
        let d = &devices[i - 1];
        if str_eq(d.id.as_str(), id) {
            match &d.area_id {
                Some(a) => {
                    return Some(a.clone());
                },
                None => {},
            }
        }
        i = i - 1;
    }
    None
}

} // verus!
