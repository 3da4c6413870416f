//! The debug inspector: a cache of the world's entities and of the
//! components of the entities being inspected, the widget it is drawn
//! from, and moving the selection with the keyboard.
use vstd::prelude::*;
use vstd::string::StringExecFns;

use crate::sorted::{
    find_slot, has_key, is_slot, keys_sorted, lemma_slot, lemma_upsert_sorted, slot, slot_witness,
    upsert,
};
use crate::text::{entity_bits, entity_display, entity_text};

verus! {

/// What the inspector knows of one entity: its name, and the names of its
/// components in increasing order of component id.
pub struct EntityDataView {
    pub name: Option<Seq<char>>,
    pub components: Seq<(u64, Seq<char>)>,
}

/// What the inspector knows of one entity.
pub struct InspectorEntityData {
    name: Option<String>,
    components: Vec<(u64, String)>,
}

/// The text of an optional string.
pub open spec fn opt_text(s: Option<String>) -> Option<Seq<char>> {
    match s {
        Some(s) => Some(s@),
        None => None,
    }
}

/// The texts of the named entries of a list.
pub open spec fn entries_text(s: Seq<(u64, String)>) -> Seq<(u64, Seq<char>)> {
    s.map_values(|p: (u64, String)| (p.0, p.1@))
}

impl View for InspectorEntityData {
    type V = EntityDataView;

    closed spec fn view(&self) -> EntityDataView {
        EntityDataView { name: opt_text(self.name), components: entries_text(self.components@) }
    }
}

/// The line of entity `id` in the entity list: the entity, then its name in
/// parentheses when it has one.
pub open spec fn entity_line_text(id: u64, name: Option<Seq<char>>) -> Seq<char> {
    match name {
        Some(n) => entity_display(id) + " ("@ + n + ")"@,
        None => entity_display(id),
    }
}

impl InspectorEntityData {
    /// Data with the given name and no component.
    pub fn new(name: Option<String>) -> (d: InspectorEntityData)
        ensures
            d@.name == opt_text(name),
            d@.components == Seq::<(u64, Seq<char>)>::empty(),
    {
        let d = InspectorEntityData { name, components: Vec::new() };
        assert(d@.components =~= Seq::<(u64, Seq<char>)>::empty());
        d
    }

    /// The line of entity `id` in the entity list.
    pub fn format_line(&self, id: u64) -> (r: String)
        requires
            entity_bits(id),
        ensures
            r@ == entity_line_text(id, self@.name),
    {
        let mut r = entity_text(id);
        match &self.name {
            Some(name) => {
                r.append(" (");
                r.append(name.as_str());
                r.append(")");
            },
            None => {},
        }
        r
    }
}

/// The entity data the cache holds, in increasing order of entity.
pub open spec fn data_text(s: Seq<(u64, InspectorEntityData)>) -> Seq<(u64, EntityDataView)> {
    s.map_values(|p: (u64, InspectorEntityData)| (p.0, p.1@))
}

/// What the inspector cache holds.
pub struct CacheView {
    /// Ranges of entities to query.
    pub query_ranges: Seq<(u64, u64)>,
    /// The entities whose components are queried.
    pub query_entities: Seq<u64>,
    /// The data of each entity, in increasing order of entity.
    pub entity_data: Seq<(u64, EntityDataView)>,
}

/// The inspector's cache of the world.
pub struct InspectorCache {
    query_ranges: Vec<(u64, u64)>,
    query_entities: Vec<u64>,
    entity_data: Vec<(u64, InspectorEntityData)>,
}

impl View for InspectorCache {
    type V = CacheView;

    closed spec fn view(&self) -> CacheView {
        CacheView {
            query_ranges: self.query_ranges@,
            query_entities: self.query_entities@,
            entity_data: data_text(self.entity_data@),
        }
    }
}

/// The entity data is in increasing order of entity, every entity is a
/// valid one, and the components of each are in increasing order of id.
pub open spec fn cache_wf(c: CacheView) -> bool {
    &&& keys_sorted(c.entity_data)
    &&& forall|i: int| 0 <= i < c.entity_data.len() ==> entity_bits(#[trigger] c.entity_data[i].0)
    &&& forall|i: int|
        0 <= i < c.entity_data.len() ==> keys_sorted(#[trigger] c.entity_data[i].1.components)
}

/// The entity data after `e` is seen with name `name`: its name is replaced,
/// or it is added with no component.
pub open spec fn naming(s: Seq<(u64, EntityDataView)>, e: u64, name: Option<Seq<char>>) -> Seq<(u64, EntityDataView)> {
    if has_key(s, e) {
        upsert(s, e, EntityDataView { name, ..s[slot(s, e)].1 })
    } else {
        upsert(s, e, EntityDataView { name, components: Seq::empty() })
    }
}

/// The entity data after each entity of `es`, in order, is seen with its
/// name.
pub open spec fn namings(s: Seq<(u64, EntityDataView)>, es: Seq<(u64, Option<Seq<char>>)>) -> Seq<(u64, EntityDataView)>
    decreases es.len(),
{
    if es.len() == 0 {
        s
    } else {
        naming(namings(s, es.drop_last()), es.last().0, es.last().1)
    }
}

/// The entity data with an entry for `e`, added without name or component
/// if it had none.
pub open spec fn entry_for(s: Seq<(u64, EntityDataView)>, e: u64) -> Seq<(u64, EntityDataView)> {
    if has_key(s, e) {
        s
    } else {
        upsert(s, e, EntityDataView { name: None, components: Seq::empty() })
    }
}

/// The entity data after component `c` of `e`, named `n`, is recorded.
pub open spec fn with_component(s: Seq<(u64, EntityDataView)>, e: u64, c: u64, n: Seq<char>) -> Seq<(u64, EntityDataView)> {
    let d = s[slot(s, e)].1;
    upsert(s, e, EntityDataView { components: upsert(d.components, c, n), ..d })
}

/// The entity data after the components `cs` of `e` are recorded in order.
pub open spec fn with_components(s: Seq<(u64, EntityDataView)>, e: u64, cs: Seq<(u64, Seq<char>)>) -> Seq<(u64, EntityDataView)>
    decreases cs.len(),
{
    if cs.len() == 0 {
        entry_for(s, e)
    } else {
        with_component(with_components(s, e, cs.drop_last()), e, cs.last().0, cs.last().1)
    }
}

/// The names given with a list of entities.
pub open spec fn names_text(es: Seq<(u64, Option<String>)>) -> Seq<(u64, Option<Seq<char>>)> {
    es.map_values(|p: (u64, Option<String>)| (p.0, opt_text(p.1)))
}

impl Default for InspectorCache {
    /// An empty cache.
    fn default() -> (c: InspectorCache)
        ensures
            c@.query_ranges == Seq::<(u64, u64)>::empty(),
            c@.query_entities == Seq::<u64>::empty(),
            c@.entity_data == Seq::<(u64, EntityDataView)>::empty(),
            cache_wf(c@),
    {
        let c = InspectorCache {
            query_ranges: Vec::new(),
            query_entities: Vec::new(),
            entity_data: Vec::new(),
        };
        assert(c@.entity_data =~= Seq::<(u64, EntityDataView)>::empty());
        c
    }
}

impl InspectorCache {
    /// The entities whose components are queried.
    pub fn query_entities(&self) -> (r: &Vec<u64>)
        ensures
            r@ == self@.query_entities,
    {
        &self.query_entities
    }

    /// Forgets every query.
    pub fn clear_queries(&mut self)
        ensures
            final(self)@.query_ranges == Seq::<(u64, u64)>::empty(),
            final(self)@.query_entities == Seq::<u64>::empty(),
            final(self)@.entity_data == old(self)@.entity_data,
    {
        self.query_ranges.clear();
        self.query_entities.clear();
    }

    /// Queries the components of the entity selected in `inspector`, if any.
    pub fn add_query(&mut self, inspector: &DebugInspector)
        ensures
            final(self)@.query_ranges == old(self)@.query_ranges,
            final(self)@.query_entities == match inspector@.entity_selected {
                Some(e) => old(self)@.query_entities.push(e),
                None => old(self)@.query_entities,
            },
            final(self)@.entity_data == old(self)@.entity_data,
    {
        match inspector.entity_selected {
            Some(e) => self.query_entities.push(e),
            None => {},
        }
    }

    /// Records that entity `e` exists with name `name`.
    pub fn record_name(&mut self, e: u64, name: Option<String>)
        requires
            cache_wf(old(self)@),
            entity_bits(e),
        ensures
            cache_wf(final(self)@),
            final(self)@.entity_data == naming(old(self)@.entity_data, e, opt_text(name)),
            final(self)@.query_ranges == old(self)@.query_ranges,
            final(self)@.query_entities == old(self)@.query_entities,
    {
        let ghost s = self@.entity_data;
        let i = self.find_entity(e);
        let found = i < self.entity_data.len() && self.entity_data[i].0 == e;
        let ghost nv = if found {
            EntityDataView { name: opt_text(name), ..s[i as int].1 }
        } else {
            EntityDataView { name: opt_text(name), components: Seq::empty() }
        };
        if found {
            let mut entry = (e, InspectorEntityData::new(None));
            self.entity_data.set_and_swap(i, &mut entry);
            entry.1.name = name;
            self.entity_data.set(i, entry);
        } else {
            self.entity_data.insert(i, (e, InspectorEntityData::new(name)));
        }
        proof {
            lemma_upsert_sorted(s, e, nv);
            assert(data_text(self.entity_data@) =~= upsert(s, e, nv));
            lemma_cache_wf_upsert(old(self)@, e, nv);
        }
    }

    /// Records that each entity of `entities` exists with its name, in
    /// order.
    pub fn record_names(&mut self, entities: &Vec<(u64, Option<String>)>)
        requires
            cache_wf(old(self)@),
            forall|i: int| 0 <= i < entities@.len() ==> entity_bits(#[trigger] entities@[i].0),
        ensures
            cache_wf(final(self)@),
            final(self)@.entity_data == namings(old(self)@.entity_data, names_text(entities@)),
            final(self)@.query_ranges == old(self)@.query_ranges,
            final(self)@.query_entities == old(self)@.query_entities,
    {
        for i in 0..entities.len()
            invariant
                cache_wf(self@),
                forall|j: int| 0 <= j < entities@.len() ==> entity_bits(#[trigger] entities@[j].0),
                self@.entity_data == namings(
                    old(self)@.entity_data,
                    names_text(entities@.take(i as int)),
                ),
                self@.query_ranges == old(self)@.query_ranges,
                self@.query_entities == old(self)@.query_entities,
        {
            proof {
                assert(names_text(entities@.take(i + 1)).drop_last() =~= names_text(
                    entities@.take(i as int),
                ));
            }
            let name = match &entities[i].1 {
                Some(n) => Some(n.clone()),
                None => None,
            };
            self.record_name(entities[i].0, name);
        }
        assert(entities@.take(entities.len() as int) =~= entities@);
    }

    /// Makes sure entity `e` has an entry, with no name or component if it
    /// had none.
    fn ensure_entry(&mut self, e: u64)
        requires
            cache_wf(old(self)@),
            entity_bits(e),
        ensures
            cache_wf(final(self)@),
            final(self)@.entity_data == entry_for(old(self)@.entity_data, e),
            has_key(final(self)@.entity_data, e),
            final(self)@.query_ranges == old(self)@.query_ranges,
            final(self)@.query_entities == old(self)@.query_entities,
    {
        let ghost s = self@.entity_data;
        let i = self.find_entity(e);
        if !(i < self.entity_data.len() && self.entity_data[i].0 == e) {
            let ghost nv = EntityDataView { name: None, components: Seq::empty() };
            self.entity_data.insert(i, (e, InspectorEntityData::new(None)));
            proof {
                lemma_upsert_sorted(s, e, nv);
                assert(data_text(self.entity_data@) =~= upsert(s, e, nv));
                lemma_cache_wf_upsert(old(self)@, e, nv);
            }
        }
        proof {
            let t = self@.entity_data;
            assert(t[i as int].0 == e);
            assert(is_slot(t, e, i as int));
            lemma_slot(t, e, i as int);
        }
    }

    /// Records that component `c` of entity `e`, which has an entry, is
    /// named `n`.
    fn record_component(&mut self, e: u64, c: u64, n: String)
        requires
            cache_wf(old(self)@),
            entity_bits(e),
            has_key(old(self)@.entity_data, e),
        ensures
            cache_wf(final(self)@),
            final(self)@.entity_data == with_component(old(self)@.entity_data, e, c, n@),
            has_key(final(self)@.entity_data, e),
            final(self)@.query_ranges == old(self)@.query_ranges,
            final(self)@.query_entities == old(self)@.query_entities,
    {
        let ghost s = self@.entity_data;
        let i = self.find_entity(e);
        let ghost d = s[i as int].1;
        let mut entry = (e, InspectorEntityData::new(None));
        self.entity_data.set_and_swap(i, &mut entry);
        let ghost raw = entry.1.components@;
        let ghost cs = entries_text(raw);
        assert(cs == d.components);
        assert(forall|j: int| 0 <= j < cs.len() ==> #[trigger] cs[j].0 == raw[j].0);
        assert(keys_sorted(raw)) by {
            assert forall|a: int, b: int| 0 <= a < b < raw.len() implies #[trigger] raw[a].0
                < #[trigger] raw[b].0 by {
                assert(cs[a].0 < cs[b].0);
            }
        }
        let (j, found) = find_slot(&entry.1.components, c);
        proof {
            assert(is_slot(cs, c, j as int));
            lemma_slot(cs, c, j as int);
        }
        if found {
            entry.1.components.set(j, (c, n));
        } else {
            entry.1.components.insert(j, (c, n));
        }
        proof {
            lemma_upsert_sorted(cs, c, n@);
            assert(entries_text(entry.1.components@) =~= upsert(cs, c, n@));
        }
        self.entity_data.set(i, entry);
        proof {
            let nv = EntityDataView { components: upsert(d.components, c, n@), ..d };
            lemma_upsert_sorted(s, e, nv);
            assert(data_text(self.entity_data@) =~= upsert(s, e, nv));
            lemma_cache_wf_upsert(old(self)@, e, nv);
            let t = self@.entity_data;
            assert(is_slot(t, e, i as int));
            lemma_slot(t, e, i as int);
        }
    }

    /// Records the components `components` of entity `e`, in order, giving
    /// `e` an entry first if it has none.
    pub fn record_components(&mut self, e: u64, components: &Vec<(u64, String)>)
        requires
            cache_wf(old(self)@),
            entity_bits(e),
        ensures
            cache_wf(final(self)@),
            final(self)@.entity_data == with_components(
                old(self)@.entity_data,
                e,
                entries_text(components@),
            ),
            final(self)@.query_ranges == old(self)@.query_ranges,
            final(self)@.query_entities == old(self)@.query_entities,
    {
        self.ensure_entry(e);
        for i in 0..components.len()
            invariant
                cache_wf(self@),
                entity_bits(e),
                has_key(self@.entity_data, e),
                self@.entity_data == with_components(
                    old(self)@.entity_data,
                    e,
                    entries_text(components@.take(i as int)),
                ),
                self@.query_ranges == old(self)@.query_ranges,
                self@.query_entities == old(self)@.query_entities,
        {
            proof {
                assert(entries_text(components@.take(i + 1)).drop_last() =~= entries_text(
                    components@.take(i as int),
                ));
                assert(entries_text(components@.take(0)) =~= Seq::<(u64, Seq<char>)>::empty());
            }
            self.record_component(e, components[i].0, components[i].1.clone());
        }
        proof {
            assert(components@.take(components.len() as int) =~= components@);
            assert(entries_text(components@.take(0)) =~= Seq::<(u64, Seq<char>)>::empty());
        }
    }

    /// Where entity `e` stands or would be inserted among the entity data.
    fn find_entity(&self, e: u64) -> (i: usize)
        requires
            cache_wf(self@),
        ensures
            i == slot(self@.entity_data, e),
            is_slot(self@.entity_data, e, i as int),
            i <= self.entity_data@.len(),
            has_key(self@.entity_data, e) == (i < self.entity_data@.len() && self.entity_data@[i as int].0 == e),
    {
        let ghost s = self@.entity_data;
        let ghost raw = self.entity_data@;
        assert(forall|j: int| 0 <= j < s.len() ==> #[trigger] s[j].0 == raw[j].0);
        assert(keys_sorted(raw)) by {
            assert forall|a: int, b: int| 0 <= a < b < raw.len() implies #[trigger] raw[a].0
                < #[trigger] raw[b].0 by {
                assert(s[a].0 < s[b].0);
            }
        }
        let (i, found) = find_slot(&self.entity_data, e);
        proof {
            assert(is_slot(s, e, i as int));
            lemma_slot(s, e, i as int);
        }
        i
    }
}

/// Naming an entity the cache already holds changes its name only: its
/// entry stays where it was, keeps its components, and every other entry
/// is left as it was.
pub proof fn lemma_renaming_keeps_components(
    s: Seq<(u64, EntityDataView)>,
    e: u64,
    name: Option<Seq<char>>,
)
    requires
        keys_sorted(s),
        has_key(s, e),
    ensures
        naming(s, e, name).len() == s.len(),
        has_key(naming(s, e, name), e),
        slot(naming(s, e, name), e) == slot(s, e),
        naming(s, e, name)[slot(s, e)].1.name == name,
        naming(s, e, name)[slot(s, e)].1.components == s[slot(s, e)].1.components,
        forall|j: int| 0 <= j < s.len() && j != slot(s, e) ==> #[trigger] naming(s, e, name)[j] == s[j],
{
    let i = slot_witness(s, e);
    lemma_slot(s, e, i);
    let v = EntityDataView { name, ..s[i].1 };
    let t = naming(s, e, name);
    assert(t == s.update(i, (e, v)));
    lemma_upsert_sorted(s, e, v);
    assert(is_slot(t, e, i)) by {
        assert forall|j: int| 0 <= j < i implies #[trigger] t[j].0 < e by {
            assert(t[j] == s[j]);
        }
    }
    lemma_slot(t, e, i);
}

/// Setting the data of a valid entity keeps the cache well formed.
proof fn lemma_cache_wf_upsert(c: CacheView, e: u64, v: EntityDataView)
    requires
        cache_wf(c),
        entity_bits(e),
        keys_sorted(v.components),
        is_slot(c.entity_data, e, slot(c.entity_data, e)),
    ensures
        cache_wf(CacheView { entity_data: upsert(c.entity_data, e, v), ..c }),
{
    let s = c.entity_data;
    let t = upsert(s, e, v);
    let i = slot(s, e);
    lemma_upsert_sorted(s, e, v);
    assert forall|j: int| 0 <= j < t.len() implies #[trigger] t[j] == (if has_key(s, e) {
        if j == i { (e, v) } else { s[j] }
    } else {
        if j < i { s[j] } else if j == i { (e, v) } else { s[j - 1] }
    }) by {}
    assert forall|j: int| 0 <= j < t.len() implies entity_bits(#[trigger] t[j].0) by {
        assert(t[j] == t[j]);
    }
    assert forall|j: int| 0 <= j < t.len() implies keys_sorted(#[trigger] t[j].1.components) by {
        assert(t[j] == t[j]);
    }
}

/// A debug inspector: the entity and component it has selected.
#[derive(Clone, Copy)]
pub struct DebugInspector {
    height: usize,
    entity_offset: usize,
    entity_selected: Option<u64>,
    component_offset: usize,
    component_selected: Option<u64>,
}

/// What a debug inspector holds.
pub struct InspectorView {
    pub height: usize,
    pub entity_offset: usize,
    pub entity_selected: Option<u64>,
    pub component_offset: usize,
    pub component_selected: Option<u64>,
}

impl View for DebugInspector {
    type V = InspectorView;

    closed spec fn view(&self) -> InspectorView {
        InspectorView {
            height: self.height,
            entity_offset: self.entity_offset,
            entity_selected: self.entity_selected,
            component_offset: self.component_offset,
            component_selected: self.component_selected,
        }
    }
}

impl Default for DebugInspector {
    /// An inspector with nothing selected.
    fn default() -> (i: DebugInspector)
        ensures
            i@ == (InspectorView {
                height: 0,
                entity_offset: 0,
                entity_selected: None,
                component_offset: 0,
                component_selected: None,
            }),
    {
        DebugInspector {
            height: 0,
            entity_offset: 0,
            entity_selected: None,
            component_offset: 0,
            component_selected: None,
        }
    }
}

impl DebugInspector {
    /// The selected entity.
    pub fn entity_selected(&self) -> (r: Option<u64>)
        ensures
            r == self@.entity_selected,
    {
        self.entity_selected
    }

    /// The selected component.
    pub fn component_selected(&self) -> (r: Option<u64>)
        ensures
            r == self@.component_selected,
    {
        self.component_selected
    }
}

/// The position of key `k`, if `s` has it.
pub open spec fn key_index<V>(s: Seq<(u64, V)>, k: Option<u64>) -> Option<usize> {
    match k {
        Some(k) => if has_key(s, k) {
            Some(slot(s, k) as usize)
        } else {
            None
        },
        None => None,
    }
}

/// The selection `sel`, or the first key of `s` when nothing is selected.
pub open spec fn select_first<V>(sel: Option<u64>, s: Seq<(u64, V)>) -> Option<u64> {
    if sel is None && s.len() > 0 {
        Some(s[0].0)
    } else {
        sel
    }
}

/// What a debug inspector draws: the entity lines, the position of the
/// selected entity, the lines of the selected entity's components, and the
/// position of the selected component.
pub struct DebugInspectorWidget {
    pub entity_lines: Vec<String>,
    pub entity_selected: Option<usize>,
    pub component_lines: Vec<String>,
    pub component_selected: Option<usize>,
}

/// The texts of a list of strings.
pub open spec fn lines_text(s: Seq<String>) -> Seq<Seq<char>> {
    s.map_values(|l: String| l@)
}

/// The entity lines of the widget for entity data `es`.
pub open spec fn entity_lines_of(es: Seq<(u64, EntityDataView)>) -> Seq<Seq<char>> {
    es.map(|i: int, p: (u64, EntityDataView)| entity_line_text(p.0, p.1.name))
}

/// The component lines of the widget for the components `cs`.
pub open spec fn component_lines_of(cs: Seq<(u64, Seq<char>)>) -> Seq<Seq<char>> {
    cs.map(|i: int, p: (u64, Seq<char>)| p.1)
}

/// Which key moves the selection.
#[derive(Clone, Copy, Debug, PartialEq, Eq, Structural)]
pub enum InspectorKey {
    /// Down or S: the next entity.
    Down,
    /// Up or W: the previous entity.
    Up,
    /// Any other key.
    Other,
}

/// The key that follows `k` in `s`, if `s` has `k` and it is not last.
pub open spec fn key_after<V>(s: Seq<(u64, V)>, k: u64) -> Option<u64> {
    if has_key(s, k) && slot(s, k) + 1 < s.len() {
        Some(s[slot(s, k) + 1].0)
    } else {
        None
    }
}

/// The key that precedes `k` in `s`, if `s` has `k` and it is not first.
pub open spec fn key_before<V>(s: Seq<(u64, V)>, k: u64) -> Option<u64> {
    if has_key(s, k) && slot(s, k) > 0 {
        Some(s[slot(s, k) - 1].0)
    } else {
        None
    }
}

/// The inspector after `key` is pressed in its window: the selection moves
/// to the next or previous entity of `es`, if there is one.
pub open spec fn navigated(v: InspectorView, es: Seq<(u64, EntityDataView)>, key: InspectorKey) -> InspectorView {
    match v.entity_selected {
        Some(sel) => {
            let next = match key {
                InspectorKey::Down => key_after(es, sel),
                InspectorKey::Up => key_before(es, sel),
                InspectorKey::Other => None,
            };
            match next {
                Some(n) => InspectorView { entity_selected: Some(n), ..v },
                None => v,
            }
        },
        None => v,
    }
}

impl DebugInspector {
    /// Builds the widget to draw from the cache, selecting the first entity
    /// and the first component of the selected entity when nothing is
    /// selected yet.
    pub fn construct_widget(&mut self, cache: &InspectorCache) -> (w: DebugInspectorWidget)
        requires
            cache_wf(cache@),
        ensures
            ({
                let es = cache@.entity_data;
                let sel = select_first(old(self)@.entity_selected, es);
                &&& final(self)@.entity_selected == sel
                &&& final(self)@.height == old(self)@.height
                &&& final(self)@.entity_offset == old(self)@.entity_offset
                &&& final(self)@.component_offset == old(self)@.component_offset
                &&& lines_text(w.entity_lines@) == entity_lines_of(es)
                &&& w.entity_selected == key_index(es, sel)
                &&& if sel is Some && has_key(es, sel->0) {
                    let cs = es[slot(es, sel->0)].1.components;
                    let csel = select_first(old(self)@.component_selected, cs);
                    &&& final(self)@.component_selected == csel
                    &&& lines_text(w.component_lines@) == component_lines_of(cs)
                    &&& w.component_selected == key_index(cs, csel)
                } else {
                    &&& final(self)@.component_selected == old(self)@.component_selected
                    &&& w.component_lines@.len() == 0
                    &&& w.component_selected is None
                }
            }),
    {
        let ghost es = cache@.entity_data;
        let data = &cache.entity_data;
        let mut entity_lines: Vec<String> = Vec::new();
        let mut entity_selected: Option<usize> = None;
        let mut component_lines: Vec<String> = Vec::new();
        let mut component_selected: Option<usize> = None;
        if self.entity_selected.is_none() && data.len() > 0 {
            self.entity_selected = Some(data[0].0);
        }
        let sel = self.entity_selected;
        proof {
            if sel is Some {
                lemma_slot(es.take(0), sel->0, 0);
            }
        }
        for i in 0..data.len()
            invariant
                es == data_text(data@),
                cache_wf(cache@),
                es == cache@.entity_data,
                lines_text(entity_lines@) == entity_lines_of(es.take(i as int)),
                entity_selected == key_index(es.take(i as int), sel),
                keys_sorted(es.take(i as int)),
        {
            assert(es[i as int].0 == data@[i as int].0);
            assert(entity_bits(es[i as int].0));
            let line = data[i].1.format_line(data[i].0);
            let ghost prev = lines_text(entity_lines@);
            entity_lines.push(line);
            proof {
                assert(lines_text(entity_lines@) =~= prev.push(line@));
                assert(entity_lines_of(es.take(i + 1)) =~= entity_lines_of(es.take(i as int)).push(
                    entity_line_text(es[i as int].0, es[i as int].1.name),
                ));
            }
            if sel == Some(data[i].0) {
                entity_selected = Some(i);
            }
            proof {
                lemma_key_index_extend(es, i as int, sel);
            }
        }
        assert(es.take(data.len() as int) =~= es);
        let ghost after_entities = self@;
        match sel {
            Some(e) => {
                match entity_selected {
                    Some(i) => {
                        proof {
                            let w = slot_witness(es, e);
                            lemma_slot(es, e, w);
                        }
                        assert(has_key(es, e) && i == slot(es, e));
                        let comps = &data[i].1.components;
                        let ghost cs = es[i as int].1.components;
                        assert(cs == entries_text(comps@));
                        if self.component_selected.is_none() && comps.len() > 0 {
                            self.component_selected = Some(comps[0].0);
                        }
                        let csel = self.component_selected;
                        proof {
                            if csel is Some {
                                lemma_slot(cs.take(0), csel->0, 0);
                            }
                            assert(keys_sorted(cs));
                        }
                        for j in 0..comps.len()
                            invariant
                                cs == entries_text(comps@),
                                keys_sorted(cs),
                                lines_text(component_lines@) == component_lines_of(cs.take(j as int)),
                                component_selected == key_index(cs.take(j as int), csel),
                                keys_sorted(cs.take(j as int)),
                        {
                            assert(cs[j as int].0 == comps@[j as int].0);
                            let ghost prev = lines_text(component_lines@);
                            component_lines.push(comps[j].1.clone());
                            proof {
                                assert(lines_text(component_lines@) =~= prev.push(cs[j as int].1));
                                assert(component_lines_of(cs.take(j + 1)) =~= component_lines_of(
                                    cs.take(j as int),
                                ).push(cs[j as int].1));
                            }
                            if csel == Some(comps[j].0) {
                                component_selected = Some(j);
                            }
                            proof {
                                lemma_key_index_extend(cs, j as int, csel);
                            }
                        }
                        assert(cs.take(comps.len() as int) =~= cs);
                    },
                    None => {},
                }
            },
            None => {},
        }
        DebugInspectorWidget { entity_lines, entity_selected, component_lines, component_selected }
    }

    /// Moves the selection on `key`: to the next entity on [`InspectorKey::Down`],
    /// to the previous one on [`InspectorKey::Up`]; nothing changes at either
    /// end of the list, or when nothing is selected.
    pub fn navigate(&mut self, cache: &InspectorCache, key: InspectorKey)
        requires
            cache_wf(cache@),
        ensures
            final(self)@ == navigated(old(self)@, cache@.entity_data, key),
    {
        let ghost es = cache@.entity_data;
        match self.entity_selected {
            Some(sel) => {
                let data = &cache.entity_data;
                let i = cache.find_entity(sel);
                if i < data.len() && data[i].0 == sel {
                    assert(es[i as int].0 == data@[i as int].0);
                    match key {
                        InspectorKey::Down => {
                            if i + 1 < data.len() {
                                assert(es[i + 1].0 == data@[i + 1].0);
                                self.entity_selected = Some(data[i + 1].0);
                            }
                        },
                        InspectorKey::Up => {
                            if i > 0 {
                                assert(es[i - 1].0 == data@[i - 1].0);
                                self.entity_selected = Some(data[i - 1].0);
                            }
                        },
                        InspectorKey::Other => {},
                    }
                }
            },
            None => {},
        }
    }
}

/// Extending a sorted list by one entry extends the position of a key.
proof fn lemma_key_index_extend<V>(s: Seq<(u64, V)>, i: int, k: Option<u64>)
    requires
        keys_sorted(s),
        0 <= i < s.len(),
    ensures
        keys_sorted(s.take(i + 1)),
        key_index(s.take(i + 1), k) == if k == Some(s[i].0) {
            Some(i as usize)
        } else {
            key_index(s.take(i), k)
        },
{
    let a = s.take(i);
    let b = s.take(i + 1);
    assert(keys_sorted(b)) by {
        assert forall|x: int, y: int| 0 <= x < y < b.len() implies #[trigger] b[x].0
            < #[trigger] b[y].0 by {
            assert(s[x].0 < s[y].0);
        }
    }
    assert(keys_sorted(a)) by {
        assert forall|x: int, y: int| 0 <= x < y < a.len() implies #[trigger] a[x].0
            < #[trigger] a[y].0 by {
            assert(s[x].0 < s[y].0);
        }
    }
    match k {
        Some(key) => {
            if key == s[i].0 {
                assert(is_slot(b, key, i)) by {
                    assert forall|j: int| 0 <= j < i implies #[trigger] b[j].0 < key by {
                        assert(s[j].0 < s[i].0);
                    }
                }
                lemma_slot(b, key, i);
            } else if key < s[i].0 {
                let c = choose|c: int| is_slot(b, key, c);
                let ca = slot_witness(a, key);
                lemma_slot(a, key, ca);
                assert(is_slot(b, key, ca)) by {
                    if ca == a.len() {
                        assert forall|j: int| 0 <= j < ca implies #[trigger] b[j].0 < key by {
                            assert(b[j] == a[j]);
                        }
                    }
                }
                lemma_slot(b, key, ca);
            } else {
                let ca = slot_witness(a, key);
                lemma_slot(a, key, ca);
                assert(ca == a.len()) by {
                    if ca < a.len() {
                        assert(a[ca].0 < s[i].0);
                    }
                }
                assert(is_slot(b, key, b.len() as int)) by {
                    assert forall|j: int| 0 <= j < b.len() implies #[trigger] b[j].0 < key by {
                        if j < a.len() {
                            assert(b[j] == a[j]);
                        }
                    }
                }
                lemma_slot(b, key, b.len() as int);
            }
        },
        None => {},
    }
}

/// A key press in a window.
#[derive(Clone, Copy, Debug, PartialEq, Eq, Structural)]
pub struct KeyEvent {
    pub key: InspectorKey,
    /// The key went down, rather than up.
    pub pressed: bool,
    /// The window the key was pressed in.
    pub window: u64,
}

/// The inspectors, each with the window it draws to, if any.
pub open spec fn inspectors_view(s: Seq<(DebugInspector, Option<u64>)>) -> Seq<(InspectorView, Option<u64>)> {
    s.map_values(|p: (DebugInspector, Option<u64>)| (p.0@, p.1))
}

/// The inspectors after event `ev`: each inspector drawn to the window of a
/// pressed key moves its selection.
pub open spec fn pressing(v: Seq<(InspectorView, Option<u64>)>, es: Seq<(u64, EntityDataView)>, ev: KeyEvent) -> Seq<(InspectorView, Option<u64>)> {
    v.map_values(
        |p: (InspectorView, Option<u64>)|
            if ev.pressed && p.1 == Some(ev.window) {
                (navigated(p.0, es, ev.key), p.1)
            } else {
                p
            },
    )
}

/// The inspectors after the events `evs`, in order.
pub open spec fn listening(v: Seq<(InspectorView, Option<u64>)>, es: Seq<(u64, EntityDataView)>, evs: Seq<KeyEvent>) -> Seq<(InspectorView, Option<u64>)>
    decreases evs.len(),
{
    if evs.len() == 0 {
        v
    } else {
        pressing(listening(v, es, evs.drop_last()), es, evs.last())
    }
}

/// Moves the selection of every inspector drawn to the window of each key
/// pressed, in the order of the events.
pub fn listen_for_keys(
    events: &Vec<KeyEvent>,
    inspectors: &mut Vec<(DebugInspector, Option<u64>)>,
    cache: &InspectorCache,
)
    requires
        cache_wf(cache@),
    ensures
        inspectors_view(final(inspectors)@) == listening(
            inspectors_view(old(inspectors)@),
            cache@.entity_data,
            events@,
        ),
{
    let ghost es = cache@.entity_data;
    for i in 0..events.len()
        invariant
            cache_wf(cache@),
            es == cache@.entity_data,
            inspectors_view(inspectors@) == listening(
                inspectors_view(old(inspectors)@),
                es,
                events@.take(i as int),
            ),
    {
        let ev = events[i];
        let ghost cur = inspectors_view(inspectors@);
        proof {
            assert(events@.take(i + 1).drop_last() =~= events@.take(i as int));
        }
        let n = inspectors.len();
        assert(cur.len() == n);
        for j in 0..n
            invariant
                cache_wf(cache@),
                es == cache@.entity_data,
                n == cur.len(),
                inspectors@.len() == cur.len(),
                forall|k: int|
                    0 <= k < j ==> #[trigger] inspectors_view(inspectors@)[k] == pressing(
                        cur,
                        es,
                        ev,
                    )[k],
                forall|k: int| j <= k < cur.len() ==> #[trigger] inspectors_view(inspectors@)[k] == cur[k],
        {
            let (mut inspector, target) = inspectors[j];
            let ghost before = inspectors_view(inspectors@);
            let ghost old_view = inspector@;
            assert(before[j as int] == cur[j as int]);
            assert(cur[j as int] == (old_view, target));
            if ev.pressed && target == Some(ev.window) {
                inspector.navigate(cache, ev.key);
            }
            inspectors.set(j, (inspector, target));
            proof {
                assert forall|k: int| 0 <= k < j + 1 implies #[trigger] inspectors_view(
                    inspectors@,
                )[k] == pressing(cur, es, ev)[k] by {
                    if k < j {
                        assert(inspectors_view(inspectors@)[k] == before[k]);
                    } else {
                        assert(inspectors_view(inspectors@)[k] == (inspector@, target));
                    }
                }
                assert forall|k: int| j + 1 <= k < cur.len() implies #[trigger] inspectors_view(
                    inspectors@,
                )[k] == cur[k] by {
                    assert(inspectors_view(inspectors@)[k] == before[k]);
                }
            }
        }
        assert(inspectors_view(inspectors@) =~= pressing(cur, es, ev));
    }
    assert(events@.take(events.len() as int) =~= events@);
}

/// The entities selected in the inspectors, in order.
pub open spec fn selections(v: Seq<InspectorView>) -> Seq<u64>
    decreases v.len(),
{
    if v.len() == 0 {
        Seq::empty()
    } else {
        match v.last().entity_selected {
            Some(e) => selections(v.drop_last()).push(e),
            None => selections(v.drop_last()),
        }
    }
}

/// Replaces the queries of the cache with the entities selected in the
/// inspectors.
pub fn batch_queries(cache: &mut InspectorCache, inspectors: &Vec<DebugInspector>)
    ensures
        final(cache)@.query_ranges == Seq::<(u64, u64)>::empty(),
        final(cache)@.query_entities == selections(
            inspectors@.map_values(|i: DebugInspector| i@),
        ),
        final(cache)@.entity_data == old(cache)@.entity_data,
{
    cache.clear_queries();
    for i in 0..inspectors.len()
        invariant
            cache@.query_ranges == Seq::<(u64, u64)>::empty(),
            cache@.query_entities == selections(
                inspectors@.take(i as int).map_values(|x: DebugInspector| x@),
            ),
            cache@.entity_data == old(cache)@.entity_data,
    {
        proof {
            assert(inspectors@.take(i + 1).map_values(|x: DebugInspector| x@).drop_last()
                =~= inspectors@.take(i as int).map_values(|x: DebugInspector| x@));
        }
        cache.add_query(&inspectors[i]);
    }
    proof {
        assert(inspectors@.take(inspectors.len() as int) =~= inspectors@);
        assert(inspectors@.take(0).map_values(|x: DebugInspector| x@) =~= Seq::<InspectorView>::empty());
    }
}

/// Moving the selection down and then up again returns to the entity it
/// started from, wherever there is a next entity.
pub proof fn lemma_down_then_up(v: InspectorView, c: CacheView)
    requires
        cache_wf(c),
        v.entity_selected is Some,
        key_after(c.entity_data, v.entity_selected->0) is Some,
    ensures
        navigated(navigated(v, c.entity_data, InspectorKey::Down), c.entity_data, InspectorKey::Up)
            == v,
{
    let es = c.entity_data;
    let sel = v.entity_selected->0;
    let w = slot_witness(es, sel);
    lemma_slot(es, sel, w);
    let i = slot(es, sel);
    let n = es[i + 1].0;
    assert(is_slot(es, n, i + 1)) by {
        assert forall|j: int| 0 <= j < i + 1 implies #[trigger] es[j].0 < n by {
            assert(es[j].0 < es[i + 1].0);
        }
    }
    lemma_slot(es, n, i + 1);
    assert(has_key(es, n));
}

/// Moving the selection up and then down again returns to the entity it
/// started from, wherever there is a previous entity.
pub proof fn lemma_up_then_down(v: InspectorView, c: CacheView)
    requires
        cache_wf(c),
        v.entity_selected is Some,
        key_before(c.entity_data, v.entity_selected->0) is Some,
    ensures
        navigated(navigated(v, c.entity_data, InspectorKey::Up), c.entity_data, InspectorKey::Down)
            == v,
{
    let es = c.entity_data;
    let sel = v.entity_selected->0;
    let w = slot_witness(es, sel);
    lemma_slot(es, sel, w);
    let i = slot(es, sel);
    let p = es[i - 1].0;
    assert(is_slot(es, p, i - 1)) by {
        assert forall|j: int| 0 <= j < i - 1 implies #[trigger] es[j].0 < p by {
            assert(es[j].0 < es[i - 1].0);
        }
    }
    lemma_slot(es, p, i - 1);
    assert(has_key(es, p));
}

} // verus!
