//! The render-side snapshot: a value copy of every entity's material inputs
//! and material handle, keyed by entity, refreshed once per frame.
use vstd::prelude::*;
use crate::record::{CoolMaterial, MaterialView};

verus! {

/// One entity's extracted inputs.
#[derive(Debug)]
pub struct SnapshotEntry {
    pub entity: u64,
    pub input: CoolMaterial,
    pub handle: u64,
}

pub ghost struct EntryView {
    pub entity: u64,
    pub input: MaterialView,
    pub handle: u64,
}

impl View for SnapshotEntry {
    type V = EntryView;

    open spec fn view(&self) -> EntryView {
        EntryView { entity: self.entity, input: self.input@, handle: self.handle }
    }
}

impl SnapshotEntry {
    pub fn new(entity: u64, input: CoolMaterial, handle: u64) -> (r: SnapshotEntry)
        ensures
            r@ == (EntryView { entity, input: input@, handle }),
    {
        SnapshotEntry { entity, input, handle }
    }
}

/// What an entity maps to in a snapshot: its inputs and its material handle.
pub type Extracted = (MaterialView, u64);

pub open spec fn entries_view(es: Seq<SnapshotEntry>) -> Seq<EntryView> {
    es.map_values(|e: SnapshotEntry| e@)
}

/// The map that a list of entries stands for; a later entry for the same
/// entity overrides an earlier one.
pub open spec fn entries_map(es: Seq<EntryView>) -> Map<u64, Extracted>
    decreases es.len(),
{
    if es.len() == 0 {
        Map::empty()
    } else {
        entries_map(es.drop_last()).insert(es.last().entity, (es.last().input, es.last().handle))
    }
}

pub open spec fn unique_entities(es: Seq<EntryView>) -> bool {
    forall|i: int, j: int|
        0 <= i < j < es.len() ==> #[trigger] es[i].entity != #[trigger] es[j].entity
}

/// The snapshot after extracting `src` into `m`, one entity after another.
pub open spec fn extracted(m: Map<u64, Extracted>, src: Seq<EntryView>) -> Map<u64, Extracted>
    decreases src.len(),
{
    if src.len() == 0 {
        m
    } else {
        extracted(m, src.drop_last()).insert(src.last().entity, (src.last().input, src.last().handle))
    }
}

/// The render-side store of extracted entries, at most one per entity.
#[derive(Debug)]
pub struct Snapshot {
    entries: Vec<SnapshotEntry>,
}

impl View for Snapshot {
    type V = Map<u64, Extracted>;

    closed spec fn view(&self) -> Map<u64, Extracted> {
        entries_map(entries_view(self.entries@))
    }
}

proof fn lemma_map_update(es: Seq<EntryView>, j: int, e: EntryView)
    requires
        unique_entities(es),
        0 <= j < es.len(),
        es[j].entity == e.entity,
    ensures
        unique_entities(es.update(j, e)),
        entries_map(es.update(j, e)) == entries_map(es).insert(e.entity, (e.input, e.handle)),
    decreases es.len(),
{
    let u = es.update(j, e);
    assert forall|a: int, b: int| 0 <= a < b < u.len() implies #[trigger] u[a].entity
        != #[trigger] u[b].entity by {
        assert(es[a].entity != es[b].entity);
    }
    if j == es.len() - 1 {
        assert(u.drop_last() =~= es.drop_last());
        assert(entries_map(u) == entries_map(es.drop_last()).insert(e.entity, (e.input, e.handle)));
        assert(entries_map(es).insert(e.entity, (e.input, e.handle)) =~= entries_map(
            es.drop_last(),
        ).insert(e.entity, (e.input, e.handle)));
    } else {
        let p = es.drop_last();
        assert(u.drop_last() =~= p.update(j, e));
        assert(unique_entities(p));
        lemma_map_update(p, j, e);
        assert(es.last() == u.last());
        assert(es.last().entity != e.entity);
        assert(entries_map(u) =~= entries_map(es).insert(e.entity, (e.input, e.handle)));
    }
}

impl Snapshot {
    pub closed spec fn wf(&self) -> bool {
        unique_entities(entries_view(self.entries@))
    }

    /// The entries in store order.
    pub closed spec fn entries(&self) -> Seq<EntryView> {
        entries_view(self.entries@)
    }

    pub proof fn lemma_entries(&self)
        requires
            self.wf(),
        ensures
            unique_entities(self.entries()),
            self@ == entries_map(self.entries()),
    {
    }

    /// An empty snapshot.
    pub fn new() -> (r: Snapshot)
        ensures
            r.wf(),
            r@ == Map::<u64, Extracted>::empty(),
            r.entries().len() == 0,
    {
        let r = Snapshot { entries: Vec::new() };
        assert(entries_view(r.entries@) =~= Seq::<EntryView>::empty());
        r
    }

    /// Number of entities in the snapshot.
    pub fn len(&self) -> (r: usize)
        ensures
            r == self.entries().len(),
    {
        self.entries.len()
    }

    /// The entry at position `i`.
    pub fn entry(&self, i: usize) -> (r: &SnapshotEntry)
        requires
            i < self.entries().len(),
        ensures
            r@ == self.entries()[i as int],
    {
        &self.entries[i]
    }

    /// Position of `entity` in the snapshot, if it is there.
    pub fn find(&self, entity: u64) -> (r: Option<usize>)
        requires
            self.wf(),
        ensures
            r is None <==> !self@.contains_key(entity),
            r matches Some(i) ==> i < self.entries().len() && self.entries()[i as int].entity
                == entity,
            r is None ==> forall|k: int|
                0 <= k < self.entries().len() ==> self.entries()[k].entity != entity,
    {
        let mut i: usize = 0;
        while i < self.entries.len()
            invariant
                i <= self.entries.len(),
                forall|k: int| 0 <= k < i ==> entries_view(self.entries@)[k].entity != entity,
            decreases self.entries.len() - i,
        {
            if self.entries[i].entity == entity {
                proof {
                    self.lemma_contains(i as int);
                }
                return Some(i);
            }
            i = i + 1;
        }
        proof {
            self.lemma_absent(entity);
        }
        None
    }

    proof fn lemma_contains(&self, i: int)
        requires
            0 <= i < self.entries@.len(),
        ensures
            self@.contains_key(self.entries()[i].entity),
    {
        lemma_contains_key(entries_view(self.entries@), i);
    }

    proof fn lemma_absent(&self, id: u64)
        requires
            forall|k: int| 0 <= k < self.entries@.len() ==> entries_view(self.entries@)[k].entity != id,
        ensures
            !self@.contains_key(id),
    {
        lemma_not_contains_key(entries_view(self.entries@), id);
    }

    /// Copies one entity's inputs and handle in: updates the entity's entry in
    /// place, or adds one on first encounter.
    pub fn upsert(&mut self, entity: u64, input: &CoolMaterial, handle: u64)
        requires
            old(self).wf(),
        ensures
            final(self).wf(),
            final(self)@ == old(self)@.insert(entity, (input@, handle)),
    {
        let copy = input.copy();
        let e = SnapshotEntry { entity, input: copy, handle };
        match self.find(entity) {
            Some(j) => {
                proof {
                    lemma_map_update(entries_view(self.entries@), j as int, e@);
                }
                self.entries.set(j, e);
                assert(entries_view(self.entries@) =~= entries_view(old(self).entries@).update(
                    j as int,
                    e@,
                ));
            },
            None => {
                self.entries.push(e);
                let ghost v = entries_view(self.entries@);
                assert(v.drop_last() =~= entries_view(old(self).entries@));
                assert forall|a: int, b: int| 0 <= a < b < v.len() implies #[trigger] v[a].entity
                    != #[trigger] v[b].entity by {
                    assert(v[a] == entries_view(old(self).entries@)[a]);
                    if b < v.len() - 1 {
                        assert(v[b] == entries_view(old(self).entries@)[b]);
                    } else {
                        assert(v[b] == e@);
                        assert(old(self).entries()[a].entity != entity);
                    }
                }
            },
        }
    }
}

proof fn lemma_contains_key(es: Seq<EntryView>, i: int)
    requires
        0 <= i < es.len(),
    ensures
        entries_map(es).contains_key(es[i].entity),
    decreases es.len(),
{
    if i < es.len() - 1 {
        lemma_contains_key(es.drop_last(), i);
        assert(es.drop_last()[i] == es[i]);
    }
}

proof fn lemma_not_contains_key(es: Seq<EntryView>, id: u64)
    requires
        forall|k: int| 0 <= k < es.len() ==> es[k].entity != id,
    ensures
        !entries_map(es).contains_key(id),
    decreases es.len(),
{
    if es.len() > 0 {
        let p = es.drop_last();
        assert forall|k: int| 0 <= k < p.len() implies p[k].entity != id by {
            assert(p[k] == es[k]);
        }
        lemma_not_contains_key(p, id);
    }
}

/// The extraction step: copies every source entry (entity, inputs, handle)
/// of the simulation side into the snapshot, by value.
pub fn extract(snapshot: &mut Snapshot, sources: &Vec<SnapshotEntry>)
    requires
        old(snapshot).wf(),
    ensures
        final(snapshot).wf(),
        final(snapshot)@ == extracted(old(snapshot)@, entries_view(sources@)),
{
    let mut i: usize = 0;
    while i < sources.len()
        invariant
            i <= sources.len(),
            snapshot.wf(),
            snapshot@ == extracted(old(snapshot)@, entries_view(sources@).subrange(0, i as int)),
        decreases sources.len() - i,
    {
        let s = &sources[i];
        snapshot.upsert(s.entity, &s.input, s.handle);
        let ghost src = entries_view(sources@);
        assert(src.subrange(0, i + 1).drop_last() =~= src.subrange(0, i as int));
        i = i + 1;
    }
    assert(entries_view(sources@).subrange(0, i as int) =~= entries_view(sources@));
}

proof fn lemma_extracted_union(m: Map<u64, Extracted>, src: Seq<EntryView>)
    ensures
        extracted(m, src) == m.union_prefer_right(entries_map(src)),
    decreases src.len(),
{
    if src.len() > 0 {
        lemma_extracted_union(m, src.drop_last());
        assert(extracted(m, src) =~= m.union_prefer_right(entries_map(src)));
    }
}

/// Extracting the same sources twice in a row, with no change to them in
/// between, leaves the snapshot as the first extraction made it.
pub proof fn lemma_extract_idempotent(m: Map<u64, Extracted>, src: Seq<EntryView>)
    ensures
        extracted(extracted(m, src), src) == extracted(m, src),
{
    lemma_extracted_union(m, src);
    lemma_extracted_union(extracted(m, src), src);
    assert(extracted(m, src).union_prefer_right(entries_map(src)) =~= extracted(m, src));
}

/// After an extraction every source entity is in the snapshot, with the
/// inputs and handle of its last source entry; other entities keep theirs.
pub proof fn lemma_extracted_contents(m: Map<u64, Extracted>, src: Seq<EntryView>, id: u64)
    ensures
        entries_map(src).contains_key(id) ==> extracted(m, src).contains_key(id)
            && extracted(m, src)[id] == entries_map(src)[id],
        !entries_map(src).contains_key(id) ==> (extracted(m, src).contains_key(id)
            <==> m.contains_key(id)),
        !entries_map(src).contains_key(id) && m.contains_key(id) ==> extracted(m, src)[id]
            == m[id],
{
    lemma_extracted_union(m, src);
}

} // verus!
