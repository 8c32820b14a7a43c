//! The uniform mirror: for each extracted entry whose material handle
//! resolves to a live buffer, one full overwrite of that buffer, at offset 0,
//! with the encoded block; entries whose handle does not resolve are skipped.
use vstd::prelude::*;
use crate::extract::{EntryView, Snapshot};
use crate::layout::{block_size, encode, encoded, fits, lemma_encoded_len, schema_wf, UniformSchema};
use crate::record::{CoolMaterial, MaterialView};

verus! {

/// One upload into a GPU buffer.
#[derive(Debug)]
pub struct BufferWrite {
    pub buffer: u64,
    pub offset: usize,
    pub bytes: Vec<u8>,
}

pub ghost struct WriteView {
    pub buffer: u64,
    pub offset: nat,
    pub bytes: Seq<u8>,
}

impl View for BufferWrite {
    type V = WriteView;

    open spec fn view(&self) -> WriteView {
        WriteView { buffer: self.buffer, offset: self.offset as nat, bytes: self.bytes@ }
    }
}

pub open spec fn writes_view(ws: Seq<BufferWrite>) -> Seq<WriteView> {
    ws.map_values(|w: BufferWrite| w@)
}

/// The buffer that `table` binds to material handle `h`: the first pair for
/// `h`, if there is one.
pub open spec fn resolved(table: Seq<(u64, u64)>, h: u64) -> Option<u64>
    decreases table.len(),
{
    if table.len() == 0 {
        None
    } else if table[0].0 == h {
        Some(table[0].1)
    } else {
        resolved(table.drop_first(), h)
    }
}

/// The write that mirrors `m` into `buffer`, if there is a buffer.
pub open spec fn planned_write(m: MaterialView, buffer: Option<u64>) -> Option<WriteView> {
    match buffer {
        Some(b) => Some(WriteView { buffer: b, offset: 0, bytes: encoded(m) }),
        None => None,
    }
}

/// The writes of one frame, in snapshot order.
pub open spec fn planned_writes(es: Seq<EntryView>, table: Seq<(u64, u64)>) -> Seq<WriteView>
    decreases es.len(),
{
    if es.len() == 0 {
        Seq::empty()
    } else {
        let before = planned_writes(es.drop_last(), table);
        match planned_write(es.last().input, resolved(table, es.last().handle)) {
            Some(w) => before.push(w),
            None => before,
        }
    }
}

/// Looks up the buffer bound to a material handle.
pub fn resolve(table: &Vec<(u64, u64)>, h: u64) -> (r: Option<u64>)
    ensures
        r == resolved(table@, h),
{
    let mut i: usize = 0;
    assert(table@.subrange(0, table@.len() as int) =~= table@);
    while i < table.len()
        invariant
            i <= table.len(),
            resolved(table@, h) == resolved(table@.subrange(i as int, table@.len() as int), h),
        decreases table.len() - i,
    {
        let ghost rest = table@.subrange(i as int, table@.len() as int);
        assert(rest.drop_first() =~= table@.subrange(i + 1, table@.len() as int));
        if table[i].0 == h {
            return Some(table[i].1);
        }
        i = i + 1;
    }
    None
}

/// Mirrors one material into its resolved buffer: the whole encoded block at
/// offset 0, or nothing at all when no buffer resolved.
pub fn mirror_entry(input: &CoolMaterial, buffer: Option<u64>) -> (r: Option<BufferWrite>)
    ensures
        r is None <==> buffer is None,
        r matches Some(w) ==> Some(w@) == planned_write(input@, buffer),
{
    match buffer {
        Some(b) => Some(BufferWrite { buffer: b, offset: 0, bytes: encode(input) }),
        None => None,
    }
}

/// The preparation step: one write per snapshot entry whose handle resolves
/// through `table`, in snapshot order.
pub fn prepare(snapshot: &Snapshot, table: &Vec<(u64, u64)>) -> (r: Vec<BufferWrite>)
    requires
        snapshot.wf(),
    ensures
        writes_view(r@) == planned_writes(snapshot.entries(), table@),
{
    let mut out: Vec<BufferWrite> = Vec::new();
    let n = snapshot.len();
    let mut i: usize = 0;
    while i < n
        invariant
            i <= n,
            n == snapshot.entries().len(),
            writes_view(out@) == planned_writes(snapshot.entries().subrange(0, i as int), table@),
        decreases n - i,
    {
        let e = snapshot.entry(i);
        let buffer = resolve(table, e.handle);
        let w = mirror_entry(&e.input, buffer);
        let ghost es = snapshot.entries().subrange(0, i + 1);
        assert(es.drop_last() =~= snapshot.entries().subrange(0, i as int));
        match w {
            Some(w) => {
                out.push(w);
                assert(writes_view(out@) =~= planned_writes(es, table@));
            },
            None => {
                assert(writes_view(out@) =~= planned_writes(es, table@));
            },
        }
        i = i + 1;
    }
    assert(snapshot.entries().subrange(0, i as int) =~= snapshot.entries());
    out
}

/// A frame makes at most one write per snapshot entry, each a full overwrite
/// at offset 0 of exactly one block of the schema the entries fit.
pub proof fn lemma_writes_per_frame(s: UniformSchema, es: Seq<EntryView>, table: Seq<(u64, u64)>)
    requires
        schema_wf(s),
        forall|i: int| 0 <= i < es.len() ==> fits(s, #[trigger] es[i].input),
    ensures
        planned_writes(es, table).len() <= es.len(),
        forall|k: int|
            0 <= k < planned_writes(es, table).len() ==> (#[trigger] planned_writes(es, table)[k]).offset
                == 0 && planned_writes(es, table)[k].bytes.len() == block_size(s),
    decreases es.len(),
{
    if es.len() > 0 {
        let p = es.drop_last();
        assert forall|i: int| 0 <= i < p.len() implies fits(s, #[trigger] p[i].input) by {
            assert(p[i] == es[i]);
        }
        lemma_writes_per_frame(s, p, table);
        assert(fits(s, es[es.len() - 1].input));
        lemma_encoded_len(es.last().input);
    }
}

/// An entry whose handle does not resolve adds no write to the frame.
pub proof fn lemma_unresolved_skipped(es: Seq<EntryView>, e: EntryView, table: Seq<(u64, u64)>)
    requires
        resolved(table, e.handle) is None,
    ensures
        planned_writes(es.push(e), table) == planned_writes(es, table),
{
    assert(es.push(e).drop_last() =~= es);
}

} // verus!
