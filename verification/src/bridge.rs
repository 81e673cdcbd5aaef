//! The per-index coordination state: the descriptor, the monotonic id
//! counter, and the id-to-text map.
//!
//! The engine handles themselves, the write permit and the log file are
//! owned by the surrounding runtime; every decision about id allocation,
//! validation and the text map is made here. The runtime must hold the
//! index's write permit across any call that takes `&mut self`, so that
//! writes are serialized per index.

use vstd::prelude::*;
use crate::errors::BridgeError;
use crate::snapshot::{IndexMetadata, MetadataView, pairs_view};
use crate::text_map::TextMap;

verus! {

/// The coordination state of one named bridge index.
#[derive(Debug)]
pub struct BridgeIndex {
    pub name: String,
    pub dimension: i32,
    pub k: i64,
    pub next_id: i64,
    pub texts: TextMap,
}

impl BridgeIndex {
    /// The descriptor is valid and the id counter never ran backwards.
    pub open spec fn wf(&self) -> bool {
        &&& self.dimension > 0
        &&& self.next_id >= 0
        &&& self.texts@.dom().finite()
    }

    /// A fresh index: the id counter starts at zero and the text map is
    /// empty.
    pub fn new(name: String, dimension: i32, k: i64) -> (r: BridgeIndex)
        requires
            0 < dimension,
        ensures
            r.wf(),
            r.name@ == name@,
            r.dimension == dimension,
            r.k == k,
            r.next_id == 0,
            r.texts@ == Map::<i64, Seq<char>>::empty(),
    {
        BridgeIndex { name, dimension, k, next_id: 0, texts: TextMap::new() }
    }

    /// Add one document. The vector's length is validated against the
    /// index dimension before an id is allocated, so a rejected call
    /// burns no id; a successful call hands out the current counter
    /// value, advances the counter, and records the text under the new
    /// id. The caller dispatches the vector and the text to the engines
    /// under the same write permit.
    pub fn add(&mut self, text: String, vector: &Vec<u32>) -> (r: Result<i64, BridgeError>)
        requires
            old(self).wf(),
            old(self).next_id < i64::MAX,
        ensures
            final(self).wf(),
            final(self).name == old(self).name,
            final(self).dimension == old(self).dimension,
            final(self).k == old(self).k,
            (r is Ok) == (vector@.len() == old(self).dimension as int),
            r matches Ok(id) ==> id == old(self).next_id && final(self).next_id == old(
                self,
            ).next_id + 1 && final(self).texts@ == old(self).texts@.insert(id, text@),
            r is Err ==> *final(self) == *old(self),
            r matches Err(e) ==> e is Validation,
    {
        if vector.len() != self.dimension as usize {
            return Err(BridgeError::Validation("vector dimension mismatch".to_owned()));
        }
        let id = self.next_id;
        self.next_id = self.next_id + 1;
        self.texts.insert(id, text);
        Ok(id)
    }

    /// Add a batch of documents under one permit acquisition: every
    /// vector is validated before any id is allocated, and an empty
    /// batch is rejected; the whole batch fails on the first violation.
    /// On success the documents receive consecutive ids starting at the
    /// current counter value.
    pub fn add_batch(&mut self, documents: Vec<(String, Vec<u32>)>) -> (r: Result<
        Vec<i64>,
        BridgeError,
    >)
        requires
            old(self).wf(),
            old(self).next_id + documents@.len() <= i64::MAX,
        ensures
            final(self).wf(),
            final(self).name == old(self).name,
            final(self).dimension == old(self).dimension,
            final(self).k == old(self).k,
            (r is Ok) == (documents@.len() > 0 && forall|i: int|
                0 <= i < documents@.len() ==> (#[trigger] documents@[i]).1@.len() == old(
                    self,
                ).dimension as int),
            r matches Ok(ids) ==> {
                &&& ids@.len() == documents@.len()
                &&& forall|i: int|
                    0 <= i < ids@.len() ==> #[trigger] ids@[i] == old(self).next_id + i
                &&& final(self).next_id == old(self).next_id + documents@.len()
                &&& final(self).texts@ == spec_batch_insert(
                    old(self).texts@,
                    documents@,
                    old(self).next_id as int,
                )
            },
            r is Err ==> *final(self) == *old(self),
            r matches Err(e) ==> e is Validation,
    {
        if documents.len() == 0 {
            return Err(BridgeError::Validation("empty batch".to_owned()));
        }
        let mut i: usize = 0;
        while i < documents.len()
            invariant
                i <= documents@.len(),
                old(self).wf(),
                self.dimension == old(self).dimension,
                forall|j: int|
                    0 <= j < i ==> (#[trigger] documents@[j]).1@.len() == old(
                        self,
                    ).dimension as int,
            decreases documents@.len() - i,
        {
            if documents[i].1.len() != self.dimension as usize {
                return Err(BridgeError::Validation("vector dimension mismatch".to_owned()));
            }
            i = i + 1;
        }
        let ghost base_texts = self.texts@;
        let ghost base_id = self.next_id as int;
        let ghost docs = documents@;
        let mut ids: Vec<i64> = Vec::new();
        let n = documents.len();
        let mut j: usize = 0;
        proof {
            assert(docs.subrange(0, 0) =~= Seq::<(String, Vec<u32>)>::empty());
        }
        while j < n
            invariant
                j <= n,
                n == docs.len(),
                docs == documents@,
                base_id + docs.len() <= i64::MAX,
                base_id >= 0,
                self.next_id as int == base_id + j,
                self.name == old(self).name,
                self.dimension == old(self).dimension,
                self.k == old(self).k,
                self.texts@.dom().finite(),
                self.texts@ == spec_batch_insert(base_texts, docs.subrange(0, j as int), base_id),
                ids@.len() == j,
                forall|i2: int| 0 <= i2 < j ==> #[trigger] ids@[i2] == base_id + i2,
            decreases n - j,
        {
            let id = self.next_id;
            self.next_id = self.next_id + 1;
            let text = documents[j].0.clone();
            proof {
                lemma_batch_insert_snoc(base_texts, docs.subrange(0, j as int), docs[j as int], base_id);
                assert(docs.subrange(0, j as int).push(docs[j as int]) =~= docs.subrange(
                    0,
                    j + 1,
                ));
            }
            self.texts.insert(id, text);
            ids.push(id);
            j = j + 1;
        }
        proof {
            assert(docs.subrange(0, n as int) =~= docs);
        }
        Ok(ids)
    }

    /// Remove the listed ids from the id-to-text map. The vector engine
    /// keeps the vectors themselves (tombstone semantics): a deleted id
    /// that still surfaces in a vector search resolves to the
    /// placeholder text.
    pub fn delete(&mut self, ids: &Vec<i64>)
        requires
            old(self).wf(),
        ensures
            final(self).wf(),
            final(self).name == old(self).name,
            final(self).dimension == old(self).dimension,
            final(self).k == old(self).k,
            final(self).next_id == old(self).next_id,
            final(self).texts@ == old(self).texts@.remove_keys(ids@.to_set()),
    {
        let ghost base = self.texts@;
        let mut i: usize = 0;
        proof {
            assert(ids@.subrange(0, 0).to_set() =~= Set::<i64>::empty());
            assert(base.remove_keys(Set::<i64>::empty()) =~= base);
        }
        while i < ids.len()
            invariant
                i <= ids@.len(),
                base == old(self).texts@,
                base.dom().finite(),
                self.texts@.dom().finite(),
                self.name == old(self).name,
                self.dimension == old(self).dimension,
                self.k == old(self).k,
                self.next_id == old(self).next_id,
                old(self).wf(),
                self.texts@ == base.remove_keys(ids@.subrange(0, i as int).to_set()),
            decreases ids@.len() - i,
        {
            let id = ids[i];
            proof {
                assert(ids@.subrange(0, i + 1).to_set() =~= ids@.subrange(0, i as int).to_set().insert(
                    ids@[i as int],
                )) by {
                    assert forall|x: i64|
                        ids@.subrange(0, i + 1).to_set().contains(x) <==> ids@.subrange(
                            0,
                            i as int,
                        ).to_set().insert(ids@[i as int]).contains(x) by {
                        if ids@.subrange(0, i + 1).contains(x) {
                            let k = choose|k: int|
                                0 <= k < i + 1 && #[trigger] ids@.subrange(0, i + 1)[k] == x;
                            if k < i {
                                assert(ids@.subrange(0, i as int)[k] == x);
                            }
                        }
                        if ids@.subrange(0, i as int).contains(x) {
                            let k = choose|k: int|
                                0 <= k < i && #[trigger] ids@.subrange(0, i as int)[k] == x;
                            assert(ids@.subrange(0, i + 1)[k] == x);
                        }
                        if x == ids@[i as int] {
                            assert(ids@.subrange(0, i + 1)[i as int] == x);
                        }
                    }
                }
                assert(base.remove_keys(ids@.subrange(0, i + 1).to_set()) =~= base.remove_keys(
                    ids@.subrange(0, i as int).to_set(),
                ).remove(ids@[i as int]));
            }
            self.texts.remove(id);
            i = i + 1;
        }
        proof {
            assert(ids@.subrange(0, ids@.len() as int) =~= ids@);
        }
    }

    /// Restore an index from a decoded metadata record: the descriptor,
    /// the id counter and the text map all come from the record. A record
    /// whose descriptor is invalid is rejected.
    pub fn from_metadata(meta: &IndexMetadata) -> (r: Result<BridgeIndex, BridgeError>)
        ensures
            (r is Ok) == (meta.dimension > 0 && meta.next_id >= 0),
            r matches Ok(b) ==> {
                &&& b.wf()
                &&& b.name@ == meta@.name
                &&& b.dimension == meta@.dimension
                &&& b.k == meta@.k
                &&& b.next_id == meta@.next_id
                &&& b.texts@ == spec_map_of(meta@.text_map)
            },
            r matches Err(e) ==> e is Persistence,
    {
        if meta.dimension <= 0 || meta.next_id < 0 {
            return Err(BridgeError::Persistence("invalid snapshot metadata".to_owned()));
        }
        let mut texts = TextMap::new();
        let ghost entries = meta@.text_map;
        let mut i: usize = 0;
        proof {
            assert(entries.subrange(0, 0) =~= Seq::<(i64, Seq<char>)>::empty());
        }
        while i < meta.text_map.len()
            invariant
                i <= meta.text_map@.len(),
                entries == meta@.text_map,
                entries.len() == meta.text_map@.len(),
                texts@.dom().finite(),
                texts@ == spec_map_of(entries.subrange(0, i as int)),
            decreases meta.text_map@.len() - i,
        {
            let id = meta.text_map[i].0;
            let text = meta.text_map[i].1.clone();
            proof {
                assert(entries.subrange(0, i + 1).drop_last() =~= entries.subrange(0, i as int));
                assert(entries.subrange(0, i + 1).last() == entries[i as int]);
                assert(entries[i as int] == (meta.text_map@[i as int].0, meta.text_map@[i as int].1@));
            }
            texts.insert(id, text);
            i = i + 1;
        }
        proof {
            assert(entries.subrange(0, entries.len() as int) =~= entries);
        }
        Ok(BridgeIndex { name: meta.name.clone(), dimension: meta.dimension, k: meta.k, next_id: meta.next_id, texts })
    }
}

impl IndexMetadata {
    /// Capture the runtime state of an index as a metadata record, with
    /// the caller's clock reading as the new generation id and timestamp.
    /// The entries list the text map exactly, in unspecified order.
    pub fn from_runtime(core: &BridgeIndex, now_ms: u64) -> (r: IndexMetadata)
        requires
            core.wf(),
        ensures
            r@.name == core.name@,
            r@.dimension == core.dimension,
            r@.k == core.k,
            r@.next_id == core.next_id,
            r@.snapshot_id == now_ms,
            r@.timestamp == now_ms,
            r@.text_map.len() == core.texts@.dom().len(),
            forall|i: int|
                0 <= i < r@.text_map.len() ==> core.texts@.contains_pair(
                    (#[trigger] r@.text_map[i]).0,
                    r@.text_map[i].1,
                ),
            forall|i: int, j: int|
                0 <= i < j < r@.text_map.len() ==> r@.text_map[i].0 != r@.text_map[j].0,
    {
        let entries = core.texts.entries();
        proof {
            assert forall|i: int| 0 <= i < entries@.len() implies core.texts@.contains_pair(
                (#[trigger] pairs_view(entries@)[i]).0,
                pairs_view(entries@)[i].1,
            ) by {
                assert(pairs_view(entries@)[i] == (entries@[i].0, entries@[i].1@));
            }
        }
        IndexMetadata {
            name: core.name.clone(),
            dimension: core.dimension,
            k: core.k,
            next_id: core.next_id,
            text_map: entries,
            snapshot_id: now_ms,
            timestamp: now_ms,
        }
    }
}

// ---------------------------------------------------------------------------
// Batch and restore semantics
// ---------------------------------------------------------------------------

/// The text map after a batch of documents is recorded under consecutive
/// ids starting at `base`.
pub open spec fn spec_batch_insert(
    m: Map<i64, Seq<char>>,
    docs: Seq<(String, Vec<u32>)>,
    base: int,
) -> Map<i64, Seq<char>>
    decreases docs.len(),
{
    if docs.len() == 0 {
        m
    } else {
        spec_batch_insert(m.insert(base as i64, docs[0].0@), docs.drop_first(), base + 1)
    }
}

pub proof fn lemma_batch_insert_snoc(
    m: Map<i64, Seq<char>>,
    docs: Seq<(String, Vec<u32>)>,
    d: (String, Vec<u32>),
    base: int,
)
    requires
        base >= 0,
        base + docs.len() + 1 <= i64::MAX,
    ensures
        spec_batch_insert(m, docs.push(d), base) == spec_batch_insert(m, docs, base).insert(
            (base + docs.len()) as i64,
            d.0@,
        ),
    decreases docs.len(),
{
    if docs.len() == 0 {
        assert(docs.push(d)[0] == d);
        assert(docs.push(d).drop_first() =~= docs);
        assert(spec_batch_insert(m, docs, base) == m);
        assert(spec_batch_insert(m.insert(base as i64, d.0@), docs, base + 1) == m.insert(
            base as i64,
            d.0@,
        ));
        assert(spec_batch_insert(m, docs.push(d), base) == spec_batch_insert(
            m.insert(base as i64, d.0@),
            docs.push(d).drop_first(),
            base + 1,
        ));
    } else {
        assert(docs.push(d)[0] == docs[0]);
        assert(docs.push(d).drop_first() =~= docs.drop_first().push(d));
        let m2 = m.insert(base as i64, docs[0].0@);
        lemma_batch_insert_snoc(m2, docs.drop_first(), d, base + 1);
        assert(spec_batch_insert(m, docs.push(d), base) == spec_batch_insert(
            m2,
            docs.drop_first().push(d),
            base + 1,
        ));
        assert(spec_batch_insert(m, docs, base) == spec_batch_insert(
            m2,
            docs.drop_first(),
            base + 1,
        ));
        assert((base + 1 + docs.drop_first().len()) == base + docs.len());
    }
}

/// The map a list of entries restores: later entries win, though the
/// entries a snapshot holds have distinct ids.
pub open spec fn spec_map_of(s: Seq<(i64, Seq<char>)>) -> Map<i64, Seq<char>>
    decreases s.len(),
{
    if s.len() == 0 {
        Map::empty()
    } else {
        spec_map_of(s.drop_last()).insert(s.last().0, s.last().1)
    }
}

/// Entries that list a finite map exactly (every entry a pair of the
/// map, distinct ids, as many entries as the map has keys) restore that
/// map.
pub proof fn lemma_map_of_entries(texts: Map<i64, Seq<char>>, entries: Seq<(i64, Seq<char>)>)
    requires
        texts.dom().finite(),
        entries.len() == texts.dom().len(),
        forall|i: int|
            0 <= i < entries.len() ==> texts.contains_pair(
                (#[trigger] entries[i]).0,
                entries[i].1,
            ),
        forall|i: int, j: int| 0 <= i < j < entries.len() ==> entries[i].0 != entries[j].0,
    ensures
        spec_map_of(entries) == texts,
    decreases entries.len(),
{
    if entries.len() == 0 {
        if texts.dom() =~= Set::<i64>::empty() {
            assert(texts =~= Map::<i64, Seq<char>>::empty());
        } else {
            let k = texts.dom().choose();
            assert(texts.dom().contains(k));
            assert(texts.dom().len() > 0) by {
                if texts.dom().len() == 0 {
                    vstd::set_lib::lemma_set_empty_equivalency_len(texts.dom());
                }
            }
            assert(false);
        }
    } else {
        let e = entries.last();
        let rest = entries.drop_last();
        let texts2 = texts.remove(e.0);
        assert(texts.dom().contains(e.0));
        assert(texts2.dom() =~= texts.dom().remove(e.0));
        assert(texts2.dom().len() == texts.dom().len() - 1);
        assert forall|i: int| 0 <= i < rest.len() implies texts2.contains_pair(
            (#[trigger] rest[i]).0,
            rest[i].1,
        ) by {
            assert(rest[i] == entries[i]);
            assert(entries[i].0 != e.0);
        }
        lemma_map_of_entries(texts2, rest);
        assert(spec_map_of(entries) == spec_map_of(rest).insert(e.0, e.1));
        assert(texts2.insert(e.0, e.1) =~= texts);
    }
}

/// Snapshot round trip: the metadata record a save captures decodes from
/// its own encoding unchanged, and restoring it reproduces the captured
/// dimension, default result count, id counter and text map.
pub proof fn lemma_snapshot_roundtrip(m: MetadataView, texts: Map<i64, Seq<char>>)
    requires
        crate::snapshot::metadata_encodable(m),
        texts.dom().finite(),
        m.text_map.len() == texts.dom().len(),
        forall|i: int|
            0 <= i < m.text_map.len() ==> texts.contains_pair(
                (#[trigger] m.text_map[i]).0,
                m.text_map[i].1,
            ),
        forall|i: int, j: int|
            0 <= i < j < m.text_map.len() ==> m.text_map[i].0 != m.text_map[j].0,
    ensures
        crate::snapshot::spec_dec_metadata(crate::snapshot::spec_enc_metadata(m), 0) == Some(
            (m, crate::snapshot::spec_enc_metadata(m).len() as int),
        ),
        spec_map_of(m.text_map) == texts,
{
    crate::snapshot::lemma_dec_metadata_of_enc(m);
    lemma_map_of_entries(texts, m.text_map);
}

// ---------------------------------------------------------------------------
// Id allocation laws
// ---------------------------------------------------------------------------

/// One successful add, as its contract describes it: the returned id is
/// the counter before the call, the counter advances by one, and the
/// text map gains exactly the new entry.
pub open spec fn add_step(
    pre_next: i64,
    pre_texts: Map<i64, Seq<char>>,
    text: Seq<char>,
    post_next: i64,
    post_texts: Map<i64, Seq<char>>,
    id: i64,
) -> bool {
    &&& id == pre_next
    &&& post_next == pre_next + 1
    &&& post_texts == pre_texts.insert(id, text)
}

/// For any sequence of successful adds on one index, the returned ids
/// are strictly increasing in completion order, hence unique.
pub proof fn lemma_add_ids_strictly_increasing(nexts: Seq<i64>, ids: Seq<i64>)
    requires
        nexts.len() == ids.len() + 1,
        forall|i: int| 0 <= i < ids.len() ==> (#[trigger] ids[i]) == nexts[i],
        forall|i: int| 0 <= i < ids.len() ==> (#[trigger] nexts[i + 1]) == nexts[i] + 1,
    ensures
        forall|i: int, j: int| 0 <= i < j < ids.len() ==> ids[i] < ids[j],
{
    assert forall|i: int, j: int| 0 <= i < j < ids.len() implies ids[i] < ids[j] by {
        lemma_nexts_increase(nexts, ids, i, j);
    }
}

proof fn lemma_nexts_increase(nexts: Seq<i64>, ids: Seq<i64>, i: int, j: int)
    requires
        nexts.len() == ids.len() + 1,
        forall|i2: int| 0 <= i2 < ids.len() ==> (#[trigger] ids[i2]) == nexts[i2],
        forall|i2: int| 0 <= i2 < ids.len() ==> (#[trigger] nexts[i2 + 1]) == nexts[i2] + 1,
        0 <= i < j < ids.len(),
    ensures
        ids[i] < ids[j],
    decreases j - i,
{
    if j == i + 1 {
        assert(ids[i] == nexts[i]);
        assert(ids[j] == nexts[j]);
        assert(nexts[i + 1] == nexts[i] + 1);
    } else {
        lemma_nexts_increase(nexts, ids, i, j - 1);
        assert(ids[j - 1] == nexts[j - 1]);
        assert(nexts[(j - 1) + 1] == nexts[j - 1] + 1);
        assert(ids[j] == nexts[j]);
    }
}

/// Starting from a fresh index, `n` successful adds hand out exactly the
/// ids `0` to `n - 1`, and the text map then holds exactly `n` entries.
pub proof fn lemma_fresh_adds_fill_ids(
    nexts: Seq<i64>,
    textss: Seq<Map<i64, Seq<char>>>,
    added: Seq<Seq<char>>,
    ids: Seq<i64>,
)
    requires
        nexts.len() == ids.len() + 1,
        textss.len() == ids.len() + 1,
        added.len() == ids.len(),
        nexts[0] == 0,
        textss[0] == Map::<i64, Seq<char>>::empty(),
        ids.len() <= i64::MAX,
        forall|i: int|
            0 <= i < ids.len() ==> add_step(
                #[trigger] nexts[i],
                textss[i],
                added[i],
                nexts[i + 1],
                textss[i + 1],
                ids[i],
            ),
    ensures
        forall|i: int| 0 <= i < ids.len() ==> #[trigger] ids[i] == i,
        textss[ids.len() as int].dom().finite(),
        textss[ids.len() as int].dom().len() == ids.len(),
    decreases ids.len(),
{
    lemma_fresh_adds_prefix(nexts, textss, added, ids, ids.len() as int);
    assert forall|i: int| 0 <= i < ids.len() implies #[trigger] ids[i] == i by {
        lemma_fresh_adds_prefix(nexts, textss, added, ids, i);
    }
}

proof fn lemma_fresh_adds_prefix(
    nexts: Seq<i64>,
    textss: Seq<Map<i64, Seq<char>>>,
    added: Seq<Seq<char>>,
    ids: Seq<i64>,
    n: int,
)
    requires
        nexts.len() == ids.len() + 1,
        textss.len() == ids.len() + 1,
        added.len() == ids.len(),
        nexts[0] == 0,
        textss[0] == Map::<i64, Seq<char>>::empty(),
        ids.len() <= i64::MAX,
        0 <= n <= ids.len(),
        forall|i: int|
            0 <= i < ids.len() ==> add_step(
                #[trigger] nexts[i],
                textss[i],
                added[i],
                nexts[i + 1],
                textss[i + 1],
                ids[i],
            ),
    ensures
        nexts[n] == n,
        n < ids.len() ==> ids[n] == n,
        textss[n].dom().finite(),
        textss[n].dom().len() == n,
        forall|id: i64| textss[n].dom().contains(id) ==> 0 <= id < n,
    decreases n,
{
    if n == 0 {
    } else {
        lemma_fresh_adds_prefix(nexts, textss, added, ids, n - 1);
        assert(add_step(
            nexts[n - 1],
            textss[n - 1],
            added[n - 1],
            nexts[n],
            textss[n],
            ids[n - 1],
        ));
        assert(!textss[n - 1].dom().contains(ids[n - 1]));
        assert(textss[n].dom() =~= textss[n - 1].dom().insert(ids[n - 1]));
    }
}

} // verus!
