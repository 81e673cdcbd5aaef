//! Snapshot metadata: the structured record persisted with each snapshot
//! generation, its binary codec, and the selection of generations to load
//! or garbage-collect.
//!
//! The vector engine's serialized blob is opaque to the core and is stored
//! beside this record by the surrounding runtime; the id-to-text map and
//! the id counter are restored from this record alone.

use vstd::prelude::*;
use crate::codec::{
    str_encodable, spec_enc_str, spec_enc_i32, spec_enc_i64, spec_enc_u64, spec_enc_u32,
    spec_dec_str, spec_dec_i32, spec_dec_i64, spec_dec_u64, spec_dec_u32, enc_str_onto,
    enc_i32_onto, enc_i64_onto, enc_u64_onto, enc_u32_onto, dec_str, dec_i32, dec_i64, dec_u64,
    dec_u32, lemma_dec_str_of_enc, lemma_dec_i32_of_enc, lemma_dec_i64_of_enc,
    lemma_dec_u64_of_enc, lemma_dec_u32_of_enc, lemma_enc_u32_len, lemma_enc_u64_len,
    lemma_enc_i32_len, lemma_enc_i64_len, lemma_enc_str_len,
};
use crate::errors::BridgeError;
use vstd::seq_lib::lemma_sorted_unique;
use vstd::relations::{sorted_by, total_ordering};
use vstd::multiset::Multiset;
use vstd::string::StringSliceAdditionalSpecFns;

verus! {

// ---------------------------------------------------------------------------
// The metadata record
// ---------------------------------------------------------------------------

/// Mathematical mirror of [`IndexMetadata`].
pub struct MetadataView {
    pub name: Seq<char>,
    pub dimension: i32,
    pub k: i64,
    pub next_id: i64,
    pub text_map: Seq<(i64, Seq<char>)>,
    pub snapshot_id: u64,
    pub timestamp: u64,
}

/// The view of a list of owned id-text pairs.
pub open spec fn pairs_view(s: Seq<(i64, String)>) -> Seq<(i64, Seq<char>)> {
    s.map_values(|p: (i64, String)| (p.0, p.1@))
}

/// The structured record persisted with each snapshot generation of one
/// bridge index: its descriptor, the next record id, and the full
/// id-to-text map. The entry order in `text_map` is not significant.
#[derive(Debug, Clone)]
pub struct IndexMetadata {
    pub name: String,
    pub dimension: i32,
    pub k: i64,
    pub next_id: i64,
    pub text_map: Vec<(i64, String)>,
    pub snapshot_id: u64,
    pub timestamp: u64,
}

impl View for IndexMetadata {
    type V = MetadataView;

    open spec fn view(&self) -> MetadataView {
        MetadataView {
            name: self.name@,
            dimension: self.dimension,
            k: self.k,
            next_id: self.next_id,
            text_map: pairs_view(self.text_map@),
            snapshot_id: self.snapshot_id,
            timestamp: self.timestamp,
        }
    }
}

impl IndexMetadata {
    /// Metadata of a freshly created index: the id counter starts at zero
    /// and the text map is empty. The caller supplies the clock reading,
    /// which becomes both the generation id and the timestamp.
    pub fn new(name: String, dimension: i32, k: i64, now_ms: u64) -> (r: IndexMetadata)
        ensures
            r@ == (MetadataView {
                name: name@,
                dimension,
                k,
                next_id: 0,
                text_map: Seq::<(i64, Seq<char>)>::empty(),
                snapshot_id: now_ms,
                timestamp: now_ms,
            }),
    {
        let r = IndexMetadata {
            name,
            dimension,
            k,
            next_id: 0,
            text_map: Vec::new(),
            snapshot_id: now_ms,
            timestamp: now_ms,
        };
        proof {
            assert(pairs_view(r.text_map@) =~= Seq::<(i64, Seq<char>)>::empty());
        }
        r
    }
}

// ---------------------------------------------------------------------------
// Binary codec for the metadata record
// ---------------------------------------------------------------------------

pub open spec fn spec_enc_entry(e: (i64, Seq<char>)) -> Seq<u8> {
    spec_enc_i64(e.0) + spec_enc_str(e.1)
}

pub open spec fn spec_enc_entries(s: Seq<(i64, Seq<char>)>) -> Seq<u8>
    decreases s.len(),
{
    if s.len() == 0 {
        Seq::empty()
    } else {
        spec_enc_entry(s[0]) + spec_enc_entries(s.drop_first())
    }
}

/// The id-to-text entries: a count followed by the entries.
pub open spec fn spec_enc_entry_list(s: Seq<(i64, Seq<char>)>) -> Seq<u8>
    recommends
        s.len() <= u32::MAX,
{
    spec_enc_u32(s.len() as u32) + spec_enc_entries(s)
}

pub open spec fn entries_encodable(s: Seq<(i64, Seq<char>)>) -> bool {
    s.len() <= u32::MAX && forall|i: int| 0 <= i < s.len() ==> str_encodable(#[trigger] s[i].1)
}

pub open spec fn metadata_encodable(m: MetadataView) -> bool {
    str_encodable(m.name) && entries_encodable(m.text_map)
}

pub open spec fn spec_enc_metadata(m: MetadataView) -> Seq<u8> {
    spec_enc_str(m.name) + spec_enc_i32(m.dimension) + spec_enc_i64(m.k) + spec_enc_i64(m.next_id)
        + spec_enc_entry_list(m.text_map) + spec_enc_u64(m.snapshot_id) + spec_enc_u64(m.timestamp)
}

pub open spec fn spec_dec_entry(b: Seq<u8>, p: int) -> Option<((i64, Seq<char>), int)> {
    match spec_dec_i64(b, p) {
        Some((id, q)) => match spec_dec_str(b, q) {
            Some((t, q2)) => Some(((id, t), q2)),
            None => None,
        },
        None => None,
    }
}

pub open spec fn spec_dec_entries(b: Seq<u8>, p: int, n: int) -> Option<
    (Seq<(i64, Seq<char>)>, int),
>
    decreases n,
{
    if n <= 0 {
        Some((Seq::empty(), p))
    } else {
        match spec_dec_entry(b, p) {
            Some((e, q)) => match spec_dec_entries(b, q, n - 1) {
                Some((s, e2)) => Some((seq![e] + s, e2)),
                None => None,
            },
            None => None,
        }
    }
}

pub open spec fn spec_dec_entry_list(b: Seq<u8>, p: int) -> Option<(Seq<(i64, Seq<char>)>, int)> {
    match spec_dec_u32(b, p) {
        Some((n, q)) => spec_dec_entries(b, q, n as int),
        None => None,
    }
}

pub open spec fn spec_dec_metadata(b: Seq<u8>, p: int) -> Option<(MetadataView, int)> {
    match spec_dec_str(b, p) {
        Some((name, p1)) => match spec_dec_i32(b, p1) {
            Some((dimension, p2)) => match spec_dec_i64(b, p2) {
                Some((k, p3)) => match spec_dec_i64(b, p3) {
                    Some((next_id, p4)) => match spec_dec_entry_list(b, p4) {
                        Some((text_map, p5)) => match spec_dec_u64(b, p5) {
                            Some((snapshot_id, p6)) => match spec_dec_u64(b, p6) {
                                Some((timestamp, p7)) => Some(
                                    (
                                        MetadataView {
                                            name,
                                            dimension,
                                            k,
                                            next_id,
                                            text_map,
                                            snapshot_id,
                                            timestamp,
                                        },
                                        p7,
                                    ),
                                ),
                                None => None,
                            },
                            None => None,
                        },
                        None => None,
                    },
                    None => None,
                },
                None => None,
            },
            None => None,
        },
        None => None,
    }
}

/// Encode the metadata record. Fails exactly when a component exceeds the
/// length-prefixed formats' 32-bit limits.
pub fn encode_metadata(m: &IndexMetadata) -> (r: Result<Vec<u8>, BridgeError>)
    ensures
        (r is Ok) == metadata_encodable(m@),
        r matches Ok(v) ==> v@ == spec_enc_metadata(m@),
        r matches Err(e) ==> e is Persistence,
{
    let nb = m.name.as_str();
    if nb.as_bytes().len() > u32::MAX as usize || m.text_map.len() > u32::MAX as usize {
        return Err(BridgeError::Persistence("metadata component too long".to_owned()));
    }
    let mut out: Vec<u8> = Vec::new();
    enc_str_onto(nb, &mut out);
    enc_i32_onto(m.dimension, &mut out);
    enc_i64_onto(m.k, &mut out);
    enc_i64_onto(m.next_id, &mut out);
    enc_u32_onto(m.text_map.len() as u32, &mut out);
    let ghost base = out@;
    let n = m.text_map.len();
    let mut i: usize = 0;
    while i < n
        invariant
            i <= n,
            n == m.text_map@.len(),
            out@ == base + spec_enc_entries(pairs_view(m.text_map@).subrange(0, i as int)),
            forall|j: int|
                0 <= j < i ==> str_encodable(#[trigger] pairs_view(m.text_map@)[j].1),
        decreases n - i,
    {
        let entry = &m.text_map[i];
        let tb = entry.1.as_str();
        if tb.as_bytes().len() > u32::MAX as usize {
            proof {
                let pv = pairs_view(m.text_map@);
                assert(pv[i as int].1 == m.text_map@[i as int].1@);
                assert(!str_encodable(pv[i as int].1));
            }
            return Err(BridgeError::Persistence("metadata component too long".to_owned()));
        }
        enc_i64_onto(entry.0, &mut out);
        enc_str_onto(tb, &mut out);
        proof {
            let pv = pairs_view(m.text_map@);
            lemma_enc_entries_snoc(pv.subrange(0, i as int), pv[i as int]);
            assert(pv.subrange(0, i as int).push(pv[i as int]) =~= pv.subrange(0, i + 1));
            assert(out@ =~= base + spec_enc_entries(pv.subrange(0, i + 1)));
        }
        i = i + 1;
    }
    enc_u64_onto(m.snapshot_id, &mut out);
    enc_u64_onto(m.timestamp, &mut out);
    proof {
        assert(pairs_view(m.text_map@).subrange(0, n as int) =~= pairs_view(m.text_map@));
        assert(out@ =~= spec_enc_metadata(m@));
    }
    Ok(out)
}

/// Decode one metadata record from an entire byte image; trailing bytes
/// are a format error.
pub fn decode_metadata(b: &[u8]) -> (r: Result<IndexMetadata, BridgeError>)
    ensures
        (r is Ok) == (spec_dec_metadata(b@, 0) matches Some(p) && p.1 == b@.len()),
        r matches Ok(m) ==> spec_dec_metadata(b@, 0) matches Some(p) && m@ == p.0,
        r matches Err(e) ==> e is Persistence,
{
    let fail: BridgeError = BridgeError::Persistence("malformed snapshot metadata".to_owned());
    let (name, p1) = match dec_str(b, 0) {
        Some(x) => x,
        None => { return Err(fail) },
    };
    let (dimension, p2) = match dec_i32(b, p1) {
        Some(x) => x,
        None => { return Err(fail) },
    };
    let (k, p3) = match dec_i64(b, p2) {
        Some(x) => x,
        None => { return Err(fail) },
    };
    let (next_id, p4) = match dec_i64(b, p3) {
        Some(x) => x,
        None => { return Err(fail) },
    };
    let (text_map, p5) = match dec_entry_list(b, p4) {
        Some(x) => x,
        None => { return Err(fail) },
    };
    let (snapshot_id, p6) = match dec_u64(b, p5) {
        Some(x) => x,
        None => { return Err(fail) },
    };
    let (timestamp, p7) = match dec_u64(b, p6) {
        Some(x) => x,
        None => { return Err(fail) },
    };
    if p7 != b.len() {
        return Err(fail);
    }
    Ok(IndexMetadata { name, dimension, k, next_id, text_map, snapshot_id, timestamp })
}

fn dec_entry_list(b: &[u8], pos: usize) -> (r: Option<(Vec<(i64, String)>, usize)>)
    requires
        pos <= b@.len(),
    ensures
        (r is Some) == (spec_dec_entry_list(b@, pos as int) is Some),
        r matches Some(rp) ==> spec_dec_entry_list(b@, pos as int) matches Some(sp) && pairs_view(
            rp.0@,
        ) == sp.0 && rp.1 as int == sp.1,
        r matches Some(rp) ==> rp.1 <= b@.len(),
{
    match dec_u32(b, pos) {
        Some((n, q0)) => {
            let mut acc: Vec<(i64, String)> = Vec::new();
            let mut q = q0;
            let mut i: u32 = 0;
            while i < n
                invariant
                    i <= n,
                    q <= b@.len(),
                    acc@.len() == i,
                    spec_dec_entry_list(b@, pos as int) == (match spec_dec_entries(
                        b@,
                        q as int,
                        n as int - i as int,
                    ) {
                        Some((s, e)) => Some((pairs_view(acc@) + s, e)),
                        None => None::<(Seq<(i64, Seq<char>)>, int)>,
                    }),
                decreases n - i,
            {
                let (id, q1) = match dec_i64(b, q) {
                    Some(x) => x,
                    None => { return None },
                };
                let (text, q2) = match dec_str(b, q1) {
                    Some(x) => x,
                    None => { return None },
                };
                proof {
                    match spec_dec_entries(b@, q2 as int, n as int - i as int - 1) {
                        Some((s, e)) => {
                            assert(pairs_view(acc@) + (seq![(id, text@)] + s) =~= pairs_view(
                                acc@,
                            ).push((id, text@)) + s);
                            assert(pairs_view(acc@.push((id, text))) =~= pairs_view(acc@).push(
                                (id, text@),
                            ));
                        },
                        None => {},
                    }
                }
                acc.push((id, text));
                q = q2;
                i = i + 1;
            }
            proof {
                assert(pairs_view(acc@) + Seq::<(i64, Seq<char>)>::empty() =~= pairs_view(acc@));
            }
            Some((acc, q))
        },
        None => None,
    }
}

// ---------------------------------------------------------------------------
// Codec inversion
// ---------------------------------------------------------------------------

pub proof fn lemma_enc_entries_snoc(s: Seq<(i64, Seq<char>)>, e: (i64, Seq<char>))
    ensures
        spec_enc_entries(s.push(e)) == spec_enc_entries(s) + spec_enc_entry(e),
    decreases s.len(),
{
    if s.len() == 0 {
        assert(s.push(e).drop_first() =~= s);
        assert(s.push(e)[0] == e);
        assert(spec_enc_entries(s.push(e)) =~= spec_enc_entries(s) + spec_enc_entry(e));
    } else {
        assert(s.push(e).drop_first() =~= s.drop_first().push(e));
        lemma_enc_entries_snoc(s.drop_first(), e);
        assert(spec_enc_entries(s.push(e)) =~= spec_enc_entries(s) + spec_enc_entry(e));
    }
}

pub proof fn lemma_dec_entries_of_enc(b: Seq<u8>, p: int, s: Seq<(i64, Seq<char>)>)
    requires
        0 <= p,
        entries_encodable(s),
        p + spec_enc_entries(s).len() <= b.len(),
        b.subrange(p, p + spec_enc_entries(s).len()) == spec_enc_entries(s),
    ensures
        spec_dec_entries(b, p, s.len() as int) == Some((s, p + spec_enc_entries(s).len())),
    decreases s.len(),
{
    if s.len() == 0 {
        assert(s =~= Seq::<(i64, Seq<char>)>::empty());
    } else {
        let e0 = s[0];
        let enc0 = spec_enc_entry(e0);
        let rest = spec_enc_entries(s.drop_first());
        assert(spec_enc_entries(s) == enc0 + rest);
        lemma_enc_i64_len(e0.0);
        lemma_enc_str_len(e0.1);
        let l0 = enc0.len() as int;
        assert(b.subrange(p, p + l0) =~= enc0);
        assert(b.subrange(p, p + 8) =~= enc0.subrange(0, 8));
        assert(enc0.subrange(0, 8) =~= spec_enc_i64(e0.0));
        lemma_dec_i64_of_enc(b, p, e0.0);
        assert(b.subrange(p + 8, p + l0) =~= enc0.subrange(8, l0));
        assert(enc0.subrange(8, l0) =~= spec_enc_str(e0.1));
        lemma_dec_str_of_enc(b, p + 8, e0.1);
        assert(spec_dec_entry(b, p) == Some((e0, p + l0)));
        let whole = spec_enc_entries(s);
        assert(b.subrange(p, p + whole.len()) == whole);
        assert(b.subrange(p + l0, p + whole.len()) =~= whole.subrange(l0, whole.len() as int));
        assert(whole.subrange(l0, whole.len() as int) =~= rest);
        assert(b.subrange(p + l0, p + l0 + rest.len()) =~= rest);
        lemma_dec_entries_of_enc(b, p + l0, s.drop_first());
        assert(seq![e0] + s.drop_first() =~= s);
    }
}

/// Decoding the encoding of a metadata record yields the record back,
/// consuming exactly the encoded bytes: the snapshot round trip at the
/// metadata level.
pub proof fn lemma_dec_metadata_of_enc(m: MetadataView)
    requires
        metadata_encodable(m),
    ensures
        spec_dec_metadata(spec_enc_metadata(m), 0) == Some((m, spec_enc_metadata(m).len() as int)),
{
    let b = spec_enc_metadata(m);
    let e1 = spec_enc_str(m.name);
    lemma_enc_str_len(m.name);
    lemma_enc_i32_len(m.dimension);
    lemma_enc_i64_len(m.k);
    lemma_enc_i64_len(m.next_id);
    lemma_enc_u32_len(m.text_map.len() as u32);
    lemma_enc_u64_len(m.snapshot_id);
    lemma_enc_u64_len(m.timestamp);
    let l1 = e1.len() as int;
    let l2 = l1 + 4;
    let l3 = l2 + 8;
    let l4 = l3 + 8;
    let l5 = l4 + 4;
    let le = spec_enc_entries(m.text_map).len() as int;
    let l6 = l5 + le;
    let l7 = l6 + 8;
    let l8 = l7 + 8;
    assert(b.subrange(0, l1) =~= e1);
    lemma_dec_str_of_enc(b, 0, m.name);
    assert(b.subrange(l1, l2) =~= spec_enc_i32(m.dimension));
    lemma_dec_i32_of_enc(b, l1, m.dimension);
    assert(b.subrange(l2, l3) =~= spec_enc_i64(m.k));
    lemma_dec_i64_of_enc(b, l2, m.k);
    assert(b.subrange(l3, l4) =~= spec_enc_i64(m.next_id));
    lemma_dec_i64_of_enc(b, l3, m.next_id);
    assert(b.subrange(l4, l5) =~= spec_enc_u32(m.text_map.len() as u32));
    lemma_dec_u32_of_enc(b, l4, m.text_map.len() as u32);
    assert(b.subrange(l5, l6) =~= spec_enc_entries(m.text_map));
    lemma_dec_entries_of_enc(b, l5, m.text_map);
    assert(b.subrange(l6, l7) =~= spec_enc_u64(m.snapshot_id));
    lemma_dec_u64_of_enc(b, l6, m.snapshot_id);
    assert(b.subrange(l7, l8) =~= spec_enc_u64(m.timestamp));
    lemma_dec_u64_of_enc(b, l7, m.timestamp);
    assert(b.len() == l8);
}

// ---------------------------------------------------------------------------
// Generation selection
// ---------------------------------------------------------------------------

/// The generation ids in ascending order.
pub open spec fn spec_sorted_ids(s: Seq<u64>) -> Seq<u64> {
    s.sort_by(|x: u64, y: u64| x <= y)
}

/// Sort generation ids ascending.
pub fn sort_generations(ids: Vec<u64>) -> (r: Vec<u64>)
    ensures
        r@ == spec_sorted_ids(ids@),
        r@.len() == ids@.len(),
{
    let ghost leq = |x: u64, y: u64| x <= y;
    proof {
        assert(total_ordering(leq));
    }
    let mut rest = ids;
    let mut out: Vec<u64> = Vec::new();
    proof {
        vstd::seq_lib::lemma_multiset_commutative(out@, rest@);
    }
    while rest.len() > 0
        invariant
            forall|a: u64, b: u64| #[trigger] leq(a, b) <==> a <= b,
            out@.to_multiset().add(rest@.to_multiset()) == ids@.to_multiset(),
            sorted_by(out@, leq),
            forall|i: int, j: int|
                0 <= i < out@.len() && 0 <= j < rest@.len() ==> #[trigger] out@[i]
                    <= #[trigger] rest@[j],
        decreases rest@.len(),
    {
        let mut m: usize = 0;
        let mut idx: usize = 1;
        while idx < rest.len()
            invariant
                m < idx <= rest@.len(),
                rest@.len() > 0,
                forall|j: int| 0 <= j < idx ==> rest@[m as int] <= #[trigger] rest@[j],
            decreases rest@.len() - idx,
        {
            if rest[idx] < rest[m] {
                m = idx;
            }
            idx = idx + 1;
        }
        let ghost old_out = out@;
        let ghost old_rest = rest@;
        let x = rest.remove(m);
        out.push(x);
        proof {
            broadcast use vstd::seq_lib::group_to_multiset_ensures;

            assert(old_rest.remove(m as int).to_multiset() =~= old_rest.to_multiset().remove(x));
            assert(old_out.push(x).to_multiset() =~= old_out.to_multiset().insert(x));
            assert(old_rest.to_multiset().count(x) > 0);
            assert(out@.to_multiset().add(rest@.to_multiset()) =~= old_out.to_multiset().add(
                old_rest.to_multiset(),
            ));
            assert forall|i: int, j: int|
                0 <= i < out@.len() && 0 <= j < rest@.len() implies #[trigger] out@[i]
                <= #[trigger] rest@[j] by {
                assert(rest@[j] == old_rest[if j < m { j } else { j + 1 }]);
                if i < old_out.len() {
                    assert(old_out[i] <= old_rest[if j < m { j } else { j + 1 }]);
                } else {
                    assert(out@[i] == x);
                }
            }
            assert forall|i: int, j: int| 0 <= i < j < out@.len() implies leq(out@[i], out@[j]) by {
                assert(out@[i] == old_out[i]);
                if j == out@.len() - 1 {
                    assert(out@[j] == x);
                    assert(old_out[i] <= old_rest[m as int]);
                    assert(leq(out@[i], out@[j]));
                } else {
                    assert(out@[j] == old_out[j]);
                    assert(leq(old_out[i], old_out[j]));
                }
            }
            assert(sorted_by(out@, leq));
        }
    }
    proof {
        broadcast use vstd::seq_lib::group_to_multiset_ensures;

        assert(rest@.to_multiset() =~= Multiset::<u64>::empty());
        assert(out@.to_multiset() =~= ids@.to_multiset());
        ids@.lemma_sort_by_ensures(leq);
        lemma_sorted_unique(out@, spec_sorted_ids(ids@), leq);
        assert(out@.to_multiset().len() == ids@.to_multiset().len());
    }
    out
}

/// The newest generation among the listed ids, if any: the fallback used
/// when the latest-pointer is missing or stale.
pub fn latest_generation(ids: &Vec<u64>) -> (r: Option<u64>)
    ensures
        (r is Some) == (ids@.len() > 0),
        r matches Some(x) ==> ids@.contains(x) && forall|j: int|
            0 <= j < ids@.len() ==> #[trigger] ids@[j] <= x,
{
    if ids.len() == 0 {
        return None;
    }
    let mut best = ids[0];
    let mut idx: usize = 1;
    while idx < ids.len()
        invariant
            1 <= idx <= ids@.len(),
            ids@.contains(best),
            forall|j: int| 0 <= j < idx ==> #[trigger] ids@[j] <= best,
        decreases ids@.len() - idx,
    {
        if ids[idx] > best {
            best = ids[idx];
        }
        idx = idx + 1;
    }
    Some(best)
}

/// The generations to garbage-collect: everything but the `keep` newest,
/// ascending. Keeps everything when there are at most `keep` generations.
pub fn generations_to_delete(ids: Vec<u64>, keep: usize) -> (r: Vec<u64>)
    ensures
        r@ == (if ids@.len() <= keep {
            Seq::<u64>::empty()
        } else {
            spec_sorted_ids(ids@).subrange(0, ids@.len() - keep)
        }),
{
    let n = ids.len();
    let mut sorted = sort_generations(ids);
    if n <= keep {
        proof {
            assert(Seq::<u64>::empty() =~= sorted@.subrange(0, 0));
        }
        sorted.truncate(0);
        return sorted;
    }
    sorted.truncate(n - keep);
    sorted
}

} // verus!
