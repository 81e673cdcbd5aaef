//! Weighted reciprocal-rank fusion of two ranked result lists.
//!
//! An id at 0-based rank `r` in a list with weight `w` contributes
//! `w / (K + r)` to its combined score; contributions from both lists are
//! summed per id. Scores are kept as exact fractions, so ordering them is
//! exact integer arithmetic; the surrounding runtime may render them as
//! floating point for its callers.

use vstd::prelude::*;
use crate::errors::BridgeError;
use crate::text_map::TextMap;
use vstd::multiset::Multiset;

verus! {

/// Rank-smoothing constant of the reciprocal-rank formula.
pub const RRF_K: u64 = 60;

/// Upper bound on the length of a ranked input list, so that score
/// arithmetic stays within 64 bits.
pub const MAX_RANKED: usize = 1000000;

/// Upper bound on a caller-supplied weight, so that score arithmetic
/// stays within 64 bits.
pub const MAX_WEIGHT: u64 = 1000000;

/// Which source lists an id appeared in.
#[derive(Debug, Clone, Copy, PartialEq, Eq, Structural)]
pub enum Source {
    Both,
    Vector,
    Text,
}

impl Source {
    pub open spec fn spec_label(&self) -> Seq<char> {
        match self {
            Source::Both => "both"@,
            Source::Vector => "vector"@,
            Source::Text => "text"@,
        }
    }

    /// The provenance tag as the transport layer reports it.
    pub fn label(&self) -> (r: String)
        ensures
            r@ == self.spec_label(),
    {
        match self {
            Source::Both => "both".to_owned(),
            Source::Vector => "vector".to_owned(),
            Source::Text => "text".to_owned(),
        }
    }
}

/// One fused search result: the record id, its display text, the exact
/// combined score as the fraction `score_num / score_den`, the rank the
/// id held in each source list, and its provenance.
#[derive(Debug, Clone)]
pub struct RRFSearchResult {
    pub id: i64,
    pub text: String,
    pub score_num: u64,
    pub score_den: u64,
    pub vector_rank: Option<usize>,
    pub text_rank: Option<usize>,
    pub source: Source,
}

// ---------------------------------------------------------------------------
// Specification of the fused outcome
// ---------------------------------------------------------------------------

/// The rank of the first occurrence of `id` in a ranked list.
pub open spec fn spec_rank_of(s: Seq<i64>, id: i64) -> Option<int> {
    s.index_of_first(id)
}

/// The exact combined score, as a fraction, of an id with the given ranks.
pub open spec fn spec_pair_score(wv: u64, wt: u64, rv: Option<int>, rt: Option<int>) -> (int, int) {
    match (rv, rt) {
        (Some(a), Some(b)) => (
            wv * (RRF_K + b) + wt * (RRF_K + a),
            (RRF_K + a) * (RRF_K + b),
        ),
        (Some(a), None) => (wv as int, RRF_K + a),
        (None, Some(b)) => (wt as int, RRF_K + b),
        (None, None) => (0, 1),
    }
}

pub open spec fn spec_source_of(rv: Option<int>, rt: Option<int>) -> Source {
    match (rv, rt) {
        (Some(_), Some(_)) => Source::Both,
        (Some(_), None) => Source::Vector,
        (None, Some(_)) => Source::Text,
        (None, None) => Source::Both,
    }
}

/// The display text resolved for an id: its entry in the id-to-text map,
/// or the fixed placeholder when the id has none (for example after a
/// deletion left the id only in the vector engine).
pub open spec fn spec_text_for(texts: Map<i64, Seq<char>>, id: i64) -> Seq<char> {
    if texts.contains_key(id) {
        texts[id]
    } else {
        "Unknown"@
    }
}

pub open spec fn opt_rank_eq(a: Option<usize>, b: Option<int>) -> bool {
    match (a, b) {
        (Some(x), Some(y)) => x as int == y,
        (None, None) => true,
        _ => false,
    }
}

/// A fused record is correct for the given inputs: its ranks are the
/// first occurrences of its id, its score is the exact weighted
/// reciprocal-rank sum, its text is resolved from the map, and its
/// provenance matches its ranks.
pub open spec fn entry_ok(
    e: RRFSearchResult,
    vids: Seq<i64>,
    tids: Seq<i64>,
    wv: u64,
    wt: u64,
    texts: Map<i64, Seq<char>>,
) -> bool {
    let rv = spec_rank_of(vids, e.id);
    let rt = spec_rank_of(tids, e.id);
    &&& opt_rank_eq(e.vector_rank, rv)
    &&& opt_rank_eq(e.text_rank, rt)
    &&& e.score_num as int == spec_pair_score(wv, wt, rv, rt).0
    &&& e.score_den as int == spec_pair_score(wv, wt, rv, rt).1
    &&& e.score_den > 0
    &&& e.text@ == spec_text_for(texts, e.id)
    &&& e.source == spec_source_of(rv, rt)
    &&& (rv is Some || rt is Some)
}

/// Every id that appeared in either list, in first-seen order: the vector
/// list first, then the text-only ids.
pub open spec fn spec_fused_ids(vids: Seq<i64>, tids: Seq<i64>) -> Seq<i64> {
    vids + tids.filter(|id: i64| !vids.contains(id))
}

/// Descending order on exact fractional scores, by cross-multiplication.
pub open spec fn score_ge(a: RRFSearchResult, b: RRFSearchResult) -> bool {
    a.score_num * b.score_den >= b.score_num * a.score_den
}

// ---------------------------------------------------------------------------
// Helpers
// ---------------------------------------------------------------------------

/// The rank of the first occurrence of `id`, by linear scan.
fn find_rank(list: &Vec<i64>, id: i64) -> (r: Option<usize>)
    ensures
        opt_rank_eq(r, spec_rank_of(list@, id)),
{
    let ghost s = list@;
    let mut i: usize = 0;
    while i < list.len()
        invariant
            i <= s.len(),
            s == list@,
            forall|j: int| 0 <= j < i ==> s[j] != id,
        decreases s.len() - i,
    {
        if list[i] == id {
            proof {
                s.index_of_first_ensures(id);
                assert(s.contains(id));
                match s.index_of_first(id) {
                    Some(k) => {
                        if k < i as int {
                            assert(s[k] != id);
                        }
                        if k > i as int {
                            assert(s[i as int] != id);
                        }
                    },
                    None => {},
                }
            }
            return Some(i);
        }
        i = i + 1;
    }
    proof {
        s.index_of_first_ensures(id);
        if s.contains(id) {
            let k = choose|k: int| 0 <= k < s.len() && s[k] == id;
            assert(s[k] != id);
        }
    }
    None
}

/// Resolve the display text for an id.
fn resolve_text(texts: &TextMap, id: i64) -> (r: String)
    ensures
        r@ == spec_text_for(texts@, id),
{
    match texts.get(id) {
        Some(t) => t,
        None => "Unknown".to_owned(),
    }
}

fn score_gt(a: &RRFSearchResult, b: &RRFSearchResult) -> (r: bool)
    ensures
        r == !score_ge(*b, *a),
{
    proof {
        lemma_u64_mul_fits(a.score_num, b.score_den);
        lemma_u64_mul_fits(b.score_num, a.score_den);
    }
    let x = (a.score_num as u128) * (b.score_den as u128);
    let y = (b.score_num as u128) * (a.score_den as u128);
    x > y
}

proof fn lemma_small_mul(x: u64, y: u64)
    requires
        x <= 1000060,
        y <= 1000060,
    ensures
        x * y <= 1000120003600,
{
    assert(x * y <= 1000120003600) by (nonlinear_arith)
        requires
            x <= 1000060u64,
            y <= 1000060u64,
    ;
}

proof fn lemma_u64_mul_fits(x: u64, y: u64)
    ensures
        (x as u128) * (y as u128) <= u128::MAX,
{
    assert((x as u128) * (y as u128) <= u128::MAX) by (nonlinear_arith)
        requires
            x as u128 <= 0xFFFF_FFFF_FFFF_FFFFu128,
            y as u128 <= 0xFFFF_FFFF_FFFF_FFFFu128,
    ;
}

proof fn lemma_filter_push(s: Seq<i64>, x: i64, pred: spec_fn(i64) -> bool)
    ensures
        s.push(x).filter(pred) == (if pred(x) {
            s.filter(pred).push(x)
        } else {
            s.filter(pred)
        }),
{
    reveal(Seq::filter);
    let sp = s.push(x);
    assert(sp.len() == s.len() + 1);
    assert(sp.last() == x);
    assert(sp.drop_last() =~= s);
    assert(sp.filter(pred) == (if pred(sp.last()) {
        sp.drop_last().filter(pred).push(sp.last())
    } else {
        sp.drop_last().filter(pred)
    }));
}

/// Stable selection sort, descending by exact score: of the remaining
/// records, the earliest with the greatest score moves next, so records
/// with equal scores keep their first-seen order.
fn sort_results_desc(entries: Vec<RRFSearchResult>) -> (r: Vec<RRFSearchResult>)
    requires
        forall|i: int| 0 <= i < entries@.len() ==> (#[trigger] entries@[i]).score_den > 0,
    ensures
        r@.to_multiset() == entries@.to_multiset(),
        r@.len() == entries@.len(),
        forall|i: int, j: int| 0 <= i < j < r@.len() ==> score_ge(#[trigger] r@[i], #[trigger] r@[j]),
{
    let mut rest = entries;
    let mut out: Vec<RRFSearchResult> = Vec::new();
    proof {
        broadcast use vstd::seq_lib::group_to_multiset_ensures;

        assert(out@.to_multiset().add(rest@.to_multiset()) =~= rest@.to_multiset());
    }
    while rest.len() > 0
        invariant
            forall|i: int| 0 <= i < rest@.len() ==> (#[trigger] rest@[i]).score_den > 0,
            out@.to_multiset().add(rest@.to_multiset()) == entries@.to_multiset(),
            out@.len() + rest@.len() == entries@.len(),
            forall|i: int, j: int|
                0 <= i < j < out@.len() ==> score_ge(#[trigger] out@[i], #[trigger] out@[j]),
            forall|i: int, j: int|
                0 <= i < out@.len() && 0 <= j < rest@.len() ==> score_ge(
                    #[trigger] out@[i],
                    #[trigger] rest@[j],
                ),
        decreases rest@.len(),
    {
        let mut m: usize = 0;
        let mut idx: usize = 1;
        while idx < rest.len()
            invariant
                forall|i: int| 0 <= i < rest@.len() ==> (#[trigger] rest@[i]).score_den > 0,
                m < idx <= rest@.len(),
                rest@.len() > 0,
                forall|j: int| 0 <= j < idx ==> score_ge(rest@[m as int], #[trigger] rest@[j]),
            decreases rest@.len() - idx,
        {
            if score_gt(&rest[idx], &rest[m]) {
                proof {
                    lemma_score_ge_total(rest@[m as int], rest@[idx as int]);
                    assert forall|j: int| 0 <= j < idx + 1 implies score_ge(
                        rest@[idx as int],
                        #[trigger] rest@[j],
                    ) by {
                        if j < idx {
                            lemma_score_ge_trans(
                                rest@[idx as int],
                                rest@[m as int],
                                rest@[j],
                            );
                        }
                    }
                }
                m = idx;
            } else {
                proof {
                    lemma_score_ge_total(rest@[m as int], rest@[idx as int]);
                }
            }
            idx = idx + 1;
        }
        let ghost old_out = out@;
        let ghost old_rest = rest@;
        let x = rest.remove(m);
        out.push(x);
        proof {
            broadcast use vstd::seq_lib::group_to_multiset_ensures;

            assert(old_rest.remove(m as int).to_multiset() =~= old_rest.to_multiset().remove(x));
            assert(old_out.push(x).to_multiset() =~= old_out.to_multiset().insert(x));
            assert(old_rest.to_multiset().count(x) > 0);
            assert(out@.to_multiset().add(rest@.to_multiset()) =~= old_out.to_multiset().add(
                old_rest.to_multiset(),
            ));
            assert forall|i: int, j: int|
                0 <= i < out@.len() && 0 <= j < rest@.len() implies score_ge(
                #[trigger] out@[i],
                #[trigger] rest@[j],
            ) by {
                assert(rest@[j] == old_rest[if j < m { j } else { j + 1 }]);
                if i < old_out.len() {
                    assert(out@[i] == old_out[i]);
                    assert(score_ge(old_out[i], old_rest[if j < m { j } else { j + 1 }]));
                } else {
                    assert(out@[i] == x);
                    assert(score_ge(old_rest[m as int], old_rest[if j < m { j } else { j + 1 }]));
                }
            }
            assert forall|i: int, j: int| 0 <= i < j < out@.len() implies score_ge(
                #[trigger] out@[i],
                #[trigger] out@[j],
            ) by {
                assert(out@[i] == old_out[i]);
                if j == out@.len() - 1 {
                    assert(out@[j] == x);
                    assert(score_ge(old_out[i], old_rest[m as int]));
                } else {
                    assert(out@[j] == old_out[j]);
                }
            }
        }
    }
    proof {
        broadcast use vstd::seq_lib::group_to_multiset_ensures;

        assert(rest@.to_multiset() =~= Multiset::<RRFSearchResult>::empty());
        assert(out@.to_multiset() =~= entries@.to_multiset());
    }
    out
}

proof fn lemma_score_ge_total(a: RRFSearchResult, b: RRFSearchResult)
    ensures
        score_ge(a, b) || score_ge(b, a),
{
}

proof fn lemma_score_ge_trans(a: RRFSearchResult, b: RRFSearchResult, c: RRFSearchResult)
    requires
        score_ge(a, b),
        score_ge(b, c),
        a.score_den > 0,
        b.score_den > 0,
        c.score_den > 0,
    ensures
        score_ge(a, c),
{
    let an = a.score_num as int;
    let ad = a.score_den as int;
    let bn = b.score_num as int;
    let bd = b.score_den as int;
    let cn = c.score_num as int;
    let cd = c.score_den as int;
    assert(an * cd >= cn * ad) by (nonlinear_arith)
        requires
            an * bd >= bn * ad,
            bn * cd >= cn * bd,
            ad > 0,
            bd > 0,
            cd > 0,
    ;
}

// ---------------------------------------------------------------------------
// Fusion
// ---------------------------------------------------------------------------

/// Fuse two ranked id lists into one ranked, scored, annotated list.
///
/// Every id that appeared in either list appears in the result with its
/// exact weighted reciprocal-rank score, ordered descending by score;
/// records with equal scores keep first-seen order (the vector list
/// first). When the input lists hold no duplicate ids, the result holds
/// each fused id exactly once.
pub fn weighted_rrf(
    vector_results: &Vec<i64>,
    text_results: &Vec<i64>,
    vector_weight: u64,
    text_weight: u64,
    text_map: &TextMap,
) -> (r: Vec<RRFSearchResult>)
    requires
        vector_results@.len() <= MAX_RANKED,
        text_results@.len() <= MAX_RANKED,
        vector_weight <= MAX_WEIGHT,
        text_weight <= MAX_WEIGHT,
    ensures
        forall|i: int|
            0 <= i < r@.len() ==> entry_ok(
                #[trigger] r@[i],
                vector_results@,
                text_results@,
                vector_weight,
                text_weight,
                text_map@,
            ),
        forall|i: int, j: int| 0 <= i < j < r@.len() ==> score_ge(#[trigger] r@[i], #[trigger] r@[j]),
        r@.map_values(|e: RRFSearchResult| e.id).to_multiset() == spec_fused_ids(
            vector_results@,
            text_results@,
        ).to_multiset(),
{
    let ghost vids = vector_results@;
    let ghost tids = text_results@;
    let mut entries: Vec<RRFSearchResult> = Vec::new();
    let mut i: usize = 0;
    while i < vector_results.len()
        invariant
            i <= vids.len(),
            vids == vector_results@,
            tids == text_results@,
            vids.len() <= MAX_RANKED,
            tids.len() <= MAX_RANKED,
            vector_weight <= MAX_WEIGHT,
            text_weight <= MAX_WEIGHT,
            entries@.len() == i,
            forall|j: int|
                0 <= j < i ==> entry_ok(
                    #[trigger] entries@[j],
                    vids,
                    tids,
                    vector_weight,
                    text_weight,
                    text_map@,
                ),
            forall|j: int| 0 <= j < i ==> (#[trigger] entries@[j]).id == vids[j],
        decreases vids.len() - i,
    {
        let id = vector_results[i];
        let rv = find_rank(vector_results, id);
        let rt = find_rank(text_results, id);
        proof {
            vids.index_of_first_ensures(id);
            tids.index_of_first_ensures(id);
        }
        let entry = make_entry(id, rv, rt, vector_weight, text_weight, text_map);
        entries.push(entry);
        i = i + 1;
    }
    let ghost pred = |id: i64| !vids.contains(id);
    proof {
        reveal(Seq::filter);
        assert(tids.subrange(0, 0).filter(pred) =~= Seq::<i64>::empty());
        assert(entries@.map_values(|e: RRFSearchResult| e.id) =~= vids + tids.subrange(
            0,
            0,
        ).filter(pred));
    }
    let mut t: usize = 0;
    while t < text_results.len()
        invariant
            forall|x: i64| #[trigger] pred(x) <==> !vids.contains(x),
            t <= tids.len(),
            vids == vector_results@,
            tids == text_results@,
            vids.len() <= MAX_RANKED,
            tids.len() <= MAX_RANKED,
            vector_weight <= MAX_WEIGHT,
            text_weight <= MAX_WEIGHT,
            forall|j: int|
                0 <= j < entries@.len() ==> entry_ok(
                    #[trigger] entries@[j],
                    vids,
                    tids,
                    vector_weight,
                    text_weight,
                    text_map@,
                ),
            entries@.map_values(|e: RRFSearchResult| e.id) == vids + tids.subrange(
                0,
                t as int,
            ).filter(pred),
        decreases tids.len() - t,
    {
        let id = text_results[t];
        let rv = find_rank(vector_results, id);
        let ghost prefix = tids.subrange(0, t as int);
        proof {
            assert(tids.subrange(0, t + 1) =~= prefix.push(tids[t as int]));
            lemma_filter_push(prefix, tids[t as int], pred);
        }
        match rv {
            Some(_) => {
                proof {
                    vids.index_of_first_ensures(id);
                    assert(vids.contains(id));
                    assert(!pred(id));
                    assert(tids.subrange(0, t + 1).filter(pred) == prefix.filter(pred));
                }
            },
            None => {
                let rt = find_rank(text_results, id);
                proof {
                    vids.index_of_first_ensures(id);
                    tids.index_of_first_ensures(id);
                }
                let entry = make_entry(id, None, rt, vector_weight, text_weight, text_map);
                proof {
                    assert(pred(id));
                    assert(tids.subrange(0, t + 1).filter(pred) == prefix.filter(pred).push(id));
                    assert(entries@.push(entry).map_values(|e: RRFSearchResult| e.id)
                        =~= entries@.map_values(|e: RRFSearchResult| e.id).push(id));
                    assert(entries@.map_values(|e: RRFSearchResult| e.id).push(id) =~= vids
                        + tids.subrange(0, t + 1).filter(pred));
                }
                entries.push(entry);
            },
        }
        t = t + 1;
    }
    proof {
        assert(tids.subrange(0, tids.len() as int) =~= tids);
        assert(pred =~= (|id: i64| !vids.contains(id)));
        assert(entries@.map_values(|e: RRFSearchResult| e.id) == spec_fused_ids(vids, tids));
    }
    proof {
        assert forall|i: int| 0 <= i < entries@.len() implies (
        #[trigger] entries@[i]).score_den > 0 by {
            assert(entry_ok(entries@[i], vids, tids, vector_weight, text_weight, text_map@));
        }
    }
    let ghost built = entries@;
    let sorted = sort_results_desc(entries);
    proof {
        broadcast use vstd::seq_lib::group_to_multiset_ensures;

        lemma_map_values_multiset(sorted@, built);
        assert forall|i: int| 0 <= i < sorted@.len() implies entry_ok(
            #[trigger] sorted@[i],
            vids,
            tids,
            vector_weight,
            text_weight,
            text_map@,
        ) by {
            assert(sorted@.contains(sorted@[i]));
            assert(sorted@.to_multiset().count(sorted@[i]) > 0);
            assert(built.to_multiset().count(sorted@[i]) > 0);
            assert(built.contains(sorted@[i]));
            let j = choose|j: int| 0 <= j < built.len() && built[j] == sorted@[i];
            assert(entry_ok(built[j], vids, tids, vector_weight, text_weight, text_map@));
        }
    }
    sorted
}

/// Sequences with equal multisets have equal id multisets.
proof fn lemma_map_values_multiset(a: Seq<RRFSearchResult>, b: Seq<RRFSearchResult>)
    requires
        a.to_multiset() == b.to_multiset(),
    ensures
        a.map_values(|e: RRFSearchResult| e.id).to_multiset() == b.map_values(
            |e: RRFSearchResult| e.id,
        ).to_multiset(),
    decreases a.len(),
{
    broadcast use vstd::seq_lib::group_to_multiset_ensures;

    if a.len() == 0 {
        assert(a.to_multiset().len() == 0);
        assert(b.to_multiset().len() == 0);
        assert(b.len() == 0);
        assert(a.map_values(|e: RRFSearchResult| e.id) =~= Seq::<i64>::empty());
        assert(b.map_values(|e: RRFSearchResult| e.id) =~= Seq::<i64>::empty());
    } else {
        let x = a.last();
        assert(a.to_multiset().count(x) > 0) by {
            assert(a.contains(x));
        }
        assert(b.to_multiset().count(x) > 0);
        assert(b.contains(x));
        let k = choose|k: int| 0 <= k < b.len() && b[k] == x;
        let a2 = a.drop_last();
        let b2 = b.remove(k);
        assert(a.remove(a.len() - 1) =~= a2);
        assert(a2.to_multiset() =~= a.to_multiset().remove(x));
        assert(b2.to_multiset() =~= b.to_multiset().remove(x));
        lemma_map_values_multiset(a2, b2);
        let f = |e: RRFSearchResult| e.id;
        assert(a.map_values(f) =~= a2.map_values(f).push(x.id));
        assert(b.map_values(f).remove(k) =~= b2.map_values(f));
        assert(a.map_values(f).to_multiset() =~= a2.map_values(f).to_multiset().insert(x.id));
        assert(b2.map_values(f).to_multiset() =~= b.map_values(f).to_multiset().remove(x.id)) by {
            assert(b.map_values(f)[k] == x.id);
        }
        assert(b.map_values(f).to_multiset().count(x.id) > 0) by {
            assert(b.map_values(f).contains(x.id)) by {
                assert(b.map_values(f)[k] == x.id);
            }
        }
        assert(a.map_values(f).to_multiset() =~= b.map_values(f).to_multiset());
    }
}

/// Build the fused record for one id with the given ranks.
fn make_entry(
    id: i64,
    rv: Option<usize>,
    rt: Option<usize>,
    wv: u64,
    wt: u64,
    text_map: &TextMap,
) -> (r: RRFSearchResult)
    requires
        wv <= MAX_WEIGHT,
        wt <= MAX_WEIGHT,
        (match rv {
            Some(a) => a <= MAX_RANKED,
            None => true,
        }),
        (match rt {
            Some(b) => b <= MAX_RANKED,
            None => true,
        }),
        rv is Some || rt is Some,
    ensures
        r.id == id,
        r.text@ == spec_text_for(text_map@, id),
        r.vector_rank == rv,
        r.text_rank == rt,
        r.score_num as int == spec_pair_score(
            wv,
            wt,
            match rv {
                Some(a) => Some(a as int),
                None => None,
            },
            match rt {
                Some(b) => Some(b as int),
                None => None,
            },
        ).0,
        r.score_den as int == spec_pair_score(
            wv,
            wt,
            match rv {
                Some(a) => Some(a as int),
                None => None,
            },
            match rt {
                Some(b) => Some(b as int),
                None => None,
            },
        ).1,
        r.score_den > 0,
        r.source == spec_source_of(
            match rv {
                Some(a) => Some(a as int),
                None => None,
            },
            match rt {
                Some(b) => Some(b as int),
                None => None,
            },
        ),
{
    let text = resolve_text(text_map, id);
    match (rv, rt) {
        (Some(a), Some(b)) => {
            let da: u64 = RRF_K + a as u64;
            let db: u64 = RRF_K + b as u64;
            proof {
                lemma_small_mul(wv, db);
                lemma_small_mul(wt, da);
                lemma_small_mul(da, db);
                assert(da * db >= 1) by (nonlinear_arith)
                    requires
                        da >= 1u64,
                        db >= 1u64,
                ;
            }
            RRFSearchResult {
                id,
                text,
                score_num: wv * db + wt * da,
                score_den: da * db,
                vector_rank: rv,
                text_rank: rt,
                source: Source::Both,
            }
        },
        (Some(a), None) => {
            let da: u64 = RRF_K + a as u64;
            RRFSearchResult {
                id,
                text,
                score_num: wv,
                score_den: da,
                vector_rank: rv,
                text_rank: rt,
                source: Source::Vector,
            }
        },
        (None, Some(b)) => {
            let db: u64 = RRF_K + b as u64;
            RRFSearchResult {
                id,
                text,
                score_num: wt,
                score_den: db,
                vector_rank: rv,
                text_rank: rt,
                source: Source::Text,
            }
        },
        (None, None) => {
            RRFSearchResult {
                id,
                text,
                score_num: 0,
                score_den: 1,
                vector_rank: rv,
                text_rank: rt,
                source: Source::Both,
            }
        },
    }
}

// ---------------------------------------------------------------------------
// Search-side dispatch
// ---------------------------------------------------------------------------

/// A ranked list from a single engine, score-normalized with the same
/// rank-to-score formula as fusion (unit weight).
fn single_list_results(list: &Vec<i64>, text_map: &TextMap, from_vector: bool) -> (r: Vec<
    RRFSearchResult,
>)
    requires
        list@.len() <= MAX_RANKED,
    ensures
        r@.len() == list@.len(),
        forall|i: int|
            0 <= i < r@.len() ==> {
                let e = #[trigger] r@[i];
                &&& e.id == list@[i]
                &&& e.text@ == spec_text_for(text_map@, list@[i])
                &&& e.score_num == 1
                &&& e.score_den as int == RRF_K + i
                &&& e.vector_rank == (if from_vector {
                    Some(i as usize)
                } else {
                    None::<usize>
                })
                &&& e.text_rank == (if from_vector {
                    None::<usize>
                } else {
                    Some(i as usize)
                })
                &&& e.source == (if from_vector {
                    Source::Vector
                } else {
                    Source::Text
                })
            },
{
    let mut out: Vec<RRFSearchResult> = Vec::new();
    let mut i: usize = 0;
    while i < list.len()
        invariant
            i <= list@.len(),
            list@.len() <= MAX_RANKED,
            out@.len() == i,
            forall|j: int|
                0 <= j < i ==> {
                    let e = #[trigger] out@[j];
                    &&& e.id == list@[j]
                    &&& e.text@ == spec_text_for(text_map@, list@[j])
                    &&& e.score_num == 1
                    &&& e.score_den as int == RRF_K + j
                    &&& e.vector_rank == (if from_vector {
                        Some(j as usize)
                    } else {
                        None::<usize>
                    })
                    &&& e.text_rank == (if from_vector {
                        None::<usize>
                    } else {
                        Some(j as usize)
                    })
                    &&& e.source == (if from_vector {
                        Source::Vector
                    } else {
                        Source::Text
                    })
                },
        decreases list@.len() - i,
    {
        let id = list[i];
        let text = resolve_text(text_map, id);
        let entry = RRFSearchResult {
            id,
            text,
            score_num: 1,
            score_den: RRF_K + i as u64,
            vector_rank: if from_vector {
                Some(i)
            } else {
                None
            },
            text_rank: if from_vector {
                None
            } else {
                Some(i)
            },
            source: if from_vector {
                Source::Vector
            } else {
                Source::Text
            },
        };
        out.push(entry);
        i = i + 1;
    }
    out
}

/// Fuse the outcome of a search request: both engines' ranked lists when
/// both sub-queries ran, a single normalized list when only one did, and
/// a validation failure when neither sub-query was given.
pub fn fuse_search_results(
    vector_results: Option<&Vec<i64>>,
    text_results: Option<&Vec<i64>>,
    vector_weight: u64,
    text_weight: u64,
    text_map: &TextMap,
) -> (r: Result<Vec<RRFSearchResult>, BridgeError>)
    requires
        vector_results matches Some(v) ==> v@.len() <= MAX_RANKED,
        text_results matches Some(t) ==> t@.len() <= MAX_RANKED,
        vector_weight <= MAX_WEIGHT,
        text_weight <= MAX_WEIGHT,
    ensures
        (r is Err) == (vector_results is None && text_results is None),
        r matches Err(e) ==> e is Validation,
        (match (vector_results, text_results) {
            (Some(v), Some(t)) => r matches Ok(out) && {
                &&& forall|i: int|
                    0 <= i < out@.len() ==> entry_ok(
                        #[trigger] out@[i],
                        v@,
                        t@,
                        vector_weight,
                        text_weight,
                        text_map@,
                    )
                &&& forall|i: int, j: int|
                    0 <= i < j < out@.len() ==> score_ge(#[trigger] out@[i], #[trigger] out@[j])
                &&& out@.map_values(|e: RRFSearchResult| e.id).to_multiset() == spec_fused_ids(
                    v@,
                    t@,
                ).to_multiset()
            },
            (Some(v), None) => r matches Ok(out) && out@.len() == v@.len() && forall|i: int|
                0 <= i < out@.len() ==> (#[trigger] out@[i]).id == v@[i] && out@[i].source
                    == Source::Vector && out@[i].score_num == 1 && out@[i].score_den as int
                    == RRF_K + i && out@[i].text@ == spec_text_for(text_map@, v@[i]),
            (None, Some(t)) => r matches Ok(out) && out@.len() == t@.len() && forall|i: int|
                0 <= i < out@.len() ==> (#[trigger] out@[i]).id == t@[i] && out@[i].source
                    == Source::Text && out@[i].score_num == 1 && out@[i].score_den as int == RRF_K
                    + i && out@[i].text@ == spec_text_for(text_map@, t@[i]),
            (None, None) => r is Err,
        }),
{
    match (vector_results, text_results) {
        (Some(v), Some(t)) => Ok(
            weighted_rrf(v, t, vector_weight, text_weight, text_map),
        ),
        (Some(v), None) => Ok(single_list_results(v, text_map, true)),
        (None, Some(t)) => Ok(single_list_results(t, text_map, false)),
        (None, None) => Err(
            BridgeError::Validation(
                "at least one of the vector query and the text query must be provided".to_owned(),
            ),
        ),
    }
}

} // verus!
