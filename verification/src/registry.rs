//! The process-wide registry of named bridge indices.
//!
//! An index's full name is derived from the caller-given base name and
//! the dimension, as `<base>_d<dimension>`. Operations may address an
//! index by its full name, or by the base name alone when exactly one
//! index was created under it; two indices under one base name make the
//! base name ambiguous until the caller supplies the full name.
//!
//! Names are compared by their UTF-8 bytes, which determine the
//! characters exactly.

use vstd::prelude::*;
use crate::bridge::BridgeIndex;
use crate::errors::BridgeError;
use vstd::string::StrSliceExecFns;
use vstd::string::StringSliceAdditionalSpecFns;
use vstd::utf8::{
    encode_utf8, valid_utf8, encode_utf8_valid_utf8, decode_utf8_encode_utf8,
    is_leading_byte_width_1, partial_valid_utf8, partial_valid_utf8_extend_ascii_block,
};
use crate::codec::string_from_utf8;

verus! {

/// The UTF-8 bytes of a name.
pub open spec fn name_bytes(s: Seq<char>) -> Seq<u8> {
    encode_utf8(s)
}

/// The decimal digits of a nonnegative number, most significant first.
pub open spec fn spec_decimal_digits(n: int) -> Seq<u8>
    recommends
        n >= 0,
    decreases n,
{
    if n <= 9 {
        seq![(48 + n) as u8]
    } else {
        spec_decimal_digits(n / 10).push((48 + n % 10) as u8)
    }
}

/// The full name of an index: the base name, the separator `_d`, and the
/// dimension in decimal.
pub open spec fn spec_index_name_bytes(base: Seq<u8>, dimension: int) -> Seq<u8> {
    base + seq![95u8, 100u8] + spec_decimal_digits(dimension)
}

proof fn lemma_decimal_digits_ascii(n: int)
    requires
        n >= 0,
    ensures
        forall|i: int|
            0 <= i < spec_decimal_digits(n).len() ==> 48 <= #[trigger] spec_decimal_digits(n)[i]
                <= 57,
    decreases n,
{
    if n <= 9 {
        assert(spec_decimal_digits(n) =~= seq![(48 + n) as u8]);
    } else {
        lemma_decimal_digits_ascii(n / 10);
        let d = spec_decimal_digits(n);
        let prev = spec_decimal_digits(n / 10);
        assert(d == prev.push((48 + n % 10) as u8));
        assert forall|i: int| 0 <= i < d.len() implies 48 <= #[trigger] d[i] <= 57 by {
            if i < prev.len() {
                assert(d[i] == prev[i]);
            } else {
                assert(d[i] == (48 + n % 10) as u8);
            }
        }
    }
}

fn push_decimal_digits(n: u32, out: &mut Vec<u8>)
    ensures
        final(out)@ == old(out)@ + spec_decimal_digits(n as int),
    decreases n,
{
    if n <= 9 {
        out.push(48 + n as u8);
        proof {
            assert(out@ =~= old(out)@ + spec_decimal_digits(n as int));
        }
    } else {
        push_decimal_digits(n / 10, out);
        out.push(48 + (n % 10) as u8);
        proof {
            assert(out@ =~= old(out)@ + spec_decimal_digits(n as int));
        }
    }
}

/// Compute the full index name `<base>_d<dimension>`.
pub fn make_index_name(base: &str, dimension: i32) -> (r: String)
    requires
        0 < dimension,
    ensures
        name_bytes(r@) == spec_index_name_bytes(name_bytes(base@), dimension as int),
{
    let mut bytes = base.as_bytes_vec();
    let ghost base_bytes = bytes@;
    bytes.push(95);
    bytes.push(100);
    push_decimal_digits(dimension as u32, &mut bytes);
    proof {
        let digits = spec_decimal_digits(dimension as int);
        assert(bytes@ =~= base_bytes + seq![95u8, 100u8] + digits);
        encode_utf8_valid_utf8(base@);
        assert(valid_utf8(base_bytes));
        lemma_decimal_digits_ascii(dimension as int);
        assert(partial_valid_utf8(bytes@, base_bytes.len() as int)) by {
            assert(bytes@.subrange(0, base_bytes.len() as int) =~= base_bytes);
        }
        assert forall|i: int|
            0 <= base_bytes.len() as int <= i < bytes@.len() implies #[trigger] is_leading_byte_width_1(
            bytes@[i],
        ) by {
            assert(bytes@[i] < 0x80);
        }
        partial_valid_utf8_extend_ascii_block(bytes@, base_bytes.len() as int, bytes@.len() as int);
        assert(bytes@.subrange(0, bytes@.len() as int) =~= bytes@);
        assert(valid_utf8(bytes@));
    }
    let ghost all = bytes@;
    match string_from_utf8(bytes) {
        Some(s) => {
            proof {
                decode_utf8_encode_utf8(all);
            }
            s
        },
        None => {
            proof {
                assert(false);
            }
            String::new()
        },
    }
}

/// Whether `p` is a prefix of `s`.
pub open spec fn is_prefix(p: Seq<u8>, s: Seq<u8>) -> bool {
    p.len() <= s.len() && s.subrange(0, p.len() as int) == p
}

/// Whether a full index name belongs to the given base name: it starts
/// with the base name followed by the `_d` separator.
pub open spec fn base_matches(name: Seq<u8>, base: Seq<u8>) -> bool {
    is_prefix(base + seq![95u8, 100u8], name)
}

fn eq_bytes(a: &[u8], b: &[u8]) -> (r: bool)
    ensures
        r == (a@ == b@),
{
    if a.len() != b.len() {
        proof {
            assert(a@.len() != b@.len());
        }
        return false;
    }
    let n = a.len();
    let mut i: usize = 0;
    while i < n
        invariant
            i <= n,
            n == a@.len(),
            n == b@.len(),
            forall|j: int| 0 <= j < i ==> a@[j] == b@[j],
        decreases n - i,
    {
        if a[i] != b[i] {
            return false;
        }
        i = i + 1;
    }
    proof {
        assert(a@ =~= b@);
    }
    true
}

fn has_prefix(s: &[u8], p: &[u8]) -> (r: bool)
    ensures
        r == is_prefix(p@, s@),
{
    if p.len() > s.len() {
        return false;
    }
    let n = p.len();
    let mut i: usize = 0;
    while i < n
        invariant
            i <= n,
            n == p@.len(),
            n <= s@.len(),
            forall|j: int| 0 <= j < i ==> s@[j] == p@[j],
        decreases n - i,
    {
        if s[i] != p[i] {
            proof {
                if is_prefix(p@, s@) {
                    assert(s@.subrange(0, p@.len() as int)[i as int] == p@[i as int]);
                }
            }
            return false;
        }
        i = i + 1;
    }
    proof {
        assert(s@.subrange(0, p@.len() as int) =~= p@);
    }
    true
}

/// The process-wide registry: every live bridge index, under a unique
/// full name. The runtime holds it behind its own read-write coordination
/// and owns the engine handles keyed by the same names.
pub struct Registry {
    pub entries: Vec<BridgeIndex>,
}

impl Registry {
    /// The names of the registered indices, as byte sequences.
    pub open spec fn spec_names(&self) -> Seq<Seq<u8>> {
        self.entries@.map_values(|e: BridgeIndex| name_bytes(e.name@))
    }

    /// Every entry is well formed and no two entries share a name.
    pub open spec fn wf(&self) -> bool {
        &&& forall|i: int| 0 <= i < self.entries@.len() ==> (#[trigger] self.entries@[i]).wf()
        &&& forall|i: int, j: int|
            0 <= i < j < self.entries@.len() ==> self.spec_names()[i] != self.spec_names()[j]
    }

    pub fn new() -> (r: Registry)
        ensures
            r.wf(),
            r.entries@.len() == 0,
    {
        Registry { entries: Vec::new() }
    }

    /// The position of the entry with exactly this full name.
    fn find_exact(&self, name_utf8: &[u8]) -> (r: Option<usize>)
        ensures
            (r is Some) == (exists|i: int|
                0 <= i < self.spec_names().len() && self.spec_names()[i] == name_utf8@),
            r matches Some(i) ==> i < self.spec_names().len() && self.spec_names()[i as int]
                == name_utf8@,
    {
        let n = self.entries.len();
        let mut i: usize = 0;
        while i < n
            invariant
                i <= n,
                n == self.entries@.len(),
                forall|j: int| 0 <= j < i ==> self.spec_names()[j] != name_utf8@,
            decreases n - i,
        {
            let name = self.entries[i].name.as_str().as_bytes();
            if eq_bytes(name, name_utf8) {
                proof {
                    assert(self.spec_names()[i as int] == name_bytes(self.entries@[i as int].name@));
                }
                return Some(i);
            }
            proof {
                assert(self.spec_names()[i as int] == name_bytes(self.entries@[i as int].name@));
            }
            i = i + 1;
        }
        None
    }

    /// The position of the index with exactly this full name, if any.
    pub fn get(&self, name: &str) -> (r: Option<usize>)
        ensures
            (r is Some) == (exists|i: int|
                0 <= i < self.spec_names().len() && self.spec_names()[i] == name_bytes(name@)),
            r matches Some(i) ==> i < self.spec_names().len() && self.spec_names()[i as int]
                == name_bytes(name@),
    {
        self.find_exact(name.as_bytes())
    }

    /// Create an index under the given base name and dimension. Fails
    /// with a conflict, changing nothing, exactly when an index of that
    /// full name already exists; otherwise registers a fresh index and
    /// returns its full name.
    pub fn create(&mut self, base: &str, dimension: i32, k: i64) -> (r: Result<String, BridgeError>)
        requires
            old(self).wf(),
            0 < dimension,
        ensures
            final(self).wf(),
            (r is Err) == (exists|i: int|
                0 <= i < old(self).spec_names().len() && old(self).spec_names()[i]
                    == spec_index_name_bytes(name_bytes(base@), dimension as int)),
            r matches Err(e) ==> e is Conflict && *final(self) == *old(self),
            r matches Ok(name) ==> {
                &&& name_bytes(name@) == spec_index_name_bytes(name_bytes(base@), dimension as int)
                &&& final(self).entries@.len() == old(self).entries@.len() + 1
                &&& forall|i: int|
                    0 <= i < old(self).entries@.len() ==> final(self).entries@[i] == old(
                        self,
                    ).entries@[i]
                &&& final(self).entries@.last().name@ == name@
                &&& final(self).entries@.last().dimension == dimension
                &&& final(self).entries@.last().k == k
                &&& final(self).entries@.last().next_id == 0
                &&& final(self).entries@.last().texts@ == Map::<i64, Seq<char>>::empty()
            },
    {
        let full = make_index_name(base, dimension);
        let full_bytes = full.as_str().as_bytes_vec();
        match self.find_exact(full_bytes.as_slice()) {
            Some(_) => Err(BridgeError::Conflict("index already exists".to_owned())),
            None => {
                let entry = BridgeIndex::new(full.clone(), dimension, k);
                let ghost old_names = self.spec_names();
                let ghost old_len = self.entries@.len() as int;
                self.entries.push(entry);
                proof {
                    let names = self.spec_names();
                    assert forall|i: int| 0 <= i < names.len() implies #[trigger] names[i] == (
                    if i < old_len {
                        old_names[i]
                    } else {
                        name_bytes(entry.name@)
                    }) by {
                        if i < old_len {
                            assert(self.entries@[i] == old(self).entries@[i]);
                        } else {
                            assert(self.entries@[i] == entry);
                        }
                    }
                    assert forall|i: int, j: int| 0 <= i < j < names.len() implies #[trigger] names[i]
                        != #[trigger] names[j] by {
                        if j < old_len {
                            assert(old_names[i] != old_names[j]);
                        } else {
                            assert(names[j] == name_bytes(entry.name@));
                            assert(old_names[i] != name_bytes(full@));
                        }
                    }
                    assert forall|i: int| 0 <= i < self.entries@.len() implies (
                    #[trigger] self.entries@[i]).wf() by {
                        if i < old_len {
                            assert(self.entries@[i] == old(self).entries@[i]);
                        } else {
                            assert(self.entries@[i] == entry);
                        }
                    }
                }
                Ok(full)
            },
        }
    }

    /// Resolve a query to the position of an index. An exact full-name
    /// match wins; otherwise the query is taken as a base name, which
    /// must select exactly one index: none is not found, and two or more
    /// are ambiguous.
    pub fn resolve(&self, query: &str) -> (r: Result<usize, BridgeError>)
        requires
            self.wf(),
        ensures
            r matches Ok(i) ==> i < self.spec_names().len() && (self.spec_names()[i as int]
                == name_bytes(query@) || (!(exists|j: int|
                0 <= j < self.spec_names().len() && self.spec_names()[j] == name_bytes(query@))
                && base_matches(self.spec_names()[i as int], name_bytes(query@)) && forall|j: int|
                0 <= j < self.spec_names().len() && j != i ==> !base_matches(
                    #[trigger] self.spec_names()[j],
                    name_bytes(query@),
                ))),
            r matches Err(e) ==> !(exists|j: int|
                0 <= j < self.spec_names().len() && self.spec_names()[j] == name_bytes(query@))
                && (e is NotFound || e is Ambiguous),
            r matches Err(e) ==> (e is NotFound) == (forall|j: int|
                0 <= j < self.spec_names().len() ==> !base_matches(
                    #[trigger] self.spec_names()[j],
                    name_bytes(query@),
                )),
            r matches Err(e) ==> (e is Ambiguous) == (exists|i: int, j: int|
                0 <= i < j < self.spec_names().len() && base_matches(
                    self.spec_names()[i],
                    name_bytes(query@),
                ) && base_matches(self.spec_names()[j], name_bytes(query@))),
    {
        let query_bytes = query.as_bytes();
        if let Some(i) = self.find_exact(query_bytes) {
            return Ok(i);
        }
        let mut prefix = query.as_bytes_vec();
        prefix.push(95);
        prefix.push(100);
        proof {
            assert(prefix@ =~= name_bytes(query@) + seq![95u8, 100u8]);
        }
        let n = self.entries.len();
        let mut found: Option<usize> = None;
        let mut i: usize = 0;
        while i < n
            invariant
                i <= n,
                n == self.entries@.len(),
                self.wf(),
                prefix@ == name_bytes(query@) + seq![95u8, 100u8],
                !(exists|j: int|
                    0 <= j < self.spec_names().len() && self.spec_names()[j] == name_bytes(
                        query@,
                    )),
                (found is None) ==> forall|j: int|
                    0 <= j < i ==> !base_matches(#[trigger] self.spec_names()[j], name_bytes(query@)),
                found matches Some(f) ==> f < i && base_matches(
                    self.spec_names()[f as int],
                    name_bytes(query@),
                ) && forall|j: int|
                    0 <= j < i && j != f ==> !base_matches(
                        #[trigger] self.spec_names()[j],
                        name_bytes(query@),
                    ),
            decreases n - i,
        {
            let name = self.entries[i].name.as_str().as_bytes();
            proof {
                assert(self.spec_names()[i as int] == name_bytes(self.entries@[i as int].name@));
            }
            if has_prefix(name, prefix.as_slice()) {
                match found {
                    Some(f) => {
                        proof {
                            assert(base_matches(self.spec_names()[f as int], name_bytes(query@)));
                            assert(base_matches(self.spec_names()[i as int], name_bytes(query@)));
                        }
                        return Err(BridgeError::Ambiguous("base name is ambiguous".to_owned()));
                    },
                    None => {
                        found = Some(i);
                    },
                }
            }
            i = i + 1;
        }
        match found {
            Some(f) => Ok(f),
            None => Err(BridgeError::NotFound("index not found".to_owned())),
        }
    }

    /// Remove the index with exactly this full name, handing its state
    /// back for the runtime to release the engine handles. Fails with
    /// not-found exactly when no index has the name.
    pub fn remove(&mut self, name: &str) -> (r: Result<BridgeIndex, BridgeError>)
        requires
            old(self).wf(),
        ensures
            final(self).wf(),
            (r is Err) == !(exists|i: int|
                0 <= i < old(self).spec_names().len() && old(self).spec_names()[i] == name_bytes(
                    name@,
                )),
            r matches Err(e) ==> e is NotFound && *final(self) == *old(self),
            r matches Ok(b) ==> name_bytes(b.name@) == name_bytes(name@) && (exists|i: int|
                0 <= i < old(self).entries@.len() && old(self).entries@[i] == b
                    && #[trigger] old(self).entries@.remove(i) == final(self).entries@),
    {
        match self.find_exact(name.as_bytes()) {
            Some(i) => {
                let removed = self.entries.remove(i);
                proof {
                    let old_names = old(self).spec_names();
                    assert forall|a: int, b: int|
                        0 <= a < b < self.entries@.len() implies self.spec_names()[a]
                        != self.spec_names()[b] by {
                        let a0 = if a < i as int {
                            a
                        } else {
                            a + 1
                        };
                        let b0 = if b < i as int {
                            b
                        } else {
                            b + 1
                        };
                        assert(self.entries@[a] == old(self).entries@[a0]);
                        assert(self.entries@[b] == old(self).entries@[b0]);
                        assert(old_names[a0] != old_names[b0]);
                    }
                    assert forall|a: int| 0 <= a < self.entries@.len() implies (
                    #[trigger] self.entries@[a]).wf() by {
                        let a0 = if a < i as int {
                            a
                        } else {
                            a + 1
                        };
                        assert(self.entries@[a] == old(self).entries@[a0]);
                    }
                }
                Ok(removed)
            },
            None => Err(BridgeError::NotFound("index not found".to_owned())),
        }
    }

    /// The full names of the registered indices, in registration order.
    pub fn list(&self) -> (r: Vec<String>)
        ensures
            r@.len() == self.entries@.len(),
            forall|i: int| 0 <= i < r@.len() ==> (#[trigger] r@[i])@ == self.entries@[i].name@,
    {
        let mut out: Vec<String> = Vec::new();
        let n = self.entries.len();
        let mut i: usize = 0;
        while i < n
            invariant
                i <= n,
                n == self.entries@.len(),
                out@.len() == i,
                forall|j: int| 0 <= j < i ==> (#[trigger] out@[j])@ == self.entries@[j].name@,
            decreases n - i,
        {
            out.push(self.entries[i].name.clone());
            i = i + 1;
        }
        out
    }
}

} // verus!
