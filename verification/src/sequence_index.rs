//! A lookup table from short integer sequences to consecutive ids.

use std::collections::HashMap;
use vstd::prelude::*;

verus! {

/// The modulus of the fingerprints, the largest prime below 2^32.
pub const FINGERPRINT_MODULUS: u64 = 4294967291;

/// The base of the fingerprints.
pub const FINGERPRINT_BASE: u64 = 1000003;

/// The fingerprint of a sequence: its value as a polynomial in `FINGERPRINT_BASE`, reduced by
/// `FINGERPRINT_MODULUS`. Equal sequences have equal fingerprints; the converse may fail.
pub open spec fn fingerprint_of(items: Seq<usize>) -> int
    decreases items.len(),
{
    if items.len() == 0 {
        0
    } else {
        (fingerprint_of(items.drop_last()) * FINGERPRINT_BASE + items.last() as int
            % FINGERPRINT_MODULUS as int) % FINGERPRINT_MODULUS as int
    }
}

/// Compute the fingerprint of a sequence.
fn fingerprint(items: &[usize]) -> (result: u64)
    ensures
        result == fingerprint_of(items@),
        result < FINGERPRINT_MODULUS,
{
    let mut result: u64 = 0;
    let mut i: usize = 0;
    while i < items.len()
        invariant
            0 <= i <= items@.len(),
            result == fingerprint_of(items@.take(i as int)),
            result < FINGERPRINT_MODULUS,
        decreases items@.len() - i,
    {
        let term: u64 = items[i] as u64 % FINGERPRINT_MODULUS;
        proof {
            assert(items@.take(i + 1).drop_last() =~= items@.take(i as int));
            assert(items@.take(i + 1).last() == items@[i as int]);
        }
        result = (result * FINGERPRINT_BASE + term) % FINGERPRINT_MODULUS;
        i = i + 1;
    }
    proof {
        assert(items@.take(i as int) =~= items@);
    }
    result
}

/// Compare two sequences.
pub fn same_items(left: &[usize], right: &[usize]) -> (result: bool)
    ensures
        result == (left@ == right@),
{
    if left.len() != right.len() {
        return false;
    }
    let mut i: usize = 0;
    while i < left.len()
        invariant
            0 <= i <= left@.len(),
            left@.len() == right@.len(),
            forall|k: int| 0 <= k < i ==> left@[k] == right@[k],
        decreases left@.len() - i,
    {
        if left[i] != right[i] {
            assert(left@[i as int] != right@[i as int]);
            return false;
        }
        i = i + 1;
    }
    assert(left@ =~= right@);
    true
}

/// A set of distinct integer sequences, numbered in the order in which they were inserted.
#[derive(Debug, Clone)]
pub struct SequenceIndex {
    /// The sequences, each at the position that is its id.
    pub keys: Vec<Vec<usize>>,
    /// For each fingerprint, the ids of the sequences that have it.
    pub ids_by_fingerprint: HashMap<u64, Vec<usize>>,
}

impl View for SequenceIndex {
    type V = Seq<Seq<usize>>;

    /// The sequences in the order of their ids.
    open spec fn view(&self) -> Seq<Seq<usize>> {
        Seq::new(self.keys@.len(), |i: int| self.keys@[i]@)
    }
}

impl SequenceIndex {
    /// The table is sound: no sequence occurs twice, and every sequence can be found through its
    /// fingerprint.
    pub open spec fn wf(&self) -> bool {
        &&& self@.no_duplicates()
        &&& forall|i: int|
            0 <= i < self@.len() ==> self.listed(#[trigger] self@[i], i)
        &&& forall|f: u64, k: int|
            #![trigger self.ids_by_fingerprint@[f]@[k]]
            self.ids_by_fingerprint@.contains_key(f) && 0 <= k
                < self.ids_by_fingerprint@[f]@.len() ==> self.ids_by_fingerprint@[f]@[k]
                < self@.len()
    }

    /// The id `i` is listed under the fingerprint of `key`.
    pub open spec fn listed(&self, key: Seq<usize>, i: int) -> bool {
        &&& self.ids_by_fingerprint@.contains_key(fingerprint_of(key) as u64)
        &&& self.ids_by_fingerprint@[fingerprint_of(key) as u64]@.contains(i as usize)
    }

    /// Build an empty table.
    pub fn new() -> (result: Self)
        ensures
            result.wf(),
            result@ == Seq::<Seq<usize>>::empty(),
    {
        let result = SequenceIndex { keys: Vec::new(), ids_by_fingerprint: HashMap::new() };
        assert(result@ =~= Seq::<Seq<usize>>::empty());
        result
    }

    /// Look up the id of a sequence.
    pub fn find(&self, key: &[usize]) -> (result: Option<usize>)
        requires
            self.wf(),
        ensures
            match result {
                Some(id) => id < self@.len() && self@[id as int] == key@,
                None => !self@.contains(key@),
            },
    {
        broadcast use vstd::std_specs::hash::group_hash_axioms;

        let code: u64 = fingerprint(key);
        let count: usize = self.keys.len();
        match self.ids_by_fingerprint.get(&code) {
            None => {
                proof {
                    if self@.contains(key@) {
                        let i = choose|i: int| 0 <= i < self@.len() && self@[i] == key@;
                        assert(self.listed(self@[i], i));
                    }
                }
                None
            },
            Some(ids) => {
                let mut k: usize = 0;
                while k < ids.len()
                    invariant
                        self.wf(),
                        count == self@.len(),
                        0 <= k <= ids@.len(),
                        code == fingerprint_of(key@),
                        self.ids_by_fingerprint@.contains_key(code),
                        *ids == self.ids_by_fingerprint@[code],
                        forall|m: int| 0 <= m < k ==> self@[#[trigger] ids@[m] as int] != key@,
                    decreases ids@.len() - k,
                {
                    let id: usize = ids[k];
                    assert(self.ids_by_fingerprint@[code]@[k as int] < self@.len());
                    if same_items(self.keys[id].as_slice(), key) {
                        return Some(id);
                    }
                    k = k + 1;
                }
                proof {
                    if self@.contains(key@) {
                        let i = choose|i: int| 0 <= i < self@.len() && self@[i] == key@;
                        assert(self.listed(self@[i], i));
                        let m = choose|m: int| 0 <= m < ids@.len() && ids@[m] == i as usize;
                        assert(ids@[m] as int == i);
                    }
                }
                None
            },
        }
    }

    /// Insert a sequence that is not there yet; it gets the next id.
    pub fn insert(&mut self, key: Vec<usize>) -> (id: usize)
        requires
            old(self).wf(),
            !old(self)@.contains(key@),
        ensures
            final(self).wf(),
            final(self)@ == old(self)@.push(key@),
            id == old(self)@.len(),
    {
        broadcast use vstd::std_specs::hash::group_hash_axioms;

        let code: u64 = fingerprint(key.as_slice());
        let id: usize = self.keys.len();
        let mut ids: Vec<usize> = match self.ids_by_fingerprint.remove(&code) {
            Some(ids) => ids,
            None => Vec::new(),
        };
        let ghost earlier = ids@;
        ids.push(id);
        self.ids_by_fingerprint.insert(code, ids);
        self.keys.push(key);
        proof {
            assert(self@ =~= old(self)@.push(key@));
            assert(ids@[ids@.len() - 1] == id);
            assert forall|i: int| 0 <= i < self@.len() implies self.listed(#[trigger] self@[i], i) by {
                if i < id {
                    assert(self@[i] == old(self)@[i]);
                    assert(old(self).listed(old(self)@[i], i));
                    if fingerprint_of(self@[i]) as u64 == code {
                        let m = choose|m: int| 0 <= m < earlier.len() && earlier[m] == i as usize;
                        assert(ids@[m] == i as usize);
                    }
                }
            }
            assert forall|f: u64, k: int|
                #![trigger self.ids_by_fingerprint@[f]@[k]]
                self.ids_by_fingerprint@.contains_key(f) && 0 <= k
                    < self.ids_by_fingerprint@[f]@.len() implies self.ids_by_fingerprint@[f]@[k]
                < self@.len() by {
                if f == code {
                    if k < earlier.len() {
                        assert(old(self).ids_by_fingerprint@[f]@[k] < old(self)@.len());
                    }
                } else {
                    assert(old(self).ids_by_fingerprint@[f]@[k] < old(self)@.len());
                }
            }
        }
        id
    }
}

} // verus!
