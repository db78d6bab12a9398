//! In-memory model of the ordered list store: an append-only log of
//! (key, blob) pushes. The list held under a key is the sequence of blobs
//! pushed with that key, in push order; a key never pushed holds the empty
//! list. Appending, counting and range reads with end-capping are verified
//! against this model.

use vstd::prelude::*;

verus! {

/// One append: a key and the blob pushed under it.
pub struct PushRecord {
    pub key: Vec<u8>,
    pub blob: Vec<u8>,
}

/// The list held under `key` after the pushes in `log`, in push order.
pub open spec fn contents_of(log: Seq<PushRecord>, key: Seq<u8>) -> Seq<Seq<u8>>
    decreases log.len(),
{
    if log.len() == 0 {
        Seq::empty()
    } else {
        contents_of(log.drop_last(), key) + (if log.last().key@ == key {
            seq![log.last().blob@]
        } else {
            Seq::empty()
        })
    }
}

/// The store's range convention: the half-open window `[start, start+count)`
/// capped to the list's end; a window past the end is empty, not an error.
pub open spec fn clamped<T>(s: Seq<T>, start: int, count: int) -> Seq<T> {
    let lo = if start < s.len() {
        start
    } else {
        s.len() as int
    };
    let hi = if start + count < s.len() {
        start + count
    } else {
        s.len() as int
    };
    if lo <= hi {
        s.subrange(lo, hi)
    } else {
        Seq::empty()
    }
}

/// Decides byte-sequence equality.
pub fn bytes_eq(a: &Vec<u8>, b: &Vec<u8>) -> (r: bool)
    ensures
        r == (a@ == b@),
{
    if a.len() != b.len() {
        return false;
    }
    let mut i: usize = 0;
    while i < a.len()
        invariant
            0 <= i <= a@.len(),
            a@.len() == b@.len(),
            forall|j: int| 0 <= j < i ==> a@[j] == b@[j],
        decreases a@.len() - i,
    {
        if a[i] != b[i] {
            return false;
        }
        i = i + 1;
    }
    proof {
        assert(a@ =~= b@);
    }
    true
}

/// Copies a byte vector.
pub fn copy_bytes(v: &Vec<u8>) -> (r: Vec<u8>)
    ensures
        r@ == v@,
{
    let mut r: Vec<u8> = Vec::new();
    let mut i: usize = 0;
    while i < v.len()
        invariant
            0 <= i <= v@.len(),
            r@ == v@.take(i as int),
        decreases v@.len() - i,
    {
        r.push(v[i]);
        proof {
            assert(v@.take(i as int).push(v@[i as int]) =~= v@.take(i as int + 1));
        }
        i = i + 1;
    }
    proof {
        assert(v@.take(v@.len() as int) =~= v@);
    }
    r
}

/// The in-memory ordered list store: append-to-tail, list-length and
/// list-range, keyed by raw byte keys, mirroring the store conventions the
/// buffer relies on (absent key reads as empty; ranges cap at the end).
pub struct MemStore {
    log: Vec<PushRecord>,
}

impl MemStore {
    /// The list currently held under `key`.
    pub closed spec fn contents(self, key: Seq<u8>) -> Seq<Seq<u8>> {
        contents_of(self.log@, key)
    }

    /// A fresh store holds the empty list under every key.
    pub fn new() -> (s: Self)
        ensures
            forall|k: Seq<u8>| s.contents(k) == Seq::<Seq<u8>>::empty(),
    {
        let s = MemStore { log: Vec::new() };
        proof {
            assert forall|k: Seq<u8>| s.contents(k) == Seq::<Seq<u8>>::empty() by {
                assert(s.log@.len() == 0);
            }
        }
        s
    }

    /// Appends `blob` to the tail of the list under `key`: that list grows
    /// by exactly this one element, every other list is untouched.
    pub fn append(&mut self, key: &Vec<u8>, blob: Vec<u8>)
        ensures
            final(self).contents(key@) == old(self).contents(key@).push(blob@),
            forall|k2: Seq<u8>|
                k2 != key@ ==> final(self).contents(k2) == old(self).contents(k2),
    {
        let ghost oldlog = self.log@;
        let ghost b = blob@;
        let rec = PushRecord { key: copy_bytes(key), blob };
        self.log.push(rec);
        proof {
            assert(self.log@.drop_last() =~= oldlog);
            assert(contents_of(oldlog, key@) + seq![b] =~= contents_of(oldlog, key@).push(b));
            assert forall|k2: Seq<u8>| k2 != key@ implies contents_of(self.log@, k2)
                == contents_of(oldlog, k2) by {
                assert(contents_of(oldlog, k2) + Seq::<Seq<u8>>::empty() =~= contents_of(
                    oldlog,
                    k2,
                ));
            }
        }
    }

    /// The element count of the list under `key`; zero for an absent key.
    pub fn len_of(&self, key: &Vec<u8>) -> (n: usize)
        ensures
            n == self.contents(key@).len(),
    {
        let mut n: usize = 0;
        let mut i: usize = 0;
        while i < self.log.len()
            invariant
                0 <= i <= self.log@.len(),
                n <= i,
                n == contents_of(self.log@.take(i as int), key@).len(),
            decreases self.log@.len() - i,
        {
            proof {
                assert(self.log@.take(i as int + 1).drop_last() =~= self.log@.take(i as int));
                assert(self.log@.take(i as int + 1).last() == self.log@[i as int]);
            }
            if bytes_eq(&self.log[i].key, key) {
                n = n + 1;
            }
            i = i + 1;
        }
        proof {
            assert(self.log@.take(self.log@.len() as int) =~= self.log@);
        }
        n
    }

    /// Reads the capped window `[start, start+count)` of the list under
    /// `key`, in list order.
    pub fn range(&self, key: &Vec<u8>, start: usize, count: usize) -> (r: Vec<Vec<u8>>)
        ensures
            r@.map_values(|v: Vec<u8>| v@) == clamped(
                self.contents(key@),
                start as int,
                count as int,
            ),
    {
        let mut all: Vec<Vec<u8>> = Vec::new();
        let mut i: usize = 0;
        while i < self.log.len()
            invariant
                0 <= i <= self.log@.len(),
                all@.len() <= i,
                all@.map_values(|v: Vec<u8>| v@) == contents_of(
                    self.log@.take(i as int),
                    key@,
                ),
            decreases self.log@.len() - i,
        {
            proof {
                assert(self.log@.take(i as int + 1).drop_last() =~= self.log@.take(i as int));
                assert(self.log@.take(i as int + 1).last() == self.log@[i as int]);
            }
            if bytes_eq(&self.log[i].key, key) {
                let b = copy_bytes(&self.log[i].blob);
                proof {
                    assert(all@.push(b).map_values(|v: Vec<u8>| v@) =~= all@.map_values(
                        |v: Vec<u8>| v@,
                    ).push(b@));
                    assert(contents_of(self.log@.take(i as int), key@) + seq![
                        self.log@[i as int].blob@,
                    ] =~= contents_of(self.log@.take(i as int), key@).push(
                        self.log@[i as int].blob@,
                    ));
                }
                all.push(b);
            } else {
                proof {
                    assert(contents_of(self.log@.take(i as int), key@)
                        + Seq::<Seq<u8>>::empty() =~= contents_of(
                        self.log@.take(i as int),
                        key@,
                    ));
                }
            }
            i = i + 1;
        }
        proof {
            assert(self.log@.take(self.log@.len() as int) =~= self.log@);
        }
        let lo: usize = if start < all.len() {
            start
        } else {
            all.len()
        };
        let hi: usize = if count < all.len() - lo {
            lo + count
        } else {
            all.len()
        };
        let ghost cts = contents_of(self.log@, key@);
        proof {
            let si = start as int;
            let ci = count as int;
            let n = cts.len() as int;
            if si + ci < n {
                assert(hi as int == si + ci);
            } else {
                assert(hi as int == n);
            }
        }
        let mut r: Vec<Vec<u8>> = Vec::new();
        let mut j: usize = lo;
        while j < hi
            invariant
                lo <= j <= hi <= all@.len(),
                r@.map_values(|v: Vec<u8>| v@) == all@.map_values(|v: Vec<u8>| v@).subrange(
                    lo as int,
                    j as int,
                ),
            decreases hi - j,
        {
            let b = copy_bytes(&all[j]);
            proof {
                assert(r@.push(b).map_values(|v: Vec<u8>| v@) =~= r@.map_values(
                    |v: Vec<u8>| v@,
                ).push(b@));
                assert(all@.map_values(|v: Vec<u8>| v@).subrange(lo as int, j as int).push(
                    all@.map_values(|v: Vec<u8>| v@)[j as int],
                ) =~= all@.map_values(|v: Vec<u8>| v@).subrange(lo as int, j as int + 1));
            }
            r.push(b);
            j = j + 1;
        }
        proof {
            assert(r@.map_values(|v: Vec<u8>| v@) =~= clamped(
                cts,
                start as int,
                count as int,
            ));
        }
        r
    }
}

} // verus!
