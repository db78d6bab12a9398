//! The buffer client: named append-only buffers of encoded records over
//! the list store, addressed by a fixed namespace prefix plus a caller
//! suffix, with push, length and range reads. A range read decodes its
//! blobs in parallel, keeps store order, and silently drops any blob that
//! fails to decode.

use rayon::iter::IndexedParallelIterator;
use rayon::iter::IntoParallelRefIterator;
use rayon::iter::ParallelIterator;
use vstd::prelude::*;

use crate::codec::decode_blob;
use crate::codec::encode;
use crate::codec::lemma_round_trip;
use crate::codec::spec_decode;
use crate::codec::spec_encode;
use crate::data::Sequence;
use crate::data::SequenceModel;
use crate::errors::BufferError;
use crate::store::MemStore;
use crate::store::clamped;

verus! {

/// The fixed namespace prefix of every buffer key (the bytes of
/// `sequences_`): a buffer named by suffix `s` lives under key
/// `sequences_s`.
pub open spec fn key_prefix() -> Seq<u8> {
    seq![115u8, 101u8, 113u8, 117u8, 101u8, 110u8, 99u8, 101u8, 115u8, 95u8]
}

/// The full store key of the buffer named by `suffix`.
pub open spec fn spec_key(suffix: Seq<u8>) -> Seq<u8> {
    key_prefix() + suffix
}

/// Distinct suffixes name distinct store keys.
pub proof fn lemma_key_injective(a: Seq<u8>, b: Seq<u8>)
    requires
        spec_key(a) == spec_key(b),
    ensures
        a == b,
{
    assert(key_prefix().len() == 10);
    assert(spec_key(a).len() == key_prefix().len() + a.len());
    assert(spec_key(b).len() == key_prefix().len() + b.len());
    assert(a.len() == b.len());
    assert forall|i: int| 0 <= i < a.len() implies a[i] == b[i] by {
        assert(spec_key(a)[10 + i] == a[i]);
        assert(spec_key(b)[10 + i] == b[i]);
    }
    assert(a =~= b);
}

/// Builds the full store key of the buffer named by `suffix`.
pub fn make_key(suffix: &Vec<u8>) -> (k: Vec<u8>)
    ensures
        k@ == spec_key(suffix@),
{
    let mut k: Vec<u8> = Vec::new();
    k.push(115u8);
    k.push(101u8);
    k.push(113u8);
    k.push(117u8);
    k.push(101u8);
    k.push(110u8);
    k.push(99u8);
    k.push(101u8);
    k.push(115u8);
    k.push(95u8);
    let mut i: usize = 0;
    while i < suffix.len()
        invariant
            0 <= i <= suffix@.len(),
            k@ == key_prefix() + suffix@.take(i as int),
        decreases suffix@.len() - i,
    {
        k.push(suffix[i]);
        proof {
            assert(key_prefix() + suffix@.take(i as int) + seq![suffix@[i as int]]
                =~= key_prefix() + suffix@.take(i as int + 1));
        }
        i = i + 1;
    }
    proof {
        assert(key_prefix() + suffix@.take(suffix@.len() as int) =~= spec_key(suffix@));
    }
    k
}

/// The model a decode outcome stands for.
pub open spec fn opt_model(o: Option<Sequence>) -> Option<SequenceModel> {
    match o {
        Some(s) => Some(s@),
        None => None,
    }
}

/// What a batch of blobs decodes to: each blob decoded independently, the
/// failures dropped, the successes kept in blob order.
pub open spec fn decoded_batch(blobs: Seq<Seq<u8>>) -> Seq<SequenceModel>
    decreases blobs.len(),
{
    if blobs.len() == 0 {
        Seq::empty()
    } else {
        decoded_batch(blobs.drop_last()) + (match spec_decode(blobs.last()) {
            Some(m) => seq![m],
            None => Seq::empty(),
        })
    }
}

/// Relies on rayon's `par_iter().map(..).collect_into_vec(..)`: it applies
/// the given closure to every element and collects the results in the
/// input's order, index for index. The closure only calls this crate's
/// `decode_blob`.
#[verifier::external_body]
fn par_decode(blobs: &Vec<Vec<u8>>) -> (r: Vec<Option<Sequence>>)
    ensures
        r@.len() == blobs@.len(),
        forall|i: int|
            0 <= i < blobs@.len() ==> opt_model(#[trigger] r@[i]) == spec_decode(blobs@[i]@),
{
    let mut out: Vec<Option<Sequence>> = Vec::new();
    blobs.par_iter().map(|b| decode_blob(b)).collect_into_vec(&mut out);
    out
}

/// Decodes a batch of blobs, in parallel, into the records they encode:
/// store order is preserved, and a blob that fails to decode is dropped
/// without affecting its siblings.
pub fn decode_batch(blobs: &Vec<Vec<u8>>) -> (r: Vec<Sequence>)
    ensures
        r@.map_values(|s: Sequence| s@) == decoded_batch(blobs@.map_values(|b: Vec<u8>| b@)),
{
    let mut opts = par_decode(blobs);
    let ghost orig = opts@;
    let ghost models = blobs@.map_values(|b: Vec<u8>| b@);
    let mut out: Vec<Sequence> = Vec::new();
    let mut i: usize = 0;
    proof {
        assert(orig.len() == vstd::std_specs::vec::spec_vec_len(&opts));
    }
    while opts.len() > 0
        invariant
            0 <= i as int <= orig.len() <= usize::MAX,
            i as int + opts@.len() == orig.len(),
            opts@ == orig.subrange(i as int, orig.len() as int),
            models.len() == orig.len(),
            forall|k: int|
                0 <= k < orig.len() ==> opt_model(#[trigger] orig[k]) == spec_decode(models[k]),
            out@.map_values(|s: Sequence| s@) == decoded_batch(models.take(i as int)),
        decreases opts@.len(),
    {
        let o = opts.remove(0);
        proof {
            assert(o == orig[i as int]);
            assert(opts@ =~= orig.subrange(i as int + 1, orig.len() as int));
            assert(models.take(i as int + 1).drop_last() =~= models.take(i as int));
            assert(models.take(i as int + 1).last() == models[i as int]);
        }
        match o {
            Some(s) => {
                proof {
                    assert(out@.push(s).map_values(|q: Sequence| q@) =~= out@.map_values(
                        |q: Sequence| q@,
                    ).push(s@));
                }
                out.push(s);
            },
            None => {
                proof {
                    assert(decoded_batch(models.take(i as int)) + Seq::<SequenceModel>::empty()
                        =~= decoded_batch(models.take(i as int)));
                }
            },
        }
        i = i + 1;
    }
    proof {
        assert(models.take(models.len() as int) =~= models);
    }
    out
}

/// A buffer client over the in-memory list store: the verified core of
/// push, length and range reads against named buffers.
pub struct SeqBuffer {
    store: MemStore,
}

impl SeqBuffer {
    /// The blobs currently stored, in push order, in the buffer named by
    /// `suffix`.
    pub closed spec fn buffer(self, suffix: Seq<u8>) -> Seq<Seq<u8>> {
        self.store.contents(spec_key(suffix))
    }

    /// A fresh client: every buffer is empty.
    pub fn new() -> (b: Self)
        ensures
            forall|sfx: Seq<u8>| b.buffer(sfx) == Seq::<Seq<u8>>::empty(),
    {
        SeqBuffer { store: MemStore::new() }
    }

    /// Encodes the record and appends the blob to the tail of the named
    /// buffer, which grows by exactly one element; every other buffer is
    /// untouched. Fails exactly on an ill-formed record, which is reported
    /// and changes nothing.
    pub fn push(&mut self, suffix: &Vec<u8>, s: &Sequence) -> (r: Result<(), BufferError>)
        ensures
            s@.wf() ==> r == Ok::<(), BufferError>(()) && final(self).buffer(suffix@) == old(
                self,
            ).buffer(suffix@).push(spec_encode(s@)) && final(self).buffer(suffix@).len() == old(
                self,
            ).buffer(suffix@).len() + 1,
            !s@.wf() ==> r == Err::<(), BufferError>(BufferError::EncodingError) && *final(self)
                == *old(self),
            forall|other: Seq<u8>|
                other != suffix@ ==> final(self).buffer(other) == old(self).buffer(other),
    {
        match encode(s) {
            Err(e) => Err(e),
            Ok(blob) => {
                let key = make_key(suffix);
                self.store.append(&key, blob);
                proof {
                    assert forall|other: Seq<u8>| other != suffix@ implies self.buffer(other)
                        == old(self).buffer(other) by {
                        if spec_key(other) == spec_key(suffix@) {
                            lemma_key_injective(other, suffix@);
                        }
                    }
                }
                Ok(())
            },
        }
    }

    /// The element count of the named buffer; zero for a buffer never
    /// pushed to.
    pub fn length(&self, suffix: &Vec<u8>) -> (n: usize)
        ensures
            n == self.buffer(suffix@).len(),
    {
        let key = make_key(suffix);
        self.store.len_of(&key)
    }

    /// Reads the capped window `[start, start+count)` of the named buffer
    /// and decodes it in parallel: the decoded records come back in store
    /// order, undecodable blobs silently dropped, so the returned count is
    /// the true decoded count, not the requested one.
    pub fn read_range(&self, suffix: &Vec<u8>, start: usize, count: usize) -> (r: Vec<Sequence>)
        ensures
            r@.map_values(|s: Sequence| s@) == decoded_batch(
                clamped(self.buffer(suffix@), start as int, count as int),
            ),
    {
        let key = make_key(suffix);
        let blobs = self.store.range(&key, start, count);
        decode_batch(&blobs)
    }
}

/// The encodings of a run of records, in order.
pub open spec fn encode_all(ms: Seq<SequenceModel>) -> Seq<Seq<u8>> {
    ms.map_values(|m: SequenceModel| spec_encode(m))
}

/// The buffer contents after pushing each record of `ms` in turn onto a
/// buffer holding `b` — each push appends exactly one blob, as `push`
/// ensures.
pub open spec fn after_pushes(b: Seq<Seq<u8>>, ms: Seq<SequenceModel>) -> Seq<Seq<u8>>
    decreases ms.len(),
{
    if ms.len() == 0 {
        b
    } else {
        after_pushes(b.push(spec_encode(ms[0])), ms.drop_first())
    }
}

/// Length growth law: after `n` successful pushes, with no other writer
/// in between, the buffer holds exactly its old elements followed by the
/// `n` new encodings — so its length has grown by exactly `n`, whichever
/// producers the pushes came from.
pub proof fn lemma_after_pushes(b: Seq<Seq<u8>>, ms: Seq<SequenceModel>)
    ensures
        after_pushes(b, ms) == b + encode_all(ms),
        after_pushes(b, ms).len() == b.len() + ms.len(),
    decreases ms.len(),
{
    if ms.len() == 0 {
        assert(b + encode_all(ms) =~= b);
    } else {
        lemma_after_pushes(b.push(spec_encode(ms[0])), ms.drop_first());
        assert(encode_all(ms.drop_first()) =~= encode_all(ms).drop_first());
        assert(b.push(spec_encode(ms[0])) + encode_all(ms).drop_first() =~= b + encode_all(ms));
    }
}

/// Order law: a buffer holding exactly the encodings of well-formed
/// records decodes back to those records, in push order, element for
/// element.
pub proof fn lemma_decode_ordered(ms: Seq<SequenceModel>)
    requires
        forall|i: int| 0 <= i < ms.len() ==> (#[trigger] ms[i]).wf(),
    ensures
        decoded_batch(encode_all(ms)) == ms,
    decreases ms.len(),
{
    let bs = encode_all(ms);
    if ms.len() == 0 {
        assert(decoded_batch(bs) =~= ms);
    } else {
        assert(bs.last() == spec_encode(ms.last()));
        lemma_round_trip(ms.last());
        assert(bs.drop_last() =~= encode_all(ms.drop_last()));
        lemma_decode_ordered(ms.drop_last());
        assert(ms.drop_last() + seq![ms.last()] =~= ms);
    }
}

/// Order law, read end to end: a buffer holding the encodings of
/// well-formed records, range-read in full from the start, decodes to
/// exactly those records in push order, however the decode work was
/// scheduled.
pub proof fn lemma_read_all_in_order(ms: Seq<SequenceModel>)
    requires
        forall|i: int| 0 <= i < ms.len() ==> (#[trigger] ms[i]).wf(),
    ensures
        decoded_batch(clamped(encode_all(ms), 0, ms.len() as int)) == ms,
{
    assert(clamped(encode_all(ms), 0, ms.len() as int) =~= encode_all(ms));
    lemma_decode_ordered(ms);
}

/// Corruption law: a blob that fails to decode contributes nothing — the
/// batch decodes exactly as if that blob were absent, the survivors in
/// their original relative order.
pub proof fn lemma_corrupt_skipped(bs: Seq<Seq<u8>>, k: int)
    requires
        0 <= k < bs.len(),
        spec_decode(bs[k]) is None,
    ensures
        decoded_batch(bs) == decoded_batch(bs.remove(k)),
    decreases bs.len(),
{
    if k == bs.len() - 1 {
        assert(bs.remove(k) =~= bs.drop_last());
        assert(decoded_batch(bs.drop_last()) + Seq::<SequenceModel>::empty() =~= decoded_batch(
            bs.drop_last(),
        ));
    } else {
        assert(bs.remove(k).drop_last() =~= bs.drop_last().remove(k));
        assert(bs.remove(k).last() == bs.last());
        lemma_corrupt_skipped(bs.drop_last(), k);
    }
}

/// Clamp law: a range read caps at the buffer's end — starting inside the
/// buffer it returns `min(count, len - start)` elements, starting at or
/// past the end it returns none, and each returned element is the stored
/// element at `start + j`.
pub proof fn lemma_clamp<T>(s: Seq<T>, start: int, count: int)
    requires
        0 <= start,
        0 <= count,
    ensures
        start + count <= s.len() ==> clamped(s, start, count).len() == count,
        start <= s.len() && start + count > s.len() ==> clamped(s, start, count).len() == s.len()
            - start,
        start >= s.len() ==> clamped(s, start, count).len() == 0,
        forall|j: int|
            0 <= j < clamped(s, start, count).len() ==> clamped(s, start, count)[j] == s[start + j],
{
}

} // verus!
