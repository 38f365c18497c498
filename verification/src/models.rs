//! Shared building blocks of the device models: single stores, the
//! per-cache-line ordered write buffer, and the byte-image overlay
//! semantics both devices share.
//!
//! Every executable type has a mathematical view: a [`Store`] is a
//! [`StoreModel`] (an offset and a byte sequence), an
//! [`OrderedWriteLine`] is a [`LineModel`] (an ordered sequence of store
//! models and a flushed count).  All contracts speak over these models.

use vstd::prelude::*;
use vstd::slice::slice_subrange;

verus! {

/// The mathematical content of a store: `bytes` laid down at `start`.
pub ghost struct StoreModel {
    pub start: int,
    pub bytes: Seq<u8>,
}

impl StoreModel {
    /// One past the last byte offset written.
    pub open spec fn end(&self) -> int {
        self.start + self.bytes.len()
    }

    /// The store covers at least one byte and stays addressable.
    pub open spec fn wf(&self) -> bool {
        0 <= self.start && self.bytes.len() >= 1 && self.end() <= usize::MAX
    }
}

/// One contiguous byte write: `data` laid down starting at `address`.
/// Immutable once appended to a buffer.
#[derive(Debug, Clone)]
pub struct Store {
    pub address: usize,
    pub data: Vec<u8>,
}

impl View for Store {
    type V = StoreModel;

    open spec fn view(&self) -> StoreModel {
        StoreModel { start: self.address as int, bytes: self.data@ }
    }
}

impl Store {
    /// First byte offset written.
    pub fn address_start(&self) -> (r: usize)
        ensures
            r == self@.start,
    {
        self.address
    }

    /// One past the last byte offset written.
    pub fn address_end(&self) -> (r: usize)
        requires
            self@.end() <= usize::MAX,
        ensures
            r == self@.end(),
    {
        self.address + self.data.len()
    }

    /// The half-open range of byte offsets this store covers.
    pub fn address_range(&self) -> (r: core::ops::Range<usize>)
        requires
            self@.end() <= usize::MAX,
        ensures
            r.start == self@.start,
            r.end == self@.end(),
    {
        self.address_start()..self.address_end()
    }

    /// An exact copy of the store.
    pub fn duplicate(&self) -> (r: Store)
        ensures
            r@ == self@,
    {
        Store { address: self.address, data: clone_bytes(&self.data) }
    }
}

/// An exact copy of a byte vector.
pub fn clone_bytes(v: &Vec<u8>) -> (r: Vec<u8>)
    ensures
        r@ == v@,
{
    let mut r: Vec<u8> = Vec::new();
    let mut i: usize = 0;
    while i < v.len()
        invariant
            i <= v@.len(),
            r@ == v@.take(i as int),
        decreases v@.len() - i,
    {
        r.push(v[i]);
        proof {
            assert(v@.take(i + 1) =~= v@.take(i as int).push(v@[i as int]));
        }
        i += 1;
    }
    proof {
        assert(v@.take(v@.len() as int) =~= v@);
    }
    r
}

/// `img` with the bytes of `s` laid over it.  Offsets of `s` outside
/// `img` are ignored; the result always has `img`'s length.
pub open spec fn overlay_store(img: Seq<u8>, s: StoreModel) -> Seq<u8> {
    Seq::new(
        img.len(),
        |i: int|
            if s.start <= i < s.end() {
                s.bytes[i - s.start]
            } else {
                img[i]
            },
    )
}

/// `img` with every store of `ss` laid over it, first to last.
pub open spec fn apply_stores(img: Seq<u8>, ss: Seq<StoreModel>) -> Seq<u8>
    decreases ss.len(),
{
    if ss.len() == 0 {
        img
    } else {
        apply_stores(overlay_store(img, ss[0]), ss.drop_first())
    }
}

/// Applying one more store on the right folds onto the accumulated image.
pub proof fn lemma_apply_stores_snoc(img: Seq<u8>, ss: Seq<StoreModel>, s: StoreModel)
    ensures
        apply_stores(img, ss.push(s)) == overlay_store(apply_stores(img, ss), s),
    decreases ss.len(),
{
    if ss.len() == 0 {
        assert(ss.push(s).drop_first() =~= Seq::<StoreModel>::empty());
        assert(ss.push(s)[0] == s);
        assert(apply_stores(img, ss) == img);
        assert(apply_stores(overlay_store(img, s), Seq::<StoreModel>::empty()) == overlay_store(
            img,
            s,
        ));
    } else {
        assert(ss.push(s)[0] == ss[0]);
        assert(ss.push(s).drop_first() =~= ss.drop_first().push(s));
        lemma_apply_stores_snoc(overlay_store(img, ss[0]), ss.drop_first(), s);
    }
}

/// Overlaying never changes an image's length.
pub proof fn lemma_apply_stores_len(img: Seq<u8>, ss: Seq<StoreModel>)
    ensures
        apply_stores(img, ss).len() == img.len(),
    decreases ss.len(),
{
    if ss.len() != 0 {
        lemma_apply_stores_len(overlay_store(img, ss[0]), ss.drop_first());
    }
}

/// Lay the bytes of `store` over the image in place.
pub fn apply_store_to(img: &mut Vec<u8>, store: &Store)
    requires
        store@.wf(),
        store@.end() <= old(img)@.len(),
    ensures
        final(img)@ == overlay_store(old(img)@, store@),
{
    let mut j: usize = 0;
    while j < store.data.len()
        invariant
            j <= store.data@.len(),
            store@.wf(),
            store@.end() <= img@.len(),
            img@.len() == old(img)@.len(),
            forall|k: int|
                store@.start <= k < store@.start + j ==> img@[k] == store.data@[k - store@.start],
            forall|k: int|
                0 <= k < img@.len() && !(store@.start <= k < store@.start + j) ==> img@[k] == old(
                    img,
                )@[k],
        decreases store.data@.len() - j,
    {
        img.set(store.address + j, store.data[j]);
        j += 1;
    }
    proof {
        assert(final(img)@ =~= overlay_store(old(img)@, store@));
    }
}

/// The intersection of two half-open ranges; empty when they do not meet.
pub fn range_overlap(r1: &core::ops::Range<usize>, r2: &core::ops::Range<usize>) -> (r: core::ops::Range<
    usize,
>)
    ensures
        r.start == if r1.start >= r2.start {
            r1.start
        } else {
            r2.start
        },
        r.end == if r1.end <= r2.end {
            r1.end
        } else {
            r2.end
        },
{
    let start = if r1.start >= r2.start {
        r1.start
    } else {
        r2.start
    };
    let end = if r1.end <= r2.end {
        r1.end
    } else {
        r2.end
    };
    start..end
}

/// Whether the byte ranges `[s1, e1)` and `[s2, e2)` share an offset.
pub open spec fn ranges_overlap(s1: int, e1: int, s2: int, e2: int) -> bool {
    let lo = if s1 >= s2 {
        s1
    } else {
        s2
    };
    let hi = if e1 <= e2 {
        e1
    } else {
        e2
    };
    lo < hi
}

/// The mathematical content of an ordered write line.
pub ghost struct LineModel {
    pub writes: Seq<StoreModel>,
    pub flushed: int,
}

impl LineModel {
    /// The flushed mark stays within the buffer and every store is sound.
    pub open spec fn wf(&self) -> bool {
        &&& 0 <= self.flushed <= self.writes.len()
        &&& forall|j: int| 0 <= j < self.writes.len() ==> (#[trigger] self.writes[j]).wf()
    }
}

/// An ordered buffer of stores belonging to a single cache line, with a
/// count of how many leading stores are marked for persistence.
#[derive(Debug)]
pub struct OrderedWriteLine {
    writes: Vec<Store>,
    flushed_index: usize,
}

impl View for OrderedWriteLine {
    type V = LineModel;

    closed spec fn view(&self) -> LineModel {
        LineModel {
            writes: self.writes@.map_values(|s: Store| s@),
            flushed: self.flushed_index as int,
        }
    }
}

impl OrderedWriteLine {
    /// An empty line with nothing marked.
    pub fn new() -> (r: OrderedWriteLine)
        ensures
            r@.writes == Seq::<StoreModel>::empty(),
            r@.flushed == 0,
    {
        let r = OrderedWriteLine { writes: Vec::new(), flushed_index: 0 };
        proof {
            assert(r@.writes =~= Seq::<StoreModel>::empty());
        }
        r
    }

    /// Append a store at the end of the line.
    pub fn push_write(&mut self, s: Store)
        ensures
            final(self)@.writes == old(self)@.writes.push(s@),
            final(self)@.flushed == old(self)@.flushed,
    {
        self.writes.push(s);
        proof {
            assert(final(self)@.writes =~= old(self)@.writes.push(s@));
        }
    }

    /// Mark every buffered store for persistence.
    pub fn flush_all(&mut self)
        ensures
            final(self)@.writes == old(self)@.writes,
            final(self)@.flushed == old(self)@.writes.len(),
    {
        self.flushed_index = self.writes.len();
    }

    /// Set the flushed mark to an explicit count.
    pub fn set_flushed_index(&mut self, limit: usize)
        requires
            limit <= old(self)@.writes.len(),
        ensures
            final(self)@.writes == old(self)@.writes,
            final(self)@.flushed == limit,
    {
        self.flushed_index = limit;
    }

    /// How many stores the line buffers.
    pub fn len(&self) -> (r: usize)
        ensures
            r == self@.writes.len(),
    {
        self.writes.len()
    }

    /// How many leading stores are marked for persistence.
    pub fn flushed_index(&self) -> (r: usize)
        ensures
            r == self@.flushed,
    {
        self.flushed_index
    }

    /// Every buffered store, oldest first.
    pub fn all_writes(&self) -> (r: &[Store])
        ensures
            r@.map_values(|s: Store| s@) == self@.writes,
    {
        self.writes.as_slice()
    }

    /// The leading stores marked for persistence.
    pub fn flushed_writes(&self) -> (r: &[Store])
        requires
            self@.wf(),
        ensures
            r@.map_values(|s: Store| s@) == self@.writes.take(self@.flushed),
    {
        let r = slice_subrange(self.writes.as_slice(), 0, self.flushed_index);
        proof {
            assert(r@.map_values(|s: Store| s@) =~= self@.writes.take(self@.flushed));
        }
        r
    }

    /// The trailing stores not yet marked.
    pub fn unflushed_writes(&self) -> (r: &[Store])
        requires
            self@.wf(),
        ensures
            r@.map_values(|s: Store| s@) == self@.writes.skip(self@.flushed),
    {
        let r = slice_subrange(self.writes.as_slice(), self.flushed_index, self.writes.len());
        proof {
            assert(r@.map_values(|s: Store| s@) =~= self@.writes.skip(self@.flushed));
        }
        r
    }

    /// Remove and return the marked leading stores, resetting the mark.
    pub fn drain_flushed_writes(&mut self) -> (r: Vec<Store>)
        requires
            old(self)@.wf(),
        ensures
            r@.map_values(|s: Store| s@) == old(self)@.writes.take(old(self)@.flushed),
            final(self)@.writes == old(self)@.writes.skip(old(self)@.flushed),
            final(self)@.flushed == 0,
    {
        let mut tail = self.writes.split_off(self.flushed_index);
        core::mem::swap(&mut self.writes, &mut tail);
        self.flushed_index = 0;
        proof {
            assert(tail@.map_values(|s: Store| s@) =~= old(self)@.writes.take(old(self)@.flushed));
            assert(final(self)@.writes =~= old(self)@.writes.skip(old(self)@.flushed));
        }
        tail
    }

    /// Do any buffered stores overlap an access at `address` of `size` bytes?
    pub fn overlaps_access(&self, address: usize, size: usize) -> (r: bool)
        requires
            address + size <= usize::MAX,
            self@.wf(),
        ensures
            r == exists|j: int|
                0 <= j < self@.writes.len() && ranges_overlap(
                    (#[trigger] self@.writes[j]).start,
                    self@.writes[j].end(),
                    address as int,
                    address + size,
                ),
    {
        let access_range = address..(address + size);
        let mut i: usize = 0;
        while i < self.writes.len()
            invariant
                i <= self@.writes.len(),
                access_range.start == address,
                access_range.end == address + size,
                address + size <= usize::MAX,
                self@.wf(),
                forall|j: int|
                    0 <= j < i ==> !ranges_overlap(
                        (#[trigger] self@.writes[j]).start,
                        self@.writes[j].end(),
                        address as int,
                        address + size,
                    ),
            decreases self@.writes.len() - i,
        {
            let w = &self.writes[i];
            proof {
                assert(self@.writes[i as int] == self.writes@[i as int]@);
            }
            let ov = range_overlap(&w.address_range(), &access_range);
            if ov.start < ov.end {
                return true;
            }
            i += 1;
        }
        false
    }
}

} // verus!
