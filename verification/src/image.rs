//! Content-addressed crash-image pool.
//!
//! Every candidate crash image is offered to the [`ImagePool`], which
//! identifies it by its BLAKE3 digest, deduplicates it, and enforces a
//! hard cap on the total number of bytes offered as fresh images.  The
//! pool itself performs no I/O: fresh images are queued with their hash
//! and the embedding program drains the queue to disk.

use vstd::prelude::*;

use crate::CigError;

verus! {

/// The BLAKE3 digest of a byte sequence.  The digest is a function of the
/// input bytes alone; its exact value is not modelled here.
pub uninterp spec fn blake3_of(data: Seq<u8>) -> Seq<u8>;

/// Relies on `blake3::hash`: the 32-byte digest depends on the input
/// bytes alone, on every machine and in every process.
#[verifier::external_body]
fn blake3_digest(data: &[u8]) -> (r: [u8; 32])
    ensures
        r@ == blake3_of(data@),
{
    *blake3::hash(data).as_bytes()
}

/// The lowercase hexadecimal digit for a value below 16.
pub open spec fn hex_digit(n: u8) -> char {
    if n == 0 {
        '0'
    } else if n == 1 {
        '1'
    } else if n == 2 {
        '2'
    } else if n == 3 {
        '3'
    } else if n == 4 {
        '4'
    } else if n == 5 {
        '5'
    } else if n == 6 {
        '6'
    } else if n == 7 {
        '7'
    } else if n == 8 {
        '8'
    } else if n == 9 {
        '9'
    } else if n == 10 {
        'a'
    } else if n == 11 {
        'b'
    } else if n == 12 {
        'c'
    } else if n == 13 {
        'd'
    } else if n == 14 {
        'e'
    } else {
        'f'
    }
}

/// Lowercase hexadecimal encoding: two digits for each byte, in order.
pub open spec fn hex_of(data: Seq<u8>) -> Seq<char>
    decreases data.len(),
{
    if data.len() == 0 {
        Seq::empty()
    } else {
        seq![hex_digit(data[0] / 16), hex_digit(data[0] % 16)] + hex_of(data.drop_first())
    }
}

/// A one-character string holding the hexadecimal digit for `n`.
fn hex_digit_str(n: u8) -> (r: &'static str)
    requires
        n < 16,
    ensures
        r@ == seq![hex_digit(n)],
{
    proof {
        reveal_strlit("0");
        reveal_strlit("1");
        reveal_strlit("2");
        reveal_strlit("3");
        reveal_strlit("4");
        reveal_strlit("5");
        reveal_strlit("6");
        reveal_strlit("7");
        reveal_strlit("8");
        reveal_strlit("9");
        reveal_strlit("a");
        reveal_strlit("b");
        reveal_strlit("c");
        reveal_strlit("d");
        reveal_strlit("e");
        reveal_strlit("f");
    }
    if n == 0 {
        "0"
    } else if n == 1 {
        "1"
    } else if n == 2 {
        "2"
    } else if n == 3 {
        "3"
    } else if n == 4 {
        "4"
    } else if n == 5 {
        "5"
    } else if n == 6 {
        "6"
    } else if n == 7 {
        "7"
    } else if n == 8 {
        "8"
    } else if n == 9 {
        "9"
    } else if n == 10 {
        "a"
    } else if n == 11 {
        "b"
    } else if n == 12 {
        "c"
    } else if n == 13 {
        "d"
    } else if n == 14 {
        "e"
    } else {
        "f"
    }
}

/// A 256-bit BLAKE3 digest of an image's bytes, used as its identity.
#[derive(Clone, Copy, Debug)]
pub struct CrashHash {
    bytes: [u8; 32],
}

impl View for CrashHash {
    type V = Seq<u8>;

    closed spec fn view(&self) -> Seq<u8> {
        self.bytes@
    }
}

impl CrashHash {
    /// Wrap raw digest bytes.
    pub fn from_bytes(bytes: [u8; 32]) -> (h: CrashHash)
        ensures
            h@ == bytes@,
    {
        CrashHash { bytes }
    }

    /// The raw digest bytes.
    pub fn as_bytes(&self) -> (r: &[u8; 32])
        ensures
            r@ == self@,
    {
        &self.bytes
    }

    /// Digest equality, the identity test for crash images.
    pub fn eq_hash(&self, other: &CrashHash) -> (r: bool)
        ensures
            r == (self@ == other@),
    {
        let mut i: usize = 0;
        while i < 32
            invariant
                i <= 32,
                forall|j: int| 0 <= j < i ==> self.bytes@[j] == other.bytes@[j],
            decreases 32 - i,
        {
            if self.bytes[i] != other.bytes[i] {
                return false;
            }
            i += 1;
        }
        proof {
            assert(self.bytes@ =~= other.bytes@);
        }
        true
    }

    /// The digest in lowercase hexadecimal, as the index files and image
    /// file names spell it.
    pub fn to_hex(&self) -> (s: String)
        ensures
            s@ == hex_of(self@),
    {
        hex_string(self.bytes.as_slice())
    }
}

/// Lowercase hexadecimal encoding of a byte slice.
pub fn hex_string(data: &[u8]) -> (s: String)
    ensures
        s@ == hex_of(data@),
{
    let mut s = String::new();
    let mut i: usize = 0;
    while i < data.len()
        invariant
            i <= data@.len(),
            s@ == hex_of(data@.take(i as int)),
        decreases data@.len() - i,
    {
        let b = data[i];
        s.append(hex_digit_str(b / 16));
        s.append(hex_digit_str(b % 16));
        proof {
            lemma_hex_of_snoc(data@, i as int);
        }
        i += 1;
    }
    proof {
        assert(data@.take(data@.len() as int) =~= data@);
    }
    s
}

/// Appending one byte to a prefix appends its two digits to the encoding.
proof fn lemma_hex_of_snoc(data: Seq<u8>, i: int)
    requires
        0 <= i < data.len(),
    ensures
        hex_of(data.take(i + 1)) == hex_of(data.take(i)) + seq![
            hex_digit(data[i] / 16),
            hex_digit(data[i] % 16),
        ],
    decreases i,
{
    let pre = data.take(i + 1);
    if i == 0 {
        assert(data.take(0) =~= Seq::<u8>::empty());
        assert(pre.drop_first() =~= data.take(0));
        assert(hex_of(data.take(0)) =~= Seq::<char>::empty());
        assert(pre[0] == data[0]);
        assert(hex_of(pre) =~= seq![hex_digit(data[0] / 16), hex_digit(data[0] % 16)]
            + hex_of(pre.drop_first()));
        assert(hex_of(pre) =~= hex_of(data.take(0)) + seq![
            hex_digit(data[0] / 16),
            hex_digit(data[0] % 16),
        ]);
    } else {
        lemma_hex_of_snoc(data.drop_first(), i - 1);
        assert(pre.drop_first() =~= data.drop_first().take(i));
        assert(data.take(i).drop_first() =~= data.drop_first().take(i - 1));
        assert(hex_of(pre) =~= hex_of(data.take(i)) + seq![
            hex_digit(data[i] / 16),
            hex_digit(data[i] % 16),
        ]);
    }
}

/// Content-addressed store of crash images with deduplication and a size cap.
///
/// `total_bytes` counts the bytes of every *distinct* image offered, not
/// on-disk bytes: offering is the unit of new state.  Fresh images are
/// queued together with their hash; the embedding program drains the
/// queue and writes each image to `<crash_dir>/<hex(hash)>.raw`.
pub struct ImagePool {
    crash_dir: String,
    size: usize,
    size_max: usize,
    hashes: Vec<CrashHash>,
    fresh_images: Vec<(CrashHash, Vec<u8>)>,
}

impl ImagePool {
    /// The digests of every image offered so far, in first-offer order.
    pub closed spec fn seen(&self) -> Seq<Seq<u8>> {
        self.hashes@.map_values(|h: CrashHash| h@)
    }

    /// Whether an image with digest `d` has been offered.
    pub open spec fn seen_contains(&self, d: Seq<u8>) -> bool {
        self.seen().contains(d)
    }

    /// Bytes of distinct images offered so far.
    pub closed spec fn total_bytes(&self) -> int {
        self.size as int
    }

    /// The hard cap on `total_bytes`.
    pub closed spec fn cap(&self) -> int {
        self.size_max as int
    }

    /// The directory crash images are to be written under.
    pub closed spec fn dir(&self) -> Seq<char> {
        self.crash_dir@
    }

    /// Fresh images not yet drained, each with its digest.
    pub closed spec fn queued(&self) -> Seq<(Seq<u8>, Seq<u8>)> {
        self.fresh_images@.map_values(|p: (CrashHash, Vec<u8>)| (p.0@, p.1@))
    }

    /// Each digest is recorded at most once.
    pub closed spec fn wf(&self) -> bool {
        forall|i: int, j: int|
            0 <= i < j < self.hashes@.len() ==> self.hashes@[i]@ != self.hashes@[j]@
    }

    /// A pool with no cap, remembering the directory images belong under.
    pub fn new(work_dir: &String) -> (p: ImagePool)
        ensures
            p.wf(),
            p.seen() == Seq::<Seq<u8>>::empty(),
            p.queued() == Seq::<(Seq<u8>, Seq<u8>)>::empty(),
            p.total_bytes() == 0,
            p.cap() == usize::MAX,
            p.dir() == work_dir@ + crash_dir_suffix(),
    {
        proof {
            reveal_strlit("/crash_images");
        }
        let p = ImagePool {
            crash_dir: work_dir.clone().concat("/crash_images"),
            size: 0,
            size_max: usize::MAX,
            hashes: Vec::new(),
            fresh_images: Vec::new(),
        };
        proof {
            assert(p.seen() =~= Seq::<Seq<u8>>::empty());
            assert(p.queued() =~= Seq::<(Seq<u8>, Seq<u8>)>::empty());
        }
        p
    }

    /// A pool whose `total_bytes` may never exceed `limit`.
    pub fn with_limit(work_dir: &String, limit: usize) -> (p: ImagePool)
        ensures
            p.wf(),
            p.seen() == Seq::<Seq<u8>>::empty(),
            p.queued() == Seq::<(Seq<u8>, Seq<u8>)>::empty(),
            p.total_bytes() == 0,
            p.cap() == limit,
            p.dir() == work_dir@ + crash_dir_suffix(),
    {
        let mut p = ImagePool::new(work_dir);
        p.size_max = limit;
        p
    }

    /// The directory crash images are to be written under.
    pub fn crash_dir(&self) -> (d: &String)
        ensures
            d@ == self.dir(),
    {
        &self.crash_dir
    }

    /// Offer an image to the pool.
    ///
    /// The image's BLAKE3 digest identifies it.  A digest seen before
    /// leaves the pool untouched and returns `fresh == false`.  A new
    /// digest is recorded, the image is queued for writing, and the byte
    /// total grows by the image's length; if that would pass the cap, the
    /// pool reports `PoolLimitExceeded` and stays unchanged.
    pub fn persist(&mut self, data: &[u8]) -> (r: Result<(bool, CrashHash), CigError>)
        requires
            old(self).wf(),
        ensures
            final(self).wf(),
            persist_post(*old(self), *final(self), data@, r),
    {
        let digest = blake3_digest(data);
        let hash = CrashHash::from_bytes(digest);
        let mut i: usize = 0;
        while i < self.hashes.len()
            invariant
                *self == *old(self),
                self.wf(),
                hash@ == blake3_of(data@),
                i <= self.hashes@.len(),
                forall|j: int| 0 <= j < i ==> self.hashes@[j]@ != hash@,
            decreases self.hashes@.len() - i,
        {
            if self.hashes[i].eq_hash(&hash) {
                proof {
                    assert(self.seen()[i as int] == hash@);
                    assert(self.seen_contains(hash@));
                }
                return Ok((false, hash));
            }
            i += 1;
        }
        proof {
            assert(forall|j: int|
                0 <= j < self.seen().len() ==> self.seen()[j] == self.hashes@[j]@);
            assert(!self.seen_contains(hash@));
        }
        match self.size.checked_add(data.len()) {
            Some(new_size) => {
                if new_size > self.size_max {
                    return Err(CigError::PoolLimitExceeded);
                }
                self.size = new_size;
                self.hashes.push(hash);
                self.fresh_images.push((hash, vstd::slice::slice_to_vec(data)));
                proof {
                    assert(self.seen() =~= old(self).seen().push(blake3_of(data@)));
                    assert(self.queued() =~= old(self).queued().push(
                        (blake3_of(data@), data@),
                    ));
                }
                Ok((true, hash))
            },
            None => {
                // the byte total cannot even be represented, so it is
                // certainly above the cap
                Err(CigError::PoolLimitExceeded)
            },
        }
    }

    /// Drain the queue of fresh images, leaving the pool's record intact.
    pub fn take_fresh_images(&mut self) -> (imgs: Vec<(CrashHash, Vec<u8>)>)
        ensures
            imgs@.map_values(|p: (CrashHash, Vec<u8>)| (p.0@, p.1@)) == old(self).queued(),
            final(self).queued() == Seq::<(Seq<u8>, Seq<u8>)>::empty(),
            final(self).seen() == old(self).seen(),
            final(self).total_bytes() == old(self).total_bytes(),
            final(self).cap() == old(self).cap(),
            final(self).dir() == old(self).dir(),
            final(self).wf() == old(self).wf(),
    {
        let mut imgs: Vec<(CrashHash, Vec<u8>)> = Vec::new();
        core::mem::swap(&mut imgs, &mut self.fresh_images);
        proof {
            assert(final(self).queued() =~= Seq::<(Seq<u8>, Seq<u8>)>::empty());
        }
        imgs
    }
}

/// The fixed directory name images are collected under.
pub open spec fn crash_dir_suffix() -> Seq<char> {
    "/crash_images"@
}

/// What one `persist` call does: the relation between the pool before and
/// after, the bytes offered, and the returned value.
pub open spec fn persist_post(
    pre: ImagePool,
    post: ImagePool,
    data: Seq<u8>,
    r: Result<(bool, CrashHash), CigError>,
) -> bool {
    let d = blake3_of(data);
    &&& post.cap() == pre.cap()
    &&& post.dir() == pre.dir()
    &&& match r {
        Ok((fresh, h)) => {
            &&& h@ == d
            &&& fresh == !pre.seen_contains(d)
            &&& (!fresh ==> post == pre)
            &&& (fresh ==> {
                &&& post.seen() == pre.seen().push(d)
                &&& post.total_bytes() == pre.total_bytes() + data.len()
                &&& post.total_bytes() <= post.cap()
                &&& post.queued() == pre.queued().push((d, data))
            })
        },
        Err(e) => {
            &&& e == CigError::PoolLimitExceeded
            &&& !pre.seen_contains(d)
            &&& pre.total_bytes() + data.len() > pre.cap()
            &&& post == pre
        },
    }
}

/// What offering `data` does to a pool when the offer is accepted,
/// stated without the returned values: a known digest leaves the pool
/// untouched; a new one is recorded and queued and its bytes counted.
pub open spec fn pool_offer_post(pre: ImagePool, post: ImagePool, data: Seq<u8>) -> bool {
    let d = blake3_of(data);
    &&& post.cap() == pre.cap()
    &&& post.dir() == pre.dir()
    &&& if pre.seen_contains(d) {
        post == pre
    } else {
        &&& post.seen() == pre.seen().push(d)
        &&& post.total_bytes() == pre.total_bytes() + data.len()
        &&& post.total_bytes() <= post.cap()
        &&& post.queued() == pre.queued().push((d, data))
    }
}

/// Exactly when a pool refuses `data`: the digest is new and counting
/// its bytes would pass the cap.
pub open spec fn pool_offer_rejected(pre: ImagePool, data: Seq<u8>) -> bool {
    !pre.seen_contains(blake3_of(data)) && pre.total_bytes() + data.len() > pre.cap()
}

/// The two outcomes of one offer, read off `persist_post`.
pub proof fn lemma_persist_post_outcome(
    pre: ImagePool,
    post: ImagePool,
    data: Seq<u8>,
    r: Result<(bool, CrashHash), CigError>,
)
    requires
        persist_post(pre, post, data, r),
    ensures
        r is Ok ==> pool_offer_post(pre, post, data) && !pool_offer_rejected(pre, data),
        r is Err ==> pool_offer_rejected(pre, data) && post == pre,
{
}

/// A pool only ever accumulates: nothing seen or queued is forgotten,
/// the byte total never shrinks, and cap and directory never change.
pub open spec fn pool_evolves(pre: ImagePool, post: ImagePool) -> bool {
    &&& post.cap() == pre.cap()
    &&& post.dir() == pre.dir()
    &&& pre.seen().is_prefix_of(post.seen())
    &&& pre.queued().is_prefix_of(post.queued())
    &&& post.total_bytes() >= pre.total_bytes()
}

/// One `persist` call is an evolution of the pool.
pub proof fn lemma_persist_post_evolves(
    pre: ImagePool,
    post: ImagePool,
    data: Seq<u8>,
    r: Result<(bool, CrashHash), CigError>,
)
    requires
        persist_post(pre, post, data, r),
    ensures
        pool_evolves(pre, post),
{
    match r {
        Ok((fresh, h)) => {
            if fresh {
                assert(pre.seen().is_prefix_of(pre.seen().push(blake3_of(data))));
                assert(pre.queued().is_prefix_of(pre.queued().push((blake3_of(data), data))));
            } else {
                assert(pre.seen().is_prefix_of(pre.seen()));
                assert(pre.queued().is_prefix_of(pre.queued()));
            }
        },
        Err(_) => {
            assert(pre.seen().is_prefix_of(pre.seen()));
            assert(pre.queued().is_prefix_of(pre.queued()));
        },
    }
}

/// Evolution never forgets a digest.
pub proof fn lemma_evolves_preserves_seen(pre: ImagePool, post: ImagePool, d: Seq<u8>)
    requires
        pool_evolves(pre, post),
        pre.seen_contains(d),
    ensures
        post.seen_contains(d),
{
    let i = choose|i: int| 0 <= i < pre.seen().len() && pre.seen()[i] == d;
    assert(post.seen()[i] == pre.seen()[i]);
}

/// Pool evolution is transitive.
pub proof fn lemma_pool_evolves_trans(a: ImagePool, b: ImagePool, c: ImagePool)
    requires
        pool_evolves(a, b),
        pool_evolves(b, c),
    ensures
        pool_evolves(a, c),
{
    assert(a.seen().is_prefix_of(c.seen()));
    assert(a.queued().is_prefix_of(c.queued()));
}

/// A deduplicated collection of crash-image digests, in first-insertion
/// order.
pub struct CrashHashSet {
    items: Vec<CrashHash>,
}

impl CrashHashSet {
    /// The digests held, in first-insertion order.
    pub closed spec fn digests(&self) -> Seq<Seq<u8>> {
        self.items@.map_values(|h: CrashHash| h@)
    }

    /// Whether digest `d` is held.
    pub open spec fn contains_digest(&self, d: Seq<u8>) -> bool {
        self.digests().contains(d)
    }

    /// No digest is held twice.
    pub closed spec fn wf(&self) -> bool {
        forall|i: int, j: int|
            0 <= i < j < self.items@.len() ==> self.items@[i]@ != self.items@[j]@
    }

    /// An empty collection.
    pub fn new() -> (r: CrashHashSet)
        ensures
            r.digests() == Seq::<Seq<u8>>::empty(),
            r.wf(),
    {
        let r = CrashHashSet { items: Vec::new() };
        proof {
            assert(r.digests() =~= Seq::<Seq<u8>>::empty());
        }
        r
    }

    /// How many distinct digests are held.
    pub fn len(&self) -> (r: usize)
        ensures
            r == self.digests().len(),
    {
        self.items.len()
    }

    /// Whether the digest of `h` is held.
    pub fn contains_hash(&self, h: &CrashHash) -> (r: bool)
        ensures
            r == self.contains_digest(h@),
    {
        let mut i: usize = 0;
        while i < self.items.len()
            invariant
                i <= self.items@.len(),
                forall|j: int| 0 <= j < i ==> self.items@[j]@ != h@,
            decreases self.items@.len() - i,
        {
            if self.items[i].eq_hash(h) {
                proof {
                    assert(self.digests()[i as int] == h@);
                }
                return true;
            }
            i += 1;
        }
        proof {
            assert(forall|j: int|
                0 <= j < self.digests().len() ==> self.digests()[j] == self.items@[j]@);
        }
        false
    }

    /// Add a digest unless it is already held.
    pub fn insert(&mut self, h: CrashHash)
        requires
            old(self).wf(),
        ensures
            final(self).wf(),
            final(self).digests() == if old(self).contains_digest(h@) {
                old(self).digests()
            } else {
                old(self).digests().push(h@)
            },
    {
        if !self.contains_hash(&h) {
            proof {
                assert forall|j: int| 0 <= j < self.items@.len() implies self.items@[j]@
                    != h@ by {
                    assert(self.digests()[j] == self.items@[j]@);
                }
            }
            self.items.push(h);
            proof {
                assert(final(self).digests() =~= old(self).digests().push(h@));
            }
        }
    }

    /// The held hashes, in first-insertion order.
    pub fn as_slice(&self) -> (r: &[CrashHash])
        ensures
            r@.map_values(|h: CrashHash| h@) == self.digests(),
    {
        self.items.as_slice()
    }

    /// An exact copy.
    pub fn duplicate(&self) -> (r: CrashHashSet)
        ensures
            r.digests() == self.digests(),
            r.wf() == self.wf(),
    {
        let mut items: Vec<CrashHash> = Vec::new();
        let mut i: usize = 0;
        while i < self.items.len()
            invariant
                i <= self.items@.len(),
                items@ == self.items@.take(i as int),
            decreases self.items@.len() - i,
        {
            items.push(self.items[i]);
            proof {
                assert(self.items@.take(i + 1) =~= self.items@.take(i as int).push(
                    self.items@[i as int],
                ));
            }
            i += 1;
        }
        proof {
            assert(self.items@.take(self.items@.len() as int) =~= self.items@);
        }
        let r = CrashHashSet { items };
        proof {
            assert(r.items@ == self.items@);
            if self.wf() {
                assert forall|i: int, j: int| 0 <= i < j < r.items@.len() implies r.items@[i]@
                    != r.items@[j]@ by {
                    assert(self.items@[i]@ != self.items@[j]@);
                }
            }
            if r.wf() {
                assert forall|i: int, j: int|
                    0 <= i < j < self.items@.len() implies self.items@[i]@
                    != self.items@[j]@ by {
                    assert(r.items@[i]@ != r.items@[j]@);
                }
            }
        }
        r
    }
}

/// Offering the same bytes twice returns the same hash both times; the
/// second offer is not fresh and leaves the pool — its byte total
/// included — exactly as it was.
pub proof fn lemma_persist_same_image_twice(
    p0: ImagePool,
    p1: ImagePool,
    p2: ImagePool,
    data: Seq<u8>,
    r1: Result<(bool, CrashHash), CigError>,
    r2: Result<(bool, CrashHash), CigError>,
)
    requires
        persist_post(p0, p1, data, r1),
        persist_post(p1, p2, data, r2),
        r1 is Ok,
    ensures
        r2 is Ok,
        r1->Ok_0.1@ == r2->Ok_0.1@,
        r2->Ok_0.0 == false,
        p2 == p1,
        p2.total_bytes() == p1.total_bytes(),
{
    let d = blake3_of(data);
    if r1->Ok_0.0 {
        assert(p1.seen() == p0.seen().push(d));
        assert(p1.seen()[p1.seen().len() - 1] == d);
        assert(p1.seen_contains(d));
    } else {
        assert(p1 == p0);
    }
}

} // verus!
