//! NVMe persistency model.
//!
//! All writes between two consecutive flushes may be reordered; the
//! atomic unit is a 512-byte block.  The model of the device is an
//! [`NvmeModel`]: the durable byte image and the flat buffer of
//! block-sized stores in arrival order.

use vstd::prelude::*;

use crate::image::{
    blake3_of, lemma_persist_post_evolves, lemma_persist_post_outcome, lemma_pool_evolves_trans,
    pool_evolves, pool_offer_post, pool_offer_rejected, CrashHash, CrashHashSet, ImagePool,
};
use crate::models::{
    apply_stores, apply_store_to, clone_bytes, lemma_apply_stores_snoc, Store, StoreModel,
};
use crate::rng::{rng_shuffle_usize, rng_usize};
use crate::CigError;

verus! {

/// The NVMe atomic block size in bytes.
pub const NVME_ATOMIC_BLOCK_SIZE: usize = 512;

/// The mathematical state of the NVMe device.
pub ghost struct NvmeModel {
    /// The currently-durable byte image.
    pub persisted: Seq<u8>,
    /// Unpersisted block-sized stores, in arrival order.
    pub buffer: Seq<StoreModel>,
}

impl NvmeModel {
    /// Every buffered store is one aligned block inside the device.
    pub open spec fn wf(&self) -> bool {
        &&& self.persisted.len() <= usize::MAX
        &&& forall|i: int|
            0 <= i < self.buffer.len() ==> {
                &&& (#[trigger] self.buffer[i]).wf()
                &&& self.buffer[i].bytes.len() == NVME_ATOMIC_BLOCK_SIZE
                &&& self.buffer[i].start % (NVME_ATOMIC_BLOCK_SIZE as int) == 0
                &&& self.buffer[i].end() <= self.persisted.len()
            }
    }
}

/// Split a block-aligned write into 512-byte stores, in address order.
pub open spec fn nvme_split(addr: int, data: Seq<u8>) -> Seq<StoreModel>
    decreases data.len(),
{
    if data.len() < NVME_ATOMIC_BLOCK_SIZE {
        Seq::empty()
    } else {
        seq![StoreModel { start: addr, bytes: data.take(NVME_ATOMIC_BLOCK_SIZE as int) }]
            + nvme_split(
            addr + NVME_ATOMIC_BLOCK_SIZE,
            data.skip(NVME_ATOMIC_BLOCK_SIZE as int),
        )
    }
}

/// Taking one more whole block extends the split by one store.
proof fn lemma_nvme_split_snoc(addr: int, data: Seq<u8>, off: int)
    requires
        0 <= off,
        off + NVME_ATOMIC_BLOCK_SIZE <= data.len(),
        off % (NVME_ATOMIC_BLOCK_SIZE as int) == 0,
    ensures
        nvme_split(addr, data.take(off + NVME_ATOMIC_BLOCK_SIZE)) == nvme_split(
            addr,
            data.take(off),
        ).push(
            StoreModel {
                start: addr + off,
                bytes: data.subrange(off, off + NVME_ATOMIC_BLOCK_SIZE),
            },
        ),
    decreases off,
{
    let b = NVME_ATOMIC_BLOCK_SIZE as int;
    if off == 0 {
        assert(data.take(0).len() == 0);
        assert(nvme_split(addr, data.take(0)) =~= Seq::<StoreModel>::empty());
        let pre = data.take(b);
        assert(pre.len() == b);
        assert(pre.take(b) =~= data.subrange(0, b));
        assert(pre.skip(b).len() == 0);
        assert(nvme_split(addr + b, pre.skip(b)) =~= Seq::<StoreModel>::empty());
        assert(nvme_split(addr, pre) =~= seq![
            StoreModel { start: addr, bytes: data.subrange(0, b) },
        ]);
        assert(nvme_split(addr, data.take(off + b)) =~= nvme_split(addr, data.take(off)).push(
            StoreModel { start: addr + off, bytes: data.subrange(off, off + b) },
        ));
    } else {
        let pre1 = data.take(off + b);
        let pre0 = data.take(off);
        assert(pre1.len() >= b && pre0.len() >= b);
        assert(pre1.take(b) =~= data.take(b));
        assert(pre0.take(b) =~= data.take(b));
        assert(pre1.skip(b) =~= data.skip(b).take(off - b + b));
        assert(pre0.skip(b) =~= data.skip(b).take(off - b));
        lemma_nvme_split_snoc(addr + b, data.skip(b), off - b);
        assert(data.skip(b).subrange(off - b, off) =~= data.subrange(off, off + b));
        assert(nvme_split(addr, pre1) =~= nvme_split(addr, pre0).push(
            StoreModel { start: addr + off, bytes: data.subrange(off, off + b) },
        ));
    }
}

/// How many random partial-reorder images to sample at one crash point.
pub const NVME_RANDOM_IMAGES_MAX_AMOUNT: usize = 25;

/// A choice of buffered stores by position, at least one, in some order.
pub open spec fn nvme_valid_selection(m: NvmeModel, sel: Seq<int>) -> bool {
    sel.len() >= 1 && forall|j: int| 0 <= j < sel.len() ==> 0 <= #[trigger] sel[j] < m.buffer.len()
}

/// The durable image with the selected stores applied in choice order.
pub open spec fn nvme_selection_image(m: NvmeModel, sel: Seq<int>) -> Seq<u8> {
    apply_stores(m.persisted, sel.map_values(|i: int| m.buffer[i]))
}

/// Every digest in the collection is the digest of some partial-reorder
/// crash image of the device.
pub open spec fn all_selection_digests(hs: CrashHashSet, m: NvmeModel) -> bool {
    forall|x: int|
        0 <= x < hs.digests().len() ==> exists|sel: Seq<int>|
            nvme_valid_selection(m, sel) && #[trigger] hs.digests()[x] == blake3_of(
                nvme_selection_image(m, sel),
            )
}

/// A block-aligned offset strictly inside a block-aligned length leaves
/// room for one more whole block.
proof fn lemma_block_bounded(off: int, len: int)
    requires
        0 <= off < len,
        off % 512 == 0,
        len % 512 == 0,
    ensures
        off + 512 <= len,
{
    vstd::arithmetic::div_mod::lemma_fundamental_div_mod(off, 512);
    vstd::arithmetic::div_mod::lemma_fundamental_div_mod(len, 512);
    let ko = off / 512;
    let kl = len / 512;
    assert(off == 512 * ko && len == 512 * kl);
    assert(512 * ko < 512 * kl);
    assert(ko < kl);
    assert(512 * (ko + 1) <= 512 * kl);
}

/// Every store of a block-aligned split is one aligned block inside the
/// device.
proof fn lemma_nvme_split_wf(addr: int, data: Seq<u8>, bound: int)
    requires
        0 <= addr,
        addr % 512 == 0,
        data.len() % 512 == 0,
        addr + data.len() <= bound,
        bound <= usize::MAX,
    ensures
        forall|i: int|
            0 <= i < nvme_split(addr, data).len() ==> {
                &&& (#[trigger] nvme_split(addr, data)[i]).wf()
                &&& nvme_split(addr, data)[i].bytes.len() == NVME_ATOMIC_BLOCK_SIZE
                &&& nvme_split(addr, data)[i].start % (NVME_ATOMIC_BLOCK_SIZE as int) == 0
                &&& nvme_split(addr, data)[i].end() <= bound
            },
    decreases data.len(),
{
    if data.len() >= 512 {
        vstd::arithmetic::div_mod::lemma_fundamental_div_mod(data.len() as int, 512);
        vstd::arithmetic::div_mod::lemma_fundamental_div_mod_converse(
            data.len() - 512,
            512,
            (data.len() as int) / 512 - 1,
            0,
        );
        assert(data.skip(512).len() % 512 == 0);
        vstd::arithmetic::div_mod::lemma_fundamental_div_mod(addr, 512);
        vstd::arithmetic::div_mod::lemma_fundamental_div_mod_converse(
            addr + 512,
            512,
            addr / 512 + 1,
            0,
        );
        lemma_nvme_split_wf(addr + 512, data.skip(512), bound);
        let split = nvme_split(addr, data);
        let tail = nvme_split(addr + 512, data.skip(512));
        assert forall|i: int| 0 <= i < split.len() implies {
            &&& (#[trigger] split[i]).wf()
            &&& split[i].bytes.len() == NVME_ATOMIC_BLOCK_SIZE
            &&& split[i].start % (NVME_ATOMIC_BLOCK_SIZE as int) == 0
            &&& split[i].end() <= bound
        } by {
            if i == 0 {
                assert(split[0] == (StoreModel { start: addr, bytes: data.take(512) }));
            } else {
                assert(split[i] == tail[i - 1]);
            }
        }
    }
}

/// An NVMe device: a durable image and an unordered buffer of
/// block-atomic stores.
pub struct NvmeDevice {
    /// The currently-durable byte image.
    pub persisted_content: Vec<u8>,
    /// Unpersisted block-sized stores, in arrival order.  Insertion
    /// order has no semantic weight beyond driving image sampling.
    pub unpersisted_content: Vec<Store>,
}

impl View for NvmeDevice {
    type V = NvmeModel;

    open spec fn view(&self) -> NvmeModel {
        NvmeModel {
            persisted: self.persisted_content@,
            buffer: self.unpersisted_content@.map_values(|s: Store| s@),
        }
    }
}

impl NvmeDevice {
    /// A quiescent device over the given durable image.
    pub fn new(persisted_content: Vec<u8>) -> (r: NvmeDevice)
        ensures
            r@.persisted == persisted_content@,
            r@.buffer == Seq::<StoreModel>::empty(),
            r@.wf(),
    {
        let n = persisted_content.len();
        proof {
            assert(persisted_content@.len() == n <= usize::MAX);
        }
        let r = NvmeDevice { persisted_content, unpersisted_content: Vec::new() };
        proof {
            assert(r@.buffer =~= Seq::<StoreModel>::empty());
        }
        r
    }

    /// The device capacity in bytes.
    pub fn persisted_len(&self) -> (r: usize)
        ensures
            r == self@.persisted.len(),
    {
        self.persisted_content.len()
    }

    /// Whether any store is buffered and unpersisted.
    pub fn has_unpersisted_content(&self) -> (r: bool)
        ensures
            r == (self@.buffer.len() > 0),
    {
        self.unpersisted_content.len() > 0
    }

    /// Offer the durable image unchanged: the *nothing persisted* crash
    /// image.
    pub fn generate_nothing_persisted_image(&self, pool: &mut ImagePool) -> (r: Result<
        CrashHash,
        CigError,
    >)
        requires
            old(pool).wf(),
        ensures
            final(pool).wf(),
            pool_evolves(*old(pool), *final(pool)),
            r is Err <==> pool_offer_rejected(*old(pool), self@.persisted),
            match r {
                Ok(h) => {
                    &&& h@ == blake3_of(self@.persisted)
                    &&& pool_offer_post(*old(pool), *final(pool), self@.persisted)
                    &&& final(pool).seen_contains(blake3_of(self@.persisted))
                },
                Err(e) => e == CigError::PoolLimitExceeded && *final(pool) == *old(pool),
            },
    {
        let res = pool.persist(self.persisted_content.as_slice());
        proof {
            lemma_persist_post_evolves(*old(pool), *pool, self@.persisted, res);
            lemma_persist_post_outcome(*old(pool), *pool, self@.persisted, res);
            if res is Ok && res->Ok_0.0 {
                let s = final(pool).seen();
                assert(s[s.len() - 1] == blake3_of(self@.persisted));
            }
        }
        match res {
            Ok((_, h)) => Ok(h),
            Err(e) => Err(e),
        }
    }

    /// Offer the *everything persisted* crash image: the durable image
    /// with every buffered store applied, in arrival order.
    pub fn generate_everything_persisted_image(&self, pool: &mut ImagePool) -> (r: Result<
        CrashHash,
        CigError,
    >)
        requires
            self@.wf(),
            old(pool).wf(),
        ensures
            final(pool).wf(),
            pool_evolves(*old(pool), *final(pool)),
            r is Err <==> pool_offer_rejected(
                *old(pool),
                apply_stores(self@.persisted, self@.buffer),
            ),
            match r {
                Ok(h) => {
                    &&& h@ == blake3_of(apply_stores(self@.persisted, self@.buffer))
                    &&& pool_offer_post(
                        *old(pool),
                        *final(pool),
                        apply_stores(self@.persisted, self@.buffer),
                    )
                    &&& final(pool).seen_contains(
                        blake3_of(apply_stores(self@.persisted, self@.buffer)),
                    )
                },
                Err(e) => e == CigError::PoolLimitExceeded && *final(pool) == *old(pool),
            },
    {
        let ghost m = self@;
        let mut img = clone_bytes(&self.persisted_content);
        let mut i: usize = 0;
        while i < self.unpersisted_content.len()
            invariant
                self@ == m,
                m.wf(),
                i <= m.buffer.len(),
                self.unpersisted_content@.len() == m.buffer.len(),
                img@ == apply_stores(m.persisted, m.buffer.take(i as int)),
                img@.len() == m.persisted.len(),
            decreases m.buffer.len() - i,
        {
            proof {
                assert(self.unpersisted_content@[i as int]@ == m.buffer[i as int]);
            }
            apply_store_to(&mut img, &self.unpersisted_content[i]);
            proof {
                lemma_apply_stores_snoc(m.persisted, m.buffer.take(i as int), m.buffer[i as int]);
                assert(m.buffer.take(i + 1) =~= m.buffer.take(i as int).push(m.buffer[i as int]));
            }
            i += 1;
        }
        proof {
            assert(m.buffer.take(m.buffer.len() as int) =~= m.buffer);
        }
        let res = pool.persist(img.as_slice());
        proof {
            lemma_persist_post_evolves(*old(pool), *pool, img@, res);
            lemma_persist_post_outcome(*old(pool), *pool, img@, res);
            if res is Ok && res->Ok_0.0 {
                let s = final(pool).seen();
                assert(s[s.len() - 1] == blake3_of(apply_stores(m.persisted, m.buffer)));
            }
        }
        match res {
            Ok((_, h)) => Ok(h),
            Err(e) => Err(e),
        }
    }

    /// Sample partial-reorder crash images: shuffle the buffered stores,
    /// draw a prefix length, and offer the durable image with that
    /// prefix applied.  Every returned digest is the digest of some
    /// selection of buffered stores applied in some order.
    pub fn generate_random_images(&self, pool: &mut ImagePool, rng: &mut fastrand::Rng) -> (r:
        Result<CrashHashSet, CigError>)
        requires
            self@.wf(),
            old(pool).wf(),
        ensures
            final(pool).wf(),
            pool_evolves(*old(pool), *final(pool)),
            self@.buffer.len() == 0 ==> (r matches Ok(hs) && hs.digests() == Seq::<Seq<
                u8,
            >>::empty() && *final(pool) == *old(pool)),
            match r {
                Ok(hs) => {
                    &&& hs.wf()
                    &&& all_selection_digests(hs, self@)
                    &&& (self@.buffer.len() > 0 ==> 1 <= hs.digests().len()
                        <= NVME_RANDOM_IMAGES_MAX_AMOUNT)
                    &&& forall|x: int|
                        0 <= x < hs.digests().len() ==> final(pool).seen_contains(
                            #[trigger] hs.digests()[x],
                        )
                },
                Err(e) => e == CigError::PoolLimitExceeded && exists|data: Seq<u8>|
                    pool_offer_rejected(*final(pool), data),
            },
    {
        let ghost m = self@;
        let mut hashes = CrashHashSet::new();
        let n = self.unpersisted_content.len();
        if n == 0 {
            return Ok(hashes);
        }
        let mut indices: Vec<usize> = Vec::new();
        let mut i: usize = 0;
        while i < n
            invariant
                i <= n,
                indices@.len() == i,
                forall|j: int| 0 <= j < i ==> (#[trigger] indices@[j]) < n,
            decreases n - i,
        {
            indices.push(i);
            i += 1;
        }
        let mut c: usize = 0;
        while c < NVME_RANDOM_IMAGES_MAX_AMOUNT
            invariant
                self@ == m,
                m.wf(),
                c <= NVME_RANDOM_IMAGES_MAX_AMOUNT,
                n == m.buffer.len(),
                n >= 1,
                self.unpersisted_content@.len() == n,
                indices@.len() == n,
                forall|j: int| 0 <= j < indices@.len() ==> (#[trigger] indices@[j]) < n,
                pool.wf(),
                pool_evolves(*old(pool), *pool),
                hashes.wf(),
                all_selection_digests(hashes, m),
                hashes.digests().len() <= c,
                c >= 1 ==> hashes.digests().len() >= 1,
                forall|x: int|
                    0 <= x < hashes.digests().len() ==> pool.seen_contains(
                        #[trigger] hashes.digests()[x],
                    ),
            decreases NVME_RANDOM_IMAGES_MAX_AMOUNT - c,
        {
            let ghost pre_shuffle = indices@;
            rng_shuffle_usize(rng, &mut indices);
            proof {
                assert forall|j: int| 0 <= j < indices@.len() implies (#[trigger] indices@[j])
                    < n by {
                    broadcast use vstd::seq_lib::group_to_multiset_ensures;

                    let x = indices@[j];
                    assert(indices@.contains(x));
                    assert(indices@.to_multiset().count(x) > 0);
                    assert(pre_shuffle.to_multiset().count(x) > 0);
                    assert(pre_shuffle.contains(x));
                }
            }
            let partial = rng_usize(rng, 0, n) + 1;
            let ghost gsel = indices@.map_values(|u: usize| u as int).take(partial as int);
            let mut img = clone_bytes(&self.persisted_content);
            let mut j: usize = 0;
            while j < partial
                invariant
                    self@ == m,
                    m.wf(),
                    j <= partial,
                    partial <= n,
                    n == m.buffer.len(),
                    self.unpersisted_content@.len() == n,
                    indices@.len() == n,
                    forall|q: int| 0 <= q < indices@.len() ==> (#[trigger] indices@[q]) < n,
                    gsel == indices@.map_values(|u: usize| u as int).take(partial as int),
                    img@ == apply_stores(m.persisted, gsel.take(j as int).map_values(
                        |x: int| m.buffer[x],
                    )),
                    img@.len() == m.persisted.len(),
                decreases partial - j,
            {
                let pos = indices[j];
                proof {
                    assert(gsel[j as int] == pos as int);
                    assert(self.unpersisted_content@[pos as int]@ == m.buffer[pos as int]);
                    assert(m.buffer[pos as int].wf() && m.buffer[pos as int].end()
                        <= m.persisted.len());
                }
                apply_store_to(&mut img, &self.unpersisted_content[pos]);
                proof {
                    let f = |x: int| m.buffer[x];
                    lemma_apply_stores_snoc(
                        m.persisted,
                        gsel.take(j as int).map_values(f),
                        m.buffer[pos as int],
                    );
                    assert(gsel.take(j + 1) =~= gsel.take(j as int).push(pos as int));
                    assert(gsel.take(j + 1).map_values(f) =~= gsel.take(j as int).map_values(
                        f,
                    ).push(m.buffer[pos as int]));
                }
                j += 1;
            }
            proof {
                assert(gsel.take(partial as int) =~= gsel);
                assert(nvme_valid_selection(m, gsel));
            }
            let ghost poolpre = *pool;
            let res = pool.persist(img.as_slice());
            proof {
                lemma_persist_post_evolves(poolpre, *pool, img@, res);
                lemma_pool_evolves_trans(*old(pool), poolpre, *pool);
            }
            match res {
                Ok((_, h)) => {
                    proof {
                        assert(h@ == blake3_of(nvme_selection_image(m, gsel)));
                    }
                    let ghost hpre = hashes;
                    hashes.insert(h);
                    proof {
                        assert forall|x: int| 0 <= x < hashes.digests().len() implies exists|
                            sel: Seq<int>,
                        |
                            nvme_valid_selection(m, sel) && #[trigger] hashes.digests()[x]
                                == blake3_of(nvme_selection_image(m, sel)) by {
                            if x < hpre.digests().len() {
                                assert(hashes.digests()[x] == hpre.digests()[x]);
                            } else {
                                assert(hashes.digests()[x] == h@);
                                assert(nvme_valid_selection(m, gsel) && h@ == blake3_of(
                                    nvme_selection_image(m, gsel),
                                ));
                            }
                        }
                        lemma_persist_post_outcome(poolpre, *pool, img@, res);
                        assert(pool.seen_contains(h@)) by {
                            if poolpre.seen_contains(blake3_of(img@)) {
                            } else {
                                assert(pool.seen()[pool.seen().len() - 1] == blake3_of(img@));
                            }
                        }
                        assert forall|x: int|
                            0 <= x < hashes.digests().len() implies pool.seen_contains(
                            #[trigger] hashes.digests()[x],
                        ) by {
                            if x < hpre.digests().len() {
                                assert(hashes.digests()[x] == hpre.digests()[x]);
                                crate::image::lemma_evolves_preserves_seen(
                                    poolpre,
                                    *pool,
                                    hpre.digests()[x],
                                );
                            } else {
                                assert(hashes.digests()[x] == h@);
                            }
                        }
                        assert(hashes.digests().len() >= 1) by {
                            if hpre.contains_digest(h@) {
                                assert(hashes.digests().len() == hpre.digests().len());
                                assert(hpre.digests().len() >= 1);
                            }
                        }
                    }
                },
                Err(e) => {
                    proof {
                        lemma_persist_post_outcome(poolpre, *pool, img@, res);
                        assert(pool_offer_rejected(*pool, img@));
                    }
                    return Err(e);
                },
            }
            c += 1;
        }
        Ok(hashes)
    }

    /// Buffer a block-aligned write, split into 512-byte stores appended
    /// in address order.
    pub fn write(&mut self, address: usize, data: Vec<u8>)
        requires
            old(self)@.wf(),
            address % 512 == 0,
            data@.len() % 512 == 0,
            address + data@.len() <= old(self)@.persisted.len(),
        ensures
            final(self)@.persisted == old(self)@.persisted,
            final(self)@.buffer == old(self)@.buffer + nvme_split(address as int, data@),
            final(self)@.wf(),
    {
        let ghost m0 = self@;
        let len = data.len();
        let mut offset: usize = 0;
        while offset < len
            invariant
                offset <= len,
                offset % 512 == 0,
                len == data@.len(),
                data@.len() % 512 == 0,
                address % 512 == 0,
                address + data@.len() <= m0.persisted.len(),
                m0.wf(),
                self@.persisted == m0.persisted,
                self@.buffer == m0.buffer + nvme_split(address as int, data@.take(offset as int)),
            decreases len - offset,
        {
            proof {
                lemma_block_bounded(offset as int, len as int);
            }
            let block = vstd::slice::slice_to_vec(
                vstd::slice::slice_subrange(
                    data.as_slice(),
                    offset,
                    offset + NVME_ATOMIC_BLOCK_SIZE,
                ),
            );
            let s = Store { address: address + offset, data: block };
            let ghost sm = s@;
            proof {
                assert(sm == (StoreModel {
                    start: address + offset,
                    bytes: data@.subrange(offset as int, offset + NVME_ATOMIC_BLOCK_SIZE),
                }));
            }
            self.unpersisted_content.push(s);
            proof {
                let part = nvme_split(address as int, data@.take(offset as int));
                assert(self@.buffer =~= (m0.buffer + part).push(sm));
                lemma_nvme_split_snoc(address as int, data@, offset as int);
                assert(nvme_split(address as int, data@.take(offset + NVME_ATOMIC_BLOCK_SIZE))
                    == part.push(sm));
                assert((m0.buffer + part).push(sm) =~= m0.buffer + part.push(sm));
                assert(self@.buffer =~= m0.buffer + nvme_split(
                    address as int,
                    data@.take(offset + NVME_ATOMIC_BLOCK_SIZE),
                ));
                vstd::arithmetic::div_mod::lemma_fundamental_div_mod(offset as int, 512);
                vstd::arithmetic::div_mod::lemma_fundamental_div_mod_converse(
                    offset + 512,
                    512,
                    (offset as int) / 512 + 1,
                    0,
                );
                assert((offset + NVME_ATOMIC_BLOCK_SIZE) % 512 == 0);
            }
            offset += NVME_ATOMIC_BLOCK_SIZE;
        }
        proof {
            assert(data@.take(len as int) =~= data@);
            assert(self@.buffer == m0.buffer + nvme_split(address as int, data@));
            lemma_nvme_split_wf(address as int, data@, m0.persisted.len() as int);
            let split = nvme_split(address as int, data@);
            assert forall|i: int| 0 <= i < self@.buffer.len() implies {
                &&& (#[trigger] self@.buffer[i]).wf()
                &&& self@.buffer[i].bytes.len() == NVME_ATOMIC_BLOCK_SIZE
                &&& self@.buffer[i].start % (NVME_ATOMIC_BLOCK_SIZE as int) == 0
                &&& self@.buffer[i].end() <= self@.persisted.len()
            } by {
                if i < m0.buffer.len() {
                    assert(self@.buffer[i] == m0.buffer[i]);
                } else {
                    assert(self@.buffer[i] == split[i - m0.buffer.len()]);
                }
            }
        }
    }

    /// Durably apply every buffered store, in arrival order, and clear
    /// the buffer.  Under the block-alignment invariant the order does
    /// not matter: the last writer of each block wins.
    pub fn flush(&mut self)
        requires
            old(self)@.wf(),
        ensures
            final(self)@.persisted == apply_stores(old(self)@.persisted, old(self)@.buffer),
            final(self)@.buffer == Seq::<StoreModel>::empty(),
            final(self)@.wf(),
    {
        let ghost m0 = self@;
        let mut buf: Vec<Store> = Vec::new();
        core::mem::swap(&mut buf, &mut self.unpersisted_content);
        let ghost bm = buf@.map_values(|s: Store| s@);
        proof {
            assert(bm == m0.buffer);
            assert(self@.buffer =~= Seq::<StoreModel>::empty());
        }
        let mut i: usize = 0;
        while i < buf.len()
            invariant
                i <= bm.len(),
                buf@.map_values(|s: Store| s@) == bm,
                m0.wf(),
                bm == m0.buffer,
                self.persisted_content@ == apply_stores(m0.persisted, bm.take(i as int)),
                self.persisted_content@.len() == m0.persisted.len(),
                self@.buffer == Seq::<StoreModel>::empty(),
            decreases bm.len() - i,
        {
            proof {
                assert(buf@[i as int]@ == bm[i as int]);
                assert(bm[i as int].wf() && bm[i as int].end() <= m0.persisted.len());
            }
            apply_store_to(&mut self.persisted_content, &buf[i]);
            proof {
                lemma_apply_stores_snoc(m0.persisted, bm.take(i as int), bm[i as int]);
                assert(bm.take(i + 1) =~= bm.take(i as int).push(bm[i as int]));
            }
            i += 1;
        }
        proof {
            assert(bm.take(bm.len() as int) =~= bm);
        }
    }
}

} // verus!
