//! The trace replay driver.
//!
//! The driver owns the device models, the image pool and the sampling
//! generator.  It consumes trace entries one at a time, mutates the
//! models, decides when to sample crash images, and accumulates a
//! per-trace-position index of image digests.  The embedding program
//! feeds it decoded entries and writes out what it accumulated.
//!
//! Sampling is selected by the configured checkpoint range, inclusive on
//! both ends: flush and fence events sample while the most recent
//! checkpoint value lies in `[lo, hi]`, and the final checkpoint is
//! sampled in any case when it is recorded.

use vstd::prelude::*;

use crate::config::{TestConfig, VmConfig};
use crate::image::{
    blake3_of, pool_evolves, pool_offer_rejected, CrashHash, CrashHashSet, ImagePool,
};
use crate::nvme::{
    nvme_selection_image, nvme_split, nvme_valid_selection, NvmeDevice, NvmeModel,
};
use crate::pmem::{
    pm_clwb, pm_everything_image, pm_fence, pm_partial_image, pm_valid_partial, pm_write, PmModel,
    X86PersistentMemory,
};
use crate::models::apply_stores;
use crate::trace::{NvmeEvent, PmemEvent, TraceEntry};
use crate::CigError;

verus! {

/// The image pool's hard byte cap: twenty gibibytes.
pub const POOL_LIMIT_BYTES: u64 = 20 * 1024 * 1024 * 1024;

/// The pool cap as this machine can hold it.
pub open spec fn spec_pool_limit() -> int {
    if POOL_LIMIT_BYTES <= usize::MAX {
        POOL_LIMIT_BYTES as int
    } else {
        usize::MAX as int
    }
}

/// The pool cap as this machine can hold it.
pub fn pool_limit() -> (r: usize)
    ensures
        r == spec_pool_limit(),
{
    if POOL_LIMIT_BYTES <= usize::MAX as u64 {
        POOL_LIMIT_BYTES as usize
    } else {
        usize::MAX
    }
}

/// The checkpoint value that marks the end of initialisation.
pub const INIT_SENTINEL: u8 = 255;

/// One device together with its sampling bookkeeping.
pub struct DeviceData<D> {
    /// The device model.
    pub device: D,
    /// Whether the device changed since the last image generation.
    pub changed: bool,
    /// The trace position of the last fresh image family, if any.
    pub last_generated_index: Option<u64>,
    /// Trace position to the digests sampled there, in sampling order.
    pub generated: Vec<(u64, CrashHashSet)>,
}

/// The digests recorded for trace position `id`; empty when none are.
pub open spec fn gen_lookup(g: Seq<(u64, CrashHashSet)>, id: u64) -> Seq<Seq<u8>>
    decreases g.len(),
{
    if g.len() == 0 {
        Seq::empty()
    } else if g[0].0 == id {
        g[0].1.digests()
    } else {
        gen_lookup(g.drop_first(), id)
    }
}

/// Whether any digests are recorded for trace position `id`.
pub open spec fn gen_has(g: Seq<(u64, CrashHashSet)>, id: u64) -> bool
    decreases g.len(),
{
    if g.len() == 0 {
        false
    } else if g[0].0 == id {
        true
    } else {
        gen_has(g.drop_first(), id)
    }
}

/// A first match at position `i` settles the lookup.
pub proof fn lemma_gen_lookup_at(g: Seq<(u64, CrashHashSet)>, id: u64, i: int)
    requires
        0 <= i < g.len(),
        g[i].0 == id,
        forall|j: int| 0 <= j < i ==> (#[trigger] g[j]).0 != id,
    ensures
        gen_has(g, id),
        gen_lookup(g, id) == g[i].1.digests(),
    decreases i,
{
    if i == 0 {
    } else {
        assert(g[0].0 != id);
        assert(forall|j: int| 0 <= j < i - 1 ==> (#[trigger] g.drop_first()[j]).0 != id);
        assert(g.drop_first()[i - 1] == g[i]);
        lemma_gen_lookup_at(g.drop_first(), id, i - 1);
    }
}

/// No match anywhere settles the lookup as absent.
pub proof fn lemma_gen_has_none(g: Seq<(u64, CrashHashSet)>, id: u64)
    requires
        forall|j: int| 0 <= j < g.len() ==> (#[trigger] g[j]).0 != id,
    ensures
        !gen_has(g, id),
    decreases g.len(),
{
    if g.len() > 0 {
        assert(forall|j: int| 0 <= j < g.len() - 1 ==> (#[trigger] g.drop_first()[j]).0 != id);
        lemma_gen_has_none(g.drop_first(), id);
    }
}

/// Appending a record for a fresh position leaves other lookups alone.
pub proof fn lemma_gen_lookup_push(g: Seq<(u64, CrashHashSet)>, id: u64, hs: CrashHashSet)
    ensures
        forall|x: u64|
            gen_has(g, x) ==> gen_has(g.push((id, hs)), x) && gen_lookup(g.push((id, hs)), x)
                == #[trigger] gen_lookup(g, x),
        !gen_has(g, id) ==> gen_lookup(g.push((id, hs)), id) == hs.digests(),
        gen_has(g.push((id, hs)), id),
    decreases g.len(),
{
    if g.len() == 0 {
        assert(g.push((id, hs))[0] == (id, hs));
        assert forall|x: u64| gen_has(g, x) implies gen_has(g.push((id, hs)), x) && gen_lookup(
            g.push((id, hs)),
            x,
        ) == gen_lookup(g, x) by {
            assert(false);
        }
    } else {
        lemma_gen_lookup_push(g.drop_first(), id, hs);
        let g2 = g.push((id, hs));
        assert(g2[0] == g[0]);
        assert(g2.drop_first() =~= g.drop_first().push((id, hs)));
        assert forall|x: u64| gen_has(g, x) implies gen_has(g2, x) && gen_lookup(g2, x)
            == gen_lookup(g, x) by {
            if g[0].0 == x {
                assert(gen_has(g2, x));
                assert(gen_lookup(g2, x) == g2[0].1.digests());
                assert(gen_lookup(g, x) == g[0].1.digests());
            } else {
                assert(gen_has(g.drop_first(), x));
                assert(gen_lookup(g, x) == gen_lookup(g.drop_first(), x));
                assert(gen_has(g.drop_first().push((id, hs)), x));
                assert(gen_lookup(g.drop_first().push((id, hs)), x) == gen_lookup(
                    g.drop_first(),
                    x,
                ));
                assert(gen_lookup(g2, x) == gen_lookup(g2.drop_first(), x));
                assert(gen_has(g2, x));
            }
        }
        if !gen_has(g, id) {
            assert(g[0].0 != id);
            assert(!gen_has(g.drop_first(), id));
        }
        assert(gen_has(g2, id));
    }
}

/// The digests of a sampled PM family: the *nothing persisted* and
/// *everything persisted* digests are present, and every member is one
/// of those or the digest of a partial crash image.
pub open spec fn pm_family_ok(m: PmModel, ds: Seq<Seq<u8>>) -> bool {
    &&& ds.contains(blake3_of(m.persisted))
    &&& ds.contains(blake3_of(pm_everything_image(m)))
    &&& forall|x: int|
        0 <= x < ds.len() ==> #[trigger] ds[x] == blake3_of(m.persisted) || ds[x] == blake3_of(
            pm_everything_image(m),
        ) || exists|lines: Seq<int>, ks: Seq<int>|
            pm_valid_partial(m, lines, ks) && ds[x] == blake3_of(pm_partial_image(m, lines, ks))
}

/// The digests of a sampled NVMe family, likewise.
pub open spec fn nvme_family_ok(m: NvmeModel, ds: Seq<Seq<u8>>) -> bool {
    &&& ds.contains(blake3_of(m.persisted))
    &&& ds.contains(blake3_of(apply_stores(m.persisted, m.buffer)))
    &&& forall|x: int|
        0 <= x < ds.len() ==> #[trigger] ds[x] == blake3_of(m.persisted) || ds[x] == blake3_of(
            apply_stores(m.persisted, m.buffer),
        ) || exists|sel: Seq<int>|
            nvme_valid_selection(m, sel) && ds[x] == blake3_of(nvme_selection_image(m, sel))
}

/// The replay bookkeeping is untouched.
pub open spec fn bookkeeping_unchanged(a: CrashImageGenerator, b: CrashImageGenerator) -> bool {
    &&& b.spec_had_init() == a.spec_had_init()
    &&& b.spec_prev_value() == a.spec_prev_value()
    &&& b.ids() == a.ids()
}

/// The PM model, its sampling flags and its index are untouched.
pub open spec fn pm_side_unchanged(a: CrashImageGenerator, b: CrashImageGenerator) -> bool {
    a.has_pmem() ==> b.pm() == a.pm() && b.pm_gen() == a.pm_gen() && b.pm_changed()
        == a.pm_changed() && b.pm_last() == a.pm_last()
}

/// The NVMe model, its sampling flags and its index are untouched.
pub open spec fn nvme_side_unchanged(a: CrashImageGenerator, b: CrashImageGenerator) -> bool {
    a.has_nvme() ==> b.nv() == a.nv() && b.nv_gen() == a.nv_gen() && b.nv_changed()
        == a.nv_changed() && b.nv_last() == a.nv_last()
}

/// The device models, sampling flags and indices are untouched.
pub open spec fn devices_unchanged(a: CrashImageGenerator, b: CrashImageGenerator) -> bool {
    pm_side_unchanged(a, b) && nvme_side_unchanged(a, b)
}

/// The configuration is untouched.
pub open spec fn config_kept(a: CrashImageGenerator, b: CrashImageGenerator) -> bool {
    &&& b.lo() == a.lo()
    &&& b.hi() == a.hi()
    &&& b.has_pmem() == a.has_pmem()
    &&& b.has_nvme() == a.has_nvme()
}

/// Nothing observable moved at all.
pub open spec fn state_unchanged(a: CrashImageGenerator, b: CrashImageGenerator) -> bool {
    &&& bookkeeping_unchanged(a, b)
    &&& devices_unchanged(a, b)
    &&& b.spec_pool() == a.spec_pool()
}

/// Whether flush and fence events sample here: the most recent
/// checkpoint value lies in the sampling range.  The range is inclusive
/// on both ends, `[lo, hi]`, following the specified semantics; the
/// final checkpoint is sampled in any case when it is recorded.
pub open spec fn event_sampling_on(g: CrashImageGenerator) -> bool {
    match g.spec_prev_value() {
        Some(v) => g.lo() <= v <= g.hi(),
        None => false,
    }
}

/// What recording a checkpoint guarantees.
pub open spec fn checkpoint_post(
    pre: CrashImageGenerator,
    post: CrashImageGenerator,
    id: u64,
    value: u8,
    r: Result<(), CigError>,
) -> bool {
    if value == INIT_SENTINEL {
        &&& r is Ok
        &&& post.spec_had_init()
        &&& post.spec_prev_value() == pre.spec_prev_value()
        &&& post.ids() == pre.ids()
        &&& devices_unchanged(pre, post)
        &&& post.spec_pool() == pre.spec_pool()
    } else if (value as int) < pre.ids().len() {
        r == Err::<(), CigError>(CigError::DuplicateCheckpoint) && state_unchanged(pre, post)
    } else if (value as int) > pre.ids().len() {
        r == Err::<(), CigError>(CigError::NonContiguousCheckpoint) && state_unchanged(pre, post)
    } else {
        &&& post.ids() == pre.ids().push(id)
        &&& post.spec_prev_value() == Some(value)
        &&& post.spec_had_init() == pre.spec_had_init()
        &&& if (pre.lo() <= value && value <= pre.hi()) || value == pre.hi() {
            &&& (((pre.has_pmem() ==> !pre.pm_changed()) && (pre.has_nvme()
                ==> !pre.nv_changed())) ==> r is Ok)
            &&& match r {
                Ok(_) => {
                    &&& (pre.has_pmem() ==> pm_sample_post(pre, post, id))
                    &&& (pre.has_nvme() ==> nvme_sample_post(pre, post, id))
                },
                Err(e) => e == CigError::PoolLimitExceeded && exists|data: Seq<u8>|
                    pool_offer_rejected(post.spec_pool(), data),
            }
        } else {
            &&& r is Ok
            &&& devices_unchanged(pre, post)
            &&& post.spec_pool() == pre.spec_pool()
        }
    }
}

/// What buffering a PM store guarantees.
pub open spec fn pm_write_post(
    pre: CrashImageGenerator,
    post: CrashImageGenerator,
    address: u64,
    data: Seq<u8>,
    non_temporal: bool,
    r: Result<(), CigError>,
) -> bool {
    &&& bookkeeping_unchanged(pre, post)
    &&& post.spec_pool() == pre.spec_pool()
    &&& nvme_side_unchanged(pre, post)
    &&& if !(data.len() == 1 || data.len() == 2 || data.len() == 4 || data.len() == 8) {
        r == Err::<(), CigError>(CigError::UnsupportedStoreSize) && pm_side_unchanged(pre, post)
    } else if address + data.len() > pre.pm().persisted.len() {
        r == Err::<(), CigError>(CigError::OutOfBoundsAccess) && pm_side_unchanged(pre, post)
    } else {
        &&& r is Ok
        &&& post.pm() == pm_write(pre.pm(), address as int, data, non_temporal)
        &&& post.pm_changed()
        &&& post.pm_gen() == pre.pm_gen()
        &&& post.pm_last() == pre.pm_last()
    }
}

/// What marking a cache line guarantees.
pub open spec fn pm_mark_post(
    pre: CrashImageGenerator,
    post: CrashImageGenerator,
    address: u64,
    r: Result<(), CigError>,
) -> bool {
    &&& bookkeeping_unchanged(pre, post)
    &&& post.spec_pool() == pre.spec_pool()
    &&& nvme_side_unchanged(pre, post)
    &&& if address > usize::MAX {
        r == Err::<(), CigError>(CigError::OutOfBoundsAccess) && pm_side_unchanged(pre, post)
    } else {
        &&& r is Ok
        &&& post.pm() == pm_clwb(pre.pm(), address as int, None::<int>)
        &&& post.pm_changed() == pre.pm_changed()
        &&& post.pm_gen() == pre.pm_gen()
        &&& post.pm_last() == pre.pm_last()
    }
}

/// What fencing guarantees, given the model after any preceding mark:
/// the marked prefixes become durable, and a family is sampled first
/// exactly when the most recent checkpoint value is in range and marked
/// lines await the fence; a fresh family is sound over the pre-fence
/// model, an unchanged device repeats its previous family.
pub open spec fn pm_fence_core(
    pre: CrashImageGenerator,
    post: CrashImageGenerator,
    id: u64,
    m1: PmModel,
    r: Result<(), CigError>,
) -> bool {
    &&& bookkeeping_unchanged(pre, post)
    &&& (pre.has_nvme() ==> post.nv() == pre.nv())
    &&& (((pre.has_pmem() ==> !pre.pm_changed()) && (pre.has_nvme() ==> !pre.nv_changed()))
        ==> r is Ok)
    &&& (!(event_sampling_on(pre) && m1.pending.len() > 0) ==> r is Ok)
    &&& match r {
        Ok(_) => {
            &&& post.pm() == pm_fence(m1)
            &&& if event_sampling_on(pre) && m1.pending.len() > 0 {
                &&& post.pm_gen() == pre.pm_gen().push((id, post.pm_gen().last().1))
                &&& (pre.pm_changed() ==> pm_family_ok(m1, post.pm_gen().last().1.digests()))
                &&& (!pre.pm_changed() ==> post.pm_gen().last().1.digests() == gen_lookup(
                    pre.pm_gen(),
                    pre.pm_last()->0,
                ))
                &&& post.pm_changed()
                &&& (pre.has_nvme() ==> nvme_sample_post(pre, post, id))
            } else {
                &&& post.pm_gen() == pre.pm_gen()
                &&& post.pm_changed() == pre.pm_changed()
                &&& post.pm_last() == pre.pm_last()
                &&& nvme_side_unchanged(pre, post)
                &&& post.spec_pool() == pre.spec_pool()
            }
        },
        Err(e) => e == CigError::PoolLimitExceeded && exists|data: Seq<u8>|
            pool_offer_rejected(post.spec_pool(), data),
    }
}

/// What a fence event (with `clflush`'s optional preceding mark)
/// guarantees.
pub open spec fn pm_fence_post(
    pre: CrashImageGenerator,
    post: CrashImageGenerator,
    id: u64,
    mark_address: Option<u64>,
    r: Result<(), CigError>,
) -> bool {
    match mark_address {
        Some(a) => if a > usize::MAX {
            r == Err::<(), CigError>(CigError::OutOfBoundsAccess) && state_unchanged(pre, post)
        } else {
            pm_fence_core(pre, post, id, pm_clwb(pre.pm(), a as int, None::<int>), r)
        },
        None => pm_fence_core(pre, post, id, pre.pm(), r),
    }
}

/// What buffering an NVMe write guarantees.
pub open spec fn nvme_write_post(
    pre: CrashImageGenerator,
    post: CrashImageGenerator,
    offset: u64,
    data: Seq<u8>,
    r: Result<(), CigError>,
) -> bool {
    &&& bookkeeping_unchanged(pre, post)
    &&& post.spec_pool() == pre.spec_pool()
    &&& pm_side_unchanged(pre, post)
    &&& if offset as int % 512 != 0 || data.len() % 512 != 0 {
        r == Err::<(), CigError>(CigError::UnalignedNvmeAccess) && nvme_side_unchanged(pre, post)
    } else if offset + data.len() > pre.nv().persisted.len() {
        r == Err::<(), CigError>(CigError::OutOfBoundsAccess) && nvme_side_unchanged(pre, post)
    } else {
        &&& r is Ok
        &&& post.nv().persisted == pre.nv().persisted
        &&& post.nv().buffer == pre.nv().buffer + nvme_split(offset as int, data)
        &&& post.nv_changed()
        &&& post.nv_gen() == pre.nv_gen()
        &&& post.nv_last() == pre.nv_last()
    }
}

/// What an NVMe flush event guarantees: the buffer becomes durable, and
/// a family is sampled first exactly when the most recent checkpoint
/// value is in range and writes are buffered; a fresh family is sound
/// over the pre-flush model, an unchanged device repeats its previous
/// family.
pub open spec fn nvme_flush_post(
    pre: CrashImageGenerator,
    post: CrashImageGenerator,
    id: u64,
    r: Result<(), CigError>,
) -> bool {
    &&& bookkeeping_unchanged(pre, post)
    &&& (pre.has_pmem() ==> post.pm() == pre.pm())
    &&& (((pre.has_pmem() ==> !pre.pm_changed()) && (pre.has_nvme() ==> !pre.nv_changed()))
        ==> r is Ok)
    &&& (!(event_sampling_on(pre) && pre.nv().buffer.len() > 0) ==> r is Ok)
    &&& match r {
        Ok(_) => {
            &&& post.nv().persisted == apply_stores(pre.nv().persisted, pre.nv().buffer)
            &&& post.nv().buffer.len() == 0
            &&& if event_sampling_on(pre) && pre.nv().buffer.len() > 0 {
                &&& post.nv_gen() == pre.nv_gen().push((id, post.nv_gen().last().1))
                &&& (pre.nv_changed() ==> nvme_family_ok(
                    pre.nv(),
                    post.nv_gen().last().1.digests(),
                ))
                &&& (!pre.nv_changed() ==> post.nv_gen().last().1.digests() == gen_lookup(
                    pre.nv_gen(),
                    pre.nv_last()->0,
                ))
                &&& post.nv_changed()
                &&& (pre.has_pmem() ==> pm_sample_post(pre, post, id))
            } else {
                &&& post.nv_gen() == pre.nv_gen()
                &&& post.nv_changed() == pre.nv_changed()
                &&& post.nv_last() == pre.nv_last()
                &&& pm_side_unchanged(pre, post)
                &&& post.spec_pool() == pre.spec_pool()
            }
        },
        Err(e) => e == CigError::PoolLimitExceeded && exists|data: Seq<u8>|
            pool_offer_rejected(post.spec_pool(), data),
    }
}

/// What one PM sampling at `id` guarantees: one record appended; fresh
/// families are sound; an unchanged device repeats its previous family.
pub open spec fn pm_sample_post(
    pre: CrashImageGenerator,
    post: CrashImageGenerator,
    id: u64,
) -> bool {
    &&& !post.pm_changed()
    &&& post.pm_gen() == pre.pm_gen().push((id, post.pm_gen().last().1))
    &&& gen_has(post.pm_gen(), id)
    &&& (pre.pm_changed() ==> pm_family_ok(pre.pm(), post.pm_gen().last().1.digests())
        && post.pm_last() == Some(id))
    &&& (!pre.pm_changed() ==> post.pm_gen().last().1.digests() == gen_lookup(
        pre.pm_gen(),
        pre.pm_last()->0,
    ) && post.pm_last() == pre.pm_last())
}

/// What one NVMe sampling at `id` guarantees, likewise.
pub open spec fn nvme_sample_post(
    pre: CrashImageGenerator,
    post: CrashImageGenerator,
    id: u64,
) -> bool {
    &&& !post.nv_changed()
    &&& post.nv_gen() == pre.nv_gen().push((id, post.nv_gen().last().1))
    &&& gen_has(post.nv_gen(), id)
    &&& (pre.nv_changed() ==> nvme_family_ok(pre.nv(), post.nv_gen().last().1.digests())
        && post.nv_last() == Some(id))
    &&& (!pre.nv_changed() ==> post.nv_gen().last().1.digests() == gen_lookup(
        pre.nv_gen(),
        pre.nv_last()->0,
    ) && post.nv_last() == pre.nv_last())
}

/// Reuse rule: a sampling point at which a device has not changed since
/// its previous sampling records exactly the previous family again.
pub proof fn lemma_unchanged_device_reuses_family(
    pre: CrashImageGenerator,
    post: CrashImageGenerator,
    id: u64,
)
    requires
        pm_sample_post(pre, post, id),
        !pre.pm_changed(),
    ensures
        post.pm_gen().last().1.digests() == gen_lookup(pre.pm_gen(), pre.pm_last()->0),
        post.pm_last() == pre.pm_last(),
{
}

/// Contiguity: checkpoint values are recorded as the indices of the
/// list of trace positions, so a successful run — one whose final
/// checkpoint was seen — has recorded every value up to and including
/// the final one.
pub proof fn lemma_successful_run_covers_checkpoints(g: CrashImageGenerator, v: u8)
    requires
        g.hi() < g.ids().len(),
        v <= g.hi(),
    ensures
        (v as int) < g.ids().len(),
{
}

/// Replays a trace against the device models, sampling crash images.
pub struct CrashImageGenerator {
    checkpoint_lo: u8,
    checkpoint_hi: u8,
    pool: ImagePool,
    pmem: Option<DeviceData<X86PersistentMemory>>,
    nvme: Option<DeviceData<NvmeDevice>>,
    rng: fastrand::Rng,
    had_init: bool,
    prev_checkpoint_value: Option<u8>,
    /// Checkpoint value `v` was seen at trace position
    /// `checkpoint_ids[v]`; contiguity makes the values exactly the
    /// indices of this list.
    checkpoint_ids: Vec<u64>,
}

impl CrashImageGenerator {
    /// Whether the init sentinel has been seen.
    pub closed spec fn spec_had_init(&self) -> bool {
        self.had_init
    }

    /// The most recent checkpoint value below the sentinel.
    pub closed spec fn spec_prev_value(&self) -> Option<u8> {
        self.prev_checkpoint_value
    }

    /// Trace position of each checkpoint value seen, indexed by value.
    pub closed spec fn ids(&self) -> Seq<u64> {
        self.checkpoint_ids@
    }

    /// The lower end of the sampling range.
    pub closed spec fn lo(&self) -> u8 {
        self.checkpoint_lo
    }

    /// The final checkpoint value.
    pub closed spec fn hi(&self) -> u8 {
        self.checkpoint_hi
    }

    /// Whether a PM device is configured.
    pub closed spec fn has_pmem(&self) -> bool {
        self.pmem is Some
    }

    /// Whether an NVMe device is configured.
    pub closed spec fn has_nvme(&self) -> bool {
        self.nvme is Some
    }

    /// The PM device model.
    pub closed spec fn pm(&self) -> PmModel {
        self.pmem->0.device@
    }

    /// Whether the PM device changed since its last sampling.
    pub closed spec fn pm_changed(&self) -> bool {
        self.pmem->0.changed
    }

    /// The trace position of the PM device's last fresh family.
    pub closed spec fn pm_last(&self) -> Option<u64> {
        self.pmem->0.last_generated_index
    }

    /// The PM index accumulated so far.
    pub closed spec fn pm_gen(&self) -> Seq<(u64, CrashHashSet)> {
        self.pmem->0.generated@
    }

    /// The NVMe device model.
    pub closed spec fn nv(&self) -> NvmeModel {
        self.nvme->0.device@
    }

    /// Whether the NVMe device changed since its last sampling.
    pub closed spec fn nv_changed(&self) -> bool {
        self.nvme->0.changed
    }

    /// The trace position of the NVMe device's last fresh family.
    pub closed spec fn nv_last(&self) -> Option<u64> {
        self.nvme->0.last_generated_index
    }

    /// The NVMe index accumulated so far.
    pub closed spec fn nv_gen(&self) -> Seq<(u64, CrashHashSet)> {
        self.nvme->0.generated@
    }

    /// The image pool.
    pub closed spec fn spec_pool(&self) -> ImagePool {
        self.pool
    }

    /// The driver invariant: the pool and the devices are sound, every
    /// recorded digest collection is deduplicated, and a device that is
    /// unchanged since its last sampling has that sampling on record.
    pub closed spec fn wf(&self) -> bool {
        &&& self.pool.wf()
        &&& match self.pmem {
            Some(dd) => {
                &&& dd.device@.wf()
                &&& (!dd.changed ==> dd.last_generated_index is Some)
                &&& match dd.last_generated_index {
                    Some(i) => gen_has(dd.generated@, i),
                    None => true,
                }
                &&& forall|j: int|
                    0 <= j < dd.generated@.len() ==> (#[trigger] dd.generated@[j]).1.wf()
            },
            None => true,
        }
        &&& match self.nvme {
            Some(dd) => {
                &&& dd.device@.wf()
                &&& (!dd.changed ==> dd.last_generated_index is Some)
                &&& match dd.last_generated_index {
                    Some(i) => gen_has(dd.generated@, i),
                    None => true,
                }
                &&& forall|j: int|
                    0 <= j < dd.generated@.len() ==> (#[trigger] dd.generated@[j]).1.wf()
            },
            None => true,
        }
    }

    /// A fresh driver over the given base images.  Which devices exist
    /// follows the VM configuration's filesystem type; sampling follows
    /// the test configuration's checkpoint range.  The pool is capped at
    /// [`POOL_LIMIT_BYTES`].
    pub fn new(
        work_dir: &String,
        vm_config: &VmConfig,
        test_config: &TestConfig,
        pmem_base: Vec<u8>,
        nvme_base: Vec<u8>,
    ) -> (r: CrashImageGenerator)
        requires
            vm_config.fs_type_valid(),
        ensures
            r.wf(),
            !r.spec_had_init(),
            r.spec_prev_value() is None,
            r.ids() == Seq::<u64>::empty(),
            r.lo() == test_config.checkpoint_range.0,
            r.hi() == test_config.checkpoint_range.1,
            r.has_pmem() == vm_config.spec_have_pmem(),
            r.has_nvme() == vm_config.spec_have_nvme(),
            r.has_pmem() ==> r.pm().persisted == pmem_base@ && r.pm().table.len() == 0
                && r.pm().pending.len() == 0 && r.pm().g == crate::pmem::LINE_GRANULARITY
                && r.pm_changed() && r.pm_gen().len() == 0,
            r.has_nvme() ==> r.nv().persisted == nvme_base@ && r.nv().buffer.len() == 0
                && r.nv_changed() && r.nv_gen().len() == 0,
            r.spec_pool().seen() == Seq::<Seq<u8>>::empty(),
            r.spec_pool().total_bytes() == 0,
            r.spec_pool().cap() == spec_pool_limit(),
    {
        let (p, n) = vm_config.have_pmem_nvme();
        let pool = ImagePool::with_limit(work_dir, pool_limit());
        let pmem: Option<DeviceData<X86PersistentMemory>> = if p {
            Some(
                DeviceData {
                    device: X86PersistentMemory::new(pmem_base),
                    changed: true,
                    last_generated_index: None,
                    generated: Vec::new(),
                },
            )
        } else {
            None
        };
        let nvme: Option<DeviceData<NvmeDevice>> = if n {
            Some(
                DeviceData {
                    device: NvmeDevice::new(nvme_base),
                    changed: true,
                    last_generated_index: None,
                    generated: Vec::new(),
                },
            )
        } else {
            None
        };
        CrashImageGenerator {
            checkpoint_lo: test_config.checkpoint_range.0,
            checkpoint_hi: test_config.checkpoint_range.1,
            pool,
            pmem,
            nvme,
            rng: crate::rng::rng_new(),
            had_init: false,
            prev_checkpoint_value: None,
            checkpoint_ids: Vec::new(),
        }
    }

    /// Replace the generator's randomness with a seeded one, so that a
    /// run can be reproduced.
    pub fn set_rng_seed(&mut self, seed: u64)
        ensures
            final(self).wf() == old(self).wf(),
            final(self).spec_had_init() == old(self).spec_had_init(),
            final(self).spec_prev_value() == old(self).spec_prev_value(),
            final(self).ids() == old(self).ids(),
            final(self).lo() == old(self).lo(),
            final(self).hi() == old(self).hi(),
    {
        self.rng = crate::rng::rng_with_seed(seed);
    }

    /// The directory crash images are to be written under.
    pub fn crash_dir(&self) -> (d: &String)
        ensures
            d@ == self.spec_pool().dir(),
    {
        self.pool.crash_dir()
    }

    /// Drain the pool's queue of fresh images for writing to disk.
    pub fn take_fresh_images(&mut self) -> (imgs: Vec<(CrashHash, Vec<u8>)>)
        requires
            old(self).wf(),
        ensures
            final(self).wf(),
            imgs@.map_values(|p: (CrashHash, Vec<u8>)| (p.0@, p.1@)) == old(
                self,
            ).spec_pool().queued(),
            final(self).spec_pool().queued() == Seq::<(Seq<u8>, Seq<u8>)>::empty(),
            final(self).spec_had_init() == old(self).spec_had_init(),
            final(self).ids() == old(self).ids(),
    {
        self.pool.take_fresh_images()
    }

    /// The accumulated PM index, in sampling order.
    pub fn pmem_generated(&self) -> (r: Option<&Vec<(u64, CrashHashSet)>>)
        ensures
            self.has_pmem() ==> (r matches Some(g) && g@ == self.pm_gen()),
            !self.has_pmem() ==> r is None,
    {
        match &self.pmem {
            Some(dd) => Some(&dd.generated),
            None => None,
        }
    }

    /// The accumulated NVMe index, in sampling order.
    pub fn nvme_generated(&self) -> (r: Option<&Vec<(u64, CrashHashSet)>>)
        ensures
            self.has_nvme() ==> (r matches Some(g) && g@ == self.nv_gen()),
            !self.has_nvme() ==> r is None,
    {
        match &self.nvme {
            Some(dd) => Some(&dd.generated),
            None => None,
        }
    }

    /// The trace position of each checkpoint value, indexed by value.
    pub fn checkpoint_ids(&self) -> (r: &Vec<u64>)
        ensures
            r@ == self.ids(),
    {
        &self.checkpoint_ids
    }

    /// Sample a family of crash images from the PM device at trace
    /// position `id`: a changed device yields a fresh family; an
    /// unchanged one records its previous family again.
    fn sample_pmem_at(&mut self, id: u64) -> (r: Result<(), CigError>)
        requires
            old(self).wf(),
            old(self).has_pmem(),
        ensures
            final(self).wf(),
            final(self).has_pmem() && final(self).has_nvme() == old(self).has_nvme(),
            final(self).lo() == old(self).lo() && final(self).hi() == old(self).hi(),
            final(self).spec_had_init() == old(self).spec_had_init(),
            final(self).spec_prev_value() == old(self).spec_prev_value(),
            final(self).ids() == old(self).ids(),
            final(self).pm() == old(self).pm(),
            final(self).has_nvme() ==> final(self).nv() == old(self).nv() && final(self).nv_gen()
                == old(self).nv_gen() && final(self).nv_changed() == old(self).nv_changed()
                && final(self).nv_last() == old(self).nv_last(),
            pool_evolves(old(self).spec_pool(), final(self).spec_pool()),
            !old(self).pm_changed() ==> r is Ok && final(self).spec_pool() == old(
                self,
            ).spec_pool(),
            match r {
                Ok(_) => pm_sample_post(*old(self), *final(self), id),
                Err(e) => e == CigError::PoolLimitExceeded && exists|data: Seq<u8>|
                    pool_offer_rejected(final(self).spec_pool(), data),
            },
    {
        match &mut self.pmem {
            Some(dd) => {
                if dd.changed {
                    let ghost m = dd.device@;
                    let ghost pool0 = self.pool;
                    let nothing = match dd.device.generate_nothing_persisted_image(
                        &mut self.pool,
                    ) {
                        Ok(h) => h,
                        Err(e) => {
                            proof {
                                assert(pool_offer_rejected(self.spec_pool(), m.persisted));
                                assert(exists|data: Seq<u8>|
                                    pool_offer_rejected(self.spec_pool(), data));
                            }
                            return Err(e);
                        },
                    };
                    let ghost pool1 = self.pool;
                    let everything = match dd.device.generate_everything_persisted_image(
                        &mut self.pool,
                    ) {
                        Ok(h) => h,
                        Err(e) => {
                            proof {
                                crate::image::lemma_pool_evolves_trans(pool0, pool1, self.pool);
                                assert(pool_offer_rejected(self.spec_pool(), pm_everything_image(m)));
                                assert(exists|data: Seq<u8>|
                                    pool_offer_rejected(self.spec_pool(), data));
                            }
                            return Err(e);
                        },
                    };
                    let ghost pool2 = self.pool;
                    proof {
                        crate::image::lemma_pool_evolves_trans(pool0, pool1, pool2);
                    }
                    let mut hashes = match dd.device.generate_random_images(
                        &mut self.pool,
                        &mut self.rng,
                    ) {
                        Ok(hs) => hs,
                        Err(e) => {
                            proof {
                                crate::image::lemma_pool_evolves_trans(pool0, pool2, self.pool);
                                assert(exists|data: Seq<u8>|
                                    pool_offer_rejected(self.pool, data));
                                let d = choose|data: Seq<u8>|
                                    pool_offer_rejected(self.pool, data);
                                assert(pool_offer_rejected(self.spec_pool(), d));
                                assert(exists|data: Seq<u8>|
                                    pool_offer_rejected(self.spec_pool(), data));
                            }
                            return Err(e);
                        },
                    };
                    proof {
                        crate::image::lemma_pool_evolves_trans(pool0, pool2, self.pool);
                    }
                    let ghost hs0 = hashes;
                    hashes.insert(nothing);
                    let ghost hs1 = hashes;
                    hashes.insert(everything);
                    proof {
                        assert(hs1.digests().contains(nothing@)) by {
                            if hs0.contains_digest(nothing@) {
                            } else {
                                assert(hs1.digests().last() == nothing@);
                            }
                        }
                        assert(hashes.digests().contains(nothing@)) by {
                            let i = choose|i: int|
                                0 <= i < hs1.digests().len() && hs1.digests()[i] == nothing@;
                            if hs1.contains_digest(everything@) {
                            } else {
                                assert(hashes.digests()[i] == nothing@);
                            }
                        }
                        assert(hashes.digests().contains(everything@)) by {
                            if hs1.contains_digest(everything@) {
                                let i = choose|i: int|
                                    0 <= i < hs1.digests().len() && hs1.digests()[i]
                                        == everything@;
                                assert(hashes.digests()[i] == everything@);
                            } else {
                                assert(hashes.digests().last() == everything@);
                            }
                        }
                        assert forall|x: int| 0 <= x < hashes.digests().len() implies
                            #[trigger] hashes.digests()[x] == blake3_of(m.persisted)
                            || hashes.digests()[x] == blake3_of(pm_everything_image(m)) || exists|
                            lines: Seq<int>,
                            ks: Seq<int>,
                        |
                            pm_valid_partial(m, lines, ks) && hashes.digests()[x] == blake3_of(
                                pm_partial_image(m, lines, ks),
                            ) by {
                            if x < hs0.digests().len() {
                                assert(hashes.digests()[x] == hs0.digests()[x]);
                            }
                        }
                        assert(pm_family_ok(m, hashes.digests()));
                    }
                    dd.changed = false;
                    dd.last_generated_index = Some(id);
                    let ghost g0 = dd.generated@;
                    dd.generated.push((id, hashes));
                    proof {
                        lemma_gen_lookup_push(g0, id, hashes);
                        assert(final(self).pm_gen() == g0.push((id, hashes)));
                    }
                    Ok(())
                } else {
                    let last = match dd.last_generated_index {
                        Some(i) => i,
                        None => {
                            proof {
                                assert(false);
                            }
                            0
                        },
                    };
                    let mut gi: usize = 0;
                    let n = dd.generated.len();
                    while gi < n && dd.generated[gi].0 != last
                        invariant
                            gi <= n,
                            n == dd.generated@.len(),
                            gen_has(dd.generated@, last),
                            forall|j: int| 0 <= j < gi ==> (#[trigger] dd.generated@[j]).0 != last,
                        decreases n - gi,
                    {
                        gi += 1;
                    }
                    proof {
                        if gi >= n {
                            lemma_gen_has_none(dd.generated@, last);
                            assert(false);
                        }
                    }
                    let set_copy = dd.generated[gi].1.duplicate();
                    proof {
                        lemma_gen_lookup_at(dd.generated@, last, gi as int);
                        assert(set_copy.digests() == gen_lookup(dd.generated@, last));
                        assert(set_copy.wf());
                    }
                    let ghost g0 = dd.generated@;
                    dd.generated.push((id, set_copy));
                    proof {
                        lemma_gen_lookup_push(g0, id, set_copy);
                        assert(final(self).pm_gen() == g0.push((id, set_copy)));
                    }
                    Ok(())
                }
            },
            None => {
                proof {
                    assert(false);
                }
                Ok(())
            },
        }
    }

    /// Sample a family of crash images from the NVMe device at trace
    /// position `id`: a changed device yields a fresh family; an
    /// unchanged one records its previous family again.
    fn sample_nvme_at(&mut self, id: u64) -> (r: Result<(), CigError>)
        requires
            old(self).wf(),
            old(self).has_nvme(),
        ensures
            final(self).wf(),
            final(self).has_nvme() && final(self).has_pmem() == old(self).has_pmem(),
            final(self).lo() == old(self).lo() && final(self).hi() == old(self).hi(),
            final(self).spec_had_init() == old(self).spec_had_init(),
            final(self).spec_prev_value() == old(self).spec_prev_value(),
            final(self).ids() == old(self).ids(),
            final(self).nv() == old(self).nv(),
            final(self).has_pmem() ==> final(self).pm() == old(self).pm() && final(self).pm_gen()
                == old(self).pm_gen() && final(self).pm_changed() == old(self).pm_changed()
                && final(self).pm_last() == old(self).pm_last(),
            pool_evolves(old(self).spec_pool(), final(self).spec_pool()),
            !old(self).nv_changed() ==> r is Ok && final(self).spec_pool() == old(
                self,
            ).spec_pool(),
            match r {
                Ok(_) => nvme_sample_post(*old(self), *final(self), id),
                Err(e) => e == CigError::PoolLimitExceeded && exists|data: Seq<u8>|
                    pool_offer_rejected(final(self).spec_pool(), data),
            },
    {
        match &mut self.nvme {
            Some(dd) => {
                if dd.changed {
                    let ghost m = dd.device@;
                    let ghost pool0 = self.pool;
                    let nothing = match dd.device.generate_nothing_persisted_image(
                        &mut self.pool,
                    ) {
                        Ok(h) => h,
                        Err(e) => {
                            proof {
                                assert(pool_offer_rejected(self.spec_pool(), m.persisted));
                                assert(exists|data: Seq<u8>|
                                    pool_offer_rejected(self.spec_pool(), data));
                            }
                            return Err(e);
                        },
                    };
                    let ghost pool1 = self.pool;
                    let everything = match dd.device.generate_everything_persisted_image(
                        &mut self.pool,
                    ) {
                        Ok(h) => h,
                        Err(e) => {
                            proof {
                                crate::image::lemma_pool_evolves_trans(pool0, pool1, self.pool);
                                assert(pool_offer_rejected(self.spec_pool(), apply_stores(m.persisted, m.buffer)));
                                assert(exists|data: Seq<u8>|
                                    pool_offer_rejected(self.spec_pool(), data));
                            }
                            return Err(e);
                        },
                    };
                    let ghost pool2 = self.pool;
                    proof {
                        crate::image::lemma_pool_evolves_trans(pool0, pool1, pool2);
                    }
                    let mut hashes = match dd.device.generate_random_images(
                        &mut self.pool,
                        &mut self.rng,
                    ) {
                        Ok(hs) => hs,
                        Err(e) => {
                            proof {
                                crate::image::lemma_pool_evolves_trans(pool0, pool2, self.pool);
                                assert(exists|data: Seq<u8>|
                                    pool_offer_rejected(self.pool, data));
                                let d = choose|data: Seq<u8>|
                                    pool_offer_rejected(self.pool, data);
                                assert(pool_offer_rejected(self.spec_pool(), d));
                                assert(exists|data: Seq<u8>|
                                    pool_offer_rejected(self.spec_pool(), data));
                            }
                            return Err(e);
                        },
                    };
                    proof {
                        crate::image::lemma_pool_evolves_trans(pool0, pool2, self.pool);
                    }
                    let ghost hs0 = hashes;
                    hashes.insert(nothing);
                    let ghost hs1 = hashes;
                    hashes.insert(everything);
                    proof {
                        assert(hs1.digests().contains(nothing@)) by {
                            if hs0.contains_digest(nothing@) {
                            } else {
                                assert(hs1.digests().last() == nothing@);
                            }
                        }
                        assert(hashes.digests().contains(nothing@)) by {
                            let i = choose|i: int|
                                0 <= i < hs1.digests().len() && hs1.digests()[i] == nothing@;
                            if hs1.contains_digest(everything@) {
                            } else {
                                assert(hashes.digests()[i] == nothing@);
                            }
                        }
                        assert(hashes.digests().contains(everything@)) by {
                            if hs1.contains_digest(everything@) {
                                let i = choose|i: int|
                                    0 <= i < hs1.digests().len() && hs1.digests()[i]
                                        == everything@;
                                assert(hashes.digests()[i] == everything@);
                            } else {
                                assert(hashes.digests().last() == everything@);
                            }
                        }
                        assert forall|x: int| 0 <= x < hashes.digests().len() implies
                            #[trigger] hashes.digests()[x] == blake3_of(m.persisted)
                            || hashes.digests()[x] == blake3_of(
                            apply_stores(m.persisted, m.buffer),
                        ) || exists|sel: Seq<int>|
                            nvme_valid_selection(m, sel) && hashes.digests()[x] == blake3_of(
                                nvme_selection_image(m, sel),
                            ) by {
                            if x < hs0.digests().len() {
                                assert(hashes.digests()[x] == hs0.digests()[x]);
                            }
                        }
                        assert(nvme_family_ok(m, hashes.digests()));
                    }
                    dd.changed = false;
                    dd.last_generated_index = Some(id);
                    let ghost g0 = dd.generated@;
                    dd.generated.push((id, hashes));
                    proof {
                        lemma_gen_lookup_push(g0, id, hashes);
                        assert(final(self).nv_gen() == g0.push((id, hashes)));
                    }
                    Ok(())
                } else {
                    let last = match dd.last_generated_index {
                        Some(i) => i,
                        None => {
                            proof {
                                assert(false);
                            }
                            0
                        },
                    };
                    let mut gi: usize = 0;
                    let n = dd.generated.len();
                    while gi < n && dd.generated[gi].0 != last
                        invariant
                            gi <= n,
                            n == dd.generated@.len(),
                            gen_has(dd.generated@, last),
                            forall|j: int| 0 <= j < gi ==> (#[trigger] dd.generated@[j]).0 != last,
                        decreases n - gi,
                    {
                        gi += 1;
                    }
                    proof {
                        if gi >= n {
                            lemma_gen_has_none(dd.generated@, last);
                            assert(false);
                        }
                    }
                    let set_copy = dd.generated[gi].1.duplicate();
                    proof {
                        lemma_gen_lookup_at(dd.generated@, last, gi as int);
                        assert(set_copy.digests() == gen_lookup(dd.generated@, last));
                        assert(set_copy.wf());
                    }
                    let ghost g0 = dd.generated@;
                    dd.generated.push((id, set_copy));
                    proof {
                        lemma_gen_lookup_push(g0, id, set_copy);
                        assert(final(self).nv_gen() == g0.push((id, set_copy)));
                    }
                    Ok(())
                }
            },
            None => {
                proof {
                    assert(false);
                }
                Ok(())
            },
        }
    }

    /// Sample crash images at trace position `id` from every configured
    /// device: a changed device yields a fresh family; an unchanged one
    /// records its previous family again — no device or flush event came
    /// between, so the same family applies.
    fn generate_crash_images_at(&mut self, trace_entry_id: u64) -> (r: Result<(), CigError>)
        requires
            old(self).wf(),
        ensures
            final(self).wf(),
            final(self).has_pmem() == old(self).has_pmem(),
            final(self).has_nvme() == old(self).has_nvme(),
            final(self).lo() == old(self).lo() && final(self).hi() == old(self).hi(),
            final(self).spec_had_init() == old(self).spec_had_init(),
            final(self).spec_prev_value() == old(self).spec_prev_value(),
            final(self).ids() == old(self).ids(),
            final(self).has_pmem() ==> final(self).pm() == old(self).pm(),
            final(self).has_nvme() ==> final(self).nv() == old(self).nv(),
            pool_evolves(old(self).spec_pool(), final(self).spec_pool()),
            ((old(self).has_pmem() ==> !old(self).pm_changed()) && (old(self).has_nvme()
                ==> !old(self).nv_changed())) ==> r is Ok && final(self).spec_pool() == old(
                self,
            ).spec_pool(),
            match r {
                Ok(_) => {
                    &&& (old(self).has_pmem() ==> pm_sample_post(*old(self), *final(self), trace_entry_id))
                    &&& (old(self).has_nvme() ==> nvme_sample_post(*old(self), *final(self), trace_entry_id))
                },
                Err(e) => e == CigError::PoolLimitExceeded && exists|data: Seq<u8>|
                    pool_offer_rejected(final(self).spec_pool(), data),
            },
    {
        let ghost pre = *self;
        if self.has_pmem_device() {
            match self.sample_pmem_at(trace_entry_id) {
                Ok(_) => {},
                Err(e) => {
                    return Err(e);
                },
            }
        }
        let ghost mid = *self;
        if self.has_nvme_device() {
            match self.sample_nvme_at(trace_entry_id) {
                Ok(_) => {
                    proof {
                        crate::image::lemma_pool_evolves_trans(
                            pre.spec_pool(),
                            mid.spec_pool(),
                            self.spec_pool(),
                        );
                    }
                },
                Err(e) => {
                    proof {
                        crate::image::lemma_pool_evolves_trans(
                            pre.spec_pool(),
                            mid.spec_pool(),
                            self.spec_pool(),
                        );
                    }
                    return Err(e);
                },
            }
        }
        Ok(())
    }

    /// Whether a PM device is configured.
    pub fn has_pmem_device(&self) -> (r: bool)
        ensures
            r == self.has_pmem(),
    {
        self.pmem.is_some()
    }

    /// Whether an NVMe device is configured.
    pub fn has_nvme_device(&self) -> (r: bool)
        ensures
            r == self.has_nvme(),
    {
        self.nvme.is_some()
    }

    /// Record a checkpoint and sample if its value selects sampling.
    /// The sentinel value flips `had_init`; any other value must extend
    /// the contiguous run of checkpoint values seen so far.
    fn handle_checkpoint(&mut self, id: u64, value: u8) -> (r: Result<(), CigError>)
        requires
            old(self).wf(),
        ensures
            final(self).wf(),
            config_kept(*old(self), *final(self)),
            pool_evolves(old(self).spec_pool(), final(self).spec_pool()),
            checkpoint_post(*old(self), *final(self), id, value, r),
    {
        if value == INIT_SENTINEL {
            self.had_init = true;
            return Ok(());
        }
        let vlen = self.checkpoint_ids.len();
        if (value as usize) < vlen {
            return Err(CigError::DuplicateCheckpoint);
        }
        if (value as usize) > vlen {
            return Err(CigError::NonContiguousCheckpoint);
        }
        self.checkpoint_ids.push(id);
        self.prev_checkpoint_value = Some(value);
        let sample = (self.checkpoint_lo <= value && value <= self.checkpoint_hi) || value
            == self.checkpoint_hi;
        if sample {
            match self.generate_crash_images_at(id) {
                Ok(_) => Ok(()),
                Err(e) => Err(e),
            }
        } else {
            Ok(())
        }
    }

    /// Buffer a PM store.
    fn pm_write_event(&mut self, address: u64, content: Vec<u8>, non_temporal: bool) -> (r:
        Result<(), CigError>)
        requires
            old(self).wf(),
            old(self).has_pmem(),
        ensures
            final(self).wf(),
            config_kept(*old(self), *final(self)),
            pm_write_post(*old(self), *final(self), address, content@, non_temporal, r),
    {
        match &mut self.pmem {
            Some(dd) => {
                let len = content.len();
                if !(len == 1 || len == 2 || len == 4 || len == 8) {
                    return Err(CigError::UnsupportedStoreSize);
                }
                let plen = dd.device.persisted_len();
                if address > plen as u64 || (len as u64) > (plen as u64) - address {
                    return Err(CigError::OutOfBoundsAccess);
                }
                dd.changed = true;
                dd.device.write(address as usize, content.as_slice(), non_temporal);
                Ok(())
            },
            None => {
                proof {
                    assert(false);
                }
                Ok(())
            },
        }
    }

    /// Mark the cache line holding `address` for flushing.
    fn pm_mark_event(&mut self, address: u64) -> (r: Result<(), CigError>)
        requires
            old(self).wf(),
            old(self).has_pmem(),
        ensures
            final(self).wf(),
            config_kept(*old(self), *final(self)),
            pm_mark_post(*old(self), *final(self), address, r),
    {
        if address > usize::MAX as u64 {
            return Err(CigError::OutOfBoundsAccess);
        }
        match &mut self.pmem {
            Some(dd) => {
                dd.device.clwb(address as usize, None);
                Ok(())
            },
            None => {
                proof {
                    assert(false);
                }
                Ok(())
            },
        }
    }

    /// Fence the PM device, optionally marking one cache line first (the
    /// conservative reading of `clflush`), sampling beforehand when the
    /// most recent checkpoint selects sampling and marked lines await
    /// the fence.
    fn pm_fence_event(&mut self, id: u64, mark_address: Option<u64>) -> (r: Result<
        (),
        CigError,
    >)
        requires
            old(self).wf(),
            old(self).has_pmem(),
        ensures
            final(self).wf(),
            config_kept(*old(self), *final(self)),
            pool_evolves(old(self).spec_pool(), final(self).spec_pool()),
            pm_fence_post(*old(self), *final(self), id, mark_address, r),
    {
        let ghost pre = *self;
        match mark_address {
            Some(a) => {
                if a > usize::MAX as u64 {
                    return Err(CigError::OutOfBoundsAccess);
                }
                match &mut self.pmem {
                    Some(dd) => {
                        dd.device.clwb(a as usize, None);
                    },
                    None => {
                        proof {
                            assert(false);
                        }
                    },
                }
            },
            None => {},
        }
        let ghost mid = *self;
        let in_range = match self.prev_checkpoint_value {
            Some(v) => self.checkpoint_lo <= v && v <= self.checkpoint_hi,
            None => false,
        };
        let pending = match &self.pmem {
            Some(dd) => dd.device.has_pending_lines(),
            None => false,
        };
        proof {
            assert(in_range == event_sampling_on(pre));
            assert(pending == (mid.pm().pending.len() > 0));
        }
        if in_range && pending {
            match self.generate_crash_images_at(id) {
                Ok(_) => {
                    match &mut self.pmem {
                        Some(dd) => {
                            dd.changed = true;
                        },
                        None => {},
                    }
                },
                Err(e) => {
                    return Err(e);
                },
            }
        }
        match &mut self.pmem {
            Some(dd) => {
                dd.device.fence();
            },
            None => {
                proof {
                    assert(false);
                }
            },
        }
        Ok(())
    }

    /// Buffer an NVMe write.
    fn nvme_write_event(&mut self, offset: u64, data: Vec<u8>) -> (r: Result<(), CigError>)
        requires
            old(self).wf(),
            old(self).has_nvme(),
        ensures
            final(self).wf(),
            config_kept(*old(self), *final(self)),
            nvme_write_post(*old(self), *final(self), offset, data@, r),
    {
        match &mut self.nvme {
            Some(dd) => {
                let dlen = data.len();
                if offset % 512 != 0 || (dlen as u64) % 512 != 0 {
                    return Err(CigError::UnalignedNvmeAccess);
                }
                let plen = dd.device.persisted_len();
                if offset > plen as u64 || (dlen as u64) > (plen as u64) - offset {
                    return Err(CigError::OutOfBoundsAccess);
                }
                proof {
                    assert(dlen as u64 % 512 == 0 ==> data@.len() % 512 == 0);
                }
                dd.changed = true;
                dd.device.write(offset as usize, data);
                Ok(())
            },
            None => {
                proof {
                    assert(false);
                }
                Ok(())
            },
        }
    }

    /// Flush the NVMe device, sampling beforehand when the most recent
    /// checkpoint selects sampling and writes are buffered.
    fn nvme_flush_event(&mut self, id: u64) -> (r: Result<(), CigError>)
        requires
            old(self).wf(),
            old(self).has_nvme(),
        ensures
            final(self).wf(),
            config_kept(*old(self), *final(self)),
            pool_evolves(old(self).spec_pool(), final(self).spec_pool()),
            nvme_flush_post(*old(self), *final(self), id, r),
    {
        let ghost pre = *self;
        let in_range = match self.prev_checkpoint_value {
            Some(v) => self.checkpoint_lo <= v && v <= self.checkpoint_hi,
            None => false,
        };
        let buffered = match &self.nvme {
            Some(dd) => dd.device.has_unpersisted_content(),
            None => false,
        };
        proof {
            assert(in_range == event_sampling_on(pre));
            assert(buffered == (pre.nv().buffer.len() > 0));
        }
        if in_range && buffered {
            match self.generate_crash_images_at(id) {
                Ok(_) => {
                    match &mut self.nvme {
                        Some(dd) => {
                            dd.changed = true;
                        },
                        None => {},
                    }
                },
                Err(e) => {
                    return Err(e);
                },
            }
        }
        match &mut self.nvme {
            Some(dd) => {
                dd.device.flush();
            },
            None => {
                proof {
                    assert(false);
                }
            },
        }
        Ok(())
    }

    /// Consume one trace entry: mutate the device it addresses, record
    /// checkpoints, and sample crash images at sampling points.  Fatal
    /// trace conditions are reported as errors and abort the replay.
    pub fn handle_entry(&mut self, entry: TraceEntry) -> (r: Result<(), CigError>)
        requires
            old(self).wf(),
        ensures
            final(self).wf(),
            config_kept(*old(self), *final(self)),
            pool_evolves(old(self).spec_pool(), final(self).spec_pool()),
            match entry {
                TraceEntry::Checkpoint { id, value } => checkpoint_post(
                    *old(self),
                    *final(self),
                    id,
                    value,
                    r,
                ),
                TraceEntry::Pmem { id, event } => match event {
                    PmemEvent::Read { .. } => r is Ok && state_unchanged(
                        *old(self),
                        *final(self),
                    ),
                    PmemEvent::Write { address, size: _, content, non_temporal } => {
                        if !old(self).spec_had_init() {
                            r == Err::<(), CigError>(CigError::EventBeforeInit)
                                && state_unchanged(*old(self), *final(self))
                        } else if !old(self).has_pmem() {
                            r == Err::<(), CigError>(CigError::DeviceAbsent) && state_unchanged(
                                *old(self),
                                *final(self),
                            )
                        } else {
                            pm_write_post(
                                *old(self),
                                *final(self),
                                address,
                                content@,
                                non_temporal,
                                r,
                            )
                        }
                    },
                    PmemEvent::Clflushopt { address } | PmemEvent::Clwb { address } => {
                        if !old(self).spec_had_init() {
                            r == Err::<(), CigError>(CigError::EventBeforeInit)
                                && state_unchanged(*old(self), *final(self))
                        } else if !old(self).has_pmem() {
                            r == Err::<(), CigError>(CigError::DeviceAbsent) && state_unchanged(
                                *old(self),
                                *final(self),
                            )
                        } else {
                            pm_mark_post(*old(self), *final(self), address, r)
                        }
                    },
                    PmemEvent::Clflush { address } => {
                        if !old(self).spec_had_init() {
                            r == Err::<(), CigError>(CigError::EventBeforeInit)
                                && state_unchanged(*old(self), *final(self))
                        } else if !old(self).has_pmem() {
                            r == Err::<(), CigError>(CigError::DeviceAbsent) && state_unchanged(
                                *old(self),
                                *final(self),
                            )
                        } else {
                            pm_fence_post(*old(self), *final(self), id, Some(address), r)
                        }
                    },
                    PmemEvent::Fence => {
                        if !old(self).has_pmem() {
                            r == Err::<(), CigError>(CigError::DeviceAbsent) && state_unchanged(
                                *old(self),
                                *final(self),
                            )
                        } else {
                            pm_fence_post(*old(self), *final(self), id, None, r)
                        }
                    },
                    PmemEvent::Wbinvd => {
                        if old(self).spec_had_init() {
                            r == Err::<(), CigError>(CigError::WbinvdAfterInit)
                                && state_unchanged(*old(self), *final(self))
                        } else {
                            r is Ok && state_unchanged(*old(self), *final(self))
                        }
                    },
                },
                TraceEntry::Nvme { id, event } => match event {
                    NvmeEvent::Read { .. } => r is Ok && state_unchanged(
                        *old(self),
                        *final(self),
                    ),
                    NvmeEvent::Write { offset, length: _, data } => {
                        if !old(self).spec_had_init() {
                            r == Err::<(), CigError>(CigError::EventBeforeInit)
                                && state_unchanged(*old(self), *final(self))
                        } else if !old(self).has_nvme() {
                            r == Err::<(), CigError>(CigError::DeviceAbsent) && state_unchanged(
                                *old(self),
                                *final(self),
                            )
                        } else {
                            nvme_write_post(*old(self), *final(self), offset, data@, r)
                        }
                    },
                    NvmeEvent::Flush => {
                        if !old(self).spec_had_init() {
                            r == Err::<(), CigError>(CigError::EventBeforeInit)
                                && state_unchanged(*old(self), *final(self))
                        } else if !old(self).has_nvme() {
                            r == Err::<(), CigError>(CigError::DeviceAbsent) && state_unchanged(
                                *old(self),
                                *final(self),
                            )
                        } else {
                            nvme_flush_post(*old(self), *final(self), id, r)
                        }
                    },
                },
            },
    {
        match entry {
            TraceEntry::Checkpoint { id, value } => self.handle_checkpoint(id, value),
            TraceEntry::Pmem { id, event } => match event {
                PmemEvent::Read { .. } => Ok(()),
                PmemEvent::Write { address, size: _, content, non_temporal } => {
                    if !self.had_init {
                        Err(CigError::EventBeforeInit)
                    } else if !self.has_pmem_device() {
                        Err(CigError::DeviceAbsent)
                    } else {
                        self.pm_write_event(address, content, non_temporal)
                    }
                },
                PmemEvent::Clflushopt { address } => {
                    if !self.had_init {
                        Err(CigError::EventBeforeInit)
                    } else if !self.has_pmem_device() {
                        Err(CigError::DeviceAbsent)
                    } else {
                        self.pm_mark_event(address)
                    }
                },
                PmemEvent::Clwb { address } => {
                    if !self.had_init {
                        Err(CigError::EventBeforeInit)
                    } else if !self.has_pmem_device() {
                        Err(CigError::DeviceAbsent)
                    } else {
                        self.pm_mark_event(address)
                    }
                },
                PmemEvent::Clflush { address } => {
                    if !self.had_init {
                        Err(CigError::EventBeforeInit)
                    } else if !self.has_pmem_device() {
                        Err(CigError::DeviceAbsent)
                    } else {
                        self.pm_fence_event(id, Some(address))
                    }
                },
                PmemEvent::Fence => {
                    if !self.has_pmem_device() {
                        Err(CigError::DeviceAbsent)
                    } else {
                        self.pm_fence_event(id, None)
                    }
                },
                PmemEvent::Wbinvd => {
                    if self.had_init {
                        Err(CigError::WbinvdAfterInit)
                    } else {
                        Ok(())
                    }
                },
            },
            TraceEntry::Nvme { id, event } => match event {
                NvmeEvent::Read { .. } => Ok(()),
                NvmeEvent::Write { offset, length: _, data } => {
                    if !self.had_init {
                        Err(CigError::EventBeforeInit)
                    } else if !self.has_nvme_device() {
                        Err(CigError::DeviceAbsent)
                    } else {
                        self.nvme_write_event(offset, data)
                    }
                },
                NvmeEvent::Flush => {
                    if !self.had_init {
                        Err(CigError::EventBeforeInit)
                    } else if !self.has_nvme_device() {
                        Err(CigError::DeviceAbsent)
                    } else {
                        self.nvme_flush_event(id)
                    }
                },
            },
        }
    }

    /// After the trace ends: the run succeeded only if the final
    /// checkpoint of the range was seen.  Contiguity then makes the
    /// recorded checkpoint values cover `0..=hi`.
    pub fn finish(&self) -> (r: Result<(), CigError>)
        ensures
            r is Ok <==> self.hi() < self.ids().len(),
            r is Err ==> r->Err_0 == CigError::MissingFinalCheckpoint,
    {
        if (self.checkpoint_hi as usize) < self.checkpoint_ids.len() {
            Ok(())
        } else {
            Err(CigError::MissingFinalCheckpoint)
        }
    }
}

} // verus!
