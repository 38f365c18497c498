//! x86 memory-persistency model.
//!
//! Stores to the same cache line are ordered with respect to each other;
//! stores to different cache lines may be reordered at any crash
//! boundary.  `clwb` marks a line for flushing without ordering it; a
//! fence makes every marked prefix durable.
//!
//! The model of the device is a [`PmModel`]: the durable byte image, an
//! association list from line number to [`LineModel`] (insertion order),
//! and the list of line numbers awaiting a fence.  Every mutation is
//! specified as a function on models ([`pm_write`], [`pm_clwb`],
//! [`pm_fence`]) and the executable methods are proved to realise them.

use vstd::prelude::*;

use crate::image::{
    blake3_of, lemma_persist_post_evolves, lemma_persist_post_outcome, lemma_pool_evolves_trans,
    pool_evolves, pool_offer_post, pool_offer_rejected, CrashHash, CrashHashSet, ImagePool,
};
use crate::models::{
    apply_stores, apply_store_to, clone_bytes, lemma_apply_stores_len, lemma_apply_stores_snoc,
    overlay_store, LineModel, OrderedWriteLine, Store, StoreModel,
};
use crate::CigError;

verus! {

/// Line granularity of the PM model: a line is this many bytes.
pub const LINE_GRANULARITY: usize = 64;

/// Cap on the number of line subsets sampled at one crash point.
pub const MAX_UNPERSISTED_SUBSETS: usize = 5;

/// Cap on the number of per-line prefix combinations enumerated
/// exhaustively at one crash point.
pub const MAX_PARTIAL_FLUSHES_COUNT: usize = 5;

/// The number of the line holding byte offset `addr`.
pub open spec fn line_of(addr: int, g: int) -> int {
    addr / g
}

/// A store lies inside line `l`, covers at least one byte, and does not
/// cross an 8-byte sub-line boundary.
pub open spec fn store_fits_line(s: StoreModel, l: int, g: int) -> bool {
    &&& s.wf()
    &&& l * g <= s.start
    &&& s.end() <= (l + 1) * g
    &&& s.end() <= s.start - (s.start % 8) + 8
}

/// The table of unpersisted lines: line number to line, insertion order.
pub open spec fn table_has(t: Seq<(int, LineModel)>, l: int) -> bool {
    exists|i: int| 0 <= i < t.len() && (#[trigger] t[i]).0 == l
}

/// The position of line `l` in the table.
pub open spec fn table_index(t: Seq<(int, LineModel)>, l: int) -> int {
    choose|i: int| 0 <= i < t.len() && (#[trigger] t[i]).0 == l
}

/// The line stored under number `l`.
pub open spec fn table_at(t: Seq<(int, LineModel)>, l: int) -> LineModel {
    t[table_index(t, l)].1
}

/// The table with the entry of line `l` replaced.
pub open spec fn table_update(t: Seq<(int, LineModel)>, l: int, line: LineModel) -> Seq<
    (int, LineModel),
> {
    t.update(table_index(t, l), (l, line))
}

/// The table with the entry of line `l` removed.
pub open spec fn table_remove(t: Seq<(int, LineModel)>, l: int) -> Seq<(int, LineModel)> {
    t.remove(table_index(t, l))
}

/// No line number appears twice in the table.
pub open spec fn table_keys_unique(t: Seq<(int, LineModel)>) -> bool {
    forall|i: int, j: int| 0 <= i < j < t.len() ==> (#[trigger] t[i]).0 != (#[trigger] t[j]).0
}

/// With unique keys, any position holding `l` is the table's position for `l`.
pub proof fn lemma_table_index_is(t: Seq<(int, LineModel)>, l: int, i: int)
    requires
        table_keys_unique(t),
        0 <= i < t.len(),
        t[i].0 == l,
    ensures
        table_has(t, l),
        table_index(t, l) == i,
{
    assert(table_has(t, l));
    let j = table_index(t, l);
    if i < j {
        assert(t[i].0 != t[j].0);
    } else if j < i {
        assert(t[j].0 != t[i].0);
    }
}

/// Replacing the entry of a present line keeps the keys and changes only
/// that line's content.
pub proof fn lemma_table_update_at(t: Seq<(int, LineModel)>, l: int, line2: LineModel, x: int)
    requires
        table_keys_unique(t),
        table_has(t, l),
    ensures
        table_keys_unique(table_update(t, l, line2)),
        table_update(t, l, line2).len() == t.len(),
        table_has(table_update(t, l, line2), x) == table_has(t, x),
        table_has(t, x) ==> table_at(table_update(t, l, line2), x) == if x == l {
            line2
        } else {
            table_at(t, x)
        },
        table_has(t, x) ==> table_index(table_update(t, l, line2), x) == table_index(t, x),
{
    let i = table_index(t, l);
    assert(0 <= i < t.len() && t[i].0 == l);
    let t2 = table_update(t, l, line2);
    assert(forall|k: int| 0 <= k < t.len() ==> (#[trigger] t2[k]).0 == t[k].0);
    if table_has(t, x) {
        let p = table_index(t, x);
        assert(0 <= p < t.len() && t[p].0 == x);
        lemma_table_index_is(t2, x, p);
    }
    if table_has(t2, x) {
        let p = table_index(t2, x);
        assert(0 <= p < t2.len() && t2[p].0 == x);
        assert(t[p].0 == x);
        assert(table_has(t, x));
    }
}

/// Appending an absent line keeps the keys unique and leaves other lines
/// untouched.
pub proof fn lemma_table_push(t: Seq<(int, LineModel)>, l: int, line2: LineModel, x: int)
    requires
        table_keys_unique(t),
        !table_has(t, l),
    ensures
        table_keys_unique(t.push((l, line2))),
        table_has(t.push((l, line2)), x) == (table_has(t, x) || x == l),
        table_has(t, x) ==> table_at(t.push((l, line2)), x) == table_at(t, x) && table_index(
            t.push((l, line2)),
            x,
        ) == table_index(t, x),
        table_at(t.push((l, line2)), l) == line2,
{
    let t2 = t.push((l, line2));
    assert(forall|k: int| 0 <= k < t.len() ==> (#[trigger] t2[k]).0 == t[k].0);
    assert(t2[t.len() as int].0 == l);
    assert(forall|k: int| 0 <= k < t.len() ==> (#[trigger] t[k]).0 != l);
    lemma_table_index_is(t2, l, t.len() as int);
    if table_has(t, x) {
        let p = table_index(t, x);
        assert(0 <= p < t.len() && t[p].0 == x);
        lemma_table_index_is(t2, x, p);
    }
    if table_has(t2, x) && x != l {
        let p = table_index(t2, x);
        assert(0 <= p < t2.len() && t2[p].0 == x);
        assert(p != t.len());
        assert(t[p].0 == x);
        assert(table_has(t, x));
    }
}

/// Removing a line keeps the keys unique and leaves other lines untouched.
pub proof fn lemma_table_remove(t: Seq<(int, LineModel)>, l: int, x: int)
    requires
        table_keys_unique(t),
        table_has(t, l),
    ensures
        table_keys_unique(table_remove(t, l)),
        table_remove(t, l).len() == t.len() - 1,
        table_has(table_remove(t, l), x) == (table_has(t, x) && x != l),
        table_has(t, x) && x != l ==> table_at(table_remove(t, l), x) == table_at(t, x),
{
    let i = table_index(t, l);
    assert(0 <= i < t.len() && t[i].0 == l);
    let t2 = table_remove(t, l);
    assert(forall|k: int| 0 <= k < i ==> t2[k] == t[k]);
    assert(forall|k: int| i <= k < t2.len() ==> t2[k] == t[k + 1]);
    assert forall|a: int, b: int| 0 <= a < b < t2.len() implies (#[trigger] t2[a]).0 != (
    #[trigger] t2[b]).0 by {
        let a1 = if a < i {
            a
        } else {
            a + 1
        };
        let b1 = if b < i {
            b
        } else {
            b + 1
        };
        assert(t2[a] == t[a1] && t2[b] == t[b1]);
    }
    if table_has(t, x) && x != l {
        let p = table_index(t, x);
        assert(0 <= p < t.len() && t[p].0 == x);
        assert(p != i);
        let p2 = if p < i {
            p
        } else {
            p - 1
        };
        assert(t2[p2] == t[p]);
        lemma_table_index_is(t2, x, p2);
    }
    if table_has(t2, x) {
        let p = table_index(t2, x);
        assert(0 <= p < t2.len() && t2[p].0 == x);
        let p1 = if p < i {
            p
        } else {
            p + 1
        };
        assert(t2[p] == t[p1]);
        assert(table_has(t, x));
        if x == l {
            assert(t[p1].0 == l && p1 != i);
            if p1 < i {
                assert(t[p1].0 != t[i].0);
            } else {
                assert(t[i].0 != t[p1].0);
            }
            assert(false);
        }
    }
}

/// The mathematical state of the PM device.
pub ghost struct PmModel {
    /// The currently-durable byte image.
    pub persisted: Seq<u8>,
    /// Line number to buffered line, in insertion order.
    pub table: Seq<(int, LineModel)>,
    /// Line numbers marked for flushing, awaiting a fence.
    pub pending: Seq<int>,
    /// Line granularity: 8 or 64 bytes.
    pub g: int,
}

impl PmModel {
    /// Entry `i` of the table is sound: a non-empty well-formed line whose
    /// stores all lie inside line `i`'s range and inside the device.
    pub open spec fn line_ok(&self, i: int) -> bool {
        &&& self.table[i].1.wf()
        &&& self.table[i].1.writes.len() > 0
        &&& forall|j: int|
            0 <= j < self.table[i].1.writes.len() ==> store_fits_line(
                #[trigger] self.table[i].1.writes[j],
                self.table[i].0,
                self.g,
            )
        &&& forall|j: int|
            0 <= j < self.table[i].1.writes.len() ==> (#[trigger] self.table[i].1.writes[j]).end()
                <= self.persisted.len()
    }

    /// The buffered lines are sound and uniquely keyed.
    pub open spec fn table_wf(&self) -> bool {
        &&& table_keys_unique(self.table)
        &&& forall|i: int| 0 <= i < self.table.len() ==> self.line_ok(i)
    }

    /// A line is pending only once, only while it exists, and only with a
    /// non-empty flushed prefix.
    pub open spec fn pending_wf(&self) -> bool {
        &&& forall|i: int, j: int|
            0 <= i < j < self.pending.len() ==> self.pending[i] != self.pending[j]
        &&& forall|i: int|
            0 <= i < self.pending.len() ==> table_has(self.table, #[trigger] self.pending[i])
                && table_at(self.table, self.pending[i]).flushed > 0
    }

    /// The full invariant of the device model.
    pub open spec fn wf(&self) -> bool {
        &&& (self.g == 8 || self.g == 64)
        &&& self.persisted.len() <= usize::MAX
        &&& self.table_wf()
        &&& self.pending_wf()
    }
}

/// Append one store to its line, creating the line if absent; a
/// non-temporal store marks the whole line flushed and pending.
pub open spec fn pm_append_store(m: PmModel, s: StoreModel, non_temporal: bool) -> PmModel {
    let l = line_of(s.start, m.g);
    let pend2 = if non_temporal && !m.pending.contains(l) {
        m.pending.push(l)
    } else {
        m.pending
    };
    if table_has(m.table, l) {
        let line = table_at(m.table, l);
        let w2 = line.writes.push(s);
        let line2 = LineModel {
            writes: w2,
            flushed: if non_temporal {
                w2.len() as int
            } else {
                line.flushed
            },
        };
        PmModel { table: table_update(m.table, l, line2), pending: pend2, ..m }
    } else {
        let line2 = LineModel {
            writes: seq![s],
            flushed: if non_temporal {
                1
            } else {
                0
            },
        };
        PmModel { table: m.table.push((l, line2)), pending: pend2, ..m }
    }
}

/// Split a write into sub-stores so that none crosses an 8-byte boundary.
/// A write of at most 8 bytes yields one or two pieces.
pub open spec fn split_at_8(addr: int, data: Seq<u8>) -> Seq<StoreModel> {
    if addr / 8 == (addr + data.len() - 1) / 8 {
        seq![StoreModel { start: addr, bytes: data }]
    } else {
        let b = (addr / 8 + 1) * 8;
        seq![
            StoreModel { start: addr, bytes: data.take(b - addr) },
            StoreModel { start: b, bytes: data.skip(b - addr) },
        ]
    }
}

/// Append a sequence of stores in order.
pub open spec fn pm_append_all(m: PmModel, ss: Seq<StoreModel>, non_temporal: bool) -> PmModel
    decreases ss.len(),
{
    if ss.len() == 0 {
        m
    } else {
        pm_append_all(pm_append_store(m, ss[0], non_temporal), ss.drop_first(), non_temporal)
    }
}

/// What `write` does to the model: buffer the boundary-split sub-stores.
pub open spec fn pm_write(m: PmModel, addr: int, data: Seq<u8>, non_temporal: bool) -> PmModel {
    pm_append_all(m, split_at_8(addr, data), non_temporal)
}

/// Mark one line: set its flushed count and make it pending, if it exists.
pub open spec fn pm_mark_line(m: PmModel, l: int, limit: Option<int>) -> PmModel {
    if table_has(m.table, l) {
        let line = table_at(m.table, l);
        let line2 = LineModel {
            writes: line.writes,
            flushed: match limit {
                Some(k) => k,
                None => line.writes.len() as int,
            },
        };
        let pend2 = if m.pending.contains(l) {
            m.pending
        } else {
            m.pending.push(l)
        };
        PmModel { table: table_update(m.table, l, line2), pending: pend2, ..m }
    } else {
        m
    }
}

/// Mark `count` consecutive lines starting at `first`.
pub open spec fn pm_mark_lines(m: PmModel, first: int, count: nat, limit: Option<int>) -> PmModel
    decreases count,
{
    if count == 0 {
        m
    } else {
        pm_mark_lines(pm_mark_line(m, first, limit), first + 1, (count - 1) as nat, limit)
    }
}

/// What `clwb` does to the model: mark every line of the 64-byte cache
/// line holding `addr`.
pub open spec fn pm_clwb(m: PmModel, addr: int, limit: Option<int>) -> PmModel {
    let base = addr - addr % 64;
    pm_mark_lines(m, base / m.g, (64int / m.g) as nat, limit)
}

/// Make one line durable: apply its flushed prefix to the image, drop the
/// prefix, and delete the line if nothing remains.
pub open spec fn pm_fence_line(m: PmModel, l: int) -> PmModel {
    if table_has(m.table, l) {
        let line = table_at(m.table, l);
        let persisted2 = apply_stores(m.persisted, line.writes.take(line.flushed));
        let rest = line.writes.skip(line.flushed);
        let table2 = if rest.len() == 0 {
            table_remove(m.table, l)
        } else {
            table_update(m.table, l, LineModel { writes: rest, flushed: 0 })
        };
        PmModel { persisted: persisted2, table: table2, ..m }
    } else {
        m
    }
}

/// Make each listed line durable, in order.
pub open spec fn pm_fence_rec(m: PmModel, lines: Seq<int>) -> PmModel
    decreases lines.len(),
{
    if lines.len() == 0 {
        m
    } else {
        pm_fence_rec(pm_fence_line(m, lines[0]), lines.drop_first())
    }
}

/// What `fence` does to the model: consume every pending line, making its
/// flushed prefix durable.
pub open spec fn pm_fence(m: PmModel) -> PmModel {
    pm_fence_rec(PmModel { pending: Seq::empty(), ..m }, m.pending)
}

/// A store that does not cross an 8-byte boundary lies inside its line,
/// for a line granularity of 8 or 64 bytes.
pub proof fn lemma_piece_fits(start: int, len: int, g: int)
    requires
        g == 8 || g == 64,
        0 <= start,
        1 <= len,
        start % 8 + len <= 8,
    ensures
        line_of(start, g) * g <= start,
        start + len <= (line_of(start, g) + 1) * g,
        start + len <= start - start % 8 + 8,
{
    let q = start / g;
    let r = start % g;
    let r8 = start % 8;
    vstd::arithmetic::div_mod::lemma_fundamental_div_mod(start, g);
    vstd::arithmetic::div_mod::lemma_mod_bound(start, g);
    vstd::arithmetic::div_mod::lemma_fundamental_div_mod(start, 8);
    vstd::arithmetic::div_mod::lemma_mod_bound(start, 8);
    if g == 8 {
        assert(q * g <= start);
        assert(start + len <= (q + 1) * g);
    } else {
        // r and start agree modulo 8, so r - r8 is a multiple of 8 below 64
        let k = start / 8 - 8 * q;
        assert(r - r8 == 8 * k);
        assert(0 <= 8 * k <= 63);
        assert(k <= 7);
        assert(r + len <= r - r8 + 8 <= 8 * 7 + 8);
        assert(start + len <= (q + 1) * g);
    }
}

/// Appending a fitting store preserves the device invariant and touches
/// neither the durable image nor the granularity.
pub proof fn lemma_append_store_wf(m: PmModel, s: StoreModel, non_temporal: bool)
    requires
        m.wf(),
        store_fits_line(s, line_of(s.start, m.g), m.g),
        s.end() <= m.persisted.len(),
    ensures
        pm_append_store(m, s, non_temporal).wf(),
        pm_append_store(m, s, non_temporal).persisted == m.persisted,
        pm_append_store(m, s, non_temporal).g == m.g,
{
    let l = line_of(s.start, m.g);
    let m2 = pm_append_store(m, s, non_temporal);
    if table_has(m.table, l) {
        let i = table_index(m.table, l);
        assert(0 <= i < m.table.len() && m.table[i].0 == l);
        let line = table_at(m.table, l);
        let w2 = line.writes.push(s);
        let line2 = LineModel {
            writes: w2,
            flushed: if non_temporal {
                w2.len() as int
            } else {
                line.flushed
            },
        };
        assert forall|x: int| true implies {
            &&& table_has(m2.table, x) == table_has(m.table, x)
            &&& (table_has(m.table, x) ==> table_at(m2.table, x) == if x == l {
                line2
            } else {
                table_at(m.table, x)
            })
        } by {
            lemma_table_update_at(m.table, l, line2, x);
        }
        lemma_table_update_at(m.table, l, line2, l);
        assert(m.line_ok(i));
        assert forall|p: int| 0 <= p < m2.table.len() implies m2.line_ok(p) by {
            if p == i {
                assert(m2.table[p] == (l, line2));
                assert(forall|j: int|
                    0 <= j < line.writes.len() ==> line.writes[j] == w2[j]);
            } else {
                assert(m2.table[p] == m.table[p]);
                assert(m.line_ok(p));
            }
        }
        assert(m2.table_wf());
        assert forall|p: int| 0 <= p < m2.pending.len() implies table_has(
            m2.table,
            #[trigger] m2.pending[p],
        ) && table_at(m2.table, m2.pending[p]).flushed > 0 by {
            if p < m.pending.len() {
                assert(m.pending[p] == m2.pending[p]);
            } else {
                assert(m2.pending[p] == l);
            }
        }
        assert forall|p: int, q: int| 0 <= p < q < m2.pending.len() implies m2.pending[p]
            != m2.pending[q] by {
            if q == m.pending.len() {
                assert(!m.pending.contains(l));
                assert(m.pending[p] != l);
            }
        }
        assert(m2.pending_wf());
    } else {
        let line2 = LineModel {
            writes: seq![s],
            flushed: if non_temporal {
                1
            } else {
                0
            },
        };
        assert forall|x: int| true implies {
            &&& table_has(m2.table, x) == (table_has(m.table, x) || x == l)
            &&& (table_has(m.table, x) ==> table_at(m2.table, x) == table_at(m.table, x))
        } by {
            lemma_table_push(m.table, l, line2, x);
        }
        lemma_table_push(m.table, l, line2, l);
        assert(table_at(m2.table, l) == line2);
        assert forall|p: int| 0 <= p < m2.table.len() implies m2.line_ok(p) by {
            if p < m.table.len() {
                assert(m2.table[p] == m.table[p]);
                assert(m.line_ok(p));
            } else {
                assert(m2.table[p] == (l, line2));
                assert(line2.writes[0] == s);
            }
        }
        assert(m2.table_wf());
        assert forall|p: int| 0 <= p < m2.pending.len() implies table_has(
            m2.table,
            #[trigger] m2.pending[p],
        ) && table_at(m2.table, m2.pending[p]).flushed > 0 by {
            if p < m.pending.len() {
                assert(m.pending[p] == m2.pending[p]);
                lemma_table_push(m.table, l, line2, m.pending[p]);
            } else {
                assert(m2.pending[p] == l);
            }
        }
        assert forall|p: int, q: int| 0 <= p < q < m2.pending.len() implies m2.pending[p]
            != m2.pending[q] by {
            if q == m.pending.len() {
                assert(!m.pending.contains(l));
                assert(m.pending[p] != l);
            }
        }
        assert(m2.pending_wf());
    }
}

/// An `Option<usize>` argument as the model sees it.
pub open spec fn opt_usize_as_int(o: Option<usize>) -> Option<int> {
    match o {
        Some(k) => Some(k as int),
        None => None,
    }
}

/// An explicit flush limit is admissible for line `l`: if the line
/// exists, the limit addresses a non-empty prefix of its buffer.
pub open spec fn limit_ok_for_line(m: PmModel, l: int, limit: Option<int>) -> bool {
    match limit {
        Some(k) => table_has(m.table, l) ==> 1 <= k <= table_at(m.table, l).writes.len(),
        None => true,
    }
}

/// An explicit flush limit is admissible for every line of the cache
/// line holding `addr`.
pub open spec fn clwb_limit_ok(m: PmModel, addr: int, limit: Option<int>) -> bool {
    forall|l: int|
        line_of(addr - addr % 64, m.g) <= l < line_of(addr - addr % 64, m.g) + 64int / m.g
            ==> #[trigger] limit_ok_for_line(m, l, limit)
}

/// Marking one line preserves the invariant, the image and the buffered
/// stores; only the marked line's flushed count and the pending list move.
pub proof fn lemma_mark_line_props(m: PmModel, l: int, limit: Option<int>)
    requires
        m.wf(),
        limit_ok_for_line(m, l, limit),
    ensures
        pm_mark_line(m, l, limit).wf(),
        pm_mark_line(m, l, limit).persisted == m.persisted,
        pm_mark_line(m, l, limit).g == m.g,
        pm_mark_line(m, l, limit).table.len() == m.table.len(),
        forall|k: int|
            0 <= k < m.table.len() ==> (#[trigger] pm_mark_line(m, l, limit).table[k]).0
                == m.table[k].0 && pm_mark_line(m, l, limit).table[k].1.writes
                == m.table[k].1.writes,
        forall|k: int|
            0 <= k < m.table.len() && m.table[k].0 != l ==> #[trigger] pm_mark_line(
                m,
                l,
                limit,
            ).table[k] == m.table[k],
        forall|x: int|
            table_has(pm_mark_line(m, l, limit).table, x) == #[trigger] table_has(m.table, x),
        forall|x: int|
            #[trigger] table_has(m.table, x) ==> table_at(pm_mark_line(m, l, limit).table, x).writes
                == table_at(m.table, x).writes,
        forall|x: int|
            x != l && #[trigger] table_has(m.table, x) ==> table_at(
                pm_mark_line(m, l, limit).table,
                x,
            ) == table_at(m.table, x),
        table_has(m.table, l) ==> table_at(pm_mark_line(m, l, limit).table, l).flushed == (
        match limit {
            Some(k) => k,
            None => table_at(m.table, l).writes.len() as int,
        }),
        forall|x: int|
            pm_mark_line(m, l, limit).pending.contains(x) == (m.pending.contains(x) || (x == l
                && table_has(m.table, x))),
        forall|x: int|
            m.pending.contains(x) ==> pm_mark_line(m, l, limit).pending.contains(x),
{
    let m2 = pm_mark_line(m, l, limit);
    if table_has(m.table, l) {
        let line = table_at(m.table, l);
        let line2 = LineModel {
            writes: line.writes,
            flushed: match limit {
                Some(k) => k,
                None => line.writes.len() as int,
            },
        };
        let i = table_index(m.table, l);
        assert(0 <= i < m.table.len() && m.table[i].0 == l);
        assert forall|x: int| true implies {
            &&& table_has(m2.table, x) == table_has(m.table, x)
            &&& (table_has(m.table, x) ==> table_at(m2.table, x) == if x == l {
                line2
            } else {
                table_at(m.table, x)
            })
        } by {
            lemma_table_update_at(m.table, l, line2, x);
        }
        assert forall|p: int| 0 <= p < m2.table.len() implies m2.line_ok(p) by {
            assert(m.line_ok(p));
            if p == i {
                assert(m2.table[p] == (l, line2));
            } else {
                assert(m2.table[p] == m.table[p]);
            }
        }
        if !m.pending.contains(l) {
            assert(forall|p: int|
                0 <= p < m.pending.len() ==> #[trigger] m2.pending[p] == m.pending[p]);
            assert(m2.pending[m.pending.len() as int] == l);
            assert forall|x: int| m2.pending.contains(x) implies (m.pending.contains(x) || (x == l
                && table_has(m.table, x))) by {
                let p = choose|p: int| 0 <= p < m2.pending.len() && m2.pending[p] == x;
                if p < m.pending.len() {
                    assert(m.pending[p] == x);
                }
            }
            assert forall|x: int| m.pending.contains(x) implies m2.pending.contains(x) by {
                let p = choose|p: int| 0 <= p < m.pending.len() && m.pending[p] == x;
                assert(m2.pending[p] == x);
            }
            assert(m2.pending.contains(l));
        }
        assert forall|p: int, q: int| 0 <= p < q < m2.pending.len() implies m2.pending[p]
            != m2.pending[q] by {
            if q == m.pending.len() {
                assert(!m.pending.contains(l));
                assert(m.pending[p] != l);
            }
        }
        assert forall|p: int| 0 <= p < m2.pending.len() implies table_has(
            m2.table,
            #[trigger] m2.pending[p],
        ) && table_at(m2.table, m2.pending[p]).flushed > 0 by {
            let x = m2.pending[p];
            assert(m.line_ok(i));
            assert(line.writes.len() > 0);
            if p < m.pending.len() {
                assert(m.pending[p] == x);
                assert(m.pending.contains(x));
                assert(table_has(m.table, x));
                assert(table_at(m.table, x).flushed > 0);
                if x == l {
                    assert(table_at(m2.table, l) == line2);
                    assert(line2.flushed > 0);
                } else {
                    assert(table_at(m2.table, x) == table_at(m.table, x));
                }
            } else {
                assert(x == l);
                assert(table_at(m2.table, l) == line2);
                assert(line2.flushed > 0);
            }
        }
        assert(m2.wf());
    }
}

/// Unrolling the last line of a consecutive marking.
pub proof fn lemma_mark_lines_snoc(m: PmModel, first: int, count: nat, limit: Option<int>)
    ensures
        pm_mark_lines(m, first, (count + 1) as nat, limit) == pm_mark_line(
            pm_mark_lines(m, first, count, limit),
            first + count,
            limit,
        ),
    decreases count,
{
    let m1 = pm_mark_line(m, first, limit);
    if count == 0 {
        assert(pm_mark_lines(m, first, 1nat, limit) == pm_mark_lines(m1, first + 1, 0nat, limit));
        assert(pm_mark_lines(m1, first + 1, 0nat, limit) == m1);
        assert(pm_mark_lines(m, first, 0nat, limit) == m);
    } else {
        lemma_mark_lines_snoc(m1, first + 1, (count - 1) as nat, limit);
        assert(pm_mark_lines(m, first, (count + 1) as nat, limit) == pm_mark_lines(
            m1,
            first + 1,
            count,
            limit,
        ));
        assert(pm_mark_lines(m, first, count, limit) == pm_mark_lines(
            m1,
            first + 1,
            (count - 1) as nat,
            limit,
        ));
    }
}

/// Consecutive marking preserves the invariant and the buffered stores;
/// each present line in the range ends with the requested flushed count
/// and pending; lines outside the range are untouched.
pub proof fn lemma_mark_lines_props(m: PmModel, first: int, count: nat, limit: Option<int>)
    requires
        m.wf(),
        forall|l: int| first <= l < first + count ==> #[trigger] limit_ok_for_line(m, l, limit),
    ensures
        pm_mark_lines(m, first, count, limit).wf(),
        pm_mark_lines(m, first, count, limit).persisted == m.persisted,
        pm_mark_lines(m, first, count, limit).g == m.g,
        pm_mark_lines(m, first, count, limit).table.len() == m.table.len(),
        forall|k: int|
            0 <= k < m.table.len() ==> (#[trigger] pm_mark_lines(m, first, count, limit).table[k]).0
                == m.table[k].0 && pm_mark_lines(m, first, count, limit).table[k].1.writes
                == m.table[k].1.writes,
        forall|k: int|
            0 <= k < m.table.len() && !(first <= m.table[k].0 < first + count)
                ==> #[trigger] pm_mark_lines(m, first, count, limit).table[k] == m.table[k],
        forall|x: int|
            table_has(pm_mark_lines(m, first, count, limit).table, x) == #[trigger] table_has(
                m.table,
                x,
            ),
        forall|x: int|
            #[trigger] table_has(m.table, x) ==> table_at(
                pm_mark_lines(m, first, count, limit).table,
                x,
            ).writes == table_at(m.table, x).writes,
        forall|x: int|
            !(first <= x < first + count) && #[trigger] table_has(m.table, x) ==> table_at(
                pm_mark_lines(m, first, count, limit).table,
                x,
            ) == table_at(m.table, x),
        forall|x: int|
            first <= x < first + count && #[trigger] table_has(m.table, x) ==> table_at(
                pm_mark_lines(m, first, count, limit).table,
                x,
            ).flushed == (match limit {
                Some(k) => k,
                None => table_at(m.table, x).writes.len() as int,
            }),
        forall|x: int|
            pm_mark_lines(m, first, count, limit).pending.contains(x) == (m.pending.contains(x)
                || (first <= x < first + count && table_has(m.table, x))),
    decreases count,
{
    if count == 0 {
    } else {
        let m1 = pm_mark_line(m, first, limit);
        lemma_mark_line_props(m, first, limit);
        assert forall|l: int| first + 1 <= l < first + count implies #[trigger] limit_ok_for_line(
            m1,
            l,
            limit,
        ) by {
            assert(limit_ok_for_line(m, l, limit));
        }
        lemma_mark_lines_props(m1, first + 1, (count - 1) as nat, limit);
    }
}

/// Making one line durable touches only that line; keys stay unique.
pub proof fn lemma_fence_line_props(m: PmModel, l: int)
    requires
        m.table_wf(),
        m.persisted.len() <= usize::MAX,
    ensures
        pm_fence_line(m, l).table_wf(),
        pm_fence_line(m, l).persisted.len() == m.persisted.len(),
        pm_fence_line(m, l).g == m.g,
        pm_fence_line(m, l).pending == m.pending,
        forall|x: int|
            x != l ==> table_has(pm_fence_line(m, l).table, x) == #[trigger] table_has(m.table, x),
        forall|x: int|
            x != l && #[trigger] table_has(m.table, x) ==> table_at(pm_fence_line(m, l).table, x)
                == table_at(m.table, x),
        !table_has(m.table, l) ==> pm_fence_line(m, l) == m,
        table_has(m.table, l) ==> {
            let line = table_at(m.table, l);
            let rest = line.writes.skip(line.flushed);
            &&& pm_fence_line(m, l).persisted == apply_stores(
                m.persisted,
                line.writes.take(line.flushed),
            )
            &&& (rest.len() == 0 ==> !table_has(pm_fence_line(m, l).table, l))
            &&& (rest.len() > 0 ==> table_has(pm_fence_line(m, l).table, l) && table_at(
                pm_fence_line(m, l).table,
                l,
            ) == LineModel { writes: rest, flushed: 0 })
        },
{
    let m2 = pm_fence_line(m, l);
    if table_has(m.table, l) {
        let i = table_index(m.table, l);
        assert(0 <= i < m.table.len() && m.table[i].0 == l);
        assert(m.line_ok(i));
        let line = table_at(m.table, l);
        let rest = line.writes.skip(line.flushed);
        lemma_apply_stores_len(m.persisted, line.writes.take(line.flushed));
        if rest.len() == 0 {
            assert forall|x: int| true implies {
                &&& (x != l ==> table_has(m2.table, x) == table_has(m.table, x))
                &&& (x != l && table_has(m.table, x) ==> table_at(m2.table, x) == table_at(
                    m.table,
                    x,
                ))
            } by {
                lemma_table_remove(m.table, l, x);
            }
            lemma_table_remove(m.table, l, l);
            assert(table_keys_unique(m2.table));
            assert forall|p: int| 0 <= p < m2.table.len() implies m2.line_ok(p) by {
                let p1 = if p < i {
                    p
                } else {
                    p + 1
                };
                assert(m2.table[p] == m.table[p1]);
                assert(m.line_ok(p1));
            }
        } else {
            let line2 = LineModel { writes: rest, flushed: 0 };
            assert forall|x: int| true implies {
                &&& table_has(m2.table, x) == table_has(m.table, x)
                &&& (table_has(m.table, x) ==> table_at(m2.table, x) == if x == l {
                    line2
                } else {
                    table_at(m.table, x)
                })
            } by {
                lemma_table_update_at(m.table, l, line2, x);
            }
            assert forall|p: int| 0 <= p < m2.table.len() implies m2.line_ok(p) by {
                assert(m.line_ok(p));
                if p == i {
                    assert(m2.table[p] == (l, line2));
                    assert(forall|j: int|
                        0 <= j < rest.len() ==> rest[j] == line.writes[j + line.flushed]);
                } else {
                    assert(m2.table[p] == m.table[p]);
                }
            }
        }
    }
}

/// Unrolling the last line of a fence.
pub proof fn lemma_fence_rec_snoc(m: PmModel, s: Seq<int>, l: int)
    ensures
        pm_fence_rec(m, s.push(l)) == pm_fence_line(pm_fence_rec(m, s), l),
    decreases s.len(),
{
    if s.len() == 0 {
        assert(s.push(l)[0] == l);
        assert(s.push(l).drop_first() =~= Seq::<int>::empty());
        assert(pm_fence_rec(m, s.push(l)) == pm_fence_rec(
            pm_fence_line(m, l),
            s.push(l).drop_first(),
        ));
        assert(pm_fence_rec(pm_fence_line(m, l), Seq::<int>::empty()) == pm_fence_line(m, l));
        assert(pm_fence_rec(m, s) == m);
    } else {
        let m1 = pm_fence_line(m, s[0]);
        assert(s.push(l)[0] == s[0]);
        assert(s.push(l).drop_first() =~= s.drop_first().push(l));
        lemma_fence_rec_snoc(m1, s.drop_first(), l);
        assert(pm_fence_rec(m, s.push(l)) == pm_fence_rec(m1, s.drop_first().push(l)));
        assert(pm_fence_rec(m, s) == pm_fence_rec(m1, s.drop_first()));
    }
}

/// Fencing a list of distinct lines empties each listed line's flushed
/// prefix and touches no other line.
pub proof fn lemma_fence_rec_props(m: PmModel, lines: Seq<int>)
    requires
        m.table_wf(),
        m.persisted.len() <= usize::MAX,
        forall|p: int, q: int| 0 <= p < q < lines.len() ==> lines[p] != lines[q],
    ensures
        pm_fence_rec(m, lines).table_wf(),
        pm_fence_rec(m, lines).persisted.len() == m.persisted.len(),
        pm_fence_rec(m, lines).g == m.g,
        pm_fence_rec(m, lines).pending == m.pending,
        forall|x: int|
            !lines.contains(x) ==> table_has(pm_fence_rec(m, lines).table, x)
                == #[trigger] table_has(m.table, x),
        forall|x: int|
            !lines.contains(x) && #[trigger] table_has(m.table, x) ==> table_at(
                pm_fence_rec(m, lines).table,
                x,
            ) == table_at(m.table, x),
        forall|x: int|
            lines.contains(x) && #[trigger] table_has(m.table, x) ==> {
                let line = table_at(m.table, x);
                let rest = line.writes.skip(line.flushed);
                &&& (rest.len() == 0 ==> !table_has(pm_fence_rec(m, lines).table, x))
                &&& (rest.len() > 0 ==> table_has(pm_fence_rec(m, lines).table, x) && table_at(
                    pm_fence_rec(m, lines).table,
                    x,
                ) == LineModel { writes: rest, flushed: 0 })
            },
        forall|x: int|
            lines.contains(x) && !table_has(m.table, x) ==> !table_has(
                pm_fence_rec(m, lines).table,
                x,
            ),
    decreases lines.len(),
{
    if lines.len() == 0 {
    } else {
        let l0 = lines[0];
        let m1 = pm_fence_line(m, l0);
        lemma_fence_line_props(m, l0);
        let tail = lines.drop_first();
        assert(forall|p: int, q: int| 0 <= p < q < tail.len() ==> tail[p] != tail[q]);
        lemma_fence_rec_props(m1, tail);
        let mr = pm_fence_rec(m, lines);
        assert(mr == pm_fence_rec(m1, tail));
        assert forall|x: int| lines.contains(x) implies (x == l0 || tail.contains(x)) by {
            let p = choose|p: int| 0 <= p < lines.len() && lines[p] == x;
            if p > 0 {
                assert(tail[p - 1] == x);
            }
        }
        assert forall|x: int| tail.contains(x) implies lines.contains(x) && x != l0 by {
            let p = choose|p: int| 0 <= p < tail.len() && tail[p] == x;
            assert(lines[p + 1] == x);
            assert(lines[0] != lines[p + 1]);
        }
        assert(!tail.contains(l0));
        assert forall|x: int| lines.contains(x) && #[trigger] table_has(m.table, x) implies {
            let line = table_at(m.table, x);
            let rest = line.writes.skip(line.flushed);
            &&& (rest.len() == 0 ==> !table_has(mr.table, x))
            &&& (rest.len() > 0 ==> table_has(mr.table, x) && table_at(mr.table, x) == LineModel {
                writes: rest,
                flushed: 0,
            })
        } by {
            let line = table_at(m.table, x);
            let rest = line.writes.skip(line.flushed);
            if x == l0 {
                if rest.len() == 0 {
                    assert(!table_has(m1.table, l0));
                    assert(!table_has(mr.table, l0));
                } else {
                    assert(table_at(m1.table, l0) == LineModel { writes: rest, flushed: 0 });
                    assert(LineModel { writes: rest, flushed: 0 }.writes.skip(0) =~= rest);
                    assert(table_at(mr.table, l0) == LineModel { writes: rest, flushed: 0 });
                }
            } else {
                assert(tail.contains(x));
                assert(table_has(m1.table, x) && table_at(m1.table, x) == line);
            }
        }
    }
}

/// A `clwb` at offset `l * g` covers line `l` itself.
pub proof fn lemma_clwb_covers_own_line(m: PmModel, l: int)
    requires
        m.g == 8 || m.g == 64,
        0 <= l,
        l * m.g <= usize::MAX,
    ensures
        ({
            let addr = l * m.g;
            let base = addr - addr % 64;
            base / m.g <= l < base / m.g + 64int / m.g
        }),
{
    let g = m.g;
    let addr = l * g;
    let base = addr - addr % 64;
    vstd::arithmetic::div_mod::lemma_fundamental_div_mod(addr, 64);
    vstd::arithmetic::div_mod::lemma_mod_bound(addr, 64);
    let q = addr / 64;
    assert(base == 64 * q);
    if g == 64 {
        vstd::arithmetic::div_mod::lemma_fundamental_div_mod_converse(addr, 64, l, 0);
        assert(q == l);
        vstd::arithmetic::div_mod::lemma_fundamental_div_mod_converse(base, 64, l, 0);
        assert(base / g == l);
    } else {
        vstd::arithmetic::div_mod::lemma_fundamental_div_mod_converse(base, 8, 8 * q, 0);
        assert(base / 8 == 8 * q);
        assert(8 * l - 64 * q == addr % 64);
        assert(0 <= addr % 64 < 64);
        assert(8 * (l - 8 * q) == addr % 64);
        assert(0 <= l - 8 * q < 8);
    }
}

/// `img` with every buffered store of every listed line applied, lines
/// in table order, stores in line order.
pub open spec fn apply_lines(img: Seq<u8>, t: Seq<(int, LineModel)>) -> Seq<u8>
    decreases t.len(),
{
    if t.len() == 0 {
        img
    } else {
        apply_lines(apply_stores(img, t[0].1.writes), t.drop_first())
    }
}

/// Applying one more line folds onto the accumulated image.
pub proof fn lemma_apply_lines_snoc(img: Seq<u8>, t: Seq<(int, LineModel)>, e: (int, LineModel))
    ensures
        apply_lines(img, t.push(e)) == apply_stores(apply_lines(img, t), e.1.writes),
    decreases t.len(),
{
    if t.len() == 0 {
        assert(t.push(e)[0] == e);
        assert(t.push(e).drop_first() =~= Seq::<(int, LineModel)>::empty());
        assert(apply_lines(apply_stores(img, e.1.writes), Seq::<(int, LineModel)>::empty())
            == apply_stores(img, e.1.writes));
        assert(apply_lines(img, t) == img);
    } else {
        assert(t.push(e)[0] == t[0]);
        assert(t.push(e).drop_first() =~= t.drop_first().push(e));
        lemma_apply_lines_snoc(apply_stores(img, t[0].1.writes), t.drop_first(), e);
    }
}

/// Applying lines reads only the buffered stores, position by position.
pub proof fn lemma_apply_lines_same_writes(
    img: Seq<u8>,
    t1: Seq<(int, LineModel)>,
    t2: Seq<(int, LineModel)>,
)
    requires
        t1.len() == t2.len(),
        forall|k: int| 0 <= k < t1.len() ==> (#[trigger] t1[k]).1.writes == t2[k].1.writes,
    ensures
        apply_lines(img, t1) == apply_lines(img, t2),
    decreases t1.len(),
{
    if t1.len() > 0 {
        assert(t1[0].1.writes == t2[0].1.writes);
        assert(forall|k: int|
            0 <= k < t1.drop_first().len() ==> (#[trigger] t1.drop_first()[k]).1.writes
                == t2.drop_first()[k].1.writes);
        lemma_apply_lines_same_writes(
            apply_stores(img, t1[0].1.writes),
            t1.drop_first(),
            t2.drop_first(),
        );
    }
}

/// The *everything persisted* image: the durable image with every
/// unpersisted store applied, flushed or not.
pub open spec fn pm_everything_image(m: PmModel) -> Seq<u8> {
    apply_lines(m.persisted, m.table)
}

/// `img` with, for each listed line in turn, the first `ks[i]` stores of
/// line `lines[i]` applied.
pub open spec fn overlay_prefixes(
    img: Seq<u8>,
    m: PmModel,
    lines: Seq<int>,
    ks: Seq<int>,
) -> Seq<u8>
    decreases lines.len(),
{
    if lines.len() == 0 {
        img
    } else {
        overlay_prefixes(
            apply_stores(img, table_at(m.table, lines[0]).writes.take(ks[0])),
            m,
            lines.drop_first(),
            ks.drop_first(),
        )
    }
}

/// A choice of buffered lines and, for each, a non-empty prefix of its
/// stores.
pub open spec fn pm_valid_partial(m: PmModel, lines: Seq<int>, ks: Seq<int>) -> bool {
    &&& lines.len() == ks.len()
    &&& lines.len() >= 1
    &&& forall|i: int|
        0 <= i < lines.len() ==> table_has(m.table, #[trigger] lines[i]) && 1 <= ks[i]
            <= table_at(m.table, lines[i]).writes.len()
}

/// A *partial* crash image: the durable image with the chosen line
/// prefixes applied in choice order.
pub open spec fn pm_partial_image(m: PmModel, lines: Seq<int>, ks: Seq<int>) -> Seq<u8> {
    overlay_prefixes(m.persisted, m, lines, ks)
}

/// Overlaying one more line prefix folds onto the accumulated image.
pub proof fn lemma_overlay_prefixes_snoc(
    img: Seq<u8>,
    m: PmModel,
    lines: Seq<int>,
    ks: Seq<int>,
    l: int,
    k: int,
)
    requires
        lines.len() == ks.len(),
    ensures
        overlay_prefixes(img, m, lines.push(l), ks.push(k)) == apply_stores(
            overlay_prefixes(img, m, lines, ks),
            table_at(m.table, l).writes.take(k),
        ),
    decreases lines.len(),
{
    if lines.len() == 0 {
        assert(lines.push(l)[0] == l);
        assert(ks.push(k)[0] == k);
        assert(lines.push(l).drop_first() =~= Seq::<int>::empty());
        assert(ks.push(k).drop_first() =~= Seq::<int>::empty());
        assert(overlay_prefixes(img, m, lines, ks) == img);
        assert(overlay_prefixes(
            apply_stores(img, table_at(m.table, l).writes.take(k)),
            m,
            Seq::<int>::empty(),
            Seq::<int>::empty(),
        ) == apply_stores(img, table_at(m.table, l).writes.take(k)));
    } else {
        assert(lines.push(l)[0] == lines[0]);
        assert(ks.push(k)[0] == ks[0]);
        assert(lines.push(l).drop_first() =~= lines.drop_first().push(l));
        assert(ks.push(k).drop_first() =~= ks.drop_first().push(k));
        lemma_overlay_prefixes_snoc(
            apply_stores(img, table_at(m.table, lines[0]).writes.take(ks[0])),
            m,
            lines.drop_first(),
            ks.drop_first(),
            l,
            k,
        );
    }
}

/// Every digest in the collection is the digest of some partial crash
/// image of the device.
pub open spec fn all_partial_digests(hs: CrashHashSet, m: PmModel) -> bool {
    forall|x: int|
        0 <= x < hs.digests().len() ==> exists|lines: Seq<int>, ks: Seq<int>|
            pm_valid_partial(m, lines, ks) && #[trigger] hs.digests()[x] == blake3_of(
                pm_partial_image(m, lines, ks),
            )
}

/// Whether the powerset of `n` lines stays within the subset cap, so
/// that subsets are enumerated exhaustively rather than sampled.
fn small_powerset(n: usize) -> (r: bool)
    ensures
        r ==> n < 16,
{
    let mut p: usize = 1;
    let mut i: usize = 0;
    while i < n && p <= MAX_UNPERSISTED_SUBSETS
        invariant
            i <= n,
            1 <= p <= 2 * MAX_UNPERSISTED_SUBSETS,
            p >= i + 1,
        decreases n - i,
    {
        p = p * 2;
        i += 1;
    }
    i == n && p <= MAX_UNPERSISTED_SUBSETS + 1
}

/// After a fence nothing is pending, and a line that was pending has
/// lost exactly its flushed prefix: its remaining stores are the old
/// ones past the old flushed mark with a reset mark, and a line that was
/// wholly flushed is gone.
pub proof fn lemma_fence_clears_marked_line(m: PmModel, l: int)
    requires
        m.wf(),
        m.pending.contains(l),
    ensures
        pm_fence(m).pending == Seq::<int>::empty(),
        table_has(m.table, l),
        ({
            let line = table_at(m.table, l);
            let rest = line.writes.skip(line.flushed);
            &&& (rest.len() == 0 ==> !table_has(pm_fence(m).table, l))
            &&& (rest.len() > 0 ==> table_has(pm_fence(m).table, l) && table_at(
                pm_fence(m).table,
                l,
            ) == LineModel { writes: rest, flushed: 0 })
        }),
{
    let p = choose|p: int| 0 <= p < m.pending.len() && m.pending[p] == l;
    assert(table_has(m.table, l));
    let mstart = PmModel { pending: Seq::<int>::empty(), ..m };
    assert forall|i2: int| 0 <= i2 < mstart.table.len() implies mstart.line_ok(i2) by {
        assert(m.line_ok(i2));
    }
    assert(mstart.table_wf());
    lemma_fence_rec_props(mstart, m.pending);
    assert(pm_fence(m).pending =~= Seq::<int>::empty());
}

/// The line number of any offset lies in the line range of its own
/// 64-byte cache line.
proof fn lemma_line_in_own_cache_line(addr: int, g: int)
    requires
        g == 8 || g == 64,
        0 <= addr,
    ensures
        ({
            let base = addr - addr % 64;
            base / g <= addr / g < base / g + 64int / g
        }),
{
    let base = addr - addr % 64;
    vstd::arithmetic::div_mod::lemma_fundamental_div_mod(addr, 64);
    vstd::arithmetic::div_mod::lemma_mod_bound(addr, 64);
    let q = addr / 64;
    let r64 = addr % 64;
    assert(base == 64 * q);
    if g == 64 {
        vstd::arithmetic::div_mod::lemma_fundamental_div_mod_converse(base, 64, q, 0);
        vstd::arithmetic::div_mod::lemma_fundamental_div_mod_converse(addr, 64, q, r64);
        assert(base / g == q && addr / g == q);
    } else {
        vstd::arithmetic::div_mod::lemma_fundamental_div_mod(r64, 8);
        vstd::arithmetic::div_mod::lemma_mod_bound(r64, 8);
        let q8 = r64 / 8;
        let r8 = r64 % 8;
        assert(r64 == 8 * q8 + r8);
        assert(0 <= q8 < 8) by {
            assert(8 * q8 <= r64 < 64);
        }
        vstd::arithmetic::div_mod::lemma_fundamental_div_mod_converse(base, 8, 8 * q, 0);
        vstd::arithmetic::div_mod::lemma_fundamental_div_mod_converse(addr, 8, 8 * q + q8, r8);
        assert(base / g == 8 * q && addr / g == 8 * q + q8);
    }
}

/// Overlaying the same store twice is the same as overlaying it once.
proof fn lemma_overlay_idempotent(img: Seq<u8>, s: StoreModel)
    ensures
        overlay_store(overlay_store(img, s), s) == overlay_store(img, s),
{
    assert(overlay_store(overlay_store(img, s), s) =~= overlay_store(img, s));
}

/// One store to a quiet cache line, a mark of that cache line, and a
/// fence: the durable image gains exactly the store's bytes and the
/// buffer returns to its previous state.
proof fn lemma_quiet_write_mark_fence(m: PmModel, addr: int, data: Seq<u8>)
    requires
        m.wf(),
        1 <= data.len(),
        0 <= addr,
        addr % 8 + data.len() <= 8,
        addr + data.len() <= m.persisted.len(),
        m.pending == Seq::<int>::empty(),
        forall|x: int|
            line_of(addr - addr % 64, m.g) <= x < line_of(addr - addr % 64, m.g) + 64int / m.g
                ==> !table_has(m.table, x),
    ensures
        ({
            let m1 = pm_fence(pm_clwb(pm_write(m, addr, data, false), addr, None));
            &&& m1.persisted == overlay_store(m.persisted, StoreModel { start: addr, bytes: data })
            &&& m1.table == m.table
            &&& m1.pending == Seq::<int>::empty()
            &&& m1.g == m.g
            &&& m1.persisted.len() == m.persisted.len()
            &&& m1.wf()
        }),
{
    let s = StoreModel { start: addr, bytes: data };
    let base = addr - addr % 64;
    let first = base / m.g;
    let cnt = (64int / m.g) as nat;
    let l = line_of(addr, m.g);
    // the write buffers a single store on a fresh line
    vstd::arithmetic::div_mod::lemma_fundamental_div_mod(addr, 8);
    vstd::arithmetic::div_mod::lemma_mod_bound(addr, 8);
    vstd::arithmetic::div_mod::lemma_fundamental_div_mod_converse(
        addr + data.len() - 1,
        8,
        addr / 8,
        addr % 8 + data.len() - 1,
    );
    assert(split_at_8(addr, data) =~= seq![s]);
    let mw = pm_write(m, addr, data, false);
    assert(mw == pm_append_store(m, s, false)) by {
        let pieces = seq![s];
        assert(pieces.drop_first() =~= Seq::<StoreModel>::empty());
        assert(pm_append_all(m, pieces, false) == pm_append_all(
            pm_append_store(m, pieces[0], false),
            pieces.drop_first(),
            false,
        ));
        assert(pm_append_all(pm_append_store(m, s, false), Seq::<StoreModel>::empty(), false)
            == pm_append_store(m, s, false));
    }
    lemma_line_in_own_cache_line(addr, m.g);
    assert(first <= l < first + cnt);
    assert(!table_has(m.table, l));
    let line1 = LineModel { writes: seq![s], flushed: 0 };
    assert(mw.table == m.table.push((l, line1)));
    assert(mw.pending == m.pending);
    lemma_piece_fits(addr, data.len() as int, m.g);
    assert(store_fits_line(s, l, m.g));
    lemma_append_store_wf(m, s, false);
    assert(mw.wf());
    assert forall|x: int| true implies {
        &&& table_has(mw.table, x) == (table_has(m.table, x) || x == l)
        &&& (table_has(m.table, x) ==> table_at(mw.table, x) == table_at(m.table, x))
    } by {
        lemma_table_push(m.table, l, line1, x);
    }
    lemma_table_push(m.table, l, line1, l);
    assert(table_at(mw.table, l) == line1);
    // the mark makes exactly that line pending, wholly flushed
    let mc = pm_clwb(mw, addr, None);
    lemma_mark_lines_props(mw, first, cnt, None);
    assert(mc == pm_mark_lines(mw, first, cnt, None));
    assert(table_has(mc.table, l));
    assert(table_at(mc.table, l).writes == seq![s]);
    assert(table_at(mc.table, l).flushed == 1);
    assert(table_at(mc.table, l) == (LineModel { writes: seq![s], flushed: 1 }));
    assert forall|x: int| mc.pending.contains(x) implies x == l by {
        assert(m.pending.contains(x) || (first <= x < first + cnt && table_has(mw.table, x)));
        if m.pending.contains(x) {
            let px = choose|px: int| 0 <= px < m.pending.len() && m.pending[px] == x;
            assert(false);
        } else {
            assert(table_has(mw.table, x));
            if x != l {
                assert(table_has(m.table, x));
                assert(!table_has(m.table, x));
            }
        }
    }
    assert(mc.pending.contains(l));
    assert(mc.wf());
    assert(mc.pending =~= seq![l]) by {
        assert(mc.pending.len() >= 1);
        if mc.pending.len() > 1 {
            assert(mc.pending.contains(mc.pending[0]));
            assert(mc.pending.contains(mc.pending[1]));
            assert(mc.pending[0] == l && mc.pending[1] == l);
            assert(false);
        }
        assert(mc.pending[0] == l) by {
            assert(mc.pending.contains(mc.pending[0]));
        }
    }
    // the fence makes the store durable and drops the line
    let m1 = pm_fence(mc);
    let mstart = PmModel { pending: Seq::<int>::empty(), ..mc };
    assert(m1 == pm_fence_rec(mstart, mc.pending));
    assert(mc.pending[0] == l);
    assert(mc.pending.drop_first() =~= Seq::<int>::empty());
    assert(m1 == pm_fence_line(mstart, l)) by {
        assert(pm_fence_rec(mstart, mc.pending) == pm_fence_rec(
            pm_fence_line(mstart, mc.pending[0]),
            mc.pending.drop_first(),
        ));
        assert(pm_fence_rec(pm_fence_line(mstart, l), Seq::<int>::empty()) == pm_fence_line(
            mstart,
            l,
        ));
    }
    assert(table_has(mstart.table, l));
    let fline = table_at(mstart.table, l);
    assert(fline == (LineModel { writes: seq![s], flushed: 1 }));
    assert(fline.writes.take(fline.flushed) =~= seq![s]);
    assert(fline.writes.skip(fline.flushed) =~= Seq::<StoreModel>::empty());
    assert(m1.persisted == apply_stores(mstart.persisted, seq![s]));
    assert(m1.persisted == overlay_store(m.persisted, s)) by {
        assert(seq![s].drop_first() =~= Seq::<StoreModel>::empty());
        assert(apply_stores(mstart.persisted, seq![s]) == apply_stores(
            overlay_store(mstart.persisted, s),
            seq![s].drop_first(),
        ));
        assert(mstart.persisted == m.persisted);
    }
    assert(m1.table == table_remove(mstart.table, l));
    // removing the appended line restores the old table
    assert(m1.table == m.table) by {
        assert(table_keys_unique(mw.table));
        assert(mc.table.len() == mw.table.len() == m.table.len() + 1);
        assert(mc.table[m.table.len() as int].0 == mw.table[m.table.len() as int].0 == l);
        lemma_table_index_is(mc.table, l, m.table.len() as int);
        assert(table_index(mc.table, l) == m.table.len());
        assert forall|k: int| 0 <= k < m.table.len() implies mc.table[k] == m.table[k] by {
            assert(mw.table[k] == m.table[k]);
            if first <= m.table[k].0 < first + cnt {
                assert(table_has(m.table, m.table[k].0));
                assert(false);
            }
            assert(mc.table[k] == mw.table[k]);
        }
        assert(m1.table.len() == m.table.len());
        assert(m1.table =~= m.table);
    }
    assert(m1.pending == Seq::<int>::empty());
    assert(m1.g == m.g);
    assert(m1.persisted.len() == m.persisted.len()) by {
        assert(overlay_store(m.persisted, s).len() == m.persisted.len());
    }
    assert(m1.wf()) by {
        assert forall|i2: int| 0 <= i2 < m1.table.len() implies m1.line_ok(i2) by {
            assert(m.line_ok(i2));
        }
    }
}

/// Overlaying the same two disjoint stores again changes nothing.
proof fn lemma_overlay_two_idempotent(img: Seq<u8>, s1: StoreModel, s2: StoreModel)
    requires
        s1.end() <= s2.start,
    ensures
        overlay_store(
            overlay_store(overlay_store(overlay_store(img, s1), s2), s1),
            s2,
        ) == overlay_store(overlay_store(img, s1), s2),
{
    assert(overlay_store(overlay_store(overlay_store(overlay_store(img, s1), s2), s1), s2)
        =~= overlay_store(overlay_store(img, s1), s2));
}

/// One boundary-crossing store to a quiet cache line, a mark of that
/// cache line, and a fence: the durable image gains exactly the two
/// split pieces and the buffer returns to its previous state.  Stated
/// for 64-byte lines and a store inside a single line.
proof fn lemma_quiet_crossing_write_mark_fence(m: PmModel, addr: int, data: Seq<u8>)
    requires
        m.wf(),
        m.g == 64,
        1 <= data.len() <= 8,
        0 <= addr,
        addr % 8 + data.len() > 8,
        addr % 64 + data.len() <= 64,
        addr + data.len() <= m.persisted.len(),
        m.pending == Seq::<int>::empty(),
        !table_has(m.table, line_of(addr, 64)),
    ensures
        ({
            let m1 = pm_fence(pm_clwb(pm_write(m, addr, data, false), addr, None));
            let b = (addr / 8 + 1) * 8;
            let s1 = StoreModel { start: addr, bytes: data.take(b - addr) };
            let s2 = StoreModel { start: b, bytes: data.skip(b - addr) };
            &&& m1.persisted == overlay_store(overlay_store(m.persisted, s1), s2)
            &&& m1.table == m.table
            &&& m1.pending == Seq::<int>::empty()
            &&& m1.g == m.g
            &&& m1.persisted.len() == m.persisted.len()
            &&& m1.wf()
        }),
{
    let base = addr - addr % 64;
    let first = base / m.g;
    let cnt = (64int / m.g) as nat;
    let l = line_of(addr, 64);
    let b = (addr / 8 + 1) * 8;
    let s1 = StoreModel { start: addr, bytes: data.take(b - addr) };
    let s2 = StoreModel { start: b, bytes: data.skip(b - addr) };
    // the write splits into the two pieces
    vstd::arithmetic::div_mod::lemma_fundamental_div_mod(addr, 8);
    vstd::arithmetic::div_mod::lemma_mod_bound(addr, 8);
    vstd::arithmetic::div_mod::lemma_fundamental_div_mod_converse(
        addr + data.len() - 1,
        8,
        addr / 8 + 1,
        addr % 8 + data.len() - 9,
    );
    assert((addr + data.len() - 1) / 8 != addr / 8);
    assert(split_at_8(addr, data) =~= seq![s1, s2]);
    assert(b == addr + (8 - addr % 8));
    vstd::arithmetic::div_mod::lemma_fundamental_div_mod_converse(b, 8, addr / 8 + 1, 0);
    assert(b % 8 == 0);
    // both pieces land on line `l`
    vstd::arithmetic::div_mod::lemma_fundamental_div_mod(addr, 64);
    vstd::arithmetic::div_mod::lemma_mod_bound(addr, 64);
    let q = addr / 64;
    let r64 = addr % 64;
    assert(l == q) by {
        lemma_line_in_own_cache_line(addr, 64);
        vstd::arithmetic::div_mod::lemma_fundamental_div_mod_converse(base, 64, q, 0);
    }
    assert(first == q && cnt == 1) by {
        vstd::arithmetic::div_mod::lemma_fundamental_div_mod_converse(base, 64, q, 0);
    }
    assert(line_of(s2.start, 64) == q) by {
        // the second piece starts after the boundary but inside the line
        let r8 = addr % 8;
        let k = addr / 8 - 8 * q;
        assert(r64 - r8 == 8 * k);
        assert(0 <= 8 * k <= 63);
        assert(k <= 7);
        assert(b - 64 * q == r64 - r8 + 8 <= 64);
        assert(b - 64 * q < 64) by {
            if b - 64 * q == 64 {
                assert(r64 == 56 + r8);
                assert(r64 + data.len() <= 64);
                assert(r8 + data.len() <= 8);
                assert(false);
            }
        }
        vstd::arithmetic::div_mod::lemma_fundamental_div_mod_converse(
            s2.start,
            64,
            q,
            b - 64 * q,
        );
    }
    lemma_piece_fits(addr, (b - addr) as int, 64);
    assert(store_fits_line(s1, l, 64));
    lemma_piece_fits(b, data.len() - (b - addr), 64);
    assert(store_fits_line(s2, l, 64));
    // first append creates the line, second extends it
    let mw1 = pm_append_store(m, s1, false);
    let line1 = LineModel { writes: seq![s1], flushed: 0 };
    assert(mw1.table == m.table.push((l, line1)));
    assert(mw1.pending == m.pending);
    lemma_append_store_wf(m, s1, false);
    lemma_table_push(m.table, l, line1, l);
    assert(table_has(mw1.table, l) && table_at(mw1.table, l) == line1);
    let mw = pm_append_store(mw1, s2, false);
    let line2 = LineModel { writes: seq![s1, s2], flushed: 0 };
    assert(line1.writes.push(s2) =~= seq![s1, s2]);
    assert(mw.table == table_update(mw1.table, l, line2));
    assert(mw.pending == m.pending);
    lemma_append_store_wf(mw1, s2, false);
    assert(mw.wf());
    assert(pm_write(m, addr, data, false) == mw) by {
        let pieces = seq![s1, s2];
        assert(pieces[0] == s1);
        assert(pieces.drop_first() =~= seq![s2]);
        assert(seq![s2][0] == s2);
        assert(seq![s2].drop_first() =~= Seq::<StoreModel>::empty());
        assert(pm_append_all(m, pieces, false) == pm_append_all(mw1, pieces.drop_first(), false));
        assert(pm_append_all(mw1, seq![s2], false) == pm_append_all(
            mw,
            Seq::<StoreModel>::empty(),
            false,
        ));
    }
    assert forall|x: int| true implies {
        &&& table_has(mw.table, x) == (table_has(m.table, x) || x == l)
        &&& (x != l && table_has(m.table, x) ==> table_at(mw.table, x) == table_at(m.table, x))
    } by {
        lemma_table_push(m.table, l, line1, x);
        lemma_table_update_at(mw1.table, l, line2, x);
    }
    lemma_table_update_at(mw1.table, l, line2, l);
    assert(table_at(mw.table, l) == line2);
    // the mark makes exactly that line pending, wholly flushed
    let mc = pm_clwb(mw, addr, None);
    lemma_mark_lines_props(mw, first, cnt, None);
    assert(mc == pm_mark_lines(mw, first, cnt, None));
    assert(table_has(mc.table, l));
    assert(table_at(mc.table, l).writes == seq![s1, s2]);
    assert(table_at(mc.table, l).flushed == 2);
    assert(table_at(mc.table, l) == (LineModel { writes: seq![s1, s2], flushed: 2 }));
    assert forall|x: int| mc.pending.contains(x) implies x == l by {
        assert(m.pending.contains(x) || (first <= x < first + cnt && table_has(mw.table, x)));
        if m.pending.contains(x) {
            let px = choose|px: int| 0 <= px < m.pending.len() && m.pending[px] == x;
            assert(false);
        } else {
            assert(table_has(mw.table, x));
            if x != l {
                assert(table_has(m.table, x));
                assert(x == l);
            }
        }
    }
    assert(mc.pending.contains(l));
    assert(mc.wf());
    assert(mc.pending =~= seq![l]) by {
        assert(mc.pending.len() >= 1);
        if mc.pending.len() > 1 {
            assert(mc.pending.contains(mc.pending[0]));
            assert(mc.pending.contains(mc.pending[1]));
            assert(mc.pending[0] == l && mc.pending[1] == l);
            assert(false);
        }
        assert(mc.pending[0] == l) by {
            assert(mc.pending.contains(mc.pending[0]));
        }
    }
    // the fence makes both pieces durable and drops the line
    let m1 = pm_fence(mc);
    let mstart = PmModel { pending: Seq::<int>::empty(), ..mc };
    assert(m1 == pm_fence_rec(mstart, mc.pending));
    assert(mc.pending[0] == l);
    assert(mc.pending.drop_first() =~= Seq::<int>::empty());
    assert(m1 == pm_fence_line(mstart, l)) by {
        assert(pm_fence_rec(mstart, mc.pending) == pm_fence_rec(
            pm_fence_line(mstart, mc.pending[0]),
            mc.pending.drop_first(),
        ));
        assert(pm_fence_rec(pm_fence_line(mstart, l), Seq::<int>::empty()) == pm_fence_line(
            mstart,
            l,
        ));
    }
    assert(table_has(mstart.table, l));
    let fline = table_at(mstart.table, l);
    assert(fline == (LineModel { writes: seq![s1, s2], flushed: 2 }));
    assert(fline.writes.take(fline.flushed) =~= seq![s1, s2]);
    assert(fline.writes.skip(fline.flushed) =~= Seq::<StoreModel>::empty());
    assert(m1.persisted == apply_stores(mstart.persisted, seq![s1, s2]));
    assert(m1.persisted == overlay_store(overlay_store(m.persisted, s1), s2)) by {
        let pieces = seq![s1, s2];
        assert(pieces[0] == s1);
        assert(pieces.drop_first() =~= seq![s2]);
        assert(seq![s2][0] == s2);
        assert(seq![s2].drop_first() =~= Seq::<StoreModel>::empty());
        assert(apply_stores(mstart.persisted, pieces) == apply_stores(
            overlay_store(mstart.persisted, s1),
            pieces.drop_first(),
        ));
        assert(apply_stores(overlay_store(mstart.persisted, s1), seq![s2]) == apply_stores(
            overlay_store(overlay_store(mstart.persisted, s1), s2),
            Seq::<StoreModel>::empty(),
        ));
        assert(mstart.persisted == m.persisted);
    }
    assert(m1.table == table_remove(mstart.table, l));
    assert(m1.table == m.table) by {
        assert(table_keys_unique(mw.table));
        assert(mc.table.len() == mw.table.len() == m.table.len() + 1);
        assert(mw1.table[m.table.len() as int].0 == l);
        assert(mw.table[m.table.len() as int].0 == l);
        assert(mc.table[m.table.len() as int].0 == l);
        lemma_table_index_is(mc.table, l, m.table.len() as int);
        assert(table_index(mc.table, l) == m.table.len());
        assert forall|k: int| 0 <= k < m.table.len() implies mc.table[k] == m.table[k] by {
            assert(mw1.table[k] == m.table[k]);
            assert(mw.table[k] == mw1.table[k]) by {
                assert(table_index(mw1.table, l) == m.table.len()) by {
                    lemma_table_index_is(mw1.table, l, m.table.len() as int);
                }
            }
            if first <= m.table[k].0 < first + cnt {
                assert(table_has(m.table, m.table[k].0));
                assert(m.table[k].0 == l);
                assert(false);
            }
            assert(mc.table[k] == mw.table[k]);
        }
        assert(m1.table.len() == m.table.len());
        assert(m1.table =~= m.table);
    }
    assert(m1.pending == Seq::<int>::empty());
    assert(m1.g == m.g);
    assert(m1.persisted.len() == m.persisted.len()) by {
        assert(overlay_store(overlay_store(m.persisted, s1), s2).len() == m.persisted.len());
    }
    assert(m1.wf()) by {
        assert forall|i2: int| 0 <= i2 < m1.table.len() implies m1.line_ok(i2) by {
            assert(m.line_ok(i2));
        }
    }
}

/// Writing a store, marking its cache line and fencing is idempotent on
/// the durable image: doing the triple a second time leaves the image
/// exactly as after the first.  Stated for a store that stays inside a
/// single line at the 64-byte granularity — or, at any granularity, one
/// that does not cross an 8-byte boundary — on a device with nothing
/// pending and nothing buffered in the store's cache line.
pub proof fn lemma_write_clwb_fence_idempotent(m: PmModel, addr: int, data: Seq<u8>)
    requires
        m.wf(),
        data.len() == 1 || data.len() == 2 || data.len() == 4 || data.len() == 8,
        0 <= addr,
        addr % 8 + data.len() <= 8 || (m.g == 64 && addr % 64 + data.len() <= 64),
        addr + data.len() <= m.persisted.len(),
        m.pending == Seq::<int>::empty(),
        forall|x: int|
            line_of(addr - addr % 64, m.g) <= x < line_of(addr - addr % 64, m.g) + 64int / m.g
                ==> !table_has(m.table, x),
    ensures
        ({
            let m1 = pm_fence(pm_clwb(pm_write(m, addr, data, false), addr, None));
            let m2 = pm_fence(pm_clwb(pm_write(m1, addr, data, false), addr, None));
            m2.persisted == m1.persisted
        }),
{
    let m1 = pm_fence(pm_clwb(pm_write(m, addr, data, false), addr, None));
    if addr % 8 + data.len() <= 8 {
        let s = StoreModel { start: addr, bytes: data };
        lemma_quiet_write_mark_fence(m, addr, data);
        lemma_quiet_write_mark_fence(m1, addr, data);
        lemma_overlay_idempotent(m.persisted, s);
    } else {
        let b = (addr / 8 + 1) * 8;
        let s1 = StoreModel { start: addr, bytes: data.take(b - addr) };
        let s2 = StoreModel { start: b, bytes: data.skip(b - addr) };
        lemma_line_in_own_cache_line(addr, 64);
        assert(!table_has(m.table, line_of(addr, 64)));
        lemma_quiet_crossing_write_mark_fence(m, addr, data);
        assert(!table_has(m1.table, line_of(addr, 64)));
        assert forall|x: int|
            line_of(addr - addr % 64, m1.g) <= x < line_of(addr - addr % 64, m1.g) + 64int
                / m1.g implies !table_has(m1.table, x) by {
            assert(!table_has(m.table, x));
        }
        lemma_quiet_crossing_write_mark_fence(m1, addr, data);
        vstd::arithmetic::div_mod::lemma_fundamental_div_mod(addr, 8);
        vstd::arithmetic::div_mod::lemma_mod_bound(addr, 8);
        assert(s1.end() <= s2.start);
        lemma_overlay_two_idempotent(m.persisted, s1, s2);
    }
}

/// x86 persistent memory: a durable image, an ordered write buffer per
/// touched line, and the set of lines marked for flushing.
pub struct X86PersistentMemory {
    /// The currently-durable byte image.
    pub persisted_content: Vec<u8>,
    /// Line numbers marked for flushing, awaiting a fence; no duplicates.
    pub pending_lines: Vec<usize>,
    /// Line number to its ordered write buffer; unique keys, insertion order.
    pub unpersisted_content: Vec<(usize, OrderedWriteLine)>,
    /// 8 or 64.
    line_granularity: usize,
}

impl View for X86PersistentMemory {
    type V = PmModel;

    closed spec fn view(&self) -> PmModel {
        PmModel {
            persisted: self.persisted_content@,
            table: self.unpersisted_content@.map_values(
                |p: (usize, OrderedWriteLine)| (p.0 as int, p.1@),
            ),
            pending: self.pending_lines@.map_values(|l: usize| l as int),
            g: self.line_granularity as int,
        }
    }
}

impl X86PersistentMemory {
    /// A quiescent device over the given durable image.
    pub fn new(persisted_content: Vec<u8>) -> (r: X86PersistentMemory)
        ensures
            r@.persisted == persisted_content@,
            r@.table == Seq::<(int, LineModel)>::empty(),
            r@.pending == Seq::<int>::empty(),
            r@.g == LINE_GRANULARITY,
            r@.wf(),
    {
        let n = persisted_content.len();
        proof {
            assert(persisted_content@.len() == n <= usize::MAX);
        }
        let r = X86PersistentMemory {
            persisted_content,
            pending_lines: Vec::new(),
            unpersisted_content: Vec::new(),
            line_granularity: LINE_GRANULARITY,
        };
        proof {
            assert(r@.table =~= Seq::<(int, LineModel)>::empty());
            assert(r@.pending =~= Seq::<int>::empty());
        }
        r
    }

    /// The line granularity in bytes.
    pub fn line_granularity(&self) -> (r: usize)
        ensures
            r == self@.g,
    {
        self.line_granularity
    }

    /// The position of line `l` in the buffer, if buffered.
    fn find_line(&self, l: usize) -> (r: Option<usize>)
        requires
            self@.table_wf(),
        ensures
            match r {
                Some(i) => i < self.unpersisted_content@.len() && self@.table[i as int].0
                    == l as int && table_has(self@.table, l as int) && table_index(
                    self@.table,
                    l as int,
                ) == i as int,
                None => !table_has(self@.table, l as int),
            },
    {
        let mut i: usize = 0;
        while i < self.unpersisted_content.len()
            invariant
                i <= self.unpersisted_content@.len(),
                self@.table_wf(),
                self@.table.len() == self.unpersisted_content@.len(),
                forall|j: int| 0 <= j < i ==> (#[trigger] self@.table[j]).0 != l as int,
            decreases self.unpersisted_content@.len() - i,
        {
            if self.unpersisted_content[i].0 == l {
                proof {
                    assert(self@.table[i as int].0 == l as int);
                    lemma_table_index_is(self@.table, l as int, i as int);
                }
                return Some(i);
            }
            proof {
                assert(self@.table[i as int].0 == self.unpersisted_content@[i as int].0 as int);
            }
            i += 1;
        }
        proof {
            assert(forall|j: int|
                0 <= j < self@.table.len() ==> (#[trigger] self@.table[j]).0 != l as int);
        }
        None
    }

    /// Record line `l` as pending, unless it already is.
    fn push_pending(&mut self, l: usize)
        ensures
            final(self)@ == (PmModel {
                pending: if old(self)@.pending.contains(l as int) {
                    old(self)@.pending
                } else {
                    old(self)@.pending.push(l as int)
                },
                ..old(self)@
            }),
    {
        let mut i: usize = 0;
        while i < self.pending_lines.len()
            invariant
                *self == *old(self),
                i <= self.pending_lines@.len(),
                forall|j: int| 0 <= j < i ==> self@.pending[j] != l as int,
            decreases self.pending_lines@.len() - i,
        {
            if self.pending_lines[i] == l {
                proof {
                    assert(self@.pending[i as int] == l as int);
                    assert(self@.pending.contains(l as int));
                }
                return;
            }
            proof {
                assert(self@.pending[i as int] == self.pending_lines@[i as int] as int);
            }
            i += 1;
        }
        proof {
            assert(forall|j: int| 0 <= j < self@.pending.len() ==> self@.pending[j] != l as int);
            assert(!self@.pending.contains(l as int));
        }
        self.pending_lines.push(l);
        proof {
            assert(final(self)@.pending =~= old(self)@.pending.push(l as int));
            assert(final(self)@ == (PmModel {
                pending: old(self)@.pending.push(l as int),
                ..old(self)@
            }));
        }
    }

    /// Buffer one already-split store on its line, marking the line
    /// flushed and pending when the store is non-temporal.
    fn append_store(&mut self, s: Store, non_temporal: bool)
        requires
            old(self)@.wf(),
            store_fits_line(s@, line_of(s@.start, old(self)@.g), old(self)@.g),
            s@.end() <= old(self)@.persisted.len(),
        ensures
            final(self)@ == pm_append_store(old(self)@, s@, non_temporal),
            final(self)@.wf(),
    {
        let ghost m0 = self@;
        let ghost mt = pm_append_store(m0, s@, non_temporal);
        let ghost lint = line_of(s@.start, m0.g);
        let l = s.address / self.line_granularity;
        proof {
            assert(l as int == lint);
        }
        match self.find_line(l) {
            Some(i) => {
                let ghost line0 = m0.table[i as int].1;
                proof {
                    assert(table_at(m0.table, lint) == line0);
                }
                let mut entry = self.unpersisted_content.remove(i);
                entry.1.push_write(s);
                if non_temporal {
                    entry.1.flush_all();
                }
                self.unpersisted_content.insert(i, entry);
                proof {
                    assert(self@.table =~= mt.table);
                    assert(self@.pending == m0.pending);
                    assert(self@.persisted == m0.persisted && self@.g == m0.g);
                }
            },
            None => {
                let mut line = OrderedWriteLine::new();
                line.push_write(s);
                if non_temporal {
                    line.flush_all();
                }
                self.unpersisted_content.push((l, line));
                proof {
                    assert(Seq::<StoreModel>::empty().push(s@) =~= seq![s@]);
                    assert(self@.table =~= mt.table);
                    assert(self@.pending == m0.pending);
                    assert(self@.persisted == m0.persisted && self@.g == m0.g);
                }
            },
        }
        if non_temporal {
            self.push_pending(l);
        }
        proof {
            assert(final(self)@.pending =~= mt.pending);
            assert(final(self)@ == mt);
            lemma_append_store_wf(m0, s@, non_temporal);
        }
    }

    /// Buffer a store of 1, 2, 4 or 8 bytes at `address`, splitting it so
    /// that no piece crosses an 8-byte boundary.  A non-temporal store
    /// marks each touched line wholly flushed and pending.
    pub fn write(&mut self, address: usize, value: &[u8], non_temporal: bool)
        requires
            old(self)@.wf(),
            value@.len() == 1 || value@.len() == 2 || value@.len() == 4 || value@.len() == 8,
            address + value@.len() <= old(self)@.persisted.len(),
        ensures
            final(self)@ == pm_write(old(self)@, address as int, value@, non_temporal),
            final(self)@.wf(),
            final(self)@.persisted == old(self)@.persisted,
            final(self)@.g == old(self)@.g,
    {
        let ghost m0 = self@;
        let ghost pieces = split_at_8(address as int, value@);
        let len = value.len();
        let head_room = 8 - address % 8;
        proof {
            vstd::arithmetic::div_mod::lemma_fundamental_div_mod(address as int, 8);
            vstd::arithmetic::div_mod::lemma_mod_bound(address as int, 8);
        }
        if head_room >= len {
            proof {
                vstd::arithmetic::div_mod::lemma_fundamental_div_mod_converse(
                    address + len - 1,
                    8,
                    (address as int) / 8,
                    (address as int) % 8 + len - 1,
                );
                assert(pieces =~= seq![StoreModel { start: address as int, bytes: value@ }]);
            }
            let s = Store { address, data: vstd::slice::slice_to_vec(value) };
            proof {
                lemma_piece_fits(address as int, len as int, m0.g);
            }
            self.append_store(s, non_temporal);
            proof {
                let rest = pieces.drop_first();
                assert(rest =~= Seq::<StoreModel>::empty());
                assert(pieces[0] == s@);
                let m1 = pm_append_store(m0, pieces[0], non_temporal);
                assert(pm_append_all(m0, pieces, non_temporal) == pm_append_all(
                    m1,
                    rest,
                    non_temporal,
                ));
                assert(pm_append_all(m1, rest, non_temporal) == m1);
                assert(final(self)@ == pm_append_all(m0, pieces, non_temporal));
            }
        } else {
            proof {
                vstd::arithmetic::div_mod::lemma_fundamental_div_mod_converse(
                    address + len - 1,
                    8,
                    (address as int) / 8 + 1,
                    (address as int) % 8 + len - 9,
                );
                assert((address + len - 1) as int / 8 != (address as int) / 8);
                assert(((address as int) / 8 + 1) * 8 == address + head_room);
            }
            let head = vstd::slice::slice_to_vec(
                vstd::slice::slice_subrange(value, 0, head_room),
            );
            let tail = vstd::slice::slice_to_vec(
                vstd::slice::slice_subrange(value, head_room, len),
            );
            let ghost s1m = StoreModel { start: address as int, bytes: value@.take(head_room as int) };
            let ghost s2m = StoreModel {
                start: address + head_room,
                bytes: value@.skip(head_room as int),
            };
            proof {
                assert(head@ =~= value@.take(head_room as int));
                assert(tail@ =~= value@.skip(head_room as int));
                assert(pieces =~= seq![s1m, s2m]);
            }
            let s1 = Store { address, data: head };
            let s2 = Store { address: address + head_room, data: tail };
            proof {
                lemma_piece_fits(address as int, head_room as int, m0.g);
            }
            self.append_store(s1, non_temporal);
            let ghost m1 = self@;
            proof {
                assert(m1 == pm_append_store(m0, s1m, non_temporal));
                assert(m1.persisted == m0.persisted && m1.g == m0.g);
                vstd::arithmetic::div_mod::lemma_fundamental_div_mod_converse(
                    (address + head_room) as int,
                    8,
                    (address as int) / 8 + 1,
                    0,
                );
                assert((address + head_room) as int % 8 == 0);
                lemma_piece_fits((address + head_room) as int, (len - head_room) as int, m0.g);
            }
            self.append_store(s2, non_temporal);
            proof {
                let rest = pieces.drop_first();
                assert(rest =~= seq![s2m]);
                assert(pieces[0] == s1m);
                let ma = pm_append_store(m0, pieces[0], non_temporal);
                assert(ma == m1);
                let mb = pm_append_store(m1, s2m, non_temporal);
                assert(pm_append_all(m0, pieces, non_temporal) == pm_append_all(
                    ma,
                    rest,
                    non_temporal,
                ));
                assert(rest[0] == s2m);
                assert(rest.drop_first() =~= Seq::<StoreModel>::empty());
                assert(pm_append_all(ma, rest, non_temporal) == pm_append_all(
                    mb,
                    rest.drop_first(),
                    non_temporal,
                ));
                assert(pm_append_all(mb, rest.drop_first(), non_temporal) == mb);
                assert(final(self)@ == pm_append_all(m0, pieces, non_temporal));
            }
        }
    }

    /// Mark one line flushed (to `limit`, or wholly) and pending, if it
    /// is buffered at all.
    fn mark_line(&mut self, l: usize, flush_writes_limit: Option<usize>)
        requires
            old(self)@.wf(),
            limit_ok_for_line(old(self)@, l as int, opt_usize_as_int(flush_writes_limit)),
        ensures
            final(self)@ == pm_mark_line(
                old(self)@,
                l as int,
                opt_usize_as_int(flush_writes_limit),
            ),
            final(self)@.wf(),
    {
        let ghost m0 = self@;
        let ghost lim = opt_usize_as_int(flush_writes_limit);
        let ghost mt = pm_mark_line(m0, l as int, lim);
        match self.find_line(l) {
            Some(i) => {
                let ghost line0 = m0.table[i as int].1;
                proof {
                    assert(table_at(m0.table, l as int) == line0);
                    assert(m0.line_ok(i as int));
                }
                let mut entry = self.unpersisted_content.remove(i);
                match flush_writes_limit {
                    Some(k) => entry.1.set_flushed_index(k),
                    None => entry.1.flush_all(),
                }
                self.unpersisted_content.insert(i, entry);
                proof {
                    assert(self@.table =~= mt.table);
                    assert(self@.pending == m0.pending);
                    assert(self@.persisted == m0.persisted && self@.g == m0.g);
                }
                self.push_pending(l);
                proof {
                    assert(final(self)@.pending =~= mt.pending);
                    assert(final(self)@ == mt);
                    lemma_mark_line_props(m0, l as int, lim);
                }
            },
            None => {
                proof {
                    assert(final(self)@ == mt);
                }
            },
        }
    }

    /// Mark every line of the 64-byte cache line holding `address` for
    /// flushing: set each buffered line's flushed count to
    /// `flush_writes_limit` (or to its buffer length) and make it pending.
    pub fn clwb(&mut self, address: usize, flush_writes_limit: Option<usize>)
        requires
            old(self)@.wf(),
            clwb_limit_ok(old(self)@, address as int, opt_usize_as_int(flush_writes_limit)),
        ensures
            final(self)@ == pm_clwb(
                old(self)@,
                address as int,
                opt_usize_as_int(flush_writes_limit),
            ),
            final(self)@.wf(),
            final(self)@.persisted == old(self)@.persisted,
            final(self)@.g == old(self)@.g,
    {
        let ghost m0 = self@;
        let ghost lim = opt_usize_as_int(flush_writes_limit);
        let g = self.line_granularity;
        let steps = 64 / g;
        proof {
            vstd::arithmetic::div_mod::lemma_fundamental_div_mod(address as int, 64);
            vstd::arithmetic::div_mod::lemma_mod_bound(address as int, 64);
            let base = address - (address as int) % 64;
            let q = (address as int) / 64;
            assert(base == 64 * q);
            assert(g as int == m0.g);
            if m0.g == 8 {
                assert(g == 8);
                vstd::arithmetic::div_mod::lemma_fundamental_div_mod_converse(64, 8, 8, 0);
                assert(steps == 8);
                assert(base == 8 * (8 * q));
                vstd::arithmetic::div_mod::lemma_fundamental_div_mod_converse(base, 8, 8 * q, 0);
                assert(q * (steps as int) == base / m0.g);
            } else {
                assert(m0.g == 64);
                assert(g == 64);
                vstd::arithmetic::div_mod::lemma_fundamental_div_mod_converse(64, 64, 1, 0);
                assert(steps == 1);
                vstd::arithmetic::div_mod::lemma_fundamental_div_mod_converse(base, 64, q, 0);
                assert(q * (steps as int) == base / m0.g);
            }
            assert(steps as int == 64int / m0.g);
            assert(0 <= base / m0.g <= address);
        }
        let first_line = (address / 64) * steps;
        proof {
            assert(first_line as int == (address - (address as int) % 64) / m0.g);
        }
        let mut k: usize = 0;
        while k < steps
            invariant
                k <= steps,
                m0.wf(),
                clwb_limit_ok(m0, address as int, lim),
                lim == opt_usize_as_int(flush_writes_limit),
                steps as int == 64int / m0.g,
                first_line as int == (address - address % 64) / m0.g,
                first_line + steps <= usize::MAX,
                self@ == pm_mark_lines(m0, first_line as int, k as nat, lim),
                self@.wf(),
            decreases steps - k,
        {
            proof {
                lemma_mark_lines_props(m0, first_line as int, k as nat, lim);
                assert(limit_ok_for_line(m0, first_line + k, lim));
                assert(limit_ok_for_line(self@, first_line + k, lim));
            }
            self.mark_line(first_line + k, flush_writes_limit);
            proof {
                lemma_mark_lines_snoc(m0, first_line as int, k as nat, lim);
            }
            k += 1;
        }
        proof {
            assert(final(self)@ == pm_clwb(m0, address as int, lim));
            lemma_mark_lines_props(m0, first_line as int, steps as nat, lim);
        }
    }

    /// Make the flushed prefix of one buffered line durable.
    fn fence_line(&mut self, line: usize)
        requires
            old(self)@.table_wf(),
            old(self)@.persisted.len() <= usize::MAX,
            table_has(old(self)@.table, line as int),
        ensures
            final(self)@ == pm_fence_line(old(self)@, line as int),
    {
        let ghost m0 = self@;
        let ghost mt = pm_fence_line(m0, line as int);
        match self.find_line(line) {
            Some(i) => {
                let ghost line0 = m0.table[i as int].1;
                proof {
                    assert(table_at(m0.table, line as int) == line0);
                    assert(m0.line_ok(i as int));
                }
                let mut entry = self.unpersisted_content.remove(i);
                let drained = entry.1.drain_flushed_writes();
                let ghost dm = drained@.map_values(|s: Store| s@);
                proof {
                    assert(dm == line0.writes.take(line0.flushed));
                    assert(forall|j: int|
                        0 <= j < dm.len() ==> dm[j] == line0.writes.take(line0.flushed)[j]);
                }
                let ghost p0 = self.persisted_content@;
                let ghost t1 = self@.table;
                proof {
                    assert forall|q: int| 0 <= q < dm.len() implies (#[trigger] dm[q]).wf()
                        && dm[q].end() <= p0.len() by {
                        assert(dm[q] == line0.writes[q]);
                    }
                }
                let mut j: usize = 0;
                while j < drained.len()
                    invariant
                        j <= dm.len(),
                        drained@.map_values(|s: Store| s@) == dm,
                        forall|q: int|
                            0 <= q < dm.len() ==> (#[trigger] dm[q]).wf() && dm[q].end()
                                <= p0.len(),
                        self.persisted_content@ == apply_stores(p0, dm.take(j as int)),
                        self.persisted_content@.len() == p0.len(),
                        self@.table == t1,
                        self@.pending == m0.pending,
                        self@.g == m0.g,
                    decreases dm.len() - j,
                {
                    proof {
                        assert(drained@[j as int]@ == dm[j as int]);
                        lemma_apply_stores_len(p0, dm.take(j as int));
                    }
                    apply_store_to(&mut self.persisted_content, &drained[j]);
                    proof {
                        lemma_apply_stores_snoc(p0, dm.take(j as int), dm[j as int]);
                        assert(dm.take(j + 1) =~= dm.take(j as int).push(dm[j as int]));
                    }
                    j += 1;
                }
                proof {
                    assert(dm.take(dm.len() as int) =~= dm);
                    assert(self.persisted_content@ == apply_stores(
                        m0.persisted,
                        line0.writes.take(line0.flushed),
                    ));
                }
                let ghost rest = line0.writes.skip(line0.flushed);
                let ghost line2 = LineModel { writes: rest, flushed: 0 };
                let ghost vmid = self.unpersisted_content@;
                proof {
                    assert(entry.1@ == line2);
                    assert(vmid.map_values(|p: (usize, OrderedWriteLine)| (p.0 as int, p.1@))
                        == t1);
                    assert(t1.len() == m0.table.len() - 1);
                    assert(forall|k: int| 0 <= k < i ==> t1[k] == m0.table[k]);
                    assert(forall|k: int|
                        i <= k < t1.len() ==> t1[k] == m0.table[k + 1]);
                }
                if entry.1.len() > 0 {
                    let ghost e0 = entry.0;
                    proof {
                        assert(e0 as int == m0.table[i as int].0);
                    }
                    self.unpersisted_content.insert(i, entry);
                    proof {
                        assert(rest.len() > 0);
                        assert(mt.table == table_update(m0.table, line as int, line2));
                        assert(mt.table.len() == m0.table.len());
                        assert(self@.table.len() == m0.table.len());
                        assert forall|k: int| 0 <= k < self@.table.len() implies self@.table[k]
                            == mt.table[k] by {
                            if k < i as int {
                                assert(self.unpersisted_content@[k] == vmid[k]);
                                assert(self@.table[k] == t1[k]);
                                assert(mt.table[k] == m0.table[k]);
                            } else if k == i as int {
                                assert(self@.table[k] == (e0 as int, line2));
                                assert(e0 as int == line as int);
                                assert(mt.table[k] == (line as int, line2));
                            } else {
                                assert(self.unpersisted_content@[k] == vmid[k - 1]);
                                assert(self@.table[k] == t1[k - 1]);
                                assert(t1[k - 1] == m0.table[k]);
                                assert(mt.table[k] == m0.table[k]);
                            }
                        }
                        assert(self@.table =~= mt.table);
                    }
                } else {
                    proof {
                        assert(rest.len() == 0);
                        assert(mt.table == table_remove(m0.table, line as int));
                        assert(self@.table =~= mt.table);
                    }
                }
                proof {
                    assert(final(self)@.pending == m0.pending);
                    assert(final(self)@ == mt);
                }
            },
            None => {
                proof {
                    assert(false);
                }
            },
        }
    }

    /// Consume every pending line: make each line's flushed prefix
    /// durable, in the order the lines were marked, dropping lines that
    /// become empty.
    pub fn fence(&mut self)
        requires
            old(self)@.wf(),
        ensures
            final(self)@ == pm_fence(old(self)@),
            final(self)@.wf(),
            final(self)@.pending == Seq::<int>::empty(),
            final(self)@.persisted.len() == old(self)@.persisted.len(),
            final(self)@.g == old(self)@.g,
    {
        let ghost m0 = self@;
        let mut pending: Vec<usize> = Vec::new();
        core::mem::swap(&mut pending, &mut self.pending_lines);
        let ghost plist = pending@.map_values(|l: usize| l as int);
        let ghost mstart = PmModel { pending: Seq::<int>::empty(), ..m0 };
        proof {
            assert(plist == m0.pending);
            assert(self@.pending =~= Seq::<int>::empty());
            assert(self@ == mstart);
            assert forall|i2: int| 0 <= i2 < mstart.table.len() implies mstart.line_ok(i2) by {
                assert(m0.line_ok(i2));
            }
            assert(mstart.table_wf());
            assert(plist.take(0) =~= Seq::<int>::empty());
            assert(pm_fence_rec(mstart, plist.take(0)) == mstart);
            assert forall|q: int| 0 <= q < plist.len() implies table_has(
                mstart.table,
                #[trigger] plist[q],
            ) by {
                assert(table_has(m0.table, m0.pending[q]));
            }
        }
        let mut i: usize = 0;
        while i < pending.len()
            invariant
                i <= plist.len(),
                pending@.map_values(|l: usize| l as int) == plist,
                plist == m0.pending,
                m0.wf(),
                mstart == (PmModel { pending: Seq::<int>::empty(), ..m0 }),
                self@ == pm_fence_rec(mstart, plist.take(i as int)),
                self@.table_wf(),
                self@.persisted.len() == m0.persisted.len(),
                self@.g == m0.g,
                self@.pending == Seq::<int>::empty(),
                forall|q: int| i <= q < plist.len() ==> table_has(self@.table, #[trigger] plist[q]),
            decreases plist.len() - i,
        {
            let ghost mcur = self@;
            proof {
                assert(plist[i as int] == pending@[i as int] as int);
            }
            self.fence_line(pending[i]);
            proof {
                lemma_fence_rec_snoc(mstart, plist.take(i as int), plist[i as int]);
                assert(plist.take(i + 1) =~= plist.take(i as int).push(plist[i as int]));
                lemma_fence_line_props(mcur, plist[i as int]);
                assert forall|q: int| i + 1 <= q < plist.len() implies table_has(
                    self@.table,
                    #[trigger] plist[q],
                ) by {
                    assert(plist[q] != plist[i as int]);
                    assert(table_has(mcur.table, plist[q]));
                }
            }
            i += 1;
        }
        proof {
            assert(plist.take(plist.len() as int) =~= plist);
            assert(final(self)@ == pm_fence(m0));
            assert(final(self)@.pending_wf());
        }
    }

    /// Flush and fence everything: mark every buffered line wholly
    /// flushed, then fence.  Afterwards nothing is buffered and nothing
    /// is pending.
    pub fn persist_unpersisted(&mut self)
        requires
            old(self)@.wf(),
        ensures
            final(self)@.wf(),
            final(self)@.table == Seq::<(int, LineModel)>::empty(),
            final(self)@.pending == Seq::<int>::empty(),
            final(self)@.persisted == apply_lines(old(self)@.persisted, old(self)@.table),
            final(self)@.persisted.len() == old(self)@.persisted.len(),
            final(self)@.g == old(self)@.g,
    {
        let ghost m0 = self@;
        let mut lines: Vec<usize> = Vec::new();
        let mut i: usize = 0;
        while i < self.unpersisted_content.len()
            invariant
                *self == *old(self),
                i <= self.unpersisted_content@.len(),
                self@.table.len() == self.unpersisted_content@.len(),
                lines@.len() == i,
                forall|j: int| 0 <= j < i ==> lines@[j] as int == (#[trigger] self@.table[j]).0,
            decreases self.unpersisted_content@.len() - i,
        {
            let l = self.unpersisted_content[i].0;
            proof {
                assert(self@.table[i as int].0 == l as int);
            }
            lines.push(l);
            i += 1;
        }
        let ghost keys = lines@.map_values(|l: usize| l as int);
        proof {
            assert(keys.len() == m0.table.len());
            assert(forall|j: int| 0 <= j < keys.len() ==> keys[j] == (#[trigger] m0.table[j]).0);
        }
        let g = self.line_granularity;
        let mut k: usize = 0;
        while k < lines.len()
            invariant
                k <= lines@.len(),
                g as int == m0.g,
                m0.wf(),
                keys == lines@.map_values(|l: usize| l as int),
                keys.len() == m0.table.len(),
                forall|j: int| 0 <= j < keys.len() ==> keys[j] == (#[trigger] m0.table[j]).0,
                self@.wf(),
                self@.persisted == m0.persisted,
                self@.g == m0.g,
                self@.table.len() == m0.table.len(),
                forall|k2: int|
                    0 <= k2 < m0.table.len() ==> (#[trigger] self@.table[k2]).0 == m0.table[k2].0
                        && self@.table[k2].1.writes == m0.table[k2].1.writes,
                forall|x: int| table_has(self@.table, x) == #[trigger] table_has(m0.table, x),
                forall|x: int|
                    #[trigger] table_has(m0.table, x) ==> table_at(self@.table, x).writes
                        == table_at(m0.table, x).writes,
                forall|j: int|
                    0 <= j < k ==> table_at(self@.table, #[trigger] keys[j]).flushed == table_at(
                        self@.table,
                        keys[j],
                    ).writes.len() && self@.pending.contains(keys[j]),
                forall|x: int|
                    self@.pending.contains(x) ==> table_has(self@.table, x),
            decreases lines@.len() - k,
        {
            let ghost mcur = self@;
            let l = lines[k];
            proof {
                assert(keys[k as int] == l as int);
                assert(m0.table[k as int].0 == l as int);
                lemma_table_index_is(m0.table, l as int, k as int);
                assert(table_has(m0.table, l as int));
                assert(table_has(mcur.table, l as int));
                // the line's first store bounds l * g
                let ti = table_index(mcur.table, l as int);
                assert(mcur.line_ok(ti));
                assert(mcur.table[ti].1.writes.len() > 0);
                assert(store_fits_line(mcur.table[ti].1.writes[0], l as int, mcur.g));
                assert(l as int * g as int <= mcur.table[ti].1.writes[0].start);
                assert(mcur.table[ti].1.writes[0].end() <= mcur.persisted.len());
                assert(l as int * g as int <= usize::MAX);
            }
            let addr = l * g;
            proof {
                lemma_clwb_covers_own_line(mcur, l as int);
            }
            self.clwb(addr, None);
            proof {
                let base = addr as int - (addr as int) % 64;
                let first = base / mcur.g;
                let cnt = (64int / mcur.g) as nat;
                lemma_mark_lines_props(mcur, first, cnt, None);
                assert(first <= (l as int) < first + cnt);
                assert forall|j: int| 0 <= j < k + 1 implies table_at(
                    self@.table,
                    #[trigger] keys[j],
                ).flushed == table_at(self@.table, keys[j]).writes.len()
                    && self@.pending.contains(keys[j]) by {
                    if j < k {
                        if first <= keys[j] < first + cnt {
                            assert(table_has(mcur.table, keys[j]));
                        } else {
                            assert(table_at(self@.table, keys[j]) == table_at(
                                mcur.table,
                                keys[j],
                            ));
                        }
                        assert(mcur.pending.contains(keys[j]));
                    } else {
                        assert(keys[j] == l as int);
                    }
                }
            }
            k += 1;
        }
        let ghost mmid = self@;
        proof {
            assert(mmid.wf());
            // positionally, every line is now wholly flushed
            assert forall|k2: int| 0 <= k2 < mmid.table.len() implies (#[trigger] mmid.table[k2]).1.flushed
                == mmid.table[k2].1.writes.len() by {
                assert(keys[k2] == m0.table[k2].0);
                assert(mmid.table[k2].0 == keys[k2]);
                lemma_table_index_is(mmid.table, keys[k2], k2);
                assert(table_at(mmid.table, keys[k2]) == mmid.table[k2].1);
            }
            assert(mmid.table.skip(0) =~= mmid.table);
            assert(apply_lines(m0.persisted, mmid.table.take(0)) == m0.persisted) by {
                assert(mmid.table.take(0).len() == 0);
            }
        }
        // the fence consumes every mark: drain each line, first to last,
        // then clear the pending set
        let mut d: usize = 0;
        while d < lines.len()
            invariant
                d <= lines@.len(),
                lines@.len() == mmid.table.len(),
                mmid.table.len() == m0.table.len(),
                keys == lines@.map_values(|l: usize| l as int),
                forall|j: int| 0 <= j < keys.len() ==> keys[j] == (#[trigger] mmid.table[j]).0,
                forall|k2: int|
                    0 <= k2 < mmid.table.len() ==> (#[trigger] mmid.table[k2]).1.flushed
                        == mmid.table[k2].1.writes.len(),
                forall|k2: int|
                    0 <= k2 < m0.table.len() ==> (#[trigger] mmid.table[k2]).1.writes
                        == m0.table[k2].1.writes,
                mmid.table_wf(),
                mmid.persisted == m0.persisted,
                mmid.g == m0.g,
                m0.wf(),
                self@.table == mmid.table.skip(d as int),
                self@.table_wf(),
                self@.persisted == apply_lines(m0.persisted, mmid.table.take(d as int)),
                self@.persisted.len() == m0.persisted.len(),
                self@.pending == mmid.pending,
                self@.g == m0.g,
            decreases lines@.len() - d,
        {
            let ghost mcur = self@;
            let l = lines[d];
            proof {
                assert(keys[d as int] == l as int);
                assert(mmid.table[d as int].0 == l as int);
                assert(mcur.table[0] == mmid.table[d as int]);
                lemma_table_index_is(mcur.table, l as int, 0);
            }
            self.fence_line(l);
            proof {
                lemma_fence_line_props(mcur, l as int);
                let line = table_at(mcur.table, l as int);
                assert(line == mmid.table[d as int].1);
                assert(line.flushed == line.writes.len());
                assert(line.writes.take(line.flushed) =~= line.writes);
                assert(line.writes.skip(line.flushed) =~= Seq::<StoreModel>::empty());
                assert(self@.table == table_remove(mcur.table, l as int));
                assert(table_index(mcur.table, l as int) == 0);
                assert(self@.table =~= mmid.table.skip(d + 1));
                lemma_apply_lines_snoc(
                    m0.persisted,
                    mmid.table.take(d as int),
                    mmid.table[d as int],
                );
                assert(mmid.table.take(d + 1) =~= mmid.table.take(d as int).push(
                    mmid.table[d as int],
                ));
                assert(self@.persisted == apply_stores(mcur.persisted, line.writes));
                assert(self@.persisted == apply_lines(m0.persisted, mmid.table.take(d + 1)));
                lemma_apply_stores_len(mcur.persisted, line.writes);
            }
            d += 1;
        }
        let mut consumed: Vec<usize> = Vec::new();
        core::mem::swap(&mut consumed, &mut self.pending_lines);
        proof {
            assert(final(self)@.pending =~= Seq::<int>::empty());
            assert(mmid.table.skip(mmid.table.len() as int) =~= Seq::<(int, LineModel)>::empty());
            assert(final(self)@.table =~= Seq::<(int, LineModel)>::empty());
            assert(mmid.table.take(mmid.table.len() as int) =~= mmid.table);
            lemma_apply_lines_same_writes(m0.persisted, mmid.table, m0.table);
            assert(final(self)@.persisted == apply_lines(m0.persisted, m0.table));
            assert(final(self)@.wf());
        }
    }

    /// The buffered line numbers, in insertion order.
    fn line_keys(&self) -> (r: Vec<usize>)
        ensures
            r@.len() == self@.table.len(),
            forall|j: int| 0 <= j < r@.len() ==> r@[j] as int == (#[trigger] self@.table[j]).0,
    {
        let mut r: Vec<usize> = Vec::new();
        let mut i: usize = 0;
        while i < self.unpersisted_content.len()
            invariant
                i <= self.unpersisted_content@.len(),
                self@.table.len() == self.unpersisted_content@.len(),
                r@.len() == i,
                forall|j: int| 0 <= j < i ==> r@[j] as int == (#[trigger] self@.table[j]).0,
            decreases self.unpersisted_content@.len() - i,
        {
            let l = self.unpersisted_content[i].0;
            proof {
                assert(self@.table[i as int].0 == l as int);
            }
            r.push(l);
            i += 1;
        }
        r
    }

    /// Offer the durable image unchanged: the *nothing persisted* crash
    /// image.
    pub fn generate_nothing_persisted_image(&self, pool: &mut ImagePool) -> (r: Result<
        CrashHash,
        CigError,
    >)
        requires
            old(pool).wf(),
        ensures
            final(pool).wf(),
            pool_evolves(*old(pool), *final(pool)),
            r is Err <==> pool_offer_rejected(*old(pool), self@.persisted),
            match r {
                Ok(h) => {
                    &&& h@ == blake3_of(self@.persisted)
                    &&& pool_offer_post(*old(pool), *final(pool), self@.persisted)
                    &&& final(pool).seen_contains(blake3_of(self@.persisted))
                },
                Err(e) => e == CigError::PoolLimitExceeded && *final(pool) == *old(pool),
            },
    {
        let res = pool.persist(self.persisted_content.as_slice());
        proof {
            lemma_persist_post_evolves(*old(pool), *pool, self@.persisted, res);
            lemma_persist_post_outcome(*old(pool), *pool, self@.persisted, res);
            if res is Ok && res->Ok_0.0 {
                let s = final(pool).seen();
                assert(s[s.len() - 1] == blake3_of(self@.persisted));
            }
        }
        match res {
            Ok((_, h)) => Ok(h),
            Err(e) => Err(e),
        }
    }

    /// Offer the *everything persisted* crash image: the durable image
    /// with every unpersisted store applied, flushed or not, in per-line
    /// order.
    pub fn generate_everything_persisted_image(&self, pool: &mut ImagePool) -> (r: Result<
        CrashHash,
        CigError,
    >)
        requires
            self@.wf(),
            old(pool).wf(),
        ensures
            final(pool).wf(),
            pool_evolves(*old(pool), *final(pool)),
            r is Err <==> pool_offer_rejected(*old(pool), pm_everything_image(self@)),
            match r {
                Ok(h) => {
                    &&& h@ == blake3_of(pm_everything_image(self@))
                    &&& pool_offer_post(*old(pool), *final(pool), pm_everything_image(self@))
                    &&& final(pool).seen_contains(blake3_of(pm_everything_image(self@)))
                },
                Err(e) => e == CigError::PoolLimitExceeded && *final(pool) == *old(pool),
            },
    {
        let ghost m = self@;
        let mut img = clone_bytes(&self.persisted_content);
        let mut i: usize = 0;
        while i < self.unpersisted_content.len()
            invariant
                self@ == m,
                m.wf(),
                i <= m.table.len(),
                self.unpersisted_content@.len() == m.table.len(),
                img@ == apply_lines(m.persisted, m.table.take(i as int)),
                img@.len() == m.persisted.len(),
            decreases m.table.len() - i,
        {
            let ws = self.unpersisted_content[i].1.all_writes();
            let ghost wsm = ws@.map_values(|s: Store| s@);
            let ghost img0 = img@;
            proof {
                assert(m.line_ok(i as int));
                assert(wsm == m.table[i as int].1.writes);
            }
            let mut j: usize = 0;
            while j < ws.len()
                invariant
                    j <= wsm.len(),
                    ws@.map_values(|s: Store| s@) == wsm,
                    forall|q: int|
                        0 <= q < wsm.len() ==> (#[trigger] wsm[q]).wf() && wsm[q].end()
                            <= img0.len(),
                    img@ == apply_stores(img0, wsm.take(j as int)),
                    img@.len() == img0.len(),
                decreases wsm.len() - j,
            {
                proof {
                    assert(ws@[j as int]@ == wsm[j as int]);
                }
                apply_store_to(&mut img, &ws[j]);
                proof {
                    lemma_apply_stores_snoc(img0, wsm.take(j as int), wsm[j as int]);
                    assert(wsm.take(j + 1) =~= wsm.take(j as int).push(wsm[j as int]));
                }
                j += 1;
            }
            proof {
                assert(wsm.take(wsm.len() as int) =~= wsm);
                assert(m.table.take(i + 1) =~= m.table.take(i as int).push(m.table[i as int]));
                lemma_apply_lines_snoc(m.persisted, m.table.take(i as int), m.table[i as int]);
            }
            i += 1;
        }
        proof {
            assert(m.table.take(m.table.len() as int) =~= m.table);
        }
        let res = pool.persist(img.as_slice());
        proof {
            lemma_persist_post_evolves(*old(pool), *pool, img@, res);
            lemma_persist_post_outcome(*old(pool), *pool, img@, res);
            if res is Ok && res->Ok_0.0 {
                let s = final(pool).seen();
                assert(s[s.len() - 1] == blake3_of(pm_everything_image(m)));
            }
        }
        match res {
            Ok((_, h)) => Ok(h),
            Err(e) => Err(e),
        }
    }

    /// Sample partial crash images: choose families of line subsets and,
    /// per chosen line, a prefix length of its buffered stores; after
    /// each line's overlay the accumulated image is offered to the pool.
    /// Every returned digest is the digest of some partial crash image.
    pub fn generate_random_images(&self, pool: &mut ImagePool, rng: &mut fastrand::Rng) -> (r:
        Result<CrashHashSet, CigError>)
        requires
            self@.wf(),
            old(pool).wf(),
        ensures
            final(pool).wf(),
            pool_evolves(*old(pool), *final(pool)),
            self@.table.len() == 0 ==> (r matches Ok(hs) && hs.digests() == Seq::<Seq<
                u8,
            >>::empty() && *final(pool) == *old(pool)),
            match r {
                Ok(hs) => {
                    &&& hs.wf()
                    &&& all_partial_digests(hs, self@)
                    &&& (self@.table.len() > 0 ==> hs.digests().len() >= 1)
                    &&& forall|x: int|
                        0 <= x < hs.digests().len() ==> final(pool).seen_contains(
                            #[trigger] hs.digests()[x],
                        )
                },
                Err(e) => e == CigError::PoolLimitExceeded && exists|data: Seq<u8>|
                    pool_offer_rejected(*final(pool), data),
            },
    {
        let ghost m = self@;
        let mut hashes = CrashHashSet::new();
        let keys = self.line_keys();
        if keys.len() == 0 {
            return Ok(hashes);
        }
        proof {
            assert forall|e: usize| keys@.contains(e) implies table_has(m.table, e as int) by {
                let j = choose|j: int| 0 <= j < keys@.len() && keys@[j] == e;
                assert(m.table[j].0 == e as int);
            }
        }
        let random_subsets: Vec<Vec<usize>> = if small_powerset(keys.len()) {
            crate::combi::nonempty_subsets(&keys)
        } else {
            crate::combi::random_nonempty_subsets(rng, &keys, MAX_UNPERSISTED_SUBSETS)
        };
        proof {
            assert(random_subsets@.len() >= 1);
        }
        let mut si: usize = 0;
        while si < random_subsets.len()
            invariant
                self@ == m,
                m.wf(),
                si <= random_subsets@.len(),
                random_subsets@.len() >= 1,
                keys@.len() == m.table.len(),
                keys@.len() >= 1,
                crate::combi::subsets_ok(random_subsets@, keys@),
                forall|e: usize| keys@.contains(e) ==> table_has(m.table, e as int),
                pool.wf(),
                pool_evolves(*old(pool), *pool),
                hashes.wf(),
                all_partial_digests(hashes, m),
                si >= 1 ==> hashes.digests().len() >= 1,
                forall|x: int|
                    0 <= x < hashes.digests().len() ==> pool.seen_contains(
                        #[trigger] hashes.digests()[x],
                    ),
            decreases random_subsets@.len() - si,
        {
            let rl = &random_subsets[si];
            let ghost glines = rl@.map_values(|l: usize| l as int);
            proof {
                assert(rl@.len() >= 1);
                assert(forall|j: int| 0 <= j < rl@.len() ==> keys@.contains(#[trigger] rl@[j]));
                assert forall|j: int| 0 <= j < glines.len() implies table_has(
                    m.table,
                    #[trigger] glines[j],
                ) by {
                    assert(glines[j] == rl@[j] as int);
                }
            }
            // the number of exhaustive prefix combinations for this subset
            let mut product: usize = 1;
            let mut too_many = false;
            let mut pi: usize = 0;
            while pi < rl.len()
                invariant
                    self@ == m,
                    m.wf(),
                    pi <= rl@.len(),
                    forall|j: int| 0 <= j < glines.len() ==> table_has(m.table, #[trigger] glines[j]),
                    glines == rl@.map_values(|l: usize| l as int),
                decreases rl@.len() - pi,
            {
                let wc = self.line_len(rl[pi]);
                match product.checked_mul(wc) {
                    Some(p) => product = p,
                    None => too_many = true,
                }
                pi += 1;
            }
            if product > MAX_PARTIAL_FLUSHES_COUNT {
                too_many = true;
            }
            // per line, the prefix lengths to try
            let mut lpw: Vec<Vec<usize>> = Vec::new();
            let mut li: usize = 0;
            while li < rl.len()
                invariant
                    self@ == m,
                    m.wf(),
                    li <= rl@.len(),
                    lpw@.len() == li,
                    forall|j: int| 0 <= j < glines.len() ==> table_has(m.table, #[trigger] glines[j]),
                    glines == rl@.map_values(|l: usize| l as int),
                    forall|a: int, b: int|
                        0 <= a < lpw@.len() && 0 <= b < (#[trigger] lpw@[a])@.len() ==> 1 <= (
                        #[trigger] lpw@[a]@[b]) <= table_at(m.table, glines[a]).writes.len(),
                    forall|a: int| 0 <= a < lpw@.len() ==> (#[trigger] lpw@[a])@.len() >= 1,
                decreases rl@.len() - li,
            {
                let wc = self.line_len(rl[li]);
                proof {
                    assert(glines[li as int] == rl@[li as int] as int);
                    assert(wc == table_at(m.table, glines[li as int]).writes.len());
                    let ti = table_index(m.table, glines[li as int]);
                    assert(0 <= ti < m.table.len() && m.table[ti].0 == glines[li as int]);
                    assert(m.line_ok(ti));
                    assert(wc >= 1);
                }
                let mut choices: Vec<usize> = Vec::new();
                if too_many {
                    if wc <= 1 {
                        choices.push(wc);
                    } else {
                        choices.push(wc);
                        choices.push(crate::rng::rng_usize(rng, 1, wc));
                    }
                } else {
                    let mut k: usize = 0;
                    while k < wc
                        invariant
                            k <= wc,
                            choices@.len() == k,
                            forall|b: int| 0 <= b < choices@.len() ==> 1 <= (#[trigger] choices@[b])
                                <= wc,
                        decreases wc - k,
                    {
                        choices.push(k + 1);
                        k += 1;
                    }
                }
                proof {
                    assert(forall|b: int|
                        0 <= b < choices@.len() ==> 1 <= (#[trigger] choices@[b]) <= wc);
                }
                proof {
                    assert(choices@.len() >= 1);
                }
                lpw.push(choices);
                proof {
                    assert forall|a: int, b: int|
                        0 <= a < lpw@.len() && 0 <= b < (#[trigger] lpw@[a])@.len() implies 1 <= (
                    #[trigger] lpw@[a]@[b]) <= table_at(m.table, glines[a]).writes.len() by {
                        if a < li as int {
                        } else {
                            assert(lpw@[a]@[b] == choices@[b]);
                        }
                    }
                }
                li += 1;
            }
            // enumerate prefix combinations; after each line's overlay,
            // offer the accumulated image
            let combos = crate::combi::cartesian_product(&lpw);
            proof {
                assert(combos@.len() >= 1);
            }
            let mut ci: usize = 0;
            while ci < combos.len()
                invariant
                    self@ == m,
                    m.wf(),
                    ci <= combos@.len(),
                    combos@.len() >= 1,
                    crate::combi::tuples_ok(combos@, lpw@),
                    lpw@.len() == rl@.len(),
                    glines.len() >= 1,
                    forall|j: int| 0 <= j < glines.len() ==> table_has(m.table, #[trigger] glines[j]),
                    glines == rl@.map_values(|l: usize| l as int),
                    forall|a: int, b: int|
                        0 <= a < lpw@.len() && 0 <= b < (#[trigger] lpw@[a])@.len() ==> 1 <= (
                        #[trigger] lpw@[a]@[b]) <= table_at(m.table, glines[a]).writes.len(),
                    pool.wf(),
                    pool_evolves(*old(pool), *pool),
                    hashes.wf(),
                    all_partial_digests(hashes, m),
                    ci >= 1 ==> hashes.digests().len() >= 1,
                    forall|x: int|
                        0 <= x < hashes.digests().len() ==> pool.seen_contains(
                            #[trigger] hashes.digests()[x],
                        ),
                decreases combos@.len() - ci,
            {
                let combo = &combos[ci];
                let ghost gks = combo@.map_values(|k: usize| k as int);
                proof {
                    assert(combo@.len() == lpw@.len());
                    assert forall|a: int| 0 <= a < gks.len() implies 1 <= #[trigger] gks[a]
                        <= table_at(m.table, glines[a]).writes.len() by {
                        assert(lpw@[a]@.contains(combo@[a]));
                        let b = choose|b: int|
                            0 <= b < lpw@[a]@.len() && lpw@[a]@[b] == combo@[a];
                        assert(1 <= lpw@[a]@[b] <= table_at(m.table, glines[a]).writes.len());
                    }
                }
                let mut img = clone_bytes(&self.persisted_content);
                let mut li2: usize = 0;
                while li2 < rl.len()
                    invariant
                        self@ == m,
                        m.wf(),
                        li2 <= rl@.len(),
                        rl@.len() == combo@.len(),
                        glines == rl@.map_values(|l: usize| l as int),
                        gks == combo@.map_values(|k: usize| k as int),
                        glines.len() >= 1,
                        forall|j: int|
                            0 <= j < glines.len() ==> table_has(m.table, #[trigger] glines[j]),
                        forall|a: int|
                            0 <= a < gks.len() ==> 1 <= #[trigger] gks[a] <= table_at(
                                m.table,
                                glines[a],
                            ).writes.len(),
                        img@ == overlay_prefixes(
                            m.persisted,
                            m,
                            glines.take(li2 as int),
                            gks.take(li2 as int),
                        ),
                        img@.len() == m.persisted.len(),
                        pool.wf(),
                        pool_evolves(*old(pool), *pool),
                        hashes.wf(),
                        all_partial_digests(hashes, m),
                        li2 >= 1 ==> hashes.digests().len() >= 1,
                        forall|x: int|
                            0 <= x < hashes.digests().len() ==> pool.seen_contains(
                                #[trigger] hashes.digests()[x],
                            ),
                    decreases rl@.len() - li2,
                {
                    let l = rl[li2];
                    let k = combo[li2];
                    proof {
                        assert(glines[li2 as int] == l as int);
                        assert(gks[li2 as int] == k as int);
                    }
                    let idx = match self.find_line(l) {
                        Some(i) => i,
                        None => {
                            proof {
                                assert(false);
                            }
                            0
                        },
                    };
                    let ws = self.unpersisted_content[idx].1.all_writes();
                    let ghost wsm = ws@.map_values(|s: Store| s@);
                    let ghost img0 = img@;
                    proof {
                        assert(m.line_ok(idx as int));
                        assert(wsm == table_at(m.table, l as int).writes);
                    }
                    let mut j: usize = 0;
                    while j < k
                        invariant
                            j <= k,
                            k <= wsm.len(),
                            ws@.map_values(|s: Store| s@) == wsm,
                            forall|q: int|
                                0 <= q < wsm.len() ==> (#[trigger] wsm[q]).wf() && wsm[q].end()
                                    <= img0.len(),
                            img@ == apply_stores(img0, wsm.take(j as int)),
                            img@.len() == img0.len(),
                        decreases k - j,
                    {
                        proof {
                            assert(ws@[j as int]@ == wsm[j as int]);
                        }
                        apply_store_to(&mut img, &ws[j]);
                        proof {
                            lemma_apply_stores_snoc(img0, wsm.take(j as int), wsm[j as int]);
                            assert(wsm.take(j + 1) =~= wsm.take(j as int).push(wsm[j as int]));
                        }
                        j += 1;
                    }
                    proof {
                        lemma_overlay_prefixes_snoc(
                            m.persisted,
                            m,
                            glines.take(li2 as int),
                            gks.take(li2 as int),
                            l as int,
                            k as int,
                        );
                        assert(glines.take(li2 + 1) =~= glines.take(li2 as int).push(l as int));
                        assert(gks.take(li2 + 1) =~= gks.take(li2 as int).push(k as int));
                        assert(wsm.take(k as int) == table_at(m.table, l as int).writes.take(
                            k as int,
                        ));
                        assert(img@ == overlay_prefixes(
                            m.persisted,
                            m,
                            glines.take(li2 + 1),
                            gks.take(li2 + 1),
                        ));
                    }
                    let ghost poolpre = *pool;
                    let res = pool.persist(img.as_slice());
                    proof {
                        lemma_persist_post_evolves(poolpre, *pool, img@, res);
                        lemma_pool_evolves_trans(*old(pool), poolpre, *pool);
                    }
                    match res {
                        Ok((_, h)) => {
                            proof {
                                let wl = glines.take(li2 + 1);
                                let wk = gks.take(li2 + 1);
                                assert(pm_valid_partial(m, wl, wk));
                                assert(h@ == blake3_of(pm_partial_image(m, wl, wk)));
                            }
                            let ghost hpre = hashes;
                            hashes.insert(h);
                            proof {
                                let wl = glines.take(li2 + 1);
                                let wk = gks.take(li2 + 1);
                                assert forall|x: int|
                                    0 <= x < hashes.digests().len() implies exists|
                                    lines: Seq<int>,
                                    ks: Seq<int>,
                                |
                                    pm_valid_partial(m, lines, ks)
                                        && #[trigger] hashes.digests()[x] == blake3_of(
                                        pm_partial_image(m, lines, ks),
                                    ) by {
                                    if x < hpre.digests().len() {
                                        assert(hashes.digests()[x] == hpre.digests()[x]);
                                    } else {
                                        assert(hashes.digests()[x] == h@);
                                        assert(pm_valid_partial(m, wl, wk) && h@ == blake3_of(
                                            pm_partial_image(m, wl, wk),
                                        ));
                                    }
                                }
                                crate::image::lemma_persist_post_outcome(
                                    poolpre,
                                    *pool,
                                    img@,
                                    res,
                                );
                                assert(pool.seen_contains(h@)) by {
                                    if poolpre.seen_contains(blake3_of(img@)) {
                                    } else {
                                        assert(pool.seen()[pool.seen().len() - 1] == blake3_of(
                                            img@,
                                        ));
                                    }
                                }
                                assert forall|x: int|
                                    0 <= x < hashes.digests().len() implies pool.seen_contains(
                                    #[trigger] hashes.digests()[x],
                                ) by {
                                    if x < hpre.digests().len() {
                                        assert(hashes.digests()[x] == hpre.digests()[x]);
                                        crate::image::lemma_evolves_preserves_seen(
                                            poolpre,
                                            *pool,
                                            hpre.digests()[x],
                                        );
                                    } else {
                                        assert(hashes.digests()[x] == h@);
                                    }
                                }
                                assert(hashes.digests().len() >= 1) by {
                                    if hpre.contains_digest(h@) {
                                        assert(hashes.digests().len() == hpre.digests().len());
                                        assert(hpre.digests().len() >= 1);
                                    }
                                }
                            }
                        },
                        Err(e) => {
                            proof {
                                crate::image::lemma_persist_post_outcome(
                                    poolpre,
                                    *pool,
                                    img@,
                                    res,
                                );
                                assert(pool_offer_rejected(*pool, img@));
                            }
                            return Err(e);
                        },
                    }
                    li2 += 1;
                }
                ci += 1;
            }
            si += 1;
        }
        Ok(hashes)
    }

    /// How many stores line `l` buffers; zero when the line is absent.
    fn line_len(&self, l: usize) -> (r: usize)
        requires
            self@.table_wf(),
        ensures
            table_has(self@.table, l as int) ==> r == table_at(self@.table, l as int).writes.len(),
            !table_has(self@.table, l as int) ==> r == 0,
    {
        match self.find_line(l) {
            Some(i) => {
                proof {
                    assert(table_at(self@.table, l as int) == self@.table[i as int].1);
                    assert(self@.table[i as int].1 == self.unpersisted_content@[i as int].1@);
                }
                self.unpersisted_content[i].1.len()
            },
            None => 0,
        }
    }

    /// The device capacity in bytes.
    pub fn persisted_len(&self) -> (r: usize)
        ensures
            r == self@.persisted.len(),
    {
        self.persisted_content.len()
    }

    /// Whether any line is marked and awaiting a fence.
    pub fn has_pending_lines(&self) -> (r: bool)
        ensures
            r == (self@.pending.len() > 0),
    {
        self.pending_lines.len() > 0
    }

    /// Whether any line buffers unpersisted stores.
    pub fn has_unpersisted_content(&self) -> (r: bool)
        ensures
            r == (self@.table.len() > 0),
    {
        self.unpersisted_content.len() > 0
    }
}

} // verus!
