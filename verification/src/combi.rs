//! Subset and product enumeration for image sampling.
//!
//! The sampling caps keep these enumerations tiny: exhaustive subset
//! enumeration runs only while the powerset stays below the subset cap,
//! and the full Cartesian product only while it stays below the
//! partial-flush cap.  The contracts state what every produced choice is
//! made of; the enumeration order is stable so that equal random draws
//! reproduce equal runs.

use vstd::prelude::*;

use crate::rng::{rng_bool, rng_usize};

verus! {

/// Every element of every produced subset comes from `items`, and no
/// produced subset is empty.
pub open spec fn subsets_ok(r: Seq<Vec<usize>>, items: Seq<usize>) -> bool {
    forall|i: int|
        0 <= i < r.len() ==> (#[trigger] r[i])@.len() >= 1 && forall|j: int|
            0 <= j < r[i]@.len() ==> items.contains(#[trigger] r[i]@[j])
}

/// The subset of `items` from position `i` on that a counter value
/// selects: the items whose bit in `mask` is set, in item order.
pub open spec fn mask_subset(items: Seq<usize>, mask: usize, i: int) -> Seq<usize>
    decreases items.len() - i,
{
    if i < 0 || i >= items.len() {
        Seq::empty()
    } else {
        (if (mask >> (i as usize)) & 1 == 1 {
            seq![items[i]]
        } else {
            Seq::empty()
        }) + mask_subset(items, mask, i + 1)
    }
}

/// Every non-empty subset of `items`, enumerated in binary-counter
/// order: the subset numbered `mask` holds exactly the items whose bit
/// of `mask` is set, in item order, so exactly the non-empty subsets
/// appear, one per counter value.
pub fn nonempty_subsets(items: &Vec<usize>) -> (r: Vec<Vec<usize>>)
    requires
        items@.len() < 16,
    ensures
        subsets_ok(r@, items@),
        r@.len() + 1 == 1usize << (items@.len() as usize),
        forall|k: int|
            0 <= k < r@.len() ==> (#[trigger] r@[k])@ == mask_subset(
                items@,
                (k + 1) as usize,
                0,
            ),
        items@.len() >= 1 ==> r@.len() >= 1,
{
    let n = items.len();
    let total: usize = 1usize << n;
    proof {
        if n >= 1 {
            assert(1usize << (n as usize) >= 2) by (bit_vector)
                requires
                    1 <= n < 16,
            ;
        } else {
            let nv = n;
            assert(1usize << nv == 1) by (bit_vector)
                requires
                    nv == 0usize,
            ;
        }
    }
    let mut r: Vec<Vec<usize>> = Vec::new();
    let mut mask: usize = 1;
    while mask < total
        invariant
            subsets_ok(r@, items@),
            n == items@.len(),
            n < 16,
            mask >= 1,
            total == 1usize << (n as usize),
            n == 0 ==> total == 1,
            mask <= total,
            r@.len() + 1 == mask,
            forall|k: int|
                0 <= k < r@.len() ==> (#[trigger] r@[k])@ == mask_subset(
                    items@,
                    (k + 1) as usize,
                    0,
                ),
        decreases total - mask,
    {
        let mut subset: Vec<usize> = Vec::new();
        proof {
            let mv = mask;
            assert((mv >> 0usize) << 0usize == mv) by (bit_vector);
            assert(Seq::<usize>::empty() + mask_subset(items@, mask, 0) =~= mask_subset(
                items@,
                mask,
                0,
            ));
        }
        let mut i: usize = 0;
        while i < n
            invariant
                i <= n,
                n < 16,
                n == items@.len(),
                mask >= 1,
                total == 1usize << (n as usize),
                mask < total,
                forall|j: int| 0 <= j < subset@.len() ==> items@.contains(#[trigger] subset@[j]),
                subset@.len() == 0 ==> (mask >> i) << i == mask,
                subset@ + mask_subset(items@, mask, i as int) == mask_subset(items@, mask, 0),
            decreases n - i,
        {
            let ghost sub0 = subset@;
            if (mask >> i) & 1 == 1 {
                let e = items[i];
                proof {
                    assert(items@.contains(e));
                }
                subset.push(e);
                proof {
                    assert(mask_subset(items@, mask, i as int) == seq![items@[i as int]]
                        + mask_subset(items@, mask, i + 1));
                    assert(subset@ + mask_subset(items@, mask, i + 1) =~= sub0 + mask_subset(
                        items@,
                        mask,
                        i as int,
                    ));
                }
            } else {
                proof {
                    assert(mask_subset(items@, mask, i as int) =~= Seq::<usize>::empty()
                        + mask_subset(items@, mask, i + 1));
                    assert(subset@ + mask_subset(items@, mask, i + 1) =~= sub0 + mask_subset(
                        items@,
                        mask,
                        i as int,
                    ));
                    // a clear bit extends the run of clear low bits
                    let mv = mask;
                    let iv = i;
                    let iv1 = (iv + 1) as usize;
                    assert((((mv >> iv) & 1 != 1) && ((mv >> iv) << iv == mv)) ==> ((mv >> iv1)
                        << iv1 == mv)) by (bit_vector)
                        requires
                            iv < 16usize,
                            iv1 == iv + 1,
                    ;
                }
            }
            i += 1;
        }
        proof {
            // the counter value has a set bit below `n`, so the subset
            // cannot be empty
            if subset.len() == 0 {
                let mv = mask;
                let nv = n;
                assert(!(((mv >> nv) << nv == mv) && 1 <= mv && mv < (1usize << nv)))
                    by (bit_vector)
                    requires
                        nv < 16usize,
                ;
                assert(false);
            }
        }
        proof {
            assert(mask_subset(items@, mask, n as int) == Seq::<usize>::empty());
            assert(subset@ =~= subset@ + mask_subset(items@, mask, n as int));
            assert(subset@ == mask_subset(items@, mask, 0));
        }
        if subset.len() > 0 {
            r.push(subset);
        }
        mask += 1;
    }
    r
}

/// `amount` random non-empty subsets of `items`: each item joins a
/// subset with an independent coin flip; a draw that comes up empty is
/// retried a bounded number of times and then falls back to one random
/// item, so that the draw always ends.
pub fn random_nonempty_subsets(
    rng: &mut fastrand::Rng,
    items: &Vec<usize>,
    amount: usize,
) -> (r: Vec<Vec<usize>>)
    requires
        items@.len() >= 1,
    ensures
        subsets_ok(r@, items@),
        r@.len() == amount,
{
    let mut r: Vec<Vec<usize>> = Vec::new();
    let mut c: usize = 0;
    while c < amount
        invariant
            c <= amount,
            r@.len() == c,
            items@.len() >= 1,
            subsets_ok(r@, items@),
        decreases amount - c,
    {
        let mut subset: Vec<usize> = Vec::new();
        let mut attempts: usize = 0;
        while subset.len() == 0 && attempts < 32
            invariant
                items@.len() >= 1,
                forall|j: int| 0 <= j < subset@.len() ==> items@.contains(#[trigger] subset@[j]),
            decreases 32 - attempts,
        {
            let mut i: usize = 0;
            while i < items.len()
                invariant
                    i <= items@.len(),
                    forall|j: int|
                        0 <= j < subset@.len() ==> items@.contains(#[trigger] subset@[j]),
                decreases items@.len() - i,
            {
                if rng_bool(rng) {
                    let e = items[i];
                    proof {
                        assert(items@.contains(e));
                    }
                    subset.push(e);
                }
                i += 1;
            }
            attempts += 1;
        }
        if subset.len() == 0 {
            let i = rng_usize(rng, 0, items.len());
            let e = items[i];
            proof {
                assert(items@.contains(e));
            }
            subset.push(e);
        }
        r.push(subset);
        c += 1;
    }
    r
}

/// The number of tuples the product of `lists[j..]` holds.
pub open spec fn suffix_product(lists: Seq<Vec<usize>>, j: int) -> int
    decreases lists.len() - j,
{
    if j < 0 || j >= lists.len() {
        1
    } else {
        lists[j]@.len() * suffix_product(lists, j + 1)
    }
}

/// The mixed-radix value of an odometer state, counting from `j`: how
/// many tuples precede the tuple the state names.
pub open spec fn odo_value(idx: Seq<usize>, lists: Seq<Vec<usize>>, j: int) -> int
    decreases lists.len() - j,
{
    if j < 0 || j >= lists.len() {
        0
    } else {
        idx[j] * suffix_product(lists, j + 1) + odo_value(idx, lists, j + 1)
    }
}

/// A zero factor makes every enclosing product zero.
proof fn lemma_suffix_product_zero(lists: Seq<Vec<usize>>, j: int, z: int)
    requires
        0 <= j <= z < lists.len(),
        lists[z]@.len() == 0,
    ensures
        suffix_product(lists, j) == 0,
    decreases lists.len() - j,
{
    if j == z {
        assert(suffix_product(lists, j) == 0 * suffix_product(lists, j + 1));
    } else {
        lemma_suffix_product_zero(lists, j + 1, z);
        assert(suffix_product(lists, j) == lists[j]@.len() * 0);
    }
}

/// With every list non-empty the product counts at least one tuple.
proof fn lemma_suffix_product_pos(lists: Seq<Vec<usize>>, j: int)
    requires
        forall|k: int| 0 <= k < lists.len() ==> (#[trigger] lists[k])@.len() >= 1,
    ensures
        suffix_product(lists, j) >= 1,
    decreases lists.len() - j,
{
    if 0 <= j < lists.len() {
        lemma_suffix_product_pos(lists, j + 1);
        vstd::arithmetic::mul::lemma_mul_inequality(
            1,
            lists[j]@.len() as int,
            suffix_product(lists, j + 1),
        );
        vstd::arithmetic::mul::lemma_mul_is_commutative(
            lists[j]@.len() as int,
            suffix_product(lists, j + 1),
        );
    }
}

/// An all-zero odometer suffix names the first remaining tuple.
proof fn lemma_odo_value_zeros(idx: Seq<usize>, lists: Seq<Vec<usize>>, j: int)
    requires
        idx.len() == lists.len(),
        forall|k: int| j <= k < idx.len() ==> (#[trigger] idx[k]) == 0,
    ensures
        odo_value(idx, lists, j) == 0,
    decreases lists.len() - j,
{
    if 0 <= j < lists.len() {
        lemma_odo_value_zeros(idx, lists, j + 1);
        assert(odo_value(idx, lists, j) == 0 * suffix_product(lists, j + 1) + 0);
    }
}

/// An all-maximal odometer suffix names the last remaining tuple.
proof fn lemma_odo_value_max(idx: Seq<usize>, lists: Seq<Vec<usize>>, j: int)
    requires
        0 <= j,
        idx.len() == lists.len(),
        forall|k: int| 0 <= k < lists.len() ==> (#[trigger] lists[k])@.len() >= 1,
        forall|k: int| j <= k < idx.len() ==> (#[trigger] idx[k]) == lists[k]@.len() - 1,
    ensures
        odo_value(idx, lists, j) == suffix_product(lists, j) - 1,
    decreases lists.len() - j,
{
    if j >= lists.len() {
    } else {
        lemma_odo_value_max(idx, lists, j + 1);
        let s1 = suffix_product(lists, j + 1);
        let lj = lists[j]@.len() as int;
        assert(odo_value(idx, lists, j) == (lj - 1) * s1 + (s1 - 1));
        vstd::arithmetic::mul::lemma_mul_is_distributive_sub_other_way(s1, lj, 1);
        assert((lj - 1) * s1 == lj * s1 - s1);
    }
}

/// No state names a tuple past the last one.
proof fn lemma_odo_value_le_max(idx: Seq<usize>, lists: Seq<Vec<usize>>, j: int)
    requires
        idx.len() == lists.len(),
        forall|k: int| 0 <= k < lists.len() ==> (#[trigger] lists[k])@.len() >= 1,
        forall|k: int| 0 <= k < idx.len() ==> (#[trigger] idx[k]) < lists[k]@.len(),
    ensures
        odo_value(idx, lists, j) <= suffix_product(lists, j) - 1,
    decreases lists.len() - j,
{
    if j < 0 || j >= lists.len() {
    } else {
        lemma_odo_value_le_max(idx, lists, j + 1);
        let s1 = suffix_product(lists, j + 1);
        lemma_suffix_product_pos(lists, j + 1);
        vstd::arithmetic::mul::lemma_mul_inequality(
            idx[j] as int,
            lists[j]@.len() - 1,
            s1,
        );
        vstd::arithmetic::mul::lemma_mul_is_distributive_sub_other_way(
            s1,
            lists[j]@.len() as int,
            1,
        );
    }
}

/// Advancing the odometer at position `p` — incrementing it there and
/// zeroing everything to the right, which was maximal — counts one more
/// tuple.
proof fn lemma_odo_value_step(
    old_idx: Seq<usize>,
    new_idx: Seq<usize>,
    lists: Seq<Vec<usize>>,
    p: int,
)
    requires
        0 <= p < lists.len(),
        old_idx.len() == lists.len(),
        new_idx.len() == lists.len(),
        forall|k: int| 0 <= k < lists.len() ==> (#[trigger] lists[k])@.len() >= 1,
        forall|k: int| 0 <= k < p ==> (#[trigger] new_idx[k]) == old_idx[k],
        new_idx[p] == old_idx[p] + 1,
        forall|k: int| p < k < lists.len() ==> (#[trigger] old_idx[k]) == lists[k]@.len() - 1,
        forall|k: int| p < k < lists.len() ==> (#[trigger] new_idx[k]) == 0,
    ensures
        odo_value(new_idx, lists, 0) == odo_value(old_idx, lists, 0) + 1,
    decreases p,
{
    if p == 0 {
        lemma_odo_value_zeros(new_idx, lists, 1);
        lemma_odo_value_max(old_idx, lists, 1);
        let s1 = suffix_product(lists, 1);
        assert(odo_value(new_idx, lists, 0) == (old_idx[0] + 1) * s1 + 0);
        assert(odo_value(old_idx, lists, 0) == old_idx[0] * s1 + (s1 - 1));
        vstd::arithmetic::mul::lemma_mul_is_distributive_add_other_way(
            s1,
            old_idx[0] as int,
            1,
        );
        assert((old_idx[0] + 1) * s1 == old_idx[0] * s1 + s1);
    } else {
        lemma_odo_value_step(old_idx.drop_first(), new_idx.drop_first(), lists.drop_first(), p - 1);
        assert(new_idx[0] == old_idx[0]);
        lemma_odo_drop_first(old_idx, lists);
        lemma_odo_drop_first(new_idx, lists);
        lemma_suffix_drop_first(lists);
    }
}

/// The value from position one equals the value of the dropped-head state.
proof fn lemma_odo_drop_first(idx: Seq<usize>, lists: Seq<Vec<usize>>)
    requires
        idx.len() == lists.len(),
        lists.len() >= 1,
    ensures
        odo_value(idx, lists, 1) == odo_value(idx.drop_first(), lists.drop_first(), 0),
{
    lemma_odo_shift(idx, lists, 1);
}

/// Values and products shift with the head dropped.
proof fn lemma_odo_shift(idx: Seq<usize>, lists: Seq<Vec<usize>>, j: int)
    requires
        idx.len() == lists.len(),
        lists.len() >= 1,
        1 <= j,
    ensures
        odo_value(idx, lists, j) == odo_value(idx.drop_first(), lists.drop_first(), j - 1),
        suffix_product(lists, j) == suffix_product(lists.drop_first(), j - 1),
    decreases lists.len() - j,
{
    if j >= lists.len() {
    } else {
        lemma_odo_shift(idx, lists, j + 1);
        assert(lists.drop_first()[j - 1] == lists[j]);
        assert(idx.drop_first()[j - 1] == idx[j]);
    }
}

/// The head drop shifts the product too.
proof fn lemma_suffix_drop_first(lists: Seq<Vec<usize>>)
    requires
        lists.len() >= 1,
    ensures
        suffix_product(lists, 1) == suffix_product(lists.drop_first(), 0),
{
    if lists.len() == 1 {
    } else {
        let idx = Seq::<usize>::new(lists.len(), |k: int| 0usize);
        lemma_odo_shift(idx, lists, 1);
    }
}

/// Every produced tuple takes its `i`-th component from `lists[i]`.
pub open spec fn tuples_ok(r: Seq<Vec<usize>>, lists: Seq<Vec<usize>>) -> bool {
    forall|i: int|
        0 <= i < r.len() ==> (#[trigger] r[i])@.len() == lists.len() && forall|j: int|
            0 <= j < lists.len() ==> lists[j]@.contains(#[trigger] r[i]@[j])
}

/// The tuple is the one the odometer state `w` names, and that state
/// counts `k` tuples before it: the `k`-th tuple of the enumeration.
pub open spec fn tuple_matches(
    t: Seq<usize>,
    w: Seq<usize>,
    lists: Seq<Vec<usize>>,
    k: int,
) -> bool {
    &&& w.len() == lists.len()
    &&& t.len() == lists.len()
    &&& odo_value(w, lists, 0) == k
    &&& forall|j: int|
        0 <= j < lists.len() ==> (#[trigger] w[j]) < lists[j]@.len() && t[j] == lists[j]@[w[j] as int]
}

/// The tuples are exactly the enumeration the odometer walks: some
/// sequence of odometer states pairs each tuple with its position.
pub open spec fn product_enumerated(r: Seq<Vec<usize>>, lists: Seq<Vec<usize>>) -> bool {
    exists|ws: Seq<Seq<usize>>|
        #![trigger ws.len()]
        ws.len() == r.len() && forall|k: int|
            0 <= k < r.len() ==> #[trigger] tuple_matches(r[k]@, ws[k], lists, k)
}

/// The full Cartesian product of the lists, odometer order: the last
/// component varies fastest.  With any list empty the product is empty.
pub fn cartesian_product(lists: &Vec<Vec<usize>>) -> (r: Vec<Vec<usize>>)
    ensures
        tuples_ok(r@, lists@),
        r@.len() == suffix_product(lists@, 0),
        product_enumerated(r@, lists@),
        (forall|j: int| 0 <= j < lists@.len() ==> (#[trigger] lists@[j])@.len() >= 1) ==> r@.len()
            >= 1,
{
    let n = lists.len();
    let mut r: Vec<Vec<usize>> = Vec::new();
    let mut i: usize = 0;
    while i < n
        invariant
            i <= n,
            n == lists@.len(),
            r@.len() == 0,
            forall|j: int| 0 <= j < i ==> (#[trigger] lists@[j])@.len() >= 1,
        decreases n - i,
    {
        if lists[i].len() == 0 {
            proof {
                lemma_suffix_product_zero(lists@, 0, i as int);
                let ws = Seq::<Seq<usize>>::empty();
                assert(ws.len() == r@.len());
                assert(product_enumerated(r@, lists@));
            }
            return r;
        }
        i += 1;
    }
    proof {
        if n >= 1 {
            lemma_suffix_product_pos(lists@, 0);
        }
    }
    // every list is non-empty; run an odometer over the indices
    let mut idx: Vec<usize> = Vec::new();
    let mut k: usize = 0;
    while k < n
        invariant
            k <= n,
            n == lists@.len(),
            idx@.len() == k,
            forall|j: int| 0 <= j < n ==> (#[trigger] lists@[j])@.len() >= 1,
            forall|j: int| 0 <= j < k ==> (#[trigger] idx@[j]) == 0,
        decreases n - k,
    {
        idx.push(0);
        k += 1;
    }
    // the odometer stops after one full wrap: the tuple count it has
    // emitted climbs to the product of the list lengths
    proof {
        lemma_odo_value_zeros(idx@, lists@, 0);
        lemma_odo_value_le_max(idx@, lists@, 0);
    }
    let ghost mut wits: Seq<Seq<usize>> = Seq::empty();
    let mut done = false;
    while !done
        invariant
            n == lists@.len(),
            idx@.len() == n,
            forall|j: int| 0 <= j < n ==> (#[trigger] lists@[j])@.len() >= 1,
            forall|j: int| 0 <= j < n ==> (#[trigger] idx@[j]) < lists@[j]@.len(),
            tuples_ok(r@, lists@),
            wits.len() == r@.len(),
            forall|k: int|
                0 <= k < r@.len() ==> #[trigger] tuple_matches(r@[k]@, wits[k], lists@, k),
            !done ==> r@.len() == odo_value(idx@, lists@, 0),
            done ==> r@.len() == suffix_product(lists@, 0),
            done ==> r@.len() >= 1,
            odo_value(idx@, lists@, 0) <= suffix_product(lists@, 0) - 1,
        decreases (if done {
            0int
        } else {
            1int
        }), suffix_product(lists@, 0) - odo_value(idx@, lists@, 0),
    {
        let mut tuple: Vec<usize> = Vec::new();
        let mut t: usize = 0;
        while t < n
            invariant
                t <= n,
                n == lists@.len(),
                idx@.len() == n,
                tuple@.len() == t,
                forall|j: int| 0 <= j < n ==> (#[trigger] idx@[j]) < lists@[j]@.len(),
                forall|j: int| 0 <= j < t ==> lists@[j]@.contains(#[trigger] tuple@[j]),
                forall|j: int| 0 <= j < t ==> #[trigger] tuple@[j] == lists@[j]@[idx@[j] as int],
            decreases n - t,
        {
            let e = lists[t][idx[t]];
            proof {
                assert(lists@[t as int]@.contains(e));
            }
            tuple.push(e);
            t += 1;
        }
        r.push(tuple);
        proof {
            wits = wits.push(idx@);
            assert(tuple_matches(r@[r@.len() - 1]@, idx@, lists@, r@.len() - 1));
        }
        // advance the odometer from the rightmost position
        let ghost old_idx = idx@;
        let mut pos = n;
        let mut carried = true;
        while carried && pos > 0
            invariant
                pos <= n,
                n == lists@.len(),
                idx@.len() == n,
                old_idx.len() == n,
                forall|j: int| 0 <= j < n ==> (#[trigger] lists@[j])@.len() >= 1,
                forall|j: int| 0 <= j < n ==> (#[trigger] idx@[j]) < lists@[j]@.len(),
                forall|j: int| 0 <= j < n ==> (#[trigger] old_idx[j]) < lists@[j]@.len(),
                forall|j: int| 0 <= j < pos ==> (#[trigger] idx@[j]) == old_idx[j],
                carried ==> (forall|j: int| pos <= j < n ==> (#[trigger] idx@[j]) == 0)
                    && (forall|j: int|
                    pos <= j < n ==> (#[trigger] old_idx[j]) == lists@[j]@.len() - 1),
                !carried ==> pos < n && idx@[pos as int] == old_idx[pos as int] + 1 && (forall|
                    j: int,
                |
                    pos < j < n ==> (#[trigger] idx@[j]) == 0) && (forall|j: int|
                    pos < j < n ==> (#[trigger] old_idx[j]) == lists@[j]@.len() - 1),
            decreases pos,
        {
            pos -= 1;
            let len_p = lists[pos].len();
            let cur = idx[pos];
            if cur + 1 < len_p {
                idx.set(pos, cur + 1);
                carried = false;
            } else {
                idx.set(pos, 0);
            }
        }
        proof {
            if carried {
                // a full wrap: the pushed tuple was the last one
                lemma_odo_value_max(old_idx, lists@, 0);
                lemma_odo_value_zeros(idx@, lists@, 0);
            } else {
                lemma_odo_value_step(old_idx, idx@, lists@, pos as int);
            }
            lemma_odo_value_le_max(idx@, lists@, 0);
            lemma_suffix_product_pos(lists@, 0);
        }
        if carried || n == 0 {
            done = true;
        }
    }
    proof {
        assert(wits.len() == r@.len());
        assert(product_enumerated(r@, lists@));
    }
    r
}

} // verus!
