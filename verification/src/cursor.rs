//! The cursor: navigates from the root to the correct leaf, applies an
//! operation, and recovers the tree invariants on overflow by
//! splitting.
//!
//! The cursor keeps a breadcrumb of `(cell index, page number)` pairs
//! recording the descent path, and is the sole authority on path
//! context; nodes carry no parent links.
use crate::btree::{
    count_lt, leaf_has_room, leaf_split_fits, lemma_count_lt_pinpoint, lemma_count_lt_sorted,
    node_full, node_has_key, Node, NodeResult,
};
use crate::cell::{Cell, InternalCell, LeafCell};
use crate::codec::{read_bytes_at, read_u64_at, u64_from_be, u64_to_be, u64_to_be_array};
use crate::layout::{INTERNAL_KEY_POINTER_SIZE, PAGE_KIND_LEAF};
use crate::layout::LEAF_NEXT_SIBLING_POINTER_DEFAULT;
use crate::page::{
    int_key, int_keys, int_n, int_ptr, int_ptrs, int_right, leaf_content, leaf_key, leaf_keys,
    leaf_n, leaf_next_raw, leaf_vals, leaf_wf, page_kind_byte, page_root_byte, page_wf, PageType,
};
use crate::table::Table;
use vstd::prelude::*;

verus! {

/// Where a traversal currently stands.
#[derive(Debug, Clone, PartialEq, Eq, Structural)]
pub enum CursorState {
    AtEnd,
    AtStart,
    InProgress,
}

/// Whether some cell of a leaf stores exactly `(key, val)`.
pub open spec fn leaf_stores(s: Seq<u8>, key: u64, val: Seq<u8>) -> bool {
    exists|i: int| 0 <= i < leaf_n(s) && leaf_key(s, i) == key && leaf_content(s, i) == val
}

/// Whether `val` is the value of some record in some leaf page of the
/// page sequence `t`.
pub open spec fn value_in_some_leaf(t: Seq<Seq<u8>>, val: Seq<u8>) -> bool {
    exists|p: int, i: int|
        #![trigger leaf_content(t[p], i)]
        0 <= p < t.len() && page_kind_byte(t[p]) == PAGE_KIND_LEAF && 0 <= i < leaf_n(t[p])
            && leaf_content(t[p], i) == val
}

/// The values of a chain of leaf pages, in chain order.
pub open spec fn chain_vals(t: Seq<Seq<u8>>, chain: Seq<int>) -> Seq<Seq<u8>>
    decreases chain.len(),
{
    if chain.len() == 0 {
        Seq::empty()
    } else {
        leaf_vals(t[chain[0]]) + chain_vals(t, chain.subrange(1, chain.len() as int))
    }
}

/// Visiting one more leaf appends exactly its values.
proof fn lemma_chain_vals_push(t: Seq<Seq<u8>>, chain: Seq<int>, p: int)
    ensures
        chain_vals(t, chain.push(p)) == chain_vals(t, chain) + leaf_vals(t[p]),
    decreases chain.len(),
{
    if chain.len() == 0 {
        let single = chain.push(p);
        assert(single.len() == 1);
        assert(single[0] == p);
        assert(chain_vals(t, single) == leaf_vals(t[single[0]]) + chain_vals(
            t,
            single.subrange(1, single.len() as int),
        ));
        assert(single.subrange(1, single.len() as int) =~= Seq::<int>::empty());
        assert(chain_vals(t, Seq::<int>::empty()) == Seq::<Seq<u8>>::empty());
        assert(leaf_vals(t[p]) + Seq::<Seq<u8>>::empty() =~= leaf_vals(t[p]));
        assert(chain_vals(t, chain) + leaf_vals(t[p]) =~= leaf_vals(t[p]));
    } else {
        let rest = chain.subrange(1, chain.len() as int);
        assert(chain.push(p).subrange(1, chain.len() as int + 1) =~= rest.push(p));
        lemma_chain_vals_push(t, rest, p);
        assert(chain_vals(t, chain.push(p)) == leaf_vals(t[chain[0]]) + chain_vals(
            t,
            rest.push(p),
        ));
        assert(leaf_vals(t[chain[0]]) + (chain_vals(t, rest) + leaf_vals(t[p])) =~= (leaf_vals(
            t[chain[0]],
        ) + chain_vals(t, rest)) + leaf_vals(t[p]));
    }
}

/// The leaf reached from page `p` by always following the first child
/// of each internal page. `None` when the walk is structurally broken:
/// a page number out of range, an internal page without cells, or a
/// descent deeper than the fuel allows.
pub open spec fn leftmost_leaf_from(t: Seq<Seq<u8>>, p: int, fuel: nat) -> Option<int>
    decreases fuel,
{
    if !(0 <= p < t.len()) {
        None
    } else if page_kind_byte(t[p]) == PAGE_KIND_LEAF {
        Some(p)
    } else if int_n(t[p]) == 0 {
        None
    } else if fuel == 0 {
        None
    } else {
        leftmost_leaf_from(t, int_ptr(t[p], 0) as int, (fuel - 1) as nat)
    }
}

/// The leaf an identifier routes to: from page `p`, follow at each
/// internal page the child chosen by the separator lower bound, or the
/// right-most child past the last separator. `None` when the walk is
/// structurally broken: a page number out of range, an internal page
/// without cells, or a descent deeper than the fuel allows.
pub open spec fn route_to_leaf(t: Seq<Seq<u8>>, p: int, key: u64, fuel: nat) -> Option<int>
    decreases fuel,
{
    if !(0 <= p < t.len()) {
        None
    } else if page_kind_byte(t[p]) == PAGE_KIND_LEAF {
        Some(p)
    } else if int_n(t[p]) == 0 {
        None
    } else if fuel == 0 {
        None
    } else {
        let pos = count_lt(int_keys(t[p]), key);
        let child = if pos < int_n(t[p]) as int {
            int_ptr(t[p], pos)
        } else {
            int_right(t[p])
        };
        route_to_leaf(t, child as int, key, (fuel - 1) as nat)
    }
}

/// The separator key a non-root stitch inserts for the right half of a
/// split of the child at breadcrumb index `idx`: the left half's high
/// key when the split child was the parent's right-most child (the
/// right half then takes over as the right-most child), the right
/// half's high key after a leaf split, and the split child's old
/// separator after an internal split.
pub open spec fn stitch_sep(
    s: Seq<u8>,
    idx: int,
    popped: u64,
    kind: PageType,
    max_key: u64,
    right_high: u64,
) -> u64 {
    if popped == int_right(s) {
        max_key
    } else if kind == PageType::Leaf {
        right_high
    } else {
        int_key(s, idx)
    }
}

/// Whether a non-root stitch lands in the parent without recursing:
/// the breadcrumb names a cell of a real internal parent with room,
/// the split child's page is not the root, the rewritten left
/// separator keeps the parent's key order, and the separator inserted
/// for the right half is fresh. Every stitch that follows a descent
/// through a tree whose separators cover their children meets this,
/// parent fullness aside.
pub open spec fn stitch_fits(
    s: Seq<u8>,
    idx: int,
    popped: u64,
    kind: PageType,
    max_key: u64,
    right_high: u64,
) -> bool {
    let pn = int_n(s) as int;
    &&& page_kind_byte(s) == crate::layout::PAGE_KIND_INTERNAL
    &&& 0 < pn
    &&& idx <= pn
    &&& popped != 0
    &&& !crate::btree::int_full(s)
    &&& (popped == int_right(s) ==> !int_keys(s).contains(max_key))
    &&& (popped != int_right(s) ==> {
        &&& idx < pn
        &&& (idx == 0 || int_key(s, idx - 1) < max_key)
        &&& (idx == pn - 1 || max_key < int_key(s, idx + 1))
        &&& !int_keys(s).update(idx, max_key).contains(
            stitch_sep(s, idx, popped, kind, max_key, right_high),
        )
    })
}

/// The parent's separator keys after a successful stitch: the split
/// child's separator (if it had one) rewritten to the left half's high
/// key, and the right half's separator inserted in sorted position.
pub open spec fn stitch_keys(
    s: Seq<u8>,
    idx: int,
    popped: u64,
    kind: PageType,
    max_key: u64,
    right_high: u64,
) -> Seq<u64> {
    let sep = stitch_sep(s, idx, popped, kind, max_key, right_high);
    let ks1 = if popped == int_right(s) {
        int_keys(s)
    } else {
        int_keys(s).update(idx, max_key)
    };
    let pos = count_lt(ks1, sep);
    if pos == int_n(s) as int {
        ks1.push(sep)
    } else {
        ks1.insert(pos, sep)
    }
}

/// The parent's child pointers after a successful stitch, aligned with
/// [`stitch_keys`]. An insert past the last separator pulls the old
/// right-most child down into the new last cell.
pub open spec fn stitch_ptrs(
    s: Seq<u8>,
    idx: int,
    popped: u64,
    kind: PageType,
    max_key: u64,
    right_high: u64,
    new_page: u64,
) -> Seq<u64> {
    let sep = stitch_sep(s, idx, popped, kind, max_key, right_high);
    let ks1 = if popped == int_right(s) {
        int_keys(s)
    } else {
        int_keys(s).update(idx, max_key)
    };
    let ps1 = if popped == int_right(s) {
        int_ptrs(s)
    } else {
        int_ptrs(s).update(idx, popped)
    };
    let pos = count_lt(ks1, sep);
    if pos == int_n(s) as int {
        ps1.push(int_right(s))
    } else {
        ps1.insert(pos, new_page)
    }
}

/// The parent's right-most child after a successful stitch: the new
/// sibling when its separator lands past every existing one, else
/// unchanged.
pub open spec fn stitch_right(
    s: Seq<u8>,
    idx: int,
    popped: u64,
    kind: PageType,
    max_key: u64,
    right_high: u64,
    new_page: u64,
) -> u64 {
    let sep = stitch_sep(s, idx, popped, kind, max_key, right_high);
    let ks1 = if popped == int_right(s) {
        int_keys(s)
    } else {
        int_keys(s).update(idx, max_key)
    };
    let pos = count_lt(ks1, sep);
    if pos == int_n(s) as int {
        new_page
    } else {
        int_right(s)
    }
}

/// What a finished scan guarantees of the chain of leaves it visited.
///
/// The output is the concatenation of the chain's values; every entry
/// is an in-range leaf page; consecutive entries are joined by their
/// next-sibling pointers. Unless the cursor already stood at the end,
/// the chain starts at the left-most leaf below `start` (and is empty
/// exactly when that descent is broken), and it stops only at a leaf
/// with no sibling — or at a named anomaly: a dangling sibling
/// pointer, a sibling that is not a leaf, or more visits than the
/// table has pages (a cycle). None of the anomalies can be produced by
/// this library's own operations.
pub open spec fn scan_chain_ok(
    t: Seq<Seq<u8>>,
    start: int,
    state: CursorState,
    chain: Seq<int>,
    out: Seq<Seq<u8>>,
) -> bool {
    &&& out == chain_vals(t, chain)
    &&& forall|k: int|
        0 <= k < chain.len() ==> 0 <= #[trigger] chain[k] < t.len() && page_kind_byte(t[chain[k]])
            == PAGE_KIND_LEAF
    &&& forall|k: int|
        0 <= k < chain.len() - 1 ==> leaf_next_raw(t[#[trigger] chain[k]]) as int == chain[k + 1]
    &&& (state == CursorState::AtEnd ==> chain.len() == 0)
    &&& (state != CursorState::AtEnd ==> {
        &&& (leftmost_leaf_from(t, start, t.len() as nat) matches Some(first) ==> chain.len() >= 1
            && chain[0] == first)
        &&& (leftmost_leaf_from(t, start, t.len() as nat) is None ==> chain.len() == 0)
        &&& (chain.len() >= 1 ==> (leaf_next_raw(t[chain.last()])
            == LEAF_NEXT_SIBLING_POINTER_DEFAULT || leaf_next_raw(t[chain.last()]) as int
            >= t.len() || page_kind_byte(t[leaf_next_raw(t[chain.last()]) as int])
            != PAGE_KIND_LEAF || chain.len() > t.len()))
    })
}

/// The keys of a chain of leaf pages, in chain order, at exactly the
/// positions where [`chain_vals`] lists the values.
pub open spec fn chain_keys(t: Seq<Seq<u8>>, chain: Seq<int>) -> Seq<u64>
    decreases chain.len(),
{
    if chain.len() == 0 {
        Seq::empty()
    } else {
        leaf_keys(t[chain[0]]) + chain_keys(t, chain.subrange(1, chain.len() as int))
    }
}

/// Every key the chain lists is a key of one of its leaves.
proof fn lemma_chain_keys_member(t: Seq<Seq<u8>>, chain: Seq<int>, j: int)
    requires
        0 <= j < chain_keys(t, chain).len(),
    ensures
        exists|k: int, b: int|
            #![trigger leaf_key(t[chain[k]], b)]
            0 <= k < chain.len() && 0 <= b < leaf_keys(t[chain[k]]).len() && chain_keys(t, chain)[j]
                == leaf_key(t[chain[k]], b),
    decreases chain.len(),
{
    let hk = leaf_keys(t[chain[0]]);
    let rest = chain.subrange(1, chain.len() as int);
    if j < hk.len() {
        assert(chain_keys(t, chain)[j] == hk[j]);
        assert(hk[j] == leaf_key(t[chain[0]], j));
    } else {
        lemma_chain_keys_member(t, rest, j - hk.len());
        let (k, b) = choose|k: int, b: int|
            #![trigger leaf_key(t[rest[k]], b)]
            0 <= k < rest.len() && 0 <= b < leaf_keys(t[rest[k]]).len() && chain_keys(t, rest)[j
                - hk.len()] == leaf_key(t[rest[k]], b);
        assert(rest[k] == chain[k + 1]);
        assert(chain_keys(t, chain)[j] == chain_keys(t, rest)[j - hk.len()]);
        assert(chain_keys(t, chain)[j] == leaf_key(t[chain[k + 1]], b));
    }
}

/// A scan yields records in strictly ascending key order, under the
/// cross-leaf ordering the sibling chain maintains: each leaf of the
/// chain is well formed (so sorted internally), and every key of an
/// earlier leaf is below every key of a later one. The values come
/// out in the same order, since `chain_vals` lists them at exactly
/// the positions `chain_keys` lists the keys.
pub proof fn lemma_scan_ascending(t: Seq<Seq<u8>>, chain: Seq<int>)
    requires
        forall|k: int|
            0 <= k < chain.len() ==> 0 <= #[trigger] chain[k] < t.len() && leaf_wf(t[chain[k]]),
        forall|k1: int, k2: int, a: int, b: int|
            #![trigger leaf_key(t[chain[k1]], a), leaf_key(t[chain[k2]], b)]
            0 <= k1 < k2 < chain.len() && 0 <= a < leaf_n(t[chain[k1]]) && 0 <= b < leaf_n(
                t[chain[k2]],
            ) ==> leaf_key(t[chain[k1]], a) < leaf_key(t[chain[k2]], b),
    ensures
        forall|i: int, j: int|
            0 <= i < j < chain_keys(t, chain).len() ==> #[trigger] chain_keys(t, chain)[i]
                < #[trigger] chain_keys(t, chain)[j],
    decreases chain.len(),
{
    if chain.len() > 0 {
        let hk = leaf_keys(t[chain[0]]);
        let rest = chain.subrange(1, chain.len() as int);
        let rk = chain_keys(t, rest);
        assert forall|k: int|
            0 <= k < rest.len() implies 0 <= #[trigger] rest[k] < t.len() && leaf_wf(
            t[rest[k]]) by {
            assert(rest[k] == chain[k + 1]);
        }
        assert forall|k1: int, k2: int, a: int, b: int|
            #![trigger leaf_key(t[rest[k1]], a), leaf_key(t[rest[k2]], b)]
            0 <= k1 < k2 < rest.len() && 0 <= a < leaf_n(t[rest[k1]]) && 0 <= b < leaf_n(
                t[rest[k2]],
            ) implies leaf_key(t[rest[k1]], a) < leaf_key(t[rest[k2]], b) by {
            assert(rest[k1] == chain[k1 + 1]);
            assert(rest[k2] == chain[k2 + 1]);
            assert(leaf_key(t[chain[k1 + 1]], a) < leaf_key(t[chain[k2 + 1]], b));
        }
        lemma_scan_ascending(t, rest);
        assert forall|i: int, j: int|
            0 <= i < j < chain_keys(t, chain).len() implies #[trigger] chain_keys(t, chain)[i]
            < #[trigger] chain_keys(t, chain)[j] by {
            if j < hk.len() {
                // Both in the first leaf, which is sorted.
                assert(hk[i] == leaf_key(t[chain[0]], i));
                assert(hk[j] == leaf_key(t[chain[0]], j));
            } else if i >= hk.len() {
                // Both in the tail chain; its keys are sorted.
                assert(chain_keys(t, chain)[i] == rk[i - hk.len()]);
                assert(chain_keys(t, chain)[j] == rk[j - hk.len()]);
            } else {
                // Across the boundary: the first leaf's key sits below
                // whichever later leaf the other key belongs to.
                assert(chain_keys(t, chain)[i] == hk[i]);
                assert(hk[i] == leaf_key(t[chain[0]], i));
                lemma_chain_keys_member(t, rest, j - hk.len());
                let (k, b) = choose|k: int, b: int|
                    #![trigger leaf_key(t[rest[k]], b)]
                    0 <= k < rest.len() && 0 <= b < leaf_keys(t[rest[k]]).len() && rk[j - hk.len()]
                        == leaf_key(t[rest[k]], b);
                assert(rest[k] == chain[k + 1]);
                assert(chain_keys(t, chain)[j] == rk[j - hk.len()]);
                assert(leaf_key(t[chain[0]], i) < leaf_key(t[chain[k + 1]], b));
            }
        }
    }
}

/// A sorted insert of `(key, val)` leaves the pair stored in the page.
proof fn lemma_insert_gives_stores(s_old: Seq<u8>, s_new: Seq<u8>, key: u64, val: Seq<u8>)
    requires
        leaf_wf(s_old),
        leaf_n(s_new) == leaf_n(s_old) + 1,
        leaf_keys(s_new) == leaf_keys(s_old).insert(count_lt(leaf_keys(s_old), key), key),
        leaf_vals(s_new) == leaf_vals(s_old).insert(count_lt(leaf_keys(s_old), key), val),
    ensures
        leaf_stores(s_new, key, val),
{
    let ks = leaf_keys(s_old);
    assert forall|i: int, j: int| 0 <= i < j < ks.len() implies ks[i] < ks[j] by {
        assert(ks[i] == leaf_key(s_old, i));
        assert(ks[j] == leaf_key(s_old, j));
    }
    lemma_count_lt_sorted(ks, key);
    let pos = count_lt(ks, key);
    ks.insert_ensures(pos, key);
    leaf_vals(s_old).insert_ensures(pos, val);
    assert(leaf_keys(s_new)[pos] == key);
    assert(leaf_vals(s_new)[pos] == val);
    assert(leaf_key(s_new, pos) == key);
    assert(leaf_content(s_new, pos) == val);
}

/// A split distributes the combined cells over the two halves, so the
/// inserted pair is stored in one of them.
proof fn lemma_split_gives_stores(
    s_old: Seq<u8>,
    s_left: Seq<u8>,
    s_right: Seq<u8>,
    key: u64,
    val: Seq<u8>,
)
    requires
        leaf_wf(s_old),
        ({
            let pos = count_lt(leaf_keys(s_old), key);
            let ks = leaf_keys(s_old).insert(pos, key);
            let vs = leaf_vals(s_old).insert(pos, val);
            let m = leaf_n(s_old) + 1;
            let lc = crate::btree::split_left_count(m as int);
            &&& leaf_n(s_left) == lc
            &&& leaf_n(s_right) == m - lc
            &&& leaf_keys(s_left) == ks.subrange(0, lc)
            &&& leaf_vals(s_left) == vs.subrange(0, lc)
            &&& leaf_keys(s_right) == ks.subrange(lc, m as int)
            &&& leaf_vals(s_right) == vs.subrange(lc, m as int)
        }),
    ensures
        leaf_stores(s_left, key, val) || leaf_stores(s_right, key, val),
{
    let ks0 = leaf_keys(s_old);
    assert forall|i: int, j: int| 0 <= i < j < ks0.len() implies ks0[i] < ks0[j] by {
        assert(ks0[i] == leaf_key(s_old, i));
        assert(ks0[j] == leaf_key(s_old, j));
    }
    lemma_count_lt_sorted(ks0, key);
    let pos = count_lt(ks0, key);
    let ks = ks0.insert(pos, key);
    let vs = leaf_vals(s_old).insert(pos, val);
    ks0.insert_ensures(pos, key);
    leaf_vals(s_old).insert_ensures(pos, val);
    let m = leaf_n(s_old) + 1;
    let lc = crate::btree::split_left_count(m as int);
    if pos < lc {
        assert(leaf_keys(s_left)[pos] == key);
        assert(leaf_vals(s_left)[pos] == val);
        assert(leaf_key(s_left, pos) == key);
        assert(leaf_content(s_left, pos) == val);
    } else {
        assert(leaf_keys(s_right)[pos - lc] == key);
        assert(leaf_vals(s_right)[pos - lc] == val);
        assert(leaf_key(s_right, pos - lc) == key);
        assert(leaf_content(s_right, pos - lc) == val);
    }
}

/// The high keys of the two leaf halves of a split are the last keys
/// of the two blocks of the combined sorted records.
proof fn lemma_halves_high_keys(
    s_old: Seq<u8>,
    s_left: Seq<u8>,
    s_right: Seq<u8>,
    identifier: u64,
    mk: u64,
    rh: u64,
)
    requires
        leaf_wf(s_old),
        leaf_n(s_old) >= 1,
        page_kind_byte(s_left) == PAGE_KIND_LEAF,
        page_kind_byte(s_right) == PAGE_KIND_LEAF,
        ({
            let pos = count_lt(leaf_keys(s_old), identifier);
            let ks = leaf_keys(s_old).insert(pos, identifier);
            let m = leaf_n(s_old) + 1;
            let lc = crate::btree::split_left_count(m as int);
            &&& leaf_keys(s_left) == ks.subrange(0, lc)
            &&& leaf_keys(s_right) == ks.subrange(lc, m as int)
        }),
        mk == crate::btree::node_key_at(s_left, crate::btree::node_n(s_left) as int - 1),
        rh == crate::btree::node_key_at(s_right, crate::btree::node_n(s_right) as int - 1),
    ensures
        ({
            let pos = count_lt(leaf_keys(s_old), identifier);
            let ks = leaf_keys(s_old).insert(pos, identifier);
            let m = leaf_n(s_old) + 1;
            let lc = crate::btree::split_left_count(m as int);
            &&& mk == ks[lc - 1]
            &&& rh == ks[m as int - 1]
        }),
{
    let ks0 = leaf_keys(s_old);
    let pos = count_lt(ks0, identifier);
    let ks = ks0.insert(pos, identifier);
    let m = leaf_n(s_old) + 1;
    let lc = crate::btree::split_left_count(m as int);
    assert forall|i: int, j: int| 0 <= i < j < ks0.len() implies ks0[i] < ks0[j] by {
        assert(ks0[i] == leaf_key(s_old, i));
        assert(ks0[j] == leaf_key(s_old, j));
    }
    lemma_count_lt_sorted(ks0, identifier);
    ks0.insert_ensures(pos, identifier);
    assert(leaf_keys(s_left).len() == lc);
    assert(leaf_n(s_left) == lc);
    assert(leaf_keys(s_left)[lc - 1] == leaf_key(s_left, lc - 1));
    assert(ks.subrange(0, lc)[lc - 1] == ks[lc - 1]);
    assert(leaf_keys(s_right).len() == m - lc);
    assert(leaf_n(s_right) == m - lc);
    assert(leaf_keys(s_right)[m as int - lc - 1] == leaf_key(s_right, m as int - lc - 1));
    assert(ks.subrange(lc, m as int)[m as int - lc - 1] == ks[m as int - 1]);
}

/// Serializes a page number into the pointer bytes an internal cell
/// carries.
fn pointer_bytes(v: u64) -> (r: Vec<u8>)
    ensures
        r@ == u64_to_be(v),
{
    let arr = u64_to_be_array(v);
    let mut out: Vec<u8> = Vec::new();
    let mut i: usize = 0;
    while i < 8
        invariant
            i <= 8,
            arr@ == u64_to_be(v),
            out@ == arr@.subrange(0, i as int),
        decreases 8 - i,
    {
        out.push(arr[i]);
        proof {
            assert(out@ =~= arr@.subrange(0, i + 1));
        }
        i = i + 1;
    }
    proof {
        assert(arr@.subrange(0, 8) =~= arr@);
    }
    out
}

/// Traversal mechanism for the tree.
///
/// Provides the functionality to retrieve and add records in a table.
pub struct Cursor {
    /// The cell index within the current node.
    pub cell_num: u64,
    /// The current node: a working copy of the page the cursor stands
    /// on, written back through the table after every mutation.
    pub node: Node,
    /// Where the traversal stands.
    pub state: CursorState,
    /// The parent cell index and page number of every ancestor, ending
    /// with the current page.
    pub page_breadcrumb: Vec<(u64, u64)>,
}

impl Cursor {
    /// The cursor is consistent with the table: a non-empty breadcrumb
    /// of in-range page numbers whose last entry is the page the
    /// current node is a copy of.
    pub open spec fn inv(&self, t: Table) -> bool {
        &&& t.inv()
        &&& self.node.inv()
        &&& self.page_breadcrumb@.len() >= 1
        &&& forall|i: int|
            0 <= i < self.page_breadcrumb@.len() ==> (#[trigger] self.page_breadcrumb@[i].1
                as int) < t@.len()
        &&& self.node.page@ == t@[self.page_breadcrumb@.last().1 as int]
    }

    /// Create a new cursor object for a table, standing on the root.
    pub fn new(table: &mut Table) -> (r: Cursor)
        requires
            old(table).inv(),
        ensures
            *final(table) == *old(table),
            r.inv(*final(table)),
            r.page_breadcrumb@ =~= seq![(0u64, 0u64)],
            r.cell_num == 0,
            r.node.page@ == old(table)@[0],
            r.state == (if crate::btree::node_n(old(table)@[0]) == 0 {
                CursorState::AtEnd
            } else {
                CursorState::AtStart
            }),
    {
        let node = match Node::load(table.root_page()) {
            Ok(n) => n,
            Err(_) => {
                proof {
                    assert(false);
                }
                vstd::pervasive::unreached()
            },
        };
        let state = if node.num_cells() == 0 {
            CursorState::AtEnd
        } else {
            CursorState::AtStart
        };
        let mut page_breadcrumb: Vec<(u64, u64)> = Vec::new();
        page_breadcrumb.push((0, table.root));
        Cursor { page_breadcrumb, cell_num: 0, node, state }
    }

    /// Inserts a new record into the table.
    ///
    /// Descends to the leaf that covers `identifier` (the routing is
    /// pinned by [`route_to_leaf`]), inserts there, and splits on
    /// overflow. A duplicate key is refused with an unchanged table; a
    /// fresh key whose value fits a non-full leaf is guaranteed to be
    /// stored, with every other page untouched.
    ///
    /// A structurally broken tree — one no operation of this library
    /// produces, since opening a file validates every page — surfaces
    /// as a recoverable error with the table unchanged rather than
    /// ending the process.
    pub fn insert(&mut self, table: &mut Table, identifier: u64, content: Vec<u8>) -> (r: Result<
        (),
        String,
    >)
        requires
            old(self).inv(*old(table)),
        ensures
            final(table).inv(),
            final(self).inv(*final(table)),
            ({
                let t0 = old(table)@;
                let target = route_to_leaf(
                    t0,
                    old(self).page_breadcrumb@.last().1 as int,
                    identifier,
                    t0.len() as nat,
                );
                &&& (target is None ==> r is Err && *final(table) == *old(table))
                &&& (target matches Some(p) ==> {
                    &&& (node_has_key(t0[p], identifier) ==> (r matches Err(m) && m@
                        == "duplicate key"@ && *final(table) == *old(table)))
                    &&& (!node_has_key(t0[p], identifier) && !node_full(t0[p]) && leaf_has_room(
                        t0[p],
                        content@.len() as int,
                    ) ==> {
                        let pos = count_lt(leaf_keys(t0[p]), identifier);
                        &&& r is Ok
                        &&& final(table)@.len() == t0.len()
                        &&& leaf_n(final(table)@[p]) == leaf_n(t0[p]) + 1
                        &&& leaf_keys(final(table)@[p]) == leaf_keys(t0[p]).insert(
                            pos,
                            identifier,
                        )
                        &&& leaf_vals(final(table)@[p]) == leaf_vals(t0[p]).insert(pos, content@)
                        &&& leaf_next_raw(final(table)@[p]) == leaf_next_raw(t0[p])
                        &&& forall|q: int|
                            0 <= q < t0.len() && q != p ==> #[trigger] final(table)@[q] == t0[q]
                    })
                    &&& (!node_has_key(t0[p], identifier) && !node_full(t0[p])
                        && !leaf_has_room(t0[p], content@.len() as int) ==> (r matches Err(m)
                        && m@ == "node has overflow"@ && *final(table) == *old(table)))
                })
            }),
            r.is_ok() ==> exists|p: int|
                0 <= p < final(table)@.len() && page_kind_byte(#[trigger] final(table)@[p])
                    == PAGE_KIND_LEAF && leaf_stores(final(table)@[p], identifier, content@),
            // A full root leaf is recovered by promotion: a fresh
            // record whose halves fit is stored, and the resulting
            // two-level tree is pinned.
            ({
                let t0 = old(table)@;
                let start = old(self).page_breadcrumb@.last().1 as int;
                let s_old = t0[start];
                (page_kind_byte(s_old) == PAGE_KIND_LEAF && page_root_byte(s_old) == 1
                    && !node_has_key(s_old, identifier) && node_full(s_old) && leaf_split_fits(
                    s_old,
                    identifier,
                    content@,
                )) ==> ({
                    let pos = count_lt(leaf_keys(s_old), identifier);
                    let ks = leaf_keys(s_old).insert(pos, identifier);
                    let vs = leaf_vals(s_old).insert(pos, content@);
                    let m = leaf_n(s_old) + 1;
                    let lc = crate::btree::split_left_count(m as int);
                    let right_p = t0.len() as int;
                    let left_p = t0.len() as int + 1;
                    &&& r is Ok
                    &&& final(table)@.len() == t0.len() + 2
                    &&& leaf_keys(final(table)@[left_p]) == ks.subrange(0, lc)
                    &&& leaf_vals(final(table)@[left_p]) == vs.subrange(0, lc)
                    &&& leaf_next_raw(final(table)@[left_p]) == right_p as u64
                    &&& leaf_keys(final(table)@[right_p]) == ks.subrange(lc, m as int)
                    &&& leaf_vals(final(table)@[right_p]) == vs.subrange(lc, m as int)
                    &&& leaf_next_raw(final(table)@[right_p]) == leaf_next_raw(s_old)
                    &&& int_n(final(table)@[0]) == 1
                    &&& int_key(final(table)@[0], 0) == ks[lc - 1]
                    &&& int_ptr(final(table)@[0], 0) == left_p as u64
                    &&& int_right(final(table)@[0]) == right_p as u64
                })
            }),
    {
        let ghost t0 = table@;
        let ghost start = self.page_breadcrumb@.last().1 as int;
        let ghost nfuel = t0.len() as nat;
        let mut fuel = table.pager.pages.len();
        while fuel > 0 && self.node.node_type() == PageType::Internal
            invariant
                self.inv(*table),
                *table == *old(table),
                t0 == table@,
                nfuel == t0.len() as nat,
                start == old(self).page_breadcrumb@.last().1 as int,
                fuel <= t0.len(),
                route_to_leaf(t0, start, identifier, nfuel) == route_to_leaf(
                    t0,
                    self.page_breadcrumb@.last().1 as int,
                    identifier,
                    fuel as nat,
                ),
                page_kind_byte(t0[start]) == PAGE_KIND_LEAF ==> *self == *old(self),
            decreases fuel,
        {
            let ghost cur = self.page_breadcrumb@.last().1 as int;
            let n = self.node.num_cells();
            if n == 0 {
                proof {
                    assert(route_to_leaf(t0, cur, identifier, fuel as nat) is None);
                }
                return Err("malformed tree: empty internal page".to_string());
            }
            let cell_num = self.node.find_cell_num(identifier);
            let key_data = self.node.read_cell_bytes(cell_num);
            let pointer = read_u64_at(&key_data, INTERNAL_KEY_POINTER_SIZE);
            let ghost pos = count_lt(int_keys(t0[cur]), identifier);
            proof {
                assert(int_keys(t0[cur]) == crate::btree::node_keys(t0[cur]));
                if pos < int_n(t0[cur]) as int {
                    lemma_u64_round(int_ptr(t0[cur], pos));
                    assert(key_data@.subrange(
                        INTERNAL_KEY_POINTER_SIZE as int,
                        INTERNAL_KEY_POINTER_SIZE + 8,
                    ) =~= u64_to_be(int_ptr(t0[cur], pos)));
                    assert(pointer == int_ptr(t0[cur], pos));
                } else {
                    lemma_u64_round(int_right(t0[cur]));
                    assert(key_data@.subrange(
                        INTERNAL_KEY_POINTER_SIZE as int,
                        INTERNAL_KEY_POINTER_SIZE + 8,
                    ) =~= u64_to_be(int_right(t0[cur])));
                    assert(pointer == int_right(t0[cur]));
                }
            }
            let child = match table.get_page(pointer) {
                Some(c) => c,
                None => {
                    proof {
                        assert(route_to_leaf(t0, pointer as int, identifier, (fuel - 1) as nat)
                            is None);
                        assert(route_to_leaf(t0, cur, identifier, fuel as nat) is None);
                    }
                    return Err("malformed tree: child page out of range".to_string());
                },
            };
            let ghost child_view = child@;
            let child_node = match Node::load(child) {
                Ok(nd) => nd,
                Err(_) => {
                    proof {
                        assert(page_wf(child_view));
                        assert(false);
                    }
                    vstd::pervasive::unreached()
                },
            };
            self.node = child_node;
            self.page_breadcrumb.push((cell_num, pointer));
            proof {
                assert(route_to_leaf(t0, cur, identifier, fuel as nat) == route_to_leaf(
                    t0,
                    pointer as int,
                    identifier,
                    (fuel - 1) as nat,
                ));
            }
            fuel = fuel - 1;
        }
        if self.node.node_type() == PageType::Internal {
            proof {
                let cur = self.page_breadcrumb@.last().1 as int;
                assert(route_to_leaf(t0, cur, identifier, 0nat) is None);
            }
            return Err("malformed tree: cyclic page links".to_string());
        }
        let ghost target = self.page_breadcrumb@.last().1 as int;
        proof {
            assert(route_to_leaf(t0, start, identifier, nfuel) == Some(target));
        }
        let clen = content.len();
        let cell_content = read_bytes_at(&content, 0, clen);
        proof {
            assert(cell_content@ =~= content@);
        }
        let cell = LeafCell::new(identifier, cell_content, false);
        let ghost s_before = self.node.page@;
        let result = self.node.insert_cell(cell);
        let cur_page = self.page_breadcrumb[self.page_breadcrumb.len() - 1].1;
        match result {
            Ok(_) => {
                let copy = self.node.page.duplicate();
                table.put_page(cur_page, copy);
                proof {
                    lemma_insert_gives_stores(
                        s_before,
                        table@[cur_page as int],
                        identifier,
                        content@,
                    );
                }
                Ok(())
            },
            Err(NodeResult::IsFull) => self.split(table, identifier, content),
            Err(e) => Err(e.to_message()),
        }
    }

    /// Splits the current node around the incoming record or separator
    /// and stitches the halves into the parent, recursing when the
    /// parent is itself full.
    #[verifier::rlimit(100)]
    fn split(&mut self, table: &mut Table, identifier: u64, content: Vec<u8>) -> (r: Result<
        (),
        String,
    >)
        requires
            old(self).inv(*old(table)),
            node_full(old(self).node.page@),
            !node_has_key(old(self).node.page@, identifier),
            old(self).node.kind == PageType::Internal ==> content@.len()
                >= INTERNAL_KEY_POINTER_SIZE && u64_from_be(
                content@.subrange(0, INTERNAL_KEY_POINTER_SIZE as int),
            ) != 0,
        ensures
            final(table).inv(),
            final(self).inv(*final(table)),
            final(table)@.len() >= old(table)@.len(),
            forall|p: int|
                0 <= p < old(table)@.len() && page_kind_byte(#[trigger] old(table)@[p])
                    == PAGE_KIND_LEAF && p != old(self).page_breadcrumb@.last().1 as int
                    ==> final(table)@[p] == old(table)@[p],
            old(self).node.kind == PageType::Leaf && r.is_ok() ==> exists|p: int|
                0 <= p < final(table)@.len() && page_kind_byte(#[trigger] final(table)@[p])
                    == PAGE_KIND_LEAF && leaf_stores(final(table)@[p], identifier, content@),
            // The two halves survive whole: their records are the two
            // blocks of the combined sorted records, the left half
            // points at the right, and the right inherits the old
            // sibling.
            old(self).node.kind == PageType::Leaf && r.is_ok() ==> exists|pl: int, pr: int|
                #![trigger leaf_keys(final(table)@[pl]), leaf_keys(final(table)@[pr])]
                ({
                    let s_old = old(table)@[old(self).page_breadcrumb@.last().1 as int];
                    let pos = count_lt(leaf_keys(s_old), identifier);
                    let ks = leaf_keys(s_old).insert(pos, identifier);
                    let vs = leaf_vals(s_old).insert(pos, content@);
                    let m = leaf_n(s_old) + 1;
                    let lc = crate::btree::split_left_count(m as int);
                    &&& 0 <= pl < final(table)@.len()
                    &&& 0 <= pr < final(table)@.len()
                    &&& leaf_keys(final(table)@[pl]) == ks.subrange(0, lc)
                    &&& leaf_vals(final(table)@[pl]) == vs.subrange(0, lc)
                    &&& leaf_next_raw(final(table)@[pl]) == pr as u64
                    &&& leaf_keys(final(table)@[pr]) == ks.subrange(lc, m as int)
                    &&& leaf_vals(final(table)@[pr]) == vs.subrange(lc, m as int)
                    &&& leaf_next_raw(final(table)@[pr]) == leaf_next_raw(s_old)
                }),
            // Splitting the root leaf always succeeds when the halves
            // fit: the halves and the new root's routing are pinned.
            ({
                let t0 = old(table)@;
                let cur = old(self).page_breadcrumb@.last().1 as int;
                let s_old = t0[cur];
                (old(self).node.kind == PageType::Leaf && page_root_byte(s_old) == 1
                    && leaf_split_fits(s_old, identifier, content@)) ==> ({
                    let pos = count_lt(leaf_keys(s_old), identifier);
                    let ks = leaf_keys(s_old).insert(pos, identifier);
                    let vs = leaf_vals(s_old).insert(pos, content@);
                    let m = leaf_n(s_old) + 1;
                    let lc = crate::btree::split_left_count(m as int);
                    let right_p = t0.len() as int;
                    let left_p = t0.len() as int + 1;
                    &&& r is Ok
                    &&& final(table)@.len() == t0.len() + 2
                    &&& leaf_keys(final(table)@[left_p]) == ks.subrange(0, lc)
                    &&& leaf_vals(final(table)@[left_p]) == vs.subrange(0, lc)
                    &&& leaf_next_raw(final(table)@[left_p]) == right_p as u64
                    &&& leaf_keys(final(table)@[right_p]) == ks.subrange(lc, m as int)
                    &&& leaf_vals(final(table)@[right_p]) == vs.subrange(lc, m as int)
                    &&& leaf_next_raw(final(table)@[right_p]) == leaf_next_raw(s_old)
                    &&& int_n(final(table)@[0]) == 1
                    &&& int_key(final(table)@[0], 0) == ks[lc - 1]
                    &&& int_ptr(final(table)@[0], 0) == left_p as u64
                    &&& int_right(final(table)@[0]) == right_p as u64
                    &&& forall|q: int| 1 <= q < t0.len() ==> #[trigger] final(table)@[q] == t0[q]
                })
            }),
            // Splitting a non-root leaf under a ready parent always
            // succeeds: the halves, the parent's new separators and
            // every other page are pinned.
            ({
                let t0 = old(table)@;
                let crumbs = old(self).page_breadcrumb@;
                let cur = crumbs.last().1 as int;
                let s_old = t0[cur];
                let pos = count_lt(leaf_keys(s_old), identifier);
                let ks = leaf_keys(s_old).insert(pos, identifier);
                let m = leaf_n(s_old) + 1;
                let lc = crate::btree::split_left_count(m as int);
                (old(self).node.kind == PageType::Leaf && page_root_byte(s_old) == 0
                    && leaf_split_fits(s_old, identifier, content@) && crumbs.len() >= 2
                    && stitch_fits(
                    t0[crumbs[crumbs.len() - 2].1 as int],
                    crumbs.last().0 as int,
                    crumbs.last().1,
                    PageType::Leaf,
                    ks[lc - 1],
                    ks[m - 1],
                )) ==> ({
                    let vs = leaf_vals(s_old).insert(pos, content@);
                    let parent = crumbs[crumbs.len() - 2].1 as int;
                    let idx = crumbs.last().0 as int;
                    let popped = crumbs.last().1;
                    let s_par = t0[parent];
                    let right_p = t0.len() as int;
                    &&& r is Ok
                    &&& final(table)@.len() == t0.len() + 1
                    &&& leaf_keys(final(table)@[cur]) == ks.subrange(0, lc)
                    &&& leaf_vals(final(table)@[cur]) == vs.subrange(0, lc)
                    &&& leaf_next_raw(final(table)@[cur]) == right_p as u64
                    &&& leaf_keys(final(table)@[right_p]) == ks.subrange(lc, m as int)
                    &&& leaf_vals(final(table)@[right_p]) == vs.subrange(lc, m as int)
                    &&& leaf_next_raw(final(table)@[right_p]) == leaf_next_raw(s_old)
                    &&& int_n(final(table)@[parent]) == int_n(s_par) + 1
                    &&& int_keys(final(table)@[parent]) == stitch_keys(
                        s_par,
                        idx,
                        popped,
                        PageType::Leaf,
                        ks[lc - 1],
                        ks[m - 1],
                    )
                    &&& int_ptrs(final(table)@[parent]) == stitch_ptrs(
                        s_par,
                        idx,
                        popped,
                        PageType::Leaf,
                        ks[lc - 1],
                        ks[m - 1],
                        right_p as u64,
                    )
                    &&& int_right(final(table)@[parent]) == stitch_right(
                        s_par,
                        idx,
                        popped,
                        PageType::Leaf,
                        ks[lc - 1],
                        ks[m - 1],
                        right_p as u64,
                    )
                    &&& forall|q: int|
                        0 <= q < t0.len() && q != cur && q != parent
                            ==> #[trigger] final(table)@[q] == t0[q]
                })
            }),
        decreases self.page_breadcrumb@.len(), 1int,
    {
        let ghost t_in = *table;
        let ghost cur0 = self.page_breadcrumb@.last().1 as int;
        let kind = self.node.node_type();
        let halves = self.make_halves(table, identifier, &content);
        let (new_page, max_key, right_high) = match halves {
            Ok(triple) => triple,
            Err(e) => {
                return Err(e);
            },
        };
        let ghost t_mid = *table;
        let cur_page = self.page_breadcrumb[self.page_breadcrumb.len() - 1].1;
        proof {
            // The returned high keys are the last keys of the two
            // blocks of the combined sorted records.
            if kind == PageType::Leaf {
                let s_old = t_in@[cur0];
                assert(leaf_n(s_old) >= 1) by {
                    if leaf_n(s_old) == 0 {
                        assert(crate::page::leaf_blob_total(s_old, 0) == 0);
                    }
                }
                lemma_halves_high_keys(
                    s_old,
                    t_mid@[cur0],
                    t_mid@[new_page as int],
                    identifier,
                    max_key,
                    right_high,
                );
            }
        }
        if self.node.is_root() {
            proof {
                assert(cur_page == 0);
            }
            let res = self.promote_root(table, max_key, new_page);
            proof {
                assert forall|p: int|
                    0 <= p < t_in@.len() && page_kind_byte(#[trigger] t_in@[p]) == PAGE_KIND_LEAF
                        && p != cur0 implies table@[p] == t_in@[p] by {
                    assert(t_mid@[p] == t_in@[p]);
                }
                if kind == PageType::Leaf {
                    let moved = t_mid@.len() as int;
                    crate::page::lemma_leaf_header_frame(
                        t_mid@[0],
                        table@[moved],
                        crate::layout::PAGE_IS_ROOT_OFFSET as int,
                        crate::layout::PAGE_IS_ROOT_OFFSET + 1,
                    );
                    crate::codec::lemma_frame_subrange(
                        t_mid@[0],
                        table@[moved],
                        crate::layout::LEAF_NEXT_SIBLING_POINTER_OFFSET as int,
                        crate::layout::LEAF_NEXT_SIBLING_POINTER_OFFSET + 8,
                    );
                    assert(leaf_next_raw(table@[moved]) == leaf_next_raw(t_mid@[0]));
                    assert(table@[new_page as int] == t_mid@[new_page as int]);
                    if leaf_stores(t_mid@[0], identifier, content@) {
                        assert(leaf_stores(table@[moved], identifier, content@));
                    }
                    assert(leaf_keys(table@[moved]) == leaf_keys(t_mid@[0]));
                    assert(leaf_vals(table@[moved]) == leaf_vals(t_mid@[0]));
                }
            }
            res
        } else {
            let res = self.stitch_parent(table, kind, max_key, right_high, new_page);
            proof {
                assert forall|p: int|
                    0 <= p < t_in@.len() && page_kind_byte(#[trigger] t_in@[p]) == PAGE_KIND_LEAF
                        && p != cur0 implies table@[p] == t_in@[p] by {
                    assert(t_mid@[p] == t_in@[p]);
                    assert(page_kind_byte(t_mid@[p]) == PAGE_KIND_LEAF);
                }
                if kind == PageType::Leaf {
                    assert(table@[cur_page as int] == t_mid@[cur_page as int]);
                    assert(table@[new_page as int] == t_mid@[new_page as int]);
                    if leaf_stores(t_mid@[cur_page as int], identifier, content@) {
                        assert(leaf_stores(table@[cur_page as int], identifier, content@));
                    }
                }
                // Under the ready-parent guard, the parent the stitch
                // rewrote is the page the descent recorded, untouched
                // by the halving step.
                let crumbs = old(self).page_breadcrumb@;
                if crumbs.len() >= 2 && kind == PageType::Leaf {
                    let parent = crumbs[crumbs.len() - 2].1 as int;
                    if page_kind_byte(t_in@[parent]) == crate::layout::PAGE_KIND_INTERNAL {
                        assert(page_kind_byte(t_in@[cur0]) == PAGE_KIND_LEAF);
                        assert(parent != cur0);
                        assert(t_mid@[parent] == t_in@[parent]);
                    }
                }
            }
            res
        }
    }

    /// Redistributes the full current node and the incoming entry over
    /// the node and a freshly allocated sibling, and writes both pages
    /// back. Returns the sibling's page number and the high keys of
    /// the two halves.
    #[verifier::rlimit(100)]
    fn make_halves(&mut self, table: &mut Table, identifier: u64, content: &Vec<u8>) -> (r:
        Result<(u64, u64, u64), String>)
        requires
            old(self).inv(*old(table)),
            node_full(old(self).node.page@),
            !node_has_key(old(self).node.page@, identifier),
            old(self).node.kind == PageType::Internal ==> content@.len()
                >= INTERNAL_KEY_POINTER_SIZE && u64_from_be(
                content@.subrange(0, INTERNAL_KEY_POINTER_SIZE as int),
            ) != 0,
        ensures
            final(table).inv(),
            final(self).inv(*final(table)),
            final(self).node.kind == old(self).node.kind,
            final(self).page_breadcrumb@ == old(self).page_breadcrumb@,
            final(table)@.len() == old(table)@.len() + 1,
            forall|p: int|
                0 <= p < old(table)@.len() && p != old(self).page_breadcrumb@.last().1 as int
                    ==> #[trigger] final(table)@[p] == old(table)@[p],
            old(self).node.kind == PageType::Leaf ==> (r is Ok <==> leaf_split_fits(
                old(table)@[old(self).page_breadcrumb@.last().1 as int],
                identifier,
                content@,
            )),
            old(self).node.kind == PageType::Internal ==> r is Ok,
            r matches Ok(t) ==> ({
                let cur = old(self).page_breadcrumb@.last().1 as int;
                let s_left = final(table)@[cur];
                let s_right = final(table)@[t.0 as int];
                &&& t.1 == crate::btree::node_key_at(s_left, crate::btree::node_n(s_left) as int
                    - 1)
                &&& t.2 == crate::btree::node_key_at(
                    s_right,
                    crate::btree::node_n(s_right) as int - 1,
                )
            }),
            r matches Ok(t) ==> ({
                let cur = old(self).page_breadcrumb@.last().1 as int;
                &&& t.0 == old(table)@.len()
                &&& page_kind_byte(final(table)@[cur]) == page_kind_byte(old(table)@[cur])
                &&& page_kind_byte(final(table)@[t.0 as int]) == page_kind_byte(old(table)@[cur])
                &&& page_root_byte(final(table)@[cur]) == page_root_byte(old(table)@[cur])
                &&& (old(self).node.kind == PageType::Leaf ==> leaf_stores(
                    final(table)@[cur],
                    identifier,
                    content@,
                ) || leaf_stores(final(table)@[t.0 as int], identifier, content@))
                &&& (old(self).node.kind == PageType::Leaf ==> ({
                    let s_old = old(table)@[cur];
                    let pos = count_lt(leaf_keys(s_old), identifier);
                    let ks = leaf_keys(s_old).insert(pos, identifier);
                    let vs = leaf_vals(s_old).insert(pos, content@);
                    let m = leaf_n(s_old) + 1;
                    let lc = crate::btree::split_left_count(m as int);
                    &&& leaf_keys(final(table)@[cur]) == ks.subrange(0, lc)
                    &&& leaf_vals(final(table)@[cur]) == vs.subrange(0, lc)
                    &&& leaf_keys(final(table)@[t.0 as int]) == ks.subrange(lc, m as int)
                    &&& leaf_vals(final(table)@[t.0 as int]) == vs.subrange(lc, m as int)
                    &&& leaf_next_raw(final(table)@[cur]) == t.0
                    &&& leaf_next_raw(final(table)@[t.0 as int]) == leaf_next_raw(s_old)
                }))
            }),
    {
        let kind = self.node.node_type();
        let cur_page = self.page_breadcrumb[self.page_breadcrumb.len() - 1].1;
        let (new_page, cached) = table.create_page(&kind);
        let ghost new_page_fresh = cached@;
        let mut new_node = match Node::load(cached) {
            Ok(nd) => nd,
            Err(_) => {
                proof {
                    assert(page_wf(new_page_fresh));
                    assert(false);
                }
                vstd::pervasive::unreached()
            },
        };
        proof {
            if kind == PageType::Leaf {
                assert(leaf_n(self.node.page@) >= 1) by {
                    if leaf_n(self.node.page@) == 0 {
                        assert(crate::page::leaf_blob_total(self.node.page@, 0) == 0);
                    }
                }
            } else {
                crate::btree::lemma_internal_capacity();
            }
        }
        let ghost s_split = self.node.page@;
        let split_result = if kind == PageType::Leaf {
            let clen = content.len();
            let cell_content = read_bytes_at(content, 0, clen);
            proof {
                assert(cell_content@ =~= content@);
            }
            self.node.split(&mut new_node, LeafCell::new(identifier, cell_content, false))
        } else {
            let mut parr: [u8; 8] = [0u8, 0u8, 0u8, 0u8, 0u8, 0u8, 0u8, 0u8];
            let mut pi: usize = 0;
            while pi < 8
                invariant
                    pi <= 8,
                    content@.len() >= 8,
                    parr@.len() == 8,
                    forall|j: int| 0 <= j < pi ==> parr@[j] == content@[j],
                decreases 8 - pi,
            {
                parr[pi] = content[pi];
                pi = pi + 1;
            }
            proof {
                assert(parr@ =~= content@.subrange(0, INTERNAL_KEY_POINTER_SIZE as int));
            }
            let split_cell = InternalCell::new(identifier, parr);
            proof {
                assert(split_cell.spec_content().subrange(
                    crate::layout::INTERNAL_KEY_SIZE as int,
                    crate::layout::INTERNAL_CELL_SIZE as int,
                ) =~= split_cell.pointer@);
            }
            self.node.split(&mut new_node, split_cell)
        };
        if let Err(e) = split_result {
            let left_copy = self.node.page.duplicate();
            table.put_page(cur_page, left_copy);
            let mut msg = "failed to split node; ".to_string();
            msg.append(e.to_message().as_str());
            return Err(msg);
        }
        if kind == PageType::Leaf {
            self.node.set_next_sibling(new_page);
        }
        let left_copy = self.node.page.duplicate();
        table.put_page(cur_page, left_copy);
        let right_copy = new_node.page.duplicate();
        table.put_page(new_page, right_copy);
        proof {
            if kind == PageType::Leaf {
                lemma_split_gives_stores(
                    s_split,
                    table@[cur_page as int],
                    table@[new_page as int],
                    identifier,
                    content@,
                );
            }
        }
        let max_key = self.node.node_high_key();
        let right_high = new_node.node_high_key();
        Ok((new_page, max_key, right_high))
    }

    /// Replaces a split root: copies the old root out of page zero,
    /// reinitializes page zero as an internal root, and links both
    /// halves under it.
    #[verifier::rlimit(100)]
    fn promote_root(&mut self, table: &mut Table, max_key: u64, new_page: u64) -> (r: Result<
        (),
        String,
    >)
        requires
            old(self).inv(*old(table)),
            old(self).page_breadcrumb@.last().1 == 0,
            new_page != 0,
            (new_page as int) < old(table)@.len(),
        ensures
            final(table).inv(),
            final(self).inv(*final(table)),
            final(table)@.len() == old(table)@.len() + 1,
            forall|p: int|
                1 <= p < old(table)@.len() ==> #[trigger] final(table)@[p] == old(table)@[p],
            final(table)@[old(table)@.len() as int] == old(table)@[0].update(
                crate::layout::PAGE_IS_ROOT_OFFSET as int,
                0u8,
            ),
            // The new root holds one separator cell routing keys up to
            // `max_key` to the old root's copy, and everything above
            // through its right-most child to the new sibling.
            int_n(final(table)@[0]) == 1,
            int_key(final(table)@[0], 0) == max_key,
            int_ptr(final(table)@[0], 0) == old(table)@.len(),
            int_right(final(table)@[0]) == new_page,
            r.is_ok(),
    {
        proof {
            crate::btree::lemma_internal_capacity();
        }
        let (old_num, _copy) = table.create_new_root();
        let root_cached = table.root_page();
        self.node = match Node::load(root_cached) {
            Ok(nd) => nd,
            Err(_) => {
                proof {
                    assert(false);
                }
                vstd::pervasive::unreached()
            },
        };
        let seed_cell = InternalCell::new(max_key, u64_to_be_array(old_num));
        proof {
            lemma_u64_round(old_num);
            assert(seed_cell.spec_content().subrange(
                crate::layout::INTERNAL_KEY_SIZE as int,
                crate::layout::INTERNAL_CELL_SIZE as int,
            ) =~= seed_cell.pointer@);
        }
        let seed = self.node.insert_cell(seed_cell);
        if seed.is_err() {
            proof {
                assert(false);
            }
            return Err("failed to insert key into new internal node".to_string());
        }
        let link_cell = InternalCell::new(max_key, u64_to_be_array(new_page));
        proof {
            lemma_u64_round(new_page);
            assert(link_cell.spec_content().subrange(
                crate::layout::INTERNAL_KEY_SIZE as int,
                crate::layout::INTERNAL_CELL_SIZE as int,
            ) =~= link_cell.pointer@);
        }
        let link = self.node.insert_cell(link_cell);
        if link.is_err() {
            proof {
                assert(false);
            }
            return Err("failed to insert right most key in internal node".to_string());
        }
        let root_copy = self.node.page.duplicate();
        table.put_page(0, root_copy);
        proof {
            let s_new = self.node.page@;
            assert(int_keys(s_new)[0] == max_key);
            assert(int_ptrs(s_new)[0] == old_num);
        }
        Ok(())
    }

    /// Rewrites the parent separator that covered the split child so
    /// it now carries the left half's high key. Succeeds exactly when
    /// `k_old` names a cell and the rewrite keeps the key order, and
    /// then performs precisely that one-cell rewrite.
    #[verifier::rlimit(100)]
    fn refresh_left_separator(
        &mut self,
        table: &mut Table,
        k_old: u64,
        max_key: u64,
        popped_page: u64,
        parent_page: u64,
    ) -> (r: Result<(), String>)
        requires
            old(self).inv(*old(table)),
            old(self).node.kind == PageType::Internal,
            old(self).page_breadcrumb@.last().1 == parent_page,
            popped_page != 0,
        ensures
            final(table).inv(),
            final(self).inv(*final(table)),
            final(self).node.kind == PageType::Internal,
            final(self).page_breadcrumb@ == old(self).page_breadcrumb@,
            final(table)@.len() == old(table)@.len(),
            forall|p: int|
                0 <= p < old(table)@.len() && page_kind_byte(#[trigger] old(table)@[p])
                    == PAGE_KIND_LEAF ==> final(table)@[p] == old(table)@[p],
            ({
                let s = old(table)@[parent_page as int];
                let pos = count_lt(int_keys(s), k_old);
                &&& (node_has_key(s, k_old) ==> (r is Ok <==> ((pos == 0 || int_key(s, pos - 1)
                    < max_key) && (pos == int_n(s) - 1 || max_key < int_key(s, pos + 1)))))
                &&& (!node_has_key(s, k_old) ==> r is Err)
                &&& (r is Err ==> final(table)@ == old(table)@)
                &&& (r is Ok ==> {
                    let s_new = final(table)@[parent_page as int];
                    &&& int_n(s_new) == int_n(s)
                    &&& int_keys(s_new) == int_keys(s).update(pos, max_key)
                    &&& int_ptrs(s_new) == int_ptrs(s).update(pos, popped_page)
                    &&& int_right(s_new) == int_right(s)
                    &&& page_root_byte(s_new) == page_root_byte(s)
                    &&& forall|q: int|
                        0 <= q < old(table)@.len() && q != parent_page
                            ==> #[trigger] final(table)@[q] == old(table)@[q]
                })
            }),
    {
        let upd_cell = InternalCell::new(max_key, u64_to_be_array(popped_page));
        proof {
            lemma_u64_round(popped_page);
            assert(upd_cell.spec_content().subrange(
                crate::layout::INTERNAL_KEY_SIZE as int,
                crate::layout::INTERNAL_CELL_SIZE as int,
            ) =~= upd_cell.pointer@);
        }
        let upd = self.node.update(k_old, upd_cell);
        match upd {
            Ok(_) => {
                let parent_copy = self.node.page.duplicate();
                table.put_page(parent_page, parent_copy);
                Ok(())
            },
            Err(e) => {
                let mut msg = "failed to update parent node pointer; ".to_string();
                msg.append(e.to_message().as_str());
                Err(msg)
            },
        }
    }

    /// After a non-root split: rewrites the parent's separator for the
    /// left half and inserts one for the right half, recursing into a
    /// split of the parent when it is full.
    ///
    /// When the parent is ready for the stitch ([`stitch_fits`]), the
    /// call succeeds without recursing and the parent's new separators
    /// are pinned exactly, by [`stitch_keys`], [`stitch_ptrs`] and
    /// [`stitch_right`].
    #[verifier::rlimit(100)]
    fn stitch_parent(
        &mut self,
        table: &mut Table,
        kind: PageType,
        max_key: u64,
        right_high: u64,
        new_page: u64,
    ) -> (r: Result<(), String>)
        requires
            old(self).inv(*old(table)),
            new_page != 0,
            (new_page as int) < old(table)@.len(),
        ensures
            final(table).inv(),
            final(self).inv(*final(table)),
            final(table)@.len() >= old(table)@.len(),
            forall|p: int|
                0 <= p < old(table)@.len() && page_kind_byte(#[trigger] old(table)@[p])
                    == PAGE_KIND_LEAF ==> final(table)@[p] == old(table)@[p],
            ({
                let crumbs = old(self).page_breadcrumb@;
                let t0 = old(table)@;
                (crumbs.len() >= 2 && stitch_fits(
                    t0[crumbs[crumbs.len() - 2].1 as int],
                    crumbs.last().0 as int,
                    crumbs.last().1,
                    kind,
                    max_key,
                    right_high,
                )) ==> ({
                    let parent = crumbs[crumbs.len() - 2].1 as int;
                    let idx = crumbs.last().0 as int;
                    let popped = crumbs.last().1;
                    let s = t0[parent];
                    &&& r is Ok
                    &&& final(table)@.len() == t0.len()
                    &&& int_n(final(table)@[parent]) == int_n(s) + 1
                    &&& int_keys(final(table)@[parent]) == stitch_keys(
                        s,
                        idx,
                        popped,
                        kind,
                        max_key,
                        right_high,
                    )
                    &&& int_ptrs(final(table)@[parent]) == stitch_ptrs(
                        s,
                        idx,
                        popped,
                        kind,
                        max_key,
                        right_high,
                        new_page,
                    )
                    &&& int_right(final(table)@[parent]) == stitch_right(
                        s,
                        idx,
                        popped,
                        kind,
                        max_key,
                        right_high,
                        new_page,
                    )
                    &&& forall|q: int|
                        0 <= q < t0.len() && q != parent ==> #[trigger] final(table)@[q] == t0[q]
                    &&& final(self).page_breadcrumb@ == crumbs.drop_last()
                })
            }),
        decreases self.page_breadcrumb@.len(), 0int,
    {
        let ghost crumbs0 = self.page_breadcrumb@;
        let ghost t0 = table@;
        let (_cell_idx, popped_page) = match self.page_breadcrumb.pop() {
            Some(pair) => pair,
            None => {
                proof {
                    assert(false);
                }
                return Err("current page is unknown".to_string());
            },
        };
        proof {
            assert(self.page_breadcrumb@ =~= crumbs0.drop_last());
        }
        if self.page_breadcrumb.len() == 0 {
            // Nothing recorded a parent: the descent path is unusable.
            self.page_breadcrumb.push((_cell_idx, popped_page));
            return Err("parent page not present".to_string());
        }
        let parent_page = self.page_breadcrumb[self.page_breadcrumb.len() - 1].1;
        let ghost s_par = t0[parent_page as int];
        let ghost fits = stitch_fits(
            s_par,
            _cell_idx as int,
            popped_page,
            kind,
            max_key,
            right_high,
        );
        let parent_cached = match table.get_page(parent_page) {
            Some(c) => c,
            None => {
                proof {
                    assert(false);
                }
                return Err("expected parent page to exist".to_string());
            },
        };
        let ghost parent_view = parent_cached@;
        let parent_node = match Node::load(parent_cached) {
            Ok(nd) => nd,
            Err(_) => {
                proof {
                    assert(page_wf(parent_view));
                    assert(false);
                }
                vstd::pervasive::unreached()
            },
        };
        self.node = parent_node;
        if self.node.node_type() != PageType::Internal {
            proof {
                assert(!fits);
            }
            return Err("parent page is not an internal page".to_string());
        }
        proof {
            // The parent satisfies the internal invariant: it is well
            // formed and carries the internal kind byte.
            assert(crate::page::int_wf(s_par));
        }
        let pn = self.node.num_cells();
        if _cell_idx > pn || pn == 0 {
            proof {
                assert(!fits);
            }
            return Err("malformed breadcrumb".to_string());
        }
        let key_data = self.node.read_cell_bytes(_cell_idx);
        let k_old = read_u64_at(&key_data, 0);
        proof {
            if _cell_idx < pn {
                lemma_u64_round(int_key(s_par, _cell_idx as int));
                assert(key_data@.subrange(0, 8) =~= u64_to_be(int_key(s_par, _cell_idx as int)));
                assert(k_old == int_key(s_par, _cell_idx as int));
            } else {
                lemma_u64_round(int_key(s_par, pn as int - 1));
                assert(key_data@.subrange(0, 8) =~= u64_to_be(int_key(s_par, pn as int - 1)));
                assert(k_old == int_key(s_par, pn as int - 1));
            }
        }
        let right_child = match self.node.right_child() {
            Some(rcp) => rcp,
            None => {
                proof {
                    assert(false);
                }
                return Err("internal page has no right child".to_string());
            },
        };
        if popped_page == 0 {
            proof {
                assert(!fits);
            }
            return Err("malformed breadcrumb: the root cannot be a child".to_string());
        }
        let sep = if popped_page == right_child {
            // The split child was the parent's right-most child: no
            // separator cell names it, so the left half is pulled down
            // under its own high key and the right half takes over as
            // the right-most child.
            max_key
        } else {
            proof {
                if fits {
                    // The breadcrumb's cell carries the old separator,
                    // so the lower bound lands exactly on it.
                    assert(int_keys(s_par)[_cell_idx as int] == k_old);
                    lemma_count_lt_pinpoint(int_keys(s_par), _cell_idx as int);
                    assert(node_has_key(s_par, k_old)) by {
                        let nn = crate::btree::node_n(s_par) as int;
                        assert((_cell_idx as int) < nn);
                        assert(crate::btree::node_key_at(s_par, _cell_idx as int) == k_old);
                    }
                }
            }
            if let Err(msg) = self.refresh_left_separator(
                table,
                k_old,
                max_key,
                popped_page,
                parent_page,
            ) {
                proof {
                    assert(!fits);
                }
                return Err(msg);
            }
            if kind == PageType::Leaf {
                right_high
            } else {
                k_old
            }
        };
        let sep_cell = InternalCell::new(sep, u64_to_be_array(new_page));
        let ghost s_ins = self.node.page@;
        proof {
            lemma_u64_round(new_page);
            assert(sep_cell.spec_content().subrange(
                crate::layout::INTERNAL_KEY_SIZE as int,
                crate::layout::INTERNAL_CELL_SIZE as int,
            ) =~= sep_cell.pointer@);
            if fits {
                let idx = _cell_idx as int;
                let ks1 = if popped_page == int_right(s_par) {
                    int_keys(s_par)
                } else {
                    int_keys(s_par).update(idx, max_key)
                };
                assert(int_keys(s_ins) =~= ks1);
                assert(sep == stitch_sep(s_par, idx, popped_page, kind, max_key, right_high));
                assert(!node_has_key(s_ins, sep)) by {
                    assert forall|i: int|
                        0 <= i < int_n(s_ins) implies int_key(s_ins, i) != sep by {
                        assert(int_keys(s_ins)[i] == int_key(s_ins, i));
                        assert(!ks1.contains(sep));
                        assert(ks1[i] != sep);
                    }
                }
                assert(int_n(s_ins) == int_n(s_par));
                assert(!crate::btree::int_full(s_ins));
            }
        }
        let link = self.node.insert_cell(sep_cell);
        match link {
            Ok(_) => {
                let parent_copy = self.node.page.duplicate();
                table.put_page(parent_page, parent_copy);
                proof {
                    if fits {
                        let idx = _cell_idx as int;
                        let s_new = table@[parent_page as int];
                        let ks1 = if popped_page == int_right(s_par) {
                            int_keys(s_par)
                        } else {
                            int_keys(s_par).update(idx, max_key)
                        };
                        let ps1 = if popped_page == int_right(s_par) {
                            int_ptrs(s_par)
                        } else {
                            int_ptrs(s_par).update(idx, popped_page)
                        };
                        let pos = count_lt(ks1, sep);
                        assert(int_ptrs(s_ins) =~= ps1);
                        assert(int_right(s_ins) == int_right(s_par));
                        assert(int_right(s_ins) != 0);
                        if pos == int_n(s_par) as int {
                            assert(int_keys(s_new) == ks1.push(sep));
                            assert(int_ptrs(s_new) == ps1.push(int_right(s_ins)));
                            assert(int_right(s_new) == new_page);
                        } else {
                            assert(int_keys(s_new) == ks1.insert(pos, sep));
                            assert(int_ptrs(s_new) == ps1.insert(pos, new_page));
                            assert(int_right(s_new) == int_right(s_par));
                        }
                    }
                }
                Ok(())
            },
            Err(NodeResult::IsFull) => {
                proof {
                    assert(!fits);
                }
                let pb = pointer_bytes(new_page);
                proof {
                    lemma_u64_round(new_page);
                    assert(pb@.subrange(0, INTERNAL_KEY_POINTER_SIZE as int) =~= pb@);
                }
                let ghost t_rec = *table;
                let rec = self.split(table, sep, pb);
                proof {
                    assert forall|p: int|
                        0 <= p < old(table)@.len() && page_kind_byte(#[trigger] old(table)@[p])
                            == PAGE_KIND_LEAF implies table@[p] == old(table)@[p] by {
                        assert(t_rec@[p] == old(table)@[p]);
                        assert(page_kind_byte(t_rec@[p]) == PAGE_KIND_LEAF);
                        assert(p != parent_page);
                    }
                }
                rec
            },
            Err(e) => {
                proof {
                    assert(!fits);
                }
                let mut msg = "failed to split parent node: ".to_string();
                msg.append(e.to_message().as_str());
                Err(msg)
            },
        }
    }

    /// Selects every record in the table: walks from the current page
    /// down to the left-most leaf below it, then follows the sibling
    /// chain to its end, emitting every value of every leaf visited.
    ///
    /// The contract pins the visited chain through [`scan_chain_ok`]:
    /// it starts at the left-most leaf, consecutive leaves are joined
    /// by their next-sibling pointers, and the walk stops only at a
    /// leaf without a sibling or at a named structural anomaly that no
    /// tree built by this library produces. Within each visited leaf
    /// the values come out in that leaf's sorted key order;
    /// [`lemma_scan_ascending`] lifts this to whole-scan ascending key
    /// order under the additional hypothesis that every key of an
    /// earlier leaf in the chain is below every key of a later one,
    /// which this contract does not itself establish.
    #[verifier::rlimit(100)]
    pub fn select(&mut self, table: &Table) -> (r: Vec<Vec<u8>>)
        requires
            old(self).inv(*table),
        ensures
            final(self).inv(*table),
            final(self).state == CursorState::AtEnd,
            forall|k: int|
                0 <= k < r@.len() ==> value_in_some_leaf(table@, (#[trigger] r@[k])@),
            old(self).state == CursorState::AtEnd ==> r@.len() == 0,
            exists|chain: Seq<int>|
                #![trigger chain_vals(table@, chain)]
                scan_chain_ok(
                    table@,
                    old(self).page_breadcrumb@.last().1 as int,
                    old(self).state,
                    chain,
                    r@.map_values(|v: Vec<u8>| v@),
                ),
    {
        let ghost t = table@;
        let ghost start = self.page_breadcrumb@.last().1 as int;
        let ghost nfuel = t.len() as nat;
        let ghost entry_state = self.state;
        let ghost mut chain: Seq<int> = Seq::empty();
        let mut data: Vec<Vec<u8>> = Vec::new();
        proof {
            assert(data@.map_values(|v: Vec<u8>| v@) =~= chain_vals(t, chain));
        }
        if self.state == CursorState::AtEnd {
            proof {
                let out = data@.map_values(|v: Vec<u8>| v@);
                assert(chain_vals(table@, chain) =~= out);
                assert(scan_chain_ok(table@, start, entry_state, chain, out));
                assert(exists|c: Seq<int>|
                    #![trigger chain_vals(table@, c)]
                    scan_chain_ok(table@, start, entry_state, c, out));
            }
            return data;
        }
        // Walk down to the left-most leaf.
        let mut fuel = table.pager.pages.len();
        while fuel > 0 && self.node.node_type() == PageType::Internal
            invariant
                self.inv(*table),
                t == table@,
                nfuel == t.len() as nat,
                data@.len() == 0,
                chain == Seq::<int>::empty(),
                entry_state != CursorState::AtEnd,
                start == old(self).page_breadcrumb@.last().1 as int,
                entry_state == old(self).state,
                fuel <= t.len(),
                leftmost_leaf_from(t, start, nfuel) == leftmost_leaf_from(
                    t,
                    self.page_breadcrumb@.last().1 as int,
                    fuel as nat,
                ),
            decreases fuel,
        {
            let ghost cur = self.page_breadcrumb@.last().1 as int;
            let n = self.node.num_cells();
            if n == 0 {
                self.state = CursorState::AtEnd;
                proof {
                    assert(leftmost_leaf_from(t, cur, fuel as nat) is None);
                    let out = data@.map_values(|v: Vec<u8>| v@);
                    assert(chain_vals(table@, chain) =~= out);
                    assert(scan_chain_ok(table@, start, entry_state, chain, out));
                    assert(exists|c: Seq<int>|
                        #![trigger chain_vals(table@, c)]
                        scan_chain_ok(table@, start, entry_state, c, out));
                }
                return data;
            }
            let key_data = self.node.read_cell_bytes(0);
            let pointer = read_u64_at(&key_data, INTERNAL_KEY_POINTER_SIZE);
            proof {
                lemma_u64_round(int_ptr(t[cur], 0));
                assert(key_data@.subrange(
                    INTERNAL_KEY_POINTER_SIZE as int,
                    INTERNAL_KEY_POINTER_SIZE + 8,
                ) =~= u64_to_be(int_ptr(t[cur], 0)));
                assert(pointer == int_ptr(t[cur], 0));
            }
            let child = match table.get_page(pointer) {
                Some(c) => c,
                None => {
                    self.state = CursorState::AtEnd;
                    proof {
                        assert(leftmost_leaf_from(t, pointer as int, (fuel - 1) as nat)
                            is None);
                        assert(leftmost_leaf_from(t, cur, fuel as nat) is None);
                        let out = data@.map_values(|v: Vec<u8>| v@);
                        assert(chain_vals(table@, chain) =~= out);
                        assert(scan_chain_ok(table@, start, entry_state, chain, out));
                        assert(exists|c: Seq<int>|
                            #![trigger chain_vals(table@, c)]
                            scan_chain_ok(table@, start, entry_state, c, out));
                    }
                    return data;
                },
            };
            let ghost child_view = child@;
            let child_node = match Node::load(child) {
                Ok(nd) => nd,
                Err(_) => {
                    proof {
                        assert(page_wf(child_view));
                        assert(false);
                    }
                    vstd::pervasive::unreached()
                },
            };
            self.node = child_node;
            self.page_breadcrumb.push((0, pointer));
            proof {
                assert(leftmost_leaf_from(t, cur, fuel as nat) == leftmost_leaf_from(
                    t,
                    pointer as int,
                    (fuel - 1) as nat,
                ));
            }
            fuel = fuel - 1;
        }
        if self.node.node_type() == PageType::Internal {
            // The descent ran out of fuel: deeper than the page count.
            self.state = CursorState::AtEnd;
            proof {
                let cur = self.page_breadcrumb@.last().1 as int;
                assert(leftmost_leaf_from(t, cur, 0nat) is None);
                let out = data@.map_values(|v: Vec<u8>| v@);
                assert(chain_vals(table@, chain) =~= out);
                assert(scan_chain_ok(table@, start, entry_state, chain, out));
                assert(exists|c: Seq<int>|
                    #![trigger chain_vals(table@, c)]
                    scan_chain_ok(table@, start, entry_state, c, out));
            }
            return data;
        }
        let ghost first = self.page_breadcrumb@.last().1 as int;
        proof {
            assert(leftmost_leaf_from(t, start, nfuel) == Some(first));
        }
        self.state = CursorState::InProgress;
        // Emit every cell of each leaf along the sibling chain.
        let mut hops = table.pager.pages.len();
        loop
            invariant_except_break
                hops as int + chain.len() == t.len() as int,
                chain.len() >= 1 ==> leaf_next_raw(t[chain.last()])
                    == self.page_breadcrumb@.last().1,
            invariant
                self.inv(*table),
                t == table@,
                self.node.kind == PageType::Leaf,
                start == old(self).page_breadcrumb@.last().1 as int,
                entry_state == old(self).state,
                entry_state != CursorState::AtEnd,
                leftmost_leaf_from(t, start, nfuel) == Some(first),
                forall|k: int|
                    0 <= k < chain.len() ==> 0 <= #[trigger] chain[k] < t.len()
                        && page_kind_byte(t[chain[k]]) == PAGE_KIND_LEAF,
                forall|k: int|
                    0 <= k < chain.len() - 1 ==> leaf_next_raw(t[#[trigger] chain[k]]) as int
                        == chain[k + 1],
                chain.len() == 0 ==> self.page_breadcrumb@.last().1 as int == first,
                chain.len() >= 1 ==> chain[0] == first,
                data@.map_values(|v: Vec<u8>| v@) == chain_vals(t, chain),
                forall|k: int|
                    0 <= k < data@.len() ==> value_in_some_leaf(t, (#[trigger] data@[k])@),
            ensures
                chain.len() >= 1,
                leaf_next_raw(t[chain.last()]) == LEAF_NEXT_SIBLING_POINTER_DEFAULT
                    || leaf_next_raw(t[chain.last()]) as int >= t.len() || page_kind_byte(
                    t[leaf_next_raw(t[chain.last()]) as int],
                ) != PAGE_KIND_LEAF || chain.len() > t.len(),
                self.state == CursorState::AtEnd,
            decreases hops,
        {
            let ghost cur = self.page_breadcrumb@.last().1 as int;
            let n = self.node.num_cells();
            self.cell_num = 0;
            let mut i: u64 = 0;
            while i < n
                invariant
                    self.inv(*table),
                    self.node.kind == PageType::Leaf,
                    t == table@,
                    cur == self.page_breadcrumb@.last().1 as int,
                    n == leaf_n(self.node.page@),
                    i <= n,
                    forall|k: int|
                        0 <= k < data@.len() ==> value_in_some_leaf(t, (#[trigger] data@[k])@),
                    data@.map_values(|v: Vec<u8>| v@) == chain_vals(t, chain) + leaf_vals(
                        t[cur],
                    ).subrange(0, i as int),
                decreases n - i,
            {
                let value = self.node.read_cell_bytes(i);
                proof {
                    assert(value@ == leaf_content(t[cur], i as int));
                    assert(page_kind_byte(t[cur]) == PAGE_KIND_LEAF);
                    assert(value_in_some_leaf(t, value@));
                }
                let ghost data_pre = data@;
                data.push(value);
                proof {
                    assert(leaf_vals(t[cur])[i as int] == leaf_content(t[cur], i as int));
                    assert(data@.map_values(|v: Vec<u8>| v@) =~= data_pre.map_values(
                        |v: Vec<u8>| v@,
                    ).push(value@));
                    assert(leaf_vals(t[cur]).subrange(0, i + 1) =~= leaf_vals(t[cur]).subrange(
                        0,
                        i as int,
                    ).push(leaf_vals(t[cur])[i as int]));
                }
                i = i + 1;
                self.cell_num = i;
            }
            proof {
                assert(leaf_vals(t[cur]).subrange(0, n as int) =~= leaf_vals(t[cur]));
                lemma_chain_vals_push(t, chain, cur);
                chain = chain.push(cur);
            }
            match self.node.next_sibling() {
                Some(sibling) => {
                    let child = match table.get_page(sibling) {
                        Some(c) => c,
                        None => {
                            self.state = CursorState::AtEnd;
                            proof {
                                assert(chain.last() == cur);
                                assert(leaf_next_raw(t[cur]) == sibling);
                            }
                            break ;
                        },
                    };
                    let ghost child_view = child@;
                    let child_node = match Node::load(child) {
                        Ok(nd) => nd,
                        Err(_) => {
                            proof {
                                assert(page_wf(child_view));
                                assert(false);
                            }
                            vstd::pervasive::unreached()
                        },
                    };
                    if child_node.node_type() != PageType::Leaf {
                        self.state = CursorState::AtEnd;
                        proof {
                            assert(chain.last() == cur);
                            assert(leaf_next_raw(t[cur]) == sibling);
                            assert(page_kind_byte(t[sibling as int]) != PAGE_KIND_LEAF);
                        }
                        break ;
                    }
                    self.node = child_node;
                    self.page_breadcrumb.push((0, sibling));
                    self.cell_num = 0;
                },
                None => {
                    self.state = CursorState::AtEnd;
                    proof {
                        assert(chain.last() == cur);
                        assert(leaf_next_raw(t[cur]) == LEAF_NEXT_SIBLING_POINTER_DEFAULT);
                    }
                    break ;
                },
            }
            if hops == 0 {
                self.state = CursorState::AtEnd;
                proof {
                    assert(chain.len() > t.len());
                }
                break ;
            }
            hops = hops - 1;
        }
        proof {
            let out = data@.map_values(|v: Vec<u8>| v@);
            assert(chain_vals(table@, chain) == out);
            assert(scan_chain_ok(table@, start, entry_state, chain, out));
            assert(exists|c: Seq<int>|
                #![trigger chain_vals(table@, c)]
                scan_chain_ok(table@, start, entry_state, c, out));
        }
        data
    }
}

/// The big-endian round trip, re-exported for local proofs.
proof fn lemma_u64_round(v: u64)
    ensures
        u64_from_be(u64_to_be(v)) == v,
{
    crate::codec::lemma_u64_be_round_trip(v);
}

} // verus!
