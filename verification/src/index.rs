//! The B+ tree index: single-key insert and point search, built entirely on
//! page records obtained from the buffer pool.
//!
//! All pages of the store belong to the tree. The well-formedness predicate
//! [`BPlusTree::wf`] pins the shape between calls: keys strictly ascending
//! within each page, every internal page holding one more child than keys,
//! every non-root page at least half full, parent and child links matching
//! in both directions, leaf links pointing at other leaves, the page heights
//! of a balanced tree, and a key interval per page — the root unbounded,
//! each child bounded by the separators of its slot in the parent — within
//! which all of the page's keys lie. The intervals are what make insertion
//! total: a separator promoted out of a split page lies strictly between
//! its parent's neighboring separators, so linking it can never collide
//! with an existing key. Routing a probe key descends, at each internal
//! page, into the child at the first position whose separator exceeds the
//! key, so a key equal to a separator goes right — the same rule the split
//! uses when it promotes the first key of a new right sibling. Search and
//! insert share one descent routine, so the two cannot disagree.

use vstd::prelude::*;
use vstd::multiset::Multiset;

use crate::buffer_pool::BufferPool;
use crate::storage::{blank_page, Error, NodeType, PageData, PageView};
pub use crate::storage::{Key, Value};

verus! {

broadcast use vstd::group_vstd_default;

/// Default B+ tree order (fan-out) used by the demo configuration.
pub const ORDER: usize = 4;

/// Inserting never allocates more pages than one per level plus a new root,
/// and a level count is below the page count; so an insert that starts with
/// at most this many pages never exhausts the 32-bit page-id space.
pub const MAX_PAGES_FOR_INSERT: usize = 0x7FFF_FFFF;

// ---------------------------------------------------------------------------
// Keys within a page.
// ---------------------------------------------------------------------------

/// Strictly ascending: sorted with no duplicates.
pub open spec fn sorted_strict(s: Seq<i32>) -> bool {
    forall|a: int, b: int| 0 <= a < b < s.len() ==> s[a] < s[b]
}

/// The first position whose entry exceeds `k`; `s.len()` if none does.
pub open spec fn first_gt(s: Seq<i32>, k: i32) -> int
    decreases s.len(),
{
    if s.len() == 0 {
        0
    } else if s[0] > k {
        0
    } else {
        1 + first_gt(s.drop_first(), k)
    }
}

/// The first position whose entry reaches `k`; `s.len()` if none does.
pub open spec fn first_geq(s: Seq<i32>, k: i32) -> int
    decreases s.len(),
{
    if s.len() == 0 {
        0
    } else if s[0] >= k {
        0
    } else {
        1 + first_geq(s.drop_first(), k)
    }
}

pub proof fn lemma_first_gt_props(s: Seq<i32>, k: i32)
    ensures
        0 <= first_gt(s, k) <= s.len(),
        forall|i: int| 0 <= i < first_gt(s, k) ==> s[i] <= k,
        first_gt(s, k) < s.len() ==> s[first_gt(s, k)] > k,
    decreases s.len(),
{
    if s.len() == 0 {
    } else if s[0] > k {
    } else {
        lemma_first_gt_props(s.drop_first(), k);
        assert forall|i: int| 0 <= i < first_gt(s, k) implies s[i] <= k by {
            if i >= 1 {
                assert(s.drop_first()[i - 1] <= k);
            }
        }
        if first_gt(s, k) < s.len() {
            assert(s.drop_first()[first_gt(s.drop_first(), k)] == s[first_gt(s, k)]);
        }
    }
}

pub proof fn lemma_first_gt_unique(s: Seq<i32>, k: i32, r: int)
    requires
        0 <= r <= s.len(),
        forall|i: int| 0 <= i < r ==> s[i] <= k,
        r < s.len() ==> s[r] > k,
    ensures
        r == first_gt(s, k),
{
    lemma_first_gt_props(s, k);
    if r < first_gt(s, k) {
        assert(s[r] <= k);
    } else if first_gt(s, k) < r {
        assert(s[first_gt(s, k)] <= k);
    }
}

pub proof fn lemma_first_geq_props(s: Seq<i32>, k: i32)
    ensures
        0 <= first_geq(s, k) <= s.len(),
        forall|i: int| 0 <= i < first_geq(s, k) ==> s[i] < k,
        first_geq(s, k) < s.len() ==> s[first_geq(s, k)] >= k,
    decreases s.len(),
{
    if s.len() == 0 {
    } else if s[0] >= k {
    } else {
        lemma_first_geq_props(s.drop_first(), k);
        assert forall|i: int| 0 <= i < first_geq(s, k) implies s[i] < k by {
            if i >= 1 {
                assert(s.drop_first()[i - 1] < k);
            }
        }
        if first_geq(s, k) < s.len() {
            assert(s.drop_first()[first_geq(s.drop_first(), k)] == s[first_geq(s, k)]);
        }
    }
}

pub proof fn lemma_first_geq_unique(s: Seq<i32>, k: i32, r: int)
    requires
        0 <= r <= s.len(),
        forall|i: int| 0 <= i < r ==> s[i] < k,
        r < s.len() ==> s[r] >= k,
    ensures
        r == first_geq(s, k),
{
    lemma_first_geq_props(s, k);
    if r < first_geq(s, k) {
        assert(s[r] < k);
    } else if first_geq(s, k) < r {
        assert(s[first_geq(s, k)] < k);
    }
}

/// Binary search for the first position whose key exceeds `key`: the routing
/// position of `key` among the separators of an internal page. A key equal
/// to a separator routes right.
fn upper_bound(keys: &Vec<i32>, key: i32) -> (r: usize)
    requires
        sorted_strict(keys@),
    ensures
        r == first_gt(keys@, key),
        r <= keys@.len(),
{
    let mut lo: usize = 0;
    let mut hi: usize = keys.len();
    while lo < hi
        invariant
            lo <= hi <= keys@.len(),
            sorted_strict(keys@),
            forall|i: int| 0 <= i < lo ==> keys@[i] <= key,
            hi < keys@.len() ==> keys@[hi as int] > key,
        decreases hi - lo,
    {
        let mid = lo + (hi - lo) / 2;
        if keys[mid] <= key {
            lo = mid + 1;
        } else {
            hi = mid;
        }
    }
    proof {
        lemma_first_gt_unique(keys@, key, lo as int);
    }
    lo
}

/// Binary search for the first position whose key reaches `key`: the sorted
/// insertion position of `key` in a leaf, and the position of `key` itself
/// when present.
fn lower_bound(keys: &Vec<i32>, key: i32) -> (r: usize)
    requires
        sorted_strict(keys@),
    ensures
        r == first_geq(keys@, key),
        r <= keys@.len(),
{
    let mut lo: usize = 0;
    let mut hi: usize = keys.len();
    while lo < hi
        invariant
            lo <= hi <= keys@.len(),
            sorted_strict(keys@),
            forall|i: int| 0 <= i < lo ==> keys@[i] < key,
            hi < keys@.len() ==> keys@[hi as int] >= key,
        decreases hi - lo,
    {
        let mid = lo + (hi - lo) / 2;
        if keys[mid] < key {
            lo = mid + 1;
        } else {
            hi = mid;
        }
    }
    proof {
        lemma_first_geq_unique(keys@, key, lo as int);
    }
    lo
}

/// The same record with its parent link rewritten.
spec fn reparent(m: PageView, p: u32) -> PageView {
    PageView { parent_id: Some(p), ..m }
}

/// Inserting `k` at its sorted position keeps keys strictly ascending, as
/// long as `k` is not already present there.
proof fn lemma_sorted_insert(s: Seq<i32>, k: i32)
    requires
        sorted_strict(s),
        first_geq(s, k) < s.len() ==> s[first_geq(s, k)] != k,
    ensures
        sorted_strict(s.insert(first_geq(s, k), k)),
{
    let pos = first_geq(s, k);
    lemma_first_geq_props(s, k);
    s.insert_ensures(pos, k);
    let t = s.insert(pos, k);
    assert forall|a: int, b: int| 0 <= a < b < t.len() implies t[a] < t[b] by {
        if b < pos {
            assert(t[a] == s[a] && t[b] == s[b]);
        } else if b == pos {
            assert(t[a] == s[a] && t[b] == k);
        } else {
            assert(t[b] == s[b - 1]);
            assert(s[pos] > k);
            if a < pos {
                assert(t[a] == s[a]);
                assert(s[a] < k);
                assert(b - 1 >= pos);
                assert(s[b - 1] >= s[pos]);
            } else if a == pos {
                assert(t[a] == k);
                assert(s[b - 1] >= s[pos]);
            } else {
                assert(t[a] == s[a - 1]);
            }
        }
    }
}

/// Membership in a page-id list survives inserting another id.
proof fn lemma_insert_contains(s: Seq<u32>, pos: int, v: u32, x: u32)
    requires
        0 <= pos <= s.len(),
        s.contains(x),
    ensures
        s.insert(pos, v).contains(x),
{
    s.insert_ensures(pos, v);
    let jj = choose|jj: int| 0 <= jj < s.len() && s[jj] == x;
    if jj < pos {
        assert(s.insert(pos, v)[jj] == x);
    } else {
        assert(s.insert(pos, v)[jj + 1] == x);
    }
}

/// Inserting a fresh id keeps a page-id list duplicate-free.
proof fn lemma_distinct_insert(s: Seq<u32>, pos: int, c: u32)
    requires
        0 <= pos <= s.len(),
        distinct_u32s(s),
        forall|j: int| 0 <= j < s.len() ==> s[j] != c,
    ensures
        distinct_u32s(s.insert(pos, c)),
{
    s.insert_ensures(pos, c);
    let t = s.insert(pos, c);
    assert forall|a: int, b: int| 0 <= a < b < t.len() implies t[a] != t[b] by {
        if a < pos {
            assert(t[a] == s[a]);
        } else if a > pos {
            assert(t[a] == s[a - 1]);
        }
        if b < pos {
            assert(t[b] == s[b]);
        } else if b > pos {
            assert(t[b] == s[b - 1]);
        }
    }
}

proof fn lemma_sorted_subrange(s: Seq<i32>, i: int, j: int)
    requires
        sorted_strict(s),
        0 <= i <= j <= s.len(),
    ensures
        sorted_strict(s.subrange(i, j)),
{
}

proof fn lemma_distinct_subrange(s: Seq<u32>, i: int, j: int)
    requires
        distinct_u32s(s),
        0 <= i <= j <= s.len(),
    ensures
        distinct_u32s(s.subrange(i, j)),
{
}

// ---------------------------------------------------------------------------
// The stored pairs, as a multiset.
// ---------------------------------------------------------------------------

/// The key/value pairs of one leaf, paired index by index.
pub open spec fn kv_pairs(keys: Seq<i32>, values: Seq<u64>) -> Multiset<(i32, u64)>
    decreases keys.len(),
{
    if keys.len() == 0 || values.len() == 0 {
        Multiset::empty()
    } else {
        kv_pairs(keys.drop_last(), values.drop_last()).insert((keys.last(), values.last()))
    }
}

/// The pairs a page contributes: its key/value pairs if it is a leaf,
/// nothing otherwise.
pub open spec fn page_pairs(m: PageView) -> Multiset<(i32, u64)> {
    if m.node_type == NodeType::Leaf {
        kv_pairs(m.keys, m.values)
    } else {
        Multiset::empty()
    }
}

/// Everything the tree stores: the pairs of all leaves together.
pub open spec fn contents(ps: Seq<PageView>) -> Multiset<(i32, u64)>
    decreases ps.len(),
{
    if ps.len() == 0 {
        Multiset::empty()
    } else {
        contents(ps.drop_last()).add(page_pairs(ps.last()))
    }
}

proof fn lemma_multiset_cancel(a: Multiset<(i32, u64)>, b: Multiset<(i32, u64)>, c: Multiset<(i32, u64)>)
    requires
        a.add(c) == b.add(c),
    ensures
        a == b,
{
    assert forall|e: (i32, u64)| a.count(e) == b.count(e) by {
        let l = a.add(c);
        let r = b.add(c);
        assert(l == r);
        assert(l.count(e) == a.count(e) + c.count(e));
        assert(r.count(e) == b.count(e) + c.count(e));
    }
    assert(a =~= b);
}

pub proof fn lemma_contents_push(ps: Seq<PageView>, m: PageView)
    ensures
        contents(ps.push(m)) == contents(ps).add(page_pairs(m)),
{
    assert(ps.push(m).drop_last() =~= ps);
    assert(ps.push(m).last() == m);
}

/// Replacing page `i` trades its pairs for the new record's pairs.
pub proof fn lemma_contents_update(ps: Seq<PageView>, i: int, m: PageView)
    requires
        0 <= i < ps.len(),
    ensures
        contents(ps.update(i, m)).add(page_pairs(ps[i])) == contents(ps).add(page_pairs(m)),
    decreases ps.len(),
{
    let ps2 = ps.update(i, m);
    if i == ps.len() - 1 {
        assert(ps2.drop_last() =~= ps.drop_last());
        assert(ps2.last() == m);
        assert(contents(ps2).add(page_pairs(ps[i])) =~= contents(ps).add(page_pairs(m)));
    } else {
        assert(ps2.drop_last() =~= ps.drop_last().update(i, m));
        assert(ps2.last() == ps.last());
        lemma_contents_update(ps.drop_last(), i, m);
        let cd2 = contents(ps.drop_last().update(i, m));
        let cd = contents(ps.drop_last());
        let l = page_pairs(ps.last());
        let pi = page_pairs(ps[i]);
        let pm = page_pairs(m);
        assert(ps.drop_last()[i] == ps[i]);
        assert(cd2.add(pi) == cd.add(pm));
        assert(contents(ps2) == cd2.add(l));
        assert(contents(ps) == cd.add(l));
        assert forall|e: (i32, u64)|
            contents(ps2).add(page_pairs(ps[i])).count(e) == contents(ps).add(
                page_pairs(m),
            ).count(e) by {
            assert(cd2.add(pi).count(e) == cd.add(pm).count(e));
        }
        assert(contents(ps2).add(page_pairs(ps[i])) =~= contents(ps).add(page_pairs(m)));
    }
}

/// Replacing page `i` with a record holding the same pairs keeps the
/// contents unchanged.
pub proof fn lemma_contents_update_same(ps: Seq<PageView>, i: int, m: PageView)
    requires
        0 <= i < ps.len(),
        page_pairs(m) == page_pairs(ps[i]),
    ensures
        contents(ps.update(i, m)) == contents(ps),
{
    lemma_contents_update(ps, i, m);
    lemma_multiset_cancel(contents(ps.update(i, m)), contents(ps), page_pairs(ps[i]));
}

/// Inserting a pair at any position of a leaf's arrays adds exactly that
/// pair to the leaf's pairs.
pub proof fn lemma_kv_insert(keys: Seq<i32>, values: Seq<u64>, pos: int, k: i32, v: u64)
    requires
        keys.len() == values.len(),
        0 <= pos <= keys.len(),
    ensures
        kv_pairs(keys.insert(pos, k), values.insert(pos, v)) == kv_pairs(keys, values).insert(
            (k, v),
        ),
    decreases keys.len(),
{
    let nk = keys.insert(pos, k);
    let nv = values.insert(pos, v);
    if pos == keys.len() {
        assert(nk.drop_last() =~= keys);
        assert(nv.drop_last() =~= values);
        assert(nk.last() == k);
        assert(nv.last() == v);
    } else {
        assert(nk.drop_last() =~= keys.drop_last().insert(pos, k));
        assert(nv.drop_last() =~= values.drop_last().insert(pos, v));
        assert(nk.last() == keys.last());
        assert(nv.last() == values.last());
        lemma_kv_insert(keys.drop_last(), values.drop_last(), pos, k, v);
        assert(kv_pairs(nk, nv) =~= kv_pairs(keys, values).insert((k, v)));
    }
}

/// Splitting a leaf's arrays at `mid` partitions its pairs.
pub proof fn lemma_kv_split(keys: Seq<i32>, values: Seq<u64>, mid: int)
    requires
        keys.len() == values.len(),
        0 <= mid <= keys.len(),
    ensures
        kv_pairs(keys, values) == kv_pairs(keys.take(mid), values.take(mid)).add(
            kv_pairs(keys.skip(mid), values.skip(mid)),
        ),
    decreases keys.len() - mid,
{
    if mid == keys.len() {
        assert(keys.take(mid) =~= keys);
        assert(values.take(mid) =~= values);
        assert(kv_pairs(keys.skip(mid), values.skip(mid)) =~= Multiset::empty());
        assert(kv_pairs(keys, values) =~= kv_pairs(keys.take(mid), values.take(mid)).add(
            kv_pairs(keys.skip(mid), values.skip(mid)),
        ));
    } else {
        // Peel the last element off the right half.
        let dk = keys.drop_last();
        let dv = values.drop_last();
        lemma_kv_split(dk, dv, mid);
        assert(dk.take(mid) =~= keys.take(mid));
        assert(dv.take(mid) =~= values.take(mid));
        assert(keys.skip(mid).drop_last() =~= dk.skip(mid));
        assert(values.skip(mid).drop_last() =~= dv.skip(mid));
        assert(keys.skip(mid).last() == keys.last());
        assert(values.skip(mid).last() == values.last());
        assert(keys.skip(mid).len() > 0 && values.skip(mid).len() > 0);
        assert(kv_pairs(keys.skip(mid), values.skip(mid)) == kv_pairs(dk.skip(mid), dv.skip(mid)).insert((keys.last(), values.last())));
        assert(kv_pairs(keys, values) =~= kv_pairs(keys.take(mid), values.take(mid)).add(
            kv_pairs(keys.skip(mid), values.skip(mid)),
        ));
    }
}

/// A pair found among a leaf's pairs sits at some index of its arrays.
proof fn lemma_kv_pairs_to_index(keys: Seq<i32>, values: Seq<u64>, e: (i32, u64)) -> (j: int)
    requires
        keys.len() == values.len(),
        kv_pairs(keys, values).count(e) > 0,
    ensures
        0 <= j < keys.len(),
        keys[j] == e.0,
        values[j] == e.1,
    decreases keys.len(),
{
    if keys.len() == 0 {
        0
    } else if keys.last() == e.0 && values.last() == e.1 {
        keys.len() - 1
    } else {
        lemma_kv_pairs_to_index(keys.drop_last(), values.drop_last(), e)
    }
}

/// A pair found among the contents sits in some leaf.
proof fn lemma_contents_to_page(ps: Seq<PageView>, e: (i32, u64)) -> (i: int)
    requires
        contents(ps).count(e) > 0,
    ensures
        0 <= i < ps.len(),
        ps[i].node_type == NodeType::Leaf,
        kv_pairs(ps[i].keys, ps[i].values).count(e) > 0,
    decreases ps.len(),
{
    if ps.len() > 0 && page_pairs(ps.last()).count(e) > 0 {
        ps.len() - 1
    } else {
        lemma_contents_to_page(ps.drop_last(), e)
    }
}

/// Each pair of a leaf's arrays occurs among the leaf's pairs.
proof fn lemma_kv_pairs_index(keys: Seq<i32>, values: Seq<u64>, j: int)
    requires
        keys.len() == values.len(),
        0 <= j < keys.len(),
    ensures
        kv_pairs(keys, values).count((keys[j], values[j])) > 0,
    decreases keys.len(),
{
    if j < keys.len() - 1 {
        lemma_kv_pairs_index(keys.drop_last(), values.drop_last(), j);
    }
}

/// Each page's pairs are contained in the contents of the whole store.
proof fn lemma_page_pairs_in_contents(ps: Seq<PageView>, i: int)
    requires
        0 <= i < ps.len(),
    ensures
        forall|e: (i32, u64)|
            contents(ps).count(e) >= #[trigger] page_pairs(ps[i]).count(e),
    decreases ps.len(),
{
    if i < ps.len() - 1 {
        lemma_page_pairs_in_contents(ps.drop_last(), i);
        assert(ps.drop_last()[i] == ps[i]);
    }
}

// ---------------------------------------------------------------------------
// Shape of a well-formed tree.
// ---------------------------------------------------------------------------

/// Fewest keys a non-root page may hold: `ceil(order / 2) - 1`.
pub open spec fn min_keys(order: int) -> int {
    (order - 1) / 2
}

/// No page id appears twice.
pub open spec fn distinct_u32s(s: Seq<u32>) -> bool {
    forall|j1: int, j2: int| 0 <= j1 < j2 < s.len() ==> s[j1] != s[j2]
}

/// Structural soundness of one page in isolation. `kmax` caps the key count:
/// `order - 1` at rest, `order` for a page about to split.
pub open spec fn node_ok(m: PageView, kmax: int) -> bool {
    &&& sorted_strict(m.keys)
    &&& m.keys.len() <= kmax
    &&& (m.node_type == NodeType::Leaf ==> m.values.len() == m.keys.len() && m.children.len()
        == 0)
    &&& (m.node_type == NodeType::Internal ==> {
        &&& m.children.len() == m.keys.len() + 1
        &&& m.values.len() == 0
        &&& m.keys.len() >= 1
        &&& distinct_u32s(m.children)
    })
}

/// Soundness of one child reference of internal page `i`.
pub open spec fn child_ok(ps: Seq<PageView>, hs: Map<int, nat>, i: int, c: u32) -> bool {
    &&& (c as int) < ps.len()
    &&& (c as int) != i
    &&& hs[c as int] + 1 == hs[i]
    &&& ps[c as int].parent_id == Some(ps[i].id)
}

/// Soundness of the links of page `i` against the rest of the store: parent
/// and child references match in both directions, heights decrease by one
/// per level, and leaf links point at other leaves.
pub open spec fn links_ok(ps: Seq<PageView>, hs: Map<int, nat>, root: Option<u32>, i: int) -> bool {
    let m = ps[i];
    &&& (m.parent_id is None <==> root == Some(m.id))
    &&& (match m.parent_id {
        Some(p) => {
            &&& (p as int) < ps.len()
            &&& (p as int) != i
            &&& ps[p as int].node_type == NodeType::Internal
            &&& ps[p as int].children.contains(m.id)
            &&& hs[p as int] == hs[i] + 1
        },
        None => true,
    })
    &&& (m.node_type == NodeType::Leaf ==> hs[i] == 0 && (match m.next {
        Some(nx) => (nx as int) < ps.len() && ps[nx as int].node_type == NodeType::Leaf && nx
            != m.id,
        None => true,
    }))
    &&& (m.node_type == NodeType::Internal ==> hs[i] >= 1 && (forall|j: int|
        0 <= j < m.children.len() ==> child_ok(ps, hs, i, #[trigger] m.children[j])))
}

/// Key bounds of a page: `k` lies in the half-open interval the pair
/// delimits, a missing bound being unbounded.
pub open spec fn in_bnd(b: (Option<i32>, Option<i32>), k: i32) -> bool {
    &&& (b.0 matches Some(lo) ==> lo <= k)
    &&& (b.1 matches Some(hi) ==> k < hi)
}

/// Every key of the page lies within the bounds.
pub open spec fn page_in_bnd(m: PageView, b: (Option<i32>, Option<i32>)) -> bool {
    forall|t: int| 0 <= t < m.keys.len() ==> in_bnd(b, #[trigger] m.keys[t])
}

/// The interval the separators of internal page `i` delimit for its child
/// slot `j`: from separator `j - 1` (or the page's own lower bound) up to
/// separator `j` (or the page's own upper bound).
pub open spec fn slot_bnd(
    ps: Seq<PageView>,
    bs: Map<int, (Option<i32>, Option<i32>)>,
    i: int,
    j: int,
) -> (Option<i32>, Option<i32>) {
    (
        if j == 0 {
            bs[i].0
        } else {
            Some(ps[i].keys[j - 1])
        },
        if j == ps[i].keys.len() {
            bs[i].1
        } else {
            Some(ps[i].keys[j])
        },
    )
}

/// The bounds assigned to the child in slot `j` of internal page `i` are
/// exactly the slot's interval.
pub open spec fn bounds_match(
    ps: Seq<PageView>,
    bs: Map<int, (Option<i32>, Option<i32>)>,
    i: int,
    j: int,
) -> bool {
    bs[ps[i].children[j] as int] == slot_bnd(ps, bs, i, j)
}

/// The leaf chain follows the intervals: a leaf's upper bound is exactly
/// the lower bound of the leaf its next link names, and only the rightmost
/// leaf — the one with no upper bound — has no successor.
pub open spec fn chain_ok(
    ps: Seq<PageView>,
    bs: Map<int, (Option<i32>, Option<i32>)>,
    i: int,
) -> bool {
    ps[i].node_type == NodeType::Leaf ==> {
        &&& (ps[i].next is None <==> bs[i].1 is None)
        &&& (match ps[i].next {
            Some(nx) => bs[nx as int].0 == bs[i].1,
            None => true,
        })
    }
}

/// The leaf that routing `k` from page `id` reaches: at each internal page,
/// descend into the child at the first separator position exceeding `k`.
pub open spec fn route(ps: Seq<PageView>, id: int, k: i32, fuel: nat) -> int
    decreases fuel,
{
    if fuel == 0 {
        id
    } else if 0 <= id < ps.len() && ps[id].node_type == NodeType::Internal {
        route(ps, ps[id].children[first_gt(ps[id].keys, k)] as int, k, (fuel - 1) as nat)
    } else {
        id
    }
}

/// Page `a` equals `c` or lies on the parent chain above `c`, within
/// `fuel` steps.
pub open spec fn in_parent_chain(ps: Seq<PageView>, c: int, a: int, fuel: nat) -> bool
    decreases fuel,
{
    c == a || (fuel > 0 && 0 <= c < ps.len() && (match ps[c].parent_id {
        Some(p) => in_parent_chain(ps, p as int, a, (fuel - 1) as nat),
        None => false,
    }))
}

/// More fuel never shrinks a parent chain.
proof fn lemma_chain_mono(ps: Seq<PageView>, c: int, a: int, fuel1: nat, fuel2: nat)
    requires
        in_parent_chain(ps, c, a, fuel1),
        fuel1 <= fuel2,
    ensures
        in_parent_chain(ps, c, a, fuel2),
    decreases fuel1,
{
    if c != a {
        match ps[c].parent_id {
            Some(p) => {
                lemma_chain_mono(ps, p as int, a, (fuel1 - 1) as nat, (fuel2 - 1) as nat);
            },
            None => {},
        }
    }
}

/// A parent chain extends by one step at its top.
proof fn lemma_chain_extend(ps: Seq<PageView>, c: int, a: int, p: int, fuel: nat)
    requires
        in_parent_chain(ps, c, a, fuel),
        0 <= a < ps.len(),
        0 <= p < 0x1_0000_0000,
        ps[a].parent_id == Some(p as u32),
    ensures
        in_parent_chain(ps, c, p, (fuel + 1) as nat),
    decreases fuel,
{
    if c == a {
        assert(in_parent_chain(ps, p, p, fuel));
    } else {
        match ps[c].parent_id {
            Some(q) => {
                lemma_chain_extend(ps, q as int, a, p, (fuel - 1) as nat);
            },
            None => {},
        }
    }
}

/// A parent chain in a longer page sequence with the same parent links,
/// starting below the original length, is a chain in the original too.
proof fn lemma_chain_frame_rev(
    ps1: Seq<PageView>,
    ps2: Seq<PageView>,
    c: int,
    a: int,
    fuel: nat,
)
    requires
        ps1.len() <= ps2.len(),
        forall|i: int| 0 <= i < ps1.len() ==> (#[trigger] ps2[i]).parent_id == ps1[i].parent_id,
        forall|i: int|
            0 <= i < ps1.len() ==> ((#[trigger] ps1[i]).parent_id matches Some(p) ==> 0 <= p
                < ps1.len()),
        0 <= c < ps1.len(),
        in_parent_chain(ps2, c, a, fuel),
    ensures
        in_parent_chain(ps1, c, a, fuel),
    decreases fuel,
{
    if c != a {
        match ps1[c].parent_id {
            Some(p) => {
                lemma_chain_frame_rev(ps1, ps2, p as int, a, (fuel - 1) as nat);
            },
            None => {},
        }
    }
}

/// The value a leaf holds for `k`, if any.
pub open spec fn leaf_lookup(m: PageView, k: i32) -> Option<u64> {
    let j = first_geq(m.keys, k);
    if j < m.keys.len() && m.keys[j] == k {
        Some(m.values[j])
    } else {
        None
    }
}

// ---------------------------------------------------------------------------
// The tree.
// ---------------------------------------------------------------------------

/// A B+ tree over a buffer pool: insert and point search.
pub struct BPlusTree {
    buffer_pool: BufferPool,
    root: Option<u32>,
    order: usize,
    /// Height of every page: 0 at leaves, one more per level upward.
    heights: Ghost<Map<int, nat>>,
    /// Key bounds of every page: the root unbounded, each child bounded by
    /// the separators of its slot in the parent.
    bounds: Ghost<Map<int, (Option<i32>, Option<i32>)>>,
}

impl View for BPlusTree {
    type V = Seq<PageView>;

    closed spec fn view(&self) -> Seq<PageView> {
        self.buffer_pool@
    }
}

impl BPlusTree {
    pub closed spec fn root_spec(self) -> Option<u32> {
        self.root
    }

    pub closed spec fn order_spec(self) -> int {
        self.order as int
    }

    pub closed spec fn heights_spec(self) -> Map<int, nat> {
        self.heights@
    }

    pub closed spec fn bounds_spec(self) -> Map<int, (Option<i32>, Option<i32>)> {
        self.bounds@
    }

    pub closed spec fn capacity_spec(self) -> int {
        self.buffer_pool.capacity_spec()
    }

    pub closed spec fn cached_spec(self) -> int {
        self.buffer_pool.cached_spec()
    }

    pub closed spec fn page_size_spec(self) -> int {
        self.buffer_pool.page_size_spec()
    }

    /// The pool is coherent, the order is sane, every record fits a page
    /// slot even while transiently overfull, and page ids equal slot
    /// numbers.
    pub closed spec fn base_ok(self) -> bool {
        &&& self.buffer_pool.inv()
        &&& self.order >= 3
        &&& 12 * self.order as int + 48 <= self.buffer_pool.page_size_spec()
        &&& forall|i: int| 0 <= i < self@.len() ==> (#[trigger] self@[i]).id == i
    }

    /// Whether page `i` satisfies every at-rest clause: structure, minimum
    /// occupancy unless it is the root, sound links, and keys within the
    /// page's bounds.
    spec fn page_ok(self, i: int) -> bool {
        let ps = self@;
        &&& node_ok(ps[i], self.order as int - 1)
        &&& (self.root != Some(i as u32) ==> ps[i].keys.len() >= min_keys(self.order as int))
        &&& links_ok(ps, self.heights@, self.root, i)
        &&& self.heights@[i] < ps.len()
        &&& page_in_bnd(ps[i], self.bounds@[i])
        &&& chain_ok(ps, self.bounds@, i)
    }

    /// Whether the child slots of page `i` carry the bounds its separators
    /// delimit.
    spec fn pairs_ok(self, i: int) -> bool {
        self@[i].node_type == NodeType::Internal ==> forall|j: int|
            0 <= j < self@[i].children.len() ==> #[trigger] bounds_match(
                self@,
                self.bounds@,
                i,
                j,
            )
    }

    /// The tree invariant, restored after every public call.
    pub closed spec fn wf(self) -> bool {
        &&& self.base_ok()
        &&& (match self.root {
            None => self@.len() == 0,
            Some(r) => {
                &&& (r as int) < self@.len()
                &&& self.bounds@[r as int] == (Option::<i32>::None, Option::<i32>::None)
                &&& forall|i: int|
                    0 <= i < self@.len() ==> #[trigger] self.heights@[i] <= self.heights@[r as int]
            },
        })
        &&& forall|i: int| 0 <= i < self@.len() ==> self.page_ok(i)
        &&& forall|i: int| 0 <= i < self@.len() ==> self.pairs_ok(i)
    }

    /// Height of the root page; 0 for an empty tree. An insert allocates
    /// at most one page per level plus a possible new root, so this bounds
    /// the tree's growth.
    pub closed spec fn root_height(self) -> int {
        match self.root {
            Some(r) => self.heights@[r as int] as int,
            None => 0,
        }
    }

    /// The leaf that routing `key` from the root reaches.
    pub closed spec fn routed_leaf(self, key: i32) -> int {
        match self.root {
            Some(r) => route(self@, r as int, key, (self.heights@[r as int] + 1) as nat),
            None => 0,
        }
    }

    /// Page `a` is the leaf that routing `key` reaches, or one of its
    /// ancestors: the descent path an insert may restructure.
    pub closed spec fn on_insert_path(self, key: i32, a: int) -> bool {
        in_parent_chain(self@, self.routed_leaf(key), a, (self.root_height() + 2) as nat)
    }

    /// Like `wf`, but page `x` may transiently hold up to `order` keys: the
    /// state right after an insertion into `x`, before `x` is split.
    spec fn wf_over(self, x: int) -> bool {
        let ps = self@;
        &&& self.base_ok()
        &&& 0 <= x < ps.len()
        &&& (match self.root {
            None => false,
            Some(r) => {
                &&& (r as int) < ps.len()
                &&& self.bounds@[r as int] == (Option::<i32>::None, Option::<i32>::None)
                &&& forall|i: int|
                    0 <= i < ps.len() ==> #[trigger] self.heights@[i] <= self.heights@[r as int]
            },
        })
        &&& forall|i: int| 0 <= i < ps.len() && i != x ==> self.page_ok(i)
        &&& forall|i: int| 0 <= i < ps.len() ==> self.pairs_ok(i)
        &&& node_ok(ps[x], self.order as int)
        &&& (self.root != Some(x as u32) ==> ps[x].keys.len() >= min_keys(self.order as int))
        &&& links_ok(ps, self.heights@, self.root, x)
        &&& self.heights@[x] < ps.len()
        &&& page_in_bnd(ps[x], self.bounds@[x])
        &&& chain_ok(ps, self.bounds@, x)
    }

    /// The state between splitting `left` and linking its new sibling
    /// `right` into a parent: everything is well formed except that `right`
    /// is not yet referenced anywhere, while its parent field already copies
    /// `left`'s. Both halves satisfy the minimum occupancy outright, and the
    /// separator `key` closes `left`'s interval and opens `right`'s, so the
    /// pair can be linked into `left`'s old slot.
    spec fn pending(self, left: int, right: int, key: i32) -> bool {
        let ps = self@;
        let hs = self.heights@;
        let bs = self.bounds@;
        &&& self.base_ok()
        &&& (match self.root {
            None => false,
            Some(r) => {
                &&& (r as int) < ps.len()
                &&& (r as int) != right
                &&& forall|i: int| 0 <= i < ps.len() ==> #[trigger] hs[i] <= hs[r as int]
            },
        })
        &&& 0 <= left < ps.len()
        &&& 0 <= right < ps.len()
        &&& left != right
        &&& forall|i: int| 0 <= i < ps.len() && i != right ==> self.page_ok(i)
        &&& ps[left].keys.len() >= min_keys(self.order as int)
        // `right` in isolation, and its occupancy.
        &&& node_ok(ps[right], self.order as int - 1)
        &&& ps[right].keys.len() >= min_keys(self.order as int)
        &&& hs[right] < ps.len()
        // `right`'s links, except that no parent lists it yet.
        &&& ps[right].parent_id == ps[left].parent_id
        &&& hs[right] == hs[left]
        &&& ps[right].node_type == ps[left].node_type
        &&& (ps[right].node_type == NodeType::Leaf ==> hs[right] == 0 && (match ps[right].next {
            Some(nx) => (nx as int) < ps.len() && ps[nx as int].node_type == NodeType::Leaf && nx
                != ps[right].id,
            None => true,
        }) && chain_ok(ps, bs, right))
        &&& (ps[right].node_type == NodeType::Internal ==> hs[right] >= 1 && (forall|j: int|
            0 <= j < ps[right].children.len() ==> child_ok(
                ps,
                hs,
                right,
                #[trigger] ps[right].children[j],
            )))
        // Nobody references `right`.
        &&& forall|i: int, j: int|
            0 <= i < ps.len() && 0 <= j < ps[i].children.len() ==> ps[i].children[j] != right as u32
        // Interval bookkeeping around the separator.
        &&& bs[left].1 == Some(key)
        &&& bs[right].0 == Some(key)
        &&& page_in_bnd(ps[right], bs[right])
        &&& (match self.root {
            Some(r) => {
                &&& ((r as int) == left ==> bs[left].0 is None && bs[right].1 is None)
                &&& ((r as int) != left ==> bs[r as int] == (
                    Option::<i32>::None,
                    Option::<i32>::None,
                ))
            },
            None => false,
        })
        &&& forall|i: int, j: int|
            0 <= i < ps.len() && 0 <= j < ps[i].children.len() && ps[i].children[j] != (left
                as u32) ==> bounds_match(ps, bs, i, j)
        &&& forall|i: int, j: int|
            0 <= i < ps.len() && 0 <= j < ps[i].children.len() && ps[i].children[j] == (left
                as u32) ==> bs[left].0 == slot_bnd(ps, bs, i, j).0 && bs[right].1 == slot_bnd(
                ps,
                bs,
                i,
                j,
            ).1
        &&& (ps[right].node_type == NodeType::Internal ==> forall|j: int|
            0 <= j < ps[right].children.len() ==> #[trigger] bounds_match(ps, bs, right, j))
    }

    /// Every record a tree operation writes fits in one page slot, even
    /// while transiently overfull.
    proof fn lemma_fits(self, m: PageView)
        requires
            self.base_ok(),
            node_ok(m, self.order as int),
        ensures
            crate::codec::encoded_len(m) <= self.buffer_pool.page_size_spec(),
    {
    }

    /// Creates an empty tree of the given order over an empty pool. The
    /// order must be at least 3, and small enough that an overfull page
    /// still fits in one page slot.
    pub fn new(order: usize, buffer_pool: BufferPool) -> (t: Self)
        requires
            buffer_pool.inv(),
            buffer_pool@.len() == 0,
            order >= 3,
            12 * order as int + 48 <= buffer_pool.page_size_spec(),
        ensures
            t.wf(),
            t@.len() == 0,
            t.root_spec() is None,
            t.order_spec() == order,
            t.capacity_spec() == buffer_pool.capacity_spec(),
            t.page_size_spec() == buffer_pool.page_size_spec(),
            t.root_height() == 0,
    {
        BPlusTree {
            buffer_pool,
            root: None,
            order,
            heights: Ghost(Map::empty()),
            bounds: Ghost(Map::empty()),
        }
    }

    pub fn order(&self) -> (n: usize)
        ensures
            n == self.order_spec(),
    {
        self.order
    }

    pub fn root_id(&self) -> (r: Option<u32>)
        ensures
            r == self.root_spec(),
    {
        self.root
    }

    /// Number of allocated pages.
    pub fn num_pages(&self) -> (n: usize)
        requires
            self.wf(),
        ensures
            n == self@.len(),
    {
        proof {
            self.lemma_wf_unfold();
        }
        self.buffer_pool.num_pages()
    }

    /// How many pages are memory-resident; never more than the cache
    /// capacity.
    pub fn cached_pages(&self) -> (n: usize)
        requires
            self.wf(),
        ensures
            n == self.cached_spec(),
            n <= self.capacity_spec(),
    {
        proof {
            self.lemma_wf_unfold();
        }
        self.buffer_pool.cached_pages()
    }

    proof fn lemma_wf_unfold(self)
        requires
            self.wf(),
        ensures
            self.buffer_pool.inv(),
    {
    }

    /// A cache-only mutation (a read through the pool) leaves the tree well
    /// formed: the page sequence and the tree fields are unchanged.
    proof fn lemma_same_shape_wf(a: BPlusTree, b: BPlusTree)
        requires
            a.wf(),
            b@ == a@,
            b.root == a.root,
            b.order == a.order,
            b.heights == a.heights,
            b.bounds == a.bounds,
            b.buffer_pool.inv(),
            b.buffer_pool.page_size_spec() == a.buffer_pool.page_size_spec(),
        ensures
            b.wf(),
    {
        assert forall|i: int| 0 <= i < b@.len() implies b.page_ok(i) && b.pairs_ok(i) by {
            assert(a.page_ok(i) && a.pairs_ok(i));
        }
    }

    /// Under `wf`, routing any key from the root lands on an allocated leaf.
    proof fn lemma_route_valid(self, id: int, key: i32)
        requires
            self.wf(),
            0 <= id < self@.len(),
        ensures
            0 <= route(self@, id, key, (self.heights@[id] + 1) as nat) < self@.len(),
            self@[route(self@, id, key, (self.heights@[id] + 1) as nat)].node_type
                == NodeType::Leaf,
        decreases self.heights@[id],
    {
        assert(self.page_ok(id));
        if self@[id].node_type == NodeType::Internal {
            let m = self@[id];
            lemma_first_gt_props(m.keys, key);
            let c = m.children[first_gt(m.keys, key)];
            assert(child_ok(self@, self.heights@, id, c));
            self.lemma_route_valid(c as int, key);
        }
    }

    /// A key within a page's interval routes from the root into that very
    /// page's subtree: each ancestor routes the key into the child it came
    /// from, because the child's interval is the slot its separators
    /// delimit.
    proof fn lemma_route_from(self, c: int, key: i32)
        requires
            self.wf(),
            self.root_spec() is Some,
            0 <= c < self@.len(),
            in_bnd(self.bounds@[c], key),
        ensures
            (match self.root_spec() {
                Some(rt) => route(self@, rt as int, key, (self.heights@[rt as int] + 1) as nat)
                    == route(self@, c, key, (self.heights@[c] + 1) as nat),
                None => true,
            }),
        decreases self.root_height() - self.heights@[c] as int,
    {
        let ps = self@;
        let hs = self.heights@;
        let bs = self.bounds@;
        assert(self.page_ok(c));
        assert(forall|i: int| 0 <= i < ps.len() ==> (#[trigger] ps[i]).id == i);
        match ps[c].parent_id {
            None => {
                assert(self.root == Some(ps[c].id));
            },
            Some(p) => {
                let pi = p as int;
                assert(pi < ps.len() && ps[pi].node_type == NodeType::Internal);
                assert(ps[pi].children.contains(ps[c].id));
                let j = choose|j: int|
                    0 <= j < ps[pi].children.len() && ps[pi].children[j] == ps[c].id;
                assert(self.page_ok(pi));
                assert(self.pairs_ok(pi));
                assert(bounds_match(ps, bs, pi, j));
                let pk = ps[pi].keys;
                assert(sorted_strict(pk) && ps[pi].children.len() == pk.len() + 1);
                assert(first_gt(pk, key) == j) by {
                    if j > 0 {
                        assert(bs[c].0 == Some(pk[j - 1]));
                    }
                    if j < pk.len() {
                        assert(bs[c].1 == Some(pk[j]));
                    }
                    assert forall|t: int| 0 <= t < j implies pk[t] <= key by {
                        if t < j - 1 {
                            assert(pk[t] < pk[j - 1]);
                        }
                    }
                    lemma_first_gt_unique(pk, key, j);
                }
                assert(route(ps, pi, key, (hs[pi] + 1) as nat) == route(
                    ps,
                    c,
                    key,
                    (hs[c] + 1) as nat,
                )) by {
                    assert(hs[c] + 1 == hs[pi]);
                }
                assert(in_bnd(bs[pi], key)) by {
                    assert(self.page_ok(pi));
                    if j > 0 {
                        assert(in_bnd(bs[pi], pk[j - 1]));
                    } else {
                        assert(bs[c].0 == bs[pi].0);
                    }
                    if j < pk.len() {
                        assert(in_bnd(bs[pi], pk[j]));
                    } else {
                        assert(bs[c].1 == bs[pi].1);
                    }
                }
                self.lemma_route_from(pi, key);
            },
        }
    }

    /// Law (stored implies found): every stored pair is the one its key
    /// routes to, so a search for the key would return exactly the stored
    /// value. Together with `lemma_search_result_is_stored` and the
    /// contracts of `insert` and `search`, the tree maps `key` to `v`
    /// exactly when some insert stored the pair.
    pub proof fn lemma_stored_pair_is_found(self, key: i32, v: u64)
        requires
            self.wf(),
            contents(self@).count((key, v)) > 0,
        ensures
            self.root_spec() is Some,
            leaf_lookup(self@[self.routed_leaf(key)], key) == Some(v),
    {
        let ps = self@;
        let i = lemma_contents_to_page(ps, (key, v));
        assert(self.root_spec() is Some);
        assert(self.page_ok(i));
        let t = lemma_kv_pairs_to_index(ps[i].keys, ps[i].values, (key, v));
        assert(in_bnd(self.bounds@[i], key));
        self.lemma_route_from(i, key);
        match self.root_spec() {
            Some(rt) => {
                assert(route(ps, i, key, (self.heights@[i] + 1) as nat) == i);
                assert(self.routed_leaf(key) == i);
            },
            None => {},
        }
        assert forall|u: int| 0 <= u < t implies ps[i].keys[u] < key by {
            assert(ps[i].keys[u] < ps[i].keys[t]);
        }
        lemma_first_geq_unique(ps[i].keys, key, t);
        assert(leaf_lookup(ps[i], key) == Some(v));
    }

    /// Law (no fabricated results): whatever a search would hand back for
    /// `key` is a pair the tree stores. Together with the contract of
    /// [`Self::insert`] — the stored pairs grow by exactly the inserted pair
    /// — a found value was put there by some insert.
    pub proof fn lemma_search_result_is_stored(self, key: i32, v: u64)
        requires
            self.wf(),
            self.root_spec() is Some,
            leaf_lookup(self@[self.routed_leaf(key)], key) == Some(v),
        ensures
            contents(self@).count((key, v)) > 0,
    {
        let rt = match self.root_spec() {
            Some(r) => r as int,
            None => 0,
        };
        self.lemma_route_valid(rt, key);
        let l = self.routed_leaf(key);
        let m = self@[l];
        assert(self.page_ok(l));
        let pos = first_geq(m.keys, key);
        lemma_first_geq_props(m.keys, key);
        assert(m.keys[pos] == key && m.values[pos] == v);
        lemma_kv_pairs_index(m.keys, m.values, pos);
        lemma_page_pairs_in_contents(self@, l);
        assert(page_pairs(m).count((key, v)) > 0);
    }

    /// Law (fan-out invariant): after any sequence of completed operations
    /// — every public call requires and restores `wf` — each page holds at
    /// most `order - 1` strictly ascending keys; every non-root page holds
    /// at least `ceil(order / 2) - 1`; every internal page has exactly one
    /// more child than keys; and every leaf pairs one value per key.
    pub proof fn lemma_fanout_invariant(self, i: int)
        requires
            self.wf(),
            0 <= i < self@.len(),
        ensures
            sorted_strict(self@[i].keys),
            self@[i].keys.len() <= self.order_spec() - 1,
            self.root_spec() != Some(i as u32) ==> self@[i].keys.len() >= min_keys(
                self.order_spec(),
            ),
            self@[i].node_type == NodeType::Internal ==> self@[i].children.len() == self@[
                i].keys.len() + 1,
            self@[i].node_type == NodeType::Leaf ==> self@[i].values.len() == self@[
                i].keys.len(),
    {
        assert(self.page_ok(i));
    }

    /// Law (parent bookkeeping): exactly one page — the one the root
    /// pointer designates — has no parent link, and every other page's
    /// parent link names an internal page that actually lists it among its
    /// children.
    pub proof fn lemma_parent_links(self, i: int)
        requires
            self.wf(),
            0 <= i < self@.len(),
        ensures
            self@[i].parent_id is None <==> self.root_spec() == Some(i as u32),
            self@[i].parent_id matches Some(p) ==> (p as int) < self@.len() && self@[
                p as int].node_type == NodeType::Internal && self@[p as int].children.contains(
                i as u32,
            ),
    {
        assert(self.page_ok(i));
        assert(forall|t: int| 0 <= t < self@.len() ==> (#[trigger] self@[t]).id == t);
    }

    /// Law (leaf chain structure): in a well-formed tree every `next_leaf`
    /// link names an allocated page that is itself a leaf and never the
    /// leaf it hangs off, so a walk along the chain only ever visits
    /// leaves.
    pub proof fn lemma_leaf_chain_links(self, i: int)
        requires
            self.wf(),
            0 <= i < self@.len(),
            self@[i].node_type == NodeType::Leaf,
        ensures
            self@[i].next matches Some(nx) ==> (nx as int) < self@.len() && self@[
                nx as int].node_type == NodeType::Leaf && (nx as int) != i,
    {
        assert(self.page_ok(i));
        assert(forall|t: int| 0 <= t < self@.len() ==> (#[trigger] self@[t]).id == t);
    }

    /// Law (leaf chain order): every key of a leaf strictly precedes every
    /// key of the leaf its `next_leaf` link names; so a walk along the
    /// chain meets keys in strictly ascending order and never returns to a
    /// leaf that holds a key.
    pub proof fn lemma_leaf_chain_ordered(self, i: int, nx: u32, a: int, b: int)
        requires
            self.wf(),
            0 <= i < self@.len(),
            self@[i].node_type == NodeType::Leaf,
            self@[i].next == Some(nx),
            0 <= a < self@[i].keys.len(),
            0 <= b < self@[nx as int].keys.len(),
        ensures
            self@[i].keys[a] < self@[nx as int].keys[b],
    {
        assert(self.page_ok(i));
        assert(self.page_ok(nx as int));
        assert(in_bnd(self.bounds@[i], self@[i].keys[a]));
        assert(in_bnd(self.bounds@[nx as int], self@[nx as int].keys[b]));
        assert(self.bounds@[i].1 is Some);
        assert(self.bounds@[nx as int].0 == self.bounds@[i].1);
    }

    /// The persistent byte image: always a whole number of page slots.
    pub fn image(&self) -> (r: &Vec<u8>)
        requires
            self.wf(),
        ensures
            r@.len() == self@.len() * self.page_size_spec(),
    {
        proof {
            self.lemma_wf_unfold();
        }
        self.buffer_pool.image()
    }

    /// Reads the record of page `id`, for walking the structure from
    /// outside. Fails with `CorruptPage` exactly when no such page exists.
    pub fn read_page(&mut self, id: u32) -> (r: Result<PageData, Error>)
        requires
            old(self).wf(),
        ensures
            final(self).wf(),
            final(self)@ == old(self)@,
            final(self).root_spec() == old(self).root_spec(),
            final(self).order_spec() == old(self).order_spec(),
            final(self).heights_spec() == old(self).heights_spec(),
            final(self).bounds_spec() == old(self).bounds_spec(),
            final(self).root_height() == old(self).root_height(),
            final(self).capacity_spec() == old(self).capacity_spec(),
            final(self).page_size_spec() == old(self).page_size_spec(),
            match r {
                Ok(p) => id < old(self)@.len() && p@ == old(self)@[id as int],
                Err(e) => e == Error::CorruptPage && id >= old(self)@.len(),
            },
    {
        let r = self.buffer_pool.get_page(id);
        proof {
            Self::lemma_same_shape_wf(*old(self), *self);
        }
        r
    }

    /// Descends from the root to the leaf that owns `key`, by the routing
    /// rule: at each internal page, follow the child at the first separator
    /// position exceeding `key`. Never fails on a well-formed tree.
    fn find_leaf_page(&mut self, key: Key) -> (r: u32)
        requires
            old(self).wf(),
            old(self).root_spec() is Some,
        ensures
            final(self).wf(),
            final(self)@ == old(self)@,
            final(self).root_spec() == old(self).root_spec(),
            final(self).order_spec() == old(self).order_spec(),
            final(self).heights_spec() == old(self).heights_spec(),
            final(self).bounds_spec() == old(self).bounds_spec(),
            final(self).root_height() == old(self).root_height(),
            final(self).capacity_spec() == old(self).capacity_spec(),
            final(self).page_size_spec() == old(self).page_size_spec(),
            r as int == old(self).routed_leaf(key),
            (r as int) < old(self)@.len(),
            old(self)@[r as int].node_type == NodeType::Leaf,
            in_bnd(old(self).bounds_spec()[r as int], key),
    {
        let mut current: u32 = match self.root {
            Some(r) => r,
            None => 0,
        };
        loop
            invariant
                self.wf(),
                self@ == old(self)@,
                self.root == old(self).root,
                self.order == old(self).order,
                self.heights == old(self).heights,
                self.bounds == old(self).bounds,
                self.buffer_pool.capacity_spec() == old(self).capacity_spec(),
                self.buffer_pool.page_size_spec() == old(self).page_size_spec(),
                (current as int) < self@.len(),
                in_bnd(self.bounds@[current as int], key),
                route(
                    self@,
                    current as int,
                    key,
                    (self.heights@[current as int] + 1) as nat,
                ) == old(self).routed_leaf(key),
            ensures
                self.wf(),
                self@ == old(self)@,
                self.root == old(self).root,
                self.order == old(self).order,
                self.heights == old(self).heights,
                self.bounds == old(self).bounds,
                self.buffer_pool.capacity_spec() == old(self).capacity_spec(),
                self.buffer_pool.page_size_spec() == old(self).page_size_spec(),
                (current as int) < self@.len(),
                current as int == old(self).routed_leaf(key),
                self@[current as int].node_type == NodeType::Leaf,
                in_bnd(self.bounds@[current as int], key),
            decreases self.heights@[current as int],
        {
            let ghost pre = *self;
            let page = match self.buffer_pool.get_page(current) {
                Ok(p) => p,
                Err(_) => {
                    proof {
                        assert(false);
                    }
                    return 0;
                },
            };
            proof {
                Self::lemma_same_shape_wf(pre, *self);
                assert(self.page_ok(current as int));
            }
            match page.node_type {
                NodeType::Leaf => {
                    proof {
                        assert(route(
                            self@,
                            current as int,
                            key,
                            (self.heights@[current as int] + 1) as nat,
                        ) == current as int);
                    }
                    break ;
                },
                NodeType::Internal => {
                    let idx = upper_bound(&page.keys, key);
                    proof {
                        lemma_first_gt_props(page@.keys, key);
                        assert(self.page_ok(current as int));
                    }
                    let child = page.children[idx];
                    proof {
                        let ci = current as int;
                        let hs = self.heights@;
                        assert(child_ok(self@, hs, ci, self@[ci].children[idx as int]));
                        assert(route(self@, ci, key, (hs[ci] + 1) as nat) == route(
                            self@,
                            child as int,
                            key,
                            (hs[ci]) as nat,
                        ));
                        assert(hs[child as int] + 1 == hs[ci]);
                        // The probe key lies in the chosen slot's interval.
                        assert(self.pairs_ok(ci));
                        assert(bounds_match(self@, self.bounds@, ci, idx as int));
                        assert(in_bnd(self.bounds@[child as int], key));
                    }
                    current = child;
                },
            }
        }
        current
    }

    /// Splits the overfull internal page `node_id`: the keys strictly above
    /// the middle move to a freshly allocated sibling together with the
    /// corresponding children, the middle key is promoted (not copied), and
    /// every moved child's parent link is rewritten to the sibling. Returns
    /// the split page, the promoted separator and the sibling, ready to be
    /// linked into a parent.
    #[verifier::rlimit(80)]
    fn split_internal_page(&mut self, node_id: u32) -> (r: (u32, Key, u32))
        requires
            old(self).wf_over(node_id as int),
            old(self)@[node_id as int].node_type == NodeType::Internal,
            old(self)@[node_id as int].keys.len() == old(self).order_spec(),
            old(self)@.len() <= crate::storage::MAX_PAGE_COUNT as int,
        ensures
            final(self).order_spec() == old(self).order_spec(),
            final(self).capacity_spec() == old(self).capacity_spec(),
            final(self).page_size_spec() == old(self).page_size_spec(),
            final(self).root_spec() == old(self).root_spec(),
            final(self)@.len() == old(self)@.len() + 1,
            final(self).pending(
                node_id as int,
                old(self)@.len() as int,
                old(self)@[node_id as int].keys[old(self).order_spec() / 2],
            ),
            r == (
                node_id,
                old(self)@[node_id as int].keys[old(self).order_spec() / 2],
                old(self)@.len() as u32,
            ),
            forall|i: int|
                0 <= i < old(self)@.len() ==> final(self).heights_spec()[i] == old(
                    self,
                ).heights_spec()[i],
            final(self).heights_spec()[old(self)@.len() as int] == old(self).heights_spec()[
                node_id as int],
            contents(final(self)@) == contents(old(self)@),
            forall|i: int|
                0 <= i < old(self)@.len() ==> final(self)@[i].node_type == old(self)@[
                    i].node_type,
            forall|i: int|
                0 <= i < old(self)@.len() && old(self)@[i].node_type == NodeType::Leaf
                    ==> final(self)@[i].keys == old(self)@[i].keys && final(self)@[i].values
                    == old(self)@[i].values && final(self)@[i].next == old(self)@[i].next,
            // Exactly the keys strictly above the middle, and the
            // corresponding children, move; the middle key is kept in
            // neither half; every moved child is reparented to the sibling.
            final(self)@[node_id as int].keys == old(self)@[node_id as int].keys.subrange(
                0,
                old(self).order_spec() / 2,
            ),
            final(self)@[node_id as int].children == old(self)@[
                node_id as int].children.subrange(0, old(self).order_spec() / 2 + 1),
            final(self)@[old(self)@.len() as int].node_type == NodeType::Internal,
            final(self)@[old(self)@.len() as int].keys == old(self)@[
                node_id as int].keys.subrange(
                old(self).order_spec() / 2 + 1,
                old(self).order_spec(),
            ),
            final(self)@[old(self)@.len() as int].children == old(self)@[
                node_id as int].children.subrange(
                old(self).order_spec() / 2 + 1,
                old(self).order_spec() + 1,
            ),
            forall|j: int|
                0 <= j < final(self)@[old(self)@.len() as int].children.len() ==> final(self)@[
                    final(self)@[old(self)@.len() as int].children[j] as int].parent_id == Some(
                    old(self)@.len() as u32,
                ),
            // Beyond the split page itself, only parent links move.
            forall|i: int|
                0 <= i < old(self)@.len() && i != node_id as int ==> final(self)@[i].keys
                    == old(self)@[i].keys && final(self)@[i].children == old(self)@[i].children
                    && final(self)@[i].values == old(self)@[i].values && final(self)@[i].next
                    == old(self)@[i].next,
            final(self)@[node_id as int].parent_id == old(self)@[node_id as int].parent_id,
            forall|i: int|
                0 <= i < old(self)@.len() && old(self).heights_spec()[i] + 1 != old(
                    self,
                ).heights_spec()[node_id as int] ==> final(self)@[i].parent_id == old(self)@[
                    i].parent_id,
    {
        let ghost ps0 = self@;
        let ghost hs0 = self.heights@;
        let ghost o = self.order as int;
        let ghost x = node_id as int;

        // Allocate the sibling.
        let walloc = match self.buffer_pool.allocate_page(NodeType::Internal) {
            Ok(p) => p,
            Err(_) => {
                proof {
                    assert(false);
                }
                return (0u32, 0i32, 0u32);
            },
        };
        let w = walloc.id;
        let ghost wi = w as int;
        let ghost bs0 = self.bounds@;
        proof {
            self.heights@ = self.heights@.insert(wi, hs0[x]);
            self.bounds@ = self.bounds@.insert(
                x,
                (bs0[x].0, Some(ps0[x].keys[self.order as int / 2])),
            ).insert(wi, (Some(ps0[x].keys[self.order as int / 2]), bs0[x].1));
            assert(contents(self@) =~= contents(ps0)) by {
                lemma_contents_push(ps0, blank_page(w, NodeType::Internal));
                assert(contents(ps0).add(Multiset::empty()) =~= contents(ps0));
            }
        }

        // Read the page being split.
        let xpage = match self.buffer_pool.get_page(node_id) {
            Ok(p) => p,
            Err(_) => {
                proof {
                    assert(false);
                }
                return (0u32, 0i32, 0u32);
            },
        };
        let mid = self.order / 2;
        let up_key = xpage.keys[mid];

        let mut left_page = xpage;
        let wkeys = left_page.keys.split_off(mid + 1);
        let wchildren = left_page.children.split_off(mid + 1);
        left_page.keys.truncate(mid);
        let ghost moved = ps0[x].children.subrange(mid as int + 1, o + 1);
        proof {
            assert(left_page@.keys =~= ps0[x].keys.subrange(0, mid as int));
            assert(left_page@.children =~= ps0[x].children.subrange(0, mid as int + 1));
            assert(wchildren@ == moved);
            assert(distinct_u32s(moved)) by {
                lemma_distinct_subrange(ps0[x].children, mid as int + 1, o + 1);
            }
            assert forall|j: int| 0 <= j < moved.len() implies child_ok(
                ps0,
                hs0,
                x,
                #[trigger] moved[j],
            ) by {
                assert(moved[j] == ps0[x].children[mid as int + 1 + j]);
            }
        }

        // Rewrite the parent link of every moved child.
        let mut t: usize = 0;
        while t < wchildren.len()
            invariant
                self.base_ok(),
                self.order == old(self).order,
                self.root == old(self).root,
                self.heights@ == hs0.insert(wi, hs0[x]),
                self.bounds@ == bs0.insert(
                    x,
                    (bs0[x].0, Some(ps0[x].keys[o / 2])),
                ).insert(wi, (Some(ps0[x].keys[o / 2]), bs0[x].1)),
                self.buffer_pool.capacity_spec() == old(self).capacity_spec(),
                self.buffer_pool.page_size_spec() == old(self).page_size_spec(),
                t <= wchildren@.len(),
                wchildren@ == moved,
                distinct_u32s(moved),
                o == self.order as int,
                x == node_id as int,
                0 <= x < ps0.len(),
                wi == ps0.len() as int,
                old(self).wf_over(x),
                ps0 == old(self)@,
                hs0 == old(self).heights_spec(),
                ps0[x].node_type == NodeType::Internal,
                ps0[x].keys.len() == o,
                forall|j: int|
                    0 <= j < moved.len() ==> child_ok(ps0, hs0, x, #[trigger] moved[j]),
                self@.len() == ps0.len() + 1,
                self@[wi] == blank_page(w, NodeType::Internal),
                forall|j: int|
                    0 <= j < t ==> self@[#[trigger] moved[j] as int] == reparent(
                        ps0[moved[j] as int],
                        w,
                    ),
                forall|q: int|
                    0 <= q < ps0.len() && (forall|j: int| 0 <= j < t ==> moved[j] as int != q)
                        ==> self@[q] == ps0[q],
                contents(self@) == contents(ps0),
            decreases wchildren@.len() - t,
        {
            let c = wchildren[t];
            proof {
                assert(child_ok(ps0, hs0, x, moved[t as int]));
                assert forall|j: int| 0 <= j < t implies moved[j] as int != c as int by {
                    assert(moved[j] != moved[t as int]);
                }
                assert(self@[c as int] == ps0[c as int]);
            }
            let mut cpage = match self.buffer_pool.get_page(c) {
                Ok(p) => p,
                Err(_) => {
                    proof {
                        assert(false);
                    }
                    return (0u32, 0i32, 0u32);
                },
            };
            cpage.parent_id = Some(w);
            proof {
                assert(cpage@ == reparent(ps0[c as int], w));
                assert(node_ok(ps0[c as int], o - 1)) by {
                    assert(old(self).page_ok(c as int));
                }
                self.lemma_fits(cpage@);
            }
            let ghost vpre = self@;
            match self.buffer_pool.write_page(&cpage) {
                Ok(_) => {},
                Err(_) => {
                    proof {
                        assert(false);
                    }
                    return (0u32, 0i32, 0u32);
                },
            }
            proof {
                assert(page_pairs(cpage@) == page_pairs(vpre[c as int]));
                lemma_contents_update_same(vpre, c as int, cpage@);
                assert forall|q: int|
                    0 <= q < ps0.len() && (forall|j: int|
                        0 <= j < t + 1 ==> moved[j] as int != q) implies self@[q] == ps0[q] by {
                    assert(moved[t as int] as int != q);
                }
            }
            t += 1;
        }

        // Write back the truncated left page and the filled sibling.
        proof {
            assert(node_ok(left_page@, o)) by {
                lemma_sorted_subrange(ps0[x].keys, 0, mid as int);
                lemma_distinct_subrange(ps0[x].children, 0, mid as int + 1);
            }
            self.lemma_fits(left_page@);
            assert forall|j: int| 0 <= j < moved.len() implies moved[j] as int != x by {
                assert(child_ok(ps0, hs0, x, moved[j]));
            }
            assert(self@[x] == ps0[x]);
        }
        let ghost vloop = self@;
        match self.buffer_pool.write_page(&left_page) {
            Ok(_) => {},
            Err(_) => {
                proof {
                    assert(false);
                }
                return (0u32, 0i32, 0u32);
            },
        }
        proof {
            lemma_contents_update_same(vloop, x, left_page@);
        }
        let wpage = PageData {
            id: w,
            node_type: NodeType::Internal,
            keys: wkeys,
            children: wchildren,
            values: Vec::new(),
            next: None,
            parent_id: left_page.parent_id,
        };
        proof {
            assert(wpage@.keys =~= ps0[x].keys.subrange(mid as int + 1, o));
            assert(wpage@.children == moved);
            assert(node_ok(wpage@, o)) by {
                lemma_sorted_subrange(ps0[x].keys, mid as int + 1, o);
                assert(wpage@.keys.len() == o - mid - 1);
                assert(moved.len() == o - mid);
            }
            self.lemma_fits(wpage@);
        }
        let ghost vmid = self@;
        match self.buffer_pool.write_page(&wpage) {
            Ok(_) => {},
            Err(_) => {
                proof {
                    assert(false);
                }
                return (0u32, 0i32, 0u32);
            },
        }
        proof {
            lemma_contents_update_same(vmid, wi, wpage@);
            self.lemma_split_internal_shape(
                *old(self),
                node_id,
                ps0,
                hs0,
                moved,
                left_page@,
                wpage@,
            );
            // The split touches no page's kind, and beyond the split page
            // only parent links: no other keys, children, values or chain
            // links move.
            assert forall|i: int| 0 <= i < ps0.len() implies self@[i].node_type == ps0[
                i].node_type && (i != x ==> self@[i].keys == ps0[i].keys && self@[i].children
                == ps0[i].children && self@[i].values == ps0[i].values && self@[i].next == ps0[
                i].next) && (hs0[i] + 1 != hs0[x] ==> self@[i].parent_id == ps0[
                i].parent_id) by {
                if i == x {
                } else if exists|t: int| 0 <= t < moved.len() && moved[t] as int == i {
                    let t = choose|t: int| 0 <= t < moved.len() && moved[t] as int == i;
                    assert(self@[i] == reparent(ps0[i], w));
                    assert(child_ok(ps0, hs0, x, moved[t]));
                    assert(hs0[i] + 1 == hs0[x]);
                } else {
                    assert(self@[i] == ps0[i]);
                }
            }
        }
        (node_id, up_key, w)
    }

    /// A cache-only mutation also preserves the `pending` state.
    proof fn lemma_same_shape_pending(a: BPlusTree, b: BPlusTree, l: int, rgt: int, key: i32)
        requires
            a.pending(l, rgt, key),
            b@ == a@,
            b.root == a.root,
            b.order == a.order,
            b.heights == a.heights,
            b.bounds == a.bounds,
            b.buffer_pool.inv(),
            b.buffer_pool.page_size_spec() == a.buffer_pool.page_size_spec(),
        ensures
            b.pending(l, rgt, key),
    {
        assert forall|i: int| 0 <= i < b@.len() && i != rgt implies b.page_ok(i) by {
            assert(a.page_ok(i));
        }
    }

    /// A tree in the overfull state whose marked page in fact satisfies the
    /// at-rest cap is simply well formed.
    proof fn lemma_wf_from_over(self, x: int)
        requires
            self.wf_over(x),
            node_ok(self@[x], self.order as int - 1),
        ensures
            self.wf(),
    {
        assert forall|i: int| 0 <= i < self@.len() implies self.page_ok(i) by {
            if i != x {
                assert(self.page_ok(i));
            }
        }
    }

    /// In the pending state, the split page occupies one definite slot of
    /// its parent, and the promoted separator lies strictly between the
    /// slot's neighboring separators: it therefore sorts to exactly that
    /// slot's position and collides with no key of the parent.
    proof fn lemma_sep_slot(pre: BPlusTree, lid: int, rid: int, k: i32, pid: int)
        requires
            pre.pending(lid, rid, k),
            0 <= pid < 0x1_0000_0000,
            pre@[lid].parent_id == Some(pid as u32),
        ensures
            0 <= pid < pre@.len(),
            pre@[pid].node_type == NodeType::Internal,
            ({
                let j = first_geq(pre@[pid].keys, k);
                &&& 0 <= j <= pre@[pid].keys.len()
                &&& j < pre@[pid].children.len()
                &&& pre@[pid].children[j] == pre@[lid].id
                &&& (j < pre@[pid].keys.len() ==> pre@[pid].keys[j] > k)
                &&& (j > 0 ==> pre@[pid].keys[j - 1] < k)
                &&& pre.bounds@[lid].0 == slot_bnd(pre@, pre.bounds@, pid, j).0
                &&& pre.bounds@[rid].1 == slot_bnd(pre@, pre.bounds@, pid, j).1
                &&& in_bnd(pre.bounds@[pid], k)
            }),
    {
        let ps = pre@;
        let bs = pre.bounds@;
        assert(pre.page_ok(lid));
        assert(links_ok(ps, pre.heights@, pre.root, lid));
        assert(pre.page_ok(pid));
        assert(ps[pid].children.contains(ps[lid].id));
        let j = choose|j: int|
            0 <= j < ps[pid].children.len() && ps[pid].children[j] == ps[lid].id;
        assert(forall|i: int| 0 <= i < ps.len() ==> (#[trigger] ps[i]).id == i);
        assert(ps[lid].id == lid as u32);
        assert(bs[lid].0 == slot_bnd(ps, bs, pid, j).0 && bs[rid].1 == slot_bnd(
            ps,
            bs,
            pid,
            j,
        ).1);
        // Both halves hold at least one key.
        assert(ps[lid].keys.len() >= 1 && ps[rid].keys.len() >= 1);
        assert(in_bnd(bs[lid], ps[lid].keys[0]));
        assert(in_bnd(bs[rid], ps[rid].keys[0]));
        assert(ps[lid].keys[0] < k);
        assert(k <= ps[rid].keys[0]);
        // The separator lies strictly inside the slot's interval.
        if j > 0 {
            assert(bs[lid].0 == Some(ps[pid].keys[j - 1]));
            assert(ps[pid].keys[j - 1] <= ps[lid].keys[0]);
        }
        if j < ps[pid].keys.len() {
            assert(bs[rid].1 == Some(ps[pid].keys[j]));
            assert(ps[rid].keys[0] < ps[pid].keys[j]);
        }
        // So the separator sorts to exactly slot `j`.
        assert forall|i: int| 0 <= i < j implies ps[pid].keys[i] < k by {
            if i < j - 1 {
                assert(ps[pid].keys[i] < ps[pid].keys[j - 1]);
            }
        }
        lemma_first_geq_unique(ps[pid].keys, k, j);
        // And it lies within the parent's own bounds.
        assert(pre.page_ok(pid));
        if j > 0 {
            assert(in_bnd(bs[pid], ps[pid].keys[j - 1]));
        } else {
            assert(bs[lid].0 == bs[pid].0);
            assert(in_bnd(bs[lid], ps[lid].keys[0]));
        }
        if j < ps[pid].keys.len() {
            assert(in_bnd(bs[pid], ps[pid].keys[j]));
        } else {
            assert(bs[rid].1 == bs[pid].1);
            assert(in_bnd(bs[rid], ps[rid].keys[0]));
        }
    }

    /// After linking a pending sibling into the parent `pid` — the
    /// separator inserted at its sorted position among the parent's keys,
    /// the sibling id beside it among the children, the sibling's parent
    /// field rewritten — the tree is well formed except that `pid` may now
    /// be overfull.
    #[verifier::rlimit(100)]
    proof fn lemma_link_shape(
        self,
        pre: BPlusTree,
        lid: int,
        rid: int,
        pid: int,
        k: i32,
        pos: int,
        pnew: PageView,
    )
        requires
            pre.pending(lid, rid, k),
            0 <= pid < 0x1_0000_0000,
            pre@[lid].parent_id == Some(pid as u32),
            self.order == pre.order,
            self.root == pre.root,
            self.heights == pre.heights,
            self.bounds == pre.bounds,
            self.base_ok(),
            self@.len() == pre@.len(),
            pos == first_geq(pre@[pid].keys, k),
            pnew.id == pid as u32,
            pnew.node_type == NodeType::Internal,
            pnew.keys == pre@[pid].keys.insert(pos, k),
            pnew.children == pre@[pid].children.insert(pos + 1, rid as u32),
            pnew.values == pre@[pid].values,
            pnew.next == pre@[pid].next,
            pnew.parent_id == pre@[pid].parent_id,
            self@[pid] == pnew,
            self@[rid] == reparent(pre@[rid], pid as u32),
            forall|q: int| 0 <= q < pre@.len() && q != pid && q != rid ==> self@[q] == pre@[q],
        ensures
            self.wf_over(pid),
            self@[pid].keys.len() == pre@[pid].keys.len() + 1,
            pre@[pid].children[pos] == pre@[lid].id,
    {
        let ps0 = pre@;
        let psf = self@;
        let hs = pre.heights@;
        let bs = pre.bounds@;
        let o = pre.order_spec();
        Self::lemma_sep_slot(pre, lid, rid, k, pid);
        assert(pre.page_ok(lid));
        assert(links_ok(ps0, hs, pre.root, lid));
        assert(0 <= pid < ps0.len());
        assert(hs[pid] == hs[lid] + 1);
        assert(pid != rid) by {
            assert(hs[rid] == hs[lid]);
        }
        assert(pid != lid);
        assert(pre.page_ok(pid));
        assert(ps0[pid].node_type == NodeType::Internal);
        assert(forall|i: int| 0 <= i < ps0.len() ==> (#[trigger] ps0[i]).id == i);
        lemma_first_geq_props(ps0[pid].keys, k);
        assert(pos < ps0[pid].keys.len() ==> ps0[pid].keys[pos] != k);
        ps0[pid].keys.insert_ensures(pos, k);
        ps0[pid].children.insert_ensures(pos + 1, rid as u32);
        // The parent's new record is sound, one key larger.
        assert(node_ok(pnew, o)) by {
            lemma_sorted_insert(ps0[pid].keys, k);
            lemma_distinct_insert(ps0[pid].children, pos + 1, rid as u32);
        }
        // Each page again.
        assert forall|i: int| 0 <= i < psf.len() && i != pid implies self.page_ok(i) by {
            let m = psf[i];
            if i == rid {
                assert(m == reparent(ps0[rid], pid as u32));
                assert(node_ok(m, o - 1));
                assert(self.root != Some(m.id));
                assert(psf[pid].node_type == NodeType::Internal);
                assert(hs[pid] == hs[i] + 1);
                assert(psf[pid].children[pos + 1] == m.id);
                assert(psf[pid].children.contains(m.id));
                if m.node_type == NodeType::Internal {
                    assert forall|j: int| 0 <= j < m.children.len() implies child_ok(
                        psf,
                        hs,
                        i,
                        #[trigger] m.children[j],
                    ) by {
                        let c = m.children[j];
                        assert(child_ok(ps0, hs, rid, c));
                        assert(c as int != pid) by {
                            assert(hs[c as int] + 1 == hs[rid]);
                        }
                        assert(c as int != rid);
                        assert(psf[c as int] == ps0[c as int]);
                    }
                }
                if m.node_type == NodeType::Leaf {
                    match m.next {
                        Some(nx) => {
                            assert(ps0[nx as int].node_type == NodeType::Leaf);
                            assert(psf[nx as int].node_type == NodeType::Leaf);
                        },
                        None => {},
                    }
                }
                assert(links_ok(psf, hs, self.root, i));
            } else {
                assert(m == ps0[i]);
                assert(pre.page_ok(i));
                match ps0[i].parent_id {
                    Some(p) => {
                        assert(psf[p as int].node_type == NodeType::Internal);
                        assert(ps0[p as int].children.contains(m.id));
                        if p as int == pid {
                            lemma_insert_contains(
                                ps0[pid].children,
                                pos + 1,
                                rid as u32,
                                m.id,
                            );
                        } else {
                            assert(psf[p as int].children == ps0[p as int].children);
                        }
                    },
                    None => {},
                }
                if m.node_type == NodeType::Internal {
                    assert forall|j: int| 0 <= j < m.children.len() implies child_ok(
                        psf,
                        hs,
                        i,
                        #[trigger] m.children[j],
                    ) by {
                        let c = m.children[j];
                        assert(child_ok(ps0, hs, i, c));
                        assert(c as int != rid);
                        assert(psf[c as int].parent_id == ps0[c as int].parent_id);
                    }
                }
                if m.node_type == NodeType::Leaf {
                    match m.next {
                        Some(nx) => {
                            assert(psf[nx as int].node_type == NodeType::Leaf);
                        },
                        None => {},
                    }
                }
                assert(links_ok(psf, hs, self.root, i));
            }
        }
        // The parent itself: overfull at worst, with sound links.
        assert(self.root != Some(pid as u32) ==> psf[pid].keys.len() >= min_keys(o));
        match ps0[pid].parent_id {
            Some(q) => {
                assert(links_ok(ps0, hs, pre.root, pid));
                assert(q as int != rid) by {
                    assert(hs[q as int] == hs[pid] + 1);
                    assert(hs[rid] + 1 == hs[pid]);
                }
                assert(psf[q as int] == ps0[q as int]);
                assert(psf[q as int].children.contains(pnew.id));
            },
            None => {},
        }
        assert forall|j: int| 0 <= j < pnew.children.len() implies child_ok(
            psf,
            hs,
            pid,
            #[trigger] pnew.children[j],
        ) by {
            if j == pos + 1 {
                assert(pnew.children[j] == rid as u32);
                assert(hs[rid] + 1 == hs[pid]);
            } else {
                let c = if j < pos + 1 {
                    ps0[pid].children[j]
                } else {
                    ps0[pid].children[j - 1]
                };
                assert(pnew.children[j] == c);
                assert(child_ok(ps0, hs, pid, c));
                assert(c as int != rid);
                assert(psf[c as int].parent_id == ps0[c as int].parent_id);
            }
        }
        assert(links_ok(psf, hs, self.root, pid));
        // The parent's keys, the separator included, stay within its bounds.
        assert forall|t: int| 0 <= t < pnew.keys.len() implies in_bnd(
            bs[pid],
            #[trigger] pnew.keys[t],
        ) by {
            if t < pos {
                assert(pnew.keys[t] == ps0[pid].keys[t]);
                assert(in_bnd(bs[pid], ps0[pid].keys[t]));
            } else if t == pos {
                assert(pnew.keys[t] == k);
            } else {
                assert(pnew.keys[t] == ps0[pid].keys[t - 1]);
                assert(in_bnd(bs[pid], ps0[pid].keys[t - 1]));
            }
        }
        // Every child slot again carries the interval its separators
        // delimit.
        assert forall|i: int| 0 <= i < psf.len() implies self.pairs_ok(i) by {
            if i == pid {
                assert forall|j: int| 0 <= j < pnew.children.len() implies #[trigger]
                bounds_match(psf, bs, pid, j) by {
                    if j < pos {
                        assert(pnew.children[j] == ps0[pid].children[j]);
                        assert(bounds_match(ps0, bs, pid, j));
                        assert(pnew.keys[j] == ps0[pid].keys[j]);
                        if j > 0 {
                            assert(pnew.keys[j - 1] == ps0[pid].keys[j - 1]);
                        }
                    } else if j == pos {
                        assert(pnew.children[j] == ps0[pid].children[pos]);
                        assert(ps0[pid].children[pos] == lid as u32);
                        assert(bs[lid].0 == slot_bnd(ps0, bs, pid, pos).0);
                        assert(pnew.keys[pos] == k);
                        if pos > 0 {
                            assert(pnew.keys[pos - 1] == ps0[pid].keys[pos - 1]);
                        }
                        assert(bs[lid] == slot_bnd(psf, bs, pid, pos));
                    } else if j == pos + 1 {
                        assert(pnew.children[j] == rid as u32);
                        assert(bs[rid].1 == slot_bnd(ps0, bs, pid, pos).1);
                        assert(pnew.keys[pos] == k);
                        if pos + 1 < pnew.keys.len() {
                            assert(pnew.keys[pos + 1] == ps0[pid].keys[pos]);
                        }
                        assert(bs[rid] == slot_bnd(psf, bs, pid, pos + 1));
                    } else {
                        assert(pnew.children[j] == ps0[pid].children[j - 1]);
                        assert(bounds_match(ps0, bs, pid, j - 1));
                        assert(pnew.keys[j - 1] == ps0[pid].keys[j - 2]);
                        if j < pnew.keys.len() {
                            assert(pnew.keys[j] == ps0[pid].keys[j - 1]);
                        }
                    }
                }
            } else if psf[i].node_type == NodeType::Internal {
                assert forall|j: int| 0 <= j < psf[i].children.len() implies #[trigger]
                bounds_match(psf, bs, i, j) by {
                    assert(psf[i].children == ps0[i].children);
                    assert(psf[i].keys == ps0[i].keys);
                    let c = ps0[i].children[j];
                    if c == lid as u32 {
                        // Only `pid` lists the split page.
                        assert(pre.page_ok(i) || i == rid);
                        if i != rid {
                            assert(child_ok(ps0, hs, i, c));
                            assert(ps0[lid].parent_id == Some(ps0[i].id));
                            assert(false);
                        } else {
                            assert(child_ok(ps0, hs, rid, c));
                            assert(ps0[lid].parent_id == Some(ps0[rid].id));
                            assert(false);
                        }
                    } else {
                        assert(bounds_match(ps0, bs, i, j));
                    }
                }
            }
        }
    }

    /// After installing a brand-new root above the old root `lid` and its
    /// pending sibling `rid`, the tree is well formed.
    #[verifier::rlimit(100)]
    proof fn lemma_new_root_shape(
        self,
        pre: BPlusTree,
        lid: int,
        rid: int,
        k: i32,
        rootv: PageView,
    )
        requires
            pre.pending(lid, rid, k),
            pre.root == Some(lid as u32),
            pre@.len() <= crate::storage::MAX_PAGE_COUNT as int,
            self.order == pre.order,
            self.base_ok(),
            self.root == Some(pre@.len() as u32),
            self.heights@ == pre.heights@.insert(
                pre@.len() as int,
                (pre.heights@[lid] + 1) as nat,
            ),
            self.bounds@ == pre.bounds@.insert(
                pre@.len() as int,
                (Option::<i32>::None, Option::<i32>::None),
            ),
            self@.len() == pre@.len() + 1,
            rootv.id == pre@.len() as u32,
            rootv.node_type == NodeType::Internal,
            rootv.keys == seq![k],
            rootv.children == seq![lid as u32, rid as u32],
            rootv.values == Seq::<u64>::empty(),
            rootv.parent_id == None::<u32>,
            self@[pre@.len() as int] == rootv,
            self@[lid] == reparent(pre@[lid], pre@.len() as u32),
            self@[rid] == reparent(pre@[rid], pre@.len() as u32),
            forall|q: int| 0 <= q < pre@.len() && q != lid && q != rid ==> self@[q] == pre@[q],
        ensures
            self.wf(),
    {
        let ps0 = pre@;
        let psf = self@;
        let hsf = self.heights@;
        let hs0 = pre.heights@;
        let o = pre.order_spec();
        let nr = ps0.len() as int;
        assert(forall|i: int| 0 <= i < ps0.len() ==> (#[trigger] ps0[i]).id == i);
        assert(forall|i: int| 0 <= i < ps0.len() ==> #[trigger] hsf[i] == hs0[i]);
        assert(forall|i: int|
            0 <= i < ps0.len() ==> #[trigger] self.bounds@[i] == pre.bounds@[i]);
        assert(page_in_bnd(ps0[rid], pre.bounds@[rid]));
        assert(pre.page_ok(lid));
        assert(links_ok(ps0, hs0, pre.root, lid));
        assert(ps0[lid].parent_id is None);
        assert(ps0[rid].parent_id is None);
        // Nobody listed the old root or the sibling as a child.
        assert forall|i: int, j: int|
            0 <= i < ps0.len() && 0 <= j < ps0[i].children.len() implies ps0[i].children[j] != (
        lid as u32) && ps0[i].children[j] != (rid as u32) by {
            if i != rid {
                assert(pre.page_ok(i));
                assert(child_ok(ps0, hs0, i, ps0[i].children[j]));
                assert(ps0[i].children[j] as int != rid);
                if ps0[i].children[j] == lid as u32 {
                    assert(ps0[lid].parent_id == Some(ps0[i].id));
                }
            } else {
                assert(child_ok(ps0, hs0, rid, ps0[rid].children[j]));
                if ps0[rid].children[j] == lid as u32 {
                    assert(ps0[lid].parent_id == Some(ps0[rid].id));
                }
            }
        }
        assert forall|i: int| 0 <= i < psf.len() implies self.page_ok(i) by {
            let m = psf[i];
            if i == nr {
                assert(node_ok(m, o - 1));
                assert(hsf[nr] == hs0[lid] + 1);
                assert forall|j: int| 0 <= j < m.children.len() implies child_ok(
                    psf,
                    hsf,
                    nr,
                    #[trigger] m.children[j],
                ) by {
                    assert(m.children[0] == lid as u32 && m.children[1] == rid as u32);
                    assert(hs0[rid] == hs0[lid]);
                    assert(psf[lid].parent_id == Some(nr as u32));
                    assert(psf[rid].parent_id == Some(nr as u32));
                }
                assert(links_ok(psf, hsf, self.root, nr));
            } else if i == lid || i == rid {
                assert(node_ok(m, o - 1)) by {
                    if i == lid {
                        assert(pre.page_ok(lid));
                    }
                }
                assert(m.keys.len() >= min_keys(o));
                assert(m.parent_id == Some(nr as u32));
                assert(psf[nr].node_type == NodeType::Internal);
                assert(hsf[nr] == hsf[i] + 1);
                assert(self.root != Some(m.id));
                if m.node_type == NodeType::Internal {
                    assert forall|j: int| 0 <= j < m.children.len() implies child_ok(
                        psf,
                        hsf,
                        i,
                        #[trigger] m.children[j],
                    ) by {
                        let c = m.children[j];
                        if i == lid {
                            assert(child_ok(ps0, hs0, lid, c));
                        } else {
                            assert(child_ok(ps0, hs0, rid, c));
                        }
                        assert(c as int != lid && c as int != rid);
                        assert(psf[c as int] == ps0[c as int]);
                    }
                }
                if m.node_type == NodeType::Leaf {
                    match m.next {
                        Some(nx) => {
                            assert(psf[nx as int].node_type == NodeType::Leaf);
                        },
                        None => {},
                    }
                }
                assert(links_ok(psf, hsf, self.root, i));
            } else {
                assert(m == ps0[i]);
                assert(pre.page_ok(i));
                assert(m.parent_id is Some) by {
                    if m.parent_id is None {
                        assert(pre.root == Some(m.id));
                    }
                }
                match m.parent_id {
                    Some(p) => {
                        assert(links_ok(ps0, hs0, pre.root, i));
                        assert(psf[p as int].node_type == ps0[p as int].node_type
                            && psf[p as int].children == ps0[p as int].children) by {
                            if p as int != lid && p as int != rid {
                                assert(psf[p as int] == ps0[p as int]);
                            }
                        }
                    },
                    None => {},
                }
                if m.node_type == NodeType::Internal {
                    assert forall|j: int| 0 <= j < m.children.len() implies child_ok(
                        psf,
                        hsf,
                        i,
                        #[trigger] m.children[j],
                    ) by {
                        let c = m.children[j];
                        assert(child_ok(ps0, hs0, i, c));
                        assert(c as int != lid && c as int != rid);
                        assert(psf[c as int] == ps0[c as int]);
                    }
                }
                if m.node_type == NodeType::Leaf {
                    match m.next {
                        Some(nx) => {
                            assert(psf[nx as int].node_type == NodeType::Leaf);
                        },
                        None => {},
                    }
                }
                assert(links_ok(psf, hsf, self.root, i));
            }
        }
        assert forall|i: int| 0 <= i < psf.len() implies #[trigger] hsf[i] <= hsf[nr] by {
            if i < ps0.len() {
                assert(hs0[i] <= hs0[lid]);
            }
        }
        // Interval bookkeeping: the new root is unbounded; its two slots
        // carry the intervals the single separator delimits, which are
        // exactly the bounds the halves already have.
        let bsf = self.bounds@;
        assert(forall|i: int| 0 <= i < ps0.len() ==> #[trigger] bsf[i] == pre.bounds@[i]);
        assert forall|i: int| 0 <= i < psf.len() implies self.pairs_ok(i) by {
            if i == nr {
                assert forall|j: int| 0 <= j < rootv.children.len() implies #[trigger]
                bounds_match(psf, bsf, nr, j) by {
                    assert(rootv.keys[0] == k);
                    if j == 0 {
                        assert(rootv.children[0] == lid as u32);
                        assert(bsf[lid] == (Option::<i32>::None, Some(k)));
                    } else {
                        assert(j == 1);
                        assert(rootv.children[1] == rid as u32);
                        assert(bsf[rid] == (Some(k), Option::<i32>::None));
                    }
                }
            } else if psf[i].node_type == NodeType::Internal {
                assert forall|j: int| 0 <= j < psf[i].children.len() implies #[trigger]
                bounds_match(psf, bsf, i, j) by {
                    assert(psf[i].children == ps0[i].children);
                    assert(psf[i].keys == ps0[i].keys);
                    let c = ps0[i].children[j];
                    assert(c != lid as u32 && c != rid as u32);
                    if i != rid {
                        assert(pre.page_ok(i));
                        assert(child_ok(ps0, hs0, i, c));
                    } else {
                        assert(child_ok(ps0, hs0, rid, c));
                    }
                    assert(bounds_match(ps0, pre.bounds@, i, j));
                    assert(bsf[c as int] == pre.bounds@[c as int]);
                    assert(bsf[i] == pre.bounds@[i]);
                    assert(slot_bnd(psf, bsf, i, j) == slot_bnd(ps0, pre.bounds@, i, j));
                }
            }
        }
        assert forall|i: int| 0 <= i < psf.len() implies page_in_bnd(psf[i], bsf[i]) by {
            if i == nr {
                assert(in_bnd(bsf[nr], k));
            } else if i == lid || i == rid {
                assert(psf[i].keys == ps0[i].keys);
                if i == lid {
                    assert(pre.page_ok(lid));
                } else {
                    assert(page_in_bnd(ps0[rid], pre.bounds@[rid]));
                }
            } else {
                assert(pre.page_ok(i));
            }
        }
    }

    /// After inserting one pair into a leaf, the tree is well formed except
    /// that this leaf may now be overfull.
    #[verifier::rlimit(100)]
    proof fn lemma_leaf_insert_shape(
        self,
        pre: BPlusTree,
        leaf: int,
        k: i32,
        pos: int,
        newv: PageView,
    )
        requires
            pre.wf(),
            0 <= leaf < pre@.len(),
            pre@[leaf].node_type == NodeType::Leaf,
            pos == first_geq(pre@[leaf].keys, k),
            pos < pre@[leaf].keys.len() ==> pre@[leaf].keys[pos] != k,
            in_bnd(pre.bounds@[leaf], k),
            self.order == pre.order,
            self.root == pre.root,
            self.heights == pre.heights,
            self.bounds == pre.bounds,
            self.base_ok(),
            self@.len() == pre@.len(),
            newv.id == pre@[leaf].id,
            newv.node_type == NodeType::Leaf,
            newv.keys == pre@[leaf].keys.insert(pos, k),
            newv.values.len() == newv.keys.len(),
            newv.children == pre@[leaf].children,
            newv.next == pre@[leaf].next,
            newv.parent_id == pre@[leaf].parent_id,
            self@[leaf] == newv,
            forall|q: int| 0 <= q < pre@.len() && q != leaf ==> self@[q] == pre@[q],
        ensures
            self.wf_over(leaf),
            self@[leaf].keys.len() == pre@[leaf].keys.len() + 1,
    {
        let ps0 = pre@;
        let psf = self@;
        let hs = pre.heights@;
        let o = pre.order_spec();
        assert(pre.page_ok(leaf));
        lemma_first_geq_props(ps0[leaf].keys, k);
        ps0[leaf].keys.insert_ensures(pos, k);
        assert(node_ok(newv, o)) by {
            lemma_sorted_insert(ps0[leaf].keys, k);
        }
        assert forall|i: int| 0 <= i < psf.len() && i != leaf implies self.page_ok(i) by {
            let m = psf[i];
            assert(m == ps0[i]);
            assert(pre.page_ok(i));
            match m.parent_id {
                Some(p) => {
                    assert(links_ok(ps0, hs, pre.root, i));
                    assert(p as int != leaf) by {
                        assert(ps0[p as int].node_type == NodeType::Internal);
                    }
                    assert(psf[p as int] == ps0[p as int]);
                },
                None => {},
            }
            if m.node_type == NodeType::Internal {
                assert forall|j: int| 0 <= j < m.children.len() implies child_ok(
                    psf,
                    hs,
                    i,
                    #[trigger] m.children[j],
                ) by {
                    let c = m.children[j];
                    assert(child_ok(ps0, hs, i, c));
                    assert(psf[c as int].parent_id == ps0[c as int].parent_id);
                }
            }
            if m.node_type == NodeType::Leaf {
                match m.next {
                    Some(nx) => {
                        assert(psf[nx as int].node_type == NodeType::Leaf);
                    },
                    None => {},
                }
            }
            assert(links_ok(psf, hs, self.root, i));
        }
        // The leaf's own links are untouched.
        assert(links_ok(ps0, hs, pre.root, leaf));
        match ps0[leaf].parent_id {
            Some(p) => {
                assert(p as int != leaf) by {
                    assert(ps0[p as int].node_type == NodeType::Internal);
                }
                assert(psf[p as int] == ps0[p as int]);
            },
            None => {},
        }
        match ps0[leaf].next {
            Some(nx) => {
                assert(psf[nx as int].node_type == NodeType::Leaf);
            },
            None => {},
        }
        assert(links_ok(psf, hs, self.root, leaf));
        // Bounds: the new key lies in the leaf's interval; no slot interval
        // changed.
        assert forall|t: int| 0 <= t < newv.keys.len() implies in_bnd(
            pre.bounds@[leaf],
            #[trigger] newv.keys[t],
        ) by {
            if t < pos {
                assert(newv.keys[t] == ps0[leaf].keys[t]);
                assert(in_bnd(pre.bounds@[leaf], ps0[leaf].keys[t]));
            } else if t == pos {
                assert(newv.keys[t] == k);
            } else {
                assert(newv.keys[t] == ps0[leaf].keys[t - 1]);
                assert(in_bnd(pre.bounds@[leaf], ps0[leaf].keys[t - 1]));
            }
        }
        assert forall|i: int| 0 <= i < psf.len() implies self.pairs_ok(i) by {
            if psf[i].node_type == NodeType::Internal {
                assert(i != leaf);
                assert(psf[i] == ps0[i]);
                assert(pre.pairs_ok(i));
                assert forall|j: int| 0 <= j < psf[i].children.len() implies #[trigger]
                bounds_match(psf, self.bounds@, i, j) by {
                    assert(bounds_match(ps0, pre.bounds@, i, j));
                    assert(slot_bnd(psf, self.bounds@, i, j) == slot_bnd(
                        ps0,
                        pre.bounds@,
                        i,
                        j,
                    ));
                }
            }
        }
    }

    /// After a leaf split, the store is in the `pending` state: the upper
    /// half moved to the fresh sibling, the sibling inherited the old next
    /// link, and the old leaf now chains to the sibling.
    #[verifier::rlimit(100)]
    proof fn lemma_split_leaf_shape(
        self,
        pre: BPlusTree,
        leaf: int,
        lrecv: PageView,
        nrecv: PageView,
    )
        requires
            pre.wf_over(leaf),
            pre@[leaf].node_type == NodeType::Leaf,
            pre@[leaf].keys.len() == pre.order_spec(),
            pre@.len() <= crate::storage::MAX_PAGE_COUNT as int,
            self.order == pre.order,
            self.root == pre.root,
            self.base_ok(),
            self.heights@ == pre.heights@.insert(pre@.len() as int, 0),
            self.bounds@ == pre.bounds@.insert(
                leaf,
                (pre.bounds@[leaf].0, Some(pre@[leaf].keys[pre.order_spec() / 2])),
            ).insert(
                pre@.len() as int,
                (Some(pre@[leaf].keys[pre.order_spec() / 2]), pre.bounds@[leaf].1),
            ),
            self@.len() == pre@.len() + 1,
            lrecv.id == pre@[leaf].id,
            lrecv.node_type == NodeType::Leaf,
            lrecv.keys == pre@[leaf].keys.subrange(0, pre.order_spec() / 2),
            lrecv.values == pre@[leaf].values.subrange(0, pre.order_spec() / 2),
            lrecv.children == pre@[leaf].children,
            lrecv.next == Some(pre@.len() as u32),
            lrecv.parent_id == pre@[leaf].parent_id,
            nrecv.id == pre@.len() as u32,
            nrecv.node_type == NodeType::Leaf,
            nrecv.keys == pre@[leaf].keys.subrange(
                pre.order_spec() / 2,
                pre.order_spec(),
            ),
            nrecv.values == pre@[leaf].values.subrange(
                pre.order_spec() / 2,
                pre.order_spec(),
            ),
            nrecv.children == Seq::<u32>::empty(),
            nrecv.next == pre@[leaf].next,
            nrecv.parent_id == pre@[leaf].parent_id,
            self@[leaf] == lrecv,
            self@[pre@.len() as int] == nrecv,
            forall|q: int| 0 <= q < pre@.len() && q != leaf ==> self@[q] == pre@[q],
        ensures
            self.pending(leaf, pre@.len() as int, pre@[leaf].keys[pre.order_spec() / 2]),
    {
        let ps0 = pre@;
        let psf = self@;
        let hs0 = pre.heights@;
        let hsf = self.heights@;
        let bs0 = pre.bounds@;
        let bsf = self.bounds@;
        let o = pre.order_spec();
        let mid = o / 2;
        let sep = ps0[leaf].keys[mid];
        let nli = ps0.len() as int;
        assert(2 * (o / 2) <= o < 2 * (o / 2) + 2);
        assert(forall|i: int| 0 <= i < ps0.len() ==> (#[trigger] ps0[i]).id == i);
        assert(forall|i: int| 0 <= i < ps0.len() ==> #[trigger] hsf[i] == hs0[i]);
        assert(forall|i: int| 0 <= i < ps0.len() && i != leaf ==> #[trigger] bsf[i] == bs0[i]);
        assert(bsf[leaf] == (bs0[leaf].0, Some(sep)));
        assert(bsf[nli] == (Some(sep), bs0[leaf].1));
        assert(page_in_bnd(ps0[leaf], bs0[leaf]));
        assert(links_ok(ps0, hs0, pre.root, leaf));
        assert(hs0[leaf] == 0);
        assert(node_ok(ps0[leaf], o));
        // Both halves are sound, half full.
        assert(node_ok(lrecv, o - 1)) by {
            lemma_sorted_subrange(ps0[leaf].keys, 0, mid);
        }
        assert(node_ok(nrecv, o - 1)) by {
            lemma_sorted_subrange(ps0[leaf].keys, mid, o);
        }
        assert(lrecv.keys.len() == mid && mid >= min_keys(o));
        assert(nrecv.keys.len() == o - mid && o - mid >= min_keys(o));
        // Nobody references the fresh sibling.
        assert forall|i: int, j: int|
            0 <= i < psf.len() && 0 <= j < psf[i].children.len() implies psf[i].children[j] != (
        nli as u32) by {
            if i == leaf {
                assert(psf[i].children.len() == 0);
            } else if i == nli {
                assert(psf[i].children.len() == 0);
            } else {
                assert(psf[i] == ps0[i]);
                assert(pre.page_ok(i) || i == leaf);
                assert(child_ok(ps0, hs0, i, ps0[i].children[j]));
            }
        }
        // Every page but the sibling is at rest.
        assert forall|i: int| 0 <= i < psf.len() && i != nli implies self.page_ok(i) by {
            let m = psf[i];
            if i == leaf {
                match ps0[leaf].parent_id {
                    Some(p) => {
                        assert(ps0[p as int].node_type == NodeType::Internal);
                        assert(p as int != leaf);
                        assert(psf[p as int] == ps0[p as int]);
                    },
                    None => {},
                }
                assert(psf[nli].node_type == NodeType::Leaf);
                assert(links_ok(psf, hsf, self.root, leaf));
            } else {
                assert(m == ps0[i]);
                assert(pre.page_ok(i));
                match m.parent_id {
                    Some(p) => {
                        assert(links_ok(ps0, hs0, pre.root, i));
                        assert(p as int != leaf) by {
                            assert(ps0[p as int].node_type == NodeType::Internal);
                        }
                        assert(psf[p as int] == ps0[p as int]);
                    },
                    None => {},
                }
                if m.node_type == NodeType::Internal {
                    assert forall|j: int| 0 <= j < m.children.len() implies child_ok(
                        psf,
                        hsf,
                        i,
                        #[trigger] m.children[j],
                    ) by {
                        let c = m.children[j];
                        assert(child_ok(ps0, hs0, i, c));
                        assert(psf[c as int].parent_id == ps0[c as int].parent_id);
                        assert(psf[c as int].node_type == ps0[c as int].node_type);
                    }
                }
                if m.node_type == NodeType::Leaf {
                    match m.next {
                        Some(nx) => {
                            assert(psf[nx as int].node_type == NodeType::Leaf);
                        },
                        None => {},
                    }
                }
                assert(links_ok(psf, hsf, self.root, i));
            }
        }
        // The sibling's own pending clauses.
        match nrecv.next {
            Some(nx) => {
                assert(ps0[nx as int].node_type == NodeType::Leaf);
                assert(psf[nx as int].node_type == NodeType::Leaf);
            },
            None => {},
        }
        match pre.root {
            Some(r) => {
                assert(hsf[r as int] == hs0[r as int]);
                assert forall|i: int| 0 <= i < psf.len() implies #[trigger] hsf[i] <= hsf[
                    r as int] by {
                    if i < ps0.len() {
                        assert(hs0[i] <= hs0[r as int]);
                    }
                }
            },
            None => {},
        }
        // Interval bookkeeping: the separator splits the leaf's interval.
        assert forall|t: int| 0 <= t < nrecv.keys.len() implies in_bnd(
            bsf[nli],
            #[trigger] nrecv.keys[t],
        ) by {
            assert(nrecv.keys[t] == ps0[leaf].keys[mid + t]);
            assert(in_bnd(bs0[leaf], ps0[leaf].keys[mid + t]));
            if t > 0 {
                assert(ps0[leaf].keys[mid] < ps0[leaf].keys[mid + t]);
            }
        }
        assert forall|t: int| 0 <= t < lrecv.keys.len() implies in_bnd(
            bsf[leaf],
            #[trigger] lrecv.keys[t],
        ) by {
            assert(lrecv.keys[t] == ps0[leaf].keys[t]);
            assert(in_bnd(bs0[leaf], ps0[leaf].keys[t]));
            assert(ps0[leaf].keys[t] < ps0[leaf].keys[mid]);
        }
        match pre.root {
            Some(r) => {
                if (r as int) != leaf {
                    assert(bsf[r as int] == (Option::<i32>::None, Option::<i32>::None));
                }
            },
            None => {},
        }
        assert forall|i: int, j: int|
            0 <= i < psf.len() && 0 <= j < psf[i].children.len() && psf[i].children[j] != (leaf
                as u32) implies bounds_match(psf, bsf, i, j) by {
            assert(lrecv.children.len() == 0 && nrecv.children.len() == 0);
            assert(i != leaf && i != nli);
            assert(psf[i] == ps0[i]);
            assert(pre.page_ok(i));
            assert(ps0[i].node_type == NodeType::Internal);
            let c = ps0[i].children[j];
            assert(child_ok(ps0, hs0, i, c));
            assert(pre.pairs_ok(i));
            assert(bounds_match(ps0, bs0, i, j));
            assert((c as int) != leaf && (c as int) != nli);
            assert(bsf[c as int] == bs0[c as int]);
            assert(bsf[i] == bs0[i]);
            assert(slot_bnd(psf, bsf, i, j) == slot_bnd(ps0, bs0, i, j));
        }
        assert forall|i: int, j: int|
            0 <= i < psf.len() && 0 <= j < psf[i].children.len() && psf[i].children[j] == (leaf
                as u32) implies bsf[leaf].0 == slot_bnd(psf, bsf, i, j).0 && bsf[nli].1
            == slot_bnd(psf, bsf, i, j).1 by {
            assert(lrecv.children.len() == 0 && nrecv.children.len() == 0);
            assert(i != leaf && i != nli);
            assert(psf[i] == ps0[i]);
            assert(pre.page_ok(i));
            assert(ps0[i].node_type == NodeType::Internal);
            assert(child_ok(ps0, hs0, i, ps0[i].children[j]));
            assert(pre.pairs_ok(i));
            assert(bounds_match(ps0, bs0, i, j));
            assert(bsf[i] == bs0[i]);
            assert(slot_bnd(psf, bsf, i, j) == slot_bnd(ps0, bs0, i, j));
        }
    }

    /// After an internal split, the store is in the `pending` state: both
    /// halves are sound and every page but the unlinked sibling satisfies
    /// the at-rest clauses.
    #[verifier::rlimit(100)]
    proof fn lemma_split_internal_shape(
        self,
        pre: BPlusTree,
        node_id: u32,
        ps0: Seq<PageView>,
        hs0: Map<int, nat>,
        moved: Seq<u32>,
        leftv: PageView,
        wv: PageView,
    )
        requires
            pre.wf_over(node_id as int),
            ps0 == pre@,
            hs0 == pre.heights@,
            ps0[node_id as int].node_type == NodeType::Internal,
            ps0[node_id as int].keys.len() == pre.order_spec(),
            self.order == pre.order,
            self.root == pre.root,
            self.base_ok(),
            self.heights@ == hs0.insert(ps0.len() as int, hs0[node_id as int]),
            self@.len() == ps0.len() + 1,
            moved == ps0[node_id as int].children.subrange(
                pre.order_spec() / 2 + 1,
                pre.order_spec() + 1,
            ),
            leftv.id == node_id,
            leftv.node_type == NodeType::Internal,
            leftv.keys == ps0[node_id as int].keys.subrange(0, pre.order_spec() / 2),
            leftv.children == ps0[node_id as int].children.subrange(0, pre.order_spec() / 2 + 1),
            leftv.values == ps0[node_id as int].values,
            leftv.parent_id == ps0[node_id as int].parent_id,
            wv.id == ps0.len() as u32,
            wv.node_type == NodeType::Internal,
            wv.keys == ps0[node_id as int].keys.subrange(
                pre.order_spec() / 2 + 1,
                pre.order_spec(),
            ),
            wv.children == moved,
            wv.values == Seq::<u64>::empty(),
            wv.parent_id == ps0[node_id as int].parent_id,
            self.bounds@ == pre.bounds@.insert(
                node_id as int,
                (pre.bounds@[node_id as int].0, Some(ps0[node_id as int].keys[pre.order_spec() / 2])),
            ).insert(
                ps0.len() as int,
                (Some(ps0[node_id as int].keys[pre.order_spec() / 2]), pre.bounds@[node_id as int].1),
            ),
            self@[node_id as int] == leftv,
            self@[ps0.len() as int] == wv,
            forall|j: int|
                0 <= j < moved.len() ==> self@[#[trigger] moved[j] as int] == reparent(
                    ps0[moved[j] as int],
                    ps0.len() as u32,
                ),
            forall|q: int|
                0 <= q < ps0.len() && q != node_id as int && (forall|j: int|
                    0 <= j < moved.len() ==> moved[j] as int != q) ==> self@[q] == ps0[q],
        ensures
            self.pending(
                node_id as int,
                ps0.len() as int,
                ps0[node_id as int].keys[pre.order_spec() / 2],
            ),
    {
        let x = node_id as int;
        let wi = ps0.len() as int;
        let o = pre.order_spec();
        let mid = o / 2;
        let sep = ps0[x].keys[mid];
        let psf = self@;
        let hsf = self.heights@;
        let bs0 = pre.bounds@;
        let bsf = self.bounds@;
        assert(2 * (o / 2) <= o < 2 * (o / 2) + 2);
        assert(forall|i: int| 0 <= i < ps0.len() && i != x ==> #[trigger] bsf[i] == bs0[i]);
        assert(bsf[x] == (bs0[x].0, Some(sep)));
        assert(bsf[wi] == (Some(sep), bs0[x].1));
        assert(page_in_bnd(ps0[x], bs0[x]));
        // Every moved entry is a sound child of `x` in the old state.
        assert forall|j: int| 0 <= j < moved.len() implies child_ok(
            ps0,
            hs0,
            x,
            #[trigger] moved[j],
        ) by {
            assert(pre.page_ok(x) || links_ok(ps0, hs0, pre.root, x));
            assert(moved[j] == ps0[x].children[mid + 1 + j]);
        }
        assert(moved.len() == o - mid);
        assert(distinct_u32s(ps0[x].children));
        assert(distinct_u32s(moved)) by {
            lemma_distinct_subrange(ps0[x].children, mid + 1, o + 1);
        }
        // Heights are unchanged on the old pages.
        assert(forall|i: int| 0 <= i < ps0.len() ==> #[trigger] hsf[i] == hs0[i]);
        assert(hsf[wi] == hs0[x]);
        // Old ids.
        assert(forall|i: int| 0 <= i < ps0.len() ==> (#[trigger] ps0[i]).id == i);
        // No old page references the fresh sibling, before or after.
        assert forall|i: int, j: int|
            0 <= i < psf.len() && 0 <= j < psf[i].children.len() implies psf[i].children[j] != (
        wi as u32) by {
            if i == x {
                assert(leftv.children[j] == ps0[x].children[j]);
                assert(child_ok(ps0, hs0, x, ps0[x].children[j])) by {
                    assert(pre.page_ok(x) || links_ok(ps0, hs0, pre.root, x));
                }
            } else if i == wi {
                assert(wv.children[j] == moved[j]);
                assert(child_ok(ps0, hs0, x, moved[j]));
            } else if exists|t: int| 0 <= t < moved.len() && moved[t] as int == i {
                let t = choose|t: int| 0 <= t < moved.len() && moved[t] as int == i;
                assert(psf[i] == reparent(ps0[i], wi as u32));
                assert(psf[i].children == ps0[i].children);
                assert(pre.page_ok(i));
                assert(child_ok(ps0, hs0, i, ps0[i].children[j]));
            } else {
                assert(psf[i] == ps0[i]);
                assert(pre.page_ok(i) || i == x);
                assert(child_ok(ps0, hs0, i, ps0[i].children[j]));
            }
        }
        // A page other than `x` never lists a moved page among its children,
        // and never lists `x` as moved; children of distinct internals are
        // disjoint because each child's parent field names its one owner.
        assert forall|i: int, j: int, t: int|
            0 <= i < ps0.len() && i != x && 0 <= j < ps0[i].children.len() && 0 <= t
                < moved.len() implies ps0[i].children[j] != moved[t] by {
            if ps0[i].children[j] == moved[t] {
                assert(pre.page_ok(i) || i == x);
                assert(child_ok(ps0, hs0, i, ps0[i].children[j]));
                assert(child_ok(ps0, hs0, x, moved[t]));
                assert(ps0[moved[t] as int].parent_id == Some(ps0[i].id));
                assert(ps0[moved[t] as int].parent_id == Some(ps0[x].id));
            }
        }
        // The pages every old page links to keep their kind and heights.
        assert forall|i: int| 0 <= i < psf.len() && i != wi implies self.page_ok(i) by {
            let m = psf[i];
            if i == x {
                lemma_sorted_subrange(ps0[x].keys, 0, mid);
                lemma_distinct_subrange(ps0[x].children, 0, mid + 1);
                assert(node_ok(ps0[x], o));
                assert(node_ok(m, o - 1));
                // Parent link: the parent page is untouched.
                match ps0[x].parent_id {
                    Some(p) => {
                        assert(links_ok(ps0, hs0, pre.root, x));
                        assert(hs0[p as int] == hs0[x] + 1);
                        assert forall|j: int| 0 <= j < moved.len() implies moved[j] as int != (
                        p as int) by {
                            assert(child_ok(ps0, hs0, x, moved[j]));
                        }
                        assert(psf[p as int] == ps0[p as int]);
                    },
                    None => {},
                }
                // Children links: kept children are untouched.
                assert forall|j: int| 0 <= j < m.children.len() implies child_ok(
                    psf,
                    hsf,
                    x,
                    #[trigger] m.children[j],
                ) by {
                    let c = m.children[j];
                    assert(c == ps0[x].children[j]);
                    assert(child_ok(ps0, hs0, x, c));
                    assert forall|t: int| 0 <= t < moved.len() implies moved[t] as int != (
                    c as int) by {
                        assert(moved[t] == ps0[x].children[mid + 1 + t]);
                        assert(ps0[x].children[j] != ps0[x].children[mid + 1 + t]);
                    }
                    assert(c as int != x);
                    assert(psf[c as int] == ps0[c as int]);
                }
                assert(links_ok(psf, hsf, self.root, x));
            } else if exists|t: int| 0 <= t < moved.len() && moved[t] as int == i {
                let t = choose|t: int| 0 <= t < moved.len() && moved[t] as int == i;
                assert(child_ok(ps0, hs0, x, moved[t]));
                assert(psf[i] == reparent(ps0[i], wi as u32));
                assert(pre.page_ok(i));
                assert(node_ok(m, o - 1));
                // The old state routes `i`'s min-occupancy through the root
                // test; `i` was no root since its parent field was set.
                assert(ps0[i].parent_id == Some(ps0[x].id));
                assert(links_ok(ps0, hs0, pre.root, i));
                assert(pre.root != Some(i as u32));
                assert(self.root != Some(m.id));
                // Parent link now names the sibling.
                assert(psf[wi].node_type == NodeType::Internal);
                assert(hsf[wi] == hs0[x]);
                assert(hs0[x] == hs0[i] + 1);
                // Children of `i` are untouched.
                assert forall|j: int| 0 <= j < m.children.len() implies child_ok(
                    psf,
                    hsf,
                    i,
                    #[trigger] m.children[j],
                ) by {
                    let c = m.children[j];
                    assert(c == ps0[i].children[j]);
                    assert(child_ok(ps0, hs0, i, c));
                    assert(ps0[c as int].parent_id == Some(ps0[i].id));
                    if c as int == x {
                        assert(hs0[x] == hs0[i] - 1);
                        assert(false);
                    }
                    assert forall|u: int| 0 <= u < moved.len() implies moved[u] as int != (
                    c as int) by {
                        if moved[u] as int == c as int {
                            assert(ps0[c as int].parent_id == Some(ps0[x].id));
                        }
                    }
                    assert(psf[c as int] == ps0[c as int]);
                }
                // Leaf chain: a moved page may be a leaf only at height 0,
                // but here it sits under an internal page; either way its
                // next link is unchanged and still names a leaf.
                if m.node_type == NodeType::Leaf {
                    match m.next {
                        Some(nx) => {
                            assert(ps0[nx as int].node_type == NodeType::Leaf);
                            assert(psf[nx as int].node_type == NodeType::Leaf);
                        },
                        None => {},
                    }
                }
                assert(links_ok(psf, hsf, self.root, i));
            } else {
                assert(psf[i] == ps0[i]);
                assert(pre.page_ok(i));
                assert(node_ok(m, o - 1));
                match ps0[i].parent_id {
                    Some(p) => {
                        assert(psf[p as int].node_type == NodeType::Internal);
                        assert(ps0[p as int].children.contains(m.id));
                        if p as int == x {
                            // The page is not moved, so its slot is in the
                            // kept prefix of the split page's children.
                            let jj = choose|jj: int|
                                0 <= jj < ps0[x].children.len() && ps0[x].children[jj] == m.id;
                            if jj > mid {
                                assert(moved[jj - mid - 1] == ps0[x].children[jj]);
                            }
                            assert(jj <= mid);
                            assert(leftv.children[jj] == m.id);
                            assert(psf[x].children.contains(m.id));
                        } else if exists|t: int|
                            0 <= t < moved.len() && moved[t] as int == p as int {
                            let t = choose|t: int|
                                0 <= t < moved.len() && moved[t] as int == p as int;
                            assert(psf[p as int] == reparent(
                                ps0[p as int],
                                ps0.len() as u32,
                            ));
                            assert(psf[p as int].children == ps0[p as int].children);
                        } else {
                            assert(psf[p as int] == ps0[p as int]);
                        }
                    },
                    None => {},
                }
                if m.node_type == NodeType::Internal {
                    assert forall|j: int| 0 <= j < m.children.len() implies child_ok(
                        psf,
                        hsf,
                        i,
                        #[trigger] m.children[j],
                    ) by {
                        let c = m.children[j];
                        assert(child_ok(ps0, hs0, i, c));
                        assert(psf[c as int].parent_id == ps0[c as int].parent_id);
                    }
                }
                if m.node_type == NodeType::Leaf {
                    match m.next {
                        Some(nx) => {
                            assert(psf[nx as int].node_type == NodeType::Leaf);
                        },
                        None => {},
                    }
                }
                assert(links_ok(psf, hsf, self.root, i));
            }
        }
        // The sibling itself.
        assert(node_ok(wv, o - 1)) by {
            lemma_sorted_subrange(ps0[x].keys, mid + 1, o);
        }
        assert(wv.keys.len() == o - mid - 1);
        assert(wv.keys.len() >= min_keys(o));
        assert(leftv.keys.len() >= min_keys(o));
        assert(hsf[wi] >= 1) by {
            assert(links_ok(ps0, hs0, pre.root, x));
        }
        assert forall|j: int| 0 <= j < wv.children.len() implies child_ok(
            psf,
            hsf,
            wi,
            #[trigger] wv.children[j],
        ) by {
            let c = moved[j];
            assert(child_ok(ps0, hs0, x, c));
            assert(psf[c as int] == reparent(ps0[c as int], wi as u32));
            assert(psf[c as int].parent_id == Some(wi as u32));
            assert(psf[wi].id == wi as u32);
        }
        match pre.root {
            Some(r) => {
                assert(hsf[r as int] == hs0[r as int]);
                assert forall|i: int| 0 <= i < psf.len() implies #[trigger] hsf[i] <= hsf[
                    r as int] by {
                    if i < ps0.len() {
                        assert(hs0[i] <= hs0[r as int]);
                    } else {
                        assert(hsf[i] == hs0[x]);
                    }
                }
                if (r as int) != x {
                    assert(bsf[r as int] == (Option::<i32>::None, Option::<i32>::None));
                }
            },
            None => {
                assert(false);
            },
        }
        // Interval bookkeeping: the promoted middle key splits the page's
        // interval; every untouched slot keeps its interval.
        assert forall|t: int| 0 <= t < wv.keys.len() implies in_bnd(
            bsf[wi],
            #[trigger] wv.keys[t],
        ) by {
            assert(wv.keys[t] == ps0[x].keys[mid + 1 + t]);
            assert(in_bnd(bs0[x], ps0[x].keys[mid + 1 + t]));
            assert(ps0[x].keys[mid] < ps0[x].keys[mid + 1 + t]);
        }
        assert forall|t: int| 0 <= t < leftv.keys.len() implies in_bnd(
            bsf[x],
            #[trigger] leftv.keys[t],
        ) by {
            assert(leftv.keys[t] == ps0[x].keys[t]);
            assert(in_bnd(bs0[x], ps0[x].keys[t]));
            assert(ps0[x].keys[t] < ps0[x].keys[mid]);
        }
        // Kept slots of the split page keep their intervals.
        assert forall|j: int| 0 <= j < leftv.children.len() implies bounds_match(
            psf,
            bsf,
            x,
            j,
        ) by {
            assert(pre.pairs_ok(x));
            assert(bounds_match(ps0, bs0, x, j));
            let c = ps0[x].children[j];
            assert(leftv.children[j] == c);
            assert forall|t: int| 0 <= t < moved.len() implies moved[t] as int != (
            c as int) by {
                assert(moved[t] == ps0[x].children[mid + 1 + t]);
                assert(ps0[x].children[j] != ps0[x].children[mid + 1 + t]);
            }
            assert(child_ok(ps0, hs0, x, c));
            assert(bsf[c as int] == bs0[c as int]);
            if j < mid {
                assert(leftv.keys[j] == ps0[x].keys[j]);
            }
            if j > 0 {
                assert(leftv.keys[j - 1] == ps0[x].keys[j - 1]);
            }
        }
        // The sibling's slots carry exactly the intervals they had under
        // the split page.
        assert forall|j: int| 0 <= j < wv.children.len() implies bounds_match(
            psf,
            bsf,
            wi,
            j,
        ) by {
            assert(pre.pairs_ok(x));
            let g = mid + 1 + j;
            assert(wv.children[j] == ps0[x].children[g]);
            assert(bounds_match(ps0, bs0, x, g));
            let c = moved[j];
            assert(child_ok(ps0, hs0, x, c));
            assert(bsf[c as int] == bs0[c as int]);
            if j > 0 {
                assert(wv.keys[j - 1] == ps0[x].keys[g - 1]);
            }
            if j < wv.keys.len() {
                assert(wv.keys[j] == ps0[x].keys[g]);
            }
            assert(slot_bnd(psf, bsf, wi, j) == slot_bnd(ps0, bs0, x, g));
        }
        // Slots of every other page are untouched.
        assert forall|i: int, j: int|
            0 <= i < psf.len() && 0 <= j < psf[i].children.len() && psf[i].children[j] != (x
                as u32) && i != x && i != wi implies bounds_match(psf, bsf, i, j) by {
            if exists|t: int| 0 <= t < moved.len() && moved[t] as int == i {
                let t = choose|t: int| 0 <= t < moved.len() && moved[t] as int == i;
                assert(psf[i] == reparent(ps0[i], ps0.len() as u32));
                assert(psf[i].children == ps0[i].children && psf[i].keys == ps0[i].keys);
            } else {
                assert(psf[i] == ps0[i]);
            }
            assert(pre.page_ok(i));
            assert(ps0[i].node_type == NodeType::Internal);
            let c = ps0[i].children[j];
            assert(child_ok(ps0, hs0, i, c));
            assert(pre.pairs_ok(i));
            assert(bounds_match(ps0, bs0, i, j));
            assert((c as int) != x && (c as int) != wi);
            assert(bsf[c as int] == bs0[c as int]);
            assert(bsf[i] == bs0[i]);
            assert(slot_bnd(psf, bsf, i, j) == slot_bnd(ps0, bs0, i, j));
        }
        assert forall|i: int, j: int|
            0 <= i < psf.len() && 0 <= j < psf[i].children.len() && psf[i].children[j] == (x
                as u32) implies bsf[x].0 == slot_bnd(psf, bsf, i, j).0 && bsf[wi].1 == slot_bnd(
            psf,
            bsf,
            i,
            j,
        ).1 by {
            assert(i != x) by {
                if i == x {
                    assert(leftv.children[j] == ps0[x].children[j]);
                    assert(child_ok(ps0, hs0, x, ps0[x].children[j]));
                }
            }
            assert(i != wi) by {
                if i == wi {
                    assert(wv.children[j] == moved[j]);
                    assert(child_ok(ps0, hs0, x, moved[j]));
                }
            }
            if exists|t: int| 0 <= t < moved.len() && moved[t] as int == i {
                let t = choose|t: int| 0 <= t < moved.len() && moved[t] as int == i;
                assert(psf[i] == reparent(ps0[i], ps0.len() as u32));
                assert(psf[i].children == ps0[i].children && psf[i].keys == ps0[i].keys);
            } else {
                assert(psf[i] == ps0[i]);
            }
            assert(pre.page_ok(i));
            assert(ps0[i].node_type == NodeType::Internal);
            assert(child_ok(ps0, hs0, i, ps0[i].children[j]));
            assert(pre.pairs_ok(i));
            assert(bounds_match(ps0, bs0, i, j));
            assert(bsf[i] == bs0[i]);
            assert(slot_bnd(psf, bsf, i, j) == slot_bnd(ps0, bs0, i, j));
        }
    }

    /// Links a freshly split-off sibling into the tree: inserts the
    /// separator `key` and the sibling `right` into the parent of `left` —
    /// the separator at its sorted position among the parent's keys, the
    /// sibling immediately right of `left` among the children — ascending
    /// and splitting further as an explicit loop, never recursion holding
    /// state across levels, and installing a brand-new root over the two
    /// halves when the page that split had no parent. Never fails: the
    /// interval invariant puts every promoted separator strictly between
    /// its parent's neighboring separators.
    #[verifier::rlimit(100)]
    fn insert_into_parent(&mut self, left: u32, key: Key, right: u32)
        requires
            old(self).pending(left as int, right as int, key),
            old(self)@.len() as int + old(self).root_height() - old(self).heights_spec()[
                left as int] as int <= crate::storage::MAX_PAGE_COUNT as int,
        ensures
            final(self).order_spec() == old(self).order_spec(),
            final(self).capacity_spec() == old(self).capacity_spec(),
            final(self).page_size_spec() == old(self).page_size_spec(),
            final(self).wf(),
            contents(final(self)@) == contents(old(self)@),
            final(self)@.len() >= old(self)@.len(),
            final(self)@.len() as int <= old(self)@.len() as int + old(self).root_height() - old(
                self,
            ).heights_spec()[left as int] as int + 1,
            final(self).root_height() <= old(self).root_height() + 1,
            // Linking never changes a page's kind, nor any leaf's keys,
            // values or chain link.
            forall|i: int|
                0 <= i < old(self)@.len() ==> final(self)@[i].node_type == old(self)@[
                    i].node_type,
            forall|i: int|
                0 <= i < old(self)@.len() && old(self)@[i].node_type == NodeType::Leaf
                    ==> final(self)@[i].keys == old(self)@[i].keys && final(self)@[i].values
                    == old(self)@[i].values && final(self)@[i].next == old(self)@[i].next,
            // Off the ancestor chain of the page that split, only parent
            // links may move (children of further split ancestors are
            // reparented); keys, children, values and chain links stay.
            forall|i: int|
                0 <= i < old(self)@.len() && !in_parent_chain(
                    old(self)@,
                    left as int,
                    i,
                    (old(self).root_height() + 2) as nat,
                ) ==> final(self)@[i].keys == old(self)@[i].keys && final(self)@[i].children
                    == old(self)@[i].children && final(self)@[i].values == old(self)@[i].values
                    && final(self)@[i].next == old(self)@[i].next,
            // The page that split was the root: a new root holds exactly the
            // separator over the two halves, both reparented to it, one
            // level up.
            old(self)@[left as int].parent_id is None ==> {
                &&& final(self).root_spec() == Some(old(self)@.len() as u32)
                &&& final(self)@[old(self)@.len() as int].node_type == NodeType::Internal
                &&& final(self)@[old(self)@.len() as int].keys == seq![key]
                &&& final(self)@[old(self)@.len() as int].children == seq![left, right]
                &&& final(self)@[left as int].parent_id == Some(old(self)@.len() as u32)
                &&& final(self)@[right as int].parent_id == Some(old(self)@.len() as u32)
                &&& final(self).heights_spec()[old(self)@.len() as int] == old(
                    self,
                ).heights_spec()[left as int] + 1
            },
            // The parent absorbed the separator without splitting: the
            // separator sits at its sorted position, the sibling right of
            // `left`, and the sibling's parent link is rewritten.
            (match old(self)@[left as int].parent_id {
                Some(p) => old(self)@[p as int].keys.len() < old(self).order_spec() - 1 ==> {
                    let pos = first_geq(old(self)@[p as int].keys, key);
                    &&& old(self)@[p as int].children[pos] == left
                    &&& final(self)@[p as int].keys == old(self)@[p as int].keys.insert(pos, key)
                    &&& final(self)@[p as int].children == old(self)@[p as int].children.insert(
                        pos + 1,
                        right,
                    )
                    &&& final(self)@[right as int].parent_id == Some(p)
                },
                None => true,
            }),
    {
        let mut lid = left;
        let mut k = key;
        let mut rid = right;
        loop
            invariant
                self.pending(lid as int, rid as int, k),
                self.order == old(self).order,
                self.root == old(self).root,
                self.buffer_pool.capacity_spec() == old(self).capacity_spec(),
                self.buffer_pool.page_size_spec() == old(self).page_size_spec(),
                contents(self@) == contents(old(self)@),
                self.root_height() == old(self).root_height(),
                self@.len() as int + self.root_height() - self.heights@[lid as int] as int
                    <= crate::storage::MAX_PAGE_COUNT as int,
                self@.len() >= old(self)@.len(),
                self@.len() as int - self.heights@[lid as int] as int <= old(self)@.len() as int
                    - old(self).heights_spec()[left as int] as int,
                old(self).pending(left as int, right as int, key),
                (lid as int) < old(self)@.len(),
                old(self).heights_spec()[left as int] <= self.heights@[lid as int],
                lid == left || self.heights@[lid as int] > old(self).heights_spec()[
                    left as int],
                forall|i: int|
                    0 <= i < old(self)@.len() ==> #[trigger] self.heights@[i] == old(
                        self,
                    ).heights_spec()[i],
                self@[lid as int].parent_id == old(self)@[lid as int].parent_id,
                in_parent_chain(
                    old(self)@,
                    left as int,
                    lid as int,
                    (self.heights@[lid as int] - old(self).heights_spec()[left as int]
                        + 1) as nat,
                ),
                forall|i: int|
                    0 <= i < old(self)@.len() && #[trigger] self.heights@[i] > self.heights@[
                        lid as int] ==> self@[i].parent_id == old(self)@[i].parent_id,
                forall|i: int|
                    0 <= i < old(self)@.len() && !in_parent_chain(
                        old(self)@,
                        left as int,
                        i,
                        (old(self).root_height() + 2) as nat,
                    ) ==> self@[i].keys == old(self)@[i].keys && self@[i].children == old(
                        self,
                    )@[i].children && self@[i].values == old(self)@[i].values && self@[i].next
                        == old(self)@[i].next,
                forall|i: int|
                    0 <= i < old(self)@.len() ==> self@[i].node_type == old(self)@[i].node_type,
                forall|i: int|
                    0 <= i < old(self)@.len() && old(self)@[i].node_type == NodeType::Leaf
                        ==> self@[i].keys == old(self)@[i].keys && self@[i].values == old(
                        self,
                    )@[i].values && self@[i].next == old(self)@[i].next,
                // While the original split page was the root, or while its
                // parent could absorb the separator, this is still the
                // first level.
                old(self)@[left as int].parent_id is None ==> lid == left && rid == right && k
                    == key && self@ == old(self)@ && self.heights@ == old(self).heights@,
                (match old(self)@[left as int].parent_id {
                    Some(p) => old(self)@[p as int].keys.len() < old(self).order_spec() - 1
                        ==> lid == left && rid == right && k == key && self@ == old(self)@,
                    None => true,
                }),
            ensures
                self.order == old(self).order,
                self.buffer_pool.capacity_spec() == old(self).capacity_spec(),
                self.buffer_pool.page_size_spec() == old(self).page_size_spec(),
            decreases self.root_height() - self.heights@[lid as int] as int,
        {
            let ghost pre0 = *self;
            let lpage = match self.buffer_pool.get_page(lid) {
                Ok(p) => p,
                Err(_) => {
                    proof {
                        assert(false);
                    }
                    return ;
                },
            };
            proof {
                Self::lemma_same_shape_pending(pre0, *self, lid as int, rid as int, k);
                assert(self.page_ok(lid as int));
            }
            match lpage.parent_id {
                None => {
                    // `left` was the root: build a new root over the two halves.
                    let ghost pre1 = *self;
                    proof {
                        assert(self.root == Some(lid));
                        assert(self.heights@[lid as int] as int == self.root_height());
                    }
                    let rootp = match self.buffer_pool.allocate_page(NodeType::Internal) {
                        Ok(p) => p,
                        Err(_) => {
                            proof {
                                assert(false);
                            }
                            return ;
                        },
                    };
                    let nr = rootp.id;
                    proof {
                        self.heights@ = self.heights@.insert(
                            nr as int,
                            (pre1.heights@[lid as int] + 1) as nat,
                        );
                        self.bounds@ = self.bounds@.insert(
                            nr as int,
                            (Option::<i32>::None, Option::<i32>::None),
                        );
                        lemma_contents_push(pre1@, blank_page(nr, NodeType::Internal));
                        assert(contents(self@) =~= contents(pre1@));
                    }
                    let mut rootrec = PageData::new(nr, NodeType::Internal);
                    rootrec.keys.push(k);
                    rootrec.children.push(lid);
                    rootrec.children.push(rid);
                    proof {
                        assert(rootrec@.keys =~= seq![k]);
                        assert(rootrec@.children =~= seq![lid, rid]);
                        assert(node_ok(rootrec@, self.order as int));
                        self.lemma_fits(rootrec@);
                    }
                    let ghost v0 = self@;
                    match self.buffer_pool.write_page(&rootrec) {
                        Ok(_) => {},
                        Err(_) => {
                            proof {
                                assert(false);
                            }
                            return ;
                        },
                    }
                    proof {
                        lemma_contents_update_same(v0, nr as int, rootrec@);
                    }
                    let mut lrec = lpage;
                    lrec.parent_id = Some(nr);
                    proof {
                        assert(lrec@ == reparent(pre1@[lid as int], nr));
                        assert(node_ok(lrec@, self.order as int)) by {
                            assert(pre1.page_ok(lid as int));
                        }
                        self.lemma_fits(lrec@);
                    }
                    let ghost v1 = self@;
                    match self.buffer_pool.write_page(&lrec) {
                        Ok(_) => {},
                        Err(_) => {
                            proof {
                                assert(false);
                            }
                            return ;
                        },
                    }
                    proof {
                        lemma_contents_update_same(v1, lid as int, lrec@);
                    }
                    let mut rrec = match self.buffer_pool.get_page(rid) {
                        Ok(p) => p,
                        Err(_) => {
                            proof {
                                assert(false);
                            }
                            return ;
                        },
                    };
                    rrec.parent_id = Some(nr);
                    proof {
                        assert(rrec@ == reparent(pre1@[rid as int], nr));
                        assert(node_ok(rrec@, self.order as int));
                        self.lemma_fits(rrec@);
                    }
                    let ghost v2 = self@;
                    match self.buffer_pool.write_page(&rrec) {
                        Ok(_) => {},
                        Err(_) => {
                            proof {
                                assert(false);
                            }
                            return ;
                        },
                    }
                    self.root = Some(nr);
                    proof {
                        lemma_contents_update_same(v2, rid as int, rrec@);
                        self.lemma_new_root_shape(pre1, lid as int, rid as int, k, rootrec@);
                    }
                    return ;
                },
                Some(pid) => {
                    let ghost pre1 = *self;
                    let mut ppage = match self.buffer_pool.get_page(pid) {
                        Ok(p) => p,
                        Err(_) => {
                            proof {
                                assert(false);
                            }
                            return ;
                        },
                    };
                    proof {
                        Self::lemma_same_shape_pending(pre1, *self, lid as int, rid as int, k);
                        assert(self.page_ok(pid as int));
                        assert(self.heights@[pid as int] == self.heights@[lid as int] + 1);
                        // `pid` lies on the ancestor chain of the page that
                        // split, and within the old pages.
                        assert(lid as int != right as int);
                        assert(old(self).page_ok(lid as int));
                        assert(old(self)@[lid as int].parent_id == Some(pid));
                        assert((pid as int) < old(self)@.len());
                        lemma_chain_extend(
                            old(self)@,
                            left as int,
                            lid as int,
                            pid as int,
                            (self.heights@[lid as int] - old(self).heights_spec()[left as int]
                                + 1) as nat,
                        );
                        lemma_chain_mono(
                            old(self)@,
                            left as int,
                            pid as int,
                            (self.heights@[pid as int] - old(self).heights_spec()[left as int]
                                + 1) as nat,
                            (old(self).root_height() + 2) as nat,
                        );
                    }
                    let pos = lower_bound(&ppage.keys, k);
                    ppage.keys.insert(pos, k);
                    ppage.children.insert(pos + 1, rid);
                    let ghost pre2a = *self;
                    let mut rrec = match self.buffer_pool.get_page(rid) {
                        Ok(p) => p,
                        Err(_) => {
                            proof {
                                assert(false);
                            }
                            return ;
                        },
                    };
                    proof {
                        Self::lemma_same_shape_pending(pre2a, *self, lid as int, rid as int, k);
                    }
                    rrec.parent_id = Some(pid);
                    let ghost pre2 = *self;
                    proof {
                        Self::lemma_sep_slot(pre2, lid as int, rid as int, k, pid as int);
                        assert(rrec@ == reparent(pre2@[rid as int], pid));
                        assert(node_ok(rrec@, self.order as int));
                        self.lemma_fits(rrec@);
                    }
                    let ghost v0 = self@;
                    match self.buffer_pool.write_page(&rrec) {
                        Ok(_) => {},
                        Err(_) => {
                            proof {
                                assert(false);
                            }
                            return ;
                        },
                    }
                    proof {
                        lemma_contents_update_same(v0, rid as int, rrec@);
                        assert(ppage@.keys == pre2@[pid as int].keys.insert(pos as int, k));
                        assert(ppage@.children == pre2@[pid as int].children.insert(
                            pos as int + 1,
                            rid,
                        ));
                        assert(node_ok(ppage@, self.order as int)) by {
                            lemma_first_geq_props(pre2@[pid as int].keys, k);
                            lemma_sorted_insert(pre2@[pid as int].keys, k);
                            lemma_distinct_insert(
                                pre2@[pid as int].children,
                                pos as int + 1,
                                rid,
                            );
                        }
                        self.lemma_fits(ppage@);
                    }
                    let ghost v1 = self@;
                    match self.buffer_pool.write_page(&ppage) {
                        Ok(_) => {},
                        Err(_) => {
                            proof {
                                assert(false);
                            }
                            return ;
                        },
                    }
                    proof {
                        lemma_contents_update_same(v1, pid as int, ppage@);
                        self.lemma_link_shape(
                            pre2,
                            lid as int,
                            rid as int,
                            pid as int,
                            k,
                            pos as int,
                            ppage@,
                        );
                    }
                    if ppage.keys.len() > self.order - 1 {
                        proof {
                            assert(self@[pid as int].keys.len() == self.order as int);
                        }
                        let (nl, nk, nrr) = self.split_internal_page(pid);
                        lid = nl;
                        k = nk;
                        rid = nrr;
                    } else {
                        proof {
                            self.lemma_wf_from_over(pid as int);
                        }
                        return ;
                    }
                },
            }
        }
    }

    /// Splits the overfull leaf `leaf_id`: the upper half of its keys and
    /// values (from index `len / 2`) moves to a freshly allocated leaf,
    /// which inherits the old next-leaf link while the old leaf now points
    /// at it; the first key of the new leaf is promoted to the parent as
    /// the separator (and stays in the new leaf). Never fails.
    fn split_leaf_page(&mut self, leaf_id: u32)
        requires
            old(self).wf_over(leaf_id as int),
            old(self)@[leaf_id as int].node_type == NodeType::Leaf,
            old(self)@[leaf_id as int].keys.len() == old(self).order_spec(),
            2 * old(self)@.len() <= 0xFFFF_FFFE,
        ensures
            final(self).order_spec() == old(self).order_spec(),
            final(self).capacity_spec() == old(self).capacity_spec(),
            final(self).page_size_spec() == old(self).page_size_spec(),
            final(self).wf(),
            contents(final(self)@) == contents(old(self)@),
            final(self)@.len() >= old(self)@.len() + 1,
            final(self)@.len() <= old(self)@.len() + old(self).root_height() + 2,
            final(self).root_height() <= old(self).root_height() + 1,
            // The halves and the rechained leaf links, as the split fixes
            // them; the upward linking touches no leaf's contents.
            final(self)@[leaf_id as int].keys == old(self)@[leaf_id as int].keys.subrange(
                0,
                old(self).order_spec() / 2,
            ),
            final(self)@[leaf_id as int].values == old(self)@[leaf_id as int].values.subrange(
                0,
                old(self).order_spec() / 2,
            ),
            final(self)@[leaf_id as int].next == Some(old(self)@.len() as u32),
            final(self)@[old(self)@.len() as int].node_type == NodeType::Leaf,
            final(self)@[old(self)@.len() as int].keys == old(self)@[
                leaf_id as int].keys.subrange(old(self).order_spec() / 2, old(self).order_spec()),
            final(self)@[old(self)@.len() as int].values == old(self)@[
                leaf_id as int].values.subrange(old(self).order_spec() / 2, old(self).order_spec()),
            final(self)@[old(self)@.len() as int].next == old(self)@[leaf_id as int].next,
            forall|i: int|
                0 <= i < old(self)@.len() ==> final(self)@[i].node_type == old(self)@[
                    i].node_type,
            forall|i: int|
                0 <= i < old(self)@.len() && i != leaf_id as int && old(self)@[i].node_type
                    == NodeType::Leaf ==> final(self)@[i].keys == old(self)@[i].keys
                    && final(self)@[i].values == old(self)@[i].values && final(self)@[i].next
                    == old(self)@[i].next,
            // Off the split leaf's ancestor chain, only parent links may
            // move.
            forall|i: int|
                0 <= i < old(self)@.len() && !in_parent_chain(
                    old(self)@,
                    leaf_id as int,
                    i,
                    (old(self).root_height() + 2) as nat,
                ) ==> final(self)@[i].keys == old(self)@[i].keys && final(self)@[i].children
                    == old(self)@[i].children && final(self)@[i].values == old(self)@[i].values
                    && final(self)@[i].next == old(self)@[i].next,
    {
        let ghost ps0 = self@;
        let ghost o = self.order as int;
        let ghost x = leaf_id as int;
        let nalloc = match self.buffer_pool.allocate_page(NodeType::Leaf) {
            Ok(p) => p,
            Err(_) => {
                proof {
                    assert(false);
                }
                return ;
            },
        };
        let nl = nalloc.id;
        let ghost bs0 = self.bounds@;
        proof {
            self.heights@ = self.heights@.insert(nl as int, 0);
            self.bounds@ = self.bounds@.insert(
                x,
                (bs0[x].0, Some(ps0[x].keys[o / 2])),
            ).insert(nl as int, (Some(ps0[x].keys[o / 2]), bs0[x].1));
            lemma_contents_push(ps0, blank_page(nl, NodeType::Leaf));
            assert(contents(self@) =~= contents(ps0));
        }
        let lpage = match self.buffer_pool.get_page(leaf_id) {
            Ok(p) => p,
            Err(_) => {
                proof {
                    assert(false);
                }
                return ;
            },
        };
        let mid = self.order / 2;
        let mut lrec = lpage;
        let nkeys = lrec.keys.split_off(mid);
        let nvalues = lrec.values.split_off(mid);
        let up_key = nkeys[0];
        let nrec = PageData {
            id: nl,
            node_type: NodeType::Leaf,
            keys: nkeys,
            children: Vec::new(),
            values: nvalues,
            next: lrec.next,
            parent_id: lrec.parent_id,
        };
        lrec.next = Some(nl);
        proof {
            assert(lrec@.keys =~= ps0[x].keys.subrange(0, mid as int));
            assert(lrec@.values =~= ps0[x].values.subrange(0, mid as int));
            assert(nrec@.keys =~= ps0[x].keys.subrange(mid as int, o));
            assert(nrec@.values =~= ps0[x].values.subrange(mid as int, o));
            assert(up_key == ps0[x].keys[mid as int]);
            assert(node_ok(lrec@, self.order as int)) by {
                lemma_sorted_subrange(ps0[x].keys, 0, mid as int);
            }
            assert(node_ok(nrec@, self.order as int)) by {
                lemma_sorted_subrange(ps0[x].keys, mid as int, o);
            }
            self.lemma_fits(lrec@);
            self.lemma_fits(nrec@);
        }
        let ghost v0 = self@;
        match self.buffer_pool.write_page(&lrec) {
            Ok(_) => {},
            Err(_) => {
                proof {
                    assert(false);
                }
                return ;
            },
        }
        let ghost v1 = self@;
        match self.buffer_pool.write_page(&nrec) {
            Ok(_) => {},
            Err(_) => {
                proof {
                    assert(false);
                }
                return ;
            },
        }
        proof {
            // The pairs are partitioned between the halves, nothing lost.
            assert(ps0[x].id == x as u32);
            assert(v1 == v0.update(x, lrec@));
            assert(self@ == v1.update(nl as int, nrec@));
            lemma_contents_update(v0, x, lrec@);
            lemma_contents_update(v1, nl as int, nrec@);
            lemma_kv_split(ps0[x].keys, ps0[x].values, mid as int);
            assert(v0[x] == ps0[x]);
            assert(page_pairs(v1[nl as int]) == Multiset::<(i32, u64)>::empty());
            assert forall|e: (i32, u64)| contents(self@).count(e) == contents(
                old(self)@,
            ).count(e) by {
                assert(contents(v1).add(page_pairs(v0[x])).count(e) == contents(v0).add(
                    page_pairs(lrec@),
                ).count(e));
                assert(contents(self@).add(page_pairs(v1[nl as int])).count(e) == contents(
                    v1,
                ).add(page_pairs(nrec@)).count(e));
                assert(page_pairs(v0[x]).count(e) == kv_pairs(
                    lrec@.keys,
                    lrec@.values,
                ).add(kv_pairs(nrec@.keys, nrec@.values)).count(e));
                assert(contents(v0).count(e) == contents(old(self)@).count(e));
            }
            assert(contents(self@) =~= contents(old(self)@));
            self.lemma_split_leaf_shape(*old(self), x, lrec@, nrec@);
            match self.root {
                Some(r) => {
                    assert(self.page_ok(r as int));
                },
                None => {},
            }
        }
        let ghost vsplit = self@;
        let ghost rh = old(self).root_height();
        proof {
            // Old parent links survive the local split, and stay within the
            // old pages.
            assert forall|j: int| 0 <= j < ps0.len() implies (#[trigger] vsplit[j]).parent_id
                == ps0[j].parent_id by {
                if j != x && j != nl as int {
                    assert(vsplit[j] == ps0[j]);
                }
            }
            assert forall|j: int| 0 <= j < ps0.len() implies ((#[trigger] ps0[j]).parent_id
                matches Some(p) ==> 0 <= p < ps0.len()) by {
                assert(old(self).page_ok(j) || j == x);
                assert(links_ok(ps0, old(self).heights@, old(self).root, j));
            }
        }
        self.insert_into_parent(leaf_id, up_key, nl);
        proof {
            assert(contents(self@) == contents(old(self)@));
            assert forall|i: int|
                0 <= i < ps0.len() && !in_parent_chain(ps0, x, i, (rh + 2) as nat)
                implies self@[i].keys == ps0[i].keys && self@[i].children == ps0[i].children
                && self@[i].values == ps0[i].values && self@[i].next == ps0[i].next by {
                assert(!in_parent_chain(vsplit, x, i, (rh + 2) as nat)) by {
                    if in_parent_chain(vsplit, x, i, (rh + 2) as nat) {
                        lemma_chain_frame_rev(ps0, vsplit, x, i, (rh + 2) as nat);
                    }
                }
                assert(i != x && i != nl as int);
                assert(vsplit[i] == ps0[i]);
            }
            // The halves survive the upward linking untouched.
            assert(self@[x].keys == vsplit[x].keys && self@[x].values == vsplit[x].values
                && self@[x].next == vsplit[x].next);
            assert(self@[nl as int].keys == vsplit[nl as int].keys && self@[nl as int].values
                == vsplit[nl as int].values && self@[nl as int].next == vsplit[nl as int].next);
            assert forall|i: int|
                0 <= i < ps0.len() implies self@[i].node_type == ps0[i].node_type && (i != x
                && ps0[i].node_type == NodeType::Leaf ==> self@[i].keys == ps0[i].keys
                && self@[i].values == ps0[i].values && self@[i].next == ps0[i].next) by {
                assert(vsplit[i].node_type == ps0[i].node_type);
                if i != x && i != nl as int {
                    assert(vsplit[i] == ps0[i]);
                }
            }
        }
    }

    /// Inserts a key/value pair. On an empty tree, a fresh leaf holding
    /// exactly the pair becomes the root. Otherwise the pair goes into the
    /// leaf that routing reaches, at its sorted position; `DuplicateKey`
    /// comes back, with nothing changed, exactly when that leaf already
    /// holds the key. An overfull leaf is split and the separator propagates
    /// upward; success is owed whenever the key is no duplicate. `Io` comes
    /// back, with nothing changed, exactly when the page count has grown
    /// past the point where an insert could exhaust the 32-bit id space. On
    /// success the stored pairs grow by exactly the new pair, and no other
    /// leaf's contents or chain link moves.
    pub fn insert(&mut self, key: Key, value: Value) -> (r: Result<(), Error>)
        requires
            old(self).wf(),
        ensures
            final(self).order_spec() == old(self).order_spec(),
            final(self).capacity_spec() == old(self).capacity_spec(),
            final(self).page_size_spec() == old(self).page_size_spec(),
            final(self).wf(),
            // Success is owed: the only failures are the id-space guard and
            // a duplicate key.
            r is Ok <==> !(r == Err::<(), Error>(Error::Io) || r == Err::<(), Error>(
                Error::DuplicateKey,
            )),
            old(self).root_spec() is None ==> {
                &&& r is Ok
                &&& final(self)@.len() == 1
                &&& final(self).root_spec() == Some(0u32)
                &&& final(self)@[0].node_type == NodeType::Leaf
                &&& final(self)@[0].keys == seq![key]
                &&& final(self)@[0].values == seq![value]
                &&& final(self)@[0].next is None
                &&& final(self)@[0].parent_id is None
            },
            (r == Err::<(), Error>(Error::Io)) <==> (old(self).root_spec() is Some
                && old(self)@.len() > MAX_PAGES_FOR_INSERT as int),
            r == Err::<(), Error>(Error::Io) ==> {
                &&& final(self)@ == old(self)@
                &&& final(self).root_spec() == old(self).root_spec()
                &&& final(self).heights_spec() == old(self).heights_spec()
            },
            (old(self).root_spec() is Some && old(self)@.len() <= MAX_PAGES_FOR_INSERT as int)
                ==> ((r == Err::<(), Error>(Error::DuplicateKey)) <==> leaf_lookup(
                old(self)@[old(self).routed_leaf(key)],
                key,
            ) is Some),
            r == Err::<(), Error>(Error::DuplicateKey) ==> {
                &&& final(self)@ == old(self)@
                &&& final(self).root_spec() == old(self).root_spec()
                &&& final(self).heights_spec() == old(self).heights_spec()
            },
            r is Ok ==> contents(final(self)@) == contents(old(self)@).insert((key, value)),
            // Growth is bounded: one page per level, a fresh sibling and at
            // most one new root — so a caller can track the page count and
            // rule out the id-space guard.
            r is Ok ==> final(self)@.len() <= old(self)@.len() + old(self).root_height() + 2,
            final(self).root_height() <= old(self).root_height() + 1,
            !(r is Ok) ==> final(self).root_height() == old(self).root_height(),
            // The key is immediately searchable with the inserted value.
            r is Ok ==> leaf_lookup(final(self)@[final(self).routed_leaf(key)], key) == Some(
                value,
            ),
            // Frame: an insert never changes a page's kind, and touches no
            // leaf besides the one that routing selected (and, on a split,
            // its fresh sibling).
            forall|i: int|
                0 <= i < old(self)@.len() ==> final(self)@[i].node_type == old(self)@[
                    i].node_type,
            forall|i: int|
                0 <= i < old(self)@.len() && i != old(self).routed_leaf(key) && old(self)@[
                    i].node_type == NodeType::Leaf ==> final(self)@[i].keys == old(self)@[
                    i].keys && final(self)@[i].values == old(self)@[i].values && final(self)@[i].next == old(self)@[i].next,
    {
        match self.root {
            None => {
                // Empty tree: a fresh leaf with the single pair becomes root.
                let mut leaf = match self.buffer_pool.allocate_page(NodeType::Leaf) {
                    Ok(p) => p,
                    Err(_) => {
                        proof {
                            assert(false);
                        }
                        return Err(Error::Io);
                    },
                };
                leaf.keys.push(key);
                leaf.values.push(value);
                proof {
                    self.heights@ = self.heights@.insert(0, 0);
                    self.bounds@ = self.bounds@.insert(
                        0,
                        (Option::<i32>::None, Option::<i32>::None),
                    );
                    assert(leaf@.keys =~= seq![key]);
                    assert(leaf@.values =~= seq![value]);
                    assert(node_ok(leaf@, self.order as int));
                    self.lemma_fits(leaf@);
                }
                let ghost v0 = self@;
                match self.buffer_pool.write_page(&leaf) {
                    Ok(_) => {},
                    Err(_) => {
                        proof {
                            assert(false);
                        }
                        return Err(Error::RecordTooLarge);
                    },
                }
                self.root = Some(leaf.id);
                proof {
                    assert(self@.len() == 1);
                    assert(self@[0] == leaf@);
                    assert forall|i: int| 0 <= i < self@.len() implies self.page_ok(i) by {
                        assert(i == 0);
                    }
                    assert(self.routed_leaf(key) == 0);
                    assert(first_geq(leaf@.keys, key) == 0);
                    assert(leaf_lookup(self@[0], key) == Some(value));
                    assert(contents(self@) =~= contents(old(self)@).insert((key, value))) by {
                        assert(contents(old(self)@) =~= Multiset::empty());
                        assert(contents(v0) =~= Multiset::<(i32, u64)>::empty()) by {
                            lemma_contents_push(old(self)@, blank_page(0u32, NodeType::Leaf));
                            assert(v0 == old(self)@.push(blank_page(0u32, NodeType::Leaf)));
                            assert(page_pairs(blank_page(0u32, NodeType::Leaf)) =~= Multiset::<
                                (i32, u64),
                            >::empty());
                        }
                        lemma_contents_update(v0, 0, leaf@);
                        assert(kv_pairs(leaf@.keys, leaf@.values) =~= Multiset::empty().insert(
                            (key, value),
                        )) by {
                            assert(leaf@.keys.drop_last() =~= Seq::<i32>::empty());
                            assert(leaf@.values.drop_last() =~= Seq::<u64>::empty());
                        }
                        assert forall|e: (i32, u64)| contents(self@).count(e) == contents(
                            old(self)@,
                        ).insert((key, value)).count(e) by {
                            assert(contents(self@).add(page_pairs(v0[0])).count(e) == contents(
                                v0,
                            ).add(page_pairs(leaf@)).count(e));
                        }
                    }
                }
                Ok(())
            },
            Some(_) => {
                let n = self.buffer_pool.num_pages();
                if n > MAX_PAGES_FOR_INSERT {
                    return Err(Error::Io);
                }
                let leaf_id = self.find_leaf_page(key);
                let ghost preg = *self;
                let page = match self.buffer_pool.get_page(leaf_id) {
                    Ok(p) => p,
                    Err(_) => {
                        proof {
                            assert(false);
                        }
                        return Err(Error::CorruptPage);
                    },
                };
                proof {
                    Self::lemma_same_shape_wf(preg, *self);
                    assert(self.page_ok(leaf_id as int));
                }
                let pos = lower_bound(&page.keys, key);
                if pos < page.keys.len() {
                    let there = page.keys[pos];
                    if there == key {
                        return Err(Error::DuplicateKey);
                    }
                }
                let mut rec = page;
                rec.keys.insert(pos, key);
                rec.values.insert(pos, value);
                let ghost pre1 = *self;
                proof {
                    assert(rec@.keys == pre1@[leaf_id as int].keys.insert(pos as int, key));
                    assert(rec@.values == pre1@[leaf_id as int].values.insert(pos as int, value));
                    assert(node_ok(rec@, self.order as int)) by {
                        lemma_first_geq_props(pre1@[leaf_id as int].keys, key);
                        lemma_sorted_insert(pre1@[leaf_id as int].keys, key);
                        pre1@[leaf_id as int].keys.insert_ensures(pos as int, key);
                        pre1@[leaf_id as int].values.insert_ensures(pos as int, value);
                    }
                    self.lemma_fits(rec@);
                }
                let ghost v0 = self@;
                match self.buffer_pool.write_page(&rec) {
                    Ok(_) => {},
                    Err(_) => {
                        proof {
                            assert(false);
                        }
                        return Err(Error::RecordTooLarge);
                    },
                }
                proof {
                    assert(v0[leaf_id as int].id == leaf_id);
                    assert(self@ == v0.update(leaf_id as int, rec@));
                    lemma_contents_update(v0, leaf_id as int, rec@);
                    lemma_kv_insert(
                        v0[leaf_id as int].keys,
                        v0[leaf_id as int].values,
                        pos as int,
                        key,
                        value,
                    );
                    assert forall|e: (i32, u64)| contents(self@).count(e) == contents(
                        old(self)@,
                    ).insert((key, value)).count(e) by {
                        assert(contents(self@).add(page_pairs(v0[leaf_id as int])).count(e)
                            == contents(v0).add(page_pairs(rec@)).count(e));
                        assert(page_pairs(rec@).count(e) == page_pairs(
                            v0[leaf_id as int],
                        ).insert((key, value)).count(e));
                    }
                    assert(contents(self@) =~= contents(old(self)@).insert((key, value)));
                    self.lemma_leaf_insert_shape(pre1, leaf_id as int, key, pos as int, rec@);
                }
                if rec.keys.len() > self.order - 1 {
                    proof {
                        assert(self@[leaf_id as int].keys.len() == self.order as int);
                    }
                    let ghost vover = self@;
                    let ghost rh2 = old(self).root_height();
                    proof {
                        assert forall|j: int| 0 <= j < old(self)@.len() implies (
                        #[trigger] vover[j]).parent_id == old(self)@[j].parent_id by {
                            if j != leaf_id as int {
                                assert(vover[j] == old(self)@[j]);
                            }
                        }
                        assert forall|j: int| 0 <= j < old(self)@.len() implies ((
                        #[trigger] old(self)@[j]).parent_id matches Some(p) ==> 0 <= p < old(
                            self,
                        )@.len()) by {
                            assert(old(self).page_ok(j));
                            assert(links_ok(
                                old(self)@,
                                old(self).heights_spec(),
                                old(self).root_spec(),
                                j,
                            ));
                        }
                    }
                    self.split_leaf_page(leaf_id);
                    proof {
                        assert(contents(self@).count((key, value)) > 0);
                        self.lemma_stored_pair_is_found(key, value);
                        // Off the descent path nothing but parent links
                        // moved: the routed leaf is the chain's base, and
                        // the chain reads the same parent links before and
                        // after the leaf filled up.
                        assert forall|i: int|
                            0 <= i < old(self)@.len() && !old(self).on_insert_path(key, i)
                            implies self@[i].keys == old(self)@[i].keys && self@[i].children
                            == old(self)@[i].children && self@[i].values == old(self)@[i].values
                            && self@[i].next == old(self)@[i].next by {
                            let ll = leaf_id as int;
                            assert(in_parent_chain(old(self)@, ll, ll, (rh2 + 2) as nat));
                            assert(i != ll);
                            assert(!in_parent_chain(vover, ll, i, (rh2 + 2) as nat)) by {
                                if in_parent_chain(vover, ll, i, (rh2 + 2) as nat) {
                                    lemma_chain_frame_rev(
                                        old(self)@,
                                        vover,
                                        ll,
                                        i,
                                        (rh2 + 2) as nat,
                                    );
                                }
                            }
                            assert(vover[i] == old(self)@[i]);
                        }
                        // Compose the frames: before the split only the
                        // routed leaf had changed.
                        assert forall|i: int|
                            0 <= i < old(self)@.len() implies self@[i].node_type == old(
                            self,
                        )@[i].node_type && (i != leaf_id as int && old(self)@[i].node_type
                            == NodeType::Leaf ==> self@[i].keys == old(self)@[i].keys
                            && self@[i].values == old(self)@[i].values && self@[i].next == old(
                            self,
                        )@[i].next) by {
                            assert(vover[i].node_type == old(self)@[i].node_type);
                            if i != leaf_id as int {
                                assert(vover[i] == old(self)@[i]);
                            }
                        }
                    }
                    Ok(())
                } else {
                    proof {
                        self.lemma_wf_from_over(leaf_id as int);
                        assert(contents(self@).count((key, value)) > 0);
                        self.lemma_stored_pair_is_found(key, value);
                        assert(old(self).on_insert_path(key, leaf_id as int));
                    }
                    Ok(())
                }
            },
        }
    }

    /// Point search. Returns the value stored for `key` in the leaf that
    /// routing reaches, or `None` — in particular, always `None` on an empty
    /// tree. Never fails; the tree and the store are unchanged.
    pub fn search(&mut self, key: Key) -> (r: Result<Option<Value>, Error>)
        requires
            old(self).wf(),
        ensures
            final(self).wf(),
            final(self)@ == old(self)@,
            final(self).root_spec() == old(self).root_spec(),
            final(self).order_spec() == old(self).order_spec(),
            final(self).heights_spec() == old(self).heights_spec(),
            final(self).bounds_spec() == old(self).bounds_spec(),
            final(self).root_height() == old(self).root_height(),
            final(self).capacity_spec() == old(self).capacity_spec(),
            final(self).page_size_spec() == old(self).page_size_spec(),
            match r {
                Ok(opt) => match old(self).root_spec() {
                    None => opt is None,
                    Some(_) => {
                        &&& 0 <= old(self).routed_leaf(key) < old(self)@.len()
                        &&& old(self)@[old(self).routed_leaf(key)].node_type == NodeType::Leaf
                        &&& opt == leaf_lookup(old(self)@[old(self).routed_leaf(key)], key)
                    },
                },
                Err(_) => false,
            },
    {
        match self.root {
            None => Ok(None),
            Some(_) => {
                let leaf_id = self.find_leaf_page(key);
                let ghost pre = *self;
                let page = match self.buffer_pool.get_page(leaf_id) {
                    Ok(p) => p,
                    Err(_) => {
                        proof {
                            assert(false);
                        }
                        return Ok(None);
                    },
                };
                proof {
                    Self::lemma_same_shape_wf(pre, *self);
                    assert(self.page_ok(leaf_id as int));
                }
                let pos = lower_bound(&page.keys, key);
                if pos < page.keys.len() {
                    let found = page.keys[pos];
                    if found == key {
                        return Ok(Some(page.values[pos]));
                    }
                }
                Ok(None)
            },
        }
    }
}

} // verus!
