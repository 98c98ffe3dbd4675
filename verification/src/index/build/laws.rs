//! What holds of an index that was built: it can be searched, and searching it finds the nearest
//! of the vectors that it was built from.

use vstd::prelude::*;
use vstd::arithmetic::power2::pow2;
use crate::index::build::encode::{table_holds_listed_risks, table_risk};
use crate::index::build::grow::{
    box_high, box_low, fits_leaf, high, is_order, lemma_tree_sizes, low, tree_nodes, tree_slots,
    widest, Input,
};
use crate::index::build::parts::{lemma_bases, lemma_bucket, lemma_bucket_has, KEYS};
use crate::index::build::is_index_file;
use crate::consts::listed_risk;
use crate::index::distance::{distance, in_box, key_of, EARLY_DISTANCE_LIMIT};
use crate::index::early::{early_result, early_result_is_near};
use crate::index::exact::hunt_result_is_nearest;
use crate::index::format::{forest_of, mcc_entry};
use crate::index::hunt::hunt_result;
use crate::index::model::{Forest, Slot};
use crate::index::nearest::{is_close_count, is_nearest_count, labels_of, nearest, picks};
use crate::index::reader::is_searchable;
use crate::index::repeat::{are_closest, closest_are_counted};
use crate::index::search::fraud_result;
use crate::index::shortlist::label_sum;
use crate::index::stats::QueryStats;
use crate::index::tree::{shallow, STACK_ROOM};
use crate::{DIM, K, STORE_DIM};

verus! {

/// Whether every label is a known one.
pub open spec fn labels_known(inp: Input) -> bool {
    &&& inp.labels.len() == inp.vectors.len()
    &&& forall|i: int| 0 <= i < inp.labels.len() ==> #[trigger] inp.labels[i] <= 1
}

/// A box holds the vectors that it was made for.
proof fn lemma_bounds(vs: Seq<[i16; STORE_DIM]>, ids: Seq<int>, d: int, k: int)
    requires
        0 <= k < ids.len(),
    ensures
        low(vs, ids, d) <= vs[ids[k]]@[d] <= high(vs, ids, d),
    decreases ids.len(),
{
    if k < ids.len() - 1 {
        lemma_bounds(vs, ids.drop_last(), d, k);
    }
}

/// A vector lies in the box of a group that it belongs to.
pub proof fn lemma_slot_boxed(inp: Input, ids: Seq<int>, i: int)
    requires
        ids.contains(i),
    ensures
        in_box(inp.slot(i).vec, box_low(inp.vectors, ids), box_high(inp.vectors, ids)),
{
    let k = choose|k: int| 0 <= k < ids.len() && ids[k] == i;
    let lo = box_low(inp.vectors, ids);
    let hi = box_high(inp.vectors, ids);
    let v = inp.slot(i).vec;
    assert forall|d: int| 0 <= d < DIM implies lo[d] <= #[trigger] v[d] <= hi[d] by {
        lemma_bounds(inp.vectors, ids, d, k);
    }
}

/// The slots of some vectors.
pub open spec fn slots_of(inp: Input, order: Seq<int>) -> Seq<Slot> {
    order.map_values(|i: int| inp.slot(i))
}

/// A tree holds its vectors, in some order.
proof fn lemma_tree_points(
    inp: Input,
    leaf: int,
    f: Forest,
    i: int,
    at: int,
    ids: Seq<int>,
) -> (order: Seq<int>)
    requires
        leaf >= 1,
        inp.is_tree(leaf, f, i, at, ids),
        0 <= i,
        0 <= at,
        at % 8 == 0,
        i + tree_nodes(leaf, ids.len() as int) <= f.nodes.len(),
        at + tree_slots(leaf, ids.len() as int) <= f.slots.len(),
    ensures
        order.to_multiset() == ids.to_multiset(),
        f.points(i) == slots_of(inp, order),
    decreases ids.len(),
{
    let n = f.nodes[i];
    let len = ids.len() as int;
    if fits_leaf(leaf, len) {
        assert(n.first() == at);
        lemma_leaf_points(inp, f, i, at, ids);
        ids
    } else {
        let mid = len / 2;
        lemma_tree_sizes(leaf, mid);
        lemma_tree_sizes(leaf, len - mid);
        let d = widest(n.min, n.max, DIM as int);
        let ord = choose|ord: Seq<int>| #[trigger]
            is_order(inp.vectors, ids, d, ord) && inp.is_tree(leaf, f, i + 1, at, ord.take(mid))
                && inp.is_tree(
                leaf,
                f,
                i + 1 + tree_nodes(leaf, mid),
                at + tree_slots(leaf, mid),
                ord.skip(mid),
            );
        let a = lemma_tree_points(inp, leaf, f, i + 1, at, ord.take(mid));
        let b = lemma_tree_points(
            inp,
            leaf,
            f,
            i + 1 + tree_nodes(leaf, mid),
            at + tree_slots(leaf, mid),
            ord.skip(mid),
        );
        lemma_halves(inp, ids, ord, mid, a, b);
        assert(f.points(i) == f.points(n.left as int) + f.points(n.right as int));
        a + b
    }
}

/// What holds the two halves of an order holds the whole.
proof fn lemma_halves(inp: Input, ids: Seq<int>, ord: Seq<int>, mid: int, a: Seq<int>, b: Seq<int>)
    requires
        0 <= mid <= ord.len(),
        ord.to_multiset() == ids.to_multiset(),
        a.to_multiset() == ord.take(mid).to_multiset(),
        b.to_multiset() == ord.skip(mid).to_multiset(),
    ensures
        (a + b).to_multiset() == ids.to_multiset(),
        slots_of(inp, a + b) == slots_of(inp, a) + slots_of(inp, b),
{
    vstd::seq_lib::lemma_multiset_commutative(a, b);
    vstd::seq_lib::lemma_multiset_commutative(ord.take(mid), ord.skip(mid));
    assert(ord.take(mid) + ord.skip(mid) =~= ord);
    assert(slots_of(inp, a + b) =~= slots_of(inp, a) + slots_of(inp, b));
}

/// A leaf holds its vectors.
proof fn lemma_leaf_points(inp: Input, f: Forest, i: int, at: int, ids: Seq<int>)
    requires
        f.has_node(i),
        f.nodes[i].is_leaf(),
        f.nodes[i].first() == at,
        f.nodes[i].len == ids.len(),
        0 <= at,
        inp.is_leaf(f.slots, at, ids),
    ensures
        f.points(i) == slots_of(inp, ids),
{
    let len = ids.len() as int;
    assert(f.points(i) == f.slots.subrange(at, at + len));
    assert forall|k: int| 0 <= k < len implies f.slots[at + k] == #[trigger] slots_of(
        inp,
        ids,
    )[k] by {}
    assert(f.points(i) =~= slots_of(inp, ids));
}

/// The depth of a tree of `n` vectors.
spec fn tree_depth(leaf: int, n: int) -> nat
    decreases n,
{
    if fits_leaf(leaf, n) {
        0
    } else {
        let a = tree_depth(leaf, n / 2);
        let b = tree_depth(leaf, n - n / 2);
        1 + if a <= b {
            b
        } else {
            a
        }
    }
}

proof fn lemma_tree_depth(leaf: int, n: int, k: nat)
    requires
        leaf >= 1,
        n <= pow2(k),
    ensures
        tree_depth(leaf, n) <= k,
    decreases n,
{
    if !fits_leaf(leaf, n) {
        if k == 0 {
            vstd::arithmetic::power2::lemma2_to64();
        } else {
            vstd::arithmetic::power2::lemma_pow2_unfold(k);
            lemma_tree_depth(leaf, n / 2, (k - 1) as nat);
            lemma_tree_depth(leaf, n - n / 2, (k - 1) as nat);
        }
    }
}

/// The nodes of a tree can be searched, and their boxes are right.
#[verifier::rlimit(60)]
proof fn lemma_tree_node(
    inp: Input,
    leaf: int,
    f: Forest,
    i: int,
    at: int,
    ids: Seq<int>,
    j: int,
)
    requires
        leaf >= 1,
        labels_known(inp),
        inp.has_all(ids),
        inp.is_tree(leaf, f, i, at, ids),
        0 <= i,
        0 <= at,
        at % 8 == 0,
        i + tree_nodes(leaf, ids.len() as int) <= f.nodes.len(),
        at + tree_slots(leaf, ids.len() as int) <= f.slots.len(),
        i <= j < i + tree_nodes(leaf, ids.len() as int),
    ensures
        f.node_ok(j),
        f.boxed(j),
        f.depth(j) <= tree_depth(leaf, ids.len() as int),
    decreases ids.len(),
{
    let n = f.nodes[i];
    let len = ids.len() as int;
    lemma_tree_sizes(leaf, len);
    if j == i {
        let order = lemma_tree_points(inp, leaf, f, i, at, ids);
        order.to_multiset_ensures();
        ids.to_multiset_ensures();
        assert forall|k: int| 0 <= k < f.points(i).len() implies in_box(
            (#[trigger] f.points(i)[k]).vec,
            n.min,
            n.max,
        ) by {
            assert(order.contains(order[k]));
            assert(order.to_multiset().count(order[k]) > 0);
            assert(ids.to_multiset().count(order[k]) > 0);
            lemma_slot_boxed(inp, ids, order[k]);
        }
    }
    if fits_leaf(leaf, len) {
        assert(n.first() == at);
        assert forall|s: int| n.first() <= s < n.first() + n.len implies (
        #[trigger] f.slots[s]).label <= 1 by {
            assert(inp.has_all(ids));
            assert(0 <= ids[s - at] < inp.vectors.len());
            assert(inp.labels[ids[s - at]] <= 1);
        }
    } else {
        let mid = len / 2;
        lemma_tree_sizes(leaf, mid);
        lemma_tree_sizes(leaf, len - mid);
        let d = widest(n.min, n.max, DIM as int);
        let ord = choose|ord: Seq<int>| #[trigger]
            is_order(inp.vectors, ids, d, ord) && inp.is_tree(leaf, f, i + 1, at, ord.take(mid))
                && inp.is_tree(
                leaf,
                f,
                i + 1 + tree_nodes(leaf, mid),
                at + tree_slots(leaf, mid),
                ord.skip(mid),
            );
        let r = i + 1 + tree_nodes(leaf, mid);
        let rat = at + tree_slots(leaf, mid);
        ord.to_multiset_ensures();
        ids.to_multiset_ensures();
        assert forall|k: int| 0 <= k < ord.len() implies 0 <= #[trigger] ord[k]
            < inp.vectors.len() by {
            assert(ord.contains(ord[k]));
            assert(ord.to_multiset().count(ord[k]) > 0);
            assert(ids.to_multiset().count(ord[k]) > 0);
            let m = choose|m: int| 0 <= m < ids.len() && ids[m] == ord[k];
        }
        assert(inp.has_all(ord.take(mid)));
        assert(inp.has_all(ord.skip(mid)));
        if j == i {
            lemma_tree_node(inp, leaf, f, i + 1, at, ord.take(mid), i + 1);
            lemma_tree_node(inp, leaf, f, r, rat, ord.skip(mid), r);
        } else if j < r {
            lemma_tree_node(inp, leaf, f, i + 1, at, ord.take(mid), j);
        } else {
            lemma_tree_node(inp, leaf, f, r, rat, ord.skip(mid), j);
        }
    }
}

/// Every node belongs to the tree of a key.
proof fn lemma_node_key(inp: Input, leaf: int, keys: int, j: int) -> (key: int)
    requires
        0 <= keys,
        0 <= j < inp.node_base(leaf, keys),
    ensures
        0 <= key < keys,
        inp.bucket(key).len() > 0,
        inp.node_base(leaf, key) <= j < inp.node_base(leaf, key) + tree_nodes(
            leaf,
            inp.bucket(key).len() as int,
        ),
    decreases keys,
{
    if j < inp.node_base(leaf, keys - 1) {
        lemma_node_key(inp, leaf, keys - 1, j)
    } else {
        keys - 1
    }
}

/// Every partition belongs to a key.
proof fn lemma_part_key(inp: Input, keys: int, p: int) -> (key: int)
    requires
        0 <= keys,
        0 <= p < inp.part_base(keys),
    ensures
        0 <= key < keys,
        inp.bucket(key).len() > 0,
        inp.part_base(key) == p,
    decreases keys,
{
    if p < inp.part_base(keys - 1) {
        lemma_part_key(inp, keys - 1, p)
    } else {
        keys - 1
    }
}

/// The facts about the tree of a key that the others rest on.
proof fn lemma_key_tree(inp: Input, leaf: int, f: Forest, key: int)
    requires
        inp.is_index(leaf, f),
        0 <= key < KEYS,
        inp.bucket(key).len() > 0,
    ensures
        inp.part_ok(leaf, f, key),
        inp.has_all(inp.bucket(key)),
        inp.slot_base(leaf, key) % 8 == 0,
        0 <= inp.node_base(leaf, key),
        0 <= inp.slot_base(leaf, key),
        inp.node_base(leaf, key) + tree_nodes(leaf, inp.bucket(key).len() as int) <= f.nodes.len(),
        inp.slot_base(leaf, key) + tree_slots(leaf, inp.bucket(key).len() as int) <= f.slots.len(),
{
    lemma_bases(inp, leaf, key, key);
    lemma_bases(inp, leaf, key + 1, KEYS as int);
    lemma_bucket(inp, key, inp.vectors.len() as int);
}

/// An index that was built can be searched: its trees are sound, its boxes are right, and its trees
/// are shallow.
pub proof fn built_index_is_sound(inp: Input, leaf: int, f: Forest)
    requires
        leaf >= 1,
        labels_known(inp),
        inp.is_index(leaf, f),
    ensures
        f.wf(),
        f.boxes_ok(),
        shallow(f),
{
    assert forall|j: int| 0 <= j < f.nodes.len() implies #[trigger] f.node_ok(j) && f.boxed(j)
        && f.depth(j) <= STACK_ROOM by {
        let key = lemma_node_key(inp, leaf, KEYS as int, j);
        lemma_key_tree(inp, leaf, f, key);
        let ids = inp.bucket(key);
        lemma_tree_node(
            inp,
            leaf,
            f,
            inp.node_base(leaf, key),
            inp.slot_base(leaf, key),
            ids,
            j,
        );
        vstd::arithmetic::power2::lemma2_to64();
        assert(ids.len() <= pow2(31)) by {
            assert(f.nodes[inp.node_base(leaf, key)].len == ids.len());
        }
        lemma_tree_depth(leaf, ids.len() as int, 31);
    }
    assert forall|j: int| 0 <= j < f.nodes.len() implies #[trigger] f.boxed(j) by {
        assert(f.node_ok(j));
    }
    assert forall|j: int| 0 <= j < f.nodes.len() implies #[trigger] f.depth(j) <= STACK_ROOM by {
        assert(f.node_ok(j));
    }
    assert forall|p: int| 0 <= p < f.parts.len() implies #[trigger] f.part_boxed(p) by {
        let key = lemma_part_key(inp, KEYS as int, p);
        lemma_key_tree(inp, leaf, f, key);
        let root = inp.node_base(leaf, key);
        lemma_tree_sizes(leaf, inp.bucket(key).len() as int);
        assert(f.boxed(root));
    }
}

/// Whether `order` numbers the vectors with a key below `keys`, each once.
spec fn numbers_all(inp: Input, order: Seq<int>, keys: int) -> bool {
    &&& order.no_duplicates()
    &&& forall|k: int|
        0 <= k < order.len() ==> 0 <= #[trigger] order[k] < inp.vectors.len() && key_of(
            inp.vectors[order[k]]@,
        ) < keys
    &&& forall|i: int|
        0 <= i < inp.vectors.len() && key_of(inp.vectors[i]@) < keys ==> #[trigger] order.contains(
            i,
        )
}

/// The partitions hold the vectors, each once.
proof fn lemma_all_points(inp: Input, leaf: int, f: Forest, keys: int) -> (order: Seq<int>)
    requires
        leaf >= 1,
        inp.is_index(leaf, f),
        0 <= keys <= KEYS,
    ensures
        f.points_before(inp.part_base(keys)) == slots_of(inp, order),
        numbers_all(inp, order, keys),
    decreases keys,
{
    if keys == 0 {
        let none = Seq::<int>::empty();
        assert(f.points_before(0) =~= slots_of(inp, none));
        none
    } else {
        let key = keys - 1;
        let before = lemma_all_points(inp, leaf, f, key);
        let ids = inp.bucket(key);
        let n = inp.vectors.len() as int;
        lemma_bucket(inp, key, n);
        if ids.len() == 0 {
            assert forall|i: int|
                0 <= i < inp.vectors.len() && key_of(inp.vectors[i]@)
                    < keys implies #[trigger] before.contains(i) by {
                if key_of(inp.vectors[i]@) == key {
                    lemma_bucket_has(inp, i, n);
                }
            }
            before
        } else {
            lemma_key_tree(inp, leaf, f, key);
            lemma_bases(inp, leaf, key, key);
            let t = lemma_tree_points(
                inp,
                leaf,
                f,
                inp.node_base(leaf, key),
                inp.slot_base(leaf, key),
                ids,
            );
            let order = before + t;
            t.to_multiset_ensures();
            ids.to_multiset_ensures();
            ids.lemma_multiset_has_no_duplicates();
            t.lemma_multiset_has_no_duplicates_conv();
            assert forall|k: int| 0 <= k < t.len() implies 0 <= #[trigger] t[k] < n && key_of(
                inp.vectors[t[k]]@,
            ) == key by {
                assert(t.contains(t[k]));
                assert(t.to_multiset().count(t[k]) > 0);
                assert(ids.to_multiset().count(t[k]) > 0);
                let m = choose|m: int| 0 <= m < ids.len() && ids[m] == t[k];
            }
            assert(order.no_duplicates()) by {
                assert forall|a: int, b: int|
                    0 <= a < order.len() && 0 <= b < order.len() && a != b implies order[a]
                    != order[b] by {
                    if a < before.len() && b >= before.len() {
                        assert(order[a] == before[a] && order[b] == t[b - before.len()]);
                    } else if b < before.len() && a >= before.len() {
                        assert(order[b] == before[b] && order[a] == t[a - before.len()]);
                    } else if a >= before.len() {
                        assert(order[a] == t[a - before.len()] && order[b] == t[b
                            - before.len()]);
                    }
                }
            }
            assert forall|k: int| 0 <= k < order.len() implies 0 <= #[trigger] order[k] < n
                && key_of(inp.vectors[order[k]]@) < keys by {
                if k < before.len() {
                    assert(order[k] == before[k]);
                } else {
                    assert(order[k] == t[k - before.len()]);
                }
            }
            assert forall|i: int|
                0 <= i < inp.vectors.len() && key_of(inp.vectors[i]@)
                    < keys implies #[trigger] order.contains(i) by {
                if key_of(inp.vectors[i]@) == key {
                    lemma_bucket_has(inp, i, n);
                    assert(ids.to_multiset().count(i) > 0);
                    assert(t.to_multiset().count(i) > 0);
                    let m = choose|m: int| 0 <= m < t.len() && t[m] == i;
                    assert(order[before.len() + m] == i);
                } else {
                    assert(before.contains(i));
                    let m = choose|m: int| 0 <= m < before.len() && before[m] == i;
                    assert(order[m] == i);
                }
            }
            assert(slots_of(inp, order) =~= slots_of(inp, before) + slots_of(inp, t));
            order
        }
    }
}

/// Whether `order` lists the numbers of `n` vectors, each once.
pub open spec fn is_reordering(order: Seq<int>, n: int) -> bool {
    &&& order.no_duplicates()
    &&& forall|k: int| 0 <= k < order.len() ==> 0 <= #[trigger] order[k] < n
    &&& forall|i: int| 0 <= i < n ==> #[trigger] order.contains(i)
}

/// The slots of an index that a search can reach are the vectors that it was built from, each
/// once.
pub proof fn built_index_holds_its_vectors(inp: Input, leaf: int, f: Forest) -> (order: Seq<int>)
    requires
        leaf >= 1,
        inp.is_index(leaf, f),
    ensures
        is_reordering(order, inp.vectors.len() as int),
        f.all_points() == slots_of(inp, order),
{
    let order = lemma_all_points(inp, leaf, f, KEYS as int);
    assert forall|i: int| 0 <= i < inp.vectors.len() implies #[trigger] order.contains(i) by {
        assert(key_of(inp.vectors[i]@) < KEYS);
    }
    order
}

/// A choice among reordered slots is a choice among the slots.
proof fn lemma_reordered_picks(inp: Input, order: Seq<int>, sel: Seq<int>) -> (r: Seq<int>)
    requires
        is_reordering(order, inp.vectors.len() as int),
        picks(slots_of(inp, order), sel),
    ensures
        r == sel.map_values(|k: int| order[k]),
        picks(inp.slots(), r),
        labels_of(inp.slots(), r) == labels_of(slots_of(inp, order), sel),
        forall|k: int|
            0 <= k < sel.len() ==> #[trigger] inp.slots()[r[k]] == slots_of(inp, order)[sel[k]],
{
    let r = sel.map_values(|k: int| order[k]);
    let a = slots_of(inp, order);
    assert forall|i: int, j: int| 0 <= i < r.len() && 0 <= j < r.len() && i != j implies r[i]
        != r[j] by {
        assert(0 <= sel[i] < a.len() && 0 <= sel[j] < a.len());
        assert(sel[i] != sel[j]);
    }
    assert forall|k: int| 0 <= k < r.len() implies 0 <= #[trigger] r[k] < inp.slots().len() by {
        assert(0 <= sel[k] < a.len());
        assert(0 <= order[sel[k]] < inp.vectors.len());
    }
    assert forall|k: int| 0 <= k < sel.len() implies #[trigger] inp.slots()[r[k]] == a[sel[k]] by {
        assert(0 <= sel[k] < a.len());
        assert(0 <= r[k] < inp.slots().len());
    }
    assert(labels_of(inp.slots(), r) =~= labels_of(a, sel)) by {
        assert forall|k: int| 0 <= k < sel.len() implies labels_of(inp.slots(), r)[k]
            == labels_of(a, sel)[k] by {
            assert(inp.slots()[r[k]] == a[sel[k]]);
        }
    }
    r
}

/// The nearest of reordered slots are the nearest of the slots.
pub proof fn lemma_reordered_nearest(inp: Input, order: Seq<int>, q: Seq<i16>, count: int)
    requires
        is_reordering(order, inp.vectors.len() as int),
    ensures
        is_nearest_count(slots_of(inp, order), q, count) ==> is_nearest_count(
            inp.slots(),
            q,
            count,
        ),
        is_close_count(slots_of(inp, order), q, count) ==> is_close_count(inp.slots(), q, count),
{
    let a = slots_of(inp, order);
    let b = inp.slots();
    if is_nearest_count(a, q, count) {
        let sel = choose|sel: Seq<int>| #[trigger]
            nearest(a, q, sel) && count == label_sum(labels_of(a, sel));
        let r = lemma_reordered_picks(inp, order, sel);
        assert forall|i: int| 0 <= i < b.len() && r.len() < K implies #[trigger] r.contains(i) by {
            assert(order.contains(i));
            let k = choose|k: int| 0 <= k < order.len() && order[k] == i;
            assert(sel.contains(k));
            let m = choose|m: int| 0 <= m < sel.len() && sel[m] == k;
            assert(r[m] == i);
        }
        assert forall|k: int, i: int|
            0 <= k < r.len() && 0 <= i < b.len() && !r.contains(i) implies distance(
            b[#[trigger] r[k]].vec,
            q,
        ) <= distance((#[trigger] b[i]).vec, q) by {
            assert(order.contains(i));
            let m = choose|m: int| 0 <= m < order.len() && order[m] == i;
            if sel.contains(m) {
                let s = choose|s: int| 0 <= s < sel.len() && sel[s] == m;
                assert(r[s] == i);
            }
            assert(a[m] == b[i]);
            assert(b[r[k]] == a[sel[k]]);
        }
        assert(nearest(b, q, r));
    }
    if is_close_count(a, q, count) {
        let sel = choose|sel: Seq<int>| #[trigger]
            picks(a, sel) && sel.len() == K && (forall|k: int|
                0 <= k < K ==> distance((a[#[trigger] sel[k]]).vec, q)
                    <= EARLY_DISTANCE_LIMIT) && count == label_sum(
                labels_of(a, sel),
            );
        let r = lemma_reordered_picks(inp, order, sel);
        assert forall|k: int| 0 <= k < K implies distance((b[#[trigger] r[k]]).vec, q)
            <= EARLY_DISTANCE_LIMIT by {
            assert(b[r[k]] == a[sel[k]]);
        }
        assert(picks(b, r));
    }
}

/// A file that was built can be searched.
pub proof fn built_file_is_searchable(inp: Input, leaf: int, b: Seq<u8>)
    requires
        leaf >= 1,
        labels_known(inp),
        is_index_file(inp, leaf, b),
    ensures
        is_searchable(b),
{
    built_index_is_sound(inp, leaf, forest_of(b));
}

/// The exact search of a file that was built counts the fraudulent ones among the five nearest of
/// the vectors that it was built from.
pub proof fn exact_search_finds_nearest(inp: Input, leaf: int, b: Seq<u8>, q: Seq<i16>, count: int)
    requires
        leaf >= 1,
        labels_known(inp),
        is_index_file(inp, leaf, b),
        hunt_result(forest_of(b), q, count),
    ensures
        is_nearest_count(inp.slots(), q, count),
{
    let f = forest_of(b);
    built_index_is_sound(inp, leaf, f);
    hunt_result_is_nearest(f, q, count);
    let order = built_index_holds_its_vectors(inp, leaf, f);
    lemma_reordered_nearest(inp, order, q, count);
}

/// The early search of a file that was built counts the fraudulent ones among the five nearest of
/// the vectors that it was built from, or among five that are all close.
pub proof fn early_search_finds_near(
    inp: Input,
    leaf: int,
    b: Seq<u8>,
    q: Seq<i16>,
    stats: QueryStats,
    count: int,
    after: QueryStats,
)
    requires
        leaf >= 1,
        labels_known(inp),
        is_index_file(inp, leaf, b),
        early_result(forest_of(b), q, stats, count, after),
    ensures
        is_nearest_count(inp.slots(), q, count) || is_close_count(inp.slots(), q, count),
{
    let f = forest_of(b);
    built_index_is_sound(inp, leaf, f);
    early_result_is_near(f, q, stats, count, after);
    let order = built_index_holds_its_vectors(inp, leaf, f);
    lemma_reordered_nearest(inp, order, q, count);
}

/// A search of a file that was built finds the five nearest of the vectors that it was built from,
/// whatever kernels the processor has.
pub proof fn built_file_finds_neighbours(
    inp: Input,
    leaf: int,
    b: Seq<u8>,
    wide: bool,
    q: Seq<i16>,
    count: int,
)
    requires
        leaf >= 1,
        labels_known(inp),
        is_index_file(inp, leaf, b),
        fraud_result(b, wide, q, count),
    ensures
        is_nearest_count(inp.slots(), q, count),
{
    exact_search_finds_nearest(inp, leaf, b, q, count);
}

/// Where five vectors are closer to a query than all others, a search of a file that was built
/// counts the fraudulent ones among these five.
pub proof fn built_file_counts_the_closest(
    inp: Input,
    leaf: int,
    b: Seq<u8>,
    wide: bool,
    q: Seq<i16>,
    count: int,
    five: Seq<int>,
)
    requires
        leaf >= 1,
        labels_known(inp),
        is_index_file(inp, leaf, b),
        fraud_result(b, wide, q, count),
        are_closest(inp.slots(), q, five),
    ensures
        count == label_sum(labels_of(inp.slots(), five)),
{
    built_file_finds_neighbours(inp, leaf, b, wide, q, count);
    closest_are_counted(inp.slots(), q, count, five);
}

/// A file that was built holds the risk of each listed merchant code.
pub proof fn built_file_holds_listed_risks(inp: Input, leaf: int, b: Seq<u8>, code: int)
    requires
        is_index_file(inp, leaf, b),
        listed_risk(code) is Some,
    ensures
        listed_risk(code) == Some(mcc_entry(b, code)),
{
    table_holds_listed_risks(code);
    assert(mcc_entry(b, code) == table_risk(code % 1024));
}

} // verus!
