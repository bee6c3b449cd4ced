//! The entries of an NFS directory listing: staged files merged in, names
//! in byte order, and the `.` and `..` entries first.
use crate::cache::ObjectEntry;
use crate::model::{DeviceSummary, StorageSummary};
use crate::nfs::{NodeHandle, NodeHandleView};
use crate::text::chars_of;
use vstd::prelude::*;

verus! {

/// An entry of a listing: its name and the node it names.
pub type EntryView = (Seq<char>, NodeHandleView);

/// The views of listing entries.
pub open spec fn entries_of<T: View>(entries: Seq<(String, T)>) -> Seq<(Seq<char>, T::V)> {
    entries.map_values(|e: (String, T)| (e.0@, e.1@))
}

/// Whether `a` comes before `b` in byte order (which for UTF-8 is the order
/// of code points).
pub open spec fn name_lt(a: Seq<char>, b: Seq<char>) -> bool
    decreases a.len(),
{
    if b.len() == 0 {
        false
    } else if a.len() == 0 {
        true
    } else if a[0] != b[0] {
        a[0] < b[0]
    } else {
        name_lt(a.drop_first(), b.drop_first())
    }
}

pub proof fn lemma_name_order(a: Seq<char>, b: Seq<char>)
    ensures
        !(name_lt(a, b) && name_lt(b, a)),
        name_lt(a, b) || name_lt(b, a) || a == b,
        !name_lt(a, a),
    decreases a.len(),
{
    if a.len() > 0 && b.len() > 0 && a[0] == b[0] {
        lemma_name_order(a.drop_first(), b.drop_first());
        if a.drop_first() == b.drop_first() {
            assert(a =~= seq![a[0]] + a.drop_first());
            assert(b =~= seq![b[0]] + b.drop_first());
        }
    }
    if a.len() > 0 {
        lemma_name_order(a.drop_first(), a.drop_first());
    }
    if a.len() == 0 && b.len() == 0 {
        assert(a =~= b);
    }
}

pub proof fn lemma_name_lt_transitive(a: Seq<char>, b: Seq<char>, c: Seq<char>)
    requires
        name_lt(a, b),
        name_lt(b, c),
    ensures
        name_lt(a, c),
    decreases a.len(),
{
    if a.len() > 0 && b.len() > 0 && c.len() > 0 && a[0] == b[0] && b[0] == c[0] {
        lemma_name_lt_transitive(a.drop_first(), b.drop_first(), c.drop_first());
    }
}

/// Whether `a` comes before `b` in byte order.
pub fn name_less(a: &str, b: &str) -> (r: bool)
    ensures
        r == name_lt(a@, b@),
{
    let x = chars_of(a);
    let y = chars_of(b);
    let mut i: usize = 0;
    proof {
        assert(a@.subrange(0, a@.len() as int) =~= a@);
        assert(b@.subrange(0, b@.len() as int) =~= b@);
    }
    while i < x.len() && i < y.len() && x[i] == y[i]
        invariant
            x@ == a@,
            y@ == b@,
            i <= x@.len(),
            i <= y@.len(),
            name_lt(a@, b@) == name_lt(a@.subrange(i as int, a@.len() as int), b@.subrange(
                i as int,
                b@.len() as int,
            )),
        decreases x.len() - i,
    {
        proof {
            let sa = a@.subrange(i as int, a@.len() as int);
            let sb = b@.subrange(i as int, b@.len() as int);
            assert(sa.drop_first() =~= a@.subrange(i + 1, a@.len() as int));
            assert(sb.drop_first() =~= b@.subrange(i + 1, b@.len() as int));
        }
        i = i + 1;
    }
    proof {
        let sa = a@.subrange(i as int, a@.len() as int);
        let sb = b@.subrange(i as int, b@.len() as int);
        if i < x@.len() && i < y@.len() {
            assert(sa[0] == x@[i as int]);
            assert(sb[0] == y@[i as int]);
        }
    }
    if i >= y.len() {
        false
    } else if i >= x.len() {
        true
    } else {
        x[i] < y[i]
    }
}

/// Whether `sorted` holds the entries of `original` ordered by name, with
/// entries of equal names in their original order: `order[i]` is the
/// position in `original` of entry `i`.
pub open spec fn sorted_by_name<V>(
    original: Seq<(Seq<char>, V)>,
    sorted: Seq<(Seq<char>, V)>,
    order: Seq<int>,
) -> bool {
    &&& sorted.len() == original.len()
    &&& order.len() == original.len()
    &&& forall|i: int| 0 <= i < order.len() ==> 0 <= #[trigger] order[i] < original.len()
    &&& forall|i: int, j: int| 0 <= i < j < order.len() ==> order[i] != order[j]
    &&& forall|i: int| 0 <= i < sorted.len() ==> #[trigger] sorted[i] == original[order[i]]
    &&& forall|i: int, j: int|
        0 <= i < j < sorted.len() ==> name_lt(#[trigger] sorted[i].0, #[trigger] sorted[j].0) || (
        sorted[i].0 == sorted[j].0 && order[i] < order[j])
}

/// Sorting by name is unique: two sortings of the same entries are equal.
pub proof fn law_sorting_is_unique<V>(
    original: Seq<(Seq<char>, V)>,
    a: Seq<(Seq<char>, V)>,
    order_a: Seq<int>,
    b: Seq<(Seq<char>, V)>,
    order_b: Seq<int>,
)
    requires
        sorted_by_name(original, a, order_a),
        sorted_by_name(original, b, order_b),
    ensures
        a == b,
{
    // Each position of `original` is placed exactly once in either sorting,
    // and its rank (the number of entries placed before it) is determined
    // by the names and positions alone.
    lemma_rank_all(original, a, order_a);
    lemma_rank_all(original, b, order_b);
    lemma_orders_agree(original, order_a, order_b);
    assert forall|i: int| 0 <= i < a.len() implies a[i] == b[i] by {
        assert(a[i] == original[order_a[i]]);
        assert(b[i] == original[order_b[i]]);
    }
    assert(a =~= b);
}

proof fn lemma_rank_all<V>(original: Seq<(Seq<char>, V)>, sorted: Seq<(Seq<char>, V)>, order: Seq<int>)
    requires
        sorted_by_name(original, sorted, order),
    ensures
        forall|j: int, k: int|
            0 <= j < order.len() && 0 <= k < order.len() ==> (j < k <==> placed_before(
                original,
                order[j],
                order[k],
            )),
{
    assert forall|j: int, k: int| 0 <= j < order.len() && 0 <= k < order.len() implies (j < k
        <==> placed_before(original, order[j], order[k])) by {
        lemma_rank(original, sorted, order, k);
    }
}

/// Whether original entry `p` comes before original entry `q` in sorted order.
pub open spec fn placed_before<V>(original: Seq<(Seq<char>, V)>, p: int, q: int) -> bool {
    name_lt(original[p].0, original[q].0) || (original[p].0 == original[q].0 && p < q)
}

proof fn lemma_rank<V>(original: Seq<(Seq<char>, V)>, sorted: Seq<(Seq<char>, V)>, order: Seq<int>, i: int)
    requires
        sorted_by_name(original, sorted, order),
        0 <= i < order.len(),
    ensures
        forall|j: int| 0 <= j < order.len() ==> (j < i <==> placed_before(original, order[j], order[i])),
{
    assert forall|j: int| 0 <= j < order.len() implies (j < i <==> placed_before(
        original,
        order[j],
        order[i],
    )) by {
        lemma_name_order(original[order[j]].0, original[order[i]].0);
        assert(sorted[j] == original[order[j]]);
        assert(sorted[i] == original[order[i]]);
        if j < i {
            assert(name_lt(sorted[j].0, sorted[i].0) || (sorted[j].0 == sorted[i].0 && order[j]
                < order[i]));
        } else if j > i {
            assert(name_lt(sorted[i].0, sorted[j].0) || (sorted[i].0 == sorted[j].0 && order[i]
                < order[j]));
        }
    }
}

proof fn lemma_orders_agree<V>(original: Seq<(Seq<char>, V)>, order_a: Seq<int>, order_b: Seq<int>)
    requires
        order_a.len() == order_b.len() == original.len(),
        forall|k: int| 0 <= k < order_a.len() ==> 0 <= #[trigger] order_a[k] < original.len(),
        forall|k: int| 0 <= k < order_b.len() ==> 0 <= #[trigger] order_b[k] < original.len(),
        forall|k: int, j: int| 0 <= k < j < order_a.len() ==> order_a[k] != order_a[j],
        forall|k: int, j: int| 0 <= k < j < order_b.len() ==> order_b[k] != order_b[j],
        forall|j: int, k: int|
            0 <= j < order_a.len() && 0 <= k < order_a.len() ==> (j < k <==> placed_before(
                original,
                order_a[j],
                order_a[k],
            )),
        forall|j: int, k: int|
            0 <= j < order_b.len() && 0 <= k < order_b.len() ==> (j < k <==> placed_before(
                original,
                order_b[j],
                order_b[k],
            )),
    ensures
        order_a == order_b,
{
    let n = original.len();
    // Every position of `original` occurs in both orders.
    lemma_onto(order_a, n);
    lemma_onto(order_b, n);
    assert forall|i: int| 0 <= i < n implies order_a[i] == order_b[i] by {
        let p = order_a[i];
        assert(placed(order_b, p));
        let i2 = choose|k: int| 0 <= k < n && order_b[k] == p;
        // The entries placed before `p` are the same set in both orders, so
        // `p` has the same rank `i` in both.
        lemma_placed_before_same(original, order_a, order_b, i, i2);
        lemma_placed_before_same(original, order_b, order_a, i2, i);
    }
    assert(order_a =~= order_b);
}

pub(crate) proof fn lemma_onto(order: Seq<int>, n: nat)
    requires
        order.len() == n,
        forall|k: int| 0 <= k < order.len() ==> 0 <= #[trigger] order[k] < n,
        forall|k: int, j: int| 0 <= k < j < order.len() ==> order[k] != order[j],
    ensures
        forall|p: int| 0 <= p < n ==> #[trigger] placed(order, p),
{
    let s = order.to_set();
    let full = Set::new(|p: int| 0 <= p < n);
    assert(s.subset_of(full)) by {
        assert forall|p: int| s.contains(p) implies full.contains(p) by {
            let k = choose|k: int| 0 <= k < order.len() && order[k] == p;
        }
    }
    assert(order.no_duplicates()) by {
        assert forall|k: int, j: int| 0 <= k < order.len() && 0 <= j < order.len() && k != j
            implies order[k] != order[j] by {
            if k > j {
            }
        }
    }
    order.unique_seq_to_set();
    vstd::set_lib::lemma_int_range(0, n as int);
    assert(full =~= vstd::set_lib::set_int_range(0, n as int));
    vstd::set_lib::lemma_subset_equality(s, full);
    assert forall|p: int| 0 <= p < n implies #[trigger] placed(order, p) by {
        assert(full.contains(p));
        assert(s.contains(p));
    }
}

/// Whether position `p` occurs in `order`.
pub(crate) open spec fn placed(order: Seq<int>, p: int) -> bool {
    exists|k: int| 0 <= k < order.len() && order[k] == p
}

proof fn lemma_placed_before_same<V>(
    original: Seq<(Seq<char>, V)>,
    order_a: Seq<int>,
    order_b: Seq<int>,
    i: int,
    i2: int,
)
    requires
        0 <= i2 < order_a.len(),
        0 <= i < order_a.len(),
        order_a.len() == order_b.len() == original.len(),
        order_b[i2] == order_a[i],
        forall|k: int| 0 <= k < order_a.len() ==> 0 <= #[trigger] order_a[k] < original.len(),
        forall|k: int| 0 <= k < order_b.len() ==> 0 <= #[trigger] order_b[k] < original.len(),
        forall|k: int, j: int| 0 <= k < j < order_a.len() ==> order_a[k] != order_a[j],
        forall|k: int, j: int| 0 <= k < j < order_b.len() ==> order_b[k] != order_b[j],
        forall|j: int, k: int|
            0 <= j < order_a.len() && 0 <= k < order_a.len() ==> (j < k <==> placed_before(
                original,
                order_a[j],
                order_a[k],
            )),
        forall|j: int, k: int|
            0 <= j < order_b.len() && 0 <= k < order_b.len() ==> (j < k <==> placed_before(
                original,
                order_b[j],
                order_b[k],
            )),
    ensures
        i <= i2,
{
    if i2 < i {
        lemma_fewer_before(original, order_a, order_b, i, i2);
    }
}

proof fn lemma_fewer_before<V>(
    original: Seq<(Seq<char>, V)>,
    order_a: Seq<int>,
    order_b: Seq<int>,
    i: int,
    i2: int,
)
    requires
        0 <= i2 < i < order_a.len(),
        order_a.len() == order_b.len() == original.len(),
        order_b[i2] == order_a[i],
        forall|k: int| 0 <= k < order_a.len() ==> 0 <= #[trigger] order_a[k] < original.len(),
        forall|k: int| 0 <= k < order_b.len() ==> 0 <= #[trigger] order_b[k] < original.len(),
        forall|k: int, j: int| 0 <= k < j < order_a.len() ==> order_a[k] != order_a[j],
        forall|k: int, j: int| 0 <= k < j < order_b.len() ==> order_b[k] != order_b[j],
        forall|j: int, k: int|
            0 <= j < order_a.len() && 0 <= k < order_a.len() ==> (j < k <==> placed_before(
                original,
                order_a[j],
                order_a[k],
            )),
        forall|j: int, k: int|
            0 <= j < order_b.len() && 0 <= k < order_b.len() ==> (j < k <==> placed_before(
                original,
                order_b[j],
                order_b[k],
            )),
    ensures
        i2 >= i,
{
    // In `order_a`, `i` entries come before `p = order_a[i]`; in `order_b`
    // only `i2 < i` do. The `i` entries before `p` in `order_a` are all
    // placed before `p`, so in `order_b` they stand before position `i2`:
    // `i` distinct values among `i2` positions.
    let p = order_a[i];
    let before_a = order_a.subrange(0, i);
    let before_b = order_b.subrange(0, i2);
    assert forall|k: int| 0 <= k < i implies before_b.contains(#[trigger] before_a[k]) by {
        let q = order_a[k];
        assert(placed_before(original, q, p));
        lemma_onto(order_b, original.len());
        assert(placed(order_b, q));
        let kb = choose|kb: int| 0 <= kb < original.len() && order_b[kb] == q;
        assert(kb < i2);
        assert(before_b[kb] == q);
    }
    assert(before_a.no_duplicates()) by {
        assert forall|k: int, j: int| 0 <= k < before_a.len() && 0 <= j < before_a.len() && k != j
            implies before_a[k] != before_a[j] by {
            if k > j {
            }
        }
    }
    before_a.unique_seq_to_set();
    assert(before_a.to_set().subset_of(before_b.to_set())) by {
        assert forall|x: int| before_a.to_set().contains(x) implies before_b.to_set().contains(x) by {
            let k = choose|k: int| 0 <= k < before_a.len() && before_a[k] == x;
            assert(before_b.contains(before_a[k]));
        }
    }
    vstd::set_lib::lemma_len_subset(before_a.to_set(), before_b.to_set());
    before_b.lemma_cardinality_of_set();
}


proof fn lemma_insert_sorted<V>(
    original: Seq<(Seq<char>, V)>,
    k: int,
    sorted: Seq<(Seq<char>, V)>,
    order: Seq<int>,
    pos: int,
)
    requires
        0 <= k < original.len(),
        sorted_by_name(original.subrange(0, k), sorted, order),
        0 <= pos <= sorted.len(),
        forall|j: int| pos <= j < sorted.len() ==> name_lt(original[k].0, #[trigger] sorted[j].0),
        pos > 0 ==> !name_lt(original[k].0, sorted[pos - 1].0),
    ensures
        sorted_by_name(
            original.subrange(0, k + 1),
            sorted.insert(pos, original[k]),
            order.insert(pos, k),
        ),
{
    let prefix = original.subrange(0, k);
    let next = original.subrange(0, k + 1);
    let s2 = sorted.insert(pos, original[k]);
    let o2 = order.insert(pos, k);
    let item = original[k];
    assert forall|i: int| 0 <= i < o2.len() implies 0 <= #[trigger] o2[i] < next.len() by {
        if i < pos {
            assert(o2[i] == order[i]);
        } else if i > pos {
            assert(o2[i] == order[i - 1]);
        }
    }
    assert forall|i: int, j: int| 0 <= i < j < o2.len() implies o2[i] != o2[j] by {
        if i < pos {
            assert(o2[i] == order[i]);
        } else if i > pos {
            assert(o2[i] == order[i - 1]);
        }
        if j < pos {
            assert(o2[j] == order[j]);
        } else if j > pos {
            assert(o2[j] == order[j - 1]);
        }
        if i != pos && j != pos {
            if i < pos && j > pos {
                assert(order[i] != order[j - 1]);
            }
        }
        if i == pos {
            assert(o2[j] == order[j - 1]);
            assert(0 <= order[j - 1] < prefix.len());
        }
        if j == pos {
            assert(0 <= order[i] < prefix.len());
        }
    }
    assert forall|i: int| 0 <= i < s2.len() implies #[trigger] s2[i] == next[o2[i]] by {
        if i < pos {
            assert(s2[i] == sorted[i]);
            assert(o2[i] == order[i]);
            assert(sorted[i] == prefix[order[i]]);
        } else if i > pos {
            assert(s2[i] == sorted[i - 1]);
            assert(o2[i] == order[i - 1]);
            assert(sorted[i - 1] == prefix[order[i - 1]]);
        }
    }
    assert forall|i: int, j: int| 0 <= i < j < s2.len() implies name_lt(
        #[trigger] s2[i].0,
        #[trigger] s2[j].0,
    ) || (s2[i].0 == s2[j].0 && o2[i] < o2[j]) by {
        if i < pos && j < pos {
            assert(s2[i] == sorted[i] && s2[j] == sorted[j]);
            assert(o2[i] == order[i] && o2[j] == order[j]);
            assert(name_lt(sorted[i].0, sorted[j].0) || (sorted[i].0 == sorted[j].0 && order[i]
                < order[j]));
        } else if i > pos && j > pos {
            assert(s2[i] == sorted[i - 1] && s2[j] == sorted[j - 1]);
            assert(o2[i] == order[i - 1] && o2[j] == order[j - 1]);
            assert(name_lt(sorted[i - 1].0, sorted[j - 1].0) || (sorted[i - 1].0 == sorted[j
                - 1].0 && order[i - 1] < order[j - 1]));
        } else if i < pos && j > pos {
            assert(s2[i] == sorted[i] && s2[j] == sorted[j - 1]);
            assert(o2[i] == order[i] && o2[j] == order[j - 1]);
            assert(name_lt(sorted[i].0, sorted[j - 1].0) || (sorted[i].0 == sorted[j - 1].0
                && order[i] < order[j - 1]));
        } else if i == pos {
            assert(s2[i] == item);
            assert(s2[j] == sorted[j - 1]);
            assert(name_lt(item.0, sorted[j - 1].0));
        } else {
            assert(j == pos);
            assert(s2[j] == item);
            assert(s2[i] == sorted[i]);
            assert(o2[i] == order[i]);
            assert(0 <= order[i] < prefix.len());
            let last = sorted[pos - 1];
            lemma_name_order(item.0, last.0);
            if i < pos - 1 {
                assert(name_lt(sorted[i].0, last.0) || sorted[i].0 == last.0);
                if name_lt(sorted[i].0, last.0) && name_lt(last.0, item.0) {
                    lemma_name_lt_transitive(sorted[i].0, last.0, item.0);
                }
            }
        }
    }
    assert(next.len() == s2.len());
}

/// Orders listing entries by name in byte order; entries with equal names
/// keep their order.
pub fn sort_by_name<T: View>(entries: Vec<(String, T)>) -> (r: Vec<(String, T)>)
    ensures
        exists|order: Seq<int>| sorted_by_name(entries_of(entries@), entries_of(r@), order),
{
    let ghost original = entries_of(entries@);
    let ghost all = entries@;
    let mut rest = entries;
    let mut sorted: Vec<(String, T)> = Vec::new();
    let ghost mut order: Seq<int> = Seq::empty();
    proof {
        assert(rest@ =~= all.subrange(0, all.len() as int));
        assert(original.subrange(0, 0) =~= Seq::<(Seq<char>, T::V)>::empty());
    }
    while rest.len() > 0
        invariant
            original == entries_of(all),
            sorted@.len() + rest@.len() == all.len(),
            rest@ == all.subrange(sorted@.len() as int, all.len() as int),
            sorted_by_name(original.subrange(0, sorted@.len() as int), entries_of(sorted@), order),
        decreases rest@.len(),
    {
        let k = sorted.len();
        let item = rest.remove(0);
        proof {
            assert(rest@ =~= all.subrange(k + 1, all.len() as int));
            assert(original[k as int] == (item.0@, item.1@));
        }
        let ghost view = entries_of(sorted@);
        let mut pos = sorted.len();
        while pos > 0 && name_less(item.0.as_str(), sorted[pos - 1].0.as_str())
            invariant
                pos <= sorted@.len(),
                view == entries_of(sorted@),
                forall|j: int| pos <= j < view.len() ==> name_lt(item.0@, #[trigger] view[j].0),
            decreases pos,
        {
            proof {
                assert(view[pos - 1] == (sorted@[pos - 1].0@, sorted@[pos - 1].1@));
            }
            pos = pos - 1;
        }
        proof {
            if pos > 0 {
                assert(view[pos - 1] == (sorted@[pos - 1].0@, sorted@[pos - 1].1@));
            }
            lemma_insert_sorted(original, k as int, view, order, pos as int);
            order = order.insert(pos as int, k as int);
        }
        sorted.insert(pos, item);
        proof {
            assert(entries_of(sorted@) =~= view.insert(pos as int, original[k as int]));
        }
    }
    proof {
        assert(original.subrange(0, sorted@.len() as int) =~= original);
    }
    sorted
}

/// The entries of a directory: `.` for the directory itself, `..` for its
/// parent (the directory itself at the root), then the entries by name.
pub fn with_dot_entries(
    dir: &NodeHandle,
    parent: Option<NodeHandle>,
    entries: Vec<(String, NodeHandle)>,
) -> (r: Vec<(String, NodeHandle)>)
    ensures
        r@.len() == entries@.len() + 2,
        r@[0].0@ == "."@,
        r@[0].1@ == dir@,
        r@[1].0@ == ".."@,
        r@[1].1@ == (match parent {
            Some(p) => p@,
            None => dir@,
        }),
        exists|order: Seq<int>|
            sorted_by_name(entries_of(entries@), entries_of(r@).subrange(2, r@.len() as int), order),
{
    let sorted = sort_by_name(entries);
    let mut r: Vec<(String, NodeHandle)> = Vec::new();
    let up = match parent {
        Some(p) => p,
        None => dir.duplicate(),
    };
    proof {
        reveal_strlit(".");
        reveal_strlit("..");
    }
    r.push((String::from_str("."), dir.duplicate()));
    r.push((String::from_str(".."), up));
    let ghost head = r@;
    let mut sorted = sorted;
    let ghost sorted_all = sorted@;
    r.append(&mut sorted);
    proof {
        assert(entries_of(r@).subrange(2, r@.len() as int) =~= entries_of(sorted_all));
    }
    r
}


/// A listing with the staged files of its directory merged in: each staged
/// file that is not a copy of an object on the device replaces the entries
/// of the same name and joins at the end. A staged file is given as its
/// name, its id and whether it is a copy of a device object.
pub open spec fn merged_listing(entries: Seq<EntryView>, staged: Seq<(Seq<char>, u128, bool)>) -> Seq<
    EntryView,
>
    decreases staged.len(),
{
    if staged.len() == 0 {
        entries
    } else {
        let rest = merged_listing(entries, staged.drop_last());
        let file = staged.last();
        if file.2 {
            rest
        } else {
            rest.filter(|e: EntryView| e.0 != file.0).push((file.0, NodeHandleView::Staged(file.1)))
        }
    }
}

/// Merging a staged file into a listing: a copy of a device object changes
/// nothing (the object is listed already); any other staged file is listed
/// last, under its name and as itself, no other entry keeps its name, and
/// every entry of another name stays listed.
pub proof fn law_staged_files_replace_their_name(
    entries: Seq<EntryView>,
    staged: Seq<(Seq<char>, u128, bool)>,
    file: (Seq<char>, u128, bool),
)
    ensures
        ({
            let before = merged_listing(entries, staged);
            let after = merged_listing(entries, staged.push(file));
            &&& file.2 ==> after == before
            &&& !file.2 ==> {
                &&& after.len() >= 1
                &&& after.last() == (file.0, NodeHandleView::Staged(file.1))
                &&& forall|k: int| 0 <= k < after.len() - 1 ==> (#[trigger] after[k]).0 != file.0
                &&& forall|k: int|
                    0 <= k < before.len() && (#[trigger] before[k]).0 != file.0
                        ==> after.contains(before[k])
            }
        }),
{
    let before = merged_listing(entries, staged);
    let all = staged.push(file);
    assert(all.drop_last() =~= staged);
    assert(all.last() == file);
    if !file.2 {
        let pred = |e: EntryView| e.0 != file.0;
        let kept = before.filter(pred);
        let after = kept.push((file.0, NodeHandleView::Staged(file.1)));
        assert(merged_listing(entries, all) == after);
        assert forall|k: int| 0 <= k < after.len() - 1 implies (#[trigger] after[k]).0 != file.0 by {
            assert(after[k] == kept[k]);
            before.lemma_filter_pred(pred, k);
        }
        assert forall|k: int| 0 <= k < before.len() && (#[trigger] before[k]).0 != file.0 implies after.contains(
            before[k],
        ) by {
            before.lemma_filter_contains(pred, k);
            let j = choose|j: int| 0 <= j < kept.len() && kept[j] == before[k];
            assert(after[j] == before[k]);
        }
    }
}

fn without_name(entries: Vec<(String, NodeHandle)>, name: &String) -> (r: Vec<(String, NodeHandle)>)
    ensures
        entries_of(r@) == entries_of(entries@).filter(|e: EntryView| e.0 != name@),
{
    let ghost all = entries@;
    let ghost views = entries_of(all);
    let mut rest = entries;
    let mut kept: Vec<(String, NodeHandle)> = Vec::new();
    let ghost mut done: int = 0;
    proof {
        assert(rest@ =~= all.subrange(0, all.len() as int));
        reveal(Seq::filter);
        assert(views.subrange(0, 0).filter(|e: EntryView| e.0 != name@) =~= Seq::<EntryView>::empty());
    }
    while rest.len() > 0
        invariant
            views == entries_of(all),
            0 <= done <= all.len(),
            rest@ == all.subrange(done, all.len() as int),
            entries_of(kept@) == views.subrange(0, done).filter(|e: EntryView| e.0 != name@),
        decreases rest@.len(),
    {
        let item = rest.remove(0);
        proof {
            assert(rest@ =~= all.subrange(done + 1, all.len() as int));
            assert(views[done] == (item.0@, item.1@));
            assert(views.subrange(0, done + 1).drop_last() =~= views.subrange(0, done));
            assert(views.subrange(0, done + 1).last() == views[done]);
        }
        let ghost before = entries_of(kept@);
        let keep = !item.0.eq(name);
        if keep {
            kept.push(item);
            proof {
                assert(entries_of(kept@) =~= before.push(views[done]));
            }
        }
        proof {
            reveal(Seq::filter);
            let pred = |e: EntryView| e.0 != name@;
            let next = views.subrange(0, done + 1);
            assert(keep == pred(views[done]));
            assert(next.filter(pred) == (if pred(next.last()) {
                next.drop_last().filter(pred).push(next.last())
            } else {
                next.drop_last().filter(pred)
            }));
            done = done + 1;
        }
    }
    proof {
        assert(views.subrange(0, done) =~= views);
    }
    kept
}

/// Merges the staged files of a directory into its listing (see
/// `merged_listing`).
pub fn merge_staged(entries: Vec<(String, NodeHandle)>, staged: &Vec<(String, (u128, bool))>) -> (r:
    Vec<(String, NodeHandle)>)
    ensures
        entries_of(r@) == merged_listing(
            entries_of(entries@),
            staged@.map_values(|s: (String, (u128, bool))| (s.0@, s.1.0, s.1.1)),
        ),
{
    let ghost files = staged@.map_values(|s: (String, (u128, bool))| (s.0@, s.1.0, s.1.1));
    let ghost start = entries_of(entries@);
    let mut current = entries;
    let mut i: usize = 0;
    proof {
        assert(files.subrange(0, 0) =~= Seq::<(Seq<char>, u128, bool)>::empty());
    }
    while i < staged.len()
        invariant
            files == staged@.map_values(|s: (String, (u128, bool))| (s.0@, s.1.0, s.1.1)),
            i <= staged@.len(),
            entries_of(current@) == merged_listing(start, files.subrange(0, i as int)),
        decreases staged.len() - i,
    {
        proof {
            assert(files.subrange(0, i + 1).drop_last() =~= files.subrange(0, i as int));
            assert(files.subrange(0, i + 1).last() == files[i as int]);
        }
        if !staged[i].1.1 {
            let mut kept = without_name(current, &staged[i].0);
            let ghost before = entries_of(kept@);
            kept.push((staged[i].0.clone(), NodeHandle::Staged(staged[i].1.0)));
            proof {
                assert(entries_of(kept@) =~= before.push(
                    (files[i as int].0, NodeHandleView::Staged(files[i as int].1)),
                ));
            }
            current = kept;
        }
        i = i + 1;
    }
    proof {
        assert(files.subrange(0, files.len() as int) =~= files);
    }
    current
}

/// The entries of a storage or directory on a device: each object by its
/// name.
pub fn object_entries(
    device_key: &String,
    generation: u64,
    storage_id: u64,
    objects: Vec<ObjectEntry>,
) -> (r: Vec<(String, NodeHandle)>)
    ensures
        r@.len() == objects@.len(),
        forall|i: int|
            0 <= i < r@.len() ==> #[trigger] entries_of(r@)[i] == (
                objects@[i].name@,
                NodeHandleView::Object {
                    device_key: device_key@,
                    generation,
                    storage_id,
                    object_id: objects@[i].handle,
                },
            ),
{
    let ghost all = objects@;
    let mut rest = objects;
    let mut r: Vec<(String, NodeHandle)> = Vec::new();
    while rest.len() > 0
        invariant
            r@.len() + rest@.len() == all.len(),
            rest@ == all.subrange(r@.len() as int, all.len() as int),
            forall|i: int|
                0 <= i < r@.len() ==> #[trigger] entries_of(r@)[i] == (
                    all[i].name@,
                    NodeHandleView::Object {
                        device_key: device_key@,
                        generation,
                        storage_id,
                        object_id: all[i].handle,
                    },
                ),
        decreases rest@.len(),
    {
        let object = rest.remove(0);
        let ghost k = r@.len();
        proof {
            assert(object == all[k as int]);
        }
        let ghost before = r@;
        r.push(
            (
                object.name,
                NodeHandle::Object {
                    device_key: device_key.clone(),
                    generation,
                    storage_id,
                    object_id: object.handle,
                },
            ),
        );
        proof {
            assert(rest@ =~= all.subrange(r@.len() as int, all.len() as int));
            assert forall|i: int| 0 <= i < r@.len() implies #[trigger] entries_of(r@)[i] == (
                all[i].name@,
                NodeHandleView::Object {
                    device_key: device_key@,
                    generation,
                    storage_id,
                    object_id: all[i].handle,
                },
            ) by {
                assert(entries_of(r@)[i] == (r@[i].0@, r@[i].1@));
                if i < k {
                    assert(r@[i] == before[i]);
                    assert(entries_of(before)[i] == (before[i].0@, before[i].1@));
                }
            }
        }
    }
    r
}

/// The entries of the root directory: each named device.
pub fn device_entries(named: Vec<(String, DeviceSummary)>) -> (r: Vec<(String, NodeHandle)>)
    ensures
        r@.len() == named@.len(),
        forall|i: int|
            0 <= i < r@.len() ==> #[trigger] entries_of(r@)[i] == (
                named@[i].0@,
                NodeHandleView::Device { key: named@[i].1.key@, generation: named@[i].1.generation },
            ),
{
    let ghost all = named@;
    let mut rest = named;
    let mut r: Vec<(String, NodeHandle)> = Vec::new();
    while rest.len() > 0
        invariant
            r@.len() + rest@.len() == all.len(),
            rest@ == all.subrange(r@.len() as int, all.len() as int),
            forall|i: int|
                0 <= i < r@.len() ==> #[trigger] entries_of(r@)[i] == (
                    all[i].0@,
                    NodeHandleView::Device { key: all[i].1.key@, generation: all[i].1.generation },
                ),
        decreases rest@.len(),
    {
        let (name, summary) = rest.remove(0);
        let ghost k = r@.len();
        proof {
            assert((name, summary) == all[k as int]);
        }
        let ghost before = r@;
        r.push((name, NodeHandle::Device { key: summary.key, generation: summary.generation }));
        proof {
            assert(rest@ =~= all.subrange(r@.len() as int, all.len() as int));
            assert forall|i: int| 0 <= i < r@.len() implies #[trigger] entries_of(r@)[i] == (
                all[i].0@,
                NodeHandleView::Device { key: all[i].1.key@, generation: all[i].1.generation },
            ) by {
                assert(entries_of(r@)[i] == (r@[i].0@, r@[i].1@));
                if i < k {
                    assert(r@[i] == before[i]);
                    assert(entries_of(before)[i] == (before[i].0@, before[i].1@));
                }
            }
        }
    }
    r
}

/// The entries of a device's directory: each named storage.
pub fn storage_entries(
    device_key: &String,
    generation: u64,
    named: Vec<(String, StorageSummary)>,
) -> (r: Vec<(String, NodeHandle)>)
    ensures
        r@.len() == named@.len(),
        forall|i: int|
            0 <= i < r@.len() ==> #[trigger] entries_of(r@)[i] == (
                named@[i].0@,
                NodeHandleView::Storage {
                    device_key: device_key@,
                    generation,
                    storage_id: named@[i].1.id,
                },
            ),
{
    let ghost all = named@;
    let mut rest = named;
    let mut r: Vec<(String, NodeHandle)> = Vec::new();
    while rest.len() > 0
        invariant
            r@.len() + rest@.len() == all.len(),
            rest@ == all.subrange(r@.len() as int, all.len() as int),
            forall|i: int|
                0 <= i < r@.len() ==> #[trigger] entries_of(r@)[i] == (
                    all[i].0@,
                    NodeHandleView::Storage {
                        device_key: device_key@,
                        generation,
                        storage_id: all[i].1.id,
                    },
                ),
        decreases rest@.len(),
    {
        let (name, storage) = rest.remove(0);
        let ghost k = r@.len();
        proof {
            assert((name, storage) == all[k as int]);
        }
        let ghost before = r@;
        r.push(
            (
                name,
                NodeHandle::Storage {
                    device_key: device_key.clone(),
                    generation,
                    storage_id: storage.id,
                },
            ),
        );
        proof {
            assert(rest@ =~= all.subrange(r@.len() as int, all.len() as int));
            assert forall|i: int| 0 <= i < r@.len() implies #[trigger] entries_of(r@)[i] == (
                all[i].0@,
                NodeHandleView::Storage {
                    device_key: device_key@,
                    generation,
                    storage_id: all[i].1.id,
                },
            ) by {
                assert(entries_of(r@)[i] == (r@[i].0@, r@[i].1@));
                if i < k {
                    assert(r@[i] == before[i]);
                    assert(entries_of(before)[i] == (before[i].0@, before[i].1@));
                }
            }
        }
    }
    r
}

/// The node named `name` among listing entries: the first entry with that
/// name.
pub fn find_entry(entries: &Vec<(String, NodeHandle)>, name: &str) -> (r: Option<NodeHandle>)
    ensures
        match r {
            Some(h) => exists|i: int|
                0 <= i < entries@.len() && entries@[i].0@ == name@ && h@ == entries@[i].1@ && forall|
                    j: int,
                | 0 <= j < i ==> entries@[j].0@ != name@,
            None => forall|i: int| 0 <= i < entries@.len() ==> entries@[i].0@ != name@,
        },
{
    let mut i: usize = 0;
    while i < entries.len()
        invariant
            i <= entries@.len(),
            forall|j: int| 0 <= j < i ==> entries@[j].0@ != name@,
        decreases entries.len() - i,
    {
        if crate::text::str_equals(entries[i].0.as_str(), name) {
            return Some(entries[i].1.duplicate());
        }
        i = i + 1;
    }
    None
}

/// The handle of the first object named `name`.
pub fn find_object(objects: &Vec<ObjectEntry>, name: &str) -> (r: Option<u64>)
    ensures
        match r {
            Some(h) => exists|i: int|
                0 <= i < objects@.len() && objects@[i].name@ == name@ && h == objects@[i].handle
                    && forall|j: int| 0 <= j < i ==> objects@[j].name@ != name@,
            None => forall|i: int| 0 <= i < objects@.len() ==> objects@[i].name@ != name@,
        },
{
    let mut i: usize = 0;
    while i < objects.len()
        invariant
            i <= objects@.len(),
            forall|j: int| 0 <= j < i ==> objects@[j].name@ != name@,
        decreases objects.len() - i,
    {
        if crate::text::str_equals(objects[i].name.as_str(), name) {
            return Some(objects[i].handle);
        }
        i = i + 1;
    }
    None
}

} // verus!
