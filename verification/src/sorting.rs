//! Ordering rows by a key.
//!
//! A key is a number and a text. Rows are ordered by the number, then by the
//! text; rows with equal keys keep the order in which they were given. That
//! makes the order of any list of keys unique.

use vstd::prelude::*;
use crate::text::{
    lemma_text_lt_irreflexive, lemma_text_lt_total, lemma_text_lt_transitive, text_less, text_lt,
};

verus! {

/// The key by which a row is ordered.
#[derive(Debug, Clone)]
pub struct SortKey {
    pub rank: i128,
    pub name: Vec<char>,
}

/// The model of a [`SortKey`].
pub struct SortKeyView {
    pub rank: int,
    pub name: Seq<char>,
}

impl View for SortKey {
    type V = SortKeyView;

    open spec fn view(&self) -> SortKeyView {
        SortKeyView { rank: self.rank as int, name: self.name@ }
    }
}

/// The models of a sequence of keys.
pub open spec fn keys_view(keys: Seq<SortKey>) -> Seq<SortKeyView> {
    keys.map_values(|k: SortKey| k@)
}

/// Whether the text `a` comes before `b`, in the direction asked for.
pub open spec fn name_before(a: Seq<char>, b: Seq<char>, descending: bool) -> bool {
    if descending {
        text_lt(b, a)
    } else {
        text_lt(a, b)
    }
}

/// Whether key `a` comes strictly before key `b`: by the smaller number, and
/// between equal numbers by the text.
pub open spec fn key_before(a: SortKeyView, b: SortKeyView, descending: bool) -> bool {
    a.rank < b.rank || (a.rank == b.rank && name_before(a.name, b.name, descending))
}

/// Whether the row at `i` comes before the row at `j`: by its key, and
/// between equal keys by its position.
pub open spec fn ranks_before(keys: Seq<SortKeyView>, descending: bool, i: int, j: int) -> bool {
    key_before(keys[i], keys[j], descending) || (keys[i] == keys[j] && i < j)
}

/// Whether `order` names the position `k`.
pub open spec fn lists(order: Seq<usize>, k: int) -> bool {
    exists|i: int| 0 <= i < order.len() && #[trigger] order[i] == k
}

/// Whether `order` lists the positions `0..keys.len()`, each once, in the
/// order of their keys.
pub open spec fn is_sorted_order(keys: Seq<SortKeyView>, descending: bool, order: Seq<usize>) -> bool {
    &&& order.len() == keys.len()
    &&& forall|i: int| 0 <= i < order.len() ==> (#[trigger] order[i]) < keys.len()
    &&& forall|i: int, j: int|
        0 <= i < j < order.len() ==> ranks_before(
            keys,
            descending,
            #[trigger] order[i] as int,
            #[trigger] order[j] as int,
        )
    &&& forall|k: int| 0 <= k < keys.len() ==> #[trigger] lists(order, k)
}

/// Of two keys, one comes before the other, or they are the same key.
pub proof fn lemma_key_total(a: SortKeyView, b: SortKeyView, descending: bool)
    ensures
        key_before(a, b, descending) || key_before(b, a, descending) || a == b,
{
    lemma_text_lt_total(a.name, b.name);
}

/// No key comes before itself.
pub proof fn lemma_key_irreflexive(a: SortKeyView, descending: bool)
    ensures
        !key_before(a, a, descending),
{
    lemma_text_lt_irreflexive(a.name);
}

/// The order of keys is transitive.
pub proof fn lemma_key_transitive(a: SortKeyView, b: SortKeyView, c: SortKeyView, descending: bool)
    requires
        key_before(a, b, descending),
        key_before(b, c, descending),
    ensures
        key_before(a, c, descending),
{
    if a.rank == b.rank && b.rank == c.rank {
        if descending {
            lemma_text_lt_transitive(c.name, b.name, a.name);
        } else {
            lemma_text_lt_transitive(a.name, b.name, c.name);
        }
    }
}

/// A sorted order names no position twice.
pub proof fn lemma_sorted_order_injective(
    keys: Seq<SortKeyView>,
    descending: bool,
    order: Seq<usize>,
    i: int,
    j: int,
)
    requires
        is_sorted_order(keys, descending, order),
        0 <= i < order.len(),
        0 <= j < order.len(),
        order[i] == order[j],
    ensures
        i == j,
{
    if i < j {
        lemma_key_irreflexive(keys[order[i] as int], descending);
    } else if j < i {
        lemma_key_irreflexive(keys[order[j] as int], descending);
    }
}

/// Of two rows, at most one comes before the other.
pub proof fn lemma_ranks_asymmetric(keys: Seq<SortKeyView>, descending: bool, i: int, j: int)
    requires
        ranks_before(keys, descending, i, j),
    ensures
        !ranks_before(keys, descending, j, i),
{
    lemma_key_irreflexive(keys[i], descending);
    if key_before(keys[i], keys[j], descending) && key_before(keys[j], keys[i], descending) {
        lemma_key_transitive(keys[i], keys[j], keys[i], descending);
    }
}

/// A list of keys has one sorted order only.
pub proof fn lemma_sorted_order_unique(
    keys: Seq<SortKeyView>,
    descending: bool,
    first: Seq<usize>,
    second: Seq<usize>,
)
    requires
        is_sorted_order(keys, descending, first),
        is_sorted_order(keys, descending, second),
    ensures
        first == second,
{
    assert forall|i: int| 0 <= i < first.len() implies first[i] == second[i] by {
        lemma_sorted_orders_agree(keys, descending, first, second, i);
    }
    assert(first =~= second);
}

proof fn lemma_sorted_orders_agree(
    keys: Seq<SortKeyView>,
    descending: bool,
    first: Seq<usize>,
    second: Seq<usize>,
    i: int,
)
    requires
        is_sorted_order(keys, descending, first),
        is_sorted_order(keys, descending, second),
        0 <= i < first.len(),
    ensures
        forall|t: int| 0 <= t <= i ==> first[t] == second[t],
    decreases i,
{
    if i > 0 {
        lemma_sorted_orders_agree(keys, descending, first, second, i - 1);
    }
    let a = first[i] as int;
    let b = second[i] as int;
    if a != b {
        assert(lists(second, a));
        let j = choose|j: int| 0 <= j < second.len() && #[trigger] second[j] == a;
        if j < i {
            assert(first[j] == second[j]);
            lemma_sorted_order_injective(keys, descending, first, j, i);
        }
        assert(j > i);
        assert(ranks_before(keys, descending, second[i] as int, second[j] as int));
        assert(lists(first, b));
        let k = choose|k: int| 0 <= k < first.len() && #[trigger] first[k] == b;
        if k < i {
            assert(first[k] == second[k]);
            lemma_sorted_order_injective(keys, descending, second, k, i);
        }
        assert(k > i);
        assert(ranks_before(keys, descending, first[i] as int, first[k] as int));
        lemma_ranks_asymmetric(keys, descending, a, b);
    }
}

/// Whether key `a` comes strictly before key `b`.
pub fn key_less(a: &SortKey, b: &SortKey, descending: bool) -> (r: bool)
    ensures
        r == key_before(a@, b@, descending),
{
    if a.rank != b.rank {
        a.rank < b.rank
    } else if descending {
        text_less(&b.name, &a.name)
    } else {
        text_less(&a.name, &b.name)
    }
}

/// The positions of `keys` in the order of their keys: by the number, then by
/// the text (backwards if `descending`), and between equal keys by position.
pub fn sorted_order(keys: &Vec<SortKey>, descending: bool) -> (order: Vec<usize>)
    ensures
        is_sorted_order(keys_view(keys@), descending, order@),
{
    let ghost all = keys_view(keys@);
    let mut order: Vec<usize> = Vec::new();
    let mut k: usize = 0;
    while k < keys.len()
        invariant
            k <= keys.len(),
            all == keys_view(keys@),
            order@.len() == k,
            forall|i: int| 0 <= i < order@.len() ==> (#[trigger] order@[i]) < k,
            forall|i: int, j: int|
                0 <= i < j < order@.len() ==> ranks_before(
                    all,
                    descending,
                    #[trigger] order@[i] as int,
                    #[trigger] order@[j] as int,
                ),
            forall|x: int| 0 <= x < k ==> #[trigger] lists(order@, x),
        decreases keys.len() - k,
    {
        let mut p: usize = 0;
        while p < order.len() && !key_less(&keys[k], &keys[order[p]], descending)
            invariant
                k < keys.len(),
                all == keys_view(keys@),
                p <= order@.len(),
                forall|i: int| 0 <= i < order@.len() ==> (#[trigger] order@[i]) < k,
                forall|i: int|
                    0 <= i < p ==> !key_before(
                        all[k as int],
                        all[(#[trigger] order@[i]) as int],
                        descending,
                    ),
            decreases order@.len() - p,
        {
            p += 1;
        }
        let ghost before = order@;
        order.insert(p, k);
        proof {
            let after = order@;
            assert forall|i: int, j: int| 0 <= i < j < after.len() implies ranks_before(
                all,
                descending,
                #[trigger] after[i] as int,
                #[trigger] after[j] as int,
            ) by {
                if j < p {
                    assert(after[i] == before[i] && after[j] == before[j]);
                } else if j == p {
                    assert(after[i] == before[i]);
                    lemma_key_total(all[k as int], all[before[i] as int], descending);
                } else if i < p {
                    assert(after[i] == before[i] && after[j] == before[j - 1]);
                } else if i == p {
                    assert(after[j] == before[j - 1]);
                    assert(key_before(all[k as int], all[before[p as int] as int], descending));
                    if j - 1 > p {
                        assert(ranks_before(
                            all,
                            descending,
                            before[p as int] as int,
                            before[j - 1] as int,
                        ));
                        if key_before(
                            all[before[p as int] as int],
                            all[before[j - 1] as int],
                            descending,
                        ) {
                            lemma_key_transitive(
                                all[k as int],
                                all[before[p as int] as int],
                                all[before[j - 1] as int],
                                descending,
                            );
                        }
                    }
                } else {
                    assert(after[i] == before[i - 1] && after[j] == before[j - 1]);
                }
            }
            assert forall|x: int| 0 <= x < k + 1 implies #[trigger] lists(after, x) by {
                if x == k {
                    assert(after[p as int] == k);
                } else {
                    assert(lists(before, x));
                    let i = choose|i: int| 0 <= i < before.len() && #[trigger] before[i] == x;
                    if i < p {
                        assert(after[i] == x);
                    } else {
                        assert(after[i + 1] == x);
                    }
                }
            }
            assert forall|i: int| 0 <= i < after.len() implies (#[trigger] after[i]) < k + 1 by {
                if i < p {
                    assert(after[i] == before[i]);
                } else if i > p {
                    assert(after[i] == before[i - 1]);
                }
            }
        }
        k += 1;
    }
    order
}

} // verus!
