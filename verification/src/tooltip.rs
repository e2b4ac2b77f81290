//! The tooltip's table: which series rows it keeps, the order it shows them
//! in, and the text of its cells.

use vstd::prelude::*;
use vstd::string::*;
use vstd::laws_cmp::*;
use vstd::laws_eq::*;
use vstd::std_specs::cmp::{OrdSpec, PartialEqSpec, PartialOrdIs, PartialOrdSpec};
use crate::series::reversed;
use crate::order::{total_key, total_lt, total_order_key, lemma_total_order};

verus! {

/// A row has a value.
pub open spec fn has_value<S, Y>(row: (S, Option<Y>)) -> bool {
    row.1 is Some
}

/// The rows the tooltip shows: all of them, or with `skip` only those with a
/// value, in their order.
pub fn skip_missing<S, Y>(rows: Vec<(S, Option<Y>)>, skip: bool) -> (kept: Vec<(S, Option<Y>)>)
    ensures
        kept@ == if skip {
            rows@.filter(|row: (S, Option<Y>)| has_value(row))
        } else {
            rows@
        },
{
    if !skip {
        return rows;
    }
    let ghost all = rows@;
    let ghost keep = |row: (S, Option<Y>)| has_value(row);
    let mut kept: Vec<(S, Option<Y>)> = Vec::new();
    let mut rest = reversed(rows);
    let ghost rev = rest@;
    assert(rev =~= all.reverse());
    while rest.len() > 0
        invariant
            keep == (|row: (S, Option<Y>)| has_value(row)),
            rev =~= all.reverse(),
            0 <= rest@.len() <= all.len(),
            rest@ =~= rev.take(rest@.len() as int),
            kept@ == all.take(all.len() - rest@.len()).filter(keep),
        decreases rest@.len(),
    {
        let ghost done = (all.len() - rest@.len()) as int;
        let row = rest.pop().unwrap();
        proof {
            assert(row == all[done]);
            assert(all.take(done + 1) =~= all.take(done).push(all[done]));
            all.take(done).lemma_filter_push(all[done], keep);
        }
        if row.1.is_some() {
            kept.push(row);
        }
        assert(rest@ =~= rev.take(rest@.len() as int));
    }
    assert(all.take(all.len() as int) =~= all);
    kept
}

/// The tooltip's heading: the x value nearest the cursor, formatted, or
/// "no data" where there is none.
pub fn x_heading(formatted: Option<String>) -> (heading: String)
    ensures
        heading@ == match formatted {
            Some(text) => text@,
            None => "no data"@,
        },
{
    match formatted {
        Some(text) => text,
        None => String::from_str("no data"),
    }
}

/// The text of a row's value cell: the value, formatted, or "-" where the
/// series has none.
pub fn y_cell(formatted: Option<String>) -> (cell: String)
    ensures
        cell@ == match formatted {
            Some(text) => text@,
            None => "-"@,
        },
{
    match formatted {
        Some(text) => text,
        None => String::from_str("-"),
    }
}

/// Whether a row with key `a` goes strictly before one with key `b` when rows
/// are sorted by an optional `f64` under `total_cmp`: rows without a value come
/// first, then the values in ascending (or, with `descending`, descending)
/// total order.
pub open spec fn key_before(a: Option<u64>, b: Option<u64>, descending: bool) -> bool {
    match (a, b) {
        (None, Some(_)) => true,
        (Some(x), Some(y)) => if descending {
            total_lt(y, x)
        } else {
            total_lt(x, y)
        },
        _ => false,
    }
}

/// `order` lists each of the indices `0..bound` once.
pub open spec fn is_permutation(order: Seq<usize>, bound: int) -> bool {
    &&& order.len() == bound
    &&& forall|i: int| 0 <= i < order.len() ==> #[trigger] order[i] < bound
    &&& forall|i: int, j: int| 0 <= i < j < order.len() ==> order[i] != order[j]
}

/// Along `order`, no row comes after one whose key `before` puts after its
/// own, and rows whose keys are tied keep their original order.
pub open spec fn is_sorted_stably<K>(
    keys: Seq<K>,
    order: Seq<usize>,
    before: spec_fn(K, K) -> bool,
) -> bool {
    &&& forall|i: int, j: int|
        0 <= i < j < order.len() ==> !before(keys[order[j] as int], keys[order[i] as int])
    &&& forall|i: int, j: int|
        0 <= i < j < order.len() && !before(keys[order[i] as int], keys[order[j] as int])
            ==> order[i] < order[j]
}

/// `order` is the order in which a stable sort by `before` lists the rows
/// whose keys are `keys`.
pub open spec fn is_stable_order<K>(
    keys: Seq<K>,
    order: Seq<usize>,
    before: spec_fn(K, K) -> bool,
) -> bool {
    is_permutation(order, keys.len() as int) && is_sorted_stably(keys, order, before)
}

/// An integer that `key_before` orders by.
spec fn rank(k: Option<u64>, descending: bool) -> int {
    match k {
        None => -0x1_0000_0000_0000_0000,
        Some(x) => if descending {
            -total_key(x)
        } else {
            total_key(x)
        },
    }
}

proof fn lemma_rank(a: Option<u64>, b: Option<u64>, descending: bool)
    ensures
        key_before(a, b, descending) <==> rank(a, descending) < rank(b, descending),
        a != b ==> rank(a, descending) != rank(b, descending),
{
    match (a, b) {
        (Some(x), Some(y)) => {
            lemma_total_order(x, y);
            lemma_total_order(y, x);
        },
        (Some(x), None) => {
            lemma_total_order(x, x);
        },
        (None, Some(y)) => {
            lemma_total_order(y, y);
        },
        _ => {},
    }
}

fn key_before_exec(a: Option<u64>, b: Option<u64>, descending: bool) -> (r: bool)
    ensures
        r == key_before(a, b, descending),
{
    match (a, b) {
        (None, Some(_)) => true,
        (Some(x), Some(y)) => {
            proof {
                lemma_total_order(x, y);
                lemma_total_order(y, x);
            }
            let kx = total_order_key(x);
            let ky = total_order_key(y);
            if descending {
                ky < kx
            } else {
                kx < ky
            }
        },
        _ => false,
    }
}

/// The order (as indices into `keys`) of a stable sort by `key_before`.
fn stable_order(keys: &Vec<Option<u64>>, descending: bool) -> (order: Vec<usize>)
    ensures
        is_stable_order(keys@, order@, |a: Option<u64>, b: Option<u64>| key_before(a, b, descending)),
{
    let ghost before = |a: Option<u64>, b: Option<u64>| key_before(a, b, descending);
    let n = keys.len();
    let mut order: Vec<usize> = Vec::new();
    for i in 0..n
        invariant
            n == keys@.len(),
            before == (|a: Option<u64>, b: Option<u64>| key_before(a, b, descending)),
            is_permutation(order@, i as int),
            is_sorted_stably(keys@, order@, before),
    {
        let key = keys[i];
        let mut p: usize = 0;
        while p < order.len() && !key_before_exec(key, keys[order[p]], descending)
            invariant
                n == keys@.len(),
                i < n,
                key == keys@[i as int],
                before == (|a: Option<u64>, b: Option<u64>| key_before(a, b, descending)),
                is_permutation(order@, i as int),
                is_sorted_stably(keys@, order@, before),
                p <= order@.len(),
                forall|q: int| 0 <= q < p ==> !key_before(key, keys@[#[trigger] order@[q] as int], descending),
            decreases order@.len() - p,
        {
            p = p + 1;
        }
        let ghost old_order = order@;
        proof {
            assert forall|q: int| p <= q < old_order.len() implies
                rank(key, descending) < rank(keys@[#[trigger] old_order[q] as int], descending) by {
                assert(!before(keys@[old_order[q] as int], keys@[old_order[p as int] as int])
                    || q == p);
                lemma_rank(key, keys@[old_order[p as int] as int], descending);
                lemma_rank(keys@[old_order[q] as int], keys@[old_order[p as int] as int], descending);
            }
            assert forall|q: int| 0 <= q < p implies
                rank(keys@[#[trigger] old_order[q] as int], descending) <= rank(key, descending) by {
                lemma_rank(key, keys@[old_order[q] as int], descending);
            }
        }
        order.insert(p, i);
        proof {
            let o = order@;
            assert(o == old_order.insert(p as int, i));
            assert forall|a: int, b: int| 0 <= a < b < o.len() implies
                !before(keys@[o[b] as int], keys@[o[a] as int]) by {
                lemma_rank(keys@[o[b] as int], keys@[o[a] as int], descending);
                if a < p && b > p {
                    assert(!before(keys@[old_order[b - 1] as int], keys@[old_order[a] as int]));
                } else if a > p {
                    assert(!before(keys@[old_order[b - 1] as int], keys@[old_order[a - 1] as int]));
                }
            }
            assert forall|a: int, b: int|
                0 <= a < b < o.len() && !before(keys@[o[a] as int], keys@[o[b] as int]) implies o[a]
                < o[b] by {
                lemma_rank(keys@[o[a] as int], keys@[o[b] as int], descending);
                if a == p {
                    lemma_rank(key, keys@[o[b] as int], descending);
                } else if a < p && b > p {
                    assert(!before(keys@[old_order[a] as int], keys@[old_order[b - 1] as int]));
                } else if a > p {
                    assert(!before(keys@[old_order[a - 1] as int], keys@[old_order[b - 1] as int]));
                }
            }
        }
    }
    order
}

/// The order in which the tooltip lists rows sorted by their `f64` values in
/// ascending total order (`total_cmp`), rows without a value first; a stable
/// sort. `keys` holds each row's value as its bit pattern.
pub fn sort_by_f64_ascending(keys: &Vec<Option<u64>>) -> (order: Vec<usize>)
    ensures
        is_stable_order(keys@, order@, |a: Option<u64>, b: Option<u64>| key_before(a, b, false)),
{
    stable_order(keys, false)
}

/// The order in which the tooltip lists rows sorted by their `f64` values in
/// descending total order, rows without a value still first; a stable sort.
pub fn sort_by_f64_descending(keys: &Vec<Option<u64>>) -> (order: Vec<usize>)
    ensures
        is_stable_order(keys@, order@, |a: Option<u64>, b: Option<u64>| key_before(a, b, true)),
{
    stable_order(keys, true)
}

/// `Y`'s `Ord` is a lawful total order whose equality is equality of values.
pub open spec fn lawful_ord<Y: Ord>() -> bool {
    obeys_cmp::<Y>() && obeys_concrete_eq::<Y>()
}

/// Whether a row with key `a` goes strictly before one with key `b` when rows
/// are sorted by their optional values under `Ord` (no value below any value),
/// ascending, or descending (then rows without a value come last).
pub open spec fn ord_before<Y: Ord>(a: Option<Y>, b: Option<Y>, descending: bool) -> bool {
    if descending {
        b.is_lt(&a)
    } else {
        a.is_lt(&b)
    }
}

/// Under a lawful `Ord`, `<` on optional values is irreflexive, transitive,
/// and relates any two values that differ.
proof fn lemma_option_order<Y: Ord>(a: Option<Y>, b: Option<Y>, c: Option<Y>)
    requires
        lawful_ord::<Y>(),
    ensures
        !a.is_lt(&a),
        a.is_lt(&b) && b.is_lt(&c) ==> a.is_lt(&c),
        !a.is_lt(&b) && !b.is_lt(&a) ==> a == b,
{
    reveal(obeys_cmp_partial_ord);
    reveal(obeys_cmp_ord);
    reveal(obeys_partial_cmp_spec_properties);
    reveal(obeys_concrete_eq);
    match (a, b, c) {
        (Some(x), Some(y), Some(z)) => {
            assert(x.eq_spec(&x));
            assert(x.partial_cmp_spec(&y) == Some(x.cmp_spec(&y)));
            assert(y.partial_cmp_spec(&x) == Some(y.cmp_spec(&x)));
            if a.is_lt(&b) && b.is_lt(&c) {
                assert(x.partial_cmp_spec(&z) == Some(core::cmp::Ordering::Less));
            }
        },
        (Some(x), Some(y), None) => {
            assert(x.eq_spec(&x));
            assert(x.partial_cmp_spec(&y) == Some(x.cmp_spec(&y)));
            assert(y.partial_cmp_spec(&x) == Some(y.cmp_spec(&x)));
        },
        (Some(x), None, _) => {
            assert(x.eq_spec(&x));
        },
        (None, Some(y), Some(z)) => {},
        _ => {},
    }
}

/// `<` on optional `Y` values follows its specification.
spec fn option_lt_follows_spec<Y: Ord>() -> bool {
    Option::<Y>::obeys_partial_cmp_spec()
}

proof fn lemma_lawful_option_lt<Y: Ord>()
    requires
        lawful_ord::<Y>(),
    ensures
        option_lt_follows_spec::<Y>(),
{
    reveal(obeys_cmp_partial_ord);
}

/// `ord_before` on two keys, by `Y`'s `<`.
fn ord_before_exec<Y: Ord>(a: &Option<Y>, b: &Option<Y>, descending: bool) -> (r: bool)
    ensures
        option_lt_follows_spec::<Y>() ==> r == ord_before(*a, *b, descending),
{
    if descending {
        *b < *a
    } else {
        *a < *b
    }
}

/// The order (as indices into `keys`) of a stable sort by `ord_before`.
fn stable_order_by_ord<Y: Ord>(keys: &Vec<Option<Y>>, descending: bool) -> (order: Vec<usize>)
    ensures
        is_permutation(order@, keys@.len() as int),
        lawful_ord::<Y>() ==> is_sorted_stably(
            keys@,
            order@,
            |a: Option<Y>, b: Option<Y>| ord_before(a, b, descending),
        ),
{
    let ghost before = |a: Option<Y>, b: Option<Y>| ord_before(a, b, descending);
    proof {
        if lawful_ord::<Y>() {
            lemma_lawful_option_lt::<Y>();
        }
    }
    let n = keys.len();
    let mut order: Vec<usize> = Vec::new();
    for i in 0..n
        invariant
            n == keys@.len(),
            before == (|a: Option<Y>, b: Option<Y>| ord_before(a, b, descending)),
            lawful_ord::<Y>() ==> option_lt_follows_spec::<Y>(),
            is_permutation(order@, i as int),
            lawful_ord::<Y>() ==> is_sorted_stably(keys@, order@, before),
    {
        let key = &keys[i];
        let mut p: usize = 0;
        while p < order.len() && !ord_before_exec(key, &keys[order[p]], descending)
            invariant
                n == keys@.len(),
                i < n,
                *key == keys@[i as int],
                before == (|a: Option<Y>, b: Option<Y>| ord_before(a, b, descending)),
                lawful_ord::<Y>() ==> option_lt_follows_spec::<Y>(),
                is_permutation(order@, i as int),
                lawful_ord::<Y>() ==> is_sorted_stably(keys@, order@, before),
                p <= order@.len(),
                lawful_ord::<Y>() ==> forall|q: int|
                    0 <= q < p ==> !before(*key, keys@[#[trigger] order@[q] as int]),
            decreases order@.len() - p,
        {
            p = p + 1;
        }
        let ghost old_order = order@;
        let ghost k = *key;
        order.insert(p, i);
        proof {
            let o = order@;
            assert(o == old_order.insert(p as int, i));
            if lawful_ord::<Y>() {
                if p < old_order.len() {
                    assert(before(k, keys@[old_order[p as int] as int]));
                }
                assert forall|a: int, b: int| 0 <= a < b < o.len() implies !before(
                    keys@[o[b] as int],
                    keys@[o[a] as int],
                ) by {
                    let ka = keys@[o[a] as int];
                    let kb = keys@[o[b] as int];
                    if a < p && b == p {
                        lemma_option_order(k, ka, k);
                        lemma_option_order(ka, k, ka);
                    } else if a == p {
                        let kp = keys@[old_order[p as int] as int];
                        assert(!before(kb, kp) || b - 1 == p);
                        lemma_option_order(kb, kp, k);
                        lemma_option_order(k, kp, kb);
                        lemma_option_order(kb, k, kp);
                        lemma_option_order(kp, k, kb);
                        lemma_option_order(kb, kb, kb);
                    } else if a < p && b > p {
                        assert(!before(keys@[old_order[b - 1] as int], keys@[old_order[a] as int]));
                    } else if a > p {
                        assert(!before(keys@[old_order[b - 1] as int], keys@[old_order[a - 1] as int]));
                    }
                }
                assert forall|a: int, b: int|
                    0 <= a < b < o.len() && !before(keys@[o[a] as int], keys@[o[b] as int]) implies o[a]
                    < o[b] by {
                    let kb = keys@[o[b] as int];
                    if a == p {
                        let kp = keys@[old_order[p as int] as int];
                        assert(!before(kb, kp) || b - 1 == p);
                        lemma_option_order(k, kp, kb);
                        lemma_option_order(kb, kp, k);
                        lemma_option_order(k, kb, kp);
                        lemma_option_order(kp, kb, k);
                    } else if a < p && b > p {
                        assert(!before(keys@[old_order[a] as int], keys@[old_order[b - 1] as int]));
                    } else if a > p {
                        assert(!before(keys@[old_order[a - 1] as int], keys@[old_order[b - 1] as int]));
                    }
                }
            }
        }
    }
    order
}

/// The order in which the tooltip lists rows sorted by their values in
/// ascending order of `Y`'s `Ord`, rows without a value first; a stable sort.
/// Every row is listed once whatever `Y`'s `Ord` does; the order is the sorted
/// one where that `Ord` is lawful.
pub fn sort_by_ascending<Y: Ord>(keys: &Vec<Option<Y>>) -> (order: Vec<usize>)
    ensures
        is_permutation(order@, keys@.len() as int),
        lawful_ord::<Y>() ==> is_sorted_stably(
            keys@,
            order@,
            |a: Option<Y>, b: Option<Y>| ord_before(a, b, false),
        ),
{
    stable_order_by_ord(keys, false)
}

/// The order in which the tooltip lists rows sorted by their values in
/// descending order of `Y`'s `Ord`, rows without a value last; a stable sort.
pub fn sort_by_descending<Y: Ord>(keys: &Vec<Option<Y>>) -> (order: Vec<usize>)
    ensures
        is_permutation(order@, keys@.len() as int),
        lawful_ord::<Y>() ==> is_sorted_stably(
            keys@,
            order@,
            |a: Option<Y>, b: Option<Y>| ord_before(a, b, true),
        ),
{
    stable_order_by_ord(keys, true)
}

} // verus!
