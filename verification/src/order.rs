//! The order of a listing: paths are compared byte by byte, and a listing is
//! put in that order without moving its entries.

use vstd::prelude::*;

verus! {

/// Lexicographic comparison from position `i` on, for two byte strings that
/// agree before `i`: the one that ends first comes first, and otherwise the
/// first differing byte decides.
pub open spec fn le_from(a: Seq<u8>, b: Seq<u8>, i: int) -> bool
    decreases a.len() - i,
{
    if i >= a.len() {
        true
    } else if i >= b.len() {
        false
    } else if a[i] != b[i] {
        a[i] < b[i]
    } else {
        le_from(a, b, i + 1)
    }
}

/// `a` sorts before `b`, or equals it: plain byte-wise lexicographic order.
pub open spec fn path_le(a: Seq<u8>, b: Seq<u8>) -> bool {
    le_from(a, b, 0)
}

proof fn lemma_le_from_total(a: Seq<u8>, b: Seq<u8>, i: int)
    ensures
        le_from(a, b, i) || le_from(b, a, i),
    decreases a.len() - i,
{
    if i < a.len() && i < b.len() && a[i] == b[i] {
        lemma_le_from_total(a, b, i + 1);
    }
}

proof fn lemma_le_from_transitive(a: Seq<u8>, b: Seq<u8>, c: Seq<u8>, i: int)
    requires
        le_from(a, b, i),
        le_from(b, c, i),
    ensures
        le_from(a, c, i),
    decreases a.len() - i,
{
    if i < a.len() && a[i] == b[i] && b[i] == c[i] {
        lemma_le_from_transitive(a, b, c, i + 1);
    }
}

proof fn lemma_le_from_antisymmetric(a: Seq<u8>, b: Seq<u8>, i: int)
    requires
        0 <= i <= a.len(),
        i <= b.len(),
        le_from(a, b, i),
        le_from(b, a, i),
    ensures
        a.len() == b.len(),
        forall|j: int| i <= j < a.len() ==> a[j] == b[j],
    decreases a.len() - i,
{
    if i < a.len() {
        lemma_le_from_antisymmetric(a, b, i + 1);
    }
}

/// Any two paths are comparable.
pub proof fn lemma_path_le_total(a: Seq<u8>, b: Seq<u8>)
    ensures
        path_le(a, b) || path_le(b, a),
{
    lemma_le_from_total(a, b, 0);
}

/// The order is transitive.
pub proof fn lemma_path_le_transitive(a: Seq<u8>, b: Seq<u8>, c: Seq<u8>)
    requires
        path_le(a, b),
        path_le(b, c),
    ensures
        path_le(a, c),
{
    lemma_le_from_transitive(a, b, c, 0);
}

/// Two paths that each come no later than the other are the same path.
pub proof fn lemma_path_le_antisymmetric(a: Seq<u8>, b: Seq<u8>)
    requires
        path_le(a, b),
        path_le(b, a),
    ensures
        a == b,
{
    lemma_le_from_antisymmetric(a, b, 0);
    assert(a =~= b);
}

/// Whether `a` sorts before `b` or equals it.
pub fn path_precedes(a: &[u8], b: &[u8]) -> (r: bool)
    ensures
        r == path_le(a@, b@),
{
    let mut i: usize = 0;
    while i < a.len() && i < b.len()
        invariant
            0 <= i <= a@.len(),
            i <= b@.len(),
            path_le(a@, b@) == le_from(a@, b@, i as int),
        decreases a@.len() - i,
    {
        if a[i] != b[i] {
            return a[i] < b[i];
        }
        i += 1;
    }
    i >= a.len()
}

/// Something that lies at a path, by which listings are ordered.
pub trait Located {
    /// The bytes of the path.
    spec fn path_view(&self) -> Seq<u8>;

    /// The bytes of the path.
    fn path_bytes(&self) -> (p: &[u8])
        ensures
            p@ == self.path_view(),
    ;
}

/// The paths of a sequence of items, in the order of the items.
pub open spec fn paths_of<T: Located>(items: Seq<T>) -> Seq<Seq<u8>> {
    items.map_values(|t: T| t.path_view())
}

/// Item `i` comes before item `j` in a listing: its path sorts first, and
/// of two items with the same path the one that was given first.
pub open spec fn comes_before(paths: Seq<Seq<u8>>, i: int, j: int) -> bool {
    path_le(paths[i], paths[j]) && (path_le(paths[j], paths[i]) ==> i < j)
}

/// Where a new path goes into a run of items that is in order: behind the
/// last item whose path does not come after it.
pub open spec fn insert_position(paths: Seq<Seq<u8>>, order: Seq<int>, path: Seq<u8>) -> int
    decreases order.len(),
{
    if order.len() == 0 {
        0
    } else if path_le(paths[order.last()], path) {
        order.len() as int
    } else {
        insert_position(paths, order.drop_last(), path)
    }
}

/// The first `n` items in order, as their indices: each item in turn is put
/// into the run made of the items before it.
pub open spec fn sort_prefix(paths: Seq<Seq<u8>>, n: nat) -> Seq<int>
    decreases n,
{
    if n == 0 {
        Seq::empty()
    } else {
        let rest = sort_prefix(paths, (n - 1) as nat);
        rest.insert(insert_position(paths, rest, paths[n - 1]), n - 1)
    }
}

/// The indices of all items, in the order of their paths.
pub open spec fn sort_order(paths: Seq<Seq<u8>>) -> Seq<int> {
    sort_prefix(paths, paths.len())
}

/// `order` lists each of the indices below `n` once, every one of them
/// before the ones that come after it.
pub open spec fn is_ordering(paths: Seq<Seq<u8>>, n: int, order: Seq<int>) -> bool {
    &&& order.len() == n
    &&& forall|k: int| 0 <= k < n ==> 0 <= #[trigger] order[k] < n
    &&& forall|i: int| 0 <= i < n ==> #[trigger] order.contains(i)
    &&& forall|a: int, b: int|
        0 <= a < b < n ==> comes_before(paths, #[trigger] order[a], #[trigger] order[b])
}

proof fn lemma_insert_position(paths: Seq<Seq<u8>>, order: Seq<int>, path: Seq<u8>)
    ensures
        0 <= insert_position(paths, order, path) <= order.len(),
        insert_position(paths, order, path) > 0 ==> path_le(
            paths[order[insert_position(paths, order, path) - 1]],
            path,
        ),
        forall|k: int|
            insert_position(paths, order, path) <= k < order.len() ==> !path_le(
                paths[#[trigger] order[k]],
                path,
            ),
    decreases order.len(),
{
    if order.len() > 0 && !path_le(paths[order.last()], path) {
        let shorter = order.drop_last();
        lemma_insert_position(paths, shorter, path);
        assert forall|k: int|
            insert_position(paths, order, path) <= k < order.len() implies !path_le(
            paths[#[trigger] order[k]],
            path,
        ) by {
            if k < shorter.len() {
                assert(order[k] == shorter[k]);
            }
        }
    }
}

/// The order that `sort_prefix` gives is an ordering of the first `n` items.
pub proof fn lemma_sort_prefix_is_ordering(paths: Seq<Seq<u8>>, n: nat)
    requires
        n <= paths.len(),
    ensures
        is_ordering(paths, n as int, sort_prefix(paths, n)),
    decreases n,
{
    if n > 0 {
        let m = (n - 1) as nat;
        let rest = sort_prefix(paths, m);
        let path = paths[n - 1];
        let p = insert_position(paths, rest, path);
        let order = sort_prefix(paths, n);
        lemma_sort_prefix_is_ordering(paths, m);
        lemma_insert_position(paths, rest, path);
        assert(order == rest.insert(p, n - 1));
        assert forall|i: int| 0 <= i < n implies #[trigger] order.contains(i) by {
            if i == n - 1 {
                assert(order[p] == i);
            } else {
                assert(rest.contains(i));
                let k = choose|k: int| 0 <= k < rest.len() && rest[k] == i;
                if k < p {
                    assert(order[k] == i);
                } else {
                    assert(order[k + 1] == i);
                }
            }
        }
        assert forall|a: int, b: int| 0 <= a < b < n implies comes_before(
            paths,
            #[trigger] order[a],
            #[trigger] order[b],
        ) by {
            if b == p {
                // an item of the run before the new one
                assert(order[a] == rest[a]);
                if a < p - 1 {
                    assert(comes_before(paths, rest[a], rest[p - 1]));
                    lemma_path_le_transitive(paths[rest[a]], paths[rest[p - 1]], path);
                }
            } else if a == p {
                // the new one before an item of the run
                assert(order[b] == rest[b - 1]);
                lemma_path_le_total(path, paths[rest[b - 1]]);
            } else {
                let ra = if a < p { a } else { a - 1 };
                let rb = if b < p { b } else { b - 1 };
                assert(order[a] == rest[ra]);
                assert(order[b] == rest[rb]);
                assert(comes_before(paths, rest[ra], rest[rb]));
            }
        }
    }
}

/// The order of a listing holds each item once, is sorted by path, and
/// keeps items of equal path in the order in which they were given.
pub proof fn lemma_sort_order_sorted(paths: Seq<Seq<u8>>)
    ensures
        is_ordering(paths, paths.len() as int, sort_order(paths)),
        sort_order(paths).no_duplicates(),
        forall|a: int, b: int|
            0 <= a < b < paths.len() ==> path_le(
                paths[#[trigger] sort_order(paths)[a]],
                paths[#[trigger] sort_order(paths)[b]],
            ),
        forall|a: int, b: int|
            0 <= a < b < paths.len() && paths[#[trigger] sort_order(paths)[a]]
                == paths[#[trigger] sort_order(paths)[b]] ==> sort_order(paths)[a] < sort_order(
                paths,
            )[b],
{
    let order = sort_order(paths);
    lemma_sort_prefix_is_ordering(paths, paths.len());
    assert forall|a: int, b: int| 0 <= a < b < paths.len() implies path_le(
        paths[#[trigger] order[a]],
        paths[#[trigger] order[b]],
    ) by {
        assert(comes_before(paths, order[a], order[b]));
    }
    assert forall|a: int, b: int|
        0 <= a < b < paths.len() && paths[#[trigger] order[a]] == paths[#[trigger] order[b]]
        implies order[a] < order[b] by {
        assert(comes_before(paths, order[a], order[b]));
    }
    assert forall|a: int, b: int|
        0 <= a < order.len() && 0 <= b < order.len() && a != b implies order[a] != order[b] by {
        if a < b {
            assert(comes_before(paths, order[a], order[b]));
        } else {
            assert(comes_before(paths, order[b], order[a]));
        }
    }
}

/// The items in the order of their paths, where `paths` holds the path of
/// each item.
pub open spec fn arranged<T>(items: Seq<T>, paths: Seq<Seq<u8>>) -> Seq<T> {
    sort_order(paths).map_values(|i: int| items[i])
}

/// The first `n` items in the order of their paths.
pub open spec fn arranged_prefix<T>(items: Seq<T>, paths: Seq<Seq<u8>>, n: nat) -> Seq<T> {
    sort_prefix(paths, n).map_values(|i: int| items[i])
}

/// With one more item, the items in order are those before with the new
/// one put in at its place.
pub proof fn lemma_arranged_prefix_step<T>(items: Seq<T>, paths: Seq<Seq<u8>>, n: nat)
    requires
        0 < n <= paths.len(),
    ensures
        0 <= insert_position(paths, sort_prefix(paths, (n - 1) as nat), paths[n - 1]) <= n - 1,
        arranged_prefix(items, paths, (n - 1) as nat).len() == n - 1,
        arranged_prefix(items, paths, n) == arranged_prefix(items, paths, (n - 1) as nat).insert(
            insert_position(paths, sort_prefix(paths, (n - 1) as nat), paths[n - 1]),
            items[n - 1],
        ),
{
    let m = (n - 1) as nat;
    let rest = sort_prefix(paths, m);
    lemma_sort_prefix_is_ordering(paths, m);
    lemma_insert_position(paths, rest, paths[n - 1]);
    assert(arranged_prefix(items, paths, n) =~= arranged_prefix(items, paths, m).insert(
        insert_position(paths, rest, paths[n - 1]),
        items[n - 1],
    ));
}

proof fn lemma_arranged_prefix_multiset<T>(items: Seq<T>, paths: Seq<Seq<u8>>, n: nat)
    requires
        paths.len() == items.len(),
        n <= items.len(),
    ensures
        arranged_prefix(items, paths, n).to_multiset() == items.take(n as int).to_multiset(),
    decreases n,
{
    if n == 0 {
        assert(arranged_prefix(items, paths, 0) =~= items.take(0));
    } else {
        let m = (n - 1) as nat;
        let p = insert_position(paths, sort_prefix(paths, m), paths[n - 1]);
        lemma_arranged_prefix_multiset(items, paths, m);
        lemma_arranged_prefix_step(items, paths, n);
        vstd::seq_lib::to_multiset_insert(arranged_prefix(items, paths, m), p, items[n - 1]);
        assert(items.take(n as int) =~= items.take(m as int).push(items[n - 1]));
        vstd::seq_lib::to_multiset_build(items.take(m as int), items[n - 1]);
    }
}

/// Putting items in order neither adds nor drops an item.
pub proof fn lemma_arranged_multiset<T>(items: Seq<T>, paths: Seq<Seq<u8>>)
    requires
        paths.len() == items.len(),
    ensures
        arranged(items, paths).to_multiset() == items.to_multiset(),
{
    lemma_arranged_prefix_multiset(items, paths, items.len());
    assert(items.take(items.len() as int) =~= items);
}

/// Two sequences with the same items, in whatever order, have the same
/// values under a function, in whatever order.
proof fn lemma_map_multiset<T, U>(a: Seq<T>, b: Seq<T>, f: spec_fn(T) -> U)
    requires
        a.to_multiset() == b.to_multiset(),
    ensures
        a.map_values(f).to_multiset() == b.map_values(f).to_multiset(),
    decreases a.len(),
{
    vstd::seq_lib::to_multiset_len(a);
    vstd::seq_lib::to_multiset_len(b);
    if a.len() == 0 {
        assert(a.map_values(f) =~= b.map_values(f));
    } else {
        let x = a.last();
        let shorter = a.drop_last();
        vstd::seq_lib::to_multiset_contains(a, x);
        vstd::seq_lib::to_multiset_contains(b, x);
        assert(a[a.len() - 1] == x);
        assert(b.contains(x));
        let j = choose|j: int| 0 <= j < b.len() && b[j] == x;
        let others = b.remove(j);
        assert(shorter =~= a.remove(a.len() - 1));
        vstd::seq_lib::to_multiset_remove(a, a.len() - 1);
        vstd::seq_lib::to_multiset_remove(b, j);
        lemma_map_multiset(shorter, others, f);
        assert(a.map_values(f) =~= shorter.map_values(f).push(f(x)));
        assert(b.map_values(f) =~= others.map_values(f).insert(j, f(x)));
        vstd::seq_lib::to_multiset_build(shorter.map_values(f), f(x));
        vstd::seq_lib::to_multiset_insert(others.map_values(f), j, f(x));
    }
}

/// The order in which items are given does not matter where no two of them
/// share a path: the same items, given in another order, come out in the
/// same order.
pub proof fn lemma_arranged_unique<T>(a: Seq<T>, b: Seq<T>, path: spec_fn(T) -> Seq<u8>)
    requires
        a.to_multiset() == b.to_multiset(),
        forall|i: int, j: int| 0 <= i < j < a.len() ==> path(a[i]) != path(a[j]),
    ensures
        arranged(a, a.map_values(path)) == arranged(b, b.map_values(path)),
{
    let le = |x: Seq<u8>, y: Seq<u8>| path_le(x, y);
    let pa = a.map_values(path);
    let pb = b.map_values(path);
    let sa = arranged(a, pa);
    let sb = arranged(b, pb);
    vstd::seq_lib::to_multiset_len(a);
    vstd::seq_lib::to_multiset_len(b);
    lemma_sort_order_sorted(pa);
    lemma_sort_order_sorted(pb);
    // the paths of both come out in the same order
    assert(vstd::relations::total_ordering(le)) by {
        assert forall|x: Seq<u8>| #[trigger] le(x, x) by {
            lemma_path_le_total(x, x);
        }
        assert forall|x: Seq<u8>, y: Seq<u8>| #[trigger] le(x, y) && #[trigger] le(y, x) implies x
            == y by {
            lemma_path_le_antisymmetric(x, y);
        }
        assert forall|x: Seq<u8>, y: Seq<u8>, z: Seq<u8>| #[trigger]
            le(x, y) && #[trigger] le(y, z) implies le(x, z) by {
            lemma_path_le_transitive(x, y, z);
        }
        assert forall|x: Seq<u8>, y: Seq<u8>| #[trigger] le(x, y) || #[trigger] le(y, x) by {
            lemma_path_le_total(x, y);
        }
    }
    let ka = sa.map_values(path);
    let kb = sb.map_values(path);
    assert(vstd::relations::sorted_by(ka, le)) by {
        assert forall|i: int, j: int| 0 <= i < j < ka.len() implies #[trigger] le(
            ka[i],
            ka[j],
        ) by {
            assert(path_le(pa[sort_order(pa)[i]], pa[sort_order(pa)[j]]));
        }
    }
    assert(vstd::relations::sorted_by(kb, le)) by {
        assert forall|i: int, j: int| 0 <= i < j < kb.len() implies #[trigger] le(
            kb[i],
            kb[j],
        ) by {
            assert(path_le(pb[sort_order(pb)[i]], pb[sort_order(pb)[j]]));
        }
    }
    lemma_arranged_multiset(a, pa);
    lemma_arranged_multiset(b, pb);
    lemma_map_multiset(sa, sb, path);
    vstd::seq_lib::lemma_sorted_unique(ka, kb, le);
    // and an item is known by its path
    assert forall|k: int| 0 <= k < sa.len() implies sa[k] == sb[k] by {
        assert(ka[k] == kb[k]);
        let i = sort_order(pa)[k];
        assert(sa[k] == a[i]);
        vstd::seq_lib::to_multiset_contains(sb, sb[k]);
        vstd::seq_lib::to_multiset_contains(a, sb[k]);
        assert(sb.contains(sb[k]));
        let j = choose|j: int| 0 <= j < a.len() && a[j] == sb[k];
        assert(path(a[i]) == path(a[j]));
        assert(i == j);
    }
    assert(sa =~= sb);
}

/// The indices of `items` in the order of their paths.
pub fn sorted_indices<T: Located>(items: &Vec<T>) -> (order: Vec<usize>)
    ensures
        order@.map_values(|i: usize| i as int) == sort_order(paths_of(items@)),
        forall|k: int| 0 <= k < order@.len() ==> #[trigger] order@[k] < items@.len(),
        order@.len() == items@.len(),
{
    let ghost paths = paths_of(items@);
    let mut order: Vec<usize> = Vec::new();
    let n = items.len();
    let mut k: usize = 0;
    while k < n
        invariant
            n == items@.len(),
            paths == paths_of(items@),
            0 <= k <= n,
            order@.len() == k,
            forall|j: int| 0 <= j < order@.len() ==> #[trigger] order@[j] < k,
            order@.map_values(|i: usize| i as int) == sort_prefix(paths, k as nat),
        decreases n - k,
    {
        let ghost run = order@.map_values(|i: usize| i as int);
        let path = items[k].path_bytes();
        let mut p: usize = order.len();
        proof {
            assert(run.take(p as int) =~= run);
        }
        while p > 0 && !path_precedes(items[order[p - 1]].path_bytes(), path)
            invariant
                n == items@.len(),
                paths == paths_of(items@),
                k < n,
                path@ == paths[k as int],
                0 <= p <= order@.len(),
                order@.len() == k,
                run == order@.map_values(|i: usize| i as int),
                forall|j: int| 0 <= j < order@.len() ==> #[trigger] order@[j] < k,
                insert_position(paths, run, path@) == insert_position(
                    paths,
                    run.take(p as int),
                    path@,
                ),
            decreases p,
        {
            proof {
                assert(run.take(p as int).last() == order@[p - 1] as int);
                assert(run.take(p as int).drop_last() =~= run.take(p - 1));
            }
            p -= 1;
        }
        proof {
            if p > 0 {
                assert(run.take(p as int).last() == order@[p - 1] as int);
            }
            assert(run.take(order@.len() as int) =~= run);
            assert(insert_position(paths, run, path@) == p);
            assert(order@.insert(p as int, k).map_values(|i: usize| i as int) =~= run.insert(
                p as int,
                k as int,
            ));
        }
        order.insert(p, k);
        k += 1;
    }
    order
}

} // verus!
