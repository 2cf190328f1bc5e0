//! The order of paths, and sorting by it.
//!
//! A path is a list of components here.

use vstd::prelude::*;

use crate::bytes::same_bytes;
use crate::bytes::views;
use crate::text::comes_before;
use crate::text::law_order_is_total;
use crate::text::law_order_is_transitive;
use crate::text::precedes;

verus! {

/// Whether path `a` comes before path `b`: component by component, a directory
/// before what it holds.
pub open spec fn path_precedes(a: Seq<Seq<u8>>, b: Seq<Seq<u8>>) -> bool
    decreases a.len(),
{
    if b.len() == 0 {
        false
    } else if a.len() == 0 {
        true
    } else if a[0] != b[0] {
        precedes(a[0], b[0])
    } else {
        path_precedes(a.drop_first(), b.drop_first())
    }
}

/// Of two paths, one comes first unless they are the same.
pub proof fn law_path_order_is_total(a: Seq<Seq<u8>>, b: Seq<Seq<u8>>)
    ensures
        path_precedes(a, b) || path_precedes(b, a) || a == b,
        !(path_precedes(a, b) && path_precedes(b, a)),
        path_precedes(a, b) ==> a != b,
    decreases a.len(),
{
    if a.len() == 0 {
        if b.len() == 0 {
            assert(a =~= b);
        }
    } else if b.len() > 0 {
        law_order_is_total(a[0], b[0]);
        if a[0] == b[0] {
            law_path_order_is_total(a.drop_first(), b.drop_first());
            if a.drop_first() == b.drop_first() {
                assert(a =~= seq![a[0]] + a.drop_first());
                assert(b =~= seq![b[0]] + b.drop_first());
            }
        }
    }
}

/// The order of paths is transitive.
pub proof fn law_path_order_is_transitive(a: Seq<Seq<u8>>, b: Seq<Seq<u8>>, c: Seq<Seq<u8>>)
    requires
        path_precedes(a, b),
        path_precedes(b, c),
    ensures
        path_precedes(a, c),
    decreases a.len(),
{
    if a.len() > 0 {
        if a[0] == b[0] && b[0] == c[0] {
            law_path_order_is_transitive(a.drop_first(), b.drop_first(), c.drop_first());
        } else if a[0] != b[0] && b[0] != c[0] {
            law_order_is_transitive(a[0], b[0], c[0]);
            law_order_is_total(a[0], c[0]);
        }
    }
}

/// How two paths stand to each other.
enum Comparison {
    Before,
    Same,
    After,
}

/// Compares two paths.
fn compare(a: &Vec<Vec<u8>>, b: &Vec<Vec<u8>>) -> (found: Comparison)
    ensures
        match found {
            Comparison::Before => path_precedes(views(a@), views(b@)),
            Comparison::Same => views(a@) == views(b@),
            Comparison::After => path_precedes(views(b@), views(a@)),
        },
{
    let ghost x = views(a@);
    let ghost y = views(b@);
    let mut i: usize = 0;
    assert(x.skip(0) =~= x);
    assert(y.skip(0) =~= y);
    while i < a.len() && i < b.len()
        invariant
            i <= a@.len(),
            i <= b@.len(),
            x == views(a@),
            y == views(b@),
            x.take(i as int) == y.take(i as int),
            path_precedes(x, y) == path_precedes(x.skip(i as int), y.skip(i as int)),
            path_precedes(y, x) == path_precedes(y.skip(i as int), x.skip(i as int)),
        decreases a@.len() - i,
    {
        assert(x.skip(i as int)[0] == a@[i as int]@);
        assert(y.skip(i as int)[0] == b@[i as int]@);
        if !same_bytes(&a[i], &b[i]) {
            if comes_before(&a[i], &b[i]) {
                return Comparison::Before;
            }
            proof {
                law_order_is_total(a@[i as int]@, b@[i as int]@);
            }
            return Comparison::After;
        }
        proof {
            assert(x.skip(i as int).drop_first() =~= x.skip(i + 1));
            assert(y.skip(i as int).drop_first() =~= y.skip(i + 1));
            assert(x.take(i + 1) =~= x.take(i as int).push(x[i as int]));
            assert(y.take(i + 1) =~= y.take(i as int).push(y[i as int]));
        }
        i += 1;
    }
    if i < b.len() {
        Comparison::Before
    } else if i < a.len() {
        Comparison::After
    } else {
        assert(x.take(i as int) =~= x);
        assert(y.take(i as int) =~= y);
        Comparison::Same
    }
}

/// The contents of a list of paths.
pub open spec fn path_views(paths: Seq<Vec<Vec<u8>>>) -> Seq<Seq<Seq<u8>>> {
    paths.map_values(|p: Vec<Vec<u8>>| views(p@))
}

/// Whether the path at one position is listed before that at another: the paths
/// decide, and the positions where the paths are the same.
pub open spec fn listed_before(paths: Seq<Seq<Seq<u8>>>, i: usize, j: usize) -> bool {
    path_precedes(paths[i as int], paths[j as int]) || (paths[i as int] == paths[j as int] && i < j)
}

/// The positions are in the order of their paths.
pub open spec fn in_path_order(paths: Seq<Seq<Seq<u8>>>, order: Seq<usize>) -> bool {
    forall|i: int, j: int|
        0 <= i < j < order.len() ==> listed_before(paths, #[trigger] order[i], #[trigger] order[j])
}

/// The positions are those from `low` up to `high`, each once.
pub open spec fn covers(order: Seq<usize>, low: int, high: int) -> bool {
    &&& order.len() == high - low
    &&& forall|i: int| 0 <= i < order.len() ==> low <= (#[trigger] order[i]) < high
    &&& forall|k: usize| low <= k < high ==> #[trigger] order.contains(k)
}

/// The positions of some paths, each once, in ascending order of the paths.
pub open spec fn is_path_order(paths: Seq<Seq<Seq<u8>>>, order: Seq<usize>) -> bool {
    in_path_order(paths, order) && covers(order, 0, paths.len() as int)
}

/// Listing is transitive.
proof fn lemma_listed_transitive(paths: Seq<Seq<Seq<u8>>>, i: usize, j: usize, k: usize)
    requires
        listed_before(paths, i, j),
        listed_before(paths, j, k),
    ensures
        listed_before(paths, i, k),
{
    let a = paths[i as int];
    let b = paths[j as int];
    let c = paths[k as int];
    if path_precedes(a, b) && path_precedes(b, c) {
        law_path_order_is_transitive(a, b, c);
    }
}

/// Of two positions, one is listed first unless they are the same.
proof fn lemma_listed_total(paths: Seq<Seq<Seq<u8>>>, i: usize, j: usize)
    ensures
        listed_before(paths, i, j) || listed_before(paths, j, i) || i == j,
        !(listed_before(paths, i, j) && listed_before(paths, j, i)),
{
    law_path_order_is_total(paths[i as int], paths[j as int]);
}

/// What has been merged of two lists: the first so many of each.
spec fn merged(out: Seq<usize>, a: Seq<usize>, i: int, b: Seq<usize>, j: int) -> bool {
    &&& out.len() == i + j
    &&& forall|k: int| 0 <= k < i ==> out.contains(#[trigger] a[k])
    &&& forall|k: int| 0 <= k < j ==> out.contains(#[trigger] b[k])
}

/// Pushing keeps what a list holds.
proof fn lemma_merged_push(
    out: Seq<usize>,
    a: Seq<usize>,
    i: int,
    b: Seq<usize>,
    j: int,
    from_a: bool,
)
    requires
        merged(out, a, i, b, j),
        0 <= i <= a.len(),
        0 <= j <= b.len(),
        from_a ==> i < a.len(),
        !from_a ==> j < b.len(),
    ensures
        from_a ==> merged(out.push(a[i]), a, i + 1, b, j),
        !from_a ==> merged(out.push(b[j]), a, i, b, j + 1),
{
    let added = if from_a {
        a[i]
    } else {
        b[j]
    };
    let next = out.push(added);
    assert(next[out.len() as int] == added);
    assert forall|x: usize| #[trigger] out.contains(x) implies next.contains(x) by {
        let k = choose|k: int| 0 <= k < out.len() && out[k] == x;
        assert(next[k] == x);
    }
}

/// Merges two ordered lists of positions.
fn merge(
    paths: &Vec<Vec<Vec<u8>>>,
    a: &Vec<usize>,
    b: &Vec<usize>,
    Ghost(low): Ghost<int>,
    Ghost(mid): Ghost<int>,
    Ghost(high): Ghost<int>,
) -> (out: Vec<usize>)
    requires
        0 <= low <= mid <= high <= paths@.len(),
        in_path_order(path_views(paths@), a@),
        in_path_order(path_views(paths@), b@),
        covers(a@, low, mid),
        covers(b@, mid, high),
    ensures
        in_path_order(path_views(paths@), out@),
        covers(out@, low, high),
{
    let ghost all = path_views(paths@);
    let mut out: Vec<usize> = Vec::new();
    let mut i: usize = 0;
    let mut j: usize = 0;
    while i < a.len() || j < b.len()
        invariant
            0 <= low <= mid <= high <= paths@.len(),
            all == path_views(paths@),
            in_path_order(all, a@),
            in_path_order(all, b@),
            covers(a@, low, mid),
            covers(b@, mid, high),
            i <= a@.len(),
            j <= b@.len(),
            merged(out@, a@, i as int, b@, j as int),
            in_path_order(all, out@),
            forall|k: int| 0 <= k < out@.len() ==> low <= (#[trigger] out@[k]) < high,
            forall|k: int, m: int|
                0 <= k < out@.len() && i <= m < a@.len() ==> listed_before(
                    all,
                    #[trigger] out@[k],
                    #[trigger] a@[m],
                ),
            forall|k: int, m: int|
                0 <= k < out@.len() && j <= m < b@.len() ==> listed_before(
                    all,
                    #[trigger] out@[k],
                    #[trigger] b@[m],
                ),
        decreases a@.len() - i + b@.len() - j,
    {
        let from_a: bool = if i >= a.len() {
            false
        } else if j >= b.len() {
            true
        } else {
            let x: usize = a[i];
            let y: usize = b[j];
            proof {
                assert(all[x as int] == views(paths@[x as int]@));
                assert(all[y as int] == views(paths@[y as int]@));
                assert(a@[i as int] < mid <= b@[j as int]);
            }
            match compare(&paths[x], &paths[y]) {
                Comparison::Before => true,
                Comparison::Same => true,
                Comparison::After => false,
            }
        };
        let ghost before = out@;
        proof {
            lemma_merged_push(before, a@, i as int, b@, j as int, from_a);
            if from_a {
                assert forall|m: int| j <= m < b@.len() implies listed_before(
                    all,
                    a@[i as int],
                    #[trigger] b@[m],
                ) by {
                    if m > j {
                        lemma_listed_transitive(all, a@[i as int], b@[j as int], b@[m]);
                    }
                }
            } else {
                assert forall|m: int| i <= m < a@.len() implies listed_before(
                    all,
                    b@[j as int],
                    #[trigger] a@[m],
                ) by {
                    if m > i {
                        lemma_listed_transitive(all, b@[j as int], a@[i as int], a@[m]);
                    }
                }
            }
        }
        if from_a {
            out.push(a[i]);
            i += 1;
        } else {
            out.push(b[j]);
            j += 1;
        }
    }
    proof {
        assert forall|k: usize| low <= k < high implies #[trigger] out@.contains(k) by {
            if k < mid {
                assert(a@.contains(k));
                let m = choose|m: int| 0 <= m < a@.len() && a@[m] == k;
                assert(out@.contains(a@[m]));
            } else {
                assert(b@.contains(k));
                let m = choose|m: int| 0 <= m < b@.len() && b@[m] == k;
                assert(out@.contains(b@[m]));
            }
        }
    }
    out
}

/// Sorts the positions from `low` up to `high`.
fn sort_range(paths: &Vec<Vec<Vec<u8>>>, low: usize, high: usize) -> (order: Vec<usize>)
    requires
        low <= high <= paths@.len(),
    ensures
        in_path_order(path_views(paths@), order@),
        covers(order@, low as int, high as int),
    decreases high - low,
{
    if low == high {
        return Vec::new();
    }
    if high - low == 1 {
        let mut one: Vec<usize> = Vec::new();
        one.push(low);
        assert(one@[0] == low);
        return one;
    }
    let mid: usize = low + (high - low) / 2;
    let left = sort_range(paths, low, mid);
    let right = sort_range(paths, mid, high);
    merge(
        paths,
        &left,
        &right,
        Ghost(low as int),
        Ghost(mid as int),
        Ghost(high as int),
    )
}

/// The one order that is ascending (see [`law_path_order_is_unique`]).
pub open spec fn path_order(paths: Seq<Seq<Seq<u8>>>) -> Seq<usize> {
    choose|order: Seq<usize>| is_path_order(paths, order)
}

/// The positions of some paths, each once, in ascending order of the paths.
/// Paths that are the same keep their order.
pub fn sort_paths(paths: &Vec<Vec<Vec<u8>>>) -> (order: Vec<usize>)
    ensures
        is_path_order(path_views(paths@), order@),
        order@ == path_order(path_views(paths@)),
{
    let order = sort_range(paths, 0, paths.len());
    proof {
        let all = path_views(paths@);
        law_path_order_is_unique(all, order@, path_order(all));
    }
    order
}

/// There is only one such order.
pub proof fn law_path_order_is_unique(paths: Seq<Seq<Seq<u8>>>, a: Seq<usize>, b: Seq<usize>)
    requires
        is_path_order(paths, a),
        is_path_order(paths, b),
    ensures
        a == b,
{
    assert forall|k: usize| a.contains(k) <==> b.contains(k) by {
        if a.contains(k) {
            assert(b.contains(k));
        }
        if b.contains(k) {
            assert(a.contains(k));
        }
    }
    lemma_same_listing(paths, a, b);
}

/// Two ordered lists of the same positions are the same.
proof fn lemma_same_listing(paths: Seq<Seq<Seq<u8>>>, a: Seq<usize>, b: Seq<usize>)
    requires
        in_path_order(paths, a),
        in_path_order(paths, b),
        forall|k: usize| a.contains(k) <==> b.contains(k),
    ensures
        a == b,
    decreases a.len(),
{
    if a.len() == 0 {
        if b.len() > 0 {
            assert(b.contains(b[0]));
        }
        assert(a =~= b);
    } else {
        assert(a.contains(a[0]));
        assert(b.contains(a[0]));
        let k = choose|k: int| 0 <= k < b.len() && b[k] == a[0];
        assert(b.contains(b[0]));
        assert(a.contains(b[0]));
        let m = choose|m: int| 0 <= m < a.len() && a[m] == b[0];
        lemma_listed_total(paths, a[0], b[0]);
        assert(k == 0);
        let x = a.drop_first();
        let y = b.drop_first();
        assert forall|t: usize| x.contains(t) <==> y.contains(t) by {
            lemma_listed_total(paths, t, t);
            if x.contains(t) {
                let i = choose|i: int| 0 <= i < x.len() && x[i] == t;
                assert(a[i + 1] == t);
                assert(a.contains(t));
                let j = choose|j: int| 0 <= j < b.len() && b[j] == t;
                assert(j != 0);
                assert(y[j - 1] == t);
            }
            if y.contains(t) {
                let i = choose|i: int| 0 <= i < y.len() && y[i] == t;
                assert(b[i + 1] == t);
                assert(b.contains(t));
                let j = choose|j: int| 0 <= j < a.len() && a[j] == t;
                assert(j != 0);
                assert(x[j - 1] == t);
            }
        }
        lemma_rest_in_order(paths, a);
        lemma_rest_in_order(paths, b);
        lemma_same_listing(paths, x, y);
        assert(a =~= seq![a[0]] + x);
        assert(b =~= seq![b[0]] + y);
    }
}

/// An ordered list stays ordered without its first entry.
proof fn lemma_rest_in_order(paths: Seq<Seq<Seq<u8>>>, order: Seq<usize>)
    requires
        in_path_order(paths, order),
        order.len() > 0,
    ensures
        in_path_order(paths, order.drop_first()),
{
    let rest = order.drop_first();
    assert forall|i: int, j: int| 0 <= i < j < rest.len() implies listed_before(
        paths,
        #[trigger] rest[i],
        #[trigger] rest[j],
    ) by {
        assert(listed_before(paths, order[i + 1], order[j + 1]));
    }
}

/// Paths that are all different come out strictly ascending.
pub proof fn law_different_paths_ascend(
    paths: Seq<Seq<Seq<u8>>>,
    order: Seq<usize>,
    i: int,
    j: int,
)
    requires
        is_path_order(paths, order),
        forall|a: int, b: int| 0 <= a < b < paths.len() ==> #[trigger] paths[a] != #[trigger] paths[b],
        0 <= i < j < order.len(),
    ensures
        path_precedes(paths[order[i] as int], paths[order[j] as int]),
{
    assert(listed_before(paths, order[i], order[j]));
}

/// Paths are in the order of the first component in which they differ, and a
/// directory comes before all that lies in it.
pub proof fn law_path_order_is_by_first_difference(
    common: Seq<Seq<u8>>,
    x: Seq<u8>,
    a: Seq<Seq<u8>>,
    y: Seq<u8>,
    b: Seq<Seq<u8>>,
)
    requires
        precedes(x, y),
    ensures
        path_precedes(common + seq![x] + a, common + seq![y] + b),
        !path_precedes(common + seq![y] + b, common + seq![x] + a),
        path_precedes(common, common + seq![y] + b),
        !path_precedes(common, common),
    decreases common.len(),
{
    let p = common + seq![x] + a;
    let q = common + seq![y] + b;
    if common.len() > 0 {
        let rest = common.drop_first();
        law_path_order_is_by_first_difference(rest, x, a, y, b);
        assert(p.drop_first() =~= rest + seq![x] + a);
        assert(q.drop_first() =~= rest + seq![y] + b);
        assert(p[0] == common[0] && q[0] == common[0]);
    } else {
        law_order_is_total(x, y);
        assert(p[0] == x && q[0] == y);
    }
}

/// Sorting lists the position of every path, each once, so that no path comes
/// before one that precedes it; paths that are the same stay in their order.
pub proof fn law_sorting_lists_every_path(paths: Seq<Seq<Seq<u8>>>, order: Seq<usize>)
    requires
        is_path_order(paths, order),
        paths.len() <= usize::MAX,
    ensures
        order.len() == paths.len(),
        forall|a: int| 0 <= a < paths.len() ==> order.contains(#[trigger] (a as usize)),
        forall|i: int, j: int|
            0 <= i < j < order.len() ==> {
                let a = #[trigger] order[i] as int;
                let b = #[trigger] order[j] as int;
                &&& 0 <= a < paths.len() && 0 <= b < paths.len() && a != b
                &&& !path_precedes(paths[b], paths[a])
                &&& paths[a] == paths[b] ==> a < b
            },
{
    assert forall|i: int, j: int| 0 <= i < j < order.len() implies {
        let a = #[trigger] order[i] as int;
        let b = #[trigger] order[j] as int;
        &&& 0 <= a < paths.len() && 0 <= b < paths.len() && a != b
        &&& !path_precedes(paths[b], paths[a])
        &&& paths[a] == paths[b] ==> a < b
    } by {
        let a = order[i] as int;
        let b = order[j] as int;
        law_path_order_is_total(paths[a], paths[b]);
        law_path_order_is_total(paths[b], paths[a]);
        assert(listed_before(paths, order[i], order[j]));
    }
}

} // verus!
