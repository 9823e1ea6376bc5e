//! Greedy joining is optimal: the tree that it builds costs no more than
//! any way of putting the trees of the forest at depths that a binary tree
//! allows.

use vstd::prelude::*;
use crate::forest::{
    costs, greedy, holds_entries, is_entry, is_least, leaf, leaf_row, lemma_leaf_row, weights,
};
use crate::node::HuffmanNode;
use crate::sums::{
    lemma_sum_concat, lemma_sum_even, lemma_sum_nonnegative, lemma_sum_push, lemma_sum_remove,
    lemma_sum_scaled, lemma_sum_update, sum_of,
};
use crate::tree::{
    cost, height, is_full, is_weighted, leaf_depths, leaves, lemma_height_below_leaf_count,
    lemma_merged, merged,
};

verus! {

/// Two to the power `j`.
pub open spec fn two_to(j: nat) -> nat
    decreases j,
{
    if j == 0 {
        1
    } else {
        2 * two_to((j - 1) as nat)
    }
}

/// The depths as integers.
pub open spec fn depth_ints(depths: Seq<nat>) -> Seq<int> {
    depths.map_values(|d: nat| d as int)
}

/// The share of each depth in a tree of height `h`: how many places of the
/// lowest level lie below a node at that depth.
pub open spec fn shares(depths: Seq<nat>, h: nat) -> Seq<int> {
    depths.map_values(|d: nat| two_to((h - d) as nat) as int)
}

/// No depth exceeds `h`.
pub open spec fn within(depths: Seq<nat>, h: nat) -> bool {
    forall|i: int| 0 <= i < depths.len() ==> depths[i] <= h
}

/// The depths are such as the leaves of a binary tree of height `h` can
/// have: none exceeds `h`, and their shares of the lowest level are together
/// no more than the level holds.
pub open spec fn feasible(depths: Seq<nat>, h: nat) -> bool {
    within(depths, h) && sum_of(shares(depths, h)) <= two_to(h)
}

/// The weight of each tree times its depth.
pub open spec fn weighted_depths(forest: Seq<HuffmanNode>, depths: Seq<nat>) -> Seq<int> {
    Seq::new(forest.len(), |i: int| forest[i].f * depths[i])
}

/// Every power of two is at least one.
pub proof fn lemma_two_to_positive(j: nat)
    ensures
        two_to(j) >= 1,
    decreases j,
{
    if j > 0 {
        lemma_two_to_positive((j - 1) as nat);
    }
}

/// A place whose depth no other exceeds.
proof fn lemma_deepest(depths: Seq<nat>) -> (k: int)
    requires
        depths.len() > 0,
    ensures
        0 <= k < depths.len(),
        forall|i: int| 0 <= i < depths.len() ==> depths[i] <= depths[k],
    decreases depths.len(),
{
    if depths.len() == 1 {
        0
    } else {
        let k = lemma_deepest(depths.drop_last());
        let best = if depths.last() > depths[k] {
            depths.len() - 1
        } else {
            k
        };
        assert forall|i: int| 0 <= i < depths.len() implies depths[i] <= depths[best] by {
            if i < depths.len() - 1 {
                assert(depths.drop_last()[i] == depths[i]);
            }
        }
        best
    }
}

/// The shares are positive and the sums over a forest are not negative.
proof fn lemma_nonnegative(forest: Seq<HuffmanNode>, depths: Seq<nat>, h: nat)
    requires
        depths.len() == forest.len(),
    ensures
        sum_of(shares(depths, h)) >= 0,
        sum_of(weights(forest)) >= 0,
        sum_of(weighted_depths(forest, depths)) >= 0,
        sum_of(depth_ints(depths)) >= 0,
        forall|i: int| 0 <= i < depths.len() ==> shares(depths, h)[i] >= 1,
{
    assert forall|i: int| 0 <= i < depths.len() implies shares(depths, h)[i] >= 1 by {
        lemma_two_to_positive((h - depths[i]) as nat);
    }
    lemma_sum_nonnegative(shares(depths, h));
    lemma_sum_nonnegative(weights(forest));
    assert forall|i: int| 0 <= i < forest.len() implies weighted_depths(forest, depths)[i]
        >= 0 by {
        let f = forest[i].f as int;
        let d = depths[i] as int;
        assert(f * d >= 0) by (nonlinear_arith)
            requires
                f >= 0,
                d >= 0,
        ;
    }
    lemma_sum_nonnegative(weighted_depths(forest, depths));
    lemma_sum_nonnegative(depth_ints(depths));
}

/// Depths that are feasible for a height and all less than it are feasible
/// for the height one less.
proof fn lemma_lower_height(depths: Seq<nat>, h: nat)
    requires
        feasible(depths, h),
        h >= 1,
        within(depths, (h - 1) as nat),
    ensures
        feasible(depths, (h - 1) as nat),
{
    let below = (h - 1) as nat;
    lemma_sum_scaled(shares(depths, below), shares(depths, h), 2);
}

/// Gives the tree at `k` the depth `h` of the tree at `x`, and that one the
/// depth that `k` had. Where the tree at `k` is no heavier, the weighted
/// depths do not grow; the depths are the same set as before.
proof fn lemma_swap_depths(
    forest: Seq<HuffmanNode>,
    depths: Seq<nat>,
    h: nat,
    k: int,
    x: int,
) -> (out: Seq<nat>)
    requires
        depths.len() == forest.len(),
        0 <= k < forest.len(),
        0 <= x < forest.len(),
        within(depths, h),
        depths[x] == h,
        forest[k].f <= forest[x].f,
    ensures
        out.len() == depths.len(),
        out[k] == h,
        depths[k] == h ==> out == depths,
        forall|i: int| 0 <= i < out.len() && i != k && i != x ==> out[i] == depths[i],
        within(out, h),
        sum_of(shares(out, h)) == sum_of(shares(depths, h)),
        sum_of(depth_ints(out)) == sum_of(depth_ints(depths)),
        sum_of(weighted_depths(forest, out)) <= sum_of(weighted_depths(forest, depths)),
{
    if depths[k] == h {
        depths
    } else {
        let out = depths.update(k, h).update(x, depths[k]);
        let s = shares(depths, h);
        assert(shares(out, h) =~= s.update(k, s[x]).update(x, s[k]));
        lemma_sum_update(s, k, s[x]);
        lemma_sum_update(s.update(k, s[x]), x, s[k]);
        let d = depth_ints(depths);
        assert(depth_ints(out) =~= d.update(k, d[x]).update(x, d[k]));
        lemma_sum_update(d, k, d[x]);
        lemma_sum_update(d.update(k, d[x]), x, d[k]);
        let w = weighted_depths(forest, depths);
        let fk = forest[k].f as int;
        let fx = forest[x].f as int;
        let dk = depths[k] as int;
        let hh = h as int;
        assert(weighted_depths(forest, out) =~= w.update(k, fk * hh).update(x, fx * dk));
        lemma_sum_update(w, k, fk * hh);
        lemma_sum_update(w.update(k, fk * hh), x, fx * dk);
        assert(fk * hh + fx * dk <= fk * dk + fx * hh) by (nonlinear_arith)
            requires
                fk <= fx,
                dk <= hh,
        ;
        out
    }
}

/// What taking a tree out of a forest does to the sums.
proof fn lemma_take_out(forest: Seq<HuffmanNode>, depths: Seq<nat>, h: nat, k: int)
    requires
        depths.len() == forest.len(),
        0 <= k < forest.len(),
    ensures
        sum_of(shares(depths.remove(k), h)) == sum_of(shares(depths, h)) - two_to(
            (h - depths[k]) as nat,
        ),
        sum_of(weighted_depths(forest.remove(k), depths.remove(k))) == sum_of(
            weighted_depths(forest, depths),
        ) - forest[k].f * depths[k],
        sum_of(weights(forest.remove(k))) == sum_of(weights(forest)) - forest[k].f,
        sum_of(costs(forest.remove(k))) == sum_of(costs(forest)) - cost(forest[k]),
{
    assert(shares(depths.remove(k), h) =~= shares(depths, h).remove(k));
    lemma_sum_remove(shares(depths, h), k);
    assert(weighted_depths(forest.remove(k), depths.remove(k)) =~= weighted_depths(
        forest,
        depths,
    ).remove(k));
    lemma_sum_remove(weighted_depths(forest, depths), k);
    assert(weights(forest.remove(k)) =~= weights(forest).remove(k));
    lemma_sum_remove(weights(forest), k);
    assert(costs(forest.remove(k)) =~= costs(forest).remove(k));
    lemma_sum_remove(costs(forest), k);
}

/// What adding a tree to a forest does to the sums.
proof fn lemma_put_in(forest: Seq<HuffmanNode>, depths: Seq<nat>, h: nat, n: HuffmanNode, d: nat)
    requires
        depths.len() == forest.len(),
    ensures
        sum_of(shares(depths.push(d), h)) == sum_of(shares(depths, h)) + two_to((h - d) as nat),
        sum_of(weighted_depths(forest.push(n), depths.push(d))) == sum_of(
            weighted_depths(forest, depths),
        ) + n.f * d,
        sum_of(weights(forest.push(n))) == sum_of(weights(forest)) + n.f,
        sum_of(costs(forest.push(n))) == sum_of(costs(forest)) + cost(n),
{
    assert(shares(depths.push(d), h) =~= shares(depths, h).push(two_to((h - d) as nat) as int));
    lemma_sum_push(shares(depths, h), two_to((h - d) as nat) as int);
    assert(weighted_depths(forest.push(n), depths.push(d)) =~= weighted_depths(
        forest,
        depths,
    ).push(n.f * d));
    lemma_sum_push(weighted_depths(forest, depths), n.f * d);
    assert(weights(forest.push(n)) =~= weights(forest).push(n.f as int));
    lemma_sum_push(weights(forest), n.f as int);
    assert(costs(forest.push(n)) =~= costs(forest).push(cost(n)));
    lemma_sum_push(costs(forest), cost(n));
}

/// The two lightest trees of a forest go to the lowest level, where two
/// trees are, and are joined one level higher: the depths stay feasible, and
/// what the forest costs with its weighted depths does not grow.
proof fn lemma_join_step(
    forest: Seq<HuffmanNode>,
    depths: Seq<nat>,
    h: nat,
    top: int,
    other: int,
    l: HuffmanNode,
    r: HuffmanNode,
) -> (res: (Seq<HuffmanNode>, Seq<nat>))
    requires
        depths.len() == forest.len(),
        feasible(depths, h),
        h >= 1,
        0 <= top < forest.len(),
        0 <= other < forest.len(),
        top != other,
        depths[top] == h,
        depths[other] == h,
        is_least(forest.to_multiset(), l),
        is_least(forest.to_multiset().remove(l), r),
        sum_of(weights(forest)) <= u64::MAX,
    ensures
        res.0.len() == forest.len() - 1,
        res.1.len() == res.0.len(),
        res.0.to_multiset() == forest.to_multiset().remove(l).remove(r).insert(merged(l, r)),
        feasible(res.1, h),
        sum_of(weights(res.0)) == sum_of(weights(forest)),
        sum_of(costs(res.0)) + sum_of(weighted_depths(res.0, res.1)) <= sum_of(costs(forest))
            + sum_of(weighted_depths(forest, depths)),
{
    let whole = forest.to_multiset();
    forest.to_multiset_ensures();
    // the lightest tree goes to the lowest level
    assert(forest.contains(l));
    let kl = choose|k: int| 0 <= k < forest.len() && forest[k] == l;
    assert(whole.count(forest[top]) > 0) by {
        assert(forest.contains(forest[top]));
    }
    let depths0 = lemma_swap_depths(forest, depths, h, kl, top);
    // another tree of the lowest level
    let y = if kl == other {
        top
    } else {
        other
    };
    assert(y != kl && depths0[y] == h);
    lemma_take_out(forest, depths0, h, kl);
    let forest1 = forest.remove(kl);
    let depths1 = depths0.remove(kl);
    let y1 = if y < kl {
        y
    } else {
        y - 1
    };
    assert(depths1[y1] == h);
    assert(forest1.to_multiset() == whole.remove(l));
    forest1.to_multiset_ensures();
    // the lightest of the others joins it there
    assert(forest1.contains(r));
    let kr = choose|k: int| 0 <= k < forest1.len() && forest1[k] == r;
    assert(whole.remove(l).count(forest1[y1]) > 0) by {
        assert(forest1.contains(forest1[y1]));
    }
    assert(within(depths1, h));
    let depths1s = lemma_swap_depths(forest1, depths1, h, kr, y1);
    lemma_take_out(forest1, depths1s, h, kr);
    let forest2 = forest1.remove(kr);
    let depths2 = depths1s.remove(kr);
    assert(forest2.to_multiset() == whole.remove(l).remove(r));
    lemma_nonnegative(forest2, depths2, h);
    // the two are joined one level higher
    let p = merged(l, r);
    lemma_merged(l, r);
    let above = (h - 1) as nat;
    let forest3 = forest2.push(p);
    let depths3 = depths2.push(above);
    forest2.to_multiset_ensures();
    assert(forest3.to_multiset() == whole.remove(l).remove(r).insert(p));
    lemma_put_in(forest2, depths2, h, p, above);
    assert(two_to(0) == 1);
    assert(two_to(1) == 2) by {
        reveal_with_fuel(two_to, 2);
    }
    assert(within(depths3, h));
    let fl = l.f as int;
    let fr = r.f as int;
    let hh = h as int;
    assert((fl + fr) * (hh - 1) + fl + fr == fl * hh + fr * hh) by (nonlinear_arith);
    (forest3, depths3)
}

/// A tree that is alone on the lowest level goes one level up: the depths
/// stay feasible, and the weighted depths do not grow.
proof fn lemma_raise_step(forest: Seq<HuffmanNode>, depths: Seq<nat>, h: nat, top: int) -> (raised:
    Seq<nat>)
    requires
        depths.len() == forest.len(),
        feasible(depths, h),
        h >= 1,
        0 <= top < forest.len(),
        depths[top] == h,
        forall|i: int| 0 <= i < depths.len() && i != top ==> depths[i] < h,
    ensures
        raised.len() == depths.len(),
        feasible(raised, h),
        sum_of(weighted_depths(forest, raised)) <= sum_of(weighted_depths(forest, depths)),
        sum_of(depth_ints(raised)) == sum_of(depth_ints(depths)) - 1,
{
    let s = shares(depths, h);
    lemma_sum_remove(s, top);
    assert(s[top] == 1);
    assert forall|i: int| 0 <= i < s.remove(top).len() implies s.remove(top)[i] % 2 == 0 by {
        let i0 = if i < top {
            i
        } else {
            i + 1
        };
        assert(s.remove(top)[i] == s[i0]);
        assert(depths[i0] < h);
    }
    lemma_sum_even(s.remove(top));
    let above = (h - 1) as nat;
    let raised = depths.update(top, above);
    assert(shares(raised, h) =~= s.update(top, 2)) by {
        reveal_with_fuel(two_to, 2);
    }
    lemma_sum_update(s, top, 2);
    let w = weighted_depths(forest, depths);
    let f = forest[top].f as int;
    let hh = h as int;
    assert(weighted_depths(forest, raised) =~= w.update(top, f * (hh - 1)));
    lemma_sum_update(w, top, f * (hh - 1));
    assert(f * (hh - 1) <= f * hh) by (nonlinear_arith)
        requires
            f >= 0,
    ;
    assert(depth_ints(raised) =~= depth_ints(depths).update(top, hh - 1));
    lemma_sum_update(depth_ints(depths), top, hh - 1);
    raised
}

/// Two trees cannot both stand at the root.
proof fn lemma_one_root(depths: Seq<nat>)
    requires
        feasible(depths, 0),
    ensures
        depths.len() <= 1,
{
    if depths.len() >= 2 {
        let s = shares(depths, 0);
        lemma_sum_remove(s, 0);
        lemma_sum_remove(s.remove(0), 0);
        assert forall|i: int| 0 <= i < s.len() implies s[i] >= 1 by {
            lemma_two_to_positive((0 - depths[i]) as nat);
        }
        lemma_sum_nonnegative(s.remove(0).remove(0));
        assert(s[0] == 1 && s[1] == 1);
    }
}

/// A tree that greedy joining makes of a forest costs no more than the trees
/// cost already and their weights at any feasible depths: no binary tree
/// over the forest is cheaper.
pub proof fn lemma_greedy_beats(
    forest: Seq<HuffmanNode>,
    depths: Seq<nat>,
    h: nat,
    t: HuffmanNode,
)
    requires
        greedy(forest.to_multiset(), t),
        forest.len() >= 1,
        depths.len() == forest.len(),
        feasible(depths, h),
        sum_of(weights(forest)) <= u64::MAX,
    ensures
        cost(t) <= sum_of(costs(forest)) + sum_of(weighted_depths(forest, depths)),
    decreases forest.len(), sum_of(depth_ints(depths)), h,
{
    let whole = forest.to_multiset();
    forest.to_multiset_ensures();
    lemma_nonnegative(forest, depths, h);
    if forest.len() == 1 {
        assert(whole.count(t) > 0);
        assert(forest.contains(t));
        assert(forest[0] == t);
        assert(costs(forest) =~= Seq::<int>::empty().push(cost(t)));
        lemma_sum_push(Seq::<int>::empty(), cost(t));
    } else {
        let top = lemma_deepest(depths);
        if depths[top] < h {
            lemma_lower_height(depths, h);
            lemma_greedy_beats(forest, depths, (h - 1) as nat, t);
        } else if h == 0 {
            lemma_one_root(depths);
        } else if exists|y: int| 0 <= y < depths.len() && y != top && depths[y] == h {
            let other = choose|y: int| 0 <= y < depths.len() && y != top && depths[y] == h;
            let (l, r) = choose|l: HuffmanNode, r: HuffmanNode|
                is_least(whole, l) && is_least(whole.remove(l), r) && greedy(
                    whole.remove(l).remove(r).insert(merged(l, r)),
                    t,
                );
            let (joined, lifted) = lemma_join_step(forest, depths, h, top, other, l, r);
            lemma_greedy_beats(joined, lifted, h, t);
        } else {
            let raised = lemma_raise_step(forest, depths, h, top);
            lemma_nonnegative(forest, raised, h);
            lemma_greedy_beats(forest, raised, h, t);
        }
    }
}

/// The leaves of a tree as trees of their own, from left to right.
pub open spec fn leaf_nodes(n: HuffmanNode) -> Seq<HuffmanNode> {
    leaves(n).map_values(|e: (u8, u64)| leaf(e.0, e.1))
}

/// `t` costs no more than any tree with the same leaves in which every
/// internal node weighs what its subtrees weigh together: it has the least
/// weighted path length.
pub open spec fn cheapest(t: HuffmanNode) -> bool {
    forall|u: HuffmanNode|
        is_weighted(u) && leaves(u).to_multiset() == leaves(t).to_multiset() ==> cost(t) <= cost(
            u,
        )
}

/// The sums over the leaves of a tree with consistent weights: the leaves
/// weigh what the tree weighs and cost nothing, and their weighted depths
/// are what the tree costs, and its weight once for each level that it
/// stands below the root.
proof fn lemma_leaf_sums(u: HuffmanNode, from: nat)
    requires
        is_weighted(u),
    ensures
        leaf_depths(u, from).len() == leaf_nodes(u).len(),
        sum_of(weights(leaf_nodes(u))) == u.f,
        sum_of(costs(leaf_nodes(u))) == 0,
        sum_of(weighted_depths(leaf_nodes(u), leaf_depths(u, from))) == cost(u) + from * u.f,
    decreases u,
{
    match u.ch {
        Some(sym) => {
            let n = leaf(sym, u.f);
            assert(leaf_nodes(u) =~= Seq::<HuffmanNode>::empty().push(n));
            assert(leaf_depths(u, from) =~= Seq::<nat>::empty().push(from));
            assert(weights(leaf_nodes(u)) =~= Seq::<int>::empty().push(u.f as int));
            lemma_sum_push(Seq::<int>::empty(), u.f as int);
            assert(costs(leaf_nodes(u)) =~= Seq::<int>::empty().push(0));
            lemma_sum_push(Seq::<int>::empty(), 0);
            assert(weighted_depths(leaf_nodes(u), leaf_depths(u, from)) =~= Seq::<
                int,
            >::empty().push(u.f * from));
            lemma_sum_push(Seq::<int>::empty(), u.f * from);
            assert(u.f * from == from * u.f) by (nonlinear_arith);
        },
        None => {
            let l = *u.l.unwrap();
            let r = *u.r.unwrap();
            lemma_leaf_sums(l, from + 1);
            lemma_leaf_sums(r, from + 1);
            assert(leaf_nodes(u) =~= leaf_nodes(l) + leaf_nodes(r));
            assert(weights(leaf_nodes(u)) =~= weights(leaf_nodes(l)) + weights(leaf_nodes(r)));
            lemma_sum_concat(weights(leaf_nodes(l)), weights(leaf_nodes(r)));
            assert(costs(leaf_nodes(u)) =~= costs(leaf_nodes(l)) + costs(leaf_nodes(r)));
            lemma_sum_concat(costs(leaf_nodes(l)), costs(leaf_nodes(r)));
            let dl = weighted_depths(leaf_nodes(l), leaf_depths(l, from + 1));
            let dr = weighted_depths(leaf_nodes(r), leaf_depths(r, from + 1));
            assert(weighted_depths(leaf_nodes(u), leaf_depths(u, from)) =~= dl + dr);
            lemma_sum_concat(dl, dr);
            let fl = l.f as int;
            let fr = r.f as int;
            let d = from as int;
            assert((d + 1) * fl + (d + 1) * fr == fl + fr + d * (fl + fr)) by (nonlinear_arith);
        },
    }
}

/// The depths of the leaves of a tree are feasible for any height that the
/// tree fits in.
proof fn lemma_leaf_depths_feasible(u: HuffmanNode, from: nat, h: nat)
    requires
        from + height(u) <= h,
    ensures
        within(leaf_depths(u, from), h),
        sum_of(shares(leaf_depths(u, from), h)) <= two_to((h - from) as nat),
    decreases u,
{
    match u.ch {
        Some(_) => {
            let share = two_to((h - from) as nat) as int;
            assert(shares(leaf_depths(u, from), h) =~= Seq::<int>::empty().push(share));
            lemma_sum_push(Seq::<int>::empty(), share);
        },
        None => {
            let in_left = match u.l {
                Some(l) => leaf_depths(*l, from + 1),
                None => Seq::empty(),
            };
            let in_right = match u.r {
                Some(r) => leaf_depths(*r, from + 1),
                None => Seq::empty(),
            };
            if let Some(l) = u.l {
                lemma_leaf_depths_feasible(*l, from + 1, h);
            }
            if let Some(r) = u.r {
                lemma_leaf_depths_feasible(*r, from + 1, h);
            }
            assert(shares(leaf_depths(u, from), h) =~= shares(in_left, h) + shares(in_right, h));
            lemma_sum_concat(shares(in_left, h), shares(in_right, h));
            assert(two_to((h - from) as nat) == 2 * two_to((h - from - 1) as nat));
            lemma_two_to_positive((h - from - 1) as nat);
            if u.l is None {
                assert(shares(in_left, h) =~= Seq::<int>::empty());
            }
            if u.r is None {
                assert(shares(in_right, h) =~= Seq::<int>::empty());
            }
        },
    }
}

/// How often a tree is among the leaves of a sequence of entries made into
/// trees: as often as its entry is in the sequence where it is a bare leaf,
/// and not at all where it is anything else.
proof fn lemma_count_as_nodes(entries: Seq<(u8, u64)>, x: HuffmanNode)
    ensures
        entries.map_values(|e: (u8, u64)| leaf(e.0, e.1)).to_multiset().count(x) == if x.ch is Some
            && x.l is None && x.r is None {
            entries.to_multiset().count((x.ch.unwrap(), x.f))
        } else {
            0
        },
    decreases entries.len(),
{
    let nodes = entries.map_values(|e: (u8, u64)| leaf(e.0, e.1));
    if entries.len() == 0 {
        nodes.to_multiset_ensures();
        entries.to_multiset_ensures();
        assert(nodes.to_multiset().len() == 0);
        assert(entries.to_multiset().len() == 0);
    } else {
        let fewer = entries.drop_last();
        let last = entries.last();
        lemma_count_as_nodes(fewer, x);
        let fewer_nodes = fewer.map_values(|e: (u8, u64)| leaf(e.0, e.1));
        assert(entries =~= fewer.push(last));
        assert(nodes =~= fewer_nodes.push(leaf(last.0, last.1)));
        fewer.to_multiset_ensures();
        fewer_nodes.to_multiset_ensures();
    }
}

/// How often a tree is in the row of leaves of a table: once where it is
/// the bare leaf of an entry, and not at all where it is anything else.
proof fn lemma_count_in_row(freqs: Map<u8, u64>, k: int, x: HuffmanNode)
    requires
        0 <= k <= 256,
    ensures
        leaf_row(freqs, k).to_multiset().count(x) == if x.ch is Some && x.l is None && x.r is None
            && x.ch.unwrap() < k && is_entry(freqs, (x.ch.unwrap(), x.f)) {
            1nat
        } else {
            0nat
        },
    decreases k,
{
    if k == 0 {
        leaf_row(freqs, k).to_multiset_ensures();
        assert(leaf_row(freqs, k).to_multiset().len() == 0);
    } else {
        lemma_count_in_row(freqs, k - 1, x);
        leaf_row(freqs, k - 1).to_multiset_ensures();
    }
}

/// A tree whose leaves are the entries of a table has the row of leaves of
/// the table as its leaves, in some order.
pub proof fn lemma_leaves_are_the_row(u: HuffmanNode, freqs: Map<u8, u64>)
    requires
        holds_entries(u, freqs),
    ensures
        leaf_nodes(u).to_multiset() == leaf_row(freqs, 256).to_multiset(),
        leaves(u).len() == leaf_row(freqs, 256).len(),
        leaves(u).len() <= 256,
{
    let forest = leaf_nodes(u);
    assert(forest.to_multiset() =~= leaf_row(freqs, 256).to_multiset()) by {
        assert forall|x: HuffmanNode|
            forest.to_multiset().count(x) == leaf_row(freqs, 256).to_multiset().count(x) by {
            lemma_count_as_nodes(leaves(u), x);
            lemma_count_in_row(freqs, 256, x);
            if x.ch is Some {
                let e = (x.ch.unwrap(), x.f);
                assert(leaves(u).to_multiset().count(e) == if is_entry(freqs, e) {
                    1nat
                } else {
                    0nat
                });
            }
        }
    }
    forest.to_multiset_ensures();
    leaf_row(freqs, 256).to_multiset_ensures();
    lemma_leaf_row(freqs, 256, (0u8, 0u64));
}

/// A strict binary tree whose leaves are the entries of a table has at most
/// 255 levels below its root.
pub proof fn lemma_height_of_entries(t: HuffmanNode, freqs: Map<u8, u64>)
    requires
        is_full(t),
        holds_entries(t, freqs),
    ensures
        height(t) <= 255,
{
    lemma_leaves_are_the_row(t, freqs);
    lemma_height_below_leaf_count(t);
}

/// A tree that greedy joining makes of the leaves of a table, and whose
/// leaves are the entries of the table, is a cheapest tree.
pub proof fn lemma_greedy_is_cheapest(t: HuffmanNode, freqs: Map<u8, u64>)
    requires
        greedy(leaf_row(freqs, 256).to_multiset(), t),
        holds_entries(t, freqs),
    ensures
        cheapest(t),
{
    assert forall|u: HuffmanNode|
        is_weighted(u) && leaves(u).to_multiset() == leaves(t).to_multiset() implies cost(t)
        <= cost(u) by {
        let forest = leaf_nodes(u);
        let depths = leaf_depths(u, 0);
        let h = height(u);
        lemma_leaf_sums(u, 0);
        lemma_leaf_depths_feasible(u, 0, h);
        assert(holds_entries(u, freqs));
        lemma_leaves_are_the_row(u, freqs);
        leaf_row(freqs, 256).to_multiset_ensures();
        if forest.len() == 0 {
            assert(leaf_row(freqs, 256).to_multiset().len() == 0);
            assert(leaf_row(freqs, 256).to_multiset().count(t) == 1);
        }
        lemma_greedy_beats(forest, depths, h, t);
    }
}

} // verus!
