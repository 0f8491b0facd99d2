//! k-way clustering on top of the tabu-search engine.
//!
//! A clustering state is a partition: a fixed-length sequence of groups that
//! together hold every input item exactly as often as the input does. A
//! neighbor of a partition moves one item from its group to the end of
//! another group; the engine walks these moves to minimize a caller-supplied
//! cost over the groups.

use vstd::multiset::Multiset;
use vstd::prelude::*;

use crate::clustering::diameter::diameter;
use crate::clustering::diameter::spec_diameter;
use crate::clustering::diameter::AbsDistance;
use crate::search::tabu::lemma_run_preserves_inv;
use crate::search::tabu::spec_run;
use crate::search::tabu::tabu_search;
use crate::search::tabu::SearchSpace;

verus! {

broadcast use {vstd::multiset::group_multiset_axioms, vstd::seq_lib::group_to_multiset_ensures};

/// An item that clustering can handle: equality must be decidable and a value
/// must be duplicable, both faithfully to the mathematical value.
pub trait Element: Sized {
    /// Decides equality of two items.
    fn eq_elem(&self, other: &Self) -> (r: bool)
        ensures
            r == (*self == *other),
    ;

    /// Duplicates an item.
    fn dup_elem(&self) -> (r: Self)
        ensures
            r == *self,
    ;
}

impl Element for u32 {
    fn eq_elem(&self, other: &Self) -> (r: bool) {
        *self == *other
    }

    fn dup_elem(&self) -> (r: Self) {
        *self
    }
}

/// The mathematical value of a groups vector: the sequence of its groups'
/// sequences.
pub open spec fn groups_view<Item>(g: Vec<Vec<Item>>) -> Seq<Seq<Item>> {
    g@.map_values(|x: Vec<Item>| x@)
}

/// A cost over partitions, supplied by the caller of `cluster_tabu`; lower is
/// better.
pub trait PartitionCost {
    type Item;

    /// The cost of a partition, on the abstraction.
    spec fn spec_cost(&self, groups: Seq<Seq<Self::Item>>) -> i64;

    /// Evaluates the cost of a partition.
    fn cost(&self, groups: &Vec<Vec<Self::Item>>) -> (c: i64)
        ensures
            c == self.spec_cost(groups_view(*groups)),
    ;
}

/// The partition obtained by moving the item at position `k` of group `i` to
/// the end of group `j`.
pub open spec fn move_one<Item>(m: Seq<Seq<Item>>, i: int, k: int, j: int) -> Seq<Seq<Item>> {
    m.update(i, m[i].remove(k)).update(j, m[j].push(m[i][k]))
}

/// The moves of the item at position `k` of group `i` into each group from
/// `j` upward, skipping group `i` itself, in group order.
pub open spec fn moves_for_item<Item>(m: Seq<Seq<Item>>, i: int, k: int, j: int) -> Seq<
    Seq<Seq<Item>>,
>
    decreases m.len() - j,
{
    if j < 0 || j >= m.len() {
        Seq::empty()
    } else {
        (if j == i {
            Seq::empty()
        } else {
            seq![move_one(m, i, k, j)]
        }) + moves_for_item(m, i, k, j + 1)
    }
}

/// The moves of each item of group `i` from position `k` upward, in item
/// order.
pub open spec fn moves_for_group<Item>(m: Seq<Seq<Item>>, i: int, k: int) -> Seq<Seq<Seq<Item>>>
    decreases m[i].len() - k,
{
    if i < 0 || i >= m.len() || k < 0 || k >= m[i].len() {
        Seq::empty()
    } else {
        moves_for_item(m, i, k, 0) + moves_for_group(m, i, k + 1)
    }
}

/// The moves out of each group from `i` upward, in group order.
pub open spec fn all_moves_from<Item>(m: Seq<Seq<Item>>, i: int) -> Seq<Seq<Seq<Item>>>
    decreases m.len() - i,
{
    if i < 0 || i >= m.len() {
        Seq::empty()
    } else {
        moves_for_group(m, i, 0) + all_moves_from(m, i + 1)
    }
}

/// The neighbors of a partition: for every group, every item in it, and every
/// other group, the partition with that item moved there, enumerated in that
/// nesting order.
pub open spec fn all_moves<Item>(m: Seq<Seq<Item>>) -> Seq<Seq<Seq<Item>>> {
    all_moves_from(m, 0)
}

/// All the items a partition holds, with multiplicity.
pub open spec fn partition_multiset<Item>(m: Seq<Seq<Item>>) -> Multiset<Item>
    decreases m.len(),
{
    if m.len() == 0 {
        Multiset::empty()
    } else {
        partition_multiset(m.drop_last()).add(m.last().to_multiset())
    }
}

proof fn lemma_pm_push<Item>(m: Seq<Seq<Item>>, g: Seq<Item>)
    ensures
        partition_multiset(m.push(g)) == partition_multiset(m).add(g.to_multiset()),
{
    assert(m.push(g).drop_last() =~= m);
    assert(m.push(g).last() == g);
}

proof fn lemma_pm_update<Item>(m: Seq<Seq<Item>>, i: int, s: Seq<Item>)
    requires
        0 <= i < m.len(),
    ensures
        partition_multiset(m.update(i, s)).add(m[i].to_multiset()) == partition_multiset(m).add(
            s.to_multiset(),
        ),
    decreases m.len(),
{
    let lhs = partition_multiset(m.update(i, s)).add(m[i].to_multiset());
    let rhs = partition_multiset(m).add(s.to_multiset());
    if i == m.len() - 1 {
        assert(m.update(i, s).drop_last() =~= m.drop_last());
        assert(m.update(i, s).last() == s);
        assert(m.last() == m[i]);
        let a = partition_multiset(m.drop_last());
        assert(partition_multiset(m.update(i, s)) == a.add(s.to_multiset()));
        assert(partition_multiset(m) == a.add(m[i].to_multiset()));
        assert forall|x: Item| lhs.count(x) == rhs.count(x) by {
            assert((a.add(s.to_multiset())).count(x) == a.count(x) + s.to_multiset().count(x));
            assert((a.add(m[i].to_multiset())).count(x) == a.count(x) + m[i].to_multiset().count(
                x,
            ));
            assert(lhs.count(x) == (a.add(s.to_multiset())).count(x) + m[i].to_multiset().count(
                x,
            ));
            assert(rhs.count(x) == (a.add(m[i].to_multiset())).count(x) + s.to_multiset().count(
                x,
            ));
        }
        assert(lhs =~= rhs);
    } else {
        assert(m.update(i, s).drop_last() =~= m.drop_last().update(i, s));
        assert(m.update(i, s).last() == m.last());
        lemma_pm_update(m.drop_last(), i, s);
        assert(m.drop_last()[i] == m[i]);
        let dlu = partition_multiset(m.drop_last().update(i, s));
        let dl = partition_multiset(m.drop_last());
        let lt = m.last().to_multiset();
        assert(partition_multiset(m.update(i, s)) == dlu.add(lt));
        assert(partition_multiset(m) == dl.add(lt));
        assert(dlu.add(m[i].to_multiset()) == dl.add(s.to_multiset()));
        assert forall|x: Item| lhs.count(x) == rhs.count(x) by {
            assert((dlu.add(m[i].to_multiset())).count(x) == dlu.count(x)
                + m[i].to_multiset().count(x));
            assert((dl.add(s.to_multiset())).count(x) == dl.count(x) + s.to_multiset().count(x));
            assert((dlu.add(lt)).count(x) == dlu.count(x) + lt.count(x));
            assert((dl.add(lt)).count(x) == dl.count(x) + lt.count(x));
            assert(lhs.count(x) == (dlu.add(lt)).count(x) + m[i].to_multiset().count(x));
            assert(rhs.count(x) == (dl.add(lt)).count(x) + s.to_multiset().count(x));
        }
        assert(lhs =~= rhs);
    }
}

proof fn lemma_move_one_preserves<Item>(m: Seq<Seq<Item>>, i: int, k: int, j: int)
    requires
        0 <= i < m.len(),
        0 <= j < m.len(),
        i != j,
        0 <= k < m[i].len(),
    ensures
        move_one(m, i, k, j).len() == m.len(),
        partition_multiset(move_one(m, i, k, j)) == partition_multiset(m),
{
    let item = m[i][k];
    let m1 = m.update(i, m[i].remove(k));
    let m2 = m1.update(j, m[j].push(item));
    assert(move_one(m, i, k, j) == m2);
    lemma_pm_update(m, i, m[i].remove(k));
    assert(m1[j] == m[j]);
    lemma_pm_update(m1, j, m[j].push(item));
    assert(m[i].contains(item));
    assert(m[i].to_multiset().count(item) > 0);
    assert(m[i].remove(k).to_multiset() =~= m[i].to_multiset().remove(item));
    assert(m[j].push(item).to_multiset() =~= m[j].to_multiset().insert(item));
    assert forall|x: Item| partition_multiset(m2).count(x) == partition_multiset(m).count(
        x,
    ) by {
        assert(partition_multiset(m1).add(m[i].to_multiset()).count(x) == partition_multiset(
            m1,
        ).count(x) + m[i].to_multiset().count(x));
        assert(partition_multiset(m).add(m[i].remove(k).to_multiset()).count(x)
            == partition_multiset(m).count(x) + m[i].remove(k).to_multiset().count(x));
        assert(partition_multiset(m1).count(x) + m[i].to_multiset().count(x)
            == partition_multiset(m).count(x) + m[i].remove(k).to_multiset().count(x));
        assert(partition_multiset(m2).add(m1[j].to_multiset()).count(x) == partition_multiset(
            m2,
        ).count(x) + m[j].to_multiset().count(x));
        assert(partition_multiset(m1).add(m[j].push(item).to_multiset()).count(x)
            == partition_multiset(m1).count(x) + m[j].push(item).to_multiset().count(x));
        assert(partition_multiset(m2).count(x) + m[j].to_multiset().count(x)
            == partition_multiset(m1).count(x) + m[j].push(item).to_multiset().count(x));
        assert(m[i].remove(k).to_multiset().count(x) == m[i].to_multiset().remove(item).count(x));
        assert(m[j].push(item).to_multiset().count(x) == m[j].to_multiset().insert(item).count(x));
    }
    assert(partition_multiset(m2) =~= partition_multiset(m));
}

proof fn lemma_moves_for_item_char<Item>(m: Seq<Seq<Item>>, i: int, k: int, j0: int)
    requires
        0 <= i < m.len(),
        0 <= k < m[i].len(),
    ensures
        forall|x: int|
            0 <= x < moves_for_item(m, i, k, j0).len() ==> exists|j: int|
                0 <= j < m.len() && j != i && #[trigger] moves_for_item(m, i, k, j0)[x]
                    == move_one(m, i, k, j),
    decreases m.len() - j0,
{
    if 0 <= j0 < m.len() {
        lemma_moves_for_item_char(m, i, k, j0 + 1);
        let head: Seq<Seq<Seq<Item>>> = if j0 == i {
            Seq::empty()
        } else {
            seq![move_one(m, i, k, j0)]
        };
        let tail = moves_for_item(m, i, k, j0 + 1);
        assert(moves_for_item(m, i, k, j0) == head + tail);
        assert forall|x: int| 0 <= x < moves_for_item(m, i, k, j0).len() implies exists|j: int|
            0 <= j < m.len() && j != i && #[trigger] moves_for_item(m, i, k, j0)[x] == move_one(
            m,
            i,
            k,
            j,
        ) by {
            if x < head.len() {
                assert(moves_for_item(m, i, k, j0)[x] == move_one(m, i, k, j0));
            } else {
                assert(moves_for_item(m, i, k, j0)[x] == tail[x - head.len()]);
                let jj = choose|j: int|
                    0 <= j < m.len() && j != i && #[trigger] tail[x - head.len()] == move_one(
                        m,
                        i,
                        k,
                        j,
                    );
                assert(moves_for_item(m, i, k, j0)[x] == move_one(m, i, k, jj));
            }
        }
    }
}

proof fn lemma_moves_for_group_char<Item>(m: Seq<Seq<Item>>, i: int, k0: int)
    requires
        0 <= i < m.len(),
    ensures
        forall|x: int|
            0 <= x < moves_for_group(m, i, k0).len() ==> exists|k: int, j: int|
                0 <= k < m[i].len() && 0 <= j < m.len() && j != i && #[trigger] moves_for_group(
                    m,
                    i,
                    k0,
                )[x] == move_one(m, i, k, j),
    decreases m[i].len() - k0,
{
    if 0 <= k0 < m[i].len() {
        lemma_moves_for_item_char(m, i, k0, 0);
        lemma_moves_for_group_char(m, i, k0 + 1);
        let head = moves_for_item(m, i, k0, 0);
        let tail = moves_for_group(m, i, k0 + 1);
        assert(moves_for_group(m, i, k0) == head + tail);
        assert forall|x: int| 0 <= x < moves_for_group(m, i, k0).len() implies exists|
            k: int,
            j: int,
        |
            0 <= k < m[i].len() && 0 <= j < m.len() && j != i && #[trigger] moves_for_group(
                m,
                i,
                k0,
            )[x] == move_one(m, i, k, j) by {
            if x < head.len() {
                let jj = choose|j: int|
                    0 <= j < m.len() && j != i && #[trigger] head[x] == move_one(m, i, k0, j);
                assert(moves_for_group(m, i, k0)[x] == move_one(m, i, k0, jj));
            } else {
                let (kk, jj) = choose|k: int, j: int|
                    0 <= k < m[i].len() && 0 <= j < m.len() && j != i && #[trigger] tail[x
                        - head.len()] == move_one(m, i, k, j);
                assert(moves_for_group(m, i, k0)[x] == move_one(m, i, kk, jj));
            }
        }
    }
}

proof fn lemma_all_moves_char<Item>(m: Seq<Seq<Item>>, i0: int)
    ensures
        forall|x: int|
            0 <= x < all_moves_from(m, i0).len() ==> exists|i: int, k: int, j: int|
                0 <= i < m.len() && 0 <= k < m[i].len() && 0 <= j < m.len() && j != i
                    && #[trigger] all_moves_from(m, i0)[x] == move_one(m, i, k, j),
    decreases m.len() - i0,
{
    if 0 <= i0 < m.len() {
        lemma_moves_for_group_char(m, i0, 0);
        lemma_all_moves_char(m, i0 + 1);
        let head = moves_for_group(m, i0, 0);
        let tail = all_moves_from(m, i0 + 1);
        assert(all_moves_from(m, i0) == head + tail);
        assert forall|x: int| 0 <= x < all_moves_from(m, i0).len() implies exists|
            i: int,
            k: int,
            j: int,
        |
            0 <= i < m.len() && 0 <= k < m[i].len() && 0 <= j < m.len() && j != i
                && #[trigger] all_moves_from(m, i0)[x] == move_one(m, i, k, j) by {
            if x < head.len() {
                let (kk, jj) = choose|k: int, j: int|
                    0 <= k < m[i0].len() && 0 <= j < m.len() && j != i0 && #[trigger] head[x]
                        == move_one(m, i0, k, j);
                assert(all_moves_from(m, i0)[x] == move_one(m, i0, kk, jj));
            } else {
                let (ii, kk, jj) = choose|i: int, k: int, j: int|
                    0 <= i < m.len() && 0 <= k < m[i].len() && 0 <= j < m.len() && j != i
                        && #[trigger] tail[x - head.len()] == move_one(m, i, k, j);
                assert(all_moves_from(m, i0)[x] == move_one(m, ii, kk, jj));
            }
        }
    }
}

/// Every neighbor of a partition is again a partition of the same items into
/// the same number of groups.
pub proof fn lemma_all_moves_preserve<Item>(m: Seq<Seq<Item>>, x: int)
    requires
        0 <= x < all_moves(m).len(),
    ensures
        all_moves(m)[x].len() == m.len(),
        partition_multiset(all_moves(m)[x]) == partition_multiset(m),
{
    lemma_all_moves_char(m, 0);
    let (ii, kk, jj) = choose|i: int, k: int, j: int|
        0 <= i < m.len() && 0 <= k < m[i].len() && 0 <= j < m.len() && j != i
            && #[trigger] all_moves_from(m, 0)[x] == move_one(m, i, k, j);
    lemma_move_one_preserves(m, ii, kk, jj);
}

/// The starting partition: all items in the first group, then `n - 1` empty
/// groups.
pub open spec fn initial_groups<Item>(items: Seq<Item>, n: nat) -> Seq<Seq<Item>>
    decreases n,
{
    if n <= 1 {
        seq![items]
    } else {
        initial_groups(items, (n - 1) as nat).push(Seq::empty())
    }
}

proof fn lemma_initial_groups<Item>(items: Seq<Item>, n: nat)
    requires
        n >= 1,
    ensures
        initial_groups(items, n).len() == n,
        partition_multiset(initial_groups(items, n)) == items.to_multiset(),
    decreases n,
{
    assert(Seq::<Item>::empty().to_multiset() =~= Multiset::<Item>::empty());
    if n == 1 {
        assert(initial_groups(items, n) == seq![items]);
        assert(seq![items].drop_last() =~= Seq::<Seq<Item>>::empty());
        assert(seq![items].last() == items);
        assert(partition_multiset(Seq::<Seq<Item>>::empty()) == Multiset::<Item>::empty());
        assert(partition_multiset(seq![items]) == Multiset::<Item>::empty().add(
            items.to_multiset(),
        ));
        assert(Multiset::<Item>::empty().add(items.to_multiset()) =~= items.to_multiset());
    } else {
        lemma_initial_groups(items, (n - 1) as nat);
        let prev = initial_groups(items, (n - 1) as nat);
        assert(initial_groups(items, n) == prev.push(Seq::<Item>::empty()));
        lemma_pm_push(prev, Seq::<Item>::empty());
        assert(partition_multiset(initial_groups(items, n)) == items.to_multiset().add(
            Seq::<Item>::empty().to_multiset(),
        ));
        assert(items.to_multiset().add(Seq::<Item>::empty().to_multiset())
            =~= items.to_multiset());
    }
}

fn copy_group<Item: Element>(g: &Vec<Item>) -> (r: Vec<Item>)
    ensures
        r@ == g@,
{
    let mut r: Vec<Item> = Vec::new();
    let mut idx: usize = 0;
    while idx < g.len()
        invariant
            idx <= g@.len(),
            r@ == g@.take(idx as int),
        decreases g@.len() - idx,
    {
        r.push(g[idx].dup_elem());
        proof {
            assert(g@.take(idx as int + 1) =~= g@.take(idx as int).push(g@[idx as int]));
        }
        idx += 1;
    }
    proof {
        assert(g@.take(g@.len() as int) =~= g@);
    }
    r
}

fn copy_group_without<Item: Element>(g: &Vec<Item>, k: usize) -> (r: Vec<Item>)
    requires
        k < g@.len(),
    ensures
        r@ == g@.remove(k as int),
{
    let mut r: Vec<Item> = Vec::new();
    let mut idx: usize = 0;
    while idx < g.len()
        invariant
            idx <= g@.len(),
            k < g@.len(),
            idx <= k ==> r@ == g@.take(idx as int),
            idx > k ==> r@ == g@.subrange(0, k as int) + g@.subrange(k as int + 1, idx as int),
        decreases g@.len() - idx,
    {
        if idx != k {
            r.push(g[idx].dup_elem());
        }
        proof {
            if idx < k {
                assert(g@.take(idx as int + 1) =~= g@.take(idx as int).push(g@[idx as int]));
            } else if idx == k {
                assert(g@.subrange(0, k as int) + g@.subrange(k as int + 1, k as int + 1)
                    =~= g@.take(k as int));
            } else {
                assert(g@.subrange(0, k as int) + g@.subrange(k as int + 1, idx as int + 1) =~= (
                g@.subrange(0, k as int) + g@.subrange(k as int + 1, idx as int)).push(
                    g@[idx as int],
                ));
            }
        }
        idx += 1;
    }
    proof {
        assert(g@.remove(k as int) =~= g@.subrange(0, k as int) + g@.subrange(
            k as int + 1,
            g@.len() as int,
        ));
    }
    r
}

fn eq_group<Item: Element>(a: &Vec<Item>, b: &Vec<Item>) -> (r: bool)
    ensures
        r == (a@ == b@),
{
    if a.len() != b.len() {
        proof {
            if a@ == b@ {
                assert(a@.len() == b@.len());
            }
        }
        return false;
    }
    let mut idx: usize = 0;
    while idx < a.len()
        invariant
            idx <= a@.len(),
            a@.len() == b@.len(),
            forall|t: int| 0 <= t < idx ==> a@[t] == b@[t],
        decreases a@.len() - idx,
    {
        if !a[idx].eq_elem(&b[idx]) {
            proof {
                if a@ == b@ {
                    assert(a@[idx as int] == b@[idx as int]);
                }
            }
            return false;
        }
        idx += 1;
    }
    proof {
        assert(a@ =~= b@);
    }
    true
}

/// Builds `move_one(s, i, k, j)`: the partition with the item at position `k`
/// of group `i` moved to the end of group `j`.
#[verifier::loop_isolation(false)]
fn build_move<Item: Element>(s: &Vec<Vec<Item>>, i: usize, k: usize, j: usize) -> (r: Vec<
    Vec<Item>,
>)
    requires
        i < s@.len(),
        j < s@.len(),
        i != j,
        k < s@[i as int]@.len(),
    ensures
        groups_view(r) == move_one(groups_view(*s), i as int, k as int, j as int),
{
    let ghost m = groups_view(*s);
    let ghost mv = move_one(m, i as int, k as int, j as int);
    proof {
        assert(forall|t: int| 0 <= t < m.len() ==> m[t] == s@[t]@);
        assert(mv.len() == m.len());
        assert(mv[i as int] == m[i as int].remove(k as int));
        assert(mv[j as int] == m[j as int].push(m[i as int][k as int]));
        assert(forall|t: int| 0 <= t < m.len() && t != i && t != j ==> mv[t] == m[t]);
    }
    let mut r: Vec<Vec<Item>> = Vec::new();
    let mut g: usize = 0;
    while g < s.len()
        invariant
            g <= s@.len(),
            r@.len() == g,
            forall|t: int| 0 <= t < g ==> r@[t]@ == mv[t],
        decreases s@.len() - g,
    {
        if g == i {
            r.push(copy_group_without(&s[g], k));
        } else if g == j {
            let mut nj = copy_group(&s[j]);
            let gi = &s[i];
            nj.push(gi[k].dup_elem());
            r.push(nj);
        } else {
            r.push(copy_group(&s[g]));
        }
        g += 1;
    }
    proof {
        assert(groups_view(r) =~= mv);
    }
    r
}

/// The clustering search space: partitions of items, moved one item at a
/// time, costed by a `PartitionCost`.
pub struct ClusterSpace<C> {
    pub cost: C,
}

impl<C: PartitionCost> SearchSpace for ClusterSpace<C> where C::Item: Element {
    type St = Vec<Vec<C::Item>>;

    type Model = Seq<Seq<C::Item>>;

    open spec fn view_state(&self, s: Vec<Vec<C::Item>>) -> Seq<Seq<C::Item>> {
        groups_view(s)
    }

    open spec fn spec_cost(&self, m: Seq<Seq<C::Item>>) -> i64 {
        self.cost.spec_cost(m)
    }

    open spec fn spec_neighbors(&self, m: Seq<Seq<C::Item>>) -> Seq<Seq<Seq<C::Item>>> {
        all_moves(m)
    }

    fn cost(&self, s: &Vec<Vec<C::Item>>) -> (c: i64) {
        self.cost.cost(s)
    }

    #[verifier::loop_isolation(false)]
    fn neighbors(&self, s: &Vec<Vec<C::Item>>) -> (v: Vec<Vec<Vec<C::Item>>>) {
        let ghost m = groups_view(*s);
        proof {
            assert(forall|t: int| 0 <= t < m.len() ==> m[t] == s@[t]@);
        }
        let mut result: Vec<Vec<Vec<C::Item>>> = Vec::new();
        let ghost mapped0 = result@.map_values(|t: Vec<Vec<C::Item>>| groups_view(t));
        proof {
            assert(mapped0 =~= Seq::<Seq<Seq<C::Item>>>::empty());
            assert(mapped0 + all_moves_from(m, 0) =~= all_moves_from(m, 0));
        }
        let mut i: usize = 0;
        while i < s.len()
            invariant
                i <= s@.len(),
                all_moves(m) == result@.map_values(|t: Vec<Vec<C::Item>>| groups_view(t))
                    + all_moves_from(m, i as int),
            decreases s@.len() - i,
        {
            let gi_len = s[i].len();
            let mut k: usize = 0;
            proof {
                let mapped = result@.map_values(|t: Vec<Vec<C::Item>>| groups_view(t));
                assert(all_moves_from(m, i as int) == moves_for_group(m, i as int, 0)
                    + all_moves_from(m, i as int + 1));
                assert(mapped + (moves_for_group(m, i as int, 0) + all_moves_from(
                    m,
                    i as int + 1,
                )) =~= mapped + moves_for_group(m, i as int, 0) + all_moves_from(m, i as int + 1));
            }
            while k < gi_len
                invariant
                    k <= s@[i as int]@.len(),
                    gi_len == s@[i as int]@.len(),
                    i < s@.len(),
                    all_moves(m) == result@.map_values(|t: Vec<Vec<C::Item>>| groups_view(t))
                        + moves_for_group(m, i as int, k as int) + all_moves_from(m, i as int + 1),
                decreases s@[i as int]@.len() - k,
            {
                let mut j: usize = 0;
                proof {
                    let mapped = result@.map_values(|t: Vec<Vec<C::Item>>| groups_view(t));
                    assert(moves_for_group(m, i as int, k as int) == moves_for_item(
                        m,
                        i as int,
                        k as int,
                        0,
                    ) + moves_for_group(m, i as int, k as int + 1));
                    assert(mapped + (moves_for_item(m, i as int, k as int, 0) + moves_for_group(
                        m,
                        i as int,
                        k as int + 1,
                    )) + all_moves_from(m, i as int + 1) =~= mapped + moves_for_item(
                        m,
                        i as int,
                        k as int,
                        0,
                    ) + moves_for_group(m, i as int, k as int + 1) + all_moves_from(
                        m,
                        i as int + 1,
                    ));
                }
                while j < s.len()
                    invariant
                        j <= s@.len(),
                        i < s@.len(),
                        k < s@[i as int]@.len(),
                        gi_len == s@[i as int]@.len(),
                        all_moves(m) == result@.map_values(|t: Vec<Vec<C::Item>>| groups_view(t))
                            + moves_for_item(m, i as int, k as int, j as int) + moves_for_group(
                            m,
                            i as int,
                            k as int + 1,
                        ) + all_moves_from(m, i as int + 1),
                    decreases s@.len() - j,
                {
                    let ghost mapped = result@.map_values(|t: Vec<Vec<C::Item>>| groups_view(t));
                    proof {
                        assert(moves_for_item(m, i as int, k as int, j as int) == (if j == i {
                            Seq::<Seq<Seq<C::Item>>>::empty()
                        } else {
                            seq![move_one(m, i as int, k as int, j as int)]
                        }) + moves_for_item(m, i as int, k as int, j as int + 1));
                    }
                    if j != i {
                        let nb = build_move(s, i, k, j);
                        result.push(nb);
                        proof {
                            let mv = move_one(m, i as int, k as int, j as int);
                            assert(result@.map_values(|t: Vec<Vec<C::Item>>| groups_view(t))
                                =~= mapped.push(mv));
                            assert(mapped + (seq![mv] + moves_for_item(
                                m,
                                i as int,
                                k as int,
                                j as int + 1,
                            )) =~= mapped.push(mv) + moves_for_item(
                                m,
                                i as int,
                                k as int,
                                j as int + 1,
                            ));
                            assert(mapped + moves_for_item(m, i as int, k as int, j as int)
                                =~= mapped.push(mv) + moves_for_item(
                                m,
                                i as int,
                                k as int,
                                j as int + 1,
                            ));
                        }
                    } else {
                        proof {
                            assert(mapped + moves_for_item(m, i as int, k as int, j as int)
                                =~= mapped + moves_for_item(m, i as int, k as int, j as int + 1));
                        }
                    }
                    j += 1;
                }
                proof {
                    assert(moves_for_item(m, i as int, k as int, j as int)
                        =~= Seq::<Seq<Seq<C::Item>>>::empty());
                    let mapped = result@.map_values(|t: Vec<Vec<C::Item>>| groups_view(t));
                    assert(mapped + moves_for_item(m, i as int, k as int, j as int) =~= mapped);
                }
                k += 1;
            }
            proof {
                assert(moves_for_group(m, i as int, k as int)
                    =~= Seq::<Seq<Seq<C::Item>>>::empty());
                let mapped = result@.map_values(|t: Vec<Vec<C::Item>>| groups_view(t));
                assert(mapped + moves_for_group(m, i as int, k as int) =~= mapped);
            }
            i += 1;
        }
        proof {
            assert(all_moves_from(m, i as int) =~= Seq::<Seq<Seq<C::Item>>>::empty());
            let mapped = result@.map_values(|t: Vec<Vec<C::Item>>| groups_view(t));
            assert(mapped + all_moves_from(m, i as int) =~= mapped);
            assert(result@.map_values(|t: Vec<Vec<C::Item>>| self.view_state(t)) =~= mapped);
        }
        result
    }

    fn state_eq(&self, a: &Vec<Vec<C::Item>>, b: &Vec<Vec<C::Item>>) -> (r: bool) {
        if a.len() != b.len() {
            proof {
                if groups_view(*a) == groups_view(*b) {
                    assert(groups_view(*a).len() == groups_view(*b).len());
                }
            }
            return false;
        }
        let mut g: usize = 0;
        while g < a.len()
            invariant
                g <= a@.len(),
                a@.len() == b@.len(),
                forall|t: int| 0 <= t < g ==> a@[t]@ == b@[t]@,
            decreases a@.len() - g,
        {
            if !eq_group(&a[g], &b[g]) {
                proof {
                    if groups_view(*a) == groups_view(*b) {
                        assert(groups_view(*a)[g as int] == groups_view(*b)[g as int]);
                    }
                }
                return false;
            }
            g += 1;
        }
        proof {
            assert(groups_view(*a) =~= groups_view(*b));
        }
        true
    }

    fn dup_state(&self, s: &Vec<Vec<C::Item>>) -> (r: Vec<Vec<C::Item>>) {
        let mut r: Vec<Vec<C::Item>> = Vec::new();
        let mut g: usize = 0;
        while g < s.len()
            invariant
                g <= s@.len(),
                r@.len() == g,
                forall|t: int| 0 <= t < g ==> r@[t]@ == s@[t]@,
            decreases s@.len() - g,
        {
            r.push(copy_group(&s[g]));
            g += 1;
        }
        proof {
            assert(groups_view(r) =~= groups_view(*s));
        }
        r
    }
}

/// Runs a tabu-search clustering of `items` into `n_clusters` groups.
///
/// Starts from the partition with every item in the first group, moves one
/// item between groups per step as the engine directs, and returns the best
/// partition found: exactly `spec_run` of the engine over the move model. The
/// result always has `n_clusters` groups holding the input items exactly;
/// with `n_clusters == 1` it is the single group of all items, returned
/// without searching.
pub fn cluster_tabu<C: PartitionCost>(
    items: Vec<C::Item>,
    cost: C,
    n_clusters: usize,
    max_iterations: usize,
    stopping_cost: Option<i64>,
) -> (result: Vec<Vec<C::Item>>) where C::Item: Element
    requires
        n_clusters >= 1,
    ensures
        result@.len() == n_clusters,
        partition_multiset(groups_view(result)) == items@.to_multiset(),
        n_clusters == 1 ==> groups_view(result) == seq![items@],
        n_clusters >= 2 ==> groups_view(result) == spec_run(
            (ClusterSpace { cost }),
            initial_groups(items@, n_clusters as nat),
            initial_groups(items@, n_clusters as nat),
            cost.spec_cost(initial_groups(items@, n_clusters as nat)),
            Set::empty(),
            max_iterations as nat,
            stopping_cost,
        ),
{
    proof {
        lemma_initial_groups(items@, n_clusters as nat);
    }
    if n_clusters == 1 {
        let ghost items_view = items@;
        let mut single: Vec<Vec<C::Item>> = Vec::new();
        single.push(items);
        proof {
            assert(groups_view(single) =~= seq![items_view]);
            assert(initial_groups(items_view, 1nat) == seq![items_view]);
        }
        return single;
    }
    let ghost items_view = items@;
    let mut groups: Vec<Vec<C::Item>> = Vec::new();
    groups.push(items);
    proof {
        assert(groups_view(groups) =~= seq![items_view]);
        assert(initial_groups(items_view, 1nat) == seq![items_view]);
    }
    let mut g: usize = 1;
    while g < n_clusters
        invariant
            1 <= g <= n_clusters,
            groups_view(groups) == initial_groups(items_view, g as nat),
        decreases n_clusters - g,
    {
        let ghost before = groups_view(groups);
        groups.push(Vec::new());
        proof {
            assert(groups_view(groups) =~= before.push(Seq::<C::Item>::empty()));
            assert(initial_groups(items_view, (g + 1) as nat) == initial_groups(
                items_view,
                g as nat,
            ).push(Seq::<C::Item>::empty()));
        }
        g += 1;
    }
    let space = ClusterSpace { cost };
    let ghost init = initial_groups(items_view, n_clusters as nat);
    let best = tabu_search(groups, &space, max_iterations, stopping_cost);
    proof {
        let inv = |mm: Seq<Seq<C::Item>>|
            mm.len() == n_clusters as int && partition_multiset(mm) == items_view.to_multiset();
        assert forall|mm: Seq<Seq<C::Item>>, kk: int|
            inv(mm) && 0 <= kk < space.spec_neighbors(mm).len() implies inv(
            #[trigger] space.spec_neighbors(mm)[kk],
        ) by {
            lemma_all_moves_preserve(mm, kk);
        }
        lemma_run_preserves_inv(
            space,
            init,
            init,
            space.spec_cost(init),
            Set::<Seq<Seq<C::Item>>>::empty(),
            max_iterations as nat,
            stopping_cost,
            inv,
        );
    }
    best
}

/// The cost used by the clustering example: the largest group diameter under
/// the absolute-difference distance, where a group with fewer than two items
/// counts as `i64::MIN` (the stand-in for an infinitely good group).
pub struct MaxDiameterCost {}

/// The largest per-group diameter over `groups`, with `i64::MIN` standing for
/// the diameter of a group of fewer than two items (and of an empty
/// partition).
pub open spec fn max_group_diameter(groups: Seq<Seq<u32>>) -> i64
    decreases groups.len(),
{
    if groups.len() == 0 {
        i64::MIN
    } else {
        let prev = max_group_diameter(groups.drop_last());
        let dv = match spec_diameter((AbsDistance {  }), groups.last()) {
            None => i64::MIN,
            Some(v) => v,
        };
        if dv > prev {
            dv
        } else {
            prev
        }
    }
}

impl PartitionCost for MaxDiameterCost {
    type Item = u32;

    open spec fn spec_cost(&self, groups: Seq<Seq<u32>>) -> i64 {
        max_group_diameter(groups)
    }

    #[verifier::loop_isolation(false)]
    fn cost(&self, groups: &Vec<Vec<u32>>) -> (c: i64) {
        let dist = AbsDistance {  };
        let ghost gv = groups_view(*groups);
        proof {
            assert(forall|t: int| 0 <= t < gv.len() ==> gv[t] == groups@[t]@);
            assert(gv.take(0) =~= Seq::<Seq<u32>>::empty());
        }
        let mut acc = i64::MIN;
        let mut g: usize = 0;
        while g < groups.len()
            invariant
                g <= gv.len(),
                acc == max_group_diameter(gv.take(g as int)),
            decreases gv.len() - g,
        {
            let dv = match diameter(&groups[g], &dist) {
                None => i64::MIN,
                Some(v) => v,
            };
            if dv > acc {
                acc = dv;
            }
            proof {
                assert(gv.take(g as int + 1).drop_last() =~= gv.take(g as int));
                assert(gv.take(g as int + 1).last() == gv[g as int]);
            }
            g += 1;
        }
        proof {
            assert(gv.take(gv.len() as int) =~= gv);
        }
        acc
    }
}

} // verus!
