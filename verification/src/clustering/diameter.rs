//! Diameter of a collection: the largest pairwise distance between its
//! elements, under a caller-supplied distance.

use vstd::prelude::*;

verus! {

/// A distance over some item type. Costs and distances in this library are
/// integers; lower means closer.
pub trait Distance {
    type Item;

    /// The distance between two items, on the abstraction.
    spec fn spec_distance(&self, a: Self::Item, b: Self::Item) -> i64;

    /// Evaluates the distance between two items.
    fn distance(&self, a: &Self::Item, b: &Self::Item) -> (d: i64)
        ensures
            d == self.spec_distance(*a, *b),
    ;
}

/// The largest distance from any element of `s` to `x` (`0` when `s` is
/// empty, a case no caller relies on).
pub open spec fn max_distance_to<D: Distance>(d: D, s: Seq<D::Item>, x: D::Item) -> i64
    decreases s.len(),
{
    if s.len() == 0 {
        0
    } else if s.len() == 1 {
        d.spec_distance(s[0], x)
    } else {
        let prev = max_distance_to(d, s.drop_last(), x);
        let last = d.spec_distance(s.last(), x);
        if last > prev {
            last
        } else {
            prev
        }
    }
}

/// The diameter of `s`: the largest `spec_distance(s[i], s[j])` over all
/// index pairs `i < j`, or `None` when `s` has fewer than two elements.
pub open spec fn spec_diameter<D: Distance>(d: D, s: Seq<D::Item>) -> Option<i64>
    decreases s.len(),
{
    if s.len() < 2 {
        None
    } else {
        let with_last = max_distance_to(d, s.drop_last(), s.last());
        match spec_diameter(d, s.drop_last()) {
            None => Some(with_last),
            Some(v) => Some(
                if with_last > v {
                    with_last
                } else {
                    v
                },
            ),
        }
    }
}

proof fn lemma_max_distance_to<D: Distance>(d: D, s: Seq<D::Item>, x: D::Item)
    requires
        s.len() >= 1,
    ensures
        exists|i: int| 0 <= i < s.len() && d.spec_distance(s[i], x) == max_distance_to(d, s, x),
        forall|i: int| 0 <= i < s.len() ==> d.spec_distance(s[i], x) <= max_distance_to(d, s, x),
    decreases s.len(),
{
    if s.len() == 1 {
        assert(d.spec_distance(s[0], x) == max_distance_to(d, s, x));
    } else {
        lemma_max_distance_to(d, s.drop_last(), x);
        let m = max_distance_to(d, s, x);
        assert forall|i: int| 0 <= i < s.len() implies d.spec_distance(s[i], x) <= m by {
            if i < s.len() - 1 {
                assert(s.drop_last()[i] == s[i]);
            }
        }
        let prev = max_distance_to(d, s.drop_last(), x);
        if d.spec_distance(s.last(), x) > prev {
            assert(d.spec_distance(s[s.len() - 1], x) == m);
        } else {
            let i = choose|i: int|
                0 <= i < s.drop_last().len() && d.spec_distance(s.drop_last()[i], x) == prev;
            assert(d.spec_distance(s[i], x) == m);
        }
    }
}

/// The diameter is the maximum pairwise distance: it is achieved by some pair
/// of indices, and no pair's distance exceeds it; it exists exactly when the
/// sequence has at least two elements.
pub proof fn lemma_diameter_is_max<D: Distance>(d: D, s: Seq<D::Item>)
    ensures
        s.len() < 2 <==> spec_diameter(d, s) is None,
        spec_diameter(d, s) matches Some(v) ==> exists|i: int, j: int|
            0 <= i < j < s.len() && d.spec_distance(s[i], s[j]) == v,
        spec_diameter(d, s) matches Some(v) ==> forall|i: int, j: int|
            0 <= i < j < s.len() ==> d.spec_distance(s[i], s[j]) <= v,
    decreases s.len(),
{
    if s.len() >= 2 {
        lemma_diameter_is_max(d, s.drop_last());
        lemma_max_distance_to(d, s.drop_last(), s.last());
        let v = spec_diameter(d, s)->Some_0;
        let with_last = max_distance_to(d, s.drop_last(), s.last());
        assert forall|i: int, j: int| 0 <= i < j < s.len() implies d.spec_distance(s[i], s[j])
            <= v by {
            if j < s.len() - 1 {
                assert(s.drop_last()[i] == s[i] && s.drop_last()[j] == s[j]);
            } else {
                assert(s.drop_last()[i] == s[i] && s.last() == s[j]);
            }
        }
        if spec_diameter(d, s.drop_last()) is Some && !(with_last > spec_diameter(
            d,
            s.drop_last(),
        )->Some_0) {
            let (i, j) = choose|i: int, j: int|
                0 <= i < j < s.drop_last().len() && d.spec_distance(
                    s.drop_last()[i],
                    s.drop_last()[j],
                ) == v;
            assert(d.spec_distance(s[i], s[j]) == v);
        } else {
            let i = choose|i: int|
                0 <= i < s.drop_last().len() && d.spec_distance(s.drop_last()[i], s.last())
                    == with_last;
            assert(d.spec_distance(s[i], s[s.len() - 1]) == v);
        }
    }
}

/// The larger of two optional values, where a present value beats an absent
/// one and the first value is kept on ties.
pub open spec fn opt_max(a: Option<i64>, b: i64) -> Option<i64> {
    match a {
        None => Some(b),
        Some(p) => Some(
            if b > p {
                b
            } else {
                p
            },
        ),
    }
}

/// Computes the diameter of `items`: the largest `distance` between any two
/// of its elements, or `None` when there are fewer than two. The result is
/// `spec_diameter`, the maximum over all index pairs `i < j` of the distance
/// from `items[i]` to `items[j]`.
#[verifier::loop_isolation(false)]
pub fn diameter<D: Distance>(items: &Vec<D::Item>, distance: &D) -> (r: Option<i64>)
    ensures
        r == spec_diameter(*distance, items@),
        items@.len() < 2 <==> r is None,
        r matches Some(v) ==> exists|i: int, j: int|
            0 <= i < j < items@.len() && distance.spec_distance(items@[i], items@[j]) == v,
        r matches Some(v) ==> forall|i: int, j: int|
            0 <= i < j < items@.len() ==> distance.spec_distance(items@[i], items@[j]) <= v,
{
    proof {
        lemma_diameter_is_max(*distance, items@);
    }
    let mut dia: Option<i64> = None;
    if items.len() < 2 {
        return dia;
    }
    let ghost s = items@;
    let mut j: usize = 1;
    while j < items.len()
        invariant
            1 <= j <= s.len(),
            2 <= s.len(),
            s == items@,
            dia == spec_diameter(*distance, s.take(j as int)),
        decreases s.len() - j,
    {
        let ghost x = s[j as int];
        let mut i: usize = 0;
        while i < j
            invariant
                0 <= i <= j < s.len(),
                s == items@,
                dia == (if i == 0 {
                    spec_diameter(*distance, s.take(j as int))
                } else {
                    opt_max(
                        spec_diameter(*distance, s.take(j as int)),
                        max_distance_to(*distance, s.take(i as int), x),
                    )
                }),
            decreases j - i,
        {
            let dx = distance.distance(&items[i], &items[j]);
            match dia {
                None => {
                    dia = Some(dx);
                },
                Some(cur) => {
                    if dx > cur {
                        dia = Some(dx);
                    }
                },
            }
            proof {
                assert(x == s[j as int]);
                assert(dx == distance.spec_distance(s[i as int], x));
                assert(s.take(i as int + 1).drop_last() =~= s.take(i as int));
                assert(s.take(i as int + 1).last() == s[i as int]);
                assert(s.take(i as int + 1).len() == i + 1);
                assert(s.take(i as int + 1)[0] == s[0]);
                let mnew = max_distance_to(*distance, s.take(i as int + 1), x);
                if i == 0 {
                    assert(mnew == dx);
                } else {
                    let mprev = max_distance_to(*distance, s.take(i as int), x);
                    assert(mnew == (if dx > mprev {
                        dx
                    } else {
                        mprev
                    }));
                }
                assert(dia == opt_max(spec_diameter(*distance, s.take(j as int)), mnew));
            }
            i += 1;
        }
        proof {
            assert(s.take(j as int + 1).drop_last() =~= s.take(j as int));
            assert(s.take(j as int + 1).last() == s[j as int]);
        }
        j += 1;
    }
    proof {
        assert(s.take(s.len() as int) =~= s);
    }
    dia
}

/// Absolute difference between unsigned integers.
pub struct AbsDistance {}

impl Distance for AbsDistance {
    type Item = u32;

    open spec fn spec_distance(&self, a: u32, b: u32) -> i64 {
        if a >= b {
            ((a as int) - (b as int)) as i64
        } else {
            ((b as int) - (a as int)) as i64
        }
    }

    fn distance(&self, a: &u32, b: &u32) -> (d: i64) {
        if *a >= *b {
            (*a - *b) as i64
        } else {
            (*b - *a) as i64
        }
    }
}

} // verus!
