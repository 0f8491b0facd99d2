//! Tabu-search minimization engine.
//!
//! The engine walks a state space: at each step it moves to the cheapest
//! neighbor of the current state that is not on the tabu list (the set of
//! states already visited), even when that neighbor is worse than the current
//! state, and it remembers the cheapest state seen over the whole walk. The
//! mathematical model of one run is `spec_run`; `tabu_search` returns exactly
//! the state that model describes.

use vstd::prelude::*;

verus! {

/// A state space that the engine can search.
///
/// `St` is the executable state representation; `Model` is its mathematical
/// abstraction. Costs are integers, lower is better. The neighbor sequence of
/// a state is finite and its enumeration order is part of the model, because
/// the engine breaks cost ties by keeping the earliest neighbor.
pub trait SearchSpace {
    type St;

    type Model;

    /// The mathematical abstraction of a state.
    spec fn view_state(&self, s: Self::St) -> Self::Model;

    /// The cost of a state, on the abstraction.
    spec fn spec_cost(&self, m: Self::Model) -> i64;

    /// The neighbors of a state, in enumeration order, on the abstraction.
    spec fn spec_neighbors(&self, m: Self::Model) -> Seq<Self::Model>;

    /// Evaluates the cost of a state.
    fn cost(&self, s: &Self::St) -> (c: i64)
        ensures
            c == self.spec_cost(self.view_state(*s)),
    ;

    /// Enumerates the neighbors of a state.
    fn neighbors(&self, s: &Self::St) -> (v: Vec<Self::St>)
        ensures
            v@.map_values(|t: Self::St| self.view_state(t)) == self.spec_neighbors(
                self.view_state(*s),
            ),
    ;

    /// Decides whether two states have the same abstraction.
    fn state_eq(&self, a: &Self::St, b: &Self::St) -> (r: bool)
        ensures
            r == (self.view_state(*a) == self.view_state(*b)),
    ;

    /// Duplicates a state without mutating the original.
    fn dup_state(&self, s: &Self::St) -> (r: Self::St)
        ensures
            self.view_state(r) == self.view_state(*s),
    ;
}

/// The outcome of scanning the neighbors of one state.
pub enum ScanOutcome<M> {
    /// A neighbor beat the stopping cost; the run returns it at once.
    Early(M),
    /// The cheapest non-tabu neighbor, with its cost; ties keep the earliest.
    Best(M, i64),
    /// Every neighbor is tabu (or there are none): the walk stalls.
    Stalled,
}

/// Whether a state's cost beats the stopping threshold, if one is set.
pub open spec fn below_threshold<Sp: SearchSpace>(space: Sp, m: Sp::Model, sc: Option<i64>) -> bool {
    match sc {
        Some(t) => space.spec_cost(m) < t,
        None => false,
    }
}

/// One left-to-right scan over a neighbor sequence: the first non-tabu
/// neighbor below the stopping threshold ends the scan early; otherwise the
/// cheapest non-tabu neighbor is kept, earliest first on ties.
pub open spec fn spec_scan<Sp: SearchSpace>(
    space: Sp,
    ns: Seq<Sp::Model>,
    tabu: Set<Sp::Model>,
    sc: Option<i64>,
) -> ScanOutcome<Sp::Model>
    decreases ns.len(),
{
    if ns.len() == 0 {
        ScanOutcome::Stalled
    } else {
        let n = ns[0];
        let rest = spec_scan(space, ns.drop_first(), tabu, sc);
        if tabu.contains(n) {
            rest
        } else if below_threshold(space, n, sc) {
            ScanOutcome::Early(n)
        } else {
            match rest {
                ScanOutcome::Early(m) => ScanOutcome::Early(m),
                ScanOutcome::Stalled => ScanOutcome::Best(n, space.spec_cost(n)),
                ScanOutcome::Best(m, c) => if c < space.spec_cost(n) {
                    ScanOutcome::Best(m, c)
                } else {
                    ScanOutcome::Best(n, space.spec_cost(n))
                },
            }
        }
    }
}

/// The mathematical model of one engine run: up to `iters` iterations, each
/// inserting the current state into the tabu set, scanning its neighbors, and
/// either returning an early match, stalling in place, or advancing to the
/// scan's best neighbor (recording it as best-so-far when it improves).
pub open spec fn spec_run<Sp: SearchSpace>(
    space: Sp,
    current: Sp::Model,
    best: Sp::Model,
    best_cost: i64,
    tabu: Set<Sp::Model>,
    iters: nat,
    sc: Option<i64>,
) -> Sp::Model
    decreases iters,
{
    if iters == 0 {
        best
    } else {
        let tabu2 = tabu.insert(current);
        match spec_scan(space, space.spec_neighbors(current), tabu2, sc) {
            ScanOutcome::Early(m) => m,
            ScanOutcome::Stalled => spec_run(
                space,
                current,
                best,
                best_cost,
                tabu2,
                (iters - 1) as nat,
                sc,
            ),
            ScanOutcome::Best(m, c) => if c < best_cost {
                spec_run(space, m, m, c, tabu2, (iters - 1) as nat, sc)
            } else {
                spec_run(space, m, best, best_cost, tabu2, (iters - 1) as nat, sc)
            },
        }
    }
}

/// The set of state abstractions held by a tabu list.
pub open spec fn views_of<Sp: SearchSpace>(space: Sp, list: Seq<Sp::St>) -> Set<Sp::Model> {
    Set::new(
        |m: Sp::Model| exists|i: int| 0 <= i < list.len() && space.view_state(list[i]) == m,
    )
}

/// The abstraction of the engine's running best-descendant accumulator.
pub open spec fn acc_view<Sp: SearchSpace>(space: Sp, acc: Option<(Sp::St, i64)>) -> Option<
    (Sp::Model, i64),
> {
    match acc {
        None => None,
        Some((s, c)) => Some((space.view_state(s), c)),
    }
}

/// How a scan outcome of a suffix combines with the best candidate already
/// accumulated over the prefix scanned so far.
pub open spec fn merge_scan<Sp: SearchSpace>(
    space: Sp,
    acc: Option<(Sp::Model, i64)>,
    r: ScanOutcome<Sp::Model>,
) -> ScanOutcome<Sp::Model> {
    match r {
        ScanOutcome::Early(m) => ScanOutcome::Early(m),
        ScanOutcome::Stalled => match acc {
            None => ScanOutcome::Stalled,
            Some((a, ca)) => ScanOutcome::Best(a, ca),
        },
        ScanOutcome::Best(m, c) => match acc {
            None => ScanOutcome::Best(m, c),
            Some((a, ca)) => if c < ca {
                ScanOutcome::Best(m, c)
            } else {
                ScanOutcome::Best(a, ca)
            },
        },
    }
}

proof fn lemma_views_push<Sp: SearchSpace>(space: Sp, list: Seq<Sp::St>, s: Sp::St)
    ensures
        views_of(space, list.push(s)) == views_of(space, list).insert(space.view_state(s)),
{
    let l = views_of(space, list.push(s));
    let r = views_of(space, list).insert(space.view_state(s));
    assert forall|m: Sp::Model| l.contains(m) implies r.contains(m) by {
        let i = choose|i: int|
            0 <= i < list.push(s).len() && space.view_state(list.push(s)[i]) == m;
        if i < list.len() {
            assert(list.push(s)[i] == list[i]);
            assert(views_of(space, list).contains(m));
        } else {
            assert(list.push(s)[i] == s);
        }
    }
    assert forall|m: Sp::Model| r.contains(m) implies l.contains(m) by {
        if views_of(space, list).contains(m) {
            let i = choose|i: int| 0 <= i < list.len() && space.view_state(list[i]) == m;
            assert(list.push(s)[i] == list[i]);
            assert(space.view_state(list.push(s)[i]) == m);
        } else {
            assert(m == space.view_state(s));
            assert(space.view_state(list.push(s)[list.len() as int]) == m);
        }
    }
    assert(l =~= r);
}

proof fn lemma_skip_step<A>(s: Seq<A>, k: int)
    requires
        0 <= k < s.len(),
    ensures
        s.skip(k).len() == s.len() - k,
        s.skip(k)[0] == s[k],
        s.skip(k).drop_first() =~= s.skip(k + 1),
{
}

/// What a scan outcome guarantees: an early match beats the threshold, and
/// any state a scan hands back is a non-tabu member of the scanned sequence
/// reported with its true cost.
pub proof fn lemma_scan_props<Sp: SearchSpace>(
    space: Sp,
    ns: Seq<Sp::Model>,
    tabu: Set<Sp::Model>,
    sc: Option<i64>,
)
    ensures
        match spec_scan(space, ns, tabu, sc) {
            ScanOutcome::Early(m) => below_threshold(space, m, sc) && ns.contains(m)
                && !tabu.contains(m),
            ScanOutcome::Best(m, c) => c == space.spec_cost(m) && ns.contains(m)
                && !tabu.contains(m),
            ScanOutcome::Stalled => true,
        },
    decreases ns.len(),
{
    if ns.len() > 0 {
        lemma_scan_props(space, ns.drop_first(), tabu, sc);
        assert forall|m: Sp::Model| ns.drop_first().contains(m) implies ns.contains(m) by {
            let i = choose|i: int| 0 <= i < ns.drop_first().len() && ns.drop_first()[i] == m;
            assert(ns[i + 1] == m);
        }
        assert(ns.contains(ns[0]));
    }
}

/// If some non-tabu entry of the sequence beats the threshold, the scan ends
/// early.
pub proof fn lemma_scan_finds_early<Sp: SearchSpace>(
    space: Sp,
    ns: Seq<Sp::Model>,
    tabu: Set<Sp::Model>,
    t: i64,
)
    requires
        exists|k: int|
            0 <= k < ns.len() && !tabu.contains(ns[k]) && space.spec_cost(ns[k]) < t,
    ensures
        spec_scan(space, ns, tabu, Some(t)) is Early,
    decreases ns.len(),
{
    let k = choose|k: int|
        0 <= k < ns.len() && !tabu.contains(ns[k]) && space.spec_cost(ns[k]) < t;
    if !(!tabu.contains(ns[0]) && space.spec_cost(ns[0]) < t) {
        assert(k >= 1);
        assert(ns.drop_first()[k - 1] == ns[k]);
        lemma_scan_finds_early(space, ns.drop_first(), tabu, t);
    }
}

/// Monotonic improvement: a run never returns a state costlier than the best
/// state it started from, unless a stopping threshold ended it early, in
/// which case the returned state beats that threshold.
pub proof fn lemma_run_cost_bound<Sp: SearchSpace>(
    space: Sp,
    current: Sp::Model,
    best: Sp::Model,
    best_cost: i64,
    tabu: Set<Sp::Model>,
    iters: nat,
    sc: Option<i64>,
)
    requires
        best_cost == space.spec_cost(best),
    ensures
        ({
            let r = spec_run(space, current, best, best_cost, tabu, iters, sc);
            space.spec_cost(r) <= best_cost || below_threshold(space, r, sc)
        }),
    decreases iters,
{
    if iters > 0 {
        let tabu2 = tabu.insert(current);
        let ns = space.spec_neighbors(current);
        lemma_scan_props(space, ns, tabu2, sc);
        match spec_scan(space, ns, tabu2, sc) {
            ScanOutcome::Early(m) => {},
            ScanOutcome::Stalled => {
                lemma_run_cost_bound(space, current, best, best_cost, tabu2, (iters - 1) as nat, sc);
            },
            ScanOutcome::Best(m, c) => {
                if c < best_cost {
                    lemma_run_cost_bound(space, m, m, c, tabu2, (iters - 1) as nat, sc);
                } else {
                    lemma_run_cost_bound(space, m, best, best_cost, tabu2, (iters - 1) as nat, sc);
                }
            },
        }
    }
}

/// Early exit on the stopping threshold: when a run of at least one iteration
/// has a stopping cost, and some neighbor of the initial state other than the
/// initial state itself beats it, the run returns a state whose cost is
/// strictly below the threshold. (A neighbor equal to the initial state is
/// already tabu when the first scan runs, so it cannot trigger the exit;
/// neighbors reached only in later iterations may trigger the exit too, which
/// this law does not cover.)
pub proof fn lemma_stopping_cost_reached<Sp: SearchSpace>(
    space: Sp,
    init: Sp::Model,
    iters: nat,
    t: i64,
)
    requires
        iters >= 1,
        exists|k: int|
            0 <= k < space.spec_neighbors(init).len() && space.spec_neighbors(init)[k] != init
                && space.spec_cost(space.spec_neighbors(init)[k]) < t,
    ensures
        space.spec_cost(
            spec_run(
                space,
                init,
                init,
                space.spec_cost(init),
                Set::empty(),
                iters,
                Some(t),
            ),
        ) < t,
{
    let tabu2 = Set::<Sp::Model>::empty().insert(init);
    let ns = space.spec_neighbors(init);
    let k = choose|k: int|
        0 <= k < ns.len() && ns[k] != init && space.spec_cost(ns[k]) < t;
    assert(!tabu2.contains(ns[k]));
    lemma_scan_finds_early(space, ns, tabu2, t);
    lemma_scan_props(space, ns, tabu2, Some(t));
    let m = spec_scan(space, ns, tabu2, Some(t))->Early_0;
    assert(spec_run(space, init, init, space.spec_cost(init), Set::empty(), iters, Some(t)) == m);
}

/// Invariant preservation: a property that holds of the starting states and
/// is preserved by every neighbor move holds of whatever a run returns.
pub proof fn lemma_run_preserves_inv<Sp: SearchSpace>(
    space: Sp,
    current: Sp::Model,
    best: Sp::Model,
    best_cost: i64,
    tabu: Set<Sp::Model>,
    iters: nat,
    sc: Option<i64>,
    inv: spec_fn(Sp::Model) -> bool,
)
    requires
        inv(current),
        inv(best),
        forall|m: Sp::Model, k: int|
            inv(m) && 0 <= k < space.spec_neighbors(m).len() ==> inv(
                #[trigger] space.spec_neighbors(m)[k],
            ),
    ensures
        inv(spec_run(space, current, best, best_cost, tabu, iters, sc)),
    decreases iters,
{
    if iters > 0 {
        let tabu2 = tabu.insert(current);
        let ns = space.spec_neighbors(current);
        lemma_scan_props(space, ns, tabu2, sc);
        match spec_scan(space, ns, tabu2, sc) {
            ScanOutcome::Early(m) => {
                let k = choose|k: int| 0 <= k < ns.len() && ns[k] == m;
                assert(inv(m));
            },
            ScanOutcome::Stalled => {
                lemma_run_preserves_inv(
                    space,
                    current,
                    best,
                    best_cost,
                    tabu2,
                    (iters - 1) as nat,
                    sc,
                    inv,
                );
            },
            ScanOutcome::Best(m, c) => {
                let k = choose|k: int| 0 <= k < ns.len() && ns[k] == m;
                assert(inv(m));
                if c < best_cost {
                    lemma_run_preserves_inv(space, m, m, c, tabu2, (iters - 1) as nat, sc, inv);
                } else {
                    lemma_run_preserves_inv(
                        space,
                        m,
                        best,
                        best_cost,
                        tabu2,
                        (iters - 1) as nat,
                        sc,
                        inv,
                    );
                }
            },
        }
    }
}

/// Membership test against the tabu list.
fn is_tabu<Sp: SearchSpace>(space: &Sp, list: &Vec<Sp::St>, s: &Sp::St) -> (r: bool)
    ensures
        r == views_of(*space, list@).contains(space.view_state(*s)),
{
    let mut k: usize = 0;
    let mut found = false;
    while k < list.len()
        invariant
            k <= list@.len(),
            found == exists|i: int|
                0 <= i < k && space.view_state(list@[i]) == space.view_state(*s),
        decreases list@.len() - k,
    {
        if space.state_eq(&list[k], s) {
            assert(space.view_state(list@[k as int]) == space.view_state(*s));
            found = true;
        }
        k += 1;
    }
    found
}

/// Runs a tabu-search minimization.
///
/// Starting from `state`, repeats up to `max_iterations` times: marks the
/// current state tabu, scans its neighbors left to right skipping tabu ones,
/// returns at once any neighbor whose cost is strictly below `stopping_cost`
/// (when set), and otherwise advances to the cheapest non-tabu neighbor,
/// keeping the cheapest state seen so far. Returns that best state, or the
/// early match. The result is exactly what the model `spec_run` computes, and
/// without a stopping cost it never costs more than the initial state.
#[verifier::loop_isolation(false)]
pub fn tabu_search<Sp: SearchSpace>(
    state: Sp::St,
    space: &Sp,
    max_iterations: usize,
    stopping_cost: Option<i64>,
) -> (result: Sp::St)
    ensures
        space.view_state(result) == spec_run(
            *space,
            space.view_state(state),
            space.view_state(state),
            space.spec_cost(space.view_state(state)),
            Set::empty(),
            max_iterations as nat,
            stopping_cost,
        ),
        stopping_cost is None ==> space.spec_cost(space.view_state(result)) <= space.spec_cost(
            space.view_state(state),
        ),
        stopping_cost matches Some(t) ==> space.spec_cost(space.view_state(result))
            <= space.spec_cost(space.view_state(state)) || space.spec_cost(
            space.view_state(result),
        ) < t,
        max_iterations == 0 ==> space.view_state(result) == space.view_state(state),
{
    let ghost m0 = space.view_state(state);
    let ghost c0 = space.spec_cost(m0);
    let mut tabu_list: Vec<Sp::St> = Vec::new();
    let mut best = space.dup_state(&state);
    let mut best_cost = space.cost(&best);
    let mut current = space.dup_state(&best);
    assert(views_of(*space, tabu_list@) =~= Set::<Sp::Model>::empty());
    let mut i: usize = 0;
    while i < max_iterations
        invariant
            i <= max_iterations,
            best_cost == space.spec_cost(space.view_state(best)),
            best_cost <= c0,
            spec_run(*space, m0, m0, c0, Set::empty(), max_iterations as nat, stopping_cost)
                == spec_run(
                *space,
                space.view_state(current),
                space.view_state(best),
                best_cost,
                views_of(*space, tabu_list@),
                (max_iterations - i) as nat,
                stopping_cost,
            ),
        decreases max_iterations - i,
    {
        let ghost tabu_pre = views_of(*space, tabu_list@);
        let ghost cur_m = space.view_state(current);
        let snapshot = space.dup_state(&current);
        proof {
            lemma_views_push(*space, tabu_list@, snapshot);
        }
        tabu_list.push(snapshot);
        let ghost tabu2 = views_of(*space, tabu_list@);
        assert(tabu2 == tabu_pre.insert(cur_m));
        let ns = space.neighbors(&current);
        let ghost ns_m = ns@.map_values(|t: Sp::St| space.view_state(t));
        assert(ns_m == space.spec_neighbors(cur_m));
        let mut best_desc: Option<(Sp::St, i64)> = None;
        let mut j: usize = 0;
        assert(ns_m.skip(0) =~= ns_m);
        while j < ns.len()
            invariant
                j <= ns@.len(),
                spec_scan(*space, ns_m, tabu2, stopping_cost) == merge_scan(
                    *space,
                    acc_view(*space, best_desc),
                    spec_scan(*space, ns_m.skip(j as int), tabu2, stopping_cost),
                ),
                match acc_view(*space, best_desc) {
                    Some((m, c)) => c == space.spec_cost(m),
                    None => true,
                },
            decreases ns@.len() - j,
        {
            proof {
                lemma_skip_step(ns_m, j as int);
            }
            let ghost suffix = ns_m.skip(j as int);
            let ghost n_m = ns_m[j as int];
            assert(suffix[0] == n_m);
            assert(suffix.drop_first() =~= ns_m.skip(j as int + 1));
            let n = &ns[j];
            assert(space.view_state(*n) == n_m);
            let tabu_hit = is_tabu(space, &tabu_list, n);
            if !tabu_hit {
                let c = space.cost(n);
                if let Some(t) = stopping_cost {
                    if c < t {
                        assert(spec_scan(*space, suffix, tabu2, stopping_cost)
                            == ScanOutcome::Early(n_m));
                        assert(spec_scan(*space, ns_m, tabu2, stopping_cost)
                            == ScanOutcome::Early(n_m));
                        let r = space.dup_state(n);
                        assert(spec_run(
                            *space,
                            cur_m,
                            space.view_state(best),
                            best_cost,
                            tabu_pre,
                            (max_iterations - i) as nat,
                            stopping_cost,
                        ) == n_m);
                        return r;
                    }
                }
                let improves = match &best_desc {
                    None => true,
                    Some((_, bc)) => c < *bc,
                };
                if improves {
                    let d = space.dup_state(n);
                    best_desc = Some((d, c));
                }
            }
            j += 1;
        }
        assert(ns_m.skip(j as int) =~= Seq::<Sp::Model>::empty());
        match best_desc {
            None => {
                assert(spec_scan(*space, ns_m, tabu2, stopping_cost) == ScanOutcome::<
                    Sp::Model,
                >::Stalled);
            },
            Some((m, c)) => {
                assert(spec_scan(*space, ns_m, tabu2, stopping_cost) == ScanOutcome::Best(
                    space.view_state(m),
                    c,
                ));
                if c < best_cost {
                    best = space.dup_state(&m);
                    best_cost = c;
                }
                current = m;
            },
        }
        i += 1;
    }
    best
}

} // verus!
