//! The Schulze method on a graph of defeats that are grouped by strength.
//!
//! The weakest defeats are dropped first.  Before each group is dropped, only
//! the Schwartz set of the remaining candidates, under the defeats that are
//! left, stays in the race.

use crate::schwartz_set::{
    arrow, graph_ok, in_schwartz, is_walk, lemma_reach_self, lemma_same_arrows, reach, rows, schwartz_set,
};
use vstd::prelude::*;

verus! {

/// Every defeat is between two of the `n` candidates.
pub open spec fn edges_ok(n: nat, groups: Seq<Vec<(usize, usize)>>) -> bool {
    forall|g: int, j: int|
        0 <= g < groups.len() && 0 <= j < groups[g]@.len() ==> (#[trigger] groups[g]@[j]).0 < n
            && groups[g]@[j].1 < n
}

/// The lists of defeaters `d` with the first `k` defeats of `group` added:
/// the winner of each joins the list of its loser.
pub open spec fn with_edges(d: Seq<Seq<usize>>, group: Seq<(usize, usize)>, k: nat) -> Seq<
    Seq<usize>,
>
    decreases k,
{
    if k == 0 {
        d
    } else {
        let before = with_edges(d, group, (k - 1) as nat);
        let (a, b) = group[k - 1];
        before.update(b as int, before[b as int].push(a))
    }
}

/// The lists of defeaters under the defeats of the first `g` groups.
pub open spec fn defeaters_upto(n: nat, groups: Seq<Vec<(usize, usize)>>, g: nat) -> Seq<Seq<usize>>
    decreases g,
{
    if g == 0 {
        Seq::new(n, |v: int| Seq::<usize>::empty())
    } else {
        with_edges(
            defeaters_upto(n, groups, (g - 1) as nat),
            groups[g - 1]@,
            groups[g - 1]@.len(),
        )
    }
}

/// The candidates that are left after the given number of rounds.  Round
/// `r + 1` keeps the Schwartz set of those left after round `r`, under the
/// defeats of all groups but the `r` weakest.
pub open spec fn survivors(n: nat, groups: Seq<Vec<(usize, usize)>>, rounds: nat) -> Set<usize>
    decreases rounds,
{
    if rounds == 0 {
        Set::new(|v: usize| v < n)
    } else {
        let left = survivors(n, groups, (rounds - 1) as nat);
        Set::new(
            |v: usize|
                in_schwartz(
                    defeaters_upto(n, groups, (groups.len() - (rounds - 1)) as nat),
                    left,
                    v,
                ),
        )
    }
}

proof fn lemma_with_edges_ok(d: Seq<Seq<usize>>, group: Seq<(usize, usize)>, k: nat)
    requires
        graph_ok(d),
        k <= group.len(),
        forall|j: int| 0 <= j < group.len() ==> (#[trigger] group[j]).0 < d.len() && group[j].1
            < d.len(),
    ensures
        with_edges(d, group, k).len() == d.len(),
        graph_ok(with_edges(d, group, k)),
    decreases k,
{
    if k > 0 {
        lemma_with_edges_ok(d, group, (k - 1) as nat);
        let before = with_edges(d, group, (k - 1) as nat);
        let (a, b) = group[k - 1];
        let after = with_edges(d, group, k);
        assert(group[k - 1].0 < d.len());
        assert forall|v: int, t: int| 0 <= v < after.len() && 0 <= t < after[v].len() implies (
        #[trigger] after[v][t]) < after.len() by {
            if v == b && t == before[v].len() {
            } else {
                assert(before[v][t] < before.len());
            }
        }
    }
}

proof fn lemma_defeaters_ok(n: nat, groups: Seq<Vec<(usize, usize)>>, g: nat)
    requires
        edges_ok(n, groups),
        g <= groups.len(),
    ensures
        defeaters_upto(n, groups, g).len() == n,
        graph_ok(defeaters_upto(n, groups, g)),
    decreases g,
{
    if g > 0 {
        lemma_defeaters_ok(n, groups, (g - 1) as nat);
        let group = groups[g - 1]@;
        assert forall|j: int| 0 <= j < group.len() implies (#[trigger] group[j]).0 < n && group[j].1
            < n by {
            assert(groups[g - 1]@[j].0 < n);
        }
        lemma_with_edges_ok(defeaters_upto(n, groups, (g - 1) as nat), group, group.len());
    }
}

/// One of the first `k` defeats of the group is `u` over `v`.
pub open spec fn among(group: Seq<(usize, usize)>, k: nat, u: usize, v: usize) -> bool {
    exists|t: int| 0 <= t < k && #[trigger] group[t] == (u, v)
}

/// One of the first `g` groups holds the defeat of `v` by `u`.
pub open spec fn defeated_in(groups: Seq<Vec<(usize, usize)>>, g: nat, u: usize, v: usize) -> bool {
    exists|h: int| 0 <= h < g && #[trigger] groups[h]@.contains((u, v))
}

/// Who defeats `v` after some defeats have been added: who did before, and
/// the winners of the added defeats of `v`.
proof fn lemma_with_edges(d: Seq<Seq<usize>>, group: Seq<(usize, usize)>, k: nat, u: usize, v: usize)
    requires
        graph_ok(d),
        k <= group.len(),
        forall|j: int| 0 <= j < group.len() ==> (#[trigger] group[j]).0 < d.len() && group[j].1
            < d.len(),
        v < d.len(),
    ensures
        with_edges(d, group, k)[v as int].contains(u) <==> d[v as int].contains(u) || among(
            group,
            k,
            u,
            v,
        ),
    decreases k,
{
    if k > 0 {
        lemma_with_edges(d, group, (k - 1) as nat, u, v);
        lemma_with_edges_ok(d, group, (k - 1) as nat);
        let before = with_edges(d, group, (k - 1) as nat);
        let (a, b) = group[k - 1];
        let after = with_edges(d, group, k);
        assert(group[k - 1].1 < d.len());
        if among(group, k, u, v) {
            let t = choose|t: int| 0 <= t < k && #[trigger] group[t] == (u, v);
            if t < k - 1 {
                assert(among(group, (k - 1) as nat, u, v));
            }
        }
        if among(group, (k - 1) as nat, u, v) {
            let t = choose|t: int| 0 <= t < k - 1 && #[trigger] group[t] == (u, v);
            assert(group[t] == (u, v));
        }
        if b == v {
            let row = before[v as int];
            assert(after[v as int] == row.push(a));
            if row.contains(u) {
                let i = choose|i: int| 0 <= i < row.len() && row[i] == u;
                assert(row.push(a)[i] == u);
            }
            if a == u {
                assert(row.push(a)[row.len() as int] == u);
                assert(group[k - 1] == (u, v));
            }
            if row.push(a).contains(u) {
                let i = choose|i: int| 0 <= i < row.push(a).len() && row.push(a)[i] == u;
                if i < row.len() {
                    assert(row[i] == u);
                }
            }
        } else {
            assert(after[v as int] == before[v as int]);
        }
    }
}

/// Who defeats `v` under the first `g` groups: the winners of the defeats of
/// `v` in those groups.
proof fn lemma_defeaters(n: nat, groups: Seq<Vec<(usize, usize)>>, g: nat, u: usize, v: usize)
    requires
        edges_ok(n, groups),
        g <= groups.len(),
        v < n,
    ensures
        defeaters_upto(n, groups, g).len() == n,
        defeaters_upto(n, groups, g)[v as int].contains(u) <==> defeated_in(groups, g, u, v),
    decreases g,
{
    lemma_defeaters_ok(n, groups, g);
    if g > 0 {
        lemma_defeaters(n, groups, (g - 1) as nat, u, v);
        lemma_defeaters_ok(n, groups, (g - 1) as nat);
        let group = groups[g - 1]@;
        assert forall|j: int| 0 <= j < group.len() implies (#[trigger] group[j]).0 < n && group[j].1
            < n by {
            assert(groups[g - 1]@[j].0 < n);
        }
        lemma_with_edges(defeaters_upto(n, groups, (g - 1) as nat), group, group.len(), u, v);
        if among(group, group.len(), u, v) {
            let t = choose|t: int| 0 <= t < group.len() && #[trigger] group[t] == (u, v);
            assert(group.contains((u, v)));
            assert(groups[g - 1]@.contains((u, v)));
        }
        if defeated_in(groups, g, u, v) {
            let h = choose|h: int| 0 <= h < g && #[trigger] groups[h]@.contains((u, v));
            if h == g - 1 {
                let t = choose|t: int| 0 <= t < group.len() && group[t] == (u, v);
                assert(group[t] == (u, v));
                assert(among(group, group.len(), u, v));
            } else {
                assert(defeated_in(groups, (g - 1) as nat, u, v));
            }
        }
        if defeated_in(groups, (g - 1) as nat, u, v) {
            let h = choose|h: int| 0 <= h < g - 1 && #[trigger] groups[h]@.contains((u, v));
            assert(groups[h]@.contains((u, v)));
        }
    } else {
        assert(!defeaters_upto(n, groups, 0)[v as int].contains(u));
    }
}

/// The two sequences of groups hold the same defeats, group by group.
pub open spec fn same_groups(a: Seq<Vec<(usize, usize)>>, b: Seq<Vec<(usize, usize)>>) -> bool {
    &&& a.len() == b.len()
    &&& forall|h: int, e: (usize, usize)|
        0 <= h < a.len() ==> (#[trigger] a[h]@.contains(e) <==> b[h]@.contains(e))
}

/// Groups that hold the same defeats leave the same candidates: neither the
/// order of the defeats in a group nor a defeat that stands twice counts.
pub proof fn lemma_same_survivors(
    n: nat,
    a: Seq<Vec<(usize, usize)>>,
    b: Seq<Vec<(usize, usize)>>,
    rounds: nat,
)
    requires
        edges_ok(n, a),
        edges_ok(n, b),
        same_groups(a, b),
        rounds <= a.len() + 1,
    ensures
        survivors(n, a, rounds) == survivors(n, b, rounds),
    decreases rounds,
{
    if rounds > 0 {
        lemma_same_survivors(n, a, b, (rounds - 1) as nat);
        let left = survivors(n, a, (rounds - 1) as nat);
        let g = (a.len() - (rounds - 1)) as nat;
        let da = defeaters_upto(n, a, g);
        let db = defeaters_upto(n, b, g);
        lemma_defeaters_ok(n, a, g);
        lemma_defeaters_ok(n, b, g);
        assert forall|v: usize, u: usize| #[trigger]
            arrow(da, left, v, u) == arrow(db, left, v, u) by {
            if v < n {
                lemma_defeaters(n, a, g, u, v);
                lemma_defeaters(n, b, g, u, v);
                if defeated_in(a, g, u, v) {
                    let h = choose|h: int| 0 <= h < g && #[trigger] a[h]@.contains((u, v));
                    assert(b[h]@.contains((u, v)));
                }
                if defeated_in(b, g, u, v) {
                    let h = choose|h: int| 0 <= h < g && #[trigger] b[h]@.contains((u, v));
                    assert(a[h]@.contains((u, v)));
                }
            }
        }
        lemma_same_arrows(da, db, left);
        assert(survivors(n, a, rounds) =~= survivors(n, b, rounds));
    } else {
        assert(survivors(n, a, 0) =~= survivors(n, b, 0));
    }
}

/// Among at most one candidate, the Schwartz set is that candidate.
pub proof fn lemma_schwartz_of_one(defeaters: Seq<Seq<usize>>, candidates: Set<usize>, v: usize)
    requires
        forall|x: usize, y: usize| candidates.contains(x) && candidates.contains(y) ==> x == y,
    ensures
        in_schwartz(defeaters, candidates, v) <==> candidates.contains(v),
{
    if candidates.contains(v) {
        assert forall|u: usize| #[trigger] reach(defeaters, candidates, v, u) implies reach(
            defeaters,
            candidates,
            u,
            v,
        ) by {
            let walk = choose|walk: Seq<usize>|
                #[trigger] is_walk(defeaters, candidates, walk) && walk[0] == v && walk.last() == u;
            if walk.len() > 1 {
                let j = walk.len() - 2;
                assert(arrow(defeaters, candidates, walk[j], walk[j + 1]));
            }
            lemma_reach_self(defeaters, candidates, v);
        }
    }
}

/// Once at most one candidate is left, further rounds change nothing.
proof fn lemma_one_stays(n: nat, groups: Seq<Vec<(usize, usize)>>, r: nat, later: nat)
    requires
        r <= later,
        forall|x: usize, y: usize|
            survivors(n, groups, r).contains(x) && survivors(n, groups, r).contains(y) ==> x == y,
    ensures
        survivors(n, groups, later) == survivors(n, groups, r),
    decreases later - r,
{
    if r < later {
        lemma_one_stays(n, groups, r, (later - 1) as nat);
        let left = survivors(n, groups, (later - 1) as nat);
        let d = defeaters_upto(n, groups, (groups.len() - (later - 1)) as nat);
        assert forall|v: usize| survivors(n, groups, later).contains(v) == left.contains(v) by {
            lemma_schwartz_of_one(d, left, v);
        }
        assert(survivors(n, groups, later) =~= left);
    }
}

/// With one group of defeats, the candidates that are left are the Schwartz
/// set of all candidates under all defeats.
pub proof fn lemma_one_group(n: nat, groups: Seq<Vec<(usize, usize)>>, v: usize)
    requires
        groups.len() == 1,
    ensures
        survivors(n, groups, 1).contains(v) <==> in_schwartz(
            defeaters_upto(n, groups, 1),
            Set::new(|x: usize| x < n),
            v,
        ),
{
    reveal_with_fuel(survivors, 2);
}

/// The candidates that the Schulze method leaves of `num_candidates`, given
/// the defeats `(winner, loser)` in groups from the strongest to the weakest.
pub fn schulze_graph(num_candidates: usize, defeat_groups: &[Vec<(usize, usize)>]) -> (out: Vec<
    usize,
>)
    requires
        edges_ok(num_candidates as nat, defeat_groups@),
    ensures
        out@.no_duplicates(),
        out@.to_set() == survivors(
            num_candidates as nat,
            defeat_groups@,
            defeat_groups@.len(),
        ),
        num_candidates > 0 ==> out@.len() > 0,
{
    let ghost n = num_candidates as nat;
    let ghost groups = defeat_groups@;
    let mut defeaters: Vec<Vec<usize>> = Vec::new();
    let mut candidates: Vec<usize> = Vec::new();
    let mut v: usize = 0;
    while v < num_candidates
        invariant
            v <= num_candidates,
            defeaters@.len() == v,
            candidates@.len() == v,
            forall|i: int| 0 <= i < v ==> (#[trigger] defeaters@[i])@.len() == 0,
            forall|i: int| 0 <= i < v ==> (#[trigger] candidates@[i]) == i,
        decreases num_candidates - v,
    {
        defeaters.push(Vec::new());
        candidates.push(v);
        v += 1;
    }
    proof {
        assert(rows(defeaters@) =~~= defeaters_upto(n, groups, 0));
    }
    let mut g: usize = 0;
    while g < defeat_groups.len()
        invariant
            g <= groups.len(),
            n == num_candidates,
            groups == defeat_groups@,
            edges_ok(n, groups),
            defeaters@.len() == n,
            rows(defeaters@) == defeaters_upto(n, groups, g as nat),
        decreases groups.len() - g,
    {
        let group = &defeat_groups[g];
        let ghost base = defeaters_upto(n, groups, g as nat);
        let mut j: usize = 0;
        while j < group.len()
            invariant
                j <= group@.len(),
                g < groups.len(),
                group@ == groups[g as int]@,
                edges_ok(n, groups),
                defeaters@.len() == n,
                base.len() == n,
                rows(defeaters@) == with_edges(base, group@, j as nat),
            decreases group@.len() - j,
        {
            let (a, b) = group[j];
            assert(groups[g as int]@[j as int].1 < n);
            let ghost before = rows(defeaters@);
            defeaters[b].push(a);
            proof {
                assert(rows(defeaters@) =~~= before.update(b as int, before[b as int].push(a)));
            }
            j += 1;
        }
        g += 1;
    }
    proof {
        assert(candidates@.to_set() =~= survivors(n, groups, 0)) by {
            assert forall|x: usize| candidates@.to_set().contains(x) == (x < n) by {
                if x < n {
                    assert(candidates@[x as int] == x);
                }
            }
        }
    }
    let ghost mut stopped = false;
    while g > 0
        invariant_except_break
            !stopped,
        invariant
            g <= groups.len(),
            n == num_candidates,
            groups == defeat_groups@,
            edges_ok(n, groups),
            defeaters@.len() == n,
            rows(defeaters@) == defeaters_upto(n, groups, g as nat),
            candidates@.no_duplicates(),
            candidates@.to_set() == survivors(n, groups, (groups.len() - g) as nat),
            forall|i: int| 0 <= i < candidates@.len() ==> (#[trigger] candidates@[i]) < n,
            n > 0 ==> candidates@.len() > 0,
        ensures
            candidates@.no_duplicates(),
            n > 0 ==> candidates@.len() > 0,
            stopped ==> candidates@.len() <= 1 && g <= groups.len() && candidates@.to_set()
                == survivors(n, groups, (groups.len() - g) as nat),
            !stopped ==> candidates@.to_set() == survivors(n, groups, groups.len()),
        decreases g,
    {
        if candidates.len() <= 1 {
            proof {
                stopped = true;
            }
            break ;
        }
        proof {
            lemma_defeaters_ok(n, groups, g as nat);
        }
        let ghost left = candidates@;
        let ghost round = (groups.len() - g) as nat;
        candidates = schwartz_set(candidates.as_slice(), defeaters.as_slice());
        proof {
            assert(candidates@.to_set() =~= survivors(n, groups, round + 1)) by {
                assert forall|x: usize|
                    candidates@.to_set().contains(x) == survivors(n, groups, round + 1).contains(
                        x,
                    ) by {
                    assert(candidates@.contains(x) <==> in_schwartz(
                        rows(defeaters@),
                        left.to_set(),
                        x,
                    ));
                }
            }
            assert forall|i: int| 0 <= i < candidates@.len() implies (#[trigger] candidates@[i])
                < n by {
                assert(candidates@.contains(candidates@[i]));
                assert(in_schwartz(rows(defeaters@), left.to_set(), candidates@[i]));
                let k = choose|k: int| 0 <= k < left.len() && left[k] == candidates@[i];
                assert(left[k] < n);
            }
        }
        g -= 1;
        let group = &defeat_groups[g];
        let ghost base = defeaters_upto(n, groups, g as nat);
        proof {
            lemma_defeaters_ok(n, groups, g as nat);
        }
        let mut j: usize = group.len();
        while j > 0
            invariant
                j <= group@.len(),
                g < groups.len(),
                group@ == groups[g as int]@,
                edges_ok(n, groups),
                defeaters@.len() == n,
                base.len() == n,
                graph_ok(base),
                rows(defeaters@) == with_edges(base, group@, j as nat),
            decreases j,
        {
            j -= 1;
            let (_, b) = group[j];
            assert(groups[g as int]@[j as int].1 < n);
            proof {
                assert forall|t: int| 0 <= t < group@.len() implies (#[trigger] group@[t]).0
                    < base.len() && group@[t].1 < base.len() by {
                    assert(groups[g as int]@[t].0 < n);
                }
                lemma_with_edges_ok(base, group@, j as nat);
            }
            let ghost before = with_edges(base, group@, j as nat);
            let ghost full = rows(defeaters@);
            proof {
                assert(full == with_edges(base, group@, (j + 1) as nat));
                assert(full == before.update(
                    b as int,
                    before[b as int].push(group@[j as int].0),
                ));
                assert(full[b as int] == defeaters@[b as int]@);
            }
            defeaters[b].pop();
            proof {
                assert(before[b as int].push(group@[j as int].0).drop_last() =~= before[b as int]);
                assert(defeaters@.len() == n);
                assert(before.len() == n);
                assert(defeaters@[b as int]@ =~= full[b as int].drop_last());
                assert forall|v: int| 0 <= v < n implies #[trigger] rows(defeaters@)[v] == before[v] by {
                    if v != b {
                        assert(defeaters@[v]@ == full[v]);
                    }
                }
                assert(rows(defeaters@) =~= before);
            }
        }
    }
    proof {
        if stopped {
            let r = (groups.len() - g) as nat;
            assert forall|x: usize, y: usize|
                survivors(n, groups, r).contains(x) && survivors(n, groups, r).contains(
                    y,
                ) implies x == y by {
                let i = choose|i: int| 0 <= i < candidates@.len() && candidates@[i] == x;
                let k = choose|k: int| 0 <= k < candidates@.len() && candidates@[k] == y;
            }
            lemma_one_stays(n, groups, r, groups.len());
        }
    }
    candidates
}

} // verus!
