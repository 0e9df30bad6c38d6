//! Schulze STV: the committees of a given size that the Schulze method leaves
//! in the tournament of committees.

use crate::combination::{
    binom, binomial_fits, decode_combination, encode_combination, is_binomial_table, is_committee,
    lemma_binom_monotone, lemma_rank_bound, lemma_rank_injective, make_binomial, rank,
    strictly_ascending, table_fits,
};
use crate::proportional_completion::{
    alike, bit, completable, completes, completes_by, decoded_as, lemma_completion_unique,
    lemma_same_input, positions, proportional_completion, sound, width_of, Key, Preference,
};
use crate::schulze::{edges_ok, lemma_same_survivors, same_groups, schulze_graph, survivors};
use crate::traits::Weight;
use crate::util::{
    combine_dups, folded_from_one, folds_on, grouped_from_one, judged, may_group_from_one,
    may_judge, tail_run,
};
use crate::vote_management::{
    ballots_in_range, exhausts, lemma_same_strength, same_ballots, strength, upholds,
    weights_nonnegative,
};
use std::cmp::Ordering;
use vstd::prelude::*;

verus! {

/// The mark of a candidate that has no seat.
pub const NO_SEAT: usize = usize::MAX;

/// The first of the first `n` groups of `ballot` that lists `c`, or `n` if
/// none does.
pub open spec fn first_in(ballot: Seq<Vec<usize>>, c: usize, n: nat) -> nat
    decreases n,
{
    if n == 0 {
        0
    } else {
        let before = first_in(ballot, c, (n - 1) as nat);
        if before < n - 1 {
            before
        } else if ballot[n - 1]@.contains(c) {
            (n - 1) as nat
        } else {
            n
        }
    }
}

/// The rank that a ballot gives to a candidate: the number of its group, and
/// the number of groups for a candidate that the ballot does not list.
pub open spec fn rank_of(ballot: Seq<Vec<usize>>, c: usize) -> nat {
    first_in(ballot, c, ballot.len())
}

/// How the ballot ranks candidate `c` against candidate `x`.
pub open spec fn prefers(ballot: Seq<Vec<usize>>, c: usize, x: usize) -> Preference {
    if rank_of(ballot, c) < rank_of(ballot, x) {
        Preference::Greater
    } else if rank_of(ballot, c) == rank_of(ballot, x) {
        Preference::Equal
    } else {
        Preference::Less
    }
}

/// No candidate stands in two groups of the ballot.
pub open spec fn listed_once(ballot: Seq<Vec<usize>>) -> bool {
    forall|g: int, h: int, c: usize|
        0 <= g < h < ballot.len() && #[trigger] ballot[g]@.contains(c) ==> !#[trigger] ballot[h]@.contains(
            c,
        )
}

/// Every candidate that the ballot lists is below `n`.
pub open spec fn listed_below(ballot: Seq<Vec<usize>>, n: nat) -> bool {
    forall|g: int, j: int|
        0 <= g < ballot.len() && 0 <= j < ballot[g]@.len() ==> (#[trigger] ballot[g]@[j]) < n
}

/// `seats` gives every candidate its seat among `num_seats`, or `NO_SEAT`; no
/// two candidates have the same seat.
pub open spec fn seat_map(seats: Seq<usize>, num_seats: nat) -> bool {
    &&& forall|c: int| 0 <= c < seats.len() ==> #[trigger] seats[c] == NO_SEAT || seats[c] < num_seats
    &&& forall|c: int, e: int|
        0 <= c < seats.len() && 0 <= e < seats.len() && #[trigger] seats[c] == #[trigger] seats[e]
            && seats[c] != NO_SEAT ==> c == e
}

proof fn lemma_first_in_bound(ballot: Seq<Vec<usize>>, c: usize, n: nat)
    ensures
        first_in(ballot, c, n) <= n,
        first_in(ballot, c, n) < n ==> ballot[first_in(ballot, c, n) as int]@.contains(c),
        forall|g: int| 0 <= g < first_in(ballot, c, n) ==> !#[trigger] ballot[g]@.contains(c),
    decreases n,
{
    if n > 0 {
        lemma_first_in_bound(ballot, c, (n - 1) as nat);
    }
}

proof fn lemma_first_in_stable(ballot: Seq<Vec<usize>>, c: usize, n: nat, m: nat)
    requires
        n <= m,
    ensures
        first_in(ballot, c, n) < n ==> first_in(ballot, c, m) == first_in(ballot, c, n),
        first_in(ballot, c, n) == n ==> first_in(ballot, c, m) >= n,
    decreases m - n,
{
    lemma_first_in_bound(ballot, c, n);
    if n < m {
        lemma_first_in_stable(ballot, c, n, (m - 1) as nat);
        lemma_first_in_bound(ballot, c, (m - 1) as nat);
    }
}

fn lists(group: &Vec<usize>, c: usize) -> (r: bool)
    ensures
        r == group@.contains(c),
{
    let mut j: usize = 0;
    while j < group.len()
        invariant
            j <= group@.len(),
            forall|t: int| 0 <= t < j ==> group@[t] != c,
        decreases group@.len() - j,
    {
        if group[j] == c {
            return true;
        }
        j += 1;
    }
    false
}

/// How a ballot ranks each seat of a committee against the opponent.
///
/// `seats` gives the seat of every candidate.  A seat is preferred if the
/// ballot lists its candidate before the opponent, and tied with the opponent
/// if both stand in one group or neither is listed.
pub fn preferred(num_seats: usize, seats: &[usize], opponent: usize, ballot: &[Vec<usize>]) -> (v:
    Vec<Preference>)
    requires
        seat_map(seats@, num_seats as nat),
        listed_below(ballot@, seats@.len()),
        listed_once(ballot@),
    ensures
        v@.len() == num_seats,
        forall|c: int|
            0 <= c < seats@.len() && seats@[c] != NO_SEAT ==> v@[#[trigger] seats@[c] as int]
                == prefers(ballot@, c as usize, opponent),
{
    let total = seats.len();
    let mut v: Vec<Preference> = Vec::new();
    let mut s: usize = 0;
    while s < num_seats
        invariant
            s <= num_seats,
            v@.len() == s,
            forall|t: int| 0 <= t < s ==> v@[t] == Preference::Less,
        decreases num_seats - s,
    {
        v.push(Preference::Less);
        s += 1;
    }
    let mut g: usize = 0;
    while g < ballot.len()
        invariant
            g <= ballot@.len(),
            total == seats@.len(),
            v@.len() == num_seats,
            seat_map(seats@, num_seats as nat),
            listed_below(ballot@, seats@.len()),
            listed_once(ballot@),
            first_in(ballot@, opponent, g as nat) == g,
            forall|c: int|
                0 <= c < seats@.len() && seats@[c] != NO_SEAT ==> v@[#[trigger] seats@[c] as int]
                    == if first_in(ballot@, c as usize, g as nat) < g {
                    Preference::Greater
                } else {
                    Preference::Less
                },
        decreases ballot@.len() - g,
    {
        let group = &ballot[g];
        let tied = lists(group, opponent);
        let mark = if tied {
            Preference::Equal
        } else {
            Preference::Greater
        };
        let ghost before = v@;
        let mut j: usize = 0;
        while j < group.len()
            invariant
                j <= group@.len(),
                g < ballot@.len(),
                group@ == ballot@[g as int]@,
                total == seats@.len(),
                v@.len() == num_seats,
                seat_map(seats@, num_seats as nat),
                listed_below(ballot@, seats@.len()),
                forall|c: int|
                    0 <= c < seats@.len() && seats@[c] != NO_SEAT ==> v@[#[trigger] seats@[c] as int]
                        == if exists|t: int| 0 <= t < j && group@[t] == c {
                        mark
                    } else {
                        before[seats@[c] as int]
                    },
            decreases group@.len() - j,
        {
            let c = group[j];
            assert(ballot@[g as int]@[j as int] < seats@.len());
            if seats[c] != NO_SEAT {
                v[seats[c]] = mark;
            }
            proof {
                assert forall|e: int|
                    0 <= e < seats@.len() && seats@[e] != NO_SEAT implies v@[#[trigger] seats@[e] as int]
                    == if exists|t: int| 0 <= t < j + 1 && group@[t] == e {
                    mark
                } else {
                    before[seats@[e] as int]
                } by {
                    if exists|t: int| 0 <= t < j && group@[t] == e {
                        let t = choose|t: int| 0 <= t < j && group@[t] == e;
                        assert(0 <= t < j + 1 && group@[t] == e);
                    }
                    if e == c {
                        assert(0 <= j < j + 1 && group@[j as int] == e);
                    }
                    if exists|t: int| 0 <= t < j + 1 && group@[t] == e {
                        let t = choose|t: int| 0 <= t < j + 1 && group@[t] == e;
                        if t < j {
                            assert(0 <= t < j && group@[t] == e);
                        }
                    }
                }
            }
            j += 1;
        }
        proof {
            assert forall|c: int|
                0 <= c < seats@.len() && seats@[c] != NO_SEAT implies (exists|t: int|
                0 <= t < group@.len() && group@[t] == c) == group@.contains(c as usize) by {
                if group@.contains(c as usize) {
                    let t = choose|t: int| 0 <= t < group@.len() && group@[t] == c as usize;
                    assert(group@[t] == c);
                }
            }
        }
        if tied {
            proof {
                lemma_first_in_stable(ballot@, opponent, (g + 1) as nat, ballot@.len());
                assert forall|c: int|
                    0 <= c < seats@.len() && seats@[c] != NO_SEAT implies v@[#[trigger] seats@[c] as int]
                    == prefers(ballot@, c as usize, opponent) by {
                    lemma_first_in_bound(ballot@, c as usize, g as nat);
                    lemma_first_in_stable(ballot@, c as usize, g as nat, ballot@.len());
                    lemma_first_in_stable(ballot@, c as usize, (g + 1) as nat, ballot@.len());
                    if first_in(ballot@, c as usize, g as nat) < g {
                        let h = first_in(ballot@, c as usize, g as nat) as int;
                        assert(ballot@[h]@.contains(c as usize));
                        assert(!ballot@[g as int]@.contains(c as usize));
                    }
                }
            }
            return v;
        }
        proof {
            assert forall|c: int|
                0 <= c < seats@.len() && seats@[c] != NO_SEAT implies v@[#[trigger] seats@[c] as int]
                == if first_in(ballot@, c as usize, (g + 1) as nat) < g + 1 {
                Preference::Greater
            } else {
                Preference::Less
            } by {
                lemma_first_in_bound(ballot@, c as usize, g as nat);
            }
        }
        g += 1;
    }
    let ghost before = v@;
    let mut s: usize = 0;
    while s < num_seats
        invariant
            s <= num_seats,
            v@.len() == num_seats,
            forall|t: int|
                0 <= t < num_seats ==> v@[t] == if t < s && before[t] == Preference::Less {
                    Preference::Equal
                } else {
                    before[t]
                },
        decreases num_seats - s,
    {
        let low = match v[s] {
            Preference::Less => true,
            _ => false,
        };
        if low {
            v[s] = Preference::Equal;
        }
        s += 1;
    }
    proof {
        assert forall|c: int|
            0 <= c < seats@.len() && seats@[c] != NO_SEAT implies v@[#[trigger] seats@[c] as int]
            == prefers(ballot@, c as usize, opponent) by {
            lemma_first_in_bound(ballot@, c as usize, ballot@.len());
        }
    }
    v
}

/// Member `u` of `set`, one of the first `t` and not the one that leaves, is `c`.
spec fn from(set: Seq<usize>, leave: int, t: int, c: usize, u: int) -> bool {
    0 <= u < t && u < set.len() && u != leave && set[u] == c
}

/// `c` is among what has been taken over when the first `t` members of `set`
/// have been looked at.
spec fn holds(set: Seq<usize>, x: usize, leave: int, k: int, t: int, c: usize) -> bool {
    (c == x && t > k) || exists|u: int| #[trigger] from(set, leave, t, c, u)
}

/// `out` is the committee `set` with its member `i` replaced by `x`.
pub open spec fn replaces(set: Seq<usize>, x: usize, i: int, out: Seq<usize>) -> bool {
    &&& out.len() == set.len()
    &&& strictly_ascending(out)
    &&& forall|c: usize| #[trigger] out.contains(c) <==> c == x || (set.contains(c) && c != set[i])
}

/// The committee `set` with the member at position `leave` left out and `x`
/// put in at its place in the order.
fn replaced(set: &[usize], x: usize, leave: usize, k: usize) -> (v: Vec<usize>)
    requires
        strictly_ascending(set@),
        leave < set@.len(),
        k <= set@.len(),
        forall|t: int| 0 <= t < k ==> set@[t] < x,
        forall|t: int| k <= t < set@.len() ==> x < set@[t],
    ensures
        replaces(set@, x, leave as int, v@),
{
    let mut v: Vec<usize> = Vec::new();
    let n = set.len();
    let mut t: usize = 0;
    while t < n
        invariant
            t <= n,
            n == set@.len(),
            leave < n,
            k <= n,
            strictly_ascending(set@),
            forall|u: int| 0 <= u < k ==> set@[u] < x,
            forall|u: int| k <= u < n ==> x < set@[u],
            strictly_ascending(v@),
            v@.len() == t - (if t > leave { 1int } else { 0int }) + (if t > k { 1int } else { 0int }),
            forall|c: usize| #[trigger] v@.contains(c) <==> holds(set@, x, leave as int, k as int, t as int, c),
            forall|j: int, u: int| 0 <= j < v@.len() && t <= u < n ==> v@[j] < set@[u],
            t <= k ==> forall|j: int| 0 <= j < v@.len() ==> v@[j] < x,
        decreases n - t,
    {
        let ghost start = v@;
        if t == k {
            v.push(x);
        }
        let ghost middle = v@;
        if t != leave {
            v.push(set[t]);
        }
        proof {
            let t1 = t + 1;
            assert forall|i: int, j: int| 0 <= i < j < v@.len() implies v@[i] < v@[j] by {
                if j < start.len() {
                    assert(start[i] < start[j]);
                } else if i < start.len() {
                    assert(start[i] < set@[t as int]);
                }
            }
            assert forall|c: usize| #[trigger] v@.contains(c) <==> holds(
                set@,
                x,
                leave as int,
                k as int,
                t1,
                c,
            ) by {
                if v@.contains(c) {
                    let j = choose|j: int| 0 <= j < v@.len() && v@[j] == c;
                    if j < start.len() {
                        assert(start.contains(c));
                        assert(holds(set@, x, leave as int, k as int, t as int, c));
                        if !(c == x && t > k) {
                            let u = choose|u: int| #[trigger] from(set@, leave as int, t as int, c, u);
                            assert(from(set@, leave as int, t1, c, u));
                        }
                    } else if j < middle.len() {
                    } else {
                        assert(from(set@, leave as int, t1, c, t as int));
                    }
                }
                if holds(set@, x, leave as int, k as int, t1, c) {
                    if c == x && t + 1 > k {
                        if t == k {
                            assert(v@[start.len() as int] == c);
                        } else {
                            assert(holds(set@, x, leave as int, k as int, t as int, c));
                            assert(start.contains(c));
                            let j = choose|j: int| 0 <= j < start.len() && start[j] == c;
                            assert(v@[j] == c);
                        }
                    } else {
                        let u = choose|u: int| #[trigger] from(set@, leave as int, t1, c, u);
                        if u < t {
                            assert(from(set@, leave as int, t as int, c, u));
                            assert(holds(set@, x, leave as int, k as int, t as int, c));
                            assert(start.contains(c));
                            let j = choose|j: int| 0 <= j < start.len() && start[j] == c;
                            assert(v@[j] == c);
                        } else {
                            assert(v@[middle.len() as int] == c);
                        }
                    }
                }
            }
            assert forall|j: int, u: int| 0 <= j < v@.len() && t + 1 <= u < n implies v@[j]
                < set@[u] by {
                if j < start.len() {
                    assert(start[j] < set@[u]);
                } else {
                    assert(set@[t as int] < set@[u]);
                }
            }
            if t + 1 <= k {
                assert forall|j: int| 0 <= j < v@.len() implies v@[j] < x by {
                    if j < start.len() {
                        assert(start[j] < x);
                    }
                }
            }
        }
        t += 1;
    }
    let ghost start = v@;
    if k == n {
        v.push(x);
    }
    proof {
        assert forall|i: int, j: int| 0 <= i < j < v@.len() implies v@[i] < v@[j] by {
            if j < start.len() {
                assert(start[i] < start[j]);
            }
        }
        assert forall|c: usize| #[trigger]
            v@.contains(c) <==> c == x || (set@.contains(c) && c != set@[leave as int]) by {
            if v@.contains(c) {
                let j = choose|j: int| 0 <= j < v@.len() && v@[j] == c;
                if j < start.len() {
                    assert(start.contains(c));
                    assert(holds(set@, x, leave as int, k as int, n as int, c));
                }
            }
            if start.contains(c) {
                let j = choose|j: int| 0 <= j < start.len() && start[j] == c;
                assert(v@[j] == c);
            }
            if holds(set@, x, leave as int, k as int, n as int, c) && !(c == x) {
                let u = choose|u: int| #[trigger] from(set@, leave as int, n as int, c, u);
                assert(set@.contains(c));
                if u < leave {
                    assert(set@[u] < set@[leave as int]);
                } else {
                    assert(set@[leave as int] < set@[u]);
                }
            }
            if set@.contains(c) && c != set@[leave as int] {
                let u = choose|u: int| 0 <= u < n && set@[u] == c;
                assert(from(set@, leave as int, n as int, c, u));
                assert(holds(set@, x, leave as int, k as int, n as int, c));
            }
            if c == x {
                if k == n {
                    assert(v@[start.len() as int] == c);
                } else {
                    assert(holds(set@, x, leave as int, k as int, n as int, c));
                }
            }
        }
    }
    v
}

/// The committees that come of `set` when the opponent takes the place of one
/// of its members: entry `i` is `set` without its member `i` and with the
/// opponent, in ascending order.
pub fn replacements(set: &[usize], opponent: usize) -> (out: Vec<Vec<usize>>)
    requires
        strictly_ascending(set@),
        !set@.contains(opponent),
    ensures
        out@.len() == set@.len(),
        forall|i: int|
            0 <= i < out@.len() ==> replaces(set@, opponent, i, (#[trigger] out@[i])@),
{
    // The number of members below the opponent.
    let mut lo: usize = 0;
    let mut hi: usize = set.len();
    while lo < hi
        invariant
            lo <= hi <= set@.len(),
            strictly_ascending(set@),
            !set@.contains(opponent),
            forall|t: int| 0 <= t < lo ==> set@[t] < opponent,
            forall|t: int| hi <= t < set@.len() ==> opponent < set@[t],
        decreases hi - lo,
    {
        let mid = lo + (hi - lo) / 2;
        assert(set@.contains(set@[mid as int]));
        if set[mid] < opponent {
            proof {
                assert forall|t: int| 0 <= t < mid + 1 implies set@[t] < opponent by {
                    if t < mid {
                        assert(set@[t] < set@[mid as int]);
                    }
                }
            }
            lo = mid + 1;
        } else {
            proof {
                assert forall|t: int| mid <= t < set@.len() implies opponent < set@[t] by {
                    if t > mid {
                        assert(set@[mid as int] < set@[t]);
                    }
                }
            }
            hi = mid;
        }
    }
    let k = lo;
    let mut out: Vec<Vec<usize>> = Vec::new();
    let mut i: usize = 0;
    while i < set.len()
        invariant
            i <= set@.len(),
            k <= set@.len(),
            strictly_ascending(set@),
            forall|t: int| 0 <= t < k ==> set@[t] < opponent,
            forall|t: int| k <= t < set@.len() ==> opponent < set@[t],
            out@.len() == i,
            forall|j: int| 0 <= j < i ==> replaces(set@, opponent, j, (#[trigger] out@[j])@),
        decreases set@.len() - i,
    {
        out.push(replaced(set, opponent, i, k));
        i += 1;
    }
    out
}

/// What may be tallied: every ballot lists candidates below `n`, none twice,
/// and has no negative weight.
pub open spec fn ballots_ok<W: Weight>(ballots: Seq<(Vec<Vec<usize>>, W)>, n: nat) -> bool {
    &&& forall|b: int| 0 <= b < ballots.len() ==> listed_below(#[trigger] ballots[b].0@, n)
    &&& forall|b: int| 0 <= b < ballots.len() ==> listed_once(#[trigger] ballots[b].0@)
    &&& forall|b: int| 0 <= b < ballots.len() ==> (#[trigger] ballots[b]).1.value() >= 0real
}

/// A committee whose rank is below `C(n, k)` has only members below `n`.
proof fn lemma_members_below(set: Seq<usize>, n: nat, top: nat)
    requires
        is_committee(set, top),
        rank(set) < binom(n, set.len()),
    ensures
        is_committee(set, n),
{
    if set.len() > 0 {
        let last = set.last();
        if last >= n {
            // rank(set) >= C(last, k) >= C(n, k)
            lemma_binom_monotone(n, last as nat, set.len());
        }
        assert forall|i: int| 0 <= i < set.len() implies set[i] < n by {
            if i < set.len() - 1 {
                assert(set[i] < set[set.len() - 1]);
            }
        }
    }
}

/// The committee of `k` among `n` candidates that has the number `m`.
fn committee(binomial: &Vec<Vec<usize>>, n: usize, k: usize, m: usize) -> (set: Vec<usize>)
    requires
        is_binomial_table(binomial@),
        binomial@.len() == n + 1,
        binomial@[0]@.len() == k + 1,
        m < binom(n as nat, k as nat),
    ensures
        set@.len() == k,
        is_committee(set@, n as nat),
        rank(set@) == m,
{
    proof {
        lemma_binom_monotone(n as nat, (n + 1) as nat, k as nat);
    }
    let set = decode_combination(binomial.as_slice(), k, m);
    proof {
        lemma_members_below(set@, n as nat, (n + 1) as nat);
    }
    set
}

/// The seat of every candidate in the committee `set`.
fn seats_of(set: &Vec<usize>, n: usize) -> (seats: Vec<usize>)
    requires
        is_committee(set@, n as nat),
    ensures
        seats@.len() == n,
        seat_map(seats@, set@.len()),
        forall|i: int| 0 <= i < set@.len() ==> seats@[#[trigger] set@[i] as int] == i,
        forall|c: int| 0 <= c < n ==> (#[trigger] seats@[c] != NO_SEAT <==> set@.contains(c as usize)),
{
    let mut seats: Vec<usize> = Vec::new();
    let mut c: usize = 0;
    while c < n
        invariant
            c <= n,
            seats@.len() == c,
            forall|t: int| 0 <= t < c ==> seats@[t] == NO_SEAT,
        decreases n - c,
    {
        seats.push(NO_SEAT);
        c += 1;
    }
    let mut i: usize = 0;
    while i < set.len()
        invariant
            i <= set@.len(),
            is_committee(set@, n as nat),
            seats@.len() == n,
            forall|j: int| 0 <= j < i ==> seats@[#[trigger] set@[j] as int] == j,
            forall|c: int|
                0 <= c < n ==> (#[trigger] seats@[c] != NO_SEAT <==> exists|j: int|
                    0 <= j < i && set@[j] == c),
            forall|c: int| 0 <= c < n && #[trigger] seats@[c] != NO_SEAT ==> seats@[c] < i,
        decreases set@.len() - i,
    {
        let c = set[i];
        let ghost before = seats@;
        seats[c] = i;
        proof {
            assert forall|j: int| 0 <= j < i + 1 implies seats@[#[trigger] set@[j] as int] == j by {
                if j < i {
                    assert(set@[j] < set@[i as int]);
                    assert(before[set@[j] as int] == j);
                }
            }
            assert forall|e: int| 0 <= e < n implies (#[trigger] seats@[e] != NO_SEAT <==> exists|
                j: int,
            |
                0 <= j < i + 1 && set@[j] == e) by {
                if e == c {
                    assert(0 <= i < i + 1 && set@[i as int] == e);
                } else {
                    if before[e] != NO_SEAT {
                        let j = choose|j: int| 0 <= j < i && set@[j] == e;
                        assert(0 <= j < i + 1 && set@[j] == e);
                    }
                    if exists|j: int| 0 <= j < i + 1 && set@[j] == e {
                        let j = choose|j: int| 0 <= j < i + 1 && set@[j] == e;
                        assert(0 <= j < i && set@[j] == e);
                    }
                }
            }
        }
        i += 1;
    }
    proof {
        assert forall|c: int, e: int|
            0 <= c < seats@.len() && 0 <= e < seats@.len() && #[trigger] seats@[c]
                == #[trigger] seats@[e] && seats@[c] != NO_SEAT implies c == e by {
            let j = choose|j: int| 0 <= j < set@.len() && set@[j] == c;
            let h = choose|h: int| 0 <= h < set@.len() && set@[h] == e;
            assert(seats@[set@[j] as int] == j);
            assert(seats@[set@[h] as int] == h);
        }
        assert forall|c: int| 0 <= c < n implies (#[trigger] seats@[c] != NO_SEAT
            <==> set@.contains(c as usize)) by {
            if set@.contains(c as usize) {
                let j = choose|j: int| 0 <= j < set@.len() && set@[j] == c as usize;
                assert(0 <= j < set@.len() && set@[j] == c);
            }
        }
    }
    seats
}

proof fn lemma_positions_set(mask: u64, n: nat, j: int)
    requires
        n <= 64,
        0 <= j < positions(mask, n).len(),
    ensures
        positions(mask, n)[j] < n,
        bit(mask, positions(mask, n)[j] as int),
    decreases n,
{
    if n > 0 {
        let rest = positions(mask, (n - 1) as nat);
        if j < rest.len() {
            lemma_positions_set(mask, (n - 1) as nat, j);
        }
    }
}

proof fn lemma_positions_distinct(mask: u64, n: nat)
    requires
        n <= 64,
    ensures
        positions(mask, n).no_duplicates(),
    decreases n,
{
    if n > 0 {
        let rest = positions(mask, (n - 1) as nat);
        lemma_positions_distinct(mask, (n - 1) as nat);
        assert forall|i: int| 0 <= i < rest.len() implies rest[i] != (n - 1) as usize by {
            lemma_positions_set(mask, (n - 1) as nat, i);
        }
    }
}

proof fn lemma_width<W>(input: Seq<(Vec<Preference>, W)>, k: int)
    requires
        k >= 0,
        forall|i: int| 0 <= i < input.len() ==> (#[trigger] input[i]).0@.len() == k,
    ensures
        width_of(input) <= k,
    decreases input.len(),
{
    if input.len() > 0 {
        assert forall|i: int| 0 <= i < input.drop_last().len() implies (
        #[trigger] input.drop_last()[i]).0@.len() == k by {
            assert(input[i].0@.len() == k);
        }
        lemma_width(input.drop_last(), k);
        assert(input[input.len() - 1].0@.len() == k);
    }
}

/// How the ballot ranks each member of the committee against the candidate `c`.
pub open spec fn pattern_of(ballot: Seq<Vec<usize>>, set: Seq<usize>, c: usize) -> Seq<Preference> {
    Seq::new(set.len(), |i: int| prefers(ballot, set[i], c))
}

/// The patterns are those of the ballots for the committee `set` against `c`,
/// each with the weight of its ballot.
pub open spec fn patterns_of<W: Weight>(
    ballots: Seq<(Vec<Vec<usize>>, W)>,
    set: Seq<usize>,
    c: usize,
    patterns: Seq<(Vec<Preference>, W)>,
) -> bool {
    &&& patterns.len() == ballots.len()
    &&& forall|b: int|
        0 <= b < ballots.len() ==> (#[trigger] patterns[b]).0@ == pattern_of(ballots[b].0@, set, c)
            && patterns[b].1.value() == ballots[b].1.value()
}

/// `v` is the strength of the committee `set` against the candidate `c`: the
/// vote-management strength of a proportional completion of the patterns of
/// the ballots.
pub open spec fn strength_of<W: Weight>(
    ballots: Seq<(Vec<Vec<usize>>, W)>,
    set: Seq<usize>,
    c: usize,
    v: real,
) -> bool {
    exists|patterns: Seq<(Vec<Preference>, W)>, fin: Seq<(Key, W)>, completed: Seq<(Vec<usize>, W)>|
        #![trigger completes(patterns, fin), decoded_as(completed, fin)]
        patterns_of(ballots, set, c, patterns) && completes(patterns, fin) && decoded_as(
            completed,
            fin,
        ) && upholds(completed, set.len(), v) && (set.len() > 0 ==> exhausts(
            completed,
            set.len(),
            v,
        )) && (set.len() == 0 ==> v == 0real)
}

/// A committee has one strength against a candidate.
pub proof fn lemma_strength_of_unique<W: Weight>(
    ballots: Seq<(Vec<Vec<usize>>, W)>,
    set: Seq<usize>,
    c: usize,
    v1: real,
    v2: real,
)
    requires
        strength_of(ballots, set, c, v1),
        strength_of(ballots, set, c, v2),
    ensures
        v1 == v2,
{
    let (p1, f1, d1) = choose|
        patterns: Seq<(Vec<Preference>, W)>,
        fin: Seq<(Key, W)>,
        completed: Seq<(Vec<usize>, W)>,
    |
        #![trigger completes(patterns, fin), decoded_as(completed, fin)]
        patterns_of(ballots, set, c, patterns) && completes(patterns, fin) && decoded_as(
            completed,
            fin,
        ) && upholds(completed, set.len(), v1) && (set.len() > 0 ==> exhausts(
            completed,
            set.len(),
            v1,
        )) && (set.len() == 0 ==> v1 == 0real);
    let (p2, f2, d2) = choose|
        patterns: Seq<(Vec<Preference>, W)>,
        fin: Seq<(Key, W)>,
        completed: Seq<(Vec<usize>, W)>,
    |
        #![trigger completes(patterns, fin), decoded_as(completed, fin)]
        patterns_of(ballots, set, c, patterns) && completes(patterns, fin) && decoded_as(
            completed,
            fin,
        ) && upholds(completed, set.len(), v2) && (set.len() > 0 ==> exhausts(
            completed,
            set.len(),
            v2,
        )) && (set.len() == 0 ==> v2 == 0real);
    if set.len() > 0 {
        assert forall|i: int| 0 <= i < p1.len() implies (#[trigger] p1[i]).0@ == p2[i].0@
            && p1[i].1.value() == p2[i].1.value() by {
            assert(p1[i].0@ == pattern_of(ballots[i].0@, set, c));
            assert(p2[i].0@ == pattern_of(ballots[i].0@, set, c));
        }
        lemma_same_input(p1, p2);
        let c1 = choose|chain: Seq<Seq<(Key, W)>>| #[trigger] completes_by(p1, chain, f1);
        let c2 = choose|chain: Seq<Seq<(Key, W)>>| #[trigger] completes_by(p2, chain, f2);
        lemma_completion_unique(p1, c1, f1, p2, c2, f2);
        assert(same_ballots(d1, d2)) by {
            assert forall|i: int| 0 <= i < d1.len() implies (#[trigger] d1[i]).0@ == d2[i].0@
                && d1[i].1.value() == d2[i].1.value() by {
                assert(f1[i].0 == f2[i].0);
                assert(d1[i].0@ == positions(f1[i].0.1, 64));
                assert(d2[i].0@ == positions(f2[i].0.1, 64));
            }
        }
        lemma_same_strength(d1, d2, set.len(), v1, v2);
    }
}

/// The strength of the committee with the given seats against the opponent.
fn strength_against<W: Weight>(
    num_seats: usize,
    seats: &Vec<usize>,
    opponent: usize,
    ballots: &[(Vec<Vec<usize>>, W)],
    Ghost(set): Ghost<Seq<usize>>,
) -> (r: W)
    requires
        num_seats <= 64,
        seat_map(seats@, num_seats as nat),
        ballots_ok(ballots@, seats@.len()),
        set.len() == num_seats,
        forall|i: int| 0 <= i < set.len() ==> (#[trigger] set[i]) < seats@.len() && seats@[set[i] as int] == i,
    ensures
        r.value() >= 0real,
        strength_of(ballots@, set, opponent, r.value()),
{
    let mut patterns: Vec<(Vec<Preference>, W)> = Vec::new();
    let mut b: usize = 0;
    while b < ballots.len()
        invariant
            b <= ballots@.len(),
            num_seats <= 64,
            seat_map(seats@, num_seats as nat),
            ballots_ok(ballots@, seats@.len()),
            set.len() == num_seats,
            forall|i: int|
                0 <= i < set.len() ==> (#[trigger] set[i]) < seats@.len() && seats@[set[i] as int] == i,
            patterns@.len() == b,
            forall|i: int| 0 <= i < b ==> (#[trigger] patterns@[i]).0@.len() == num_seats,
            forall|i: int| 0 <= i < b ==> (#[trigger] patterns@[i]).1.value() >= 0real,
            forall|i: int|
                0 <= i < b ==> (#[trigger] patterns@[i]).0@ == pattern_of(ballots@[i].0@, set, opponent)
                    && patterns@[i].1.value() == ballots@[i].1.value(),
        decreases ballots@.len() - b,
    {
        assert(listed_below(ballots@[b as int].0@, seats@.len()));
        assert(listed_once(ballots@[b as int].0@));
        assert(ballots@[b as int].1.value() >= 0real);
        let pattern = preferred(num_seats, seats.as_slice(), opponent, ballots[b].0.as_slice());
        let ghost before = patterns@;
        proof {
            assert forall|i: int| 0 <= i < num_seats implies pattern@[i] == prefers(
                ballots@[b as int].0@,
                set[i],
                opponent,
            ) by {
                let c = set[i] as int;
                assert(seats@[c] == i);
                assert(pattern@[seats@[c] as int] == prefers(ballots@[b as int].0@, c as usize, opponent));
            }
            assert(pattern@ =~= pattern_of(ballots@[b as int].0@, set, opponent));
        }
        patterns.push((pattern, ballots[b].1.duplicate()));
        proof {
            assert forall|i: int| 0 <= i < b + 1 implies (#[trigger] patterns@[i]).0@.len()
                == num_seats && patterns@[i].1.value() >= 0real && patterns@[i].0@ == pattern_of(
                ballots@[i].0@,
                set,
                opponent,
            ) && patterns@[i].1.value() == ballots@[i].1.value() by {
                if i < b {
                    assert(patterns@[i] == before[i]);
                    assert(before[i].0@.len() == num_seats);
                    assert(before[i].1.value() >= 0real);
                }
            }
        }
        b += 1;
    }
    proof {
        assert(completable(patterns@)) by {
            assert forall|i: int| 0 <= i < patterns@.len() implies (#[trigger] patterns@[i]).0@.len()
                <= 64 by {
                assert(patterns@[i].0@.len() == num_seats);
            }
        }
        lemma_width(patterns@, num_seats as int);
    }
    let completed = proportional_completion(patterns.as_slice());
    let ghost fin = choose|fin: Seq<(Key, W)>| #[trigger]
        completes(patterns@, fin) && decoded_as(completed@, fin);
    proof {
        assert forall|i: int, j: int|
            0 <= i < completed@.len() && 0 <= j < completed@[i].0@.len() implies (
        #[trigger] completed@[i].0@[j]) < num_seats by {
            assert(sound(fin[i].0, width_of(patterns@)));
            lemma_positions_set(fin[i].0.1, 64, j);
            let p = positions(fin[i].0.1, 64)[j];
            assert(completed@[i].0@ == positions(fin[i].0.1, 64));
            if p >= num_seats {
                assert(!bit(fin[i].0.1, p as int));
            }
        }
        assert forall|i: int| 0 <= i < completed@.len() implies (#[trigger] completed@[i]).1.value()
            >= 0real by {
            assert(fin[i].1.value() > 0real);
        }
        assert forall|i: int| 0 <= i < completed@.len() implies (
        #[trigger] completed@[i]).0@.no_duplicates() by {
            assert(completed@[i].0@ == positions(fin[i].0.1, 64));
            lemma_positions_distinct(fin[i].0.1, 64);
        }
    }
    let r = strength(num_seats, completed.as_slice());
    proof {
        assert(patterns_of(ballots@, set, opponent, patterns@));
        assert(completes(patterns@, fin) && decoded_as(completed@, fin));
        assert(strength_of(ballots@, set, opponent, r.value()));
    }
    r
}

/// `table` holds the strengths of the committees of `k` among `n` candidates:
/// row `m` belongs to the committee with the number `m` and has an entry for
/// every candidate, which is not negative: zero for a member of the
/// committee, and for another candidate the strength of the committee
/// against that candidate.
pub open spec fn tabulated<W: Weight>(
    ballots: Seq<(Vec<Vec<usize>>, W)>,
    n: nat,
    k: nat,
    table: Seq<Vec<W>>,
) -> bool {
    &&& table.len() == binom(n, k)
    &&& forall|m: int| 0 <= m < table.len() ==> (#[trigger] table[m])@.len() == n
    &&& forall|m: int, c: int|
        0 <= m < table.len() && 0 <= c < n ==> (#[trigger] table[m]@[c]).value() >= 0real
    &&& forall|set: Seq<usize>, c: usize|
        is_committee(set, n) && set.len() == k && #[trigger] set.contains(c) ==> table[rank(
            set,
        ) as int]@[c as int].value() == 0real
    &&& forall|set: Seq<usize>, c: usize|
        is_committee(set, n) && set.len() == k && c < n && !set.contains(c) ==> #[trigger] strength_of(
            ballots,
            set,
            c,
            table[rank(set) as int]@[c as int].value(),
        )
}

/// The strength of every committee of `num_seats` among the candidates
/// against every candidate: row `m` belongs to the committee with the number
/// `m`.  Against its own members, the strength of a committee is zero.
pub fn all_strengths<W: Weight>(
    num_candidates: usize,
    num_seats: usize,
    ballots: &[(Vec<Vec<usize>>, W)],
) -> (table: Vec<Vec<W>>)
    requires
        table_fits(num_candidates as nat, num_seats as nat),
        num_seats <= 64,
        ballots_ok(ballots@, num_candidates as nat),
    ensures
        tabulated(ballots@, num_candidates as nat, num_seats as nat, table@),
{
    let binomial = make_binomial(num_candidates, num_seats);
    let count = binomial[num_candidates][num_seats];
    let mut table: Vec<Vec<W>> = Vec::new();
    let mut m: usize = 0;
    while m < count
        invariant
            m <= count,
            count == binom(num_candidates as nat, num_seats as nat),
            is_binomial_table(binomial@),
            binomial@.len() == num_candidates + 1,
            binomial@[0]@.len() == num_seats + 1,
            num_seats <= 64,
            ballots_ok(ballots@, num_candidates as nat),
            table@.len() == m,
            forall|r: int| 0 <= r < m ==> (#[trigger] table@[r])@.len() == num_candidates,
            forall|r: int, c: int|
                0 <= r < m && 0 <= c < num_candidates ==> (#[trigger] table@[r]@[c]).value() >= 0real,
            forall|set: Seq<usize>, c: usize|
                is_committee(set, num_candidates as nat) && set.len() == num_seats && rank(set) < m
                    && #[trigger] set.contains(c) ==> table@[rank(set) as int]@[c as int].value()
                    == 0real,
            forall|set: Seq<usize>, c: usize|
                is_committee(set, num_candidates as nat) && set.len() == num_seats && rank(set) < m
                    && c < num_candidates && !set.contains(c) ==> #[trigger] strength_of(
                    ballots@,
                    set,
                    c,
                    table@[rank(set) as int]@[c as int].value(),
                ),
        decreases count - m,
    {
        let set = committee(&binomial, num_candidates, num_seats, m);
        let seats = seats_of(&set, num_candidates);
        let mut row: Vec<W> = Vec::new();
        let mut opponent: usize = 0;
        while opponent < num_candidates
            invariant
                opponent <= num_candidates,
                num_seats <= 64,
                set@.len() == num_seats,
                seats@.len() == num_candidates,
                seat_map(seats@, num_seats as nat),
                ballots_ok(ballots@, num_candidates as nat),
                forall|c: int|
                    0 <= c < num_candidates ==> (#[trigger] seats@[c] != NO_SEAT
                        <==> set@.contains(c as usize)),
                row@.len() == opponent,
                forall|c: int| 0 <= c < opponent ==> (#[trigger] row@[c]).value() >= 0real,
                forall|c: int|
                    0 <= c < opponent && set@.contains(c as usize) ==> (#[trigger] row@[c]).value()
                        == 0real,
                forall|i: int| 0 <= i < set@.len() ==> seats@[#[trigger] set@[i] as int] == i,
                is_committee(set@, num_candidates as nat),
                forall|c: int|
                    0 <= c < opponent && !set@.contains(c as usize) ==> strength_of(
                        ballots@,
                        set@,
                        c as usize,
                        (#[trigger] row@[c]).value(),
                    ),
            decreases num_candidates - opponent,
        {
            let entry = if seats[opponent] != NO_SEAT {
                W::zero()
            } else {
                strength_against(num_seats, &seats, opponent, ballots, Ghost(set@))
            };
            let ghost before = row@;
            row.push(entry);
            proof {
                assert forall|c: int|
                    0 <= c < opponent + 1 && !set@.contains(c as usize) implies strength_of(
                    ballots@,
                    set@,
                    c as usize,
                    (#[trigger] row@[c]).value(),
                ) by {
                    if c < opponent {
                        assert(row@[c] == before[c]);
                    } else {
                        assert(seats@[c] == NO_SEAT);
                    }
                }
                assert forall|c: int| 0 <= c < opponent + 1 implies (#[trigger] row@[c]).value()
                    >= 0real by {
                    if c < opponent {
                        assert(before[c].value() >= 0real);
                    }
                }
                assert forall|c: int|
                    0 <= c < opponent + 1 && set@.contains(c as usize) implies (
                #[trigger] row@[c]).value() == 0real by {
                    if c < opponent {
                        assert(before[c].value() == 0real);
                    } else {
                        assert(seats@[c] != NO_SEAT);
                    }
                }
            }
            opponent += 1;
        }
        let ghost before = table@;
        table.push(row);
        proof {
            assert forall|r: int| 0 <= r < m + 1 implies (#[trigger] table@[r])@.len()
                == num_candidates by {
                if r < m {
                    assert(before[r]@.len() == num_candidates);
                }
            }
            assert forall|r: int, c: int| 0 <= r < m + 1 && 0 <= c < num_candidates implies (
            #[trigger] table@[r]@[c]).value() >= 0real by {
                if r < m {
                    assert(before[r]@[c].value() >= 0real);
                }
            }
            assert forall|other: Seq<usize>, c: usize|
                is_committee(other, num_candidates as nat) && other.len() == num_seats && rank(other)
                    < m + 1 && c < num_candidates && !other.contains(c) implies #[trigger] strength_of(
                ballots@,
                other,
                c,
                table@[rank(other) as int]@[c as int].value(),
            ) by {
                if rank(other) < m {
                    assert(table@[rank(other) as int] == before[rank(other) as int]);
                } else {
                    lemma_rank_injective(other, set@);
                }
            }
            assert forall|other: Seq<usize>, c: usize|
                is_committee(other, num_candidates as nat) && other.len() == num_seats && rank(other)
                    < m + 1 && #[trigger] other.contains(c) implies table@[rank(
                other,
            ) as int]@[c as int].value() == 0real by {
                let i = choose|i: int| 0 <= i < other.len() && other[i] == c;
                assert(other[i] < num_candidates);
                if rank(other) < m {
                    assert(before[rank(other) as int]@[c as int].value() == 0real);
                } else {
                    crate::combination::lemma_rank_injective(other, set@);
                }
            }
        }
        m += 1;
    }
    proof {
        assert forall|set: Seq<usize>, c: usize|
            is_committee(set, num_candidates as nat) && set.len() == num_seats && #[trigger] set.contains(
                c,
            ) implies table@[rank(set) as int]@[c as int].value() == 0real by {
            lemma_rank_bound(set, num_candidates as nat);
        }
        assert forall|set: Seq<usize>, c: usize|
            is_committee(set, num_candidates as nat) && set.len() == num_seats && c < num_candidates
                && !set.contains(c) implies #[trigger] strength_of(
            ballots@,
            set,
            c,
            table@[rank(set) as int]@[c as int].value(),
        ) by {
            lemma_rank_bound(set, num_candidates as nat);
        }
    }
    table
}

/// A defeat of one committee by another, with its strength.
pub type Defeat<W> = (W, (usize, usize));

/// The order of two weights.
pub fn weight_order<W: Weight>(x: &W, y: &W) -> (o: Ordering)
    ensures
        match o {
            Ordering::Less => x.value() < y.value(),
            Ordering::Equal => x.value() == y.value(),
            Ordering::Greater => x.value() > y.value(),
        },
{
    if x.less_than(y) {
        Ordering::Less
    } else if y.less_than(x) {
        Ordering::Greater
    } else {
        Ordering::Equal
    }
}

/// No defeat comes before a stronger one.
pub open spec fn strongest_first<W: Weight>(s: Seq<Defeat<W>>) -> bool {
    forall|i: int, j: int| 0 <= i < j < s.len() ==> (#[trigger] s[i]).0.value() >= (#[trigger] s[j]).0.value()
}

/// `slice::sort_by` with the order of the weights turned round: the same
/// defeats, the strongest first.
#[verifier::external_body]
fn sort_defeats<W: Weight>(v: &mut Vec<Defeat<W>>)
    ensures
        final(v)@.to_multiset() == old(v)@.to_multiset(),
        strongest_first(final(v)@),
{
    v.sort_by(|a, b| weight_order(&b.0, &a.0));
}

/// The closures with which defeats of one strength are put into one group.
spec fn collects<W: Weight, O, M>(one: O, more: M) -> bool where
    O: Fn(Defeat<W>) -> Vec<Defeat<W>>,
    M: Fn(Vec<Defeat<W>>, Defeat<W>) -> Vec<Defeat<W>>,
 {
    &&& forall|a: Defeat<W>, r: Vec<Defeat<W>>| #[trigger]
        call_ensures(one, (a,), r) ==> r@ == seq![a]
    &&& forall|g: Vec<Defeat<W>>, a: Defeat<W>, r: Vec<Defeat<W>>| #[trigger]
        call_ensures(more, (g, a), r) ==> r@ == g@.push(a)
}

proof fn lemma_folded_members<W: Weight, O, M>(one: O, more: M, run: Seq<Defeat<W>>, b: Vec<Defeat<W>>) where
    O: Fn(Defeat<W>) -> Vec<Defeat<W>>,
    M: Fn(Vec<Defeat<W>>, Defeat<W>) -> Vec<Defeat<W>>,

    requires
        collects(one, more),
        folded_from_one(one, more, run, b),
    ensures
        b@ == run,
    decreases run.len(),
{
    if run.len() == 1 {
        assert(b@ =~= run);
    } else {
        let g = choose|g: Vec<Defeat<W>>|
            folded_from_one(one, more, run.drop_last(), g) && #[trigger] folds_on(
                more,
                g,
                run.last(),
                b,
            );
        lemma_folded_members(one, more, run.drop_last(), g);
        assert(b@ =~= run);
    }
}

/// The strength of a group of defeats: that of its first.
pub open spec fn level<W: Weight>(group: Seq<Defeat<W>>) -> real {
    group[0].0.value()
}

/// A group holds the defeat `d`.
pub open spec fn held<W: Weight>(out: Seq<Vec<Defeat<W>>>, d: Defeat<W>) -> bool {
    exists|g: int, j: int| 0 <= g < out.len() && 0 <= j < out[g]@.len() && #[trigger] out[g]@[j] == d
}

/// `out` holds the defeats of `s` in groups: each group has the defeats of one
/// strength, and a group comes before the groups of less strength.
pub open spec fn in_levels<W: Weight>(s: Seq<Defeat<W>>, out: Seq<Vec<Defeat<W>>>) -> bool {
    &&& forall|g: int| 0 <= g < out.len() ==> (#[trigger] out[g])@.len() > 0
    &&& forall|g: int, j: int|
        0 <= g < out.len() && 0 <= j < out[g]@.len() ==> (#[trigger] out[g]@[j]).0.value() == level(
            out[g]@,
        )
    &&& forall|g: int, h: int|
        0 <= g < h < out.len() ==> level(#[trigger] out[g]@) > level(#[trigger] out[h]@)
    &&& forall|g: int, j: int|
        0 <= g < out.len() && 0 <= j < out[g]@.len() ==> s.contains(#[trigger] out[g]@[j])
    &&& forall|t: int| 0 <= t < s.len() ==> held(out, #[trigger] s[t])
}

/// `eq` says whether two defeats have the same strength.
spec fn judges<W: Weight, E: Fn(&Defeat<W>, &Defeat<W>) -> bool>(eq: E) -> bool {
    forall|a: Defeat<W>, b: Defeat<W>, r: bool| #[trigger]
        call_ensures(eq, (&a, &b), r) ==> r == (a.0.value() == b.0.value())
}

/// All defeats of a run have the strength of its first.
proof fn lemma_run_level<W: Weight, E: Fn(&Defeat<W>, &Defeat<W>) -> bool>(
    eq: E,
    s: Seq<Defeat<W>>,
    n: int,
    j: int,
)
    requires
        judges(eq),
        tail_run(eq, s, n),
        s.len() - n <= j < s.len(),
    ensures
        s[j].0.value() == s[s.len() - n].0.value(),
    decreases j,
{
    if j > s.len() - n {
        lemma_run_level(eq, s, n, j - 1);
        assert(judged(eq, s, j - 1, true));
    }
}

/// Levels with one more group: the last `n` defeats of `s`, which have one
/// strength, less than that of the defeat before them.
proof fn lemma_levels_step<W: Weight>(s: Seq<Defeat<W>>, out: Seq<Vec<Defeat<W>>>, n: int)
    requires
        1 <= n <= s.len(),
        out.len() > 0,
        in_levels(s.take(s.len() - n), out.drop_last()),
        out.last()@ == s.skip(s.len() - n),
        forall|j: int| s.len() - n <= j < s.len() ==> (#[trigger] s[j]).0.value() == s[s.len() - n].0.value(),
        forall|t: int| 0 <= t < s.len() - n ==> (#[trigger] s[t]).0.value() > s[s.len() - n].0.value(),
    ensures
        in_levels(s, out),
{
    let cut = s.len() - n;
    let head = s.take(cut);
    let run = s.skip(cut);
    let front = out.drop_last();
    let last = out.len() - 1;
    assert(out[last]@ == run);
    assert(run[0] == s[cut]);
    assert forall|g: int| 0 <= g < out.len() implies (#[trigger] out[g])@.len() > 0 by {
        if g < last {
            assert(front[g]@.len() > 0);
        }
    }
    assert forall|g: int, j: int| 0 <= g < out.len() && 0 <= j < out[g]@.len() implies (
    #[trigger] out[g]@[j]).0.value() == level(out[g]@) by {
        if g < last {
            assert(front[g]@[j].0.value() == level(front[g]@));
        } else {
            assert(run[j] == s[cut + j]);
        }
    }
    assert forall|g: int, j: int| 0 <= g < out.len() && 0 <= j < out[g]@.len() implies s.contains(
        #[trigger] out[g]@[j],
    ) by {
        if g < last {
            assert(head.contains(front[g]@[j]));
            let t = choose|t: int| 0 <= t < head.len() && head[t] == out[g]@[j];
            assert(s[t] == out[g]@[j]);
        } else {
            assert(run[j] == s[cut + j]);
        }
    }
    assert forall|g: int, h: int| 0 <= g < h < out.len() implies level(#[trigger] out[g]@) > level(
        #[trigger] out[h]@,
    ) by {
        if h < last {
            assert(level(front[g]@) > level(front[h]@));
        } else {
            assert(front[g]@.len() > 0);
            assert(head.contains(front[g]@[0]));
            let t = choose|t: int| 0 <= t < head.len() && head[t] == front[g]@[0];
            assert(s[t] == front[g]@[0]);
        }
    }
    assert forall|t: int| 0 <= t < s.len() implies held(out, #[trigger] s[t]) by {
        if t < cut {
            assert(held(front, head[t]));
            let (g, j) = choose|g: int, j: int|
                0 <= g < front.len() && 0 <= j < front[g]@.len() && #[trigger] front[g]@[j]
                    == head[t];
            assert(out[g]@[j] == s[t]);
        } else {
            assert(out[last]@[t - cut] == s[t]);
        }
    }
}

/// Grouping defeats that are sorted by strength puts them in levels.
proof fn lemma_grouped_levels<W: Weight, E, O, M>(
    eq: E,
    one: O,
    more: M,
    s: Seq<Defeat<W>>,
    out: Seq<Vec<Defeat<W>>>,
) where
    E: Fn(&Defeat<W>, &Defeat<W>) -> bool,
    O: Fn(Defeat<W>) -> Vec<Defeat<W>>,
    M: Fn(Vec<Defeat<W>>, Defeat<W>) -> Vec<Defeat<W>>,

    requires
        collects(one, more),
        judges(eq),
        strongest_first(s),
        grouped_from_one(eq, one, more, s, out),
    ensures
        in_levels(s, out),
    decreases s.len(),
{
    if s.len() > 0 {
        let n = choose|n: int|
            #![trigger tail_run(eq, s, n)]
            tail_run(eq, s, n) && folded_from_one(one, more, s.skip(s.len() - n), out.last())
                && grouped_from_one(eq, one, more, s.take(s.len() - n), out.drop_last());
        let cut = s.len() - n;
        let head = s.take(cut);
        lemma_folded_members(one, more, s.skip(cut), out.last());
        assert(strongest_first(head)) by {
            assert forall|i: int, j: int| 0 <= i < j < head.len() implies (#[trigger] head[i]).0.value()
                >= (#[trigger] head[j]).0.value() by {
                assert(s[i].0.value() >= s[j].0.value());
            }
        }
        lemma_grouped_levels(eq, one, more, head, out.drop_last());
        assert forall|j: int| cut <= j < s.len() implies (#[trigger] s[j]).0.value() == s[cut].0.value() by {
            lemma_run_level(eq, s, n, j);
        }
        assert forall|t: int| 0 <= t < cut implies (#[trigger] s[t]).0.value() > s[cut].0.value() by {
            assert(judged(eq, s, cut - 1, false));
            assert(s[cut - 1].0.value() >= s[cut].0.value());
            if t < cut - 1 {
                assert(s[t].0.value() >= s[cut - 1].0.value());
            }
        }
        lemma_levels_step(s, out, n);
    }
}

/// Both committees of every defeat have a number below `count`.
spec fn defeats_below<W>(s: Seq<Defeat<W>>, count: int) -> bool {
    forall|i: int| 0 <= i < s.len() ==> (#[trigger] s[i]).1.0 < count && s[i].1.1 < count
}

/// `other` is the committee `set` of `k` among `n` candidates with its member
/// `i` replaced by the candidate `x`, who is not in `set`.
pub open spec fn challenge(set: Seq<usize>, x: usize, i: int, other: Seq<usize>, n: nat, k: nat) -> bool {
    &&& is_committee(set, n)
    &&& set.len() == k
    &&& x < n
    &&& !set.contains(x)
    &&& 0 <= i < k
    &&& replaces(set, x, i, other)
}

/// By the table of strengths, the first committee of `edge` defeats the second
/// with the strength `v`: the second is the first with one member replaced by a
/// candidate against whom the first has the strength `v`.
pub open spec fn is_defeat<W: Weight>(
    table: Seq<Vec<W>>,
    n: nat,
    k: nat,
    v: real,
    edge: (usize, usize),
) -> bool {
    exists|set: Seq<usize>, x: usize, i: int, other: Seq<usize>|
        #[trigger] challenge(set, x, i, other, n, k) && rank(set) == edge.0 && rank(other)
            == edge.1 && table[edge.0 as int]@[x as int].value() == v
}

/// The list holds a defeat of strength `v` along `edge`.
pub open spec fn listed<W: Weight>(defeats: Seq<Defeat<W>>, v: real, edge: (usize, usize)) -> bool {
    exists|t: int| 0 <= t < defeats.len() && (#[trigger] defeats[t]).1 == edge && defeats[t].0.value() == v
}

/// The list holds the defeats of the table, and nothing else.
pub open spec fn lists_defeats<W: Weight>(defeats: Seq<Defeat<W>>, table: Seq<Vec<W>>, n: nat, k: nat) -> bool {
    &&& forall|t: int|
        0 <= t < defeats.len() ==> is_defeat(table, n, k, (#[trigger] defeats[t]).0.value(), defeats[t].1)
    &&& forall|v: real, edge: (usize, usize)| #[trigger]
        is_defeat(table, n, k, v, edge) ==> listed(defeats, v, edge)
}

/// The list holds the defeats that come before member `i` of the committee
/// `m` and the challenger `x`.
spec fn covered<W: Weight>(
    defeats: Seq<Defeat<W>>,
    table: Seq<Vec<W>>,
    n: nat,
    k: nat,
    m: int,
    x: int,
    i: int,
) -> bool {
    forall|set: Seq<usize>, y: usize, j: int, other: Seq<usize>|
        #[trigger] challenge(set, y, j, other, n, k) && (rank(set) < m || (rank(set) == m && (y < x || (y
            == x && j < i)))) ==> listed(
            defeats,
            table[rank(set) as int]@[y as int].value(),
            (rank(set) as usize, rank(other) as usize),
        )
}

/// Strictly ascending sequences with the same members are equal.
proof fn lemma_same_members(a: Seq<usize>, b: Seq<usize>)
    requires
        strictly_ascending(a),
        strictly_ascending(b),
        a.len() == b.len(),
        forall|c: usize| a.contains(c) <==> b.contains(c),
    ensures
        a == b,
    decreases a.len(),
{
    if a.len() > 0 {
        let x = a.last();
        let y = b.last();
        assert(a.contains(x));
        assert(b.contains(y));
        let ib = choose|t: int| 0 <= t < b.len() && b[t] == x;
        let ia = choose|t: int| 0 <= t < a.len() && a[t] == y;
        assert(x == y);
        let a1 = a.drop_last();
        let b1 = b.drop_last();
        assert forall|c: usize| a1.contains(c) <==> b1.contains(c) by {
            if a1.contains(c) {
                let t = choose|t: int| 0 <= t < a1.len() && a1[t] == c;
                assert(a[t] == c);
                assert(a.contains(c));
                let u = choose|u: int| 0 <= u < b.len() && b[u] == c;
                assert(c < x);
                assert(b1[u] == c);
            }
            if b1.contains(c) {
                let t = choose|t: int| 0 <= t < b1.len() && b1[t] == c;
                assert(b[t] == c);
                assert(b.contains(c));
                let u = choose|u: int| 0 <= u < a.len() && a[u] == c;
                assert(c < y);
                assert(a1[u] == c);
            }
        }
        lemma_same_members(a1, b1);
        assert(a =~= a1.push(x));
        assert(b =~= b1.push(y));
    } else {
        assert(a =~= b);
    }
}

/// A defeat that the list holds is still held after a push.
proof fn lemma_listed_push<W: Weight>(defeats: Seq<Defeat<W>>, d: Defeat<W>, v: real, edge: (usize, usize))
    requires
        listed(defeats, v, edge),
    ensures
        listed(defeats.push(d), v, edge),
{
    let t = choose|t: int| 0 <= t < defeats.len() && (#[trigger] defeats[t]).1 == edge && defeats[t].0.value() == v;
    assert(defeats.push(d)[t] == defeats[t]);
}

/// The list covers one challenge more once the defeat of that challenge has
/// been pushed.
proof fn lemma_cover_push<W: Weight>(
    defeats: Seq<Defeat<W>>,
    d: Defeat<W>,
    table: Seq<Vec<W>>,
    n: nat,
    k: nat,
    set: Seq<usize>,
    x: usize,
    i: int,
    other: Seq<usize>,
)
    requires
        covered(defeats, table, n, k, rank(set) as int, x as int, i),
        challenge(set, x, i, other, n, k),
        rank(set) <= usize::MAX,
        rank(other) <= usize::MAX,
        d.1 == (rank(set) as usize, rank(other) as usize),
        d.0.value() == table[rank(set) as int]@[x as int].value(),
    ensures
        covered(defeats.push(d), table, n, k, rank(set) as int, x as int, i + 1),
{
    let m = rank(set) as int;
    let after = defeats.push(d);
    assert forall|s1: Seq<usize>, y: usize, j: int, o1: Seq<usize>|
        #[trigger] challenge(s1, y, j, o1, n, k) && (rank(s1) < m || (rank(s1) == m && (y < x || (y
            == x && j < i + 1)))) implies listed(
        after,
        table[rank(s1) as int]@[y as int].value(),
        (rank(s1) as usize, rank(o1) as usize),
    ) by {
        if rank(s1) == m && y == x && j == i {
            lemma_rank_injective(s1, set);
            lemma_same_members(o1, other);
            assert(after[after.len() - 1] == d);
        } else {
            lemma_listed_push(
                defeats,
                d,
                table[rank(s1) as int]@[y as int].value(),
                (rank(s1) as usize, rank(o1) as usize),
            );
        }
    }
}

/// A challenger from inside the committee makes no challenge.
proof fn lemma_cover_member<W: Weight>(
    defeats: Seq<Defeat<W>>,
    table: Seq<Vec<W>>,
    n: nat,
    k: nat,
    set: Seq<usize>,
    x: usize,
)
    requires
        covered(defeats, table, n, k, rank(set) as int, x as int, 0),
        is_committee(set, n),
        set.len() == k,
        set.contains(x),
    ensures
        covered(defeats, table, n, k, rank(set) as int, x + 1, 0),
{
    let m = rank(set) as int;
    assert forall|s1: Seq<usize>, y: usize, j: int, o1: Seq<usize>|
        #[trigger] challenge(s1, y, j, o1, n, k) && (rank(s1) < m || (rank(s1) == m && (y < x + 1 || (y
            == x + 1 && j < 0)))) implies listed(
        defeats,
        table[rank(s1) as int]@[y as int].value(),
        (rank(s1) as usize, rank(o1) as usize),
    ) by {
        if rank(s1) == m && y == x {
            lemma_rank_injective(s1, set);
        }
    }
}

/// The defeats among the committees: each committee defeats, with its
/// strength against a candidate outside it, the committees in which that
/// candidate has taken the place of one of its members.
fn defeats_of<W: Weight>(
    binomial: &Vec<Vec<usize>>,
    num_candidates: usize,
    num_seats: usize,
    strengths: &Vec<Vec<W>>,
) -> (defeats: Vec<Defeat<W>>)
    requires
        table_fits(num_candidates as nat, num_seats as nat),
        is_binomial_table(binomial@),
        binomial@.len() == num_candidates + 1,
        binomial@[0]@.len() == num_seats + 1,
        strengths@.len() == binom(num_candidates as nat, num_seats as nat),
        forall|m: int| 0 <= m < strengths@.len() ==> (#[trigger] strengths@[m])@.len() == num_candidates,
    ensures
        defeats_below(defeats@, strengths@.len() as int),
        lists_defeats(defeats@, strengths@, num_candidates as nat, num_seats as nat),
{
    let mut defeats: Vec<Defeat<W>> = Vec::new();
    let ghost count = strengths@.len() as int;
    let ghost n = num_candidates as nat;
    let ghost k = num_seats as nat;
    let mut m: usize = 0;
    while m < strengths.len()
        invariant
            m <= strengths@.len(),
            count == strengths@.len(),
            n == num_candidates,
            k == num_seats,
            table_fits(num_candidates as nat, num_seats as nat),
            is_binomial_table(binomial@),
            binomial@.len() == num_candidates + 1,
            binomial@[0]@.len() == num_seats + 1,
            strengths@.len() == binom(num_candidates as nat, num_seats as nat),
            forall|m: int|
                0 <= m < strengths@.len() ==> (#[trigger] strengths@[m])@.len() == num_candidates,
            defeats_below(defeats@, count),
            forall|t: int|
                0 <= t < defeats@.len() ==> is_defeat(
                    strengths@,
                    n,
                    k,
                    (#[trigger] defeats@[t]).0.value(),
                    defeats@[t].1,
                ),
            covered(defeats@, strengths@, n, k, m as int, 0, 0),
        decreases strengths@.len() - m,
    {
        let set = committee(binomial, num_candidates, num_seats, m);
        let seats = seats_of(&set, num_candidates);
        let mut opponent: usize = 0;
        while opponent < num_candidates
            invariant
                opponent <= num_candidates,
                m < strengths@.len(),
                count == strengths@.len(),
                n == num_candidates,
                k == num_seats,
                table_fits(num_candidates as nat, num_seats as nat),
                is_binomial_table(binomial@),
                binomial@.len() == num_candidates + 1,
                binomial@[0]@.len() == num_seats + 1,
                strengths@.len() == binom(num_candidates as nat, num_seats as nat),
                strengths@[m as int]@.len() == num_candidates,
                set@.len() == num_seats,
                is_committee(set@, num_candidates as nat),
                rank(set@) == m,
                seats@.len() == num_candidates,
                forall|c: int|
                    0 <= c < num_candidates ==> (#[trigger] seats@[c] != NO_SEAT
                        <==> set@.contains(c as usize)),
                defeats_below(defeats@, count),
                forall|t: int|
                    0 <= t < defeats@.len() ==> is_defeat(
                        strengths@,
                        n,
                        k,
                        (#[trigger] defeats@[t]).0.value(),
                        defeats@[t].1,
                    ),
                covered(defeats@, strengths@, n, k, m as int, opponent as int, 0),
            decreases num_candidates - opponent,
        {
            if seats[opponent] == NO_SEAT {
                assert(!set@.contains(opponent));
                let others = replacements(set.as_slice(), opponent);
                let mut i: usize = 0;
                while i < others.len()
                    invariant
                        i <= others@.len(),
                        others@.len() == set@.len(),
                        opponent < num_candidates,
                        m < strengths@.len(),
                        count == strengths@.len(),
                        n == num_candidates,
                        k == num_seats,
                        table_fits(num_candidates as nat, num_seats as nat),
                        is_binomial_table(binomial@),
                        binomial@.len() == num_candidates + 1,
                        binomial@[0]@.len() == num_seats + 1,
                        strengths@.len() == binom(num_candidates as nat, num_seats as nat),
                        strengths@[m as int]@.len() == num_candidates,
                        set@.len() == num_seats,
                        is_committee(set@, num_candidates as nat),
                        rank(set@) == m,
                        !set@.contains(opponent),
                        forall|t: int|
                            0 <= t < others@.len() ==> replaces(
                                set@,
                                opponent,
                                t,
                                (#[trigger] others@[t])@,
                            ),
                        defeats_below(defeats@, count),
                        forall|t: int|
                            0 <= t < defeats@.len() ==> is_defeat(
                                strengths@,
                                n,
                                k,
                                (#[trigger] defeats@[t]).0.value(),
                                defeats@[t].1,
                            ),
                        covered(defeats@, strengths@, n, k, m as int, opponent as int, i as int),
                    decreases others@.len() - i,
                {
                    let other = &others[i];
                    proof {
                        assert(replaces(set@, opponent, i as int, others@[i as int]@));
                        assert(is_committee(other@, num_candidates as nat)) by {
                            assert forall|t: int| 0 <= t < other@.len() implies other@[t]
                                < num_candidates by {
                                assert(other@.contains(other@[t]));
                                if other@[t] != opponent {
                                    let u = choose|u: int|
                                        0 <= u < set@.len() && set@[u] == other@[t];
                                    assert(set@[u] < num_candidates);
                                }
                            }
                        }
                        lemma_rank_bound(other@, num_candidates as nat);
                    }
                    let m1 = encode_combination(binomial.as_slice(), other.as_slice());
                    let ghost before = defeats@;
                    let entry = (strengths[m][opponent].duplicate(), (m, m1));
                    let ghost d = entry;
                    defeats.push(entry);
                    proof {
                        assert forall|t: int| 0 <= t < defeats@.len() implies (
                        #[trigger] defeats@[t]).1.0 < count && defeats@[t].1.1 < count by {
                            if t < before.len() {
                                assert(before[t].1.0 < count);
                            }
                        }
                        assert(challenge(set@, opponent, i as int, other@, n, k));
                        assert(is_defeat(strengths@, n, k, d.0.value(), d.1));
                        assert forall|t: int| 0 <= t < defeats@.len() implies is_defeat(
                            strengths@,
                            n,
                            k,
                            (#[trigger] defeats@[t]).0.value(),
                            defeats@[t].1,
                        ) by {
                            if t < before.len() {
                                assert(defeats@[t] == before[t]);
                            }
                        }
                        lemma_cover_push(before, d, strengths@, n, k, set@, opponent, i as int, other@);
                    }
                    i += 1;
                }
                proof {
                    assert(covered(defeats@, strengths@, n, k, m as int, opponent + 1, 0));
                }
            } else {
                proof {
                    assert(set@.contains(opponent as int as usize));
                    lemma_cover_member(defeats@, strengths@, n, k, set@, opponent);
                }
            }
            opponent += 1;
        }
        proof {
            assert(covered(defeats@, strengths@, n, k, m + 1, 0, 0));
        }
        m += 1;
    }
    proof {
        assert forall|v: real, edge: (usize, usize)| #[trigger]
            is_defeat(strengths@, n, k, v, edge) implies listed(defeats@, v, edge) by {
            let (set, x, i, other) = choose|set: Seq<usize>, x: usize, i: int, other: Seq<usize>|
                #[trigger] challenge(set, x, i, other, n, k) && rank(set) == edge.0 && rank(other)
                    == edge.1 && strengths@[edge.0 as int]@[x as int].value() == v;
            lemma_rank_bound(set, n);
        }
    }
    defeats
}

/// One of the groups holds `edge`, and has the strength `v`.
pub open spec fn grouped_at(groups: Seq<Vec<(usize, usize)>>, levels: Seq<real>, v: real, edge: (usize, usize)) -> bool {
    exists|g: int, j: int|
        0 <= g < groups.len() && 0 <= j < groups[g]@.len() && levels[g] == v && #[trigger] groups[g]@[j]
            == edge
}

/// The groups hold the defeats of the table, group `g` those of the strength
/// `levels[g]`, and the strengths go down from group to group.
#[verifier::opaque]
pub open spec fn ranked_as<W: Weight>(
    table: Seq<Vec<W>>,
    n: nat,
    k: nat,
    groups: Seq<Vec<(usize, usize)>>,
    levels: Seq<real>,
) -> bool {
    &&& levels.len() == groups.len()
    &&& forall|g: int, h: int| 0 <= g < h < levels.len() ==> #[trigger] levels[g] > #[trigger] levels[h]
    &&& forall|g: int| 0 <= g < groups.len() ==> (#[trigger] groups[g])@.len() > 0
    &&& forall|g: int, j: int|
        0 <= g < groups.len() && 0 <= j < groups[g]@.len() ==> is_defeat(
            table,
            n,
            k,
            levels[g],
            #[trigger] groups[g]@[j],
        )
    &&& forall|v: real, edge: (usize, usize)| #[trigger]
        is_defeat(table, n, k, v, edge) ==> grouped_at(groups, levels, v, edge)
}

/// The groups hold the defeats of the table by their strength, the strongest
/// first.
pub open spec fn arranged<W: Weight>(table: Seq<Vec<W>>, n: nat, k: nat, groups: Seq<Vec<(usize, usize)>>) -> bool {
    exists|levels: Seq<real>| #[trigger] ranked_as(table, n, k, groups, levels)
}

/// The winners are the committees that the Schulze method leaves, given the
/// defeats among the committees in groups.
pub open spec fn chosen(winners: Seq<Vec<usize>>, groups: Seq<Vec<(usize, usize)>>, n: nat, k: nat) -> bool {
    &&& committees(winners, n, k)
    &&& forall|i: int|
        0 <= i < winners.len() ==> survivors(binom(n, k), groups, groups.len()).contains(
            rank(#[trigger] winners[i]@) as usize,
        )
    &&& forall|m: usize| #[trigger]
        survivors(binom(n, k), groups, groups.len()).contains(m) ==> exists|i: int|
            0 <= i < winners.len() && rank(#[trigger] winners[i]@) == m
}

/// The winners are what Schulze STV elects: for some table of the strengths
/// and the defeats of that table in groups by their strength, the committees
/// that the Schulze method leaves.
pub open spec fn elected<W: Weight>(
    ballots: Seq<(Vec<Vec<usize>>, W)>,
    n: nat,
    k: nat,
    winners: Seq<Vec<usize>>,
) -> bool {
    exists|table: Seq<Vec<W>>, groups: Seq<Vec<(usize, usize)>>|
        #![trigger tabulated(ballots, n, k, table), arranged(table, n, k, groups)]
        tabulated(ballots, n, k, table) && arranged(table, n, k, groups) && chosen(winners, groups, n, k)
}

/// Sorting keeps the list a list of the defeats of the table.
proof fn lemma_sorted_defeats<W: Weight>(
    unsorted: Seq<Defeat<W>>,
    sorted: Seq<Defeat<W>>,
    table: Seq<Vec<W>>,
    n: nat,
    k: nat,
)
    requires
        sorted.to_multiset() == unsorted.to_multiset(),
        lists_defeats(unsorted, table, n, k),
    ensures
        lists_defeats(sorted, table, n, k),
{
    broadcast use vstd::seq_lib::group_to_multiset_ensures;

    assert forall|t: int| 0 <= t < sorted.len() implies is_defeat(
        table,
        n,
        k,
        (#[trigger] sorted[t]).0.value(),
        sorted[t].1,
    ) by {
        assert(sorted.contains(sorted[t]));
        assert(sorted.to_multiset().count(sorted[t]) > 0);
        assert(unsorted.contains(sorted[t]));
        let u = choose|u: int| 0 <= u < unsorted.len() && unsorted[u] == sorted[t];
        assert(is_defeat(table, n, k, unsorted[u].0.value(), unsorted[u].1));
    }
    assert forall|v: real, edge: (usize, usize)| #[trigger]
        is_defeat(table, n, k, v, edge) implies listed(sorted, v, edge) by {
        assert(listed(unsorted, v, edge));
        let u = choose|u: int|
            0 <= u < unsorted.len() && (#[trigger] unsorted[u]).1 == edge && unsorted[u].0.value() == v;
        assert(unsorted.contains(unsorted[u]));
        assert(unsorted.to_multiset().count(unsorted[u]) > 0);
        assert(sorted.contains(unsorted[u]));
        let t = choose|t: int| 0 <= t < sorted.len() && sorted[t] == unsorted[u];
        assert(sorted[t].1 == edge);
    }
}

/// The edges of defeats in levels are the defeats of the table, arranged.
proof fn lemma_arranged<W: Weight>(
    sorted: Seq<Defeat<W>>,
    grouped: Seq<Vec<Defeat<W>>>,
    groups: Seq<Vec<(usize, usize)>>,
    table: Seq<Vec<W>>,
    n: nat,
    k: nat,
)
    requires
        lists_defeats(sorted, table, n, k),
        in_levels(sorted, grouped),
        groups.len() == grouped.len(),
        forall|g: int| 0 <= g < groups.len() ==> (#[trigger] groups[g])@.len() == grouped[g]@.len(),
        forall|g: int, j: int|
            0 <= g < groups.len() && 0 <= j < groups[g]@.len() ==> #[trigger] groups[g]@[j]
                == grouped[g]@[j].1,
    ensures
        arranged(table, n, k, groups),
{
    reveal(ranked_as);
    let levels = Seq::new(grouped.len(), |g: int| level(grouped[g]@));
    assert forall|g: int, h: int| 0 <= g < h < levels.len() implies #[trigger] levels[g]
        > #[trigger] levels[h] by {
        assert(level(grouped[g]@) > level(grouped[h]@));
    }
    assert forall|g: int| 0 <= g < groups.len() implies (#[trigger] groups[g])@.len() > 0 by {
        assert(grouped[g]@.len() > 0);
    }
    assert forall|g: int, j: int| 0 <= g < groups.len() && 0 <= j < groups[g]@.len() implies is_defeat(
        table,
        n,
        k,
        levels[g],
        #[trigger] groups[g]@[j],
    ) by {
        let d = grouped[g]@[j];
        assert(d.0.value() == level(grouped[g]@));
        assert(sorted.contains(d));
        let t = choose|t: int| 0 <= t < sorted.len() && sorted[t] == d;
        assert(is_defeat(table, n, k, sorted[t].0.value(), sorted[t].1));
    }
    assert forall|v: real, edge: (usize, usize)| #[trigger]
        is_defeat(table, n, k, v, edge) implies grouped_at(groups, levels, v, edge) by {
        assert(listed(sorted, v, edge));
        let t = choose|t: int|
            0 <= t < sorted.len() && (#[trigger] sorted[t]).1 == edge && sorted[t].0.value() == v;
        assert(held(grouped, sorted[t]));
        let (g, j) = choose|g: int, j: int|
            0 <= g < grouped.len() && 0 <= j < grouped[g]@.len() && #[trigger] grouped[g]@[j]
                == sorted[t];
        assert(grouped[g]@[j].0.value() == level(grouped[g]@));
        assert(groups[g]@[j] == edge);
    }
    assert(ranked_as(table, n, k, groups, levels));
}

/// Strictly descending sequences with the same members are equal.
proof fn lemma_same_levels(a: Seq<real>, b: Seq<real>)
    requires
        forall|g: int, h: int| 0 <= g < h < a.len() ==> #[trigger] a[g] > #[trigger] a[h],
        forall|g: int, h: int| 0 <= g < h < b.len() ==> #[trigger] b[g] > #[trigger] b[h],
        forall|i: int| 0 <= i < a.len() ==> b.contains(#[trigger] a[i]),
        forall|i: int| 0 <= i < b.len() ==> a.contains(#[trigger] b[i]),
    ensures
        a == b,
    decreases a.len() + b.len(),
{
    if a.len() == 0 && b.len() == 0 {
        assert(a =~= b);
    } else if a.len() == 0 {
        assert(a.contains(b[0]));
    } else if b.len() == 0 {
        assert(b.contains(a[0]));
    } else {
        let x = a.last();
        let y = b.last();
        assert(b.contains(a[a.len() - 1]));
        assert(a.contains(b[b.len() - 1]));
        let j = choose|j: int| 0 <= j < b.len() && b[j] == x;
        let i = choose|i: int| 0 <= i < a.len() && a[i] == y;
        if j < b.len() - 1 {
            assert(b[j] > b[b.len() - 1]);
        }
        if i < a.len() - 1 {
            assert(a[i] > a[a.len() - 1]);
        }
        assert(x == y);
        let a1 = a.drop_last();
        let b1 = b.drop_last();
        assert forall|t: int| 0 <= t < a1.len() implies b1.contains(#[trigger] a1[t]) by {
            assert(b.contains(a[t]));
            let u = choose|u: int| 0 <= u < b.len() && b[u] == a[t];
            assert(a[t] > a[a.len() - 1]);
            assert(b1[u] == a1[t]);
        }
        assert forall|t: int| 0 <= t < b1.len() implies a1.contains(#[trigger] b1[t]) by {
            assert(a.contains(b[t]));
            let u = choose|u: int| 0 <= u < a.len() && a[u] == b[t];
            assert(b[t] > b[b.len() - 1]);
            assert(a1[u] == b1[t]);
        }
        lemma_same_levels(a1, b1);
        assert(a =~= a1.push(x));
        assert(b =~= b1.push(y));
    }
}

/// Every level of one arrangement is a level of another arrangement of the
/// same defeats.
proof fn lemma_levels_shared<W: Weight>(
    t1: Seq<Vec<W>>,
    t2: Seq<Vec<W>>,
    n: nat,
    k: nat,
    g1: Seq<Vec<(usize, usize)>>,
    l1: Seq<real>,
    g2: Seq<Vec<(usize, usize)>>,
    l2: Seq<real>,
)
    requires
        ranked_as(t1, n, k, g1, l1),
        ranked_as(t2, n, k, g2, l2),
        forall|v: real, e: (usize, usize)| #[trigger]
            is_defeat(t1, n, k, v, e) ==> is_defeat(t2, n, k, v, e),
    ensures
        forall|i: int| 0 <= i < l1.len() ==> l2.contains(#[trigger] l1[i]),
        forall|h: int, e: (usize, usize)|
            0 <= h < g1.len() && #[trigger] g1[h]@.contains(e) ==> grouped_at(g2, l2, l1[h], e),
{
    reveal(ranked_as);
    assert forall|h: int, e: (usize, usize)|
        0 <= h < g1.len() && #[trigger] g1[h]@.contains(e) implies grouped_at(g2, l2, l1[h], e) by {
        let j = choose|j: int| 0 <= j < g1[h]@.len() && g1[h]@[j] == e;
        assert(is_defeat(t1, n, k, l1[h], g1[h]@[j]));
        assert(is_defeat(t2, n, k, l1[h], e));
    }
    assert forall|i: int| 0 <= i < l1.len() implies l2.contains(#[trigger] l1[i]) by {
        assert(g1[i]@.len() > 0);
        let e = g1[i]@[0];
        assert(g1[i]@.contains(e));
        assert(grouped_at(g2, l2, l1[i], e));
        let (h, j) = choose|h: int, j: int|
            0 <= h < g2.len() && 0 <= j < g2[h]@.len() && l2[h] == l1[i] && #[trigger] g2[h]@[j] == e;
        assert(l2[h] == l1[i]);
    }
}

/// An arrangement has a level for every group, and the levels go down.
proof fn lemma_levels_down<W: Weight>(
    table: Seq<Vec<W>>,
    n: nat,
    k: nat,
    groups: Seq<Vec<(usize, usize)>>,
    levels: Seq<real>,
)
    requires
        ranked_as(table, n, k, groups, levels),
    ensures
        levels.len() == groups.len(),
        forall|a: int, b: int| 0 <= a < b < levels.len() ==> #[trigger] levels[a] > #[trigger] levels[b],
{
    reveal(ranked_as);
}

/// A defeat that an arrangement holds at the level of its group `h` stands in
/// that group.
proof fn lemma_in_group(groups: Seq<Vec<(usize, usize)>>, levels: Seq<real>, h: int, e: (usize, usize))
    requires
        levels.len() == groups.len(),
        forall|a: int, b: int| 0 <= a < b < levels.len() ==> #[trigger] levels[a] > #[trigger] levels[b],
        0 <= h < groups.len(),
        grouped_at(groups, levels, levels[h], e),
    ensures
        groups[h]@.contains(e),
{
    let (h2, j) = choose|h2: int, j: int|
        0 <= h2 < groups.len() && 0 <= j < groups[h2]@.len() && levels[h2] == levels[h]
            && #[trigger] groups[h2]@[j] == e;
    if h2 < h {
        assert(levels[h2] > levels[h]);
    }
    if h < h2 {
        assert(levels[h] > levels[h2]);
    }
    assert(groups[h]@[j] == e);
}

/// Two arrangements of the same defeats hold the same defeats, group by
/// group.
pub proof fn lemma_arranged_same<W: Weight>(
    t1: Seq<Vec<W>>,
    t2: Seq<Vec<W>>,
    n: nat,
    k: nat,
    g1: Seq<Vec<(usize, usize)>>,
    g2: Seq<Vec<(usize, usize)>>,
)
    requires
        arranged(t1, n, k, g1),
        arranged(t2, n, k, g2),
        forall|v: real, e: (usize, usize)| #[trigger]
            is_defeat(t1, n, k, v, e) == is_defeat(t2, n, k, v, e),
    ensures
        same_groups(g1, g2),
{
    let l1 = choose|levels: Seq<real>| #[trigger] ranked_as(t1, n, k, g1, levels);
    let l2 = choose|levels: Seq<real>| #[trigger] ranked_as(t2, n, k, g2, levels);
    lemma_levels_shared(t1, t2, n, k, g1, l1, g2, l2);
    lemma_levels_shared(t2, t1, n, k, g2, l2, g1, l1);
    lemma_levels_down(t1, n, k, g1, l1);
    lemma_levels_down(t2, n, k, g2, l2);
    lemma_same_levels(l1, l2);
    assert(g1.len() == g2.len());
    assert forall|h: int, e: (usize, usize)| 0 <= h < g1.len() implies (#[trigger] g1[h]@.contains(e)
        <==> g2[h]@.contains(e)) by {
        if g1[h]@.contains(e) {
            assert(grouped_at(g2, l2, l1[h], e));
            lemma_in_group(g2, l2, h, e);
        }
        if g2[h]@.contains(e) {
            assert(grouped_at(g1, l1, l2[h], e));
            lemma_in_group(g1, l1, h, e);
        }
    }
}

/// The defeats of two tables of the strengths of the same ballots are the
/// same.
proof fn lemma_same_defeats<W: Weight>(
    ballots: Seq<(Vec<Vec<usize>>, W)>,
    n: nat,
    k: nat,
    t1: Seq<Vec<W>>,
    t2: Seq<Vec<W>>,
    v: real,
    e: (usize, usize),
)
    requires
        tabulated(ballots, n, k, t1),
        tabulated(ballots, n, k, t2),
        is_defeat(t1, n, k, v, e),
    ensures
        is_defeat(t2, n, k, v, e),
{
    let (set, x, i, other) = choose|set: Seq<usize>, x: usize, i: int, other: Seq<usize>|
        #[trigger] challenge(set, x, i, other, n, k) && rank(set) == e.0 && rank(other) == e.1
            && t1[e.0 as int]@[x as int].value() == v;
    assert(strength_of(ballots, set, x, t1[rank(set) as int]@[x as int].value()));
    assert(strength_of(ballots, set, x, t2[rank(set) as int]@[x as int].value()));
    lemma_strength_of_unique(
        ballots,
        set,
        x,
        t1[rank(set) as int]@[x as int].value(),
        t2[rank(set) as int]@[x as int].value(),
    );
    assert(challenge(set, x, i, other, n, k));
}

/// A defeat stands between two of the committees.
proof fn lemma_defeat_edge<W: Weight>(table: Seq<Vec<W>>, n: nat, k: nat, v: real, e: (usize, usize))
    requires
        is_defeat(table, n, k, v, e),
    ensures
        e.0 < binom(n, k),
        e.1 < binom(n, k),
{
    let (set, x, i, other) = choose|set: Seq<usize>, x: usize, i: int, other: Seq<usize>|
        #[trigger] challenge(set, x, i, other, n, k) && rank(set) == e.0 && rank(other) == e.1
            && table[e.0 as int]@[x as int].value() == v;
    lemma_rank_bound(set, n);
    assert(is_committee(other, n)) by {
        assert forall|t: int| 0 <= t < other.len() implies other[t] < n by {
            assert(other.contains(other[t]));
            if other[t] != x {
                let u = choose|u: int| 0 <= u < set.len() && set[u] == other[t];
                assert(set[u] < n);
            }
        }
    }
    lemma_rank_bound(other, n);
}

/// The groups of an arrangement hold defeats among the committees only.
proof fn lemma_arranged_edges<W: Weight>(table: Seq<Vec<W>>, n: nat, k: nat, groups: Seq<Vec<(usize, usize)>>)
    requires
        arranged(table, n, k, groups),
    ensures
        edges_ok(binom(n, k), groups),
{
    reveal(ranked_as);
    let levels = choose|levels: Seq<real>| #[trigger] ranked_as(table, n, k, groups, levels);
    assert forall|g: int, j: int| 0 <= g < groups.len() && 0 <= j < groups[g]@.len() implies (
    #[trigger] groups[g]@[j]).0 < binom(n, k) && groups[g]@[j].1 < binom(n, k) by {
        assert(is_defeat(table, n, k, levels[g], groups[g]@[j]));
        lemma_defeat_edge(table, n, k, levels[g], groups[g]@[j]);
    }
}

/// The committee `set` is one of the winners.
pub open spec fn wins(winners: Seq<Vec<usize>>, set: Seq<usize>) -> bool {
    exists|i: int| 0 <= i < winners.len() && (#[trigger] winners[i])@ == set
}

/// Schulze STV elects one set of committees: two results for the same
/// ballots hold the same committees.
pub proof fn lemma_elected_unique<W: Weight>(
    ballots: Seq<(Vec<Vec<usize>>, W)>,
    n: nat,
    k: nat,
    w1: Seq<Vec<usize>>,
    w2: Seq<Vec<usize>>,
)
    requires
        binom(n, k) <= usize::MAX,
        elected(ballots, n, k, w1),
        elected(ballots, n, k, w2),
    ensures
        forall|set: Seq<usize>| #[trigger] wins(w1, set) == wins(w2, set),
{
    let (t1, g1) = choose|table: Seq<Vec<W>>, groups: Seq<Vec<(usize, usize)>>|
        #![trigger tabulated(ballots, n, k, table), arranged(table, n, k, groups)]
        tabulated(ballots, n, k, table) && arranged(table, n, k, groups) && chosen(w1, groups, n, k);
    let (t2, g2) = choose|table: Seq<Vec<W>>, groups: Seq<Vec<(usize, usize)>>|
        #![trigger tabulated(ballots, n, k, table), arranged(table, n, k, groups)]
        tabulated(ballots, n, k, table) && arranged(table, n, k, groups) && chosen(w2, groups, n, k);
    assert forall|v: real, e: (usize, usize)| #[trigger]
        is_defeat(t1, n, k, v, e) == is_defeat(t2, n, k, v, e) by {
        if is_defeat(t1, n, k, v, e) {
            lemma_same_defeats(ballots, n, k, t1, t2, v, e);
        }
        if is_defeat(t2, n, k, v, e) {
            lemma_same_defeats(ballots, n, k, t2, t1, v, e);
        }
    }
    lemma_arranged_same(t1, t2, n, k, g1, g2);
    lemma_arranged_edges(t1, n, k, g1);
    lemma_arranged_edges(t2, n, k, g2);
    lemma_same_survivors(binom(n, k), g1, g2, g1.len());
    assert forall|set: Seq<usize>| #[trigger] wins(w1, set) == wins(w2, set) by {
        if wins(w1, set) {
            lemma_wins_too(w1, w2, g1, g2, n, k, set);
        }
        if wins(w2, set) {
            lemma_wins_too(w2, w1, g2, g1, n, k, set);
        }
    }
}

/// A committee that wins by one choice wins by every choice from groups that
/// leave the same committees.
proof fn lemma_wins_too(
    w1: Seq<Vec<usize>>,
    w2: Seq<Vec<usize>>,
    g1: Seq<Vec<(usize, usize)>>,
    g2: Seq<Vec<(usize, usize)>>,
    n: nat,
    k: nat,
    set: Seq<usize>,
)
    requires
        binom(n, k) <= usize::MAX,
        chosen(w1, g1, n, k),
        chosen(w2, g2, n, k),
        survivors(binom(n, k), g1, g1.len()) == survivors(binom(n, k), g2, g2.len()),
        wins(w1, set),
    ensures
        wins(w2, set),
{
    let i = choose|i: int| 0 <= i < w1.len() && (#[trigger] w1[i])@ == set;
    let last = survivors(binom(n, k), g1, g1.len());
    assert(last.contains(rank(w1[i]@) as usize));
    let m = rank(w1[i]@) as usize;
    lemma_rank_bound(w1[i]@, n);
    let j = choose|j: int| 0 <= j < w2.len() && rank(#[trigger] w2[j]@) == m;
    lemma_rank_injective(w1[i]@, w2[j]@);
    assert(w2[j]@ == set);
}

/// The committees of `num_seats` candidates that Schulze STV elects: more
/// than one where the ballots leave a tie.
pub fn schulze_stv<W: Weight>(
    num_candidates: usize,
    num_seats: usize,
    ballots: &[(Vec<Vec<usize>>, W)],
) -> (winners: Vec<Vec<usize>>)
    requires
        table_fits(num_candidates as nat, num_seats as nat),
        num_seats <= 64,
        ballots_ok(ballots@, num_candidates as nat),
    ensures
        elected(ballots@, num_candidates as nat, num_seats as nat, winners@),
        committees(winners@, num_candidates as nat, num_seats as nat),
        binom(num_candidates as nat, num_seats as nat) > 0 ==> winners@.len() > 0,
{
    let binomial = make_binomial(num_candidates, num_seats);
    let strengths = all_strengths(num_candidates, num_seats, ballots);
    let count = strengths.len();
    let mut defeats = defeats_of(&binomial, num_candidates, num_seats, &strengths);
    let ghost unsorted = defeats@;
    sort_defeats(&mut defeats);
    let ghost sorted = defeats@;
    let ghost n = num_candidates as nat;
    let ghost k = num_seats as nat;
    proof {
        broadcast use vstd::seq_lib::group_to_multiset_ensures;

        lemma_sorted_defeats(unsorted, sorted, strengths@, n, k);

        assert forall|i: int| 0 <= i < sorted.len() implies (#[trigger] sorted[i]).1.0 < count
            && sorted[i].1.1 < count by {
            assert(sorted.contains(sorted[i]));
            assert(sorted.to_multiset().count(sorted[i]) > 0);
            assert(unsorted.contains(sorted[i]));
            let t = choose|t: int| 0 <= t < unsorted.len() && unsorted[t] == sorted[i];
            assert(unsorted[t].1.0 < count);
        }
    }
    let same = |a: &Defeat<W>, b: &Defeat<W>| -> (r: bool)
        ensures
            r == (a.0.value() == b.0.value()),
        { a.0.fuzzy_eq(&b.0) };
    let single = |a: Defeat<W>| -> (r: Vec<Defeat<W>>)
        ensures
            r@ == seq![a],
        {
            let mut g = Vec::new();
            g.push(a);
            assert(g@ =~= seq![a]);
            g
        };
    let grow = |g: Vec<Defeat<W>>, a: Defeat<W>| -> (r: Vec<Defeat<W>>)
        ensures
            r@ == g@.push(a),
        {
            let mut g = g;
            g.push(a);
            g
        };
    proof {
        assert forall|i: int, j: int|
            0 <= i < sorted.len() && 0 <= j < sorted.len() implies #[trigger] may_judge(
            same,
            sorted,
            i,
            j,
        ) by {}
    }
    let grouped = combine_dups(defeats, same, single, grow);
    proof {
        lemma_grouped_levels(same, single, grow, sorted, grouped@);
    }
    let mut groups: Vec<Vec<(usize, usize)>> = Vec::new();
    let mut g: usize = 0;
    while g < grouped.len()
        invariant
            g <= grouped@.len(),
            groups@.len() == g,
            forall|a: int| 0 <= a < g ==> (#[trigger] groups@[a])@.len() == grouped@[a]@.len(),
            forall|a: int, b: int|
                0 <= a < g && 0 <= b < groups@[a]@.len() ==> #[trigger] groups@[a]@[b]
                    == grouped@[a]@[b].1,
            defeats_below(sorted, count as int),
            forall|i: int, j: int|
                0 <= i < grouped@.len() && 0 <= j < grouped@[i]@.len() ==> sorted.contains(
                    #[trigger] grouped@[i]@[j],
                ),
            edges_ok(count as nat, groups@),
        decreases grouped@.len() - g,
    {
        let mut edges: Vec<(usize, usize)> = Vec::new();
        let mut j: usize = 0;
        while j < grouped[g].len()
            invariant
                j <= grouped@[g as int]@.len(),
                g < grouped@.len(),
                edges@.len() == j,
                forall|b: int| 0 <= b < j ==> #[trigger] edges@[b] == grouped@[g as int]@[b].1,
                defeats_below(sorted, count as int),
                forall|i: int, j: int|
                    0 <= i < grouped@.len() && 0 <= j < grouped@[i]@.len() ==> sorted.contains(
                        #[trigger] grouped@[i]@[j],
                    ),
                forall|t: int| 0 <= t < edges@.len() ==> (#[trigger] edges@[t]).0 < count && edges@[t].1
                    < count,
            decreases grouped@[g as int]@.len() - j,
        {
            let edge = grouped[g][j].1;
            proof {
                assert(sorted.contains(grouped@[g as int]@[j as int]));
                let t = choose|t: int|
                    0 <= t < sorted.len() && sorted[t] == grouped@[g as int]@[j as int];
                assert(sorted[t].1.0 < count);
            }
            let ghost before = edges@;
            edges.push(edge);
            proof {
                assert forall|t: int| 0 <= t < edges@.len() implies (#[trigger] edges@[t]).0 < count
                    && edges@[t].1 < count by {
                    if t < before.len() {
                        assert(before[t].0 < count);
                    }
                }
            }
            j += 1;
        }
        let ghost before = groups@;
        let ghost made = edges@;
        groups.push(edges);
        proof {
            assert forall|i: int, j: int|
                0 <= i < groups@.len() && 0 <= j < groups@[i]@.len() implies (
            #[trigger] groups@[i]@[j]).0 < count && groups@[i]@[j].1 < count by {
                if i < before.len() {
                    assert(before[i]@[j].0 < count);
                } else {
                    assert(made[j].0 < count);
                }
            }
            assert forall|a: int| 0 <= a < g + 1 implies (#[trigger] groups@[a])@.len()
                == grouped@[a]@.len() by {
                if a < g {
                    assert(before[a]@.len() == grouped@[a]@.len());
                }
            }
            assert forall|a: int, b: int|
                0 <= a < g + 1 && 0 <= b < groups@[a]@.len() implies #[trigger] groups@[a]@[b]
                == grouped@[a]@[b].1 by {
                if a < g {
                    assert(before[a]@[b] == grouped@[a]@[b].1);
                } else {
                    assert(made[b] == grouped@[a]@[b].1);
                }
            }
        }
        g += 1;
    }
    proof {
        lemma_arranged(sorted, grouped@, groups@, strengths@, n, k);
    }
    let left = schulze_graph(count, groups.as_slice());
    let mut winners: Vec<Vec<usize>> = Vec::new();
    let mut i: usize = 0;
    proof {
        assert forall|t: int| 0 <= t < left@.len() implies (#[trigger] left@[t]) < count by {
            assert(left@.to_set().contains(left@[t]));
            lemma_survivors_below(count as nat, groups@, groups@.len(), left@[t]);
        }
    }
    while i < left.len()
        invariant
            i <= left@.len(),
            count == binom(num_candidates as nat, num_seats as nat),
            is_binomial_table(binomial@),
            binomial@.len() == num_candidates + 1,
            binomial@[0]@.len() == num_seats + 1,
            forall|t: int| 0 <= t < left@.len() ==> (#[trigger] left@[t]) < count,
            winners@.len() == i,
            forall|t: int|
                0 <= t < i ==> (#[trigger] winners@[t])@.len() == num_seats && is_committee(
                    winners@[t]@,
                    num_candidates as nat,
                ) && rank(winners@[t]@) == left@[t],
        decreases left@.len() - i,
    {
        let set = committee(&binomial, num_candidates, num_seats, left[i]);
        let ghost before = winners@;
        winners.push(set);
        proof {
            assert forall|t: int| 0 <= t < i + 1 implies (#[trigger] winners@[t])@.len()
                == num_seats && is_committee(winners@[t]@, num_candidates as nat) && rank(
                winners@[t]@,
            ) == left@[t] by {
                if t < i {
                    assert(before[t]@.len() == num_seats);
                }
            }
        }
        i += 1;
    }
    proof {
        assert forall|a: int, b: int| 0 <= a < b < winners@.len() implies rank(
            #[trigger] winners@[a]@,
        ) != rank(#[trigger] winners@[b]@) by {
            assert(left@[a] != left@[b]);
        }
        let last = survivors(count as nat, groups@, groups@.len());
        assert forall|i: int| 0 <= i < winners@.len() implies last.contains(
            rank(#[trigger] winners@[i]@) as usize,
        ) by {
            assert(left@.to_set().contains(left@[i]));
        }
        assert forall|m: usize| #[trigger] last.contains(m) implies exists|i: int|
            0 <= i < winners@.len() && rank(#[trigger] winners@[i]@) == m by {
            assert(left@.to_set().contains(m));
            let i = choose|i: int| 0 <= i < left@.len() && left@[i] == m;
            assert(rank(winners@[i]@) == m);
        }
        assert(chosen(winners@, groups@, n, k));
        assert(tabulated(ballots@, n, k, strengths@));
        assert(arranged(strengths@, n, k, groups@));
    }
    winners
}

/// Whether the ballots may be tallied among `n` candidates.
pub fn ballots_valid<W: Weight>(ballots: &[(Vec<Vec<usize>>, W)], n: usize) -> (ok: bool)
    ensures
        ok == ballots_ok(ballots@, n as nat),
{
    let zero = W::zero();
    let mut b: usize = 0;
    while b < ballots.len()
        invariant
            b <= ballots@.len(),
            zero.value() == 0real,
            forall|t: int| 0 <= t < b ==> listed_below(#[trigger] ballots@[t].0@, n as nat),
            forall|t: int| 0 <= t < b ==> listed_once(#[trigger] ballots@[t].0@),
            forall|t: int| 0 <= t < b ==> (#[trigger] ballots@[t]).1.value() >= 0real,
        decreases ballots@.len() - b,
    {
        if ballots[b].1.less_than(&zero) {
            return false;
        }
        if !groups_valid(&ballots[b].0, n) {
            return false;
        }
        b += 1;
    }
    true
}

/// Whether the groups list candidates below `n` only, and none in two groups.
fn groups_valid(groups: &Vec<Vec<usize>>, n: usize) -> (ok: bool)
    ensures
        ok == (listed_below(groups@, n as nat) && listed_once(groups@)),
{
    let mut seen: Vec<bool> = Vec::new();
    let mut c: usize = 0;
    while c < n
        invariant
            c <= n,
            seen@.len() == c,
            forall|t: int| 0 <= t < c ==> !seen@[t],
        decreases n - c,
    {
        seen.push(false);
        c += 1;
    }
    let mut g: usize = 0;
    while g < groups.len()
        invariant
            g <= groups@.len(),
            seen@.len() == n,
            forall|h: int, j: int|
                0 <= h < g && 0 <= j < groups@[h]@.len() ==> (#[trigger] groups@[h]@[j]) < n,
            forall|t: int|
                0 <= t < n ==> (#[trigger] seen@[t] <==> exists|h: int|
                    0 <= h < g && #[trigger] groups@[h]@.contains(t as usize)),
            forall|a: int, h: int, x: usize|
                0 <= a < h < g && #[trigger] groups@[a]@.contains(x) ==> !#[trigger] groups@[h]@.contains(
                    x,
                ),
        decreases groups@.len() - g,
    {
        let mut j: usize = 0;
        while j < groups[g].len()
            invariant
                j <= groups@[g as int]@.len(),
                g < groups@.len(),
                seen@.len() == n,
                forall|t: int|
                    0 <= t < n ==> (#[trigger] seen@[t] <==> exists|h: int|
                        0 <= h < g && #[trigger] groups@[h]@.contains(t as usize)),
                forall|t: int|
                    0 <= t < j ==> (#[trigger] groups@[g as int]@[t]) < n && !seen@[groups@[g as int]@[t] as int],
            decreases groups@[g as int]@.len() - j,
        {
            let x = groups[g][j];
            if x >= n {
                return false;
            }
            if seen[x] {
                proof {
                    assert(seen@[x as int]);
                    let h = choose|h: int|
                        0 <= h < g && #[trigger] groups@[h]@.contains(x as int as usize);
                    assert(groups@[h]@.contains(x));
                    assert(groups@[g as int]@[j as int] == x);
                    assert(groups@[g as int]@.contains(x));
                }
                return false;
            }
            j += 1;
        }
        let ghost before = seen@;
        let mut j: usize = 0;
        while j < groups[g].len()
            invariant
                j <= groups@[g as int]@.len(),
                g < groups@.len(),
                seen@.len() == n,
                forall|t: int| 0 <= t < groups@[g as int]@.len() ==> (#[trigger] groups@[g as int]@[t]) < n,
                forall|t: int|
                    0 <= t < n ==> (#[trigger] seen@[t] <==> before[t] || exists|i: int|
                        0 <= i < j && #[trigger] groups@[g as int]@[i] == t),
            decreases groups@[g as int]@.len() - j,
        {
            let x = groups[g][j];
            let ghost old_seen = seen@;
            seen[x] = true;
            proof {
                assert forall|t: int| 0 <= t < n implies (#[trigger] seen@[t] <==> before[t]
                    || exists|i: int| 0 <= i < j + 1 && #[trigger] groups@[g as int]@[i] == t) by {
                    if t == x {
                        assert(groups@[g as int]@[j as int] == t);
                    } else if seen@[t] {
                        assert(old_seen[t]);
                        if !before[t] {
                            let i = choose|i: int| 0 <= i < j && #[trigger] groups@[g as int]@[i] == t;
                            assert(groups@[g as int]@[i] == t);
                        }
                    } else {
                        assert(!old_seen[t]);
                    }
                }
            }
            j += 1;
        }
        proof {
            assert forall|t: int| 0 <= t < n implies (#[trigger] seen@[t] <==> exists|h: int|
                0 <= h < g + 1 && #[trigger] groups@[h]@.contains(t as usize)) by {
                if seen@[t] {
                    if before[t] {
                        let h = choose|h: int| 0 <= h < g && #[trigger] groups@[h]@.contains(t as usize);
                        assert(groups@[h]@.contains(t as usize));
                    } else {
                        let i = choose|i: int|
                            0 <= i < groups@[g as int]@.len() && #[trigger] groups@[g as int]@[i] == t;
                        assert(groups@[g as int]@.contains(t as usize));
                    }
                } else {
                    if exists|h: int| 0 <= h < g + 1 && #[trigger] groups@[h]@.contains(t as usize) {
                        let h = choose|h: int|
                            0 <= h < g + 1 && #[trigger] groups@[h]@.contains(t as usize);
                        if h < g {
                            assert(before[t]);
                        } else {
                            let i = choose|i: int|
                                0 <= i < groups@[g as int]@.len() && groups@[g as int]@[i] == t as usize;
                            assert(groups@[g as int]@[i] == t);
                        }
                    }
                }
            }
            assert forall|a: int, h: int, x: usize|
                0 <= a < h < g + 1 && #[trigger] groups@[a]@.contains(x) implies !#[trigger] groups@[h]@.contains(
                x,
            ) by {
                if h == g && groups@[h]@.contains(x) {
                    let i = choose|i: int| 0 <= i < groups@[g as int]@.len() && groups@[g as int]@[i] == x;
                    assert(groups@[g as int]@[i] < n);
                    assert(!before[groups@[g as int]@[i] as int]);
                    assert(groups@[a]@.contains(x as int as usize));
                }
            }
        }
        g += 1;
    }
    true
}

/// Why no election is held.
pub enum Refusal {
    /// More than 64 seats are to be filled.
    TooManySeats,
    /// The number of some committee does not fit a `usize`.
    TooManyCommittees,
    /// A ballot lists a candidate that there is not, or lists one in two
    /// groups, or has a negative weight.
    BadBallots,
}

/// Every winner is a committee of `k` among `n` candidates, and no committee
/// wins twice.
pub open spec fn committees(winners: Seq<Vec<usize>>, n: nat, k: nat) -> bool {
    &&& forall|i: int|
        0 <= i < winners.len() ==> (#[trigger] winners[i])@.len() == k && is_committee(
            winners[i]@,
            n,
        )
    &&& forall|i: int, j: int|
        0 <= i < j < winners.len() ==> rank(#[trigger] winners[i]@) != rank(#[trigger] winners[j]@)
}

/// The committees that `schulze_stv` elects, where it can hold the election.
pub fn elect<W: Weight>(
    num_candidates: usize,
    num_seats: usize,
    ballots: &[(Vec<Vec<usize>>, W)],
) -> (r: Result<Vec<Vec<usize>>, Refusal>)
    ensures
        r is Ok <==> num_seats <= 64 && table_fits(num_candidates as nat, num_seats as nat)
            && ballots_ok(ballots@, num_candidates as nat),
        r matches Ok(winners) ==> elected(
            ballots@,
            num_candidates as nat,
            num_seats as nat,
            winners@,
        ) && committees(winners@, num_candidates as nat, num_seats as nat) && (binom(
            num_candidates as nat,
            num_seats as nat,
        ) > 0 ==> winners@.len() > 0),
        r matches Err(e) ==> (e is TooManySeats <==> num_seats > 64) && (e is BadBallots
            ==> !ballots_ok(ballots@, num_candidates as nat)) && (e is TooManyCommittees ==> !table_fits(
            num_candidates as nat,
            num_seats as nat,
        )),
{
    if num_seats > 64 {
        Err(Refusal::TooManySeats)
    } else if !binomial_fits(num_candidates, num_seats) {
        Err(Refusal::TooManyCommittees)
    } else if !ballots_valid(ballots, num_candidates) {
        Err(Refusal::BadBallots)
    } else {
        Ok(schulze_stv(num_candidates, num_seats, ballots))
    }
}

/// Whoever is left after some rounds is one of the candidates.
proof fn lemma_survivors_below(n: nat, groups: Seq<Vec<(usize, usize)>>, rounds: nat, v: usize)
    requires
        survivors(n, groups, rounds).contains(v),
    ensures
        v < n,
    decreases rounds,
{
    if rounds > 0 {
        lemma_survivors_below(n, groups, (rounds - 1) as nat, v);
    }
}

} // verus!
