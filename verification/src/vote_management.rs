//! Vote-management strength: how much weight every seat of a committee can
//! draw at once from the ballots that prefer it to a challenger.
//!
//! The ballots feed the seats of the committee through a two-layer network.
//! The source feeds ballot `b` with its weight, ballot `b` feeds every seat
//! that it prefers to the challenger, and all seats drain at one common rate.
//! The strength is the largest such rate.

use crate::traits::Weight;
use std::collections::VecDeque;
use vstd::prelude::*;

verus! {

/// The mark for "no edge" in a `prev` field.
const NONE: usize = usize::MAX;

/// What the search knows of one ballot.
///
/// `edge_flow[0]` is what the source can still give to the ballot, and
/// `edge_flow[i]` for `i >= 1` is what the ballot gives to its `i`-th seat.
/// `prev` is the edge through which the search reached the ballot.
struct BallotState<W> {
    level: u128,
    prev: usize,
    edge_flow: Vec<W>,
    count: W,
}

/// What the search knows of one seat: `prev` is the position, in the seat's
/// list of ballots, of the ballot through which the search reached it.
struct CandidateState<W> {
    level: u128,
    prev: usize,
    count: W,
}

/// The edge lists of the ballots: entry `i >= 1` of ballot `b` is a seat and
/// the position of `b` in that seat's list.  Entry `0` stands for the source.
type BallotEdges = Vec<Vec<(usize, usize)>>;

/// The edge lists of the seats: entry `j` of seat `c` is a ballot and the
/// position of `c` in that ballot's list.
type SeatEdges = Vec<Vec<(usize, usize)>>;

/// Edge `i` of ballot `b` and the entry of its seat name each other.
spec fn forward_ok(
    bc: Seq<Vec<(usize, usize)>>,
    cb: Seq<Vec<(usize, usize)>>,
    b: int,
    i: int,
) -> bool {
    let (c, j) = bc[b]@[i];
    &&& c < cb.len()
    &&& j < cb[c as int]@.len()
    &&& cb[c as int]@[j as int] == (b as usize, i as usize)
}

/// Entry `j` of seat `c` and the edge of its ballot name each other.
spec fn backward_ok(
    bc: Seq<Vec<(usize, usize)>>,
    cb: Seq<Vec<(usize, usize)>>,
    c: int,
    j: int,
) -> bool {
    let (b, i) = cb[c]@[j];
    &&& b < bc.len()
    &&& 1 <= i < bc[b as int]@.len()
    &&& bc[b as int]@[i as int] == (c as usize, j as usize)
}

/// The two edge lists describe one network.
spec fn wired(bc: Seq<Vec<(usize, usize)>>, cb: Seq<Vec<(usize, usize)>>) -> bool {
    &&& forall|b: int| 0 <= b < bc.len() ==> (#[trigger] bc[b])@.len() >= 1
    &&& forall|b: int, i: int|
        0 <= b < bc.len() && 1 <= i < bc[b]@.len() ==> #[trigger] forward_ok(bc, cb, b, i)
    &&& forall|c: int, j: int|
        0 <= c < cb.len() && 0 <= j < cb[c]@.len() ==> #[trigger] backward_ok(bc, cb, c, j)
}

/// Every seat that a ballot names is one of the `num_seats` seats.
pub open spec fn ballots_in_range<W>(num_seats: nat, ballots: Seq<(Vec<usize>, W)>) -> bool {
    forall|b: int, i: int|
        0 <= b < ballots.len() && 0 <= i < ballots[b].0@.len() ==> (#[trigger] ballots[b].0@[i])
            < num_seats
}

/// No ballot has a negative weight.
pub open spec fn weights_nonnegative<W: Weight>(ballots: Seq<(Vec<usize>, W)>) -> bool {
    forall|b: int| 0 <= b < ballots.len() ==> (#[trigger] ballots[b]).1.value() >= 0real
}

/// The sum of the weights of the ballots.
pub open spec fn total_weight<W: Weight>(ballots: Seq<(Vec<usize>, W)>) -> real
    decreases ballots.len(),
{
    if ballots.len() == 0 {
        0real
    } else {
        total_weight(ballots.drop_last()) + ballots.last().1.value()
    }
}

/// No ballot names a seat twice.
pub open spec fn ballots_distinct<W>(ballots: Seq<(Vec<usize>, W)>) -> bool {
    forall|b: int| 0 <= b < ballots.len() ==> (#[trigger] ballots[b]).0@.no_duplicates()
}

/// The number of seats that are chosen.
pub open spec fn size(chosen: Seq<bool>) -> nat
    decreases chosen.len(),
{
    if chosen.len() == 0 {
        0
    } else {
        size(chosen.drop_last()) + if chosen.last() {
            1nat
        } else {
            0nat
        }
    }
}

/// The ballot names one of the chosen seats.
pub open spec fn touches(seats: Seq<usize>, chosen: Seq<bool>) -> bool {
    exists|i: int| 0 <= i < seats.len() && #[trigger] seats[i] < chosen.len() && chosen[seats[i] as int]
}

/// The weight of the ballots that name one of the chosen seats.
pub open spec fn backing<W: Weight>(ballots: Seq<(Vec<usize>, W)>, chosen: Seq<bool>) -> real
    decreases ballots.len(),
{
    if ballots.len() == 0 {
        0real
    } else {
        backing(ballots.drop_last(), chosen) + if touches(ballots.last().0@, chosen) {
            ballots.last().1.value()
        } else {
            0real
        }
    }
}

/// Every choice of seats has ballots to draw `r` for each of them.
pub open spec fn upholds<W: Weight>(ballots: Seq<(Vec<usize>, W)>, num_seats: nat, r: real) -> bool {
    forall|chosen: Seq<bool>|
        chosen.len() == num_seats ==> (size(chosen) as real) * r <= #[trigger] backing(
            ballots,
            chosen,
        )
}

/// Some seats have no more ballots than they need to draw `r` each.
pub open spec fn exhausts<W: Weight>(ballots: Seq<(Vec<usize>, W)>, num_seats: nat, r: real) -> bool {
    exists|chosen: Seq<bool>|
        chosen.len() == num_seats && size(chosen) > 0 && (size(chosen) as real) * r
            == #[trigger] backing(ballots, chosen)
}

/// Two rates that every choice of seats can draw, each exhausting some choice,
/// are one rate.
pub proof fn lemma_strength_unique<W: Weight>(
    ballots: Seq<(Vec<usize>, W)>,
    num_seats: nat,
    r1: real,
    r2: real,
)
    requires
        upholds(ballots, num_seats, r1),
        upholds(ballots, num_seats, r2),
        exhausts(ballots, num_seats, r1),
        exhausts(ballots, num_seats, r2),
    ensures
        r1 == r2,
{
    let c1 = choose|chosen: Seq<bool>|
        chosen.len() == num_seats && size(chosen) > 0 && (size(chosen) as real) * r1
            == #[trigger] backing(ballots, chosen);
    let c2 = choose|chosen: Seq<bool>|
        chosen.len() == num_seats && size(chosen) > 0 && (size(chosen) as real) * r2
            == #[trigger] backing(ballots, chosen);
    let (n1, n2) = (size(c1) as real, size(c2) as real);
    assert(n1 * r2 <= backing(ballots, c1));
    assert(n2 * r1 <= backing(ballots, c2));
    assert(r2 <= r1) by (nonlinear_arith)
        requires
            n1 * r2 <= n1 * r1,
            n1 > 0real,
    ;
    assert(r1 <= r2) by (nonlinear_arith)
        requires
            n2 * r1 <= n2 * r2,
            n2 > 0real,
    ;
}

/// The two lists hold the same ballots with the same weights, one by one.
pub open spec fn same_ballots<W: Weight>(a: Seq<(Vec<usize>, W)>, b: Seq<(Vec<usize>, W)>) -> bool {
    &&& a.len() == b.len()
    &&& forall|i: int|
        0 <= i < a.len() ==> (#[trigger] a[i]).0@ == b[i].0@ && a[i].1.value() == b[i].1.value()
}

/// The same ballots stand behind every choice of seats with the same weight.
pub proof fn lemma_same_backing<W: Weight>(a: Seq<(Vec<usize>, W)>, b: Seq<(Vec<usize>, W)>, chosen: Seq<bool>)
    requires
        same_ballots(a, b),
    ensures
        backing(a, chosen) == backing(b, chosen),
    decreases a.len(),
{
    if a.len() > 0 {
        let a1 = a.drop_last();
        let b1 = b.drop_last();
        assert forall|i: int| 0 <= i < a1.len() implies (#[trigger] a1[i]).0@ == b1[i].0@
            && a1[i].1.value() == b1[i].1.value() by {
            assert(a[i].0@ == b[i].0@);
        }
        lemma_same_backing(a1, b1, chosen);
        assert(a[a.len() - 1].0@ == b[a.len() - 1].0@);
    }
}

/// The same ballots give the same strength.
pub proof fn lemma_same_strength<W: Weight>(
    a: Seq<(Vec<usize>, W)>,
    b: Seq<(Vec<usize>, W)>,
    num_seats: nat,
    r1: real,
    r2: real,
)
    requires
        same_ballots(a, b),
        num_seats > 0,
        upholds(a, num_seats, r1),
        exhausts(a, num_seats, r1),
        upholds(b, num_seats, r2),
        exhausts(b, num_seats, r2),
    ensures
        r1 == r2,
{
    assert forall|chosen: Seq<bool>| chosen.len() == num_seats implies (size(chosen) as real) * r2
        <= #[trigger] backing(a, chosen) by {
        lemma_same_backing(a, b, chosen);
        assert((size(chosen) as real) * r2 <= backing(b, chosen));
    }
    let c2 = choose|chosen: Seq<bool>|
        chosen.len() == num_seats && size(chosen) > 0 && (size(chosen) as real) * r2
            == #[trigger] backing(b, chosen);
    lemma_same_backing(a, b, c2);
    assert((size(c2) as real) * r2 == backing(a, c2));
    lemma_strength_unique(a, num_seats, r1, r2);
}

#[verifier::loop_isolation(false)]
fn wire<W>(num_seats: usize, ballots: &[(Vec<usize>, W)]) -> (net: (BallotEdges, SeatEdges))
    requires
        ballots_in_range(num_seats as nat, ballots@),
    ensures
        wired(net.0@, net.1@),
        net.0@.len() == ballots@.len(),
        net.1@.len() == num_seats,
        forall|b: int| 0 <= b < ballots@.len() ==> (#[trigger] net.0@[b])@.len() == ballots@[b].0@.len() + 1,
        forall|b: int, i: int|
            0 <= b < ballots@.len() && 0 <= i < ballots@[b].0@.len() ==> (#[trigger] net.0@[b]@[i
                + 1]).0 == ballots@[b].0@[i],
{
    let mut bc: BallotEdges = Vec::new();
    let mut cb: SeatEdges = Vec::new();
    let mut c: usize = 0;
    while c < num_seats
        invariant
            c <= num_seats,
            cb@.len() == c,
            forall|t: int| 0 <= t < c ==> (#[trigger] cb@[t])@.len() == 0,
        decreases num_seats - c,
    {
        cb.push(Vec::new());
        c += 1;
    }
    let mut b: usize = 0;
    while b < ballots.len()
        invariant
            b <= ballots@.len(),
            bc@.len() == b,
            cb@.len() == num_seats,
            wired(bc@, cb@),
            forall|t: int| 0 <= t < b ==> (#[trigger] bc@[t])@.len() == ballots@[t].0@.len() + 1,
            forall|t: int, i: int|
                0 <= t < b && 0 <= i < ballots@[t].0@.len() ==> (#[trigger] bc@[t]@[i + 1]).0
                    == ballots@[t].0@[i],
        decreases ballots@.len() - b,
    {
        let seats = &ballots[b].0;
        let mut row: Vec<(usize, usize)> = Vec::new();
        row.push((NONE, NONE));
        proof {
            let bc1 = bc@.push(row);
            assert forall|b1: int, i1: int|
                0 <= b1 < bc1.len() && 1 <= i1 < bc1[b1]@.len() implies #[trigger] forward_ok(
                bc1,
                cb@,
                b1,
                i1,
            ) by {
                assert(forward_ok(bc@, cb@, b1, i1));
            }
            assert forall|c1: int, j1: int|
                0 <= c1 < cb@.len() && 0 <= j1 < cb@[c1]@.len() implies #[trigger] backward_ok(
                bc1,
                cb@,
                c1,
                j1,
            ) by {
                assert(backward_ok(bc@, cb@, c1, j1));
            }
            assert forall|b1: int| 0 <= b1 < bc1.len() implies (#[trigger] bc1[b1])@.len() >= 1 by {
                if b1 < b {
                    assert(bc@[b1]@.len() >= 1);
                }
            }
        }
        let mut i: usize = 0;
        while i < seats.len()
            invariant
                i <= seats@.len(),
                seats@ == ballots@[b as int].0@,
                bc@.len() == b,
                cb@.len() == num_seats,
                row@.len() == i + 1,
                wired(bc@.push(row), cb@),
                forall|t: int| 0 <= t < i ==> (#[trigger] row@[t + 1]).0 == seats@[t],
            decreases seats@.len() - i,
        {
            let c = seats[i];
            assert(ballots@[b as int].0@[i as int] < num_seats);
            let j = cb[c].len();
            let ghost bc0 = bc@.push(row);
            let ghost cb0 = cb@;
            row.push((c, j));
            cb[c].push((b, i + 1));
            proof {
                let bc1 = bc@.push(row);
                let cb1 = cb@;
                assert forall|b1: int, i1: int|
                    0 <= b1 < bc1.len() && 1 <= i1 < bc1[b1]@.len() implies #[trigger] forward_ok(
                    bc1,
                    cb1,
                    b1,
                    i1,
                ) by {
                    if b1 == b && i1 == i + 1 {
                    } else {
                        assert(forward_ok(bc0, cb0, b1, i1));
                    }
                }
                assert forall|c1: int, j1: int|
                    0 <= c1 < cb1.len() && 0 <= j1 < cb1[c1]@.len() implies #[trigger] backward_ok(
                    bc1,
                    cb1,
                    c1,
                    j1,
                ) by {
                    if c1 == c && j1 == j {
                    } else {
                        assert(backward_ok(bc0, cb0, c1, j1));
                    }
                }
                assert forall|b1: int| 0 <= b1 < bc1.len() implies (#[trigger] bc1[b1])@.len()
                    >= 1 by {
                    if b1 < b {
                        assert(bc0[b1]@.len() >= 1);
                    }
                }
            }
            i += 1;
        }
        bc.push(row);
        b += 1;
    }
    (bc, cb)
}

/// The flows of ballot `b` are in place and none is negative.
spec fn ballot_ok<W: Weight>(bc: Seq<Vec<(usize, usize)>>, bs: Seq<BallotState<W>>, b: int) -> bool {
    &&& bs[b].edge_flow@.len() == bc[b]@.len()
    &&& (bs[b].prev == NONE || bs[b].prev < bc[b]@.len())
    &&& bs[b].count.value() >= 0real
    &&& forall|i: int|
        0 <= i < bs[b].edge_flow@.len() ==> (#[trigger] bs[b].edge_flow@[i]).value() >= 0real
}

spec fn states_ok<W: Weight>(bc: Seq<Vec<(usize, usize)>>, bs: Seq<BallotState<W>>) -> bool {
    &&& bs.len() == bc.len()
    &&& forall|b: int| 0 <= b < bs.len() ==> #[trigger] ballot_ok(bc, bs, b)
}

spec fn seats_ok<W: Weight>(cb: Seq<Vec<(usize, usize)>>, cs: Seq<CandidateState<W>>) -> bool {
    &&& cs.len() == cb.len()
    &&& forall|c: int| 0 <= c < cs.len() ==> (#[trigger] cs[c]).count.value() >= 0real
}

/// The ballot's pointer stands on an edge that still carries something and
/// that comes from a lower level.
spec fn ballot_live<W: Weight>(
    bc: Seq<Vec<(usize, usize)>>,
    bs: Seq<BallotState<W>>,
    cs: Seq<CandidateState<W>>,
    b: int,
) -> bool {
    let i = bs[b].prev as int;
    &&& i < bc[b]@.len()
    &&& bs[b].edge_flow@[i].value() != 0real
    &&& i >= 1 ==> cs[bc[b]@[i].0 as int].level < bs[b].level
}

/// The seat's pointer stands on a ballot of a lower level whose own pointer
/// stands on an edge from a still lower level.
spec fn attached<W: Weight>(
    bc: Seq<Vec<(usize, usize)>>,
    cb: Seq<Vec<(usize, usize)>>,
    bs: Seq<BallotState<W>>,
    cs: Seq<CandidateState<W>>,
    c: int,
) -> bool {
    let j = cs[c].prev as int;
    &&& 0 <= c < cb.len()
    &&& j < cb[c]@.len()
    &&& {
        let b = cb[c]@[j].0 as int;
        let i = bs[b].prev as int;
        &&& bs[b].level < cs[c].level
        &&& i < bc[b]@.len()
        &&& i >= 1 ==> cs[bc[b]@[i].0 as int].level < bs[b].level
    }
}

/// The ballot that feeds seat `c`.
spec fn feeder<W>(cb: Seq<Vec<(usize, usize)>>, cs: Seq<CandidateState<W>>, c: int) -> int {
    cb[c]@[cs[c].prev as int].0 as int
}

/// What the feeder of seat `c` can still pass on through its own pointer.
spec fn feeder_flow<W: Weight>(
    cb: Seq<Vec<(usize, usize)>>,
    bs: Seq<BallotState<W>>,
    cs: Seq<CandidateState<W>>,
    c: int,
) -> real {
    let b = feeder(cb, cs, c);
    bs[b].edge_flow@[bs[b].prev as int].value()
}

spec fn linked<W: Weight>(
    bc: Seq<Vec<(usize, usize)>>,
    cb: Seq<Vec<(usize, usize)>>,
    bs: Seq<BallotState<W>>,
    cs: Seq<CandidateState<W>>,
    c: int,
) -> bool {
    &&& attached(bc, cb, bs, cs, c)
    &&& feeder_flow(cb, bs, cs, c) != 0real
}

/// The two states hold the same flows and counts.
spec fn same_flows<W>(a: Seq<BallotState<W>>, b: Seq<BallotState<W>>) -> bool {
    &&& a.len() == b.len()
    &&& forall|t: int|
        0 <= t < a.len() ==> (#[trigger] a[t]).edge_flow == b[t].edge_flow && a[t].count
            == b[t].count
}

/// The two states hold the same levels and pointers.
spec fn same_links<W>(a: Seq<BallotState<W>>, b: Seq<BallotState<W>>) -> bool {
    &&& a.len() == b.len()
    &&& forall|t: int|
        0 <= t < a.len() ==> (#[trigger] a[t]).level == b[t].level && a[t].prev == b[t].prev
}

spec fn same_seat_counts<W>(a: Seq<CandidateState<W>>, b: Seq<CandidateState<W>>) -> bool {
    &&& a.len() == b.len()
    &&& forall|t: int| 0 <= t < a.len() ==> (#[trigger] a[t]).count == b[t].count
}

spec fn same_seat_links<W>(a: Seq<CandidateState<W>>, b: Seq<CandidateState<W>>) -> bool {
    &&& a.len() == b.len()
    &&& forall|t: int|
        0 <= t < a.len() ==> (#[trigger] a[t]).level == b[t].level && a[t].prev == b[t].prev
}

/// The number of ballots that the search has not reached.
spec fn unseen<W>(bs: Seq<BallotState<W>>) -> nat
    decreases bs.len(),
{
    if bs.len() == 0 {
        0
    } else {
        unseen(bs.drop_last()) + if bs.last().prev == NONE {
            1nat
        } else {
            0nat
        }
    }
}

proof fn lemma_unseen_drops<W>(before: Seq<BallotState<W>>, after: Seq<BallotState<W>>, b: int)
    requires
        before.len() == after.len(),
        0 <= b < before.len(),
        before[b].prev == NONE,
        after[b].prev != NONE,
        forall|t: int| 0 <= t < before.len() && t != b ==> before[t].prev == after[t].prev,
    ensures
        unseen(after) + 1 == unseen(before),
    decreases before.len(),
{
    let n = before.len() - 1;
    if b == n {
        lemma_unseen_same(before.drop_last(), after.drop_last());
    } else {
        lemma_unseen_drops(before.drop_last(), after.drop_last(), b);
    }
}

proof fn lemma_unseen_same<W>(before: Seq<BallotState<W>>, after: Seq<BallotState<W>>)
    requires
        before.len() == after.len(),
        forall|t: int| 0 <= t < before.len() ==> before[t].prev == after[t].prev,
    ensures
        unseen(after) == unseen(before),
    decreases before.len(),
{
    if before.len() > 0 {
        lemma_unseen_same(before.drop_last(), after.drop_last());
    }
}

#[verifier::loop_isolation(false)]
fn initial_states<W: Weight>(ballots: &[(Vec<usize>, W)], bc: &BallotEdges) -> (bs: Vec<
    BallotState<W>,
>)
    requires
        weights_nonnegative(ballots@),
        bc@.len() == ballots@.len(),
        forall|b: int|
            0 <= b < ballots@.len() ==> (#[trigger] bc@[b])@.len() == ballots@[b].0@.len() + 1,
    ensures
        states_ok(bc@, bs@),
        forall|b: int| 0 <= b < bs@.len() ==> (#[trigger] bs@[b]).prev == NONE,
        forall|b: int| 0 <= b < bs@.len() ==> (#[trigger] bs@[b]).count.value() == 0real,
        forall|b: int|
            0 <= b < bs@.len() ==> (#[trigger] bs@[b]).edge_flow@[0].value()
                == ballots@[b].1.value(),
        forall|b: int, i: int|
            0 <= b < bs@.len() && 1 <= i < bs@[b].edge_flow@.len() ==> (
            #[trigger] bs@[b].edge_flow@[i]).value() == 0real,
{
    let mut bs: Vec<BallotState<W>> = Vec::new();
    let mut b: usize = 0;
    while b < ballots.len()
        invariant
            b <= ballots@.len(),
            bs@.len() == b,
            forall|t: int| 0 <= t < b ==> #[trigger] ballot_ok(bc@, bs@, t),
            forall|t: int| 0 <= t < b ==> (#[trigger] bs@[t]).prev == NONE,
            forall|t: int| 0 <= t < b ==> (#[trigger] bs@[t]).count.value() == 0real,
            forall|t: int|
                0 <= t < b ==> (#[trigger] bs@[t]).edge_flow@[0].value() == ballots@[t].1.value(),
            forall|t: int, i: int|
                0 <= t < b && 1 <= i < bs@[t].edge_flow@.len() ==> (
                #[trigger] bs@[t].edge_flow@[i]).value() == 0real,
        decreases ballots@.len() - b,
    {
        let mut edge_flow: Vec<W> = Vec::new();
        edge_flow.push(ballots[b].1.duplicate());
        let n = ballots[b].0.len();
        let mut i: usize = 0;
        while i < n
            invariant
                i <= n,
                edge_flow@.len() == i + 1,
                edge_flow@[0].value() == ballots@[b as int].1.value(),
                forall|t: int| 0 <= t <= i ==> (#[trigger] edge_flow@[t]).value() >= 0real,
                forall|t: int| 1 <= t <= i ==> (#[trigger] edge_flow@[t]).value() == 0real,
            decreases n - i,
        {
            edge_flow.push(W::zero());
            i += 1;
        }
        let ghost before = bs@;
        bs.push(BallotState { level: u128::MAX, prev: NONE, edge_flow, count: W::zero() });
        proof {
            assert forall|t: int| 0 <= t < b + 1 implies #[trigger] ballot_ok(bc@, bs@, t) by {
                if t < b {
                    assert(ballot_ok(bc@, before, t));
                    assert(bs@[t] == before[t]);
                }
            }
            assert forall|t: int, i: int|
                0 <= t < b + 1 && 1 <= i < bs@[t].edge_flow@.len() implies (
            #[trigger] bs@[t].edge_flow@[i]).value() == 0real by {
                if t < b {
                    assert(bs@[t] == before[t]);
                    assert(before[t].edge_flow@[i].value() == 0real);
                }
            }
        }
        b += 1;
    }
    bs
}

#[verifier::loop_isolation(false)]
fn initial_seats<W: Weight>(num_seats: usize) -> (cs: Vec<CandidateState<W>>)
    ensures
        cs@.len() == num_seats,
        forall|c: int| 0 <= c < cs@.len() ==> (#[trigger] cs@[c]).prev == NONE,
        forall|c: int| 0 <= c < cs@.len() ==> (#[trigger] cs@[c]).count.value() == 0real,
{
    let mut cs: Vec<CandidateState<W>> = Vec::new();
    let mut c: usize = 0;
    while c < num_seats
        invariant
            c <= num_seats,
            cs@.len() == c,
            forall|t: int| 0 <= t < c ==> (#[trigger] cs@[t]).prev == NONE,
            forall|t: int| 0 <= t < c ==> (#[trigger] cs@[t]).count.value() == 0real,
        decreases num_seats - c,
    {
        cs.push(CandidateState { level: u128::MAX, prev: NONE, count: W::zero() });
        c += 1;
    }
    cs
}

/// What holds of a ballot that the search has reached.
spec fn ballot_reached<W: Weight>(
    bc: Seq<Vec<(usize, usize)>>,
    bs: Seq<BallotState<W>>,
    cs: Seq<CandidateState<W>>,
    found: nat,
    b: int,
) -> bool {
    bs[b].prev != NONE ==> {
        &&& ballot_live(bc, bs, cs, b)
        &&& bs[b].level <= 2 * found
        &&& bs[b].prev >= 1 ==> cs[bc[b]@[bs[b].prev as int].0 as int].prev != NONE
    }
}

/// What holds of a seat that the search has reached.
spec fn seat_reached<W: Weight>(
    cb: Seq<Vec<(usize, usize)>>,
    bs: Seq<BallotState<W>>,
    cs: Seq<CandidateState<W>>,
    found: nat,
    c: int,
) -> bool {
    cs[c].prev != NONE ==> {
        &&& cs[c].prev < cb[c]@.len()
        &&& bs[feeder(cb, cs, c)].prev != NONE
        &&& bs[feeder(cb, cs, c)].level < cs[c].level
        &&& cs[c].level <= 2 * found
    }
}

spec fn search_ok<W: Weight>(
    bc: Seq<Vec<(usize, usize)>>,
    cb: Seq<Vec<(usize, usize)>>,
    bs: Seq<BallotState<W>>,
    cs: Seq<CandidateState<W>>,
    found: Seq<usize>,
    queue: Seq<usize>,
) -> bool {
    &&& states_ok(bc, bs)
    &&& seats_ok(cb, cs)
    &&& forall|b: int| 0 <= b < bs.len() ==> #[trigger] ballot_reached(bc, bs, cs, found.len(), b)
    &&& forall|c: int| 0 <= c < cs.len() ==> #[trigger] seat_reached(cb, bs, cs, found.len(), c)
    &&& forall|q: int|
        0 <= q < found.len() ==> (#[trigger] found[q]) < cs.len() && cs[found[q] as int].prev
            != NONE
    &&& forall|q: int|
        0 <= q < queue.len() ==> (#[trigger] queue[q]) < bs.len() && bs[queue[q] as int].prev
            != NONE
}

/// The ballots in the queue stand in the order of their levels, which lie
/// between `low` and `high`.
spec fn queue_ok<W>(bs: Seq<BallotState<W>>, queue: Seq<usize>, low: int, high: int) -> bool {
    &&& forall|i: int| 0 <= i < queue.len() ==> low <= bs[#[trigger] queue[i] as int].level <= high
    &&& forall|i: int, j: int|
        0 <= i < j < queue.len() ==> bs[#[trigger] queue[i] as int].level <= bs[#[trigger] queue[j] as int].level
}

/// The seats were found in the order of their levels.
spec fn level_order<W>(cs: Seq<CandidateState<W>>, found: Seq<usize>) -> bool {
    forall|p: int, q: int|
        0 <= p < q < found.len() ==> cs[#[trigger] found[p] as int].level <= cs[#[trigger] found[q] as int].level
}

/// The seats were found in the order of their levels, none above `top`.
spec fn risen<W>(cs: Seq<CandidateState<W>>, found: Seq<usize>, top: int) -> bool {
    &&& forall|q: int| 0 <= q < found.len() ==> cs[#[trigger] found[q] as int].level <= top
    &&& level_order(cs, found)
}

/// What the search knows at one moment, as the proofs see it: the ballot whose
/// edges are being looked at and how many of them have been looked at, the
/// seat whose ballots are being looked at and how many of them, how many
/// ballots have been asked whether the source feeds them, and the level of the
/// ballot that was taken from the queue last.
struct Probe<W> {
    bs: Seq<BallotState<W>>,
    cs: Seq<CandidateState<W>>,
    found: Seq<usize>,
    queue: Seq<usize>,
    scanned: int,
    cur: int,
    at: int,
    seat: int,
    upto: int,
    low: int,
}

/// The levels of an earlier search fit the flows: a ballot that the source
/// feeds has level zero, a ballot that gives to a seat is at most one level
/// above it, and a seat is at most one level above a ballot that names it.
spec fn history<W: Weight>(
    bc: Seq<Vec<(usize, usize)>>,
    cb: Seq<Vec<(usize, usize)>>,
    bs: Seq<BallotState<W>>,
    pb: Seq<int>,
    pc: Seq<int>,
    top: int,
) -> bool {
    &&& pb.len() == bc.len()
    &&& pc.len() == cb.len()
    &&& 0 <= top
    &&& forall|c: int| 0 <= c < pc.len() ==> 0 <= #[trigger] pc[c] <= top
    &&& forall|b: int| 0 <= b < pb.len() ==> 0 <= #[trigger] pb[b] <= top + 1
    &&& pc.len() > 0 ==> exists|c: int| 0 <= c < pc.len() && #[trigger] pc[c] == top
    &&& forall|b: int|
        0 <= b < pb.len() && (#[trigger] bs[b]).edge_flow@[0].value() != 0real ==> pb[b] == 0
    &&& forall|c: int, j: int|
        0 <= c < cb.len() && 0 <= j < cb[c]@.len() ==> #[trigger] gives_up(cb, bs, pb, pc, c, j)
    &&& forall|b: int, i: int|
        0 <= b < bc.len() && 1 <= i < bc[b]@.len() ==> pc[(#[trigger] bc[b]@[i]).0 as int] <= pb[b]
            + 1
}

/// The ballot of entry `j` of seat `c` is at most one level above the seat if
/// it gives to the seat.
spec fn gives_up<W: Weight>(
    cb: Seq<Vec<(usize, usize)>>,
    bs: Seq<BallotState<W>>,
    pb: Seq<int>,
    pc: Seq<int>,
    c: int,
    j: int,
) -> bool {
    let (b, i) = cb[c]@[j];
    bs[b as int].edge_flow@[i as int].value() != 0real ==> pb[b as int] <= pc[c] + 1
}

/// The seat of edge `i` of ballot `b` has been found, at most one level above
/// the ballot.
spec fn seat_seen<W: Weight>(bc: Seq<Vec<(usize, usize)>>, s: Probe<W>, b: int, i: int) -> bool {
    let c = bc[b]@[i].0 as int;
    s.cs[c].prev != NONE && s.cs[c].level <= s.bs[b].level + 1
}

/// All seats of ballot `b` have been found, at most one level above it.
spec fn expanded<W: Weight>(bc: Seq<Vec<(usize, usize)>>, s: Probe<W>, b: int) -> bool {
    forall|i: int| 1 <= i < bc[b]@.len() ==> #[trigger] seat_seen(bc, s, b, i)
}

/// The ballot of entry `j` of seat `c` has been reached, at most one level
/// above the seat, if it gives to the seat.
spec fn answer_ok<W: Weight>(cb: Seq<Vec<(usize, usize)>>, s: Probe<W>, c: int, j: int) -> bool {
    let (b, i) = cb[c]@[j];
    s.bs[b as int].edge_flow@[i as int].value() != 0real ==> s.bs[b as int].prev != NONE
        && s.bs[b as int].level <= s.cs[c].level + 1
}

/// All ballots that give to seat `c` have been reached.
spec fn answered<W: Weight>(cb: Seq<Vec<(usize, usize)>>, s: Probe<W>, c: int) -> bool {
    forall|j: int| 0 <= j < cb[c]@.len() ==> #[trigger] answer_ok(cb, s, c, j)
}

/// What holds of a ballot during the search, beyond what finding the seats
/// needs.
spec fn ballot_probed<W: Weight>(
    bc: Seq<Vec<(usize, usize)>>,
    pb: Seq<int>,
    s: Probe<W>,
    b: int,
) -> bool {
    &&& b < s.scanned && s.bs[b].edge_flow@[0].value() != 0real ==> s.bs[b].prev != NONE
        && s.bs[b].level == 0
    &&& s.bs[b].prev != NONE ==> {
        &&& s.bs[b].level >= pb[b]
        &&& s.bs[b].level <= s.low + 2
        &&& s.queue.contains(b as usize) || b == s.cur || expanded(bc, s, b)
    }
}

/// What holds of a seat during the search, beyond what finding the seats needs.
spec fn seat_probed<W: Weight>(
    cb: Seq<Vec<(usize, usize)>>,
    pc: Seq<int>,
    s: Probe<W>,
    c: int,
) -> bool {
    s.cs[c].prev != NONE ==> {
        &&& s.cs[c].level >= pc[c]
        &&& 1 <= s.cs[c].level <= s.low + 1
        &&& s.found.contains(c as usize)
        &&& c == s.seat || answered(cb, s, c)
    }
}

/// What holds during the search, beyond what finding the seats needs.
spec fn probed<W: Weight>(
    bc: Seq<Vec<(usize, usize)>>,
    cb: Seq<Vec<(usize, usize)>>,
    pb: Seq<int>,
    pc: Seq<int>,
    s: Probe<W>,
) -> bool {
    &&& s.bs.len() == bc.len()
    &&& s.cs.len() == cb.len()
    &&& s.bs.len() <= usize::MAX
    &&& s.cs.len() <= usize::MAX
    &&& 0 <= s.low
    &&& forall|b: int| 0 <= b < s.bs.len() ==> #[trigger] ballot_probed(bc, pb, s, b)
    &&& forall|c: int| 0 <= c < s.cs.len() ==> #[trigger] seat_probed(cb, pc, s, c)
    &&& s.cur >= 0 ==> {
        &&& s.cur < s.bs.len()
        &&& s.bs[s.cur].prev != NONE
        &&& s.bs[s.cur].level == s.low
        &&& 1 <= s.at <= bc[s.cur]@.len()
        &&& forall|i: int| 1 <= i < s.at ==> #[trigger] seat_seen(bc, s, s.cur, i)
    }
    &&& s.seat >= 0 ==> {
        &&& s.seat < s.cs.len()
        &&& s.cs[s.seat].prev != NONE
        &&& s.cs[s.seat].level == s.low + 1
        &&& 0 <= s.upto <= cb[s.seat]@.len()
        &&& forall|j: int| 0 <= j < s.upto ==> #[trigger] answer_ok(cb, s, s.seat, j)
    }
}

/// The states `z` are the states `a` but for ballot `b`, which has been reached.
spec fn ballot_set<W>(a: Seq<BallotState<W>>, z: Seq<BallotState<W>>, b: int, level: int) -> bool {
    &&& z.len() == a.len()
    &&& forall|r: int| 0 <= r < a.len() && r != b ==> #[trigger] z[r] == a[r]
    &&& a[b].prev == NONE
    &&& z[b].prev != NONE
    &&& z[b].level == level
    &&& z[b].edge_flow == a[b].edge_flow
}

/// The states `z` are the states `a` but for seat `c`, which has been found.
spec fn seat_set<W>(a: Seq<CandidateState<W>>, z: Seq<CandidateState<W>>, c: int, level: int) -> bool {
    &&& z.len() == a.len()
    &&& forall|r: int| 0 <= r < a.len() && r != c ==> #[trigger] z[r] == a[r]
    &&& a[c].prev == NONE
    &&& z[c].prev != NONE
    &&& z[c].level == level
}

/// A ballot has been asked whether the source feeds it.
proof fn lemma_probe_root<W: Weight>(
    bc: Seq<Vec<(usize, usize)>>,
    cb: Seq<Vec<(usize, usize)>>,
    pb: Seq<int>,
    pc: Seq<int>,
    top: int,
    s: Probe<W>,
    s1: Probe<W>,
)
    requires
        wired(bc, cb),
        probed(bc, cb, pb, pc, s),
        history(bc, cb, s.bs, pb, pc, top),
        0 <= s.scanned < s.bs.len(),
        s.cur == -1,
        s.seat == -1,
        s.low == 0,
        forall|c: int| 0 <= c < s.cs.len() ==> (#[trigger] s.cs[c]).prev == NONE,
        s1.cs == s.cs,
        s1.found == s.found,
        s1.scanned == s.scanned + 1,
        s1.cur == -1,
        s1.seat == -1,
        s1.low == 0,
        s.bs[s.scanned].prev == NONE,
        if s.bs[s.scanned].edge_flow@[0].value() != 0real {
            ballot_set(s.bs, s1.bs, s.scanned, 0) && s1.queue == s.queue.push(s.scanned as usize)
        } else {
            s1.bs == s.bs && s1.queue == s.queue
        },
    ensures
        probed(bc, cb, pb, pc, s1),
{
    let b = s.scanned;
    assert forall|r: int| 0 <= r < s1.bs.len() implies #[trigger] ballot_probed(bc, pb, s1, r) by {
        assert(ballot_probed(bc, pb, s, r));
        if s1.bs[r].prev != NONE {
            if r == b {
                assert(s1.queue[s.queue.len() as int] == b as usize);
            } else {
                if s.queue.contains(r as usize) {
                    let x = choose|x: int| 0 <= x < s.queue.len() && s.queue[x] == r as usize;
                    assert(s1.queue[x] == r as usize);
                }
                if expanded(bc, s, r) {
                    assert forall|i: int| 1 <= i < bc[r]@.len() implies #[trigger] seat_seen(
                        bc,
                        s1,
                        r,
                        i,
                    ) by {
                        assert(forward_ok(bc, cb, r, i));
                        assert(seat_seen(bc, s, r, i));
                    }
                }
            }
        }
    }
    assert forall|c: int| 0 <= c < s1.cs.len() implies #[trigger] seat_probed(cb, pc, s1, c) by {
        assert(s.cs[c].prev == NONE);
    }
}

/// A ballot has been taken from the queue.
proof fn lemma_probe_pop<W: Weight>(
    bc: Seq<Vec<(usize, usize)>>,
    cb: Seq<Vec<(usize, usize)>>,
    pb: Seq<int>,
    pc: Seq<int>,
    s: Probe<W>,
    s1: Probe<W>,
)
    requires
        wired(bc, cb),
        probed(bc, cb, pb, pc, s),
        s.cur == -1,
        s.seat == -1,
        s.queue.len() > 0,
        s.queue[0] < s.bs.len(),
        s.bs[s.queue[0] as int].prev != NONE,
        s.low <= s.bs[s.queue[0] as int].level,
        forall|b: int|
            0 <= b < s.bs.len() && (#[trigger] s.bs[b]).prev != NONE ==> s.bs[b].level
                <= s.bs[s.queue[0] as int].level + 2,
        s1 == (Probe {
            queue: s.queue.subrange(1, s.queue.len() as int),
            cur: s.queue[0] as int,
            at: 1,
            low: s.bs[s.queue[0] as int].level as int,
            ..s
        }),
    ensures
        probed(bc, cb, pb, pc, s1),
{
    let b = s.queue[0] as int;
    assert forall|r: int| 0 <= r < s1.bs.len() implies #[trigger] ballot_probed(bc, pb, s1, r) by {
        assert(ballot_probed(bc, pb, s, r));
        if s1.bs[r].prev != NONE && r != b {
            if s.queue.contains(r as usize) {
                let x = choose|x: int| 0 <= x < s.queue.len() && s.queue[x] == r as usize;
                assert(s1.queue[x - 1] == r as usize);
            }
            if expanded(bc, s, r) {
                assert forall|i: int| 1 <= i < bc[r]@.len() implies #[trigger] seat_seen(
                    bc,
                    s1,
                    r,
                    i,
                ) by {
                    assert(forward_ok(bc, cb, r, i));
                    assert(seat_seen(bc, s, r, i));
                }
            }
        }
    }
    assert forall|c: int| 0 <= c < s1.cs.len() implies #[trigger] seat_probed(cb, pc, s1, c) by {
        assert(seat_probed(cb, pc, s, c));
        if s.cs[c].prev != NONE {
            assert forall|j: int| 0 <= j < cb[c]@.len() implies #[trigger] answer_ok(cb, s1, c, j) by {
                assert(backward_ok(bc, cb, c, j));
                assert(answer_ok(cb, s, c, j));
            }
        }
    }
}

/// An edge of the ballot leads to a seat that has been found before.
proof fn lemma_probe_seat_known<W: Weight>(
    bc: Seq<Vec<(usize, usize)>>,
    cb: Seq<Vec<(usize, usize)>>,
    pb: Seq<int>,
    pc: Seq<int>,
    s: Probe<W>,
    s1: Probe<W>,
)
    requires
        wired(bc, cb),
        probed(bc, cb, pb, pc, s),
        s.cur >= 0,
        s.seat == -1,
        s.at < bc[s.cur]@.len(),
        bc[s.cur]@[s.at].0 < s.cs.len(),
        s.cs[bc[s.cur]@[s.at].0 as int].prev != NONE,
        s1 == (Probe { at: s.at + 1, ..s }),
    ensures
        probed(bc, cb, pb, pc, s1),
{
    lemma_probe_same(bc, cb, pb, pc, s, s1);
    assert(seat_probed(cb, pc, s, bc[s.cur]@[s.at].0 as int));
    assert forall|i: int| 1 <= i < s1.at implies #[trigger] seat_seen(bc, s1, s1.cur, i) by {
        assert(forward_ok(bc, cb, s.cur, i));
        if i < s.at {
            assert(seat_seen(bc, s, s.cur, i));
        }
    }
}

/// What holds of every ballot and seat holds on when neither the states nor
/// the queue nor the level change.
proof fn lemma_probe_same<W: Weight>(
    bc: Seq<Vec<(usize, usize)>>,
    cb: Seq<Vec<(usize, usize)>>,
    pb: Seq<int>,
    pc: Seq<int>,
    s: Probe<W>,
    s1: Probe<W>,
)
    requires
        wired(bc, cb),
        probed(bc, cb, pb, pc, s),
        s1.bs == s.bs,
        s1.cs == s.cs,
        s1.found == s.found,
        s1.queue == s.queue,
        s1.scanned == s.scanned,
        s1.low == s.low,
        s1.cur == s.cur || expanded(bc, s, s.cur),
        s1.seat == s.seat || answered(cb, s, s.seat),
    ensures
        forall|b: int| 0 <= b < s1.bs.len() ==> #[trigger] ballot_probed(bc, pb, s1, b),
        forall|c: int| 0 <= c < s1.cs.len() ==> #[trigger] seat_probed(cb, pc, s1, c),
{
    assert forall|r: int| 0 <= r < s1.bs.len() implies #[trigger] ballot_probed(bc, pb, s1, r) by {
        assert(ballot_probed(bc, pb, s, r));
        if s1.bs[r].prev != NONE {
            if expanded(bc, s, r) {
                assert forall|i: int| 1 <= i < bc[r]@.len() implies #[trigger] seat_seen(
                    bc,
                    s1,
                    r,
                    i,
                ) by {
                    assert(forward_ok(bc, cb, r, i));
                    assert(seat_seen(bc, s, r, i));
                }
            }
        }
    }
    assert forall|c: int| 0 <= c < s1.cs.len() implies #[trigger] seat_probed(cb, pc, s1, c) by {
        assert(seat_probed(cb, pc, s, c));
        if s.cs[c].prev != NONE {
            if answered(cb, s, c) {
                assert forall|j: int| 0 <= j < cb[c]@.len() implies #[trigger] answer_ok(
                    cb,
                    s1,
                    c,
                    j,
                ) by {
                    assert(backward_ok(bc, cb, c, j));
                    assert(answer_ok(cb, s, c, j));
                }
            }
        }
    }
}

/// An edge of the ballot leads to a seat that is found now.
proof fn lemma_probe_seat_new<W: Weight>(
    bc: Seq<Vec<(usize, usize)>>,
    cb: Seq<Vec<(usize, usize)>>,
    pb: Seq<int>,
    pc: Seq<int>,
    top: int,
    s: Probe<W>,
    s1: Probe<W>,
)
    requires
        wired(bc, cb),
        probed(bc, cb, pb, pc, s),
        history(bc, cb, s.bs, pb, pc, top),
        s.cur >= 0,
        s.seat == -1,
        s.at < bc[s.cur]@.len(),
        bc[s.cur]@[s.at].0 < s.cs.len(),
        seat_set(s.cs, s1.cs, bc[s.cur]@[s.at].0 as int, s.low + 1),
        s1 == (Probe {
            cs: s1.cs,
            found: s.found.push(bc[s.cur]@[s.at].0),
            seat: bc[s.cur]@[s.at].0 as int,
            upto: 0,
            ..s
        }),
    ensures
        probed(bc, cb, pb, pc, s1),
{
    let c = bc[s.cur]@[s.at].0 as int;
    assert(ballot_probed(bc, pb, s, s.cur));
    assert forall|r: int| 0 <= r < s1.bs.len() implies #[trigger] ballot_probed(bc, pb, s1, r) by {
        assert(ballot_probed(bc, pb, s, r));
        if s1.bs[r].prev != NONE {
            if expanded(bc, s, r) {
                assert forall|i: int| 1 <= i < bc[r]@.len() implies #[trigger] seat_seen(
                    bc,
                    s1,
                    r,
                    i,
                ) by {
                    assert(forward_ok(bc, cb, r, i));
                    assert(seat_seen(bc, s, r, i));
                }
            }
        }
    }
    assert forall|e: int| 0 <= e < s1.cs.len() implies #[trigger] seat_probed(cb, pc, s1, e) by {
        assert(seat_probed(cb, pc, s, e));
        if e == c {
            assert(s1.found[s.found.len() as int] == c as usize);
        } else if s.cs[e].prev != NONE {
            let x = choose|x: int| 0 <= x < s.found.len() && s.found[x] == e as usize;
            assert(s1.found[x] == e as usize);
            assert forall|j: int| 0 <= j < cb[e]@.len() implies #[trigger] answer_ok(cb, s1, e, j) by {
                assert(backward_ok(bc, cb, e, j));
                assert(answer_ok(cb, s, e, j));
            }
        }
    }
    assert forall|i: int| 1 <= i < s1.at implies #[trigger] seat_seen(bc, s1, s1.cur, i) by {
        assert(forward_ok(bc, cb, s.cur, i));
        assert(seat_seen(bc, s, s.cur, i));
    }
}

/// An entry of the seat names a ballot that gives nothing to it or that has
/// been reached before.
proof fn lemma_probe_ballot_known<W: Weight>(
    bc: Seq<Vec<(usize, usize)>>,
    cb: Seq<Vec<(usize, usize)>>,
    pb: Seq<int>,
    pc: Seq<int>,
    s: Probe<W>,
    s1: Probe<W>,
)
    requires
        wired(bc, cb),
        probed(bc, cb, pb, pc, s),
        s.seat >= 0,
        s.upto < cb[s.seat]@.len(),
        cb[s.seat]@[s.upto].0 < s.bs.len(),
        s.bs[cb[s.seat]@[s.upto].0 as int].edge_flow@[cb[s.seat]@[s.upto].1 as int].value() == 0real
            || s.bs[cb[s.seat]@[s.upto].0 as int].prev != NONE,
        s1 == (Probe { upto: s.upto + 1, ..s }),
    ensures
        probed(bc, cb, pb, pc, s1),
{
    lemma_probe_same(bc, cb, pb, pc, s, s1);
    assert(ballot_probed(bc, pb, s, cb[s.seat]@[s.upto].0 as int));
    assert forall|j: int| 0 <= j < s1.upto implies #[trigger] answer_ok(cb, s1, s1.seat, j) by {
        assert(backward_ok(bc, cb, s.seat, j));
        if j < s.upto {
            assert(answer_ok(cb, s, s.seat, j));
        }
    }
    if s.cur >= 0 {
        assert forall|i: int| 1 <= i < s1.at implies #[trigger] seat_seen(bc, s1, s1.cur, i) by {
            assert(forward_ok(bc, cb, s.cur, i));
            assert(seat_seen(bc, s, s.cur, i));
        }
    }
}

/// An entry of the seat names a ballot that is reached now.
proof fn lemma_probe_ballot_new<W: Weight>(
    bc: Seq<Vec<(usize, usize)>>,
    cb: Seq<Vec<(usize, usize)>>,
    pb: Seq<int>,
    pc: Seq<int>,
    top: int,
    s: Probe<W>,
    s1: Probe<W>,
)
    requires
        wired(bc, cb),
        probed(bc, cb, pb, pc, s),
        history(bc, cb, s.bs, pb, pc, top),
        s.scanned == s.bs.len(),
        s.seat >= 0,
        s.upto < cb[s.seat]@.len(),
        cb[s.seat]@[s.upto].0 < s.bs.len(),
        s.bs[cb[s.seat]@[s.upto].0 as int].edge_flow@[cb[s.seat]@[s.upto].1 as int].value() != 0real,
        ballot_set(s.bs, s1.bs, cb[s.seat]@[s.upto].0 as int, s.low + 2),
        s1 == (Probe {
            bs: s1.bs,
            queue: s.queue.push(cb[s.seat]@[s.upto].0),
            upto: s.upto + 1,
            ..s
        }),
    ensures
        probed(bc, cb, pb, pc, s1),
{
    let b1 = cb[s.seat]@[s.upto].0 as int;
    assert(seat_probed(cb, pc, s, s.seat));
    assert(gives_up(cb, s.bs, pb, pc, s.seat, s.upto));
    assert forall|r: int| 0 <= r < s1.bs.len() implies #[trigger] ballot_probed(bc, pb, s1, r) by {
        assert(ballot_probed(bc, pb, s, r));
        if r == b1 {
            assert(s1.queue[s.queue.len() as int] == b1 as usize);
        } else if s1.bs[r].prev != NONE {
            if s.queue.contains(r as usize) {
                let x = choose|x: int| 0 <= x < s.queue.len() && s.queue[x] == r as usize;
                assert(s1.queue[x] == r as usize);
            }
            if expanded(bc, s, r) {
                assert forall|i: int| 1 <= i < bc[r]@.len() implies #[trigger] seat_seen(
                    bc,
                    s1,
                    r,
                    i,
                ) by {
                    assert(forward_ok(bc, cb, r, i));
                    assert(seat_seen(bc, s, r, i));
                }
            }
        }
    }
    assert forall|e: int| 0 <= e < s1.cs.len() implies #[trigger] seat_probed(cb, pc, s1, e) by {
        assert(seat_probed(cb, pc, s, e));
        if s.cs[e].prev != NONE && answered(cb, s, e) {
            assert forall|j: int| 0 <= j < cb[e]@.len() implies #[trigger] answer_ok(cb, s1, e, j) by {
                assert(backward_ok(bc, cb, e, j));
                assert(answer_ok(cb, s, e, j));
            }
        }
    }
    assert forall|j: int| 0 <= j < s1.upto implies #[trigger] answer_ok(cb, s1, s1.seat, j) by {
        assert(backward_ok(bc, cb, s.seat, j));
        if j < s.upto {
            assert(answer_ok(cb, s, s.seat, j));
        }
    }
    if s.cur >= 0 {
        assert forall|i: int| 1 <= i < s1.at implies #[trigger] seat_seen(bc, s1, s1.cur, i) by {
            assert(forward_ok(bc, cb, s.cur, i));
            assert(seat_seen(bc, s, s.cur, i));
        }
    }
}

/// All entries of the seat have been looked at.
proof fn lemma_probe_seat_done<W: Weight>(
    bc: Seq<Vec<(usize, usize)>>,
    cb: Seq<Vec<(usize, usize)>>,
    pb: Seq<int>,
    pc: Seq<int>,
    s: Probe<W>,
    s1: Probe<W>,
)
    requires
        wired(bc, cb),
        probed(bc, cb, pb, pc, s),
        s.cur >= 0,
        s.seat >= 0,
        s.upto == cb[s.seat]@.len(),
        s.at < bc[s.cur]@.len(),
        bc[s.cur]@[s.at].0 == s.seat,
        s1 == (Probe { seat: -1, at: s.at + 1, ..s }),
    ensures
        probed(bc, cb, pb, pc, s1),
{
    lemma_probe_same(bc, cb, pb, pc, s, s1);
    assert forall|i: int| 1 <= i < s1.at implies #[trigger] seat_seen(bc, s1, s1.cur, i) by {
        assert(forward_ok(bc, cb, s.cur, i));
        if i < s.at {
            assert(seat_seen(bc, s, s.cur, i));
        }
    }
}

/// All edges of the ballot have been looked at.
proof fn lemma_probe_ballot_done<W: Weight>(
    bc: Seq<Vec<(usize, usize)>>,
    cb: Seq<Vec<(usize, usize)>>,
    pb: Seq<int>,
    pc: Seq<int>,
    s: Probe<W>,
    s1: Probe<W>,
)
    requires
        wired(bc, cb),
        probed(bc, cb, pb, pc, s),
        s.cur >= 0,
        s.seat == -1,
        s.at == bc[s.cur]@.len(),
        s1 == (Probe { cur: -1, ..s }),
    ensures
        probed(bc, cb, pb, pc, s1),
{
    lemma_probe_same(bc, cb, pb, pc, s, s1);
}

/// The levels that a search has given: to a ballot that it has not reached,
/// one level more than to any ballot that it has.
spec fn levels_of<W>(bs: Seq<BallotState<W>>, cs: Seq<CandidateState<W>>, low: int) -> (Seq<int>, Seq<int>) {
    (
        Seq::new(
            bs.len(),
            |b: int|
                if bs[b].prev != NONE {
                    bs[b].level as int
                } else {
                    low + 2
                },
        ),
        Seq::new(cs.len(), |c: int| cs[c].level as int),
    )
}

/// When the search has found all seats, its levels fit the flows and are
/// nowhere below the earlier ones.
proof fn lemma_probe_complete<W: Weight>(
    bc: Seq<Vec<(usize, usize)>>,
    cb: Seq<Vec<(usize, usize)>>,
    pb: Seq<int>,
    pc: Seq<int>,
    top: int,
    s: Probe<W>,
)
    requires
        wired(bc, cb),
        probed(bc, cb, pb, pc, s),
        history(bc, cb, s.bs, pb, pc, top),
        s.scanned == s.bs.len(),
        s.cur >= 0,
        s.seat >= 0,
        forall|c: int| 0 <= c < s.cs.len() ==> (#[trigger] s.cs[c]).prev != NONE,
        forall|x: int| 0 <= x < s.queue.len() ==> s.queue[x] < s.bs.len() && s.bs[#[trigger] s.queue[x] as int].level
            >= s.low,
    ensures
        history(bc, cb, s.bs, levels_of(s.bs, s.cs, s.low).0, levels_of(s.bs, s.cs, s.low).1, s.low + 1),
        forall|b: int| 0 <= b < pb.len() ==> #[trigger] levels_of(s.bs, s.cs, s.low).0[b] >= pb[b],
        forall|c: int| 0 <= c < pc.len() ==> #[trigger] levels_of(s.bs, s.cs, s.low).1[c] >= pc[c],
        forall|c: int| 0 <= c < pc.len() ==> #[trigger] levels_of(s.bs, s.cs, s.low).1[c] >= 1,
{
    let (pb1, pc1) = levels_of(s.bs, s.cs, s.low);
    let top1 = s.low + 1;
    assert forall|c: int| 0 <= c < pc1.len() implies 1 <= #[trigger] pc1[c] <= top1 && pc1[c]
        >= pc[c] by {
        assert(seat_probed(cb, pc, s, c));
    }
    // No earlier level is above the levels of this search.
    assert(top <= top1) by {
        let c0 = choose|c: int| 0 <= c < pc.len() && #[trigger] pc[c] == top;
        assert(pc1[c0] >= pc[c0]);
    }
    assert forall|b: int| 0 <= b < pb1.len() implies 0 <= #[trigger] pb1[b] <= top1 + 1 && pb1[b]
        >= pb[b] by {
        assert(ballot_probed(bc, pb, s, b));
        assert(pb[b] <= top + 1);
    }
    assert(pc1[s.seat] == top1);
    assert forall|b: int|
        0 <= b < pb1.len() && (#[trigger] s.bs[b]).edge_flow@[0].value() != 0real implies pb1[b]
        == 0 by {
        assert(ballot_probed(bc, pb, s, b));
    }
    assert forall|c: int, j: int| 0 <= c < cb.len() && 0 <= j < cb[c]@.len() implies #[trigger] gives_up(
        cb,
        s.bs,
        pb1,
        pc1,
        c,
        j,
    ) by {
        assert(backward_ok(bc, cb, c, j));
        assert(seat_probed(cb, pc, s, c));
        let b = cb[c]@[j].0 as int;
        assert(ballot_probed(bc, pb, s, b));
        if c != s.seat {
            assert(answer_ok(cb, s, c, j));
        }
    }
    assert forall|b: int, i: int| 0 <= b < bc.len() && 1 <= i < bc[b]@.len() implies pc1[(
    #[trigger] bc[b]@[i]).0 as int] <= pb1[b] + 1 by {
        assert(forward_ok(bc, cb, b, i));
        let c = bc[b]@[i].0 as int;
        assert(seat_probed(cb, pc, s, c));
        assert(ballot_probed(bc, pb, s, b));
        if s.bs[b].prev != NONE {
            if s.queue.contains(b as usize) {
                let x = choose|x: int| 0 <= x < s.queue.len() && s.queue[x] == b as usize;
                assert(s.bs[s.queue[x] as int].level >= s.low);
            } else if b != s.cur {
                assert(seat_seen(bc, s, b, i));
            }
        }
    }
}

/// When the search has nothing left to look at, every ballot that it has
/// reached has all its seats found, every ballot that the source feeds or that
/// gives to a seat that was found has been reached, and the seats that were
/// found are listed.
proof fn lemma_probe_incomplete<W: Weight>(
    bc: Seq<Vec<(usize, usize)>>,
    cb: Seq<Vec<(usize, usize)>>,
    pb: Seq<int>,
    pc: Seq<int>,
    s: Probe<W>,
)
    requires
        wired(bc, cb),
        probed(bc, cb, pb, pc, s),
        s.scanned == s.bs.len(),
        s.cur == -1,
        s.seat == -1,
        s.queue.len() == 0,
    ensures
        closed_off(bc, cb, s.bs, s.cs),
        forall|c: int|
            0 <= c < s.cs.len() && (#[trigger] s.cs[c]).prev != NONE ==> s.found.contains(c as usize),
{
    assert forall|b: int, i: int|
        0 <= b < bc.len() && 1 <= i < bc[b]@.len() && s.bs[b].prev != NONE implies s.cs[(
    #[trigger] bc[b]@[i]).0 as int].prev != NONE by {
        assert(ballot_probed(bc, pb, s, b));
        assert(seat_seen(bc, s, b, i));
    }
    assert forall|b: int|
        0 <= b < s.bs.len() && (#[trigger] s.bs[b]).edge_flow@[0].value() != 0real implies s.bs[b].prev
        != NONE by {
        assert(ballot_probed(bc, pb, s, b));
    }
    assert forall|c: int, j: int|
        0 <= c < cb.len() && 0 <= j < cb[c]@.len() && s.cs[c].prev != NONE implies #[trigger] passes(
        cb,
        s.bs,
        c,
        j,
    ) by {
        assert(seat_probed(cb, pc, s, c));
        assert(answer_ok(cb, s, c, j));
    }
    assert forall|c: int| 0 <= c < s.cs.len() && (#[trigger] s.cs[c]).prev != NONE implies s.found.contains(
        c as usize,
    ) by {
        assert(seat_probed(cb, pc, s, c));
    }
}

/// The ballot of entry `j` of seat `c` has been reached if it gives to the seat.
spec fn passes<W: Weight>(cb: Seq<Vec<(usize, usize)>>, bs: Seq<BallotState<W>>, c: int, j: int) -> bool {
    let (b, i) = cb[c]@[j];
    bs[b as int].edge_flow@[i as int].value() != 0real ==> bs[b as int].prev != NONE
}

/// No ballot that was reached names a seat that was not found, and every
/// ballot that the source feeds or that gives to a seat that was found has been
/// reached.
spec fn closed_off<W: Weight>(
    bc: Seq<Vec<(usize, usize)>>,
    cb: Seq<Vec<(usize, usize)>>,
    bs: Seq<BallotState<W>>,
    cs: Seq<CandidateState<W>>,
) -> bool {
    &&& forall|b: int, i: int|
        0 <= b < bc.len() && 1 <= i < bc[b]@.len() && bs[b].prev != NONE ==> cs[(
        #[trigger] bc[b]@[i]).0 as int].prev != NONE
    &&& forall|b: int|
        0 <= b < bs.len() && (#[trigger] bs[b]).edge_flow@[0].value() != 0real ==> bs[b].prev != NONE
    &&& forall|c: int, j: int|
        0 <= c < cb.len() && 0 <= j < cb[c]@.len() && cs[c].prev != NONE ==> #[trigger] passes(
            cb,
            bs,
            c,
            j,
        )
}

proof fn lemma_search_links<W: Weight>(
    bc: Seq<Vec<(usize, usize)>>,
    cb: Seq<Vec<(usize, usize)>>,
    bs: Seq<BallotState<W>>,
    cs: Seq<CandidateState<W>>,
    found: Seq<usize>,
    queue: Seq<usize>,
)
    requires
        wired(bc, cb),
        search_ok(bc, cb, bs, cs, found, queue),
    ensures
        forall|q: int| 0 <= q < found.len() ==> #[trigger] linked(bc, cb, bs, cs, found[q] as int),
{
    assert forall|q: int| 0 <= q < found.len() implies #[trigger] linked(
        bc,
        cb,
        bs,
        cs,
        found[q] as int,
    ) by {
        let c = found[q] as int;
        assert(seat_reached(cb, bs, cs, found.len(), c));
        assert(backward_ok(bc, cb, c, cs[c].prev as int));
        assert(ballot_reached(bc, bs, cs, found.len(), feeder(cb, cs, c)));
    }
}

/// Breadth-first search from the ballots that the source can still feed,
/// until every seat is found or nothing is left to look at.
#[verifier::loop_isolation(false)]
fn search<W: Weight>(
    bc: &BallotEdges,
    cb: &SeatEdges,
    bs: &mut Vec<BallotState<W>>,
    cs: &mut Vec<CandidateState<W>>,
    Ghost(pb): Ghost<Seq<int>>,
    Ghost(pc): Ghost<Seq<int>>,
    Ghost(top): Ghost<int>,
) -> (r: (Vec<usize>, bool, Ghost<int>))
    requires
        wired(bc@, cb@),
        states_ok(bc@, old(bs)@),
        seats_ok(cb@, old(cs)@),
        history(bc@, cb@, old(bs)@, pb, pc, top),
        forall|b: int| 0 <= b < old(bs)@.len() ==> (#[trigger] old(bs)@[b]).prev == NONE,
        forall|c: int| 0 <= c < old(cs)@.len() ==> (#[trigger] old(cs)@[c]).prev == NONE,
    ensures
        states_ok(bc@, final(bs)@),
        seats_ok(cb@, final(cs)@),
        same_flows(old(bs)@, final(bs)@),
        same_seat_counts(old(cs)@, final(cs)@),
        forall|q: int| 0 <= q < r.0@.len() ==> (#[trigger] r.0@[q]) < cb@.len(),
        r.1 ==> r.0@.len() == cb@.len() && r.0@.len() >= 1,
        r.0@.no_duplicates(),
        r.1 ==> level_order(final(cs)@, r.0@),
        r.1 ==> forall|q: int|
            0 <= q < r.0@.len() ==> #[trigger] linked(
                bc@,
                cb@,
                final(bs)@,
                final(cs)@,
                r.0@[q] as int,
            ),
        r.1 ==> 0 <= r.2@ <= 2 * cb@.len(),
        r.1 ==> history(
            bc@,
            cb@,
            final(bs)@,
            levels_of(final(bs)@, final(cs)@, r.2@).0,
            levels_of(final(bs)@, final(cs)@, r.2@).1,
            r.2@ + 1,
        ),
        r.1 ==> forall|b: int|
            0 <= b < pb.len() ==> #[trigger] levels_of(final(bs)@, final(cs)@, r.2@).0[b] >= pb[b],
        r.1 ==> forall|c: int|
            0 <= c < pc.len() ==> #[trigger] levels_of(final(bs)@, final(cs)@, r.2@).1[c] >= pc[c],
        r.1 ==> forall|c: int|
            0 <= c < pc.len() ==> #[trigger] levels_of(final(bs)@, final(cs)@, r.2@).1[c] >= 1,
        !r.1 ==> closed_off(bc@, cb@, final(bs)@, final(cs)@),
        !r.1 ==> r.0@.len() < cb@.len() || cb@.len() == 0,
        !r.1 ==> forall|c: int|
            0 <= c < final(cs)@.len() && (#[trigger] final(cs)@[c]).prev != NONE ==> r.0@.contains(
                c as usize,
            ),
{
    let ghost bs0 = bs@;
    let ghost cs0 = cs@;
    let mut queue: VecDeque<usize> = VecDeque::new();
    let mut found: Vec<usize> = Vec::new();
    let mut b: usize = 0;
    let ghost mut probe = Probe {
        bs: bs@,
        cs: cs@,
        found: found@,
        queue: queue@,
        scanned: 0,
        cur: -1,
        at: 0,
        seat: -1,
        upto: 0,
        low: 0,
    };
    proof {
        vstd::std_specs::vec::axiom_spec_len(bs);
        vstd::std_specs::vec::axiom_spec_len(cs);
        assert forall|t: int| 0 <= t < bs@.len() implies #[trigger] ballot_reached(
            bc@,
            bs@,
            cs@,
            0,
            t,
        ) by {
            assert(bs@[t].prev == NONE);
        }
        assert forall|t: int| 0 <= t < cs@.len() implies #[trigger] seat_reached(
            cb@,
            bs@,
            cs@,
            0,
            t,
        ) by {
            assert(cs@[t].prev == NONE);
        }
        assert forall|t: int| 0 <= t < bs@.len() implies #[trigger] ballot_probed(bc@, pb, probe, t) by {
            assert(bs@[t].prev == NONE);
        }
        assert forall|t: int| 0 <= t < cs@.len() implies #[trigger] seat_probed(cb@, pc, probe, t) by {
            assert(cs@[t].prev == NONE);
        }
    }
    while b < bs.len()
        invariant
            b <= bs@.len(),
            cs@ == cs0,
            found@.len() == 0,
            same_flows(bs0, bs@),
            search_ok(bc@, cb@, bs@, cs@, found@, queue@),
            queue_ok(bs@, queue@, 0, 0),
            probe == (Probe {
                bs: bs@,
                cs: cs@,
                found: found@,
                queue: queue@,
                scanned: b as int,
                cur: -1,
                at: 0,
                seat: -1,
                upto: 0,
                low: 0,
            }),
            probed(bc@, cb@, pb, pc, probe),
            forall|t: int| b <= t < bs@.len() ==> (#[trigger] bs@[t]).prev == NONE,
        decreases bs@.len() - b,
    {
        assert(ballot_ok(bc@, bs@, b as int));
        let ghost earlier = probe;
        if !bs[b].edge_flow[0].is_zero() {
            let ghost before = bs@;
            let ghost queue_before = queue@;
            bs[b].level = 0;
            bs[b].prev = 0;
            queue.push_back(b);
            proof {
                assert forall|i: int| 0 <= i < queue@.len() implies bs@[#[trigger] queue@[i] as int].level
                    == 0 by {
                    if i < queue_before.len() {
                        assert(before[queue_before[i] as int].level == 0);
                    }
                }
                assert forall|t: int| 0 <= t < bs@.len() implies #[trigger] ballot_ok(
                    bc@,
                    bs@,
                    t,
                ) by {
                    assert(ballot_ok(bc@, before, t));
                }
                assert forall|t: int| 0 <= t < bs@.len() implies #[trigger] ballot_reached(
                    bc@,
                    bs@,
                    cs@,
                    0,
                    t,
                ) by {
                    assert(ballot_reached(bc@, before, cs@, 0, t));
                }
                assert forall|t: int| 0 <= t < cs@.len() implies #[trigger] seat_reached(
                    cb@,
                    bs@,
                    cs@,
                    0,
                    t,
                ) by {
                    assert(cs@[t].prev == NONE);
                }
            }
        }
        proof {
            probe = Probe {
                bs: bs@,
                cs: cs@,
                found: found@,
                queue: queue@,
                scanned: b + 1,
                cur: -1,
                at: 0,
                seat: -1,
                upto: 0,
                low: 0,
            };
            lemma_history_kept(bc@, cb@, bs0, earlier.bs, pb, pc, top);
            lemma_probe_root(bc@, cb@, pb, pc, top, earlier, probe);
        }
        b += 1;
    }
    loop
        invariant
            same_flows(bs0, bs@),
            same_seat_counts(cs0, cs@),
            found@.len() < cb@.len() || cb@.len() == 0,
            found@.no_duplicates(),
            search_ok(bc@, cb@, bs@, cs@, found@, queue@),
            queue_ok(bs@, queue@, probe.low, probe.low + 2),
            risen(cs@, found@, probe.low + 1),
            probe.low <= 2 * found@.len(),
            probe == (Probe {
                bs: bs@,
                cs: cs@,
                found: found@,
                queue: queue@,
                scanned: bs@.len() as int,
                cur: -1,
                at: probe.at,
                seat: -1,
                upto: probe.upto,
                low: probe.low,
            }),
            probed(bc@, cb@, pb, pc, probe),
        decreases unseen(bs@) + queue@.len(),
    {
        let ghost measure = unseen(bs@) + queue@.len();
        let ghost queue_before = queue@;
        let ghost earlier = probe;
        let b = match queue.pop_front() {
            None => {
                proof {
                    lemma_probe_incomplete(bc@, cb@, pb, pc, probe);
                }
                return (found, false, Ghost(probe.low));
            },
            Some(b) => b,
        };
        assert(ballot_ok(bc@, bs@, b as int));
        let level = bs[b].level;
        assert(ballot_reached(bc@, bs@, cs@, found@.len(), b as int));
        proof {
            assert forall|i: int| 0 <= i < queue@.len() implies level <= bs@[#[trigger] queue@[i] as int].level
                <= level + 2 by {
                assert(queue@[i] == queue_before[i + 1]);
                assert(bs@[queue_before[0] as int].level <= bs@[queue_before[i + 1] as int].level);
            }
            assert forall|i: int, j: int| 0 <= i < j < queue@.len() implies bs@[#[trigger] queue@[i] as int].level
                <= bs@[#[trigger] queue@[j] as int].level by {
                assert(queue@[i] == queue_before[i + 1]);
                assert(queue@[j] == queue_before[j + 1]);
            }
            assert forall|t: int|
                0 <= t < bs@.len() && (#[trigger] bs@[t]).prev != NONE implies bs@[t].level <= level
                + 2 by {
                assert(ballot_probed(bc@, pb, earlier, t));
            }
            probe = Probe {
                queue: queue@,
                cur: b as int,
                at: 1,
                low: level as int,
                ..earlier
            };
            lemma_probe_pop(bc@, cb@, pb, pc, earlier, probe);
        }
        let mut i: usize = 1;
        while i < bc[b].len()
            invariant
                1 <= i <= bc@[b as int]@.len(),
                b < bs@.len(),
                bs@[b as int].prev != NONE,
                bs@[b as int].level == level,
                level <= 2 * found@.len(),
                same_flows(bs0, bs@),
                same_seat_counts(cs0, cs@),
                found@.len() < cb@.len() || cb@.len() == 0,
                found@.no_duplicates(),
                search_ok(bc@, cb@, bs@, cs@, found@, queue@),
                queue_ok(bs@, queue@, level as int, level + 2),
                risen(cs@, found@, level + 1),
                unseen(bs@) + queue@.len() < measure,
                probe == (Probe {
                    bs: bs@,
                    cs: cs@,
                    found: found@,
                    queue: queue@,
                    scanned: bs@.len() as int,
                    cur: b as int,
                    at: i as int,
                    seat: -1,
                    upto: probe.upto,
                    low: level as int,
                }),
                probed(bc@, cb@, pb, pc, probe),
            decreases bc@[b as int]@.len() - i,
        {
            let (c, j) = bc[b][i];
            assert(forward_ok(bc@, cb@, b as int, i as int));
            assert(j != NONE) by {
                vstd::std_specs::vec::axiom_spec_len(&cb@[c as int]);
            }
            let ghost at_edge = probe;
            if cs[c].prev == NONE {
                let ghost cs_before = cs@;
                let ghost n = found@.len();
                assert(found@.len() <= usize::MAX) by {
                    vstd::std_specs::vec::axiom_spec_len(&found);
                }
                cs[c].level = level + 1;
                cs[c].prev = j;
                found.push(c);
                proof {
                    assert forall|t: int| 0 <= t < bs@.len() implies #[trigger] ballot_reached(
                        bc@,
                        bs@,
                        cs@,
                        found@.len(),
                        t,
                    ) by {
                        assert(ballot_reached(bc@, bs@, cs_before, n, t));
                        if bs@[t].prev != NONE && bs@[t].prev >= 1 {
                            assert(forward_ok(bc@, cb@, t, bs@[t].prev as int));
                        }
                    }
                    assert forall|t: int| 0 <= t < cs@.len() implies #[trigger] seat_reached(
                        cb@,
                        bs@,
                        cs@,
                        found@.len(),
                        t,
                    ) by {
                        assert(seat_reached(cb@, bs@, cs_before, n, t));
                    }
                    assert forall|q: int| 0 <= q < found@.len() implies (#[trigger] found@[q])
                        < cs@.len() && cs@[found@[q] as int].prev != NONE by {
                        if q < n {
                            assert(cs_before[found@[q] as int].prev != NONE);
                        }
                    }
                    assert(seats_ok(cb@, cs@));
                    assert(states_ok(bc@, bs@));
                    assert forall|q: int| 0 <= q < found@.len() implies cs@[#[trigger] found@[q] as int].level
                        <= level + 1 by {
                        if q < n {
                            assert(cs_before[found@[q] as int].level <= level + 1);
                        }
                    }
                    assert forall|p: int, q: int| 0 <= p < q < found@.len() implies cs@[#[trigger] found@[p] as int].level
                        <= cs@[#[trigger] found@[q] as int].level by {
                        assert(cs_before[found@[p] as int].level <= level + 1);
                        if q < n {
                            assert(cs_before[found@[p] as int].level <= cs_before[found@[q] as int].level);
                        }
                    }
                    probe = Probe {
                        cs: cs@,
                        found: found@,
                        seat: c as int,
                        upto: 0,
                        ..at_edge
                    };
                    lemma_history_kept(bc@, cb@, bs0, at_edge.bs, pb, pc, top);
                    lemma_probe_seat_new(bc@, cb@, pb, pc, top, at_edge, probe);
                }
                if found.len() == cb.len() {
                    proof {
                        lemma_search_links(bc@, cb@, bs@, cs@, found@, queue@);
                        assert(risen(cs@, found@, level + 1));
                        assert forall|e: int| 0 <= e < cs@.len() implies (#[trigger] cs@[e]).prev
                            != NONE by {
                            lemma_all_found(found@, cb@.len(), e as usize);
                            let q = choose|q: int| 0 <= q < found@.len() && found@[q] == e as usize;
                            assert(cs@[found@[q] as int].prev != NONE);
                        }
                        lemma_probe_complete(bc@, cb@, pb, pc, top, probe);
                    }
                    return (found, true, Ghost(level as int));
                }
                let mut t: usize = 0;
                while t < cb[c].len()
                    invariant
                        t <= cb@[c as int]@.len(),
                        c < cb@.len(),
                        cs@[c as int].prev != NONE,
                        cs@[c as int].level == level + 1,
                        b < bs@.len(),
                        bs@[b as int].prev != NONE,
                        bs@[b as int].level == level,
                        level + 2 <= 2 * found@.len(),
                        same_flows(bs0, bs@),
                        same_seat_counts(cs0, cs@),
                        found@.len() < cb@.len(),
                        found@.no_duplicates(),
                        search_ok(bc@, cb@, bs@, cs@, found@, queue@),
                        queue_ok(bs@, queue@, level as int, level + 2),
                        risen(cs@, found@, level + 1),
                        unseen(bs@) + queue@.len() < measure,
                        probe == (Probe {
                            bs: bs@,
                            cs: cs@,
                            found: found@,
                            queue: queue@,
                            scanned: bs@.len() as int,
                            cur: b as int,
                            at: i as int,
                            seat: c as int,
                            upto: t as int,
                            low: level as int,
                        }),
                        probed(bc@, cb@, pb, pc, probe),
                    decreases cb@[c as int]@.len() - t,
                {
                    let (b1, i1) = cb[c][t];
                    assert(backward_ok(bc@, cb@, c as int, t as int));
                    assert(ballot_ok(bc@, bs@, b1 as int));
                    assert(i1 != NONE) by {
                        vstd::std_specs::vec::axiom_spec_len(&bc@[b1 as int]);
                    }
                    let ghost at_entry = probe;
                    if !bs[b1].edge_flow[i1].is_zero() && bs[b1].prev == NONE {
                        let ghost before = bs@;
                        let ghost waiting = queue@;
                        bs[b1].level = level + 2;
                        bs[b1].prev = i1;
                        queue.push_back(b1);
                        proof {
                            assert forall|i: int| 0 <= i < queue@.len() implies level <= bs@[#[trigger] queue@[i] as int].level
                                <= level + 2 by {
                                if i < waiting.len() {
                                    assert(level <= before[waiting[i] as int].level <= level + 2);
                                }
                            }
                            assert forall|i: int, j: int| 0 <= i < j < queue@.len() implies bs@[#[trigger] queue@[i] as int].level
                                <= bs@[#[trigger] queue@[j] as int].level by {
                                assert(level <= before[waiting[i] as int].level <= level + 2);
                                if j < waiting.len() {
                                    assert(before[waiting[i] as int].level <= before[waiting[j] as int].level);
                                }
                            }
                            lemma_unseen_drops(before, bs@, b1 as int);
                            assert forall|u: int| 0 <= u < bs@.len() implies #[trigger] ballot_ok(
                                bc@,
                                bs@,
                                u,
                            ) by {
                                assert(ballot_ok(bc@, before, u));
                            }
                            assert forall|u: int|
                                0 <= u < bs@.len() implies #[trigger] ballot_reached(
                                bc@,
                                bs@,
                                cs@,
                                found@.len(),
                                u,
                            ) by {
                                assert(ballot_reached(bc@, before, cs@, found@.len(), u));
                            }
                            assert forall|u: int| 0 <= u < cs@.len() implies #[trigger] seat_reached(
                                cb@,
                                bs@,
                                cs@,
                                found@.len(),
                                u,
                            ) by {
                                assert(seat_reached(cb@, before, cs@, found@.len(), u));
                                if cs@[u].prev != NONE {
                                    assert(backward_ok(bc@, cb@, u, cs@[u].prev as int));
                                }
                            }
                            probe = Probe { bs: bs@, queue: queue@, upto: t + 1, ..at_entry };
                            lemma_history_kept(bc@, cb@, bs0, at_entry.bs, pb, pc, top);
                            lemma_probe_ballot_new(bc@, cb@, pb, pc, top, at_entry, probe);
                        }
                    } else {
                        proof {
                            probe = Probe { upto: t + 1, ..at_entry };
                            lemma_probe_ballot_known(bc@, cb@, pb, pc, at_entry, probe);
                        }
                    }
                    t += 1;
                }
                proof {
                    let at_end = probe;
                    probe = Probe { seat: -1, at: i + 1, ..at_end };
                    lemma_probe_seat_done(bc@, cb@, pb, pc, at_end, probe);
                }
            } else {
                proof {
                    probe = Probe { at: i + 1, ..at_edge };
                    lemma_probe_seat_known(bc@, cb@, pb, pc, at_edge, probe);
                }
            }
            i += 1;
        }
        proof {
            let at_end = probe;
            probe = Probe { cur: -1, ..at_end };
            lemma_probe_ballot_done(bc@, cb@, pb, pc, at_end, probe);
        }
    }
}

/// The levels of an earlier search fit the flows as long as no flow changes.
proof fn lemma_history_kept<W: Weight>(
    bc: Seq<Vec<(usize, usize)>>,
    cb: Seq<Vec<(usize, usize)>>,
    bs0: Seq<BallotState<W>>,
    bs: Seq<BallotState<W>>,
    pb: Seq<int>,
    pc: Seq<int>,
    top: int,
)
    requires
        wired(bc, cb),
        bs0.len() == bc.len(),
        history(bc, cb, bs0, pb, pc, top),
        same_flows(bs0, bs),
    ensures
        history(bc, cb, bs, pb, pc, top),
{
    assert forall|b: int|
        0 <= b < pb.len() && (#[trigger] bs[b]).edge_flow@[0].value() != 0real implies pb[b] == 0 by {
        assert(bs0[b].edge_flow == bs[b].edge_flow);
    }
    assert forall|c: int, j: int| 0 <= c < cb.len() && 0 <= j < cb[c]@.len() implies #[trigger] gives_up(
        cb,
        bs,
        pb,
        pc,
        c,
        j,
    ) by {
        assert(backward_ok(bc, cb, c, j));
        assert(gives_up(cb, bs0, pb, pc, c, j));
        assert(bs0[cb[c]@[j].0 as int].edge_flow == bs[cb[c]@[j].0 as int].edge_flow);
    }
}

/// The sum of the numbers of `s`.
spec fn sum_of(s: Seq<real>) -> real
    decreases s.len(),
{
    if s.len() == 0 {
        0real
    } else {
        sum_of(s.drop_last()) + s.last()
    }
}

proof fn lemma_sum_update(s: Seq<real>, i: int, v: real)
    requires
        0 <= i < s.len(),
    ensures
        sum_of(s.update(i, v)) == sum_of(s) - s[i] + v,
    decreases s.len(),
{
    if i == s.len() - 1 {
        assert(s.update(i, v).drop_last() =~= s.drop_last());
    } else {
        lemma_sum_update(s.drop_last(), i, v);
        assert(s.update(i, v).drop_last() =~= s.drop_last().update(i, v));
    }
}

proof fn lemma_sum_zero(s: Seq<real>)
    requires
        forall|i: int| 0 <= i < s.len() ==> s[i] == 0real,
    ensures
        sum_of(s) == 0real,
    decreases s.len(),
{
    if s.len() > 0 {
        lemma_sum_zero(s.drop_last());
    }
}

proof fn lemma_sum_nonnegative(s: Seq<real>)
    requires
        forall|i: int| 0 <= i < s.len() ==> s[i] >= 0real,
    ensures
        sum_of(s) >= 0real,
    decreases s.len(),
{
    if s.len() > 0 {
        lemma_sum_nonnegative(s.drop_last());
    }
}

/// Column `c` of the table `m`.
spec fn column(m: Seq<Seq<real>>, c: int) -> Seq<real> {
    Seq::new(m.len(), |b: int| m[b][c])
}

/// The sum of the numbers of `row` at the chosen places below `n`.
spec fn picked(row: Seq<real>, chosen: Seq<bool>, n: int) -> real
    decreases n,
{
    if n <= 0 {
        0real
    } else {
        picked(row, chosen, n - 1) + if chosen[n - 1] {
            row[n - 1]
        } else {
            0real
        }
    }
}

/// The sum of the numbers of `m` in the chosen columns below `n`.
spec fn picked_columns(m: Seq<Seq<real>>, chosen: Seq<bool>, n: int) -> real
    decreases n,
{
    if n <= 0 {
        0real
    } else {
        picked_columns(m, chosen, n - 1) + if chosen[n - 1] {
            sum_of(column(m, n - 1))
        } else {
            0real
        }
    }
}

/// The sum of the numbers of `m` in the chosen columns below `n`, row by row.
spec fn picked_rows(m: Seq<Seq<real>>, chosen: Seq<bool>, n: int) -> real
    decreases m.len(),
{
    if m.len() == 0 {
        0real
    } else {
        picked_rows(m.drop_last(), chosen, n) + picked(m.last(), chosen, n)
    }
}

/// The chosen columns add up to the same, by columns and by rows.
proof fn lemma_exchange(m: Seq<Seq<real>>, chosen: Seq<bool>, n: int)
    ensures
        picked_columns(m, chosen, n) == picked_rows(m, chosen, n),
    decreases m.len(), n,
{
    if m.len() == 0 {
        lemma_no_rows(m, chosen, n);
    } else {
        lemma_exchange(m.drop_last(), chosen, n);
        lemma_one_more_row(m, chosen, n);
    }
}

proof fn lemma_no_rows(m: Seq<Seq<real>>, chosen: Seq<bool>, n: int)
    requires
        m.len() == 0,
    ensures
        picked_columns(m, chosen, n) == 0real,
    decreases n,
{
    if n > 0 {
        lemma_no_rows(m, chosen, n - 1);
    }
}

proof fn lemma_one_more_row(m: Seq<Seq<real>>, chosen: Seq<bool>, n: int)
    requires
        m.len() > 0,
    ensures
        picked_columns(m, chosen, n) == picked_columns(m.drop_last(), chosen, n) + picked(
            m.last(),
            chosen,
            n,
        ),
    decreases n,
{
    if n > 0 {
        lemma_one_more_row(m, chosen, n - 1);
        assert(column(m, n - 1).drop_last() =~= column(m.drop_last(), n - 1));
    }
}

proof fn lemma_picked_bounds(row: Seq<real>, chosen: Seq<bool>, n: int)
    requires
        0 <= n <= row.len(),
        forall|c: int| 0 <= c < row.len() ==> row[c] >= 0real,
    ensures
        0real <= picked(row, chosen, n) <= sum_of(row.take(n)),
        (forall|c: int| 0 <= c < n && chosen[c] ==> row[c] == 0real) ==> picked(row, chosen, n)
            == 0real,
        (forall|c: int| 0 <= c < n && !chosen[c] ==> row[c] == 0real) ==> picked(row, chosen, n)
            == sum_of(row.take(n)),
    decreases n,
{
    if n > 0 {
        lemma_picked_bounds(row, chosen, n - 1);
        assert(row.take(n).drop_last() =~= row.take(n - 1));
    }
}

proof fn lemma_picked_columns_even(m: Seq<Seq<real>>, chosen: Seq<bool>, n: int, t: real)
    requires
        0 <= n <= chosen.len(),
        forall|c: int| 0 <= c < n ==> sum_of(#[trigger] column(m, c)) == t,
    ensures
        picked_columns(m, chosen, n) == (size(chosen.take(n)) as real) * t,
    decreases n,
{
    if n > 0 {
        lemma_picked_columns_even(m, chosen, n - 1, t);
        assert(chosen.take(n).drop_last() =~= chosen.take(n - 1));
        let a = size(chosen.take(n - 1)) as real;
        assert((a + 1real) * t == a * t + t) by (nonlinear_arith);
        assert(sum_of(column(m, n - 1)) == t);
    } else {
        assert(chosen.take(0) =~= Seq::empty());
        assert(0real * t == 0real) by (nonlinear_arith);
    }
}

/// Edge `i` of ballot `b` carries what the table has for the ballot and the
/// seat of the edge.
spec fn carries<W: Weight>(
    bc: Seq<Vec<(usize, usize)>>,
    bs: Seq<BallotState<W>>,
    m: Seq<Seq<real>>,
    b: int,
    i: int,
) -> bool {
    bs[b].edge_flow@[i].value() == m[b][bc[b]@[i].0 as int]
}

/// Ballot `b` has an edge to seat `c`.
spec fn has_edge(bc: Seq<Vec<(usize, usize)>>, b: int, c: int) -> bool {
    exists|i: int| 1 <= i < bc[b]@.len() && (#[trigger] bc[b]@[i]).0 == c
}

/// Every edge of a ballot leads to one of the `k` seats.
spec fn seats_below(bc: Seq<Vec<(usize, usize)>>, k: int) -> bool {
    forall|b: int, i: int| 0 <= b < bc.len() && 1 <= i < bc[b]@.len() ==> (#[trigger] bc[b]@[i]).0 < k
}

/// No ballot has two edges to one seat.
spec fn distinct_seats(bc: Seq<Vec<(usize, usize)>>) -> bool {
    forall|b: int, i: int, j: int|
        0 <= b < bc.len() && 1 <= i < j < bc[b]@.len() ==> (#[trigger] bc[b]@[i]).0 != (
        #[trigger] bc[b]@[j]).0
}

/// The table `m` holds what every ballot gives to every seat.
spec fn carried<W: Weight>(
    bc: Seq<Vec<(usize, usize)>>,
    k: int,
    bs: Seq<BallotState<W>>,
    m: Seq<Seq<real>>,
) -> bool {
    &&& m.len() == bs.len()
    &&& forall|b: int| 0 <= b < m.len() ==> (#[trigger] m[b]).len() == k
    &&& forall|b: int, c: int|
        0 <= b < m.len() && 0 <= c < k ==> (#[trigger] m[b][c]) >= 0real && (m[b][c] != 0real
            ==> has_edge(bc, b, c))
    &&& forall|b: int, i: int|
        0 <= b < m.len() && 1 <= i < bc[b]@.len() ==> #[trigger] carries(bc, bs, m, b, i)
}

/// Every ballot gives away what it weighs but for what the source still has
/// for it, and every seat draws `t`.
spec fn balanced<W: Weight>(bs: Seq<BallotState<W>>, m: Seq<Seq<real>>, ws: Seq<real>, k: int, t: real) -> bool {
    &&& ws.len() == bs.len()
    &&& forall|b: int|
        0 <= b < bs.len() ==> (#[trigger] bs[b]).edge_flow@[0].value() + sum_of(m[b]) == ws[b]
    &&& forall|c: int| 0 <= c < k ==> sum_of(#[trigger] column(m, c)) == t
}

/// The ballots and their edges are those of the network.
spec fn drawn_from<W: Weight>(
    ballots: Seq<(Vec<usize>, W)>,
    bc: Seq<Vec<(usize, usize)>>,
    ws: Seq<real>,
) -> bool {
    &&& bc.len() == ballots.len()
    &&& ws.len() == ballots.len()
    &&& forall|b: int| 0 <= b < ballots.len() ==> #[trigger] ws[b] == ballots[b].1.value()
    &&& forall|b: int| 0 <= b < ballots.len() ==> (#[trigger] bc[b])@.len() == ballots[b].0@.len() + 1
    &&& forall|b: int, i: int|
        0 <= b < ballots.len() && 0 <= i < ballots[b].0@.len() ==> (#[trigger] bc[b]@[i + 1]).0
            == ballots[b].0@[i]
}

/// What the first `n` ballots give to the chosen seats is at most the weight
/// of those of them that name a chosen seat; it is all of that weight if such a
/// ballot has nothing left at the source and gives nothing to other seats.
proof fn lemma_rows_backing<W: Weight>(
    ballots: Seq<(Vec<usize>, W)>,
    bc: Seq<Vec<(usize, usize)>>,
    bs: Seq<BallotState<W>>,
    m: Seq<Seq<real>>,
    ws: Seq<real>,
    t: real,
    chosen: Seq<bool>,
    n: int,
)
    requires
        states_ok(bc, bs),
        carried(bc, chosen.len() as int, bs, m),
        balanced(bs, m, ws, chosen.len() as int, t),
        drawn_from(ballots, bc, ws),
        0 <= n <= ballots.len(),
    ensures
        picked_rows(m.take(n), chosen, chosen.len() as int) <= backing(ballots.take(n), chosen),
        (forall|b: int|
            0 <= b < n && #[trigger] touches(ballots[b].0@, chosen) ==> bs[b].edge_flow@[0].value()
                == 0real && forall|c: int|
                0 <= c < chosen.len() && !chosen[c] ==> #[trigger] m[b][c] == 0real)
            ==> picked_rows(m.take(n), chosen, chosen.len() as int) == backing(
            ballots.take(n),
            chosen,
        ),
    decreases n,
{
    let k = chosen.len() as int;
    if n > 0 {
        lemma_rows_backing(ballots, bc, bs, m, ws, t, chosen, n - 1);
        let b = n - 1;
        assert(m.take(n).drop_last() =~= m.take(n - 1));
        assert(ballots.take(n).drop_last() =~= ballots.take(n - 1));
        assert(m.take(n).last() == m[b]);
        assert(ballots.take(n).last() == ballots[b]);
        let row = m[b];
        assert(row.len() == k);
        assert forall|c: int| 0 <= c < row.len() implies row[c] >= 0real by {
            assert(m[b][c] >= 0real);
        }
        lemma_picked_bounds(row, chosen, k);
        assert(row.take(k) =~= row);
        assert(ballot_ok(bc, bs, b));
        assert(bs[b].edge_flow@[0].value() + sum_of(m[b]) == ws[b]);
        assert(bc[b]@.len() == ballots[b].0@.len() + 1);
        if !touches(ballots[b].0@, chosen) {
            assert forall|c: int| 0 <= c < k && chosen[c] implies row[c] == 0real by {
                if m[b][c] != 0real {
                    assert(has_edge(bc, b, c));
                    let i = choose|i: int| 1 <= i < bc[b]@.len() && (#[trigger] bc[b]@[i]).0 == c;
                    assert(bc[b]@[(i - 1) + 1].0 == ballots[b].0@[i - 1]);
                    assert(ballots[b].0@[i - 1] < chosen.len() && chosen[ballots[b].0@[i - 1] as int]);
                }
            }
        }
    } else {
        assert(m.take(0) =~= Seq::empty());
        assert(ballots.take(0) =~= Seq::empty());
    }
}

/// With the flows of a balanced table, every choice of seats has ballots to
/// draw `t` for each of them.
proof fn lemma_feasible<W: Weight>(
    ballots: Seq<(Vec<usize>, W)>,
    bc: Seq<Vec<(usize, usize)>>,
    bs: Seq<BallotState<W>>,
    m: Seq<Seq<real>>,
    ws: Seq<real>,
    t: real,
    k: nat,
)
    requires
        states_ok(bc, bs),
        carried(bc, k as int, bs, m),
        balanced(bs, m, ws, k as int, t),
        drawn_from(ballots, bc, ws),
    ensures
        upholds(ballots, k, t),
{
    assert forall|chosen: Seq<bool>| chosen.len() == k implies (size(chosen) as real) * t
        <= #[trigger] backing(ballots, chosen) by {
        lemma_picked_columns_even(m, chosen, k as int, t);
        assert(chosen.take(k as int) =~= chosen);
        lemma_exchange(m, chosen, k as int);
        lemma_rows_backing(ballots, bc, bs, m, ws, t, chosen, ballots.len() as int);
        assert(m.take(ballots.len() as int) =~= m);
        assert(ballots.take(ballots.len() as int) =~= ballots);
    }
}

/// For each ballot its count, if the search reached it through seat `c`.
spec fn child_counts<W: Weight>(
    bc: Seq<Vec<(usize, usize)>>,
    bs: Seq<BallotState<W>>,
    c: int,
) -> Seq<real> {
    Seq::new(
        bs.len(),
        |b: int|
            if bs[b].prev != NONE && bs[b].prev >= 1 && bc[b]@[bs[b].prev as int].0 == c {
                bs[b].count.value()
            } else {
                0real
            },
    )
}

/// For each seat found at position `from` or later that ballot `b` feeds, its
/// count and one more.
spec fn fed_counts<W: Weight>(
    cb: Seq<Vec<(usize, usize)>>,
    cs: Seq<CandidateState<W>>,
    found: Seq<usize>,
    b: int,
    from: int,
) -> Seq<real> {
    Seq::new(
        found.len(),
        |p: int|
            if p >= from && feeder(cb, cs, found[p] as int) == b {
                cs[found[p] as int].count.value() + 1real
            } else {
                0real
            },
    )
}

/// The count of every seat is the sum of the counts of the ballots that were
/// reached through it, and the count of every ballot is the sum, over the seats
/// that it feeds, of their counts and one more.
spec fn counted<W: Weight>(
    bc: Seq<Vec<(usize, usize)>>,
    cb: Seq<Vec<(usize, usize)>>,
    bs: Seq<BallotState<W>>,
    cs: Seq<CandidateState<W>>,
    found: Seq<usize>,
    from: int,
) -> bool {
    &&& forall|c: int|
        0 <= c < cs.len() ==> cs[c].count.value() == sum_of(#[trigger] child_counts(bc, bs, c))
    &&& forall|b: int|
        0 <= b < bs.len() ==> bs[b].count.value() == sum_of(
            #[trigger] fed_counts(cb, cs, found, b, from),
        )
}

/// All counts are zero.
spec fn counts_zero<W: Weight>(bs: Seq<BallotState<W>>, cs: Seq<CandidateState<W>>) -> bool {
    &&& forall|b: int| 0 <= b < bs.len() ==> (#[trigger] bs[b]).count.value() == 0real
    &&& forall|c: int| 0 <= c < cs.len() ==> (#[trigger] cs[c]).count.value() == 0real
}

/// Ballot `b` feeds one of the seats found at position `from` or later.
spec fn feeds<W>(
    cb: Seq<Vec<(usize, usize)>>,
    cs: Seq<CandidateState<W>>,
    found: Seq<usize>,
    b: int,
    from: int,
) -> bool {
    exists|q: int| from <= q < found.len() && #[trigger] feeder(cb, cs, found[q] as int) == b
}

/// Distinct numbers below `m`: at most `m` of them.
proof fn lemma_few(found: Seq<usize>, m: nat)
    requires
        found.no_duplicates(),
        forall|q: int| 0 <= q < found.len() ==> found[q] < m,
    ensures
        found.len() <= m,
    decreases m,
{
    if found.len() > 0 {
        if m == 0 {
            assert(found[0] < m);
        } else if exists|j: int| 0 <= j < found.len() && found[j] == m - 1 {
            let j = choose|j: int| 0 <= j < found.len() && found[j] == m - 1;
            let rest = found.remove(j);
            assert forall|q: int| 0 <= q < rest.len() implies rest[q] < m - 1 by {
                if q < j {
                    assert(rest[q] == found[q]);
                } else {
                    assert(rest[q] == found[q + 1]);
                }
            }
            assert(rest.no_duplicates()) by {
                assert forall|a: int, b: int| 0 <= a < rest.len() && 0 <= b < rest.len() && a
                    != b implies rest[a] != rest[b] by {
                    let a1 = if a < j {
                        a
                    } else {
                        a + 1
                    };
                    let b1 = if b < j {
                        b
                    } else {
                        b + 1
                    };
                    assert(found[a1] != found[b1]);
                }
            }
            lemma_few(rest, (m - 1) as nat);
        } else {
            assert forall|q: int| 0 <= q < found.len() implies found[q] < m - 1 by {
                assert(found[q] < m);
            }
            lemma_few(found, (m - 1) as nat);
        }
    }
}

/// As many distinct numbers below `m` as there are: every one of them.
proof fn lemma_all_found(found: Seq<usize>, m: nat, c: usize)
    requires
        found.no_duplicates(),
        forall|q: int| 0 <= q < found.len() ==> found[q] < m,
        found.len() == m,
        c < m,
    ensures
        found.contains(c),
    decreases m,
{
    if !found.contains(c) {
        // Put `m - 1` where needed so that all are below `m - 1` but `c`, which is missing.
        let other = Seq::new(
            found.len(),
            |q: int|
                if found[q] == m - 1 {
                    c
                } else {
                    found[q]
                },
        );
        assert forall|q: int| 0 <= q < other.len() implies other[q] < m - 1 by {
            assert(found[q] < m);
            assert(found.contains(found[q]));
        }
        assert(other.no_duplicates()) by {
            assert forall|a: int, b: int| 0 <= a < other.len() && 0 <= b < other.len() && a
                != b implies other[a] != other[b] by {
                assert(found[a] != found[b]);
                assert(found.contains(found[a]));
                assert(found.contains(found[b]));
            }
        }
        lemma_few(other, (m - 1) as nat);
    }
}

proof fn lemma_attached_frame<W: Weight>(
    bc: Seq<Vec<(usize, usize)>>,
    cb: Seq<Vec<(usize, usize)>>,
    bs: Seq<BallotState<W>>,
    cs: Seq<CandidateState<W>>,
    bs1: Seq<BallotState<W>>,
    cs1: Seq<CandidateState<W>>,
    c: int,
)
    requires
        wired(bc, cb),
        bs.len() == bc.len(),
        cs.len() == cb.len(),
        same_links(bs, bs1),
        same_seat_links(cs, cs1),
        attached(bc, cb, bs, cs, c),
    ensures
        attached(bc, cb, bs1, cs1, c),
        feeder(cb, cs1, c) == feeder(cb, cs, c),
        0 <= feeder(cb, cs, c) < bs.len(),
{
    let j = cs[c].prev as int;
    assert(backward_ok(bc, cb, c, j));
    let b = cb[c]@[j].0 as int;
    let i = bs[b].prev as int;
    if i >= 1 {
        assert(forward_ok(bc, cb, b, i));
    }
}

proof fn lemma_all_attached<W: Weight>(
    bc: Seq<Vec<(usize, usize)>>,
    cb: Seq<Vec<(usize, usize)>>,
    bs: Seq<BallotState<W>>,
    cs: Seq<CandidateState<W>>,
    bs1: Seq<BallotState<W>>,
    cs1: Seq<CandidateState<W>>,
    found: Seq<usize>,
)
    requires
        wired(bc, cb),
        bs.len() == bc.len(),
        cs.len() == cb.len(),
        same_links(bs, bs1),
        same_seat_links(cs, cs1),
        forall|q: int| 0 <= q < found.len() ==> #[trigger] attached(bc, cb, bs, cs, found[q] as int),
    ensures
        forall|q: int|
            0 <= q < found.len() ==> #[trigger] attached(bc, cb, bs1, cs1, found[q] as int),
        forall|q: int|
            0 <= q < found.len() ==> #[trigger] feeder(cb, cs1, found[q] as int) == feeder(
                cb,
                cs,
                found[q] as int,
            ),
{
    assert forall|q: int| 0 <= q < found.len() implies #[trigger] attached(
        bc,
        cb,
        bs1,
        cs1,
        found[q] as int,
    ) by {
        assert(attached(bc, cb, bs, cs, found[q] as int));
        lemma_attached_frame(bc, cb, bs, cs, bs1, cs1, found[q] as int);
    }
    assert forall|q: int| 0 <= q < found.len() implies #[trigger] feeder(
        cb,
        cs1,
        found[q] as int,
    ) == feeder(cb, cs, found[q] as int) by {
        assert(attached(bc, cb, bs, cs, found[q] as int));
        lemma_attached_frame(bc, cb, bs, cs, bs1, cs1, found[q] as int);
    }
}

/// Along the search tree, from the seats found last to those found first: every
/// seat hands its count and one more to the ballot that feeds it, and that
/// ballot hands it on to the seat through which it was reached.  What reaches
/// the source in this way is one for every seat.
#[verifier::loop_isolation(false)]
fn count_pass<W: Weight>(
    bc: &BallotEdges,
    cb: &SeatEdges,
    bs: &mut Vec<BallotState<W>>,
    cs: &mut Vec<CandidateState<W>>,
    found: &Vec<usize>,
)
    requires
        wired(bc@, cb@),
        states_ok(bc@, old(bs)@),
        seats_ok(cb@, old(cs)@),
        counts_zero(old(bs)@, old(cs)@),
        found@.no_duplicates(),
        found@.len() == cb@.len(),
        level_order(old(cs)@, found@),
        forall|q: int|
            0 <= q < found@.len() ==> #[trigger] attached(
                bc@,
                cb@,
                old(bs)@,
                old(cs)@,
                found@[q] as int,
            ),
    ensures
        states_ok(bc@, final(bs)@),
        seats_ok(cb@, final(cs)@),
        same_links(old(bs)@, final(bs)@),
        same_seat_links(old(cs)@, final(cs)@),
        forall|b: int|
            0 <= b < old(bs)@.len() ==> (#[trigger] final(bs)@[b]).edge_flow == old(bs)@[b].edge_flow,
        forall|q: int|
            0 <= q < found@.len() ==> #[trigger] attached(
                bc@,
                cb@,
                final(bs)@,
                final(cs)@,
                found@[q] as int,
            ),
        forall|q: int|
            0 <= q < found@.len() ==> final(bs)@[#[trigger] feeder(
                cb@,
                final(cs)@,
                found@[q] as int,
            )].count.value() >= 1real,
        forall|b: int|
            0 <= b < final(bs)@.len() && (#[trigger] final(bs)@[b]).count.value() != 0real ==> feeds(
                cb@,
                final(cs)@,
                found@,
                b,
                0,
            ),
        counted(bc@, cb@, final(bs)@, final(cs)@, found@, 0),
{
    let ghost bs0 = bs@;
    let ghost cs0 = cs@;
    let ghost n = found@.len() as int;
    let mut q: usize = found.len();
    proof {
        assert forall|p: int| 0 <= p < n implies (#[trigger] found@[p]) < cb@.len() by {
            assert(attached(bc@, cb@, bs0, cs0, found@[p] as int));
        }
        assert forall|c: int| 0 <= c < cs@.len() implies cs@[c].count.value() == sum_of(
            #[trigger] child_counts(bc@, bs@, c),
        ) by {
            lemma_sum_zero(child_counts(bc@, bs@, c));
        }
        assert forall|b: int| 0 <= b < bs@.len() implies bs@[b].count.value() == sum_of(
            #[trigger] fed_counts(cb@, cs@, found@, b, n),
        ) by {
            lemma_sum_zero(fed_counts(cb@, cs@, found@, b, n));
        }
    }
    while q > 0
        invariant
            q <= found@.len(),
            states_ok(bc@, bs@),
            seats_ok(cb@, cs@),
            same_links(bs0, bs@),
            same_seat_links(cs0, cs@),
            forall|b: int| 0 <= b < bs0.len() ==> (#[trigger] bs@[b]).edge_flow == bs0[b].edge_flow,
            forall|p: int|
                q <= p < found@.len() ==> bs@[#[trigger] feeder(
                    cb@,
                    cs0,
                    found@[p] as int,
                )].count.value() >= 1real,
            counted(bc@, cb@, bs@, cs@, found@, q as int),
            forall|b: int|
                0 <= b < bs@.len() && (#[trigger] bs@[b]).count.value() != 0real ==> feeds(
                    cb@,
                    cs0,
                    found@,
                    b,
                    q as int,
                ),
        decreases q,
    {
        q -= 1;
        let c = found[q];
        proof {
            assert(attached(bc@, cb@, bs0, cs0, c as int));
            lemma_attached_frame(bc@, cb@, bs0, cs0, bs@, cs@, c as int);
        }
        let j = cs[c].prev;
        let b = cb[c][j].0;
        assert(ballot_ok(bc@, bs@, b as int));
        let count = cs[c].count.plus(&W::one());
        let ghost before = bs@;
        bs[b].count = bs[b].count.plus(&count);
        let i1 = bs[b].prev;
        proof {
            assert forall|t: int| 0 <= t < bs@.len() implies #[trigger] ballot_ok(bc@, bs@, t) by {
                assert(ballot_ok(bc@, before, t));
            }
            assert forall|p: int| q <= p < found@.len() implies bs@[#[trigger] feeder(
                cb@,
                cs0,
                found@[p] as int,
            )].count.value() >= 1real by {
                let f = feeder(cb@, cs0, found@[p] as int);
                if p > q {
                    assert(before[f].count.value() >= 1real);
                    assert(attached(bc@, cb@, bs0, cs0, found@[p] as int));
                    lemma_attached_frame(bc@, cb@, bs0, cs0, bs@, cs@, found@[p] as int);
                }
            }
            assert forall|t: int|
                0 <= t < bs@.len() && (#[trigger] bs@[t]).count.value() != 0real implies feeds(
                cb@,
                cs0,
                found@,
                t,
                q as int,
            ) by {
                if t == b {
                    assert(feeder(cb@, cs0, found@[q as int] as int) == b);
                } else {
                    assert(before[t].count.value() != 0real);
                    let p = choose|p: int|
                        q + 1 <= p < found@.len() && #[trigger] feeder(cb@, cs0, found@[p] as int)
                            == t;
                    assert(q <= p < found@.len() && feeder(cb@, cs0, found@[p] as int) == t);
                }
            }
            // The ballot has counted one more of the seats that it feeds.
            assert forall|t: int| 0 <= t < bs@.len() implies bs@[t].count.value() == sum_of(
                #[trigger] fed_counts(cb@, cs@, found@, t, q as int),
            ) by {
                let later = fed_counts(cb@, cs@, found@, t, q + 1);
                assert(before[t].count.value() == sum_of(later));
                if t == b {
                    assert(fed_counts(cb@, cs@, found@, t, q as int) =~= later.update(
                        q as int,
                        cs@[c as int].count.value() + 1real,
                    ));
                    lemma_sum_update(later, q as int, cs@[c as int].count.value() + 1real);
                } else {
                    assert(fed_counts(cb@, cs@, found@, t, q as int) =~= later);
                }
            }
            if i1 == 0 {
                assert forall|e: int| 0 <= e < cs@.len() implies cs@[e].count.value() == sum_of(
                    #[trigger] child_counts(bc@, bs@, e),
                ) by {
                    assert(cs@[e].count.value() == sum_of(child_counts(bc@, before, e)));
                    assert(child_counts(bc@, bs@, e) =~= child_counts(bc@, before, e));
                }
            }
        }
        if i1 != 0 {
            assert(forward_ok(bc@, cb@, b as int, i1 as int));
            let c1 = bc[b][i1].0;
            let ghost cs_before = cs@;
            cs[c1].count = cs[c1].count.plus(&count);
            proof {
                // The seat through which the ballot was reached was found earlier.
                lemma_all_found(found@, cb@.len(), c1);
                let q1 = choose|q1: int| 0 <= q1 < found@.len() && found@[q1] == c1;
                if q1 > q {
                    assert(cs0[found@[q as int] as int].level <= cs0[found@[q1] as int].level);
                }
                assert(q1 < q);
                vstd::std_specs::vec::axiom_spec_len(&bc@[b as int]);
                assert forall|e: int| 0 <= e < cs@.len() implies cs@[e].count.value() == sum_of(
                    #[trigger] child_counts(bc@, bs@, e),
                ) by {
                    assert(cs_before[e].count.value() == sum_of(child_counts(bc@, before, e)));
                    if e == c1 {
                        assert(child_counts(bc@, bs@, e) =~= child_counts(bc@, before, e).update(
                            b as int,
                            before[b as int].count.value() + count.value(),
                        ));
                        lemma_sum_update(
                            child_counts(bc@, before, e),
                            b as int,
                            before[b as int].count.value() + count.value(),
                        );
                    } else {
                        assert(child_counts(bc@, bs@, e) =~= child_counts(bc@, before, e));
                    }
                }
                assert forall|t: int| 0 <= t < bs@.len() implies bs@[t].count.value() == sum_of(
                    #[trigger] fed_counts(cb@, cs@, found@, t, q as int),
                ) by {
                    assert(bs@[t].count.value() == sum_of(
                        fed_counts(cb@, cs_before, found@, t, q as int),
                    ));
                    assert(fed_counts(cb@, cs@, found@, t, q as int) =~= fed_counts(
                        cb@,
                        cs_before,
                        found@,
                        t,
                        q as int,
                    )) by {
                        assert forall|p: int| 0 <= p < found@.len() implies #[trigger] fed_counts(
                            cb@,
                            cs@,
                            found@,
                            t,
                            q as int,
                        )[p] == fed_counts(cb@, cs_before, found@, t, q as int)[p] by {
                            if p >= q {
                                assert(found@[p] != found@[q1]);
                            }
                        }
                    }
                }
            }
        }
    }
    proof {
        lemma_all_attached(bc@, cb@, bs0, cs0, bs@, cs@, found@);
        assert forall|p: int| 0 <= p < found@.len() implies bs@[#[trigger] feeder(
            cb@,
            cs@,
            found@[p] as int,
        )].count.value() >= 1real by {
            assert(feeder(cb@, cs@, found@[p] as int) == feeder(cb@, cs0, found@[p] as int));
        }
        assert forall|t: int|
            0 <= t < bs@.len() && (#[trigger] bs@[t]).count.value() != 0real implies feeds(
            cb@,
            cs@,
            found@,
            t,
            0,
        ) by {
            let p = choose|p: int|
                0 <= p < found@.len() && #[trigger] feeder(cb@, cs0, found@[p] as int) == t;
            assert(feeder(cb@, cs@, found@[p] as int) == feeder(cb@, cs0, found@[p] as int));
        }
    }
}

proof fn lemma_quotient(e: real, n: real)
    requires
        e >= 0real,
        n >= 1real,
    ensures
        (e / n) * n == e,
        e / n >= 0real,
{
    assert((e / n) * n == e) by (nonlinear_arith)
        requires
            n >= 1real,
    ;
    assert(e / n >= 0real) by (nonlinear_arith)
        requires
            e >= 0real,
            n >= 1real,
    ;
}

proof fn lemma_scale(a: real, b: real, n: real)
    requires
        a <= b,
        n >= 0real,
    ensures
        a * n <= b * n,
{
    assert(a * n <= b * n) by (nonlinear_arith)
        requires
            a <= b,
            n >= 0real,
    ;
}

proof fn lemma_product_nonnegative(a: real, b: real)
    requires
        a >= 0real,
        b >= 0real,
    ensures
        a * b >= 0real,
{
    assert(a * b >= 0real) by (nonlinear_arith)
        requires
            a >= 0real,
            b >= 0real,
    ;
}

/// The feeder of the seat at position `q` can pass on `flow` for each of the
/// seats that it counts.
spec fn covered<W: Weight>(
    cb: Seq<Vec<(usize, usize)>>,
    bs: Seq<BallotState<W>>,
    cs: Seq<CandidateState<W>>,
    flow: real,
    c: int,
) -> bool {
    let b = feeder(cb, cs, c);
    bs[b].count.value() != 0real ==> flow * bs[b].count.value() <= feeder_flow(cb, bs, cs, c)
}

/// The feeder of seat `c` passes on exactly what it has, or has nothing left.
spec fn tight<W: Weight>(
    cb: Seq<Vec<(usize, usize)>>,
    bs: Seq<BallotState<W>>,
    cs: Seq<CandidateState<W>>,
    flow: real,
    c: int,
) -> bool {
    let b = feeder(cb, cs, c);
    ||| bs[b].count.value() != 0real && flow * bs[b].count.value() == feeder_flow(cb, bs, cs, c)
    ||| feeder_flow(cb, bs, cs, c) == 0real
}

/// The largest amount that every feeder can pass on for each seat it counts.
#[verifier::loop_isolation(false)]
fn bottleneck<W: Weight>(
    bc: &BallotEdges,
    cb: &SeatEdges,
    bs: &Vec<BallotState<W>>,
    cs: &Vec<CandidateState<W>>,
    found: &Vec<usize>,
) -> (r: (W, Ghost<int>))
    requires
        wired(bc@, cb@),
        states_ok(bc@, bs@),
        seats_ok(cb@, cs@),
        found@.len() >= 1,
        forall|q: int|
            0 <= q < found@.len() ==> #[trigger] attached(bc@, cb@, bs@, cs@, found@[q] as int),
        forall|q: int|
            0 <= q < found@.len() ==> bs@[#[trigger] feeder(
                cb@,
                cs@,
                found@[q] as int,
            )].count.value() >= 1real,
    ensures
        r.0.value() >= 0real,
        0 <= r.1@ < found@.len(),
        tight(cb@, bs@, cs@, r.0.value(), found@[r.1@] as int),
        forall|q: int|
            0 <= q < found@.len() ==> #[trigger] covered(
                cb@,
                bs@,
                cs@,
                r.0.value(),
                found@[q] as int,
            ),
{
    let mut best: Option<W> = None;
    let ghost mut at: int = 0;
    let mut q: usize = 0;
    while q < found.len()
        invariant
            q <= found@.len(),
            (q == 0) == (best is None),
            best matches Some(w) ==> {
                &&& w.value() >= 0real
                &&& 0 <= at < q
                &&& tight(cb@, bs@, cs@, w.value(), found@[at] as int)
                &&& forall|p: int|
                    0 <= p < q ==> #[trigger] covered(cb@, bs@, cs@, w.value(), found@[p] as int)
            },
        decreases found@.len() - q,
    {
        let c = found[q];
        proof {
            assert(attached(bc@, cb@, bs@, cs@, c as int));
            lemma_attached_frame(bc@, cb@, bs@, cs@, bs@, cs@, c as int);
        }
        let j = cs[c].prev;
        let b = cb[c][j].0;
        assert(ballot_ok(bc@, bs@, b as int));
        assert(bs@[feeder(cb@, cs@, found@[q as int] as int)].count.value() >= 1real);
        let ratio = bs[b].edge_flow[bs[b].prev].over(&bs[b].count);
        proof {
            lemma_quotient(feeder_flow(cb@, bs@, cs@, c as int), bs@[b as int].count.value());
        }
        let better = match &best {
            None => true,
            Some(w) => ratio.less_than(w),
        };
        if better {
            proof {
                if let Some(w) = best {
                    assert forall|p: int| 0 <= p < q implies #[trigger] covered(
                        cb@,
                        bs@,
                        cs@,
                        ratio.value(),
                        found@[p] as int,
                    ) by {
                        let f = feeder(cb@, cs@, found@[p] as int);
                        assert(covered(cb@, bs@, cs@, w.value(), found@[p] as int));
                        assert(bs@[f].count.value() >= 1real);
                        lemma_scale(ratio.value(), w.value(), bs@[f].count.value());
                    }
                }
                at = q as int;
            }
            best = Some(ratio);
        } else {
            proof {
                let w = best->Some_0;
                lemma_scale(w.value(), ratio.value(), bs@[b as int].count.value());
            }
        }
        q += 1;
    }
    match best {
        Some(w) => (w, Ghost(at)),
        None => (W::zero(), Ghost(0)),
    }
}

/// What seat `found[p]` draws, with what is still to come to it and to go
/// from it when the seats from position `q` on have not been served yet.
spec fn seat_due<W: Weight>(
    bc: Seq<Vec<(usize, usize)>>,
    bs: Seq<BallotState<W>>,
    cs: Seq<CandidateState<W>>,
    found: Seq<usize>,
    m: Seq<Seq<real>>,
    f: real,
    p: int,
    q: int,
) -> real {
    let c = found[p] as int;
    sum_of(column(m, c)) - f * sum_of(child_counts(bc, bs, c)) + f * cs[c].count.value() + if p
        >= q {
        f
    } else {
        0real
    }
}

/// What ballot `b` has and gives, with what is still to go from it and to be
/// taken from it when the seats from position `q` on have not been served yet.
spec fn ballot_due<W: Weight>(
    cb: Seq<Vec<(usize, usize)>>,
    bs: Seq<BallotState<W>>,
    cs: Seq<CandidateState<W>>,
    found: Seq<usize>,
    m: Seq<Seq<real>>,
    f: real,
    b: int,
    q: int,
) -> real {
    bs[b].edge_flow@[0].value() + sum_of(m[b]) + f * sum_of(fed_counts(cb, cs, found, b, q)) - f
        * bs[b].count.value()
}

proof fn lemma_times(f: real, a: real, b: real)
    ensures
        f * (a + b) == f * a + f * b,
        f * (a - b) == f * a - f * b,
{
    assert(f * (a + b) == f * a + f * b) by (nonlinear_arith);
    assert(f * (a - b) == f * a - f * b) by (nonlinear_arith);
}

/// The table with `add` more from ballot `b` to seat `c`.
spec fn raised(m: Seq<Seq<real>>, b: int, c: int, add: real) -> Seq<Seq<real>> {
    m.update(b, m[b].update(c, m[b][c] + add))
}

proof fn lemma_raised(m: Seq<Seq<real>>, k: int, b: int, c: int, add: real)
    requires
        0 <= b < m.len(),
        0 <= c < k,
        forall|r: int| 0 <= r < m.len() ==> (#[trigger] m[r]).len() == k,
    ensures
        raised(m, b, c, add).len() == m.len(),
        forall|r: int| 0 <= r < m.len() ==> (#[trigger] raised(m, b, c, add)[r]).len() == k,
        sum_of(raised(m, b, c, add)[b]) == sum_of(m[b]) + add,
        sum_of(column(raised(m, b, c, add), c)) == sum_of(column(m, c)) + add,
        forall|e: int| 0 <= e < k && e != c ==> #[trigger] column(raised(m, b, c, add), e) == column(m, e),
        forall|r: int| 0 <= r < m.len() && r != b ==> #[trigger] raised(m, b, c, add)[r] == m[r],
{
    let m1 = raised(m, b, c, add);
    lemma_sum_update(m[b], c, m[b][c] + add);
    assert(column(m1, c) =~= column(m, c).update(b, m[b][c] + add));
    lemma_sum_update(column(m, c), b, m[b][c] + add);
    assert forall|e: int| 0 <= e < k && e != c implies #[trigger] column(m1, e) == column(m, e) by {
        assert(column(m1, e) =~= column(m, e));
    }
}

/// The states `z` are the states `a` but for edge `i` of ballot `b`, which
/// carries `by` more.
spec fn edge_moved<W: Weight>(
    a: Seq<BallotState<W>>,
    z: Seq<BallotState<W>>,
    b: int,
    i: int,
    by: real,
) -> bool {
    &&& z.len() == a.len()
    &&& forall|r: int| 0 <= r < a.len() && r != b ==> #[trigger] z[r] == a[r]
    &&& z[b].prev == a[b].prev
    &&& z[b].edge_flow@.len() == a[b].edge_flow@.len()
    &&& forall|x: int|
        0 <= x < a[b].edge_flow@.len() && x != i ==> (#[trigger] z[b].edge_flow@[x])
            == a[b].edge_flow@[x]
    &&& z[b].edge_flow@[i].value() == a[b].edge_flow@[i].value() + by
}

/// What the seats and the ballots are due after the edge from ballot `b` into
/// seat `c` has taken the share of the seat.
proof fn lemma_give<W: Weight>(
    bc: Seq<Vec<(usize, usize)>>,
    cb: Seq<Vec<(usize, usize)>>,
    a: Seq<BallotState<W>>,
    z: Seq<BallotState<W>>,
    cs: Seq<CandidateState<W>>,
    found: Seq<usize>,
    m: Seq<Seq<real>>,
    f: real,
    q: int,
    b: int,
    i: int,
    share: real,
)
    requires
        distinct_seats(bc),
        seats_below(bc, cb.len() as int),
        a.len() == bc.len(),
        forall|r: int| 0 <= r < a.len() ==> (#[trigger] a[r]).edge_flow@.len() == bc[r]@.len(),
        carried(bc, cb.len() as int, a, m),
        0 <= b < a.len(),
        1 <= i < bc[b]@.len(),
        bc[b]@[i].0 < cb.len(),
        share >= 0real,
        edge_moved(a, z, b, i, share),
        z[b].count == a[b].count,
        forall|p: int| 0 <= p < found.len() ==> (#[trigger] found[p]) < cb.len(),
    ensures
        carried(bc, cb.len() as int, z, raised(m, b, bc[b]@[i].0 as int, share)),
        forall|p: int|
            0 <= p < found.len() ==> #[trigger] seat_due(
                bc,
                z,
                cs,
                found,
                raised(m, b, bc[b]@[i].0 as int, share),
                f,
                p,
                q,
            ) == seat_due(bc, a, cs, found, m, f, p, q) + if found[p] == bc[b]@[i].0 {
                share
            } else {
                0real
            },
        forall|r: int|
            0 <= r < a.len() ==> #[trigger] ballot_due(
                cb,
                z,
                cs,
                found,
                raised(m, b, bc[b]@[i].0 as int, share),
                f,
                r,
                q,
            ) == ballot_due(cb, a, cs, found, m, f, r, q) + if r == b {
                share
            } else {
                0real
            },
{
    let k = cb.len() as int;
    let c = bc[b]@[i].0 as int;
    let m1 = raised(m, b, c, share);
    lemma_raised(m, k, b, c, share);
    assert(carries(bc, a, m, b, i));
    assert forall|r: int, e: int| 0 <= r < m1.len() && 0 <= e < k implies (#[trigger] m1[r][e])
        >= 0real && (m1[r][e] != 0real ==> has_edge(bc, r, e)) by {
        assert(m[r][e] >= 0real);
    }
    assert forall|r: int, x: int| 0 <= r < m1.len() && 1 <= x < bc[r]@.len() implies #[trigger] carries(
        bc,
        z,
        m1,
        r,
        x,
    ) by {
        assert(carries(bc, a, m, r, x));
        if r == b && x != i {
            if x < i {
                assert(bc[r]@[x].0 != bc[r]@[i].0);
            } else {
                assert(bc[r]@[i].0 != bc[r]@[x].0);
            }
        }
    }
    assert forall|p: int| 0 <= p < found.len() implies #[trigger] seat_due(
        bc,
        z,
        cs,
        found,
        m1,
        f,
        p,
        q,
    ) == seat_due(bc, a, cs, found, m, f, p, q) + if found[p] == bc[b]@[i].0 {
        share
    } else {
        0real
    } by {
        let e = found[p] as int;
        assert(child_counts(bc, z, e) =~= child_counts(bc, a, e));
        if e != c {
            assert(column(m1, e) == column(m, e));
        }
    }
    assert forall|r: int| 0 <= r < a.len() implies #[trigger] ballot_due(
        cb,
        z,
        cs,
        found,
        m1,
        f,
        r,
        q,
    ) == ballot_due(cb, a, cs, found, m, f, r, q) + if r == b {
        share
    } else {
        0real
    } by {
        if r != b {
            assert(m1[r] == m[r]);
        }
    }
}

/// What the seats and the ballots are due after ballot `b` has given up, on
/// the edge through which it was reached, what it passes on.
proof fn lemma_take<W: Weight>(
    bc: Seq<Vec<(usize, usize)>>,
    cb: Seq<Vec<(usize, usize)>>,
    a: Seq<BallotState<W>>,
    z: Seq<BallotState<W>>,
    cs: Seq<CandidateState<W>>,
    found: Seq<usize>,
    m: Seq<Seq<real>>,
    f: real,
    q: int,
    b: int,
) -> (m1: Seq<Seq<real>>)
    requires
        distinct_seats(bc),
        seats_below(bc, cb.len() as int),
        a.len() == bc.len(),
        forall|r: int| 0 <= r < a.len() ==> (#[trigger] a[r]).edge_flow@.len() == bc[r]@.len(),
        carried(bc, cb.len() as int, a, m),
        0 <= b < a.len(),
        a[b].prev < bc[b]@.len(),
        a[b].prev != NONE,
        a[b].prev >= 1 ==> bc[b]@[a[b].prev as int].0 < cb.len(),
        edge_moved(a, z, b, a[b].prev as int, -(f * a[b].count.value())),
        z[b].edge_flow@[a[b].prev as int].value() >= 0real,
        z[b].count.value() == 0real,
        forall|p: int| 0 <= p < found.len() ==> (#[trigger] found[p]) < cb.len(),
    ensures
        carried(bc, cb.len() as int, z, m1),
        forall|p: int|
            0 <= p < found.len() ==> #[trigger] seat_due(bc, z, cs, found, m1, f, p, q) == seat_due(
                bc,
                a,
                cs,
                found,
                m,
                f,
                p,
                q,
            ),
        forall|r: int|
            0 <= r < a.len() ==> #[trigger] ballot_due(cb, z, cs, found, m1, f, r, q) == ballot_due(
                cb,
                a,
                cs,
                found,
                m,
                f,
                r,
                q,
            ),
{
    let k = cb.len() as int;
    let k0 = a[b].prev as int;
    let n = a[b].count.value();
    if k0 == 0 {
        assert forall|r: int, x: int| 0 <= r < m.len() && 1 <= x < bc[r]@.len() implies #[trigger] carries(
            bc,
            z,
            m,
            r,
            x,
        ) by {
            assert(carries(bc, a, m, r, x));
        }
        assert forall|p: int| 0 <= p < found.len() implies #[trigger] seat_due(
            bc,
            z,
            cs,
            found,
            m,
            f,
            p,
            q,
        ) == seat_due(bc, a, cs, found, m, f, p, q) by {
            assert(child_counts(bc, z, found[p] as int) =~= child_counts(bc, a, found[p] as int));
        }
        assert forall|r: int| 0 <= r < a.len() implies #[trigger] ballot_due(
            cb,
            z,
            cs,
            found,
            m,
            f,
            r,
            q,
        ) == ballot_due(cb, a, cs, found, m, f, r, q) by {
            assert(f * 0real == 0real) by (nonlinear_arith);
        }
        m
    } else {
        let c1 = bc[b]@[k0].0 as int;
        let m1 = raised(m, b, c1, -(f * n));
        lemma_raised(m, k, b, c1, -(f * n));
        assert(carries(bc, a, m, b, k0));
        assert forall|r: int, e: int| 0 <= r < m1.len() && 0 <= e < k implies (#[trigger] m1[r][e])
            >= 0real && (m1[r][e] != 0real ==> has_edge(bc, r, e)) by {
            assert(m[r][e] >= 0real);
            if r == b && e == c1 {
                assert(bc[b]@[k0].0 == c1);
            }
        }
        assert forall|r: int, x: int|
            0 <= r < m1.len() && 1 <= x < bc[r]@.len() implies #[trigger] carries(bc, z, m1, r, x) by {
            assert(carries(bc, a, m, r, x));
            if r == b && x != k0 {
                if x < k0 {
                    assert(bc[r]@[x].0 != bc[r]@[k0].0);
                } else {
                    assert(bc[r]@[k0].0 != bc[r]@[x].0);
                }
            }
        }
        assert forall|p: int| 0 <= p < found.len() implies #[trigger] seat_due(
            bc,
            z,
            cs,
            found,
            m1,
            f,
            p,
            q,
        ) == seat_due(bc, a, cs, found, m, f, p, q) by {
            let e = found[p] as int;
            let kids = child_counts(bc, a, e);
            if e == c1 {
                assert(child_counts(bc, z, e) =~= kids.update(b, 0real));
                lemma_sum_update(kids, b, 0real);
                lemma_times(f, sum_of(kids), n);
            } else {
                assert(child_counts(bc, z, e) =~= kids);
                assert(column(m1, e) == column(m, e));
            }
        }
        assert forall|r: int| 0 <= r < a.len() implies #[trigger] ballot_due(
            cb,
            z,
            cs,
            found,
            m1,
            f,
            r,
            q,
        ) == ballot_due(cb, a, cs, found, m, f, r, q) by {
            assert(f * 0real == 0real) by (nonlinear_arith);
            if r != b {
                assert(m1[r] == m[r]);
            }
        }
        m1
    }
}

/// What the seats and the ballots are due after the seat at position `q` has
/// been served and its count is zero again.
proof fn lemma_served<W: Weight>(
    bc: Seq<Vec<(usize, usize)>>,
    cb: Seq<Vec<(usize, usize)>>,
    bs: Seq<BallotState<W>>,
    cs: Seq<CandidateState<W>>,
    cs1: Seq<CandidateState<W>>,
    found: Seq<usize>,
    m: Seq<Seq<real>>,
    f: real,
    q: int,
)
    requires
        found.no_duplicates(),
        0 <= q < found.len(),
        forall|p: int| 0 <= p < found.len() ==> (#[trigger] found[p]) < cs.len(),
        cs1.len() == cs.len(),
        forall|c: int| 0 <= c < cs.len() && c != found[q] ==> #[trigger] cs1[c] == cs[c],
        cs1[found[q] as int].prev == cs[found[q] as int].prev,
        cs1[found[q] as int].count.value() == 0real,
    ensures
        forall|p: int|
            0 <= p < found.len() ==> #[trigger] seat_due(bc, bs, cs1, found, m, f, p, q + 1)
                == seat_due(bc, bs, cs, found, m, f, p, q) - if p == q {
                f * (cs[found[q] as int].count.value() + 1real)
            } else {
                0real
            },
        forall|r: int|
            0 <= r < bs.len() ==> #[trigger] ballot_due(cb, bs, cs1, found, m, f, r, q + 1)
                == ballot_due(cb, bs, cs, found, m, f, r, q) - if r == feeder(
                cb,
                cs,
                found[q] as int,
            ) {
                f * (cs[found[q] as int].count.value() + 1real)
            } else {
                0real
            },
{
    let c = found[q] as int;
    let cnt = cs[c].count.value();
    lemma_times(f, cnt, 1real);
    assert(f * 0real == 0real) by (nonlinear_arith);
    assert forall|p: int| 0 <= p < found.len() implies #[trigger] seat_due(
        bc,
        bs,
        cs1,
        found,
        m,
        f,
        p,
        q + 1,
    ) == seat_due(bc, bs, cs, found, m, f, p, q) - if p == q {
        f * (cnt + 1real)
    } else {
        0real
    } by {
        if p != q {
            assert(found[p] != found[q]);
        }
    }
    assert forall|r: int| 0 <= r < bs.len() implies #[trigger] ballot_due(
        cb,
        bs,
        cs1,
        found,
        m,
        f,
        r,
        q + 1,
    ) == ballot_due(cb, bs, cs, found, m, f, r, q) - if r == feeder(cb, cs, c) {
        f * (cnt + 1real)
    } else {
        0real
    } by {
        let fed = fed_counts(cb, cs, found, r, q);
        let fed1 = fed_counts(cb, cs1, found, r, q + 1);
        assert forall|p: int| 0 <= p < found.len() implies fed1[p] == fed.update(q, 0real)[p] by {
            if p != q {
                assert(found[p] != found[q]);
            }
        }
        assert(fed1 =~= fed.update(q, 0real));
        lemma_sum_update(fed, q, 0real);
        lemma_times(f, sum_of(fed), cnt + 1real);
    }
}

/// If edge `i` of ballot `b` carries something now and carried nothing before,
/// it leads from the ballot up to a seat of a higher level.
spec fn rose<W: Weight>(
    bc: Seq<Vec<(usize, usize)>>,
    bs0: Seq<BallotState<W>>,
    bs: Seq<BallotState<W>>,
    cs0: Seq<CandidateState<W>>,
    b: int,
    i: int,
) -> bool {
    bs[b].edge_flow@[i].value() != 0real ==> bs0[b].edge_flow@[i].value() != 0real || (i >= 1
        && bs0[b].prev != NONE && bs0[b].level < cs0[bc[b]@[i].0 as int].level)
}

/// Push `flow` more into every seat: the edge into each seat grows by the
/// seat's share and what it passes on, and each feeder gives up as much on the
/// edge through which it was reached.  All counts return to zero.
#[verifier::loop_isolation(false)]
fn augment<W: Weight>(
    bc: &BallotEdges,
    cb: &SeatEdges,
    bs: &mut Vec<BallotState<W>>,
    cs: &mut Vec<CandidateState<W>>,
    found: &Vec<usize>,
    flow: &W,
    Ghost(at): Ghost<int>,
    Ghost(m0): Ghost<Seq<Seq<real>>>,
    Ghost(ws): Ghost<Seq<real>>,
    Ghost(t0): Ghost<real>,
) -> (table: Ghost<Seq<Seq<real>>>)
    requires
        wired(bc@, cb@),
        distinct_seats(bc@),
        states_ok(bc@, old(bs)@),
        seats_ok(cb@, old(cs)@),
        flow.value() >= 0real,
        0 <= at < found@.len(),
        forall|q: int|
            0 <= q < found@.len() ==> #[trigger] attached(
                bc@,
                cb@,
                old(bs)@,
                old(cs)@,
                found@[q] as int,
            ),
        forall|q: int|
            0 <= q < found@.len() ==> #[trigger] covered(
                cb@,
                old(bs)@,
                old(cs)@,
                flow.value(),
                found@[q] as int,
            ),
        tight(cb@, old(bs)@, old(cs)@, flow.value(), found@[at] as int),
        found@.no_duplicates(),
        found@.len() == cb@.len(),
        forall|b: int|
            0 <= b < old(bs)@.len() && (#[trigger] old(bs)@[b]).count.value() != 0real ==> feeds(
                cb@,
                old(cs)@,
                found@,
                b,
                0,
            ),
        counted(bc@, cb@, old(bs)@, old(cs)@, found@, 0),
        carried(bc@, cb@.len() as int, old(bs)@, m0),
        balanced(old(bs)@, m0, ws, cb@.len() as int, t0),
    ensures
        states_ok(bc@, final(bs)@),
        seats_ok(cb@, final(cs)@),
        same_links(old(bs)@, final(bs)@),
        same_seat_links(old(cs)@, final(cs)@),
        counts_zero(final(bs)@, final(cs)@),
        forall|q: int|
            0 <= q < found@.len() ==> #[trigger] attached(
                bc@,
                cb@,
                final(bs)@,
                final(cs)@,
                found@[q] as int,
            ),
        feeder_flow(cb@, final(bs)@, final(cs)@, found@[at] as int) == 0real,
        carried(bc@, cb@.len() as int, final(bs)@, table@),
        balanced(final(bs)@, table@, ws, cb@.len() as int, t0 + flow.value()),
        forall|b: int, i: int|
            0 <= b < bc@.len() && 0 <= i < bc@[b]@.len() ==> #[trigger] rose(
                bc@,
                old(bs)@,
                final(bs)@,
                old(cs)@,
                b,
                i,
            ),
{
    let ghost bs0 = bs@;
    let ghost cs0 = cs@;
    let ghost f = flow.value();
    let ghost k = cb@.len() as int;
    let ghost len = found@.len() as int;
    let ghost due = t0 + f;
    let ghost mut m = m0;
    let mut q: usize = 0;
    proof {
        assert(seats_below(bc@, k)) by {
            assert forall|r: int, x: int| 0 <= r < bc@.len() && 1 <= x < bc@[r]@.len() implies (
            #[trigger] bc@[r]@[x]).0 < k by {
                assert(forward_ok(bc@, cb@, r, x));
            }
        }
        assert forall|p: int| 0 <= p < found@.len() implies (#[trigger] found@[p]) < cb@.len() by {
            assert(attached(bc@, cb@, bs0, cs0, found@[p] as int));
        }
        assert forall|p: int| 0 <= p < len implies #[trigger] seat_due(
            bc@,
            bs@,
            cs@,
            found@,
            m,
            f,
            p,
            0,
        ) == due by {
            let c = found@[p] as int;
            assert(cs@[c].count.value() == sum_of(child_counts(bc@, bs@, c)));
            assert(sum_of(column(m, c)) == t0);
        }
        assert forall|b: int| 0 <= b < bs@.len() implies #[trigger] ballot_due(
            cb@,
            bs@,
            cs@,
            found@,
            m,
            f,
            b,
            0,
        ) == ws[b] by {
            assert(bs@[b].count.value() == sum_of(fed_counts(cb@, cs@, found@, b, 0)));
            assert(bs@[b].edge_flow@[0].value() + sum_of(m[b]) == ws[b]);
        }
    }
    while q < found.len()
        invariant
            q <= found@.len(),
            states_ok(bc@, bs@),
            seats_ok(cb@, cs@),
            same_links(bs0, bs@),
            same_seat_links(cs0, cs@),
            forall|p: int|
                0 <= p < found@.len() ==> #[trigger] covered(cb@, bs@, cs@, f, found@[p] as int),
            tight(cb@, bs@, cs@, f, found@[at] as int),
            q > at ==> bs@[feeder(cb@, cs0, found@[at] as int)].count.value() == 0real,
            forall|t: int|
                0 <= t < bs@.len() && (#[trigger] bs@[t]).count.value() != 0real ==> feeds(
                    cb@,
                    cs0,
                    found@,
                    t,
                    q as int,
                ),
            forall|p: int| 0 <= p < q ==> cs@[#[trigger] found@[p] as int].count.value() == 0real,
            carried(bc@, k, bs@, m),
            forall|p: int|
                0 <= p < len ==> #[trigger] seat_due(bc@, bs@, cs@, found@, m, f, p, q as int) == due,
            forall|b: int|
                0 <= b < bs@.len() ==> #[trigger] ballot_due(cb@, bs@, cs@, found@, m, f, b, q as int)
                    == ws[b],
            forall|b: int, i: int|
                0 <= b < bc@.len() && 0 <= i < bc@[b]@.len() ==> #[trigger] rose(
                    bc@,
                    bs0,
                    bs@,
                    cs0,
                    b,
                    i,
                ),
        decreases found@.len() - q,
    {
        let c = found[q];
        proof {
            assert(attached(bc@, cb@, bs0, cs0, c as int));
            lemma_attached_frame(bc@, cb@, bs0, cs0, bs@, cs@, c as int);
            assert(attached(bc@, cb@, bs0, cs0, found@[at] as int));
            lemma_attached_frame(bc@, cb@, bs0, cs0, bs@, cs@, found@[at] as int);
            assert(covered(cb@, bs@, cs@, f, c as int));
        }
        let j = cs[c].prev;
        let (b, i) = cb[c][j];
        let ghost i1 = bs@[b as int].prev as int;
        proof {
            assert(backward_ok(bc@, cb@, c as int, j as int));
            assert(ballot_ok(bc@, bs@, b as int));
            // The edge into the seat is not the edge through which its feeder was reached.
            assert(i != i1);
            lemma_product_nonnegative(f, cs@[c as int].count.value() + 1real);
            lemma_product_nonnegative(f, bs@[b as int].count.value());
            vstd::std_specs::vec::axiom_spec_len(&bc@[b as int]);
        }
        let ghost b0 = feeder(cb@, cs0, found@[at] as int);
        let ghost before = bs@;
        let ghost cs_before = cs@;
        let ghost m_before = m;
        let share = flow.times(&cs[c].count.plus(&W::one()));
        let grown = bs[b].edge_flow[i].plus(&share);
        bs[b].edge_flow[i] = grown;
        let ghost middle = bs@;
        proof {
            assert(edge_moved(before, middle, b as int, i as int, share.value()));
            assert forall|r: int| 0 <= r < before.len() implies (#[trigger] before[r]).edge_flow@.len()
                == bc@[r]@.len() by {
                assert(ballot_ok(bc@, before, r));
            }
            lemma_give(
                bc@,
                cb@,
                before,
                middle,
                cs@,
                found@,
                m_before,
                f,
                q as int,
                b as int,
                i as int,
                share.value(),
            );
            m = raised(m_before, b as int, c as int, share.value());
        }
        let ghost m_middle = m;
        if !bs[b].count.is_zero() {
            let given = flow.times(&bs[b].count);
            let k0 = bs[b].prev;
            let left = bs[b].edge_flow[k0].minus(&given);
            bs[b].edge_flow[k0] = left;
            bs[b].count = W::zero();
            proof {
                assert(edge_moved(
                    middle,
                    bs@,
                    b as int,
                    k0 as int,
                    -(f * middle[b as int].count.value()),
                ));
                if k0 >= 1 {
                    assert(forward_ok(bc@, cb@, b as int, k0 as int));
                }
                assert forall|r: int| 0 <= r < middle.len() implies (
                #[trigger] middle[r]).edge_flow@.len() == bc@[r]@.len() by {
                    assert(ballot_ok(bc@, before, r));
                }
                m = lemma_take(bc@, cb@, middle, bs@, cs@, found@, m_middle, f, q as int, b as int);
            }
        }
        let ghost after = bs@;
        cs[c].count = W::zero();
        proof {
            assert forall|r: int, x: int| 0 <= r < bc@.len() && 0 <= x < bc@[r]@.len() implies #[trigger] rose(
                bc@,
                bs0,
                bs@,
                cs0,
                r,
                x,
            ) by {
                assert(rose(bc@, bs0, before, cs0, r, x));
                assert(ballot_ok(bc@, before, r));
                assert(ballot_ok(bc@, after, r));
                if r == b {
                    assert(attached(bc@, cb@, bs0, cs0, c as int));
                    assert(bs0[b as int].prev == before[b as int].prev);
                    assert(bs0[b as int].level == before[b as int].level);
                    if x != i {
                        assert(middle[r].edge_flow@[x] == before[r].edge_flow@[x]);
                    }
                    assert(after[r].edge_flow@[x].value() >= 0real);
                }
            }
            lemma_served(bc@, cb@, after, cs_before, cs@, found@, m, f, q as int);
            assert forall|p: int| 0 <= p < len implies #[trigger] seat_due(
                bc@,
                bs@,
                cs@,
                found@,
                m,
                f,
                p,
                q + 1,
            ) == due by {
                assert(seat_due(bc@, before, cs_before, found@, m_before, f, p, q as int) == due);
                assert(seat_due(bc@, middle, cs_before, found@, m_middle, f, p, q as int)
                    == seat_due(bc@, before, cs_before, found@, m_before, f, p, q as int) + if found@[p]
                    == bc@[b as int]@[i as int].0 {
                    share.value()
                } else {
                    0real
                });
                assert(seat_due(bc@, after, cs_before, found@, m, f, p, q as int) == seat_due(
                    bc@,
                    middle,
                    cs_before,
                    found@,
                    m_middle,
                    f,
                    p,
                    q as int,
                ));
                if p != q {
                    assert(found@[p] != found@[q as int]);
                }
            }
            assert forall|r: int| 0 <= r < bs@.len() implies #[trigger] ballot_due(
                cb@,
                bs@,
                cs@,
                found@,
                m,
                f,
                r,
                q + 1,
            ) == ws[r] by {
                assert(ballot_due(cb@, before, cs_before, found@, m_before, f, r, q as int) == ws[r]);
                assert(ballot_due(cb@, middle, cs_before, found@, m_middle, f, r, q as int)
                    == ballot_due(cb@, before, cs_before, found@, m_before, f, r, q as int) + if r
                    == b {
                    share.value()
                } else {
                    0real
                });
                assert(ballot_due(cb@, after, cs_before, found@, m, f, r, q as int) == ballot_due(
                    cb@,
                    middle,
                    cs_before,
                    found@,
                    m_middle,
                    f,
                    r,
                    q as int,
                ));
            }
            assert forall|t: int|
                0 <= t < bs@.len() && (#[trigger] bs@[t]).count.value() != 0real implies feeds(
                cb@,
                cs0,
                found@,
                t,
                q + 1,
            ) by {
                assert(before[t].count.value() != 0real);
                let p = choose|p: int|
                    q <= p < found@.len() && #[trigger] feeder(cb@, cs0, found@[p] as int) == t;
                assert(q + 1 <= p < found@.len() && feeder(cb@, cs0, found@[p] as int) == t);
            }
            assert forall|p: int| 0 <= p < q + 1 implies cs@[#[trigger] found@[p] as int].count.value()
                == 0real by {
                if p < q {
                    assert(found@[p] != found@[q as int]);
                    assert(cs_before[found@[p] as int].count.value() == 0real);
                }
            }
            assert forall|t: int| 0 <= t < bs@.len() implies #[trigger] ballot_ok(bc@, bs@, t) by {
                assert(ballot_ok(bc@, before, t));
            }
            assert(feeder(cb@, cs@, found@[at] as int) == b0);
            assert(feeder(cb@, cs_before, found@[at] as int) == b0);
            assert(covered(cb@, before, cs_before, f, found@[at] as int));
            if b0 != b {
                assert(bs@[b0] == before[b0]);
            }
            assert(tight(cb@, bs@, cs@, f, found@[at] as int));
            assert forall|p: int| 0 <= p < found@.len() implies #[trigger] covered(
                cb@,
                bs@,
                cs@,
                f,
                found@[p] as int,
            ) by {
                let cp = found@[p] as int;
                assert(covered(cb@, before, cs_before, f, cp));
                assert(attached(bc@, cb@, bs0, cs0, cp));
                lemma_attached_frame(bc@, cb@, bs0, cs0, before, cs_before, cp);
                lemma_attached_frame(bc@, cb@, bs0, cs0, bs@, cs@, cp);
            }
        }
        q += 1;
    }
    proof {
        lemma_all_attached(bc@, cb@, bs0, cs0, bs@, cs@, found@);
        assert forall|t: int| 0 <= t < bs@.len() implies (#[trigger] bs@[t]).count.value()
            == 0real by {
            if bs@[t].count.value() != 0real {
                assert(feeds(cb@, cs0, found@, t, found@.len() as int));
            }
        }
        assert(f * 0real == 0real) by (nonlinear_arith);
        assert forall|c: int| 0 <= c < cs@.len() implies (#[trigger] cs@[c]).count.value()
            == 0real by {
            lemma_all_found(found@, cb@.len(), c as usize);
            let p = choose|p: int| 0 <= p < found@.len() && found@[p] == c as usize;
            assert(cs@[found@[p] as int].count.value() == 0real);
        }
        assert(balanced(bs@, m, ws, k, due)) by {
            assert forall|r: int| 0 <= r < bs@.len() implies (#[trigger] bs@[r]).edge_flow@[0].value()
                + sum_of(m[r]) == ws[r] by {
                assert(ballot_due(cb@, bs@, cs@, found@, m, f, r, len) == ws[r]);
                lemma_sum_zero(fed_counts(cb@, cs@, found@, r, len));
            }
            assert forall|c: int| 0 <= c < k implies sum_of(#[trigger] column(m, c)) == due by {
                lemma_all_found(found@, cb@.len(), c as usize);
                let p = choose|p: int| 0 <= p < found@.len() && found@[p] == c as usize;
                assert(seat_due(bc@, bs@, cs@, found@, m, f, p, len) == due);
                lemma_sum_zero(child_counts(bc@, bs@, c));
            }
        }
    }
    Ghost(m)
}

/// How far the pointer of ballot `b` is from the end of its edges.
spec fn rank<W>(bc: Seq<Vec<(usize, usize)>>, bs: Seq<BallotState<W>>, b: int) -> nat {
    if bs[b].prev == NONE {
        0
    } else {
        (bc[b]@.len() - bs[b].prev) as nat
    }
}

/// The sum of the ranks of the first `n` ballots.
spec fn rank_sum<W>(bc: Seq<Vec<(usize, usize)>>, bs: Seq<BallotState<W>>, n: nat) -> nat
    decreases n,
{
    if n == 0 {
        0
    } else {
        rank_sum(bc, bs, (n - 1) as nat) + rank(bc, bs, n - 1)
    }
}

proof fn lemma_rank_sum_monotone<W>(
    bc: Seq<Vec<(usize, usize)>>,
    before: Seq<BallotState<W>>,
    after: Seq<BallotState<W>>,
    n: nat,
)
    requires
        n <= before.len(),
        before.len() == after.len(),
        forall|b: int| 0 <= b < before.len() ==> #[trigger] rank(bc, after, b) <= rank(bc, before, b),
    ensures
        rank_sum(bc, after, n) <= rank_sum(bc, before, n),
    decreases n,
{
    if n > 0 {
        lemma_rank_sum_monotone(bc, before, after, (n - 1) as nat);
        assert(rank(bc, after, n - 1) <= rank(bc, before, n - 1));
    }
}

proof fn lemma_rank_sum_drops<W>(
    bc: Seq<Vec<(usize, usize)>>,
    before: Seq<BallotState<W>>,
    after: Seq<BallotState<W>>,
    n: nat,
    at: int,
)
    requires
        n <= before.len(),
        before.len() == after.len(),
        0 <= at < n,
        rank(bc, after, at) < rank(bc, before, at),
        forall|b: int| 0 <= b < before.len() ==> #[trigger] rank(bc, after, b) <= rank(bc, before, b),
    ensures
        rank_sum(bc, after, n) < rank_sum(bc, before, n),
    decreases n,
{
    if at == n - 1 {
        lemma_rank_sum_monotone(bc, before, after, (n - 1) as nat);
    } else {
        lemma_rank_sum_drops(bc, before, after, (n - 1) as nat, at);
        assert(rank(bc, after, n - 1) <= rank(bc, before, n - 1));
    }
}

/// Edge `i` of ballot `b` still carries something and comes from a lower
/// level: from the source, or from a seat below the ballot.
spec fn usable<W: Weight>(
    bc: Seq<Vec<(usize, usize)>>,
    bs: Seq<BallotState<W>>,
    cs: Seq<CandidateState<W>>,
    b: int,
    i: int,
) -> bool {
    &&& bs[b].edge_flow@[i].value() != 0real
    &&& i >= 1 ==> cs[bc[b]@[i].0 as int].level < bs[b].level
}

/// The first usable edge of ballot `b` from edge `from` on: the number of its
/// edges if there is none.
spec fn first_usable<W: Weight>(
    bc: Seq<Vec<(usize, usize)>>,
    bs: Seq<BallotState<W>>,
    cs: Seq<CandidateState<W>>,
    b: int,
    from: int,
) -> int
    decreases bc[b]@.len() - from,
{
    if from >= bc[b]@.len() {
        bc[b]@.len() as int
    } else if usable(bc, bs, cs, b, from) {
        from
    } else {
        first_usable(bc, bs, cs, b, from + 1)
    }
}

/// Where the pointer of ballot `b` stands once it has been moved on: on the
/// first usable edge from where it stands, or nowhere if there is none or if
/// it stood nowhere.
spec fn next_edge<W: Weight>(
    bc: Seq<Vec<(usize, usize)>>,
    bs: Seq<BallotState<W>>,
    cs: Seq<CandidateState<W>>,
    b: int,
) -> usize {
    let i = first_usable(bc, bs, cs, b, bs[b].prev as int);
    if bs[b].prev != NONE && i < bc[b]@.len() {
        i as usize
    } else {
        NONE
    }
}

/// The first usable edge is the edge before which none is usable.
proof fn lemma_first_usable<W: Weight>(
    bc: Seq<Vec<(usize, usize)>>,
    bs: Seq<BallotState<W>>,
    cs: Seq<CandidateState<W>>,
    b: int,
    from: int,
    i: int,
)
    requires
        0 <= from <= i <= bc[b]@.len(),
        forall|t: int| from <= t < i ==> !#[trigger] usable(bc, bs, cs, b, t),
        i < bc[b]@.len() ==> usable(bc, bs, cs, b, i),
    ensures
        first_usable(bc, bs, cs, b, from) == i,
    decreases i - from,
{
    if from < i {
        assert(!usable(bc, bs, cs, b, from));
        lemma_first_usable(bc, bs, cs, b, from + 1, i);
    }
}

/// The first usable edge lies at or after the edge from which it is sought,
/// and no edge between the two is usable.
proof fn lemma_first_usable_found<W: Weight>(
    bc: Seq<Vec<(usize, usize)>>,
    bs: Seq<BallotState<W>>,
    cs: Seq<CandidateState<W>>,
    b: int,
    from: int,
)
    requires
        0 <= from <= bc[b]@.len(),
    ensures
        from <= first_usable(bc, bs, cs, b, from) <= bc[b]@.len(),
        first_usable(bc, bs, cs, b, from) < bc[b]@.len() ==> usable(
            bc,
            bs,
            cs,
            b,
            first_usable(bc, bs, cs, b, from),
        ),
        forall|t: int|
            from <= t < first_usable(bc, bs, cs, b, from) ==> !#[trigger] usable(bc, bs, cs, b, t),
    decreases bc[b]@.len() - from,
{
    if from < bc[b]@.len() && !usable(bc, bs, cs, b, from) {
        lemma_first_usable_found(bc, bs, cs, b, from + 1);
    }
}

/// Which edges of a ballot are usable depends on its flows and on the levels
/// alone.
proof fn lemma_usable_kept<W: Weight>(
    bc: Seq<Vec<(usize, usize)>>,
    bs: Seq<BallotState<W>>,
    cs: Seq<CandidateState<W>>,
    bs1: Seq<BallotState<W>>,
    cs1: Seq<CandidateState<W>>,
    b: int,
    from: int,
)
    requires
        bs1[b].edge_flow == bs[b].edge_flow,
        bs1[b].level == bs[b].level,
        cs1.len() == cs.len(),
        forall|c: int| 0 <= c < cs.len() ==> (#[trigger] cs1[c]).level == cs[c].level,
        forall|i: int| 1 <= i < bc[b]@.len() ==> (#[trigger] bc[b]@[i]).0 < cs.len(),
        0 <= from,
    ensures
        first_usable(bc, bs1, cs1, b, from) == first_usable(bc, bs, cs, b, from),
    decreases bc[b]@.len() - from,
{
    if from < bc[b]@.len() {
        if from >= 1 {
            assert(bc[b]@[from].0 < cs.len());
        }
        assert(usable(bc, bs1, cs1, b, from) == usable(bc, bs, cs, b, from));
        lemma_usable_kept(bc, bs, cs, bs1, cs1, b, from + 1);
    }
}

/// Move the pointer of ballot `b` forward to its first edge that still carries
/// something and comes from a lower level, or to `NONE` if there is none.
#[verifier::loop_isolation(false)]
fn advance<W: Weight>(
    bc: &BallotEdges,
    cb: &SeatEdges,
    bs: &mut Vec<BallotState<W>>,
    cs: &Vec<CandidateState<W>>,
    b: usize,
)
    requires
        wired(bc@, cb@),
        states_ok(bc@, old(bs)@),
        seats_ok(cb@, cs@),
        b < old(bs)@.len(),
        old(bs)@[b as int].prev != NONE,
    ensures
        states_ok(bc@, final(bs)@),
        same_flows(old(bs)@, final(bs)@),
        forall|t: int|
            0 <= t < old(bs)@.len() && t != b ==> (#[trigger] final(bs)@[t]) == old(bs)@[t],
        final(bs)@[b as int].level == old(bs)@[b as int].level,
        final(bs)@[b as int].prev == NONE || (old(bs)@[b as int].prev <= final(bs)@[b as int].prev && ballot_live(bc@, final(bs)@, cs@, b as int)),
        ballot_live(bc@, old(bs)@, cs@, b as int) ==> final(bs)@[b as int].prev == old(bs)@[b as int].prev,
        !ballot_live(bc@, old(bs)@, cs@, b as int) ==> final(bs)@[b as int].prev != old(bs)@[b as int].prev,
        rank(bc@, final(bs)@, b as int) <= rank(bc@, old(bs)@, b as int),
        final(bs)@[b as int].prev == next_edge(bc@, old(bs)@, cs@, b as int),
{
    let ghost bs0 = bs@;
    assert(ballot_ok(bc@, bs@, b as int));
    let start = bs[b].prev;
    let mut i: usize = start;
    while i < bc[b].len()
        invariant
            start <= i <= bc@[b as int]@.len(),
            bs@ == bs0,
            i > start ==> !ballot_live(bc@, bs0, cs@, b as int),
            forall|t: int| start <= t < i ==> !#[trigger] usable(bc@, bs0, cs@, b as int, t),
        decreases bc@[b as int]@.len() - i,
    {
        let usable = if bs[b].edge_flow[i].is_zero() {
            false
        } else if i == 0 {
            true
        } else {
            assert(forward_ok(bc@, cb@, b as int, i as int));
            let c1 = bc[b][i].0;
            cs[c1].level < bs[b].level
        };
        if usable {
            bs[b].prev = i;
            proof {
                assert forall|t: int| 0 <= t < bs@.len() implies #[trigger] ballot_ok(
                    bc@,
                    bs@,
                    t,
                ) by {
                    assert(ballot_ok(bc@, bs0, t));
                }
                vstd::std_specs::vec::axiom_spec_len(&bc@[b as int]);
                assert(self::usable(bc@, bs0, cs@, b as int, i as int));
                lemma_first_usable(bc@, bs0, cs@, b as int, start as int, i as int);
            }
            return ;
        }
        proof {
            assert(!self::usable(bc@, bs0, cs@, b as int, i as int));
        }
        proof {
            if i == start {
                assert(!ballot_live(bc@, bs0, cs@, b as int));
            }
        }
        i += 1;
    }
    bs[b].prev = NONE;
    proof {
        assert forall|t: int| 0 <= t < bs@.len() implies #[trigger] ballot_ok(bc@, bs@, t) by {
            assert(ballot_ok(bc@, bs0, t));
        }
        lemma_first_usable(bc@, bs0, cs@, b as int, start as int, bc@[b as int]@.len() as int);
    }
}

proof fn lemma_linked_frame<W: Weight>(
    bc: Seq<Vec<(usize, usize)>>,
    cb: Seq<Vec<(usize, usize)>>,
    bs: Seq<BallotState<W>>,
    cs: Seq<CandidateState<W>>,
    bs1: Seq<BallotState<W>>,
    cs1: Seq<CandidateState<W>>,
    c: int,
)
    requires
        wired(bc, cb),
        bs.len() == bc.len(),
        cs.len() == cb.len(),
        bs1.len() == bs.len(),
        cs1.len() == cs.len(),
        linked(bc, cb, bs, cs, c),
        cs1[c].prev == cs[c].prev,
        forall|t: int| 0 <= t < cs.len() ==> (#[trigger] cs1[t]).level == cs[t].level,
        ({
            let b = feeder(cb, cs, c);
            &&& bs1[b].prev == bs[b].prev
            &&& bs1[b].level == bs[b].level
            &&& bs1[b].edge_flow == bs[b].edge_flow
        }),
    ensures
        linked(bc, cb, bs1, cs1, c),
{
    let j = cs[c].prev as int;
    assert(backward_ok(bc, cb, c, j));
    let b = cb[c]@[j].0 as int;
    let i = bs[b].prev as int;
    if i >= 1 {
        assert(forward_ok(bc, cb, b, i));
    }
}

/// The feeder of seat `c` in the earlier state has moved its pointer since, if
/// it had nothing left to pass on.
spec fn progress<W: Weight>(
    bc: Seq<Vec<(usize, usize)>>,
    cb: Seq<Vec<(usize, usize)>>,
    bs0: Seq<BallotState<W>>,
    cs0: Seq<CandidateState<W>>,
    bs: Seq<BallotState<W>>,
    c: int,
) -> bool {
    feeder_flow(cb, bs0, cs0, c) == 0real ==> rank(bc, bs, feeder(cb, cs0, c)) < rank(
        bc,
        bs0,
        feeder(cb, cs0, c),
    )
}

/// Entry `j` of seat `c` names a ballot that can feed the seat: the ballot has
/// an edge to go on with and stands on a lower level than the seat.
spec fn can_feed<W: Weight>(
    bc: Seq<Vec<(usize, usize)>>,
    cb: Seq<Vec<(usize, usize)>>,
    bs: Seq<BallotState<W>>,
    cs: Seq<CandidateState<W>>,
    c: int,
    j: int,
) -> bool {
    let b = cb[c]@[j].0 as int;
    &&& next_edge(bc, bs, cs, b) != NONE
    &&& bs[b].level < cs[c].level
}

/// The first entry of seat `c` from entry `from` on whose ballot can feed the
/// seat: the number of its entries if there is none.
spec fn first_feeder<W: Weight>(
    bc: Seq<Vec<(usize, usize)>>,
    cb: Seq<Vec<(usize, usize)>>,
    bs: Seq<BallotState<W>>,
    cs: Seq<CandidateState<W>>,
    c: int,
    from: int,
) -> int
    decreases cb[c]@.len() - from,
{
    if from >= cb[c]@.len() {
        cb[c]@.len() as int
    } else if can_feed(bc, cb, bs, cs, c, from) {
        from
    } else {
        first_feeder(bc, cb, bs, cs, c, from + 1)
    }
}

/// The entry on which the pointer of seat `c` comes to stand: the first entry
/// from its pointer on whose ballot can feed it.
spec fn new_feeder<W: Weight>(
    bc: Seq<Vec<(usize, usize)>>,
    cb: Seq<Vec<(usize, usize)>>,
    bs: Seq<BallotState<W>>,
    cs: Seq<CandidateState<W>>,
    c: int,
) -> int {
    first_feeder(bc, cb, bs, cs, c, cs[c].prev as int)
}

/// The first of the seats of `found`, from place `from` on, that no ballot can
/// feed any more: the number of the seats if every seat has one.
spec fn first_stuck<W: Weight>(
    bc: Seq<Vec<(usize, usize)>>,
    cb: Seq<Vec<(usize, usize)>>,
    bs: Seq<BallotState<W>>,
    cs: Seq<CandidateState<W>>,
    found: Seq<usize>,
    from: int,
) -> int
    decreases found.len() - from,
{
    if from >= found.len() {
        found.len() as int
    } else if new_feeder(bc, cb, bs, cs, found[from] as int) >= cb[found[from] as int]@.len() {
        from
    } else {
        first_stuck(bc, cb, bs, cs, found, from + 1)
    }
}

/// Where the pointer of the seat at place `q` of `found` stands after the
/// seats have been linked again: on its new feeder if it and all seats before
/// it have one, nowhere if it is the first seat without one, and where it stood
/// if it comes after that seat.
spec fn moved<W: Weight>(
    bc: Seq<Vec<(usize, usize)>>,
    cb: Seq<Vec<(usize, usize)>>,
    bs: Seq<BallotState<W>>,
    cs: Seq<CandidateState<W>>,
    found: Seq<usize>,
    q: int,
) -> usize {
    let stuck = first_stuck(bc, cb, bs, cs, found, 0);
    let c = found[q] as int;
    if q < stuck {
        new_feeder(bc, cb, bs, cs, c) as usize
    } else if q == stuck {
        NONE
    } else {
        cs[c].prev
    }
}

/// One of the entries of seat `c` from `from` up to `to` names ballot `b`.
spec fn names(cb: Seq<Vec<(usize, usize)>>, c: int, from: int, to: int, b: int) -> bool {
    exists|t: int| from <= t < to && (#[trigger] cb[c]@[t]).0 == b
}

/// The entries of seat `c` that are looked at when the seat is linked again:
/// from its pointer up to its new feeder, or all that are left if it has none.
spec fn looked_at<W: Weight>(
    bc: Seq<Vec<(usize, usize)>>,
    cb: Seq<Vec<(usize, usize)>>,
    bs: Seq<BallotState<W>>,
    cs: Seq<CandidateState<W>>,
    c: int,
) -> int {
    if new_feeder(bc, cb, bs, cs, c) < cb[c]@.len() {
        new_feeder(bc, cb, bs, cs, c) + 1
    } else {
        cb[c]@.len() as int
    }
}

/// Ballot `b` is looked at when seat `found[q]` is linked again.
spec fn sweeps<W: Weight>(
    bc: Seq<Vec<(usize, usize)>>,
    cb: Seq<Vec<(usize, usize)>>,
    bs: Seq<BallotState<W>>,
    cs: Seq<CandidateState<W>>,
    found: Seq<usize>,
    q: int,
    b: int,
) -> bool {
    names(cb, found[q] as int, cs[found[q] as int].prev as int, looked_at(bc, cb, bs, cs, found[q] as int), b)
}

/// Ballot `b` is looked at when the first `upto` seats of `found` are linked
/// again.
spec fn swept<W: Weight>(
    bc: Seq<Vec<(usize, usize)>>,
    cb: Seq<Vec<(usize, usize)>>,
    bs: Seq<BallotState<W>>,
    cs: Seq<CandidateState<W>>,
    found: Seq<usize>,
    upto: int,
    b: int,
) -> bool {
    exists|q: int| 0 <= q < upto && q < found.len() && #[trigger] sweeps(bc, cb, bs, cs, found, q, b)
}

/// Where the pointer of ballot `b` stands after the seats have been linked
/// again: moved on if the ballot was looked at, which is up to the first seat
/// without a feeder, and where it stood if not.
spec fn shifted<W: Weight>(
    bc: Seq<Vec<(usize, usize)>>,
    cb: Seq<Vec<(usize, usize)>>,
    bs: Seq<BallotState<W>>,
    cs: Seq<CandidateState<W>>,
    found: Seq<usize>,
    upto: int,
    b: int,
) -> usize {
    if swept(bc, cb, bs, cs, found, upto, b) {
        next_edge(bc, bs, cs, b)
    } else {
        bs[b].prev
    }
}

/// The first feeder is the entry before which no ballot can feed the seat.
proof fn lemma_first_feeder<W: Weight>(
    bc: Seq<Vec<(usize, usize)>>,
    cb: Seq<Vec<(usize, usize)>>,
    bs: Seq<BallotState<W>>,
    cs: Seq<CandidateState<W>>,
    c: int,
    from: int,
    j: int,
)
    requires
        0 <= from <= j <= cb[c]@.len(),
        forall|t: int| from <= t < j ==> !#[trigger] can_feed(bc, cb, bs, cs, c, t),
        j < cb[c]@.len() ==> can_feed(bc, cb, bs, cs, c, j),
    ensures
        first_feeder(bc, cb, bs, cs, c, from) == j,
    decreases j - from,
{
    if from < j {
        assert(!can_feed(bc, cb, bs, cs, c, from));
        lemma_first_feeder(bc, cb, bs, cs, c, from + 1, j);
    }
}

/// A pointer that has been moved on, or not yet, is moved on to the same edge
/// as long as the flows and the levels are as they were.
proof fn lemma_next_edge_again<W: Weight>(
    bc: Seq<Vec<(usize, usize)>>,
    cb: Seq<Vec<(usize, usize)>>,
    bs0: Seq<BallotState<W>>,
    cs0: Seq<CandidateState<W>>,
    bs: Seq<BallotState<W>>,
    cs: Seq<CandidateState<W>>,
    b: int,
)
    requires
        wired(bc, cb),
        0 <= b < bc.len(),
        states_ok(bc, bs0),
        bs.len() == bs0.len(),
        cs0.len() == cb.len(),
        cs.len() == cs0.len(),
        bs[b].edge_flow == bs0[b].edge_flow,
        bs[b].level == bs0[b].level,
        forall|c: int| 0 <= c < cs0.len() ==> (#[trigger] cs[c]).level == cs0[c].level,
        bs[b].prev == bs0[b].prev || bs[b].prev == next_edge(bc, bs0, cs0, b),
    ensures
        next_edge(bc, bs, cs, b) == next_edge(bc, bs0, cs0, b),
{
    assert(ballot_ok(bc, bs0, b));
    vstd::std_specs::vec::axiom_spec_len(&bc[b]);
    assert forall|i: int| 1 <= i < bc[b]@.len() implies (#[trigger] bc[b]@[i]).0 < cs0.len() by {
        assert(forward_ok(bc, cb, b, i));
    }
    if bs[b].prev == bs0[b].prev {
        lemma_usable_kept(bc, bs0, cs0, bs, cs, b, bs0[b].prev as int);
    } else if bs[b].prev != NONE {
        let i = bs[b].prev as int;
        lemma_first_usable_found(bc, bs0, cs0, b, bs0[b].prev as int);
        lemma_usable_kept(bc, bs0, cs0, bs, cs, b, i);
        assert(usable(bc, bs0, cs0, b, i));
        assert(first_usable(bc, bs0, cs0, b, i) == i);
    }
}

/// The ballots that are looked at for one seat more.
proof fn lemma_swept_next<W: Weight>(
    bc: Seq<Vec<(usize, usize)>>,
    cb: Seq<Vec<(usize, usize)>>,
    bs: Seq<BallotState<W>>,
    cs: Seq<CandidateState<W>>,
    found: Seq<usize>,
    q: int,
    b: int,
)
    requires
        0 <= q < found.len(),
    ensures
        swept(bc, cb, bs, cs, found, q + 1, b) == (swept(bc, cb, bs, cs, found, q, b) || sweeps(
            bc,
            cb,
            bs,
            cs,
            found,
            q,
            b,
        )),
{
    if swept(bc, cb, bs, cs, found, q + 1, b) {
        let p = choose|p: int|
            0 <= p < q + 1 && p < found.len() && #[trigger] sweeps(bc, cb, bs, cs, found, p, b);
        if p < q {
            assert(swept(bc, cb, bs, cs, found, q, b));
        }
    }
    if swept(bc, cb, bs, cs, found, q, b) {
        let p = choose|p: int|
            0 <= p < q && p < found.len() && #[trigger] sweeps(bc, cb, bs, cs, found, p, b);
        assert(sweeps(bc, cb, bs, cs, found, p, b));
    }
    if sweeps(bc, cb, bs, cs, found, q, b) {
        assert(swept(bc, cb, bs, cs, found, q + 1, b));
    }
}

/// No ballot is looked at beyond the last seat.
proof fn lemma_swept_all<W: Weight>(
    bc: Seq<Vec<(usize, usize)>>,
    cb: Seq<Vec<(usize, usize)>>,
    bs: Seq<BallotState<W>>,
    cs: Seq<CandidateState<W>>,
    found: Seq<usize>,
    upto: int,
    b: int,
)
    requires
        upto >= found.len(),
    ensures
        swept(bc, cb, bs, cs, found, upto, b) == swept(bc, cb, bs, cs, found, found.len() as int, b),
{
    if swept(bc, cb, bs, cs, found, upto, b) {
        let p = choose|p: int|
            0 <= p < upto && p < found.len() && #[trigger] sweeps(bc, cb, bs, cs, found, p, b);
        assert(sweeps(bc, cb, bs, cs, found, p, b));
    }
    if swept(bc, cb, bs, cs, found, found.len() as int, b) {
        let p = choose|p: int|
            0 <= p < found.len() && p < found.len() && #[trigger] sweeps(bc, cb, bs, cs, found, p, b);
        assert(sweeps(bc, cb, bs, cs, found, p, b));
    }
}

/// Give every seat, in the order in which the search found them, the next
/// ballot of a lower level that can still feed it.  The answer is `false` as
/// soon as one seat has no such ballot left.
///
/// Every ballot that is looked at on the way has its pointer moved on to its
/// next usable edge.
#[verifier::loop_isolation(false)]
#[verifier::rlimit(40)]
fn relink<W: Weight>(
    bc: &BallotEdges,
    cb: &SeatEdges,
    bs: &mut Vec<BallotState<W>>,
    cs: &mut Vec<CandidateState<W>>,
    found: &Vec<usize>,
) -> (ok: bool)
    requires
        wired(bc@, cb@),
        states_ok(bc@, old(bs)@),
        seats_ok(cb@, old(cs)@),
        found@.no_duplicates(),
        forall|q: int|
            0 <= q < found@.len() ==> #[trigger] attached(
                bc@,
                cb@,
                old(bs)@,
                old(cs)@,
                found@[q] as int,
            ),
    ensures
        states_ok(bc@, final(bs)@),
        seats_ok(cb@, final(cs)@),
        same_flows(old(bs)@, final(bs)@),
        same_seat_counts(old(cs)@, final(cs)@),
        forall|c: int|
            0 <= c < old(cs)@.len() ==> (#[trigger] final(cs)@[c]).level == old(cs)@[c].level,
        forall|b: int|
            0 <= b < old(bs)@.len() ==> (#[trigger] final(bs)@[b]).level == old(bs)@[b].level,
        forall|b: int|
            0 <= b < old(bs)@.len() ==> #[trigger] rank(bc@, final(bs)@, b) <= rank(
                bc@,
                old(bs)@,
                b,
            ),
        ok ==> forall|q: int|
            0 <= q < found@.len() ==> #[trigger] linked(
                bc@,
                cb@,
                final(bs)@,
                final(cs)@,
                found@[q] as int,
            ),
        ok ==> forall|q: int|
            0 <= q < found@.len() ==> #[trigger] progress(
                bc@,
                cb@,
                old(bs)@,
                old(cs)@,
                final(bs)@,
                found@[q] as int,
            ),
        ok == (first_stuck(bc@, cb@, old(bs)@, old(cs)@, found@, 0) == found@.len()),
        forall|q: int|
            0 <= q < found@.len() ==> final(cs)@[#[trigger] found@[q] as int].prev == moved(
                bc@,
                cb@,
                old(bs)@,
                old(cs)@,
                found@,
                q,
            ),
        forall|c: int|
            0 <= c < old(cs)@.len() && !found@.contains(c as usize) ==> (#[trigger] final(cs)@[c]).prev
                == old(cs)@[c].prev,
        forall|b: int|
            0 <= b < old(bs)@.len() ==> (#[trigger] final(bs)@[b]).prev == shifted(
                bc@,
                cb@,
                old(bs)@,
                old(cs)@,
                found@,
                first_stuck(bc@, cb@, old(bs)@, old(cs)@, found@, 0) + 1,
                b,
            ),
{
    let ghost bs0 = bs@;
    let ghost cs0 = cs@;
    let ghost stuck = first_stuck(bc@, cb@, bs0, cs0, found@, 0);
    let mut q: usize = 0;
    proof {
        assert forall|p: int| 0 <= p < found@.len() implies (#[trigger] found@[p]) < cs@.len() by {
            assert(attached(bc@, cb@, bs0, cs0, found@[p] as int));
        }
    }
    while q < found.len()
        invariant
            q <= found@.len(),
            states_ok(bc@, bs@),
            seats_ok(cb@, cs@),
            same_flows(bs0, bs@),
            same_seat_counts(cs0, cs@),
            forall|b: int| 0 <= b < bs0.len() ==> (#[trigger] bs@[b]).level == bs0[b].level,
            forall|c: int| 0 <= c < cs0.len() ==> (#[trigger] cs@[c]).level == cs0[c].level,
            forall|b: int| 0 <= b < bs0.len() ==> #[trigger] rank(bc@, bs@, b) <= rank(bc@, bs0, b),
            forall|p: int|
                q <= p < found@.len() ==> (#[trigger] found@[p]) < cs@.len() && cs@[found@[p] as int]
                    == cs0[found@[p] as int],
            forall|p: int|
                0 <= p < q ==> #[trigger] linked(bc@, cb@, bs@, cs@, found@[p] as int),
            forall|p: int|
                0 <= p < q ==> #[trigger] progress(bc@, cb@, bs0, cs0, bs@, found@[p] as int),
            stuck == first_stuck(bc@, cb@, bs0, cs0, found@, q as int),
            forall|p: int|
                0 <= p < q ==> new_feeder(bc@, cb@, bs0, cs0, found@[p] as int) < cb@[found@[p] as int]@.len()
                    && cs@[#[trigger] found@[p] as int].prev == new_feeder(
                    bc@,
                    cb@,
                    bs0,
                    cs0,
                    found@[p] as int,
                ) as usize,
            forall|e: int|
                0 <= e < cs0.len() && !found@.contains(e as usize) ==> (#[trigger] cs@[e]).prev
                    == cs0[e].prev,
            forall|t: int|
                0 <= t < bs0.len() ==> (#[trigger] bs@[t]).prev == shifted(
                    bc@,
                    cb@,
                    bs0,
                    cs0,
                    found@,
                    q as int,
                    t,
                ),
        decreases found@.len() - q,
    {
        let c = found[q];
        proof {
            assert(attached(bc@, cb@, bs0, cs0, c as int));
            assert(cs@[found@[q as int] as int] == cs0[found@[q as int] as int]);
            assert(backward_ok(bc@, cb@, c as int, cs0[c as int].prev as int));
            assert(ballot_ok(bc@, bs0, feeder(cb@, cs0, c as int)));
        }
        let start = cs[c].prev;
        let ghost cs_here = cs@;
        let mut j: usize = start;
        let mut hit = false;
        while !hit && j < cb[c].len()
            invariant
                start <= j <= cb@[c as int]@.len(),
                cs@ == cs_here,
                states_ok(bc@, bs@),
                same_flows(bs0, bs@),
                forall|b: int| 0 <= b < bs0.len() ==> (#[trigger] bs@[b]).level == bs0[b].level,
                forall|b: int|
                    0 <= b < bs0.len() ==> #[trigger] rank(bc@, bs@, b) <= rank(bc@, bs0, b),
                forall|p: int|
                    0 <= p < q ==> #[trigger] linked(bc@, cb@, bs@, cs@, found@[p] as int),
                forall|p: int|
                    0 <= p < q ==> #[trigger] progress(bc@, cb@, bs0, cs0, bs@, found@[p] as int),
                (hit || j > start) ==> progress(bc@, cb@, bs0, cs0, bs@, c as int),
                hit ==> j < cb@[c as int]@.len() && ({
                    let b = cb@[c as int]@[j as int].0 as int;
                    &&& bs@[b].prev != NONE
                    &&& ballot_live(bc@, bs@, cs@, b)
                    &&& bs@[b].level < cs@[c as int].level
                }),
                forall|t: int| start <= t < j ==> !#[trigger] can_feed(bc@, cb@, bs0, cs0, c as int, t),
                hit ==> can_feed(bc@, cb@, bs0, cs0, c as int, j as int),
                forall|t: int|
                    0 <= t < bs0.len() ==> (#[trigger] bs@[t]).prev == if swept(
                        bc@,
                        cb@,
                        bs0,
                        cs0,
                        found@,
                        q as int,
                        t,
                    ) || names(cb@, c as int, start as int, j + if hit { 1int } else { 0int }, t) {
                        next_edge(bc@, bs0, cs0, t)
                    } else {
                        bs0[t].prev
                    },
            decreases cb@[c as int]@.len() - j + if hit { 0int } else { 1int },
        {
            assert(backward_ok(bc@, cb@, c as int, j as int));
            let b = cb[c][j].0;
            assert(ballot_ok(bc@, bs@, b as int));
            assert(ballot_ok(bc@, bs0, b as int));
            let ghost earlier = bs@;
            proof {
                assert(earlier[b as int].edge_flow == bs0[b as int].edge_flow);
                lemma_next_edge_again(bc@, cb@, bs0, cs0, earlier, cs@, b as int);
            }
            if bs[b].prev != NONE {
                let ghost before = bs@;
                advance(bc, cb, bs, cs, b);
                proof {
                    assert(ballot_ok(bc@, bs@, b as int));
                    assert forall|t: int| 0 <= t < bs0.len() implies #[trigger] rank(
                        bc@,
                        bs@,
                        t,
                    ) <= rank(bc@, bs0, t) by {
                        assert(rank(bc@, before, t) <= rank(bc@, bs0, t));
                    }
                    assert forall|p: int| 0 <= p < q implies #[trigger] linked(
                        bc@,
                        cb@,
                        bs@,
                        cs@,
                        found@[p] as int,
                    ) by {
                        let cp = found@[p] as int;
                        assert(linked(bc@, cb@, before, cs@, cp));
                        assert(backward_ok(bc@, cb@, cp, cs@[cp].prev as int));
                        lemma_linked_frame(bc@, cb@, before, cs@, bs@, cs@, cp);
                    }
                    assert forall|p: int| 0 <= p < q implies #[trigger] progress(
                        bc@,
                        cb@,
                        bs0,
                        cs0,
                        bs@,
                        found@[p] as int,
                    ) by {
                        let cp = found@[p] as int;
                        assert(progress(bc@, cb@, bs0, cs0, before, cp));
                        assert(attached(bc@, cb@, bs0, cs0, cp));
                        assert(backward_ok(bc@, cb@, cp, cs0[cp].prev as int));
                        assert(rank(bc@, bs@, feeder(cb@, cs0, cp)) <= rank(
                            bc@,
                            before,
                            feeder(cb@, cs0, cp),
                        ));
                    }
                    if j > start {
                        assert(rank(bc@, bs@, feeder(cb@, cs0, c as int)) <= rank(
                            bc@,
                            before,
                            feeder(cb@, cs0, c as int),
                        ));
                    } else {
                        assert(b == feeder(cb@, cs0, c as int));
                        assert(rank(bc@, before, b as int) <= rank(bc@, bs0, b as int));
                        assert(ballot_ok(bc@, before, b as int));
                        if feeder_flow(cb@, bs0, cs0, c as int) == 0real {
                            if before[b as int].prev == bs0[b as int].prev {
                                assert(before[b as int].edge_flow == bs0[b as int].edge_flow);
                                assert(!ballot_live(bc@, before, cs@, b as int));
                                assert(rank(bc@, bs@, b as int) < rank(bc@, before, b as int));
                            } else {
                                assert(rank(bc@, before, b as int) < rank(bc@, bs0, b as int));
                            }
                        }
                    }
                }
                assert(progress(bc@, cb@, bs0, cs0, bs@, c as int));
                if bs[b].prev != NONE && bs[b].level < cs[c].level {
                    hit = true;
                }
            } else {
                proof {
                    if j == start {
                        assert(b == feeder(cb@, cs0, c as int));
                        assert(attached(bc@, cb@, bs0, cs0, c as int));
                        vstd::std_specs::vec::axiom_spec_len(&bc@[b as int]);
                        assert(bs0[b as int].prev != NONE);
                        assert(rank(bc@, bs@, b as int) <= rank(bc@, bs0, b as int));
                    }
                    assert(progress(bc@, cb@, bs0, cs0, bs@, c as int));
                }
            }
            proof {
                // The ballot of this entry now stands where it is moved on to.
                assert(bs@[b as int].prev == next_edge(bc@, bs0, cs0, b as int));
                assert(hit == can_feed(bc@, cb@, bs0, cs0, c as int, j as int));
                assert forall|t: int| 0 <= t < bs0.len() implies (#[trigger] bs@[t]).prev == if swept(
                    bc@,
                    cb@,
                    bs0,
                    cs0,
                    found@,
                    q as int,
                    t,
                ) || names(cb@, c as int, start as int, j + 1, t) {
                    next_edge(bc@, bs0, cs0, t)
                } else {
                    bs0[t].prev
                } by {
                    if t == b {
                        assert(cb@[c as int]@[j as int].0 == t);
                        assert(names(cb@, c as int, start as int, j + 1, t));
                    } else {
                        assert(bs@[t] == earlier[t]);
                        if names(cb@, c as int, start as int, j + 1, t) {
                            let u = choose|u: int|
                                start <= u < j + 1 && (#[trigger] cb@[c as int]@[u]).0 == t;
                            assert(u < j);
                            assert(names(cb@, c as int, start as int, j as int, t));
                        }
                        if names(cb@, c as int, start as int, j as int, t) {
                            let u = choose|u: int|
                                start <= u < j && (#[trigger] cb@[c as int]@[u]).0 == t;
                            assert(names(cb@, c as int, start as int, j + 1, t));
                        }
                    }
                }
            }
            if !hit {
                j += 1;
            }
        }
        proof {
            lemma_first_feeder(bc@, cb@, bs0, cs0, c as int, start as int, j as int);
            assert(new_feeder(bc@, cb@, bs0, cs0, c as int) == j);
            assert(looked_at(bc@, cb@, bs0, cs0, c as int) == j + if hit { 1int } else { 0int });
            assert forall|t: int| 0 <= t < bs0.len() implies (#[trigger] bs@[t]).prev == shifted(
                bc@,
                cb@,
                bs0,
                cs0,
                found@,
                q + 1,
                t,
            ) by {
                lemma_swept_next(bc@, cb@, bs0, cs0, found@, q as int, t);
            }
        }
        if !hit {
            cs[c].prev = NONE;
            proof {
                assert(stuck == q);
                assert forall|p: int| 0 <= p < found@.len() implies cs@[#[trigger] found@[p] as int].prev
                    == moved(bc@, cb@, bs0, cs0, found@, p) by {
                    if p != q {
                        assert(found@[p] != found@[q as int]);
                        assert(cs@[found@[p] as int] == cs_here[found@[p] as int]);
                    }
                }
                assert forall|e: int|
                    0 <= e < cs0.len() && !found@.contains(e as usize) implies (#[trigger] cs@[e]).prev
                    == cs0[e].prev by {
                    assert(found@.contains(found@[q as int]));
                    assert(cs@[e] == cs_here[e]);
                }
            }
            return false;
        }
        proof {
            vstd::std_specs::vec::axiom_spec_len(&cb@[c as int]);
        }
        cs[c].prev = j;
        proof {
            assert forall|p: int| 0 <= p < q implies #[trigger] linked(
                bc@,
                cb@,
                bs@,
                cs@,
                found@[p] as int,
            ) by {
                let cp = found@[p] as int;
                assert(linked(bc@, cb@, bs@, cs_here, cp));
                lemma_linked_frame(bc@, cb@, bs@, cs_here, bs@, cs@, cp);
            }
            let b = cb@[c as int]@[j as int].0 as int;
            assert(backward_ok(bc@, cb@, c as int, j as int));
            if bs@[b].prev >= 1 {
                assert(forward_ok(bc@, cb@, b, bs@[b].prev as int));
            }
            assert(linked(bc@, cb@, bs@, cs@, c as int));
            assert forall|p: int| q + 1 <= p < found@.len() implies (#[trigger] found@[p])
                < cs@.len() && cs@[found@[p] as int] == cs0[found@[p] as int] by {
                assert(attached(bc@, cb@, bs0, cs0, found@[p] as int));
                assert(found@[p] != found@[q as int]);
                assert(cs_here[found@[p] as int] == cs0[found@[p] as int]);
            }
            assert(stuck == first_stuck(bc@, cb@, bs0, cs0, found@, q + 1));
            assert forall|p: int| 0 <= p < q + 1 implies new_feeder(
                bc@,
                cb@,
                bs0,
                cs0,
                found@[p] as int,
            ) < cb@[found@[p] as int]@.len() && cs@[#[trigger] found@[p] as int].prev == new_feeder(
                bc@,
                cb@,
                bs0,
                cs0,
                found@[p] as int,
            ) as usize by {
                if p < q {
                    assert(found@[p] != found@[q as int]);
                    assert(cs@[found@[p] as int] == cs_here[found@[p] as int]);
                }
            }
            assert forall|e: int|
                0 <= e < cs0.len() && !found@.contains(e as usize) implies (#[trigger] cs@[e]).prev
                == cs0[e].prev by {
                assert(found@.contains(found@[q as int]));
                assert(cs@[e] == cs_here[e]);
            }
        }
        q += 1;
    }
    proof {
        assert(stuck == found@.len());
        assert forall|t: int| 0 <= t < bs0.len() implies (#[trigger] bs@[t]).prev == shifted(
            bc@,
            cb@,
            bs0,
            cs0,
            found@,
            stuck + 1,
            t,
        ) by {
            lemma_swept_all(bc@, cb@, bs0, cs0, found@, stuck + 1, t);
        }
    }
    true
}

/// Forget the search: no ballot and no seat is reached any more.
#[verifier::loop_isolation(false)]
fn forget<W: Weight>(
    bc: &BallotEdges,
    cb: &SeatEdges,
    bs: &mut Vec<BallotState<W>>,
    cs: &mut Vec<CandidateState<W>>,
)
    requires
        states_ok(bc@, old(bs)@),
        seats_ok(cb@, old(cs)@),
    ensures
        states_ok(bc@, final(bs)@),
        seats_ok(cb@, final(cs)@),
        same_flows(old(bs)@, final(bs)@),
        same_seat_counts(old(cs)@, final(cs)@),
        forall|b: int| 0 <= b < final(bs)@.len() ==> (#[trigger] final(bs)@[b]).prev == NONE,
        forall|c: int| 0 <= c < final(cs)@.len() ==> (#[trigger] final(cs)@[c]).prev == NONE,
{
    let ghost bs0 = bs@;
    let ghost cs0 = cs@;
    let mut c: usize = 0;
    while c < cs.len()
        invariant
            c <= cs@.len(),
            seats_ok(cb@, cs@),
            same_seat_counts(cs0, cs@),
            forall|t: int| 0 <= t < c ==> (#[trigger] cs@[t]).prev == NONE,
        decreases cs@.len() - c,
    {
        cs[c].level = u128::MAX;
        cs[c].prev = NONE;
        c += 1;
    }
    let mut b: usize = 0;
    while b < bs.len()
        invariant
            b <= bs@.len(),
            states_ok(bc@, bs@),
            same_flows(bs0, bs@),
            forall|t: int| 0 <= t < b ==> (#[trigger] bs@[t]).prev == NONE,
        decreases bs@.len() - b,
    {
        let ghost before = bs@;
        bs[b].level = u128::MAX;
        bs[b].prev = NONE;
        proof {
            assert forall|t: int| 0 <= t < bs@.len() implies #[trigger] ballot_ok(bc@, bs@, t) by {
                assert(ballot_ok(bc@, before, t));
            }
        }
        b += 1;
    }
}

/// The sum of the numbers of `s`.
spec fn isum(s: Seq<int>) -> int
    decreases s.len(),
{
    if s.len() == 0 {
        0
    } else {
        isum(s.drop_last()) + s.last()
    }
}

proof fn lemma_isum_order(a: Seq<int>, b: Seq<int>)
    requires
        a.len() == b.len(),
        forall|i: int| 0 <= i < a.len() ==> #[trigger] a[i] <= b[i],
    ensures
        isum(a) <= isum(b),
        isum(a) == isum(b) ==> a == b,
    decreases a.len(),
{
    if a.len() > 0 {
        lemma_isum_order(a.drop_last(), b.drop_last());
        if isum(a) == isum(b) {
            assert(a =~= a.drop_last().push(a.last()));
            assert(b =~= b.drop_last().push(b.last()));
        }
    } else {
        assert(a =~= b);
    }
}

proof fn lemma_isum_strict(a: Seq<int>, b: Seq<int>, at: int)
    requires
        a.len() == b.len(),
        forall|i: int| 0 <= i < a.len() ==> #[trigger] a[i] <= b[i],
        0 <= at < a.len(),
        a[at] < b[at],
    ensures
        isum(a) < isum(b),
    decreases a.len(),
{
    if at == a.len() - 1 {
        lemma_isum_order(a.drop_last(), b.drop_last());
    } else {
        lemma_isum_strict(a.drop_last(), b.drop_last(), at);
    }
}

proof fn lemma_isum_bounds(a: Seq<int>, lo: int, hi: int)
    requires
        forall|i: int| 0 <= i < a.len() ==> lo <= #[trigger] a[i] <= hi,
    ensures
        a.len() * lo <= isum(a) <= a.len() * hi,
    decreases a.len(),
{
    if a.len() > 0 {
        lemma_isum_bounds(a.drop_last(), lo, hi);
        let n = a.len() as int;
        assert((n - 1) * lo + lo == n * lo) by (nonlinear_arith);
        assert((n - 1) * hi + hi == n * hi) by (nonlinear_arith);
    } else {
        assert(0 * lo == 0 && 0 * hi == 0) by (nonlinear_arith);
    }
}

/// What every edge carries.
spec fn flows_of<W: Weight>(bs: Seq<BallotState<W>>) -> Seq<Seq<real>> {
    Seq::new(
        bs.len(),
        |b: int| Seq::new(bs[b].edge_flow@.len(), |i: int| bs[b].edge_flow@[i].value()),
    )
}

/// Edge `i` of ballot `b` carries something and leads down the levels, from a
/// ballot below the highest seat.
spec fn live(
    bc: Seq<Vec<(usize, usize)>>,
    flows: Seq<Seq<real>>,
    pb: Seq<int>,
    pc: Seq<int>,
    top: int,
    b: int,
    i: int,
) -> bool {
    flows[b][i] != 0real && pb[b] < top && (i == 0 || pc[bc[b]@[i].0 as int] < pb[b])
}

/// For every ballot the number of its edges that are live.
spec fn marks(
    bc: Seq<Vec<(usize, usize)>>,
    flows: Seq<Seq<real>>,
    pb: Seq<int>,
    pc: Seq<int>,
    top: int,
) -> Seq<int> {
    Seq::new(bc.len(), |b: int| isum(row_marks(bc, flows, pb, pc, top, b)))
}

/// For every edge of ballot `b` one if it is live.
spec fn row_marks(
    bc: Seq<Vec<(usize, usize)>>,
    flows: Seq<Seq<real>>,
    pb: Seq<int>,
    pc: Seq<int>,
    top: int,
    b: int,
) -> Seq<int> {
    Seq::new(
        bc[b]@.len(),
        |i: int|
            if live(bc, flows, pb, pc, top, b, i) {
                1int
            } else {
                0int
            },
    )
}

/// The number of live edges.
spec fn live_count(
    bc: Seq<Vec<(usize, usize)>>,
    flows: Seq<Seq<real>>,
    pb: Seq<int>,
    pc: Seq<int>,
    top: int,
) -> int {
    isum(marks(bc, flows, pb, pc, top))
}

proof fn lemma_live_count_nonnegative(
    bc: Seq<Vec<(usize, usize)>>,
    flows: Seq<Seq<real>>,
    pb: Seq<int>,
    pc: Seq<int>,
    top: int,
)
    ensures
        live_count(bc, flows, pb, pc, top) >= 0,
{
    let all = marks(bc, flows, pb, pc, top);
    let none = Seq::new(all.len(), |b: int| 0int);
    assert forall|b: int| 0 <= b < all.len() implies #[trigger] none[b] <= all[b] by {
        lemma_isum_bounds(row_marks(bc, flows, pb, pc, top, b), 0, 1);
        assert(row_marks(bc, flows, pb, pc, top, b).len() * 0 == 0);
    }
    lemma_isum_order(none, all);
    lemma_isum_bounds(none, 0, 0);
    assert(none.len() * 0 == 0);
}

/// Fewer edges are live when no edge has become live and one is live no more.
proof fn lemma_live_drops(
    bc: Seq<Vec<(usize, usize)>>,
    then: Seq<Seq<real>>,
    now: Seq<Seq<real>>,
    pb: Seq<int>,
    pc: Seq<int>,
    top: int,
    b0: int,
    i0: int,
)
    requires
        0 <= b0 < bc.len(),
        0 <= i0 < bc[b0]@.len(),
        forall|b: int, i: int|
            0 <= b < bc.len() && 0 <= i < bc[b]@.len() && #[trigger] live(bc, now, pb, pc, top, b, i)
                ==> live(bc, then, pb, pc, top, b, i),
        live(bc, then, pb, pc, top, b0, i0),
        !live(bc, now, pb, pc, top, b0, i0),
    ensures
        live_count(bc, now, pb, pc, top) < live_count(bc, then, pb, pc, top),
{
    let a = marks(bc, now, pb, pc, top);
    let z = marks(bc, then, pb, pc, top);
    assert forall|b: int| 0 <= b < a.len() implies a[b] <= z[b] by {
        let ra = row_marks(bc, now, pb, pc, top, b);
        let rz = row_marks(bc, then, pb, pc, top, b);
        assert forall|i: int| 0 <= i < ra.len() implies ra[i] <= rz[i] by {
            if live(bc, now, pb, pc, top, b, i) {
                assert(live(bc, then, pb, pc, top, b, i));
            }
        }
        lemma_isum_order(ra, rz);
    }
    let ra = row_marks(bc, now, pb, pc, top, b0);
    let rz = row_marks(bc, then, pb, pc, top, b0);
    assert forall|i: int| 0 <= i < ra.len() implies ra[i] <= rz[i] by {
        if live(bc, now, pb, pc, top, b0, i) {
            assert(live(bc, then, pb, pc, top, b0, i));
        }
    }
    lemma_isum_strict(ra, rz, i0);
    lemma_isum_strict(a, z, b0);
}

/// If edge `i` of ballot `b` carries something now and carried nothing when the
/// levels were given, it leads up the levels.
spec fn created_up<W: Weight>(
    bc: Seq<Vec<(usize, usize)>>,
    bs: Seq<BallotState<W>>,
    then: Seq<Seq<real>>,
    pb: Seq<int>,
    pc: Seq<int>,
    b: int,
    i: int,
) -> bool {
    bs[b].edge_flow@[i].value() != 0real && then[b][i] == 0real ==> i >= 1 && pb[b]
        < pc[bc[b]@[i].0 as int]
}

/// An edge that was live when the levels were given carries nothing now.
spec fn spent<W: Weight>(
    bc: Seq<Vec<(usize, usize)>>,
    bs: Seq<BallotState<W>>,
    then: Seq<Seq<real>>,
    pb: Seq<int>,
    pc: Seq<int>,
    top: int,
) -> bool {
    exists|b: int, i: int|
        0 <= b < bc.len() && 0 <= i < bc[b]@.len() && #[trigger] live(bc, then, pb, pc, top, b, i)
            && bs[b].edge_flow@[i].value() == 0real
}

/// What is known of the flows since the levels were given.
spec fn since<W: Weight>(
    bc: Seq<Vec<(usize, usize)>>,
    bs: Seq<BallotState<W>>,
    then: Seq<Seq<real>>,
    pb: Seq<int>,
    pc: Seq<int>,
) -> bool {
    &&& then.len() == bc.len()
    &&& forall|b: int| 0 <= b < bc.len() ==> (#[trigger] then[b]).len() == bc[b]@.len()
    &&& forall|b: int, i: int|
        0 <= b < bc.len() && 0 <= i < bc[b]@.len() ==> #[trigger] created_up(bc, bs, then, pb, pc, b, i)
}

/// The levels of the states are the levels that were given.
spec fn agree<W: Weight>(
    bs: Seq<BallotState<W>>,
    cs: Seq<CandidateState<W>>,
    pb: Seq<int>,
    pc: Seq<int>,
) -> bool {
    &&& pb.len() == bs.len()
    &&& pc.len() == cs.len()
    &&& forall|b: int| 0 <= b < bs.len() && (#[trigger] bs[b]).prev != NONE ==> pb[b] == bs[b].level
    &&& forall|c: int| 0 <= c < cs.len() ==> #[trigger] pc[c] == cs[c].level
}

/// After new levels have been given, either some level has gone up, or all
/// levels are as they were and fewer edges are live.
proof fn lemma_phase_progress<W: Weight>(
    bc: Seq<Vec<(usize, usize)>>,
    cb: Seq<Vec<(usize, usize)>>,
    bs: Seq<BallotState<W>>,
    then: Seq<Seq<real>>,
    pb: Seq<int>,
    pc: Seq<int>,
    top: int,
    pb1: Seq<int>,
    pc1: Seq<int>,
    top1: int,
    started: bool,
)
    requires
        wired(bc, cb),
        states_ok(bc, bs),
        cb.len() >= 1,
        history(bc, cb, bs, pb, pc, top),
        history(bc, cb, bs, pb1, pc1, top1),
        forall|b: int| 0 <= b < pb.len() ==> #[trigger] pb1[b] >= pb[b],
        forall|c: int| 0 <= c < pc.len() ==> #[trigger] pc1[c] >= pc[c],
        forall|c: int| 0 <= c < pc.len() ==> #[trigger] pc1[c] >= 1,
        started ==> since(bc, bs, then, pb, pc) && spent(bc, bs, then, pb, pc, top),
        !started ==> forall|c: int| 0 <= c < pc.len() ==> #[trigger] pc[c] == 0,
    ensures
        isum(pb) + isum(pc) <= isum(pb1) + isum(pc1),
        isum(pb) + isum(pc) == isum(pb1) + isum(pc1) ==> started && live_count(
            bc,
            flows_of(bs),
            pb1,
            pc1,
            top1,
        ) < live_count(bc, then, pb, pc, top),
{
    lemma_isum_order(pb, pb1);
    lemma_isum_order(pc, pc1);
    if isum(pb) + isum(pc) == isum(pb1) + isum(pc1) {
        if !started {
            lemma_isum_bounds(pc, 0, 0);
            lemma_isum_bounds(pc1, 1, top1);
            assert(pc1.len() * 1 >= 1) by (nonlinear_arith)
                requires
                    pc1.len() >= 1,
            ;
        } else {
            assert(pb1 == pb && pc1 == pc);
            // The highest level of a seat is as it was.
            let c0 = choose|c: int| 0 <= c < pc.len() && #[trigger] pc[c] == top;
            let c1 = choose|c: int| 0 <= c < pc1.len() && #[trigger] pc1[c] == top1;
            assert(pc[c1] <= top);
            assert(pc1[c0] <= top1);
            assert(top1 == top);
            let now = flows_of(bs);
            let (b0, i0) = choose|b: int, i: int|
                0 <= b < bc.len() && 0 <= i < bc[b]@.len() && #[trigger] live(
                    bc,
                    then,
                    pb,
                    pc,
                    top,
                    b,
                    i,
                ) && bs[b].edge_flow@[i].value() == 0real;
            assert forall|b: int, i: int|
                0 <= b < bc.len() && 0 <= i < bc[b]@.len() && #[trigger] live(
                    bc,
                    now,
                    pb,
                    pc,
                    top,
                    b,
                    i,
                ) implies live(bc, then, pb, pc, top, b, i) by {
                assert(ballot_ok(bc, bs, b));
                assert(created_up(bc, bs, then, pb, pc, b, i));
            }
            assert(ballot_ok(bc, bs, b0));
            lemma_live_drops(bc, then, now, pb, pc, top, b0, i0);
        }
    }
}

/// What is known after more has been pushed into every seat: the levels fit
/// the flows still, what carries something that carried nothing when the levels
/// were given leads up the levels, and an edge that was live is spent.
proof fn lemma_after_augment<W: Weight>(
    bc: Seq<Vec<(usize, usize)>>,
    cb: Seq<Vec<(usize, usize)>>,
    bs0: Seq<BallotState<W>>,
    bs: Seq<BallotState<W>>,
    cs: Seq<CandidateState<W>>,
    then: Seq<Seq<real>>,
    pb: Seq<int>,
    pc: Seq<int>,
    top: int,
    c: int,
)
    requires
        wired(bc, cb),
        bc.len() <= usize::MAX,
        cb.len() <= usize::MAX,
        states_ok(bc, bs0),
        states_ok(bc, bs),
        same_links(bs0, bs),
        history(bc, cb, bs0, pb, pc, top),
        since(bc, bs0, then, pb, pc),
        agree(bs0, cs, pb, pc),
        forall|b: int, i: int|
            0 <= b < bc.len() && 0 <= i < bc[b]@.len() ==> #[trigger] rose(bc, bs0, bs, cs, b, i),
        linked(bc, cb, bs0, cs, c),
        feeder_flow(cb, bs, cs, c) == 0real,
    ensures
        history(bc, cb, bs, pb, pc, top),
        since(bc, bs, then, pb, pc),
        spent(bc, bs, then, pb, pc, top),
{
    assert forall|b: int|
        0 <= b < pb.len() && (#[trigger] bs[b]).edge_flow@[0].value() != 0real implies pb[b] == 0 by {
        assert(ballot_ok(bc, bs0, b));
        assert(rose(bc, bs0, bs, cs, b, 0));
    }
    assert forall|e: int, j: int| 0 <= e < cb.len() && 0 <= j < cb[e]@.len() implies #[trigger] gives_up(
        cb,
        bs,
        pb,
        pc,
        e,
        j,
    ) by {
        assert(backward_ok(bc, cb, e, j));
        assert(gives_up(cb, bs0, pb, pc, e, j));
        let (b, i) = cb[e]@[j];
        assert(rose(bc, bs0, bs, cs, b as int, i as int));
    }
    assert forall|b: int, i: int| 0 <= b < bc.len() && 0 <= i < bc[b]@.len() implies #[trigger] created_up(
        bc,
        bs,
        then,
        pb,
        pc,
        b,
        i,
    ) by {
        assert(created_up(bc, bs0, then, pb, pc, b, i));
        assert(rose(bc, bs0, bs, cs, b, i));
        if i >= 1 {
            assert(forward_ok(bc, cb, b, i));
        }
    }
    // The edge through which the feeder of the seat was reached is spent.
    let j = cs[c].prev as int;
    assert(backward_ok(bc, cb, c, j));
    let b = feeder(cb, cs, c);
    let i = bs0[b].prev as int;
    assert(ballot_ok(bc, bs0, b));
    vstd::std_specs::vec::axiom_spec_len(&bc[b]);
    assert(bs0[b].prev != NONE);
    assert(bs[b].prev == bs0[b].prev);
    assert(created_up(bc, bs0, then, pb, pc, b, i));
    if i >= 1 {
        assert(forward_ok(bc, cb, b, i));
    }
    assert(pc[c] <= top);
    assert(live(bc, then, pb, pc, top, b, i));
}

/// What is known of the flows holds on when no flow changes.
proof fn lemma_since_kept<W: Weight>(
    bc: Seq<Vec<(usize, usize)>>,
    bs0: Seq<BallotState<W>>,
    bs: Seq<BallotState<W>>,
    then: Seq<Seq<real>>,
    pb: Seq<int>,
    pc: Seq<int>,
    top: int,
)
    requires
        bs0.len() == bc.len(),
        same_flows(bs0, bs),
        since(bc, bs0, then, pb, pc),
    ensures
        since(bc, bs, then, pb, pc),
        spent(bc, bs0, then, pb, pc, top) ==> spent(bc, bs, then, pb, pc, top),
        flows_of(bs) == flows_of(bs0),
{
    assert forall|b: int, i: int| 0 <= b < bc.len() && 0 <= i < bc[b]@.len() implies #[trigger] created_up(
        bc,
        bs,
        then,
        pb,
        pc,
        b,
        i,
    ) by {
        assert(created_up(bc, bs0, then, pb, pc, b, i));
        assert(bs0[b].edge_flow == bs[b].edge_flow);
    }
    if spent(bc, bs0, then, pb, pc, top) {
        let (b, i) = choose|b: int, i: int|
            0 <= b < bc.len() && 0 <= i < bc[b]@.len() && #[trigger] live(bc, then, pb, pc, top, b, i)
                && bs0[b].edge_flow@[i].value() == 0real;
        assert(bs0[b].edge_flow == bs[b].edge_flow);
    }
    assert forall|b: int| 0 <= b < bs.len() implies flows_of(bs)[b] == flows_of(bs0)[b] by {
        assert(bs0[b].edge_flow == bs[b].edge_flow);
    }
    assert(flows_of(bs) =~= flows_of(bs0));
}

/// Fewer numbers than `k` cannot hold every number below `k`.
proof fn lemma_one_missing(found: Seq<usize>, k: nat) -> (c: usize)
    requires
        found.len() < k <= usize::MAX,
    ensures
        c < k,
        !found.contains(c),
{
    if forall|c: usize| c < k ==> found.contains(c) {
        let places = Seq::new(
            k,
            |c: int| (choose|q: int| 0 <= q < found.len() && found[q] == c as usize) as usize,
        );
        assert forall|c: int| 0 <= c < k implies places[c] < found.len() && found[places[c] as int]
            == c by {
            assert(found.contains(c as usize));
        }
        assert(places.no_duplicates()) by {
            assert forall|c: int, e: int| 0 <= c < k && 0 <= e < k && c != e implies places[c]
                != places[e] by {
                assert(found[places[c] as int] == c);
                assert(found[places[e] as int] == e);
            }
        }
        lemma_few(places, found.len());
        0
    } else {
        choose|c: usize| c < k && !found.contains(c)
    }
}

proof fn lemma_size_positive(chosen: Seq<bool>, c: int)
    requires
        0 <= c < chosen.len(),
        chosen[c],
    ensures
        size(chosen) > 0,
    decreases chosen.len(),
{
    if c < chosen.len() - 1 {
        lemma_size_positive(chosen.drop_last(), c);
    }
}

/// When the search has stopped short of a seat, the seats that it has not
/// found have no more ballots than they need.
proof fn lemma_tight<W: Weight>(
    ballots: Seq<(Vec<usize>, W)>,
    bc: Seq<Vec<(usize, usize)>>,
    cb: Seq<Vec<(usize, usize)>>,
    bs: Seq<BallotState<W>>,
    cs: Seq<CandidateState<W>>,
    found: Seq<usize>,
    m: Seq<Seq<real>>,
    ws: Seq<real>,
    t: real,
)
    requires
        wired(bc, cb),
        states_ok(bc, bs),
        cs.len() == cb.len(),
        1 <= cb.len() <= usize::MAX,
        bc.len() <= usize::MAX,
        carried(bc, cb.len() as int, bs, m),
        balanced(bs, m, ws, cb.len() as int, t),
        drawn_from(ballots, bc, ws),
        closed_off(bc, cb, bs, cs),
        found.len() < cb.len(),
        forall|c: int| 0 <= c < cs.len() && (#[trigger] cs[c]).prev != NONE ==> found.contains(c as usize),
    ensures
        exhausts(ballots, cb.len(), t),
{
    let k = cb.len() as int;
    let chosen = Seq::new(cb.len(), |c: int| cs[c].prev == NONE);
    let c0 = lemma_one_missing(found, cb.len());
    lemma_size_positive(chosen, c0 as int);
    lemma_picked_columns_even(m, chosen, k, t);
    assert(chosen.take(k) =~= chosen);
    lemma_exchange(m, chosen, k);
    assert forall|b: int| 0 <= b < ballots.len() && #[trigger] touches(ballots[b].0@, chosen) implies bs[b].edge_flow@[0].value()
        == 0real && forall|c: int| 0 <= c < chosen.len() && !chosen[c] ==> #[trigger] m[b][c]
        == 0real by {
        let i = choose|i: int|
            0 <= i < ballots[b].0@.len() && #[trigger] ballots[b].0@[i] < chosen.len()
                && chosen[ballots[b].0@[i] as int];
        assert(bc[b]@.len() == ballots[b].0@.len() + 1);
        assert(bc[b]@[i + 1].0 == ballots[b].0@[i]);
        // The ballot names a seat that was not found, so it was not reached.
        assert(bs[b].prev == NONE);
        assert forall|c: int| 0 <= c < chosen.len() && !chosen[c] implies #[trigger] m[b][c]
            == 0real by {
            if m[b][c] != 0real {
                assert(has_edge(bc, b, c));
                let x = choose|x: int| 1 <= x < bc[b]@.len() && (#[trigger] bc[b]@[x]).0 == c;
                assert(carries(bc, bs, m, b, x));
                assert(bs[b].edge_flow@[x].value() != 0real);
                assert(forward_ok(bc, cb, b, x));
                vstd::std_specs::vec::axiom_spec_len(&bc[b]);
                let j = bc[b]@[x].1 as int;
                assert(cb[c]@[j] == (b as usize, x as usize));
                assert(cs[c].prev != NONE);
                assert(passes(cb, bs, c, j));
                assert(false);
            }
        }
    }
    lemma_rows_backing(ballots, bc, bs, m, ws, t, chosen, ballots.len() as int);
    assert(m.take(ballots.len() as int) =~= m);
    assert(ballots.take(ballots.len() as int) =~= ballots);
    assert((size(chosen) as real) * t == backing(ballots, chosen));
}

/// The vote-management strength of a committee of `num_seats` seats against a
/// challenger.  Each ballot is the list of the seats that it prefers to the
/// challenger, with its weight.
///
/// The strength is the largest rate that every choice of seats has ballots to
/// draw for each of its seats: some choice of seats has no more ballots than
/// that.
#[verifier::loop_isolation(false)]
pub fn strength<W: Weight>(num_seats: usize, ballots: &[(Vec<usize>, W)]) -> (r: W)
    requires
        ballots_in_range(num_seats as nat, ballots@),
        ballots_distinct(ballots@),
        weights_nonnegative(ballots@),
    ensures
        r.value() >= 0real,
        r.value() <= total_weight(ballots@),
        (num_seats as real) * r.value() <= total_weight(ballots@),
        upholds(ballots@, num_seats as nat, r.value()),
        num_seats > 0 ==> exhausts(ballots@, num_seats as nat, r.value()),
        num_seats == 0 ==> r.value() == 0real,
{
    let (bc, cb) = wire(num_seats, ballots);
    let mut bs = initial_states(ballots, &bc);
    let mut cs = initial_seats::<W>(num_seats);
    let mut total_flow = W::zero();
    let ghost ws = Seq::new(ballots@.len(), |b: int| ballots@[b].1.value());
    let ghost mut m = Seq::new(ballots@.len(), |b: int| Seq::new(num_seats as nat, |c: int| 0real));
    let ghost mut pb = Seq::new(ballots@.len(), |b: int| 0int);
    let ghost mut pc = Seq::new(num_seats as nat, |c: int| 0int);
    let ghost mut top: int = 0;
    let ghost mut then = flows_of(bs@);
    let ghost mut started = false;
    let ghost limit = (bc@.len() + cb@.len()) * (2 * cb@.len() + 3);
    proof {
        vstd::std_specs::vec::axiom_spec_len(&bc);
        vstd::std_specs::vec::axiom_spec_len(&cb);
        assert(distinct_seats(bc@)) by {
            assert forall|b: int, i: int, j: int|
                0 <= b < bc@.len() && 1 <= i < j < bc@[b]@.len() implies (#[trigger] bc@[b]@[i]).0 != (
            #[trigger] bc@[b]@[j]).0 by {
                assert(bc@[b]@[(i - 1) + 1].0 == ballots@[b].0@[i - 1]);
                assert(bc@[b]@[(j - 1) + 1].0 == ballots@[b].0@[j - 1]);
                assert(ballots@[b].0@.no_duplicates());
            }
        }
        assert(carried(bc@, num_seats as int, bs@, m)) by {
            assert forall|b: int, i: int|
                0 <= b < m.len() && 1 <= i < bc@[b]@.len() implies #[trigger] carries(
                bc@,
                bs@,
                m,
                b,
                i,
            ) by {
                assert(forward_ok(bc@, cb@, b, i));
                assert(ballot_ok(bc@, bs@, b));
                assert(bs@[b].edge_flow@[i].value() == 0real);
            }
        }
        assert(balanced(bs@, m, ws, num_seats as int, 0real)) by {
            assert forall|b: int| 0 <= b < bs@.len() implies (#[trigger] bs@[b]).edge_flow@[0].value()
                + sum_of(m[b]) == ws[b] by {
                assert(ballot_ok(bc@, bs@, b));
                lemma_sum_zero(m[b]);
            }
            assert forall|c: int| 0 <= c < num_seats implies sum_of(#[trigger] column(m, c))
                == 0real by {
                lemma_sum_zero(column(m, c));
            }
        }
        assert(drawn_from(ballots@, bc@, ws));
        assert(history(bc@, cb@, bs@, pb, pc, top)) by {
            assert forall|c: int, j: int|
                0 <= c < cb@.len() && 0 <= j < cb@[c]@.len() implies #[trigger] gives_up(
                cb@,
                bs@,
                pb,
                pc,
                c,
                j,
            ) by {
                assert(backward_ok(bc@, cb@, c, j));
            }
            assert forall|b: int, i: int| 0 <= b < bc@.len() && 1 <= i < bc@[b]@.len() implies pc[(
            #[trigger] bc@[b]@[i]).0 as int] <= pb[b] + 1 by {
                assert(forward_ok(bc@, cb@, b, i));
            }
            if pc.len() > 0 {
                assert(pc[0] == top);
            }
        }
        lemma_isum_bounds(pb, 0, 0);
        lemma_isum_bounds(pc, 0, 0);
        lemma_live_count_nonnegative(bc@, then, pb, pc, top);
        assert(limit >= 0) by (nonlinear_arith)
            requires
                limit == (bc@.len() + cb@.len()) * (2 * cb@.len() + 3),
        ;
    }
    loop
        invariant
            wired(bc@, cb@),
            states_ok(bc@, bs@),
            seats_ok(cb@, cs@),
            counts_zero(bs@, cs@),
            total_flow.value() >= 0real,
            carried(bc@, num_seats as int, bs@, m),
            balanced(bs@, m, ws, num_seats as int, total_flow.value()),
            forall|b: int| 0 <= b < bs@.len() ==> (#[trigger] bs@[b]).prev == NONE,
            forall|c: int| 0 <= c < cs@.len() ==> (#[trigger] cs@[c]).prev == NONE,
            history(bc@, cb@, bs@, pb, pc, top),
            top <= 2 * cb@.len() + 1,
            started ==> since(bc@, bs@, then, pb, pc) && spent(bc@, bs@, then, pb, pc, top),
            !started ==> forall|c: int| 0 <= c < pc.len() ==> #[trigger] pc[c] == 0,
            num_seats == 0 ==> total_flow.value() == 0real,
            isum(pb) + isum(pc) <= limit,
            live_count(bc@, then, pb, pc, top) >= 0,
        decreases limit - (isum(pb) + isum(pc)), live_count(bc@, then, pb, pc, top),
    {
        let ghost before_search = bs@;
        let ghost seats_before_search = cs@;
        let (found, complete, Ghost(low)) = search(
            &bc,
            &cb,
            &mut bs,
            &mut cs,
            Ghost(pb),
            Ghost(pc),
            Ghost(top),
        );
        proof {
            lemma_counts_kept(before_search, seats_before_search, bs@, cs@);
            lemma_table_kept(bc@, before_search, bs@, m, ws, num_seats as int, total_flow.value());
            lemma_history_kept(bc@, cb@, before_search, bs@, pb, pc, top);
            if started {
                lemma_since_kept(bc@, before_search, bs@, then, pb, pc, top);
            }
        }
        if !complete {
            proof {
                lemma_feasible(ballots@, bc@, bs@, m, ws, total_flow.value(), num_seats as nat);
                lemma_all_chosen(ballots@, num_seats as nat, total_flow.value());
                lemma_below_total(ballots@, num_seats as nat, total_flow.value());
                if num_seats > 0 {
                    lemma_tight(ballots@, bc@, cb@, bs@, cs@, found@, m, ws, total_flow.value());
                }
            }
            return total_flow;
        }
        proof {
            let (pb1, pc1) = levels_of(bs@, cs@, low);
            lemma_phase_progress(bc@, cb@, bs@, then, pb, pc, top, pb1, pc1, low + 1, started);
            lemma_isum_bounds(pb1, 0, low + 2);
            lemma_isum_bounds(pc1, 0, low + 1);
            assert(isum(pb1) + isum(pc1) <= limit) by (nonlinear_arith)
                requires
                    isum(pb1) <= pb1.len() * (low + 2),
                    isum(pc1) <= pc1.len() * (low + 1),
                    0 <= low <= 2 * cb@.len(),
                    pb1.len() == bc@.len(),
                    pc1.len() == cb@.len(),
                    limit == (bc@.len() + cb@.len()) * (2 * cb@.len() + 3),
            ;
            pb = pb1;
            pc = pc1;
            top = low + 1;
            then = flows_of(bs@);
            lemma_live_count_nonnegative(bc@, then, pb, pc, top);
            assert(since(bc@, bs@, then, pb, pc)) by {
                assert forall|b: int, i: int|
                    0 <= b < bc@.len() && 0 <= i < bc@[b]@.len() implies #[trigger] created_up(
                    bc@,
                    bs@,
                    then,
                    pb,
                    pc,
                    b,
                    i,
                ) by {
                    assert(ballot_ok(bc@, bs@, b));
                }
                assert forall|b: int| 0 <= b < bc@.len() implies (#[trigger] then[b]).len()
                    == bc@[b]@.len() by {
                    assert(ballot_ok(bc@, bs@, b));
                }
            }
            assert(agree(bs@, cs@, pb, pc));
        }
        let mut ok = true;
        let ghost mut pushed = false;
        while ok
            invariant
                states_ok(bc@, bs@),
                seats_ok(cb@, cs@),
                counts_zero(bs@, cs@),
                total_flow.value() >= 0real,
                carried(bc@, num_seats as int, bs@, m),
                balanced(bs@, m, ws, num_seats as int, total_flow.value()),
                level_order(cs@, found@),
                history(bc@, cb@, bs@, pb, pc, top),
                since(bc@, bs@, then, pb, pc),
                agree(bs@, cs@, pb, pc),
                pushed ==> spent(bc@, bs@, then, pb, pc, top),
                !ok ==> pushed,
                ok ==> forall|q: int|
                    0 <= q < found@.len() ==> #[trigger] linked(
                        bc@,
                        cb@,
                        bs@,
                        cs@,
                        found@[q] as int,
                    ),
            decreases rank_sum(bc@, bs@, bs@.len()) + if ok { 1nat } else { 0nat },
        {
            proof {
                assert forall|q: int| 0 <= q < found@.len() implies #[trigger] attached(
                    bc@,
                    cb@,
                    bs@,
                    cs@,
                    found@[q] as int,
                ) by {
                    assert(linked(bc@, cb@, bs@, cs@, found@[q] as int));
                }
            }
            let ghost at_start = bs@;
            let ghost cs_start = cs@;
            count_pass(&bc, &cb, &mut bs, &mut cs, &found);
            proof {
                lemma_edges_kept(bc@, at_start, bs@, m, ws, num_seats as int, total_flow.value());
            }
            let (flow, Ghost(at)) = bottleneck(&bc, &cb, &bs, &cs, &found);
            let ghost earlier = total_flow.value();
            let ghost counted_bs = bs@;
            let ghost counted_cs = cs@;
            total_flow = total_flow.plus(&flow);
            let table = augment(
                &bc,
                &cb,
                &mut bs,
                &mut cs,
                &found,
                &flow,
                Ghost(at),
                Ghost(m),
                Ghost(ws),
                Ghost(earlier),
            );
            proof {
                m = table@;
                lemma_augmented(
                    bc@,
                    cb@,
                    at_start,
                    cs_start,
                    counted_bs,
                    counted_cs,
                    bs@,
                    cs@,
                    then,
                    pb,
                    pc,
                    top,
                    found@[at] as int,
                );
                pushed = true;
            }
            let ghost before = bs@;
            let ghost cs_before = cs@;
            ok = relink(&bc, &cb, &mut bs, &mut cs, &found);
            proof {
                lemma_counts_kept(before, cs_before, bs@, cs@);
                lemma_table_kept(bc@, before, bs@, m, ws, num_seats as int, total_flow.value());
                lemma_history_kept(bc@, cb@, before, bs@, pb, pc, top);
                lemma_since_kept(bc@, before, bs@, then, pb, pc, top);
                assert forall|p: int, q: int| 0 <= p < q < found@.len() implies cs@[#[trigger] found@[p] as int].level
                    <= cs@[#[trigger] found@[q] as int].level by {
                    assert(attached(bc@, cb@, before, cs_before, found@[p] as int));
                    assert(attached(bc@, cb@, before, cs_before, found@[q] as int));
                    assert(cs_start[found@[p] as int].level <= cs_start[found@[q] as int].level);
                }
                assert forall|b: int| 0 <= b < before.len() implies #[trigger] rank(bc@, before, b)
                    <= rank(bc@, at_start, b) by {
                    assert(before[b].prev == at_start[b].prev);
                }
                assert(agree(bs@, cs@, pb, pc)) by {
                    assert forall|b: int|
                        0 <= b < bs@.len() && (#[trigger] bs@[b]).prev != NONE implies pb[b]
                        == bs@[b].level by {
                        assert(rank(bc@, bs@, b) <= rank(bc@, before, b));
                        assert(ballot_ok(bc@, bs@, b));
                        assert(ballot_ok(bc@, before, b));
                        assert(before[b].prev != NONE);
                        assert(bs@[b].level == before[b].level);
                    }
                    assert forall|c: int| 0 <= c < cs@.len() implies #[trigger] pc[c]
                        == cs@[c].level by {
                        assert(pc[c] == cs_before[c].level);
                    }
                }
                lemma_rank_sum_monotone(bc@, at_start, before, bs@.len());
                lemma_rank_sum_monotone(bc@, before, bs@, bs@.len());
                if ok {
                    assert(progress(bc@, cb@, before, cs_before, bs@, found@[at] as int));
                    assert(attached(bc@, cb@, before, cs_before, found@[at] as int));
                    lemma_attached_frame(
                        bc@,
                        cb@,
                        before,
                        cs_before,
                        before,
                        cs_before,
                        found@[at] as int,
                    );
                    lemma_rank_sum_drops(
                        bc@,
                        before,
                        bs@,
                        bs@.len(),
                        feeder(cb@, cs_before, found@[at] as int),
                    );
                }
            }
        }
        let ghost before_forget = bs@;
        let ghost seats_before_forget = cs@;
        forget(&bc, &cb, &mut bs, &mut cs);
        proof {
            lemma_counts_kept(before_forget, seats_before_forget, bs@, cs@);
            lemma_table_kept(bc@, before_forget, bs@, m, ws, num_seats as int, total_flow.value());
            lemma_history_kept(bc@, cb@, before_forget, bs@, pb, pc, top);
            lemma_since_kept(bc@, before_forget, bs@, then, pb, pc, top);
            started = true;
        }
    }
}

/// What is known after one round of counting and pushing.
proof fn lemma_augmented<W: Weight>(
    bc: Seq<Vec<(usize, usize)>>,
    cb: Seq<Vec<(usize, usize)>>,
    bs0: Seq<BallotState<W>>,
    cs0: Seq<CandidateState<W>>,
    bs1: Seq<BallotState<W>>,
    cs1: Seq<CandidateState<W>>,
    bs: Seq<BallotState<W>>,
    cs: Seq<CandidateState<W>>,
    then: Seq<Seq<real>>,
    pb: Seq<int>,
    pc: Seq<int>,
    top: int,
    c: int,
)
    requires
        wired(bc, cb),
        bc.len() <= usize::MAX,
        cb.len() <= usize::MAX,
        states_ok(bc, bs0),
        states_ok(bc, bs1),
        states_ok(bc, bs),
        cs0.len() == cb.len(),
        same_links(bs0, bs1),
        same_seat_links(cs0, cs1),
        same_links(bs1, bs),
        same_seat_links(cs1, cs),
        forall|b: int| 0 <= b < bs0.len() ==> (#[trigger] bs1[b]).edge_flow == bs0[b].edge_flow,
        history(bc, cb, bs0, pb, pc, top),
        since(bc, bs0, then, pb, pc),
        agree(bs0, cs0, pb, pc),
        forall|b: int, i: int|
            0 <= b < bc.len() && 0 <= i < bc[b]@.len() ==> #[trigger] rose(bc, bs1, bs, cs1, b, i),
        linked(bc, cb, bs0, cs0, c),
        feeder_flow(cb, bs, cs, c) == 0real,
    ensures
        history(bc, cb, bs, pb, pc, top),
        since(bc, bs, then, pb, pc),
        spent(bc, bs, then, pb, pc, top),
        agree(bs, cs, pb, pc),
{
    assert forall|b: int, i: int| 0 <= b < bc.len() && 0 <= i < bc[b]@.len() implies #[trigger] rose(
        bc,
        bs0,
        bs,
        cs0,
        b,
        i,
    ) by {
        assert(rose(bc, bs1, bs, cs1, b, i));
        assert(bs1[b].edge_flow == bs0[b].edge_flow);
        if i >= 1 {
            assert(forward_ok(bc, cb, b, i));
        }
    }
    let j = cs0[c].prev as int;
    assert(backward_ok(bc, cb, c, j));
    assert forall|b: int| 0 <= b < bs0.len() implies (#[trigger] bs[b]).prev == bs0[b].prev
        && bs[b].level == bs0[b].level by {
        assert(bs0[b].prev == bs1[b].prev);
        assert(bs1[b].prev == bs[b].prev);
    }
    assert forall|e: int| 0 <= e < cs0.len() implies (#[trigger] cs[e]).prev == cs0[e].prev
        && cs[e].level == cs0[e].level by {
        assert(cs0[e].prev == cs1[e].prev);
        assert(cs1[e].prev == cs[e].prev);
    }
    assert(feeder(cb, cs, c) == feeder(cb, cs0, c));
    assert(feeder_flow(cb, bs, cs0, c) == 0real);
    assert(same_links(bs0, bs));
    lemma_after_augment(bc, cb, bs0, bs, cs0, then, pb, pc, top, c);
}

/// The table stays that of the flows when no flow has changed.
proof fn lemma_edges_kept<W: Weight>(
    bc: Seq<Vec<(usize, usize)>>,
    bs0: Seq<BallotState<W>>,
    bs: Seq<BallotState<W>>,
    m: Seq<Seq<real>>,
    ws: Seq<real>,
    k: int,
    t: real,
)
    requires
        carried(bc, k, bs0, m),
        balanced(bs0, m, ws, k, t),
        bs.len() == bs0.len(),
        forall|b: int| 0 <= b < bs0.len() ==> (#[trigger] bs[b]).edge_flow == bs0[b].edge_flow,
    ensures
        carried(bc, k, bs, m),
        balanced(bs, m, ws, k, t),
{
    assert forall|b: int, i: int| 0 <= b < m.len() && 1 <= i < bc[b]@.len() implies #[trigger] carries(
        bc,
        bs,
        m,
        b,
        i,
    ) by {
        assert(carries(bc, bs0, m, b, i));
        assert(bs[b].edge_flow == bs0[b].edge_flow);
    }
    assert forall|b: int| 0 <= b < bs.len() implies (#[trigger] bs[b]).edge_flow@[0].value() + sum_of(
        m[b],
    ) == ws[b] by {
        assert(bs0[b].edge_flow@[0].value() + sum_of(m[b]) == ws[b]);
        assert(bs[b].edge_flow == bs0[b].edge_flow);
    }
}

proof fn lemma_table_kept<W: Weight>(
    bc: Seq<Vec<(usize, usize)>>,
    bs0: Seq<BallotState<W>>,
    bs: Seq<BallotState<W>>,
    m: Seq<Seq<real>>,
    ws: Seq<real>,
    k: int,
    t: real,
)
    requires
        carried(bc, k, bs0, m),
        balanced(bs0, m, ws, k, t),
        same_flows(bs0, bs),
    ensures
        carried(bc, k, bs, m),
        balanced(bs, m, ws, k, t),
{
    assert forall|b: int| 0 <= b < bs0.len() implies (#[trigger] bs[b]).edge_flow
        == bs0[b].edge_flow by {
        assert(bs0[b].edge_flow == bs[b].edge_flow);
    }
    lemma_edges_kept(bc, bs0, bs, m, ws, k, t);
}

/// Counts that were zero are zero when no count has changed.
proof fn lemma_counts_kept<W: Weight>(
    bs0: Seq<BallotState<W>>,
    cs0: Seq<CandidateState<W>>,
    bs: Seq<BallotState<W>>,
    cs: Seq<CandidateState<W>>,
)
    requires
        counts_zero(bs0, cs0),
        same_flows(bs0, bs),
        same_seat_counts(cs0, cs),
    ensures
        counts_zero(bs, cs),
{
    assert forall|b: int| 0 <= b < bs.len() implies (#[trigger] bs[b]).count.value() == 0real by {
        assert(bs0[b].count == bs[b].count);
    }
    assert forall|c: int| 0 <= c < cs.len() implies (#[trigger] cs[c]).count.value() == 0real by {
        assert(cs0[c].count == cs[c].count);
    }
}

/// The weight of the ballots that name a chosen seat is at most the weight of
/// all ballots.
proof fn lemma_backing_bound<W: Weight>(ballots: Seq<(Vec<usize>, W)>, chosen: Seq<bool>)
    requires
        weights_nonnegative(ballots),
    ensures
        backing(ballots, chosen) <= total_weight(ballots),
    decreases ballots.len(),
{
    if ballots.len() > 0 {
        assert(weights_nonnegative(ballots.drop_last())) by {
            assert forall|b: int| 0 <= b < ballots.drop_last().len() implies (
            #[trigger] ballots.drop_last()[b]).1.value() >= 0real by {
                assert(ballots[b].1.value() >= 0real);
            }
        }
        lemma_backing_bound(ballots.drop_last(), chosen);
        assert(ballots[ballots.len() - 1].1.value() >= 0real);
    }
}

proof fn lemma_size_all(chosen: Seq<bool>)
    requires
        forall|c: int| 0 <= c < chosen.len() ==> chosen[c],
    ensures
        size(chosen) == chosen.len(),
    decreases chosen.len(),
{
    if chosen.len() > 0 {
        lemma_size_all(chosen.drop_last());
    }
}

/// If every choice of seats can draw `t` for each of them, all seats together
/// draw no more than the ballots weigh.
proof fn lemma_all_chosen<W: Weight>(ballots: Seq<(Vec<usize>, W)>, k: nat, t: real)
    requires
        upholds(ballots, k, t),
        weights_nonnegative(ballots),
    ensures
        (k as real) * t <= total_weight(ballots),
{
    let chosen = Seq::new(k, |c: int| true);
    lemma_size_all(chosen);
    lemma_backing_bound(ballots, chosen);
    assert((size(chosen) as real) * t <= backing(ballots, chosen));
}

/// A rate that all seats together can draw is itself within the weight of the
/// ballots.
proof fn lemma_below_total<W: Weight>(ballots: Seq<(Vec<usize>, W)>, k: nat, t: real)
    requires
        weights_nonnegative(ballots),
        t >= 0real,
        (k as real) * t <= total_weight(ballots),
        k == 0 ==> t == 0real,
    ensures
        t <= total_weight(ballots),
{
    if k == 0 {
        lemma_backing_bound(ballots, Seq::<bool>::empty());
        lemma_backing_nonnegative(ballots, Seq::<bool>::empty());
    } else {
        assert(t <= (k as real) * t) by (nonlinear_arith)
            requires
                t >= 0real,
                k >= 1,
        ;
    }
}

/// What stands behind a choice of seats is not negative.
proof fn lemma_backing_nonnegative<W: Weight>(ballots: Seq<(Vec<usize>, W)>, chosen: Seq<bool>)
    requires
        weights_nonnegative(ballots),
    ensures
        backing(ballots, chosen) >= 0real,
    decreases ballots.len(),
{
    if ballots.len() > 0 {
        assert(ballots[ballots.len() - 1].1.value() >= 0real);
        assert(weights_nonnegative(ballots.drop_last())) by {
            assert forall|b: int| 0 <= b < ballots.drop_last().len() implies (
            #[trigger] ballots.drop_last()[b]).1.value() >= 0real by {
                assert(ballots[b].1.value() >= 0real);
            }
        }
        lemma_backing_nonnegative(ballots.drop_last(), chosen);
    }
}

} // verus!
