//! Proportional completion: ballots that leave some seats tied with the
//! challenger are replaced by ballots that do not, in the proportions in which
//! the other ballots break those ties.

use crate::traits::Weight;
use crate::util::{
    combine_dups2, folded, folds_on, grouped, judged, may_combine, may_judge, may_order, may_pair,
    merge_combine, merged, ordered, tail_run,
};
use std::cmp::Ordering;
use vstd::prelude::*;

verus! {

/// How a ballot ranks one seat of a committee against the challenger.
#[derive(Clone, Copy, PartialEq, Eq, Debug)]
pub enum Preference {
    /// The ballot prefers the seat.
    Greater,
    /// The ballot is indifferent between the two.
    Equal,
    /// The ballot prefers the challenger.
    Less,
}

/// A pattern as two bit masks over the seats: the seats that are tied with the
/// challenger, and the seats that are preferred to the challenger.
pub type Key = (u64, u64);

/// Whether bit `i` of `mask` is set.
pub open spec fn bit(mask: u64, i: int) -> bool {
    0 <= i < 64 && (mask >> (i as u64)) & 1 == 1
}

/// The positions below `n` at which `mask` has a bit set, in ascending order.
pub open spec fn positions(mask: u64, n: nat) -> Seq<usize>
    decreases n,
{
    if n == 0 {
        Seq::empty()
    } else if bit(mask, n - 1) {
        positions(mask, (n - 1) as nat).push((n - 1) as usize)
    } else {
        positions(mask, (n - 1) as nat)
    }
}

/// The masks of a pattern: bit `i` of the first is set where seat `i` is tied,
/// bit `i` of the second where seat `i` is preferred.
pub open spec fn encodes(a: Seq<Preference>, key: Key) -> bool {
    &&& forall|i: int| 0 <= i < a.len() ==> #[trigger] bit(key.0, i) == (a[i] == Preference::Equal)
    &&& forall|i: int| 0 <= i < a.len() ==> #[trigger] bit(key.1, i) == (a[i] == Preference::Greater)
    &&& forall|i: int| a.len() <= i < 64 ==> !#[trigger] bit(key.0, i)
    &&& forall|i: int| a.len() <= i < 64 ==> !#[trigger] bit(key.1, i)
}

/// The two masks of a pattern: seat `i` stands at bit `i`.
pub open spec fn key_of(a: Seq<Preference>) -> Key
    decreases a.len(),
{
    if a.len() == 0 {
        (0, 0)
    } else {
        let rest = key_of(a.skip(1));
        (
            (rest.0 << 1) | if a[0] == Preference::Equal {
                1u64
            } else {
                0u64
            },
            (rest.1 << 1) | if a[0] == Preference::Greater {
                1u64
            } else {
                0u64
            },
        )
    }
}

proof fn lemma_shift_in(m: u64, b: u64)
    requires
        b == 0 || b == 1,
    ensures
        bit((m << 1) | b, 0) == (b == 1),
        forall|j: int| 1 <= j < 64 ==> #[trigger] bit((m << 1) | b, j) == bit(m, j - 1),
{
    let m2 = (m << 1) | b;
    assert((m2 >> 0) & 1 == b) by (bit_vector)
        requires
            m2 == (m << 1) | b,
            b == 0 || b == 1,
    ;
    assert forall|j: int| 1 <= j < 64 implies #[trigger] bit(m2, j) == bit(m, j - 1) by {
        let ju = j as u64;
        let jp = (j - 1) as u64;
        assert((m2 >> ju) & 1 == (m >> jp) & 1) by (bit_vector)
            requires
                m2 == (m << 1) | b,
                b == 0 || b == 1,
                1 <= ju < 64,
                jp == ju - 1,
        ;
    }
}

proof fn lemma_zero_has_no_bits()
    ensures
        forall|i: int| !#[trigger] bit(0, i),
{
    assert forall|i: int| !#[trigger] bit(0, i) by {
        if 0 <= i < 64 {
            let iu = i as u64;
            assert((0u64 >> iu) & 1 == 0) by (bit_vector);
        }
    }
}

/// The masks `key_of` have bit `i` set exactly where seat `i` is tied, and where
/// it is preferred; no seat is both.
pub proof fn lemma_key_of_encodes(a: Seq<Preference>)
    requires
        a.len() <= 64,
    ensures
        encodes(a, key_of(a)),
        key_of(a).0 & key_of(a).1 == 0,
    decreases a.len(),
{
    if a.len() == 0 {
        lemma_zero_has_no_bits();
        assert(0u64 & 0u64 == 0) by (bit_vector);
    } else {
        let rest = key_of(a.skip(1));
        let e = if a[0] == Preference::Equal {
            1u64
        } else {
            0u64
        };
        let g = if a[0] == Preference::Greater {
            1u64
        } else {
            0u64
        };
        lemma_key_of_encodes(a.skip(1));
        lemma_shift_in(rest.0, e);
        lemma_shift_in(rest.1, g);
        let (r0, r1) = rest;
        assert(((r0 << 1) | e) & ((r1 << 1) | g) == 0) by (bit_vector)
            requires
                r0 & r1 == 0,
                (e == 0 && g == 0) || (e == 1 && g == 0) || (e == 0 && g == 1),
        ;
        let key = key_of(a);
        assert forall|i: int| 0 <= i < a.len() implies #[trigger] bit(key.0, i) == (a[i]
            == Preference::Equal) by {
            if i >= 1 {
                assert(bit(rest.0, i - 1) == (a.skip(1)[i - 1] == Preference::Equal));
            }
        }
        assert forall|i: int| 0 <= i < a.len() implies #[trigger] bit(key.1, i) == (a[i]
            == Preference::Greater) by {
            if i >= 1 {
                assert(bit(rest.1, i - 1) == (a.skip(1)[i - 1] == Preference::Greater));
            }
        }
        assert forall|i: int| a.len() <= i < 64 implies !#[trigger] bit(key.0, i) by {
            assert(!bit(rest.0, i - 1));
        }
        assert forall|i: int| a.len() <= i < 64 implies !#[trigger] bit(key.1, i) by {
            assert(!bit(rest.1, i - 1));
        }
    }
}

/// A pattern without ties has no bit in its first mask.
pub proof fn lemma_key_without_ties(a: Seq<Preference>)
    requires
        forall|i: int| 0 <= i < a.len() ==> a[i] != Preference::Equal,
    ensures
        key_of(a).0 == 0,
    decreases a.len(),
{
    if a.len() > 0 {
        assert forall|i: int| 0 <= i < a.skip(1).len() implies a.skip(1)[i] != Preference::Equal by {
            assert(a[i + 1] != Preference::Equal);
        }
        lemma_key_without_ties(a.skip(1));
        assert((0u64 << 1) | 0u64 == 0) by (bit_vector);
    }
}

/// The two masks of a pattern of at most 64 seats.
pub fn encode_pattern(a: &[Preference]) -> (key: Key)
    requires
        a@.len() <= 64,
    ensures
        key == key_of(a@),
        encodes(a@, key),
        key.0 & key.1 == 0,
{
    proof {
        lemma_key_of_encodes(a@);
    }
    let mut eq: u64 = 0;
    let mut gt: u64 = 0;
    let mut i: usize = a.len();
    proof {
        assert(a@.skip(a@.len() as int) =~= Seq::empty());
    }
    while i > 0
        invariant
            i <= a@.len(),
            (eq, gt) == key_of(a@.skip(i as int)),
        decreases i,
    {
        i -= 1;
        let (e, g): (u64, u64) = match a[i] {
            Preference::Equal => (1, 0),
            Preference::Greater => (0, 1),
            Preference::Less => (0, 0),
        };
        proof {
            assert(a@.skip(i as int).skip(1) =~= a@.skip(i + 1));
        }
        eq = (eq << 1) | e;
        gt = (gt << 1) | g;
    }
    proof {
        assert(a@.skip(0) =~= a@);
    }
    (eq, gt)
}

/// The positions at which `mask` has a bit set, in ascending order.
pub fn decode_bits(mask: u64) -> (cs: Vec<usize>)
    ensures
        cs@ == positions(mask, 64),
{
    let mut cs: Vec<usize> = Vec::new();
    let mut i: usize = 0;
    while i < 64
        invariant
            i <= 64,
            cs@ == positions(mask, i as nat),
        decreases 64 - i,
    {
        if (mask >> (i as u64)) & 1 == 1 {
            cs.push(i);
        }
        i += 1;
    }
    cs
}

/// What a sum over weighted patterns adds up.
pub enum Measure {
    /// The weight of every pattern.
    All,
    /// The weight of the patterns with this key.
    Of(Key),
    /// One for every pattern with this key.
    Count(Key),
    /// The weight of the patterns that break the ties of the first pattern so
    /// that it becomes the second.
    Breaks(Key, Key),
}

/// The tied pattern `t` with its ties broken as the pattern `r` ranks the tied
/// seats: the seats that `r` ties too stay tied, and those that `r` prefers
/// are preferred.
pub open spec fn broken_key(t: Key, r: Key) -> Key {
    (t.0 & r.0, t.1 | (t.0 & r.1))
}

/// What one weighted pattern contributes to a sum.
pub open spec fn term<W: Weight>(e: (Key, W), what: Measure) -> real {
    match what {
        Measure::All => e.1.value(),
        Measure::Of(key) => if e.0 == key {
            e.1.value()
        } else {
            0real
        },
        Measure::Count(key) => if e.0 == key {
            1real
        } else {
            0real
        },
        Measure::Breaks(t, key) => if broken_key(t, e.0) == key {
            e.1.value()
        } else {
            0real
        },
    }
}

/// The sum of what the weighted patterns of `s` contribute.
pub open spec fn sum_by<W: Weight>(s: Seq<(Key, W)>, what: Measure) -> real
    decreases s.len(),
{
    if s.len() == 0 {
        0real
    } else {
        sum_by(s.drop_last(), what) + term(s.last(), what)
    }
}

/// The sum of all weights in `s`.
pub open spec fn total<W: Weight>(s: Seq<(Key, W)>) -> real {
    sum_by(s, Measure::All)
}

/// The sum of the weights that `s` gives to the pattern `key`.
pub open spec fn weight_of<W: Weight>(s: Seq<(Key, W)>, key: Key) -> real {
    sum_by(s, Measure::Of(key))
}

/// The order of the keys: by the first mask, then by the second.
pub open spec fn key_lt(a: Key, b: Key) -> bool {
    a.0 < b.0 || (a.0 == b.0 && a.1 < b.1)
}

/// No pattern of `s` comes before an earlier one in the order of the keys.
pub open spec fn sorted_weak<W>(s: Seq<(Key, W)>) -> bool {
    forall|i: int, j: int| 0 <= i < j < s.len() ==> !key_lt(#[trigger] s[j].0, #[trigger] s[i].0)
}

/// The keys of `s` are strictly ascending.
pub open spec fn sorted_strict<W>(s: Seq<(Key, W)>) -> bool {
    forall|i: int, j: int| 0 <= i < j < s.len() ==> key_lt(#[trigger] s[i].0, #[trigger] s[j].0)
}

/// Every weight in `s` is positive.
pub open spec fn positive<W: Weight>(s: Seq<(Key, W)>) -> bool {
    forall|i: int| 0 <= i < s.len() ==> (#[trigger] s[i]).1.value() > 0real
}

proof fn lemma_sum_split<W: Weight>(s: Seq<(Key, W)>, m: int, what: Measure)
    requires
        0 <= m <= s.len(),
    ensures
        sum_by(s, what) == sum_by(s.take(m), what) + sum_by(s.skip(m), what),
    decreases s.len(),
{
    if m == s.len() {
        assert(s.take(m) =~= s);
        assert(s.skip(m) =~= Seq::empty());
    } else {
        lemma_sum_split(s.drop_last(), m, what);
        assert(s.drop_last().take(m) =~= s.take(m));
        assert(s.drop_last().skip(m) =~= s.skip(m).drop_last());
    }
}

proof fn lemma_sum_push<W: Weight>(s: Seq<(Key, W)>, e: (Key, W), what: Measure)
    ensures
        sum_by(s.push(e), what) == sum_by(s, what) + term(e, what),
{
    assert(s.push(e).drop_last() =~= s);
}

proof fn lemma_sum_concat<W: Weight>(a: Seq<(Key, W)>, b: Seq<(Key, W)>, what: Measure)
    ensures
        sum_by(a + b, what) == sum_by(a, what) + sum_by(b, what),
{
    lemma_sum_split(a + b, a.len() as int, what);
    assert((a + b).take(a.len() as int) =~= a);
    assert((a + b).skip(a.len() as int) =~= b);
}

proof fn lemma_sum_remove<W: Weight>(s: Seq<(Key, W)>, j: int, what: Measure)
    requires
        0 <= j < s.len(),
    ensures
        sum_by(s, what) == sum_by(s.remove(j), what) + term(s[j], what),
    decreases s.len(),
{
    if j == s.len() - 1 {
        assert(s.remove(j) =~= s.drop_last());
    } else {
        lemma_sum_remove(s.drop_last(), j, what);
        assert(s.remove(j).drop_last() =~= s.drop_last().remove(j));
    }
}

/// A sum does not depend on the order of the weighted patterns.
proof fn lemma_sum_permutation<W: Weight>(a: Seq<(Key, W)>, b: Seq<(Key, W)>, what: Measure)
    requires
        a.to_multiset() == b.to_multiset(),
    ensures
        sum_by(a, what) == sum_by(b, what),
    decreases a.len(),
{
    broadcast use vstd::seq_lib::group_to_multiset_ensures;

    if a.len() == 0 {
        assert(a.to_multiset().len() == a.len());
        assert(b.to_multiset().len() == b.len());
    } else {
        let x = a.last();
        let a1 = a.drop_last();
        assert(a =~= a1.push(x));
        assert(b.to_multiset().count(x) > 0);
        assert(b.contains(x));
        let j = choose|j: int| 0 <= j < b.len() && b[j] == x;
        let b1 = b.remove(j);
        assert(a1.to_multiset() =~= a.to_multiset().remove(x));
        assert(b1.to_multiset() =~= b.to_multiset().remove(x));
        lemma_sum_permutation(a1, b1, what);
        lemma_sum_remove(b, j, what);
    }
}

proof fn lemma_sum_nonnegative<W: Weight>(s: Seq<(Key, W)>, what: Measure)
    requires
        positive(s),
    ensures
        sum_by(s, what) >= 0real,
    decreases s.len(),
{
    if s.len() > 0 {
        assert(s.last().1.value() > 0real);
        assert(positive(s.drop_last())) by {
            assert forall|i: int| 0 <= i < s.drop_last().len() implies (#[trigger] s.drop_last()[i]).1.value()
                > 0real by {
                assert(s[i].1.value() > 0real);
            }
        }
        lemma_sum_nonnegative(s.drop_last(), what);
    }
}

/// A key has weight in `s` exactly if one of the patterns of `s` has it.
proof fn lemma_present<W: Weight>(s: Seq<(Key, W)>, key: Key)
    requires
        positive(s),
    ensures
        weight_of(s, key) > 0real <==> exists|i: int| 0 <= i < s.len() && (#[trigger] s[i]).0 == key,
        weight_of(s, key) >= 0real,
    decreases s.len(),
{
    if s.len() > 0 {
        let r = s.drop_last();
        assert(positive(r)) by {
            assert forall|i: int| 0 <= i < r.len() implies (#[trigger] r[i]).1.value() > 0real by {
                assert(s[i].1.value() > 0real);
            }
        }
        lemma_present(r, key);
        assert(s.last().1.value() > 0real);
        if weight_of(s, key) > 0real {
            if s.last().0 == key {
                assert(s[s.len() - 1].0 == key);
            } else {
                let i = choose|i: int| 0 <= i < r.len() && (#[trigger] r[i]).0 == key;
                assert(s[i].0 == key);
            }
        }
        if exists|i: int| 0 <= i < s.len() && (#[trigger] s[i]).0 == key {
            let i = choose|i: int| 0 <= i < s.len() && (#[trigger] s[i]).0 == key;
            if i < r.len() {
                assert(r[i].0 == key);
            }
        }
    }
}

/// Whether the measure adds up weights, and adds the weight of a pattern with
/// this key.
pub open spec fn hits(key: Key, what: Measure) -> bool {
    match what {
        Measure::All => true,
        Measure::Of(k) => key == k,
        Measure::Count(_) => false,
        Measure::Breaks(t, q) => broken_key(t, key) == q,
    }
}

/// The list without the patterns of the key `key`.
pub open spec fn without<W>(s: Seq<(Key, W)>, key: Key) -> Seq<(Key, W)>
    decreases s.len(),
{
    if s.len() == 0 {
        s
    } else if s.last().0 == key {
        without(s.drop_last(), key)
    } else {
        without(s.drop_last(), key).push(s.last())
    }
}

/// A sum of weights is the sum without the patterns of one key, and the weight
/// of that key if the measure adds it.
proof fn lemma_sum_without<W: Weight>(s: Seq<(Key, W)>, key: Key, what: Measure)
    requires
        !(what is Count),
    ensures
        sum_by(s, what) == sum_by(without(s, key), what) + if hits(key, what) {
            weight_of(s, key)
        } else {
            0real
        },
        without(s, key).len() <= s.len(),
        s.len() > 0 && s.last().0 == key ==> without(s, key).len() < s.len(),
    decreases s.len(),
{
    if s.len() > 0 {
        lemma_sum_without(s.drop_last(), key, what);
        if s.last().0 != key {
            assert(without(s, key).drop_last() =~= without(s.drop_last(), key));
        }
    }
}

/// Lists that give every pattern the same weight have the same sums of
/// weights.
pub proof fn lemma_sum_same<W: Weight>(a: Seq<(Key, W)>, b: Seq<(Key, W)>, what: Measure)
    requires
        !(what is Count),
        forall|key: Key| #[trigger] weight_of(a, key) == weight_of(b, key),
    ensures
        sum_by(a, what) == sum_by(b, what),
    decreases a.len() + b.len(),
{
    if a.len() + b.len() > 0 {
        let key = if a.len() > 0 {
            a.last().0
        } else {
            b.last().0
        };
        let a1 = without(a, key);
        let b1 = without(b, key);
        lemma_sum_without(a, key, what);
        lemma_sum_without(b, key, what);
        assert(weight_of(a, key) == weight_of(b, key));
        assert forall|k: Key| #[trigger] weight_of(a1, k) == weight_of(b1, k) by {
            lemma_sum_without(a, key, Measure::Of(k));
            lemma_sum_without(b, key, Measure::Of(k));
            assert(weight_of(a, k) == weight_of(b, k));
        }
        lemma_sum_same(a1, b1, what);
    }
}

/// The order of two keys.
pub fn key_order(a: &Key, b: &Key) -> (o: Ordering)
    ensures
        match o {
            Ordering::Less => key_lt(*a, *b),
            Ordering::Equal => *a == *b,
            Ordering::Greater => key_lt(*b, *a),
        },
{
    if a.0 < b.0 {
        Ordering::Less
    } else if a.0 > b.0 {
        Ordering::Greater
    } else if a.1 < b.1 {
        Ordering::Less
    } else if a.1 > b.1 {
        Ordering::Greater
    } else {
        Ordering::Equal
    }
}

/// `slice::sort_by` with the order of the keys: the same weighted patterns,
/// none before an earlier one in that order.
#[verifier::external_body]
fn sort_patterns<W>(v: &mut Vec<(Key, W)>)
    ensures
        final(v)@.to_multiset() == old(v)@.to_multiset(),
        sorted_weak(final(v)@),
{
    v.sort_by(|a, b| key_order(&a.0, &b.0));
}

/// All patterns of `run` have the key `key`.
spec fn uniform<W>(run: Seq<(Key, W)>, key: Key) -> bool {
    forall|i: int| 0 <= i < run.len() ==> (#[trigger] run[i]).0 == key
}

/// The closures with which patterns of one key are added up.
spec fn adds_up<W: Weight, E, O, T, M>(eq: E, one: O, two: T, more: M) -> bool where
    E: Fn(&(Key, W), &(Key, W)) -> bool,
    O: Fn((Key, W)) -> (Key, W),
    T: Fn((Key, W), (Key, W)) -> (Key, W),
    M: Fn((Key, W), (Key, W)) -> (Key, W),
 {
    &&& forall|x: (Key, W), y: (Key, W), r: bool| #[trigger]
        call_ensures(eq, (&x, &y), r) ==> r == (x.0 == y.0)
    &&& forall|x: (Key, W), r: (Key, W)| #[trigger]
        call_ensures(one, (x,), r) ==> r.0 == x.0 && r.1.value() == x.1.value()
    &&& forall|x: (Key, W), y: (Key, W), r: (Key, W)| #[trigger]
        call_ensures(two, (x, y), r) ==> r.0 == x.0 && r.1.value() == x.1.value() + y.1.value()
    &&& forall|x: (Key, W), y: (Key, W), r: (Key, W)| #[trigger]
        call_ensures(more, (x, y), r) ==> r.0 == x.0 && r.1.value() == x.1.value() + y.1.value()
}

proof fn lemma_uniform_sum<W: Weight>(run: Seq<(Key, W)>, key: Key, other: Key)
    requires
        uniform(run, key),
    ensures
        weight_of(run, other) == if other == key {
            total(run)
        } else {
            0real
        },
    decreases run.len(),
{
    if run.len() > 0 {
        assert(run.last().0 == key);
        assert(uniform(run.drop_last(), key)) by {
            assert forall|i: int| 0 <= i < run.drop_last().len() implies (#[trigger] run.drop_last()[i]).0
                == key by {
                assert(run[i].0 == key);
            }
        }
        lemma_uniform_sum(run.drop_last(), key, other);
    }
}

proof fn lemma_folded_sum<W: Weight, E, O, T, M>(
    eq: E,
    one: O,
    two: T,
    more: M,
    run: Seq<(Key, W)>,
    key: Key,
    b: (Key, W),
) where
    E: Fn(&(Key, W), &(Key, W)) -> bool,
    O: Fn((Key, W)) -> (Key, W),
    T: Fn((Key, W), (Key, W)) -> (Key, W),
    M: Fn((Key, W), (Key, W)) -> (Key, W),

    requires
        adds_up(eq, one, two, more),
        uniform(run, key),
        folded(one, two, more, run, b),
    ensures
        b.0 == key,
        b.1.value() == total(run),
    decreases run.len(),
{
    reveal_with_fuel(sum_by, 3);
    if run.len() == 1 {
        assert(run[0].0 == key);
        assert(run.drop_last() =~= Seq::empty());
    } else if run.len() == 2 {
        assert(run[0].0 == key);
        assert(run.drop_last().drop_last() =~= Seq::empty());
        assert(run.drop_last().last() == run[0]);
    } else {
        let g = choose|g: (Key, W)|
            folded(one, two, more, run.drop_last(), g) && #[trigger] folds_on(
                more,
                g,
                run.last(),
                b,
            );
        assert(uniform(run.drop_last(), key)) by {
            assert forall|i: int| 0 <= i < run.drop_last().len() implies (#[trigger] run.drop_last()[i]).0
                == key by {
                assert(run[i].0 == key);
            }
        }
        lemma_folded_sum(eq, one, two, more, run.drop_last(), key, g);
    }
}

proof fn lemma_grouped_sums<W: Weight, E, O, T, M>(
    eq: E,
    one: O,
    two: T,
    more: M,
    s: Seq<(Key, W)>,
    out: Seq<(Key, W)>,
) where
    E: Fn(&(Key, W), &(Key, W)) -> bool,
    O: Fn((Key, W)) -> (Key, W),
    T: Fn((Key, W), (Key, W)) -> (Key, W),
    M: Fn((Key, W), (Key, W)) -> (Key, W),

    requires
        adds_up(eq, one, two, more),
        grouped(eq, one, two, more, s, out),
        sorted_weak(s),
        positive(s),
    ensures
        sorted_strict(out),
        positive(out),
        total(out) == total(s),
        forall|key: Key| #[trigger] weight_of(out, key) == weight_of(s, key),
        s.len() > 0 ==> out.len() > 0 && out.last().0 == s.last().0,
    decreases s.len(),
{
    if s.len() > 0 {
        let n = choose|n: int|
            #![trigger tail_run(eq, s, n)]
            tail_run(eq, s, n) && folded(one, two, more, s.skip(s.len() - n), out.last())
                && grouped(eq, one, two, more, s.take(s.len() - n), out.drop_last());
        let m = s.len() - n;
        let head = s.take(m);
        let run = s.skip(m);
        let rest = out.drop_last();
        let key = s.last().0;
        assert(sorted_weak(head)) by {
            assert forall|i: int, j: int| 0 <= i < j < head.len() implies !key_lt(
                #[trigger] head[j].0,
                #[trigger] head[i].0,
            ) by {
                assert(!key_lt(s[j].0, s[i].0));
            }
        }
        assert(positive(head)) by {
            assert forall|i: int| 0 <= i < head.len() implies (#[trigger] head[i]).1.value()
                > 0real by {
                assert(s[i].1.value() > 0real);
            }
        }
        assert(positive(run)) by {
            assert forall|i: int| 0 <= i < run.len() implies (#[trigger] run[i]).1.value()
                > 0real by {
                assert(s[m + i].1.value() > 0real);
            }
        }
        lemma_grouped_sums(eq, one, two, more, head, rest);
        assert(uniform(run, key)) by {
            assert forall|i: int| 0 <= i < run.len() implies (#[trigger] run[i]).0 == key by {
                lemma_run_uniform(eq, one, two, more, s, n, m + i);
            }
        }
        lemma_folded_sum(eq, one, two, more, run, key, out.last());
        lemma_sum_split(s, m, Measure::All);
        lemma_sum_nonnegative(run, Measure::All);
        assert(total(run) > 0real) by {
            assert(run.last().1.value() > 0real);
            assert(positive(run.drop_last())) by {
                assert forall|i: int| 0 <= i < run.drop_last().len() implies (#[trigger] run.drop_last()[i]).1.value()
                    > 0real by {
                    assert(run[i].1.value() > 0real);
                }
            }
            lemma_sum_nonnegative(run.drop_last(), Measure::All);
        }
        assert(out =~= rest.push(out.last()));
        lemma_sum_push(rest, out.last(), Measure::All);
        assert forall|other: Key| #[trigger] weight_of(out, other) == weight_of(s, other) by {
            lemma_sum_split(s, m, Measure::Of(other));
            lemma_uniform_sum(run, key, other);
            lemma_sum_push(rest, out.last(), Measure::Of(other));
            assert(weight_of(rest, other) == weight_of(head, other));
        }
        assert(positive(out)) by {
            assert forall|i: int| 0 <= i < out.len() implies (#[trigger] out[i]).1.value()
                > 0real by {
                if i < rest.len() {
                    assert(rest[i].1.value() > 0real);
                }
            }
        }
        assert(sorted_strict(out)) by {
            assert forall|i: int, j: int| 0 <= i < j < out.len() implies key_lt(
                #[trigger] out[i].0,
                #[trigger] out[j].0,
            ) by {
                if j < rest.len() {
                    assert(key_lt(rest[i].0, rest[j].0));
                } else {
                    // The run before this one ends with a smaller key.
                    assert(m > 0);
                    assert(judged(eq, s, m - 1, false));
                    assert(s[m - 1].0 != s[m].0);
                    assert(!key_lt(s[m].0, s[m - 1].0));
                    lemma_run_uniform(eq, one, two, more, s, n, m);
                    assert(rest.last().0 == head.last().0);
                    if i < rest.len() - 1 {
                        assert(key_lt(rest[i].0, rest[rest.len() - 1].0));
                    }
                }
            }
        }
    }
}

proof fn lemma_run_uniform<W: Weight, E, O, T, M>(
    eq: E,
    one: O,
    two: T,
    more: M,
    s: Seq<(Key, W)>,
    n: int,
    i: int,
) where
    E: Fn(&(Key, W), &(Key, W)) -> bool,
    O: Fn((Key, W)) -> (Key, W),
    T: Fn((Key, W), (Key, W)) -> (Key, W),
    M: Fn((Key, W), (Key, W)) -> (Key, W),

    requires
        adds_up(eq, one, two, more),
        tail_run(eq, s, n),
        s.len() - n <= i < s.len(),
    ensures
        s[i].0 == s.last().0,
    decreases s.len() - i,
{
    if i < s.len() - 1 {
        assert(judged(eq, s, i, true));
        lemma_run_uniform(eq, one, two, more, s, n, i + 1);
    }
}

/// Replace the patterns of one key by one pattern with the sum of their weights.
fn aggregate<W: Weight>(list: Vec<(Key, W)>) -> (out: Vec<(Key, W)>)
    requires
        sorted_weak(list@),
        positive(list@),
    ensures
        sorted_strict(out@),
        positive(out@),
        total(out@) == total(list@),
        forall|key: Key| #[trigger] weight_of(out@, key) == weight_of(list@, key),
{
    let eq = |a: &(Key, W), b: &(Key, W)| -> (r: bool)
        ensures
            r == (a.0 == b.0),
        { a.0.0 == b.0.0 && a.0.1 == b.0.1 };
    let one = |a: (Key, W)| -> (r: (Key, W))
        ensures
            r == a,
        { a };
    let two = |a: (Key, W), b: (Key, W)| -> (r: (Key, W))
        ensures
            r.0 == a.0,
            r.1.value() == a.1.value() + b.1.value(),
        { (a.0, a.1.plus(&b.1)) };
    let more = |a: (Key, W), b: (Key, W)| -> (r: (Key, W))
        ensures
            r.0 == a.0,
            r.1.value() == a.1.value() + b.1.value(),
        { (a.0, a.1.plus(&b.1)) };
    proof {
        let s = list@;
        assert forall|i: int, j: int| 0 <= i < s.len() && 0 <= j < s.len() implies #[trigger] may_judge(
            eq,
            s,
            i,
            j,
        ) by {}
        assert forall|i: int, j: int| 0 <= i < s.len() && 0 <= j < s.len() implies #[trigger] may_pair(
            two,
            s,
            i,
            j,
        ) by {}
    }
    let out = combine_dups2(list, eq, one, two, more);
    proof {
        lemma_grouped_sums(eq, one, two, more, list@, out@);
    }
    out
}

proof fn lemma_sum_front<W: Weight>(s: Seq<(Key, W)>, what: Measure)
    requires
        s.len() > 0,
    ensures
        sum_by(s, what) == term(s[0], what) + sum_by(s.skip(1), what),
{
    reveal_with_fuel(sum_by, 2);
    lemma_sum_split(s, 1, what);
    assert(s.take(1).drop_last() =~= Seq::empty());
    assert(s.take(1).last() == s[0]);
}

proof fn lemma_tail_facts<W: Weight>(s: Seq<(Key, W)>)
    requires
        s.len() > 0,
        sorted_strict(s),
        positive(s),
    ensures
        sorted_strict(s.skip(1)),
        positive(s.skip(1)),
        s.skip(1).len() > 0 ==> key_lt(s[0].0, s.skip(1)[0].0),
        s[0].1.value() > 0real,
{
    let t = s.skip(1);
    assert forall|i: int, j: int| 0 <= i < j < t.len() implies key_lt(
        #[trigger] t[i].0,
        #[trigger] t[j].0,
    ) by {
        assert(key_lt(s[i + 1].0, s[j + 1].0));
    }
    assert forall|i: int| 0 <= i < t.len() implies (#[trigger] t[i]).1.value() > 0real by {
        assert(s[i + 1].1.value() > 0real);
    }
    if t.len() > 0 {
        assert(key_lt(s[0].0, s[1].0));
    }
}

proof fn lemma_cons_facts<W: Weight>(out: Seq<(Key, W)>)
    requires
        out.len() > 0,
        sorted_strict(out.skip(1)),
        positive(out.skip(1)),
        out[0].1.value() > 0real,
        out.skip(1).len() > 0 ==> key_lt(out[0].0, out.skip(1)[0].0),
    ensures
        sorted_strict(out),
        positive(out),
{
    let t = out.skip(1);
    assert forall|i: int| 0 <= i < out.len() implies (#[trigger] out[i]).1.value() > 0real by {
        if i > 0 {
            assert(t[i - 1].1.value() > 0real);
        }
    }
    assert forall|i: int, j: int| 0 <= i < j < out.len() implies key_lt(
        #[trigger] out[i].0,
        #[trigger] out[j].0,
    ) by {
        if i > 0 {
            assert(key_lt(t[i - 1].0, t[j - 1].0));
        } else if j > 1 {
            assert(key_lt(t[0].0, t[j - 1].0));
        }
    }
}

/// The closures with which two ascending lists of patterns are merged.
spec fn merges<W: Weight, C, F>(order: C, combine: F) -> bool where
    C: Fn(&(Key, W), &(Key, W)) -> Ordering,
    F: Fn((Key, W), (Key, W)) -> (Key, W),
 {
    &&& forall|x: (Key, W), y: (Key, W), o: Ordering| #[trigger]
        call_ensures(order, (&x, &y), o) ==> match o {
            Ordering::Less => key_lt(x.0, y.0),
            Ordering::Equal => x.0 == y.0,
            Ordering::Greater => key_lt(y.0, x.0),
        }
    &&& forall|x: (Key, W), y: (Key, W), r: (Key, W)| #[trigger]
        call_ensures(combine, (x, y), r) ==> r.0 == x.0 && r.1.value() == x.1.value() + y.1.value()
}

proof fn lemma_merged_sums<W: Weight, C, F>(
    order: C,
    combine: F,
    a: Seq<(Key, W)>,
    b: Seq<(Key, W)>,
    out: Seq<(Key, W)>,
    bounded: bool,
    bound: Key,
) where C: Fn(&(Key, W), &(Key, W)) -> Ordering, F: Fn((Key, W), (Key, W)) -> (Key, W)
    requires
        merges(order, combine),
        merged(order, combine, a, b, out),
        sorted_strict(a),
        sorted_strict(b),
        positive(a),
        positive(b),
        bounded && a.len() > 0 ==> key_lt(bound, a[0].0),
        bounded && b.len() > 0 ==> key_lt(bound, b[0].0),
    ensures
        sorted_strict(out),
        positive(out),
        total(out) == total(a) + total(b),
        forall|key: Key| #[trigger] weight_of(out, key) == weight_of(a, key) + weight_of(b, key),
        bounded && out.len() > 0 ==> key_lt(bound, out[0].0),
    decreases a.len() + b.len(),
{
    if a.len() == 0 {
        assert(out == b);
    } else if b.len() == 0 {
        assert(out == a);
    } else {
        let o = choose|o: Ordering|
            #![trigger ordered(order, a[0], b[0], o)]
            ordered(order, a[0], b[0], o) && match o {
                Ordering::Less => out[0] == a[0] && merged(order, combine, a.skip(1), b, out.skip(1)),
                Ordering::Greater => out[0] == b[0] && merged(
                    order,
                    combine,
                    a,
                    b.skip(1),
                    out.skip(1),
                ),
                Ordering::Equal => call_ensures(combine, (a[0], b[0]), out[0]) && merged(
                    order,
                    combine,
                    a.skip(1),
                    b.skip(1),
                    out.skip(1),
                ),
            };
        lemma_tail_facts(a);
        lemma_tail_facts(b);
        lemma_sum_front(a, Measure::All);
        lemma_sum_front(b, Measure::All);
        lemma_sum_front(out, Measure::All);
        match o {
            Ordering::Less => {
                lemma_merged_sums(order, combine, a.skip(1), b, out.skip(1), true, a[0].0);
            },
            Ordering::Greater => {
                lemma_merged_sums(order, combine, a, b.skip(1), out.skip(1), true, b[0].0);
            },
            Ordering::Equal => {
                lemma_merged_sums(order, combine, a.skip(1), b.skip(1), out.skip(1), true, a[0].0);
            },
        }
        lemma_cons_facts(out);
        assert forall|key: Key| #[trigger]
            weight_of(out, key) == weight_of(a, key) + weight_of(b, key) by {
            lemma_sum_front(a, Measure::Of(key));
            lemma_sum_front(b, Measure::Of(key));
            lemma_sum_front(out, Measure::Of(key));
            match o {
                Ordering::Less => {
                    assert(weight_of(out.skip(1), key) == weight_of(a.skip(1), key) + weight_of(
                        b,
                        key,
                    ));
                },
                Ordering::Greater => {
                    assert(weight_of(out.skip(1), key) == weight_of(a, key) + weight_of(
                        b.skip(1),
                        key,
                    ));
                },
                Ordering::Equal => {
                    assert(weight_of(out.skip(1), key) == weight_of(a.skip(1), key) + weight_of(
                        b.skip(1),
                        key,
                    ));
                },
            }
        }
    }
}

/// Merge two ascending lists of patterns; a pattern that both hold gets the
/// sum of its two weights.
fn merge_patterns<W: Weight>(a: Vec<(Key, W)>, b: Vec<(Key, W)>) -> (out: Vec<(Key, W)>)
    requires
        sorted_strict(a@),
        sorted_strict(b@),
        positive(a@),
        positive(b@),
    ensures
        sorted_strict(out@),
        positive(out@),
        total(out@) == total(a@) + total(b@),
        forall|key: Key| #[trigger] weight_of(out@, key) == weight_of(a@, key) + weight_of(b@, key),
{
    let order = |x: &(Key, W), y: &(Key, W)| -> (o: Ordering)
        ensures
            match o {
                Ordering::Less => key_lt(x.0, y.0),
                Ordering::Equal => x.0 == y.0,
                Ordering::Greater => key_lt(y.0, x.0),
            },
        { key_order(&x.0, &y.0) };
    let combine = |x: (Key, W), y: (Key, W)| -> (r: (Key, W))
        ensures
            r.0 == x.0,
            r.1.value() == x.1.value() + y.1.value(),
        { (x.0, x.1.plus(&y.1)) };
    proof {
        assert forall|i: int, j: int| 0 <= i < a@.len() && 0 <= j < b@.len() implies #[trigger] may_order(
            order,
            a@,
            b@,
            i,
            j,
        ) by {}
        assert forall|i: int, j: int|
            0 <= i < a@.len() && 0 <= j < b@.len() implies #[trigger] may_combine(
            combine,
            a@,
            b@,
            i,
            j,
        ) by {}
    }
    let ghost a0 = a@;
    let ghost b0 = b@;
    let out = merge_combine(a, b, order, combine);
    proof {
        lemma_merged_sums(order, combine, a0, b0, out@, false, (0, 0));
    }
    out
}

/// Neither mask of `key` has a bit at `width` or above, and no seat is both
/// tied and preferred.
pub open spec fn sound(key: Key, width: int) -> bool {
    &&& key.0 & key.1 == 0
    &&& forall|j: int| width <= j < 64 ==> !#[trigger] bit(key.0, j)
    &&& forall|j: int| width <= j < 64 ==> !#[trigger] bit(key.1, j)
}

/// Every pattern of `s` satisfies `p`.
spec fn all_keys<W>(s: Seq<(Key, W)>, p: spec_fn(Key) -> bool) -> bool {
    forall|i: int| 0 <= i < s.len() ==> p(#[trigger] s[i].0)
}

/// No two patterns of `s` have the same key.
pub open spec fn distinct<W>(s: Seq<(Key, W)>) -> bool {
    forall|i: int, j: int| 0 <= i < j < s.len() ==> #[trigger] s[i].0 != #[trigger] s[j].0
}

/// The keys with weight in `out` are keys of `a` or of `b`.
proof fn lemma_keys_transfer<W: Weight>(
    a: Seq<(Key, W)>,
    b: Seq<(Key, W)>,
    out: Seq<(Key, W)>,
    p: spec_fn(Key) -> bool,
)
    requires
        positive(a),
        positive(b),
        positive(out),
        forall|key: Key| #[trigger] weight_of(out, key) == weight_of(a, key) + weight_of(b, key),
        all_keys(a, p),
        all_keys(b, p),
    ensures
        all_keys(out, p),
{
    assert forall|i: int| 0 <= i < out.len() implies p(#[trigger] out[i].0) by {
        let key = out[i].0;
        lemma_present(out, key);
        lemma_present(a, key);
        lemma_present(b, key);
        assert(weight_of(out, key) == weight_of(a, key) + weight_of(b, key));
        if weight_of(a, key) > 0real {
            let j = choose|j: int| 0 <= j < a.len() && (#[trigger] a[j]).0 == key;
            assert(p(a[j].0));
        } else {
            let j = choose|j: int| 0 <= j < b.len() && (#[trigger] b[j]).0 == key;
            assert(p(b[j].0));
        }
    }
}

proof fn lemma_count_nonnegative<W: Weight>(s: Seq<(Key, W)>, key: Key)
    ensures
        sum_by(s, Measure::Count(key)) >= 0real,
    decreases s.len(),
{
    if s.len() > 0 {
        lemma_count_nonnegative(s.drop_last(), key);
    }
}

proof fn lemma_distinct_count<W: Weight>(s: Seq<(Key, W)>, key: Key)
    requires
        distinct(s),
    ensures
        sum_by(s, Measure::Count(key)) <= 1real,
        sum_by(s, Measure::Count(key)) == 1real ==> exists|i: int|
            0 <= i < s.len() && (#[trigger] s[i]).0 == key,
        sum_by(s, Measure::Count(key)) < 1real ==> forall|i: int|
            0 <= i < s.len() ==> (#[trigger] s[i]).0 != key,
        sum_by(s, Measure::Count(key)) == 0real || sum_by(s, Measure::Count(key)) == 1real,
    decreases s.len(),
{
    if s.len() > 0 {
        let r = s.drop_last();
        assert(distinct(r)) by {
            assert forall|i: int, j: int| 0 <= i < j < r.len() implies #[trigger] r[i].0
                != #[trigger] r[j].0 by {
                assert(s[i].0 != s[j].0);
            }
        }
        lemma_distinct_count(r, key);
        if s.last().0 == key {
            if sum_by(r, Measure::Count(key)) == 1real {
                let i = choose|i: int| 0 <= i < r.len() && (#[trigger] r[i]).0 == key;
                assert(s[i].0 != s[s.len() - 1].0);
            }
            assert(s[s.len() - 1].0 == key);
        } else {
            if sum_by(r, Measure::Count(key)) == 1real {
                let i = choose|i: int| 0 <= i < r.len() && (#[trigger] r[i]).0 == key;
                assert(s[i].0 == key);
            } else {
                assert forall|i: int| 0 <= i < s.len() implies (#[trigger] s[i]).0 != key by {
                    if i < r.len() {
                        assert(r[i].0 != key);
                    }
                }
            }
        }
    }
}

/// Patterns in the order of their keys, no key twice: the keys ascend strictly.
proof fn lemma_sorted_distinct<W: Weight>(before: Seq<(Key, W)>, s: Seq<(Key, W)>)
    requires
        distinct(before),
        before.to_multiset() == s.to_multiset(),
        sorted_weak(s),
    ensures
        sorted_strict(s),
{
    assert forall|i: int, j: int| 0 <= i < j < s.len() implies key_lt(
        #[trigger] s[i].0,
        #[trigger] s[j].0,
    ) by {
        assert(!key_lt(s[j].0, s[i].0));
        if s[i].0 == s[j].0 {
            let key = s[i].0;
            lemma_sum_permutation(before, s, Measure::Count(key));
            lemma_distinct_count(before, key);
            lemma_sum_remove(s, j, Measure::Count(key));
            let t = s.remove(j);
            assert(t[i] == s[i]);
            lemma_sum_remove(t, i, Measure::Count(key));
            lemma_count_nonnegative(t.remove(i), key);
        }
    }
}

proof fn lemma_permuted_facts<W: Weight>(before: Seq<(Key, W)>, s: Seq<(Key, W)>)
    requires
        before.to_multiset() == s.to_multiset(),
    ensures
        total(s) == total(before),
        forall|key: Key| #[trigger] weight_of(s, key) == weight_of(before, key),
        positive(before) ==> positive(s),
        forall|i: int| 0 <= i < s.len() ==> before.contains(#[trigger] s[i]),
{
    broadcast use vstd::seq_lib::group_to_multiset_ensures;

    lemma_sum_permutation(before, s, Measure::All);
    assert forall|key: Key| #[trigger] weight_of(s, key) == weight_of(before, key) by {
        lemma_sum_permutation(before, s, Measure::Of(key));
    }
    assert forall|i: int| 0 <= i < s.len() implies before.contains(#[trigger] s[i]) by {
        assert(s.contains(s[i]));
        assert(s.to_multiset().count(s[i]) > 0);
    }
    if positive(before) {
        assert forall|i: int| 0 <= i < s.len() implies (#[trigger] s[i]).1.value() > 0real by {
            assert(before.contains(s[i]));
            let j = choose|j: int| 0 <= j < before.len() && before[j] == s[i];
            assert(before[j].1.value() > 0real);
        }
    }
}

proof fn lemma_or_bit(a: u64, b: u64, j: int)
    ensures
        bit(a | b, j) == (bit(a, j) || bit(b, j)),
{
    if 0 <= j < 64 {
        let ju = j as u64;
        assert((((a | b) >> ju) & 1 == 1) == (((a >> ju) & 1 == 1) || ((b >> ju) & 1 == 1)))
            by (bit_vector)
            requires
                ju < 64,
        ;
    }
}

proof fn lemma_and_bit(a: u64, b: u64, j: int)
    ensures
        bit(a & b, j) == (bit(a, j) && bit(b, j)),
{
    if 0 <= j < 64 {
        let ju = j as u64;
        assert((((a & b) >> ju) & 1 == 1) == (((a >> ju) & 1 == 1) && ((b >> ju) & 1 == 1)))
            by (bit_vector)
            requires
                ju < 64,
        ;
    }
}

/// What the masks of a pattern become when they are cut down to the seats
/// of `eq`.
proof fn lemma_breaker_key(eq: u64, key: Key, width: int)
    requires
        sound(key, width),
        key.0 < eq,
    ensures
        sound((eq & key.0, eq & key.1), width),
        (eq & key.0) < eq,
        (eq & key.0) & !eq == 0,
        (eq & key.1) & !eq == 0,
{
    let (e, g) = key;
    assert((eq & e) & (eq & g) == 0 && (eq & e) <= e && (eq & e) & !eq == 0 && (eq & g) & !eq == 0)
        by (bit_vector)
        requires
            e & g == 0,
    ;
    assert forall|j: int| width <= j < 64 implies !#[trigger] bit(eq & e, j) by {
        lemma_and_bit(eq, e, j);
    }
    assert forall|j: int| width <= j < 64 implies !#[trigger] bit(eq & g, j) by {
        lemma_and_bit(eq, g, j);
    }
}

/// What the masks of a tied pattern become when a breaker decides its ties.
proof fn lemma_product_key(eq: u64, gt: u64, breaker: Key, width: int)
    requires
        sound((eq, gt), width),
        sound(breaker, width),
        breaker.0 & !eq == 0,
        breaker.1 & !eq == 0,
    ensures
        sound((breaker.0, gt | breaker.1), width),
        (gt | breaker.1) & eq == breaker.1,
        (gt | breaker.1) & !eq == gt,
{
    let (e1, g1) = breaker;
    assert(e1 & (gt | g1) == 0 && (gt | g1) & eq == g1 && (gt | g1) & !eq == gt) by (bit_vector)
        requires
            eq & gt == 0,
            e1 & g1 == 0,
            e1 & !eq == 0,
            g1 & !eq == 0,
    ;
    assert forall|j: int| width <= j < 64 implies !#[trigger] bit(gt | g1, j) by {
        lemma_or_bit(gt, g1, j);
    }
}

/// The sum of the weights of `list`.
fn sum_weights<W: Weight>(list: &Vec<(Key, W)>) -> (sum: W)
    ensures
        sum.value() == total(list@),
{
    let mut sum = W::zero();
    let mut i: usize = 0;
    while i < list.len()
        invariant
            i <= list@.len(),
            sum.value() == total(list@.take(i as int)),
        decreases list@.len() - i,
    {
        proof {
            assert(list@.take(i + 1).drop_last() =~= list@.take(i as int));
        }
        sum = sum.plus(&list[i].1);
        i += 1;
    }
    proof {
        assert(list@.take(list@.len() as int) =~= list@);
    }
    sum
}

/// A pattern that has been cut down to the seats of `eq`.
spec fn breaker_key(key: Key, eq: u64, width: int) -> bool {
    sound(key, width) && key.0 < eq && key.0 & !eq == 0 && key.1 & !eq == 0
}

/// How the patterns of `rest` rank the seats of `eq`: each pattern cut down to
/// those seats, patterns that become equal added up.
fn breakers_of<W: Weight>(rest: &Vec<(Key, W)>, eq: u64, Ghost(width): Ghost<int>) -> (out: Vec<
    (Key, W),
>)
    requires
        positive(rest@),
        forall|i: int| 0 <= i < rest@.len() ==> sound(#[trigger] rest@[i].0, width),
        forall|i: int| 0 <= i < rest@.len() ==> (#[trigger] rest@[i]).0.0 < eq,
    ensures
        sorted_strict(out@),
        positive(out@),
        total(out@) == total(rest@),
        forall|i: int| 0 <= i < out@.len() ==> sound(#[trigger] out@[i].0, width),
        forall|i: int| 0 <= i < out@.len() ==> (#[trigger] out@[i]).0.0 < eq,
        forall|i: int| 0 <= i < out@.len() ==> (#[trigger] out@[i]).0.0 & !eq == 0,
        forall|i: int| 0 <= i < out@.len() ==> (#[trigger] out@[i]).0.1 & !eq == 0,
        forall|tk: Key, q: Key|
            tk.0 == eq ==> #[trigger] sum_by(out@, Measure::Breaks(tk, q)) == sum_by(
                rest@,
                Measure::Breaks(tk, q),
            ),
{
    let mut list: Vec<(Key, W)> = Vec::new();
    let mut i: usize = 0;
    while i < rest.len()
        invariant
            i <= rest@.len(),
            positive(rest@),
            forall|t: int| 0 <= t < rest@.len() ==> sound(#[trigger] rest@[t].0, width),
            forall|t: int| 0 <= t < rest@.len() ==> (#[trigger] rest@[t]).0.0 < eq,
            positive(list@),
            forall|t: int| 0 <= t < list@.len() ==> breaker_key(#[trigger] list@[t].0, eq, width),
            total(list@) == total(rest@.take(i as int)),
            forall|tk: Key, q: Key|
                tk.0 == eq ==> #[trigger] sum_by(list@, Measure::Breaks(tk, q)) == sum_by(
                    rest@.take(i as int),
                    Measure::Breaks(tk, q),
                ),
        decreases rest@.len() - i,
    {
        let (e, g) = rest[i].0;
        proof {
            lemma_breaker_key(eq, (e, g), width);
            assert(rest@.take(i + 1).drop_last() =~= rest@.take(i as int));
            assert(rest@[i as int].1.value() > 0real);
        }
        let ghost before = list@;
        list.push(((eq & e, eq & g), rest[i].1.duplicate()));
        proof {
            lemma_sum_push(before, list@.last(), Measure::All);
            assert forall|tk: Key, q: Key| tk.0 == eq implies #[trigger] sum_by(
                list@,
                Measure::Breaks(tk, q),
            ) == sum_by(rest@.take(i + 1), Measure::Breaks(tk, q)) by {
                lemma_sum_push(before, list@.last(), Measure::Breaks(tk, q));
                assert(rest@.take(i + 1).last() == rest@[i as int]);
                lemma_twice_within(eq, e);
                lemma_twice_within(eq, g);
                assert(broken_key(tk, (eq & e, eq & g)) == broken_key(tk, (e, g)));
                assert(sum_by(before, Measure::Breaks(tk, q)) == sum_by(
                    rest@.take(i as int),
                    Measure::Breaks(tk, q),
                ));
            }
            assert forall|t: int| 0 <= t < list@.len() implies breaker_key(
                #[trigger] list@[t].0,
                eq,
                width,
            ) by {
                if t < before.len() {
                    assert(breaker_key(before[t].0, eq, width));
                }
            }
            assert forall|t: int| 0 <= t < list@.len() implies (#[trigger] list@[t]).1.value()
                > 0real by {
                if t < before.len() {
                    assert(before[t].1.value() > 0real);
                }
            }
        }
        i += 1;
    }
    proof {
        assert(rest@.take(rest@.len() as int) =~= rest@);
    }
    let ghost unsorted = list@;
    sort_patterns(&mut list);
    proof {
        lemma_permuted_facts(unsorted, list@);
    }
    let ghost arranged = list@;
    let out = aggregate(list);
    proof {
        let p = |key: Key| breaker_key(key, eq, width);
        assert(all_keys(arranged, p)) by {
            assert forall|t: int| 0 <= t < arranged.len() implies p(#[trigger] arranged[t].0) by {
                assert(unsorted.contains(arranged[t]));
                let j = choose|j: int| 0 <= j < unsorted.len() && unsorted[j] == arranged[t];
                assert(breaker_key(unsorted[j].0, eq, width));
            }
        }
        let none = Seq::<(Key, W)>::empty();
        assert forall|key: Key| #[trigger]
            weight_of(out@, key) == weight_of(arranged, key) + weight_of(none, key) by {}
        lemma_keys_transfer(arranged, none, out@, p);
        assert forall|t: int| 0 <= t < out@.len() implies sound(#[trigger] out@[t].0, width)
            && out@[t].0.0 < eq && out@[t].0.0 & !eq == 0 && out@[t].0.1 & !eq == 0 by {
            assert(p(out@[t].0));
        }
        assert forall|tk: Key, q: Key| tk.0 == eq implies #[trigger] sum_by(
            out@,
            Measure::Breaks(tk, q),
        ) == sum_by(rest@, Measure::Breaks(tk, q)) by {
            lemma_sum_permutation(unsorted, arranged, Measure::Breaks(tk, q));
            lemma_sum_same(arranged, out@, Measure::Breaks(tk, q));
            assert(sum_by(unsorted, Measure::Breaks(tk, q)) == sum_by(
                rest@,
                Measure::Breaks(tk, q),
            ));
        }
    }
    out
}

/// Sharing out among the breakers is sharing out among the patterns that
/// they are made of.
proof fn lemma_mixed_same<W: Weight>(
    tied: Seq<(Key, W)>,
    breakers: Seq<(Key, W)>,
    rest: Seq<(Key, W)>,
    scale: real,
    q: Key,
    eq: u64,
)
    requires
        forall|u: int| 0 <= u < tied.len() ==> (#[trigger] tied[u]).0.0 == eq,
        forall|tk: Key, k: Key|
            tk.0 == eq ==> #[trigger] sum_by(breakers, Measure::Breaks(tk, k)) == sum_by(
                rest,
                Measure::Breaks(tk, k),
            ),
    ensures
        mixed(tied, breakers, scale, q) == mixed(tied, rest, scale, q),
    decreases tied.len(),
{
    if tied.len() > 0 {
        let front = tied.drop_last();
        assert forall|u: int| 0 <= u < front.len() implies (#[trigger] front[u]).0.0 == eq by {
            assert(tied[u].0.0 == eq);
        }
        lemma_mixed_same(front, breakers, rest, scale, q, eq);
        let tk = tied.last().0;
        assert(tied[tied.len() - 1].0.0 == eq);
        assert(sum_by(breakers, Measure::Breaks(tk, q)) == sum_by(rest, Measure::Breaks(tk, q)));
    }
}

proof fn lemma_grow_row(ws: real, sb: real, w1: real)
    ensures
        ws * (sb + w1) == ws * sb + w1 * ws,
{
    assert(ws * (sb + w1) == ws * sb + w1 * ws) by (nonlinear_arith);
}

proof fn lemma_grow_rows(st: real, w: real, scale: real, b: real)
    ensures
        (st + w) * (scale * b) == st * (scale * b) + (w * scale) * b,
{
    assert((st + w) * (scale * b) == st * (scale * b) + (w * scale) * b) by (nonlinear_arith);
}

proof fn lemma_twice_within(eq: u64, x: u64)
    ensures
        eq & (eq & x) == eq & x,
{
    assert(eq & (eq & x) == eq & x) by (bit_vector);
}

proof fn lemma_within(eq: u64, x: u64)
    requires
        x & !eq == 0,
    ensures
        eq & x == x,
{
    assert(x & !eq == 0 ==> eq & x == x) by (bit_vector);
}

/// Where entry `i` of the products comes from: a tied pattern and a breaker.
spec fn made_from<W>(
    fresh: Seq<(Key, W)>,
    tied: Seq<(Key, W)>,
    breakers: Seq<(Key, W)>,
    rows: Seq<int>,
    cols: Seq<int>,
    i: int,
    u: int,
    t: int,
) -> bool {
    &&& 0 <= rows[i] < tied.len()
    &&& 0 <= cols[i] < breakers.len()
    &&& fresh[i].0 == (breakers[cols[i]].0.0, tied[rows[i]].0.1 | breakers[cols[i]].0.1)
    &&& rows[i] < u || (rows[i] == u && cols[i] < t)
}

/// Every tied pattern with its ties broken in every way in which the breakers
/// break them; the weight of each is the product of the two weights and `scale`.
fn products<W: Weight>(
    tied: &Vec<(Key, W)>,
    breakers: &Vec<(Key, W)>,
    scale: &W,
    eq: u64,
    Ghost(width): Ghost<int>,
) -> (fresh: Vec<(Key, W)>)
    requires
        sorted_strict(tied@),
        positive(tied@),
        forall|u: int| 0 <= u < tied@.len() ==> (#[trigger] tied@[u]).0.0 == eq,
        forall|u: int| 0 <= u < tied@.len() ==> sound(#[trigger] tied@[u].0, width),
        sorted_strict(breakers@),
        positive(breakers@),
        forall|t: int| 0 <= t < breakers@.len() ==> breaker_key(#[trigger] breakers@[t].0, eq, width),
        scale.value() > 0real,
    ensures
        positive(fresh@),
        distinct(fresh@),
        forall|i: int| 0 <= i < fresh@.len() ==> sound(#[trigger] fresh@[i].0, width),
        forall|i: int| 0 <= i < fresh@.len() ==> (#[trigger] fresh@[i]).0.0 < eq,
        total(fresh@) == total(tied@) * (scale.value() * total(breakers@)),
        forall|q: Key| #[trigger] weight_of(fresh@, q) == mixed(tied@, breakers@, scale.value(), q),
{
    let mut fresh: Vec<(Key, W)> = Vec::new();
    let ghost mut rows: Seq<int> = Seq::empty();
    let ghost mut cols: Seq<int> = Seq::empty();
    let ghost sc = scale.value();
    let ghost b = total(breakers@);
    let mut u: usize = 0;
    proof {
        assert(tied@.take(0) =~= Seq::empty());
        assert(0real * (sc * b) == 0real) by (nonlinear_arith);
    }
    while u < tied.len()
        invariant
            u <= tied@.len(),
            sorted_strict(tied@),
            positive(tied@),
            forall|u: int| 0 <= u < tied@.len() ==> (#[trigger] tied@[u]).0.0 == eq,
            forall|u: int| 0 <= u < tied@.len() ==> sound(#[trigger] tied@[u].0, width),
            sorted_strict(breakers@),
            positive(breakers@),
            forall|t: int|
                0 <= t < breakers@.len() ==> breaker_key(#[trigger] breakers@[t].0, eq, width),
            sc == scale.value(),
            sc > 0real,
            b == total(breakers@),
            positive(fresh@),
            distinct(fresh@),
            forall|i: int| 0 <= i < fresh@.len() ==> sound(#[trigger] fresh@[i].0, width),
            forall|i: int| 0 <= i < fresh@.len() ==> (#[trigger] fresh@[i]).0.0 < eq,
            rows.len() == fresh@.len(),
            cols.len() == fresh@.len(),
            forall|i: int|
                0 <= i < fresh@.len() ==> #[trigger] made_from(
                    fresh@,
                    tied@,
                    breakers@,
                    rows,
                    cols,
                    i,
                    u as int,
                    0,
                ),
            total(fresh@) == total(tied@.take(u as int)) * (sc * b),
            forall|q: Key| #[trigger] weight_of(fresh@, q) == mixed(tied@.take(u as int), breakers@, sc, q),
        decreases tied@.len() - u,
    {
        let gt = tied[u].0.1;
        let w_scaled = tied[u].1.times(scale);
        let ghost ws = w_scaled.value();
        let ghost base = total(fresh@);
        let ghost start = fresh@;
        proof {
            assert(tied@[u as int].1.value() > 0real);
            assert(tied@[u as int].0.0 == eq);
            assert(sound(tied@[u as int].0, width));
            assert(ws > 0real) by (nonlinear_arith)
                requires
                    ws == tied@[u as int].1.value() * sc,
                    tied@[u as int].1.value() > 0real,
                    sc > 0real,
            ;
            assert(breakers@.take(0) =~= Seq::empty());
            assert(ws * 0real == 0real) by (nonlinear_arith);
            assert forall|i: int| 0 <= i < fresh@.len() implies #[trigger] made_from(
                fresh@,
                tied@,
                breakers@,
                rows,
                cols,
                i,
                u as int,
                0,
            ) by {}
        }
        let mut t: usize = 0;
        while t < breakers.len()
            invariant
                t <= breakers@.len(),
                u < tied@.len(),
                gt == tied@[u as int].0.1,
                tied@[u as int].0.0 == eq,
                sound(tied@[u as int].0, width),
                sorted_strict(tied@),
                sorted_strict(breakers@),
                positive(breakers@),
                forall|t: int|
                    0 <= t < breakers@.len() ==> breaker_key(#[trigger] breakers@[t].0, eq, width),
                forall|u: int| 0 <= u < tied@.len() ==> (#[trigger] tied@[u]).0.0 == eq,
                forall|u: int| 0 <= u < tied@.len() ==> sound(#[trigger] tied@[u].0, width),
                ws == w_scaled.value(),
                ws > 0real,
                positive(fresh@),
                distinct(fresh@),
                forall|i: int| 0 <= i < fresh@.len() ==> sound(#[trigger] fresh@[i].0, width),
                forall|i: int| 0 <= i < fresh@.len() ==> (#[trigger] fresh@[i]).0.0 < eq,
                rows.len() == fresh@.len(),
                cols.len() == fresh@.len(),
                forall|i: int|
                    0 <= i < fresh@.len() ==> #[trigger] made_from(
                        fresh@,
                        tied@,
                        breakers@,
                        rows,
                        cols,
                        i,
                        u as int,
                        t as int,
                    ),
                total(fresh@) == base + ws * total(breakers@.take(t as int)),
                forall|q: Key| #[trigger]
                    weight_of(fresh@, q) == weight_of(start, q) + ws * sum_by(
                        breakers@.take(t as int),
                        Measure::Breaks(tied@[u as int].0, q),
                    ),
            decreases breakers@.len() - t,
        {
            let (e1, g1) = breakers[t].0;
            let w = breakers[t].1.times(&w_scaled);
            let ghost before = fresh@;
            let ghost rows0 = rows;
            let ghost cols0 = cols;
            proof {
                assert(breaker_key(breakers@[t as int].0, eq, width));
                assert(breakers@[t as int].1.value() > 0real);
                lemma_product_key(eq, gt, (e1, g1), width);
                let w1 = breakers@[t as int].1.value();
                assert(w1 * ws > 0real) by (nonlinear_arith)
                    requires
                        w1 > 0real,
                        ws > 0real,
                ;
                assert(breakers@.take(t + 1).drop_last() =~= breakers@.take(t as int));
                lemma_grow_row(ws, total(breakers@.take(t as int)), w1);
            }
            fresh.push(((e1, gt | g1), w));
            proof {
                rows = rows.push(u as int);
                cols = cols.push(t as int);
                lemma_sum_push(before, fresh@.last(), Measure::All);
                assert forall|q: Key| #[trigger]
                    weight_of(fresh@, q) == weight_of(start, q) + ws * sum_by(
                        breakers@.take(t + 1),
                        Measure::Breaks(tied@[u as int].0, q),
                    ) by {
                    let tk = tied@[u as int].0;
                    let part = breakers@.take(t as int);
                    let w1 = breakers@[t as int].1.value();
                    lemma_sum_push(before, fresh@.last(), Measure::Of(q));
                    assert(breakers@.take(t + 1).last() == breakers@[t as int]);
                    lemma_within(eq, e1);
                    lemma_within(eq, g1);
                    assert(broken_key(tk, (e1, g1)) == (e1, gt | g1));
                    assert(weight_of(before, q) == weight_of(start, q) + ws * sum_by(
                        part,
                        Measure::Breaks(tk, q),
                    ));
                    if (e1, gt | g1) == q {
                        lemma_grow_row(ws, sum_by(part, Measure::Breaks(tk, q)), w1);
                    }
                }
                assert forall|i: int| 0 <= i < fresh@.len() implies #[trigger] made_from(
                    fresh@,
                    tied@,
                    breakers@,
                    rows,
                    cols,
                    i,
                    u as int,
                    t + 1,
                ) by {
                    if i < before.len() {
                        assert(made_from(before, tied@, breakers@, rows0, cols0, i, u as int, t as int));
                    }
                }
                assert forall|i: int| 0 <= i < fresh@.len() implies (#[trigger] fresh@[i]).1.value()
                    > 0real by {
                    if i < before.len() {
                        assert(before[i].1.value() > 0real);
                    }
                }
                assert forall|i: int| 0 <= i < fresh@.len() implies sound(
                    #[trigger] fresh@[i].0,
                    width,
                ) by {
                    if i < before.len() {
                        assert(sound(before[i].0, width));
                    }
                }
                assert forall|i: int| 0 <= i < fresh@.len() implies (#[trigger] fresh@[i]).0.0
                    < eq by {
                    if i < before.len() {
                        assert(before[i].0.0 < eq);
                    }
                }
                assert forall|i: int, j: int| 0 <= i < j < fresh@.len() implies #[trigger] fresh@[i].0
                    != #[trigger] fresh@[j].0 by {
                    if j < before.len() {
                        assert(before[i].0 != before[j].0);
                    } else {
                        assert(made_from(before, tied@, breakers@, rows0, cols0, i, u as int, t as int));
                        let r = rows0[i];
                        let c = cols0[i];
                        assert(breaker_key(breakers@[c].0, eq, width));
                        assert(tied@[r].0.0 == eq);
                        assert(sound(tied@[r].0, width));
                        lemma_product_key(eq, tied@[r].0.1, breakers@[c].0, width);
                        if r != u {
                            assert(key_lt(tied@[r].0, tied@[u as int].0));
                        } else {
                            assert(key_lt(breakers@[c].0, breakers@[t as int].0));
                        }
                    }
                }
            }
            t += 1;
        }
        proof {
            assert forall|i: int| 0 <= i < fresh@.len() implies #[trigger] made_from(
                fresh@,
                tied@,
                breakers@,
                rows,
                cols,
                i,
                u + 1,
                0,
            ) by {
                assert(made_from(fresh@, tied@, breakers@, rows, cols, i, u as int, t as int));
            }
            assert(breakers@.take(breakers@.len() as int) =~= breakers@);
            assert(tied@.take(u + 1).drop_last() =~= tied@.take(u as int));
            lemma_grow_rows(total(tied@.take(u as int)), tied@[u as int].1.value(), sc, b);
            assert forall|q: Key| #[trigger]
                weight_of(fresh@, q) == mixed(tied@.take(u + 1), breakers@, sc, q) by {
                assert(weight_of(start, q) == mixed(tied@.take(u as int), breakers@, sc, q));
                assert(tied@.take(u + 1).last() == tied@[u as int]);
            }
        }
        u += 1;
    }
    proof {
        assert(tied@.take(tied@.len() as int) =~= tied@);
    }
    fresh
}

/// The largest first mask in the list: the most seats that a pattern ties.
pub open spec fn top<W>(s: Seq<(Key, W)>) -> u64
    decreases s.len(),
{
    if s.len() == 0 {
        0
    } else if s.last().0.0 > top(s.drop_last()) {
        s.last().0.0
    } else {
        top(s.drop_last())
    }
}

/// The patterns of the list that tie the seats of `e`, in their order.
pub open spec fn tied_of<W>(s: Seq<(Key, W)>, e: u64) -> Seq<(Key, W)>
    decreases s.len(),
{
    if s.len() == 0 {
        s
    } else if s.last().0.0 == e {
        tied_of(s.drop_last(), e).push(s.last())
    } else {
        tied_of(s.drop_last(), e)
    }
}

/// The patterns of the list that tie other seats than those of `e`, in their
/// order.
pub open spec fn rest_of<W>(s: Seq<(Key, W)>, e: u64) -> Seq<(Key, W)>
    decreases s.len(),
{
    if s.len() == 0 {
        s
    } else if s.last().0.0 != e {
        rest_of(s.drop_last(), e).push(s.last())
    } else {
        rest_of(s.drop_last(), e)
    }
}

/// What the pattern `q` gets when every tied pattern is shared out among the
/// ways in which the patterns of `rest` break its ties: of each tied pattern
/// its weight times `scale` times the weight of the patterns of `rest` that
/// make it `q`.
pub open spec fn mixed<W: Weight>(tied: Seq<(Key, W)>, rest: Seq<(Key, W)>, scale: real, q: Key) -> real
    decreases tied.len(),
{
    if tied.len() == 0 {
        0real
    } else {
        mixed(tied.drop_last(), rest, scale, q) + (tied.last().1.value() * scale) * sum_by(
            rest,
            Measure::Breaks(tied.last().0, q),
        )
    }
}

/// What one round of the completion gives to the pattern `q`: what the
/// patterns with fewer ties than the most give to it, and its part of the
/// patterns with the most ties, which are shared out among the others in the
/// proportions of the weights of those.
pub open spec fn round_gives<W: Weight>(p: Seq<(Key, W)>, q: Key) -> real {
    let e = top(p);
    let r = rest_of(p, e);
    weight_of(r, q) + mixed(tied_of(p, e), r, 1real / total(r), q)
}

/// `next` is what one round of the completion makes of `p`: the patterns that
/// get weight, in the order of their keys, each with what the round gives it.
pub open spec fn rounds_to<W: Weight>(p: Seq<(Key, W)>, next: Seq<(Key, W)>) -> bool {
    &&& sorted_strict(next)
    &&& positive(next)
    &&& forall|q: Key| #[trigger] weight_of(next, q) == round_gives(p, q)
}

/// `fin` holds every pattern of `p` twice, each time with half its weight:
/// first all with their tied seats below the challenger, then all with the
/// seats of `e` above.
pub open spec fn halved_to<W: Weight>(p: Seq<(Key, W)>, e: u64, fin: Seq<(Key, W)>) -> bool {
    &&& fin.len() == 2 * p.len()
    &&& forall|i: int|
        0 <= i < p.len() ==> (#[trigger] fin[i]).0 == (0u64, p[i].0.1) && fin[i].1.value()
            + fin[i].1.value() == p[i].1.value()
    &&& forall|j: int|
        p.len() <= j < 2 * p.len() ==> (#[trigger] fin[j]).0 == (0u64, p[j - p.len()].0.1 | e)
            && fin[j].1.value() + fin[j].1.value() == p[j - p.len()].1.value()
}

/// `first` holds the patterns of the input that have weight, in the order of
/// their keys, each with the weight that the input gives it.
pub open spec fn begins<W: Weight>(input: Seq<(Vec<Preference>, W)>, first: Seq<(Key, W)>) -> bool {
    &&& sorted_strict(first)
    &&& positive(first)
    &&& forall|q: Key| #[trigger] weight_of(first, q) == input_sum(input, Measure::Of(q))
}

/// Round `r` of the chain: some pattern ties a seat, not all patterns tie the
/// same seats, and the next list is what a round makes of the list.
pub open spec fn goes_on<W: Weight>(chain: Seq<Seq<(Key, W)>>, r: int) -> bool {
    &&& top(chain[r]) != 0
    &&& rest_of(chain[r], top(chain[r])).len() > 0
    &&& rounds_to(chain[r], chain[r + 1])
}

/// The completion ends with `last`: either no pattern ties a seat and `fin`
/// is `last`, or all patterns tie the same seats and `fin` holds them in
/// halves.
pub open spec fn ends<W: Weight>(last: Seq<(Key, W)>, fin: Seq<(Key, W)>) -> bool {
    if top(last) == 0 {
        fin == last
    } else {
        rest_of(last, top(last)).len() == 0 && halved_to(last, top(last), fin)
    }
}

/// `fin` is the completion of the input, reached through the lists of
/// `chain`, one round from each to the next.
pub open spec fn completes_by<W: Weight>(
    input: Seq<(Vec<Preference>, W)>,
    chain: Seq<Seq<(Key, W)>>,
    fin: Seq<(Key, W)>,
) -> bool {
    &&& chain.len() >= 1
    &&& begins(input, chain[0])
    &&& forall|r: int| 0 <= r < chain.len() - 1 ==> #[trigger] goes_on(chain, r)
    &&& ends(chain.last(), fin)
}

/// The most ties of a list are those of a pattern that ties no less than any.
proof fn lemma_top_is<W>(p: Seq<(Key, W)>, e: u64)
    requires
        forall|t: int| 0 <= t < p.len() ==> (#[trigger] p[t]).0.0 <= e,
        p.len() > 0 ==> exists|t: int| 0 <= t < p.len() && (#[trigger] p[t]).0.0 == e,
        p.len() == 0 ==> e == 0,
    ensures
        top(p) == e,
    decreases p.len(),
{
    if p.len() > 0 {
        let front = p.drop_last();
        let t = choose|t: int| 0 <= t < p.len() && (#[trigger] p[t]).0.0 == e;
        assert forall|i: int| 0 <= i < front.len() implies (#[trigger] front[i]).0.0 <= top(front) by {
            lemma_top_bound(front, i);
        }
        lemma_top_reached(front);
        if front.len() > 0 {
            let i = choose|i: int| 0 <= i < front.len() && (#[trigger] front[i]).0.0 == top(front);
            assert(p[i].0.0 == top(front));
        }
        if t < front.len() {
            assert(front[t].0.0 == e);
            lemma_top_bound(front, t);
        }
    }
}

proof fn lemma_top_bound<W>(p: Seq<(Key, W)>, i: int)
    requires
        0 <= i < p.len(),
    ensures
        p[i].0.0 <= top(p),
    decreases p.len(),
{
    if i < p.len() - 1 {
        lemma_top_bound(p.drop_last(), i);
    }
}

proof fn lemma_top_reached<W>(p: Seq<(Key, W)>)
    ensures
        p.len() > 0 ==> exists|i: int| 0 <= i < p.len() && (#[trigger] p[i]).0.0 == top(p),
        p.len() == 0 ==> top(p) == 0,
    decreases p.len(),
{
    if p.len() > 0 {
        let front = p.drop_last();
        lemma_top_reached(front);
        if p.last().0.0 > top(front) {
            assert(p[p.len() - 1].0.0 == top(p));
        } else if front.len() > 0 {
            let i = choose|i: int| 0 <= i < front.len() && (#[trigger] front[i]).0.0 == top(front);
            assert(p[i].0.0 == top(p));
        } else {
            assert(p[p.len() - 1].0.0 == top(p));
        }
    }
}

/// A list whose patterns with the ties `e` all stand at its end falls into
/// the others and those.
proof fn lemma_parts<W>(p: Seq<(Key, W)>, i: int, e: u64)
    requires
        0 <= i <= p.len(),
        forall|t: int| 0 <= t < i ==> (#[trigger] p[t]).0.0 != e,
        forall|t: int| i <= t < p.len() ==> (#[trigger] p[t]).0.0 == e,
    ensures
        rest_of(p, e) == p.take(i),
        tied_of(p, e) == p.skip(i),
    decreases p.len(),
{
    if p.len() == 0 {
        assert(p.take(i) =~= p);
        assert(p.skip(i) =~= p);
    } else {
        let front = p.drop_last();
        if i < p.len() {
            lemma_parts(front, i, e);
            assert(p[p.len() - 1].0.0 == e);
            assert(front.take(i) =~= p.take(i));
            assert(front.skip(i).push(p.last()) =~= p.skip(i));
        } else {
            lemma_parts(front, i - 1, e);
            assert(p[p.len() - 1].0.0 != e);
            assert(front.take(i - 1) =~= front);
            assert(front.push(p.last()) =~= p.take(i));
            assert(front.skip(i - 1) =~= p.skip(i));
        }
    }
}

/// The two lists hold the same patterns with the same weights, in the same
/// order.
pub open spec fn alike<W: Weight>(a: Seq<(Key, W)>, b: Seq<(Key, W)>) -> bool {
    &&& a.len() == b.len()
    &&& forall|i: int|
        0 <= i < a.len() ==> (#[trigger] a[i]).0 == b[i].0 && a[i].1.value() == b[i].1.value()
}

proof fn lemma_alike_front<W: Weight>(a: Seq<(Key, W)>, b: Seq<(Key, W)>)
    requires
        alike(a, b),
        a.len() > 0,
    ensures
        alike(a.drop_last(), b.drop_last()),
        a.last().0 == b.last().0,
        a.last().1.value() == b.last().1.value(),
{
    assert forall|i: int| 0 <= i < a.drop_last().len() implies (#[trigger] a.drop_last()[i]).0
        == b.drop_last()[i].0 && a.drop_last()[i].1.value() == b.drop_last()[i].1.value() by {
        assert(a[i].0 == b[i].0);
    }
    assert(a[a.len() - 1].0 == b[a.len() - 1].0);
}

proof fn lemma_alike_push<W: Weight>(a: Seq<(Key, W)>, b: Seq<(Key, W)>, x: (Key, W), y: (Key, W))
    requires
        alike(a, b),
        x.0 == y.0,
        x.1.value() == y.1.value(),
    ensures
        alike(a.push(x), b.push(y)),
{
    assert forall|i: int| 0 <= i < a.push(x).len() implies (#[trigger] a.push(x)[i]).0 == b.push(
        y,
    )[i].0 && a.push(x)[i].1.value() == b.push(y)[i].1.value() by {
        if i < a.len() {
            assert(a[i].0 == b[i].0);
        }
    }
}

/// Lists that are alike have the same sums.
proof fn lemma_alike_sums<W: Weight>(a: Seq<(Key, W)>, b: Seq<(Key, W)>, what: Measure)
    requires
        alike(a, b),
    ensures
        sum_by(a, what) == sum_by(b, what),
    decreases a.len(),
{
    if a.len() > 0 {
        lemma_alike_front(a, b);
        lemma_alike_sums(a.drop_last(), b.drop_last(), what);
    }
}

/// Lists that are alike have the same most ties, and their parts are alike.
proof fn lemma_alike_parts<W: Weight>(a: Seq<(Key, W)>, b: Seq<(Key, W)>, e: u64)
    requires
        alike(a, b),
    ensures
        top(a) == top(b),
        alike(rest_of(a, e), rest_of(b, e)),
        alike(tied_of(a, e), tied_of(b, e)),
    decreases a.len(),
{
    if a.len() > 0 {
        lemma_alike_front(a, b);
        lemma_alike_parts(a.drop_last(), b.drop_last(), e);
        if a.last().0.0 == e {
            lemma_alike_push(tied_of(a.drop_last(), e), tied_of(b.drop_last(), e), a.last(), b.last());
        } else {
            lemma_alike_push(rest_of(a.drop_last(), e), rest_of(b.drop_last(), e), a.last(), b.last());
        }
    }
}

/// Tied lists that are alike get the same from lists that are alike.
proof fn lemma_alike_mixed<W: Weight>(
    t1: Seq<(Key, W)>,
    t2: Seq<(Key, W)>,
    r1: Seq<(Key, W)>,
    r2: Seq<(Key, W)>,
    scale: real,
    q: Key,
)
    requires
        alike(t1, t2),
        alike(r1, r2),
    ensures
        mixed(t1, r1, scale, q) == mixed(t2, r2, scale, q),
    decreases t1.len(),
{
    if t1.len() > 0 {
        lemma_alike_front(t1, t2);
        lemma_alike_mixed(t1.drop_last(), t2.drop_last(), r1, r2, scale, q);
        lemma_alike_sums(r1, r2, Measure::Breaks(t1.last().0, q));
    }
}

/// A round gives the same to every pattern in lists that are alike.
proof fn lemma_alike_round<W: Weight>(a: Seq<(Key, W)>, b: Seq<(Key, W)>, q: Key)
    requires
        alike(a, b),
    ensures
        round_gives(a, q) == round_gives(b, q),
{
    let e = top(a);
    lemma_alike_parts(a, b, e);
    lemma_alike_sums(rest_of(a, e), rest_of(b, e), Measure::Of(q));
    lemma_alike_sums(rest_of(a, e), rest_of(b, e), Measure::All);
    lemma_alike_mixed(
        tied_of(a, e),
        tied_of(b, e),
        rest_of(a, e),
        rest_of(b, e),
        1real / total(rest_of(a, e)),
        q,
    );
}

/// In a list in the strict order of the keys, no pattern before the last has
/// the key of the last.
proof fn lemma_last_weight<W: Weight>(a: Seq<(Key, W)>)
    requires
        sorted_strict(a),
        positive(a),
        a.len() > 0,
    ensures
        weight_of(a, a.last().0) == a.last().1.value(),
        sorted_strict(a.drop_last()),
        positive(a.drop_last()),
        forall|q: Key|
            q != a.last().0 ==> #[trigger] weight_of(a.drop_last(), q) == weight_of(a, q),
        weight_of(a.drop_last(), a.last().0) == 0real,
{
    let front = a.drop_last();
    assert(positive(front)) by {
        assert forall|i: int| 0 <= i < front.len() implies (#[trigger] front[i]).1.value() > 0real by {
            assert(a[i].1.value() > 0real);
        }
    }
    assert(sorted_strict(front)) by {
        assert forall|i: int, j: int| 0 <= i < j < front.len() implies key_lt(
            #[trigger] front[i].0,
            #[trigger] front[j].0,
        ) by {
            assert(key_lt(a[i].0, a[j].0));
        }
    }
    lemma_present(front, a.last().0);
    if weight_of(front, a.last().0) > 0real {
        let i = choose|i: int| 0 <= i < front.len() && (#[trigger] front[i]).0 == a.last().0;
        assert(key_lt(a[i].0, a[a.len() - 1].0));
    }
}

/// Two lists in the strict order of the keys, with weights above zero, that
/// give every pattern the same weight are alike.
pub proof fn lemma_same_lists<W: Weight>(a: Seq<(Key, W)>, b: Seq<(Key, W)>)
    requires
        sorted_strict(a),
        positive(a),
        sorted_strict(b),
        positive(b),
        forall|q: Key| #[trigger] weight_of(a, q) == weight_of(b, q),
    ensures
        alike(a, b),
    decreases a.len() + b.len(),
{
    if a.len() == 0 && b.len() == 0 {
    } else if a.len() == 0 {
        lemma_last_weight(b);
        assert(weight_of(a, b.last().0) == weight_of(b, b.last().0));
        assert(b[b.len() - 1].1.value() > 0real);
    } else if b.len() == 0 {
        lemma_last_weight(a);
        assert(weight_of(a, a.last().0) == weight_of(b, a.last().0));
        assert(a[a.len() - 1].1.value() > 0real);
    } else {
        let ka = a.last().0;
        let kb = b.last().0;
        lemma_last_weight(a);
        lemma_last_weight(b);
        assert(a[a.len() - 1].1.value() > 0real);
        assert(b[b.len() - 1].1.value() > 0real);
        lemma_present(b, ka);
        lemma_present(a, kb);
        assert(weight_of(a, ka) == weight_of(b, ka));
        assert(weight_of(a, kb) == weight_of(b, kb));
        let j = choose|j: int| 0 <= j < b.len() && (#[trigger] b[j]).0 == ka;
        let i = choose|i: int| 0 <= i < a.len() && (#[trigger] a[i]).0 == kb;
        if j < b.len() - 1 {
            assert(key_lt(b[j].0, b[b.len() - 1].0));
        }
        if i < a.len() - 1 {
            assert(key_lt(a[i].0, a[a.len() - 1].0));
        }
        assert(ka == kb);
        assert forall|q: Key| #[trigger]
            weight_of(a.drop_last(), q) == weight_of(b.drop_last(), q) by {
            assert(weight_of(a, q) == weight_of(b, q));
        }
        lemma_same_lists(a.drop_last(), b.drop_last());
        lemma_alike_push(a.drop_last(), b.drop_last(), a.last(), b.last());
        assert(a.drop_last().push(a.last()) =~= a);
        assert(b.drop_last().push(b.last()) =~= b);
    }
}

/// The two inputs give every pattern the same weight.
pub open spec fn same_input<W: Weight>(a: Seq<(Vec<Preference>, W)>, b: Seq<(Vec<Preference>, W)>) -> bool {
    forall|q: Key| #[trigger] input_sum(a, Measure::Of(q)) == input_sum(b, Measure::Of(q))
}

/// Inputs that hold the same patterns with the same weights, one by one, give
/// every pattern the same weight.
pub proof fn lemma_same_input<W: Weight>(a: Seq<(Vec<Preference>, W)>, b: Seq<(Vec<Preference>, W)>)
    requires
        a.len() == b.len(),
        forall|i: int|
            0 <= i < a.len() ==> (#[trigger] a[i]).0@ == b[i].0@ && a[i].1.value() == b[i].1.value(),
    ensures
        same_input(a, b),
    decreases a.len(),
{
    if a.len() > 0 {
        let a1 = a.drop_last();
        let b1 = b.drop_last();
        assert forall|i: int| 0 <= i < a1.len() implies (#[trigger] a1[i]).0@ == b1[i].0@
            && a1[i].1.value() == b1[i].1.value() by {
            assert(a[i].0@ == b[i].0@);
        }
        lemma_same_input(a1, b1);
        assert(a[a.len() - 1].0@ == b[a.len() - 1].0@);
        assert forall|q: Key| #[trigger]
            input_sum(a, Measure::Of(q)) == input_sum(b, Measure::Of(q)) by {
            assert(input_sum(a1, Measure::Of(q)) == input_sum(b1, Measure::Of(q)));
        }
    }
}

/// The lists of the chains of two inputs that give every pattern the same
/// weight are alike, round for round.
proof fn lemma_chains_alike<W: Weight>(
    i1: Seq<(Vec<Preference>, W)>,
    i2: Seq<(Vec<Preference>, W)>,
    c1: Seq<Seq<(Key, W)>>,
    c2: Seq<Seq<(Key, W)>>,
    r: int,
)
    requires
        same_input(i1, i2),
        c1.len() >= 1,
        c2.len() >= 1,
        begins(i1, c1[0]),
        begins(i2, c2[0]),
        forall|t: int| 0 <= t < c1.len() - 1 ==> #[trigger] goes_on(c1, t),
        forall|t: int| 0 <= t < c2.len() - 1 ==> #[trigger] goes_on(c2, t),
        0 <= r < c1.len(),
        r < c2.len(),
    ensures
        alike(c1[r], c2[r]),
    decreases r,
{
    if r == 0 {
        assert forall|q: Key| #[trigger] weight_of(c1[0], q) == weight_of(c2[0], q) by {
            assert(weight_of(c1[0], q) == input_sum(i1, Measure::Of(q)));
            assert(weight_of(c2[0], q) == input_sum(i2, Measure::Of(q)));
            assert(input_sum(i1, Measure::Of(q)) == input_sum(i2, Measure::Of(q)));
        }
        lemma_same_lists(c1[0], c2[0]);
    } else {
        lemma_chains_alike(i1, i2, c1, c2, r - 1);
        let t = r - 1;
        assert(goes_on(c1, t));
        assert(goes_on(c2, t));
        assert forall|q: Key| #[trigger] weight_of(c1[r], q) == weight_of(c2[r], q) by {
            lemma_alike_round(c1[t], c2[t], q);
            assert(weight_of(c1[t + 1], q) == round_gives(c1[t], q));
            assert(weight_of(c2[t + 1], q) == round_gives(c2[t], q));
        }
        lemma_same_lists(c1[r], c2[r]);
    }
}

/// The completion is one: the completions of two inputs that give every
/// pattern the same weight hold the same patterns with the same weights, in
/// the same order.
pub proof fn lemma_completion_unique<W: Weight>(
    i1: Seq<(Vec<Preference>, W)>,
    c1: Seq<Seq<(Key, W)>>,
    f1: Seq<(Key, W)>,
    i2: Seq<(Vec<Preference>, W)>,
    c2: Seq<Seq<(Key, W)>>,
    f2: Seq<(Key, W)>,
)
    requires
        same_input(i1, i2),
        completes_by(i1, c1, f1),
        completes_by(i2, c2, f2),
    ensures
        alike(f1, f2),
{
    let n = if c1.len() <= c2.len() {
        c1.len() as int
    } else {
        c2.len() as int
    };
    lemma_chains_alike(i1, i2, c1, c2, n - 1);
    let a = c1[n - 1];
    let b = c2[n - 1];
    lemma_alike_parts(a, b, top(a));
    if c1.len() < c2.len() {
        assert(goes_on(c2, n - 1));
    }
    if c2.len() < c1.len() {
        assert(goes_on(c1, n - 1));
    }
    assert(c1.len() == c2.len());
    if top(a) != 0 {
        let e = top(a);
        assert forall|i: int| 0 <= i < f1.len() implies (#[trigger] f1[i]).0 == f2[i].0
            && f1[i].1.value() == f2[i].1.value() by {
            if i < a.len() {
                assert(a[i].0 == b[i].0);
            } else {
                assert(a[i - a.len()].0 == b[i - a.len()].0);
            }
        }
    }
}

/// The sum of what the patterns of the input contribute, each under its key.
pub open spec fn input_sum<W: Weight>(input: Seq<(Vec<Preference>, W)>, what: Measure) -> real
    decreases input.len(),
{
    if input.len() == 0 {
        0real
    } else {
        input_sum(input.drop_last(), what) + term((key_of(input.last().0@), input.last().1), what)
    }
}

/// The largest number of seats in a pattern of the input.
pub open spec fn width_of<W>(input: Seq<(Vec<Preference>, W)>) -> int
    decreases input.len(),
{
    if input.len() == 0 {
        0
    } else if input.last().0@.len() > width_of(input.drop_last()) {
        input.last().0@.len() as int
    } else {
        width_of(input.drop_last())
    }
}

/// No pattern of the input ties a seat with the challenger.
pub open spec fn tie_free<W>(input: Seq<(Vec<Preference>, W)>) -> bool {
    forall|i: int| 0 <= i < input.len() ==> key_of(#[trigger] input[i].0@).0 == 0
}

/// What may come into a completion: patterns of at most 64 seats, no weight
/// negative.
pub open spec fn completable<W: Weight>(input: Seq<(Vec<Preference>, W)>) -> bool {
    &&& forall|i: int| 0 <= i < input.len() ==> (#[trigger] input[i]).0@.len() <= 64
    &&& forall|i: int| 0 <= i < input.len() ==> (#[trigger] input[i]).1.value() >= 0real
}

/// `fin` is the completion of the input: what the rounds of the completion
/// make of the patterns of the input.  It holds patterns without ties, none
/// twice, all with positive weight, with the total weight of the input.  Where
/// the input has no ties, every pattern keeps the weight that the input gives
/// it.
pub open spec fn completes<W: Weight>(input: Seq<(Vec<Preference>, W)>, fin: Seq<(Key, W)>) -> bool {
    &&& distinct(fin)
    &&& positive(fin)
    &&& forall|i: int| 0 <= i < fin.len() ==> (#[trigger] fin[i]).0.0 == 0
    &&& forall|i: int| 0 <= i < fin.len() ==> sound(#[trigger] fin[i].0, width_of(input))
    &&& total(fin) == input_sum(input, Measure::All)
    &&& tie_free(input) ==> forall|key: Key| #[trigger]
        weight_of(fin, key) == input_sum(input, Measure::Of(key))
    &&& exists|chain: Seq<Seq<(Key, W)>>| #[trigger] completes_by(input, chain, fin)
}

/// An input has one completion: two completions of it hold the same patterns
/// with the same weights, in the same order.
pub proof fn lemma_completes_unique<W: Weight>(
    input: Seq<(Vec<Preference>, W)>,
    f1: Seq<(Key, W)>,
    f2: Seq<(Key, W)>,
)
    requires
        completes(input, f1),
        completes(input, f2),
    ensures
        alike(f1, f2),
{
    let c1 = choose|chain: Seq<Seq<(Key, W)>>| #[trigger] completes_by(input, chain, f1);
    let c2 = choose|chain: Seq<Seq<(Key, W)>>| #[trigger] completes_by(input, chain, f2);
    lemma_completion_unique(input, c1, f1, input, c2, f2);
}

/// `out` lists, for each pattern of `fin`, its preferred seats and its weight.
pub open spec fn decoded_as<W: Weight>(out: Seq<(Vec<usize>, W)>, fin: Seq<(Key, W)>) -> bool {
    &&& out.len() == fin.len()
    &&& forall|i: int|
        0 <= i < out.len() ==> (#[trigger] out[i]).0@ == positions(fin[i].0.1, 64) && out[i].1.value()
            == fin[i].1.value()
}

proof fn lemma_width_bound<W>(input: Seq<(Vec<Preference>, W)>, i: int)
    requires
        0 <= i < input.len(),
    ensures
        input[i].0@.len() <= width_of(input),
    decreases input.len(),
{
    if i < input.len() - 1 {
        lemma_width_bound(input.drop_last(), i);
    }
}

proof fn lemma_input_present<W: Weight>(input: Seq<(Vec<Preference>, W)>, key: Key)
    requires
        input_sum(input, Measure::Of(key)) != 0real,
    ensures
        exists|i: int| 0 <= i < input.len() && key_of(#[trigger] input[i].0@) == key,
    decreases input.len(),
{
    if input.len() > 0 {
        if key_of(input.last().0@) == key {
            assert(key_of(input[input.len() - 1].0@) == key);
        } else {
            lemma_input_present(input.drop_last(), key);
            let i = choose|i: int|
                0 <= i < input.drop_last().len() && key_of(#[trigger] input.drop_last()[i].0@)
                    == key;
            assert(key_of(input[i].0@) == key);
        }
    }
}

/// The patterns of the input that have weight, each under its key.
fn encode_all<W: Weight>(input: &[(Vec<Preference>, W)]) -> (list: Vec<(Key, W)>)
    requires
        completable(input@),
    ensures
        positive(list@),
        forall|t: int| 0 <= t < list@.len() ==> sound(#[trigger] list@[t].0, width_of(input@)),
        total(list@) == input_sum(input@, Measure::All),
        forall|key: Key| #[trigger] weight_of(list@, key) == input_sum(input@, Measure::Of(key)),
{
    let mut list: Vec<(Key, W)> = Vec::new();
    let ghost width = width_of(input@);
    let mut i: usize = 0;
    while i < input.len()
        invariant
            i <= input@.len(),
            completable(input@),
            width == width_of(input@),
            positive(list@),
            forall|t: int| 0 <= t < list@.len() ==> sound(#[trigger] list@[t].0, width),
            total(list@) == input_sum(input@.take(i as int), Measure::All),
            forall|key: Key| #[trigger]
                weight_of(list@, key) == input_sum(input@.take(i as int), Measure::Of(key)),
        decreases input@.len() - i,
    {
        proof {
            assert(input@.take(i + 1).drop_last() =~= input@.take(i as int));
            assert(input@[i as int].0@.len() <= 64);
            assert(input@[i as int].1.value() >= 0real);
            lemma_width_bound(input@, i as int);
        }
        let ghost before = list@;
        if !input[i].1.is_zero() {
            let key = encode_pattern(input[i].0.as_slice());
            list.push((key, input[i].1.duplicate()));
            proof {
                lemma_sum_push(before, list@.last(), Measure::All);
                assert forall|other: Key| #[trigger]
                    weight_of(list@, other) == input_sum(
                        input@.take(i + 1),
                        Measure::Of(other),
                    ) by {
                    lemma_sum_push(before, list@.last(), Measure::Of(other));
                    assert(weight_of(before, other) == input_sum(
                        input@.take(i as int),
                        Measure::Of(other),
                    ));
                }
                assert forall|t: int| 0 <= t < list@.len() implies (#[trigger] list@[t]).1.value()
                    > 0real by {
                    if t < before.len() {
                        assert(before[t].1.value() > 0real);
                    }
                }
                assert forall|t: int| 0 <= t < list@.len() implies sound(
                    #[trigger] list@[t].0,
                    width,
                ) by {
                    if t < before.len() {
                        assert(sound(before[t].0, width));
                    }
                }
            }
        } else {
            proof {
                assert forall|other: Key| #[trigger]
                    weight_of(list@, other) == input_sum(
                        input@.take(i + 1),
                        Measure::Of(other),
                    ) by {
                    assert(weight_of(before, other) == input_sum(
                        input@.take(i as int),
                        Measure::Of(other),
                    ));
                }
            }
        }
        i += 1;
    }
    proof {
        assert(input@.take(input@.len() as int) =~= input@);
    }
    list
}

/// The preferred seats of every pattern, with its weight.
fn decode_all<W: Weight>(fin: Vec<(Key, W)>) -> (out: Vec<(Vec<usize>, W)>)
    ensures
        decoded_as(out@, fin@),
{
    let mut out: Vec<(Vec<usize>, W)> = Vec::new();
    let ghost s = fin@;
    for e in it: fin
        invariant
            it.seq() == s,
            out@.len() == it.index(),
            forall|i: int|
                0 <= i < out@.len() ==> (#[trigger] out@[i]).0@ == positions(s[i].0.1, 64)
                    && out@[i].1.value() == s[i].1.value(),
    {
        let ghost before = out@;
        out.push((decode_bits(e.0.1), e.1));
        proof {
            assert forall|i: int| 0 <= i < out@.len() implies (#[trigger] out@[i]).0@ == positions(
                s[i].0.1,
                64,
            ) && out@[i].1.value() == s[i].1.value() by {
                if i < before.len() {
                    assert(before[i].0@ == positions(s[i].0.1, 64));
                }
            }
        }
    }
    out
}

proof fn lemma_halves_distinct<W: Weight>(
    tied: Seq<(Key, W)>,
    low: Seq<(Key, W)>,
    high: Seq<(Key, W)>,
    eq: u64,
    width: int,
)
    requires
        eq != 0,
        sorted_strict(tied),
        forall|u: int| 0 <= u < tied.len() ==> (#[trigger] tied[u]).0.0 == eq,
        forall|u: int| 0 <= u < tied.len() ==> sound(#[trigger] tied[u].0, width),
        low.len() == tied.len(),
        high.len() == tied.len(),
        forall|u: int| 0 <= u < tied.len() ==> (#[trigger] low[u]).0 == (0u64, tied[u].0.1),
        forall|u: int| 0 <= u < tied.len() ==> (#[trigger] high[u]).0 == (0u64, tied[u].0.1 | eq),
    ensures
        distinct(low + high),
        forall|i: int| 0 <= i < (low + high).len() ==> sound(#[trigger] (low + high)[i].0, width),
{
    let all = low + high;
    let n = tied.len() as int;
    assert forall|i: int| 0 <= i < all.len() implies (#[trigger] all[i]).0.0 == 0 && ({
        let u = if i < n {
            i
        } else {
            i - n
        };
        let gt = tied[u].0.1;
        &&& gt & eq == 0
        &&& all[i].0.1 == if i < n {
            gt
        } else {
            gt | eq
        }
    }) by {
        let u = if i < n {
            i
        } else {
            i - n
        };
        assert(tied[u].0.0 == eq);
        assert(sound(tied[u].0, width));
        let gt = tied[u].0.1;
        assert(gt & eq == eq & gt) by (bit_vector);
        if i < n {
            assert(all[i] == low[i]);
        } else {
            assert(all[i] == high[i - n]);
        }
    }
    assert forall|i: int, j: int| 0 <= i < j < all.len() implies #[trigger] all[i].0
        != #[trigger] all[j].0 by {
        let u = if i < n {
            i
        } else {
            i - n
        };
        let v = if j < n {
            j
        } else {
            j - n
        };
        let (g1, g2) = (tied[u].0.1, tied[v].0.1);
        assert(all[i].0.0 == 0 && all[j].0.0 == 0);
        if u != v {
            if u < v {
                assert(key_lt(tied[u].0, tied[v].0));
            } else {
                assert(key_lt(tied[v].0, tied[u].0));
            }
            assert(g1 != g2);
        }
        assert(g1 != (g2 | eq) && (g1 | eq) != g2 && (g1 != g2 ==> (g1 | eq) != (g2 | eq)))
            by (bit_vector)
            requires
                eq != 0,
                g1 & eq == 0,
                g2 & eq == 0,
        ;
    }
    assert forall|i: int| 0 <= i < all.len() implies sound(#[trigger] all[i].0, width) by {
        let u = if i < n {
            i
        } else {
            i - n
        };
        let gt = tied[u].0.1;
        assert(sound(tied[u].0, width));
        assert(all[i].0.0 == 0);
        lemma_zero_has_no_bits();
        assert(0u64 & all[i].0.1 == 0) by (bit_vector);
        assert forall|j: int| width <= j < 64 implies !#[trigger] bit(all[i].0.1, j) by {
            lemma_or_bit(gt, eq, j);
            assert(!bit(tied[u].0.0, j));
        }
    }
}

/// When nothing breaks the ties of `eq`: every pattern twice with half its
/// weight, once with the tied seats below the challenger and once with them
/// above.
fn split_evenly<W: Weight>(tied: &Vec<(Key, W)>, eq: u64, Ghost(width): Ghost<int>) -> (fin: Vec<
    (Key, W),
>)
    requires
        eq != 0,
        sorted_strict(tied@),
        positive(tied@),
        forall|u: int| 0 <= u < tied@.len() ==> (#[trigger] tied@[u]).0.0 == eq,
        forall|u: int| 0 <= u < tied@.len() ==> sound(#[trigger] tied@[u].0, width),
    ensures
        distinct(fin@),
        positive(fin@),
        forall|i: int| 0 <= i < fin@.len() ==> (#[trigger] fin@[i]).0.0 == 0,
        forall|i: int| 0 <= i < fin@.len() ==> sound(#[trigger] fin@[i].0, width),
        total(fin@) == total(tied@),
        halved_to(tied@, eq, fin@),
{
    let two = W::from_i64(2);
    let mut low: Vec<(Key, W)> = Vec::new();
    let mut high: Vec<(Key, W)> = Vec::new();
    let mut u: usize = 0;
    proof {
        assert(tied@.take(0) =~= Seq::empty());
    }
    while u < tied.len()
        invariant
            u <= tied@.len(),
            two.value() == 2real,
            positive(tied@),
            low@.len() == u,
            high@.len() == u,
            positive(low@),
            positive(high@),
            forall|t: int| 0 <= t < u ==> (#[trigger] low@[t]).0 == (0u64, tied@[t].0.1),
            forall|t: int| 0 <= t < u ==> (#[trigger] high@[t]).0 == (0u64, tied@[t].0.1 | eq),
            forall|t: int|
                0 <= t < u ==> (#[trigger] low@[t]).1.value() + low@[t].1.value() == tied@[t].1.value(),
            forall|t: int|
                0 <= t < u ==> (#[trigger] high@[t]).1.value() + high@[t].1.value()
                    == tied@[t].1.value(),
            total(low@) + total(high@) == total(tied@.take(u as int)),
        decreases tied@.len() - u,
    {
        let gt = tied[u].0.1;
        let ghost low0 = low@;
        let ghost high0 = high@;
        proof {
            assert(tied@[u as int].1.value() > 0real);
            assert(tied@.take(u + 1).drop_last() =~= tied@.take(u as int));
        }
        low.push(((0, gt), tied[u].1.over(&two)));
        high.push(((0, gt | eq), tied[u].1.over(&two)));
        proof {
            lemma_sum_push(low0, low@.last(), Measure::All);
            lemma_sum_push(high0, high@.last(), Measure::All);
            assert forall|t: int| 0 <= t < u + 1 implies (#[trigger] low@[t]).1.value()
                + low@[t].1.value() == tied@[t].1.value() by {
                if t < u {
                    assert(low@[t] == low0[t]);
                }
            }
            assert forall|t: int| 0 <= t < u + 1 implies (#[trigger] high@[t]).1.value()
                + high@[t].1.value() == tied@[t].1.value() by {
                if t < u {
                    assert(high@[t] == high0[t]);
                }
            }
            assert forall|t: int| 0 <= t < low@.len() implies (#[trigger] low@[t]).1.value()
                > 0real by {
                if t < low0.len() {
                    assert(low0[t].1.value() > 0real);
                }
            }
            assert forall|t: int| 0 <= t < high@.len() implies (#[trigger] high@[t]).1.value()
                > 0real by {
                if t < high0.len() {
                    assert(high0[t].1.value() > 0real);
                }
            }
        }
        u += 1;
    }
    let ghost low1 = low@;
    let ghost high1 = high@;
    low.append(&mut high);
    proof {
        assert(tied@.take(tied@.len() as int) =~= tied@);
        lemma_halves_distinct(tied@, low1, high1, eq, width);
        lemma_sum_concat(low1, high1, Measure::All);
        assert(low@ =~= low1 + high1);
        assert forall|i: int| 0 <= i < tied@.len() implies (#[trigger] low@[i]).0 == (
            0u64,
            tied@[i].0.1,
        ) && low@[i].1.value() + low@[i].1.value() == tied@[i].1.value() by {
            assert(low@[i] == low1[i]);
        }
        assert forall|j: int| tied@.len() <= j < 2 * tied@.len() implies (#[trigger] low@[j]).0 == (
            0u64,
            tied@[j - tied@.len()].0.1 | eq,
        ) && low@[j].1.value() + low@[j].1.value() == tied@[j - tied@.len()].1.value() by {
            assert(low@[j] == high1[j - tied@.len()]);
        }
        assert forall|i: int| 0 <= i < low@.len() implies (#[trigger] low@[i]).1.value()
            > 0real && low@[i].0.0 == 0 by {
            if i < low1.len() {
                assert(low1[i].1.value() > 0real);
            } else {
                assert(high1[i - low1.len()].1.value() > 0real);
            }
        }
    }
    low
}

/// Proportional completion: the weight of the patterns that tie seats with the
/// challenger goes to patterns without ties.
///
/// The patterns with the most ties are taken first.  Their weight is shared
/// out in the proportions in which the other patterns rank the tied seats, or
/// in two halves where no other pattern is left.
pub fn proportional_completion<W: Weight>(input: &[(Vec<Preference>, W)]) -> (out: Vec<
    (Vec<usize>, W),
>)
    requires
        completable(input@),
    ensures
        exists|fin: Seq<(Key, W)>| #[trigger] completes(input@, fin) && decoded_as(out@, fin),
{
    let ghost width = width_of(input@);
    let mut list = encode_all(input);
    let ghost unsorted = list@;
    sort_patterns(&mut list);
    proof {
        lemma_permuted_facts(unsorted, list@);
        assert forall|t: int| 0 <= t < list@.len() implies sound(#[trigger] list@[t].0, width) by {
            assert(unsorted.contains(list@[t]));
            let j = choose|j: int| 0 <= j < unsorted.len() && unsorted[j] == list@[t];
            assert(sound(unsorted[j].0, width));
        }
    }
    let ghost arranged = list@;
    let mut patterns = aggregate(list);
    proof {
        let p = |key: Key| sound(key, width);
        let none = Seq::<(Key, W)>::empty();
        assert(all_keys(arranged, p));
        assert forall|key: Key| #[trigger]
            weight_of(patterns@, key) == weight_of(arranged, key) + weight_of(none, key) by {}
        lemma_keys_transfer(arranged, none, patterns@, p);
        assert forall|t: int| 0 <= t < patterns@.len() implies sound(
            #[trigger] patterns@[t].0,
            width,
        ) by {
            assert(p(patterns@[t].0));
        }
    }
    let total_weight = sum_weights(&patterns);
    let ghost mut untouched = true;
    let ghost mut chain: Seq<Seq<(Key, W)>> = seq![patterns@];
    proof {
        assert(begins(input@, chain[0]));
    }
    loop
        invariant
            chain.len() >= 1,
            chain.last() == patterns@,
            begins(input@, chain[0]),
            forall|r: int| 0 <= r < chain.len() - 1 ==> #[trigger] goes_on(chain, r),
            width == width_of(input@),
            sorted_strict(patterns@),
            positive(patterns@),
            forall|t: int| 0 <= t < patterns@.len() ==> sound(#[trigger] patterns@[t].0, width),
            total(patterns@) == total_weight.value(),
            total_weight.value() == input_sum(input@, Measure::All),
            untouched ==> forall|key: Key| #[trigger]
                weight_of(patterns@, key) == input_sum(input@, Measure::Of(key)),
            !untouched ==> !tie_free(input@),
        decreases
                if patterns@.len() == 0 {
                    0int
                } else {
                    patterns@.last().0.0 + 1
                },
    {
        let n = patterns.len();
        if n == 0 {
            proof {
                assert(top(patterns@) == 0);
                assert(completes_by(input@, chain, patterns@));
                assert(completes(input@, patterns@));
            }
            return decode_all(patterns);
        }
        let eq = patterns[n - 1].0.0;
        proof {
            assert forall|t: int| 0 <= t < n implies (#[trigger] patterns@[t]).0.0 <= eq by {
                if t < n - 1 {
                    assert(key_lt(patterns@[t].0, patterns@[n - 1].0));
                }
            }
            assert(distinct(patterns@)) by {
                assert forall|i: int, j: int| 0 <= i < j < patterns@.len() implies #[trigger] patterns@[i].0
                    != #[trigger] patterns@[j].0 by {
                    assert(key_lt(patterns@[i].0, patterns@[j].0));
                }
            }
        }
        proof {
            assert(patterns@[n - 1].0.0 == eq);
            lemma_top_is(patterns@, eq);
        }
        if eq == 0 {
            proof {
                assert(completes_by(input@, chain, patterns@));
                assert(completes(input@, patterns@));
            }
            return decode_all(patterns);
        }
        proof {
            // A pattern with ties is left, so the input has one.
            if untouched {
                let key = patterns@[n - 1].0;
                lemma_present(patterns@, key);
                assert(weight_of(patterns@, key) == input_sum(input@, Measure::Of(key)));
                lemma_input_present(input@, key);
            }
            untouched = false;
        }
        let mut i: usize = n;
        while i > 0 && patterns[i - 1].0.0 == eq
            invariant
                i <= n,
                n == patterns@.len(),
                forall|t: int| i <= t < n ==> (#[trigger] patterns@[t]).0.0 == eq,
            decreases i,
        {
            i -= 1;
        }
        if i == 0 {
            let fin = split_evenly(&patterns, eq, Ghost(width));
            proof {
                lemma_parts(patterns@, 0, eq);
                assert(patterns@.take(0).len() == 0);
                assert(ends(chain.last(), fin@));
                assert(completes_by(input@, chain, fin@));
                assert(completes(input@, fin@));
            }
            return decode_all(fin);
        }
        let ghost whole = patterns@;
        let tied = patterns.split_off(i);
        proof {
            assert(whole =~= patterns@ + tied@);
            assert forall|t: int| 0 <= t < i implies (#[trigger] whole[t]).0.0 != eq by {
                assert(whole[i - 1].0.0 != eq);
                if t < i - 1 {
                    assert(key_lt(whole[t].0, whole[i - 1].0));
                }
                assert(whole[i - 1].0.0 <= eq);
            }
            lemma_parts(whole, i as int, eq);
            assert(whole.take(i as int) =~= patterns@);
            assert(whole.skip(i as int) =~= tied@);
            lemma_sum_concat(patterns@, tied@, Measure::All);
            assert(sorted_strict(patterns@) && sorted_strict(tied@)) by {
                assert forall|a: int, b: int| 0 <= a < b < patterns@.len() implies key_lt(
                    #[trigger] patterns@[a].0,
                    #[trigger] patterns@[b].0,
                ) by {
                    assert(key_lt(whole[a].0, whole[b].0));
                }
                assert forall|a: int, b: int| 0 <= a < b < tied@.len() implies key_lt(
                    #[trigger] tied@[a].0,
                    #[trigger] tied@[b].0,
                ) by {
                    assert(key_lt(whole[i + a].0, whole[i + b].0));
                }
            }
            assert forall|t: int| 0 <= t < patterns@.len() implies (#[trigger] patterns@[t]).1.value()
                > 0real && sound(patterns@[t].0, width) && patterns@[t].0.0 < eq by {
                assert(whole[t].1.value() > 0real);
                assert(sound(whole[t].0, width));
                assert(whole[i - 1].0.0 <= eq);
                if t < i - 1 {
                    assert(key_lt(whole[t].0, whole[i - 1].0));
                }
            }
            assert forall|t: int| 0 <= t < tied@.len() implies (#[trigger] tied@[t]).1.value()
                > 0real && sound(tied@[t].0, width) && tied@[t].0.0 == eq by {
                assert(whole[i + t].1.value() > 0real);
                assert(sound(whole[i + t].0, width));
                assert(whole[i + t].0.0 == eq);
            }
            lemma_sum_nonnegative(patterns@, Measure::All);
            assert(total(patterns@) > 0real) by {
                let r = patterns@;
                assert(r.last().1.value() > 0real);
                assert(positive(r.drop_last())) by {
                    assert forall|t: int| 0 <= t < r.drop_last().len() implies (#[trigger] r.drop_last()[t]).1.value()
                        > 0real by {
                        assert(r[t].1.value() > 0real);
                    }
                }
                lemma_sum_nonnegative(r.drop_last(), Measure::All);
            }
        }
        let tied_weight = sum_weights(&tied);
        let scale = W::one().over(&total_weight.minus(&tied_weight));
        let breakers = breakers_of(&patterns, eq, Ghost(width));
        let ghost sc = scale.value();
        let ghost rw = total(patterns@);
        proof {
            assert(sc > 0real) by (nonlinear_arith)
                requires
                    rw > 0real,
                    sc == 1real / rw,
            ;
        }
        let mut fresh = products(&tied, &breakers, &scale, eq, Ghost(width));
        proof {
            assert(sc > 0real && sc * rw == 1real) by (nonlinear_arith)
                requires
                    rw > 0real,
                    sc == 1real / rw,
            ;
            let tw = total(tied@);
            assert(tw * (sc * rw) == tw) by (nonlinear_arith)
                requires
                    sc * rw == 1real,
            ;
        }
        let ghost made = fresh@;
        sort_patterns(&mut fresh);
        proof {
            lemma_permuted_facts(made, fresh@);
            lemma_sorted_distinct(made, fresh@);
            assert forall|t: int| 0 <= t < fresh@.len() implies sound(#[trigger] fresh@[t].0, width)
                && fresh@[t].0.0 < eq by {
                assert(made.contains(fresh@[t]));
                let j = choose|j: int| 0 <= j < made.len() && made[j] == fresh@[t];
                assert(sound(made[j].0, width));
                assert(made[j].0.0 < eq);
            }
        }
        let ghost kept = patterns@;
        let ghost added = fresh@;
        patterns = merge_patterns(patterns, fresh);
        proof {
            assert forall|q: Key| #[trigger] weight_of(patterns@, q) == round_gives(whole, q) by {
                lemma_sum_permutation(made, added, Measure::Of(q));
                lemma_mixed_same(tied@, breakers@, kept, sc, q, eq);
                assert(weight_of(patterns@, q) == weight_of(kept, q) + weight_of(added, q));
                assert(weight_of(made, q) == mixed(tied@, breakers@, sc, q));
            }
            assert(rounds_to(whole, patterns@));
            let longer = chain.push(patterns@);
            assert forall|r: int| 0 <= r < longer.len() - 1 implies #[trigger] goes_on(longer, r) by {
                if r < chain.len() - 1 {
                    assert(goes_on(chain, r));
                    assert(longer[r] == chain[r]);
                    assert(longer[r + 1] == chain[r + 1]);
                } else {
                    assert(longer[r] == whole);
                    assert(longer[r + 1] == patterns@);
                }
            }
            assert(longer[0] == chain[0]);
            chain = longer;
            let p = |key: Key| sound(key, width) && key.0 < eq;
            assert(all_keys(kept, p));
            assert(all_keys(added, p));
            lemma_keys_transfer(kept, added, patterns@, p);
            assert forall|t: int| 0 <= t < patterns@.len() implies sound(
                #[trigger] patterns@[t].0,
                width,
            ) && patterns@[t].0.0 < eq by {
                assert(p(patterns@[t].0));
            }
            if patterns@.len() > 0 {
                assert(patterns@[patterns@.len() - 1].0.0 < eq);
            }
        }
    }
}

} // verus!
