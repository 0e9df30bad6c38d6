//! Grouping the runs of a sequence and merging two ordered sequences.

use std::cmp::Ordering;
use vstd::std_specs::iter::IteratorSpec;
use vstd::prelude::*;

verus! {

/// A run in the making: its one or two members, or what its earlier members
/// were folded into and its last member.
enum Run<A, B> {
    One(A),
    Two(A, A),
    More(B, A),
}

/// `eq` can answer `r` when asked of member `i` of `s` and the next one.
pub open spec fn judged<A, E: Fn(&A, &A) -> bool>(eq: E, s: Seq<A>, i: int, r: bool) -> bool {
    call_ensures(eq, (&s[i], &s[i + 1]), r)
}

/// `eq` may be asked of members `i` and `j` of `s`.
pub open spec fn may_judge<A, E: Fn(&A, &A) -> bool>(eq: E, s: Seq<A>, i: int, j: int) -> bool {
    call_requires(eq, (&s[i], &s[j]))
}

/// `two` may be called with members `i` and `j` of `s`.
pub open spec fn may_pair<A, B, T: Fn(A, A) -> B>(two: T, s: Seq<A>, i: int, j: int) -> bool {
    call_requires(two, (s[i], s[j]))
}

/// The last `n` members of `s` are a run: `eq` said yes to each two
/// neighbours in it, and no to the member before it and its first member.
pub open spec fn tail_run<A, E: Fn(&A, &A) -> bool>(eq: E, s: Seq<A>, n: int) -> bool {
    &&& 1 <= n <= s.len()
    &&& forall|i: int| s.len() - n <= i < s.len() - 1 ==> #[trigger] judged(eq, s, i, true)
    &&& n < s.len() ==> judged(eq, s, s.len() - n - 1, false)
}

/// `more` can fold the member `a` into `g` with the result `b`.
pub open spec fn folds_on<A, B, M: Fn(B, A) -> B>(more: M, g: B, a: A, b: B) -> bool {
    call_ensures(more, (g, a), b)
}

/// `b` is what the run folds into: `one` of a single member, `two` of a pair,
/// and for a longer run `more` of what the run without its last member folds
/// into and that last member.
pub open spec fn folded<A, B, O: Fn(A) -> B, T: Fn(A, A) -> B, M: Fn(B, A) -> B>(
    one: O,
    two: T,
    more: M,
    run: Seq<A>,
    b: B,
) -> bool
    decreases run.len(),
{
    if run.len() == 1 {
        call_ensures(one, (run[0],), b)
    } else if run.len() == 2 {
        call_ensures(two, (run[0], run[1]), b)
    } else if run.len() >= 3 {
        exists|g: B|
            folded(one, two, more, run.drop_last(), g) && #[trigger] folds_on(more, g, run.last(), b)
    } else {
        false
    }
}

/// `out` holds, in order, what each run of `s` folds into.
pub open spec fn grouped<
    A,
    B,
    E: Fn(&A, &A) -> bool,
    O: Fn(A) -> B,
    T: Fn(A, A) -> B,
    M: Fn(B, A) -> B,
>(eq: E, one: O, two: T, more: M, s: Seq<A>, out: Seq<B>) -> bool
    decreases s.len(),
{
    if s.len() == 0 {
        out.len() == 0
    } else {
        &&& out.len() > 0
        &&& exists|n: int|
            #![trigger tail_run(eq, s, n)]
            tail_run(eq, s, n) && folded(one, two, more, s.skip(s.len() - n), out.last())
                && grouped(eq, one, two, more, s.take(s.len() - n), out.drop_last())
    }
}

/// Every call that grouping `s` can make is allowed.
pub open spec fn may_group<
    A,
    B,
    E: Fn(&A, &A) -> bool,
    O: Fn(A) -> B,
    T: Fn(A, A) -> B,
    M: Fn(B, A) -> B,
>(eq: E, one: O, two: T, more: M, s: Seq<A>) -> bool {
    &&& forall|i: int, j: int|
        0 <= i < s.len() && 0 <= j < s.len() ==> #[trigger] may_judge(eq, s, i, j)
    &&& forall|i: int| 0 <= i < s.len() ==> #[trigger] call_requires(one, (s[i],))
    &&& forall|i: int, j: int|
        0 <= i < s.len() && 0 <= j < s.len() ==> #[trigger] may_pair(two, s, i, j)
    &&& forall|g: B, i: int| 0 <= i < s.len() ==> #[trigger] call_requires(more, (g, s[i]))
}

/// Replace each run of `items` by what it folds into.  A run is a longest
/// stretch in which `eq` holds of each two neighbours.
pub fn combine_dups2<A, B, E, O, T, M>(items: Vec<A>, eq: E, one: O, two: T, more: M) -> (out: Vec<B>)
    where
        E: Fn(&A, &A) -> bool,
        O: Fn(A) -> B,
        T: Fn(A, A) -> B,
        M: Fn(B, A) -> B,
    requires
        may_group(eq, one, two, more, items@),
    ensures
        grouped(eq, one, two, more, items@, out@),
{
    let ghost s = items@;
    let mut v: Vec<B> = Vec::new();
    let mut run: Option<Run<A, B>> = None;
    let ghost mut n: int = 0;
    for x in it: items
        invariant
            may_group(eq, one, two, more, s),
            it.seq() == s,
            0 <= n <= it.index(),
            (n == 0) == (it.index() == 0),
            grouped(eq, one, two, more, s.take(it.index() - n), v@),
            n >= 1 ==> tail_run(eq, s.take(it.index() as int), n),
            match run {
                None => n == 0,
                Some(Run::One(a)) => n == 1 && a == s[it.index() - 1],
                Some(Run::Two(a, b)) => n == 2 && a == s[it.index() - 2] && b == s[it.index() - 1],
                Some(Run::More(g, c)) => n >= 3 && c == s[it.index() - 1] && folded(
                    one,
                    two,
                    more,
                    s.subrange(it.index() - n, it.index() - 1),
                    g,
                ),
            },
    {
        let ghost k = it.index() as int;
        assert(x == s[k]);
        match run {
            None => {
                run = Some(Run::One(x));
                proof {
                    assert(tail_run(eq, s.take(k + 1), 1));
                    n = 1;
                }
            },
            Some(r) => {
                proof {
                    assert(may_judge(eq, s, k - 1, k));
                }
                let same = match &r {
                    Run::One(a) => eq(a, &x),
                    Run::Two(_, b) => eq(b, &x),
                    Run::More(_, c) => eq(c, &x),
                };
                proof {
                    assert(judged(eq, s, k - 1, same));
                    assert(judged(eq, s.take(k + 1), k - 1, same));
                    assert forall|i: int| k - n <= i < k - 1 implies #[trigger] judged(
                        eq,
                        s.take(k + 1),
                        i,
                        true,
                    ) by {
                        assert(judged(eq, s.take(k), i, true));
                    }
                }
                if same {
                    let r1 = match r {
                        Run::One(a) => Run::Two(a, x),
                        Run::Two(a, b) => {
                            proof {
                                assert(may_pair(two, s, k - 2, k - 1));
                                assert(s.subrange(k - 2, k) =~= seq![a, b]);
                            }
                            Run::More(two(a, b), x)
                        },
                        Run::More(g, c) => {
                            assert(call_requires(more, (g, s[k - 1])));
                            let g1 = more(g, c);
                            proof {
                                let t = s.subrange(k - n, k);
                                assert(t.drop_last() =~= s.subrange(k - n, k - 1));
                                lemma_fold_more(one, two, more, t, g, g1);
                            }
                            Run::More(g1, x)
                        },
                    };
                    run = Some(r1);
                    proof {
                        assert(s.take(k + 1).take(k) =~= s.take(k));
                        assert(s.take(k - n) =~= s.take(k + 1).take(k - n));
                        assert(tail_run(eq, s.take(k + 1), n + 1));
                        n = n + 1;
                    }
                } else {
                    proof {
                        assert(call_requires(one, (s[k - 1],)));
                        if n >= 2 {
                            assert(may_pair(two, s, k - 2, k - 1));
                        }
                    }
                    let ghost t = s.subrange(k - n, k);
                    let b = match r {
                        Run::One(a) => {
                            let b = one(a);
                            proof {
                                lemma_fold_one(one, two, more, t, b);
                            }
                            b
                        },
                        Run::Two(a, b) => {
                            let b = two(a, b);
                            proof {
                                lemma_fold_two(one, two, more, t, b);
                            }
                            b
                        },
                        Run::More(g, c) => {
                            assert(call_requires(more, (g, s[k - 1])));
                            let b = more(g, c);
                            proof {
                                assert(t.drop_last() =~= s.subrange(k - n, k - 1));
                                lemma_fold_more(one, two, more, t, g, b);
                            }
                            b
                        },
                    };
                    proof {
                        lemma_close_run(eq, one, two, more, s, k, n, v@, b);
                    }
                    v.push(b);
                    run = Some(Run::One(x));
                    proof {
                        assert(tail_run(eq, s.take(k + 1), 1));
                        n = 1;
                    }
                }
            },
        }
    }
    match run {
        None => {
            assert(s.len() == 0);
        },
        Some(r) => {
            let ghost k = s.len() as int;
            proof {
                assert(call_requires(one, (s[k - 1],)));
                if n >= 2 {
                    assert(may_pair(two, s, k - 2, k - 1));
                }
            }
            let ghost t = s.subrange(k - n, k);
            let b = match r {
                Run::One(a) => {
                    let b = one(a);
                    proof {
                        lemma_fold_one(one, two, more, t, b);
                    }
                    b
                },
                Run::Two(a, b) => {
                    let b = two(a, b);
                    proof {
                        lemma_fold_two(one, two, more, t, b);
                    }
                    b
                },
                Run::More(g, c) => {
                    assert(call_requires(more, (g, s[k - 1])));
                    let b = more(g, c);
                    proof {
                        assert(t.drop_last() =~= s.subrange(k - n, k - 1));
                        lemma_fold_more(one, two, more, t, g, b);
                    }
                    b
                },
            };
            proof {
                lemma_close_run(eq, one, two, more, s, s.len() as int, n, v@, b);
                assert(s.take(s.len() as int) =~= s);
            }
            v.push(b);
        },
    }
    v
}

proof fn lemma_fold_one<A, B, O: Fn(A) -> B, T: Fn(A, A) -> B, M: Fn(B, A) -> B>(
    one: O,
    two: T,
    more: M,
    t: Seq<A>,
    b: B,
)
    requires
        t.len() == 1,
        call_ensures(one, (t[0],), b),
    ensures
        folded(one, two, more, t, b),
{
}

proof fn lemma_fold_two<A, B, O: Fn(A) -> B, T: Fn(A, A) -> B, M: Fn(B, A) -> B>(
    one: O,
    two: T,
    more: M,
    t: Seq<A>,
    b: B,
)
    requires
        t.len() == 2,
        call_ensures(two, (t[0], t[1]), b),
    ensures
        folded(one, two, more, t, b),
{
}

proof fn lemma_fold_more<A, B, O: Fn(A) -> B, T: Fn(A, A) -> B, M: Fn(B, A) -> B>(
    one: O,
    two: T,
    more: M,
    t: Seq<A>,
    g: B,
    b: B,
)
    requires
        t.len() >= 3,
        folded(one, two, more, t.drop_last(), g),
        call_ensures(more, (g, t.last()), b),
    ensures
        folded(one, two, more, t, b),
{
    assert(folds_on(more, g, t.last(), b));
}

proof fn lemma_close_run<A, B, E, O, T, M>(
    eq: E,
    one: O,
    two: T,
    more: M,
    s: Seq<A>,
    k: int,
    n: int,
    v: Seq<B>,
    b: B,
) where E: Fn(&A, &A) -> bool, O: Fn(A) -> B, T: Fn(A, A) -> B, M: Fn(B, A) -> B
    requires
        1 <= n <= k <= s.len(),
        grouped(eq, one, two, more, s.take(k - n), v),
        tail_run(eq, s.take(k), n),
        folded(one, two, more, s.subrange(k - n, k), b),
    ensures
        grouped(eq, one, two, more, s.take(k), v.push(b)),
{
    let t = s.take(k);
    assert(t.skip(t.len() - n) =~= s.subrange(k - n, k));
    assert(t.take(t.len() - n) =~= s.take(k - n));
    assert(v.push(b).drop_last() =~= v);
    assert(tail_run(eq, t, n) && folded(one, two, more, t.skip(t.len() - n), v.push(b).last())
        && grouped(eq, one, two, more, t.take(t.len() - n), v.push(b).drop_last()));
}

/// `b` is what the run folds into when a single member goes through `one`
/// and every further member is folded in by `more`.
pub open spec fn folded_from_one<A, B, O: Fn(A) -> B, M: Fn(B, A) -> B>(
    one: O,
    more: M,
    run: Seq<A>,
    b: B,
) -> bool
    decreases run.len(),
{
    if run.len() == 1 {
        call_ensures(one, (run[0],), b)
    } else if run.len() >= 2 {
        exists|g: B|
            folded_from_one(one, more, run.drop_last(), g) && #[trigger] folds_on(
                more,
                g,
                run.last(),
                b,
            )
    } else {
        false
    }
}

/// `out` holds, in order, what each run of `s` folds into, starting each run
/// with `one` and going on with `more`.
pub open spec fn grouped_from_one<A, B, E: Fn(&A, &A) -> bool, O: Fn(A) -> B, M: Fn(B, A) -> B>(
    eq: E,
    one: O,
    more: M,
    s: Seq<A>,
    out: Seq<B>,
) -> bool
    decreases s.len(),
{
    if s.len() == 0 {
        out.len() == 0
    } else {
        &&& out.len() > 0
        &&& exists|n: int|
            #![trigger tail_run(eq, s, n)]
            tail_run(eq, s, n) && folded_from_one(one, more, s.skip(s.len() - n), out.last())
                && grouped_from_one(eq, one, more, s.take(s.len() - n), out.drop_last())
    }
}

/// Every call that grouping `s` with `one` and `more` can make is allowed.
pub open spec fn may_group_from_one<A, B, E: Fn(&A, &A) -> bool, O: Fn(A) -> B, M: Fn(B, A) -> B>(
    eq: E,
    one: O,
    more: M,
    s: Seq<A>,
) -> bool {
    &&& forall|i: int, j: int|
        0 <= i < s.len() && 0 <= j < s.len() ==> #[trigger] may_judge(eq, s, i, j)
    &&& forall|i: int| 0 <= i < s.len() ==> #[trigger] call_requires(one, (s[i],))
    &&& forall|g: B, i: int| 0 <= i < s.len() ==> #[trigger] call_requires(more, (g, s[i]))
}

/// `two` does to a pair what `one` and then `more` do.
spec fn pairs_through<A, B, O: Fn(A) -> B, T: Fn(A, A) -> B, M: Fn(B, A) -> B>(
    one: O,
    two: T,
    more: M,
) -> bool {
    forall|a: A, b: A, r: B| #[trigger]
        call_ensures(two, (a, b), r) ==> exists|g: B|
            call_ensures(one, (a,), g) && #[trigger] folds_on(more, g, b, r)
}

proof fn lemma_folded_from_one<A, B, O, O1, T, M, M1>(
    one: O,
    more: M,
    first: O1,
    two: T,
    rest: M1,
    run: Seq<A>,
    b: B,
) where O: Fn(A) -> B, M: Fn(B, A) -> B, O1: Fn(A) -> B, T: Fn(A, A) -> B, M1: Fn(B, A) -> B
    requires
        forall|a: A, r: B| #[trigger] call_ensures(first, (a,), r) ==> call_ensures(one, (a,), r),
        forall|g: B, a: A, r: B| #[trigger]
            call_ensures(rest, (g, a), r) ==> call_ensures(more, (g, a), r),
        pairs_through(one, two, more),
        folded(first, two, rest, run, b),
    ensures
        folded_from_one(one, more, run, b),
    decreases run.len(),
{
    if run.len() == 2 {
        let g = choose|g: B| call_ensures(one, (run[0],), g) && #[trigger] folds_on(more, g, run[1], b);
        assert(run.drop_last() =~= seq![run[0]]);
        assert(folded_from_one(one, more, run.drop_last(), g));
        assert(folds_on(more, g, run.last(), b));
    } else if run.len() >= 3 {
        let g = choose|g: B|
            folded(first, two, rest, run.drop_last(), g) && #[trigger] folds_on(
                rest,
                g,
                run.last(),
                b,
            );
        lemma_folded_from_one(one, more, first, two, rest, run.drop_last(), g);
        assert(folds_on(more, g, run.last(), b));
    }
}

proof fn lemma_grouped_from_one<A, B, E, O, O1, T, M, M1>(
    eq: E,
    one: O,
    more: M,
    first: O1,
    two: T,
    rest: M1,
    s: Seq<A>,
    out: Seq<B>,
) where
    E: Fn(&A, &A) -> bool,
    O: Fn(A) -> B,
    M: Fn(B, A) -> B,
    O1: Fn(A) -> B,
    T: Fn(A, A) -> B,
    M1: Fn(B, A) -> B,

    requires
        forall|a: A, r: B| #[trigger] call_ensures(first, (a,), r) ==> call_ensures(one, (a,), r),
        forall|g: B, a: A, r: B| #[trigger]
            call_ensures(rest, (g, a), r) ==> call_ensures(more, (g, a), r),
        pairs_through(one, two, more),
        grouped(eq, first, two, rest, s, out),
    ensures
        grouped_from_one(eq, one, more, s, out),
    decreases s.len(),
{
    if s.len() > 0 {
        let n = choose|n: int|
            #![trigger tail_run(eq, s, n)]
            tail_run(eq, s, n) && folded(first, two, rest, s.skip(s.len() - n), out.last())
                && grouped(eq, first, two, rest, s.take(s.len() - n), out.drop_last());
        lemma_folded_from_one(one, more, first, two, rest, s.skip(s.len() - n), out.last());
        lemma_grouped_from_one(
            eq,
            one,
            more,
            first,
            two,
            rest,
            s.take(s.len() - n),
            out.drop_last(),
        );
    }
}

/// Replace each run of `items` by what it folds into: `one` of its first
/// member, and `more` of that and each further member in turn.
pub fn combine_dups<A, B, E, O, M>(items: Vec<A>, eq: E, one: O, more: M) -> (out: Vec<B>)
    where
        E: Fn(&A, &A) -> bool,
        O: Fn(A) -> B,
        M: Fn(B, A) -> B,
    requires
        may_group_from_one(eq, one, more, items@),
    ensures
        grouped_from_one(eq, one, more, items@, out@),
{
    let o = &one;
    let m = &more;
    let first = |a: A| -> (r: B)
        requires
            call_requires(o, (a,)),
        ensures
            call_ensures(o, (a,), r),
        { o(a) };
    let two = |a: A, b: A| -> (r: B)
        requires
            call_requires(o, (a,)),
            forall|g: B| #[trigger] call_requires(m, (g, b)),
        ensures
            exists|g: B| call_ensures(o, (a,), g) && #[trigger] call_ensures(m, (g, b), r),
        {
            let g = o(a);
            m(g, b)
        };
    let rest = |g: B, a: A| -> (r: B)
        requires
            call_requires(m, (g, a)),
        ensures
            call_ensures(m, (g, a), r),
        { m(g, a) };
    proof {
        let s = items@;
        assert forall|i: int, j: int| 0 <= i < s.len() && 0 <= j < s.len() implies #[trigger] may_pair(
            two,
            s,
            i,
            j,
        ) by {
            assert(call_requires(one, (s[i],)));
            assert forall|g: B| #[trigger] call_requires(more, (g, s[j])) by {}
        }
    }
    let out = combine_dups2(items, eq, first, two, rest);
    proof {
        assert forall|a: A, b: A, r: B| #[trigger] call_ensures(two, (a, b), r) implies exists|g: B|
            call_ensures(one, (a,), g) && #[trigger] folds_on(more, g, b, r) by {
            let g = choose|g: B| call_ensures(o, (a,), g) && #[trigger] call_ensures(m, (g, b), r);
            assert(folds_on(more, g, b, r));
        }
        lemma_grouped_from_one(eq, one, more, first, two, rest, items@, out@);
    }
    out
}

/// `order` can answer `o` when asked of `a` and `b`.
pub open spec fn ordered<T, C: Fn(&T, &T) -> Ordering>(order: C, a: T, b: T, o: Ordering) -> bool {
    call_ensures(order, (&a, &b), o)
}

/// `out` is the merge of `a` and `b`: at each step `order` is asked of the two
/// heads; the smaller head goes out, and two equal heads go out as one, made
/// by `combine`.  When one side is used up, the rest of the other follows.
pub open spec fn merged<T, C: Fn(&T, &T) -> Ordering, F: Fn(T, T) -> T>(
    order: C,
    combine: F,
    a: Seq<T>,
    b: Seq<T>,
    out: Seq<T>,
) -> bool
    decreases a.len() + b.len(),
{
    if a.len() == 0 {
        out == b
    } else if b.len() == 0 {
        out == a
    } else {
        &&& out.len() > 0
        &&& exists|o: Ordering|
            #![trigger ordered(order, a[0], b[0], o)]
            ordered(order, a[0], b[0], o) && match o {
                Ordering::Less => out[0] == a[0] && merged(order, combine, a.skip(1), b, out.skip(1)),
                Ordering::Greater => out[0] == b[0] && merged(
                    order,
                    combine,
                    a,
                    b.skip(1),
                    out.skip(1),
                ),
                Ordering::Equal => call_ensures(combine, (a[0], b[0]), out[0]) && merged(
                    order,
                    combine,
                    a.skip(1),
                    b.skip(1),
                    out.skip(1),
                ),
            }
    }
}

/// `order` may be asked of member `i` of `a` and member `j` of `b`.
pub open spec fn may_order<T, C: Fn(&T, &T) -> Ordering>(
    order: C,
    a: Seq<T>,
    b: Seq<T>,
    i: int,
    j: int,
) -> bool {
    call_requires(order, (&a[i], &b[j]))
}

/// `combine` may be called with member `i` of `a` and member `j` of `b`.
pub open spec fn may_combine<T, F: Fn(T, T) -> T>(
    combine: F,
    a: Seq<T>,
    b: Seq<T>,
    i: int,
    j: int,
) -> bool {
    call_requires(combine, (a[i], b[j]))
}

/// Every call that merging `a` and `b` can make is allowed.
pub open spec fn may_merge<T, C: Fn(&T, &T) -> Ordering, F: Fn(T, T) -> T>(
    order: C,
    combine: F,
    a: Seq<T>,
    b: Seq<T>,
) -> bool {
    &&& forall|i: int, j: int|
        0 <= i < a.len() && 0 <= j < b.len() ==> #[trigger] may_order(order, a, b, i, j)
    &&& forall|i: int, j: int|
        0 <= i < a.len() && 0 <= j < b.len() ==> #[trigger] may_combine(combine, a, b, i, j)
}

fn reversed<T>(items: Vec<T>) -> (r: Vec<T>)
    ensures
        r@ == items@.reverse(),
{
    let mut items = items;
    let ghost s = items@;
    let mut r: Vec<T> = Vec::new();
    while items.len() > 0
        invariant
            items@.len() + r@.len() == s.len(),
            forall|i: int| 0 <= i < items@.len() ==> items@[i] == s[i],
            forall|i: int| 0 <= i < r@.len() ==> r@[i] == s[s.len() - 1 - i],
        decreases items@.len(),
    {
        match items.pop() {
            Some(x) => {
                r.push(x);
            },
            None => {},
        }
    }
    assert(r@ =~= s.reverse());
    r
}

/// The merge of two ordered sequences into one, in which two members that
/// `order` calls equal are replaced by what `combine` makes of them.
pub fn merge_combine<T, C, F>(left: Vec<T>, right: Vec<T>, order: C, combine: F) -> (out: Vec<T>)
    where
        C: Fn(&T, &T) -> Ordering,
        F: Fn(T, T) -> T,
    requires
        may_merge(order, combine, left@, right@),
    ensures
        merged(order, combine, left@, right@, out@),
{
    let ghost a0 = left@;
    let ghost b0 = right@;
    let mut rest = reversed(right);
    let mut v: Vec<T> = Vec::new();
    let ghost whole = rest@;
    let mut head: Option<T> = rest.pop();
    let ghost mut taken: int = 0;
    let ghost mut at: int = 0;
    proof {
        assert(b0.skip(0) =~= b0);
        assert(a0.skip(0) =~= a0);
        lemma_pop_reversed(b0, 0, whole, rest@, head);
        assert forall|tail: Seq<T>| #[trigger]
            merged(order, combine, a0.skip(0), b0.skip(0), tail) implies merged(
            order,
            combine,
            a0,
            b0,
            v@ + tail,
        ) by {
            assert(v@ + tail =~= tail);
        }
    }
    for a in it: left
        invariant
            may_merge(order, combine, a0, b0),
            it.seq() == a0,
            at == it.index(),
            0 <= taken <= b0.len(),
            rest@ == b0.skip(taken + 1).reverse() || (head is None && rest@.len() == 0),
            match head {
                Some(x) => taken < b0.len() && x == b0[taken],
                None => taken == b0.len(),
            },
            forall|tail: Seq<T>| #[trigger]
                merged(order, combine, a0.skip(at), b0.skip(taken), tail) ==> merged(
                    order,
                    combine,
                    a0,
                    b0,
                    v@ + tail,
                ),
    {
        let ghost k: int = at;
        let mut cur: Option<T> = Some(a);
        let ghost mut pos: int = k;
        while cur.is_some()
            invariant
                may_merge(order, combine, a0, b0),
                pos == if cur is Some { k } else { k + 1 },
                0 <= k < a0.len(),
                cur matches Some(x) ==> x == a0[k],
                0 <= taken <= b0.len(),
                rest@ == b0.skip(taken + 1).reverse() || (head is None && rest@.len() == 0),
                match head {
                    Some(x) => taken < b0.len() && x == b0[taken],
                    None => taken == b0.len(),
                },
                forall|tail: Seq<T>| #[trigger]
                    merged(
                        order,
                        combine,
                        a0.skip(pos),
                        b0.skip(taken),
                        tail,
                    ) ==> merged(order, combine, a0, b0, v@ + tail),
            decreases b0.len() - taken + if cur is Some { 1int } else { 0int },
        {
            let a = cur.unwrap();
            let ghost before = v@;
            let ghost ra = a0.skip(k);
            let ghost rb = b0.skip(taken);
            match head {
                None => {
                    v.push(a);
                    head = None;
                    cur = None;
                    proof {
                        pos = k + 1;
                        assert forall|tail: Seq<T>| #[trigger]
                            merged(order, combine, a0.skip(k + 1), rb, tail) implies merged(
                            order,
                            combine,
                            a0,
                            b0,
                            v@ + tail,
                        ) by {
                            let full = seq![a] + tail;
                            assert(tail =~= a0.skip(k + 1));
                            assert(full =~= ra);
                            assert(merged(order, combine, ra, rb, full));
                            assert(v@ + tail =~= before + full);
                        }
                    }
                },
                Some(b) => {
                    assert(may_order(order, a0, b0, k, taken));
                    assert(may_combine(combine, a0, b0, k, taken));
                    let o = order(&a, &b);
                    assert(ordered(order, ra[0], rb[0], o));
                    match o {
                        Ordering::Greater => {
                            v.push(b);
                            let ghost old_rest = rest@;
                            head = rest.pop();
                            cur = Some(a);
                            proof {
                                lemma_pop_reversed(b0, taken + 1, old_rest, rest@, head);
                                assert forall|tail: Seq<T>| #[trigger]
                                    merged(
                                        order,
                                        combine,
                                        ra,
                                        b0.skip(taken + 1),
                                        tail,
                                    ) implies merged(order, combine, a0, b0, v@ + tail) by {
                                    let full = seq![b] + tail;
                                    assert(full.skip(1) =~= tail);
                                    assert(rb.skip(1) =~= b0.skip(taken + 1));
                                    assert(merged(order, combine, ra, rb, full));
                                    assert(v@ + tail =~= before + full);
                                }
                                taken = taken + 1;
                            }
                        },
                        Ordering::Equal => {
                            let c = combine(a, b);
                            v.push(c);
                            let ghost old_rest = rest@;
                            head = rest.pop();
                            cur = None;
                            proof {
                                pos = k + 1;
                                lemma_pop_reversed(b0, taken + 1, old_rest, rest@, head);
                                assert forall|tail: Seq<T>| #[trigger]
                                    merged(
                                        order,
                                        combine,
                                        a0.skip(k + 1),
                                        b0.skip(taken + 1),
                                        tail,
                                    ) implies merged(order, combine, a0, b0, v@ + tail) by {
                                    let full = seq![c] + tail;
                                    assert(full.skip(1) =~= tail);
                                    assert(rb.skip(1) =~= b0.skip(taken + 1));
                                    assert(ra.skip(1) =~= a0.skip(k + 1));
                                    assert(merged(order, combine, ra, rb, full));
                                    assert(v@ + tail =~= before + full);
                                }
                                taken = taken + 1;
                            }
                        },
                        Ordering::Less => {
                            v.push(a);
                            head = Some(b);
                            cur = None;
                            proof {
                                pos = k + 1;
                                assert forall|tail: Seq<T>| #[trigger]
                                    merged(order, combine, a0.skip(k + 1), rb, tail) implies merged(
                                    order,
                                    combine,
                                    a0,
                                    b0,
                                    v@ + tail,
                                ) by {
                                    let full = seq![a] + tail;
                                    assert(full.skip(1) =~= tail);
                                    assert(ra.skip(1) =~= a0.skip(k + 1));
                                    assert(merged(order, combine, ra, rb, full));
                                    assert(v@ + tail =~= before + full);
                                }
                            }
                        },
                    }
                },
            }
        }
        proof {
            at = k + 1;
        }
    }
    let ghost done = v@;
    let ghost rb = b0.skip(taken);
    proof {
        assert(a0.skip(at).len() == 0);
        assert(merged(order, combine, a0.skip(at), rb, rb));
        assert(merged(order, combine, a0, b0, done + rb));
    }
    match head {
        None => {
            assert(done + rb =~= done);
        },
        Some(b) => {
            v.push(b);
            let ghost from = taken + 1;
            while rest.len() > 0
                invariant
                    0 <= from <= b0.len(),
                    rest@ == b0.skip(from).reverse(),
                    v@ + b0.skip(from) == done + rb,
                decreases rest@.len(),
            {
                let ghost old_rest = rest@;
                let ghost before = v@;
                let x = rest.pop();
                proof {
                    lemma_pop_reversed(b0, from, old_rest, rest@, x);
                }
                match x {
                    Some(x) => {
                        v.push(x);
                        proof {
                            assert(v@ + b0.skip(from + 1) =~= before + b0.skip(from));
                            from = from + 1;
                        }
                    },
                    None => {},
                }
            }
            assert(v@ =~= v@ + b0.skip(from));
        },
    }
    v
}

proof fn lemma_pop_reversed<T>(b: Seq<T>, from: int, before: Seq<T>, after: Seq<T>, x: Option<T>)
    requires
        0 <= from <= b.len(),
        before == b.skip(from).reverse(),
        match x {
            Some(y) => before.len() > 0 && y == before.last() && after == before.drop_last(),
            None => before.len() == 0 && after == before,
        },
    ensures
        match x {
            Some(y) => from < b.len() && y == b[from] && after == b.skip(from + 1).reverse(),
            None => from == b.len() && after.len() == 0,
        },
{
    if before.len() > 0 {
        assert(before.drop_last() =~= b.skip(from + 1).reverse());
    }
}

} // verus!
