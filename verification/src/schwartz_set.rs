//! The Schwartz set of a tournament: the candidates that nobody outside
//! their own circle of mutual defeats beats, even through a chain of defeats.

use vstd::prelude::*;

verus! {

/// Every defeater that the lists name is a vertex of the graph.
pub open spec fn graph_ok(defeaters: Seq<Seq<usize>>) -> bool {
    forall|v: int, t: int|
        0 <= v < defeaters.len() && 0 <= t < defeaters[v].len() ==> (#[trigger] defeaters[v][t])
            < defeaters.len()
}

/// `u` defeats `v`, and both are candidates.
pub open spec fn arrow(defeaters: Seq<Seq<usize>>, candidates: Set<usize>, v: usize, u: usize) -> bool {
    &&& candidates.contains(v)
    &&& candidates.contains(u)
    &&& v < defeaters.len()
    &&& defeaters[v as int].contains(u)
}

/// Each member of `walk` but the first defeats the member before it.
pub open spec fn is_walk(defeaters: Seq<Seq<usize>>, candidates: Set<usize>, walk: Seq<usize>) -> bool {
    &&& walk.len() >= 1
    &&& candidates.contains(walk[0])
    &&& forall|i: int|
        0 <= i < walk.len() - 1 ==> #[trigger] arrow(defeaters, candidates, walk[i], walk[i + 1])
}

/// `u` is `v` or beats `v` through a chain of defeats among the candidates.
pub open spec fn reach(defeaters: Seq<Seq<usize>>, candidates: Set<usize>, v: usize, u: usize) -> bool {
    exists|walk: Seq<usize>|
        #[trigger] is_walk(defeaters, candidates, walk) && walk[0] == v && walk.last() == u
}

/// `v` is in the Schwartz set of the candidates: whoever beats `v` through a
/// chain of defeats is beaten by `v` through a chain of defeats.
pub open spec fn in_schwartz(defeaters: Seq<Seq<usize>>, candidates: Set<usize>, v: usize) -> bool {
    &&& candidates.contains(v)
    &&& forall|u: usize| #[trigger]
        reach(defeaters, candidates, v, u) ==> reach(defeaters, candidates, u, v)
}

/// Two graphs with the same defeats among the candidates have the same
/// Schwartz set.
pub proof fn lemma_same_arrows(d1: Seq<Seq<usize>>, d2: Seq<Seq<usize>>, candidates: Set<usize>)
    requires
        forall|v: usize, u: usize| #[trigger]
            arrow(d1, candidates, v, u) == arrow(d2, candidates, v, u),
    ensures
        forall|v: usize| #[trigger] in_schwartz(d1, candidates, v) == in_schwartz(d2, candidates, v),
{
    assert forall|walk: Seq<usize>| #[trigger]
        is_walk(d1, candidates, walk) == is_walk(d2, candidates, walk) by {
        if is_walk(d1, candidates, walk) {
            assert forall|i: int| 0 <= i < walk.len() - 1 implies #[trigger] arrow(
                d2,
                candidates,
                walk[i],
                walk[i + 1],
            ) by {
                assert(arrow(d1, candidates, walk[i], walk[i + 1]));
            }
        }
        if is_walk(d2, candidates, walk) {
            assert forall|i: int| 0 <= i < walk.len() - 1 implies #[trigger] arrow(
                d1,
                candidates,
                walk[i],
                walk[i + 1],
            ) by {
                assert(arrow(d2, candidates, walk[i], walk[i + 1]));
            }
        }
    }
    assert forall|v: usize, u: usize| #[trigger]
        reach(d1, candidates, v, u) == reach(d2, candidates, v, u) by {
        if reach(d1, candidates, v, u) {
            let walk = choose|walk: Seq<usize>|
                #[trigger] is_walk(d1, candidates, walk) && walk[0] == v && walk.last() == u;
            assert(is_walk(d2, candidates, walk));
        }
        if reach(d2, candidates, v, u) {
            let walk = choose|walk: Seq<usize>|
                #[trigger] is_walk(d2, candidates, walk) && walk[0] == v && walk.last() == u;
            assert(is_walk(d1, candidates, walk));
        }
    }
    assert forall|v: usize| #[trigger]
        in_schwartz(d1, candidates, v) == in_schwartz(d2, candidates, v) by {
        if in_schwartz(d1, candidates, v) {
            assert forall|u: usize| #[trigger] reach(d2, candidates, v, u) implies reach(
                d2,
                candidates,
                u,
                v,
            ) by {
                assert(reach(d1, candidates, v, u));
                assert(reach(d1, candidates, u, v));
            }
        }
        if in_schwartz(d2, candidates, v) {
            assert forall|u: usize| #[trigger] reach(d1, candidates, v, u) implies reach(
                d1,
                candidates,
                u,
                v,
            ) by {
                assert(reach(d2, candidates, v, u));
                assert(reach(d2, candidates, u, v));
            }
        }
    }
}

pub proof fn lemma_reach_self(defeaters: Seq<Seq<usize>>, candidates: Set<usize>, v: usize)
    requires
        candidates.contains(v),
    ensures
        reach(defeaters, candidates, v, v),
{
    let walk = seq![v];
    assert(is_walk(defeaters, candidates, walk));
    assert(walk[0] == v && walk.last() == v);
}

pub proof fn lemma_reach_step(defeaters: Seq<Seq<usize>>, candidates: Set<usize>, v: usize, u: usize)
    requires
        arrow(defeaters, candidates, v, u),
    ensures
        reach(defeaters, candidates, v, u),
{
    let walk = seq![v, u];
    assert(is_walk(defeaters, candidates, walk)) by {
        assert forall|i: int| 0 <= i < walk.len() - 1 implies #[trigger] arrow(
            defeaters,
            candidates,
            walk[i],
            walk[i + 1],
        ) by {}
    }
    assert(walk[0] == v && walk.last() == u);
}

pub proof fn lemma_reach_trans(
    defeaters: Seq<Seq<usize>>,
    candidates: Set<usize>,
    v: usize,
    w: usize,
    u: usize,
)
    requires
        reach(defeaters, candidates, v, w),
        reach(defeaters, candidates, w, u),
    ensures
        reach(defeaters, candidates, v, u),
{
    let a = choose|walk: Seq<usize>|
        #[trigger] is_walk(defeaters, candidates, walk) && walk[0] == v && walk.last() == w;
    let b = choose|walk: Seq<usize>|
        #[trigger] is_walk(defeaters, candidates, walk) && walk[0] == w && walk.last() == u;
    let walk = a + b.skip(1);
    assert(is_walk(defeaters, candidates, walk)) by {
        assert forall|i: int| 0 <= i < walk.len() - 1 implies #[trigger] arrow(
            defeaters,
            candidates,
            walk[i],
            walk[i + 1],
        ) by {
            if i < a.len() - 1 {
                assert(arrow(defeaters, candidates, a[i], a[i + 1]));
            } else {
                let k = i - (a.len() - 1);
                assert(arrow(defeaters, candidates, b[k], b[k + 1]));
            }
        }
    }
    assert(walk[0] == v && walk.last() == u);
}

/// A walk that starts in a set that no arrow leaves ends in it.
proof fn lemma_closed(
    defeaters: Seq<Seq<usize>>,
    candidates: Set<usize>,
    set: Set<usize>,
    walk: Seq<usize>,
    i: int,
)
    requires
        is_walk(defeaters, candidates, walk),
        set.contains(walk[0]),
        forall|x: usize, y: usize|
            set.contains(x) && #[trigger] arrow(defeaters, candidates, x, y) ==> set.contains(y),
        0 <= i < walk.len(),
    ensures
        set.contains(walk[i]),
    decreases i,
{
    if i > 0 {
        lemma_closed(defeaters, candidates, set, walk, i - 1);
        let j = i - 1;
        assert(arrow(defeaters, candidates, walk[j], walk[j + 1]));
    }
}

proof fn lemma_closed_reach(
    defeaters: Seq<Seq<usize>>,
    candidates: Set<usize>,
    set: Set<usize>,
    v: usize,
    u: usize,
)
    requires
        set.contains(v),
        forall|x: usize, y: usize|
            set.contains(x) && #[trigger] arrow(defeaters, candidates, x, y) ==> set.contains(y),
        reach(defeaters, candidates, v, u),
    ensures
        set.contains(u),
{
    let walk = choose|walk: Seq<usize>|
        #[trigger] is_walk(defeaters, candidates, walk) && walk[0] == v && walk.last() == u;
    lemma_closed(defeaters, candidates, set, walk, walk.len() - 1);
}

/// Whoever is beaten, through a chain, by someone outside the Schwartz set is
/// outside it too.
proof fn lemma_not_schwartz(defeaters: Seq<Seq<usize>>, candidates: Set<usize>, x: usize, u: usize)
    requires
        reach(defeaters, candidates, x, u),
        candidates.contains(u),
        !in_schwartz(defeaters, candidates, u),
    ensures
        !in_schwartz(defeaters, candidates, x),
{
    let w = choose|w: usize|
        reach(defeaters, candidates, u, w) && !reach(defeaters, candidates, w, u);
    lemma_reach_trans(defeaters, candidates, x, u, w);
    if reach(defeaters, candidates, w, x) {
        lemma_reach_trans(defeaters, candidates, w, x, u);
    }
}

/// What the search knows of a vertex.
#[derive(Clone, Copy)]
pub enum Node {
    Unvisited,
    /// On the stack, at this position.
    OnStack(usize),
    Done,
}

/// A vertex whose defeaters are being looked at: the next one to look at, and
/// the lowest stack position that the vertex is known to lead to.
pub struct Frame {
    pub node: usize,
    pub next: usize,
    pub lowlink: usize,
}

/// The state of the search, as the proofs see it.  The first `dead` frames are
/// those of vertices that are done.
pub struct Search {
    pub nodes: Seq<Node>,
    pub stack: Seq<usize>,
    pub work: Seq<Frame>,
    pub out: Seq<usize>,
    pub dead: int,
}

/// The stack position of the vertex of frame `f`.
pub open spec fn pos(s: Search, f: int) -> int {
    s.nodes[s.work[f].node as int]->OnStack_0 as int
}

/// The end of the stretch of the stack that belongs to frame `f`.
pub open spec fn end(s: Search, f: int) -> int {
    if f == s.work.len() - 1 {
        s.stack.len() as int
    } else {
        pos(s, f + 1)
    }
}

pub open spec fn stack_ok(inside: Seq<bool>, s: Search, i: int) -> bool {
    &&& s.stack[i] < s.nodes.len()
    &&& s.nodes[s.stack[i] as int] == Node::OnStack(i as usize)
    &&& inside[s.stack[i] as int]
}

pub open spec fn node_ok(
    defeaters: Seq<Seq<usize>>,
    candidates: Set<usize>,
    inside: Seq<bool>,
    s: Search,
    v: int,
) -> bool {
    match s.nodes[v] {
        Node::Unvisited => true,
        Node::OnStack(i) => i < s.stack.len() && s.stack[i as int] == v,
        Node::Done => inside[v] && s.out.len() > 0 && (s.out.contains(v as usize) || !in_schwartz(
            defeaters,
            candidates,
            v as usize,
        )),
    }
}

pub open spec fn out_ok(
    defeaters: Seq<Seq<usize>>,
    candidates: Set<usize>,
    s: Search,
    i: int,
) -> bool {
    &&& s.out[i] < s.nodes.len()
    &&& s.nodes[s.out[i] as int] is Done
    &&& in_schwartz(defeaters, candidates, s.out[i])
}

pub open spec fn basic(
    defeaters: Seq<Seq<usize>>,
    candidates: Set<usize>,
    inside: Seq<bool>,
    s: Search,
) -> bool {
    &&& graph_ok(defeaters)
    &&& s.stack.len() <= usize::MAX
    &&& s.nodes.len() == defeaters.len()
    &&& inside.len() == defeaters.len()
    &&& forall|x: usize| #[trigger] candidates.contains(x) ==> x < defeaters.len() && inside[x as int]
    &&& forall|v: int| 0 <= v < inside.len() && #[trigger] inside[v] ==> candidates.contains(v as usize)
    &&& forall|i: int| 0 <= i < s.stack.len() ==> #[trigger] stack_ok(inside, s, i)
    &&& forall|v: int|
        0 <= v < s.nodes.len() ==> #[trigger] node_ok(defeaters, candidates, inside, s, v)
    &&& forall|i: int| 0 <= i < s.out.len() ==> #[trigger] out_ok(defeaters, candidates, s, i)
    &&& s.out.no_duplicates()
    &&& forall|x: usize, y: usize|
        s.out.contains(x) && #[trigger] arrow(defeaters, candidates, x, y) ==> s.out.contains(y)
    &&& forall|i: int, j: int|
        0 <= i <= j < s.stack.len() ==> #[trigger] reach(
            defeaters,
            candidates,
            s.stack[i],
            s.stack[j],
        )
}

pub open spec fn frame_ok(
    defeaters: Seq<Seq<usize>>,
    candidates: Set<usize>,
    inside: Seq<bool>,
    s: Search,
    f: int,
) -> bool {
    let fr = s.work[f];
    &&& fr.node < s.nodes.len()
    &&& fr.next <= defeaters[fr.node as int].len()
    &&& inside[fr.node as int]
    &&& f < s.dead ==> s.nodes[fr.node as int] is Done
    &&& f >= s.dead ==> {
        &&& s.nodes[fr.node as int] is OnStack
        &&& fr.lowlink <= pos(s, f)
        &&& reach(defeaters, candidates, fr.node, s.stack[fr.lowlink as int])
    }
    &&& f + 1 < s.work.len() ==> {
        &&& fr.next >= 1
        &&& defeaters[fr.node as int][fr.next - 1] == s.work[f + 1].node
        &&& f >= s.dead ==> pos(s, f) < pos(s, f + 1)
    }
}

/// The vertex at stack position `p`, which belongs to frame `f`, leads to the
/// vertex of that frame.
pub open spec fn owned(
    defeaters: Seq<Seq<usize>>,
    candidates: Set<usize>,
    s: Search,
    f: int,
    p: int,
) -> bool {
    reach(defeaters, candidates, s.stack[p], s.work[f].node)
}

/// How many defeaters of the vertex at stack position `p` have been looked at.
pub open spec fn limit(defeaters: Seq<Seq<usize>>, s: Search, f: int, p: int) -> int {
    if p == pos(s, f) {
        s.work[f].next as int
    } else {
        defeaters[s.stack[p] as int].len() as int
    }
}

/// Defeater `t` of the vertex at stack position `p`, which belongs to frame
/// `f`, is on the stack if it is a candidate, not below the lowlink of `f`.
pub open spec fn settled(
    defeaters: Seq<Seq<usize>>,
    inside: Seq<bool>,
    s: Search,
    f: int,
    p: int,
    t: int,
) -> bool {
    let u = defeaters[s.stack[p] as int][t];
    inside[u as int] ==> s.nodes[u as int] is OnStack && s.nodes[u as int]->OnStack_0
        >= s.work[f].lowlink
}

pub open spec fn frames(
    defeaters: Seq<Seq<usize>>,
    candidates: Set<usize>,
    inside: Seq<bool>,
    s: Search,
) -> bool {
    &&& 0 <= s.dead <= s.work.len()
    &&& forall|f: int|
        0 <= f < s.work.len() ==> #[trigger] frame_ok(defeaters, candidates, inside, s, f)
    &&& s.dead == s.work.len() ==> s.stack.len() == 0
    &&& s.dead < s.work.len() ==> pos(s, s.dead) == 0
    &&& forall|f: int, p: int|
        s.dead <= f < s.work.len() && pos(s, f) <= p < end(s, f) ==> #[trigger] owned(
            defeaters,
            candidates,
            s,
            f,
            p,
        )
    &&& forall|f: int, p: int, t: int|
        s.dead <= f < s.work.len() && pos(s, f) <= p < end(s, f) && 0 <= t < limit(
            defeaters,
            s,
            f,
            p,
        ) ==> #[trigger] settled(defeaters, inside, s, f, p, t)
}

/// What holds throughout the search.
pub open spec fn searching(
    defeaters: Seq<Seq<usize>>,
    candidates: Set<usize>,
    inside: Seq<bool>,
    s: Search,
) -> bool {
    basic(defeaters, candidates, inside, s) && frames(defeaters, candidates, inside, s)
}

/// Where the vertex of a frame that is not done stands on the stack.
proof fn lemma_live_frame(
    defeaters: Seq<Seq<usize>>,
    candidates: Set<usize>,
    inside: Seq<bool>,
    s: Search,
    f: int,
)
    requires
        searching(defeaters, candidates, inside, s),
        s.dead <= f < s.work.len(),
    ensures
        0 <= pos(s, f) < end(s, f) <= s.stack.len(),
        s.stack[pos(s, f)] == s.work[f].node,
        s.nodes[s.work[f].node as int] == Node::OnStack(pos(s, f) as usize),
        s.work[f].lowlink <= pos(s, f),
        s.work[f].node < s.nodes.len(),
        inside[s.work[f].node as int],
        candidates.contains(s.work[f].node),
{
    assert(frame_ok(defeaters, candidates, inside, s, f));
    assert(node_ok(defeaters, candidates, inside, s, s.work[f].node as int));
    if f + 1 < s.work.len() {
        assert(frame_ok(defeaters, candidates, inside, s, f + 1));
        assert(node_ok(defeaters, candidates, inside, s, s.work[f + 1].node as int));
    }
}

/// Every vertex on the stack leads to the vertex of the last frame.
proof fn lemma_stack_leads_to_top(
    defeaters: Seq<Seq<usize>>,
    candidates: Set<usize>,
    inside: Seq<bool>,
    s: Search,
    p: int,
)
    requires
        searching(defeaters, candidates, inside, s),
        0 <= p < s.stack.len(),
    ensures
        s.work.len() > 0,
        s.dead < s.work.len(),
        reach(defeaters, candidates, s.stack[p], s.work.last().node),
{
    let top = s.work.len() - 1;
    assert(frame_ok(defeaters, candidates, inside, s, top));
    let v = s.work[top].node;
    assert(node_ok(defeaters, candidates, inside, s, v as int));
    if p <= pos(s, top) {
        assert(reach(defeaters, candidates, s.stack[p], s.stack[pos(s, top)]));
    } else {
        assert(owned(defeaters, candidates, s, top, p));
    }
}

proof fn lemma_arrow(
    defeaters: Seq<Seq<usize>>,
    candidates: Set<usize>,
    inside: Seq<bool>,
    s: Search,
    v: usize,
    t: int,
)
    requires
        basic(defeaters, candidates, inside, s),
        v < defeaters.len(),
        inside[v as int],
        0 <= t < defeaters[v as int].len(),
        inside[defeaters[v as int][t] as int],
    ensures
        arrow(defeaters, candidates, v, defeaters[v as int][t]),
        reach(defeaters, candidates, v, defeaters[v as int][t]),
{
    let u = defeaters[v as int][t];
    assert(u < defeaters.len());
    assert(candidates.contains(v));
    assert(candidates.contains(u));
    assert(defeaters[v as int].contains(u));
    lemma_reach_step(defeaters, candidates, v, u);
}

/// The state after a look at a defeater that is no candidate.
proof fn lemma_skip(
    defeaters: Seq<Seq<usize>>,
    candidates: Set<usize>,
    inside: Seq<bool>,
    s: Search,
    s1: Search,
)
    requires
        searching(defeaters, candidates, inside, s),
        s.work.len() > 0,
        s.work.last().next < defeaters[s.work.last().node as int].len(),
        s.work.last().next < usize::MAX,
        !inside[defeaters[s.work.last().node as int][s.work.last().next as int] as int],
        s1 == (Search {
            work: s.work.update(
                s.work.len() - 1,
                Frame {
                    node: s.work.last().node,
                    next: (s.work.last().next + 1) as usize,
                    lowlink: s.work.last().lowlink,
                },
            ),
            ..s
        }),
    ensures
        searching(defeaters, candidates, inside, s1),
{
    let top = s.work.len() - 1;
    lemma_same_basic(defeaters, candidates, inside, s, s1);
    assert forall|f: int| 0 <= f < s1.work.len() implies #[trigger] frame_ok(
        defeaters,
        candidates,
        inside,
        s1,
        f,
    ) by {
        assert(frame_ok(defeaters, candidates, inside, s, f));
    }
    assert forall|f: int, p: int|
        s1.dead <= f < s1.work.len() && pos(s1, f) <= p < end(s1, f) implies #[trigger] owned(
        defeaters,
        candidates,
        s1,
        f,
        p,
    ) by {
        assert(owned(defeaters, candidates, s, f, p));
    }
    assert forall|f: int, p: int, t: int|
        s1.dead <= f < s1.work.len() && pos(s1, f) <= p < end(s1, f) && 0 <= t < limit(
            defeaters,
            s1,
            f,
            p,
        ) implies #[trigger] settled(defeaters, inside, s1, f, p, t) by {
        if t < limit(defeaters, s, f, p) {
            assert(settled(defeaters, inside, s, f, p, t));
        } else {
            assert(frame_ok(defeaters, candidates, inside, s, top));
            assert(node_ok(defeaters, candidates, inside, s, s.work[top].node as int));
        }
    }
}

/// Nothing of the first invariant depends on the frames.
proof fn lemma_same_basic(
    defeaters: Seq<Seq<usize>>,
    candidates: Set<usize>,
    inside: Seq<bool>,
    s: Search,
    s1: Search,
)
    requires
        basic(defeaters, candidates, inside, s),
        s1.nodes == s.nodes,
        s1.stack == s.stack,
        s1.out == s.out,
    ensures
        basic(defeaters, candidates, inside, s1),
{
    assert forall|i: int| 0 <= i < s1.stack.len() implies #[trigger] stack_ok(inside, s1, i) by {
        assert(stack_ok(inside, s, i));
    }
    assert forall|v: int| 0 <= v < s1.nodes.len() implies #[trigger] node_ok(
        defeaters,
        candidates,
        inside,
        s1,
        v,
    ) by {
        assert(node_ok(defeaters, candidates, inside, s, v));
    }
    assert forall|i: int| 0 <= i < s1.out.len() implies #[trigger] out_ok(
        defeaters,
        candidates,
        s1,
        i,
    ) by {
        assert(out_ok(defeaters, candidates, s, i));
    }
}

/// The state after a look at a defeater that is on the stack.
proof fn lemma_low(
    defeaters: Seq<Seq<usize>>,
    candidates: Set<usize>,
    inside: Seq<bool>,
    s: Search,
    s1: Search,
    idx: usize,
)
    requires
        searching(defeaters, candidates, inside, s),
        s.work.len() > 0,
        s.work.last().next < defeaters[s.work.last().node as int].len(),
        s.work.last().next < usize::MAX,
        inside[defeaters[s.work.last().node as int][s.work.last().next as int] as int],
        s.nodes[defeaters[s.work.last().node as int][s.work.last().next as int] as int]
            == Node::OnStack(idx),
        s1 == (Search {
            work: s.work.update(
                s.work.len() - 1,
                Frame {
                    node: s.work.last().node,
                    next: (s.work.last().next + 1) as usize,
                    lowlink: if idx < s.work.last().lowlink {
                        idx
                    } else {
                        s.work.last().lowlink
                    },
                },
            ),
            ..s
        }),
    ensures
        searching(defeaters, candidates, inside, s1),
{
    let top = s.work.len() - 1;
    let v = s.work[top].node;
    let u = defeaters[v as int][s.work[top].next as int];
    lemma_same_basic(defeaters, candidates, inside, s, s1);
    assert(frame_ok(defeaters, candidates, inside, s, top));
    assert(node_ok(defeaters, candidates, inside, s, u as int));
    assert(node_ok(defeaters, candidates, inside, s, v as int));
    lemma_arrow(defeaters, candidates, inside, s, v, s.work[top].next as int);
    assert(top >= s.dead);
    assert forall|f: int| 0 <= f < s1.work.len() implies #[trigger] frame_ok(
        defeaters,
        candidates,
        inside,
        s1,
        f,
    ) by {
        assert(frame_ok(defeaters, candidates, inside, s, f));
    }
    assert forall|f: int, p: int|
        s1.dead <= f < s1.work.len() && pos(s1, f) <= p < end(s1, f) implies #[trigger] owned(
        defeaters,
        candidates,
        s1,
        f,
        p,
    ) by {
        assert(owned(defeaters, candidates, s, f, p));
    }
    assert forall|f: int, p: int, t: int|
        s1.dead <= f < s1.work.len() && pos(s1, f) <= p < end(s1, f) && 0 <= t < limit(
            defeaters,
            s1,
            f,
            p,
        ) implies #[trigger] settled(defeaters, inside, s1, f, p, t) by {
        if t < limit(defeaters, s, f, p) {
            assert(settled(defeaters, inside, s, f, p, t));
        }
    }
}

/// The state after a look at a candidate that is new to the search.
proof fn lemma_push(
    defeaters: Seq<Seq<usize>>,
    candidates: Set<usize>,
    inside: Seq<bool>,
    s: Search,
    s1: Search,
)
    requires
        searching(defeaters, candidates, inside, s),
        s.work.len() > 0,
        s.work.last().next < defeaters[s.work.last().node as int].len(),
        s.work.last().next < usize::MAX,
        inside[defeaters[s.work.last().node as int][s.work.last().next as int] as int],
        s.nodes[defeaters[s.work.last().node as int][s.work.last().next as int] as int]
            is Unvisited,
        s.stack.len() < usize::MAX,
        ({
            let u = defeaters[s.work.last().node as int][s.work.last().next as int];
            s1 == Search {
                nodes: s.nodes.update(u as int, Node::OnStack(s.stack.len() as usize)),
                stack: s.stack.push(u),
                work: s.work.update(
                    s.work.len() - 1,
                    Frame {
                        node: s.work.last().node,
                        next: (s.work.last().next + 1) as usize,
                        lowlink: s.work.last().lowlink,
                    },
                ).push(Frame { node: u, next: 0, lowlink: s.stack.len() as usize }),
                out: s.out,
                dead: s.dead,
            }
        }),
    ensures
        searching(defeaters, candidates, inside, s1),
{
    let top = s.work.len() - 1;
    let v = s.work[top].node;
    let u = defeaters[v as int][s.work[top].next as int];
    let l = s.stack.len() as int;
    assert(frame_ok(defeaters, candidates, inside, s, top));
    assert(node_ok(defeaters, candidates, inside, s, v as int));
    lemma_arrow(defeaters, candidates, inside, s, v, s.work[top].next as int);
    lemma_reach_self(defeaters, candidates, u);
    assert forall|i: int| 0 <= i < s1.stack.len() implies #[trigger] stack_ok(inside, s1, i) by {
        if i < l {
            assert(stack_ok(inside, s, i));
        }
    }
    assert forall|x: int| 0 <= x < s1.nodes.len() implies #[trigger] node_ok(
        defeaters,
        candidates,
        inside,
        s1,
        x,
    ) by {
        assert(node_ok(defeaters, candidates, inside, s, x));
    }
    assert forall|i: int| 0 <= i < s1.out.len() implies #[trigger] out_ok(
        defeaters,
        candidates,
        s1,
        i,
    ) by {
        assert(out_ok(defeaters, candidates, s, i));
    }
    assert forall|i: int, j: int| 0 <= i <= j < s1.stack.len() implies #[trigger] reach(
        defeaters,
        candidates,
        s1.stack[i],
        s1.stack[j],
    ) by {
        if j < l {
            assert(reach(defeaters, candidates, s.stack[i], s.stack[j]));
        } else if i < l {
            lemma_stack_leads_to_top(defeaters, candidates, inside, s, i);
            lemma_reach_trans(defeaters, candidates, s.stack[i], v, u);
        }
    }
    assert(basic(defeaters, candidates, inside, s1));
    assert forall|f: int| 0 <= f < s.work.len() implies pos(s1, f) == pos(s, f) by {
        assert(frame_ok(defeaters, candidates, inside, s, f));
    }
    assert forall|f: int| 0 <= f < s1.work.len() implies #[trigger] frame_ok(
        defeaters,
        candidates,
        inside,
        s1,
        f,
    ) by {
        if f <= top {
            assert(frame_ok(defeaters, candidates, inside, s, f));
            assert(s1.work[f].node == s.work[f].node);
            assert(s1.work[f].lowlink == s.work[f].lowlink);
            if f >= s.dead {
                lemma_live_frame(defeaters, candidates, inside, s, f);
                assert(s1.stack[s.work[f].lowlink as int] == s.stack[s.work[f].lowlink as int]);
            }
            if f + 1 <= top {
                assert(frame_ok(defeaters, candidates, inside, s, f + 1));
                assert(s1.work[f + 1].node == s.work[f + 1].node);
            }
            assert(frame_ok(defeaters, candidates, inside, s1, f));
        } else {
            assert(s1.work[f] == Frame { node: u, next: 0, lowlink: l as usize });
            assert(u < defeaters.len());
            assert(pos(s1, f) == l);
            assert(s1.stack[l] == u);
            assert(frame_ok(defeaters, candidates, inside, s1, f));
        }
    }
    if s.dead < s.work.len() {
        lemma_live_frame(defeaters, candidates, inside, s, s.dead);
    }
    assert forall|f: int, p: int|
        s1.dead <= f < s1.work.len() && pos(s1, f) <= p < end(s1, f) implies #[trigger] owned(
        defeaters,
        candidates,
        s1,
        f,
        p,
    ) by {
        if f <= top {
            lemma_live_frame(defeaters, candidates, inside, s, f);
            assert(owned(defeaters, candidates, s, f, p));
        }
    }
    assert forall|f: int, p: int, t: int|
        s1.dead <= f < s1.work.len() && pos(s1, f) <= p < end(s1, f) && 0 <= t < limit(
            defeaters,
            s1,
            f,
            p,
        ) implies #[trigger] settled(defeaters, inside, s1, f, p, t) by {
        if f <= top {
            lemma_live_frame(defeaters, candidates, inside, s, f);
            assert(pos(s1, f) == pos(s, f));
            assert(end(s1, f) == end(s, f)) by {
                if f < top {
                    assert(pos(s1, f + 1) == pos(s, f + 1));
                }
            }
            assert(stack_ok(inside, s, p));
            assert(s1.stack[p] == s.stack[p]);
            let w = defeaters[s.stack[p] as int][t];
            assert(frame_ok(defeaters, candidates, inside, s1, f));
            assert(t < defeaters[s.stack[p] as int].len());
            assert(w < defeaters.len());
            if t < limit(defeaters, s, f, p) {
                assert(settled(defeaters, inside, s, f, p, t));
            } else {
                assert(w == u);
            }
        } else {
            assert(pos(s1, f) == l);
        }
    }
}

/// The nodes when every vertex on the stack is done.
pub open spec fn all_done(nodes: Seq<Node>) -> Seq<Node> {
    Seq::new(
        nodes.len(),
        |v: int|
            if nodes[v] is OnStack {
                Node::Done
            } else {
                nodes[v]
            },
    )
}

/// The state when a search starts at the candidate `c`.
proof fn lemma_root(
    defeaters: Seq<Seq<usize>>,
    candidates: Set<usize>,
    inside: Seq<bool>,
    s: Search,
    s1: Search,
    c: usize,
)
    requires
        searching(defeaters, candidates, inside, s),
        s.work.len() == 0,
        candidates.contains(c),
        s.nodes[c as int] is Unvisited,
        s1 == (Search {
            nodes: s.nodes.update(c as int, Node::OnStack(0)),
            stack: s.stack.push(c),
            work: s.work.push(Frame { node: c, next: 0, lowlink: 0 }),
            out: s.out,
            dead: 0,
        }),
    ensures
        searching(defeaters, candidates, inside, s1),
{
    lemma_reach_self(defeaters, candidates, c);
    assert(s.stack.len() == 0);
    assert forall|v: int| 0 <= v < s1.nodes.len() implies #[trigger] node_ok(
        defeaters,
        candidates,
        inside,
        s1,
        v,
    ) by {
        assert(node_ok(defeaters, candidates, inside, s, v));
    }
    assert forall|i: int| 0 <= i < s1.out.len() implies #[trigger] out_ok(
        defeaters,
        candidates,
        s1,
        i,
    ) by {
        assert(out_ok(defeaters, candidates, s, i));
    }
    assert(basic(defeaters, candidates, inside, s1));
    assert(pos(s1, 0) == 0);
    assert(frame_ok(defeaters, candidates, inside, s1, 0));
    assert forall|f: int, p: int|
        s1.dead <= f < s1.work.len() && pos(s1, f) <= p < end(s1, f) implies #[trigger] owned(
        defeaters,
        candidates,
        s1,
        f,
        p,
    ) by {}
}

/// Whoever leads to a vertex that is done is outside the Schwartz set, unless
/// it has been put out itself.
proof fn lemma_leads_to_done(
    defeaters: Seq<Seq<usize>>,
    candidates: Set<usize>,
    inside: Seq<bool>,
    s: Search,
    x: usize,
    u: usize,
)
    requires
        basic(defeaters, candidates, inside, s),
        reach(defeaters, candidates, x, u),
        u < s.nodes.len(),
        s.nodes[u as int] is Done,
        !s.out.contains(x),
    ensures
        !in_schwartz(defeaters, candidates, x),
{
    assert(node_ok(defeaters, candidates, inside, s, u as int));
    assert(candidates.contains(u));
    if s.out.contains(u) {
        if in_schwartz(defeaters, candidates, x) {
            assert(reach(defeaters, candidates, u, x));
            lemma_closed_reach(defeaters, candidates, s.out.to_set(), u, x);
        }
    } else {
        lemma_not_schwartz(defeaters, candidates, x, u);
    }
}

/// The state after a look at a candidate that is done: whatever is on the
/// stack is done too.
proof fn lemma_discard(
    defeaters: Seq<Seq<usize>>,
    candidates: Set<usize>,
    inside: Seq<bool>,
    s: Search,
    s1: Search,
)
    requires
        searching(defeaters, candidates, inside, s),
        s.work.len() > 0,
        s.work.last().next < defeaters[s.work.last().node as int].len(),
        s.work.last().next < usize::MAX,
        inside[defeaters[s.work.last().node as int][s.work.last().next as int] as int],
        s.nodes[defeaters[s.work.last().node as int][s.work.last().next as int] as int] is Done,
        s1 == (Search {
            nodes: all_done(s.nodes),
            stack: Seq::empty(),
            work: s.work.update(
                s.work.len() - 1,
                Frame {
                    node: s.work.last().node,
                    next: (s.work.last().next + 1) as usize,
                    lowlink: s.work.last().lowlink,
                },
            ),
            out: s.out,
            dead: s.work.len() as int,
        }),
    ensures
        searching(defeaters, candidates, inside, s1),
{
    let top = s.work.len() - 1;
    let v = s.work[top].node;
    let u = defeaters[v as int][s.work[top].next as int];
    assert(frame_ok(defeaters, candidates, inside, s, top));
    assert(u < defeaters.len());
    assert(node_ok(defeaters, candidates, inside, s, u as int));
    assert forall|x: int| 0 <= x < s1.nodes.len() implies #[trigger] node_ok(
        defeaters,
        candidates,
        inside,
        s1,
        x,
    ) by {
        assert(node_ok(defeaters, candidates, inside, s, x));
        if let Node::OnStack(i) = s.nodes[x] {
            assert(stack_ok(inside, s, i as int));
            lemma_stack_leads_to_top(defeaters, candidates, inside, s, i as int);
            lemma_arrow(defeaters, candidates, inside, s, v, s.work[top].next as int);
            lemma_reach_trans(defeaters, candidates, x as usize, v, u);
            if s.out.contains(x as usize) {
                let k = choose|k: int| 0 <= k < s.out.len() && s.out[k] == x as usize;
                assert(out_ok(defeaters, candidates, s, k));
            }
            lemma_leads_to_done(defeaters, candidates, inside, s, x as usize, u);
        }
    }
    assert forall|i: int| 0 <= i < s1.out.len() implies #[trigger] out_ok(
        defeaters,
        candidates,
        s1,
        i,
    ) by {
        assert(out_ok(defeaters, candidates, s, i));
    }
    assert(basic(defeaters, candidates, inside, s1));
    assert forall|f: int| 0 <= f < s1.work.len() implies #[trigger] frame_ok(
        defeaters,
        candidates,
        inside,
        s1,
        f,
    ) by {
        assert(frame_ok(defeaters, candidates, inside, s, f));
        if f + 1 < s.work.len() {
            assert(frame_ok(defeaters, candidates, inside, s, f + 1));
        }
    }
}

/// The state after the frame of a vertex that is done has been dropped.
proof fn lemma_pop_dead(
    defeaters: Seq<Seq<usize>>,
    candidates: Set<usize>,
    inside: Seq<bool>,
    s: Search,
    s1: Search,
)
    requires
        searching(defeaters, candidates, inside, s),
        s.work.len() > 0,
        s.nodes[s.work.last().node as int] is Done,
        s1 == (Search { work: s.work.drop_last(), dead: s.work.len() - 1, ..s }),
    ensures
        searching(defeaters, candidates, inside, s1),
{
    let top = s.work.len() - 1;
    assert(frame_ok(defeaters, candidates, inside, s, top));
    lemma_same_basic(defeaters, candidates, inside, s, s1);
    assert forall|f: int| 0 <= f < s1.work.len() implies #[trigger] frame_ok(
        defeaters,
        candidates,
        inside,
        s1,
        f,
    ) by {
        assert(frame_ok(defeaters, candidates, inside, s, f));
    }
}

/// The state after a vertex has been left that leads further down the stack.
proof fn lemma_return(
    defeaters: Seq<Seq<usize>>,
    candidates: Set<usize>,
    inside: Seq<bool>,
    s: Search,
    s1: Search,
    idx: usize,
)
    requires
        searching(defeaters, candidates, inside, s),
        s.work.len() > 0,
        s.work.last().next == defeaters[s.work.last().node as int].len(),
        s.nodes[s.work.last().node as int] == Node::OnStack(idx),
        s.work.last().lowlink != idx,
    ensures
        s.work.len() >= 2,
        s1 == (Search {
            work: s.work.drop_last().update(
                s.work.len() - 2,
                Frame {
                    node: s.work[s.work.len() - 2].node,
                    next: s.work[s.work.len() - 2].next,
                    lowlink: if s.work.last().lowlink < s.work[s.work.len() - 2].lowlink {
                        s.work.last().lowlink
                    } else {
                        s.work[s.work.len() - 2].lowlink
                    },
                },
            ),
            ..s
        }) ==> searching(defeaters, candidates, inside, s1),
{
    let top = s.work.len() - 1;
    let fr = s.work[top];
    let v = fr.node;
    assert(frame_ok(defeaters, candidates, inside, s, top));
    assert(top >= s.dead);
    lemma_live_frame(defeaters, candidates, inside, s, top);
    lemma_live_frame(defeaters, candidates, inside, s, s.dead);
    assert(top > s.dead);
    let g = top - 1;
    lemma_live_frame(defeaters, candidates, inside, s, g);
    let gr = s.work[g];
    let low = if fr.lowlink < gr.lowlink {
        fr.lowlink
    } else {
        gr.lowlink
    };
    if s1 == (Search {
        work: s.work.drop_last().update(g, Frame { node: gr.node, next: gr.next, lowlink: low }),
        ..s
    }) {
        lemma_same_basic(defeaters, candidates, inside, s, s1);
        assert(frame_ok(defeaters, candidates, inside, s, g));
        // The vertex of the frame below leads to the vertex that is left.
        lemma_arrow(defeaters, candidates, inside, s, gr.node, gr.next - 1);
        lemma_reach_trans(defeaters, candidates, gr.node, v, s.stack[fr.lowlink as int]);
        assert forall|f: int| 0 <= f < s1.work.len() implies pos(s1, f) == pos(s, f) by {}
        assert forall|f: int| 0 <= f < s1.work.len() implies #[trigger] frame_ok(
            defeaters,
            candidates,
            inside,
            s1,
            f,
        ) by {
            assert(frame_ok(defeaters, candidates, inside, s, f));
        }
        // What the vertex that is left leads to leads to the vertex of the frame below.
        assert(reach(defeaters, candidates, s.stack[fr.lowlink as int], gr.node)) by {
            if fr.lowlink >= pos(s, g) {
                assert(owned(defeaters, candidates, s, g, fr.lowlink as int));
            } else {
                assert(reach(
                    defeaters,
                    candidates,
                    s.stack[fr.lowlink as int],
                    s.stack[pos(s, g)],
                ));
            }
        }
        assert forall|f: int, p: int|
            s1.dead <= f < s1.work.len() && pos(s1, f) <= p < end(s1, f) implies #[trigger] owned(
            defeaters,
            candidates,
            s1,
            f,
            p,
        ) by {
            if f < g {
                assert(owned(defeaters, candidates, s, f, p));
            } else if p < pos(s, top) {
                assert(owned(defeaters, candidates, s, g, p));
            } else {
                assert(owned(defeaters, candidates, s, top, p));
                lemma_reach_trans(defeaters, candidates, s.stack[p], v, s.stack[fr.lowlink as int]);
                lemma_reach_trans(
                    defeaters,
                    candidates,
                    s.stack[p],
                    s.stack[fr.lowlink as int],
                    gr.node,
                );
            }
        }
        assert forall|f: int, p: int, t: int|
            s1.dead <= f < s1.work.len() && pos(s1, f) <= p < end(s1, f) && 0 <= t < limit(
                defeaters,
                s1,
                f,
                p,
            ) implies #[trigger] settled(defeaters, inside, s1, f, p, t) by {
            if f < g {
                assert(settled(defeaters, inside, s, f, p, t));
            } else if p < pos(s, top) {
                assert(settled(defeaters, inside, s, g, p, t));
            } else {
                assert(settled(defeaters, inside, s, top, p, t));
            }
        }
    }
}

/// The state after a vertex has been left that leads nowhere below itself:
/// it and what stands above it on the stack are put out.
proof fn lemma_close(
    defeaters: Seq<Seq<usize>>,
    candidates: Set<usize>,
    inside: Seq<bool>,
    s: Search,
    s1: Search,
    idx: usize,
)
    requires
        searching(defeaters, candidates, inside, s),
        s.work.len() > 0,
        s.work.last().next == defeaters[s.work.last().node as int].len(),
        s.nodes[s.work.last().node as int] == Node::OnStack(idx),
        s.work.last().lowlink == idx,
        s1 == (Search {
            nodes: all_done(s.nodes),
            stack: Seq::empty(),
            work: s.work.drop_last(),
            out: s.out + s.stack.skip(idx as int),
            dead: s.work.len() - 1,
        }),
    ensures
        searching(defeaters, candidates, inside, s1),
{
    let top = s.work.len() - 1;
    let v = s.work[top].node;
    let n = s.stack.len() as int;
    let circle = s.stack.skip(idx as int);
    assert(frame_ok(defeaters, candidates, inside, s, top));
    assert(top >= s.dead);
    lemma_live_frame(defeaters, candidates, inside, s, top);
    let set = circle.to_set();
    assert forall|p: int| idx <= p < n implies set.contains(#[trigger] s.stack[p]) by {
        assert(circle[p - idx] == s.stack[p]);
    }
    // No arrow leaves the circle.
    assert forall|x: usize, y: usize|
        set.contains(x) && #[trigger] arrow(defeaters, candidates, x, y) implies set.contains(
        y,
    ) by {
        let k = choose|k: int| 0 <= k < circle.len() && circle[k] == x;
        let p = idx + k;
        assert(stack_ok(inside, s, p));
        let t = choose|t: int|
            0 <= t < defeaters[x as int].len() && defeaters[x as int][t] == y;
        assert(settled(defeaters, inside, s, top, p, t));
        assert(node_ok(defeaters, candidates, inside, s, y as int));
    }
    // Who stands in the circle is in the Schwartz set.
    assert forall|p: int| idx <= p < n implies in_schwartz(
        defeaters,
        candidates,
        #[trigger] s.stack[p],
    ) by {
        let x = s.stack[p];
        assert(stack_ok(inside, s, p));
        assert forall|w: usize| #[trigger] reach(defeaters, candidates, x, w) implies reach(
            defeaters,
            candidates,
            w,
            x,
        ) by {
            lemma_closed_reach(defeaters, candidates, set, x, w);
            let k = choose|k: int| 0 <= k < circle.len() && circle[k] == w;
            assert(owned(defeaters, candidates, s, top, idx + k));
            assert(reach(defeaters, candidates, s.stack[idx as int], s.stack[p]));
            lemma_reach_trans(defeaters, candidates, w, v, x);
        }
    }
    // Who stands below the circle is not.
    assert forall|p: int| 0 <= p < idx implies !in_schwartz(
        defeaters,
        candidates,
        #[trigger] s.stack[p],
    ) by {
        let x = s.stack[p];
        assert(stack_ok(inside, s, p));
        assert(reach(defeaters, candidates, s.stack[p], s.stack[idx as int]));
        if in_schwartz(defeaters, candidates, x) {
            assert(reach(defeaters, candidates, x, v));
            assert(reach(defeaters, candidates, v, x));
            assert(set.contains(s.stack[idx as int]));
            lemma_closed_reach(defeaters, candidates, set, v, x);
            let k = choose|k: int| 0 <= k < circle.len() && circle[k] == x;
            assert(stack_ok(inside, s, idx + k));
            assert(s.stack[idx + k] == x);
            assert(false);
        }
    }
    assert forall|i: int| 0 <= i < s1.out.len() implies #[trigger] out_ok(
        defeaters,
        candidates,
        s1,
        i,
    ) by {
        if i < s.out.len() {
            assert(out_ok(defeaters, candidates, s, i));
        } else {
            let p = idx + (i - s.out.len());
            assert(s1.out[i] == s.stack[p]);
            assert(stack_ok(inside, s, p));
        }
    }
    assert(s1.out.no_duplicates()) by {
        assert forall|i: int, j: int| 0 <= i < s1.out.len() && 0 <= j < s1.out.len() && i
            != j implies s1.out[i] != s1.out[j] by {
            if i < s.out.len() {
                assert(out_ok(defeaters, candidates, s, i));
                assert(s1.out[i] == s.out[i]);
            } else {
                assert(stack_ok(inside, s, idx + (i - s.out.len())));
                assert(s1.out[i] == s.stack[idx + (i - s.out.len())]);
            }
            if j < s.out.len() {
                assert(out_ok(defeaters, candidates, s, j));
                assert(s1.out[j] == s.out[j]);
            } else {
                assert(stack_ok(inside, s, idx + (j - s.out.len())));
                assert(s1.out[j] == s.stack[idx + (j - s.out.len())]);
            }
        }
    }
    assert forall|x: usize| s.out.contains(x) implies s1.out.contains(x) by {
        let k = choose|k: int| 0 <= k < s.out.len() && s.out[k] == x;
        assert(s1.out[k] == x);
    }
    assert forall|x: usize| set.contains(x) implies s1.out.contains(x) by {
        let k = choose|k: int| 0 <= k < circle.len() && circle[k] == x;
        assert(s1.out[s.out.len() + k] == x);
    }
    assert forall|x: usize| s1.out.contains(x) implies s.out.contains(x) || set.contains(x) by {
        let k = choose|k: int| 0 <= k < s1.out.len() && s1.out[k] == x;
        if k < s.out.len() {
            assert(s.out[k] == x);
        } else {
            assert(circle[k - s.out.len()] == x);
        }
    }
    assert forall|x: usize, y: usize|
        s1.out.contains(x) && #[trigger] arrow(defeaters, candidates, x, y) implies s1.out.contains(
        y,
    ) by {
        if s.out.contains(x) {
            assert(s.out.contains(y));
        } else {
            assert(set.contains(y));
        }
    }
    assert(s1.out.contains(v)) by {
        assert(set.contains(s.stack[idx as int]));
    }
    assert forall|x: int| 0 <= x < s1.nodes.len() implies #[trigger] node_ok(
        defeaters,
        candidates,
        inside,
        s1,
        x,
    ) by {
        assert(node_ok(defeaters, candidates, inside, s, x));
        if let Node::OnStack(i) = s.nodes[x] {
            assert(stack_ok(inside, s, i as int));
            if i >= idx {
                assert(set.contains(s.stack[i as int]));
            } else {
                assert(!in_schwartz(defeaters, candidates, s.stack[i as int]));
            }
        }
    }
    assert(basic(defeaters, candidates, inside, s1));
    assert forall|f: int| 0 <= f < s1.work.len() implies #[trigger] frame_ok(
        defeaters,
        candidates,
        inside,
        s1,
        f,
    ) by {
        assert(frame_ok(defeaters, candidates, inside, s, f));
    }
}

/// The number of vertices that the search has not seen.
pub open spec fn fresh_count(nodes: Seq<Node>) -> nat
    decreases nodes.len(),
{
    if nodes.len() == 0 {
        0
    } else {
        fresh_count(nodes.drop_last()) + if nodes.last() is Unvisited {
            1nat
        } else {
            0nat
        }
    }
}

proof fn lemma_fresh_same(a: Seq<Node>, b: Seq<Node>)
    requires
        a.len() == b.len(),
        forall|v: int| 0 <= v < a.len() ==> (a[v] is Unvisited) == (b[v] is Unvisited),
    ensures
        fresh_count(a) == fresh_count(b),
    decreases a.len(),
{
    if a.len() > 0 {
        lemma_fresh_same(a.drop_last(), b.drop_last());
    }
}

proof fn lemma_fresh_visit(a: Seq<Node>, u: int, i: usize)
    requires
        0 <= u < a.len(),
        a[u] is Unvisited,
    ensures
        fresh_count(a.update(u, Node::OnStack(i))) + 1 == fresh_count(a),
    decreases a.len(),
{
    let b = a.update(u, Node::OnStack(i));
    if u == a.len() - 1 {
        assert(b.drop_last() =~= a.drop_last());
    } else {
        lemma_fresh_visit(a.drop_last(), u, i);
        assert(b.drop_last() =~= a.drop_last().update(u, Node::OnStack(i)));
    }
}

/// The number of looks at defeaters and of frames to drop that the frames
/// still stand for.
pub open spec fn pending(defeaters: Seq<Seq<usize>>, work: Seq<Frame>) -> int
    decreases work.len(),
{
    if work.len() == 0 {
        0
    } else {
        pending(defeaters, work.drop_last()) + defeaters[work.last().node as int].len()
            - work.last().next + 1
    }
}

proof fn lemma_pending_same(defeaters: Seq<Seq<usize>>, a: Seq<Frame>, b: Seq<Frame>)
    requires
        a.len() == b.len(),
        forall|f: int| 0 <= f < a.len() ==> a[f].node == b[f].node && a[f].next == b[f].next,
    ensures
        pending(defeaters, a) == pending(defeaters, b),
    decreases a.len(),
{
    if a.len() > 0 {
        lemma_pending_same(defeaters, a.drop_last(), b.drop_last());
    }
}

proof fn lemma_pending_nonnegative(
    defeaters: Seq<Seq<usize>>,
    candidates: Set<usize>,
    inside: Seq<bool>,
    s: Search,
    k: int,
)
    requires
        searching(defeaters, candidates, inside, s),
        0 <= k <= s.work.len(),
    ensures
        pending(defeaters, s.work.take(k)) >= 0,
    decreases k,
{
    if k > 0 {
        lemma_pending_nonnegative(defeaters, candidates, inside, s, k - 1);
        assert(s.work.take(k).drop_last() =~= s.work.take(k - 1));
        assert(frame_ok(defeaters, candidates, inside, s, k - 1));
    }
}

/// Every vertex on the stack is done, and the stack is empty.
fn finish_stack(nodes: &mut Vec<Node>, stack: &mut Vec<usize>)
    requires
        old(stack)@.len() <= usize::MAX,
        forall|i: int|
            0 <= i < old(stack)@.len() ==> (#[trigger] old(stack)@[i]) < old(nodes)@.len() && old(
                nodes,
            )@[old(stack)@[i] as int] == Node::OnStack(i as usize),
        forall|v: int|
            0 <= v < old(nodes)@.len() && (#[trigger] old(nodes)@[v]) is OnStack ==> old(
                nodes,
            )@[v]->OnStack_0 < old(stack)@.len() && old(stack)@[old(nodes)@[v]->OnStack_0 as int]
                == v,
    ensures
        final(nodes)@ == all_done(old(nodes)@),
        final(stack)@.len() == 0,
{
    let ghost before = nodes@;
    let mut i: usize = 0;
    while i < stack.len()
        invariant
            i <= stack@.len(),
            nodes@.len() == before.len(),
            forall|k: int|
                0 <= k < stack@.len() ==> (#[trigger] stack@[k]) < before.len() && before[stack@[k] as int]
                    == Node::OnStack(k as usize),
            forall|v: int|
                0 <= v < before.len() ==> (#[trigger] nodes@[v]) == if before[v] is OnStack
                    && before[v]->OnStack_0 < i {
                    Node::Done
                } else {
                    before[v]
                },
            forall|v: int|
                0 <= v < before.len() && (#[trigger] before[v]) is OnStack ==> before[v]->OnStack_0
                    < stack@.len() && stack@[before[v]->OnStack_0 as int] == v,
        decreases stack@.len() - i,
    {
        let c = stack[i];
        nodes[c] = Node::Done;
        i += 1;
    }
    stack.clear();
    assert(nodes@ =~= all_done(before));
}

/// The lists of defeaters as sequences.
pub open spec fn rows(defeaters: Seq<Vec<usize>>) -> Seq<Seq<usize>> {
    Seq::new(defeaters.len(), |v: int| defeaters[v]@)
}

/// The Schwartz set of the candidates: who is beaten, even through a chain of
/// defeats among the candidates, only by those whom they beat likewise.
///
/// `defeaters[v]` lists those who defeat `v`.  Only defeats among the
/// candidates count.
pub fn schwartz_set(candidates: &[usize], defeaters: &[Vec<usize>]) -> (out: Vec<usize>)
    requires
        graph_ok(rows(defeaters@)),
        forall|i: int| 0 <= i < candidates@.len() ==> (#[trigger] candidates@[i]) < defeaters@.len(),
    ensures
        out@.no_duplicates(),
        forall|v: usize| #[trigger]
            out@.contains(v) <==> in_schwartz(rows(defeaters@), candidates@.to_set(), v),
        candidates@.len() > 0 ==> out@.len() > 0,
{
    let n = defeaters.len();
    let ghost d = rows(defeaters@);
    let ghost cs = candidates@.to_set();
    let mut inside: Vec<bool> = Vec::new();
    let mut nodes: Vec<Node> = Vec::new();
    let mut k: usize = 0;
    while k < n
        invariant
            k <= n,
            inside@.len() == k,
            nodes@.len() == k,
            forall|v: int| 0 <= v < k ==> !(#[trigger] inside@[v]),
            forall|v: int| 0 <= v < k ==> (#[trigger] nodes@[v]) is Unvisited,
        decreases n - k,
    {
        inside.push(false);
        nodes.push(Node::Unvisited);
        k += 1;
    }
    let mut k: usize = 0;
    while k < candidates.len()
        invariant
            k <= candidates@.len(),
            inside@.len() == n,
            n == defeaters@.len(),
            forall|i: int| 0 <= i < candidates@.len() ==> (#[trigger] candidates@[i]) < n,
            forall|v: int| 0 <= v < n ==> (#[trigger] inside@[v]) == candidates@.take(
                k as int,
            ).contains(v as usize),
        decreases candidates@.len() - k,
    {
        let c = candidates[k];
        let ghost before = inside@;
        inside[c] = true;
        proof {
            let a = candidates@.take(k as int);
            let b = candidates@.take(k + 1);
            assert(b =~= a.push(c));
            assert forall|v: int| 0 <= v < n implies (#[trigger] inside@[v]) == b.contains(
                v as usize,
            ) by {
                if a.contains(v as usize) {
                    let j = choose|j: int| 0 <= j < a.len() && a[j] == v as usize;
                    assert(b[j] == v as usize);
                }
                if v == c {
                    assert(b[k as int] == c);
                }
                if b.contains(v as usize) && v != c {
                    let j = choose|j: int| 0 <= j < b.len() && b[j] == v as usize;
                    assert(a[j] == v as usize);
                }
            }
        }
        k += 1;
    }
    let mut stack: Vec<usize> = Vec::new();
    let mut work: Vec<Frame> = Vec::new();
    let mut out: Vec<usize> = Vec::new();
    let ghost mut dead: int = 0;
    proof {
        assert(candidates@.take(candidates@.len() as int) =~= candidates@);
        let s = Search { nodes: nodes@, stack: stack@, work: work@, out: out@, dead };
        assert forall|x: usize| #[trigger] candidates@.contains(x) implies x < defeaters@.len()
            && inside@[x as int] by {
            let j = choose|j: int| 0 <= j < candidates@.len() && candidates@[j] == x;
            assert(candidates@[j] < n);
        }
        assert forall|v: int| 0 <= v < s.nodes.len() implies #[trigger] node_ok(
            d,
            cs,
            inside@,
            s,
            v,
        ) by {
            assert(nodes@[v] is Unvisited);
        }
        assert(searching(d, cs, inside@, s));
    }
    let mut ci: usize = 0;
    while ci < candidates.len()
        invariant
            ci <= candidates@.len(),
            n == defeaters@.len(),
            d == rows(defeaters@),
            cs == candidates@.to_set(),
            nodes@.len() == n,
            forall|i: int| 0 <= i < candidates@.len() ==> (#[trigger] candidates@[i]) < n,
            work@.len() == 0,
            searching(
                d,
                cs,
                inside@,
                Search { nodes: nodes@, stack: stack@, work: work@, out: out@, dead },
            ),
            forall|i: int| 0 <= i < ci ==> nodes@[#[trigger] candidates@[i] as int] is Done,
        decreases candidates@.len() - ci,
    {
        let c = candidates[ci];
        assert(candidates@.contains(c));
        assert(cs.contains(c));
        let fresh = match nodes[c] {
            Node::Unvisited => true,
            _ => false,
        };
        if fresh {
            let ghost s0 = Search { nodes: nodes@, stack: stack@, work: work@, out: out@, dead };
            nodes[c] = Node::OnStack(0);
            stack.push(c);
            work.push(Frame { node: c, next: 0, lowlink: 0 });
            proof {
                dead = 0;
                assert forall|i: int| 0 <= i <= ci implies !(nodes@[#[trigger] candidates@[i] as int]
                    is Unvisited) by {
                    if i < ci {
                        assert(s0.nodes[candidates@[i] as int] is Done);
                    }
                }
                assert forall|i: int| 0 <= i < ci implies nodes@[#[trigger] candidates@[i] as int] is Done by {
                    assert(s0.nodes[candidates@[i] as int] is Done);
                }
                lemma_root(
                    d,
                    cs,
                    inside@,
                    s0,
                    Search { nodes: nodes@, stack: stack@, work: work@, out: out@, dead },
                    c,
                );
            }
            while work.len() > 0
                invariant
                    ci < candidates@.len(),
                    c == candidates@[ci as int],
                    n == defeaters@.len(),
                    d == rows(defeaters@),
                    cs == candidates@.to_set(),
                    nodes@.len() == n,
                    forall|i: int| 0 <= i < candidates@.len() ==> (#[trigger] candidates@[i]) < n,
                    searching(
                        d,
                        cs,
                        inside@,
                        Search { nodes: nodes@, stack: stack@, work: work@, out: out@, dead },
                    ),
                    forall|i: int| 0 <= i <= ci ==> !(nodes@[#[trigger] candidates@[i] as int]
                        is Unvisited),
                    forall|i: int| 0 <= i < ci ==> nodes@[#[trigger] candidates@[i] as int] is Done,
                decreases fresh_count(nodes@), pending(d, work@),
            {
                let ghost s = Search { nodes: nodes@, stack: stack@, work: work@, out: out@, dead };
                let top = work.len() - 1;
                let v = work[top].node;
                let next = work[top].next;
                let lowlink = work[top].lowlink;
                proof {
                    assert(frame_ok(d, cs, inside@, s, top as int));
                    assert(d[v as int] == defeaters@[v as int]@);
                    assert(work@.drop_last() =~= work@.take(top as int));
                    lemma_pending_nonnegative(d, cs, inside@, s, top as int);
                }
                if next < defeaters[v].len() {
                    let u = defeaters[v][next];
                    assert(u == d[v as int][next as int]);
                    assert(u < n);
                    work[top].next = next + 1;
                    let ghost scanned = s.work.update(
                        top as int,
                        Frame { node: v, next: (next + 1) as usize, lowlink },
                    );
                    proof {
                        assert(work@ =~= scanned);
                        assert(scanned.drop_last() =~= s.work.drop_last());
                    }
                    if inside[u] {
                        match nodes[u] {
                            Node::Unvisited => {
                                let l = stack.len();
                                nodes[u] = Node::OnStack(l);
                                stack.push(u);
                                work.push(Frame { node: u, next: 0, lowlink: l });
                                proof {
                                    vstd::std_specs::vec::axiom_spec_len(&stack);
                                    assert(work@ =~= scanned.push(
                                        Frame { node: u, next: 0, lowlink: l },
                                    ));
                                    lemma_fresh_visit(s.nodes, u as int, l);
                                    lemma_push(
                                        d,
                                        cs,
                                        inside@,
                                        s,
                                        Search {
                                            nodes: nodes@,
                                            stack: stack@,
                                            work: work@,
                                            out: out@,
                                            dead,
                                        },
                                    );
                                }
                            },
                            Node::OnStack(idx) => {
                                if idx < lowlink {
                                    work[top].lowlink = idx;
                                }
                                proof {
                                    assert(work@ =~= s.work.update(
                                        top as int,
                                        Frame {
                                            node: v,
                                            next: (next + 1) as usize,
                                            lowlink: if idx < lowlink {
                                                idx
                                            } else {
                                                lowlink
                                            },
                                        },
                                    ));
                                    assert(work@.drop_last() =~= s.work.drop_last());
                                    lemma_low(
                                        d,
                                        cs,
                                        inside@,
                                        s,
                                        Search {
                                            nodes: nodes@,
                                            stack: stack@,
                                            work: work@,
                                            out: out@,
                                            dead,
                                        },
                                        idx,
                                    );
                                }
                            },
                            Node::Done => {
                                proof {
                                    assert forall|i: int| 0 <= i < stack@.len() implies (
                                    #[trigger] stack@[i]) < nodes@.len() && nodes@[stack@[i] as int]
                                        == Node::OnStack(i as usize) by {
                                        assert(stack_ok(inside@, s, i));
                                    }
                                    assert forall|x: int|
                                        0 <= x < nodes@.len() && (
                                        #[trigger] nodes@[x]) is OnStack implies nodes@[x]->OnStack_0
                                        < stack@.len() && stack@[nodes@[x]->OnStack_0 as int]
                                        == x by {
                                        assert(node_ok(d, cs, inside@, s, x));
                                    }
                                }
                                finish_stack(&mut nodes, &mut stack);
                                proof {
                                    dead = work@.len() as int;
                                    lemma_fresh_same(s.nodes, nodes@);
                                    assert(stack@ =~= Seq::empty());
                                    lemma_discard(
                                        d,
                                        cs,
                                        inside@,
                                        s,
                                        Search {
                                            nodes: nodes@,
                                            stack: stack@,
                                            work: work@,
                                            out: out@,
                                            dead,
                                        },
                                    );
                                }
                            },
                        }
                    } else {
                        proof {
                            lemma_skip(
                                d,
                                cs,
                                inside@,
                                s,
                                Search {
                                    nodes: nodes@,
                                    stack: stack@,
                                    work: work@,
                                    out: out@,
                                    dead,
                                },
                            );
                        }
                    }
                } else {
                    work.pop();
                    match nodes[v] {
                        Node::Done => {
                            proof {
                                dead = work@.len() as int;
                                lemma_pop_dead(
                                    d,
                                    cs,
                                    inside@,
                                    s,
                                    Search {
                                        nodes: nodes@,
                                        stack: stack@,
                                        work: work@,
                                        out: out@,
                                        dead,
                                    },
                                );
                            }
                        },
                        Node::OnStack(index) => {
                            if lowlink == index {
                                proof {
                                    lemma_live_frame(
                                        d,
                                        cs,
                                        inside@,
                                        s,
                                        top as int,
                                    );
                                }
                                let mut p: usize = index;
                                while p < stack.len()
                                    invariant
                                        index <= p <= stack@.len(),
                                        stack@ == s.stack,
                                        out@ == s.out + s.stack.subrange(index as int, p as int),
                                    decreases stack@.len() - p,
                                {
                                    let ghost before = out@;
                                    out.push(stack[p]);
                                    proof {
                                        assert(out@ =~= s.out + s.stack.subrange(
                                            index as int,
                                            p + 1,
                                        ));
                                    }
                                    p += 1;
                                }
                                proof {
                                    assert(s.stack.subrange(index as int, s.stack.len() as int)
                                        =~= s.stack.skip(index as int));
                                    assert forall|i: int| 0 <= i < stack@.len() implies (
                                    #[trigger] stack@[i]) < nodes@.len() && nodes@[stack@[i] as int]
                                        == Node::OnStack(i as usize) by {
                                        assert(stack_ok(inside@, s, i));
                                    }
                                    assert forall|x: int|
                                        0 <= x < nodes@.len() && (
                                        #[trigger] nodes@[x]) is OnStack implies nodes@[x]->OnStack_0
                                        < stack@.len() && stack@[nodes@[x]->OnStack_0 as int]
                                        == x by {
                                        assert(node_ok(d, cs, inside@, s, x));
                                    }
                                }
                                finish_stack(&mut nodes, &mut stack);
                                proof {
                                    dead = work@.len() as int;
                                    lemma_fresh_same(s.nodes, nodes@);
                                    assert(stack@ =~= Seq::empty());
                                    lemma_close(
                                        d,
                                        cs,
                                        inside@,
                                        s,
                                        Search {
                                            nodes: nodes@,
                                            stack: stack@,
                                            work: work@,
                                            out: out@,
                                            dead,
                                        },
                                        index,
                                    );
                                }
                            } else {
                                proof {
                                    lemma_return(
                                        d,
                                        cs,
                                        inside@,
                                        s,
                                        s,
                                        index,
                                    );
                                }
                                let g = work.len() - 1;
                                if lowlink < work[g].lowlink {
                                    work[g].lowlink = lowlink;
                                }
                                proof {
                                    let s1 = Search {
                                        nodes: nodes@,
                                        stack: stack@,
                                        work: work@,
                                        out: out@,
                                        dead,
                                    };
                                    assert(s1.work =~= s.work.drop_last().update(
                                        s.work.len() - 2,
                                        Frame {
                                            node: s.work[s.work.len() - 2].node,
                                            next: s.work[s.work.len() - 2].next,
                                            lowlink: if s.work.last().lowlink < s.work[s.work.len()
                                                - 2].lowlink {
                                                s.work.last().lowlink
                                            } else {
                                                s.work[s.work.len() - 2].lowlink
                                            },
                                        },
                                    ));
                                    lemma_return(d, cs, inside@, s, s1, index);
                                    lemma_pending_same(d, s.work.drop_last(), work@);
                                }
                            }
                        },
                        Node::Unvisited => {
                            proof {
                                assert(false);
                            }
                        },
                    }
                }
                proof {
                    let s1 = Search {
                        nodes: nodes@,
                        stack: stack@,
                        work: work@,
                        out: out@,
                        dead,
                    };
                    assert forall|i: int| 0 <= i <= ci implies !(nodes@[#[trigger] candidates@[i] as int]
                        is Unvisited) by {
                        assert(!(s.nodes[candidates@[i] as int] is Unvisited));
                    }
                    assert forall|i: int| 0 <= i < ci implies nodes@[#[trigger] candidates@[i] as int] is Done by {
                        assert(s.nodes[candidates@[i] as int] is Done);
                    }
                }
            }
            proof {
                let s = Search { nodes: nodes@, stack: stack@, work: work@, out: out@, dead };
                assert(node_ok(d, cs, inside@, s, c as int));
            }
        } else {
            proof {
                let s = Search { nodes: nodes@, stack: stack@, work: work@, out: out@, dead };
                assert(node_ok(d, cs, inside@, s, c as int));
            }
        }
        ci += 1;
    }
    proof {
        let s = Search { nodes: nodes@, stack: stack@, work: work@, out: out@, dead };
        assert forall|v: usize| #[trigger] out@.contains(v) <==> in_schwartz(
            d,
            cs,
            v,
        ) by {
            if out@.contains(v) {
                let i = choose|i: int| 0 <= i < out@.len() && out@[i] == v;
                assert(out_ok(d, cs, s, i));
            }
            if in_schwartz(d, cs, v) {
                let i = choose|i: int| 0 <= i < candidates@.len() && candidates@[i] == v;
                assert(nodes@[candidates@[i] as int] is Done);
                assert(node_ok(d, cs, inside@, s, v as int));
            }
        }
        if candidates@.len() > 0 {
            assert(nodes@[candidates@[0] as int] is Done);
            assert(node_ok(d, cs, inside@, s, candidates@[0] as int));
        }
    }
    out
}

} // verus!
