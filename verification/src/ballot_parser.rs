//! Ballots written as text, one to a line:
//!
//! ```text
//! [ weight ":" ] group { ">" group }
//! group  := name { "=" name }
//! weight := integer | integer "/" integer
//! ```
//!
//! A group is preferred to the groups on its right, and the names of a group
//! are tied.  White space around a line, a weight and a name does not count.
//! The names are numbered in the order in which they first appear.
use crate::schulze_stv::{ballots_ok, listed_below, listed_once};
use crate::traits::Weight;
use std::collections::HashSet;
use vstd::prelude::*;
use vstd::std_specs::hash::*;
use vstd::string::*;

verus! {

/// Whether a character is white space: what `char::is_whitespace` answers.
pub uninterp spec fn white_space(c: char) -> bool;

/// `char::is_whitespace`, which tells whether the character has the Unicode
/// property `White_Space`.  Its answer is taken as it comes, under the name
/// `white_space`.
#[verifier::external_body]
fn is_space(c: char) -> (r: bool)
    ensures
        r == white_space(c),
{
    c.is_whitespace()
}

/// The characters of a text.
pub fn chars_of(s: &str) -> (v: Vec<char>)
    ensures
        v@ == s@,
{
    broadcast use axiom_spec_iter;

    let mut v: Vec<char> = Vec::new();
    for c in it: s.chars()
        invariant
            v@ == it.history(),
    {
        v.push(c);
    }
    assert(v@ =~= s@);
    v
}

/// Where `c` first stands in `s`: the length of `s` if it stands nowhere.
pub open spec fn first_at(s: Seq<char>, c: char) -> int
    decreases s.len(),
{
    if s.len() == 0 {
        0
    } else if s[0] == c {
        0
    } else {
        1 + first_at(s.drop_first(), c)
    }
}

/// `first_at` is the first place of `c`, and no other number is.
pub proof fn lemma_first_at(s: Seq<char>, c: char, k: int)
    requires
        0 <= k <= s.len(),
        forall|i: int| 0 <= i < k ==> s[i] != c,
        k < s.len() ==> s[k] == c,
    ensures
        first_at(s, c) == k,
    decreases s.len(),
{
    if s.len() > 0 && k > 0 {
        assert(s[0] != c);
        let t = s.drop_first();
        assert forall|i: int| 0 <= i < k - 1 implies t[i] != c by {
            assert(t[i] == s[i + 1]);
        }
        lemma_first_at(t, c, k - 1);
    }
}

/// The parts of `s` between the occurrences of `sep`.
pub open spec fn pieces(s: Seq<char>, sep: char) -> Seq<Seq<char>>
    decreases s.len(),
{
    let i = first_at(s, sep);
    if 0 <= i < s.len() {
        seq![s.take(i)] + pieces(s.skip(i + 1), sep)
    } else {
        seq![s]
    }
}

/// The number of white-space characters with which `s` begins.
pub open spec fn lead(s: Seq<char>) -> int
    decreases s.len(),
{
    if s.len() > 0 && white_space(s[0]) {
        1 + lead(s.drop_first())
    } else {
        0
    }
}

/// The number of white-space characters with which `s` ends.
pub open spec fn trail(s: Seq<char>) -> int
    decreases s.len(),
{
    if s.len() > 0 && white_space(s.last()) {
        1 + trail(s.drop_last())
    } else {
        0
    }
}

/// `s` without the white space at its two ends.
pub open spec fn trimmed(s: Seq<char>) -> Seq<char> {
    let t = s.skip(lead(s));
    t.take(t.len() - trail(t))
}

proof fn lemma_lead(s: Seq<char>, k: int)
    requires
        0 <= k <= s.len(),
        forall|i: int| 0 <= i < k ==> white_space(#[trigger] s[i]),
        k < s.len() ==> !white_space(s[k]),
    ensures
        lead(s) == k,
    decreases s.len(),
{
    if k > 0 {
        let t = s.drop_first();
        assert(white_space(s[0]));
        assert forall|i: int| 0 <= i < k - 1 implies white_space(#[trigger] t[i]) by {
            assert(t[i] == s[i + 1]);
        }
        lemma_lead(t, k - 1);
    }
}

proof fn lemma_trail(s: Seq<char>, k: int)
    requires
        0 <= k <= s.len(),
        forall|i: int| s.len() - k <= i < s.len() ==> white_space(#[trigger] s[i]),
        k < s.len() ==> !white_space(s[s.len() - k - 1]),
    ensures
        trail(s) == k,
    decreases s.len(),
{
    if k > 0 {
        let t = s.drop_last();
        assert(white_space(s[s.len() - 1]));
        assert forall|i: int| t.len() - (k - 1) <= i < t.len() implies white_space(
            #[trigger] t[i],
        ) by {
            assert(t[i] == s[i]);
        }
        lemma_trail(t, k - 1);
    }
}

/// A part of a line: the characters from `from` up to `to`.
#[derive(Clone, Copy)]
struct Span {
    from: usize,
    to: usize,
}

impl Span {
    /// The span lies within a text of `n` characters.
    spec fn within(self, n: nat) -> bool {
        self.from <= self.to <= n
    }

    /// The characters of `s` in the span.
    spec fn of(self, s: Seq<char>) -> Seq<char> {
        s.subrange(self.from as int, self.to as int)
    }
}

/// The span without the white space at its two ends.
fn trim(cs: &[char], span: Span) -> (r: Span)
    requires
        span.within(cs@.len()),
    ensures
        r.within(cs@.len()),
        span.from <= r.from,
        r.to <= span.to,
        r.of(cs@) == trimmed(span.of(cs@)),
{
    let ghost s = span.of(cs@);
    let mut a: usize = span.from;
    while a < span.to && is_space(cs[a])
        invariant
            span.from <= a <= span.to <= cs@.len(),
            forall|i: int| span.from <= i < a ==> white_space(#[trigger] cs@[i]),
        decreases span.to - a,
    {
        a += 1;
    }
    let mut b: usize = span.to;
    while a < b && is_space(cs[b - 1])
        invariant
            a <= b <= span.to <= cs@.len(),
            forall|i: int| b <= i < span.to ==> white_space(#[trigger] cs@[i]),
        decreases b - a,
    {
        b -= 1;
    }
    proof {
        assert forall|i: int| 0 <= i < a - span.from implies white_space(#[trigger] s[i]) by {
            assert(s[i] == cs@[span.from + i]);
        }
        lemma_lead(s, a - span.from);
        let t = s.skip(a - span.from);
        assert forall|i: int| t.len() - (span.to - b) <= i < t.len() implies white_space(
            #[trigger] t[i],
        ) by {
            assert(t[i] == cs@[a + i]);
        }
        if span.to - b < t.len() {
            assert(t[t.len() - (span.to - b) - 1] == cs@[b - 1]);
        }
        lemma_trail(t, span.to - b);
        assert(cs@.subrange(a as int, b as int) =~= t.take(t.len() - trail(t)));
    }
    Span { from: a, to: b }
}

/// The first place of `c` in the span: its end if `c` is nowhere in it.
fn find(cs: &[char], span: Span, c: char) -> (at: usize)
    requires
        span.within(cs@.len()),
    ensures
        at == span.from + first_at(span.of(cs@), c),
        span.from <= at <= span.to,
        at < span.to ==> cs@[at as int] == c,
{
    let ghost s = span.of(cs@);
    let mut at: usize = span.from;
    while at < span.to && cs[at] != c
        invariant
            span.from <= at <= span.to <= cs@.len(),
            forall|i: int| span.from <= i < at ==> cs@[i] != c,
        decreases span.to - at,
    {
        at += 1;
    }
    proof {
        assert forall|i: int| 0 <= i < at - span.from implies s[i] != c by {
            assert(s[i] == cs@[span.from + i]);
        }
        lemma_first_at(s, c, at - span.from);
    }
    at
}

/// The texts of the spans.
spec fn texts(s: Seq<char>, spans: Seq<Span>) -> Seq<Seq<char>> {
    Seq::new(spans.len(), |k: int| spans[k].of(s))
}

/// The parts of the span between the occurrences of `sep`.
fn split(cs: &[char], span: Span, sep: char) -> (r: Vec<Span>)
    requires
        span.within(cs@.len()),
    ensures
        texts(cs@, r@) == pieces(span.of(cs@), sep),
        forall|k: int| 0 <= k < r@.len() ==> (#[trigger] r@[k]).within(cs@.len()),
        r@.len() >= 1,
{
    let ghost whole = span.of(cs@);
    let mut r: Vec<Span> = Vec::new();
    let mut from: usize = span.from;
    loop
        invariant
            span.from <= from <= span.to <= cs@.len(),
            whole == span.of(cs@),
            forall|k: int| 0 <= k < r@.len() ==> (#[trigger] r@[k]).within(cs@.len()),
            pieces(whole, sep) == texts(cs@, r@) + pieces(
                cs@.subrange(from as int, span.to as int),
                sep,
            ),
        decreases span.to - from,
    {
        let rest = Span { from, to: span.to };
        let at = find(cs, rest, sep);
        let ghost before = r@;
        let ghost s = rest.of(cs@);
        r.push(Span { from, to: at });
        proof {
            assert(s.take(at - from) =~= cs@.subrange(from as int, at as int));
            assert(texts(cs@, r@) =~= texts(cs@, before) + seq![s.take(at - from)]);
        }
        if at == span.to {
            proof {
                assert(s.take(at - from) =~= s);
                assert(first_at(s, sep) == s.len());
                assert(pieces(s, sep) =~= seq![s]);
                assert(texts(cs@, r@) =~= pieces(whole, sep));
            }
            return r;
        }
        proof {
            assert(s.skip(at - from + 1) =~= cs@.subrange(at + 1, span.to as int));
            assert(pieces(s, sep) =~= seq![s.take(at - from)] + pieces(s.skip(at - from + 1), sep));
        }
        from = at + 1;
    }
}

/// Whether `c` is one of the ten digits.
pub open spec fn is_digit(c: char) -> bool {
    '0' <= c <= '9'
}

/// The number that the digit stands for.
pub open spec fn digit(c: char) -> int {
    c as int - '0' as int
}

/// `s` is one digit or more.
pub open spec fn all_digits(s: Seq<char>) -> bool {
    s.len() > 0 && forall|i: int| 0 <= i < s.len() ==> is_digit(#[trigger] s[i])
}

/// The number that the digits of `s` stand for, in base ten.
pub open spec fn number(s: Seq<char>) -> int
    decreases s.len(),
{
    if s.len() == 0 {
        0
    } else {
        10 * number(s.drop_last()) + digit(s.last())
    }
}

/// `s` is a sign, or none, and then digits.
pub open spec fn is_integer(s: Seq<char>) -> bool {
    if s.len() > 0 && (s[0] == '-' || s[0] == '+') {
        all_digits(s.drop_first())
    } else {
        all_digits(s)
    }
}

/// The number that the integer `s` stands for.
pub open spec fn integer(s: Seq<char>) -> int {
    if s.len() > 0 && s[0] == '-' {
        -number(s.drop_first())
    } else if s.len() > 0 && s[0] == '+' {
        number(s.drop_first())
    } else {
        number(s)
    }
}

/// `s` is an integer, or two integers with `/` between them of which the
/// second is not zero.
pub open spec fn is_weight(s: Seq<char>) -> bool {
    let i = first_at(s, '/');
    if 0 <= i < s.len() {
        is_integer(s.take(i)) && is_integer(s.skip(i + 1)) && integer(s.skip(i + 1)) != 0
    } else {
        is_integer(s)
    }
}

/// The number that the weight `s` stands for.
pub open spec fn weight(s: Seq<char>) -> real {
    let i = first_at(s, '/');
    if 0 <= i < s.len() {
        integer(s.take(i)) as real / integer(s.skip(i + 1)) as real
    } else {
        integer(s) as real
    }
}

/// The number of the digits in the span, if the span holds digits and nothing
/// else.
fn read_number<W: Weight>(cs: &[char], span: Span) -> (r: Option<W>)
    requires
        span.within(cs@.len()),
    ensures
        r is Some <==> all_digits(span.of(cs@)),
        r matches Some(w) ==> w.value() == number(span.of(cs@)) as real,
{
    let ghost s = span.of(cs@);
    if span.from == span.to {
        return None;
    }
    let ten = W::from_i64(10);
    let mut sum = W::zero();
    let mut at: usize = span.from;
    while at < span.to
        invariant
            span.from <= at <= span.to <= cs@.len(),
            s == span.of(cs@),
            ten.value() == 10real,
            forall|i: int| 0 <= i < at - span.from ==> is_digit(#[trigger] s[i]),
            sum.value() == number(s.take(at - span.from)) as real,
        decreases span.to - at,
    {
        let c = cs[at];
        assert(s[at - span.from] == c);
        if c < '0' || c > '9' {
            return None;
        }
        let d: i64 = (c as u32 - '0' as u32) as i64;
        proof {
            let t = s.take(at - span.from + 1);
            assert(t.drop_last() =~= s.take(at - span.from));
            assert(t.last() == c);
            assert(number(t) == 10 * number(t.drop_last()) + digit(c));
        }
        sum = sum.times(&ten).plus(&W::from_i64(d));
        at += 1;
    }
    assert(s.take(at - span.from) =~= s);
    Some(sum)
}

/// The number of the integer in the span, if the span holds an integer.
fn read_integer<W: Weight>(cs: &[char], span: Span) -> (r: Option<W>)
    requires
        span.within(cs@.len()),
    ensures
        r is Some <==> is_integer(span.of(cs@)),
        r matches Some(w) ==> w.value() == integer(span.of(cs@)) as real,
{
    let ghost s = span.of(cs@);
    if span.from < span.to && (cs[span.from] == '-' || cs[span.from] == '+') {
        assert(s[0] == cs@[span.from as int]);
        assert(s.drop_first() =~= cs@.subrange(span.from + 1, span.to as int));
        let digits = Span { from: span.from + 1, to: span.to };
        match read_number::<W>(cs, digits) {
            Some(n) => if cs[span.from] == '-' {
                Some(W::zero().minus(&n))
            } else {
                Some(n)
            },
            None => None,
        }
    } else {
        proof {
            if span.from < span.to {
                assert(s[0] == cs@[span.from as int]);
            }
        }
        read_number(cs, span)
    }
}

/// The number of the weight in the span, if the span holds a weight.
fn read_weight<W: Weight>(cs: &[char], span: Span) -> (r: Option<W>)
    requires
        span.within(cs@.len()),
    ensures
        r is Some <==> is_weight(span.of(cs@)),
        r matches Some(w) ==> w.value() == weight(span.of(cs@)),
{
    let ghost s = span.of(cs@);
    let at = find(cs, Span { from: span.from, to: span.to }, '/');
    if at == span.to {
        return read_integer(cs, span);
    }
    proof {
        assert(s.take(at - span.from) =~= cs@.subrange(span.from as int, at as int));
        assert(s.skip(at - span.from + 1) =~= cs@.subrange(at + 1, span.to as int));
    }
    let above = read_integer::<W>(cs, Span { from: span.from, to: at });
    let below = read_integer::<W>(cs, Span { from: at + 1, to: span.to });
    match (above, below) {
        (Some(n), Some(d)) => if d.is_zero() {
            None
        } else {
            Some(n.over(&d))
        },
        _ => None,
    }
}

/// Why a line is no ballot.
pub enum ParseError {
    /// A name is empty.
    EmptyName,
    /// The candidate of this name stands twice on the ballot.
    Repeated(String),
    /// What stands before the colon is no weight.
    BadWeight,
    /// The weight is zero or less.
    NonPositiveWeight,
    /// A second colon stands on the line.
    Malformed,
}

/// A `ParseError` with its name as a sequence of characters.
pub enum Fault {
    EmptyName,
    Repeated(Seq<char>),
    BadWeight,
    NonPositiveWeight,
    Malformed,
}

impl View for ParseError {
    type V = Fault;

    open spec fn view(&self) -> Fault {
        match self {
            ParseError::EmptyName => Fault::EmptyName,
            ParseError::Repeated(name) => Fault::Repeated(name@),
            ParseError::BadWeight => Fault::BadWeight,
            ParseError::NonPositiveWeight => Fault::NonPositiveWeight,
            ParseError::Malformed => Fault::Malformed,
        }
    }
}

/// What a fault reads as.
pub open spec fn message_of(fault: Fault) -> Seq<char> {
    match fault {
        Fault::EmptyName => "empty candidate name"@,
        Fault::Repeated(name) => "candidate repeated: "@ + name,
        Fault::BadWeight => "cannot parse ballot weight"@,
        Fault::NonPositiveWeight => "non-positive ballot weight"@,
        Fault::Malformed => "more than one colon"@,
    }
}

impl ParseError {
    /// The error in words.
    pub fn message(&self) -> (s: String)
        ensures
            s@ == message_of(self@),
    {
        match self {
            ParseError::EmptyName => String::from_str("empty candidate name"),
            ParseError::Repeated(name) => {
                let mut s = String::from_str("candidate repeated: ");
                s.append(name.as_str());
                s
            },
            ParseError::BadWeight => String::from_str("cannot parse ballot weight"),
            ParseError::NonPositiveWeight => String::from_str("non-positive ballot weight"),
            ParseError::Malformed => String::from_str("more than one colon"),
        }
    }
}

/// The result with its error as a `Fault`.
pub open spec fn outcome<T>(r: Result<T, ParseError>) -> Result<T, Fault> {
    match r {
        Ok(x) => Ok(x),
        Err(e) => Err(e@),
    }
}

/// The result with its candidates as a sequence and its error as a `Fault`.
pub open spec fn listed(r: Result<Vec<usize>, ParseError>) -> Result<Seq<usize>, Fault> {
    match r {
        Ok(v) => Ok(v@),
        Err(e) => Err(e@),
    }
}

/// The groups as sequences.
pub open spec fn lists(groups: Seq<Vec<usize>>) -> Seq<Seq<usize>> {
    Seq::new(groups.len(), |g: int| groups[g]@)
}

/// The result with its groups as sequences and its error as a `Fault`.
pub open spec fn ranked(r: Result<Vec<Vec<usize>>, ParseError>) -> Result<Seq<Seq<usize>>, Fault> {
    match r {
        Ok(v) => Ok(lists(v@)),
        Err(e) => Err(e@),
    }
}

/// The names that are known, and the candidates that the ballot has named.
pub struct Roll {
    pub names: Seq<Seq<char>>,
    pub used: Set<usize>,
}

/// Where `name` first stands among `names`: their number if it stands nowhere.
pub open spec fn place(names: Seq<Seq<char>>, name: Seq<char>) -> int
    decreases names.len(),
{
    if names.len() == 0 {
        0
    } else if names[0] == name {
        0
    } else {
        1 + place(names.drop_first(), name)
    }
}

proof fn lemma_place(names: Seq<Seq<char>>, name: Seq<char>, k: int)
    requires
        0 <= k <= names.len(),
        forall|i: int| 0 <= i < k ==> names[i] != name,
        k < names.len() ==> names[k] == name,
    ensures
        place(names, name) == k,
    decreases names.len(),
{
    if names.len() > 0 && k > 0 {
        assert(names[0] != name);
        let t = names.drop_first();
        assert forall|i: int| 0 <= i < k - 1 implies t[i] != name by {
            assert(t[i] == names[i + 1]);
        }
        lemma_place(t, name, k - 1);
    }
}

proof fn lemma_place_bound(names: Seq<Seq<char>>, name: Seq<char>)
    ensures
        0 <= place(names, name) <= names.len(),
    decreases names.len(),
{
    if names.len() > 0 {
        lemma_place_bound(names.drop_first(), name);
    }
}

/// One name of a ballot: the candidate of the name, who is new if the name
/// is, and must not be on the ballot yet.
pub open spec fn candidate(roll: Roll, text: Seq<char>) -> (Roll, Result<usize, Fault>) {
    let name = trimmed(text);
    if name.len() == 0 {
        (roll, Err(Fault::EmptyName))
    } else {
        let n = place(roll.names, name);
        let names = if n < roll.names.len() {
            roll.names
        } else {
            roll.names.push(name)
        };
        if roll.used.contains(n as usize) {
            (Roll { names, used: roll.used }, Err(Fault::Repeated(name)))
        } else {
            (Roll { names, used: roll.used.insert(n as usize) }, Ok(n as usize))
        }
    }
}

/// The candidates of the names of a group, up to the first that is at fault.
pub open spec fn group(roll: Roll, names: Seq<Seq<char>>) -> (Roll, Result<Seq<usize>, Fault>)
    decreases names.len(),
{
    if names.len() == 0 {
        (roll, Ok(Seq::empty()))
    } else {
        let (next, first) = candidate(roll, names[0]);
        match first {
            Err(e) => (next, Err(e)),
            Ok(c) => {
                let (last, rest) = group(next, names.drop_first());
                match rest {
                    Err(e) => (last, Err(e)),
                    Ok(cs) => (last, Ok(seq![c] + cs)),
                }
            },
        }
    }
}

/// The groups of a ballot, up to the first that is at fault.
pub open spec fn groups(roll: Roll, texts: Seq<Seq<char>>) -> (Roll, Result<Seq<Seq<usize>>, Fault>)
    decreases texts.len(),
{
    if texts.len() == 0 {
        (roll, Ok(Seq::empty()))
    } else {
        let (next, first) = group(roll, pieces(texts[0], '='));
        match first {
            Err(e) => (next, Err(e)),
            Ok(g) => {
                let (last, rest) = groups(next, texts.drop_first());
                match rest {
                    Err(e) => (last, Err(e)),
                    Ok(gs) => (last, Ok(seq![g] + gs)),
                }
            },
        }
    }
}

/// The result with `done` put before what was found.
pub open spec fn after<T>(done: Seq<T>, found: (Roll, Result<Seq<T>, Fault>)) -> (Roll, Result<Seq<T>, Fault>) {
    match found.1 {
        Err(e) => (found.0, Err(e)),
        Ok(xs) => (found.0, Ok(done + xs)),
    }
}

proof fn lemma_after_nothing<T>(found: (Roll, Result<Seq<T>, Fault>))
    ensures
        after(Seq::<T>::empty(), found) == found,
{
    if let Ok(xs) = found.1 {
        assert(Seq::<T>::empty() + xs =~= xs);
    }
}


/// A ballot as it was read: its groups, the most preferred first, and its
/// weight.
pub struct Cast {
    pub groups: Seq<Seq<usize>>,
    pub weight: real,
}

/// What has been read: the names of the candidates and the ballots.
pub struct Record {
    pub names: Seq<Seq<char>>,
    pub casts: Seq<Cast>,
}

/// The groups in `text` as a ballot of the weight `w`.
pub open spec fn ballot(record: Record, text: Seq<char>, w: real) -> (Record, Result<(), Fault>) {
    let (roll, r) = groups(Roll { names: record.names, used: Set::empty() }, pieces(text, '>'));
    match r {
        Err(e) => (Record { names: roll.names, casts: record.casts }, Err(e)),
        Ok(gs) => (
            Record { names: roll.names, casts: record.casts.push(Cast { groups: gs, weight: w }) },
            Ok(()),
        ),
    }
}

/// One line: nothing if it is blank, a ballot of the weight before its colon,
/// or a ballot of the weight one if it has no colon.
pub open spec fn read_line(record: Record, line: Seq<char>) -> (Record, Result<(), Fault>) {
    let t = trimmed(line);
    let colon = first_at(t, ':');
    if t.len() == 0 {
        (record, Ok(()))
    } else if 0 <= colon < t.len() {
        let w = trimmed(t.take(colon));
        let rest = t.skip(colon + 1);
        if !is_weight(w) {
            (record, Err(Fault::BadWeight))
        } else if weight(w) <= 0real {
            (record, Err(Fault::NonPositiveWeight))
        } else if first_at(rest, ':') < rest.len() {
            (record, Err(Fault::Malformed))
        } else {
            ballot(record, rest, weight(w))
        }
    } else {
        ballot(record, t, 1real)
    }
}

/// The ballots as they were read.
pub open spec fn casts_of<W: Weight>(ballots: Seq<(Vec<Vec<usize>>, W)>) -> Seq<Cast> {
    Seq::new(
        ballots.len(),
        |b: int| Cast { groups: lists(ballots[b].0@), weight: ballots[b].1.value() },
    )
}

/// The characters of every text.
pub open spec fn spelled(texts: Seq<String>) -> Seq<Seq<char>> {
    Seq::new(texts.len(), |i: int| texts[i]@)
}

/// The lines from the first on, of which the first is line `at`: up to the
/// first line that is at fault, which is given with its number.
pub open spec fn read_lines(record: Record, lines: Seq<Seq<char>>, at: nat) -> (
    Record,
    Result<(), (nat, Fault)>,
)
    decreases lines.len(),
{
    if lines.len() == 0 {
        (record, Ok(()))
    } else {
        let (next, r) = read_line(record, lines[0]);
        match r {
            Err(e) => (next, Err((at, e))),
            Ok(_) => read_lines(next, lines.drop_first(), at + 1),
        }
    }
}

/// The result with the number of the line as a natural number and the error as
/// a `Fault`.
pub open spec fn numbered(r: Result<(), (usize, ParseError)>) -> Result<(), (nat, Fault)> {
    match r {
        Ok(_) => Ok(()),
        Err((n, e)) => Err((n as nat, e@)),
    }
}

/// A line that is no ballot: the name of its file, its number in the file from
/// one on, and what is wrong with it.
pub struct FileError {
    pub file: String,
    pub line: usize,
    pub error: ParseError,
}

/// A `FileError` with its texts as sequences of characters.
pub struct Located {
    pub file: Seq<char>,
    pub line: nat,
    pub fault: Fault,
}

impl View for FileError {
    type V = Located;

    open spec fn view(&self) -> Located {
        Located { file: self.file@, line: self.line as nat, fault: self.error@ }
    }
}

/// The files from the first on, each with its name and its lines: up to the
/// first line that is at fault.
pub open spec fn read_files(record: Record, files: Seq<(Seq<char>, Seq<Seq<char>>)>) -> (
    Record,
    Result<(), Located>,
)
    decreases files.len(),
{
    if files.len() == 0 {
        (record, Ok(()))
    } else {
        let (next, r) = read_lines(record, files[0].1, 0);
        match r {
            Err((n, e)) => (next, Err(Located { file: files[0].0, line: n + 1, fault: e })),
            Ok(_) => read_files(next, files.drop_first()),
        }
    }
}

/// The names and the lines of the files as sequences of characters.
pub open spec fn files_of(files: Seq<(String, Vec<String>)>) -> Seq<(Seq<char>, Seq<Seq<char>>)> {
    Seq::new(files.len(), |f: int| (files[f].0@, spelled(files[f].1@)))
}

/// The candidates and the ballots that were read.
pub struct BallotParser<W> {
    /// The names of the candidates, in the order in which they first appeared.
    pub candidates: Vec<String>,
    /// The ballots: the groups of each, the most preferred first, and its weight.
    pub ballots: Vec<(Vec<Vec<usize>>, W)>,
}

/// Ballots that may be tallied among `n` candidates may be tallied among more.
proof fn lemma_more_candidates<W: Weight>(ballots: Seq<(Vec<Vec<usize>>, W)>, n: nat, m: nat)
    requires
        ballots_ok(ballots, n),
        n <= m,
    ensures
        ballots_ok(ballots, m),
{
    assert forall|b: int| 0 <= b < ballots.len() implies listed_below(#[trigger] ballots[b].0@, m) by {
        assert(listed_below(ballots[b].0@, n));
    }
}

/// The number of the candidate of the name: the number of candidates if none
/// has the name.
fn lookup(candidates: &Vec<String>, name: &String) -> (n: usize)
    ensures
        n == place(spelled(candidates@), name@),
        n <= candidates@.len(),
        n < candidates@.len() ==> candidates@[n as int]@ == name@,
        n == candidates@.len() ==> forall|i: int|
            0 <= i < candidates@.len() ==> (#[trigger] candidates@[i])@ != name@,
{
    let mut n: usize = 0;
    while n < candidates.len() && candidates[n] != *name
        invariant
            n <= candidates@.len(),
            forall|i: int| 0 <= i < n ==> (#[trigger] candidates@[i])@ != name@,
        decreases candidates@.len() - n,
    {
        n += 1;
    }
    proof {
        lemma_place(spelled(candidates@), name@, n as int);
    }
    n
}

impl<W: Weight> BallotParser<W> {
    /// The names of the candidates.
    pub open spec fn names(&self) -> Seq<Seq<char>> {
        spelled(self.candidates@)
    }

    /// What the parser has read.
    pub open spec fn record(&self) -> Record {
        Record { names: self.names(), casts: casts_of(self.ballots@) }
    }

    /// No two candidates have one name, every ballot names candidates that
    /// there are and none of them twice, and every weight is above zero.
    pub open spec fn wf(&self) -> bool {
        &&& self.names().no_duplicates()
        &&& ballots_ok(self.ballots@, self.candidates@.len() as nat)
        &&& forall|b: int| 0 <= b < self.ballots@.len() ==> (#[trigger] self.ballots@[b]).1.value() > 0real
    }

    /// A parser that has read nothing.
    pub fn new() -> (r: Self)
        ensures
            r.candidates@.len() == 0,
            r.ballots@.len() == 0,
            r.wf(),
    {
        BallotParser { candidates: Vec::new(), ballots: Vec::new() }
    }

    /// Read one name of a ballot, which stands in the span of the line.
    fn parse_candidate(
        &mut self,
        line: &str,
        cs: &[char],
        span: Span,
        used: &mut HashSet<usize>,
    ) -> (r: Result<usize, ParseError>)
        requires
            line@ == cs@,
            span.within(cs@.len()),
        ensures
            final(self).ballots == old(self).ballots,
            (Roll { names: final(self).names(), used: final(used)@ }, outcome(r)) == candidate(
                Roll { names: old(self).names(), used: old(used)@ },
                span.of(cs@),
            ),
            old(self).names().no_duplicates() ==> final(self).names().no_duplicates(),
    {
        broadcast use group_hash_axioms;

        let inner = trim(cs, span);
        if inner.from == inner.to {
            return Err(ParseError::EmptyName);
        }
        let name = String::from_str(line.substring_char(inner.from, inner.to));
        let n = lookup(&self.candidates, &name);
        let ghost before = self.names();
        if n == self.candidates.len() {
            self.candidates.push(name.clone());
            assert(self.names() =~= before.push(name@));
            assert forall|i: int| 0 <= i < before.len() implies before[i] != name@ by {
                assert(old(self).candidates@[i]@ != name@);
            }
        }
        let ghost named = used@;
        if used.insert(n) {
            Ok(n)
        } else {
            assert(used@ =~= named);
            Err(ParseError::Repeated(name))
        }
    }

    /// Read one group of a ballot, which stands in the span of the line.
    fn parse_group(
        &mut self,
        line: &str,
        cs: &[char],
        span: Span,
        used: &mut HashSet<usize>,
    ) -> (r: Result<Vec<usize>, ParseError>)
        requires
            line@ == cs@,
            span.within(cs@.len()),
        ensures
            final(self).ballots == old(self).ballots,
            (Roll { names: final(self).names(), used: final(used)@ }, listed(r)) == group(
                Roll { names: old(self).names(), used: old(used)@ },
                pieces(span.of(cs@), '='),
            ),
            old(used)@.subset_of(final(used)@),
            old(self).candidates@.len() <= final(self).candidates@.len(),
            old(self).names().no_duplicates() ==> final(self).names().no_duplicates(),
            r matches Ok(v) ==> forall|j: int|
                0 <= j < v@.len() ==> (#[trigger] v@[j]) < final(self).candidates@.len() && final(used)@.contains(v@[j]) && !old(used)@.contains(v@[j]),
    {
        let spans = split(cs, span, '=');
        let ghost all = texts(cs@, spans@);
        let ghost first = Roll { names: self.names(), used: used@ };
        let mut v: Vec<usize> = Vec::new();
        let mut k: usize = 0;
        proof {
            assert(all.skip(0) =~= all);
            assert(Seq::<usize>::empty() + Seq::<usize>::empty() =~= Seq::<usize>::empty());
            assert(v@ =~= Seq::<usize>::empty());
            lemma_after_nothing(group(first, all));
        }
        while k < spans.len()
            invariant
                k <= spans@.len(),
                line@ == cs@,
                all == texts(cs@, spans@),
                forall|i: int| 0 <= i < spans@.len() ==> (#[trigger] spans@[i]).within(cs@.len()),
                self.ballots == old(self).ballots,
                group(first, all) == after(
                    v@,
                    group(Roll { names: self.names(), used: used@ }, all.skip(k as int)),
                ),
                first.used.subset_of(used@),
                first.used == old(used)@,
                first.names == old(self).names(),
                all == pieces(span.of(cs@), '='),
                old(self).candidates@.len() <= self.candidates@.len(),
                old(self).names().no_duplicates() ==> self.names().no_duplicates(),
                forall|j: int|
                    0 <= j < v@.len() ==> (#[trigger] v@[j]) < self.candidates@.len()
                        && used@.contains(v@[j]) && !first.used.contains(v@[j]),
            decreases spans@.len() - k,
        {
            let ghost here = Roll { names: self.names(), used: used@ };
            let ghost rest = all.skip(k as int);
            let ghost done = v@;
            proof {
                assert(rest[0] == spans@[k as int].of(cs@));
                assert(rest.drop_first() =~= all.skip(k + 1));
                lemma_place_bound(here.names, trimmed(rest[0]));
            }
            match self.parse_candidate(line, cs, spans[k], used) {
                Err(e) => {
                    proof {
                        let next = Roll { names: self.names(), used: used@ };
                        assert(candidate(here, rest[0]) == (next, Err::<usize, Fault>(e@)));
                        assert(group(here, rest) == (next, Err::<Seq<usize>, Fault>(e@)));
                        assert(self.names().len() >= here.names.len());
                    }
                    return Err(e);
                },
                Ok(c) => {
                    v.push(c);
                    proof {
                        let next = Roll { names: self.names(), used: used@ };
                        let tail = group(next, all.skip(k + 1));
                        if let Ok(cs1) = tail.1 {
                            assert(done + (seq![c] + cs1) =~= v@ + cs1);
                        }
                    }
                },
            }
            k += 1;
        }
        proof {
            assert(v@ + Seq::<usize>::empty() =~= v@);
        }
        Ok(v)
    }

    /// Read the groups of a ballot, which stand in the span of the line.
    fn parse_groups(
        &mut self,
        line: &str,
        cs: &[char],
        span: Span,
        used: &mut HashSet<usize>,
    ) -> (r: Result<Vec<Vec<usize>>, ParseError>)
        requires
            line@ == cs@,
            span.within(cs@.len()),
        ensures
            final(self).ballots == old(self).ballots,
            (Roll { names: final(self).names(), used: final(used)@ }, ranked(r)) == groups(
                Roll { names: old(self).names(), used: old(used)@ },
                pieces(span.of(cs@), '>'),
            ),
            old(self).candidates@.len() <= final(self).candidates@.len(),
            old(self).names().no_duplicates() ==> final(self).names().no_duplicates(),
            r matches Ok(v) ==> listed_below(v@, final(self).candidates@.len() as nat)
                && listed_once(v@),
    {
        let spans = split(cs, span, '>');
        let ghost all = texts(cs@, spans@);
        let ghost first = Roll { names: self.names(), used: used@ };
        let mut v: Vec<Vec<usize>> = Vec::new();
        let mut k: usize = 0;
        proof {
            assert(all.skip(0) =~= all);
            assert(lists(v@) =~= Seq::<Seq<usize>>::empty());
            lemma_after_nothing(groups(first, all));
        }
        while k < spans.len()
            invariant
                k <= spans@.len(),
                line@ == cs@,
                all == texts(cs@, spans@),
                all == pieces(span.of(cs@), '>'),
                first.names == old(self).names(),
                first.used == old(used)@,
                forall|i: int| 0 <= i < spans@.len() ==> (#[trigger] spans@[i]).within(cs@.len()),
                self.ballots == old(self).ballots,
                groups(first, all) == after(
                    lists(v@),
                    groups(Roll { names: self.names(), used: used@ }, all.skip(k as int)),
                ),
                old(self).candidates@.len() <= self.candidates@.len(),
                old(self).names().no_duplicates() ==> self.names().no_duplicates(),
                listed_below(v@, self.candidates@.len() as nat),
                listed_once(v@),
                forall|g: int, j: int|
                    0 <= g < v@.len() && 0 <= j < v@[g]@.len() ==> used@.contains(
                        #[trigger] v@[g]@[j],
                    ),
            decreases spans@.len() - k,
        {
            let ghost here = Roll { names: self.names(), used: used@ };
            let ghost rest = all.skip(k as int);
            let ghost done = v@;
            proof {
                assert(rest[0] == spans@[k as int].of(cs@));
                assert(rest.drop_first() =~= all.skip(k + 1));
            }
            match self.parse_group(line, cs, spans[k], used) {
                Err(e) => {
                    proof {
                        let next = Roll { names: self.names(), used: used@ };
                        assert(groups(here, rest) == (next, Err::<Seq<Seq<usize>>, Fault>(e@)));
                    }
                    return Err(e);
                },
                Ok(g) => {
                    let ghost members = g@;
                    v.push(g);
                    proof {
                        let next = Roll { names: self.names(), used: used@ };
                        let tail = groups(next, all.skip(k + 1));
                        assert(lists(v@) =~= lists(done).push(members));
                        if let Ok(gs) = tail.1 {
                            assert(lists(done) + (seq![members] + gs) =~= lists(v@) + gs);
                        }
                        assert forall|a: int, b: int, c: usize|
                            0 <= a < b < v@.len() && #[trigger] v@[a]@.contains(c) implies !#[trigger] v@[b]@.contains(
                            c,
                        ) by {
                            if b < done.len() {
                                assert(done[a]@.contains(c));
                                assert(!done[b]@.contains(c));
                            } else {
                                let j = choose|j: int| 0 <= j < done[a]@.len() && done[a]@[j] == c;
                                assert(here.used.contains(done[a]@[j]));
                                if members.contains(c) {
                                    let i = choose|i: int| 0 <= i < members.len() && members[i] == c;
                                    assert(!here.used.contains(members[i]));
                                }
                            }
                        }
                        assert forall|a: int, j: int|
                            0 <= a < v@.len() && 0 <= j < v@[a]@.len() implies used@.contains(
                            #[trigger] v@[a]@[j],
                        ) && v@[a]@[j] < self.candidates@.len() by {
                            if a < done.len() {
                                assert(here.used.contains(done[a]@[j]));
                                assert(done[a]@[j] < here.names.len());
                            } else {
                                assert(used@.contains(members[j]));
                            }
                        }
                    }
                },
            }
            k += 1;
        }
        proof {
            assert(lists(v@) + Seq::<Seq<usize>>::empty() =~= lists(v@));
        }
        Ok(v)
    }

    /// Read one line.  A blank line changes nothing.  A line that is at fault
    /// adds no ballot; the new names that stand before the fault stay known.
    pub fn add_ballot(&mut self, line: &str) -> (r: Result<(), ParseError>)
        ensures
            (final(self).record(), outcome(r)) == read_line(old(self).record(), line@),
            old(self).wf() ==> final(self).wf(),
    {
        broadcast use group_hash_axioms;

        let chars = chars_of(line);
        let cs = chars.as_slice();
        let whole = trim(cs, Span { from: 0, to: cs.len() });
        let ghost t = trimmed(line@);
        proof {
            assert(cs@.subrange(0, cs@.len() as int) =~= line@);
        }
        if whole.from == whole.to {
            return Ok(());
        }
        let colon = find(cs, whole, ':');
        let mut w = W::one();
        let mut rest = whole;
        if colon < whole.to {
            let before = trim(cs, Span { from: whole.from, to: colon });
            proof {
                assert(t.take(colon - whole.from) =~= cs@.subrange(whole.from as int, colon as int));
                assert(t.skip(colon - whole.from + 1) =~= cs@.subrange(colon + 1, whole.to as int));
            }
            match read_weight::<W>(cs, before) {
                None => {
                    return Err(ParseError::BadWeight);
                },
                Some(given) => {
                    if !W::zero().less_than(&given) {
                        return Err(ParseError::NonPositiveWeight);
                    }
                    rest = Span { from: colon + 1, to: whole.to };
                    if find(cs, rest, ':') < rest.to {
                        return Err(ParseError::Malformed);
                    }
                    w = given;
                },
            }
        }
        let mut used: HashSet<usize> = HashSet::new();
        let ghost old_casts = casts_of(self.ballots@);
        let ghost old_ballots = self.ballots@;
        match self.parse_groups(line, cs, rest, &mut used) {
            Err(e) => {
                proof {
                    if old(self).wf() {
                        lemma_more_candidates(
                            self.ballots@,
                            old(self).candidates@.len() as nat,
                            self.candidates@.len() as nat,
                        );
                    }
                }
                Err(e)
            },
            Ok(groups) => {
                let ghost gs = groups@;
                let ghost value = w.value();
                self.ballots.push((groups, w));
                proof {
                    assert(casts_of(self.ballots@) =~= old_casts.push(
                        Cast { groups: lists(gs), weight: value },
                    ));
                    if old(self).wf() {
                        lemma_more_candidates(
                            old_ballots,
                            old(self).candidates@.len() as nat,
                            self.candidates@.len() as nat,
                        );
                        assert forall|b: int| 0 <= b < self.ballots@.len() implies listed_below(
                            #[trigger] self.ballots@[b].0@,
                            self.candidates@.len() as nat,
                        ) && listed_once(self.ballots@[b].0@) && self.ballots@[b].1.value() > 0real by {
                            if b < old_ballots.len() {
                                assert(self.ballots@[b] == old_ballots[b]);
                            }
                        }
                    }
                }
                Ok(())
            },
        }
    }

    /// Read the lines, the first of which has the number zero, up to the
    /// first that is at fault.
    pub fn add_ballots(&mut self, lines: &[String]) -> (r: Result<(), (usize, ParseError)>)
        ensures
            (final(self).record(), numbered(r)) == read_lines(
                old(self).record(),
                spelled(lines@),
                0,
            ),
            old(self).wf() ==> final(self).wf(),
            r matches Err(e) ==> e.0 < lines@.len(),
    {
        let ghost all = spelled(lines@);
        let mut k: usize = 0;
        proof {
            assert(all.skip(0) =~= all);
        }
        while k < lines.len()
            invariant
                k <= lines@.len(),
                all == spelled(lines@),
                read_lines(old(self).record(), all, 0) == read_lines(
                    self.record(),
                    all.skip(k as int),
                    k as nat,
                ),
                old(self).wf() ==> self.wf(),
            decreases lines@.len() - k,
        {
            proof {
                assert(all.skip(k as int)[0] == lines@[k as int]@);
                assert(all.skip(k as int).drop_first() =~= all.skip(k + 1));
            }
            match self.add_ballot(lines[k].as_str()) {
                Err(e) => {
                    return Err((k, e));
                },
                Ok(_) => {},
            }
            k += 1;
        }
        Ok(())
    }
}

/// Read the files in their order, each given by its name and its lines, up
/// to the first line that is at fault.
pub fn parse_ballot_files<W: Weight>(files: &[(String, Vec<String>)]) -> (r: Result<
    BallotParser<W>,
    FileError,
>)
    ensures
        match r {
            Ok(bp) => read_files(
                Record { names: Seq::empty(), casts: Seq::empty() },
                files_of(files@),
            ) == (bp.record(), Ok::<(), Located>(())) && bp.wf(),
            Err(e) => read_files(
                Record { names: Seq::empty(), casts: Seq::empty() },
                files_of(files@),
            ).1 == Err::<(), Located>(e@),
        },
{
    let mut bp: BallotParser<W> = BallotParser::new();
    let ghost all = files_of(files@);
    let ghost first = bp.record();
    let mut f: usize = 0;
    proof {
        assert(all.skip(0) =~= all);
        assert(first.names =~= Seq::empty());
        assert(first.casts =~= Seq::empty());
    }
    while f < files.len()
        invariant
            f <= files@.len(),
            all == files_of(files@),
            first == (Record { names: Seq::empty(), casts: Seq::empty() }),
            read_files(first, all) == read_files(bp.record(), all.skip(f as int)),
            bp.wf(),
        decreases files@.len() - f,
    {
        proof {
            assert(all.skip(f as int)[0] == (files@[f as int].0@, spelled(files@[f as int].1@)));
            assert(all.skip(f as int).drop_first() =~= all.skip(f + 1));
        }
        match bp.add_ballots(files[f].1.as_slice()) {
            Err((n, e)) => {
                proof {
                    vstd::std_specs::vec::axiom_spec_len(&files@[f as int].1);
                }
                return Err(FileError { file: files[f].0.clone(), line: n + 1, error: e });
            },
            Ok(_) => {},
        }
        f += 1;
    }
    Ok(bp)
}

} // verus!
