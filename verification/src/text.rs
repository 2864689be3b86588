//! Splitting byte strings at delimiters.

use vstd::prelude::*;

verus! {

/// The classes of delimiter bytes that the hosts grammar knows.
#[derive(Clone, Copy, Debug, PartialEq, Eq, Structural)]
pub enum Delim {
    /// Line feed, which ends a line.
    Newline,
    /// `#`, which starts a comment.
    Hash,
    /// Space, tab or carriage return, which separate the words of a line.
    Blank,
    /// `.`, between the groups of an IPv4 address.
    Dot,
    /// `:`, between the groups of an IPv6 address.
    Colon,
    /// `%`, before the zone of an IPv6 address.
    Percent,
}

impl Delim {
    /// Whether the byte `c` is a delimiter of this class.
    pub open spec fn hits(self, c: u8) -> bool {
        match self {
            Delim::Newline => c == 0x0a,
            Delim::Hash => c == 0x23,
            Delim::Blank => c == 0x20 || c == 0x09 || c == 0x0d,
            Delim::Dot => c == 0x2e,
            Delim::Colon => c == 0x3a,
            Delim::Percent => c == 0x25,
        }
    }

    /// Tests a byte against the class.
    pub fn matches(self, c: u8) -> (r: bool)
        ensures
            r == self.hits(c),
    {
        match self {
            Delim::Newline => c == 0x0a,
            Delim::Hash => c == 0x23,
            Delim::Blank => c == 0x20 || c == 0x09 || c == 0x0d,
            Delim::Dot => c == 0x2e,
            Delim::Colon => c == 0x3a,
            Delim::Percent => c == 0x25,
        }
    }
}

/// The pieces of `s` between delimiters of class `d`, in order. A string with
/// `n` delimiters has `n + 1` pieces, some of which may be empty.
pub open spec fn split_on(s: Seq<u8>, d: Delim) -> Seq<Seq<u8>>
    decreases s.len(),
{
    if s.len() == 0 {
        seq![Seq::<u8>::empty()]
    } else {
        let before = split_on(s.drop_last(), d);
        if d.hits(s.last()) {
            before.push(Seq::<u8>::empty())
        } else {
            before.drop_last().push(before.last().push(s.last()))
        }
    }
}

/// The byte strings that the vectors of `v` hold.
pub open spec fn views(v: Seq<Vec<u8>>) -> Seq<Seq<u8>> {
    Seq::new(v.len(), |i: int| v[i]@)
}

/// A half-open range of positions in a byte string.
#[derive(Clone, Copy, Debug, PartialEq, Eq, Structural)]
pub struct Span {
    pub start: usize,
    pub end: usize,
}

impl Span {
    /// The bytes of `s` that the span covers.
    pub open spec fn of(self, s: Seq<u8>) -> Seq<u8> {
        s.subrange(self.start as int, self.end as int)
    }

    /// Whether the span lies inside a string of length `len`.
    pub open spec fn fits(self, len: int) -> bool {
        self.start <= self.end <= len
    }
}

/// Whether `spans` marks exactly the pieces `pieces` of `s`.
pub open spec fn spans_mark(spans: Seq<Span>, s: Seq<u8>, pieces: Seq<Seq<u8>>) -> bool {
    &&& spans.len() == pieces.len()
    &&& forall|k: int|
        0 <= k < spans.len() ==> (#[trigger] spans[k]).fits(s.len() as int) && spans[k].of(s)
            == pieces[k]
}

/// There is always at least one piece.
pub proof fn lemma_split_len(s: Seq<u8>, d: Delim)
    ensures
        1 <= split_on(s, d).len() <= s.len() + 1,
    decreases s.len(),
{
    if s.len() > 0 {
        lemma_split_len(s.drop_last(), d);
    }
}

/// How the pieces change when one byte is added at the end.
pub proof fn lemma_split_push(s: Seq<u8>, c: u8, d: Delim)
    ensures
        d.hits(c) ==> split_on(s.push(c), d) == split_on(s, d).push(Seq::<u8>::empty()),
        !d.hits(c) ==> split_on(s.push(c), d) == split_on(s, d).drop_last().push(
            split_on(s, d).last().push(c),
        ),
{
    assert(s.push(c).drop_last() =~= s);
    assert(s.push(c).last() == c);
}

/// A string without delimiters is its own single piece.
pub proof fn lemma_split_clean(s: Seq<u8>, d: Delim)
    requires
        forall|j: int| 0 <= j < s.len() ==> !d.hits(#[trigger] s[j]),
    ensures
        split_on(s, d) == seq![s],
    decreases s.len(),
{
    if s.len() == 0 {
        assert(s =~= Seq::<u8>::empty());
    } else {
        lemma_split_clean(s.drop_last(), d);
        assert(split_on(s, d) =~= seq![s]) by {
            assert(s.drop_last().push(s.last()) =~= s);
        }
    }
}

/// Splitting a concatenation: the last piece of the left part and the first
/// piece of the right part grow together, the others stay as they are.
pub proof fn lemma_split_concat(a: Seq<u8>, b: Seq<u8>, d: Delim)
    ensures
        split_on(a + b, d) == split_on(a, d).drop_last().push(
            split_on(a, d).last() + split_on(b, d)[0],
        ) + split_on(b, d).skip(1),
    decreases b.len(),
{
    let pa = split_on(a, d);
    let pb = split_on(b, d);
    lemma_split_len(a, d);
    lemma_split_len(b, d);
    if b.len() == 0 {
        assert(a + b =~= a);
        assert(pa.last() + pb[0] =~= pa.last());
        assert(pa.drop_last().push(pa.last()) + pb.skip(1) =~= pa);
    } else {
        let b0 = b.drop_last();
        let c = b.last();
        let pb0 = split_on(b0, d);
        lemma_split_concat(a, b0, d);
        lemma_split_len(b0, d);
        assert((a + b0).push(c) =~= a + b);
        lemma_split_push(a + b0, c, d);
        lemma_split_push(b0, c, d);
        assert(b0.push(c) =~= b);
        let joined = pa.drop_last().push(pa.last() + pb0[0]) + pb0.skip(1);
        if d.hits(c) {
            assert(joined.push(Seq::<u8>::empty()) =~= pa.drop_last().push(pa.last() + pb[0])
                + pb.skip(1));
        } else if pb0.len() == 1 {
            assert((pa.last() + pb0[0]).push(c) =~= pa.last() + pb[0]);
            assert(joined.drop_last().push(joined.last().push(c)) =~= pa.drop_last().push(
                pa.last() + pb[0],
            ) + pb.skip(1));
        } else {
            assert(joined.drop_last().push(joined.last().push(c)) =~= pa.drop_last().push(
                pa.last() + pb[0],
            ) + pb.skip(1));
        }
    }
}

/// Finds the pieces of `s` between delimiters of class `d`.
pub fn split_spans(s: &[u8], d: Delim) -> (spans: Vec<Span>)
    ensures
        spans_mark(spans@, s@, split_on(s@, d)),
        forall|k: int| 0 <= k < spans@.len() ==> (#[trigger] spans@[k]).start >= k,
{
    let n: usize = s.len();
    let mut spans: Vec<Span> = Vec::new();
    let mut start: usize = 0;
    let mut i: usize = 0;
    assert(s@.take(0) =~= Seq::<u8>::empty());
    while i < n
        invariant
            n == s@.len(),
            start <= i <= n,
            spans@.len() + 1 == split_on(s@.take(i as int), d).len(),
            forall|k: int|
                0 <= k < spans@.len() ==> (#[trigger] spans@[k]).fits(n as int) && spans@[k].of(s@)
                    == split_on(s@.take(i as int), d)[k],
            s@.subrange(start as int, i as int) == split_on(s@.take(i as int), d).last(),
            forall|k: int| 0 <= k < spans@.len() ==> (#[trigger] spans@[k]).start >= k,
            start >= spans@.len(),
        decreases n - i,
    {
        let c: u8 = s[i];
        proof {
            lemma_split_push(s@.take(i as int), c, d);
            assert(s@.take(i as int).push(c) =~= s@.take(i + 1));
        }
        if d.matches(c) {
            spans.push(Span { start, end: i });
            start = i + 1;
            assert(s@.subrange(start as int, i + 1) =~= Seq::<u8>::empty());
        } else {
            assert(s@.subrange(start as int, i + 1) =~= s@.subrange(start as int, i as int).push(
                c,
            ));
        }
        i = i + 1;
    }
    assert(s@.take(n as int) =~= s@);
    spans.push(Span { start, end: n });
    spans
}

} // verus!
