//! The syntax of one line of a hosts file.
//!
//! A line is cut at the first `#`; what stands before it is a sequence of
//! words separated by blanks. A line without words is blank. Any other line
//! must be a statement: an IP address followed by one or more host names.

use crate::text::{lemma_split_len, spans_mark, split_on, split_spans, views, Delim, Span};
use vstd::prelude::*;
use vstd::slice::slice_subrange;
use vstd::slice::slice_to_vec;

verus! {

/// Classes of bytes that words are made of.
#[derive(Clone, Copy, Debug, PartialEq, Eq, Structural)]
pub enum ByteClass {
    /// `0` to `9`.
    Digit,
    /// `0` to `9`, `a` to `f`, `A` to `F`.
    Hex,
    /// ASCII letters and digits, `-`, `.` and `_`.
    Name,
}

impl ByteClass {
    /// Whether the byte `c` belongs to the class.
    pub open spec fn holds(self, c: u8) -> bool {
        match self {
            ByteClass::Digit => 0x30 <= c <= 0x39,
            ByteClass::Hex => 0x30 <= c <= 0x39 || 0x61 <= c <= 0x66 || 0x41 <= c <= 0x46,
            ByteClass::Name => 0x30 <= c <= 0x39 || 0x61 <= c <= 0x7a || 0x41 <= c <= 0x5a || c
                == 0x2d || c == 0x2e || c == 0x5f,
        }
    }

    /// Tests a byte against the class.
    pub fn admits(self, c: u8) -> (r: bool)
        ensures
            r == self.holds(c),
    {
        match self {
            ByteClass::Digit => 0x30 <= c && c <= 0x39,
            ByteClass::Hex => (0x30 <= c && c <= 0x39) || (0x61 <= c && c <= 0x66) || (0x41 <= c
                && c <= 0x46),
            ByteClass::Name => (0x30 <= c && c <= 0x39) || (0x61 <= c && c <= 0x7a) || (0x41 <= c
                && c <= 0x5a) || c == 0x2d || c == 0x2e || c == 0x5f,
        }
    }
}

/// Every byte of `s` belongs to `class`.
pub open spec fn all_in(s: Seq<u8>, class: ByteClass) -> bool {
    forall|i: int| 0 <= i < s.len() ==> class.holds(#[trigger] s[i])
}

/// A decimal group of an IPv4 address: one to three digits.
pub open spec fn valid_dec_group(g: Seq<u8>) -> bool {
    1 <= g.len() <= 3 && all_in(g, ByteClass::Digit)
}

/// A group of an IPv6 address: at most four hex digits, possibly none.
pub open spec fn valid_hex_group(g: Seq<u8>) -> bool {
    g.len() <= 4 && all_in(g, ByteClass::Hex)
}

/// Four decimal groups separated by dots. The groups' values are not checked.
pub open spec fn valid_ipv4(t: Seq<u8>) -> bool {
    let groups = split_on(t, Delim::Dot);
    groups.len() == 4 && forall|i: int| 0 <= i < 4 ==> valid_dec_group(#[trigger] groups[i])
}

/// Three to nine groups separated by colons; the last may be an IPv4 address.
pub open spec fn valid_ipv6_groups(a: Seq<u8>) -> bool {
    let groups = split_on(a, Delim::Colon);
    &&& 3 <= groups.len() <= 9
    &&& forall|i: int| 0 <= i < groups.len() - 1 ==> valid_hex_group(#[trigger] groups[i])
    &&& (valid_hex_group(groups.last()) || valid_ipv4(groups.last()))
}

/// The zone of a scoped IPv6 address, as in `fe80::1%lo0`.
pub open spec fn valid_zone(z: Seq<u8>) -> bool {
    z.len() > 0 && all_in(z, ByteClass::Name)
}

/// Colon-separated groups, optionally followed by `%` and a zone.
pub open spec fn valid_ipv6(t: Seq<u8>) -> bool {
    let parts = split_on(t, Delim::Percent);
    &&& 1 <= parts.len() <= 2
    &&& valid_ipv6_groups(parts[0])
    &&& parts.len() == 2 ==> valid_zone(parts[1])
}

/// The syntax of the first word of a statement.
pub open spec fn valid_ip(t: Seq<u8>) -> bool {
    valid_ipv4(t) || valid_ipv6(t)
}

/// The syntax of the other words of a statement.
pub open spec fn valid_host_name(t: Seq<u8>) -> bool {
    t.len() > 0 && all_in(t, ByteClass::Name)
}

/// The pieces of `pieces` that are not empty, in order.
pub open spec fn drop_empty(pieces: Seq<Seq<u8>>) -> Seq<Seq<u8>>
    decreases pieces.len(),
{
    if pieces.len() == 0 {
        Seq::empty()
    } else if pieces.last().len() > 0 {
        drop_empty(pieces.drop_last()).push(pieces.last())
    } else {
        drop_empty(pieces.drop_last())
    }
}

/// The part of a line before its comment.
pub open spec fn code_part(line: Seq<u8>) -> Seq<u8> {
    split_on(line, Delim::Hash)[0]
}

/// The words of `s`: its maximal runs of bytes that are not blanks.
pub open spec fn words(s: Seq<u8>) -> Seq<Seq<u8>> {
    drop_empty(split_on(s, Delim::Blank))
}

/// The position of the first word after the address that is no host name, or
/// the number of words if there is none.
pub open spec fn first_bad_name(w: Seq<Seq<u8>>) -> int
    decreases w.len(),
{
    if w.len() <= 1 {
        w.len() as int
    } else {
        let before = first_bad_name(w.drop_last());
        if before < w.len() - 1 {
            before
        } else if valid_host_name(w.last()) {
            w.len() as int
        } else {
            w.len() - 1
        }
    }
}

/// What is wrong with a malformed line.
#[derive(Clone, Copy, Debug, PartialEq, Eq, Structural)]
pub enum Fault {
    /// The first word is not an IP address.
    InvalidAddress,
    /// The address is not followed by a host name.
    MissingHostName,
    /// A word after the address is not a host name.
    InvalidHostName,
}

/// What a line of a hosts file says.
pub enum LineForm {
    /// Nothing: the line is empty, blank or a comment.
    Blank,
    /// The host names `names` belong to the address `ip`.
    Statement { ip: Seq<u8>, names: Seq<Seq<u8>> },
    /// The line breaks the grammar at its word number `token`, counted from 0.
    Malformed { token: int, fault: Fault },
}

/// The form of a line given as its words.
pub open spec fn words_form(w: Seq<Seq<u8>>) -> LineForm {
    if w.len() == 0 {
        LineForm::Blank
    } else if !valid_ip(w[0]) {
        LineForm::Malformed { token: 0, fault: Fault::InvalidAddress }
    } else if w.len() == 1 {
        LineForm::Malformed { token: 1, fault: Fault::MissingHostName }
    } else if first_bad_name(w) < w.len() {
        LineForm::Malformed { token: first_bad_name(w), fault: Fault::InvalidHostName }
    } else {
        LineForm::Statement { ip: w[0], names: w.skip(1) }
    }
}

/// The form of a line of text (without its line feed).
pub open spec fn line_form(line: Seq<u8>) -> LineForm {
    words_form(words(code_part(line)))
}

/// `first_bad_name` is the least position after 0 of a word that is no host
/// name.
pub proof fn lemma_first_bad_name(w: Seq<Seq<u8>>)
    ensures
        w.len() <= 1 ==> first_bad_name(w) == w.len(),
        w.len() >= 1 ==> 1 <= first_bad_name(w) <= w.len(),
        forall|k: int| 1 <= k < first_bad_name(w) ==> valid_host_name(#[trigger] w[k]),
        first_bad_name(w) < w.len() ==> !valid_host_name(w[first_bad_name(w)]),
    decreases w.len(),
{
    if w.len() > 1 {
        let init = w.drop_last();
        lemma_first_bad_name(init);
        assert forall|k: int| 1 <= k < first_bad_name(w) implies valid_host_name(
            #[trigger] w[k],
        ) by {
            if k < w.len() - 1 {
                assert(init[k] == w[k]);
            }
        }
    }
}

/// Tests whether every byte of `s` belongs to `class`.
pub fn all_bytes_in(s: &[u8], class: ByteClass) -> (r: bool)
    ensures
        r == all_in(s@, class),
{
    let n: usize = s.len();
    let mut i: usize = 0;
    while i < n
        invariant
            n == s@.len(),
            i <= n,
            forall|j: int| 0 <= j < i ==> class.holds(#[trigger] s@[j]),
        decreases n - i,
    {
        if !class.admits(s[i]) {
            return false;
        }
        i = i + 1;
    }
    true
}

/// Tests the syntax of an IPv4 address.
pub fn is_ipv4(t: &[u8]) -> (r: bool)
    ensures
        r == valid_ipv4(t@),
{
    let groups = split_spans(t, Delim::Dot);
    if groups.len() != 4 {
        return false;
    }
    let mut k: usize = 0;
    while k < 4
        invariant
            k <= 4,
            groups@.len() == 4,
            spans_mark(groups@, t@, split_on(t@, Delim::Dot)),
            forall|j: int| 0 <= j < k ==> valid_dec_group(#[trigger] split_on(t@, Delim::Dot)[j]),
        decreases 4 - k,
    {
        let span: Span = groups[k];
        let g = slice_subrange(t, span.start, span.end);
        if g.len() < 1 || g.len() > 3 || !all_bytes_in(g, ByteClass::Digit) {
            return false;
        }
        k = k + 1;
    }
    true
}

/// Tests the colon-separated part of an IPv6 address.
pub fn is_ipv6_groups(a: &[u8]) -> (r: bool)
    ensures
        r == valid_ipv6_groups(a@),
{
    let groups = split_spans(a, Delim::Colon);
    let n: usize = groups.len();
    if n < 3 || n > 9 {
        return false;
    }
    let mut k: usize = 0;
    while k < n - 1
        invariant
            3 <= n <= 9,
            k <= n - 1,
            groups@.len() == n,
            spans_mark(groups@, a@, split_on(a@, Delim::Colon)),
            forall|j: int|
                0 <= j < k ==> valid_hex_group(#[trigger] split_on(a@, Delim::Colon)[j]),
        decreases n - k,
    {
        let span: Span = groups[k];
        let g = slice_subrange(a, span.start, span.end);
        if g.len() > 4 || !all_bytes_in(g, ByteClass::Hex) {
            return false;
        }
        k = k + 1;
    }
    let span: Span = groups[n - 1];
    let last = slice_subrange(a, span.start, span.end);
    (last.len() <= 4 && all_bytes_in(last, ByteClass::Hex)) || is_ipv4(last)
}

/// Tests the syntax of an IPv6 address.
pub fn is_ipv6(t: &[u8]) -> (r: bool)
    ensures
        r == valid_ipv6(t@),
{
    let parts = split_spans(t, Delim::Percent);
    proof {
        lemma_split_len(t@, Delim::Percent);
    }
    if parts.len() > 2 {
        return false;
    }
    let head: Span = parts[0];
    if !is_ipv6_groups(slice_subrange(t, head.start, head.end)) {
        return false;
    }
    if parts.len() == 2 {
        let tail: Span = parts[1];
        let zone = slice_subrange(t, tail.start, tail.end);
        zone.len() > 0 && all_bytes_in(zone, ByteClass::Name)
    } else {
        true
    }
}

/// Tests the syntax of an IP address.
pub fn is_ip(t: &[u8]) -> (r: bool)
    ensures
        r == valid_ip(t@),
{
    is_ipv4(t) || is_ipv6(t)
}

/// Tests the syntax of a host name.
pub fn is_host_name(t: &[u8]) -> (r: bool)
    ensures
        r == valid_host_name(t@),
{
    t.len() > 0 && all_bytes_in(t, ByteClass::Name)
}

/// Finds the words of `s`.
pub fn word_spans(s: &[u8]) -> (found: Vec<Span>)
    ensures
        spans_mark(found@, s@, words(s@)),
{
    let pieces = split_spans(s, Delim::Blank);
    let n: usize = pieces.len();
    let ghost all = split_on(s@, Delim::Blank);
    let mut found: Vec<Span> = Vec::new();
    let mut k: usize = 0;
    assert(all.take(0) =~= Seq::<Seq<u8>>::empty());
    while k < n
        invariant
            k <= n,
            n == pieces@.len(),
            all == split_on(s@, Delim::Blank),
            spans_mark(pieces@, s@, all),
            spans_mark(found@, s@, drop_empty(all.take(k as int))),
        decreases n - k,
    {
        let span: Span = pieces[k];
        proof {
            assert(all.take(k + 1).drop_last() =~= all.take(k as int));
            assert(all.take(k + 1).last() == all[k as int]);
        }
        if span.end > span.start {
            found.push(span);
        }
        k = k + 1;
    }
    assert(all.take(n as int) =~= all);
    found
}

/// A line of a hosts file, read.
#[derive(Debug, PartialEq, Eq)]
pub enum Line {
    /// The line is empty, blank or a comment.
    Blank,
    /// The host names `names` belong to the address `ip`.
    Statement { ip: Vec<u8>, names: Vec<Vec<u8>> },
    /// The line breaks the grammar at its word number `token`, counted from 0.
    Malformed { token: usize, fault: Fault },
}

impl View for Line {
    type V = LineForm;

    open spec fn view(&self) -> LineForm {
        match self {
            Line::Blank => LineForm::Blank,
            Line::Statement { ip, names } => LineForm::Statement {
                ip: ip@,
                names: views(names@),
            },
            Line::Malformed { token, fault } => LineForm::Malformed {
                token: *token as int,
                fault: *fault,
            },
        }
    }
}

/// Reads one line of a hosts file, given without its line feed.
pub fn read_line(line: &[u8]) -> (r: Line)
    ensures
        r@ == line_form(line@),
{
    let parts = split_spans(line, Delim::Hash);
    proof {
        lemma_split_len(line@, Delim::Hash);
    }
    let head: Span = parts[0];
    let code = slice_subrange(line, head.start, head.end);
    let found = word_spans(code);
    let ghost w = words(code@);
    let n: usize = found.len();
    if n == 0 {
        return Line::Blank;
    }
    let first: Span = found[0];
    let ip = slice_subrange(code, first.start, first.end);
    if !is_ip(ip) {
        return Line::Malformed { token: 0, fault: Fault::InvalidAddress };
    }
    if n == 1 {
        return Line::Malformed { token: 1, fault: Fault::MissingHostName };
    }
    let mut names: Vec<Vec<u8>> = Vec::new();
    let mut k: usize = 1;
    proof {
        lemma_first_bad_name(w.take(1));
        assert(views(names@) =~= w.subrange(1, 1));
    }
    while k < n
        invariant
            1 <= k <= n,
            n == found@.len(),
            w == words(code@),
            code@ == code_part(line@),
            valid_ip(w[0]),
            spans_mark(found@, code@, w),
            first_bad_name(w.take(k as int)) == k,
            views(names@) == w.subrange(1, k as int),
        decreases n - k,
    {
        let span: Span = found[k];
        let name = slice_subrange(code, span.start, span.end);
        proof {
            assert(w.take(k + 1).drop_last() =~= w.take(k as int));
            assert(w.take(k + 1).last() == w[k as int]);
        }
        assert(name@ == w[k as int]);
        if !is_host_name(name) {
            proof {
                assert(first_bad_name(w.take(k + 1)) == k);
                lemma_first_bad_stays(w, k + 1);
            }
            return Line::Malformed { token: k, fault: Fault::InvalidHostName };
        }
        let ghost before = views(names@);
        names.push(slice_to_vec(name));
        assert(views(names@) =~= before.push(w[k as int]));
        assert(w.subrange(1, k + 1) =~= w.subrange(1, k as int).push(w[k as int]));
        k = k + 1;
    }
    assert(w.take(n as int) =~= w);
    assert(w.subrange(1, n as int) =~= w.skip(1));
    Line::Statement { ip: slice_to_vec(ip), names }
}

/// A bad name found among the first `k` words stays the first bad name when
/// more words follow.
pub proof fn lemma_first_bad_stays(w: Seq<Seq<u8>>, k: int)
    requires
        0 <= k <= w.len(),
        first_bad_name(w.take(k)) < k,
    ensures
        first_bad_name(w) == first_bad_name(w.take(k)),
    decreases w.len() - k,
{
    if k < w.len() {
        assert(w.take(k + 1).drop_last() =~= w.take(k));
        lemma_first_bad_stays(w, k + 1);
    } else {
        assert(w.take(k) =~= w);
    }
}

} // verus!
