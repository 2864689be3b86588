//! Reading back what was written: the text that `render` gives for
//! well-formed entries under a header of comments reads back as those
//! entries, in their order.

use crate::error::ParseError;
use crate::hosts::{
    ip_index, lemma_merge_commutes, lemma_to_map_merge, lemma_add_names_fresh, lemma_ip_index, merge, merge_all, to_map, valid_names,
    well_formed, Entry,
};
use crate::parser::{first_malformed, fold_lines, lemma_empty_line_blank, parse_spec};
use crate::syntax::{
    code_part, drop_empty, first_bad_name, line_form, read_line, valid_dec_group,
    valid_hex_group, valid_host_name, valid_ip, valid_ipv4, valid_ipv6_groups, valid_zone,
    words, ByteClass, Line, LineForm,
};
use crate::text::{
    lemma_split_clean, lemma_split_concat, lemma_split_len, lemma_split_push, spans_mark,
    split_on, split_spans, Delim, Span,
};
use crate::writer::{entry_line, join, render, render_entries};
use vstd::prelude::*;
use vstd::slice::slice_subrange;

verus! {

/// A byte that can stand in a word: ASCII, and neither a blank, a `#` nor a
/// line feed.
pub open spec fn word_byte(c: u8) -> bool {
    c < 0x80 && !Delim::Blank.hits(c) && !Delim::Hash.hits(c) && !Delim::Newline.hits(c)
}

/// A byte string that reads as one word.
pub open spec fn is_word(t: Seq<u8>) -> bool {
    t.len() > 0 && forall|i: int| 0 <= i < t.len() ==> word_byte(#[trigger] t[i])
}

/// Where the delimiter and every byte of every piece can stand in a word,
/// every byte of the whole can.
pub proof fn lemma_split_word_bytes(s: Seq<u8>, d: Delim)
    requires
        d == Delim::Dot || d == Delim::Colon || d == Delim::Percent,
        forall|i: int, k: int|
            0 <= i < split_on(s, d).len() && 0 <= k < split_on(s, d)[i].len() ==> word_byte(
                #[trigger] split_on(s, d)[i][k],
            ),
    ensures
        forall|j: int| 0 <= j < s.len() ==> word_byte(#[trigger] s[j]),
    decreases s.len(),
{
    if s.len() > 0 {
        let init = s.drop_last();
        let c = s.last();
        let p0 = split_on(init, d);
        let p = split_on(s, d);
        lemma_split_len(init, d);
        assert forall|i: int, k: int| 0 <= i < p0.len() && 0 <= k < p0[i].len() implies word_byte(
            #[trigger] p0[i][k],
        ) by {
            if d.hits(c) {
                assert(p[i] == p0[i]);
                assert(p0[i][k] == p[i][k]);
            } else if i < p0.len() - 1 {
                assert(p[i] == p0[i]);
                assert(p0[i][k] == p[i][k]);
            } else {
                assert(p[i] == p0[i].push(c));
                assert(p0[i][k] == p[i][k]);
            }
        }
        lemma_split_word_bytes(init, d);
        if !d.hits(c) {
            let last = p.len() - 1;
            assert(p[last] == p0.last().push(c));
            assert(p[last][p[last].len() - 1] == c);
        }
        assert forall|j: int| 0 <= j < s.len() implies word_byte(#[trigger] s[j]) by {
            if j < init.len() {
                assert(init[j] == s[j]);
            }
        }
    }
}

/// An IPv4 address reads as one word.
pub proof fn lemma_ipv4_is_word(t: Seq<u8>)
    requires
        valid_ipv4(t),
    ensures
        is_word(t),
{
    let p = split_on(t, Delim::Dot);
    assert forall|i: int, k: int| 0 <= i < p.len() && 0 <= k < p[i].len() implies word_byte(
        #[trigger] p[i][k],
    ) by {
        assert(valid_dec_group(p[i]));
        assert(ByteClass::Digit.holds(p[i][k]));
    }
    lemma_split_word_bytes(t, Delim::Dot);
}

/// The groups of an IPv6 address read as one word.
pub proof fn lemma_ipv6_groups_is_word(a: Seq<u8>)
    requires
        valid_ipv6_groups(a),
    ensures
        is_word(a),
{
    let p = split_on(a, Delim::Colon);
    assert forall|i: int, k: int| 0 <= i < p.len() && 0 <= k < p[i].len() implies word_byte(
        #[trigger] p[i][k],
    ) by {
        if i < p.len() - 1 || valid_hex_group(p.last()) {
            assert(valid_hex_group(p[i]));
            assert(ByteClass::Hex.holds(p[i][k]));
        } else {
            lemma_ipv4_is_word(p.last());
        }
    }
    lemma_split_word_bytes(a, Delim::Colon);
}

/// An IP address reads as one word.
pub proof fn lemma_ip_is_word(t: Seq<u8>)
    requires
        valid_ip(t),
    ensures
        is_word(t),
{
    if valid_ipv4(t) {
        lemma_ipv4_is_word(t);
    } else {
        let p = split_on(t, Delim::Percent);
        lemma_ipv6_groups_is_word(p[0]);
        assert forall|i: int, k: int| 0 <= i < p.len() && 0 <= k < p[i].len() implies word_byte(
            #[trigger] p[i][k],
        ) by {
            if i == 1 {
                assert(valid_zone(p[1]));
                assert(ByteClass::Name.holds(p[i][k]));
            }
        }
        lemma_split_word_bytes(t, Delim::Percent);
    }
}

/// A host name reads as one word.
pub proof fn lemma_host_name_is_word(t: Seq<u8>)
    requires
        valid_host_name(t),
    ensures
        is_word(t),
{
    assert forall|i: int| 0 <= i < t.len() implies word_byte(#[trigger] t[i]) by {
        assert(ByteClass::Name.holds(t[i]));
    }
}

/// The words of an entry as they stand in its line: the address, then the
/// names.
pub open spec fn entry_words(e: Entry) -> Seq<Seq<u8>> {
    seq![e.ip] + e.names
}

/// The line of an entry without its line feed.
pub open spec fn entry_text(e: Entry) -> Seq<u8> {
    e.ip + seq![0x20u8] + join(e.names, seq![0x20u8])
}

/// The lines of `entries` without their line feeds.
pub open spec fn entry_texts(entries: Seq<Entry>) -> Seq<Seq<u8>> {
    Seq::new(entries.len(), |i: int| entry_text(entries[i]))
}

/// The address and the names of `e` have the syntax of the grammar, and
/// there is at least one name.
pub open spec fn valid_entry(e: Entry) -> bool {
    valid_ip(e.ip) && e.names.len() > 0 && valid_names(e.names)
}

/// Every entry is valid.
pub open spec fn valid_entries(entries: Seq<Entry>) -> bool {
    forall|i: int| 0 <= i < entries.len() ==> valid_entry(#[trigger] entries[i])
}

/// Joining with a word put in front.
pub proof fn lemma_join_front(first: Seq<u8>, rest: Seq<Seq<u8>>, sep: Seq<u8>)
    requires
        rest.len() > 0,
    ensures
        join(seq![first] + rest, sep) == first + sep + join(rest, sep),
    decreases rest.len(),
{
    let all = seq![first] + rest;
    assert(all.drop_last() =~= seq![first] + rest.drop_last());
    assert(all.last() == rest.last());
    if rest.len() == 1 {
        assert(all.drop_last() =~= seq![first]);
        assert(join(all.drop_last(), sep) == first);
        assert(join(rest, sep) == rest[0]);
    } else {
        lemma_join_front(first, rest.drop_last(), sep);
        assert(join(all, sep) =~= first + sep + join(rest, sep));
    }
}

/// Words joined by single spaces split at blanks into those words.
pub proof fn lemma_split_join(ws: Seq<Seq<u8>>)
    requires
        ws.len() > 0,
        forall|i: int| 0 <= i < ws.len() ==> is_word(#[trigger] ws[i]),
    ensures
        split_on(join(ws, seq![0x20u8]), Delim::Blank) == ws,
    decreases ws.len(),
{
    let sp = seq![0x20u8];
    let d = Delim::Blank;
    let last = ws.last();
    assert(is_word(ws[ws.len() - 1]));
    assert forall|j: int| 0 <= j < last.len() implies !d.hits(#[trigger] last[j]) by {
        assert(word_byte(last[j]));
    }
    lemma_split_clean(last, d);
    if ws.len() == 1 {
        assert(seq![last] =~= ws);
    } else {
        let init = ws.drop_last();
        assert forall|i: int| 0 <= i < init.len() implies is_word(#[trigger] init[i]) by {
            assert(init[i] == ws[i]);
        }
        lemma_split_join(init);
        let head = join(init, sp);
        lemma_split_push(head, 0x20u8, d);
        assert(head.push(0x20u8) =~= head + sp);
        lemma_split_concat(head + sp, last, d);
        let grown = split_on(head + sp, d);
        assert(grown == init.push(Seq::<u8>::empty()));
        assert(grown.drop_last() =~= init);
        assert(grown.last() + last =~= last);
        assert(seq![last].skip(1) =~= Seq::<Seq<u8>>::empty());
        assert(init.push(last) + Seq::<Seq<u8>>::empty() =~= ws);
    }
}

/// Nothing is dropped from pieces that are not empty.
pub proof fn lemma_drop_empty_none(ws: Seq<Seq<u8>>)
    requires
        forall|i: int| 0 <= i < ws.len() ==> (#[trigger] ws[i]).len() > 0,
    ensures
        drop_empty(ws) == ws,
    decreases ws.len(),
{
    if ws.len() == 0 {
        assert(ws =~= Seq::<Seq<u8>>::empty());
    } else {
        let init = ws.drop_last();
        assert forall|i: int| 0 <= i < init.len() implies (#[trigger] init[i]).len() > 0 by {
            assert(init[i] == ws[i]);
        }
        lemma_drop_empty_none(init);
        assert(ws[ws.len() - 1].len() > 0);
        assert(init.push(ws.last()) =~= ws);
    }
}

/// Where every word after the first is a host name, none is bad.
pub proof fn lemma_no_bad_name(w: Seq<Seq<u8>>)
    requires
        w.len() > 0,
        forall|k: int| 1 <= k < w.len() ==> valid_host_name(#[trigger] w[k]),
    ensures
        first_bad_name(w) == w.len(),
    decreases w.len(),
{
    if w.len() > 1 {
        let init = w.drop_last();
        assert forall|k: int| 1 <= k < init.len() implies valid_host_name(#[trigger] init[k]) by {
            assert(init[k] == w[k]);
        }
        lemma_no_bad_name(init);
        assert(valid_host_name(w[w.len() - 1]));
    }
}

/// The line of a valid entry reads as the statement of that entry, and holds
/// no line feed.
pub proof fn lemma_entry_text_form(e: Entry)
    requires
        valid_entry(e),
    ensures
        line_form(entry_text(e)) == (LineForm::Statement { ip: e.ip, names: e.names }),
        forall|j: int|
            0 <= j < entry_text(e).len() ==> !Delim::Newline.hits(#[trigger] entry_text(e)[j]),
{
    let sp = seq![0x20u8];
    let text = entry_text(e);
    let w = entry_words(e);
    lemma_ip_is_word(e.ip);
    assert forall|i: int| 0 <= i < w.len() implies is_word(#[trigger] w[i]) by {
        if i > 0 {
            assert(w[i] == e.names[i - 1]);
            lemma_host_name_is_word(e.names[i - 1]);
        }
    }
    lemma_join_front(e.ip, e.names, sp);
    assert(text == join(w, sp));
    lemma_split_join(w);
    // every byte of the text is a space or the byte of a word
    assert forall|j: int| 0 <= j < text.len() implies !Delim::Newline.hits(#[trigger] text[j])
        && !Delim::Hash.hits(text[j]) by {
        lemma_join_bytes(w, j);
    }
    lemma_split_clean(text, Delim::Hash);
    assert(code_part(text) == text);
    lemma_drop_empty_none(w);
    assert(words(text) == w);
    assert forall|k: int| 1 <= k < w.len() implies valid_host_name(#[trigger] w[k]) by {
        assert(w[k] == e.names[k - 1]);
    }
    lemma_no_bad_name(w);
    assert(w.skip(1) =~= e.names);
    assert(w[0] == e.ip);
}

/// Every byte of words joined by spaces is a space or can stand in a word.
pub proof fn lemma_join_bytes(ws: Seq<Seq<u8>>, j: int)
    requires
        forall|i: int| 0 <= i < ws.len() ==> is_word(#[trigger] ws[i]),
        0 <= j < join(ws, seq![0x20u8]).len(),
    ensures
        join(ws, seq![0x20u8])[j] == 0x20u8 || word_byte(join(ws, seq![0x20u8])[j]),
    decreases ws.len(),
{
    let sp = seq![0x20u8];
    if ws.len() == 1 {
        assert(is_word(ws[0]));
    } else if ws.len() > 1 {
        let init = ws.drop_last();
        let head = join(init, sp);
        assert(is_word(ws[ws.len() - 1]));
        if j < head.len() {
            assert forall|i: int| 0 <= i < init.len() implies is_word(#[trigger] init[i]) by {
                assert(init[i] == ws[i]);
            }
            lemma_join_bytes(init, j);
        } else if j > head.len() {
            assert(join(ws, sp)[j] == ws.last()[j - head.len() - 1]);
        }
    }
}

/// A header that says nothing: it is empty or ends in a line feed, and each
/// of its lines is blank or a comment.
pub open spec fn neutral_header(h: Seq<u8>) -> bool {
    &&& h.len() > 0 ==> h.last() == 0x0au8
    &&& forall|i: int|
        0 <= i < split_on(h, Delim::Newline).len() ==> line_form(
            #[trigger] split_on(h, Delim::Newline)[i],
        ) is Blank
}

/// Tests whether a header is neutral.
pub fn is_neutral_header(h: &[u8]) -> (r: bool)
    ensures
        r == neutral_header(h@),
{
    let n: usize = h.len();
    if n > 0 && h[n - 1] != 0x0au8 {
        return false;
    }
    let spans = split_spans(h, Delim::Newline);
    let count: usize = spans.len();
    let ghost lines = split_on(h@, Delim::Newline);
    let mut i: usize = 0;
    while i < count
        invariant
            i <= count,
            count == spans@.len(),
            lines == split_on(h@, Delim::Newline),
            spans_mark(spans@, h@, lines),
            forall|k: int| 0 <= k < i ==> line_form(#[trigger] lines[k]) is Blank,
        decreases count - i,
    {
        let span: Span = spans[i];
        let line = slice_subrange(h, span.start, span.end);
        match read_line(line) {
            Line::Blank => {},
            _ => {
                assert(!(line_form(lines[i as int]) is Blank));
                return false;
            },
        }
        i = i + 1;
    }
    true
}

/// Well-formed entries are valid.
pub proof fn lemma_well_formed_valid(entries: Seq<Entry>)
    requires
        well_formed(entries),
    ensures
        valid_entries(entries),
{
    assert forall|i: int| 0 <= i < entries.len() implies valid_entry(#[trigger] entries[i]) by {
        assert(valid_ip(entries[i].ip));
    }
}

/// The lines of rendered entries are the lines of the entries, and one empty
/// line after the last line feed.
pub proof fn lemma_render_lines(entries: Seq<Entry>)
    requires
        valid_entries(entries),
    ensures
        split_on(render_entries(entries), Delim::Newline) == entry_texts(entries).push(
            Seq::<u8>::empty(),
        ),
    decreases entries.len(),
{
    let d = Delim::Newline;
    if entries.len() == 0 {
        assert(entry_texts(entries).push(Seq::<u8>::empty()) =~= seq![Seq::<u8>::empty()]);
    } else {
        let init = entries.drop_last();
        let e = entries.last();
        assert forall|i: int| 0 <= i < init.len() implies valid_entry(#[trigger] init[i]) by {
            assert(init[i] == entries[i]);
        }
        assert(valid_entry(entries[entries.len() - 1]));
        lemma_render_lines(init);
        lemma_entry_text_form(e);
        let r0 = render_entries(init);
        let text = entry_text(e);
        lemma_split_clean(text, d);
        lemma_split_concat(r0, text, d);
        let p0 = split_on(r0, d);
        assert(p0.drop_last() =~= entry_texts(init));
        assert(p0.last() + text =~= text);
        assert(seq![text].skip(1) =~= Seq::<Seq<u8>>::empty());
        assert(split_on(r0 + text, d) =~= entry_texts(init).push(text));
        lemma_split_push(r0 + text, 0x0au8, d);
        assert((r0 + text).push(0x0au8) =~= render_entries(entries));
        assert(entry_texts(init).push(text) =~= entry_texts(entries));
    }
}

/// Lines that are blank before other lines change nothing but the count.
pub proof fn lemma_fold_after_blank(a: Seq<Seq<u8>>, b: Seq<Seq<u8>>)
    requires
        forall|i: int| 0 <= i < a.len() ==> line_form(#[trigger] a[i]) is Blank,
    ensures
        fold_lines(a + b) == fold_lines(b),
        first_malformed(a + b) == a.len() + first_malformed(b),
    decreases b.len(), a.len(),
{
    if b.len() == 0 {
        assert(a + b =~= a);
        if a.len() > 0 {
            let init = a.drop_last();
            assert forall|i: int| 0 <= i < init.len() implies line_form(
                #[trigger] init[i],
            ) is Blank by {
                assert(init[i] == a[i]);
            }
            lemma_fold_after_blank(init, b);
            assert(init + b =~= init);
            assert(line_form(a[a.len() - 1]) is Blank);
        }
    } else {
        lemma_fold_after_blank(a, b.drop_last());
        assert((a + b).drop_last() =~= a + b.drop_last());
        assert((a + b).last() == b.last());
    }
}

/// Reading the lines of valid entries merges the entries in order, and finds
/// no line malformed.
pub proof fn lemma_fold_texts(entries: Seq<Entry>)
    requires
        valid_entries(entries),
    ensures
        fold_lines(entry_texts(entries)) == merge_all(Seq::empty(), entries),
        first_malformed(entry_texts(entries)) == entries.len(),
    decreases entries.len(),
{
    let texts = entry_texts(entries);
    if entries.len() > 0 {
        let init = entries.drop_last();
        assert forall|i: int| 0 <= i < init.len() implies valid_entry(#[trigger] init[i]) by {
            assert(init[i] == entries[i]);
        }
        assert(valid_entry(entries[entries.len() - 1]));
        lemma_fold_texts(init);
        lemma_entry_text_form(entries.last());
        assert(texts.drop_last() =~= entry_texts(init));
        assert(texts.last() == entry_text(entries.last()));
    }
}

/// Merging well-formed entries into nothing gives them back.
pub proof fn lemma_merge_all_fresh(entries: Seq<Entry>)
    requires
        well_formed(entries),
    ensures
        merge_all(Seq::empty(), entries) == entries,
    decreases entries.len(),
{
    if entries.len() == 0 {
        assert(entries =~= Seq::<Entry>::empty());
    } else {
        let init = entries.drop_last();
        let e = entries.last();
        assert(well_formed(init)) by {
            assert forall|i: int| 0 <= i < init.len() implies init[i] == entries[i] by {}
        }
        lemma_merge_all_fresh(init);
        lemma_ip_index(init, e.ip);
        assert(ip_index(init, e.ip) == init.len()) by {
            let k = ip_index(init, e.ip);
            if k < init.len() {
                assert(init[k] == entries[k]);
                assert(entries[k].ip != entries[entries.len() - 1].ip);
            }
        }
        assert(entries[entries.len() - 1].names.no_duplicates());
        lemma_add_names_fresh(e.names);
        assert(init.push(e) =~= entries);
    }
}

/// What `render` writes for valid entries under a neutral header reads back
/// as those entries merged in their order.
pub proof fn lemma_parse_render_valid(header: Seq<u8>, entries: Seq<Entry>)
    requires
        neutral_header(header),
        valid_entries(entries),
    ensures
        parse_spec(render(header, entries)) == Ok::<Seq<Entry>, ParseError>(
            merge_all(Seq::empty(), entries),
        ),
{
    let d = Delim::Newline;
    let body = render_entries(entries);
    let hl = split_on(header, d);
    let bl = split_on(body, d);
    lemma_render_lines(entries);
    lemma_split_concat(header, body, d);
    lemma_split_len(header, d);
    assert(hl.last() == Seq::<u8>::empty()) by {
        if header.len() > 0 {
            lemma_split_push(header.drop_last(), 0x0au8, d);
            assert(header.drop_last().push(0x0au8) =~= header);
        }
    }
    assert(hl.last() + bl[0] =~= bl[0]);
    let front = hl.drop_last();
    assert(split_on(header + body, d) =~= front + bl);
    assert forall|i: int| 0 <= i < front.len() implies line_form(#[trigger] front[i]) is Blank by {
        assert(front[i] == hl[i]);
    }
    lemma_fold_after_blank(front, bl);
    lemma_fold_texts(entries);
    lemma_empty_line_blank();
    let texts = entry_texts(entries);
    assert(bl.drop_last() =~= texts);
    assert(bl.last() == Seq::<u8>::empty());
}

/// Round trip: what `render` writes for well-formed entries under a neutral
/// header reads back as exactly those entries, in their order.
pub proof fn lemma_parse_render(header: Seq<u8>, entries: Seq<Entry>)
    requires
        neutral_header(header),
        well_formed(entries),
    ensures
        parse_spec(render(header, entries)) == Ok::<Seq<Entry>, ParseError>(entries),
{
    lemma_well_formed_valid(entries);
    lemma_parse_render_valid(header, entries);
    lemma_merge_all_fresh(entries);
}

/// Round trip as a map: the text written for well-formed entries under a
/// neutral header reads back as the same map from address to names.
pub proof fn lemma_parse_render_map(header: Seq<u8>, entries: Seq<Entry>)
    requires
        neutral_header(header),
        well_formed(entries),
    ensures
        parse_spec(render(header, entries)) is Ok,
        to_map(parse_spec(render(header, entries))->Ok_0) == to_map(entries),
{
    lemma_parse_render(header, entries);
}

/// The order of two statements for one address does not matter: a file with
/// the names `a` and then the names `b` for `ip` reads as the same map as the
/// file with `b` and then `a`, and that map gives `ip` the names of both.
pub proof fn lemma_statement_order(header: Seq<u8>, ip: Seq<u8>, a: Seq<Seq<u8>>, b: Seq<Seq<u8>>)
    requires
        neutral_header(header),
        valid_ip(ip),
        a.len() > 0,
        valid_names(a),
        b.len() > 0,
        valid_names(b),
    ensures
        ({
            let ab = parse_spec(
                render(header, seq![Entry { ip, names: a }, Entry { ip, names: b }]),
            );
            let ba = parse_spec(
                render(header, seq![Entry { ip, names: b }, Entry { ip, names: a }]),
            );
            &&& ab is Ok
            &&& ba is Ok
            &&& to_map(ab->Ok_0) == to_map(ba->Ok_0)
            &&& to_map(ab->Ok_0) == Map::<Seq<u8>, Set<Seq<u8>>>::empty().insert(
                ip,
                a.to_set().union(b.to_set()),
            )
        }),
{
    let ea = Entry { ip, names: a };
    let eb = Entry { ip, names: b };
    let none = Seq::<Entry>::empty();
    lemma_parse_render_valid(header, seq![ea, eb]);
    lemma_parse_render_valid(header, seq![eb, ea]);
    assert(merge_all(none, seq![ea, eb]) == merge(merge(none, ip, a), ip, b)) by {
        assert(seq![ea, eb].drop_last() =~= seq![ea]);
        assert(seq![ea].drop_last() =~= none);
        assert(merge_all(none, none) == none);
        assert(seq![ea].last() == ea);
        assert(merge_all(none, seq![ea]) == merge(none, ip, a));
        assert(seq![ea, eb].last() == eb);
    }
    assert(merge_all(none, seq![eb, ea]) == merge(merge(none, ip, b), ip, a)) by {
        assert(seq![eb, ea].drop_last() =~= seq![eb]);
        assert(seq![eb].drop_last() =~= none);
        assert(merge_all(none, none) == none);
        assert(seq![eb].last() == eb);
        assert(merge_all(none, seq![eb]) == merge(none, ip, b));
        assert(seq![eb, ea].last() == ea);
    }
    lemma_merge_commutes(none, ip, a, b);
    assert(to_map(none) =~= Map::<Seq<u8>, Set<Seq<u8>>>::empty());
    assert(Set::<Seq<u8>>::empty().union(a.to_set().union(b.to_set())) =~= a.to_set().union(
        b.to_set(),
    ));
}

/// The entries after the statements among `lines` were merged, in order,
/// into `start`.
pub open spec fn fold_from(start: Seq<Entry>, lines: Seq<Seq<u8>>) -> Seq<Entry>
    decreases lines.len(),
{
    if lines.len() == 0 {
        start
    } else {
        let before = fold_from(start, lines.drop_last());
        match line_form(lines.last()) {
            LineForm::Statement { ip, names } => merge(before, ip, names),
            _ => before,
        }
    }
}

/// Reading lines one part after the other.
pub proof fn lemma_fold_concat(a: Seq<Seq<u8>>, b: Seq<Seq<u8>>)
    ensures
        fold_lines(a + b) == fold_from(fold_lines(a), b),
        0 <= first_malformed(a) <= a.len(),
        first_malformed(a + b) == if first_malformed(a) < a.len() {
            first_malformed(a)
        } else {
            a.len() + first_malformed(b)
        },
    decreases b.len(), a.len(),
{
    if a.len() > 0 {
        lemma_fold_concat(a.drop_last(), Seq::empty());
    }
    if b.len() == 0 {
        assert(a + b =~= a);
    } else {
        lemma_fold_concat(a, b.drop_last());
        lemma_fold_concat(b.drop_last(), Seq::empty());
        assert((a + b).drop_last() =~= a + b.drop_last());
        assert((a + b).last() == b.last());
    }
}

/// What further lines make of the entries depends on the entries as a map
/// alone.
pub proof fn lemma_fold_from_map(s1: Seq<Entry>, s2: Seq<Entry>, lines: Seq<Seq<u8>>)
    requires
        to_map(s1) == to_map(s2),
    ensures
        to_map(fold_from(s1, lines)) == to_map(fold_from(s2, lines)),
    decreases lines.len(),
{
    if lines.len() > 0 {
        lemma_fold_from_map(s1, s2, lines.drop_last());
        match line_form(lines.last()) {
            LineForm::Statement { ip, names } => {
                lemma_to_map_merge(fold_from(s1, lines.drop_last()), ip, names);
                lemma_to_map_merge(fold_from(s2, lines.drop_last()), ip, names);
            },
            _ => {},
        }
    }
}

/// The lines of a text that holds a line `text` between a part that ends at
/// a line end and the rest.
pub proof fn lemma_split_around_line(pre: Seq<u8>, text: Seq<u8>, rest: Seq<u8>)
    requires
        pre.len() > 0 ==> pre.last() == 0x0au8,
        forall|j: int| 0 <= j < text.len() ==> !Delim::Newline.hits(#[trigger] text[j]),
    ensures
        split_on(pre + (text + seq![0x0au8] + rest), Delim::Newline) == split_on(
            pre,
            Delim::Newline,
        ).drop_last().push(text) + split_on(rest, Delim::Newline),
{
    let d = Delim::Newline;
    let nl = seq![0x0au8];
    let hl = split_on(pre, d);
    lemma_split_len(pre, d);
    lemma_split_len(rest, d);
    assert(hl.last() == Seq::<u8>::empty()) by {
        if pre.len() > 0 {
            lemma_split_push(pre.drop_last(), 0x0au8, d);
            assert(pre.drop_last().push(0x0au8) =~= pre);
        }
    }
    lemma_split_clean(text, d);
    lemma_split_push(text, 0x0au8, d);
    assert(text.push(0x0au8) =~= text + nl);
    let line = split_on(text + nl, d);
    assert(line =~= seq![text, Seq::<u8>::empty()]);
    lemma_split_concat(text + nl, rest, d);
    let tail = split_on(text + nl + rest, d);
    let rl = split_on(rest, d);
    assert(line.last() + rl[0] =~= rl[0]);
    assert(tail =~= seq![text] + rl);
    lemma_split_concat(pre, text + nl + rest, d);
    assert(hl.last() + tail[0] =~= text);
    assert(tail.skip(1) =~= rl);
}

/// The lines of a text that holds the lines of two valid entries between a
/// part that ends at a line end and the rest.
pub proof fn lemma_lines_around_pair(pre: Seq<u8>, post: Seq<u8>, e1: Entry, e2: Entry)
    requires
        pre.len() > 0 ==> pre.last() == 0x0au8,
        valid_entry(e1),
        valid_entry(e2),
    ensures
        split_on(pre + entry_line(e1) + entry_line(e2) + post, Delim::Newline) == (split_on(
            pre,
            Delim::Newline,
        ).drop_last() + seq![entry_text(e1), entry_text(e2)]) + split_on(post, Delim::Newline),
{
    let d = Delim::Newline;
    let nl = seq![0x0au8];
    let t1 = entry_text(e1);
    let t2 = entry_text(e2);
    let l1 = entry_line(e1);
    let l2 = entry_line(e2);
    lemma_entry_text_form(e1);
    lemma_entry_text_form(e2);
    assert(l1 =~= t1 + nl);
    assert(l2 =~= t2 + nl);
    let none = Seq::<u8>::empty();
    lemma_split_around_line(pre, t1, l2 + post);
    lemma_split_around_line(none, t2, post);
    assert(none + (t2 + nl + post) =~= l2 + post);
    assert(split_on(none, d).drop_last() =~= Seq::<Seq<u8>>::empty());
    assert(pre + (t1 + nl + (l2 + post)) =~= pre + l1 + l2 + post);
    let x = split_on(pre, d).drop_last();
    let y = split_on(post, d);
    assert(x.push(t1) + (Seq::<Seq<u8>>::empty().push(t2) + y) =~= (x + seq![t1, t2]) + y);
}

/// Two statements for one address, in either order, between the same lines:
/// the first malformed line is the same, and so is the map that the lines
/// give.
pub proof fn lemma_pair_order(
    x: Seq<Seq<u8>>,
    y: Seq<Seq<u8>>,
    ta: Seq<u8>,
    tb: Seq<u8>,
    ip: Seq<u8>,
    a: Seq<Seq<u8>>,
    b: Seq<Seq<u8>>,
)
    requires
        line_form(ta) == (LineForm::Statement { ip, names: a }),
        line_form(tb) == (LineForm::Statement { ip, names: b }),
    ensures
        ({
            let l1 = (x + seq![ta, tb]) + y;
            let l2 = (x + seq![tb, ta]) + y;
            let bad = first_malformed(l1);
            &&& first_malformed(l2) == bad
            &&& 0 <= bad <= l1.len()
            &&& bad < l1.len() ==> l1[bad] == l2[bad]
            &&& to_map(fold_lines(l1)) == to_map(fold_lines(l2))
        }),
{
    let m1 = x + seq![ta, tb];
    let m2 = x + seq![tb, ta];
    let l1 = m1 + y;
    let l2 = m2 + y;
    lemma_fold_concat(x, seq![ta, tb]);
    lemma_fold_concat(x, seq![tb, ta]);
    lemma_fold_concat(m1, y);
    lemma_fold_concat(m2, y);
    lemma_fold_concat(l1, Seq::empty());
    assert(seq![ta, tb].drop_last() =~= seq![ta]);
    assert(seq![tb, ta].drop_last() =~= seq![tb]);
    assert(seq![ta].drop_last() =~= Seq::<Seq<u8>>::empty());
    assert(seq![tb].drop_last() =~= Seq::<Seq<u8>>::empty());
    let none = Seq::<Seq<u8>>::empty();
    assert(first_malformed(none) == 0);
    assert(seq![ta].last() == ta);
    assert(seq![tb].last() == tb);
    assert(seq![ta, tb].last() == tb);
    assert(seq![tb, ta].last() == ta);
    assert(first_malformed(seq![ta]) == 1);
    assert(first_malformed(seq![tb]) == 1);
    assert(first_malformed(seq![ta, tb]) == 2);
    assert(first_malformed(seq![tb, ta]) == 2);
    let bad = first_malformed(l1);
    assert(first_malformed(l2) == bad);
    if bad < l1.len() {
        if bad < x.len() {
            assert(m1[bad] == x[bad]);
            assert(m2[bad] == x[bad]);
            assert(l1[bad] == m1[bad]);
            assert(l2[bad] == m2[bad]);
        } else {
            lemma_fold_concat(y, Seq::empty());
            assert(first_malformed(x) == x.len());
            assert(first_malformed(m1) == m1.len());
            assert(bad == m1.len() + first_malformed(y));
            assert(l1[bad] == y[bad - m1.len()]);
            assert(l2[bad] == y[bad - m2.len()]);
        }
    }
    let s = fold_lines(x);
    assert(fold_from(s, none) == s);
    assert(fold_from(s, seq![ta]) == merge(s, ip, a));
    assert(fold_from(s, seq![tb]) == merge(s, ip, b));
    assert(fold_from(s, seq![ta, tb]) == merge(merge(s, ip, a), ip, b));
    assert(fold_from(s, seq![tb, ta]) == merge(merge(s, ip, b), ip, a));
    assert(fold_lines(m1) == merge(merge(s, ip, a), ip, b));
    assert(fold_lines(m2) == merge(merge(s, ip, b), ip, a));
    lemma_merge_commutes(s, ip, a, b);
    lemma_fold_from_map(fold_lines(m1), fold_lines(m2), y);
}

/// The order of two statements for one address does not matter, wherever
/// in a file they stand: with the names `a` and then the names `b` for `ip`,
/// or with `b` and then `a`, between the same text before and after, the
/// file fails at the same place in the same way, or reads as the same map.
pub proof fn lemma_statement_order_anywhere(
    pre: Seq<u8>,
    post: Seq<u8>,
    ip: Seq<u8>,
    a: Seq<Seq<u8>>,
    b: Seq<Seq<u8>>,
)
    requires
        pre.len() > 0 ==> pre.last() == 0x0au8,
        valid_ip(ip),
        a.len() > 0,
        valid_names(a),
        b.len() > 0,
        valid_names(b),
    ensures
        ({
            let la = entry_line(Entry { ip, names: a });
            let lb = entry_line(Entry { ip, names: b });
            let ab = parse_spec(pre + la + lb + post);
            let ba = parse_spec(pre + lb + la + post);
            &&& ab is Err <==> ba is Err
            &&& ab is Err ==> ab == ba
            &&& ab is Ok ==> to_map(ab->Ok_0) == to_map(ba->Ok_0)
        }),
{
    let ea = Entry { ip, names: a };
    let eb = Entry { ip, names: b };
    lemma_entry_text_form(ea);
    lemma_entry_text_form(eb);
    lemma_lines_around_pair(pre, post, ea, eb);
    lemma_lines_around_pair(pre, post, eb, ea);
    lemma_pair_order(
        split_on(pre, Delim::Newline).drop_last(),
        split_on(post, Delim::Newline),
        entry_text(ea),
        entry_text(eb),
        ip,
        a,
        b,
    );
}

} // verus!
