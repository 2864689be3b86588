//! Reading a hosts file.
//!
//! The text is cut into lines at line feeds. Blank lines and comments say
//! nothing; every other line must be a statement, and the statements are
//! merged in order. One malformed line fails the whole text: nothing of a
//! corrupted file is ever applied.

use crate::disk::{content_of, Disk, Slot};
use crate::error::{GenericError, IoFault, ParseError};
use crate::hosts::{merge, valid_names, well_formed, Entry, Hosts};
use crate::syntax::{
    code_part, lemma_first_bad_name, line_form, read_line, valid_ip, words, Line, LineForm,
};
use crate::text::{spans_mark, split_on, split_spans, Delim, Span};
use vstd::prelude::*;
use vstd::slice::slice_subrange;
use vstd::string::StringSliceAdditionalSpecFns;
use vstd::utf8::valid_utf8;

verus! {

/// The position of the first malformed line, or the number of lines if there
/// is none.
pub open spec fn first_malformed(lines: Seq<Seq<u8>>) -> int
    decreases lines.len(),
{
    if lines.len() == 0 {
        0
    } else {
        let before = first_malformed(lines.drop_last());
        if before < lines.len() - 1 {
            before
        } else if line_form(lines.last()) is Malformed {
            lines.len() - 1
        } else {
            lines.len() as int
        }
    }
}

/// The entries that the statements among `lines` give, merged in order.
/// Lines that are no statements are passed over.
pub open spec fn fold_lines(lines: Seq<Seq<u8>>) -> Seq<Entry>
    decreases lines.len(),
{
    if lines.len() == 0 {
        Seq::empty()
    } else {
        let before = fold_lines(lines.drop_last());
        match line_form(lines.last()) {
            LineForm::Statement { ip, names } => merge(before, ip, names),
            _ => before,
        }
    }
}

/// What reading `text` gives: the entries of its statements, or the place of
/// its first malformed line.
pub open spec fn parse_spec(text: Seq<u8>) -> Result<Seq<Entry>, ParseError> {
    let lines = split_on(text, Delim::Newline);
    let bad = first_malformed(lines);
    if bad < lines.len() {
        Err(
            ParseError {
                line: (bad + 1) as usize,
                token: line_form(lines[bad])->token as usize,
                fault: line_form(lines[bad])->fault,
            },
        )
    } else {
        Ok(fold_lines(lines))
    }
}

/// A malformed line among the first `k` lines stays the first malformed line
/// when more lines follow.
pub proof fn lemma_first_malformed_stays(lines: Seq<Seq<u8>>, k: int)
    requires
        0 <= k <= lines.len(),
        first_malformed(lines.take(k)) < k,
    ensures
        first_malformed(lines) == first_malformed(lines.take(k)),
    decreases lines.len() - k,
{
    if k < lines.len() {
        assert(lines.take(k + 1).drop_last() =~= lines.take(k));
        lemma_first_malformed_stays(lines, k + 1);
    } else {
        assert(lines.take(k) =~= lines);
    }
}

/// An empty line is blank.
pub proof fn lemma_empty_line_blank()
    ensures
        line_form(Seq::<u8>::empty()) is Blank,
{
    let e = Seq::<u8>::empty();
    assert(split_on(e, Delim::Hash) =~= seq![e]);
    assert(code_part(e) == e);
    assert(split_on(e, Delim::Blank) =~= seq![e]);
    let p = split_on(e, Delim::Blank);
    assert(p.drop_last() =~= Seq::<Seq<u8>>::empty());
    assert(crate::syntax::drop_empty(p.drop_last()) =~= Seq::<Seq<u8>>::empty());
    assert(p.last() == e);
    assert(words(e) =~= Seq::<Seq<u8>>::empty());
}

/// The words of a statement have the syntax that well-formed entries need.
pub proof fn lemma_statement_valid(line: Seq<u8>)
    requires
        line_form(line) is Statement,
    ensures
        valid_ip(line_form(line)->ip),
        line_form(line)->names.len() > 0,
        valid_names(line_form(line)->names),
{
    let w = words(code_part(line));
    lemma_first_bad_name(w);
    let names = w.skip(1);
    assert forall|k: int| 0 <= k < names.len() implies crate::syntax::valid_host_name(
        #[trigger] names[k],
    ) by {
        assert(names[k] == w[k + 1]);
    }
}

/// Reading gives well-formed entries.
pub proof fn lemma_fold_lines_well_formed(lines: Seq<Seq<u8>>)
    ensures
        well_formed(fold_lines(lines)),
    decreases lines.len(),
{
    if lines.len() > 0 {
        lemma_fold_lines_well_formed(lines.drop_last());
        if line_form(lines.last()) is Statement {
            lemma_statement_valid(lines.last());
            crate::hosts::lemma_merge_well_formed(
                fold_lines(lines.drop_last()),
                line_form(lines.last())->ip,
                line_form(lines.last())->names,
            );
        }
    }
}

/// The reader of hosts files.
pub struct HostsParser;

impl HostsParser {
    /// Reads the text of a hosts file.
    ///
    /// Succeeds exactly when no line is malformed, with the statements merged
    /// in the order of the text; otherwise reports the first malformed line
    /// and what is wrong with it.
    pub fn parse(text: &[u8]) -> (r: Result<Hosts, ParseError>)
        ensures
            match r {
                Ok(hosts) => parse_spec(text@) == Ok::<Seq<Entry>, ParseError>(hosts.entries())
                    && hosts.wf(),
                Err(e) => parse_spec(text@) == Err::<Seq<Entry>, ParseError>(e),
            },
    {
        let spans = split_spans(text, Delim::Newline);
        let n: usize = spans.len();
        let ghost lines = split_on(text@, Delim::Newline);
        let mut hosts = Hosts::new();
        let mut i: usize = 0;
        proof {
            assert(lines.take(0) =~= Seq::<Seq<u8>>::empty());
        }
        while i < n
            invariant
                i <= n,
                n == spans@.len(),
                lines == split_on(text@, Delim::Newline),
                spans_mark(spans@, text@, lines),
                forall|k: int| 0 <= k < spans@.len() ==> (#[trigger] spans@[k]).start >= k,
                first_malformed(lines.take(i as int)) == i,
                hosts.entries() == fold_lines(lines.take(i as int)),
                hosts.wf(),
            decreases n - i,
        {
            let span: Span = spans[i];
            proof {
                assert(lines.take(i + 1).drop_last() =~= lines.take(i as int));
                assert(lines.take(i + 1).last() == lines[i as int]);
                lemma_empty_line_blank();
            }
            if span.start < span.end {
                let line = slice_subrange(text, span.start, span.end);
                assert(line@ == lines[i as int]);
                match read_line(line) {
                    Line::Blank => {},
                    Line::Statement { ip, names } => {
                        proof {
                            lemma_statement_valid(line@);
                        }
                        hosts.add(ip.as_slice(), &names);
                    },
                    Line::Malformed { token, fault } => {
                        proof {
                            lemma_first_malformed_stays(lines, i + 1);
                        }
                        return Err(ParseError { line: i + 1, token, fault });
                    },
                }
            } else {
                assert(lines[i as int] =~= Seq::<u8>::empty());
            }
            i = i + 1;
        }
        proof {
            assert(lines.take(n as int) =~= lines);
        }
        Ok(hosts)
    }
}

/// Reads the text of a hosts file, as `HostsParser::parse` does on its bytes.
pub fn parse_hosts_from_str(s: &str) -> (r: Result<Hosts, ParseError>)
    ensures
        match r {
            Ok(hosts) => parse_spec(s.spec_bytes()) == Ok::<Seq<Entry>, ParseError>(
                hosts.entries(),
            ) && hosts.wf(),
            Err(e) => parse_spec(s.spec_bytes()) == Err::<Seq<Entry>, ParseError>(e),
        },
{
    HostsParser::parse(s.as_bytes())
}

#[verifier::external_type_specification]
#[verifier::external_body]
pub struct ExUtf8Error(core::str::Utf8Error);

/// `core::str::from_utf8` succeeds exactly on the byte strings that are valid
/// UTF-8, and the string it gives has those same bytes.
pub assume_specification[ core::str::from_utf8 ](v: &[u8]) -> (r: Result<
    &str,
    core::str::Utf8Error,
>)
    ensures
        r is Ok <==> valid_utf8(v@),
        r is Ok ==> r->Ok_0.spec_bytes() == v@,
;

/// What reading a file as a hosts file gives: a missing file and one that is
/// not UTF-8 are refused before the text is looked at.
pub open spec fn read_spec(file: Option<Seq<u8>>) -> Result<Seq<Entry>, GenericError> {
    match file {
        None => Err(GenericError::IOError(IoFault::NotFound)),
        Some(bytes) => if !valid_utf8(bytes) {
            Err(GenericError::IOError(IoFault::InvalidData))
        } else {
            match parse_spec(bytes) {
                Ok(entries) => Ok(entries),
                Err(e) => Err(GenericError::ParseError(e)),
            }
        },
    }
}

/// Reads the content of a file, which may be missing, as a hosts file.
pub fn read_hosts(file: &Option<Vec<u8>>) -> (r: Result<Hosts, GenericError>)
    ensures
        match r {
            Ok(hosts) => read_spec(content_of(*file)) == Ok::<Seq<Entry>, GenericError>(
                hosts.entries(),
            ) && hosts.wf(),
            Err(e) => read_spec(content_of(*file)) == Err::<Seq<Entry>, GenericError>(e),
        },
{
    match file {
        None => Err(GenericError::IOError(IoFault::NotFound)),
        Some(bytes) => match core::str::from_utf8(bytes.as_slice()) {
            Err(_) => Err(GenericError::IOError(IoFault::InvalidData)),
            Ok(text) => match parse_hosts_from_str(text) {
                Ok(hosts) => Ok(hosts),
                Err(e) => Err(GenericError::ParseError(e)),
            },
        },
    }
}

/// Reads one of the files as a hosts file.
///
/// Fails with `IOError` when the file is missing or not UTF-8, and with
/// `ParseError` when a line is malformed.
pub fn parse_hosts_from_file(disk: &Disk, slot: Slot) -> (r: Result<Hosts, GenericError>)
    ensures
        match r {
            Ok(hosts) => read_spec(disk@.get(slot)) == Ok::<Seq<Entry>, GenericError>(
                hosts.entries(),
            ) && hosts.wf(),
            Err(e) => read_spec(disk@.get(slot)) == Err::<Seq<Entry>, GenericError>(e),
        },
{
    read_hosts(disk.read(slot))
}

} // verus!
