//! What holds of install and uninstall in sequence.

use crate::disk::{Change, DiskState, Slot};
use crate::error::GenericError;
use crate::hosts::{lemma_to_map_merge, merge, merge_all, names_in, to_map, well_formed, Entry};
use crate::parser::{lemma_fold_lines_well_formed, parse_spec, read_spec};
use crate::registry::{install_spec, uninstall_spec};
use crate::roundtrip::{
    entry_text, lemma_host_name_is_word, lemma_ip_is_word, lemma_join_bytes, lemma_join_front,
    lemma_parse_render, neutral_header, valid_entries, valid_entry, entry_words, is_word,
};
use crate::text::{split_on, Delim};
use crate::writer::{join, render, render_entries};
use vstd::prelude::*;
use vstd::utf8::{partial_valid_utf8, partial_valid_utf8_extend_ascii_block, valid_utf8};

verus! {

/// The lines of valid entries are ASCII.
pub proof fn lemma_render_ascii(entries: Seq<Entry>)
    requires
        valid_entries(entries),
    ensures
        forall|j: int|
            0 <= j < render_entries(entries).len() ==> (#[trigger] render_entries(entries)[j])
                < 0x80,
    decreases entries.len(),
{
    if entries.len() > 0 {
        let init = entries.drop_last();
        let e = entries.last();
        assert forall|i: int| 0 <= i < init.len() implies valid_entry(#[trigger] init[i]) by {
            assert(init[i] == entries[i]);
        }
        assert(valid_entry(entries[entries.len() - 1]));
        lemma_render_ascii(init);
        let sp = seq![0x20u8];
        let w = entry_words(e);
        lemma_ip_is_word(e.ip);
        assert forall|i: int| 0 <= i < w.len() implies is_word(#[trigger] w[i]) by {
            if i > 0 {
                assert(w[i] == e.names[i - 1]);
                lemma_host_name_is_word(e.names[i - 1]);
            }
        }
        lemma_join_front(e.ip, e.names, sp);
        let text = entry_text(e);
        assert(text == join(w, sp));
        let r0 = render_entries(init);
        let r = render_entries(entries);
        assert(r =~= r0 + text + seq![0x0au8]);
        assert forall|j: int| 0 <= j < r.len() implies (#[trigger] r[j]) < 0x80 by {
            if j < r0.len() {
                assert(r[j] == r0[j]);
            } else if j < r0.len() + text.len() {
                lemma_join_bytes(w, j - r0.len());
                assert(r[j] == text[j - r0.len()]);
            }
        }
    }
}

/// The text written for valid entries under a UTF-8 header is UTF-8.
pub proof fn lemma_render_utf8(header: Seq<u8>, entries: Seq<Entry>)
    requires
        valid_utf8(header),
        valid_entries(entries),
    ensures
        valid_utf8(render(header, entries)),
{
    let text = render(header, entries);
    let start = header.len() as int;
    lemma_render_ascii(entries);
    assert(text.subrange(0, start) =~= header);
    assert(partial_valid_utf8(text, start));
    assert forall|i: int| 0 <= start <= i < text.len() <= text.len() implies #[trigger] vstd::utf8::is_leading_byte_width_1(
        text[i],
    ) by {
        assert(text[i] == render_entries(entries)[i - start]);
    }
    partial_valid_utf8_extend_ascii_block(text, start, text.len() as int);
    assert(text.subrange(0, text.len() as int) =~= text);
}

/// What was read from a text is well formed.
pub proof fn lemma_read_well_formed(file: Option<Seq<u8>>)
    requires
        read_spec(file) is Ok,
    ensures
        well_formed(read_spec(file)->Ok_0),
{
    lemma_fold_lines_well_formed(split_on(file->0, Delim::Newline));
}

/// A text written under a neutral UTF-8 header reads back, as a file, as the
/// entries that were written.
pub proof fn lemma_read_render(header: Seq<u8>, entries: Seq<Entry>)
    requires
        neutral_header(header),
        valid_utf8(header),
        well_formed(entries),
    ensures
        read_spec(Some(render(header, entries))) == Ok::<Seq<Entry>, GenericError>(entries),
{
    crate::roundtrip::lemma_well_formed_valid(entries);
    lemma_render_utf8(header, entries);
    lemma_parse_render(header, entries);
}

/// Success is owed: on a machine without a backup, install succeeds whenever
/// the hosts file reads as a hosts file, the source is well formed and the
/// header of the backup is neutral UTF-8.
pub proof fn lemma_install_succeeds(
    s: DiskState,
    source: Seq<u8>,
    header: Seq<u8>,
    original_header: Seq<u8>,
)
    requires
        s.backup is None,
        read_spec(s.hosts) is Ok,
        parse_spec(source) is Ok,
        neutral_header(original_header),
        valid_utf8(original_header),
    ensures
        install_spec(s, source, header, original_header) == Ok::<DiskState, GenericError>(
            s.write(Slot::Backup, render(original_header, read_spec(s.hosts)->Ok_0)).write(
                Slot::Hosts,
                render(header, merge_all(parse_spec(source)->Ok_0, read_spec(s.hosts)->Ok_0)),
            ),
        ),
{
    lemma_read_well_formed(s.hosts);
    lemma_read_render(original_header, read_spec(s.hosts)->Ok_0);
}

/// Installing twice in a row on a machine without a backup leaves the hosts
/// file and the backup as installing once does, and the second install
/// writes the hosts file only: the backup is made once.
pub proof fn lemma_install_twice(
    s: DiskState,
    source: Seq<u8>,
    header: Seq<u8>,
    original_header: Seq<u8>,
)
    requires
        s.backup is None,
        install_spec(s, source, header, original_header) is Ok,
    ensures
        ({
            let once = install_spec(s, source, header, original_header)->Ok_0;
            let twice = install_spec(once, source, header, original_header);
            &&& twice is Ok
            &&& twice->Ok_0.hosts == once.hosts
            &&& twice->Ok_0.backup == once.backup
            &&& twice->Ok_0.staging == once.staging
            &&& once.backup is Some
            &&& once.hosts is Some
            &&& once.pending == s.pending.push(
                Change::Write { slot: Slot::Backup, content: once.backup->0 },
            ).push(Change::Write { slot: Slot::Hosts, content: once.hosts->0 })
            &&& twice->Ok_0.pending == once.pending.push(
                Change::Write { slot: Slot::Hosts, content: once.hosts->0 },
            )
        }),
{
}

/// Uninstall after install: the backup and the staging file are gone, and
/// the hosts file holds the entries that it held before the install,
/// written under the header of the backup. Where that header is neutral, the
/// file reads as the same entries as before the install; where the file
/// already had that written form, it is restored byte for byte.
pub proof fn lemma_uninstall_restores(
    s: DiskState,
    source: Seq<u8>,
    header: Seq<u8>,
    original_header: Seq<u8>,
)
    requires
        s.backup is None,
        install_spec(s, source, header, original_header) is Ok,
    ensures
        ({
            let installed = install_spec(s, source, header, original_header)->Ok_0;
            let restored = uninstall_spec(installed);
            let before = read_spec(s.hosts);
            &&& before is Ok
            &&& restored is Ok
            &&& restored->Ok_0.backup is None
            &&& restored->Ok_0.staging is None
            &&& restored->Ok_0.hosts == Some(render(original_header, before->Ok_0))
            &&& neutral_header(original_header) ==> read_spec(restored->Ok_0.hosts) == before
            &&& s.hosts == Some(render(original_header, before->Ok_0)) ==> restored->Ok_0.hosts
                == s.hosts
        }),
{
    let before = read_spec(s.hosts);
    if neutral_header(original_header) {
        lemma_read_well_formed(s.hosts);
        lemma_parse_render(original_header, before->Ok_0);
    }
}

/// Install loses nothing: the merged entries give every address the names
/// that the source gives it and the names that the user's entries give it,
/// and no others.
pub proof fn lemma_merge_all_map(candidate: Seq<Entry>, original: Seq<Entry>, ip: Seq<u8>)
    requires
        well_formed(original),
    ensures
        names_in(to_map(merge_all(candidate, original)), ip) == names_in(to_map(candidate), ip).union(
            names_in(to_map(original), ip),
        ),
    decreases original.len(),
{
    let none = Set::<Seq<u8>>::empty();
    if original.len() == 0 {
        assert(names_in(to_map(original), ip) =~= none);
        assert(names_in(to_map(candidate), ip).union(none) =~= names_in(to_map(candidate), ip));
    } else {
        let init = original.drop_last();
        let e = original.last();
        assert(well_formed(init)) by {
            assert forall|i: int| 0 <= i < init.len() implies init[i] == original[i] by {}
        }
        lemma_merge_all_map(candidate, init, ip);
        let so_far = merge_all(candidate, init);
        lemma_to_map_merge(so_far, e.ip, e.names);
        // the entries of `original` are those of `init` and one for a new address
        crate::hosts::lemma_ip_index(init, e.ip);
        assert(crate::hosts::ip_index(init, e.ip) == init.len()) by {
            let k = crate::hosts::ip_index(init, e.ip);
            if k < init.len() {
                assert(init[k] == original[k]);
                assert(original[k].ip != original[original.len() - 1].ip);
            }
        }
        assert(merge(init, e.ip, e.names) =~= original) by {
            assert(original[original.len() - 1].names.no_duplicates());
            crate::hosts::lemma_add_names_fresh(e.names);
            assert(init.push(e) =~= original);
        }
        lemma_to_map_merge(init, e.ip, e.names);
        if ip == e.ip {
            assert(names_in(to_map(init), ip) =~= none);
            assert(none.union(e.names.to_set()) =~= e.names.to_set());
        }
    }
}

} // verus!
