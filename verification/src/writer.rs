//! Writing a set of host entries out as the text of a hosts file.

use crate::disk::{Disk, Slot};
use crate::hosts::{Entry, Hosts};
use crate::text::views;
use vstd::prelude::*;
use vstd::slice::slice_to_vec;
use vstd::string::StringSliceAdditionalSpecFns;

verus! {

/// The byte strings of `words` with `sep` between each two.
pub open spec fn join(words: Seq<Seq<u8>>, sep: Seq<u8>) -> Seq<u8>
    decreases words.len(),
{
    if words.len() == 0 {
        Seq::empty()
    } else if words.len() == 1 {
        words[0]
    } else {
        join(words.drop_last(), sep) + sep + words.last()
    }
}

/// The line of an entry: the address, then each name after a space, then a
/// line feed.
pub open spec fn entry_line(e: Entry) -> Seq<u8> {
    e.ip + seq![0x20u8] + join(e.names, seq![0x20u8]) + seq![0x0au8]
}

/// The lines of `entries`, in order.
pub open spec fn render_entries(entries: Seq<Entry>) -> Seq<u8>
    decreases entries.len(),
{
    if entries.len() == 0 {
        Seq::empty()
    } else {
        render_entries(entries.drop_last()) + entry_line(entries.last())
    }
}

/// The text of a hosts file: the header as it is, then one line per entry.
pub open spec fn render(header: Seq<u8>, entries: Seq<Entry>) -> Seq<u8> {
    header + render_entries(entries)
}

/// Adds the bytes of `s` at the end of `out`.
pub fn push_bytes(out: &mut Vec<u8>, s: &[u8])
    ensures
        final(out)@ == old(out)@ + s@,
{
    let n: usize = s.len();
    let mut i: usize = 0;
    assert(out@ =~= old(out)@ + s@.take(0));
    while i < n
        invariant
            n == s@.len(),
            i <= n,
            out@ == old(out)@ + s@.take(i as int),
        decreases n - i,
    {
        out.push(s[i]);
        assert(out@ =~= old(out)@ + s@.take(i + 1));
        i = i + 1;
    }
    assert(s@.take(n as int) =~= s@);
}

/// Joins `words` with `sep` between each two.
pub fn join_words(words: &Vec<Vec<u8>>, sep: &[u8]) -> (r: Vec<u8>)
    ensures
        r@ == join(views(words@), sep@),
{
    let n: usize = words.len();
    let ghost w = views(words@);
    let mut r: Vec<u8> = Vec::new();
    let mut k: usize = 0;
    assert(w.take(0) =~= Seq::<Seq<u8>>::empty());
    while k < n
        invariant
            n == words@.len(),
            k <= n,
            w == views(words@),
            r@ == join(w.take(k as int), sep@),
        decreases n - k,
    {
        proof {
            assert(w.take(k + 1).drop_last() =~= w.take(k as int));
            assert(w.take(k + 1).last() == words@[k as int]@);
            if k == 0 {
                assert(r@ + words@[0]@ =~= words@[0]@);
                assert(w.take(1)[0] == words@[0]@);
            }
        }
        if k > 0 {
            push_bytes(&mut r, sep);
        }
        push_bytes(&mut r, words[k].as_slice());
        k = k + 1;
    }
    assert(w.take(n as int) =~= w);
    r
}

/// The text of a hosts file with the entries of `hosts` under `header`.
pub fn render_hosts(hosts: &Hosts, header: &[u8]) -> (out: Vec<u8>)
    ensures
        out@ == render(header@, hosts.entries()),
{
    let n: usize = hosts.len();
    let ghost all = hosts.entries();
    let mut out: Vec<u8> = slice_to_vec(header);
    let mut i: usize = 0;
    proof {
        assert(all.take(0) =~= Seq::<Entry>::empty());
        assert(out@ =~= header@ + render_entries(all.take(0)));
    }
    while i < n
        invariant
            n == all.len(),
            i <= n,
            all == hosts.entries(),
            out@ == header@ + render_entries(all.take(i as int)),
        decreases n - i,
    {
        let ghost before = out@;
        proof {
            assert(all.take(i + 1).drop_last() =~= all.take(i as int));
            assert(all.take(i + 1).last() == all[i as int]);
        }
        push_bytes(&mut out, hosts.ip_at(i).as_slice());
        out.push(0x20u8);
        let names = join_words(hosts.names_at(i), &[0x20u8]);
        push_bytes(&mut out, names.as_slice());
        out.push(0x0au8);
        proof {
            let sp: [u8; 1] = [0x20u8];
            assert(sp@ =~= seq![0x20u8]);
            assert(out@ =~= before + entry_line(all[i as int]));
            assert(out@ =~= header@ + render_entries(all.take(i + 1)));
        }
        i = i + 1;
    }
    assert(all.take(n as int) =~= all);
    out
}

/// Writes the entries of `hosts` under `header` to a file: the file then
/// holds the header as it is and one line per entry.
pub fn write_hosts_to_file(disk: &mut Disk, slot: Slot, hosts: &Hosts, header: &str)
    ensures
        final(disk)@ == old(disk)@.write(slot, render(header.spec_bytes(), hosts.entries())),
{
    let text = render_hosts(hosts, header.as_bytes());
    disk.write(slot, text);
}

} // verus!
