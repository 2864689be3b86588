//! The set of host entries: which host names belong to which IP address.
//!
//! Entries are kept in the order in which their addresses were first seen,
//! and the names of an entry in the order in which they were first seen, so
//! that writing the set out is deterministic. Seen as a map from address to a
//! set of names, the order does not matter.

use crate::syntax::{valid_host_name, valid_ip};
use crate::text::views;
use vstd::prelude::*;
use vstd::slice::slice_to_vec;

verus! {

/// One entry: an address and the names that belong to it.
pub struct Entry {
    pub ip: Seq<u8>,
    pub names: Seq<Seq<u8>>,
}

/// The position of the first entry for `ip`, or the number of entries if
/// there is none.
pub open spec fn ip_index(entries: Seq<Entry>, ip: Seq<u8>) -> int
    decreases entries.len(),
{
    if entries.len() == 0 {
        0
    } else {
        let before = ip_index(entries.drop_last(), ip);
        if before < entries.len() - 1 {
            before
        } else if entries.last().ip == ip {
            entries.len() - 1
        } else {
            entries.len() as int
        }
    }
}

/// `have`, followed by those of `more` that it lacks, each once.
pub open spec fn add_names(have: Seq<Seq<u8>>, more: Seq<Seq<u8>>) -> Seq<Seq<u8>>
    decreases more.len(),
{
    if more.len() == 0 {
        have
    } else {
        let so_far = add_names(have, more.drop_last());
        if so_far.contains(more.last()) {
            so_far
        } else {
            so_far.push(more.last())
        }
    }
}

/// The entries after the statement "`names` belong to `ip`": an entry for
/// `ip` gains the names it lacks, and a new address gets a new entry at the
/// end. Nothing is ever removed.
pub open spec fn merge(entries: Seq<Entry>, ip: Seq<u8>, names: Seq<Seq<u8>>) -> Seq<Entry> {
    let i = ip_index(entries, ip);
    if i < entries.len() {
        entries.update(i, Entry { ip, names: add_names(entries[i].names, names) })
    } else {
        entries.push(Entry { ip, names: add_names(Seq::empty(), names) })
    }
}

/// `entries` after each entry of `more`, in order, was merged into it.
pub open spec fn merge_all(entries: Seq<Entry>, more: Seq<Entry>) -> Seq<Entry>
    decreases more.len(),
{
    if more.len() == 0 {
        entries
    } else {
        merge(merge_all(entries, more.drop_last()), more.last().ip, more.last().names)
    }
}

/// The entries as a map from address to the set of its names.
pub open spec fn to_map(entries: Seq<Entry>) -> Map<Seq<u8>, Set<Seq<u8>>> {
    Map::new(
        |ip: Seq<u8>| ip_index(entries, ip) < entries.len(),
        |ip: Seq<u8>| entries[ip_index(entries, ip)].names.to_set(),
    )
}

/// No address occurs twice; every entry has at least one name and no name
/// twice; addresses and names have the syntax that the grammar asks for.
pub open spec fn well_formed(entries: Seq<Entry>) -> bool {
    &&& forall|i: int, j: int|
        0 <= i < j < entries.len() ==> (#[trigger] entries[i]).ip != (#[trigger] entries[j]).ip
    &&& forall|i: int|
        0 <= i < entries.len() ==> {
            &&& valid_ip((#[trigger] entries[i]).ip)
            &&& entries[i].names.len() > 0
            &&& entries[i].names.no_duplicates()
            &&& valid_names(entries[i].names)
        }
}

/// Every one of `names` has the syntax of a host name.
pub open spec fn valid_names(names: Seq<Seq<u8>>) -> bool {
    forall|k: int| 0 <= k < names.len() ==> valid_host_name(#[trigger] names[k])
}

/// `ip_index` is the least position of an entry for `ip`.
pub proof fn lemma_ip_index(entries: Seq<Entry>, ip: Seq<u8>)
    ensures
        0 <= ip_index(entries, ip) <= entries.len(),
        ip_index(entries, ip) < entries.len() ==> entries[ip_index(entries, ip)].ip == ip,
        forall|j: int| 0 <= j < ip_index(entries, ip) ==> (#[trigger] entries[j]).ip != ip,
    decreases entries.len(),
{
    if entries.len() > 0 {
        let init = entries.drop_last();
        lemma_ip_index(init, ip);
        assert forall|j: int| 0 <= j < ip_index(entries, ip) implies (#[trigger] entries[j]).ip
            != ip by {
            if j < entries.len() - 1 {
                assert(init[j] == entries[j]);
            }
        }
    }
}

/// An entry for `ip` among the first `k` entries is found at the same place
/// among all of them.
pub proof fn lemma_ip_index_stays(entries: Seq<Entry>, ip: Seq<u8>, k: int)
    requires
        0 <= k <= entries.len(),
        ip_index(entries.take(k), ip) < k,
    ensures
        ip_index(entries, ip) == ip_index(entries.take(k), ip),
    decreases entries.len() - k,
{
    if k < entries.len() {
        assert(entries.take(k + 1).drop_last() =~= entries.take(k));
        lemma_ip_index_stays(entries, ip, k + 1);
    } else {
        assert(entries.take(k) =~= entries);
    }
}

/// What `add_names` keeps and adds.
pub proof fn lemma_add_names(have: Seq<Seq<u8>>, more: Seq<Seq<u8>>)
    ensures
        add_names(have, more).len() >= have.len(),
        add_names(have, more).take(have.len() as int) == have,
        add_names(have, more).to_set() == have.to_set().union(more.to_set()),
        have.no_duplicates() ==> add_names(have, more).no_duplicates(),
        valid_names(have) && valid_names(more) ==> valid_names(add_names(have, more)),
    decreases more.len(),
{
    let r = add_names(have, more);
    if more.len() == 0 {
        assert(r.take(have.len() as int) =~= have);
        assert(more.to_set() =~= Set::empty());
        assert(r.to_set() =~= have.to_set().union(more.to_set()));
    } else {
        let init = more.drop_last();
        let last = more.last();
        let so_far = add_names(have, init);
        lemma_add_names(have, init);
        assert(r.take(have.len() as int) =~= so_far.take(have.len() as int));
        assert(more.to_set() =~= init.to_set().insert(last)) by {
            assert forall|x: Seq<u8>| more.to_set().contains(x) <==> init.to_set().insert(
                last,
            ).contains(x) by {
                if more.contains(x) {
                    let i = choose|i: int| 0 <= i < more.len() && more[i] == x;
                    if i < init.len() {
                        assert(init[i] == x);
                    }
                }
                if init.contains(x) {
                    let i = choose|i: int| 0 <= i < init.len() && init[i] == x;
                    assert(more[i] == x);
                }
                if x == last {
                    assert(more[more.len() - 1] == x);
                }
            }
        }
        if so_far.contains(last) {
            assert(r.to_set() =~= have.to_set().union(more.to_set()));
        } else {
            assert(r.to_set() =~= so_far.to_set().insert(last)) by {
                assert forall|x: Seq<u8>| r.to_set().contains(x) <==> so_far.to_set().insert(
                    last,
                ).contains(x) by {
                    if r.contains(x) {
                        let i = choose|i: int| 0 <= i < r.len() && r[i] == x;
                        if i < so_far.len() {
                            assert(so_far[i] == x);
                        }
                    }
                    if so_far.contains(x) {
                        let i = choose|i: int| 0 <= i < so_far.len() && so_far[i] == x;
                        assert(r[i] == x);
                    }
                    if x == last {
                        assert(r[r.len() - 1] == x);
                    }
                }
            }
            assert(r.to_set() =~= have.to_set().union(more.to_set()));
            if have.no_duplicates() {
                assert forall|i: int, j: int| 0 <= i < r.len() && 0 <= j < r.len() && i != j implies r[i] != r[j] by {
                    if i < so_far.len() {
                        assert(so_far[i] == r[i]);
                    }
                    if j < so_far.len() {
                        assert(so_far[j] == r[j]);
                    }
                }
            }
        }
        if valid_names(have) && valid_names(more) {
            assert(valid_names(init)) by {
                assert forall|k: int| 0 <= k < init.len() implies valid_host_name(
                    #[trigger] init[k],
                ) by {
                    assert(init[k] == more[k]);
                }
            }
            assert(valid_host_name(more[more.len() - 1]));
        }
    }
}

/// Names that are distinct and new stay as they are.
pub proof fn lemma_add_names_fresh(names: Seq<Seq<u8>>)
    requires
        names.no_duplicates(),
    ensures
        add_names(Seq::empty(), names) == names,
    decreases names.len(),
{
    if names.len() == 0 {
        assert(names =~= Seq::empty());
    } else {
        let init = names.drop_last();
        lemma_add_names_fresh(init);
        assert(!init.contains(names.last())) by {
            if init.contains(names.last()) {
                let i = choose|i: int| 0 <= i < init.len() && init[i] == names.last();
                assert(names[i] == names[names.len() - 1]);
            }
        }
        assert(init.push(names.last()) =~= names);
    }
}

/// A statement with valid words keeps the entries well formed.
pub proof fn lemma_merge_well_formed(entries: Seq<Entry>, ip: Seq<u8>, names: Seq<Seq<u8>>)
    requires
        well_formed(entries),
        valid_ip(ip),
        names.len() > 0,
        valid_names(names),
    ensures
        well_formed(merge(entries, ip, names)),
{
    let i = ip_index(entries, ip);
    let r = merge(entries, ip, names);
    lemma_ip_index(entries, ip);
    if i < entries.len() {
        lemma_add_names(entries[i].names, names);
    } else {
        lemma_add_names(Seq::empty(), names);
        let added = add_names(Seq::empty(), names);
        assert(added.to_set().contains(names[0]));
    }
    assert forall|a: int, b: int| 0 <= a < b < r.len() implies (#[trigger] r[a]).ip != (
    #[trigger] r[b]).ip by {
        if i < entries.len() {
            assert(r[a].ip == entries[a].ip);
            assert(r[b].ip == entries[b].ip);
        } else if b < entries.len() {
            assert(r[a] == entries[a]);
            assert(r[b] == entries[b]);
        } else {
            assert(r[a] == entries[a]);
        }
    }
    assert forall|a: int| 0 <= a < r.len() implies {
        &&& valid_ip((#[trigger] r[a]).ip)
        &&& r[a].names.len() > 0
        &&& r[a].names.no_duplicates()
        &&& valid_names(r[a].names)
    } by {
        if a != i {
            assert(r[a] == entries[a]);
        }
    }
}

/// Merging well-formed entries into well-formed entries keeps them well
/// formed.
pub proof fn lemma_merge_all_well_formed(entries: Seq<Entry>, more: Seq<Entry>)
    requires
        well_formed(entries),
        well_formed(more),
    ensures
        well_formed(merge_all(entries, more)),
    decreases more.len(),
{
    if more.len() > 0 {
        let init = more.drop_last();
        assert(well_formed(init)) by {
            assert forall|i: int| 0 <= i < init.len() implies init[i] == more[i] by {}
        }
        lemma_merge_all_well_formed(entries, init);
        assert(more[more.len() - 1] == more.last());
        lemma_merge_well_formed(merge_all(entries, init), more.last().ip, more.last().names);
    }
}

/// The names that a map records for `ip`: none if it has no such address.
pub open spec fn names_in(m: Map<Seq<u8>, Set<Seq<u8>>>, ip: Seq<u8>) -> Set<Seq<u8>> {
    if m.contains_key(ip) {
        m[ip]
    } else {
        Set::empty()
    }
}

/// Where the entry for an address stands after a statement.
pub proof fn lemma_ip_index_merge(
    entries: Seq<Entry>,
    ip: Seq<u8>,
    names: Seq<Seq<u8>>,
    other: Seq<u8>,
)
    ensures
        ip_index(merge(entries, ip, names), ip) == ip_index(entries, ip),
        ip_index(entries, other) < entries.len() ==> ip_index(merge(entries, ip, names), other)
            == ip_index(entries, other),
        other != ip && ip_index(entries, other) == entries.len() ==> ip_index(
            merge(entries, ip, names),
            other,
        ) == merge(entries, ip, names).len(),
{
    let i = ip_index(entries, ip);
    let after = merge(entries, ip, names);
    lemma_ip_index(entries, ip);
    lemma_ip_index(entries, other);
    lemma_ip_index(after, ip);
    lemma_ip_index(after, other);
    if i < entries.len() {
        assert(after[i].ip == ip);
        let k = ip_index(after, ip);
        if k < i {
            assert(after[k].ip == entries[k].ip);
        }
        let o = ip_index(entries, other);
        let oa = ip_index(after, other);
        if o < entries.len() {
            assert(after[o].ip == entries[o].ip);
            if oa < o {
                assert(after[oa].ip == entries[oa].ip);
            }
        } else if oa < after.len() {
            assert(after[oa].ip == entries[oa].ip);
        }
    } else {
        assert(after[entries.len() as int].ip == ip);
        let k = ip_index(after, ip);
        if k < entries.len() {
            assert(after[k] == entries[k]);
        }
        let o = ip_index(entries, other);
        let oa = ip_index(after, other);
        if o < entries.len() {
            assert(after[o] == entries[o]);
            if oa < o {
                assert(after[oa] == entries[oa]);
            }
        } else if oa < entries.len() {
            assert(after[oa] == entries[oa]);
        }
    }
}

/// The merge rule on the map: a statement adds its names to those of its
/// address, and changes nothing else.
pub proof fn lemma_to_map_merge(entries: Seq<Entry>, ip: Seq<u8>, names: Seq<Seq<u8>>)
    ensures
        to_map(merge(entries, ip, names)) == to_map(entries).insert(
            ip,
            names_in(to_map(entries), ip).union(names.to_set()),
        ),
{
    let before = to_map(entries);
    let after = merge(entries, ip, names);
    let wanted = before.insert(ip, names_in(before, ip).union(names.to_set()));
    let i = ip_index(entries, ip);
    lemma_ip_index(entries, ip);
    lemma_ip_index_merge(entries, ip, names, ip);
    if i < entries.len() {
        lemma_add_names(entries[i].names, names);
    } else {
        lemma_add_names(Seq::empty(), names);
        assert(Seq::<Seq<u8>>::empty().to_set() =~= Set::<Seq<u8>>::empty());
        assert(Set::<Seq<u8>>::empty().union(names.to_set()) =~= names.to_set());
    }
    assert forall|q: Seq<u8>| to_map(after).contains_key(q) == wanted.contains_key(q) by {
        lemma_ip_index_merge(entries, ip, names, q);
        lemma_ip_index(entries, q);
    }
    assert forall|q: Seq<u8>| to_map(after).contains_key(q) implies to_map(after)[q]
        == wanted[q] by {
        lemma_ip_index_merge(entries, ip, names, q);
        lemma_ip_index(entries, q);
        if q != ip {
            let o = ip_index(entries, q);
            assert(after[o] == entries[o]);
        }
    }
    assert(to_map(after) =~= wanted);
}

/// Two statements for one address may come in either order: the map is the
/// same.
pub proof fn lemma_merge_commutes(
    entries: Seq<Entry>,
    ip: Seq<u8>,
    a: Seq<Seq<u8>>,
    b: Seq<Seq<u8>>,
)
    ensures
        to_map(merge(merge(entries, ip, a), ip, b)) == to_map(merge(merge(entries, ip, b), ip, a)),
        to_map(merge(merge(entries, ip, a), ip, b)) == to_map(entries).insert(
            ip,
            names_in(to_map(entries), ip).union(a.to_set().union(b.to_set())),
        ),
{
    let m = to_map(entries);
    let s = names_in(m, ip);
    lemma_to_map_merge(entries, ip, a);
    lemma_to_map_merge(merge(entries, ip, a), ip, b);
    lemma_to_map_merge(entries, ip, b);
    lemma_to_map_merge(merge(entries, ip, b), ip, a);
    let ab = s.union(a.to_set()).union(b.to_set());
    let ba = s.union(b.to_set()).union(a.to_set());
    assert(ab =~= s.union(a.to_set().union(b.to_set())));
    assert(ba =~= s.union(a.to_set().union(b.to_set())));
    assert(m.insert(ip, s.union(a.to_set())).insert(ip, ab) =~= m.insert(ip, ab));
    assert(m.insert(ip, s.union(b.to_set())).insert(ip, ba) =~= m.insert(ip, ba));
}

/// Compares two byte strings.
pub fn bytes_eq(a: &[u8], b: &[u8]) -> (r: bool)
    ensures
        r == (a@ == b@),
{
    let n: usize = a.len();
    if b.len() != n {
        return false;
    }
    let mut i: usize = 0;
    while i < n
        invariant
            n == a@.len(),
            n == b@.len(),
            i <= n,
            forall|j: int| 0 <= j < i ==> a@[j] == b@[j],
        decreases n - i,
    {
        if a[i] != b[i] {
            return false;
        }
        i = i + 1;
    }
    assert(a@ =~= b@);
    true
}

/// Looks for a byte string among `names`.
pub fn holds_name(names: &Vec<Vec<u8>>, name: &[u8]) -> (r: bool)
    ensures
        r == views(names@).contains(name@),
{
    let n: usize = names.len();
    let mut i: usize = 0;
    while i < n
        invariant
            n == names@.len(),
            i <= n,
            forall|j: int| 0 <= j < i ==> views(names@)[j] != name@,
        decreases n - i,
    {
        if bytes_eq(names[i].as_slice(), name) {
            assert(views(names@)[i as int] == name@);
            return true;
        }
        i = i + 1;
    }
    false
}

/// An address with its names, as stored.
#[derive(Clone, Debug, PartialEq, Eq)]
pub struct HostEntry {
    ip: Vec<u8>,
    names: Vec<Vec<u8>>,
}

impl View for HostEntry {
    type V = Entry;

    closed spec fn view(&self) -> Entry {
        Entry { ip: self.ip@, names: views(self.names@) }
    }
}

/// A set of host entries.
#[derive(Clone, Debug, PartialEq, Eq)]
pub struct Hosts {
    entries: Vec<HostEntry>,
}

impl View for Hosts {
    type V = Map<Seq<u8>, Set<Seq<u8>>>;

    /// The set as a map from address to the set of its names.
    open spec fn view(&self) -> Map<Seq<u8>, Set<Seq<u8>>> {
        to_map(self.entries())
    }
}

impl Hosts {
    /// The entries in the order in which they are written out.
    pub closed spec fn entries(&self) -> Seq<Entry> {
        Seq::new(self.entries@.len(), |i: int| self.entries@[i]@)
    }

    /// The invariant of the type.
    pub open spec fn wf(&self) -> bool {
        well_formed(self.entries())
    }

    /// The empty set.
    pub fn new() -> (r: Hosts)
        ensures
            r.entries() == Seq::<Entry>::empty(),
            r.wf(),
    {
        let r = Hosts { entries: Vec::new() };
        assert(r.entries() =~= Seq::<Entry>::empty());
        r
    }

    /// The number of addresses.
    pub fn len(&self) -> (n: usize)
        ensures
            n == self.entries().len(),
    {
        self.entries.len()
    }

    /// The address of entry number `i`.
    pub fn ip_at(&self, i: usize) -> (ip: &Vec<u8>)
        requires
            i < self.entries().len(),
        ensures
            ip@ == self.entries()[i as int].ip,
    {
        &self.entries[i].ip
    }

    /// The names of entry number `i`.
    pub fn names_at(&self, i: usize) -> (names: &Vec<Vec<u8>>)
        requires
            i < self.entries().len(),
        ensures
            views(names@) == self.entries()[i as int].names,
    {
        &self.entries[i].names
    }

    /// The position of the entry for `ip`, or `len()` if there is none.
    pub fn position(&self, ip: &[u8]) -> (r: usize)
        ensures
            r == ip_index(self.entries(), ip@),
            r <= self.entries().len(),
    {
        let n: usize = self.entries.len();
        let ghost all = self.entries();
        let mut i: usize = 0;
        assert(all.take(0) =~= Seq::<Entry>::empty());
        while i < n
            invariant
                n == self.entries@.len(),
                all == self.entries(),
                i <= n,
                ip_index(all.take(i as int), ip@) == i,
            decreases n - i,
        {
            proof {
                assert(all.take(i + 1).drop_last() =~= all.take(i as int));
                assert(all.take(i + 1).last() == all[i as int]);
            }
            if bytes_eq(self.entries[i].ip.as_slice(), ip) {
                proof {
                    lemma_ip_index_stays(all, ip@, i + 1);
                }
                return i;
            }
            i = i + 1;
        }
        assert(all.take(n as int) =~= all);
        i
    }

    /// Whether `name` is recorded for `ip`.
    pub fn contains(&self, ip: &[u8], name: &[u8]) -> (r: bool)
        ensures
            r == (self@.contains_key(ip@) && self@[ip@].contains(name@)),
    {
        let i = self.position(ip);
        if i < self.entries.len() {
            let r = holds_name(&self.entries[i].names, name);
            proof {
                let names = self.entries()[i as int].names;
                assert(names.to_set().contains(name@) <==> names.contains(name@));
            }
            r
        } else {
            false
        }
    }

    /// Records that `names` belong to `ip`.
    pub fn add(&mut self, ip: &[u8], names: &Vec<Vec<u8>>)
        ensures
            final(self).entries() == merge(old(self).entries(), ip@, views(names@)),
            old(self).wf() && valid_ip(ip@) && names@.len() > 0 && valid_names(views(names@))
                ==> final(self).wf(),
    {
        proof {
            if old(self).wf() && valid_ip(ip@) && names@.len() > 0 && valid_names(views(names@)) {
                lemma_merge_well_formed(old(self).entries(), ip@, views(names@));
            }
        }
        let i = self.position(ip);
        let n: usize = names.len();
        let ghost before = self.entries();
        let ghost wanted = views(names@);
        if i < self.entries.len() {
            let mut k: usize = 0;
            assert(wanted.take(0) =~= Seq::<Seq<u8>>::empty());
            assert(self.entries() =~= before.update(
                i as int,
                Entry { ip: ip@, names: add_names(before[i as int].names, wanted.take(0)) },
            )) by {
                lemma_ip_index(before, ip@);
            }
            while k < n
                invariant
                    k <= n,
                    n == names@.len(),
                    wanted == views(names@),
                    i < before.len(),
                    self.entries@.len() == before.len(),
                    self.entries() == before.update(
                        i as int,
                        Entry {
                            ip: ip@,
                            names: add_names(before[i as int].names, wanted.take(k as int)),
                        },
                    ),
                decreases n - k,
            {
                let ghost now = self.entries();
                proof {
                    assert(wanted.take(k + 1).drop_last() =~= wanted.take(k as int));
                    assert(wanted.take(k + 1).last() == names@[k as int]@);
                    assert(now[i as int].names == views(self.entries@[i as int].names@));
                }
                if !holds_name(&self.entries[i].names, names[k].as_slice()) {
                    let copy = slice_to_vec(names[k].as_slice());
                    let ghost had = views(self.entries@[i as int].names@);
                    let ghost stored = self.entries@;
                    self.entries[i].names.push(copy);
                    assert(self.entries@.len() == stored.len());
                    assert(forall|j: int|
                        0 <= j < stored.len() && j != i ==> self.entries@[j] == stored[j]);
                    assert(self.entries@[i as int].ip == stored[i as int].ip);
                    assert(views(self.entries@[i as int].names@) =~= had.push(names@[k as int]@));
                    assert(add_names(before[i as int].names, wanted.take(k + 1)) == had.push(
                        names@[k as int]@,
                    ));
                    assert forall|j: int| 0 <= j < stored.len() implies self.entries()[j]
                        == before.update(
                        i as int,
                        Entry {
                            ip: ip@,
                            names: add_names(before[i as int].names, wanted.take(k + 1)),
                        },
                    )[j] by {
                        if j != i {
                            assert(self.entries()[j] == now[j]);
                        }
                    }
                    assert(self.entries() =~= before.update(
                        i as int,
                        Entry {
                            ip: ip@,
                            names: add_names(before[i as int].names, wanted.take(k + 1)),
                        },
                    ));
                }
                k = k + 1;
            }
            assert(wanted.take(n as int) =~= wanted);
        } else {
            let mut fresh: Vec<Vec<u8>> = Vec::new();
            let mut k: usize = 0;
            assert(wanted.take(0) =~= Seq::<Seq<u8>>::empty());
            assert(views(fresh@) =~= Seq::<Seq<u8>>::empty());
            while k < n
                invariant
                    k <= n,
                    n == names@.len(),
                    wanted == views(names@),
                    views(fresh@) == add_names(Seq::empty(), wanted.take(k as int)),
                decreases n - k,
            {
                proof {
                    assert(wanted.take(k + 1).drop_last() =~= wanted.take(k as int));
                    assert(wanted.take(k + 1).last() == names@[k as int]@);
                }
                if !holds_name(&fresh, names[k].as_slice()) {
                    let ghost had = views(fresh@);
                    fresh.push(slice_to_vec(names[k].as_slice()));
                    assert(views(fresh@) =~= had.push(names@[k as int]@));
                }
                k = k + 1;
            }
            assert(wanted.take(n as int) =~= wanted);
            self.entries.push(HostEntry { ip: slice_to_vec(ip), names: fresh });
            assert(self.entries() =~= before.push(
                Entry { ip: ip@, names: add_names(Seq::empty(), wanted) },
            ));
        }
    }

    /// Merges every entry of `other` into this set, in the order of `other`.
    /// Names that this set has stay; nothing is replaced or removed.
    pub fn append(&mut self, other: &Hosts)
        ensures
            final(self).entries() == merge_all(old(self).entries(), other.entries()),
            old(self).wf() && other.wf() ==> final(self).wf(),
    {
        let n: usize = other.entries.len();
        let ghost before = self.entries();
        let ghost more = other.entries();
        let mut k: usize = 0;
        assert(more.take(0) =~= Seq::<Entry>::empty());
        while k < n
            invariant
                k <= n,
                n == other.entries@.len(),
                more == other.entries(),
                self.entries() == merge_all(before, more.take(k as int)),
            decreases n - k,
        {
            proof {
                assert(more.take(k + 1).drop_last() =~= more.take(k as int));
                assert(more.take(k + 1).last() == more[k as int]);
            }
            self.add(other.entries[k].ip.as_slice(), &other.entries[k].names);
            k = k + 1;
        }
        proof {
            assert(more.take(n as int) =~= more);
            if old(self).wf() && other.wf() {
                lemma_merge_all_well_formed(before, more);
            }
        }
    }
}

} // verus!
