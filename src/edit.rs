//! The three operations on a table: listing its entries, adding one, and
//! removing one, with the rules that decide when a change is refused.
use vstd::prelude::*;
use crate::line::{Line, LineView, valid_entry_fields};
use crate::table::{Table, parse_text, serialize_lines};

verus! {

/// Why a change to the table was refused.
#[derive(Debug)]
pub enum HostsError {
    /// An entry with this hostname already exists.
    DuplicateHostname(String),
    /// No entry has exactly this address and hostname.
    EntryNotFound(String, String),
    /// This hostname may never be removed.
    ProtectedEntry(String),
}

/// The text shown to the user for each refusal.
pub open spec fn error_text(e: HostsError) -> Seq<char> {
    match e {
        HostsError::DuplicateHostname(h) => "Entry already exists: "@ + h@,
        HostsError::EntryNotFound(a, h) => "Entry does not exist: "@ + a@ + " "@ + h@,
        HostsError::ProtectedEntry(h) => "Cannot remove protected entry: "@ + h@,
    }
}

impl HostsError {
    /// A one-line description of the refusal.
    pub fn message(&self) -> (s: String)
        ensures
            s@ == error_text(*self),
    {
        match self {
            HostsError::DuplicateHostname(h) => {
                let mut s = "Entry already exists: ".to_owned();
                s.append(h.as_str());
                s
            },
            HostsError::EntryNotFound(a, h) => {
                let mut s = "Entry does not exist: ".to_owned();
                s.append(a.as_str());
                s.append(" ");
                s.append(h.as_str());
                s
            },
            HostsError::ProtectedEntry(h) => {
                let mut s = "Cannot remove protected entry: ".to_owned();
                s.append(h.as_str());
                s
            },
        }
    }
}

/// The (address, hostname) pair of an entry line; nothing for other lines.
pub open spec fn entry_pair(l: LineView) -> Option<(Seq<char>, Seq<char>)> {
    match l {
        LineView::Entry { address, hostname, .. } => Some((address, hostname)),
        _ => None,
    }
}

/// The (address, hostname) pairs of the entry lines, in file order.
pub open spec fn list_entries(t: Seq<LineView>) -> Seq<(Seq<char>, Seq<char>)> {
    t.filter_map(|l: LineView| entry_pair(l))
}

/// Whether a line is an entry whose hostname is exactly `h`.
pub open spec fn has_host(l: LineView, h: Seq<char>) -> bool {
    match l {
        LineView::Entry { hostname, .. } => hostname == h,
        _ => false,
    }
}

/// Whether a line is an entry with exactly this address and hostname.
pub open spec fn is_pair(l: LineView, a: Seq<char>, h: Seq<char>) -> bool {
    entry_pair(l) == Some((a, h))
}

/// Whether some entry of the table has hostname `h`.
pub open spec fn hostname_taken(t: Seq<LineView>, h: Seq<char>) -> bool {
    exists|i: int| 0 <= i < t.len() && has_host(#[trigger] t[i], h)
}

/// Whether some entry of the table has exactly this address and hostname.
pub open spec fn pair_present(t: Seq<LineView>, a: Seq<char>, h: Seq<char>) -> bool {
    exists|i: int| 0 <= i < t.len() && is_pair(#[trigger] t[i], a, h)
}

/// `i` is the first line of the table with exactly this address and hostname.
pub open spec fn first_pair(t: Seq<LineView>, a: Seq<char>, h: Seq<char>, i: int) -> bool {
    &&& 0 <= i < t.len()
    &&& is_pair(t[i], a, h)
    &&& forall|j: int| 0 <= j < i ==> !is_pair(#[trigger] t[j], a, h)
}

/// The entry line that an add writes.
pub open spec fn new_entry(a: Seq<char>, h: Seq<char>) -> LineView {
    LineView::Entry { address: a, hostname: h, trailing: None }
}

/// The hostnames that can never be removed.
pub open spec fn protected_hosts() -> Seq<Seq<char>> {
    seq!["localhost"@, "broadcasthost"@]
}

/// The text of each string, in order.
pub open spec fn texts(v: Seq<String>) -> Seq<Seq<char>> {
    v.map_values(|s: String| s@)
}

/// The text of each pair of strings, in order.
pub open spec fn pair_texts(v: Seq<(String, String)>) -> Seq<(Seq<char>, Seq<char>)> {
    v.map_values(|p: (String, String)| (p.0@, p.1@))
}

/// The hostnames that `Table::remove` refuses: `localhost` and `broadcasthost`.
pub fn default_protected() -> (v: Vec<String>)
    ensures
        texts(v@) == protected_hosts(),
{
    let v = vec!["localhost".to_owned(), "broadcasthost".to_owned()];
    assert(texts(v@) =~= protected_hosts());
    v
}

proof fn lemma_push_pair(prev: Seq<(String, String)>, cur: Seq<(String, String)>, p: (Seq<char>, Seq<char>))
    requires
        cur.len() == prev.len() + 1,
        forall|k: int| 0 <= k < prev.len() ==> cur[k] == prev[k],
        (cur[prev.len() as int].0@, cur[prev.len() as int].1@) == p,
    ensures
        pair_texts(cur) == pair_texts(prev) + seq![p],
{
    assert(pair_texts(cur) =~= pair_texts(prev) + seq![p]) by {
        assert forall|k: int| 0 <= k < cur.len() implies pair_texts(cur)[k] == (pair_texts(prev) + seq![p])[k] by {
            if k < prev.len() {
                assert(pair_texts(prev)[k] == (prev[k].0@, prev[k].1@));
            }
        }
    }
}

fn contains_text(v: &Vec<String>, s: &String) -> (b: bool)
    ensures
        b == texts(v@).contains(s@),
{
    let mut i: usize = 0;
    while i < v.len()
        invariant
            i <= v.len(),
            forall|k: int| 0 <= k < i ==> v@[k]@ != s@,
        decreases v.len() - i,
    {
        if v[i].eq(s) {
            assert(texts(v@)[i as int] == s@);
            return true;
        }
        i = i + 1;
    }
    assert forall|k: int| 0 <= k < texts(v@).len() implies texts(v@)[k] != s@ by {
        assert(texts(v@)[k] == v@[k]@);
    }
    false
}

/// Whether `hostname` is one that `Table::remove` always refuses.
pub fn is_protected(hostname: &str) -> (b: bool)
    ensures
        b == protected_hosts().contains(hostname@),
{
    let protected = default_protected();
    contains_text(&protected, &hostname.to_owned())
}

impl Table {
    /// The address and hostname of every entry line, in file order; comments,
    /// blank and passthrough lines are left out.
    pub fn list(&self) -> (r: Vec<(String, String)>)
        ensures
            pair_texts(r@) == list_entries(self@),
    {
        let mut r: Vec<(String, String)> = Vec::new();
        let mut i: usize = 0;
        assert(pair_texts(r@) =~= Seq::<(Seq<char>, Seq<char>)>::empty());
        assert(self@.subrange(0, 0) =~= Seq::<LineView>::empty());
        while i < self.lines.len()
            invariant
                i <= self.lines.len(),
                pair_texts(r@) == list_entries(self@.subrange(0, i as int)),
            decreases self.lines.len() - i,
        {
            assert(self@.subrange(0, i + 1).drop_last() =~= self@.subrange(0, i as int));
            assert(self@[i as int] == self.lines@[i as int]@);
            match &self.lines[i] {
                Line::Entry { address, hostname, .. } => {
                    let ghost prev = r@;
                    r.push((address.clone(), hostname.clone()));
                    proof {
                        lemma_push_pair(prev, r@, (address@, hostname@));
                    }
                },
                _ => {},
            }
            i = i + 1;
        }
        assert(self@.subrange(0, i as int) =~= self@);
        r
    }

    /// Appends the entry `address hostname` after all existing lines, unless
    /// an entry with exactly this hostname exists (whatever its address).
    /// Both must be single fields, the address not starting with `#`, so that
    /// the written line reads back as this entry.
    pub fn add(&mut self, address: &str, hostname: &str) -> (r: Result<(), HostsError>)
        requires
            valid_entry_fields(address@, hostname@),
        ensures
            hostname_taken(old(self)@, hostname@) ==> final(self)@ == old(self)@ && (r matches Err(
                HostsError::DuplicateHostname(h),
            ) && h@ == hostname@),
            !hostname_taken(old(self)@, hostname@) ==> r is Ok && final(self)@ == old(self)@.push(
                new_entry(address@, hostname@),
            ),
    {
        let target = hostname.to_owned();
        let mut i: usize = 0;
        while i < self.lines.len()
            invariant
                i <= self.lines.len(),
                target@ == hostname@,
                self.lines@ == old(self).lines@,
                forall|k: int| 0 <= k < i ==> !has_host(#[trigger] self@[k], hostname@),
            decreases self.lines.len() - i,
        {
            assert(self@[i as int] == self.lines@[i as int]@);
            match &self.lines[i] {
                Line::Entry { hostname: h, .. } => {
                    if h.eq(&target) {
                        return Err(HostsError::DuplicateHostname(target));
                    }
                },
                _ => {},
            }
            i = i + 1;
        }
        let ghost prev = self@;
        self.lines.push(Line::Entry { address: address.to_owned(), hostname: target, trailing: None });
        assert(self@ =~= prev.push(new_entry(address@, hostname@))) by {
            assert forall|k: int| 0 <= k < self@.len() implies self@[k] == prev.push(new_entry(address@, hostname@))[k] by {
                assert(self@[k] == self.lines@[k]@);
            }
        }
        Ok(())
    }

    /// Removes the first entry with exactly this address and hostname. Refused
    /// when the hostname is one of `protected` (whatever the address), or when
    /// no entry has exactly this pair.
    pub fn remove_with(&mut self, address: &str, hostname: &str, protected: &Vec<String>) -> (r: Result<(), HostsError>)
        ensures
            texts(protected@).contains(hostname@) ==> final(self)@ == old(self)@ && (r matches Err(
                HostsError::ProtectedEntry(h),
            ) && h@ == hostname@),
            !texts(protected@).contains(hostname@) && !pair_present(old(self)@, address@, hostname@)
                ==> final(self)@ == old(self)@ && (r matches Err(HostsError::EntryNotFound(a, h))
                && a@ == address@ && h@ == hostname@),
            !texts(protected@).contains(hostname@) && pair_present(old(self)@, address@, hostname@)
                ==> r is Ok && exists|i: int|
                first_pair(old(self)@, address@, hostname@, i) && final(self)@ == old(self)@.remove(i),
    {
        let target = hostname.to_owned();
        if contains_text(protected, &target) {
            return Err(HostsError::ProtectedEntry(target));
        }
        let wanted = address.to_owned();
        let mut i: usize = 0;
        while i < self.lines.len()
            invariant
                i <= self.lines.len(),
                target@ == hostname@,
                wanted@ == address@,
                !texts(protected@).contains(hostname@),
                self.lines@ == old(self).lines@,
                forall|k: int| 0 <= k < i ==> !is_pair(#[trigger] self@[k], address@, hostname@),
            decreases self.lines.len() - i,
        {
            assert(self@[i as int] == self.lines@[i as int]@);
            let found = match &self.lines[i] {
                Line::Entry { address: a, hostname: h, .. } => a.eq(&wanted) && h.eq(&target),
                _ => false,
            };
            if found {
                let ghost prev = self@;
                self.lines.remove(i);
                assert(first_pair(prev, address@, hostname@, i as int));
                assert(self@ =~= prev.remove(i as int)) by {
                    assert forall|k: int| 0 <= k < self@.len() implies self@[k] == prev.remove(i as int)[k] by {
                        assert(self@[k] == self.lines@[k]@);
                    }
                }
                return Ok(());
            }
            i = i + 1;
        }
        Err(HostsError::EntryNotFound(wanted, target))
    }

    /// Removes the first entry with exactly this address and hostname, never
    /// one of `localhost` or `broadcasthost`.
    pub fn remove(&mut self, address: &str, hostname: &str) -> (r: Result<(), HostsError>)
        ensures
            protected_hosts().contains(hostname@) ==> final(self)@ == old(self)@ && (r matches Err(
                HostsError::ProtectedEntry(h),
            ) && h@ == hostname@),
            !protected_hosts().contains(hostname@) && !pair_present(old(self)@, address@, hostname@)
                ==> final(self)@ == old(self)@ && (r matches Err(HostsError::EntryNotFound(a, h))
                && a@ == address@ && h@ == hostname@),
            !protected_hosts().contains(hostname@) && pair_present(old(self)@, address@, hostname@)
                ==> r is Ok && exists|i: int|
                first_pair(old(self)@, address@, hostname@, i) && final(self)@ == old(self)@.remove(i),
    {
        let protected = default_protected();
        self.remove_with(address, hostname, &protected)
    }
}

/// The new text of a hosts file after adding `ip hostname` to `contents`, or
/// the reason the add is refused. Both must be single fields, the address not
/// starting with `#`.
pub fn add_hosts_entry(contents: &str, ip: &str, hostname: &str) -> (r: Result<String, HostsError>)
    requires
        valid_entry_fields(ip@, hostname@),
    ensures
        hostname_taken(parse_text(contents@), hostname@) ==> (r matches Err(
            HostsError::DuplicateHostname(h),
        ) && h@ == hostname@),
        !hostname_taken(parse_text(contents@), hostname@) ==> (r matches Ok(s) && s@
            == serialize_lines(parse_text(contents@).push(new_entry(ip@, hostname@)))),
{
    let mut table = Table::parse(contents);
    match table.add(ip, hostname) {
        Ok(()) => Ok(table.serialize()),
        Err(e) => Err(e),
    }
}

/// The new text of a hosts file after removing the first entry `ip hostname`
/// from `contents`, or the reason the removal is refused.
pub fn remove_hosts_entry(contents: &str, ip: &str, hostname: &str) -> (r: Result<String, HostsError>)
    ensures
        protected_hosts().contains(hostname@) ==> (r matches Err(HostsError::ProtectedEntry(h))
            && h@ == hostname@),
        !protected_hosts().contains(hostname@) && !pair_present(parse_text(contents@), ip@, hostname@)
            ==> (r matches Err(HostsError::EntryNotFound(a, h)) && a@ == ip@ && h@ == hostname@),
        !protected_hosts().contains(hostname@) && pair_present(parse_text(contents@), ip@, hostname@)
            ==> (r matches Ok(s) && exists|i: int|
            first_pair(parse_text(contents@), ip@, hostname@, i) && s@ == serialize_lines(
                parse_text(contents@).remove(i),
            )),
{
    let mut table = Table::parse(contents);
    match table.remove(ip, hostname) {
        Ok(()) => Ok(table.serialize()),
        Err(e) => Err(e),
    }
}

/// The address and hostname of every entry of `contents`, in file order.
pub fn current_entries(contents: &str) -> (r: Vec<(String, String)>)
    ensures
        pair_texts(r@) == list_entries(parse_text(contents@)),
{
    Table::parse(contents).list()
}

} // verus!
