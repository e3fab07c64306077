//! Directory trees held in memory: names mapped to files (bytes) or subdirectories.
use vstd::prelude::*;
use crate::diagnostics::{decimal, push_decimal};
use vstd::string::StrSliceExecFns;

verus! {

/// One entry of a directory tree.
#[derive(Debug)]
pub enum RawEntry {
    Dir(RawDir),
    File(Vec<u8>),
}

/// A directory tree: its entries, in ascending order of their names.
#[derive(Debug)]
pub struct RawDir {
    entries: Vec<(String, RawEntry)>,
}

/// Whether name `a` sorts before name `b`: character by character, by code point,
/// a proper prefix first (the order of Rust's `String`).
pub open spec fn name_less(a: Seq<char>, b: Seq<char>) -> bool
    decreases a.len(),
{
    if a.len() == 0 {
        b.len() > 0
    } else if b.len() == 0 {
        false
    } else if a[0] != b[0] {
        (a[0] as int) < (b[0] as int)
    } else {
        name_less(a.drop_first(), b.drop_first())
    }
}

/// The name order is transitive.
pub proof fn lemma_name_less_trans(a: Seq<char>, b: Seq<char>, c: Seq<char>)
    requires
        name_less(a, b),
        name_less(b, c),
    ensures
        name_less(a, c),
    decreases a.len(),
{
    if a.len() > 0 && b.len() > 0 && c.len() > 0 && a[0] == b[0] && b[0] == c[0] {
        lemma_name_less_trans(a.drop_first(), b.drop_first(), c.drop_first());
    }
}

/// The name order is strict and total: of two different names exactly one sorts
/// first, and no name sorts before itself.
pub proof fn lemma_name_less_total(a: Seq<char>, b: Seq<char>)
    ensures
        !name_less(a, a),
        a != b ==> (name_less(a, b) || name_less(b, a)),
        !(name_less(a, b) && name_less(b, a)),
    decreases a.len(),
{
    if a.len() > 0 {
        lemma_name_less_total(a.drop_first(), a.drop_first());
        if b.len() > 0 && a[0] != b[0] {
            assert((a[0] as int) != (b[0] as int));
        }
        if b.len() > 0 {
            lemma_name_less_total(a.drop_first(), b.drop_first());
            if a[0] == b[0] && a.drop_first() == b.drop_first() {
                assert(a =~= b) by {
                    assert forall|i: int| 0 <= i < a.len() implies a[i] == b[i] by {
                        if i > 0 {
                            assert(a[i] == a.drop_first()[i - 1]);
                            assert(b[i] == b.drop_first()[i - 1]);
                        }
                    }
                }
            }
        }
    } else if b.len() == 0 {
        assert(a =~= b);
    }
}

/// Whether the names of `s` strictly ascend.
pub open spec fn sorted_names(s: Seq<(String, RawEntry)>) -> bool {
    forall|i: int, j: int| 0 <= i < j < s.len() ==> name_less((#[trigger] s[i]).0@, (#[trigger] s[j]).0@)
}

/// Whether name `a` sorts before name `b`.
pub fn name_before(a: &str, b: &str) -> (r: bool)
    ensures
        r == name_less(a@, b@),
{
    let la = a.unicode_len();
    let lb = b.unicode_len();
    let mut i: usize = 0;
    assert(a@.subrange(0, la as int) =~= a@);
    assert(b@.subrange(0, lb as int) =~= b@);
    while i < la && i < lb
        invariant
            i <= la,
            i <= lb,
            la == a@.len(),
            lb == b@.len(),
            name_less(a@, b@) == name_less(a@.subrange(i as int, la as int), b@.subrange(i as int, lb as int)),
        decreases la - i,
    {
        let ca = a.get_char(i);
        let cb = b.get_char(i);
        let ghost sa = a@.subrange(i as int, la as int);
        let ghost sb = b@.subrange(i as int, lb as int);
        assert(sa[0] == ca && sb[0] == cb);
        if ca != cb {
            return (ca as u32) < (cb as u32);
        }
        assert(sa.drop_first() =~= a@.subrange(i + 1, la as int));
        assert(sb.drop_first() =~= b@.subrange(i + 1, lb as int));
        i = i + 1;
    }
    i == la && i < lb
}

/// The position of the first entry named `name` in `s`, if any.
pub open spec fn position_of(s: Seq<(String, RawEntry)>, name: Seq<char>) -> Option<int>
    decreases s.len(),
{
    if s.len() == 0 {
        None
    } else {
        match position_of(s.drop_last(), name) {
            Some(i) => Some(i),
            None => if s.last().0@ == name {
                Some(s.len() - 1)
            } else {
                None
            },
        }
    }
}

/// The first entry named `name` is at `k` when `k` holds that name and no entry
/// before it does; there is none when no entry holds it.
proof fn lemma_position_of(s: Seq<(String, RawEntry)>, name: Seq<char>, k: int)
    requires
        0 <= k <= s.len(),
        forall|j: int| 0 <= j < k ==> s[j].0@ != name,
        k < s.len() ==> s[k].0@ == name,
    ensures
        position_of(s, name) == if k < s.len() { Some(k) } else { None::<int> },
    decreases s.len(),
{
    if s.len() > 0 {
        let t = s.drop_last();
        if k < s.len() - 1 {
            lemma_position_of(t, name, k);
        } else {
            assert forall|j: int| 0 <= j < t.len() implies t[j].0@ != name by {
                assert(t[j] == s[j]);
            }
            lemma_position_of(t, name, t.len() as int);
        }
    }
}

impl RawDir {
    /// The entries of this directory, in order.
    pub closed spec fn spec_entries(&self) -> Seq<(String, RawEntry)> {
        self.entries@
    }

    /// The names of the entries, in order.
    pub open spec fn names(&self) -> Seq<Seq<char>> {
        self.spec_entries().map_values(|e: (String, RawEntry)| e.0@)
    }

    /// The names strictly ascend, so each appears once.
    pub open spec fn wf(&self) -> bool {
        sorted_names(self.spec_entries())
    }

    /// The contents of the file named `name` at the root, if there is one.
    pub open spec fn file_at(&self, name: Seq<char>) -> Option<Seq<u8>> {
        match position_of(self.spec_entries(), name) {
            Some(i) => match self.spec_entries()[i].1 {
                RawEntry::File(b) => Some(b@),
                RawEntry::Dir(_) => None,
            },
            None => None,
        }
    }

    /// An empty directory.
    pub fn new() -> (r: RawDir)
        ensures
            r.wf(),
            r.deep_wf(),
            r.spec_entries().len() == 0,
    {
        RawDir { entries: Vec::new() }
    }

    /// The number of entries.
    pub fn len(&self) -> (r: usize)
        ensures
            r == self.spec_entries().len(),
    {
        self.entries.len()
    }

    /// The entry at position `i`.
    pub fn entry(&self, i: usize) -> (r: (&str, &RawEntry))
        requires
            i < self.spec_entries().len(),
        ensures
            r.0@ == self.spec_entries()[i as int].0@,
            *r.1 == self.spec_entries()[i as int].1,
    {
        let e = &self.entries[i];
        (e.0.as_str(), &e.1)
    }

    fn find(&self, name: &str) -> (r: Option<usize>)
        ensures
            r matches Some(i) ==> position_of(self.spec_entries(), name@) == Some(i as int)
                && i < self.spec_entries().len() && self.spec_entries()[i as int].0@ == name@,
            r is None ==> position_of(self.spec_entries(), name@) is None
                && forall|j: int| 0 <= j < self.spec_entries().len() ==> self.spec_entries()[j].0@ != name@,
    {
        let key = String::from_str(name);
        let mut i: usize = 0;
        while i < self.entries.len()
            invariant
                i <= self.spec_entries().len(),
                key@ == name@,
                forall|j: int| 0 <= j < i ==> self.spec_entries()[j].0@ != name@,
            decreases self.spec_entries().len() - i,
        {
            if self.entries[i].0 == key {
                proof {
                    lemma_position_of(self.spec_entries(), name@, i as int);
                }
                return Some(i);
            }
            i = i + 1;
        }
        proof {
            lemma_position_of(self.spec_entries(), name@, i as int);
        }
        None
    }

    /// The contents of the file named `name` at the root, if there is one.
    pub fn get_file(&self, name: &str) -> (r: Option<&Vec<u8>>)
        ensures
            match r {
                Some(b) => self.file_at(name@) == Some(b@),
                None => self.file_at(name@) is None,
            },
    {
        match self.find(name) {
            Some(i) => match &self.entries[i].1 {
                RawEntry::File(b) => Some(b),
                RawEntry::Dir(_) => None,
            },
            None => None,
        }
    }

    /// Stores `entry` under `name` at the root: in place of the entry of that
    /// name, or as a new entry at the position that keeps names ascending.
    pub fn insert(&mut self, name: &str, entry: RawEntry)
        requires
            old(self).wf(),
        ensures
            final(self).wf(),
            position_of(old(self).spec_entries(), name@) matches Some(i) ==> final(self).spec_entries()
                == old(self).spec_entries().update(i, (final(self).spec_entries()[i].0, entry))
                && final(self).spec_entries()[i].0@ == name@,
            position_of(old(self).spec_entries(), name@) is None ==> exists|p: int| 0 <= p <= old(self).spec_entries().len()
                && final(self).spec_entries() == old(self).spec_entries().insert(p, (final(self).spec_entries()[p].0, entry))
                && final(self).spec_entries()[p].0@ == name@,
            old(self).deep_wf() && entry_deep_wf(entry) ==> final(self).deep_wf(),
    {
        let ghost e0 = self.entries@;
        let ghost ent = entry;
        proof {
            lemma_deep_wf_upto(*old(self), e0.len() as int);
        }
        let key = String::from_str(name);
        let mut p: usize = 0;
        while p < self.entries.len() && name_before(self.entries[p].0.as_str(), name)
            invariant
                p <= e0.len(),
                self.entries@ == e0,
                key@ == name@,
                forall|j: int| 0 <= j < p ==> name_less((#[trigger] e0[j]).0@, name@),
            decreases e0.len() - p,
        {
            p = p + 1;
        }
        proof {
            assert forall|j: int| 0 <= j < p implies (#[trigger] e0[j]).0@ != name@ by {
                lemma_name_less_total(name@, name@);
            }
        }
        if p < self.entries.len() && self.entries[p].0 == key {
            proof {
                lemma_position_of(e0, name@, p as int);
            }
            self.entries.set(p, (key, entry));
            proof {
                assert forall|a: int, b: int| 0 <= a < b < self.spec_entries().len()
                    implies name_less((#[trigger] self.spec_entries()[a]).0@, (#[trigger] self.spec_entries()[b]).0@) by {
                    assert(name_less(e0[a].0@, e0[b].0@));
                }
                if old(self).deep_wf() && entry_deep_wf(ent) {
                    let e1 = self.spec_entries();
                    assert forall|j: int| 0 <= j < e1.len() implies entry_deep_wf(#[trigger] e1[j].1) by {
                        if j != p {
                            assert(e1[j] == e0[j]);
                        }
                    }
                    lemma_deep_wf_upto(*self, e1.len() as int);
                }
            }
        } else {
            proof {
                if p < e0.len() {
                    lemma_name_less_total(e0[p as int].0@, name@);
                    assert(name_less(name@, e0[p as int].0@));
                }
                assert forall|j: int| p <= j < e0.len() implies name_less(name@, (#[trigger] e0[j]).0@) by {
                    if j > p {
                        assert(name_less(e0[p as int].0@, e0[j].0@));
                        lemma_name_less_trans(name@, e0[p as int].0@, e0[j].0@);
                    }
                }
                assert forall|j: int| 0 <= j < e0.len() implies (#[trigger] e0[j]).0@ != name@ by {
                    if j >= p {
                        lemma_name_less_total(name@, name@);
                    }
                }
                lemma_position_of(e0, name@, e0.len() as int);
            }
            self.entries.insert(p, (key, entry));
            proof {
                let e1 = self.spec_entries();
                assert forall|a: int, b: int| 0 <= a < b < e1.len()
                    implies name_less((#[trigger] e1[a]).0@, (#[trigger] e1[b]).0@) by {
                    if b < p {
                        assert(name_less(e0[a].0@, e0[b].0@));
                    } else if b == p {
                        assert(e1[a] == e0[a]);
                    } else if a < p {
                        assert(e1[a] == e0[a] && e1[b] == e0[b - 1]);
                        lemma_name_less_trans(e0[a].0@, name@, e0[b - 1].0@);
                    } else if a == p {
                        assert(e1[b] == e0[b - 1]);
                    } else {
                        assert(e1[a] == e0[a - 1] && e1[b] == e0[b - 1]);
                        assert(name_less(e0[a - 1].0@, e0[b - 1].0@));
                    }
                }
                assert(e1 =~= e0.insert(p as int, (e1[p as int].0, entry)));
                if old(self).deep_wf() && entry_deep_wf(ent) {
                    assert forall|j: int| 0 <= j < e1.len() implies entry_deep_wf(#[trigger] e1[j].1) by {
                        if j < p {
                            assert(e1[j] == e0[j]);
                        } else if j > p {
                            assert(e1[j] == e0[j - 1]);
                        }
                    }
                    lemma_deep_wf_upto(*self, e1.len() as int);
                }
            }
        }
    }
}

/// Two spaces per level.
pub open spec fn indent(level: nat) -> Seq<char>
    decreases level,
{
    if level == 0 {
        Seq::empty()
    } else {
        indent((level - 1) as nat) + "  "@
    }
}

/// The line of a file entry: its name and size in bytes.
pub open spec fn file_line(name: Seq<char>, size: nat, level: nat) -> Seq<char> {
    indent(level) + name + " ("@ + decimal(size) + "B)\n"@
}

impl RawDir {
    /// The lines of the file entries among the first `n` entries, in order.
    pub open spec fn render_files(&self, n: int, level: nat) -> Seq<char>
        decreases n,
    {
        if n <= 0 || n > self.spec_entries().len() {
            Seq::empty()
        } else {
            self.render_files(n - 1, level) + match self.spec_entries()[n - 1].1 {
                RawEntry::File(b) => file_line(self.spec_entries()[n - 1].0@, b@.len(), level),
                RawEntry::Dir(_) => Seq::empty(),
            }
        }
    }

    /// The rendering of the subdirectories among the first `n` entries, in order:
    /// each one's name, then its own rendering one level deeper.
    pub open spec fn render_dirs(&self, n: int, level: nat) -> Seq<char>
        decreases self, n,
    {
        if n <= 0 || n > self.spec_entries().len() {
            Seq::empty()
        } else {
            self.render_dirs(n - 1, level) + match self.spec_entries()[n - 1].1 {
                RawEntry::Dir(sub) => {
                    indent(level) + self.spec_entries()[n - 1].0@ + "\n"@ + sub.render((level + 1) as nat)
                },
                RawEntry::File(_) => Seq::empty(),
            }
        }
    }

    /// The indented rendering of this tree: subdirectories first, each followed by
    /// its contents, then files with their sizes, each group in entry order.
    pub open spec fn render(&self, level: nat) -> Seq<char>
        decreases self, self.spec_entries().len() + 1,
    {
        self.render_dirs(self.spec_entries().len() as int, level) + self.render_files(self.spec_entries().len() as int, level)
    }

    fn render_into(&self, pad: &str, level: Ghost<nat>, out: &mut String)
        requires
            pad@ == indent(level@),
        ensures
            final(out)@ == old(out)@ + self.render(level@),
        decreases self,
    {
        proof {
            reveal_strlit("\n");
            reveal_strlit("  ");
            reveal_strlit(" (");
            reveal_strlit("B)\n");
        }
        let ghost start = out@;
        let mut i: usize = 0;
        while i < self.entries.len()
            invariant
                i <= self.entries@.len(),
                pad@ == indent(level@),
                out@ == start + self.render_dirs(i as int, level@),
            decreases self.entries@.len() - i,
        {
            let ghost before = out@;
            match &self.entries[i].1 {
                RawEntry::Dir(sub) => {
                    out.append(pad);
                    out.append(self.entries[i].0.as_str());
                    out.append("\n");
                    let mut deeper = String::from_str(pad);
                    deeper.append("  ");
                    sub.render_into(deeper.as_str(), Ghost((level@ + 1) as nat), out);
                    assert(out@ =~= before + (indent(level@) + self.entries@[i as int].0@ + "\n"@ + sub.render((level@ + 1) as nat)));
                },
                RawEntry::File(_) => {},
            }
            i = i + 1;
        }
        let ghost mid = out@;
        let mut i: usize = 0;
        while i < self.entries.len()
            invariant
                i <= self.entries@.len(),
                pad@ == indent(level@),
                out@ == mid + self.render_files(i as int, level@),
            decreases self.entries@.len() - i,
        {
            let ghost before = out@;
            match &self.entries[i].1 {
                RawEntry::File(bytes) => {
                    out.append(pad);
                    out.append(self.entries[i].0.as_str());
                    out.append(" (");
                    push_decimal(out, bytes.len() as u64);
                    out.append("B)\n");
                    assert(out@ =~= before + file_line(self.entries@[i as int].0@, bytes@.len(), level@));
                },
                RawEntry::Dir(_) => {},
            }
            i = i + 1;
        }
        assert(out@ =~= start + self.render(level@));
    }

    /// The indented rendering of this tree.
    pub fn render_text(&self) -> (r: String)
        ensures
            r@ == self.render(0),
    {
        let mut out = String::new();
        proof {
            reveal_strlit("");
        }
        assert(""@ =~= indent(0));
        self.render_into("", Ghost(0), &mut out);
        assert(out@ =~= self.render(0));
        out
    }
}

/// The names of a path.
pub open spec fn path_view(p: Seq<String>) -> Seq<Seq<char>> {
    p.map_values(|s: String| s@)
}

/// The (path, contents) pairs of a listing.
pub open spec fn listing_view(l: Seq<(Vec<String>, Vec<u8>)>) -> Seq<(Seq<Seq<char>>, Seq<u8>)> {
    l.map_values(|e: (Vec<String>, Vec<u8>)| (path_view(e.0@), e.1@))
}

impl RawDir {
    /// The files below the first `n` entries, in entry order, each with its path
    /// under `prefix`.
    pub open spec fn files_upto(&self, n: int, prefix: Seq<Seq<char>>) -> Seq<(Seq<Seq<char>>, Seq<u8>)>
        decreases self, n,
    {
        if n <= 0 || n > self.spec_entries().len() {
            Seq::empty()
        } else {
            self.files_upto(n - 1, prefix) + match self.spec_entries()[n - 1].1 {
                RawEntry::File(b) => seq![(prefix.push(self.spec_entries()[n - 1].0@), b@)],
                RawEntry::Dir(sub) => sub.files(prefix.push(self.spec_entries()[n - 1].0@)),
            }
        }
    }

    /// Every file of the tree, depth first in entry order, with its path under
    /// `prefix`.
    pub open spec fn files(&self, prefix: Seq<Seq<char>>) -> Seq<(Seq<Seq<char>>, Seq<u8>)>
        decreases self, self.spec_entries().len() + 1,
    {
        self.files_upto(self.spec_entries().len() as int, prefix)
    }

    fn collect_files(&self, prefix: &Vec<String>, out: &mut Vec<(Vec<String>, Vec<u8>)>)
        ensures
            listing_view(final(out)@) == listing_view(old(out)@) + self.files(path_view(prefix@)),
        decreases self,
    {
        let ghost start = listing_view(out@);
        let ghost pv = path_view(prefix@);
        let mut i: usize = 0;
        while i < self.entries.len()
            invariant
                i <= self.entries@.len(),
                pv == path_view(prefix@),
                listing_view(out@) == start + self.files_upto(i as int, pv),
            decreases self.entries@.len() - i,
        {
            let ghost before = listing_view(out@);
            let mut path: Vec<String> = Vec::new();
            let mut k: usize = 0;
            while k < prefix.len()
                invariant
                    k <= prefix@.len(),
                    path_view(path@) == path_view(prefix@).subrange(0, k as int),
                decreases prefix@.len() - k,
            {
                let name = prefix[k].clone();
                assert(name@ == prefix@[k as int]@);
                let ghost p0 = path@;
                path.push(name);
                assert(path_view(path@) =~= path_view(p0).push(prefix@[k as int]@));
                k = k + 1;
                assert(path_view(path@) =~= path_view(prefix@).subrange(0, k as int));
            }
            assert(path_view(prefix@).subrange(0, k as int) =~= pv);
            let last = self.entries[i].0.clone();
            assert(last@ == self.entries@[i as int].0@);
            let ghost p1 = path@;
            path.push(last);
            assert(path_view(path@) =~= path_view(p1).push(self.entries@[i as int].0@));
            match &self.entries[i].1 {
                RawEntry::File(bytes) => {
                    let copy = vstd::slice::slice_to_vec(bytes.as_slice());
                    out.push((path, copy));
                    assert(listing_view(out@) =~= before + seq![(pv.push(self.entries@[i as int].0@), bytes@)]);
                },
                RawEntry::Dir(sub) => {
                    sub.collect_files(&path, out);
                },
            }
            i = i + 1;
        }
    }

    /// Every file of the tree with its path of names from the root, depth first
    /// in entry order.
    pub fn files_list(&self) -> (r: Vec<(Vec<String>, Vec<u8>)>)
        ensures
            listing_view(r@) == self.files(Seq::empty()),
    {
        let mut out: Vec<(Vec<String>, Vec<u8>)> = Vec::new();
        let prefix: Vec<String> = Vec::new();
        assert(path_view(prefix@) =~= Seq::<Seq<char>>::empty());
        assert(listing_view(out@) =~= Seq::<(Seq<Seq<char>>, Seq<u8>)>::empty());
        self.collect_files(&prefix, &mut out);
        assert(listing_view(out@) =~= self.files(Seq::empty()));
        out
    }
}

impl RawDir {
    /// Whether every subdirectory among the first `n` entries is well formed all
    /// the way down.
    pub open spec fn deep_wf_upto(&self, n: int) -> bool
        decreases self, n,
    {
        if n <= 0 || n > self.spec_entries().len() {
            true
        } else {
            self.deep_wf_upto(n - 1) && match self.spec_entries()[n - 1].1 {
                RawEntry::Dir(sub) => sub.deep_wf(),
                RawEntry::File(_) => true,
            }
        }
    }

    /// Whether this directory and every directory below it keep their names
    /// ascending.
    pub open spec fn deep_wf(&self) -> bool
        decreases self, self.spec_entries().len() + 1,
    {
        self.wf() && self.deep_wf_upto(self.spec_entries().len() as int)
    }

    /// The contents of the file at `path`, a sequence of names from this
    /// directory down, if there is one.
    pub open spec fn file_at_path(&self, path: Seq<Seq<char>>) -> Option<Seq<u8>>
        decreases path.len(),
    {
        if path.len() == 0 {
            None
        } else if path.len() == 1 {
            match lookup(self.spec_entries(), path[0]) {
                Some(RawEntry::File(b)) => Some(b@),
                _ => None,
            }
        } else {
            match lookup(self.spec_entries(), path[0]) {
                Some(RawEntry::Dir(sub)) => sub.file_at_path(path.drop_first()),
                _ => None,
            }
        }
    }
}

/// The prefix form of deep well-formedness says it of each entry.
proof fn lemma_deep_wf_upto(d: RawDir, n: int)
    requires
        0 <= n <= d.spec_entries().len(),
    ensures
        d.deep_wf_upto(n) <==> forall|j: int| 0 <= j < n ==> entry_deep_wf(#[trigger] d.spec_entries()[j].1),
    decreases n,
{
    if n > 0 {
        lemma_deep_wf_upto(d, n - 1);
        if d.deep_wf_upto(n) {
            assert forall|j: int| 0 <= j < n implies entry_deep_wf(#[trigger] d.spec_entries()[j].1) by {
                if j < n - 1 {
                }
            }
        }
    }
}

/// Whether an entry is a file, or a directory that is well formed all the way down.
pub open spec fn entry_deep_wf(e: RawEntry) -> bool {
    match e {
        RawEntry::Dir(sub) => sub.deep_wf(),
        RawEntry::File(_) => true,
    }
}

/// The entry named `x` in `s`, if any.
pub open spec fn lookup(s: Seq<(String, RawEntry)>, x: Seq<char>) -> Option<RawEntry> {
    match position_of(s, x) {
        Some(i) => Some(s[i].1),
        None => None,
    }
}

/// Whether `a` is a prefix of `b`.
pub open spec fn is_prefix(a: Seq<Seq<char>>, b: Seq<Seq<char>>) -> bool {
    a.len() <= b.len() && b.subrange(0, a.len() as int) == a
}

/// In entries with ascending names, `lookup` finds the entry of that name, and
/// nothing when no entry has it.
proof fn lemma_lookup(s: Seq<(String, RawEntry)>, x: Seq<char>)
    requires
        sorted_names(s),
    ensures
        lookup(s, x) is None <==> forall|j: int| 0 <= j < s.len() ==> (#[trigger] s[j]).0@ != x,
        forall|j: int| 0 <= j < s.len() && (#[trigger] s[j]).0@ == x ==> lookup(s, x) == Some(s[j].1),
{
    lemma_position_bounds(s, x);
    assert forall|j: int| 0 <= j < s.len() && (#[trigger] s[j]).0@ == x implies lookup(s, x) == Some(s[j].1) by {
        lemma_sorted_position(s, j);
    }
    if forall|j: int| 0 <= j < s.len() ==> (#[trigger] s[j]).0@ != x {
        lemma_position_of(s, x, s.len() as int);
    }
}

/// Two tables with ascending names that hold the same entries under every name
/// but `name` give the same lookup for any other name.
proof fn lemma_lookup_same_others(e0: Seq<(String, RawEntry)>, e1: Seq<(String, RawEntry)>, name: Seq<char>, x: Seq<char>)
    requires
        sorted_names(e0),
        sorted_names(e1),
        x != name,
        forall|j: int| 0 <= j < e1.len() && (#[trigger] e1[j]).0@ != name ==> exists|j0: int| 0 <= j0 < e0.len() && e0[j0] == e1[j],
        forall|j0: int| 0 <= j0 < e0.len() && (#[trigger] e0[j0]).0@ != name ==> exists|j: int| 0 <= j < e1.len() && e1[j] == e0[j0],
    ensures
        lookup(e1, x) == lookup(e0, x),
{
    lemma_lookup(e0, x);
    lemma_lookup(e1, x);
    if exists|j: int| 0 <= j < e1.len() && (#[trigger] e1[j]).0@ == x {
        let j = choose|j: int| 0 <= j < e1.len() && (#[trigger] e1[j]).0@ == x;
        let j0 = choose|j0: int| 0 <= j0 < e0.len() && e0[j0] == e1[j];
        assert(e0[j0].0@ == x);
    } else if exists|j0: int| 0 <= j0 < e0.len() && (#[trigger] e0[j0]).0@ == x {
        let j0 = choose|j0: int| 0 <= j0 < e0.len() && (#[trigger] e0[j0]).0@ == x;
        let j = choose|j: int| 0 <= j < e1.len() && e1[j] == e0[j0];
        assert(e1[j].0@ == x);
    }
}

/// Taking out the entry named `name` (or nothing, when there is none) keeps the
/// other entries, both ways, and leaves the table sorted.
proof fn lemma_remove_keeps(e0: Seq<(String, RawEntry)>, mid: Seq<(String, RawEntry)>, name: Seq<char>)
    requires
        sorted_names(e0),
        mid == e0 || (exists|i: int| 0 <= i < e0.len() && e0[i].0@ == name && mid == e0.remove(i)),
    ensures
        sorted_names(mid),
        forall|j: int| 0 <= j < mid.len() && (#[trigger] mid[j]).0@ != name ==> exists|j0: int| 0 <= j0 < e0.len() && e0[j0] == mid[j],
        forall|j0: int| 0 <= j0 < e0.len() && (#[trigger] e0[j0]).0@ != name ==> exists|j: int| 0 <= j < mid.len() && mid[j] == e0[j0],
{
    if mid != e0 {
        let i = choose|i: int| 0 <= i < e0.len() && e0[i].0@ == name && mid == e0.remove(i);
        lemma_remove_sorted(e0, i);
        assert forall|j: int| 0 <= j < mid.len() && (#[trigger] mid[j]).0@ != name implies exists|j0: int| 0 <= j0 < e0.len() && e0[j0] == mid[j] by {
            if j < i {
                assert(e0[j] == mid[j]);
            } else {
                assert(e0[j + 1] == mid[j]);
            }
        }
        assert forall|j0: int| 0 <= j0 < e0.len() && (#[trigger] e0[j0]).0@ != name implies exists|j: int| 0 <= j < mid.len() && mid[j] == e0[j0] by {
            if j0 < i {
                assert(e0[j0] == mid[j0]);
            } else {
                assert(j0 != i);
                assert(e0[j0] == mid[j0 - 1]);
            }
        }
    } else {
        assert forall|j: int| 0 <= j < mid.len() && (#[trigger] mid[j]).0@ != name implies exists|j0: int| 0 <= j0 < e0.len() && e0[j0] == mid[j] by {
            assert(e0[j] == mid[j]);
        }
        assert forall|j0: int| 0 <= j0 < e0.len() && (#[trigger] e0[j0]).0@ != name implies exists|j: int| 0 <= j < mid.len() && mid[j] == e0[j0] by {
            assert(e0[j0] == mid[j0]);
        }
    }
}

/// A position found by `position_of` holds an entry of that name.
proof fn lemma_position_bounds(s: Seq<(String, RawEntry)>, name: Seq<char>)
    ensures
        position_of(s, name) matches Some(i) ==> 0 <= i < s.len() && s[i].0@ == name,
    decreases s.len(),
{
    if s.len() > 0 {
        lemma_position_bounds(s.drop_last(), name);
        if position_of(s.drop_last(), name) is Some {
            let i = position_of(s.drop_last(), name)->Some_0;
            assert(s.drop_last()[i] == s[i]);
        }
    }
}

/// In entries with ascending names, the first entry named like entry `i` is `i`.
proof fn lemma_sorted_position(s: Seq<(String, RawEntry)>, i: int)
    requires
        sorted_names(s),
        0 <= i < s.len(),
    ensures
        position_of(s, s[i].0@) == Some(i),
{
    assert forall|j: int| 0 <= j < i implies s[j].0@ != s[i].0@ by {
        assert(name_less(s[j].0@, s[i].0@));
        lemma_name_less_total(s[i].0@, s[i].0@);
    }
    lemma_position_of(s, s[i].0@, i);
}

/// Removing entry `i` keeps names ascending, drops the only entry of that name, and
/// keeps every other entry.
proof fn lemma_remove_sorted(s: Seq<(String, RawEntry)>, i: int)
    requires
        sorted_names(s),
        0 <= i < s.len(),
    ensures
        sorted_names(s.remove(i)),
        forall|j: int| 0 <= j < s.remove(i).len() ==> (#[trigger] s.remove(i)[j]).0@ != s[i].0@,
        position_of(s.remove(i), s[i].0@) is None,
{
    let t = s.remove(i);
    assert forall|a: int, b: int| 0 <= a < b < t.len() implies name_less((#[trigger] t[a]).0@, (#[trigger] t[b]).0@) by {
        let a0 = if a < i { a } else { a + 1 };
        let b0 = if b < i { b } else { b + 1 };
        assert(t[a] == s[a0] && t[b] == s[b0]);
        assert(name_less(s[a0].0@, s[b0].0@));
    }
    assert forall|j: int| 0 <= j < t.len() implies (#[trigger] t[j]).0@ != s[i].0@ by {
        lemma_name_less_total(s[i].0@, s[i].0@);
        if j < i {
            assert(t[j] == s[j]);
            assert(name_less(s[j].0@, s[i].0@));
        } else {
            assert(t[j] == s[j + 1]);
            assert(name_less(s[i].0@, s[j + 1].0@));
        }
    }
    lemma_position_of(t, s[i].0@, t.len() as int);
}

impl RawDir {
    fn set_file_from(&mut self, path: &Vec<String>, k: usize, bytes: Vec<u8>)
        requires
            old(self).deep_wf(),
            k < path@.len(),
        ensures
            final(self).deep_wf(),
            final(self).file_at_path(path_view(path@).subrange(k as int, path@.len() as int)) == Some(bytes@),
            forall|p: Seq<Seq<char>>| p.len() > 0 && !is_prefix(p, path_view(path@).subrange(k as int, path@.len() as int))
                && !is_prefix(path_view(path@).subrange(k as int, path@.len() as int), p)
                ==> #[trigger] final(self).file_at_path(p) == old(self).file_at_path(p),
        decreases path@.len() - k,
    {
        let ghost rest = path_view(path@).subrange(k as int, path@.len() as int);
        let ghost b = bytes@;
        let name = path[k].as_str();
        assert(rest[0] == name@);
        proof {
            lemma_deep_wf_upto(*old(self), old(self).spec_entries().len() as int);
        }
        if k == path.len() - 1 {
            self.insert(name, RawEntry::File(bytes));
            proof {
                lemma_position_bounds(old(self).spec_entries(), name@);
                let e0 = old(self).spec_entries();
                let e1 = self.spec_entries();
                let idx = if position_of(e0, name@) is Some {
                    position_of(e0, name@)->Some_0
                } else {
                    choose|p: int| 0 <= p <= e0.len() && e1 == e0.insert(p, (e1[p].0, RawEntry::File(bytes)))
                        && e1[p].0@ == name@
                };
                assert(0 <= idx < e1.len() && e1[idx].0@ == name@ && e1[idx].1 == RawEntry::File(bytes));
                assert forall|j: int| 0 <= j < e1.len() implies entry_deep_wf(#[trigger] e1[j].1) by {
                    if j != idx {
                        if position_of(e0, name@) is Some {
                            assert(e1[j] == e0[j]);
                        } else if j < idx {
                            assert(e1[j] == e0[j]);
                        } else {
                            assert(e1[j] == e0[j - 1]);
                        }
                    }
                }
                lemma_deep_wf_upto(*self, e1.len() as int);
                lemma_sorted_position(e1, idx);
                assert(rest.len() == 1);
                lemma_frame_leaf(*old(self), *self, name@, rest, RawEntry::File(bytes));
            }
        } else {
            let mut sub = match self.find(name) {
                Some(i) => {
                    let ghost e0 = self.spec_entries();
                    let e = self.entries.remove(i);
                    proof {
                        assert(self.spec_entries() =~= e0.remove(i as int));
                        lemma_remove_sorted(e0, i as int);
                        assert(entry_deep_wf(e0[i as int].1));
                        assert(lookup(e0, name@) == Some(e0[i as int].1));
                    }
                    match e.1 {
                        RawEntry::Dir(d) => d,
                        RawEntry::File(_) => RawDir::new(),
                    }
                },
                None => RawDir::new(),
            };
            let ghost mid = self.spec_entries();
            proof {
                lemma_position_bounds(old(self).spec_entries(), name@);
                if mid.len() == old(self).spec_entries().len() {
                    assert(mid =~= old(self).spec_entries());
                }
                assert forall|j: int| 0 <= j < mid.len() implies entry_deep_wf(#[trigger] mid[j].1) by {
                    if old(self).spec_entries().len() != mid.len() {
                        let i = position_of(old(self).spec_entries(), name@)->Some_0;
                        if j < i {
                            assert(mid[j] == old(self).spec_entries()[j]);
                        } else {
                            assert(mid[j] == old(self).spec_entries()[j + 1]);
                        }
                    }
                }
                lemma_deep_wf_upto(*self, mid.len() as int);
                assert(position_of(mid, name@) is None);
                assert(sub.deep_wf() || sub.spec_entries().len() == 0);
                if sub.spec_entries().len() == 0 {
                    assert(sub.deep_wf());
                }
            }
            let ghost sub0 = sub;
            sub.set_file_from(path, k + 1, bytes);
            let ghost sub_after = sub;
            self.insert(name, RawEntry::Dir(sub));
            proof {
                let e1 = self.spec_entries();
                let p = choose|p: int| 0 <= p <= mid.len() && e1 == mid.insert(p, (e1[p].0, RawEntry::Dir(sub_after)))
                    && e1[p].0@ == name@;
                assert forall|j: int| 0 <= j < e1.len() implies entry_deep_wf(#[trigger] e1[j].1) by {
                    if j < p {
                        assert(e1[j] == mid[j]);
                    } else if j > p {
                        assert(e1[j] == mid[j - 1]);
                    }
                }
                lemma_deep_wf_upto(*self, e1.len() as int);
                lemma_sorted_position(e1, p);
                let rest1 = path_view(path@).subrange(k + 1, path@.len() as int);
                assert(rest.drop_first() =~= rest1);
                lemma_frame_dir(*old(self), mid, *self, name@, rest, sub0, sub_after);
            }
        }
    }

    /// Stores `bytes` as the file at `path`, a sequence of names from this
    /// directory down, creating the directories on the way (and replacing a file
    /// that stands where a directory is needed). The file at every path that
    /// neither is a prefix of `path` nor extends it stays as it was.
    pub fn set_file(&mut self, path: &Vec<String>, bytes: Vec<u8>)
        requires
            old(self).deep_wf(),
            path@.len() > 0,
        ensures
            final(self).deep_wf(),
            final(self).file_at_path(path_view(path@)) == Some(bytes@),
            forall|p: Seq<Seq<char>>| p.len() > 0 && !is_prefix(p, path_view(path@)) && !is_prefix(path_view(path@), p)
                ==> #[trigger] final(self).file_at_path(p) == old(self).file_at_path(p),
    {
        assert(path_view(path@).subrange(0, path@.len() as int) =~= path_view(path@));
        self.set_file_from(path, 0, bytes);
        assert(path_view(path@).subrange(0, path@.len() as int) =~= path_view(path@));
    }
}

/// Storing a file under `name` at the root, in place or as a new entry, leaves the
/// file at every path that neither is a prefix of `[name]` nor extends it.
proof fn lemma_frame_leaf(d0: RawDir, d1: RawDir, name: Seq<char>, rest: Seq<Seq<char>>, entry: RawEntry)
    requires
        d0.wf(),
        d1.wf(),
        rest.len() == 1,
        rest[0] == name,
        position_of(d0.spec_entries(), name) matches Some(i) ==> d1.spec_entries()
            == d0.spec_entries().update(i, (d1.spec_entries()[i].0, entry)) && d1.spec_entries()[i].0@ == name,
        position_of(d0.spec_entries(), name) is None ==> exists|p: int| 0 <= p <= d0.spec_entries().len()
            && d1.spec_entries() == d0.spec_entries().insert(p, (d1.spec_entries()[p].0, entry))
            && d1.spec_entries()[p].0@ == name,
    ensures
        forall|pp: Seq<Seq<char>>| pp.len() > 0 && !is_prefix(pp, rest) && !is_prefix(rest, pp)
            ==> #[trigger] d1.file_at_path(pp) == d0.file_at_path(pp),
{
    let e0 = d0.spec_entries();
    let e1 = d1.spec_entries();
    lemma_position_bounds(e0, name);
    let idx = if position_of(e0, name) is Some {
        position_of(e0, name)->Some_0
    } else {
        choose|p: int| 0 <= p <= e0.len() && e1 == e0.insert(p, (e1[p].0, entry)) && e1[p].0@ == name
    };
    assert forall|j: int| 0 <= j < e1.len() && (#[trigger] e1[j]).0@ != name
        implies exists|j0: int| 0 <= j0 < e0.len() && e0[j0] == e1[j] by {
        if position_of(e0, name) is Some {
            assert(e0[j] == e1[j]);
        } else if j < idx {
            assert(e0[j] == e1[j]);
        } else {
            assert(e0[j - 1] == e1[j]);
        }
    }
    assert forall|j0: int| 0 <= j0 < e0.len() && (#[trigger] e0[j0]).0@ != name
        implies exists|j: int| 0 <= j < e1.len() && e1[j] == e0[j0] by {
        if position_of(e0, name) is Some {
            assert(e0[j0] == e1[j0]);
        } else if j0 < idx {
            assert(e0[j0] == e1[j0]);
        } else {
            assert(e0[j0] == e1[j0 + 1]);
        }
    }
    assert forall|pp: Seq<Seq<char>>| pp.len() > 0 && !is_prefix(pp, rest) && !is_prefix(rest, pp)
        implies #[trigger] d1.file_at_path(pp) == d0.file_at_path(pp) by {
        if pp[0] == name {
            assert(pp.subrange(0, 1) =~= rest);
        }
        lemma_lookup_same_others(e0, e1, name, pp[0]);
    }
}

/// Replacing the entry named `name` at the root by the directory `sub1`, where
/// `sub0` stood for what was there (the old directory, or an empty one), leaves the
/// file at every path that neither is a prefix of `rest` nor extends it, provided
/// `sub1` kept the files of `sub0` in the same way below `rest`.
proof fn lemma_frame_dir(d0: RawDir, mid: Seq<(String, RawEntry)>, d1: RawDir, name: Seq<char>,
    rest: Seq<Seq<char>>, sub0: RawDir, sub1: RawDir)
    requires
        d0.wf(),
        d1.wf(),
        rest.len() >= 2,
        rest[0] == name,
        mid == d0.spec_entries() || (exists|i: int| 0 <= i < d0.spec_entries().len()
            && d0.spec_entries()[i].0@ == name && mid == d0.spec_entries().remove(i)),
        position_of(mid, name) is None,
        exists|p: int| 0 <= p <= mid.len() && d1.spec_entries() == mid.insert(p, (d1.spec_entries()[p].0, RawEntry::Dir(sub1)))
            && d1.spec_entries()[p].0@ == name,
        lookup(d0.spec_entries(), name) == Some(RawEntry::Dir(sub0))
            || (sub0.spec_entries().len() == 0 && !(lookup(d0.spec_entries(), name) matches Some(RawEntry::Dir(_)))),
        forall|pp: Seq<Seq<char>>| pp.len() > 0 && !is_prefix(pp, rest.drop_first()) && !is_prefix(rest.drop_first(), pp)
            ==> #[trigger] sub1.file_at_path(pp) == sub0.file_at_path(pp),
    ensures
        forall|pp: Seq<Seq<char>>| pp.len() > 0 && !is_prefix(pp, rest) && !is_prefix(rest, pp)
            ==> #[trigger] d1.file_at_path(pp) == d0.file_at_path(pp),
{
    let e0 = d0.spec_entries();
    let e1 = d1.spec_entries();
    lemma_remove_keeps(e0, mid, name);
    lemma_insert_keeps(mid, e1, name, RawEntry::Dir(sub1));
    lemma_lookup(e1, name);
    assert(lookup(e1, name) == Some(RawEntry::Dir(sub1)));
    assert forall|x: Seq<char>| x != name implies #[trigger] lookup(e1, x) == lookup(e0, x) by {
        lemma_lookup_same_others(mid, e1, name, x);
        lemma_lookup_same_others(e0, mid, name, x);
    }
    assert forall|pp: Seq<Seq<char>>| pp.len() > 0 && !is_prefix(pp, rest) && !is_prefix(rest, pp)
        implies #[trigger] d1.file_at_path(pp) == d0.file_at_path(pp) by {
        if pp[0] == name {
            lemma_below_same_head(pp, rest);
            assert(sub1.file_at_path(pp.drop_first()) == sub0.file_at_path(pp.drop_first()));
            lemma_file_at_path_dir_head(d0, pp, sub0);
            lemma_file_at_path_dir_head(d1, pp, sub1);
        } else {
            assert(lookup(e1, pp[0]) == lookup(e0, pp[0]));
        }
    }
}

/// Inserting an entry named `name` keeps the other entries, both ways.
proof fn lemma_insert_keeps(mid: Seq<(String, RawEntry)>, e1: Seq<(String, RawEntry)>, name: Seq<char>, entry: RawEntry)
    requires
        exists|p: int| 0 <= p <= mid.len() && e1 == mid.insert(p, (e1[p].0, entry)) && e1[p].0@ == name,
    ensures
        forall|j: int| 0 <= j < e1.len() && (#[trigger] e1[j]).0@ != name ==> exists|j0: int| 0 <= j0 < mid.len() && mid[j0] == e1[j],
        forall|j0: int| 0 <= j0 < mid.len() && (#[trigger] mid[j0]).0@ != name ==> exists|j: int| 0 <= j < e1.len() && e1[j] == mid[j0],
{
    let p = choose|p: int| 0 <= p <= mid.len() && e1 == mid.insert(p, (e1[p].0, entry)) && e1[p].0@ == name;
    assert forall|j: int| 0 <= j < e1.len() && (#[trigger] e1[j]).0@ != name
        implies exists|j0: int| 0 <= j0 < mid.len() && mid[j0] == e1[j] by {
        if j < p {
            assert(mid[j] == e1[j]);
        } else {
            assert(mid[j - 1] == e1[j]);
        }
    }
    assert forall|j0: int| 0 <= j0 < mid.len() && (#[trigger] mid[j0]).0@ != name
        implies exists|j: int| 0 <= j < e1.len() && e1[j] == mid[j0] by {
        if j0 < p {
            assert(mid[j0] == e1[j0]);
        } else {
            assert(mid[j0] == e1[j0 + 1]);
        }
    }
}

/// Two paths with the same first name, neither a prefix of the other, are both
/// longer than one name, and their rests are not prefixes of each other.
proof fn lemma_below_same_head(pp: Seq<Seq<char>>, rest: Seq<Seq<char>>)
    requires
        pp.len() > 0,
        rest.len() > 0,
        pp[0] == rest[0],
        !is_prefix(pp, rest),
        !is_prefix(rest, pp),
    ensures
        pp.len() >= 2,
        pp.drop_first().len() > 0,
        !is_prefix(pp.drop_first(), rest.drop_first()),
        !is_prefix(rest.drop_first(), pp.drop_first()),
{
    if pp.len() == 1 {
        assert(rest.subrange(0, 1) =~= pp);
    }
    if rest.len() == 1 {
        assert(pp.subrange(0, 1) =~= rest);
    }
    if is_prefix(pp.drop_first(), rest.drop_first()) {
        assert forall|i: int| 0 <= i < pp.len() implies rest[i] == pp[i] by {
            if i > 0 {
                assert(rest.drop_first().subrange(0, pp.len() - 1)[i - 1] == pp.drop_first()[i - 1]);
            }
        }
        assert(rest.subrange(0, pp.len() as int) =~= pp);
    }
    if is_prefix(rest.drop_first(), pp.drop_first()) {
        assert forall|i: int| 0 <= i < rest.len() implies pp[i] == rest[i] by {
            if i > 0 {
                assert(pp.drop_first().subrange(0, rest.len() - 1)[i - 1] == rest.drop_first()[i - 1]);
            }
        }
        assert(pp.subrange(0, rest.len() as int) =~= rest);
    }
}

/// The file at a path of two names or more, below a directory named by its first
/// name, is the file at the rest of the path in `sub`; with `sub` empty and no
/// directory of that name, there is none either way.
proof fn lemma_file_at_path_dir_head(d: RawDir, pp: Seq<Seq<char>>, sub: RawDir)
    requires
        pp.len() >= 2,
        lookup(d.spec_entries(), pp[0]) == Some(RawEntry::Dir(sub))
            || (sub.spec_entries().len() == 0 && !(lookup(d.spec_entries(), pp[0]) matches Some(RawEntry::Dir(_)))),
    ensures
        d.file_at_path(pp) == sub.file_at_path(pp.drop_first()),
{
    if !(lookup(d.spec_entries(), pp[0]) matches Some(RawEntry::Dir(_))) {
        let q = pp.drop_first();
        assert(lookup(sub.spec_entries(), q[0]) is None);
    }
}

} // verus!
