//! The intermediate representation: an immutable map from id to representation,
//! iterated in ascending id order.
use vstd::prelude::*;
use std::sync::Arc;
use crate::id::Id;
use crate::repr::{Kind, Representation};
use crate::diagnostics::{decimal, push_decimal};

verus! {

/// The representation that a shared handle points to.
pub open spec fn shared_value(a: &Arc<Representation>) -> Representation {
    **a
}

/// The (id, representation) pairs behind a list of shared handles.
pub open spec fn shared_seq(s: Seq<(Id, Arc<Representation>)>) -> Seq<(Id, Representation)> {
    s.map_values(|e: (Id, Arc<Representation>)| (e.0, *e.1))
}

/// Whether the ids of `s` increase strictly from one entry to the next.
pub open spec fn increasing(s: Seq<(Id, Representation)>) -> bool {
    forall|i: int, j: int|
        0 <= i < j < s.len() ==> (#[trigger] s[i]).0.spec_value() < (#[trigger] s[j]).0.spec_value()
}

/// The map that a sequence of entries spells out; later entries win.
pub open spec fn map_of(s: Seq<(Id, Representation)>) -> Map<Id, Representation>
    decreases s.len(),
{
    if s.len() == 0 {
        Map::empty()
    } else {
        map_of(s.drop_last()).insert(s.last().0, s.last().1)
    }
}

/// The ids, in order, of the entries of `s` that hold a representation of `kind`.
pub open spec fn ids_of_kind(s: Seq<(Id, Representation)>, kind: Kind) -> Seq<Id>
    decreases s.len(),
{
    if s.len() == 0 {
        Seq::empty()
    } else if s.last().1.spec_kind() == kind {
        ids_of_kind(s.drop_last(), kind).push(s.last().0)
    } else {
        ids_of_kind(s.drop_last(), kind)
    }
}

/// In a sequence with increasing ids, the map holds exactly the ids of the entries,
/// each with the representation of its entry.
pub proof fn lemma_map_of(s: Seq<(Id, Representation)>)
    requires
        increasing(s),
    ensures
        forall|k: Id| #[trigger] map_of(s).contains_key(k) <==> exists|i: int| 0 <= i < s.len() && s[i].0 == k,
        forall|i: int| 0 <= i < s.len() ==> map_of(s).contains_key(#[trigger] s[i].0) && map_of(s)[s[i].0] == s[i].1,
    decreases s.len(),
{
    if s.len() > 0 {
        let t = s.drop_last();
        assert(increasing(t));
        lemma_map_of(t);
        lemma_map_of_keys(s);
        assert forall|i: int| 0 <= i < s.len() implies map_of(s).contains_key(#[trigger] s[i].0) && map_of(s)[s[i].0] == s[i].1 by {
            if i < s.len() - 1 {
                assert(s[i] == t[i]);
                assert(s[i].0.spec_value() < s[s.len() - 1].0.spec_value());
            }
        }
    }
}

/// Whatever the order of its entries, the map of `s` holds exactly the ids of `s`.
pub proof fn lemma_map_of_keys(s: Seq<(Id, Representation)>)
    ensures
        forall|k: Id| #[trigger] map_of(s).contains_key(k) <==> exists|i: int| 0 <= i < s.len() && s[i].0 == k,
    decreases s.len(),
{
    if s.len() > 0 {
        let t = s.drop_last();
        lemma_map_of_keys(t);
        assert forall|k: Id| #[trigger] map_of(s).contains_key(k) <==> exists|i: int| 0 <= i < s.len() && s[i].0 == k by {
            if map_of(s).contains_key(k) {
                if k == s.last().0 {
                    assert(s[s.len() - 1].0 == k);
                } else {
                    assert(t.len() == s.len() - 1);
                    assert(map_of(t).contains_key(k));
                    let i = choose|i: int| 0 <= i < t.len() && t[i].0 == k;
                    assert(t[i] == s[i]);
                    assert(0 <= i < s.len() && s[i].0 == k);
                }
            }
            if exists|i: int| 0 <= i < s.len() && s[i].0 == k {
                let i = choose|i: int| 0 <= i < s.len() && s[i].0 == k;
                if i < s.len() - 1 {
                    assert(t[i] == s[i]);
                    assert(t[i].0 == k);
                    assert(map_of(t).contains_key(k));
                }
            }
        }
    }
}

/// A sequence with increasing ids spells out `m` when it lists exactly the keys of
/// `m`, each with its value.
proof fn lemma_map_of_is(s: Seq<(Id, Representation)>, m: Map<Id, Representation>)
    requires
        increasing(s),
        forall|k: Id| #[trigger] m.contains_key(k) <==> exists|i: int| 0 <= i < s.len() && s[i].0 == k,
        forall|i: int| 0 <= i < s.len() ==> m[(#[trigger] s[i]).0] == s[i].1,
    ensures
        map_of(s) == m,
{
    lemma_map_of(s);
    assert forall|k: Id| #[trigger] map_of(s).contains_key(k) implies map_of(s)[k] == m[k] by {
        let i = choose|i: int| 0 <= i < s.len() && s[i].0 == k;
        assert(m[s[i].0] == s[i].1);
    }
    assert(map_of(s) =~= m);
}

/// In a sequence with increasing ids, each id listed for `kind` names an entry of
/// that kind.
pub proof fn lemma_ids_of_kind(s: Seq<(Id, Representation)>, kind: Kind)
    requires
        increasing(s),
    ensures
        forall|j: int| 0 <= j < ids_of_kind(s, kind).len() ==> map_of(s).contains_key(#[trigger] ids_of_kind(s, kind)[j])
            && map_of(s)[ids_of_kind(s, kind)[j]].spec_kind() == kind,
    decreases s.len(),
{
    lemma_map_of(s);
    if s.len() > 0 {
        let t = s.drop_last();
        assert(increasing(t));
        lemma_ids_of_kind(t, kind);
        lemma_map_of(t);
        assert forall|j: int| 0 <= j < ids_of_kind(s, kind).len() implies map_of(s).contains_key(#[trigger] ids_of_kind(s, kind)[j])
            && map_of(s)[ids_of_kind(s, kind)[j]].spec_kind() == kind by {
            let k = ids_of_kind(s, kind)[j];
            if j < ids_of_kind(t, kind).len() {
                assert(k == ids_of_kind(t, kind)[j]);
                let i = choose|i: int| 0 <= i < t.len() && t[i].0 == k;
                assert(t[i] == s[i]);
                assert(map_of(s)[s[i].0] == s[i].1);
                assert(map_of(t)[t[i].0] == t[i].1);
            } else {
                assert(k == s.last().0);
                assert(map_of(s)[s[s.len() - 1].0] == s[s.len() - 1].1);
            }
        }
    }
}

/// One version of the IR.
#[derive(Debug)]
pub struct HarvestIR {
    entries: Vec<(Id, Arc<Representation>)>,
}

impl HarvestIR {
    /// The entries of this IR in ascending id order.
    pub closed spec fn ordered(&self) -> Seq<(Id, Representation)> {
        self.entries@.map_values(|e: (Id, Arc<Representation>)| (e.0, *e.1))
    }

    /// Whether the entries are in strictly ascending id order.
    pub open spec fn wf(&self) -> bool {
        increasing(self.ordered())
    }

    /// The IR as a map from id to representation.
    pub open spec fn view(&self) -> Map<Id, Representation> {
        map_of(self.ordered())
    }

    /// An IR with no representations.
    pub fn new() -> (r: HarvestIR)
        ensures
            r.wf(),
            r.ordered().len() == 0,
            r@ == Map::<Id, Representation>::empty(),
    {
        HarvestIR { entries: Vec::new() }
    }

    /// Stores `rep` under `id`, replacing what was there, keeping ascending order.
    fn set_entry(&mut self, id: Id, rep: Arc<Representation>)
        requires
            old(self).wf(),
        ensures
            final(self).wf(),
            final(self)@ == old(self)@.insert(id, *rep),
    {
        let ghost s0 = self.ordered();
        let ghost v = shared_value(&rep);
        proof {
            lemma_map_of(s0);
        }
        let mut i: usize = 0;
        while i < self.entries.len() && self.entries[i].0.get() < id.get()
            invariant
                i <= s0.len(),
                self.entries@.len() == s0.len(),
                self.ordered() == s0,
                forall|j: int| 0 <= j < i ==> (#[trigger] s0[j]).0.spec_value() < id.spec_value(),
            decreases s0.len() - i,
        {
            i = i + 1;
        }
        let ghost m = s0.len();
        if i < self.entries.len() && self.entries[i].0 == id {
            self.entries.set(i, (id, rep));
            let ghost s1 = self.ordered();
            assert(s1 =~= s0.update(i as int, (id, v)));
            assert forall|a: int, b: int| 0 <= a < b < s1.len() implies (#[trigger] s1[a]).0.spec_value() < (#[trigger] s1[b]).0.spec_value() by {
                assert(s0[a].0.spec_value() < s0[b].0.spec_value());
            }
            proof {
                let m1 = map_of(s0).insert(id, v);
                assert forall|k: Id| #[trigger] m1.contains_key(k) <==> exists|j: int| 0 <= j < s1.len() && s1[j].0 == k by {
                    if m1.contains_key(k) {
                        if k == id {
                            assert(s1[i as int].0 == k);
                        } else {
                            let j = choose|j: int| 0 <= j < s0.len() && s0[j].0 == k;
                            assert(s1[j].0 == k);
                        }
                    }
                    if exists|j: int| 0 <= j < s1.len() && s1[j].0 == k {
                        let j = choose|j: int| 0 <= j < s1.len() && s1[j].0 == k;
                        if j != i {
                            assert(s0[j].0 == k);
                        }
                    }
                }
                assert forall|j: int| 0 <= j < s1.len() implies m1[(#[trigger] s1[j]).0] == s1[j].1 by {
                    if j != i {
                        assert(s1[j] == s0[j]);
                        assert(s0[j].0.spec_value() != s0[i as int].0.spec_value());
                    }
                }
                lemma_map_of_is(s1, m1);
            }
        } else {
            proof {
                if i < s0.len() {
                    Id::lemma_value_injective(s0[i as int].0, id);
                }
            }
            self.entries.insert(i, (id, rep));
            let ghost s1 = self.ordered();
            assert(s1 =~= s0.insert(i as int, (id, v)));
            assert forall|a: int, b: int| 0 <= a < b < s1.len() implies (#[trigger] s1[a]).0.spec_value() < (#[trigger] s1[b]).0.spec_value() by {
                if b < i {
                    assert(s0[a].0.spec_value() < s0[b].0.spec_value());
                } else if b == i {
                } else if a < i {
                    assert(s0[a].0.spec_value() < id.spec_value());
                    if i < m {
                        assert(id.spec_value() <= s0[i as int].0.spec_value());
                    }
                    if b - 1 > i {
                        assert(s0[i as int].0.spec_value() < s0[b - 1].0.spec_value());
                    }
                } else if a == i {
                    assert(id.spec_value() <= s0[i as int].0.spec_value());
                    if b - 1 > i {
                        assert(s0[i as int].0.spec_value() < s0[b - 1].0.spec_value());
                    }
                } else {
                    assert(s0[a - 1].0.spec_value() < s0[b - 1].0.spec_value());
                }
            }
            proof {
                let m1 = map_of(s0).insert(id, v);
                assert forall|k: Id| #[trigger] m1.contains_key(k) <==> exists|j: int| 0 <= j < s1.len() && s1[j].0 == k by {
                    if m1.contains_key(k) {
                        if k == id {
                            assert(s1[i as int].0 == k);
                        } else {
                            let j = choose|j: int| 0 <= j < s0.len() && s0[j].0 == k;
                            if j < i {
                                assert(s1[j].0 == k);
                            } else {
                                assert(s1[j + 1].0 == k);
                            }
                        }
                    }
                    if exists|j: int| 0 <= j < s1.len() && s1[j].0 == k {
                        let j = choose|j: int| 0 <= j < s1.len() && s1[j].0 == k;
                        if j < i {
                            assert(s0[j].0 == k);
                        } else if j > i {
                            assert(s0[j - 1].0 == k);
                        }
                    }
                }
                assert forall|j: int| 0 <= j < s1.len() implies m1[(#[trigger] s1[j]).0] == s1[j].1 by {
                    if j < i {
                        assert(s1[j] == s0[j]);
                    } else if j > i {
                        assert(s1[j] == s0[j - 1]);
                    }
                }
                lemma_map_of_is(s1, m1);
            }
        }
    }

    /// A copy of this IR that shares its representations.
    pub fn copy(&self) -> (r: HarvestIR)
        requires
            self.wf(),
        ensures
            r.wf(),
            r.ordered() == self.ordered(),
            r@ == self@,
    {
        let mut entries: Vec<(Id, Arc<Representation>)> = Vec::new();
        let mut i: usize = 0;
        while i < self.entries.len()
            invariant
                i <= self.entries@.len(),
                entries@ == self.entries@.subrange(0, i as int),
            decreases self.entries@.len() - i,
        {
            let e = &self.entries[i];
            entries.push((e.0, e.1.clone()));
            i = i + 1;
            assert(entries@ =~= self.entries@.subrange(0, i as int));
        }
        assert(self.entries@.subrange(0, i as int) =~= self.entries@);
        HarvestIR { entries }
    }

    /// A new IR: this one with each change stored under its id, replacing what was
    /// there; where `changes` names an id twice, its later entry wins.
    pub(crate) fn with_changes(&self, changes: &Vec<(Id, Arc<Representation>)>) -> (r: HarvestIR)
        requires
            self.wf(),
        ensures
            r.wf(),
            r@ == self@.union_prefer_right(map_of(shared_seq(changes@))),
    {
        let mut r = self.copy();
        let ghost cs = shared_seq(changes@);
        let mut i: usize = 0;
        assert(map_of(cs.subrange(0, 0)) =~= Map::<Id, Representation>::empty());
        assert(self@.union_prefer_right(Map::<Id, Representation>::empty()) =~= self@);
        while i < changes.len()
            invariant
                i <= changes@.len(),
                cs == shared_seq(changes@),
                r.wf(),
                r@ == self@.union_prefer_right(map_of(cs.subrange(0, i as int))),
            decreases changes@.len() - i,
        {
            let e = &changes[i];
            let ghost m0 = map_of(cs.subrange(0, i as int));
            r.set_entry(e.0, e.1.clone());
            assert(cs.subrange(0, i + 1).drop_last() =~= cs.subrange(0, i as int));
            assert(map_of(cs.subrange(0, i + 1)) == m0.insert(e.0, *e.1));
            assert(self@.union_prefer_right(m0.insert(e.0, *e.1)) =~= self@.union_prefer_right(m0).insert(e.0, *e.1));
            i = i + 1;
        }
        assert(cs.subrange(0, i as int) =~= cs);
        r
    }

    /// The number of representations.
    pub fn len(&self) -> (r: usize)
        ensures
            r == self.ordered().len(),
    {
        self.entries.len()
    }

    /// The entry at position `i` in ascending id order.
    pub fn entry(&self, i: usize) -> (r: (Id, &Representation))
        requires
            i < self.ordered().len(),
        ensures
            r.0 == self.ordered()[i as int].0,
            *r.1 == self.ordered()[i as int].1,
    {
        let e = &self.entries[i];
        (e.0, &*e.1)
    }

    /// The shared handle of the representation at position `i`.
    pub fn shared_entry(&self, i: usize) -> (r: (Id, Arc<Representation>))
        requires
            i < self.ordered().len(),
        ensures
            r.0 == self.ordered()[i as int].0,
            *r.1 == self.ordered()[i as int].1,
    {
        let e = &self.entries[i];
        (e.0, e.1.clone())
    }

    /// The position of `id`, if this IR holds it.
    fn position(&self, id: Id) -> (r: Option<usize>)
        requires
            self.wf(),
        ensures
            match r {
                Some(i) => i < self.ordered().len() && self.ordered()[i as int].0 == id,
                None => forall|i: int| 0 <= i < self.ordered().len() ==> self.ordered()[i].0 != id,
            },
    {
        let mut i: usize = 0;
        while i < self.entries.len()
            invariant
                i <= self.ordered().len(),
                self.entries@.len() == self.ordered().len(),
                forall|j: int| 0 <= j < i ==> self.ordered()[j].0 != id,
            decreases self.entries@.len() - i,
        {
            if self.entries[i].0 == id {
                return Some(i);
            }
            i = i + 1;
        }
        None
    }

    /// Whether this IR holds a representation under `id`.
    pub fn contains_id(&self, id: Id) -> (r: bool)
        requires
            self.wf(),
        ensures
            r == self@.contains_key(id),
    {
        proof {
            lemma_map_of(self.ordered());
        }
        self.position(id).is_some()
    }

    /// The representation held under `id`, if any.
    pub fn get(&self, id: Id) -> (r: Option<&Representation>)
        requires
            self.wf(),
        ensures
            match r {
                Some(v) => self@.contains_key(id) && *v == self@[id],
                None => !self@.contains_key(id),
            },
    {
        proof {
            lemma_map_of(self.ordered());
        }
        match self.position(id) {
            Some(i) => Some(&*self.entries[i].1),
            None => None,
        }
    }

    /// The ids of all representations, in ascending order.
    pub fn ids(&self) -> (r: Vec<Id>)
        ensures
            r@ == self.ordered().map_values(|e: (Id, Representation)| e.0),
    {
        let mut r: Vec<Id> = Vec::new();
        let mut i: usize = 0;
        while i < self.entries.len()
            invariant
                i <= self.ordered().len(),
                self.entries@.len() == self.ordered().len(),
                r@ == self.ordered().subrange(0, i as int).map_values(|e: (Id, Representation)| e.0),
            decreases self.entries@.len() - i,
        {
            r.push(self.entries[i].0);
            i = i + 1;
            assert(self.ordered().subrange(0, i as int).drop_last() == self.ordered().subrange(0, i - 1));
        }
        assert(self.ordered().subrange(0, i as int) == self.ordered());
        r
    }

    /// The ids, in ascending order, of the representations of the given kind.
    pub fn get_by_kind(&self, kind: Kind) -> (r: Vec<Id>)
        ensures
            r@ == ids_of_kind(self.ordered(), kind),
    {
        let mut r: Vec<Id> = Vec::new();
        let mut i: usize = 0;
        while i < self.entries.len()
            invariant
                i <= self.ordered().len(),
                self.entries@.len() == self.ordered().len(),
                r@ == ids_of_kind(self.ordered().subrange(0, i as int), kind),
            decreases self.entries@.len() - i,
        {
            assert(self.ordered().subrange(0, i + 1).drop_last() == self.ordered().subrange(0, i as int));
            if self.entries[i].1.kind() == kind {
                r.push(self.entries[i].0);
            }
            i = i + 1;
        }
        assert(self.ordered().subrange(0, i as int) == self.ordered());
        r
    }
}

/// The rendering of the entries `s`: one `id: rendering` line each, in order.
pub open spec fn render_entries(s: Seq<(Id, Representation)>) -> Seq<char>
    decreases s.len(),
{
    if s.len() == 0 {
        Seq::empty()
    } else {
        render_entries(s.drop_last()) + decimal(s.last().0.spec_value()) + ": "@ + s.last().1.spec_render() + "\n"@
    }
}

impl HarvestIR {
    /// The rendering of this IR: `id: rendering` for each representation, in id
    /// order.
    pub fn render_text(&self) -> (r: String)
        ensures
            r@ == render_entries(self.ordered()),
    {
        let mut out = String::new();
        proof {
            reveal_strlit(": ");
            reveal_strlit("\n");
        }
        let mut i: usize = 0;
        while i < self.entries.len()
            invariant
                i <= self.ordered().len(),
                self.entries@.len() == self.ordered().len(),
                out@ == render_entries(self.ordered().subrange(0, i as int)),
            decreases self.ordered().len() - i,
        {
            let (id, rep) = self.entry(i);
            let ghost before = out@;
            push_decimal(&mut out, id.get());
            out.append(": ");
            let body = rep.render_text();
            out.append(body.as_str());
            out.append("\n");
            assert(self.ordered().subrange(0, i + 1).drop_last() =~= self.ordered().subrange(0, i as int));
            assert(out@ =~= before + decimal(self.ordered()[i as int].0.spec_value()) + ": "@ + self.ordered()[i as int].1.spec_render() + "\n"@);
            i = i + 1;
        }
        assert(self.ordered().subrange(0, i as int) =~= self.ordered());
        out
    }
}

} // verus!
