//! The names and texts of the diagnostics directory: zero-padded version and id
//! directories, the `index` file of each IR version, and per-tool run directories.
use vstd::prelude::*;
use crate::id::Id;
use crate::ir::HarvestIR;
use crate::repr::Representation;

verus! {

/// The character of a decimal digit.
pub open spec fn digit_char(d: nat) -> char {
    if d == 0 { '0' } else if d == 1 { '1' } else if d == 2 { '2' } else if d == 3 { '3' }
    else if d == 4 { '4' } else if d == 5 { '5' } else if d == 6 { '6' } else if d == 7 { '7' }
    else if d == 8 { '8' } else { '9' }
}

/// The decimal digits of `n`, without leading zeros.
pub open spec fn decimal(n: nat) -> Seq<char>
    decreases n,
{
    if n < 10 {
        seq![digit_char(n)]
    } else {
        decimal(n / 10).push(digit_char(n % 10))
    }
}

/// `k` zero characters.
pub open spec fn zeros(k: nat) -> Seq<char>
    decreases k,
{
    if k == 0 {
        Seq::empty()
    } else {
        zeros((k - 1) as nat).push('0')
    }
}

/// `n` in decimal, padded on the left with zeros to at least `width` characters.
pub open spec fn padded(n: nat, width: nat) -> Seq<char> {
    let d = decimal(n);
    if d.len() < width {
        zeros((width - d.len()) as nat) + d
    } else {
        d
    }
}

/// The line of the `index` file for one entry: `III: KindName`.
pub open spec fn index_line(e: (Id, Representation)) -> Seq<char> {
    padded(e.0.spec_value(), 3) + ": "@ + e.1.spec_kind().spec_name() + "\n"@
}

/// The `index` file of an IR version whose entries, in ascending id order, are `s`.
pub open spec fn index_text_of(s: Seq<(Id, Representation)>) -> Seq<char>
    decreases s.len(),
{
    if s.len() == 0 {
        Seq::empty()
    } else {
        index_text_of(s.drop_last()) + index_line(s.last())
    }
}

fn digit_str(d: u64) -> (r: &'static str)
    requires
        d < 10,
    ensures
        r@ == seq![digit_char(d as nat)],
{
    proof {
        reveal_strlit("0");
        reveal_strlit("1");
        reveal_strlit("2");
        reveal_strlit("3");
        reveal_strlit("4");
        reveal_strlit("5");
        reveal_strlit("6");
        reveal_strlit("7");
        reveal_strlit("8");
        reveal_strlit("9");
    }
    let r = if d == 0 { "0" } else if d == 1 { "1" } else if d == 2 { "2" } else if d == 3 { "3" }
    else if d == 4 { "4" } else if d == 5 { "5" } else if d == 6 { "6" } else if d == 7 { "7" }
    else if d == 8 { "8" } else { "9" };
    assert(r@ =~= seq![digit_char(d as nat)]);
    r
}

/// Appends the decimal digits of `n` to `out`.
pub fn push_decimal(out: &mut String, n: u64)
    ensures
        final(out)@ == old(out)@ + decimal(n as nat),
    decreases n,
{
    if n >= 10 {
        push_decimal(out, n / 10);
    }
    out.append(digit_str(n % 10));
    assert(decimal(n as nat) =~= if n < 10 { seq![digit_char(n as nat)] } else { decimal((n / 10) as nat).push(digit_char((n % 10) as nat)) });
    assert(final(out)@ =~= old(out)@ + decimal(n as nat));
}

fn decimal_len(n: u64) -> (r: usize)
    ensures
        r == decimal(n as nat).len(),
    decreases n,
{
    if n < 10 {
        1
    } else {
        let k = decimal_len(n / 10);
        proof {
            lemma_decimal_len_bound(n as nat);
        }
        k + 1
    }
}

proof fn lemma_decimal_len_bound(n: nat)
    ensures
        decimal(n).len() <= 20 || n > u64::MAX,
        1 <= decimal(n).len(),
    decreases n,
{
    if n >= 10 {
        lemma_decimal_len_bound(n / 10);
        if n <= u64::MAX {
            lemma_decimal_len_small(n / 10);
        }
    }
}

proof fn lemma_decimal_len_small(n: nat)
    requires
        n <= u64::MAX / 10,
    ensures
        decimal(n).len() <= 19,
    decreases n,
{
    reveal_with_fuel(pow10, 20);
    assert(pow10(19) == 10000000000000000000nat);
    lemma_len_by_magnitude(n, 19);
}

proof fn lemma_len_by_magnitude(n: nat, k: nat)
    requires
        n < pow10(k),
        k >= 1,
    ensures
        decimal(n).len() <= k,
    decreases n,
{
    if n >= 10 {
        assert(n / 10 < pow10((k - 1) as nat)) by {
            assert(pow10(k) == 10 * pow10((k - 1) as nat));
        }
        if k == 1 {
            assert(pow10(1) == 10 * pow10(0));
        } else {
            lemma_len_by_magnitude(n / 10, (k - 1) as nat);
        }
    }
}

/// Ten to the power `k`.
pub open spec fn pow10(k: nat) -> nat
    decreases k,
{
    if k == 0 { 1 } else { 10 * pow10((k - 1) as nat) }
}

/// `n` in decimal, padded on the left with zeros to at least `width` characters.
pub fn zero_padded(n: u64, width: usize) -> (r: String)
    ensures
        r@ == padded(n as nat, width as nat),
{
    let mut out = String::new();
    let len = decimal_len(n);
    if len < width {
        let mut k: usize = 0;
        while k < width - len
            invariant
                k <= width - len,
                len < width,
                out@ == zeros(k as nat),
            decreases width - len - k,
        {
            proof {
                reveal_strlit("0");
            }
            out.append("0");
            k = k + 1;
            assert(out@ =~= zeros(k as nat));
        }
    }
    push_decimal(&mut out, n);
    out
}

/// The name of the directory of IR version `version`: at least three digits.
pub fn version_dir_name(version: u64) -> (r: String)
    ensures
        r@ == padded(version as nat, 3),
{
    zero_padded(version, 3)
}

/// The `index` file of an IR version: one line `III: KindName` per representation,
/// in ascending id order.
pub fn index_text(ir: &HarvestIR) -> (r: String)
    ensures
        r@ == index_text_of(ir.ordered()),
{
    let mut out = String::new();
    let mut i: usize = 0;
    proof {
        reveal_strlit(": ");
        reveal_strlit("\n");
    }
    while i < ir.len()
        invariant
            i <= ir.ordered().len(),
            out@ == index_text_of(ir.ordered().subrange(0, i as int)),
        decreases ir.ordered().len() - i,
    {
        let (id, rep) = ir.entry(i);
        let ghost before = out@;
        let num = zero_padded(id.get(), 3);
        out.append(num.as_str());
        out.append(": ");
        out.append(rep.name());
        out.append("\n");
        assert(ir.ordered().subrange(0, i + 1).drop_last() =~= ir.ordered().subrange(0, i as int));
        assert(out@ =~= before + index_line(ir.ordered()[i as int]));
        i = i + 1;
    }
    assert(ir.ordered().subrange(0, i as int) =~= ir.ordered());
    out
}

/// The counts that a table of (name, count) entries records, by name.
pub open spec fn counts_map(s: Seq<(String, u64)>) -> Map<Seq<char>, nat> {
    Map::new(
        |name: Seq<char>| exists|i: int| 0 <= i < s.len() && s[i].0@ == name,
        |name: Seq<char>| {
            let i = choose|i: int| 0 <= i < s.len() && s[i].0@ == name;
            s[i].1 as nat
        },
    )
}

/// Whether the names of a table are distinct.
pub open spec fn distinct_names(s: Seq<(String, u64)>) -> bool {
    forall|i: int, j: int| 0 <= i < j < s.len() ==> (#[trigger] s[i]).0@ != (#[trigger] s[j]).0@
}

/// In a table with distinct names, the entry at `i` gives the count of its name.
proof fn lemma_count_at(s: Seq<(String, u64)>, i: int)
    requires
        distinct_names(s),
        0 <= i < s.len(),
    ensures
        counts_map(s).contains_key(s[i].0@),
        counts_map(s)[s[i].0@] == s[i].1 as nat,
{
    let c = choose|c: int| 0 <= c < s.len() && s[c].0@ == s[i].0@;
    if c < i {
        assert(s[c].0@ != s[i].0@);
    } else if c > i {
        assert(s[i].0@ != s[c].0@);
    }
}

/// A table that changed only in entries named `name`, or by entries named `name`
/// added at its end, records the same count as before for every other name.
proof fn lemma_other_counts(before: Seq<(String, u64)>, after: Seq<(String, u64)>, name: Seq<char>)
    requires
        distinct_names(before),
        distinct_names(after),
        before.len() <= after.len(),
        forall|i: int| 0 <= i < before.len() && before[i].0@ != name ==> after[i] == before[i],
        forall|i: int| 0 <= i < before.len() && before[i].0@ == name ==> after[i].0@ == name,
        forall|i: int| before.len() <= i < after.len() ==> after[i].0@ == name,
    ensures
        forall|other: Seq<char>| other != name ==> (#[trigger] counts_map(after).contains_key(other)
            == counts_map(before).contains_key(other)) && (counts_map(after).contains_key(other)
            ==> counts_map(after)[other] == counts_map(before)[other]),
{
    assert forall|other: Seq<char>| other != name implies (#[trigger] counts_map(after).contains_key(other)
        == counts_map(before).contains_key(other)) && (counts_map(after).contains_key(other)
        ==> counts_map(after)[other] == counts_map(before)[other]) by {
        if counts_map(after).contains_key(other) {
            let c = choose|c: int| 0 <= c < after.len() && after[c].0@ == other;
            assert(c < before.len() && before[c].0@ != name);
            assert(after[c] == before[c]);
            lemma_count_at(after, c);
            lemma_count_at(before, c);
        }
        if counts_map(before).contains_key(other) {
            let c = choose|c: int| 0 <= c < before.len() && before[c].0@ == other;
            assert(after[c] == before[c]);
        }
    }
}

/// For each tool name, how many runs of it have started.
#[derive(Debug)]
pub struct ToolRuns {
    counts: Vec<(String, u64)>,
}

impl ToolRuns {
    /// The number of started runs of each tool that has run.
    pub closed spec fn runs(&self) -> Map<Seq<char>, nat> {
        counts_map(self.counts@)
    }

    /// The number of started runs of the tool named `name`.
    pub open spec fn run_count(&self, name: Seq<char>) -> nat {
        if self.runs().contains_key(name) { self.runs()[name] } else { 0 }
    }

    /// Each name appears once.
    pub closed spec fn wf(&self) -> bool {
        distinct_names(self.counts@)
    }

    /// No tool has run yet.
    pub fn new() -> (r: ToolRuns)
        ensures
            r.wf(),
            forall|name: Seq<char>| r.run_count(name) == 0,
    {
        let r = ToolRuns { counts: Vec::new() };
        assert(r.runs() =~= Map::<Seq<char>, nat>::empty());
        r
    }

    /// The number of started runs of the tool named `name`.
    pub fn count(&self, name: &str) -> (r: u64)
        requires
            self.wf(),
        ensures
            r == self.run_count(name@),
    {
        let key = String::from_str(name);
        let mut i: usize = 0;
        while i < self.counts.len()
            invariant
                i <= self.counts@.len(),
                self.wf(),
                key@ == name@,
                forall|j: int| 0 <= j < i ==> self.counts@[j].0@ != name@,
            decreases self.counts@.len() - i,
        {
            if self.counts[i].0 == key {
                proof {
                    lemma_count_at(self.counts@, i as int);
                }
                return self.counts[i].1;
            }
            i = i + 1;
        }
        0
    }

    /// Starts a run of the tool named `name` and returns the name of its
    /// directory: `<name>_<n>`, where `n` counts the runs of that tool from 1.
    pub fn start_tool_run(&mut self, name: &str) -> (r: String)
        requires
            old(self).wf(),
            old(self).run_count(name@) < u64::MAX,
        ensures
            final(self).wf(),
            final(self).run_count(name@) == old(self).run_count(name@) + 1,
            forall|other: Seq<char>| other != name@ ==> #[trigger] final(self).run_count(other) == old(self).run_count(other),
            r@ == name@ + "_"@ + decimal(final(self).run_count(name@)),
    {
        let key = String::from_str(name);
        let mut i: usize = 0;
        let mut found: Option<usize> = None;
        while i < self.counts.len()
            invariant
                i <= self.counts@.len(),
                key@ == name@,
                found matches Some(j) ==> j < i && self.counts@[j as int].0@ == name@,
                found is None ==> forall|j: int| 0 <= j < i ==> self.counts@[j].0@ != name@,
            decreases self.counts@.len() - i,
        {
            if found.is_none() && self.counts[i].0 == key {
                found = Some(i);
            }
            i = i + 1;
        }
        let n: u64;
        match found {
            Some(j) => {
                proof {
                    lemma_count_at(self.counts@, j as int);
                }
                n = self.counts[j].1 + 1;
                let ghost before = self.counts@;
                self.counts.set(j, (key, n));
                proof {
                    assert forall|a: int, b: int| 0 <= a < b < self.counts@.len() implies (#[trigger] self.counts@[a]).0@ != (#[trigger] self.counts@[b]).0@ by {
                        assert(before[a].0@ != before[b].0@);
                    }
                    lemma_other_counts(before, self.counts@, name@);
                    lemma_count_at(self.counts@, j as int);
                }
            },
            None => {
                n = 1;
                let ghost before = self.counts@;
                self.counts.push((key, n));
                proof {
                    assert(!old(self).runs().contains_key(name@));
                    assert forall|a: int, b: int| 0 <= a < b < self.counts@.len() implies (#[trigger] self.counts@[a]).0@ != (#[trigger] self.counts@[b]).0@ by {
                        if b < before.len() {
                            assert(before[a].0@ != before[b].0@);
                        } else {
                            assert(self.counts@[a] == before[a]);
                        }
                    }
                    assert forall|a: int| 0 <= a < before.len() && before[a].0@ != name@ implies self.counts@[a] == before[a] by {}
                    lemma_other_counts(before, self.counts@, name@);
                    lemma_count_at(self.counts@, before.len() as int);
                }
            },
        }
        let mut out = String::from_str(name);
        proof {
            reveal_strlit("_");
        }
        out.append("_");
        push_decimal(&mut out, n);
        out
    }
}

} // verus!
