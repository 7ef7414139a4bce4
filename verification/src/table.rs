//! Threshold tables: an ordered association of patterns with severities,
//! how a candidate text resolves to a threshold, and the table's textual form.

use vstd::prelude::*;
use crate::severity::Severity;
use crate::text::{chars_of, contains, free_of, is_substring};

verus! {

/// The mathematical model of a table: its entries in insertion order.
pub type TableModel = Seq<(Seq<char>, Severity)>;

/// Whether a pattern can stand in the textual form: it holds neither the
/// entry separator `,` nor the level separator `:`.
pub open spec fn plain(pattern: Seq<char>) -> bool {
    free_of(pattern, ',') && free_of(pattern, ':')
}

/// Whether no pattern occurs twice in `t`.
pub open spec fn distinct_patterns(t: TableModel) -> bool {
    forall|i: int, j: int| 0 <= i < j < t.len() ==> t[i].0 != t[j].0
}

/// Whether `t` is a valid table: patterns are unique and plain.
pub open spec fn valid_table(t: TableModel) -> bool {
    &&& distinct_patterns(t)
    &&& forall|i: int| 0 <= i < t.len() ==> plain(#[trigger] t[i].0)
}

/// Whether some entry of `t` has the pattern `p`.
pub open spec fn has_pattern(t: TableModel, p: Seq<char>) -> bool {
    exists|i: int| 0 <= i < t.len() && #[trigger] t[i].0 == p
}

/// The table after `p` is given the severity `sev`: an entry that already
/// has the pattern keeps its place and takes the new severity; otherwise the
/// entry is added at the end.
pub open spec fn upsert(t: TableModel, p: Seq<char>, sev: Severity) -> TableModel {
    if has_pattern(t, p) {
        Seq::new(
            t.len(),
            |i: int|
                if t[i].0 == p {
                    (p, sev)
                } else {
                    t[i]
                },
        )
    } else {
        t.push((p, sev))
    }
}

/// The severity of the first entry at or after `k` whose pattern is `p`.
pub open spec fn lookup_from(t: TableModel, p: Seq<char>, k: int) -> Option<Severity>
    decreases t.len() - k,
{
    if k < 0 || k >= t.len() {
        None
    } else if t[k].0 == p {
        Some(t[k].1)
    } else {
        lookup_from(t, p, k + 1)
    }
}

/// The severity that `t` maps the pattern `p` to, if any.
pub open spec fn lookup(t: TableModel, p: Seq<char>) -> Option<Severity> {
    lookup_from(t, p, 0)
}

/// The severity of the first entry at or after `k` whose pattern occurs in
/// `candidate`; `Info` where there is none.
pub open spec fn threshold_from(t: TableModel, candidate: Seq<char>, k: int) -> Severity
    decreases t.len() - k,
{
    if k < 0 || k >= t.len() {
        Severity::Info
    } else if is_substring(t[k].0, candidate) {
        t[k].1
    } else {
        threshold_from(t, candidate, k + 1)
    }
}

/// The threshold that governs `candidate`: the first match in insertion
/// order wins, and `Info` is the default when nothing matches.
pub open spec fn threshold_for(t: TableModel, candidate: Seq<char>) -> Severity {
    threshold_from(t, candidate, 0)
}

/// The textual form of one entry: pattern, colon, severity name.
pub open spec fn entry_text(e: (Seq<char>, Severity)) -> Seq<char> {
    e.0 + seq![':'] + e.1.name()
}

/// The textual form of a table: its entries in order, joined by commas. The
/// empty table has the empty text.
pub open spec fn serialize(t: TableModel) -> Seq<char>
    decreases t.len(),
{
    if t.len() == 0 {
        Seq::<char>::empty()
    } else if t.len() == 1 {
        entry_text(t[0])
    } else {
        serialize(t.drop_last()) + seq![','] + entry_text(t.last())
    }
}

/// Giving a plain pattern a severity keeps a valid table valid.
pub proof fn lemma_upsert_valid(t: TableModel, p: Seq<char>, sev: Severity)
    requires
        valid_table(t),
        plain(p),
    ensures
        valid_table(upsert(t, p, sev)),
        upsert(t, p, sev).len() >= 1,
        lookup(upsert(t, p, sev), p) == Some(sev),
{
    let u = upsert(t, p, sev);
    if has_pattern(t, p) {
        let w = choose|i: int| 0 <= i < t.len() && #[trigger] t[i].0 == p;
        assert(u[w].0 == p);
        assert forall|i: int| 0 <= i < u.len() implies u[i].0 == t[i].0 by {}
        lemma_lookup_hit(u, p, w, 0);
    } else {
        assert forall|i: int, j: int| 0 <= i < j < u.len() implies u[i].0 != u[j].0 by {
            if j == t.len() {
                assert(t[i].0 != p);
            }
        }
        lemma_lookup_hit(u, p, t.len() as int, 0);
    }
}

/// In a table with distinct patterns, the entry at `w` is what a lookup of
/// its pattern finds, from any start at or before `w`.
pub proof fn lemma_lookup_hit(t: TableModel, p: Seq<char>, w: int, k: int)
    requires
        distinct_patterns(t),
        0 <= k <= w < t.len(),
        t[w].0 == p,
    ensures
        lookup_from(t, p, k) == Some(t[w].1),
    decreases w - k,
{
    if k < w {
        lemma_lookup_hit(t, p, w, k + 1);
    }
}

/// Giving `p` a severity changes what no other pattern maps to.
pub proof fn lemma_upsert_keeps_others(
    t: TableModel,
    p: Seq<char>,
    sev: Severity,
    q: Seq<char>,
    k: int,
)
    requires
        q != p,
        0 <= k,
    ensures
        lookup_from(upsert(t, p, sev), q, k) == lookup_from(t, q, k),
    decreases t.len() + 1 - k,
{
    let u = upsert(t, p, sev);
    if k < u.len() {
        lemma_upsert_keeps_others(t, p, sev, q, k + 1);
    }
}

/// The first entry whose pattern occurs in the candidate decides, whatever
/// follows it.
pub proof fn lemma_first_match_wins(t: TableModel, candidate: Seq<char>, from: int, k: int)
    requires
        0 <= from <= k < t.len(),
        is_substring(t[k].0, candidate),
        forall|i: int| from <= i < k ==> !is_substring(#[trigger] t[i].0, candidate),
    ensures
        threshold_from(t, candidate, from) == t[k].1,
    decreases k - from,
{
    if from < k {
        lemma_first_match_wins(t, candidate, from + 1, k);
    }
}

/// Where no pattern occurs in the candidate, the threshold is `Info`.
pub proof fn lemma_no_match_is_info(t: TableModel, candidate: Seq<char>, from: int)
    requires
        0 <= from,
        forall|i: int| from <= i < t.len() ==> !is_substring(#[trigger] t[i].0, candidate),
    ensures
        threshold_from(t, candidate, from) == Severity::Info,
    decreases t.len() - from,
{
    if from < t.len() {
        lemma_no_match_is_info(t, candidate, from + 1);
    }
}

/// One pattern with its threshold.
#[derive(Debug)]
pub struct ThresholdEntry {
    pub pattern: String,
    pub severity: Severity,
}

impl View for ThresholdEntry {
    type V = (Seq<char>, Severity);

    open spec fn view(&self) -> (Seq<char>, Severity) {
        (self.pattern@, self.severity)
    }
}

/// A threshold table. Entries keep the order in which their patterns were
/// first inserted; that order is the precedence among matching patterns.
#[derive(Debug)]
pub struct ThresholdTable {
    entries: Vec<ThresholdEntry>,
}

impl View for ThresholdTable {
    type V = TableModel;

    closed spec fn view(&self) -> TableModel {
        self.entries@.map_values(|e: ThresholdEntry| e@)
    }
}

impl ThresholdTable {
    /// The invariant of a table: unique, plain patterns.
    pub open spec fn wf(&self) -> bool {
        valid_table(self@)
    }

    /// The empty table.
    pub fn new() -> (t: ThresholdTable)
        ensures
            t@ =~= Seq::<(Seq<char>, Severity)>::empty(),
            t.wf(),
    {
        ThresholdTable { entries: Vec::new() }
    }

    /// The number of entries.
    pub fn len(&self) -> (n: usize)
        ensures
            n == self@.len(),
    {
        self.entries.len()
    }

    /// Whether the table has no entry.
    pub fn is_empty(&self) -> (b: bool)
        ensures
            b == (self@.len() == 0),
    {
        self.entries.len() == 0
    }

    /// Gives `pattern` the threshold `severity`, overwriting in place the
    /// severity of an entry that already has this pattern.
    pub(crate) fn insert(&mut self, pattern: String, severity: Severity)
        requires
            old(self).wf(),
            plain(pattern@),
        ensures
            final(self)@ == upsert(old(self)@, pattern@, severity),
            final(self).wf(),
    {
        let ghost before = self@;
        let ghost p = pattern@;
        let n: usize = self.entries.len();
        let mut i: usize = 0;
        while i < n
            invariant
                n == self.entries@.len(),
                self@ == before,
                before == old(self)@,
                valid_table(before),
                p == pattern@,
                plain(p),
                i <= n,
                forall|k: int| 0 <= k < i ==> before[k].0 != p,
            decreases n - i,
        {
            if self.entries[i].pattern == pattern {
                assert(before[i as int].0 == p);
                self.entries.set(i, ThresholdEntry { pattern, severity });
                proof {
                    let after = upsert(before, p, severity);
                    assert forall|k: int| 0 <= k < before.len() implies self@[k] == after[k] by {
                        if k != i {
                            assert(before[k].0 != before[i as int].0);
                        }
                    }
                    assert(self@ =~= after);
                    lemma_upsert_valid(before, p, severity);
                }
                return;
            }
            i += 1;
        }
        assert(!has_pattern(before, p));
        proof {
            lemma_upsert_valid(before, p, severity);
        }
        self.entries.push(ThresholdEntry { pattern, severity });
        assert(self@ =~= upsert(before, p, severity));
    }

    /// The severity that the table holds for exactly this pattern.
    pub fn get(&self, pattern: &str) -> (r: Option<Severity>)
        ensures
            r == lookup(self@, pattern@),
    {
        let key: String = pattern.to_owned();
        let n: usize = self.entries.len();
        let mut i: usize = 0;
        while i < n
            invariant
                n == self.entries@.len(),
                key@ == pattern@,
                i <= n,
                lookup(self@, pattern@) == lookup_from(self@, pattern@, i as int),
            decreases n - i,
        {
            if self.entries[i].pattern == key {
                return Some(self.entries[i].severity);
            }
            i += 1;
        }
        None
    }

    /// Resolves the threshold for a candidate text: the severity of the first
    /// entry, in insertion order, whose pattern occurs in `candidate`, and
    /// `Info` when no pattern does.
    pub fn threshold_for(&self, candidate: &str) -> (r: Severity)
        ensures
            r == threshold_for(self@, candidate@),
    {
        let hay: Vec<char> = chars_of(candidate);
        let n: usize = self.entries.len();
        let mut i: usize = 0;
        while i < n
            invariant
                n == self.entries@.len(),
                hay@ == candidate@,
                i <= n,
                threshold_for(self@, candidate@) == threshold_from(self@, candidate@, i as int),
            decreases n - i,
        {
            let needle: Vec<char> = chars_of(self.entries[i].pattern.as_str());
            if contains(hay.as_slice(), needle.as_slice()) {
                return self.entries[i].severity;
            }
            i += 1;
        }
        Severity::Info
    }

    /// The entry at position `i` in insertion order.
    pub fn entry(&self, i: usize) -> (e: &ThresholdEntry)
        requires
            i < self@.len(),
        ensures
            e@ == self@[i as int],
    {
        &self.entries[i]
    }
}

} // verus!
