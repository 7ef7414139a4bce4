//! The compact textual form of thresholds: a comma-separated list of
//! entries, each `pattern` or `pattern:L` with a one-letter level.

use vstd::prelude::*;
use crate::severity::Severity;
use crate::table::{lemma_upsert_valid, plain, upsert, valid_table, TableModel, ThresholdTable};
use crate::text::{
    chars_of, count_of, free_of, last_index_of, lemma_count_at_last, lemma_last_index_is,
    lemma_last_index_of,
};

verus! {

/// Why a threshold specification is refused.
#[derive(Clone, Copy, Debug, PartialEq, Eq, Structural)]
pub enum ConfigError {
    /// An entry holds more than one `:`.
    TooManyColons,
}

/// What one non-empty entry says: its pattern and severity, or `None` where
/// the entry holds more than one colon. An entry without a colon is a
/// pattern with the threshold `Trace`; otherwise the pattern stands before
/// the colon and the level abbreviation after it.
pub open spec fn entry_of(e: Seq<char>) -> Option<(Seq<char>, Severity)> {
    let colon = last_index_of(e, ':');
    if colon < 0 {
        Some((e, Severity::Trace))
    } else if last_index_of(e.subrange(0, colon), ':') >= 0 {
        None
    } else {
        Some((e.subrange(0, colon), Severity::of_abbrev(e.subrange(colon + 1, e.len() as int))))
    }
}

/// An entry is refused exactly when it holds two colons or more.
pub proof fn lemma_entry_refused_iff(e: Seq<char>)
    ensures
        entry_of(e) is None <==> count_of(e, ':') >= 2,
{
    let colon = last_index_of(e, ':');
    lemma_count_at_last(e, ':');
    if colon >= 0 {
        lemma_count_at_last(e.subrange(0, colon), ':');
    }
}

/// The table after one entry is taken in. An empty entry changes nothing, a
/// malformed one makes the whole parse fail, and a failure stays a failure.
pub open spec fn absorb_entry(acc: Option<TableModel>, e: Seq<char>) -> Option<TableModel> {
    match acc {
        None => None,
        Some(t) => if e.len() == 0 {
            Some(t)
        } else {
            match entry_of(e) {
                None => None,
                Some((p, sev)) => Some(upsert(t, p, sev)),
            }
        },
    }
}

/// The table after the entries of one specification text are taken in, from
/// left to right. The text is cut at each comma.
pub open spec fn absorb_text(acc: Option<TableModel>, s: Seq<char>) -> Option<TableModel>
    decreases s.len(),
{
    let comma = last_index_of(s, ',');
    if comma < 0 || comma >= s.len() {
        absorb_entry(acc, s)
    } else {
        absorb_entry(absorb_text(acc, s.subrange(0, comma)), s.subrange(comma + 1, s.len() as int))
    }
}

/// The table that a sequence of specification texts denotes, or `None` where
/// one of their entries is malformed.
pub open spec fn parse_specs(specs: Seq<Seq<char>>) -> Option<TableModel>
    decreases specs.len(),
{
    if specs.len() == 0 {
        Some(Seq::empty())
    } else {
        absorb_text(parse_specs(specs.drop_last()), specs.last())
    }
}

/// The texts that a slice of strings holds.
pub open spec fn texts_of(specs: Seq<String>) -> Seq<Seq<char>> {
    specs.map_values(|s: String| s@)
}

/// The state of a parse of `s` when the entry that starts at `start` is
/// next: everything before the comma at `start - 1` has been taken in.
pub open spec fn taken_before(acc: Option<TableModel>, s: Seq<char>, start: int) -> Option<
    TableModel,
> {
    if start <= 0 {
        acc
    } else {
        absorb_text(acc, s.subrange(0, start - 1))
    }
}

/// A failed parse takes in nothing more.
pub proof fn lemma_absorb_failed(s: Seq<char>)
    ensures
        absorb_text(None, s) is None,
    decreases s.len(),
{
    let comma = last_index_of(s, ',');
    if 0 <= comma < s.len() {
        lemma_absorb_failed(s.subrange(0, comma));
    }
}

/// Taking in the text up to a cut (a comma, or the end) is taking in the
/// last entry before the cut after everything before that entry.
pub proof fn lemma_absorb_step(acc: Option<TableModel>, s: Seq<char>, start: int, cut: int)
    requires
        0 <= start <= cut <= s.len(),
        start > 0 ==> s[start - 1] == ',',
        forall|j: int| start <= j < cut ==> s[j] != ',',
    ensures
        absorb_text(acc, s.subrange(0, cut)) == absorb_entry(
            taken_before(acc, s, start),
            s.subrange(start, cut),
        ),
{
    let u = s.subrange(0, cut);
    lemma_last_index_is(u, ',', start - 1);
    if start > 0 {
        assert(u.subrange(0, start - 1) =~= s.subrange(0, start - 1));
        assert(u.subrange(start, u.len() as int) =~= s.subrange(start, cut));
    } else {
        assert(u =~= s.subrange(start, cut));
    }
}

/// Once the text up to a cut has failed, the whole text fails.
pub proof fn lemma_failure_lasts(acc: Option<TableModel>, s: Seq<char>, cut: int)
    requires
        0 <= cut <= s.len(),
        cut < s.len() ==> s[cut] == ',',
        absorb_text(acc, s.subrange(0, cut)) is None,
    ensures
        absorb_text(acc, s) is None,
    decreases s.len(),
{
    if cut == s.len() {
        assert(s.subrange(0, cut) =~= s);
    } else {
        let comma = last_index_of(s, ',');
        lemma_last_index_of(s, ',');
        assert(comma >= cut);
        if comma > cut {
            let front = s.subrange(0, comma);
            assert(front.subrange(0, cut) =~= s.subrange(0, cut));
            lemma_failure_lasts(acc, front, cut);
        }
    }
}

/// Once a prefix of the texts has failed, the whole sequence fails.
pub proof fn lemma_specs_failure_lasts(specs: Seq<Seq<char>>, k: int)
    requires
        0 <= k <= specs.len(),
        parse_specs(specs.subrange(0, k)) is None,
    ensures
        parse_specs(specs) is None,
    decreases specs.len() - k,
{
    if k == specs.len() {
        assert(specs.subrange(0, k) =~= specs);
    } else {
        let next = specs.subrange(0, k + 1);
        assert(next.drop_last() =~= specs.subrange(0, k));
        lemma_absorb_failed(next.last());
        lemma_specs_failure_lasts(specs, k + 1);
    }
}

/// The pattern of an entry that holds no comma is plain.
pub proof fn lemma_entry_pattern_plain(e: Seq<char>)
    requires
        free_of(e, ','),
        entry_of(e) is Some,
    ensures
        plain(entry_of(e).unwrap().0),
{
    let colon = last_index_of(e, ':');
    lemma_last_index_of(e, ':');
    if colon >= 0 {
        lemma_last_index_of(e.subrange(0, colon), ':');
    }
}

/// Taking in an entry that holds no comma keeps a valid table valid.
pub proof fn lemma_absorb_entry_valid(t: TableModel, e: Seq<char>)
    requires
        valid_table(t),
        free_of(e, ','),
        absorb_entry(Some(t), e) is Some,
    ensures
        valid_table(absorb_entry(Some(t), e)->0),
{
    if e.len() > 0 {
        lemma_entry_pattern_plain(e);
        lemma_upsert_valid(t, entry_of(e).unwrap().0, entry_of(e).unwrap().1);
    }
}

/// Taking in a text keeps a valid table valid.
pub proof fn lemma_absorb_text_valid(acc: Option<TableModel>, s: Seq<char>)
    requires
        acc is Some ==> valid_table(acc.unwrap()),
    ensures
        absorb_text(acc, s) is Some ==> valid_table(absorb_text(acc, s).unwrap()),
    decreases s.len(),
{
    let comma = last_index_of(s, ',');
    lemma_last_index_of(s, ',');
    if comma < 0 {
        if absorb_entry(acc, s) is Some {
            lemma_absorb_entry_valid(acc.unwrap(), s);
        }
    } else {
        let front = absorb_text(acc, s.subrange(0, comma));
        let tail = s.subrange(comma + 1, s.len() as int);
        lemma_absorb_text_valid(acc, s.subrange(0, comma));
        if absorb_entry(front, tail) is Some {
            assert forall|j: int| 0 <= j < tail.len() implies tail[j] != ',' by {
                assert(tail[j] == s[comma + 1 + j]);
            }
            lemma_absorb_entry_valid(front.unwrap(), tail);
        }
    }
}

/// Every table that a parse gives is valid: its patterns are unique and
/// hold no separator.
pub proof fn lemma_parse_valid(specs: Seq<Seq<char>>)
    ensures
        parse_specs(specs) is Some ==> valid_table(parse_specs(specs).unwrap()),
    decreases specs.len(),
{
    if specs.len() > 0 {
        lemma_parse_valid(specs.drop_last());
        lemma_absorb_text_valid(parse_specs(specs.drop_last()), specs.last());
    }
}

/// Reads the level abbreviation that stands in `text` from `from` to `to`.
fn severity_of_range(text: &Vec<char>, from: usize, to: usize) -> (s: Severity)
    requires
        from <= to <= text@.len(),
    ensures
        s == Severity::of_abbrev(text@.subrange(from as int, to as int)),
{
    let ghost abbrev = text@.subrange(from as int, to as int);
    if to - from != 1 {
        return Severity::Trace;
    }
    let c: char = text[from];
    assert(abbrev =~= seq![c]);
    assert(seq![c][0] == c);
    if c == 'D' {
        Severity::Debug
    } else if c == 'I' {
        Severity::Info
    } else if c == 'W' {
        Severity::Warn
    } else if c == 'E' {
        Severity::Error
    } else {
        assert(seq!['D'][0] == 'D' && seq!['I'][0] == 'I' && seq!['W'][0] == 'W' && seq!['E'][0]
            == 'E');
        Severity::Trace
    }
}

/// The first position of `c` in `text` from `from` up to `to`, or `to`.
fn find_in_range(text: &Vec<char>, c: char, from: usize, to: usize) -> (at: usize)
    requires
        from <= to <= text@.len(),
    ensures
        from <= at <= to,
        at < to ==> text@[at as int] == c,
        forall|j: int| from <= j < at ==> text@[j] != c,
{
    let mut i: usize = from;
    while i < to && text[i] != c
        invariant
            from <= i <= to <= text@.len(),
            forall|j: int| from <= j < i ==> text@[j] != c,
        decreases to - i,
    {
        i += 1;
    }
    i
}

/// Reads the entry that stands in `text` from `start` to `end`: where the
/// pattern ends and which severity the entry names, or `None` for an entry
/// with more than one colon.
fn read_entry(text: &Vec<char>, start: usize, end: usize) -> (r: Option<(usize, Severity)>)
    requires
        start <= end <= text@.len(),
    ensures
        match entry_of(text@.subrange(start as int, end as int)) {
            None => r is None,
            Some((p, sev)) => r is Some && start <= r.unwrap().0 <= end && p == text@.subrange(
                start as int,
                r.unwrap().0 as int,
            ) && sev == r.unwrap().1,
        },
{
    let ghost e = text@.subrange(start as int, end as int);
    let first: usize = find_in_range(text, ':', start, end);
    if first == end {
        proof {
            lemma_last_index_is(e, ':', -1);
        }
        return Some((end, Severity::Trace));
    }
    let second: usize = find_in_range(text, ':', first + 1, end);
    if second < end {
        proof {
            lemma_last_index_of(e, ':');
            let colon = last_index_of(e, ':');
            assert(e[second - start] == ':');
            assert(colon >= second - start);
            let front = e.subrange(0, colon);
            lemma_last_index_of(front, ':');
            assert(front[first - start] == ':');
        }
        return None;
    }
    let sev: Severity = severity_of_range(text, first + 1, end);
    proof {
        lemma_last_index_is(e, ':', first - start);
        lemma_last_index_is(e.subrange(0, first - start), ':', -1);
        assert(e.subrange(0, first - start) =~= text@.subrange(start as int, first as int));
        assert(e.subrange(first - start + 1, e.len() as int) =~= text@.subrange(
            first + 1,
            end as int,
        ));
    }
    Some((first, sev))
}

/// Takes the entry that stands in `spec` from `start` to `end` into `table`.
/// `text` holds the characters of `spec`.
fn take_entry(table: ThresholdTable, spec: &str, text: &Vec<char>, start: usize, end: usize) -> (r:
    Result<ThresholdTable, ConfigError>)
    requires
        table.wf(),
        text@ == spec@,
        start <= end <= text@.len(),
        forall|j: int| start <= j < end ==> text@[j] != ',',
    ensures
        match absorb_entry(Some(table@), text@.subrange(start as int, end as int)) {
            None => r is Err,
            Some(t) => r is Ok && r->Ok_0@ == t && r->Ok_0.wf(),
        },
{
    let ghost e = text@.subrange(start as int, end as int);
    if start == end {
        return Ok(table);
    }
    match read_entry(text, start, end) {
        None => Err(ConfigError::TooManyColons),
        Some((cut, sev)) => {
            let pattern: String = spec.substring_char(start, cut).to_owned();
            proof {
                lemma_absorb_entry_valid(table@, e);
                lemma_entry_pattern_plain(e);
            }
            let mut table = table;
            table.insert(pattern, sev);
            Ok(table)
        },
    }
}

/// Takes the entries of one specification text into `table`, from left to
/// right. Fails exactly when an entry of the text holds more than one colon.
pub fn take_text(table: ThresholdTable, spec: &str) -> (r: Result<ThresholdTable, ConfigError>)
    requires
        table.wf(),
    ensures
        match absorb_text(Some(table@), spec@) {
            None => r is Err && r->Err_0 == ConfigError::TooManyColons,
            Some(t) => r is Ok && r->Ok_0@ == t && r->Ok_0.wf(),
        },
{
    let ghost init = Some(table@);
    let text: Vec<char> = chars_of(spec);
    let n: usize = text.len();
    let mut acc: ThresholdTable = table;
    let mut start: usize = 0;
    let mut i: usize = 0;
    while i < n
        invariant
            text@ == spec@,
            n == text@.len(),
            start <= i <= n,
            start > 0 ==> text@[start - 1] == ',',
            forall|j: int| start <= j < i ==> text@[j] != ',',
            init == Some(table@),
            acc.wf(),
            Some(acc@) == taken_before(init, text@, start as int),
        decreases n - i,
    {
        if text[i] == ',' {
            proof {
                lemma_absorb_step(init, text@, start as int, i as int);
            }
            match take_entry(acc, spec, &text, start, i) {
                Err(e) => {
                    proof {
                        lemma_failure_lasts(init, text@, i as int);
                    }
                    return Err(e);
                },
                Ok(t) => {
                    acc = t;
                },
            }
            start = i + 1;
        }
        i += 1;
    }
    proof {
        lemma_absorb_step(init, text@, start as int, n as int);
        assert(text@.subrange(0, n as int) =~= text@);
    }
    take_entry(acc, spec, &text, start, n)
}

} // verus!
