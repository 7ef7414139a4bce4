//! What reading back the textual form of a table gives.

use vstd::prelude::*;
use crate::parse::{absorb_entry, absorb_text, entry_of, lemma_parse_valid, parse_specs};
use crate::severity::Severity;
use crate::table::{entry_text, has_pattern, plain, serialize, upsert, valid_table, TableModel};
use crate::text::{free_of, last_index_of, lemma_last_index_is};

verus! {

/// The table `t` with every threshold replaced by `Trace`.
pub open spec fn retraced(t: TableModel) -> TableModel {
    Seq::new(t.len(), |i: int| (t[i].0, Severity::Trace))
}

/// Whether every threshold of `t` is `Trace`.
pub open spec fn all_trace(t: TableModel) -> bool {
    forall|i: int| 0 <= i < t.len() ==> (#[trigger] t[i]).1 == Severity::Trace
}

/// A severity's readable name holds no separator and is no level
/// abbreviation.
pub proof fn lemma_name_shape(sev: Severity)
    ensures
        free_of(sev.name(), ','),
        free_of(sev.name(), ':'),
        sev.name().len() >= 4,
        Severity::of_abbrev(sev.name()) == Severity::Trace,
{
    reveal_strlit("Trace");
    reveal_strlit("Debug");
    reveal_strlit("Info");
    reveal_strlit("Warn");
    reveal_strlit("Error");
    assert(seq!['D'].len() == 1 && seq!['I'].len() == 1 && seq!['W'].len() == 1 && seq!['E'].len()
        == 1);
}

/// The textual form of an entry with a plain pattern holds no comma, is not
/// empty, and reads back as the same pattern with the threshold `Trace`.
pub proof fn lemma_entry_text_reads_back(p: Seq<char>, sev: Severity)
    requires
        plain(p),
    ensures
        free_of(entry_text((p, sev)), ','),
        entry_text((p, sev)).len() > 0,
        entry_of(entry_text((p, sev))) == Some((p, Severity::Trace)),
{
    let s = entry_text((p, sev));
    let n = p.len() as int;
    lemma_name_shape(sev);
    assert(s[n] == ':');
    assert forall|j: int| n < j < s.len() implies s[j] != ':' by {
        assert(s[j] == sev.name()[j - n - 1]);
    }
    assert forall|j: int| 0 <= j < s.len() implies s[j] != ',' by {
        if j < n {
            assert(s[j] == p[j]);
        } else if j > n {
            assert(s[j] == sev.name()[j - n - 1]);
        }
    }
    lemma_last_index_is(s, ':', n);
    assert(s.subrange(0, n) =~= p);
    lemma_last_index_is(p, ':', -1);
    assert(s.subrange(n + 1, s.len() as int) =~= sev.name());
}

/// Reading back the textual form of a valid table gives its patterns in the
/// same order, each with the threshold `Trace`: the textual form spells a
/// severity by its name, and a name is no level abbreviation.
pub proof fn lemma_text_reads_back(t: TableModel)
    requires
        valid_table(t),
    ensures
        absorb_text(Some(Seq::empty()), serialize(t)) == Some(retraced(t)),
        parse_specs(seq![serialize(t)]) == Some(retraced(t)),
    decreases t.len(),
{
    let start: Option<TableModel> = Some(Seq::empty());
    let s = serialize(t);
    if t.len() == 0 {
        assert(retraced(t) =~= Seq::empty());
    } else if t.len() == 1 {
        lemma_entry_text_reads_back(t[0].0, t[0].1);
        lemma_last_index_is(s, ',', -1);
        assert(!has_pattern(Seq::<(Seq<char>, Severity)>::empty(), t[0].0));
        assert(retraced(t) =~= upsert(Seq::empty(), t[0].0, Severity::Trace));
    } else {
        let front = t.drop_last();
        let last = t.last();
        let head = serialize(front);
        let tail = entry_text(last);
        let cut = head.len() as int;
        lemma_text_reads_back(front);
        lemma_entry_text_reads_back(last.0, last.1);
        assert(s[cut] == ',');
        assert forall|j: int| cut < j < s.len() implies s[j] != ',' by {
            assert(s[j] == tail[j - cut - 1]);
        }
        lemma_last_index_is(s, ',', cut);
        assert(s.subrange(0, cut) =~= head);
        assert(s.subrange(cut + 1, s.len() as int) =~= tail);
        let before = retraced(front);
        assert(!has_pattern(before, last.0)) by {
            if has_pattern(before, last.0) {
                let i = choose|i: int| 0 <= i < before.len() && #[trigger] before[i].0 == last.0;
                assert(t[i].0 != t[t.len() - 1].0);
            }
        }
        assert(retraced(t) =~= upsert(before, last.0, Severity::Trace));
        assert(absorb_text(start, s) == absorb_entry(absorb_text(start, head), tail));
    }
    let one = seq![s];
    assert(one.drop_last() =~= Seq::<Seq<char>>::empty());
    assert(one.last() == s);
    assert(parse_specs(one.drop_last()) == start);
}

/// A valid table whose thresholds are all `Trace` is the table that its
/// textual form parses to.
pub proof fn lemma_round_trip(t: TableModel)
    requires
        valid_table(t),
        all_trace(t),
    ensures
        parse_specs(seq![serialize(t)]) == Some(t),
{
    lemma_text_reads_back(t);
    assert(retraced(t) =~= t);
}

/// Parsing, writing the table out and parsing that text again keeps the
/// patterns and their order and sets every threshold to `Trace`; so the
/// table comes back unchanged exactly when all its thresholds are `Trace`.
pub proof fn lemma_parse_serialize_parse(specs: Seq<Seq<char>>)
    requires
        parse_specs(specs) is Some,
    ensures
        parse_specs(seq![serialize(parse_specs(specs).unwrap())]) == Some(
            retraced(parse_specs(specs).unwrap()),
        ),
        parse_specs(seq![serialize(parse_specs(specs).unwrap())]) == parse_specs(specs)
            <==> all_trace(parse_specs(specs).unwrap()),
{
    let t = parse_specs(specs).unwrap();
    lemma_parse_valid(specs);
    lemma_text_reads_back(t);
    if all_trace(t) {
        assert(retraced(t) =~= t);
    }
    if retraced(t) == t {
        assert forall|i: int| 0 <= i < t.len() implies (#[trigger] t[i]).1 == Severity::Trace by {
            assert(retraced(t)[i].1 == Severity::Trace);
        }
    }
}

} // verus!
