//! The filter configuration: one threshold table for module paths, one for
//! explicit targets, and the decision taken for each log event.

use vstd::prelude::*;
use crate::parse::{
    lemma_specs_failure_lasts, parse_specs, take_text, texts_of, ConfigError,
};
use crate::severity::Severity;
use crate::table::{
    lemma_upsert_valid, serialize, threshold_for, valid_table, TableModel, ThresholdTable,
};
use crate::text::{lemma_empty_is_substring, same_text};

verus! {

/// The module table that a parsed table becomes: an empty one gets the
/// fallback entry, the empty pattern with `Info`, which matches every module.
pub open spec fn with_fallback(t: TableModel) -> TableModel {
    if t.len() == 0 {
        seq![(Seq::<char>::empty(), Severity::Info)]
    } else {
        t
    }
}

/// The threshold that governs an event. An event whose target differs from
/// its module path is governed by the target table, every other event by the
/// module table.
pub open spec fn governing_threshold(
    module_table: TableModel,
    target_table: TableModel,
    module: Seq<char>,
    target: Seq<char>,
) -> Severity {
    if target != module {
        threshold_for(target_table, target)
    } else {
        threshold_for(module_table, module)
    }
}

/// Whether an event is emitted: its severity is at least as urgent as the
/// threshold that governs it.
pub open spec fn decision(
    module_table: TableModel,
    target_table: TableModel,
    severity: Severity,
    module: Seq<char>,
    target: Seq<char>,
) -> bool {
    severity.passes(governing_threshold(module_table, target_table, module, target))
}

/// The text of an optional module path; an absent one is the empty text.
pub open spec fn module_text(module: Option<&str>) -> Seq<char> {
    match module {
        Some(m) => m@,
        None => Seq::<char>::empty(),
    }
}

/// The command-line summary of two tables: `-d` with the module table and
/// `-v` with the target table, separated by a blank, each part left out when
/// its table is empty.
pub open spec fn verbosity_text(module_table: TableModel, target_table: TableModel) -> Seq<char> {
    if module_table.len() == 0 && target_table.len() == 0 {
        Seq::<char>::empty()
    } else if target_table.len() == 0 {
        "-d "@ + serialize(module_table)
    } else if module_table.len() == 0 {
        "-v "@ + serialize(target_table)
    } else {
        "-d "@ + serialize(module_table) + " "@ + "-v "@ + serialize(target_table)
    }
}

/// With the fallback entry alone, every module path resolves to `Info`.
pub proof fn lemma_fallback_governs_all(module: Seq<char>)
    ensures
        threshold_for(with_fallback(Seq::empty()), module) == Severity::Info,
        governing_threshold(with_fallback(Seq::empty()), Seq::empty(), module, module)
            == Severity::Info,
{
    let t = with_fallback(Seq::empty());
    assert(t.len() == 1 && t[0] == (Seq::<char>::empty(), Severity::Info));
    lemma_empty_is_substring(module);
}

/// Under one configuration and for one module path and target, whenever an
/// event is emitted, every event that is at least as urgent is emitted too.
pub proof fn lemma_decision_monotone(
    module_table: TableModel,
    target_table: TableModel,
    more: Severity,
    less: Severity,
    module: Seq<char>,
    target: Seq<char>,
)
    requires
        more.urgency() >= less.urgency(),
        decision(module_table, target_table, less, module, target),
    ensures
        decision(module_table, target_table, more, module, target),
{
}

/// The thresholds of a logging session.
#[derive(Debug)]
pub struct LogConfig {
    module_levels: ThresholdTable,
    target_levels: ThresholdTable,
}

impl LogConfig {
    /// The model of the table matched against module paths.
    pub closed spec fn module_table(&self) -> TableModel {
        self.module_levels@
    }

    /// The model of the table matched against explicit targets.
    pub closed spec fn target_table(&self) -> TableModel {
        self.target_levels@
    }

    /// The invariant of a configuration: both tables are valid and the
    /// module table is not empty.
    pub open spec fn wf(&self) -> bool {
        &&& valid_table(self.module_table())
        &&& valid_table(self.target_table())
        &&& self.module_table().len() > 0
    }

    /// The table matched against module paths.
    pub fn module_levels(&self) -> (t: &ThresholdTable)
        ensures
            t@ == self.module_table(),
    {
        &self.module_levels
    }

    /// The table matched against explicit targets.
    pub fn target_levels(&self) -> (t: &ThresholdTable)
        ensures
            t@ == self.target_table(),
    {
        &self.target_levels
    }

    /// Builds the configuration from module and target specifications. An
    /// empty module table gets the fallback entry. Fails, with nothing built,
    /// exactly when an entry of either list holds more than one colon.
    pub fn new(module_tresholds: &[String], target_tresholds: &[String]) -> (r: Result<
        LogConfig,
        ConfigError,
    >)
        ensures
            match (
                parse_specs(texts_of(module_tresholds@)),
                parse_specs(texts_of(target_tresholds@)),
            ) {
                (Some(m), Some(t)) => r is Ok && r->Ok_0.module_table() == with_fallback(m)
                    && r->Ok_0.target_table() == t && r->Ok_0.wf(),
                _ => r is Err && r->Err_0 == ConfigError::TooManyColons,
            },
    {
        let mut module_levels: ThresholdTable = match LogConfig::parse_level_strings(
            module_tresholds,
        ) {
            Ok(t) => t,
            Err(e) => {
                return Err(e);
            },
        };
        let target_levels: ThresholdTable = match LogConfig::parse_level_strings(target_tresholds) {
            Ok(t) => t,
            Err(e) => {
                return Err(e);
            },
        };
        if module_levels.is_empty() {
            let ghost parsed = module_levels@;
            let any: String = String::new();
            proof {
                lemma_upsert_valid(parsed, any@, Severity::Info);
            }
            module_levels.insert(any, Severity::Info);
            assert(module_levels@ =~= with_fallback(parsed));
        }
        Ok(LogConfig { module_levels, target_levels })
    }

    /// Parses a sequence of specification texts into one table. Later
    /// entries overwrite the severity of earlier ones with the same pattern.
    /// Fails exactly when some entry holds more than one colon.
    pub fn parse_level_strings(level_strings: &[String]) -> (r: Result<
        ThresholdTable,
        ConfigError,
    >)
        ensures
            match parse_specs(texts_of(level_strings@)) {
                None => r is Err && r->Err_0 == ConfigError::TooManyColons,
                Some(t) => r is Ok && r->Ok_0@ == t && r->Ok_0.wf(),
            },
    {
        let ghost specs = texts_of(level_strings@);
        let mut table: ThresholdTable = ThresholdTable::new();
        let n: usize = level_strings.len();
        let mut k: usize = 0;
        assert(specs.subrange(0, 0) =~= Seq::<Seq<char>>::empty());
        while k < n
            invariant
                specs == texts_of(level_strings@),
                n == level_strings@.len(),
                k <= n,
                table.wf(),
                Some(table@) == parse_specs(specs.subrange(0, k as int)),
            decreases n - k,
        {
            proof {
                let next = specs.subrange(0, k + 1);
                assert(next.drop_last() =~= specs.subrange(0, k as int));
                assert(next.last() == level_strings@[k as int]@);
            }
            match take_text(table, level_strings[k].as_str()) {
                Err(e) => {
                    proof {
                        lemma_specs_failure_lasts(specs, k + 1);
                    }
                    return Err(e);
                },
                Ok(t) => {
                    table = t;
                },
            }
            k += 1;
        }
        assert(specs.subrange(0, n as int) =~= specs);
        Ok(table)
    }

    /// The textual form of a table: `pattern:Name` for each entry, in
    /// insertion order, joined by commas.
    pub fn levels_to_string(levels: &ThresholdTable) -> (r: String)
        ensures
            r@ == serialize(levels@),
    {
        let mut out: String = String::new();
        let n: usize = levels.len();
        let mut i: usize = 0;
        while i < n
            invariant
                n == levels@.len(),
                i <= n,
                out@ == serialize(levels@.subrange(0, i as int)),
            decreases n - i,
        {
            proof {
                reveal_strlit(",");
                reveal_strlit(":");
                let upto = levels@.subrange(0, i + 1);
                assert(upto.drop_last() =~= levels@.subrange(0, i as int));
                assert(upto.last() == levels@[i as int]);
                assert(",".view() =~= seq![',']);
                assert(":".view() =~= seq![':']);
            }
            if i > 0 {
                out.append(",");
            }
            let entry = levels.entry(i);
            out.append(entry.pattern.as_str());
            out.append(":");
            out.append(entry.severity.as_str());
            assert(out@ =~= serialize(levels@.subrange(0, i + 1)));
            i += 1;
        }
        assert(levels@.subrange(0, n as int) =~= levels@);
        out
    }

    /// The configuration as command-line flags.
    pub fn verbosity_string(&self) -> (r: String)
        ensures
            r@ == verbosity_text(self.module_table(), self.target_table()),
    {
        let mut ret: String = String::new();
        if !self.module_levels.is_empty() {
            ret.append("-d ");
            ret.append(LogConfig::levels_to_string(&self.module_levels).as_str());
        }
        if !self.target_levels.is_empty() {
            if !self.module_levels.is_empty() {
                ret.append(" ");
            }
            ret.append("-v ");
            ret.append(LogConfig::levels_to_string(&self.target_levels).as_str());
        }
        assert(ret@ =~= verbosity_text(self.module_table(), self.target_table()));
        ret
    }

    /// The threshold that governs an event with this module path and target.
    pub fn threshold(&self, module: Option<&str>, target: &str) -> (r: Severity)
        ensures
            r == governing_threshold(
                self.module_table(),
                self.target_table(),
                module_text(module),
                target@,
            ),
    {
        let origin: &str = match module {
            Some(m) => m,
            None => {
                proof {
                    reveal_strlit("");
                }
                assert(""@ =~= Seq::<char>::empty());
                ""
            },
        };
        if same_text(origin, target) {
            self.module_levels.threshold_for(origin)
        } else {
            self.target_levels.threshold_for(target)
        }
    }

    /// Decides whether an event is emitted. `target` equals the module path
    /// when the emitter set no target of its own.
    pub fn decide(&self, severity: Severity, module: Option<&str>, target: &str) -> (accept:
        bool)
        ensures
            accept == decision(
                self.module_table(),
                self.target_table(),
                severity,
                module_text(module),
                target@,
            ),
    {
        severity.accepted_at(self.threshold(module, target))
    }
}

} // verus!
