use vstd::prelude::*;
use vstd::utf8::encode_utf8;

use crate::config::{config_wf, RatchetConfig};
use crate::fingerprint::{seahash_of, seahash_str};
use crate::ratchet_file::{
    nm_insert, rules_bounded, snap_regressed, RatchetFile, RuleMaps, RuleMapsV,
};
use crate::rule_map::{rm_insert, FileKey, Problem, ProblemV, RuleMap, RuleMapV};
use crate::rules::rule::{applies_spec, Rule};
use crate::rules::RatchetRule;
use crate::utils::{
    contains_chars, normalized_contents_chars, normalized_path_chars, str_contains,
    to_normalized_file_contents, to_normalized_path,
};

verus! {

/// Whether a normalized path names tool state or metadata that a scan
/// must not analyze: the snapshot file, the configuration file, the
/// version-control metadata directory, or the build-output directory.
/// Suffix matches are substring matches, so containment covers both.
pub open spec fn is_well_known_spec(path: Seq<char>) -> bool {
    contains_chars(path, "ratchet.ron"@) || contains_chars(path, "ratchet.toml"@)
        || contains_chars(path, ".git"@) || contains_chars(path, "./target"@)
}

/// Whether the scan skips the file at this normalized path as one of the
/// tool's own or the repository's well-known files.
pub fn is_well_known(path: &str) -> (r: bool)
    ensures
        r == is_well_known_spec(path@),
{
    str_contains(path, "ratchet.ron") || str_contains(path, "ratchet.toml") || str_contains(
        path,
        ".git",
    ) || str_contains(path, "./target")
}

/// What one rule records for one candidate file: nothing when the file
/// is well known, not analyzed by the rule, or clean; otherwise the
/// file's key and its problems.
pub open spec fn scan_one_spec(rule: RatchetRule, raw_path: Seq<char>, content: Seq<char>) -> Option<
    ((Seq<char>, u64), Seq<ProblemV>),
> {
    let path = normalized_path_chars(raw_path);
    if is_well_known_spec(path) {
        None
    } else if !applies_spec(rule.includes_spec(), rule.exclude_spec(), path) {
        None
    } else {
        let normalized = normalized_contents_chars(content);
        let problems = rule.check_spec(path, normalized);
        if problems.len() == 0 {
            None
        } else {
            Some(((path, seahash_of(encode_utf8(normalized))), problems))
        }
    }
}

/// The map one rule accumulates over the candidate files, in order.
pub open spec fn rule_map_spec(rule: RatchetRule, files: Seq<(Seq<char>, Seq<char>)>) -> RuleMapV
    decreases files.len(),
{
    if files.len() == 0 {
        Seq::empty()
    } else {
        let prev = rule_map_spec(rule, files.drop_last());
        match scan_one_spec(rule, files.last().0, files.last().1) {
            Some(entry) => rm_insert(prev, entry.0, entry.1),
            None => prev,
        }
    }
}

/// The per-rule maps of the snapshot that one scan produces.
pub open spec fn snapshot_rules_spec(
    rules: Seq<(String, RatchetRule)>,
    files: Seq<(Seq<char>, Seq<char>)>,
) -> RuleMapsV
    decreases rules.len(),
{
    if rules.len() == 0 {
        Seq::empty()
    } else {
        nm_insert(
            snapshot_rules_spec(rules.drop_last(), files),
            rules.last().0@,
            rule_map_spec(rules.last().1, files),
        )
    }
}

/// Scans one candidate file for one rule: skips well-known paths and
/// files the rule does not analyze, normalizes the content, and reports
/// the file's key and problems when the rule found any.
pub fn scan_one(rule: &RatchetRule, raw_path: &str, content: &str) -> (r: Option<
    (FileKey, Vec<Problem>),
>)
    requires
        rule.wf(),
    ensures
        r.deep_view() == scan_one_spec(*rule, raw_path@, content@),
{
    let path = to_normalized_path(raw_path);
    if is_well_known(path.as_str()) {
        return None;
    }
    if !rule.analyze_file(path.as_str()) {
        return None;
    }
    let normalized = to_normalized_file_contents(content);
    let problems = rule.check(path.as_str(), normalized.as_str());
    if problems.len() == 0 {
        proof {
            assert(problems.deep_view().len() == problems@.len());
        }
        return None;
    }
    proof {
        assert(problems.deep_view().len() == problems@.len());
    }
    let hash = seahash_str(normalized.as_str());
    Some((FileKey { path, hash }, problems))
}

/// Runs every configured rule over the candidate files and builds the
/// snapshot of this run, tagged with the configuration's version, then
/// compares the previous snapshot against it. `files` holds the raw path
/// and decoded content of every regular file of the tree, in order;
/// unreadable files were already skipped. Returns the verdict and the
/// new snapshot, or nothing when a problem total of the new snapshot
/// leaves the machine word.
pub fn process_rules(
    config: &RatchetConfig,
    previous: &RatchetFile,
    files: &Vec<(String, String)>,
) -> (r: Option<(bool, RatchetFile)>)
    requires
        config_wf(config.rules@),
        previous.wf(),
        rules_bounded(previous.rules@),
    ensures
        match r {
            Some(outcome) => {
                &&& outcome.1.version == config.version
                &&& outcome.1.rules@ == snapshot_rules_spec(config.rules@, files.deep_view())
                &&& outcome.1.wf()
                &&& rules_bounded(outcome.1.rules@)
                &&& outcome.0 == snap_regressed(previous.rules@, outcome.1.rules@)
            },
            None => !rules_bounded(snapshot_rules_spec(config.rules@, files.deep_view())),
        },
{
    let ghost rulesv = config.rules@;
    let ghost filesv = files.deep_view();
    let mut rules_map = RuleMaps::new();
    let n_rules: usize = config.rules.len();
    let mut i: usize = 0;
    proof {
        assert(rulesv.subrange(0, 0) =~= Seq::<(String, RatchetRule)>::empty());
    }
    while i < n_rules
        invariant
            rulesv == config.rules@,
            filesv == files.deep_view(),
            config_wf(rulesv),
            n_rules == rulesv.len(),
            i <= n_rules,
            rules_map.wf(),
            rules_map@ == snapshot_rules_spec(rulesv.subrange(0, i as int), filesv),
        decreases n_rules - i,
    {
        let e = &config.rules[i];
        let mut rule_map = RuleMap::new();
        let n_files: usize = files.len();
        let mut j: usize = 0;
        proof {
            assert(filesv.subrange(0, 0) =~= Seq::<(Seq<char>, Seq<char>)>::empty());
        }
        while j < n_files
            invariant
                rulesv == config.rules@,
                filesv == files.deep_view(),
                config_wf(rulesv),
                0 <= i < rulesv.len(),
                *e == rulesv[i as int],
                n_files == files@.len(),
                filesv.len() == n_files,
                j <= n_files,
                rule_map.wf(),
                rule_map@ == rule_map_spec(e.1, filesv.subrange(0, j as int)),
            decreases n_files - j,
        {
            let f = &files[j];
            proof {
                assert(filesv[j as int] == files@[j as int].deep_view());
                assert(filesv[j as int] == (f.0@, f.1@));
            }
            match scan_one(&e.1, f.0.as_str(), f.1.as_str()) {
                Some(found) => {
                    proof {
                        assert(found.deep_view() == ((found.0.path@, found.0.hash), found.1.deep_view()));
                    }
                    let key = found.0;
                    let problems = found.1;
                    rule_map.insert(key, problems);
                },
                None => {},
            }
            proof {
                assert(filesv.subrange(0, j + 1).drop_last() =~= filesv.subrange(0, j as int));
                assert(filesv.subrange(0, j + 1).last() == filesv[j as int]);
                assert(rule_map@ == rule_map_spec(e.1, filesv.subrange(0, j + 1)));
            }
            j = j + 1;
        }
        proof {
            assert(filesv.subrange(0, n_files as int) =~= filesv);
        }
        let name = e.0.clone();
        rules_map.insert(name, rule_map);
        proof {
            assert(rulesv.subrange(0, i + 1).drop_last() =~= rulesv.subrange(0, i as int));
            assert(rulesv.subrange(0, i + 1).last() == rulesv[i as int]);
            assert(rules_map@ == snapshot_rules_spec(rulesv.subrange(0, i + 1), filesv));
        }
        i = i + 1;
    }
    proof {
        assert(rulesv.subrange(0, n_rules as int) =~= rulesv);
    }
    let new_ratchet = RatchetFile { version: config.version, rules: rules_map };
    if !new_ratchet.totals_fit() {
        return None;
    }
    let got_worse = previous.compare(&new_ratchet);
    Some((got_worse, new_ratchet))
}

/// Why a run could not produce a verdict.
#[derive(Debug, PartialEq, Eq)]
pub enum RatchetError {
    /// A configured pattern does not compile: a configuration error,
    /// fatal before any scanning.
    InvalidPattern,
    /// A problem total does not fit in a machine word.
    CountOverflow,
}

/// Validates the configuration and then runs the scan: the result of
/// `process_rules`, with the validation folded in. Fails with
/// `InvalidPattern` exactly when some configured pattern does not
/// compile, and with `CountOverflow` exactly when a problem total of the
/// previous or the new snapshot leaves the machine word. What to do with
/// the verdict, and whether to persist the new snapshot, stays with the
/// caller.
pub fn try_process_rules(
    config: &RatchetConfig,
    previous: &RatchetFile,
    files: &Vec<(String, String)>,
) -> (r: Result<(bool, RatchetFile), RatchetError>)
    requires
        previous.wf(),
    ensures
        match r {
            Ok(outcome) => {
                &&& config_wf(config.rules@)
                &&& rules_bounded(previous.rules@)
                &&& outcome.1.version == config.version
                &&& outcome.1.rules@ == snapshot_rules_spec(config.rules@, files.deep_view())
                &&& outcome.1.wf()
                &&& rules_bounded(outcome.1.rules@)
                &&& outcome.0 == snap_regressed(previous.rules@, outcome.1.rules@)
            },
            Err(e) => match e {
                RatchetError::InvalidPattern => !config_wf(config.rules@),
                RatchetError::CountOverflow => config_wf(config.rules@) && (!rules_bounded(
                    previous.rules@,
                ) || !rules_bounded(snapshot_rules_spec(config.rules@, files.deep_view()))),
            },
        },
{
    if !config.validate() {
        return Err(RatchetError::InvalidPattern);
    }
    if !previous.totals_fit() {
        return Err(RatchetError::CountOverflow);
    }
    match process_rules(config, previous, files) {
        Some(outcome) => Ok(outcome),
        None => Err(RatchetError::CountOverflow),
    }
}

} // verus!
