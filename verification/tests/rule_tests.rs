use rebackup::config::{RuleCase, RulePath, WalkerConfig, WalkerItemType, WalkerRule, WalkerRuleResult};
use rebackup::fs_model::{FsEntry, FsEntryKind, FsModel, ItemPath};
use rebackup::walker::{run_walker_rule, walk, WalkerErr, WalkerRuleDo, WalkerRuleErr};

fn p(segs: &[u64]) -> ItemPath {
    ItemPath { segments: segs.to_vec() }
}

fn dir(path: &[u64]) -> FsEntry {
    FsEntry { path: p(path), kind: FsEntryKind::Directory }
}

fn file(path: &[u64]) -> FsEntry {
    FsEntry { path: p(path), kind: FsEntryKind::File }
}

fn views(items: &[ItemPath]) -> Vec<Vec<u64>> {
    items.iter().map(|i| i.segments.clone()).collect()
}

fn rule_on(name: &str, path: &[u64], outcome: Result<WalkerRuleResult, String>) -> WalkerRule {
    WalkerRule {
        name: name.to_string(),
        description: None,
        only_for: None,
        table: vec![RuleCase { path: p(path), outcome }],
    }
}

fn config_with(rules: Vec<WalkerRule>) -> WalkerConfig {
    WalkerConfig { rules, follow_symlinks: false, drop_empty_dirs: false }
}

fn sample_tree() -> FsModel {
    // src/{a.txt, b/{c.txt, d.txt}}
    FsModel {
        entries: vec![
            dir(&[]),
            dir(&[1]),
            file(&[1, 2]),
            dir(&[1, 3]),
            file(&[1, 3, 4]),
            file(&[1, 3, 5]),
        ],
    }
}

// A rule excluding one named item does not affect its siblings.
#[test]
fn exclusion_leaves_siblings() {
    let fs = sample_tree();
    let config = config_with(vec![rule_on(
        "exclude-b",
        &[1, 3],
        Ok(WalkerRuleResult::ExcludeItem),
    )]);
    let out = walk(&fs, &p(&[1]), &config).unwrap();
    assert_eq!(views(&out), vec![vec![1, 2]]);
}

// A directory whose children are all excluded counts as empty after
// filtering: it is kept as a leaf, or dropped entirely by policy.
#[test]
fn dir_empty_after_filtering() {
    // src/{b/{x}}
    let fs = FsModel {
        entries: vec![dir(&[]), dir(&[1]), dir(&[1, 3]), file(&[1, 3, 4])],
    };
    let exclude_x = || rule_on("drop-x", &[1, 3, 4], Ok(WalkerRuleResult::ExcludeItem));
    let out = walk(&fs, &p(&[1]), &config_with(vec![exclude_x()])).unwrap();
    assert_eq!(views(&out), vec![vec![1, 3]]);
    let mut config = config_with(vec![exclude_x()]);
    config.drop_empty_dirs = true;
    let out = walk(&fs, &p(&[1]), &config).unwrap();
    assert!(out.is_empty());
}

// Rule short-circuit ordering: a first rule that keeps scanning, then one
// that excludes; a third rule that would include absolutely never runs, and
// the item is excluded.
#[test]
fn rule_short_circuit_ordering() {
    let fs = sample_tree();
    let config = config_with(vec![
        rule_on("first-nothing", &[1, 2], Ok(WalkerRuleResult::SkipRule)),
        rule_on("second-exclude", &[1, 2], Ok(WalkerRuleResult::ExcludeItem)),
        rule_on("third-include", &[1, 2], Ok(WalkerRuleResult::IncludeItemAbsolute)),
    ]);
    let out = walk(&fs, &p(&[1]), &config).unwrap();
    let vs = views(&out);
    assert!(!vs.contains(&vec![1, 2]));
    assert!(vs.contains(&vec![1, 3, 4]));
    assert!(vs.contains(&vec![1, 3, 5]));
}

// IncludeItemAbsolute stops the scan: a later excluding rule never fires.
#[test]
fn include_absolute_stops_scan() {
    let fs = sample_tree();
    let config = config_with(vec![
        rule_on("keep", &[1, 2], Ok(WalkerRuleResult::IncludeItemAbsolute)),
        rule_on("drop", &[1, 2], Ok(WalkerRuleResult::ExcludeItem)),
    ]);
    let out = walk(&fs, &p(&[1]), &config).unwrap();
    assert!(views(&out).contains(&vec![1, 2]));
}

// A rule restricted to directories is not applicable to a file.
#[test]
fn only_for_filters_applicability() {
    let fs = sample_tree();
    let mut rule = rule_on("dirs-only", &[1, 2], Ok(WalkerRuleResult::ExcludeItem));
    rule.only_for = Some(WalkerItemType::Directory);
    let config = config_with(vec![rule]);
    let out = walk(&fs, &p(&[1]), &config).unwrap();
    assert!(views(&out).contains(&vec![1, 2]));
}

// An action failing with an I/O error aborts the walk with the rule's
// name and the offending item.
#[test]
fn rule_io_failure_aborts() {
    let fs = sample_tree();
    let config = config_with(vec![rule_on("flaky", &[1, 2], Err("boom".to_string()))]);
    match walk(&fs, &p(&[1]), &config) {
        Err(WalkerErr::RuleFailedToRun { rule_name, item_path, err, .. }) => {
            assert_eq!(rule_name, "flaky");
            assert_eq!(item_path.segments, vec![1, 2]);
            assert!(matches!(err, WalkerRuleErr::Io(msg) if msg == "boom"));
        }
        other => panic!("expected RuleFailedToRun, got {:?}", other.is_ok()),
    }
}

// An action failing with a message aborts the walk the same way, under the
// domain-failure variant.
#[test]
fn rule_str_error_aborts() {
    let fs = sample_tree();
    let config = config_with(vec![rule_on(
        "grumpy",
        &[1, 2],
        Ok(WalkerRuleResult::StrError("no thanks".to_string())),
    )]);
    match walk(&fs, &p(&[1]), &config) {
        Err(WalkerErr::RuleFailedToRun { rule_name, err, .. }) => {
            assert_eq!(rule_name, "grumpy");
            assert!(matches!(err, WalkerRuleErr::Str(msg) if msg == "no thanks"));
        }
        other => panic!("expected RuleFailedToRun, got {:?}", other.is_ok()),
    }
}

// A mapping whose target lies outside the mapped item's own subtree is a
// hard error carrying the offending path.
#[test]
fn mapping_external_target_rejected() {
    let fs = sample_tree();
    let config = config_with(vec![rule_on(
        "map-out",
        &[1, 3],
        Ok(WalkerRuleResult::MapAsList(
            vec![RulePath { absolute: true, path: p(&[9]) }],
            false,
        )),
    )]);
    match walk(&fs, &p(&[1]), &config) {
        Err(WalkerErr::RuleMappingContainsExternalItem { item_path, mapped_item_path, .. }) => {
            assert_eq!(item_path.segments, vec![1, 3]);
            assert_eq!(mapped_item_path.segments, vec![9]);
        }
        other => panic!("expected RuleMappingContainsExternalItem, got {:?}", other.is_ok()),
    }
}

// A mapping naming a path that does not exist is a hard error.
#[test]
fn mapping_missing_target_rejected() {
    let fs = sample_tree();
    let config = config_with(vec![rule_on(
        "map-missing",
        &[1, 3],
        Ok(WalkerRuleResult::MapAsList(
            vec![RulePath { absolute: false, path: p(&[7]) }],
            false,
        )),
    )]);
    match walk(&fs, &p(&[1]), &config) {
        Err(WalkerErr::RuleMappingContainsNonExistingItem { mapped_item_path, .. }) => {
            assert_eq!(mapped_item_path.segments, vec![1, 3, 7]);
        }
        other => panic!("expected RuleMappingContainsNonExistingItem, got {:?}", other.is_ok()),
    }
}

// A mapping applied to a file is a hard error.
#[test]
fn mapping_file_rejected() {
    let fs = sample_tree();
    let config = config_with(vec![rule_on(
        "map-file",
        &[1, 2],
        Ok(WalkerRuleResult::MapAsList(Vec::new(), false)),
    )]);
    match walk(&fs, &p(&[1]), &config) {
        Err(WalkerErr::RuleMappedFileAsDir { item_path, .. }) => {
            assert_eq!(item_path.segments, vec![1, 2]);
        }
        other => panic!("expected RuleMappedFileAsDir, got {:?}", other.is_ok()),
    }
}

// A valid relative mapping replaces the directory's default expansion with
// exactly the listed descendants, re-entering the pipeline.
#[test]
fn mapping_replaces_expansion() {
    let fs = sample_tree();
    let config = config_with(vec![rule_on(
        "map-one",
        &[1, 3],
        Ok(WalkerRuleResult::MapAsList(
            vec![RulePath { absolute: false, path: p(&[4]) }],
            false,
        )),
    )]);
    let out = walk(&fs, &p(&[1]), &config).unwrap();
    let vs = views(&out);
    assert!(vs.contains(&vec![1, 2]));
    assert!(vs.contains(&vec![1, 3, 4]));
    assert!(!vs.contains(&vec![1, 3, 5]));
    assert_eq!(vs.len(), 2);
}

// An absolute mapping's paths go straight to the output, without
// re-entering rule evaluation.
#[test]
fn absolute_mapping_appends_directly() {
    let fs = sample_tree();
    let config = config_with(vec![
        rule_on(
            "map-abs",
            &[1, 3],
            Ok(WalkerRuleResult::MapAsList(
                vec![RulePath { absolute: false, path: p(&[4]) }],
                true,
            )),
        ),
        // would exclude the mapped path, but absolute mappings bypass rules
        rule_on("drop-c", &[1, 3, 4], Ok(WalkerRuleResult::ExcludeItem)),
    ]);
    let out = walk(&fs, &p(&[1]), &config).unwrap();
    assert!(views(&out).contains(&vec![1, 3, 4]));
}

// A mapping listing the same descendant twice yields it once: the second
// pass through the pipeline finds it already visited and skips it.
#[test]
fn mapping_duplicate_skipped() {
    let fs = sample_tree();
    let config = config_with(vec![rule_on(
        "map-twice",
        &[1, 3],
        Ok(WalkerRuleResult::MapAsList(
            vec![
                RulePath { absolute: false, path: p(&[4]) },
                RulePath { absolute: false, path: p(&[4]) },
            ],
            false,
        )),
    )]);
    let out = walk(&fs, &p(&[1]), &config).unwrap();
    let vs = views(&out);
    assert_eq!(vs.iter().filter(|v| **v == vec![1, 3, 4]).count(), 1);
}

// Running one rule directly: the evaluator's translation of each outcome.
#[test]
fn run_rule_translates_outcomes() {
    let fs = sample_tree();
    let skip = rule_on("skip", &[1, 2], Ok(WalkerRuleResult::SkipRule));
    match run_walker_rule(&fs, &p(&[1, 2]), WalkerItemType::File, &skip) {
        Ok(WalkerRuleDo::Nothing) => {}
        _ => panic!("SkipRule must translate to no directive"),
    }
    let exclude = rule_on("exclude", &[1, 2], Ok(WalkerRuleResult::ExcludeItem));
    match run_walker_rule(&fs, &p(&[1, 2]), WalkerItemType::File, &exclude) {
        Ok(WalkerRuleDo::SkipItem) => {}
        _ => panic!("ExcludeItem must translate to skipping the item"),
    }
    let absolute = rule_on("absolute", &[1, 2], Ok(WalkerRuleResult::IncludeItemAbsolute));
    match run_walker_rule(&fs, &p(&[1, 2]), WalkerItemType::File, &absolute) {
        Ok(WalkerRuleDo::SkipFollowingRules) => {}
        _ => panic!("IncludeItemAbsolute must stop the scan"),
    }
    let mapping = rule_on(
        "mapping",
        &[1, 3],
        Ok(WalkerRuleResult::MapAsList(
            vec![RulePath { absolute: false, path: p(&[4]) }],
            false,
        )),
    );
    match run_walker_rule(&fs, &p(&[1, 3]), WalkerItemType::Directory, &mapping) {
        Ok(WalkerRuleDo::MapItem(paths, false)) => {
            assert_eq!(views(&paths), vec![vec![1, 3, 4]]);
        }
        _ => panic!("a valid mapping must produce the absolutized list"),
    }
}
