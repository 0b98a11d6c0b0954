//! The traversal engine: depth-first descent over the filesystem snapshot,
//! routing every discovered item through the rule evaluator.

use vstd::prelude::*;
use crate::config::{RuleCase, RulePath, WalkerConfig, WalkerItemType, WalkerRule, WalkerRuleResult};
use crate::fs_model::{
    canonicalize_path, child_names, entry_at, exists_at, find_entry, is_dir_at, is_dir_full,
    is_entry, lemma_child_names_distinct, lemma_child_names_entries, lemma_entry_real,
    lemma_entry_path_len, lemma_entry_resolves_self, lemma_lstat_entry, lemma_prefixes_are_dirs,
    lemma_resolve_real,
    lstat, lstat_at, path_eq, path_exists, read_dir, real_paths, resolve_full, resolve_ok,
    FsEntryKind, FsModel, ItemPath, LINK_RESOLUTION_LIMIT,
};
use crate::history::History;

verus! {

/// An error that aborts the walk; it carries enough context to diagnose
/// without re-running.
#[derive(Debug)]
pub enum WalkerErr {
    /// The path could not be canonicalized: some component does not exist,
    /// or symbolic-link resolution exceeded the link limit.
    FailedToCanonicalize(ItemPath),
    /// The directory handed to the walker was not found.
    DirNotFound,
    /// A directory could not be read.
    FailedToWalkDir,
    /// A directory entry could not be read.
    FailedToReadDirEntry,
    /// The target of a symbolic link could not be read.
    FailedToReadSymlinkTarget(ItemPath),
    /// An item's metadata could not be read.
    FailedToGetItemMetadata(ItemPath),
    /// A rule failed to run on an item.
    RuleFailedToRun { rule_name: String, rule_description: String, item_path: ItemPath, err: WalkerRuleErr },
    /// A mapping rule was applied to an item classified as a file.
    RuleMappedFileAsDir { rule_name: String, rule_description: String, item_path: ItemPath },
    /// A mapping rule produced a path outside the mapped item's own subtree.
    RuleMappingContainsExternalItem {
        rule_name: String,
        rule_description: String,
        item_path: ItemPath,
        mapped_item_path: ItemPath,
    },
    /// A mapping rule produced a path that does not exist.
    RuleMappingContainsNonExistingItem {
        rule_name: String,
        rule_description: String,
        item_path: ItemPath,
        mapped_item_path: ItemPath,
    },
}

/// The failure a rule's action signalled: an I/O failure or a
/// domain-specific message.
#[derive(Debug)]
pub enum WalkerRuleErr {
    Io(String),
    Str(String),
}

/// The directive the rule evaluator hands back to the traversal engine for
/// one item.
pub enum WalkerRuleDo {
    /// No rule short-circuited: apply default handling.
    Nothing,
    /// Stop scanning rules; the item proceeds to default handling as
    /// included.
    SkipFollowingRules,
    /// Drop the item entirely.
    SkipItem,
    /// Replace the item with the listed paths; the flag tells whether the
    /// mapping is absolute.
    MapItem(Vec<ItemPath>, bool),
}

/// The views of a sequence of paths.
pub open spec fn path_views(s: Seq<ItemPath>) -> Seq<Seq<u64>> {
    s.map_values(|q: ItemPath| q@)
}

/// The mathematical shape of a directive.
pub enum DirectiveView {
    Nothing,
    SkipFollowingRules,
    SkipItem,
    MapItem(Seq<Seq<u64>>, bool),
}

pub open spec fn directive_view(d: WalkerRuleDo) -> DirectiveView {
    match d {
        WalkerRuleDo::Nothing => DirectiveView::Nothing,
        WalkerRuleDo::SkipFollowingRules => DirectiveView::SkipFollowingRules,
        WalkerRuleDo::SkipItem => DirectiveView::SkipItem,
        WalkerRuleDo::MapItem(v, a) => DirectiveView::MapItem(path_views(v@), a),
    }
}

/// The mathematical shape of a rule-evaluation failure; `desc` is the
/// failing rule's description (or the placeholder), and `msg` the message
/// the rule's action failed with.
pub enum EvalErrView {
    RuleFailed { name: Seq<char>, desc: Seq<char>, item: Seq<u64>, io: bool, msg: Seq<char> },
    MappedFileAsDir { name: Seq<char>, desc: Seq<char>, item: Seq<u64> },
    MappingExternal { name: Seq<char>, desc: Seq<char>, item: Seq<u64>, mapped: Seq<u64> },
    MappingNonExisting { name: Seq<char>, desc: Seq<char>, item: Seq<u64>, mapped: Seq<u64> },
}

/// The rule's description as diagnostics carry it: its own text, or the
/// placeholder when it has none.
pub open spec fn rule_desc_spec(rule: WalkerRule) -> Seq<char> {
    match rule.description {
        Some(d) => d@,
        None => "<no rule description>"@,
    }
}

pub open spec fn rule_err_msg(e: WalkerRuleErr) -> Seq<char> {
    match e {
        WalkerRuleErr::Io(m) => m@,
        WalkerRuleErr::Str(m) => m@,
    }
}

pub open spec fn eval_err_view(e: WalkerErr) -> EvalErrView {
    match e {
        WalkerErr::RuleFailedToRun { rule_name, rule_description, item_path, err } => EvalErrView::RuleFailed {
            name: rule_name@,
            desc: rule_description@,
            item: item_path@,
            io: err is Io,
            msg: rule_err_msg(err),
        },
        WalkerErr::RuleMappedFileAsDir { rule_name, rule_description, item_path } => EvalErrView::MappedFileAsDir {
            name: rule_name@,
            desc: rule_description@,
            item: item_path@,
        },
        WalkerErr::RuleMappingContainsExternalItem {
            rule_name,
            rule_description,
            item_path,
            mapped_item_path,
        } => EvalErrView::MappingExternal {
            name: rule_name@,
            desc: rule_description@,
            item: item_path@,
            mapped: mapped_item_path@,
        },
        WalkerErr::RuleMappingContainsNonExistingItem {
            rule_name,
            rule_description,
            item_path,
            mapped_item_path,
        } => EvalErrView::MappingNonExisting {
            name: rule_name@,
            desc: rule_description@,
            item: item_path@,
            mapped: mapped_item_path@,
        },
        _ => EvalErrView::RuleFailed {
            name: Seq::empty(),
            desc: Seq::empty(),
            item: Seq::empty(),
            io: true,
            msg: Seq::empty(),
        },
    }
}

/// Whether the error is one of those the rule evaluator produces.
pub open spec fn is_eval_err(e: WalkerErr) -> bool {
    ||| e is RuleFailedToRun
    ||| e is RuleMappedFileAsDir
    ||| e is RuleMappingContainsExternalItem
    ||| e is RuleMappingContainsNonExistingItem
}

/// First table row for item path `p`, scanning from index `i`.
pub open spec fn rule_case_from(table: Seq<RuleCase>, p: Seq<u64>, i: int) -> Option<RuleCase>
    decreases table.len() - i,
{
    if i < 0 || i >= table.len() {
        None
    } else if table[i].path@ == p {
        Some(table[i])
    } else {
        rule_case_from(table, p, i + 1)
    }
}

/// Whether the rule's predicate matches item path `p`.
pub open spec fn rule_matches(rule: WalkerRule, p: Seq<u64>) -> bool {
    rule_case_from(rule.table@, p, 0) is Some
}

/// Whether the rule applies to items of classification `t`.
pub open spec fn rule_applicable(rule: WalkerRule, t: WalkerItemType) -> bool {
    match rule.only_for {
        None => true,
        Some(k) => k == t,
    }
}

fn find_rule_case<'a>(rule: &'a WalkerRule, p: &ItemPath) -> (r: Option<&'a RuleCase>)
    ensures
        match r {
            Some(c) => rule_case_from(rule.table@, p@, 0) == Some(*c),
            None => rule_case_from(rule.table@, p@, 0) is None,
        },
{
    let mut i: usize = 0;
    while i < rule.table.len()
        invariant
            i <= rule.table.len(),
            rule_case_from(rule.table@, p@, 0) == rule_case_from(rule.table@, p@, i as int),
        decreases rule.table.len() - i,
    {
        if path_eq(&rule.table[i].path, p) {
            return Some(&rule.table[i]);
        }
        i += 1;
    }
    None
}

/// The absolute form of a mapped path: an absolute one stands as is, a
/// relative one is joined to the mapped item's own path.
pub open spec fn mapped_abs(item: Seq<u64>, rp: RulePath) -> Seq<u64> {
    if rp.absolute {
        rp.path@
    } else {
        item + rp.path@
    }
}

/// Outcome of validating and absolutizing a mapping's path list.
pub enum MapOutcomeView {
    Mapped(Seq<Seq<u64>>),
    External(Seq<u64>),
    Missing(Seq<u64>),
}

/// Validate the mapped paths in order: each must lie in the mapped item's
/// own subtree and must exist on the filesystem; the first offender decides
/// the failure.
pub open spec fn resolve_mapping(fs: FsModel, item: Seq<u64>, paths: Seq<RulePath>) -> MapOutcomeView
    decreases paths.len(),
{
    if paths.len() == 0 {
        MapOutcomeView::Mapped(Seq::empty())
    } else {
        let m = mapped_abs(item, paths[0]);
        if !item.is_prefix_of(m) {
            MapOutcomeView::External(m)
        } else if !path_exists(fs, m) {
            MapOutcomeView::Missing(m)
        } else {
            match resolve_mapping(fs, item, paths.drop_first()) {
                MapOutcomeView::Mapped(rest) => MapOutcomeView::Mapped(seq![m] + rest),
                other => other,
            }
        }
    }
}

/// What running one matching rule on an item yields: the directive, or the
/// failure that aborts the walk.
pub open spec fn run_rule_spec(
    fs: FsModel,
    p: Seq<u64>,
    t: WalkerItemType,
    rule: WalkerRule,
) -> Result<DirectiveView, EvalErrView> {
    match rule_case_from(rule.table@, p, 0) {
        None => Ok(DirectiveView::Nothing),
        Some(case) => match case.outcome {
            Err(m) => Err(
                EvalErrView::RuleFailed {
                    name: rule.name@,
                    desc: rule_desc_spec(rule),
                    item: p,
                    io: true,
                    msg: m@,
                },
            ),
            Ok(res) => match res {
                WalkerRuleResult::StrError(m) => Err(
                    EvalErrView::RuleFailed {
                        name: rule.name@,
                        desc: rule_desc_spec(rule),
                        item: p,
                        io: false,
                        msg: m@,
                    },
                ),
                WalkerRuleResult::SkipRule => Ok(DirectiveView::Nothing),
                WalkerRuleResult::IncludeItem => Ok(DirectiveView::Nothing),
                WalkerRuleResult::IncludeItemAbsolute => Ok(DirectiveView::SkipFollowingRules),
                WalkerRuleResult::ExcludeItem => Ok(DirectiveView::SkipItem),
                WalkerRuleResult::MapAsList(paths, absolute) => if t is File {
                    Err(
                        EvalErrView::MappedFileAsDir {
                            name: rule.name@,
                            desc: rule_desc_spec(rule),
                            item: p,
                        },
                    )
                } else {
                    match resolve_mapping(fs, p, paths@) {
                        MapOutcomeView::Mapped(s) => Ok(DirectiveView::MapItem(s, absolute)),
                        MapOutcomeView::External(m) => Err(
                            EvalErrView::MappingExternal {
                                name: rule.name@,
                                desc: rule_desc_spec(rule),
                                item: p,
                                mapped: m,
                            },
                        ),
                        MapOutcomeView::Missing(m) => Err(
                            EvalErrView::MappingNonExisting {
                                name: rule.name@,
                                desc: rule_desc_spec(rule),
                                item: p,
                                mapped: m,
                            },
                        ),
                    }
                },
            },
        },
    }
}

/// Evaluate the rule list on one item, in order: the first applicable,
/// matching rule whose outcome short-circuits decides; a rule whose outcome
/// keeps scanning leaves the rest of the list to decide; no rule deciding
/// means default handling.
pub open spec fn eval_spec(
    fs: FsModel,
    rules: Seq<WalkerRule>,
    p: Seq<u64>,
    t: WalkerItemType,
) -> Result<DirectiveView, EvalErrView>
    decreases rules.len(),
{
    if rules.len() == 0 {
        Ok(DirectiveView::Nothing)
    } else {
        if rule_applicable(rules[0], t) && rule_matches(rules[0], p) {
            match run_rule_spec(fs, p, t, rules[0]) {
                Ok(DirectiveView::Nothing) => eval_spec(fs, rules.drop_first(), p, t),
                other => other,
            }
        } else {
            eval_spec(fs, rules.drop_first(), p, t)
        }
    }
}

/// `a` followed by the components of `b`.
fn join_path(a: &ItemPath, b: &ItemPath) -> (r: ItemPath)
    ensures
        r@ == a@ + b@,
{
    let mut r = a.clone();
    let mut i: usize = 0;
    while i < b.segments.len()
        invariant
            i <= b.segments.len(),
            r@ == a@ + b@.take(i as int),
        decreases b.segments.len() - i,
    {
        r.segments.push(b.segments[i]);
        proof {
            assert(a@ + b@.take(i as int) + seq![b@[i as int]] =~= a@ + b@.take(i + 1));
        }
        i += 1;
    }
    proof {
        assert(a@ + b@.take(b@.len() as int) =~= a@ + b@);
    }
    r
}

/// Whether `a` is a component-wise prefix of `b` (equality included).
fn is_path_prefix(a: &ItemPath, b: &ItemPath) -> (r: bool)
    ensures
        r == a@.is_prefix_of(b@),
{
    if a.segments.len() > b.segments.len() {
        return false;
    }
    let mut i: usize = 0;
    while i < a.segments.len()
        invariant
            i <= a.segments.len() <= b.segments.len(),
            forall|j: int| 0 <= j < i ==> a.segments@[j] == b.segments@[j],
        decreases a.segments.len() - i,
    {
        if a.segments[i] != b.segments[i] {
            proof {
                assert(b@.take(a@.len() as int)[i as int] == b@[i as int]);
            }
            return false;
        }
        i += 1;
    }
    proof {
        assert(a@ =~= b@.take(a@.len() as int));
    }
    true
}

/// The rule's description for diagnostics, or a placeholder.
fn describe_rule(rule: &WalkerRule) -> (r: String)
    ensures
        r@ == rule_desc_spec(*rule),
{
    match &rule.description {
        Some(d) => d.clone(),
        None => "<no rule description>".to_owned(),
    }
}

/// Run one matching rule on an item: translate the outcome its action
/// produced there into a directive, validating a mapping's path list
/// against the item's subtree and the filesystem.
pub fn run_walker_rule(
    fs: &FsModel,
    item_path: &ItemPath,
    item_type: WalkerItemType,
    rule: &WalkerRule,
) -> (r: Result<WalkerRuleDo, WalkerErr>)
    requires
        rule_matches(*rule, item_path@),
    ensures
        match r {
            Ok(d) => run_rule_spec(*fs, item_path@, item_type, *rule) == Ok::<
                DirectiveView,
                EvalErrView,
            >(directive_view(d)),
            Err(e) => run_rule_spec(*fs, item_path@, item_type, *rule) == Err::<
                DirectiveView,
                EvalErrView,
            >(eval_err_view(e)) && is_eval_err(e),
        },
{
    let case = match find_rule_case(rule, item_path) {
        Some(c) => c,
        None => {
            proof {
                assert(false);
            }
            return Ok(WalkerRuleDo::Nothing);
        },
    };
    let res = match &case.outcome {
        Err(msg) => {
            return Err(
                WalkerErr::RuleFailedToRun {
                    rule_name: rule.name.clone(),
                    rule_description: describe_rule(rule),
                    item_path: item_path.clone(),
                    err: WalkerRuleErr::Io(msg.clone()),
                },
            );
        },
        Ok(res) => res,
    };
    match res {
        WalkerRuleResult::StrError(msg) => Err(
            WalkerErr::RuleFailedToRun {
                rule_name: rule.name.clone(),
                rule_description: describe_rule(rule),
                item_path: item_path.clone(),
                err: WalkerRuleErr::Str(msg.clone()),
            },
        ),
        WalkerRuleResult::SkipRule => Ok(WalkerRuleDo::Nothing),
        WalkerRuleResult::IncludeItem => Ok(WalkerRuleDo::Nothing),
        WalkerRuleResult::IncludeItemAbsolute => Ok(WalkerRuleDo::SkipFollowingRules),
        WalkerRuleResult::ExcludeItem => Ok(WalkerRuleDo::SkipItem),
        WalkerRuleResult::MapAsList(paths, absolute) => {
            if item_type == WalkerItemType::File {
                return Err(
                    WalkerErr::RuleMappedFileAsDir {
                        rule_name: rule.name.clone(),
                        rule_description: describe_rule(rule),
                        item_path: item_path.clone(),
                    },
                );
            }
            let mut mapped: Vec<ItemPath> = Vec::new();
            proof {
                assert(paths@.skip(0) =~= paths@);
                assert(path_views(mapped@) =~= Seq::<Seq<u64>>::empty());
                match resolve_mapping(*fs, item_path@, paths@) {
                    MapOutcomeView::Mapped(rest) => {
                        assert(Seq::<Seq<u64>>::empty() + rest =~= rest);
                    },
                    _ => {},
                }
            }
            let mut k: usize = 0;
            while k < paths.len()
        invariant
            rule_matches(*rule, item_path@),
            rule_case_from(rule.table@, item_path@, 0) == Some(*case),
            case.outcome matches Ok(o) && o == WalkerRuleResult::MapAsList(*paths, *absolute),
            !(item_type is File),
            k <= paths@.len(),
            mapped@.len() == k,
            resolve_mapping(*fs, item_path@, paths@) == (match resolve_mapping(
                *fs,
                item_path@,
                paths@.skip(k as int),
            ) {
                MapOutcomeView::Mapped(rest) => MapOutcomeView::Mapped(
                    path_views(mapped@) + rest,
                ),
                other => other,
            }),
        decreases paths@.len() - k,
            {
                proof {
                    assert(paths@.skip(k as int)[0] == paths@[k as int]);
                    assert(paths@.skip(k as int).drop_first() =~= paths@.skip(k as int + 1));
                }
                let rp = &paths[k];
                let abs_path = if rp.absolute {
                    rp.path.clone()
                } else {
                    join_path(item_path, &rp.path)
                };
                if !is_path_prefix(item_path, &abs_path) {
                    return Err(
                        WalkerErr::RuleMappingContainsExternalItem {
                            rule_name: rule.name.clone(),
                            rule_description: describe_rule(rule),
                            item_path: item_path.clone(),
                            mapped_item_path: abs_path,
                        },
                    );
                }
                if !exists_at(fs, &abs_path) {
                    return Err(
                        WalkerErr::RuleMappingContainsNonExistingItem {
                            rule_name: rule.name.clone(),
                            rule_description: describe_rule(rule),
                            item_path: item_path.clone(),
                            mapped_item_path: abs_path,
                        },
                    );
                }
                let ghost pv_old = path_views(mapped@);
                let ghost m = abs_path@;
                mapped.push(abs_path);
                proof {
                    assert(path_views(mapped@) =~= pv_old.push(m));
                    match resolve_mapping(*fs, item_path@, paths@.skip(k as int + 1)) {
                        MapOutcomeView::Mapped(rest) => {
                            assert(pv_old + (seq![m] + rest) =~= path_views(mapped@) + rest);
                        },
                        _ => {},
                    }
                }
                k += 1;
            }
            proof {
                assert(paths@.skip(paths@.len() as int) =~= Seq::<RulePath>::empty());
                assert(path_views(mapped@) + Seq::<Seq<u64>>::empty() =~= path_views(mapped@));
            }
            Ok(WalkerRuleDo::MapItem(mapped, *absolute))
        },
    }
}

/// Apply the configuration's rules to one item, in registration order, and
/// reduce the outcome to a single directive.
pub fn evaluate_item(
    fs: &FsModel,
    item_path: &ItemPath,
    item_type: WalkerItemType,
    config: &WalkerConfig,
) -> (r: Result<WalkerRuleDo, WalkerErr>)
    ensures
        match r {
            Ok(d) => eval_spec(*fs, config.rules@, item_path@, item_type) == Ok::<
                DirectiveView,
                EvalErrView,
            >(directive_view(d)),
            Err(e) => eval_spec(*fs, config.rules@, item_path@, item_type) == Err::<
                DirectiveView,
                EvalErrView,
            >(eval_err_view(e)) && is_eval_err(e),
        },
{
    proof {
        assert(config.rules@.skip(0) =~= config.rules@);
    }
    let mut i: usize = 0;
    while i < config.rules.len()
        invariant
            i <= config.rules@.len(),
            eval_spec(*fs, config.rules@, item_path@, item_type) == eval_spec(
                *fs,
                config.rules@.skip(i as int),
                item_path@,
                item_type,
            ),
        decreases config.rules@.len() - i,
    {
        proof {
            assert(config.rules@.skip(i as int)[0] == config.rules@[i as int]);
            assert(config.rules@.skip(i as int).drop_first() =~= config.rules@.skip(i as int + 1));
        }
        let rule = &config.rules[i];
        let applicable = match rule.only_for {
            None => true,
            Some(k) => k == item_type,
        };
        if applicable {
            let matching = match find_rule_case(rule, item_path) {
                Some(_) => true,
                None => false,
            };
            if matching {
                match run_walker_rule(fs, item_path, item_type, rule) {
                    Err(e) => {
                        return Err(e);
                    },
                    Ok(d) => match d {
                        WalkerRuleDo::Nothing => {},
                        other => {
                            return Ok(other);
                        },
                    },
                }
            }
        }
        i += 1;
    }
    proof {
        assert(config.rules@.skip(config.rules@.len() as int) =~= Seq::<WalkerRule>::empty());
    }
    Ok(WalkerRuleDo::Nothing)
}

/// Whether the row's outcome is not an absolute mapping.
pub open spec fn case_no_abs(c: RuleCase) -> bool {
    match c.outcome {
        Ok(WalkerRuleResult::MapAsList(_, a)) => a == false,
        _ => true,
    }
}

/// Whether the row's outcome neither fails nor maps: it only includes,
/// excludes, or skips.
pub open spec fn case_benign(c: RuleCase) -> bool {
    match c.outcome {
        Ok(WalkerRuleResult::SkipRule) => true,
        Ok(WalkerRuleResult::IncludeItem) => true,
        Ok(WalkerRuleResult::IncludeItemAbsolute) => true,
        Ok(WalkerRuleResult::ExcludeItem) => true,
        _ => false,
    }
}

/// No rule outcome in the list is an absolute mapping.
pub open spec fn rules_no_abs(rules: Seq<WalkerRule>) -> bool {
    forall|i: int, j: int|
        #![trigger rules[i].table@[j]]
        0 <= i < rules.len() && 0 <= j < rules[i].table@.len() ==> case_no_abs(rules[i].table@[j])
}

/// No rule outcome in the list fails or maps.
pub open spec fn rules_benign(rules: Seq<WalkerRule>) -> bool {
    forall|i: int, j: int|
        #![trigger rules[i].table@[j]]
        0 <= i < rules.len() && 0 <= j < rules[i].table@.len() ==> case_benign(rules[i].table@[j])
}

/// No rule outcome of the configuration is an absolute mapping.
pub open spec fn config_no_abs(config: WalkerConfig) -> bool {
    rules_no_abs(config.rules@)
}

/// No rule outcome of the configuration fails or maps.
pub open spec fn config_benign(config: WalkerConfig) -> bool {
    rules_benign(config.rules@)
}

/// A found table row stands somewhere in the table.
proof fn lemma_rule_case_member(table: Seq<RuleCase>, p: Seq<u64>, i: int)
    requires
        rule_case_from(table, p, i) is Some,
    ensures
        match rule_case_from(table, p, i) {
            Some(c) => exists|k: int| #![trigger table[k]] i <= k < table.len() && table[k] == c,
            None => false,
        },
    decreases table.len() - i,
{
    if i < 0 || i >= table.len() {
    } else if table[i].path@ == p {
    } else {
        lemma_rule_case_member(table, p, i + 1);
    }
}

/// Dropping the first rule preserves the row classifications.
proof fn lemma_rules_tail(rules: Seq<WalkerRule>)
    requires
        rules.len() > 0,
    ensures
        rules_no_abs(rules) ==> rules_no_abs(rules.drop_first()),
        rules_benign(rules) ==> rules_benign(rules.drop_first()),
{
    let tail = rules.drop_first();
    if rules_no_abs(rules) {
        assert forall|i: int, j: int|
            0 <= i < tail.len() && 0 <= j < tail[i].table@.len() implies case_no_abs(
            #[trigger] tail[i].table@[j],
        ) by {
            assert(tail[i] == rules[i + 1]);
            assert(case_no_abs(rules[i + 1].table@[j]));
        }
    }
    if rules_benign(rules) {
        assert forall|i: int, j: int|
            0 <= i < tail.len() && 0 <= j < tail[i].table@.len() implies case_benign(
            #[trigger] tail[i].table@[j],
        ) by {
            assert(tail[i] == rules[i + 1]);
            assert(case_benign(rules[i + 1].table@[j]));
        }
    }
}

/// Under a rule list without absolute mappings, evaluation cannot yield an
/// absolute mapping directive.
pub proof fn lemma_eval_no_abs(fs: FsModel, rules: Seq<WalkerRule>, p: Seq<u64>, t: WalkerItemType)
    requires
        rules_no_abs(rules),
    ensures
        match eval_spec(fs, rules, p, t) {
            Ok(DirectiveView::MapItem(_, a)) => a == false,
            _ => true,
        },
    decreases rules.len(),
{
    if rules.len() > 0 {
        lemma_rules_tail(rules);
        lemma_eval_no_abs(fs, rules.drop_first(), p, t);
        if rule_applicable(rules[0], t) && rule_matches(rules[0], p) {
            lemma_rule_case_member(rules[0].table@, p, 0);
            let k = choose|k: int|
                #![trigger rules[0].table@[k]]
                0 <= k < rules[0].table@.len() && rules[0].table@[k] == rule_case_from(
                    rules[0].table@,
                    p,
                    0,
                ).unwrap();
            assert(case_no_abs(rules[0].table@[k]));
        }
    }
}

/// Under a benign rule list (no failures, no mappings), evaluation succeeds
/// and never yields a mapping directive.
pub proof fn lemma_eval_benign(fs: FsModel, rules: Seq<WalkerRule>, p: Seq<u64>, t: WalkerItemType)
    requires
        rules_benign(rules),
    ensures
        match eval_spec(fs, rules, p, t) {
            Ok(d) => !(d is MapItem),
            Err(_) => false,
        },
    decreases rules.len(),
{
    if rules.len() > 0 {
        lemma_rules_tail(rules);
        lemma_eval_benign(fs, rules.drop_first(), p, t);
        if rule_applicable(rules[0], t) && rule_matches(rules[0], p) {
            lemma_rule_case_member(rules[0].table@, p, 0);
            let k = choose|k: int|
                #![trigger rules[0].table@[k]]
                0 <= k < rules[0].table@.len() && rules[0].table@[k] == rule_case_from(
                    rules[0].table@,
                    p,
                    0,
                ).unwrap();
            assert(case_benign(rules[0].table@[k]));
        }
    }
}

/// Every path a validated mapping lists exists on the filesystem.
proof fn lemma_resolve_mapping_exist(fs: FsModel, item: Seq<u64>, paths: Seq<RulePath>)
    ensures
        match resolve_mapping(fs, item, paths) {
            MapOutcomeView::Mapped(s) => forall|k: int|
                0 <= k < s.len() ==> path_exists(fs, #[trigger] s[k]),
            _ => true,
        },
    decreases paths.len(),
{
    if paths.len() > 0 {
        lemma_resolve_mapping_exist(fs, item, paths.drop_first());
    }
}

/// Every path in a mapping directive exists on the filesystem.
pub proof fn lemma_eval_mapped_exist(
    fs: FsModel,
    rules: Seq<WalkerRule>,
    p: Seq<u64>,
    t: WalkerItemType,
)
    ensures
        match eval_spec(fs, rules, p, t) {
            Ok(DirectiveView::MapItem(s, _)) => forall|k: int|
                0 <= k < s.len() ==> path_exists(fs, #[trigger] s[k]),
            _ => true,
        },
    decreases rules.len(),
{
    if rules.len() > 0 {
        lemma_eval_mapped_exist(fs, rules.drop_first(), p, t);
        if rule_applicable(rules[0], t) && rule_matches(rules[0], p) {
            match rule_case_from(rules[0].table@, p, 0) {
                Some(case) => match case.outcome {
                    Ok(WalkerRuleResult::MapAsList(ps, _)) => {
                        lemma_resolve_mapping_exist(fs, p, ps@);
                    },
                    _ => {},
                },
                None => {},
            }
        }
    }
}

/// Rule short-circuit ordering: in a rule list whose first applicable,
/// matching rule keeps scanning and whose second excludes the item, the
/// item is excluded — whatever the third rule would do, it never influences
/// the outcome.
pub proof fn lemma_rule_short_circuit(
    fs: FsModel,
    r1: WalkerRule,
    r2: WalkerRule,
    r3: WalkerRule,
    p: Seq<u64>,
    t: WalkerItemType,
)
    requires
        rule_applicable(r1, t),
        rule_matches(r1, p),
        run_rule_spec(fs, p, t, r1) == Ok::<DirectiveView, EvalErrView>(DirectiveView::Nothing),
        rule_applicable(r2, t),
        rule_matches(r2, p),
        run_rule_spec(fs, p, t, r2) == Ok::<DirectiveView, EvalErrView>(DirectiveView::SkipItem),
    ensures
        eval_spec(fs, seq![r1, r2, r3], p, t) == Ok::<DirectiveView, EvalErrView>(
            DirectiveView::SkipItem,
        ),
{
    let rs = seq![r1, r2, r3];
    assert(rs[0] == r1);
    assert(rs.drop_first() =~= seq![r2, r3]);
    assert(seq![r2, r3][0] == r2);
    assert(eval_spec(fs, seq![r2, r3], p, t) == Ok::<DirectiveView, EvalErrView>(
        DirectiveView::SkipItem,
    ));
}

/// The walker's classification of an entry's kind.
pub open spec fn classify_spec(k: FsEntryKind) -> WalkerItemType {
    match k {
        FsEntryKind::Directory => WalkerItemType::Directory,
        FsEntryKind::File => WalkerItemType::File,
        FsEntryKind::Symlink(_) => WalkerItemType::Symlink,
    }
}

fn classify(k: &FsEntryKind) -> (t: WalkerItemType)
    ensures
        t == classify_spec(*k),
{
    match k {
        FsEntryKind::Directory => WalkerItemType::Directory,
        FsEntryKind::File => WalkerItemType::File,
        FsEntryKind::Symlink(_) => WalkerItemType::Symlink,
    }
}

/// Real paths the walk has not yet visited: the termination measure of the
/// traversal. Every descent first registers a fresh canonical real path.
pub open spec fn unvisited(fs: FsModel, h: Set<Seq<u64>>) -> nat {
    real_paths(fs).difference(h).len()
}

proof fn lemma_unvisited_mono(fs: FsModel, h1: Set<Seq<u64>>, h2: Set<Seq<u64>>)
    requires
        h1.subset_of(h2),
    ensures
        unvisited(fs, h2) <= unvisited(fs, h1),
{
    broadcast use vstd::seq_lib::seq_to_set_is_finite;

    let d1 = real_paths(fs).difference(h1);
    let d2 = real_paths(fs).difference(h2);
    vstd::set_lib::lemma_len_subset(d1, real_paths(fs));
    vstd::set_lib::lemma_len_subset(d2, d1);
}

proof fn lemma_unvisited_strict(fs: FsModel, h1: Set<Seq<u64>>, h2: Set<Seq<u64>>, c: Seq<u64>)
    requires
        h1.subset_of(h2),
        h2.contains(c),
        real_paths(fs).contains(c),
        !h1.contains(c),
    ensures
        unvisited(fs, h2) < unvisited(fs, h1),
{
    broadcast use vstd::seq_lib::seq_to_set_is_finite;

    let d1 = real_paths(fs).difference(h1);
    let d2 = real_paths(fs).difference(h2);
    vstd::set_lib::lemma_len_subset(d1, real_paths(fs));
    assert(d1.contains(c));
    assert(d2.subset_of(d1.remove(c)));
    vstd::set::axiom_set_remove_len(d1, c);
    vstd::set_lib::lemma_len_subset(d1.remove(c), d1);
    vstd::set_lib::lemma_len_subset(d2, d1.remove(c));
}

/// Pairwise distinctness of path views.
pub open spec fn views_distinct(s: Seq<Seq<u64>>) -> bool {
    forall|i: int, j: int| 0 <= i < j < s.len() ==> s[i] != s[j]
}

/// Every listed path exists on the filesystem.
pub open spec fn all_exist(fs: FsModel, s: Seq<Seq<u64>>) -> bool {
    forall|i: int| 0 <= i < s.len() ==> path_exists(fs, #[trigger] s[i])
}

/// Every collected item was registered in the history.
pub open spec fn items_in(h: Set<Seq<u64>>, s: Seq<ItemPath>) -> bool {
    forall|k: int| 0 <= k < s.len() ==> h.contains(#[trigger] s[k]@)
}

/// What each error the traversal engine produces implies about the
/// filesystem; the variants mapped to `false` are never produced by the
/// engine itself (they stand for failures of a live filesystem that a
/// consistent snapshot cannot exhibit).
pub open spec fn err_wf(fs: FsModel, e: WalkerErr) -> bool {
    match e {
        WalkerErr::FailedToCanonicalize(p) => !path_exists(fs, p@),
        WalkerErr::FailedToGetItemMetadata(p) => lstat_at(fs, p@) is None,
        WalkerErr::DirNotFound => false,
        WalkerErr::FailedToWalkDir => false,
        WalkerErr::FailedToReadDirEntry => false,
        WalkerErr::FailedToReadSymlinkTarget(_) => false,
        _ => true,
    }
}

/// A configuration whose rules only filter — every outcome includes,
/// excludes, or skips; none fails and none maps — and that does not follow
/// symbolic links. For such a configuration the walk's exact output is
/// stated by [`ruled_expansion`].
pub open spec fn filter_config(config: WalkerConfig) -> bool {
    config_benign(config) && !config.follow_symlinks
}

/// The exact item list a filtering walk produces for one item discovered
/// at `p`: nothing for a symbolic link (skipped before any rule runs) or
/// for an item the rules exclude; the item itself for a surviving file;
/// the directory's expansion, spliced in place, for a surviving directory.
/// The catch-all arms stand for evaluation outcomes a filtering
/// configuration cannot produce.
pub open spec fn ruled_item_out(
    fs: FsModel,
    rules: Seq<WalkerRule>,
    p: Seq<u64>,
    drop_empty: bool,
) -> Seq<Seq<u64>>
    decreases fs.entries@.len() - p.len(), 2int, 0int,
{
    match lstat_at(fs, p) {
        Some(e) => match e.kind {
            FsEntryKind::Symlink(_) => Seq::empty(),
            FsEntryKind::File => match eval_spec(fs, rules, p, WalkerItemType::File) {
                Ok(DirectiveView::SkipItem) => Seq::empty(),
                _ => seq![p],
            },
            FsEntryKind::Directory => match eval_spec(fs, rules, p, WalkerItemType::Directory) {
                Ok(DirectiveView::SkipItem) => Seq::empty(),
                _ => ruled_expansion(fs, rules, p, drop_empty),
            },
        },
        None => Seq::empty(),
    }
}

/// The expansions of the children of real directory `d` from index `k` on,
/// concatenated in entry order. (The length guard keeps the definition
/// well-founded; a well-formed snapshot never trips it, since a recorded
/// path is never longer than the entry list.)
pub open spec fn ruled_children(
    fs: FsModel,
    rules: Seq<WalkerRule>,
    d: Seq<u64>,
    k: int,
    drop_empty: bool,
) -> Seq<Seq<u64>>
    decreases fs.entries@.len() - d.len(), 0int, child_names(fs, d).len() - k,
{
    let names = child_names(fs, d);
    if k < 0 || k >= names.len() {
        Seq::empty()
    } else if d.len() + 1 <= fs.entries@.len() {
        ruled_item_out(fs, rules, d.push(names[k]), drop_empty) + ruled_children(
            fs,
            rules,
            d,
            k + 1,
            drop_empty,
        )
    } else {
        ruled_children(fs, rules, d, k + 1, drop_empty)
    }
}

/// The exact output of a filtering walk below real directory `d`: the
/// children expanded in entry order; a directory whose expansion came out
/// empty — childless, or every child excluded or skipped — stands itself
/// as a leaf, unless empty directories are dropped.
pub open spec fn ruled_expansion(
    fs: FsModel,
    rules: Seq<WalkerRule>,
    d: Seq<u64>,
    drop_empty: bool,
) -> Seq<Seq<u64>>
    decreases fs.entries@.len() - d.len(), 1int, 0int,
{
    let body = ruled_children(fs, rules, d, 0, drop_empty);
    if body.len() == 0 && !drop_empty {
        seq![d]
    } else {
        body
    }
}

/// The link target of the item at `p`, when its link-aware metadata
/// classifies it as a symbolic link.
pub open spec fn lstat_link_target(fs: FsModel, p: Seq<u64>) -> Option<Seq<u64>> {
    match lstat_at(fs, p) {
        Some(e) => match e.kind {
            FsEntryKind::Symlink(t) => Some(t@),
            _ => None,
        },
        None => None,
    }
}

/// The classification rule evaluation sees for the item at `p`: derived
/// from link-aware metadata, meaningful when that metadata is readable.
pub open spec fn lstat_class(fs: FsModel, p: Seq<u64>) -> WalkerItemType {
    match lstat_at(fs, p) {
        Some(e) => classify_spec(e.kind),
        None => WalkerItemType::File,
    }
}

/// Whether the walk reaches rule evaluation for the item at `p`, given the
/// history `h` at discovery: its metadata is readable, it was not visited
/// before, it is not a symbolic link that the configuration skips or whose
/// target closes a cycle, its path canonicalizes, and its canonical form is
/// no already-visited alias.
pub open spec fn reaches_rules(
    fs: FsModel,
    config: WalkerConfig,
    p: Seq<u64>,
    h: Set<Seq<u64>>,
) -> bool {
    &&& lstat_at(fs, p) is Some
    &&& !h.contains(p)
    &&& (match lstat_link_target(fs, p) {
        Some(t) => config.follow_symlinks && !h.insert(p).contains(t),
        None => true,
    })
    &&& (match resolve_full(fs, p) {
        Some(c) => c == p || !h.insert(p).contains(c),
        None => false,
    })
}

/// Whether a filtering walk can process the item at `p` exactly: its
/// metadata is readable, and unless it is a symbolic link (skipped
/// outright), its path contains no links.
pub open spec fn plain_walkable(fs: FsModel, p: Seq<u64>) -> bool {
    match lstat_at(fs, p) {
        Some(e) => e.kind is Symlink || resolve_full(fs, p) == Some(p),
        None => false,
    }
}

/// Whether `q` lies strictly below `p`.
pub open spec fn strictly_under(p: Seq<u64>, q: Seq<u64>) -> bool {
    p.is_prefix_of(q) && q.len() > p.len()
}

proof fn lemma_prefix_trans(a: Seq<u64>, b: Seq<u64>, c: Seq<u64>)
    requires
        a.is_prefix_of(b),
        b.is_prefix_of(c),
    ensures
        a.is_prefix_of(c),
{
    assert(a =~= c.subrange(0, a.len() as int));
}

/// Every path a validated mapping lists lies in the mapped item's subtree.
proof fn lemma_resolve_mapping_under(fs: FsModel, item: Seq<u64>, paths: Seq<RulePath>)
    ensures
        match resolve_mapping(fs, item, paths) {
            MapOutcomeView::Mapped(s) => forall|k: int|
                0 <= k < s.len() ==> item.is_prefix_of(#[trigger] s[k]),
            _ => true,
        },
    decreases paths.len(),
{
    if paths.len() > 0 {
        lemma_resolve_mapping_under(fs, item, paths.drop_first());
    }
}

/// Every path in a mapping directive lies in the mapped item's subtree.
pub proof fn lemma_eval_mapped_under(
    fs: FsModel,
    rules: Seq<WalkerRule>,
    p: Seq<u64>,
    t: WalkerItemType,
)
    ensures
        match eval_spec(fs, rules, p, t) {
            Ok(DirectiveView::MapItem(s, _)) => forall|k: int|
                0 <= k < s.len() ==> p.is_prefix_of(#[trigger] s[k]),
            _ => true,
        },
    decreases rules.len(),
{
    if rules.len() > 0 {
        lemma_eval_mapped_under(fs, rules.drop_first(), p, t);
        if rule_applicable(rules[0], t) && rule_matches(rules[0], p) {
            match rule_case_from(rules[0].table@, p, 0) {
                Some(case) => match case.outcome {
                    Ok(WalkerRuleResult::MapAsList(ps, _)) => {
                        lemma_resolve_mapping_under(fs, p, ps@);
                    },
                    _ => {},
                },
                None => {},
            }
        }
    }
}

proof fn lemma_take_all(s: Seq<ItemPath>)
    ensures
        s.take(s.len() as int) == s,
        s.skip(s.len() as int) =~= Seq::<ItemPath>::empty(),
{
    assert(s.take(s.len() as int) =~= s);
}

proof fn lemma_append_exists(fs: FsModel, pre: Seq<ItemPath>, post: Seq<ItemPath>)
    requires
        pre.len() <= post.len(),
        post.take(pre.len() as int) == pre,
        all_exist(fs, path_views(pre)),
        all_exist(fs, path_views(post.skip(pre.len() as int))),
    ensures
        all_exist(fs, path_views(post)),
{
    assert forall|k: int| 0 <= k < post.len() implies path_exists(
        fs,
        #[trigger] path_views(post)[k],
    ) by {
        if k < pre.len() {
            assert(post.take(pre.len() as int)[k] == post[k]);
            assert(path_views(pre)[k] == pre[k]@);
        } else {
            assert(post.skip(pre.len() as int)[k - pre.len()] == post[k]);
            assert(path_views(post.skip(pre.len() as int))[k - pre.len()] == post[k]@);
        }
    }
}

/// Run the walker on a single item: classify it, guard against duplicate
/// visits and symlink cycles, evaluate the rules, and either collect the
/// item, recurse into it, or replace it by its mapping.
fn walk_item(
    fs: &FsModel,
    item_path: ItemPath,
    config: &WalkerConfig,
    history: &mut History,
    items: &mut Vec<ItemPath>,
) -> (r: Result<(), WalkerErr>)
    requires
        fs.wf(),
        config_no_abs(*config) ==> views_distinct(path_views(old(items)@)) && items_in(
            old(history)@,
            old(items)@,
        ),
        filter_config(*config) && resolve_full(*fs, item_path@) == Some(item_path@) ==> (forall|
            q: Seq<u64>,
        |
            #![trigger old(history)@.contains(q)]
            old(history)@.contains(q) ==> !strictly_under(item_path@, q)),
    ensures
        old(history)@.subset_of(final(history)@),
        old(items)@.len() <= final(items)@.len(),
        final(items)@.take(old(items)@.len() as int) == old(items)@,
        all_exist(*fs, path_views(final(items)@.skip(old(items)@.len() as int))),
        config_no_abs(*config) ==> views_distinct(path_views(final(items)@)) && items_in(
            final(history)@,
            final(items)@,
        ) && (forall|k: int|
            old(items)@.len() <= k < final(items)@.len() ==> !old(history)@.contains(
                #[trigger] final(items)@[k]@,
            )),
        match r {
            Err(e) => err_wf(*fs, e),
            Ok(()) => true,
        },
        forall|k: int|
            old(items)@.len() <= k < final(items)@.len() ==> item_path@.is_prefix_of(
                #[trigger] final(items)@[k]@,
            ),
        lstat_at(*fs, item_path@) is None ==> final(items)@ == old(items)@ && final(history)@
            == old(history)@ && (r matches Err(WalkerErr::FailedToGetItemMetadata(q)) && q@
            == item_path@),
        lstat_at(*fs, item_path@) is Some ==> final(history)@.contains(item_path@),
        lstat_at(*fs, item_path@) is Some && old(history)@.contains(item_path@) ==> r is Ok
            && final(items)@ == old(items)@ && final(history)@ == old(history)@,
        lstat_link_target(*fs, item_path@) is Some && !config.follow_symlinks ==> r is Ok
            && final(items)@ == old(items)@ && final(history)@ == old(history)@.insert(
            item_path@,
        ),
        (match lstat_link_target(*fs, item_path@) {
            Some(t) => config.follow_symlinks && old(history)@.insert(item_path@).contains(t),
            None => false,
        }) ==> r is Ok && final(items)@ == old(items)@ && final(history)@ == old(
            history,
        )@.insert(item_path@),
        (lstat_at(*fs, item_path@) is Some && (match resolve_full(*fs, item_path@) {
            Some(c) => c != item_path@ && old(history)@.insert(item_path@).contains(c),
            None => false,
        })) ==> r is Ok && final(items)@ == old(items)@,
        (config_benign(*config) && !config.follow_symlinks && is_entry(*fs, item_path@)) ==> r
            is Ok,
        filter_config(*config) && is_entry(*fs, item_path@) ==> (forall|q: Seq<u64>|
            #![trigger final(history)@.contains(q)]
            final(history)@.contains(q) ==> old(history)@.contains(q) || item_path@.is_prefix_of(
                q,
            )),
        reaches_rules(*fs, *config, item_path@, old(history)@) ==> (match eval_spec(
            *fs,
            config.rules@,
            item_path@,
            lstat_class(*fs, item_path@),
        ) {
            Ok(DirectiveView::SkipItem) => r is Ok && final(items)@ == old(items)@,
            Ok(DirectiveView::MapItem(s, a)) => !a || (r is Ok && path_views(final(items)@)
                == path_views(old(items)@) + s),
            Ok(DirectiveView::Nothing) => !is_dir_at(*fs, resolve_ok(*fs, item_path@))
                ==> r is Ok && final(items)@ == old(items)@.push(item_path),
            Ok(DirectiveView::SkipFollowingRules) => !is_dir_at(*fs, resolve_ok(*fs, item_path@))
                ==> r is Ok && final(items)@ == old(items)@.push(item_path),
            Err(ev) => (r matches Err(e) && eval_err_view(e) == ev && is_eval_err(e))
                && final(items)@ == old(items)@,
        }),
        (filter_config(*config) && plain_walkable(*fs, item_path@) && !old(history)@.contains(
            item_path@,
        ) && (forall|q: Seq<u64>|
            #![trigger old(history)@.contains(q)]
            old(history)@.contains(q) ==> !strictly_under(item_path@, q))) ==> r is Ok
            && path_views(final(items)@) == path_views(old(items)@) + ruled_item_out(
            *fs,
            config.rules@,
            item_path@,
            config.drop_empty_dirs,
        ),
    decreases unvisited(*fs, history@), 0int,
{
    let entry = match lstat(fs, &item_path) {
        None => {
            proof {
                lemma_take_all(items@);
                if is_entry(*fs, item_path@) {
                    lemma_lstat_entry(*fs, item_path@);
                }
            }
            return Err(WalkerErr::FailedToGetItemMetadata(item_path));
        },
        Some(e) => e,
    };
    let item_type = classify(&entry.kind);
    proof {
        if is_entry(*fs, item_path@) {
            lemma_lstat_entry(*fs, item_path@);
            match entry_at(*fs, item_path@) {
                Some(e0) => {
                    if !(e0.kind is Symlink) {
                        lemma_entry_resolves_self(*fs, item_path@, LINK_RESOLUTION_LIMIT as nat);
                    }
                },
                None => {},
            }
        }
    }

    // An item already walked is skipped, never reprocessed.
    if !history.try_visit(&item_path) {
        proof {
            lemma_take_all(items@);
            assert(history@ =~= old(history)@);
        }
        return Ok(());
    }

    if item_type == WalkerItemType::Symlink {
        // Symbolic links are skipped entirely unless configured otherwise.
        if !config.follow_symlinks {
            proof {
                lemma_take_all(items@);
                assert(path_views(items@) + Seq::<Seq<u64>>::empty() =~= path_views(items@));
            }
            return Ok(());
        }
        let target = match &entry.kind {
            FsEntryKind::Symlink(t) => t.clone(),
            _ => {
                proof {
                    assert(false);
                }
                ItemPath::root()
            },
        };
        // A link whose target was already walked closes a cycle: skip it.
        if history.contains_path(&target) {
            proof {
                lemma_take_all(items@);
            }
            return Ok(());
        }
    }

    let canonicalized = match canonicalize_path(fs, &item_path) {
        Some(c) => c,
        None => {
            proof {
                lemma_take_all(items@);
                if config_benign(*config) && !config.follow_symlinks && is_entry(
                    *fs,
                    item_path@,
                ) {
                    lemma_lstat_entry(*fs, item_path@);
                    lemma_entry_resolves_self(*fs, item_path@, LINK_RESOLUTION_LIMIT as nat);
                }
            }
            return Err(WalkerErr::FailedToCanonicalize(item_path));
        },
    };

    // Two different link paths may resolve to the same real location: the
    // canonical form is registered too, and an alias already walked is
    // skipped.
    if !path_eq(&item_path, &canonicalized) {
        if !history.try_visit(&canonicalized) {
            proof {
                lemma_take_all(items@);
            }
            return Ok(());
        }
    }
    proof {
        lemma_resolve_real(*fs, Seq::<u64>::empty(), item_path@, LINK_RESOLUTION_LIMIT as nat);
        lemma_entry_real(*fs, canonicalized@);
        assert(history@.contains(canonicalized@));
        assert(!old(history)@.contains(canonicalized@));
    }

    let directive = match evaluate_item(fs, &item_path, item_type, config) {
        Err(e) => {
            proof {
                lemma_take_all(items@);
                if config_benign(*config) {
                    lemma_eval_benign(*fs, config.rules@, item_path@, item_type);
                }
            }
            return Err(e);
        },
        Ok(d) => d,
    };
    match directive {
        WalkerRuleDo::Nothing => {},
        WalkerRuleDo::SkipFollowingRules => {},
        WalkerRuleDo::SkipItem => {
            proof {
                lemma_take_all(items@);
                if filter_config(*config) {
                    assert(path_views(items@) + Seq::<Seq<u64>>::empty() =~= path_views(items@));
                }
            }
            return Ok(());
        },
        WalkerRuleDo::MapItem(mapped, absolute) => {
            proof {
                if config_benign(*config) {
                    lemma_eval_benign(*fs, config.rules@, item_path@, item_type);
                    match eval_spec(*fs, config.rules@, item_path@, item_type) {
                        Ok(d2) => {
                            assert(!(d2 is MapItem));
                            assert(d2 == directive_view(
                                WalkerRuleDo::MapItem(mapped, absolute),
                            ));
                        },
                        _ => {},
                    }
                    assert(false);
                }
            }
            if absolute {
                // An absolute mapping's paths go straight to the output.
                let ghost pre = items@;
                let ghost mv = mapped@;
                proof {
                    if config_no_abs(*config) {
                        lemma_eval_no_abs(*fs, config.rules@, item_path@, item_type);
                        assert(false);
                    }
                    lemma_eval_mapped_exist(*fs, config.rules@, item_path@, item_type);
                    lemma_eval_mapped_under(*fs, config.rules@, item_path@, item_type);
                    assert(eval_spec(*fs, config.rules@, item_path@, item_type) == Ok::<
                        DirectiveView,
                        EvalErrView,
                    >(DirectiveView::MapItem(path_views(mv), absolute)));
                    assert forall|k: int|
                        0 <= k < path_views(mv).len() implies path_exists(
                        *fs,
                        #[trigger] path_views(mv)[k],
                    ) && item_path@.is_prefix_of(path_views(mv)[k]) by {
                        match eval_spec(*fs, config.rules@, item_path@, item_type) {
                            Ok(DirectiveView::MapItem(s, _)) => {
                                assert(s == path_views(mv));
                                assert(path_exists(*fs, s[k]));
                                assert(item_path@.is_prefix_of(s[k]));
                            },
                            _ => {
                                assert(false);
                            },
                        }
                    }
                }
                let mut mapped_items = mapped;
                items.append(&mut mapped_items);
                proof {
                    assert(items@.take(pre.len() as int) =~= pre);
                    assert(items@.skip(pre.len() as int) =~= mv);
                    assert forall|k: int|
                        0 <= k < path_views(items@.skip(pre.len() as int)).len() implies path_exists(
                        *fs,
                        #[trigger] path_views(items@.skip(pre.len() as int))[k],
                    ) && item_path@.is_prefix_of(path_views(items@.skip(pre.len() as int))[k]) by {
                        assert(path_views(items@.skip(pre.len() as int))[k] == mv[k]@);
                        assert(path_views(mv)[k] == mv[k]@);
                    }
                    assert forall|k: int|
                        pre.len() <= k < items@.len() implies item_path@.is_prefix_of(
                        #[trigger] items@[k]@,
                    ) by {
                        assert(items@.skip(pre.len() as int)[k - pre.len()] == items@[k]);
                        assert(path_views(items@.skip(pre.len() as int))[k - pre.len()]
                            == items@[k]@);
                    }
                }
                return Ok(());
            } else {
                // Each mapped path re-enters the pipeline as a fresh item.
                proof {
                    lemma_eval_mapped_under(*fs, config.rules@, item_path@, item_type);
                    assert forall|k: int|
                        0 <= k < mapped@.len() implies item_path@.is_prefix_of(
                        #[trigger] mapped@[k]@,
                    ) by {
                        match eval_spec(*fs, config.rules@, item_path@, item_type) {
                            Ok(DirectiveView::MapItem(s, _)) => {
                                assert(s == path_views(mapped@));
                                assert(path_views(mapped@)[k] == mapped@[k]@);
                                assert(item_path@.is_prefix_of(s[k]));
                            },
                            _ => {
                                assert(false);
                            },
                        }
                    }
                }
                let mut mi: usize = 0;
                while mi < mapped.len()
                    invariant
                        fs.wf(),
                        !config_benign(*config),
                        !filter_config(*config),
                        mi <= mapped@.len(),
                        old(history)@.subset_of(history@),
                        history@.contains(canonicalized@),
                        history@.contains(item_path@),
                        !old(history)@.contains(canonicalized@),
                        !old(history)@.contains(item_path@),
                        real_paths(*fs).contains(canonicalized@),
                        lstat_at(*fs, item_path@) is Some,
                        !(lstat_link_target(*fs, item_path@) is Some) || config.follow_symlinks,
                        !(match lstat_link_target(*fs, item_path@) {
                            Some(t) => config.follow_symlinks && old(history)@.insert(
                                item_path@,
                            ).contains(t),
                            None => false,
                        }),
                        !(match resolve_full(*fs, item_path@) {
                            Some(c) => c != item_path@ && old(history)@.insert(
                                item_path@,
                            ).contains(c),
                            None => false,
                        }),
                        eval_spec(*fs, config.rules@, item_path@, lstat_class(*fs, item_path@))
                            == Ok::<DirectiveView, EvalErrView>(
                            DirectiveView::MapItem(path_views(mapped@), false),
                        ),
                        forall|k: int|
                            0 <= k < mapped@.len() ==> item_path@.is_prefix_of(
                                #[trigger] mapped@[k]@,
                            ),
                        forall|k: int|
                            old(items)@.len() <= k < items@.len() ==> item_path@.is_prefix_of(
                                #[trigger] items@[k]@,
                            ),
                        old(items)@.len() <= items@.len(),
                        items@.take(old(items)@.len() as int) == old(items)@,
                        all_exist(*fs, path_views(items@.skip(old(items)@.len() as int))),
                        config_no_abs(*config) ==> views_distinct(path_views(items@)) && items_in(
                            history@,
                            items@,
                        ) && (forall|k: int|
                            old(items)@.len() <= k < items@.len() ==> !old(history)@.contains(
                                #[trigger] items@[k]@,
                            )),
                    decreases mapped@.len() - mi,
                {
                    proof {
                        lemma_unvisited_strict(*fs, old(history)@, history@, canonicalized@);
                    }
                    let ghost pre_call_items = items@;
                    let ghost pre_call_history = history@;
                    let m = mapped[mi].clone();
                    let res = walk_item(fs, m, config, history, items);
                    proof {
                        let l0 = old(items)@.len() as int;
                        let l1 = pre_call_items.len() as int;
                        assert(items@.take(l0) =~= items@.take(l1).take(l0));
                        assert forall|k: int|
                            0 <= k < path_views(items@.skip(l0)).len() implies path_exists(
                            *fs,
                            #[trigger] path_views(items@.skip(l0))[k],
                        ) by {
                            let idx = k + l0;
                            assert(path_views(items@.skip(l0))[k] == items@[idx]@);
                            if idx < l1 {
                                assert(items@.take(l1)[idx] == items@[idx]);
                                assert(pre_call_items[idx] == items@[idx]);
                                assert(path_views(pre_call_items.skip(l0))[idx - l0]
                                    == pre_call_items[idx]@);
                            } else {
                                assert(path_views(items@.skip(l1))[idx - l1] == items@[idx]@);
                            }
                        }
                        if config_no_abs(*config) {
                            assert forall|k: int|
                                old(items)@.len() <= k < items@.len() implies !old(
                                history,
                            )@.contains(#[trigger] items@[k]@) by {
                                if k < l1 {
                                    assert(items@.take(l1)[k] == items@[k]);
                                    assert(pre_call_items[k] == items@[k]);
                                } else {
                                    assert(!pre_call_history.contains(items@[k]@));
                                }
                            }
                        }
                        assert forall|k: int|
                            old(items)@.len() <= k < items@.len() implies item_path@.is_prefix_of(
                            #[trigger] items@[k]@,
                        ) by {
                            if k < l1 {
                                assert(items@.take(l1)[k] == items@[k]);
                                assert(pre_call_items[k] == items@[k]);
                            } else {
                                assert(m@.is_prefix_of(items@[k]@));
                                lemma_prefix_trans(item_path@, mapped@[mi as int]@, items@[k]@);
                            }
                        }
                    }
                    match res {
                        Err(e) => {
                            return Err(e);
                        },
                        Ok(()) => {},
                    }
                    mi += 1;
                }
                return Ok(());
            }
        },
    }

    // Default handling: a directory is expanded in place, any other item is
    // collected as it stands.
    let is_directory = match find_entry(fs, &canonicalized) {
        Some(e2) => match &e2.kind {
            FsEntryKind::Directory => true,
            _ => false,
        },
        None => false,
    };
    if is_directory {
        let ghost pre_call_items = items@;
        let ghost pre_call_history = history@;
        proof {
            lemma_unvisited_strict(*fs, old(history)@, history@, canonicalized@);
            if filter_config(*config) && resolve_full(*fs, item_path@) == Some(item_path@) {
                assert forall|q: Seq<u64>| #![trigger history@.contains(q)] history@.contains(
                    q,
                ) implies !strictly_under(item_path@, q) by {
                    if !old(history)@.contains(q) {
                        assert(q == item_path@ || q == canonicalized@);
                    }
                }
            }
        }
        let mut sub = match walk_nested(fs, &item_path, config, history) {
            Err(e) => {
                proof {
                    lemma_take_all(items@);
                    if config_benign(*config) && !config.follow_symlinks && is_entry(
                        *fs,
                        item_path@,
                    ) {
                        lemma_lstat_entry(*fs, item_path@);
                        lemma_entry_resolves_self(*fs, item_path@, LINK_RESOLUTION_LIMIT as nat);
                    }
                    if filter_config(*config) && is_entry(*fs, item_path@) {
                        assert forall|q: Seq<u64>|
                            #![trigger history@.contains(q)]
                            history@.contains(q) implies old(history)@.contains(q)
                            || item_path@.is_prefix_of(q) by {
                            if !old(history)@.contains(q) && !pre_call_history.contains(q) {
                                assert(item_path@.is_prefix_of(q));
                            }
                        }
                    }
                    if filter_config(*config) && plain_walkable(*fs, item_path@) {
                        assert(config_benign(*config));
                        assert(is_dir_at(*fs, item_path@));
                        assert(false);
                    }
                }
                return Err(e);
            },
            Ok(v) => v,
        };
        let ghost sv = sub@;
        items.append(&mut sub);
        proof {
            assert(items@.take(pre_call_items.len() as int) =~= pre_call_items);
            assert(items@.skip(pre_call_items.len() as int) =~= sv);
            assert forall|k: int|
                0 <= k < path_views(items@.skip(old(items)@.len() as int)).len() implies path_exists(
                *fs,
                #[trigger] path_views(items@.skip(old(items)@.len() as int))[k],
            ) by {
                assert(path_views(items@.skip(old(items)@.len() as int))[k] == sv[k]@);
                assert(path_views(sv)[k] == sv[k]@);
            }
            if config_no_abs(*config) {
                assert forall|i: int, j: int|
                    0 <= i < j < items@.len() implies path_views(items@)[i] != path_views(
                    items@,
                )[j] by {
                    assert(path_views(items@)[i] == items@[i]@);
                    assert(path_views(items@)[j] == items@[j]@);
                    if j < pre_call_items.len() {
                        assert(items@[i] == pre_call_items[i] && items@[j] == pre_call_items[j]);
                        assert(path_views(pre_call_items)[i] == pre_call_items[i]@);
                        assert(path_views(pre_call_items)[j] == pre_call_items[j]@);
                    } else if i < pre_call_items.len() {
                        // an old item is registered; a sub-item is fresh or
                        // is the directory itself, which was fresh here too
                        assert(items@[i] == pre_call_items[i]);
                        assert(pre_call_history.contains(items@[i]@));
                        assert(sv[j - pre_call_items.len()] == items@[j]);
                        if items@[j]@ == item_path@ {
                            assert(!old(history)@.contains(items@[j]@));
                            assert(old(items)@.len() == pre_call_items.len());
                            assert(old(history)@.contains(items@[i]@));
                        } else {
                            assert(!pre_call_history.contains(items@[j]@));
                        }
                    } else {
                        assert(sv[i - pre_call_items.len()] == items@[i]);
                        assert(sv[j - pre_call_items.len()] == items@[j]);
                        assert(path_views(sv)[i - pre_call_items.len()] == sv[i
                            - pre_call_items.len()]@);
                        assert(path_views(sv)[j - pre_call_items.len()] == sv[j
                            - pre_call_items.len()]@);
                        assert(views_distinct(path_views(sv)));
                    }
                }
                assert forall|k: int|
                    old(items)@.len() <= k < items@.len() implies !old(history)@.contains(
                    #[trigger] items@[k]@,
                ) by {
                    assert(sv[k - pre_call_items.len()] == items@[k]);
                    if items@[k]@ == item_path@ {
                    } else {
                        assert(!pre_call_history.contains(items@[k]@));
                    }
                }
                assert forall|k: int| 0 <= k < items@.len() implies final(history)@.contains(
                    #[trigger] items@[k]@,
                ) by {
                    if k < pre_call_items.len() {
                        assert(items@[k] == pre_call_items[k]);
                        assert(pre_call_history.contains(items@[k]@));
                    } else {
                        assert(sv[k - pre_call_items.len()] == items@[k]);
                    }
                }
            }
            if filter_config(*config) && is_entry(*fs, item_path@) {
                assert forall|q: Seq<u64>| #![trigger history@.contains(q)] history@.contains(
                    q,
                ) implies old(history)@.contains(q) || item_path@.is_prefix_of(q) by {
                    if !old(history)@.contains(q) && !pre_call_history.contains(q) {
                        assert(item_path@.is_prefix_of(q));
                    }
                }
            }
            assert forall|k: int|
                pre_call_items.len() <= k < items@.len() implies item_path@.is_prefix_of(
                #[trigger] items@[k]@,
            ) by {
                assert(sv[k - pre_call_items.len()] == items@[k]);
            }
            if filter_config(*config) && plain_walkable(*fs, item_path@) {
                assert(canonicalized@ == item_path@);
                assert forall|k: int|
                    0 <= k < items@.len() implies path_views(items@)[k] == (path_views(
                    pre_call_items,
                ) + path_views(sv))[k] by {
                    if k < pre_call_items.len() {
                        assert(items@[k] == pre_call_items[k]);
                        assert(path_views(pre_call_items)[k] == pre_call_items[k]@);
                    } else {
                        assert(items@[k] == sv[k - pre_call_items.len()]);
                        assert(path_views(sv)[k - pre_call_items.len()] == sv[k
                            - pre_call_items.len()]@);
                    }
                }
                assert(path_views(items@) =~= path_views(pre_call_items) + path_views(sv));
            }
        }
    } else {
        let ghost pre = items@;
        let ghost pv = item_path@;
        items.push(item_path);
        proof {
            assert(items@.take(pre.len() as int) =~= pre);
            assert(path_views(items@) =~= path_views(pre) + seq![pv]);
            assert(pv =~= pv.subrange(0, pv.len() as int));
            assert(pv.is_prefix_of(pv));
            assert(items@.skip(pre.len() as int) =~= seq![items@[pre.len() as int]]);
            assert forall|k: int|
                0 <= k < path_views(items@.skip(pre.len() as int)).len() implies path_exists(
                *fs,
                #[trigger] path_views(items@.skip(pre.len() as int))[k],
            ) by {
                assert(path_views(items@.skip(pre.len() as int))[k] == pv);
            }
            if config_no_abs(*config) {
                assert forall|i: int, j: int|
                    0 <= i < j < items@.len() implies path_views(items@)[i] != path_views(
                    items@,
                )[j] by {
                    assert(path_views(items@)[i] == items@[i]@);
                    assert(path_views(items@)[j] == items@[j]@);
                    if j == pre.len() {
                        assert(items@[i] == pre[i]);
                        assert(old(history)@.contains(items@[i]@));
                    } else {
                        assert(items@[i] == pre[i] && items@[j] == pre[j]);
                        assert(path_views(pre)[i] == pre[i]@);
                        assert(path_views(pre)[j] == pre[j]@);
                    }
                }
            }
        }
    }
    Ok(())
}

/// Walk through a directory, recursively, building the list of items to
/// back up. The directory path must resolve to a real directory and must
/// already be registered in the history.
fn walk_nested(
    fs: &FsModel,
    dir: &ItemPath,
    config: &WalkerConfig,
    history: &mut History,
) -> (r: Result<Vec<ItemPath>, WalkerErr>)
    requires
        fs.wf(),
        is_dir_full(*fs, dir@),
        old(history)@.contains(dir@),
        filter_config(*config) && resolve_full(*fs, dir@) == Some(dir@) ==> (forall|q: Seq<u64>|
            #![trigger old(history)@.contains(q)]
            old(history)@.contains(q) ==> !strictly_under(dir@, q)),
    ensures
        old(history)@.subset_of(final(history)@),
        filter_config(*config) && resolve_full(*fs, dir@) == Some(dir@) ==> (forall|q: Seq<u64>|
            #![trigger final(history)@.contains(q)]
            final(history)@.contains(q) ==> old(history)@.contains(q) || dir@.is_prefix_of(q)),
        match r {
            Ok(v) => {
                &&& all_exist(*fs, path_views(v@))
                &&& (forall|k: int| 0 <= k < v@.len() ==> dir@.is_prefix_of(#[trigger] v@[k]@))
                &&& (config_no_abs(*config) ==> views_distinct(path_views(v@)) && items_in(
                    final(history)@,
                    v@,
                ) && (forall|k: int|
                    0 <= k < v@.len() ==> (!old(history)@.contains(#[trigger] v@[k]@) || v@[k]@
                        == dir@)))
                &&& (child_names(*fs, resolve_ok(*fs, dir@)).len() == 0 ==> (
                if config.drop_empty_dirs {
                    v@.len() == 0
                } else {
                    path_views(v@) == seq![dir@]
                }))
                &&& (filter_config(*config) && resolve_full(*fs, dir@) == Some(dir@)
                    ==> path_views(v@) == ruled_expansion(*fs, config.rules@, dir@, config.drop_empty_dirs))
            },
            Err(e) => err_wf(*fs, e),
        },
        (config_benign(*config) && !config.follow_symlinks && is_dir_at(*fs, dir@)) ==> r is Ok,
    decreases unvisited(*fs, history@), 1int,
{
    let children = read_dir(fs, dir);
    let mut items: Vec<ItemPath> = Vec::new();
    proof {
        if filter_config(*config) && resolve_full(*fs, dir@) == Some(dir@) {
            assert(path_views(items@) =~= Seq::<Seq<u64>>::empty());
            assert(Seq::<Seq<u64>>::empty() + ruled_children(
                *fs,
                config.rules@,
                dir@,
                0,
                config.drop_empty_dirs,
            ) =~= ruled_children(*fs, config.rules@, dir@, 0, config.drop_empty_dirs));
        }
    }
    let mut i: usize = 0;
    while i < children.len()
        invariant
            fs.wf(),
            is_dir_full(*fs, dir@),
            i <= children@.len(),
            old(history)@.subset_of(history@),
            children@.len() == child_names(*fs, resolve_ok(*fs, dir@)).len(),
            forall|k: int|
                0 <= k < children@.len() ==> children@[k]@ == dir@.push(
                    child_names(*fs, resolve_ok(*fs, dir@))[k],
                ),
            children@.len() == 0 ==> items@.len() == 0,
            all_exist(*fs, path_views(items@)),
            forall|k: int| 0 <= k < items@.len() ==> dir@.is_prefix_of(#[trigger] items@[k]@),
            config_no_abs(*config) ==> views_distinct(path_views(items@)) && items_in(
                history@,
                items@,
            ) && (forall|k: int|
                0 <= k < items@.len() ==> !old(history)@.contains(#[trigger] items@[k]@)),
            filter_config(*config) && resolve_full(*fs, dir@) == Some(dir@) ==> (forall|
                q: Seq<u64>,
            |
                #![trigger old(history)@.contains(q)]
                old(history)@.contains(q) ==> !strictly_under(dir@, q)),
            filter_config(*config) && resolve_full(*fs, dir@) == Some(dir@) ==> (forall|
                q: Seq<u64>,
            |
                #![trigger history@.contains(q)]
                history@.contains(q) ==> old(history)@.contains(q) || (strictly_under(dir@, q)
                    && exists|j: int|
                    0 <= j < i && q[dir@.len() as int] == child_names(*fs, dir@)[j])),
            filter_config(*config) && resolve_full(*fs, dir@) == Some(dir@) ==> ruled_children(
                *fs,
                config.rules@,
                dir@,
                0,
                config.drop_empty_dirs,
            ) == path_views(items@) + ruled_children(
                *fs,
                config.rules@,
                dir@,
                i as int,
                config.drop_empty_dirs,
            ),
        decreases children@.len() - i,
    {
        let ghost pre_call_items = items@;
        let ghost pre_call_history = history@;
        let ghost cn = child_names(*fs, dir@);
        let ghost childv = dir@.push(cn[i as int]);
        proof {
            lemma_unvisited_mono(*fs, old(history)@, history@);
            if filter_config(*config) && resolve_full(*fs, dir@) == Some(dir@) {
                lemma_resolve_real(*fs, Seq::<u64>::empty(), dir@, LINK_RESOLUTION_LIMIT as nat);
                lemma_child_names_entries(*fs, dir@, 0);
                lemma_child_names_distinct(fs.entries@, dir@, 0);
                assert(children@[i as int]@ == childv);
                assert(is_entry(*fs, childv));
                lemma_lstat_entry(*fs, childv);
                match entry_at(*fs, childv) {
                    Some(e0) => {
                        if !(e0.kind is Symlink) {
                            lemma_entry_resolves_self(*fs, childv, LINK_RESOLUTION_LIMIT as nat);
                        }
                    },
                    None => {},
                }
                lemma_entry_path_len(*fs, childv);
                assert(plain_walkable(*fs, childv));
                // the child was not visited yet, and nothing lies below it
                assert forall|q: Seq<u64>| #![trigger history@.contains(q)] history@.contains(
                    q,
                ) implies !strictly_under(childv, q) && q != childv by {
                    if strictly_under(childv, q) || q == childv {
                        assert(q.len() > dir@.len());
                        assert(childv[dir@.len() as int] == cn[i as int]);
                        if q != childv {
                            assert(childv =~= q.subrange(0, childv.len() as int));
                            assert(q.subrange(0, childv.len() as int)[dir@.len() as int] == q[dir@.len() as int]);
                        }
                        assert(q[dir@.len() as int] == cn[i as int]);
                        assert(dir@ =~= q.subrange(0, dir@.len() as int));
                        assert(strictly_under(dir@, q));
                        if old(history)@.contains(q) {
                            assert(false);
                        } else {
                            let j = choose|j: int|
                                0 <= j < i && q[dir@.len() as int] == child_names(*fs, dir@)[j];
                            assert(cn[i as int] == cn[j]);
                            assert(false);
                        }
                    }
                }
            }
        }
        proof {
            if filter_config(*config) && resolve_full(*fs, children@[i as int]@) == Some(
                children@[i as int]@,
            ) {
                let cv = children@[i as int]@;
                lemma_resolve_real(*fs, Seq::<u64>::empty(), cv, LINK_RESOLUTION_LIMIT as nat);
                lemma_prefixes_are_dirs(*fs, cv);
                assert(cv.take(cv.len() - 1) =~= dir@.push(
                    child_names(*fs, resolve_ok(*fs, dir@))[i as int],
                ).drop_last());
                assert(dir@.push(child_names(*fs, resolve_ok(*fs, dir@))[i as int]).drop_last()
                    =~= dir@);
                assert(is_dir_at(*fs, dir@));
                lemma_entry_resolves_self(*fs, dir@, LINK_RESOLUTION_LIMIT as nat);
            }
        }
        let child = children[i].clone();
        let res = walk_item(fs, child, config, history, &mut items);
        proof {
            lemma_append_exists(*fs, pre_call_items, items@);
            assert(dir@ =~= children@[i as int]@.subrange(0, dir@.len() as int));
            assert(dir@.is_prefix_of(children@[i as int]@));
            assert forall|k: int| 0 <= k < items@.len() implies dir@.is_prefix_of(
                #[trigger] items@[k]@,
            ) by {
                if k < pre_call_items.len() {
                    assert(items@.take(pre_call_items.len() as int)[k] == items@[k]);
                    assert(pre_call_items[k] == items@[k]);
                } else {
                    assert(children@[i as int]@.is_prefix_of(items@[k]@));
                    lemma_prefix_trans(dir@, children@[i as int]@, items@[k]@);
                }
            }
            if config_no_abs(*config) {
                assert forall|k: int| 0 <= k < items@.len() implies !old(history)@.contains(
                    #[trigger] items@[k]@,
                ) by {
                    if k < pre_call_items.len() {
                        assert(items@.take(pre_call_items.len() as int)[k] == items@[k]);
                        assert(pre_call_items[k] == items@[k]);
                    } else {
                        assert(!pre_call_history.contains(items@[k]@));
                    }
                }
            }
            if filter_config(*config) && resolve_full(*fs, dir@) == Some(dir@) {
                // the history grew only below this child
                assert forall|q: Seq<u64>| #![trigger history@.contains(q)] history@.contains(
                    q,
                ) implies old(history)@.contains(q) || (strictly_under(dir@, q) && exists|j: int|
                    0 <= j < i + 1 && q[dir@.len() as int] == child_names(*fs, dir@)[j]) by {
                    if !old(history)@.contains(q) && !pre_call_history.contains(q) {
                        assert(childv.is_prefix_of(q));
                        assert(q.len() > dir@.len());
                        assert(childv[dir@.len() as int] == cn[i as int]);
                        if q != childv {
                            assert(childv =~= q.subrange(0, childv.len() as int));
                            assert(q.subrange(0, childv.len() as int)[dir@.len() as int] == q[dir@.len() as int]);
                        }
                        assert(q[dir@.len() as int] == cn[i as int]);
                        assert(dir@ =~= q.subrange(0, dir@.len() as int));
                        assert(0 <= i < i + 1 && q[dir@.len() as int] == child_names(
                            *fs,
                            dir@,
                        )[i as int]);
                    }
                }
                // the spec expansion advances by exactly this child's output
                let out = ruled_item_out(*fs, config.rules@, childv, config.drop_empty_dirs);
                assert(path_views(items@) == path_views(pre_call_items) + out);
                assert(ruled_children(*fs, config.rules@, dir@, i as int, config.drop_empty_dirs) == out
                    + ruled_children(*fs, config.rules@, dir@, i as int + 1, config.drop_empty_dirs));
                assert(path_views(pre_call_items) + (out + ruled_children(
                    *fs,
                    config.rules@,
                    dir@,
                    i as int + 1,
                    config.drop_empty_dirs,
                )) =~= (path_views(pre_call_items) + out) + ruled_children(
                    *fs,
                    config.rules@,
                    dir@,
                    i as int + 1,
                    config.drop_empty_dirs,
                ));
            }
        }
        match res {
            Err(e) => {
                proof {
                    if config_benign(*config) && !config.follow_symlinks && is_dir_at(
                        *fs,
                        dir@,
                    ) {
                        lemma_entry_resolves_self(*fs, dir@, LINK_RESOLUTION_LIMIT as nat);
                        lemma_child_names_entries(*fs, resolve_ok(*fs, dir@), 0);
                        assert(is_entry(*fs, children@[i as int]@));
                    }
                    if filter_config(*config) && resolve_full(*fs, dir@) == Some(dir@) {
                        assert forall|q: Seq<u64>|
                            #![trigger history@.contains(q)]
                            history@.contains(q) implies old(history)@.contains(q)
                            || dir@.is_prefix_of(q) by {}
                    }
                }
                return Err(e);
            },
            Ok(()) => {},
        }
        i += 1;
    }
    proof {
        if filter_config(*config) && resolve_full(*fs, dir@) == Some(dir@) {
            assert forall|q: Seq<u64>| #![trigger history@.contains(q)] history@.contains(
                q,
            ) implies old(history)@.contains(q) || dir@.is_prefix_of(q) by {}
        }
    }
    let ghost body = path_views(items@);
    proof {
        if filter_config(*config) && resolve_full(*fs, dir@) == Some(dir@) {
            assert(ruled_children(
                *fs,
                config.rules@,
                dir@,
                children@.len() as int,
                config.drop_empty_dirs,
            ) == Seq::<Seq<u64>>::empty());
            assert(body + Seq::<Seq<u64>>::empty() =~= body);
            assert(ruled_children(*fs, config.rules@, dir@, 0, config.drop_empty_dirs) == body);
        }
    }
    // A directory that yields no surviving entries is itself kept as a leaf
    // item, unless empty directories are dropped.
    if items.len() == 0 && !config.drop_empty_dirs {
        let ghost pre = items@;
        items.push(dir.clone());
        proof {
            assert(path_views(items@) =~= seq![dir@]);
            assert(dir@ =~= dir@.subrange(0, dir@.len() as int));
            assert(dir@.is_prefix_of(dir@));
        }
    }
    proof {
        if child_names(*fs, resolve_ok(*fs, dir@)).len() == 0 && !config.drop_empty_dirs {
            assert(path_views(items@) =~= seq![dir@]);
        }
        if filter_config(*config) && resolve_full(*fs, dir@) == Some(dir@) {
            if body.len() == 0 && !config.drop_empty_dirs {
                assert(path_views(items@) == seq![dir@]);
            } else {
                assert(path_views(items@) == body);
            }
        }
    }
    Ok(items)
}

/// Walk through a directory, recursively, to build the list of items to
/// back up.
///
/// The directory is canonicalized first, so symbolic links in it are
/// resolved; the walk fails when canonicalization fails, or when the
/// canonical path is not a directory. The configuration's rules are applied
/// to each discovered item in registration order, and traversal follows the
/// order in which the snapshot lists a directory's entries. On any hard
/// error the walk aborts: no partial list is returned.
pub fn walk(fs: &FsModel, dir: &ItemPath, config: &WalkerConfig) -> (r: Result<
    Vec<ItemPath>,
    WalkerErr,
>)
    requires
        fs.wf(),
    ensures
        match r {
            Ok(v) => {
                &&& path_exists(*fs, dir@) && is_dir_at(*fs, resolve_ok(*fs, dir@))
                &&& all_exist(*fs, path_views(v@))
                &&& (forall|k: int|
                    0 <= k < v@.len() ==> resolve_ok(*fs, dir@).is_prefix_of(
                        #[trigger] v@[k]@,
                    ))
                &&& (config_no_abs(*config) ==> views_distinct(path_views(v@)))
                &&& (child_names(*fs, resolve_ok(*fs, dir@)).len() == 0 ==> (
                if config.drop_empty_dirs {
                    v@.len() == 0
                } else {
                    path_views(v@) == seq![resolve_ok(*fs, dir@)]
                }))
            },
            Err(e) => {
                &&& (e is DirNotFound ==> path_exists(*fs, dir@) && !is_dir_at(
                    *fs,
                    resolve_ok(*fs, dir@),
                ))
                &&& (!(e is DirNotFound) ==> err_wf(*fs, e))
            },
        },
        !path_exists(*fs, dir@) ==> (r matches Err(WalkerErr::FailedToCanonicalize(p)) && p@
            == dir@),
        path_exists(*fs, dir@) && !is_dir_at(*fs, resolve_ok(*fs, dir@)) ==> r matches Err(
            WalkerErr::DirNotFound,
        ),
        (config_benign(*config) && !config.follow_symlinks && is_dir_full(*fs, dir@)) ==> r is Ok,
        (filter_config(*config) && is_dir_full(*fs, dir@)) ==> r is Ok,
        filter_config(*config) ==> (match r {
            Ok(v) => path_views(v@) == ruled_expansion(
                *fs,
                config.rules@,
                resolve_ok(*fs, dir@),
                config.drop_empty_dirs,
            ),
            Err(_) => true,
        }),
{
    let canonical = match canonicalize_path(fs, dir) {
        Some(c) => c,
        None => {
            return Err(WalkerErr::FailedToCanonicalize(dir.clone()));
        },
    };
    let dir_ok = match find_entry(fs, &canonical) {
        Some(e) => match &e.kind {
            FsEntryKind::Directory => true,
            _ => false,
        },
        None => false,
    };
    if !dir_ok {
        return Err(WalkerErr::DirNotFound);
    }
    let mut history = History::new();
    history.try_visit(&canonical);
    proof {
        lemma_resolve_real(*fs, Seq::<u64>::empty(), dir@, LINK_RESOLUTION_LIMIT as nat);
        lemma_entry_resolves_self(*fs, canonical@, LINK_RESOLUTION_LIMIT as nat);
    }
    walk_nested(fs, &canonical, config, &mut history)
}

} // verus!
