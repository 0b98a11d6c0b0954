//! The walker's configuration: the ordered rule list and the traversal
//! switches.

use vstd::prelude::*;
use crate::fs_model::ItemPath;

verus! {

/// The classification of an item a rule may restrict itself to.
#[derive(Debug, Clone, Copy, PartialEq, Eq, Structural)]
pub enum WalkerItemType {
    Directory,
    File,
    Symlink,
}

/// Configuration for one walk.
pub struct WalkerConfig {
    /// The rules to apply to each item, in evaluation order.
    pub rules: Vec<WalkerRule>,
    /// Whether the walker follows symbolic links.
    pub follow_symlinks: bool,
    /// Whether directories that end up empty are dropped from the output.
    pub drop_empty_dirs: bool,
}

impl WalkerConfig {
    /// A default configuration from a rule list: symbolic links are not
    /// followed and empty directories are kept.
    pub fn new(rules: Vec<WalkerRule>) -> (r: Self)
        ensures
            r.rules == rules,
            !r.follow_symlinks,
            !r.drop_empty_dirs,
    {
        Self { rules, follow_symlinks: false, drop_empty_dirs: false }
    }
}

/// One rule: a named predicate and action over item paths.
///
/// A rule provider registers a rule extensionally, as a finite decision
/// table: the table holds exactly the item paths the rule's predicate
/// matches, each with the outcome its action produces there. An item path
/// absent from the table is one the rule does not match. The first table row
/// for a path wins, mirroring a predicate that is queried once per item.
pub struct WalkerRule {
    /// The rule's name, a stable identifier used only for diagnostics.
    pub name: String,
    /// The rule's optional description, used only for diagnostics.
    pub description: Option<String>,
    /// When present, the rule applies only to items of this classification.
    pub only_for: Option<WalkerItemType>,
    /// The decision table: the item paths the rule matches, each with the
    /// result of running the rule's action there. `Err` stands for the
    /// action failing with an I/O error, carrying its message.
    pub table: Vec<RuleCase>,
}

/// One row of a rule's decision table.
pub struct RuleCase {
    /// The item path the rule's predicate matches.
    pub path: ItemPath,
    /// What the rule's action returns for that item.
    pub outcome: Result<WalkerRuleResult, String>,
}

/// A path produced by a mapping rule, either absolute or relative to the
/// mapped item.
#[derive(Debug, Clone)]
pub struct RulePath {
    /// Whether `path` is absolute; a relative path is joined to the mapped
    /// item's own path.
    pub absolute: bool,
    pub path: ItemPath,
}

/// What a rule's action decided for an item.
#[derive(Debug, Clone)]
pub enum WalkerRuleResult {
    /// Fail the walk with the provided message.
    StrError(String),
    /// Skip this rule and keep scanning the following rules.
    SkipRule,
    /// Include the item; the following rules still run.
    IncludeItem,
    /// Include the item and ignore all following rules.
    IncludeItemAbsolute,
    /// Exclude the item entirely.
    ExcludeItem,
    /// Do not traverse the item; replace it with the listed paths, which
    /// must be descendants of (or equal to) the item and must exist. The
    /// flag tells whether the mapping is absolute: an absolute mapping's
    /// paths go straight to the output, while the others re-enter the
    /// pipeline as freshly discovered items.
    MapAsList(Vec<RulePath>, bool),
}

} // verus!
