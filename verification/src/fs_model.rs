//! The filesystem snapshot that the walker traverses.
//!
//! A snapshot is a finite list of entries. Each entry couples an absolute
//! path — a sequence of interned name identifiers from the root down — with a
//! link-aware classification: directory, file, or symbolic link (carrying the
//! link's target path). Entry paths are *real* paths: none of their
//! components is itself a symbolic link, exactly as the paths the operating
//! system reports after resolution. A path whose components do traverse
//! symbolic links is reached through [`resolve_from`], the model of path
//! canonicalization.

use vstd::prelude::*;

verus! {

/// An absolute filesystem path: the sequence of name identifiers from the
/// filesystem root down to the item. Identifiers stand for path components
/// (file and directory names), interned by the caller.
#[derive(Debug)]
pub struct ItemPath {
    pub segments: Vec<u64>,
}

impl View for ItemPath {
    type V = Seq<u64>;

    open spec fn view(&self) -> Seq<u64> {
        self.segments@
    }
}

impl Clone for ItemPath {
    fn clone(&self) -> (r: Self)
        ensures
            r@ == self@,
    {
        let mut segments: Vec<u64> = Vec::new();
        let mut i: usize = 0;
        while i < self.segments.len()
            invariant
                i <= self.segments.len(),
                segments@ == self.segments@.take(i as int),
            decreases self.segments.len() - i,
        {
            segments.push(self.segments[i]);
            proof {
                assert(segments@ =~= self.segments@.take(i + 1));
            }
            i += 1;
        }
        proof {
            assert(segments@ =~= self.segments@);
        }
        ItemPath { segments }
    }
}

impl ItemPath {
    /// The path of the filesystem root: the empty sequence of components.
    pub fn root() -> (r: ItemPath)
        ensures
            r@ == Seq::<u64>::empty(),
    {
        let segments: Vec<u64> = Vec::new();
        proof {
            assert(segments@ =~= Seq::<u64>::empty());
        }
        ItemPath { segments }
    }
}

/// Component-wise equality of two paths.
pub fn path_eq(a: &ItemPath, b: &ItemPath) -> (r: bool)
    ensures
        r == (a@ == b@),
{
    if a.segments.len() != b.segments.len() {
        return false;
    }
    let mut i: usize = 0;
    while i < a.segments.len()
        invariant
            i <= a.segments.len(),
            a.segments.len() == b.segments.len(),
            forall|j: int| 0 <= j < i ==> a.segments@[j] == b.segments@[j],
        decreases a.segments.len() - i,
    {
        if a.segments[i] != b.segments[i] {
            return false;
        }
        i += 1;
    }
    proof {
        assert(a@ =~= b@);
    }
    true
}

/// The link-aware classification of one entry, equivalent to metadata read
/// without following the entry itself when it is a symbolic link.
pub enum FsEntryKind {
    Directory,
    File,
    /// A symbolic link and its target, an absolute path. The target may or
    /// may not exist, and may itself traverse further links.
    Symlink(ItemPath),
}

/// One filesystem item: its real absolute path and its classification.
pub struct FsEntry {
    pub path: ItemPath,
    pub kind: FsEntryKind,
}

/// A snapshot of the filesystem: the finite list of items the walker can
/// observe. Well-formedness ([`FsModel::wf`]) asks that the root is a
/// directory, paths are unique, and every non-root entry sits directly under
/// a directory entry.
pub struct FsModel {
    pub entries: Vec<FsEntry>,
}

/// First entry whose path equals `p`, scanning from index `i`.
pub open spec fn find_from(entries: Seq<FsEntry>, p: Seq<u64>, i: int) -> Option<FsEntry>
    decreases entries.len() - i,
{
    if i < 0 || i >= entries.len() {
        None
    } else if entries[i].path@ == p {
        Some(entries[i])
    } else {
        find_from(entries, p, i + 1)
    }
}

/// The entry recorded at path `p`, if any.
pub open spec fn entry_at(fs: FsModel, p: Seq<u64>) -> Option<FsEntry> {
    find_from(fs.entries@, p, 0)
}

/// Whether the snapshot records an entry at real path `p`.
pub open spec fn is_entry(fs: FsModel, p: Seq<u64>) -> bool {
    entry_at(fs, p) is Some
}

/// Whether the snapshot records a directory at real path `p`.
pub open spec fn is_dir_at(fs: FsModel, p: Seq<u64>) -> bool {
    match entry_at(fs, p) {
        Some(e) => e.kind is Directory,
        None => false,
    }
}

pub open spec fn paths_unique(entries: Seq<FsEntry>) -> bool {
    forall|i: int, j: int|
        0 <= i < j < entries.len() ==> entries[i].path@ != entries[j].path@
}

impl FsModel {
    /// The snapshot is internally consistent: the root exists and is a
    /// directory, no path is recorded twice, and every non-root entry's
    /// parent is a directory entry.
    pub open spec fn wf(&self) -> bool {
        &&& is_dir_at(*self, Seq::<u64>::empty())
        &&& paths_unique(self.entries@)
        &&& forall|i: int|
            #![trigger self.entries@[i]]
            0 <= i < self.entries@.len() && self.entries@[i].path@.len() > 0 ==> is_dir_at(
                *self,
                self.entries@[i].path@.drop_last(),
            )
    }
}

/// The set of real paths the snapshot records.
pub open spec fn real_paths(fs: FsModel) -> Set<Seq<u64>> {
    fs.entries@.map_values(|e: FsEntry| e.path@).to_set()
}

/// The most symbolic links one resolution may traverse; resolution of a
/// longer chain (in particular, of a cyclic one) fails, as the operating
/// system's resolution does.
pub const LINK_RESOLUTION_LIMIT: u64 = 64;

/// Resolve the components `rest[0..]` against the already-resolved real path
/// `cur`: the model of symbolic-link resolution. Each component must name an
/// entry under the path resolved so far; a directory extends it, a symbolic
/// link restarts resolution at the link's target (spending one unit of
/// fuel), and a file is accepted only as the final component. `None` means a
/// component does not exist, a file is used as a directory, or the fuel ran
/// out.
pub open spec fn resolve_from(fs: FsModel, cur: Seq<u64>, rest: Seq<u64>, fuel: nat) -> Option<
    Seq<u64>,
>
    decreases fuel, rest.len(),
{
    if rest.len() == 0 {
        Some(cur)
    } else {
        let child = cur.push(rest[0]);
        match entry_at(fs, child) {
            None => None,
            Some(e) => match e.kind {
                FsEntryKind::Directory => resolve_from(fs, child, rest.drop_first(), fuel),
                FsEntryKind::File => if rest.len() == 1 {
                    Some(child)
                } else {
                    None
                },
                FsEntryKind::Symlink(t) => if fuel == 0 {
                    None
                } else {
                    match resolve_from(fs, Seq::empty(), t@, (fuel - 1) as nat) {
                        None => None,
                        Some(rt) => resolve_from(fs, rt, rest.drop_first(), fuel),
                    }
                },
            },
        }
    }
}

/// Full resolution of an absolute path, from the root.
pub open spec fn resolve_full(fs: FsModel, p: Seq<u64>) -> Option<Seq<u64>> {
    resolve_from(fs, Seq::empty(), p, LINK_RESOLUTION_LIMIT as nat)
}

/// The real path `p` resolves to; meaningful only when resolution succeeds.
pub open spec fn resolve_ok(fs: FsModel, p: Seq<u64>) -> Seq<u64> {
    match resolve_full(fs, p) {
        Some(c) => c,
        None => Seq::empty(),
    }
}

/// Whether `p` resolves to an existing item.
pub open spec fn path_exists(fs: FsModel, p: Seq<u64>) -> bool {
    resolve_full(fs, p) is Some
}

/// Whether `p` resolves to a real directory.
pub open spec fn is_dir_full(fs: FsModel, p: Seq<u64>) -> bool {
    match resolve_full(fs, p) {
        Some(c) => is_dir_at(fs, c),
        None => false,
    }
}

/// Link-aware metadata at `p`: the parent chain is resolved, the final
/// component is looked up without following it.
pub open spec fn lstat_at(fs: FsModel, p: Seq<u64>) -> Option<FsEntry> {
    if p.len() == 0 {
        entry_at(fs, p)
    } else {
        match resolve_full(fs, p.drop_last()) {
            None => None,
            Some(parent) => entry_at(fs, parent.push(p.last())),
        }
    }
}

/// Names of the direct children of the real directory `d`, scanning entries
/// from index `i`, in entry order.
pub open spec fn child_names_from(entries: Seq<FsEntry>, d: Seq<u64>, i: int) -> Seq<u64>
    decreases entries.len() - i,
{
    if i < 0 || i >= entries.len() {
        Seq::empty()
    } else {
        let rest = child_names_from(entries, d, i + 1);
        if entries[i].path@.len() == d.len() + 1 && entries[i].path@.drop_last() == d {
            seq![entries[i].path@.last()] + rest
        } else {
            rest
        }
    }
}

/// Names of the direct children of the real directory `d`, in entry order.
pub open spec fn child_names(fs: FsModel, d: Seq<u64>) -> Seq<u64> {
    child_names_from(fs.entries@, d, 0)
}

/// Find the entry recorded at `p`, if any.
pub fn find_entry<'a>(fs: &'a FsModel, p: &ItemPath) -> (r: Option<&'a FsEntry>)
    ensures
        match r {
            Some(e) => entry_at(*fs, p@) == Some(*e),
            None => entry_at(*fs, p@) is None,
        },
{
    let mut i: usize = 0;
    while i < fs.entries.len()
        invariant
            i <= fs.entries.len(),
            find_from(fs.entries@, p@, 0) == find_from(fs.entries@, p@, i as int),
        decreases fs.entries.len() - i,
    {
        if path_eq(&fs.entries[i].path, p) {
            return Some(&fs.entries[i]);
        }
        i += 1;
    }
    None
}

/// A successful scan finds an entry with the looked-up path, at some index
/// at or after the scan's start.
pub proof fn lemma_find_from_some(entries: Seq<FsEntry>, p: Seq<u64>, i: int)
    requires
        find_from(entries, p, i) is Some,
    ensures
        match find_from(entries, p, i) {
            Some(e) => e.path@ == p && exists|k: int|
                #![trigger entries[k]]
                i <= k < entries.len() && entries[k].path@ == p,
            None => false,
        },
    decreases entries.len() - i,
{
    if i < 0 || i >= entries.len() {
    } else if entries[i].path@ == p {
    } else {
        lemma_find_from_some(entries, p, i + 1);
    }
}

/// A path recorded at some index is found by the scan.
pub proof fn lemma_find_from_exists(entries: Seq<FsEntry>, p: Seq<u64>, i: int, k: int)
    requires
        0 <= i <= k < entries.len(),
        entries[k].path@ == p,
    ensures
        find_from(entries, p, i) is Some,
    decreases entries.len() - i,
{
    if entries[i].path@ == p {
    } else {
        lemma_find_from_exists(entries, p, i + 1, k);
    }
}

/// A path is recorded exactly when it is in the real-path set.
pub proof fn lemma_entry_real(fs: FsModel, p: Seq<u64>)
    ensures
        is_entry(fs, p) <==> real_paths(fs).contains(p),
{
    let m = fs.entries@.map_values(|e: FsEntry| e.path@);
    if is_entry(fs, p) {
        lemma_find_from_some(fs.entries@, p, 0);
        let k = choose|k: int|
            #![trigger fs.entries@[k]]
            0 <= k < fs.entries@.len() && fs.entries@[k].path@ == p;
        assert(m[k] == p);
        assert(m.contains(p));
    }
    if real_paths(fs).contains(p) {
        let k = choose|k: int| 0 <= k < m.len() && m[k] == p;
        lemma_find_from_exists(fs.entries@, p, 0, k);
    }
}

/// Successful resolution lands on a recorded path.
pub proof fn lemma_resolve_real(fs: FsModel, cur: Seq<u64>, rest: Seq<u64>, fuel: nat)
    requires
        fs.wf(),
        cur.len() == 0 || is_entry(fs, cur),
    ensures
        match resolve_from(fs, cur, rest, fuel) {
            Some(c) => is_entry(fs, c),
            None => true,
        },
    decreases fuel, rest.len(),
{
    if rest.len() == 0 {
        if cur.len() == 0 {
            assert(cur =~= Seq::<u64>::empty());
            assert(is_dir_at(fs, cur));
        }
    } else {
        let child = cur.push(rest[0]);
        match entry_at(fs, child) {
            None => {},
            Some(e) => match e.kind {
                FsEntryKind::Directory => {
                    lemma_resolve_real(fs, child, rest.drop_first(), fuel);
                },
                FsEntryKind::File => {},
                FsEntryKind::Symlink(t) => {
                    if fuel > 0 {
                        lemma_resolve_real(fs, Seq::empty(), t@, (fuel - 1) as nat);
                        match resolve_from(fs, Seq::empty(), t@, (fuel - 1) as nat) {
                            None => {},
                            Some(rt) => {
                                lemma_resolve_real(fs, rt, rest.drop_first(), fuel);
                            },
                        }
                    }
                },
            },
        }
    }
}

/// Under well-formedness, every proper prefix of a recorded path is a
/// recorded directory.
pub proof fn lemma_prefixes_are_dirs(fs: FsModel, p: Seq<u64>)
    requires
        fs.wf(),
        is_entry(fs, p),
    ensures
        forall|n: int| 0 <= n < p.len() ==> is_dir_at(fs, #[trigger] p.take(n)),
    decreases p.len(),
{
    if p.len() > 0 {
        lemma_find_from_some(fs.entries@, p, 0);
        let k = choose|k: int|
            #![trigger fs.entries@[k]]
            0 <= k < fs.entries@.len() && fs.entries@[k].path@ == p;
        assert(is_dir_at(fs, p.drop_last()));
        lemma_prefixes_are_dirs(fs, p.drop_last());
        assert forall|n: int| 0 <= n < p.len() implies is_dir_at(fs, #[trigger] p.take(n)) by {
            if n == p.len() - 1 {
                assert(p.take(n) =~= p.drop_last());
            } else {
                assert(p.drop_last().take(n) =~= p.take(n));
            }
        }
    }
}

/// Resolution of the remaining components of a recorded, link-free path
/// walks straight down the directory chain.
proof fn lemma_chain_resolves(fs: FsModel, cur: Seq<u64>, rest: Seq<u64>, fuel: nat)
    requires
        fs.wf(),
        is_entry(fs, cur + rest),
        match entry_at(fs, cur + rest) {
            Some(e) => !(e.kind is Symlink),
            None => false,
        },
        forall|n: int| 0 <= n < (cur + rest).len() ==> is_dir_at(fs, #[trigger] (cur + rest).take(n)),
    ensures
        resolve_from(fs, cur, rest, fuel) == Some(cur + rest),
    decreases rest.len(),
{
    if rest.len() == 0 {
        assert(cur + rest =~= cur);
    } else {
        let full = cur + rest;
        let child = cur.push(rest[0]);
        assert(child =~= full.take(cur.len() as int + 1));
        if rest.len() == 1 {
            assert(child =~= full);
            match entry_at(fs, child) {
                Some(e) => match e.kind {
                    FsEntryKind::Directory => {
                        assert(child + rest.drop_first() =~= child);
                        lemma_chain_resolves(fs, child, rest.drop_first(), fuel);
                    },
                    FsEntryKind::File => {},
                    FsEntryKind::Symlink(_) => {
                        assert(false);
                    },
                },
                None => {
                    assert(false);
                },
            }
        } else {
            assert(is_dir_at(fs, full.take(cur.len() as int + 1)));
            assert(child + rest.drop_first() =~= full);
            lemma_chain_resolves(fs, child, rest.drop_first(), fuel);
        }
    }
}

/// A recorded directory or file path resolves to itself: none of its
/// components is a symbolic link.
pub proof fn lemma_entry_resolves_self(fs: FsModel, p: Seq<u64>, fuel: nat)
    requires
        fs.wf(),
        is_entry(fs, p),
        match entry_at(fs, p) {
            Some(e) => !(e.kind is Symlink),
            None => false,
        },
    ensures
        resolve_from(fs, Seq::empty(), p, fuel) == Some(p),
{
    lemma_prefixes_are_dirs(fs, p);
    assert(Seq::<u64>::empty() + p =~= p);
    lemma_chain_resolves(fs, Seq::empty(), p, fuel);
}

/// Link-aware metadata of a recorded path is exactly its entry.
pub proof fn lemma_lstat_entry(fs: FsModel, p: Seq<u64>)
    requires
        fs.wf(),
        is_entry(fs, p),
    ensures
        lstat_at(fs, p) == entry_at(fs, p),
{
    if p.len() > 0 {
        lemma_prefixes_are_dirs(fs, p);
        assert(p.take(p.len() - 1) =~= p.drop_last());
        assert(is_dir_at(fs, p.drop_last()));
        lemma_entry_resolves_self(fs, p.drop_last(), LINK_RESOLUTION_LIMIT as nat);
        assert(p.drop_last().push(p.last()) =~= p);
    }
}

/// Every name listed for a real directory names a recorded child entry.
pub proof fn lemma_child_names_entries(fs: FsModel, d: Seq<u64>, i: int)
    ensures
        forall|k: int|
            0 <= k < child_names_from(fs.entries@, d, i).len() ==> is_entry(
                fs,
                d.push(child_names_from(fs.entries@, d, i)[k]),
            ),
    decreases fs.entries@.len() - i,
{
    let entries = fs.entries@;
    if 0 <= i < entries.len() {
        lemma_child_names_entries(fs, d, i + 1);
        let names = child_names_from(entries, d, i);
        let rest = child_names_from(entries, d, i + 1);
        if entries[i].path@.len() == d.len() + 1 && entries[i].path@.drop_last() == d {
            assert(d.push(entries[i].path@.last()) =~= entries[i].path@);
            lemma_find_from_exists(entries, entries[i].path@, 0, i);
            assert forall|k: int| 0 <= k < names.len() implies is_entry(
                fs,
                d.push(names[k]),
            ) by {
                if k > 0 {
                    assert(names[k] == rest[k - 1]);
                }
            }
        }
    }
}

/// Each listed child name is carried by an entry at or after the scan
/// start, and, when paths are unique, the names listed for one directory
/// are pairwise distinct.
pub proof fn lemma_child_names_distinct(entries: Seq<FsEntry>, d: Seq<u64>, i: int)
    requires
        paths_unique(entries),
    ensures
        forall|k: int|
            #![trigger child_names_from(entries, d, i)[k]]
            0 <= k < child_names_from(entries, d, i).len() ==> exists|idx: int|
                #![trigger entries[idx]]
                i <= idx < entries.len() && entries[idx].path@ == d.push(
                    child_names_from(entries, d, i)[k],
                ),
        forall|k: int, l: int|
            0 <= k < l < child_names_from(entries, d, i).len() ==> child_names_from(
                entries,
                d,
                i,
            )[k] != child_names_from(entries, d, i)[l],
    decreases entries.len() - i,
{
    if 0 <= i < entries.len() {
        lemma_child_names_distinct(entries, d, i + 1);
        let names = child_names_from(entries, d, i);
        let rest = child_names_from(entries, d, i + 1);
        if entries[i].path@.len() == d.len() + 1 && entries[i].path@.drop_last() == d {
            assert(d.push(entries[i].path@.last()) =~= entries[i].path@);
            assert forall|k: int| #![trigger names[k]]
                0 <= k < names.len() implies exists|idx: int|
                #![trigger entries[idx]]
                i <= idx < entries.len() && entries[idx].path@ == d.push(names[k]) by {
                if k == 0 {
                    assert(i <= i < entries.len() && entries[i].path@ == d.push(names[0]));
                } else {
                    assert(names[k] == rest[k - 1]);
                    let idx = choose|idx: int|
                        #![trigger entries[idx]]
                        i + 1 <= idx < entries.len() && entries[idx].path@ == d.push(rest[k - 1]);
                    assert(i <= idx < entries.len() && entries[idx].path@ == d.push(names[k]));
                }
            }
            assert forall|k: int, l: int|
                0 <= k < l < names.len() implies names[k] != names[l] by {
                if k == 0 {
                    assert(names[l] == rest[l - 1]);
                    if names[0] == names[l] {
                        let idx = choose|idx: int|
                            #![trigger entries[idx]]
                            i + 1 <= idx < entries.len() && entries[idx].path@ == d.push(
                                rest[l - 1],
                            );
                        assert(entries[idx].path@ == entries[i].path@);
                        assert(false);
                    }
                } else {
                    assert(names[k] == rest[k - 1] && names[l] == rest[l - 1]);
                }
            }
        }
    }
}

/// A recorded path cannot be longer than the entry list: each of its
/// prefixes is a distinct recorded path.
pub proof fn lemma_entry_path_len(fs: FsModel, p: Seq<u64>)
    requires
        fs.wf(),
        is_entry(fs, p),
    ensures
        p.len() <= fs.entries@.len(),
{
    broadcast use vstd::seq_lib::seq_to_set_is_finite;

    let prefixes = Seq::new(p.len(), |i: int| p.take(i + 1));
    assert(prefixes.no_duplicates()) by {
        assert forall|i: int, j: int|
            0 <= i < prefixes.len() && 0 <= j < prefixes.len() && i != j implies prefixes[i]
            != prefixes[j] by {
            assert(prefixes[i].len() == i + 1 && prefixes[j].len() == j + 1);
        }
    }
    prefixes.unique_seq_to_set();
    lemma_prefixes_are_dirs(fs, p);
    assert forall|q: Seq<u64>| prefixes.to_set().contains(q) implies real_paths(fs).contains(
        q,
    ) by {
        let i = choose|i: int| 0 <= i < prefixes.len() && prefixes[i] == q;
        if i + 1 < p.len() {
            assert(is_dir_at(fs, p.take(i + 1)));
        } else {
            assert(p.take(i + 1) =~= p);
        }
        lemma_entry_real(fs, q);
    }
    let m = fs.entries@.map_values(|e: FsEntry| e.path@);
    m.lemma_cardinality_of_set();
    vstd::set_lib::lemma_len_subset(prefixes.to_set(), real_paths(fs));
}

/// Copy of the first `n` components of `p`.
pub fn prefix_path(p: &ItemPath, n: usize) -> (r: ItemPath)
    requires
        n <= p@.len(),
    ensures
        r@ == p@.take(n as int),
{
    let mut segments: Vec<u64> = Vec::new();
    let mut i: usize = 0;
    while i < n
        invariant
            i <= n <= p@.len(),
            segments@ == p@.take(i as int),
        decreases n - i,
    {
        segments.push(p.segments[i]);
        proof {
            assert(segments@ =~= p@.take(i + 1));
        }
        i += 1;
    }
    ItemPath { segments }
}

fn resolve_rec(fs: &FsModel, cur: ItemPath, rest: &ItemPath, from: usize, fuel: u64) -> (r: Option<
    ItemPath,
>)
    requires
        from <= rest@.len(),
    ensures
        match r {
            Some(c) => resolve_from(*fs, cur@, rest@.skip(from as int), fuel as nat) == Some(c@),
            None => resolve_from(*fs, cur@, rest@.skip(from as int), fuel as nat) is None,
        },
    decreases fuel, rest@.len() - from,
{
    if from == rest.segments.len() {
        proof {
            assert(rest@.skip(from as int) =~= Seq::<u64>::empty());
        }
        return Some(cur);
    }
    proof {
        assert(rest@.skip(from as int)[0] == rest@[from as int]);
        assert(rest@.skip(from as int).drop_first() =~= rest@.skip(from as int + 1));
    }
    let mut child = cur;
    child.segments.push(rest.segments[from]);
    let entry = match find_entry(fs, &child) {
        None => {
            return None;
        },
        Some(e) => e,
    };
    match &entry.kind {
        FsEntryKind::Directory => resolve_rec(fs, child, rest, from + 1, fuel),
        FsEntryKind::File => {
            if from + 1 == rest.segments.len() {
                Some(child)
            } else {
                None
            }
        },
        FsEntryKind::Symlink(t) => {
            if fuel == 0 {
                None
            } else {
                let tgt = t.clone();
                proof {
                    assert(tgt@.skip(0) =~= tgt@);
                }
                match resolve_rec(fs, ItemPath::root(), &tgt, 0, fuel - 1) {
                    None => None,
                    Some(rt) => resolve_rec(fs, rt, rest, from + 1, fuel),
                }
            }
        },
    }
}

/// Model of path canonicalization: fully resolve the symbolic links a path
/// traverses. Returns the real path, or `None` when a component does not
/// exist or link resolution exceeds the limit.
pub fn canonicalize_path(fs: &FsModel, p: &ItemPath) -> (r: Option<ItemPath>)
    ensures
        match r {
            Some(c) => resolve_full(*fs, p@) == Some(c@),
            None => resolve_full(*fs, p@) is None,
        },
{
    proof {
        assert(p@.skip(0) =~= p@);
    }
    resolve_rec(fs, ItemPath::root(), p, 0, LINK_RESOLUTION_LIMIT)
}

/// Link-aware metadata of the item at `p`: its classification without
/// following a final symbolic link.
pub fn lstat<'a>(fs: &'a FsModel, p: &ItemPath) -> (r: Option<&'a FsEntry>)
    ensures
        match r {
            Some(e) => lstat_at(*fs, p@) == Some(*e),
            None => lstat_at(*fs, p@) is None,
        },
{
    let n = p.segments.len();
    if n == 0 {
        return find_entry(fs, p);
    }
    let parent = prefix_path(p, n - 1);
    proof {
        assert(parent@ =~= p@.drop_last());
    }
    let rp = match canonicalize_path(fs, &parent) {
        None => {
            return None;
        },
        Some(c) => c,
    };
    let mut child = rp;
    child.segments.push(p.segments[n - 1]);
    find_entry(fs, &child)
}

/// Whether the item at `p` exists, following symbolic links.
pub fn exists_at(fs: &FsModel, p: &ItemPath) -> (r: bool)
    ensures
        r == path_exists(*fs, p@),
{
    match canonicalize_path(fs, p) {
        Some(_) => true,
        None => false,
    }
}

/// Whether `e` names an item directly under directory path `d`.
fn is_direct_child(e: &ItemPath, d: &ItemPath) -> (r: bool)
    ensures
        r == (e@.len() == d@.len() + 1 && e@.drop_last() == d@),
{
    if e.segments.len() == 0 || e.segments.len() - 1 != d.segments.len() {
        return false;
    }
    let mut j: usize = 0;
    while j < d.segments.len()
        invariant
            j <= d.segments.len(),
            e@.len() == d@.len() + 1,
            forall|k: int| 0 <= k < j ==> e.segments@[k] == d.segments@[k],
        decreases d.segments.len() - j,
    {
        if e.segments[j] != d.segments[j] {
            proof {
                assert(e@.drop_last()[j as int] != d@[j as int]);
            }
            return false;
        }
        j += 1;
    }
    proof {
        assert(e@.drop_last() =~= d@);
    }
    true
}

/// Enumerate the direct entries of the directory at `dir` (a path that may
/// reach it through symbolic links): `dir` joined with each child name of
/// the real directory it resolves to, in entry order.
pub fn read_dir(fs: &FsModel, dir: &ItemPath) -> (r: Vec<ItemPath>)
    requires
        is_dir_full(*fs, dir@),
    ensures
        ({
            let names = child_names(*fs, resolve_ok(*fs, dir@));
            &&& r@.len() == names.len()
            &&& forall|k: int| 0 <= k < names.len() ==> r@[k]@ == dir@.push(names[k])
        }),
{
    let rd = match canonicalize_path(fs, dir) {
        Some(c) => c,
        None => {
            proof {
                assert(false);
            }
            ItemPath::root()
        },
    };
    let mut out: Vec<ItemPath> = Vec::new();
    let ghost mut done: Seq<u64> = Seq::empty();
    let mut i: usize = 0;
    while i < fs.entries.len()
        invariant
            i <= fs.entries.len(),
            child_names_from(fs.entries@, rd@, 0) == done + child_names_from(
                fs.entries@,
                rd@,
                i as int,
            ),
            out@.len() == done.len(),
            forall|k: int| 0 <= k < done.len() ==> out@[k]@ == dir@.push(done[k]),
        decreases fs.entries.len() - i,
    {
        let e = &fs.entries[i];
        if is_direct_child(&e.path, &rd) {
            let name = e.path.segments[e.path.segments.len() - 1];
            let mut np = dir.clone();
            np.segments.push(name);
            out.push(np);
            proof {
                assert(e.path@.last() == name);
                assert((done + seq![name]) + child_names_from(fs.entries@, rd@, i + 1) =~= done + (
                seq![name] + child_names_from(fs.entries@, rd@, i + 1)));
                done = done + seq![name];
            }
        }
        i += 1;
    }
    proof {
        assert(child_names_from(fs.entries@, rd@, i as int) =~= Seq::<u64>::empty());
        assert(done + Seq::<u64>::empty() =~= done);
    }
    out
}

fn check_unique(fs: &FsModel) -> (b: bool)
    ensures
        b == paths_unique(fs.entries@),
{
    let n = fs.entries.len();
    let mut i: usize = 0;
    while i < n
        invariant
            i <= n,
            n == fs.entries.len(),
            forall|x: int, y: int|
                #![trigger fs.entries@[x].path@, fs.entries@[y].path@]
                0 <= x < y < n && x < i ==> fs.entries@[x].path@ != fs.entries@[y].path@,
        decreases n - i,
    {
        let mut j: usize = i + 1;
        while j < n
            invariant
                n == fs.entries.len(),
                i < n,
                i + 1 <= j <= n,
                forall|y: int|
                    #![trigger fs.entries@[y].path@]
                    i < y < j ==> fs.entries@[i as int].path@ != fs.entries@[y].path@,
            decreases n - j,
        {
            if path_eq(&fs.entries[i].path, &fs.entries[j].path) {
                return false;
            }
            j += 1;
        }
        i += 1;
    }
    true
}

fn check_parents(fs: &FsModel) -> (b: bool)
    ensures
        b == (forall|i: int|
            #![trigger fs.entries@[i]]
            0 <= i < fs.entries@.len() && fs.entries@[i].path@.len() > 0 ==> is_dir_at(
                *fs,
                fs.entries@[i].path@.drop_last(),
            )),
{
    let mut i: usize = 0;
    while i < fs.entries.len()
        invariant
            i <= fs.entries.len(),
            forall|k: int|
                #![trigger fs.entries@[k]]
                0 <= k < i && fs.entries@[k].path@.len() > 0 ==> is_dir_at(
                    *fs,
                    fs.entries@[k].path@.drop_last(),
                ),
        decreases fs.entries.len() - i,
    {
        let e = &fs.entries[i];
        if e.path.segments.len() > 0 {
            let parent = prefix_path(&e.path, e.path.segments.len() - 1);
            proof {
                assert(parent@ =~= fs.entries@[i as int].path@.drop_last());
            }
            let ok = match find_entry(fs, &parent) {
                Some(pe) => match &pe.kind {
                    FsEntryKind::Directory => true,
                    _ => false,
                },
                None => false,
            };
            if !ok {
                return false;
            }
        }
        i += 1;
    }
    true
}

impl FsModel {
    /// Decide well-formedness of the snapshot at run time.
    pub fn check_wf(&self) -> (b: bool)
        ensures
            b == self.wf(),
    {
        let root = ItemPath::root();
        let root_ok = match find_entry(self, &root) {
            Some(e) => match &e.kind {
                FsEntryKind::Directory => true,
                _ => false,
            },
            None => false,
        };
        if !root_ok {
            return false;
        }
        if !check_unique(self) {
            return false;
        }
        check_parents(self)
    }
}

} // verus!
