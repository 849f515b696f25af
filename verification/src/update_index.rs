use crate::config::{spec_ignore_matches, FsEntry, FsEntryV, Ignore, Match, Specifier};
use crate::indexchanges::{change_views, ChangeV, IndexChange};
use crate::indexfile::IndexFile;
use vstd::prelude::*;

verus! {

broadcast use vstd::std_specs::vec::group_vec_axioms;

/// The update policy and display flags, passed explicitly through every
/// call that needs them; never ambient.
#[derive(Clone, Copy, PartialEq, Eq, Structural, Debug)]
pub struct Settings {
    /// don't sort the changes that form the backup
    pub dont_sort: bool,
    /// start with smaller directories rather than larger ones
    pub smallest_first: bool,
    /// show changes in the order in which they will be applied, not reversed
    pub dont_reverse_output: bool,
    /// don't update files just because their timestamp is different
    pub ignore_timestamp: bool,
    /// keep newer files when the files in the source are older
    pub dont_replace_newer: bool,
    /// replace files if their timestamp is unknown in both source and index
    pub replace_if_timestamp_unknown: bool,
    /// replace files if their timestamp is unknown in source but known in index
    pub replace_if_timestamp_lost: bool,
    /// don't replace files if their timestamp is known in source but unknown in index
    pub dont_replace_if_timestamp_found: bool,
}

impl Default for Settings {
    /// Every flag starts out disabled.
    fn default() -> (r: Self)
        ensures
            r == Settings::all_off(),
    {
        Settings {
            dont_sort: false,
            smallest_first: false,
            dont_reverse_output: false,
            ignore_timestamp: false,
            dont_replace_newer: false,
            replace_if_timestamp_unknown: false,
            replace_if_timestamp_lost: false,
            dont_replace_if_timestamp_found: false,
        }
    }
}

impl Settings {
    pub open spec fn all_off() -> Settings {
        Settings {
            dont_sort: false,
            smallest_first: false,
            dont_reverse_output: false,
            ignore_timestamp: false,
            dont_replace_newer: false,
            replace_if_timestamp_unknown: false,
            replace_if_timestamp_lost: false,
            dont_replace_if_timestamp_found: false,
        }
    }
}

// ---------------------------------------------------------------------------
// Snapshots of the two trees. The walk that gathers them does the reading;
// the diff itself is a function of these values alone. A reading that failed
// is recorded as such, with its message, and the diff decides whether that
// failure is fatal.
// ---------------------------------------------------------------------------

/// What one source-side entry looked like.
pub enum SourceNode {
    /// A directory and its entries, in listing order.
    Dir(Vec<SourceEntry>),
    /// A directory whose entries could not be listed.
    DirFailed(Vec<u8>),
    /// A regular file and its metadata.
    File(IndexFile),
    /// A symlink and its target text, where it could be read.
    Symlink(Option<Vec<u8>>),
    /// An entry whose own metadata could not be read.
    Unreadable(Vec<u8>),
}

pub struct SourceEntry {
    pub name: Vec<u8>,
    pub node: SourceNode,
}

/// What one index-side entry looked like.
pub enum IndexNode {
    /// A directory; `None` where its entries could not be listed, which the
    /// diff treats as a directory new to the index.
    Dir(Option<Vec<IndexEntry>>),
    /// A record file and its content, where it could be read.
    File(Option<Vec<u8>>),
    /// A symlink and its target text, where it could be read.
    Symlink(Option<Vec<u8>>),
}

pub struct IndexEntry {
    pub name: Vec<u8>,
    /// What the listing said: a directory or not; `None` where even that
    /// could not be read, which is fatal.
    pub kind_dir: Option<bool>,
    pub node: IndexNode,
}

/// Which reading a fatal diff failure happened in.
#[derive(Clone, Copy, PartialEq, Eq, Structural, Debug)]
pub enum DiffOp {
    /// listing a source directory's entries
    GettingEntries,
    /// reading an index entry's file type
    GettingFileType,
    /// reading a source entry's metadata
    GettingMetadata,
    /// reading a source symlink's target
    ReadingLink,
    /// reading an index symlink's target
    ReadingIndexLink,
    /// a directory became a symlink, which cannot be resolved safely
    DirBecameSymlink,
}

/// A fatal diff failure: the reading that failed, the path it failed on,
/// and the recorded message.
#[derive(Debug)]
pub struct DiffError {
    pub op: DiffOp,
    pub path: Vec<Vec<u8>>,
    pub detail: Vec<u8>,
}

/// The shape of a fatal diff failure.
pub ghost struct DiffErrorV {
    pub op: DiffOp,
    pub path: Seq<Seq<u8>>,
    pub detail: Seq<u8>,
}

impl View for DiffError {
    type V = DiffErrorV;

    open spec fn view(&self) -> DiffErrorV {
        DiffErrorV {
            op: self.op,
            path: crate::text::views_of(self.path@),
            detail: self.detail@,
        }
    }
}

/// The bytes a subtree holds in regular files; what a diff can add is never
/// more than this.
pub open spec fn src_weight(n: SourceNode) -> nat
    decreases n, 1int,
{
    match n {
        SourceNode::Dir(es) => entries_weight(es@, es@.len() as int),
        SourceNode::File(f) => f.size as nat,
        _ => 0,
    }
}

/// The weight of the first `i` entries.
pub open spec fn entries_weight(es: Seq<SourceEntry>, i: int) -> nat
    decreases es, 0int, i,
{
    if i <= 0 || i > es.len() {
        0
    } else {
        entries_weight(es, i - 1) + src_weight(es[i - 1].node)
    }
}

// ---------------------------------------------------------------------------
// The diff itself, stated as a function of the two snapshots.
// ---------------------------------------------------------------------------

/// Whether a source node is a directory, a non-directory, or unknown.
pub open spec fn node_is_dir(n: SourceNode) -> Option<bool> {
    match n {
        SourceNode::Dir(_) => Some(true),
        SourceNode::DirFailed(_) => Some(true),
        SourceNode::File(_) => Some(false),
        SourceNode::Symlink(_) => Some(false),
        SourceNode::Unreadable(_) => None,
    }
}

/// The first index entry with this name, if any.
pub open spec fn idx_find(es: Seq<IndexEntry>, name: Seq<u8>, i: int) -> Option<IndexEntry>
    decreases es.len() - i,
{
    if i < 0 || i >= es.len() {
        None
    } else if es[i].name@ == name {
        Some(es[i])
    } else {
        idx_find(es, name, i + 1)
    }
}

/// The first index entry whose file type is unknown, if any.
pub open spec fn first_unknown_kind(es: Seq<IndexEntry>, i: int) -> Option<int>
    decreases es.len() - i,
{
    if i < 0 || i >= es.len() {
        None
    } else if es[i].kind_dir is None {
        Some(i)
    } else {
        first_unknown_kind(es, i + 1)
    }
}

/// What processing one source entry contributes.
pub ghost struct StepV {
    /// the entry was ignored: nothing contributed, nothing marked seen
    pub skip: bool,
    pub bytes: nat,
    pub removals: Seq<ChangeV>,
    pub adds: Seq<(nat, Seq<ChangeV>)>,
}

/// What walking the source entries of one directory accumulates.
pub ghost struct WalkV {
    pub total: nat,
    pub removals: Seq<ChangeV>,
    pub adds: Seq<(nat, Seq<ChangeV>)>,
    pub seen: Set<Seq<u8>>,
}

pub open spec fn step_skip() -> StepV {
    StepV { skip: true, bytes: 0, removals: seq![], adds: seq![] }
}

/// The index listing of a node, where it has one.
pub open spec fn idx_listing(idx: Option<IndexNode>) -> Option<Seq<IndexEntry>> {
    match idx {
        Some(IndexNode::Dir(Some(es))) => Some(es@),
        _ => None,
    }
}

/// The record a previous index entry offers for loading, where it has one.
pub open spec fn prev_record(prev: Option<IndexEntry>) -> Option<Seq<u8>> {
    match prev {
        Some(p) => match p.node {
            IndexNode::File(Some(c)) => Some(c@),
            _ => None,
        },
        None => None,
    }
}

/// Diffing one directory: `Ok(None)` where the directory already existed,
/// is unchanged and contributes nothing; else its add-bytes and its ordered
/// changes, starting with its own `AddDir` marker, then this directory's
/// removals, then the additions, each child's batch kept together.
pub open spec fn spec_rec(
    src_entries: Seq<SourceEntry>,
    rel: Seq<Seq<u8>>,
    idx: Option<IndexNode>,
    ig: Ignore,
    st: Settings,
    sort: Option<bool>,
) -> Result<Option<(nat, Seq<ChangeV>)>, DiffErrorV>
    decreases src_entries, 2int, 0int,
{
    let listing = idx_listing(idx);
    let dir_is_new = listing is None;
    let idx_entries = match listing {
        Some(es) => es,
        None => seq![],
    };
    match first_unknown_kind(idx_entries, 0) {
        Some(k) => Err(
            DiffErrorV {
                op: DiffOp::GettingFileType,
                path: rel.push(idx_entries[k].name@),
                detail: seq![],
            },
        ),
        None => match spec_walk(src_entries, src_entries.len() as int, rel, idx_entries, ig, st, sort) {
            Err(e) => Err(e),
            Ok(acc) => {
                let removals = acc.removals + spec_leftover_removals(
                    idx_entries,
                    idx_entries.len() as int,
                    rel,
                    acc.seen,
                );
                let adds = match sort {
                    Some(largest) => spec_sort_adds(acc.adds, largest),
                    None => acc.adds,
                };
                if !dir_is_new && removals.len() == 0 && adds.len() == 0 {
                    Ok(None)
                } else {
                    Ok(
                        Some(
                            (
                                acc.total,
                                seq![
                                    ChangeV::AddDir(rel, dir_is_new, acc.total as u64),
                                ] + removals + flatten_adds(adds),
                            ),
                        ),
                    )
                }
            },
        },
    }
}

/// Walks the first `i` source entries of one directory.
pub open spec fn spec_walk(
    src_entries: Seq<SourceEntry>,
    i: int,
    rel: Seq<Seq<u8>>,
    idx_entries: Seq<IndexEntry>,
    ig: Ignore,
    st: Settings,
    sort: Option<bool>,
) -> Result<WalkV, DiffErrorV>
    decreases src_entries, 1int, i,
{
    if i <= 0 || i > src_entries.len() {
        Ok(WalkV { total: 0, removals: seq![], adds: seq![], seen: Set::empty() })
    } else {
        match spec_walk(src_entries, i - 1, rel, idx_entries, ig, st, sort) {
            Err(e) => Err(e),
            Ok(acc) => match spec_step(src_entries[i - 1], rel, idx_entries, ig, st, sort) {
                Err(e) => Err(e),
                Ok(stp) => Ok(
                    WalkV {
                        total: acc.total + stp.bytes,
                        removals: acc.removals + stp.removals,
                        adds: acc.adds + stp.adds,
                        seen: if stp.skip {
                            acc.seen
                        } else {
                            acc.seen.insert(src_entries[i - 1].name@)
                        },
                    },
                ),
            },
        }
    }
}

/// Processes one source entry against the index listing of its directory.
pub open spec fn spec_step(
    entry: SourceEntry,
    rel: Seq<Seq<u8>>,
    idx_entries: Seq<IndexEntry>,
    ig: Ignore,
    st: Settings,
    sort: Option<bool>,
) -> Result<StepV, DiffErrorV>
    decreases entry, 2int, 0int,
{
    let e_path = rel.push(entry.name@);
    let fs_e = FsEntryV { path: e_path, is_directory: node_is_dir(entry.node) };
    if spec_ignore_matches(ig, fs_e) == Some(true) {
        Ok(step_skip())
    } else {
        let prev = idx_find(idx_entries, entry.name@, 0);
        let prev_kind = match prev {
            Some(p) => p.kind_dir,
            None => None,
        };
        let old_is_symlink = match prev {
            Some(p) => p.node is Symlink,
            None => false,
        };
        match entry.node {
            SourceNode::Unreadable(d) => Err(
                DiffErrorV { op: DiffOp::GettingMetadata, path: e_path, detail: d@ },
            ),
            SourceNode::DirFailed(d) => Err(
                DiffErrorV { op: DiffOp::GettingEntries, path: e_path, detail: d@ },
            ),
            SourceNode::Dir(children) => {
                let removals: Seq<ChangeV> = if prev_kind == Some(false) {
                    seq![ChangeV::RemoveFile(e_path)]
                } else {
                    seq![]
                };
                let child_idx = match prev {
                    Some(p) => Some(p.node),
                    None => None,
                };
                match spec_rec(children@, e_path, child_idx, ig, st, sort) {
                    Err(e) => Err(e),
                    Ok(None) => Ok(StepV { skip: false, bytes: 0, removals, adds: seq![] }),
                    Ok(Some((b, chs))) => Ok(
                        StepV { skip: false, bytes: b, removals, adds: seq![(b, chs)] },
                    ),
                }
            },
            SourceNode::Symlink(t_opt) => {
                if old_is_symlink {
                    // compare the two targets; either being unreadable is fatal
                    match t_opt {
                        None => Err(
                            DiffErrorV { op: DiffOp::ReadingLink, path: e_path, detail: seq![] },
                        ),
                        Some(t) => {
                            let old_t = match prev {
                                Some(p) => match p.node {
                                    IndexNode::Symlink(o) => o,
                                    _ => None,
                                },
                                None => None,
                            };
                            match old_t {
                                None => Err(
                                    DiffErrorV {
                                        op: DiffOp::ReadingIndexLink,
                                        path: e_path,
                                        detail: seq![],
                                    },
                                ),
                                Some(o) => {
                                    if t@ != o@ {
                                        Ok(
                                            StepV {
                                                skip: false,
                                                bytes: 0,
                                                removals: seq![],
                                                adds: seq![
                                                    (0, seq![ChangeV::AddSymlink(e_path, t@)]),
                                                ],
                                            },
                                        )
                                    } else {
                                        Ok(
                                            StepV {
                                                skip: false,
                                                bytes: 0,
                                                removals: seq![],
                                                adds: seq![],
                                            },
                                        )
                                    }
                                },
                            }
                        },
                    }
                } else if prev_kind == Some(true) {
                    // a directory became a symlink: ambiguous, fatal
                    Err(DiffErrorV { op: DiffOp::DirBecameSymlink, path: e_path, detail: seq![] })
                } else {
                    match t_opt {
                        None => Err(
                            DiffErrorV { op: DiffOp::ReadingLink, path: e_path, detail: seq![] },
                        ),
                        Some(t) => Ok(
                            StepV {
                                skip: false,
                                bytes: 0,
                                removals: if prev_kind == Some(false) {
                                    seq![ChangeV::RemoveFile(e_path)]
                                } else {
                                    seq![]
                                },
                                adds: seq![(0, seq![ChangeV::AddSymlink(e_path, t@)])],
                            },
                        ),
                    }
                }
            },
            SourceNode::File(meta) => {
                let removals: Seq<ChangeV> = (if prev_kind == Some(true) {
                    seq![ChangeV::RemoveDir(e_path)]
                } else {
                    seq![]
                }) + (if old_is_symlink {
                    seq![ChangeV::RemoveFile(e_path)]
                } else {
                    seq![]
                });
                let keep = match prev_record(prev) {
                    Some(c) => match IndexFile::spec_load(c) {
                        Ok(oldif) => !IndexFile::spec_should_be_updated(meta, oldif, st),
                        Err(_) => false,
                    },
                    None => false,
                };
                if keep {
                    Ok(StepV { skip: false, bytes: 0, removals, adds: seq![] })
                } else {
                    Ok(
                        StepV {
                            skip: false,
                            bytes: meta.size as nat,
                            removals,
                            adds: seq![
                                (meta.size as nat, seq![ChangeV::AddFile(e_path, meta)]),
                            ],
                        },
                    )
                }
            },
        }
    }
}

/// The removals for the first `i` index entries never seen in the source.
pub open spec fn spec_leftover_removals(
    idx_entries: Seq<IndexEntry>,
    i: int,
    rel: Seq<Seq<u8>>,
    seen: Set<Seq<u8>>,
) -> Seq<ChangeV>
    decreases i,
{
    if i <= 0 || i > idx_entries.len() {
        seq![]
    } else {
        let rest = spec_leftover_removals(idx_entries, i - 1, rel, seen);
        let p = idx_entries[i - 1];
        if seen.contains(p.name@) {
            rest
        } else {
            rest + seq![
                if p.kind_dir == Some(true) {
                    ChangeV::RemoveDir(rel.push(p.name@))
                } else {
                    ChangeV::RemoveFile(rel.push(p.name@))
                },
            ]
        }
    }
}

/// Whether `a` may stand before `b` in the requested order.
pub open spec fn sort_le(a: (nat, Seq<ChangeV>), b: (nat, Seq<ChangeV>), largest: bool) -> bool {
    if largest {
        a.0 >= b.0
    } else {
        a.0 <= b.0
    }
}

/// Inserts an addition batch behind every batch that may stand before it:
/// batches of equal size keep their order.
pub open spec fn spec_insert_add(
    s: Seq<(nat, Seq<ChangeV>)>,
    x: (nat, Seq<ChangeV>),
    largest: bool,
) -> Seq<(nat, Seq<ChangeV>)>
    decreases s.len(),
{
    if s.len() == 0 {
        seq![x]
    } else if sort_le(s.last(), x, largest) {
        s.push(x)
    } else {
        spec_insert_add(s.drop_last(), x, largest).push(s.last())
    }
}

/// The addition batches, stably ordered by their byte size.
pub open spec fn spec_sort_adds(s: Seq<(nat, Seq<ChangeV>)>, largest: bool) -> Seq<
    (nat, Seq<ChangeV>),
>
    decreases s.len(),
{
    if s.len() == 0 {
        seq![]
    } else {
        spec_insert_add(spec_sort_adds(s.drop_last(), largest), s.last(), largest)
    }
}

/// The changes of the addition batches, in order.
pub open spec fn flatten_adds(s: Seq<(nat, Seq<ChangeV>)>) -> Seq<ChangeV>
    decreases s.len(),
{
    if s.len() == 0 {
        seq![]
    } else {
        flatten_adds(s.drop_last()) + s.last().1
    }
}

// ---------------------------------------------------------------------------
// What a diff can add is bounded by the source's weight, so the byte totals
// fit the machine wherever the tree itself does.
// ---------------------------------------------------------------------------

proof fn lemma_entries_weight_mono(es: Seq<SourceEntry>, i: int, j: int)
    requires
        0 <= i <= j <= es.len(),
    ensures
        entries_weight(es, i) <= entries_weight(es, j),
    decreases j - i,
{
    if i < j {
        lemma_entries_weight_mono(es, i, j - 1);
    }
}

proof fn lemma_entries_weight_elem(es: Seq<SourceEntry>, i: int)
    requires
        0 <= i < es.len(),
    ensures
        src_weight(es[i].node) <= entries_weight(es, es.len() as int),
{
    lemma_entries_weight_mono(es, i + 1, es.len() as int);
}

proof fn lemma_rec_total(
    src_entries: Seq<SourceEntry>,
    rel: Seq<Seq<u8>>,
    idx: Option<IndexNode>,
    ig: Ignore,
    st: Settings,
    sort: Option<bool>,
)
    ensures
        match spec_rec(src_entries, rel, idx, ig, st, sort) {
            Ok(Some((t, _))) => t <= entries_weight(src_entries, src_entries.len() as int),
            _ => true,
        },
    decreases src_entries, 2int, 0int,
{
    let listing = idx_listing(idx);
    let idx_entries = match listing {
        Some(es) => es,
        None => seq![],
    };
    lemma_walk_total(src_entries, src_entries.len() as int, rel, idx_entries, ig, st, sort);
}

proof fn lemma_walk_total(
    src_entries: Seq<SourceEntry>,
    i: int,
    rel: Seq<Seq<u8>>,
    idx_entries: Seq<IndexEntry>,
    ig: Ignore,
    st: Settings,
    sort: Option<bool>,
)
    ensures
        match spec_walk(src_entries, i, rel, idx_entries, ig, st, sort) {
            Ok(acc) => acc.total <= entries_weight(src_entries, i),
            Err(_) => true,
        },
    decreases src_entries, 1int, i,
{
    if 0 < i <= src_entries.len() {
        lemma_walk_total(src_entries, i - 1, rel, idx_entries, ig, st, sort);
        lemma_step_bytes(src_entries[i - 1], rel, idx_entries, ig, st, sort);
    }
}

proof fn lemma_step_bytes(
    entry: SourceEntry,
    rel: Seq<Seq<u8>>,
    idx_entries: Seq<IndexEntry>,
    ig: Ignore,
    st: Settings,
    sort: Option<bool>,
)
    ensures
        match spec_step(entry, rel, idx_entries, ig, st, sort) {
            Ok(stp) => stp.bytes <= src_weight(entry.node),
            Err(_) => true,
        },
    decreases entry, 2int, 0int,
{
    match entry.node {
        SourceNode::Dir(children) => {
            let e_path = rel.push(entry.name@);
            let prev = idx_find(idx_entries, entry.name@, 0);
            let child_idx = match prev {
                Some(p) => Some(p.node),
                None => None,
            };
            lemma_rec_total(children@, e_path, child_idx, ig, st, sort);
        },
        _ => {},
    }
}

// ---------------------------------------------------------------------------
// Executable helpers of the diff.
// ---------------------------------------------------------------------------

/// The shapes of a list of addition batches.
pub open spec fn adds_views(s: Seq<(u64, Vec<IndexChange>)>) -> Seq<(nat, Seq<ChangeV>)> {
    Seq::new(s.len(), |i: int| (s[i].0 as nat, change_views(s[i].1@)))
}

/// The names a list of name strings holds.
pub open spec fn seen_set(s: Seq<Vec<u8>>) -> Set<Seq<u8>> {
    Set::new(|n: Seq<u8>| exists|i: int| 0 <= i < s.len() && s[i]@ == n)
}

/// Finds the first index entry with this name.
fn find_idx(entries: &Vec<IndexEntry>, name: &Vec<u8>) -> (r: Option<usize>)
    ensures
        match r {
            Some(i) => i < entries@.len() && idx_find(entries@, name@, 0) == Some(entries@[i as int]),
            None => idx_find(entries@, name@, 0) is None,
        },
{
    let mut i: usize = 0;
    while i < entries.len()
        invariant
            0 <= i <= entries@.len(),
            idx_find(entries@, name@, 0) == idx_find(entries@, name@, i as int),
        decreases entries@.len() - i,
    {
        if crate::text::eq_bytes(&entries[i].name, name) {
            return Some(i);
        }
        i = i + 1;
    }
    None
}

/// Finds the first index entry whose file type is unknown.
fn find_unknown_kind(entries: &Vec<IndexEntry>) -> (r: Option<usize>)
    ensures
        match r {
            Some(i) => i < entries@.len() && first_unknown_kind(entries@, 0) == Some(i as int),
            None => first_unknown_kind(entries@, 0) is None,
        },
{
    let mut i: usize = 0;
    while i < entries.len()
        invariant
            0 <= i <= entries@.len(),
            first_unknown_kind(entries@, 0) == first_unknown_kind(entries@, i as int),
        decreases entries@.len() - i,
    {
        if entries[i].kind_dir.is_none() {
            return Some(i);
        }
        i = i + 1;
    }
    None
}

/// Whether this name was marked seen.
fn name_seen(seen: &Vec<Vec<u8>>, name: &Vec<u8>) -> (r: bool)
    ensures
        r == seen_set(seen@).contains(name@),
{
    let mut i: usize = 0;
    while i < seen.len()
        invariant
            0 <= i <= seen@.len(),
            forall|j: int| 0 <= j < i ==> seen@[j]@ != name@,
        decreases seen@.len() - i,
    {
        if crate::text::eq_bytes(&seen[i], name) {
            return true;
        }
        i = i + 1;
    }
    false
}

/// The removals for the index entries never seen in the source.
fn leftover_removals(
    idx_entries: &Vec<IndexEntry>,
    rel_path: &Vec<Vec<u8>>,
    seen: &Vec<Vec<u8>>,
) -> (r: Vec<IndexChange>)
    ensures
        change_views(r@) == spec_leftover_removals(
            idx_entries@,
            idx_entries@.len() as int,
            crate::text::views_of(rel_path@),
            seen_set(seen@),
        ),
{
    let ghost rel = crate::text::views_of(rel_path@);
    let mut out: Vec<IndexChange> = Vec::new();
    proof {
        assert(change_views(out@) =~= spec_leftover_removals(idx_entries@, 0, rel, seen_set(seen@)));
    }
    let mut i: usize = 0;
    while i < idx_entries.len()
        invariant
            0 <= i <= idx_entries@.len(),
            rel == crate::text::views_of(rel_path@),
            change_views(out@) == spec_leftover_removals(
                idx_entries@,
                i as int,
                rel,
                seen_set(seen@),
            ),
        decreases idx_entries@.len() - i,
    {
        let entry = &idx_entries[i];
        let ghost old_views = change_views(out@);
        if !name_seen(seen, &entry.name) {
            let p = crate::paths::path_push(rel_path, &entry.name);
            let is_dir = match entry.kind_dir {
                Some(d) => d,
                None => false,
            };
            let c = if is_dir {
                IndexChange::RemoveDir(p)
            } else {
                IndexChange::RemoveFile(p)
            };
            let ghost cv = c@;
            out.push(c);
            proof {
                assert(change_views(out@) =~= old_views + seq![cv]);
            }
        }
        i = i + 1;
    }
    out
}

/// Inserts one addition batch into an ordered list, behind every batch that
/// may stand before it.
proof fn lemma_insert_add_at(
    s: Seq<(nat, Seq<ChangeV>)>,
    x: (nat, Seq<ChangeV>),
    largest: bool,
    p: int,
)
    requires
        0 <= p <= s.len(),
        p > 0 ==> sort_le(s[p - 1], x, largest),
        forall|j: int| p <= j < s.len() ==> !sort_le(#[trigger] s[j], x, largest),
    ensures
        spec_insert_add(s, x, largest) == s.take(p) + seq![x] + s.skip(p),
    decreases s.len(),
{
    if s.len() == 0 {
        assert(spec_insert_add(s, x, largest) =~= s.take(p) + seq![x] + s.skip(p));
    } else if sort_le(s.last(), x, largest) {
        assert(p == s.len());
        assert(spec_insert_add(s, x, largest) =~= s.take(p) + seq![x] + s.skip(p));
    } else {
        assert(p < s.len());
        let dl = s.drop_last();
        assert forall|j: int| p <= j < dl.len() implies !sort_le(#[trigger] dl[j], x, largest) by {
            assert(dl[j] == s[j]);
        }
        assert(p > 0 ==> sort_le(dl[p - 1], x, largest)) by {
            if p > 0 {
                assert(dl[p - 1] == s[p - 1]);
            }
        }
        lemma_insert_add_at(dl, x, largest, p);
        assert(spec_insert_add(s, x, largest) == (dl.take(p) + seq![x] + dl.skip(p)).push(s.last()));
        assert((dl.take(p) + seq![x] + dl.skip(p)).push(s.last()) =~= s.take(p) + seq![x] + s.skip(
            p,
        ));
    }
}

/// A failing walk prefix decides the whole walk.
proof fn lemma_walk_err(
    src_entries: Seq<SourceEntry>,
    i: int,
    j: int,
    rel: Seq<Seq<u8>>,
    idx_entries: Seq<IndexEntry>,
    ig: Ignore,
    st: Settings,
    sort: Option<bool>,
)
    requires
        0 <= i <= j <= src_entries.len(),
        spec_walk(src_entries, i, rel, idx_entries, ig, st, sort) is Err,
    ensures
        spec_walk(src_entries, j, rel, idx_entries, ig, st, sort) == spec_walk(
            src_entries,
            i,
            rel,
            idx_entries,
            ig,
            st,
            sort,
        ),
    decreases j - i,
{
    if i < j {
        assert(spec_walk(src_entries, i + 1, rel, idx_entries, ig, st, sort) == spec_walk(
            src_entries,
            i,
            rel,
            idx_entries,
            ig,
            st,
            sort,
        ));
        lemma_walk_err(src_entries, i + 1, j, rel, idx_entries, ig, st, sort);
    }
}

/// Stably orders the addition batches by byte size.
fn sort_adds(s: Vec<(u64, Vec<IndexChange>)>, largest: bool) -> (r: Vec<(u64, Vec<IndexChange>)>)
    ensures
        adds_views(r@) == spec_sort_adds(adds_views(s@), largest),
{
    let ghost orig = adds_views(s@);
    let mut rest = s;
    let mut out: Vec<(u64, Vec<IndexChange>)> = Vec::new();
    proof {
        assert(adds_views(out@) =~= spec_sort_adds(orig.take(0), largest));
        assert(adds_views(rest@) =~= orig.skip(0));
    }
    while rest.len() > 0
        invariant
            adds_views(out@) == spec_sort_adds(
                orig.take(orig.len() - rest@.len()),
                largest,
            ),
            adds_views(rest@) == orig.skip(orig.len() - rest@.len()),
            rest@.len() <= orig.len(),
        decreases rest@.len(),
    {
        let ghost k = orig.len() - rest@.len();
        let ghost old_rest = rest@;
        let x = rest.remove(0);
        let ghost xv = (x.0 as nat, change_views(x.1@));
        proof {
            assert(x == old_rest[0]);
            assert(adds_views(old_rest)[0] == orig.skip(k)[0]);
            assert(xv == orig[k]);
            assert forall|j: int| 0 <= j < rest@.len() implies adds_views(rest@)[j] == orig.skip(
                k + 1,
            )[j] by {
                assert(rest@[j] == old_rest[j + 1]);
                assert(adds_views(old_rest)[j + 1] == orig.skip(k)[j + 1]);
            }
            assert(adds_views(rest@) =~= orig.skip(k + 1));
        }
        // find where the batch belongs, scanning from the right
        let mut p: usize = out.len();
        while p > 0 && ((largest && out[p - 1].0 < x.0) || (!largest && out[p - 1].0 > x.0))
            invariant
                0 <= p <= out@.len(),
                xv == (x.0 as nat, change_views(x.1@)),
                forall|j: int|
                    p <= j < out@.len() ==> !sort_le(#[trigger] adds_views(out@)[j], xv, largest),
            decreases p,
        {
            proof {
                assert(adds_views(out@)[p - 1] == (out@[p - 1].0 as nat, change_views(
                    out@[p - 1].1@,
                )));
                assert(!sort_le(adds_views(out@)[p - 1], xv, largest));
            }
            p = p - 1;
        }
        let ghost old_av = adds_views(out@);
        proof {
            lemma_insert_add_at(old_av, xv, largest, p as int);
        }
        out.insert(p, x);
        proof {
            assert(adds_views(out@) =~= old_av.take(p as int) + seq![xv] + old_av.skip(p as int));
            assert(orig.take(k + 1).drop_last() =~= orig.take(k));
            assert(orig.take(k + 1).last() == orig[k]);
            assert(adds_views(out@) == spec_sort_adds(orig.take(k + 1), largest));
        }
    }
    proof {
        assert(orig.take(orig.len() as int) =~= orig);
    }
    out
}

/// What one step of the walk produced.
struct StepOut {
    skip: bool,
    bytes: u64,
    removals: Vec<IndexChange>,
    adds: Vec<(u64, Vec<IndexChange>)>,
}

spec fn step_out_view(s: StepOut) -> StepV {
    StepV {
        skip: s.skip,
        bytes: s.bytes as nat,
        removals: change_views(s.removals@),
        adds: adds_views(s.adds@),
    }
}

/// The index node an optional reference stands for.
pub open spec fn idx_val(idx: Option<&IndexNode>) -> Option<IndexNode> {
    match idx {
        Some(n) => Some(*n),
        None => None,
    }
}

/// Processes one source entry of a directory.
#[verifier::rlimit(100)]
fn diff_step(
    entry: &SourceEntry,
    rel_path: &Vec<Vec<u8>>,
    idx_entries: &Vec<IndexEntry>,
    ignore: &Ignore,
    settings: &Settings,
    sort: Option<bool>,
) -> (r: Result<StepOut, DiffError>)
    requires
        src_weight(entry.node) <= u64::MAX,
    ensures
        match r {
            Ok(s) => spec_step(
                *entry,
                crate::text::views_of(rel_path@),
                idx_entries@,
                *ignore,
                *settings,
                sort,
            ) == Ok::<StepV, DiffErrorV>(step_out_view(s)),
            Err(e) => spec_step(
                *entry,
                crate::text::views_of(rel_path@),
                idx_entries@,
                *ignore,
                *settings,
                sort,
            ) == Err::<StepV, DiffErrorV>(e@),
        },
    decreases *entry, 2int, 0int,
{
    let ghost rel = crate::text::views_of(rel_path@);
    let ghost spec_path = rel.push(entry.name@);
    let e_path = crate::paths::path_push(rel_path, &entry.name);
    let is_dir_o: Option<bool> = match &entry.node {
        SourceNode::Dir(_) => Some(true),
        SourceNode::DirFailed(_) => Some(true),
        SourceNode::File(_) => Some(false),
        SourceNode::Symlink(_) => Some(false),
        SourceNode::Unreadable(_) => None,
    };
    let fs_e = FsEntry { path: crate::paths::clone_path(&e_path), is_directory: is_dir_o };
    proof {
        assert(fs_e@ == (FsEntryV { path: spec_path, is_directory: node_is_dir(entry.node) }));
    }
    if ignore.matches_or_default(&fs_e) {
        let out = StepOut { skip: true, bytes: 0, removals: Vec::new(), adds: Vec::new() };
        proof {
            assert(change_views(out.removals@) =~= Seq::<ChangeV>::empty());
            assert(adds_views(out.adds@) =~= Seq::<(nat, Seq<ChangeV>)>::empty());
            assert(step_out_view(out) == step_skip());
        }
        return Ok(out);
    }
    let previ = find_idx(idx_entries, &entry.name);
    let ghost prev = idx_find(idx_entries@, entry.name@, 0);
    let prev_is_file: bool = match previ {
        Some(i) => match idx_entries[i].kind_dir {
            Some(d) => !d,
            None => false,
        },
        None => false,
    };
    let prev_is_dir: bool = match previ {
        Some(i) => match idx_entries[i].kind_dir {
            Some(d) => d,
            None => false,
        },
        None => false,
    };
    let old_is_symlink: bool = match previ {
        Some(i) => matches!(&idx_entries[i].node, IndexNode::Symlink(_)),
        None => false,
    };
    match &entry.node {
        SourceNode::Unreadable(d) => {
            Err(
                DiffError {
                    op: DiffOp::GettingMetadata,
                    path: e_path,
                    detail: crate::paths::clone_bytes(d),
                },
            )
        },
        SourceNode::DirFailed(d) => {
            Err(
                DiffError {
                    op: DiffOp::GettingEntries,
                    path: e_path,
                    detail: crate::paths::clone_bytes(d),
                },
            )
        },
        SourceNode::Dir(children) => {
            let mut removals: Vec<IndexChange> = Vec::new();
            if prev_is_file {
                removals.push(IndexChange::RemoveFile(crate::paths::clone_path(&e_path)));
            }
            proof {
                if prev_is_file {
                    assert(change_views(removals@) =~= seq![ChangeV::RemoveFile(spec_path)]);
                } else {
                    assert(change_views(removals@) =~= Seq::<ChangeV>::empty());
                }
            }
            let child_idx: Option<&IndexNode> = match previ {
                Some(i) => Some(&idx_entries[i].node),
                None => None,
            };
            proof {
                assert(entries_weight(children@, children@.len() as int) <= u64::MAX) by {
                    assert(src_weight(entry.node) == entries_weight(
                        children@,
                        children@.len() as int,
                    ));
                }
            }
            match rec(children, &e_path, child_idx, ignore, settings, sort) {
                Err(e) => Err(e),
                Ok(None) => {
                    let out = StepOut { skip: false, bytes: 0, removals, adds: Vec::new() };
                    proof {
                        assert(adds_views(out.adds@) =~= Seq::<(nat, Seq<ChangeV>)>::empty());
                    }
                    Ok(out)
                },
                Ok(Some((b, chs))) => {
                    let ghost chv = change_views(chs@);
                    let mut adds: Vec<(u64, Vec<IndexChange>)> = Vec::new();
                    adds.push((b, chs));
                    let out = StepOut { skip: false, bytes: b, removals, adds };
                    proof {
                        assert(adds_views(out.adds@) =~= seq![(b as nat, chv)]);
                    }
                    Ok(out)
                },
            }
        },
        SourceNode::Symlink(t_opt) => {
            if old_is_symlink {
                match t_opt {
                    None => Err(
                        DiffError { op: DiffOp::ReadingLink, path: e_path, detail: Vec::new() },
                    ),
                    Some(t) => {
                        let old_t: &Option<Vec<u8>> = match previ {
                            Some(i) => match &idx_entries[i].node {
                                IndexNode::Symlink(o) => o,
                                _ => &None,
                            },
                            None => &None,
                        };
                        match old_t {
                            None => Err(
                                DiffError {
                                    op: DiffOp::ReadingIndexLink,
                                    path: e_path,
                                    detail: Vec::new(),
                                },
                            ),
                            Some(o) => {
                                if !crate::text::eq_bytes(t, o) {
                                    let mut adds: Vec<(u64, Vec<IndexChange>)> = Vec::new();
                                    let mut batch: Vec<IndexChange> = Vec::new();
                                    batch.push(
                                        IndexChange::AddSymlink(
                                            e_path,
                                            crate::paths::clone_bytes(t),
                                        ),
                                    );
                                    proof {
                                        assert(change_views(batch@) =~= seq![
                                            ChangeV::AddSymlink(spec_path, t@),
                                        ]);
                                    }
                                    let ghost bv = change_views(batch@);
                                    adds.push((0, batch));
                                    let out = StepOut {
                                        skip: false,
                                        bytes: 0,
                                        removals: Vec::new(),
                                        adds,
                                    };
                                    proof {
                                        assert(change_views(out.removals@) =~= Seq::<
                                            ChangeV,
                                        >::empty());
                                        assert(adds_views(out.adds@) =~= seq![(0nat, bv)]);
                                    }
                                    Ok(out)
                                } else {
                                    let out = StepOut {
                                        skip: false,
                                        bytes: 0,
                                        removals: Vec::new(),
                                        adds: Vec::new(),
                                    };
                                    proof {
                                        assert(change_views(out.removals@) =~= Seq::<
                                            ChangeV,
                                        >::empty());
                                        assert(adds_views(out.adds@) =~= Seq::<(
                                            nat,
                                            Seq<ChangeV>,
                                        )>::empty());
                                    }
                                    Ok(out)
                                }
                            },
                        }
                    },
                }
            } else if prev_is_dir {
                Err(DiffError { op: DiffOp::DirBecameSymlink, path: e_path, detail: Vec::new() })
            } else {
                match t_opt {
                    None => Err(
                        DiffError { op: DiffOp::ReadingLink, path: e_path, detail: Vec::new() },
                    ),
                    Some(t) => {
                        let mut removals: Vec<IndexChange> = Vec::new();
                        if prev_is_file {
                            removals.push(
                                IndexChange::RemoveFile(crate::paths::clone_path(&e_path)),
                            );
                        }
                        proof {
                            if prev_is_file {
                                assert(change_views(removals@) =~= seq![
                                    ChangeV::RemoveFile(spec_path),
                                ]);
                            } else {
                                assert(change_views(removals@) =~= Seq::<ChangeV>::empty());
                            }
                        }
                        let mut adds: Vec<(u64, Vec<IndexChange>)> = Vec::new();
                        let mut batch: Vec<IndexChange> = Vec::new();
                        batch.push(IndexChange::AddSymlink(e_path, crate::paths::clone_bytes(t)));
                        proof {
                            assert(change_views(batch@) =~= seq![
                                ChangeV::AddSymlink(spec_path, t@),
                            ]);
                        }
                        let ghost bv = change_views(batch@);
                        adds.push((0, batch));
                        let out = StepOut { skip: false, bytes: 0, removals, adds };
                        proof {
                            assert(adds_views(out.adds@) =~= seq![(0nat, bv)]);
                        }
                        Ok(out)
                    },
                }
            }
        },
        SourceNode::File(meta) => {
            let mut removals: Vec<IndexChange> = Vec::new();
            if prev_is_dir {
                removals.push(IndexChange::RemoveDir(crate::paths::clone_path(&e_path)));
            }
            if old_is_symlink {
                removals.push(IndexChange::RemoveFile(crate::paths::clone_path(&e_path)));
            }
            proof {
                let spec_removals: Seq<ChangeV> = (if prev_is_dir {
                    seq![ChangeV::RemoveDir(spec_path)]
                } else {
                    seq![]
                }) + (if old_is_symlink {
                    seq![ChangeV::RemoveFile(spec_path)]
                } else {
                    seq![]
                });
                assert(change_views(removals@) =~= spec_removals);
            }
            let keep: bool = match previ {
                Some(i) => match &idx_entries[i].node {
                    IndexNode::File(Some(c)) => match IndexFile::load(c) {
                        Ok(oldif) => !meta.should_be_updated(&oldif, settings),
                        Err(_) => false,
                    },
                    _ => false,
                },
                None => false,
            };
            if keep {
                let out = StepOut { skip: false, bytes: 0, removals, adds: Vec::new() };
                proof {
                    assert(adds_views(out.adds@) =~= Seq::<(nat, Seq<ChangeV>)>::empty());
                }
                Ok(out)
            } else {
                let mut adds: Vec<(u64, Vec<IndexChange>)> = Vec::new();
                let mut batch: Vec<IndexChange> = Vec::new();
                batch.push(IndexChange::AddFile(e_path, *meta));
                proof {
                    assert(change_views(batch@) =~= seq![ChangeV::AddFile(spec_path, *meta)]);
                }
                let ghost bv = change_views(batch@);
                adds.push((meta.size, batch));
                let out = StepOut { skip: false, bytes: meta.size, removals, adds };
                proof {
                    assert(adds_views(out.adds@) =~= seq![(meta.size as nat, bv)]);
                }
                Ok(out)
            }
        },
    }
}

/// Diffs one directory of the source against the index.
#[verifier::rlimit(100)]
fn rec(
    src_entries: &Vec<SourceEntry>,
    rel_path: &Vec<Vec<u8>>,
    idx: Option<&IndexNode>,
    ignore: &Ignore,
    settings: &Settings,
    sort: Option<bool>,
) -> (r: Result<Option<(u64, Vec<IndexChange>)>, DiffError>)
    requires
        entries_weight(src_entries@, src_entries@.len() as int) <= u64::MAX,
    ensures
        ({
            let s = spec_rec(
                src_entries@,
                crate::text::views_of(rel_path@),
                idx_val(idx),
                *ignore,
                *settings,
                sort,
            );
            match r {
                Ok(None) => s == Ok::<Option<(nat, Seq<ChangeV>)>, DiffErrorV>(None),
                Ok(Some((t, chs))) => s == Ok::<Option<(nat, Seq<ChangeV>)>, DiffErrorV>(
                    Some((t as nat, change_views(chs@))),
                ),
                Err(e) => s == Err::<Option<(nat, Seq<ChangeV>)>, DiffErrorV>(e@),
            }
        }),
    decreases *src_entries, 2int, 0int,
{
    let ghost rel = crate::text::views_of(rel_path@);
    let ghost gidx = idx_val(idx);
    let empty_entries: Vec<IndexEntry> = Vec::new();
    let mut dir_is_new = true;
    let mut idx_entries: &Vec<IndexEntry> = &empty_entries;
    match idx {
        Some(IndexNode::Dir(Some(es))) => {
            dir_is_new = false;
            idx_entries = es;
        },
        _ => {},
    }
    proof {
        assert(dir_is_new == (idx_listing(gidx) is None));
        assert(idx_entries@ == (match idx_listing(gidx) {
            Some(es) => es,
            None => Seq::<IndexEntry>::empty(),
        }));
    }
    // an index entry whose kind is unknown cannot be classified
    match find_unknown_kind(idx_entries) {
        Some(k) => {
            return Err(
                DiffError {
                    op: DiffOp::GettingFileType,
                    path: crate::paths::path_push(rel_path, &idx_entries[k].name),
                    detail: Vec::new(),
                },
            );
        },
        None => {},
    }
    // walk the source entries
    let mut total: u64 = 0;
    let mut removals: Vec<IndexChange> = Vec::new();
    let mut adds: Vec<(u64, Vec<IndexChange>)> = Vec::new();
    let mut seen: Vec<Vec<u8>> = Vec::new();
    let mut i: usize = 0;
    proof {
        assert(change_views(removals@) =~= Seq::<ChangeV>::empty());
        assert(adds_views(adds@) =~= Seq::<(nat, Seq<ChangeV>)>::empty());
        assert(seen_set(seen@) =~= Set::<Seq<u8>>::empty());
    }
    while i < src_entries.len()
        invariant
            0 <= i <= src_entries@.len(),
            rel == crate::text::views_of(rel_path@),
            entries_weight(src_entries@, src_entries@.len() as int) <= u64::MAX,
            gidx == idx_val(idx),
            dir_is_new == (idx_listing(gidx) is None),
            idx_entries@ == (match idx_listing(gidx) {
                Some(es) => es,
                None => Seq::<IndexEntry>::empty(),
            }),
            first_unknown_kind(idx_entries@, 0) is None,
            spec_walk(src_entries@, i as int, rel, idx_entries@, *ignore, *settings, sort)
                == Ok::<WalkV, DiffErrorV>(
                WalkV {
                    total: total as nat,
                    removals: change_views(removals@),
                    adds: adds_views(adds@),
                    seen: seen_set(seen@),
                },
            ),
        decreases src_entries@.len() - i,
    {
        proof {
            lemma_walk_total(src_entries@, i as int, rel, idx_entries@, *ignore, *settings, sort);
            lemma_step_bytes(src_entries@[i as int], rel, idx_entries@, *ignore, *settings, sort);
            lemma_entries_weight_mono(src_entries@, i + 1, src_entries@.len() as int);
            assert(src_weight(src_entries@[i as int].node) <= u64::MAX) by {
                lemma_entries_weight_elem(src_entries@, i as int);
            }
        }
        match diff_step(&src_entries[i], rel_path, idx_entries, ignore, settings, sort) {
            Err(e) => {
                proof {
                    assert(spec_walk(
                        src_entries@,
                        i + 1,
                        rel,
                        idx_entries@,
                        *ignore,
                        *settings,
                        sort,
                    ) == Err::<WalkV, DiffErrorV>(e@));
                    lemma_walk_err(
                        src_entries@,
                        i + 1,
                        src_entries@.len() as int,
                        rel,
                        idx_entries@,
                        *ignore,
                        *settings,
                        sort,
                    );
                }
                return Err(e);
            },
            Ok(mut stp) => {
                let ghost stv = step_out_view(stp);
                let ghost old_removals = change_views(removals@);
                let ghost old_adds = adds_views(adds@);
                let ghost old_seen = seen_set(seen@);
                total = total + stp.bytes;
                removals.append(&mut stp.removals);
                adds.append(&mut stp.adds);
                proof {
                    assert(change_views(removals@) =~= old_removals + stv.removals);
                    assert(adds_views(adds@) =~= old_adds + stv.adds);
                }
                if !stp.skip {
                    let ghost old_seen_seq = seen@;
                    let nm = crate::paths::clone_bytes(&src_entries[i].name);
                    let ghost nmv = nm@;
                    seen.push(nm);
                    proof {
                        assert forall|n: Seq<u8>| #![auto]
                            seen_set(seen@).contains(n) <==> old_seen.insert(nmv).contains(
                                n,
                            ) by {
                            if seen_set(seen@).contains(n) {
                                let j = choose|j: int|
                                    0 <= j < seen@.len() && seen@[j]@ == n;
                                if j < old_seen_seq.len() {
                                    assert(old_seen_seq[j]@ == n);
                                }
                            } else {
                                if old_seen.contains(n) {
                                    let j = choose|j: int|
                                        0 <= j < old_seen_seq.len() && old_seen_seq[j]@ == n;
                                    assert(seen@[j]@ == n);
                                }
                                if n == nmv {
                                    assert(seen@[seen@.len() - 1]@ == n);
                                }
                            }
                        }
                        assert(seen_set(seen@) =~= old_seen.insert(nmv));
                        assert(nmv == src_entries@[i as int].name@);
                    }
                } else {
                    proof {
                        assert(stv == step_skip());
                    }
                }
                proof {
                    assert(spec_walk(
                        src_entries@,
                        i + 1,
                        rel,
                        idx_entries@,
                        *ignore,
                        *settings,
                        sort,
                    ) == Ok::<WalkV, DiffErrorV>(
                        WalkV {
                            total: total as nat,
                            removals: change_views(removals@),
                            adds: adds_views(adds@),
                            seen: seen_set(seen@),
                        },
                    ));
                }
                i = i + 1;
            },
        }
    }
    let ghost acc = WalkV {
        total: total as nat,
        removals: change_views(removals@),
        adds: adds_views(adds@),
        seen: seen_set(seen@),
    };
    // removals for index entries the walk never saw
    let mut lo = leftover_removals(idx_entries, rel_path, &seen);
    let ghost old_removals = change_views(removals@);
    let ghost lo_views = change_views(lo@);
    removals.append(&mut lo);
    proof {
        assert(change_views(removals@) =~= old_removals + lo_views);
    }
    // order the additions as asked
    let adds2 = match sort {
        Some(largest) => sort_adds(adds, largest),
        None => adds,
    };
    let ghost spec_removals_all = acc.removals + spec_leftover_removals(
        idx_entries@,
        idx_entries@.len() as int,
        rel,
        acc.seen,
    );
    let ghost spec_adds_all = match sort {
        Some(largest) => spec_sort_adds(acc.adds, largest),
        None => acc.adds,
    };
    proof {
        assert(change_views(removals@) == spec_removals_all);
        assert(adds_views(adds2@) == spec_adds_all);
    }
    if !dir_is_new && removals.len() == 0 && adds2.len() == 0 {
        return Ok(None);
    }
    // assemble: the directory's own marker, its removals, then the additions
    let mut changes: Vec<IndexChange> = Vec::new();
    changes.push(IndexChange::AddDir(crate::paths::clone_path(rel_path), dir_is_new, total));
    proof {
        assert(change_views(changes@) =~= seq![ChangeV::AddDir(rel, dir_is_new, total)]);
    }
    let ghost head = change_views(changes@);
    changes.append(&mut removals);
    proof {
        assert(change_views(changes@) =~= head + spec_removals_all);
    }
    let ghost with_removals = change_views(changes@);
    let mut rest = adds2;
    proof {
        assert(spec_adds_all.take(0) =~= Seq::<(nat, Seq<ChangeV>)>::empty());
        assert(flatten_adds(spec_adds_all.take(0)) =~= Seq::<ChangeV>::empty());
        assert(change_views(changes@) =~= with_removals + flatten_adds(spec_adds_all.take(0)));
        assert(adds_views(rest@) =~= spec_adds_all.skip(0));
    }
    while rest.len() > 0
        invariant
            rest@.len() <= spec_adds_all.len(),
            change_views(changes@) == with_removals + flatten_adds(
                spec_adds_all.take(spec_adds_all.len() - rest@.len()),
            ),
            adds_views(rest@) == spec_adds_all.skip(spec_adds_all.len() - rest@.len()),
        decreases rest@.len(),
    {
        let ghost k = spec_adds_all.len() - rest@.len();
        let ghost old_rest = rest@;
        let ghost old_changes = change_views(changes@);
        let x = rest.remove(0);
        let mut batch = x.1;
        let ghost batch_views = change_views(batch@);
        proof {
            assert(x == old_rest[0]);
            assert(adds_views(old_rest)[0] == spec_adds_all.skip(k)[0]);
            assert(batch_views == spec_adds_all[k].1);
            assert forall|j: int| 0 <= j < rest@.len() implies adds_views(rest@)[j]
                == spec_adds_all.skip(k + 1)[j] by {
                assert(rest@[j] == old_rest[j + 1]);
                assert(adds_views(old_rest)[j + 1] == spec_adds_all.skip(k)[j + 1]);
            }
            assert(adds_views(rest@) =~= spec_adds_all.skip(k + 1));
        }
        changes.append(&mut batch);
        proof {
            assert(change_views(changes@) =~= old_changes + batch_views);
            assert(spec_adds_all.take(k + 1).drop_last() =~= spec_adds_all.take(k));
            assert(spec_adds_all.take(k + 1).last() == spec_adds_all[k]);
            assert(flatten_adds(spec_adds_all.take(k + 1)) == flatten_adds(spec_adds_all.take(k))
                + spec_adds_all[k].1);
            assert(change_views(changes@) =~= with_removals + flatten_adds(
                spec_adds_all.take(k + 1),
            ));
        }
    }
    proof {
        assert(spec_adds_all.take(spec_adds_all.len() as int) =~= spec_adds_all);
        assert(change_views(changes@) =~= seq![ChangeV::AddDir(rel, dir_is_new, total)]
            + spec_removals_all + flatten_adds(spec_adds_all));
        assert(total as u64 == (acc.total as u64));
    }
    Ok(Some((total, changes)))
}

/// A directory diff with changes always leads with the directory's own
/// marker.
pub proof fn lemma_rec_some_head(
    src_entries: Seq<SourceEntry>,
    rel: Seq<Seq<u8>>,
    idx: Option<IndexNode>,
    ig: Ignore,
    st: Settings,
    sort: Option<bool>,
)
    ensures
        match spec_rec(src_entries, rel, idx, ig, st, sort) {
            Ok(Some((t, chs))) => chs.len() >= 1 && chs[0] == ChangeV::AddDir(
                rel,
                idx_listing(idx) is None,
                t as u64,
            ),
            _ => true,
        },
{
    let listing = idx_listing(idx);
    let idx_entries = match listing {
        Some(es) => es,
        None => seq![],
    };
    match spec_walk(src_entries, src_entries.len() as int, rel, idx_entries, ig, st, sort) {
        Ok(acc) => {},
        Err(_) => {},
    }
}

/// Whether a rule is the empty `InDir` exclusion of exactly this path.
pub open spec fn is_exclusion_of(s: Specifier, p: Seq<Seq<u8>>) -> bool {
    match s {
        Specifier::InDir { dir, inner } => match dir {
            Match::Eq(v) => crate::text::views_of(v@) == p && inner.0@.len() == 0,
            _ => false,
        },
        _ => false,
    }
}

/// How the rules handed to the walk relate to the caller's rules: the same
/// rules, then an exclusion for the index where it lies inside the source,
/// then one for the target where it does.
pub open spec fn excluded_ignore(
    ig2: Ignore,
    ig: Ignore,
    irel: Option<Seq<Seq<u8>>>,
    trel: Option<Seq<Seq<u8>>>,
) -> bool {
    let n = ig.0@.len() as int;
    &&& ig2.0@.len() == n + (if irel is Some {
        1int
    } else {
        0
    }) + (if trel is Some {
        1int
    } else {
        0
    })
    &&& ig2.0@.subrange(0, n) == ig.0@
    &&& match irel {
        Some(p) => is_exclusion_of(ig2.0@[n], p),
        None => true,
    }
    &&& match trel {
        Some(q) => is_exclusion_of(ig2.0@[ig2.0@.len() - 1], q),
        None => true,
    }
}

/// What the whole diff yields: the add-bytes and the ordered changes, or a
/// fatal failure; a source root that is no listable directory is fatal.
pub open spec fn spec_perform(
    source: SourceNode,
    index: IndexNode,
    ig2: Ignore,
    st: Settings,
    sort: Option<bool>,
) -> Result<(nat, Seq<ChangeV>), DiffErrorV> {
    match source {
        SourceNode::Dir(es) => match spec_rec(es@, seq![], Some(index), ig2, st, sort) {
            Err(e) => Err(e),
            Ok(None) => Ok((0, seq![])),
            // the root's own marker carries no information: the walk starts
            // from an existing root, and the change list hands out what lies
            // under it
            Ok(Some((t, chs))) => Ok((t, chs.skip(1))),
        },
        SourceNode::DirFailed(d) => Err(
            DiffErrorV { op: DiffOp::GettingEntries, path: seq![], detail: d@ },
        ),
        _ => Err(DiffErrorV { op: DiffOp::GettingEntries, path: seq![], detail: seq![] }),
    }
}

/// What a finished diff promises: for some rule list that extends the
/// caller's rules with the two exclusions, the result is exactly what the
/// diff of the snapshots yields under those rules.
pub open spec fn perform_post(
    r: Result<(u64, Vec<IndexChange>), DiffError>,
    source: SourceNode,
    index: IndexNode,
    ignore: Ignore,
    irel: Option<Seq<Seq<u8>>>,
    trel: Option<Seq<Seq<u8>>>,
    st: Settings,
    sort: Option<bool>,
) -> bool {
    exists|ig2: Ignore|
        #[trigger] excluded_ignore(ig2, ignore, irel, trel) && spec_perform(
            source,
            index,
            ig2,
            st,
            sort,
        ) == (match r {
            Ok((t, chs)) => Ok::<(nat, Seq<ChangeV>), DiffErrorV>((t as nat, change_views(chs@))),
            Err(e) => Err::<(nat, Seq<ChangeV>), DiffErrorV>(e@),
        })
}

/// Diffs one source root against one index root, with the rules as given.
fn perform_inner(
    source: &SourceNode,
    index: &IndexNode,
    ig2: &Ignore,
    settings: &Settings,
    sort: Option<bool>,
) -> (r: Result<(u64, Vec<IndexChange>), DiffError>)
    requires
        src_weight(*source) <= u64::MAX,
    ensures
        match r {
            Ok((t, chs)) => spec_perform(*source, *index, *ig2, *settings, sort) == Ok::<
                (nat, Seq<ChangeV>),
                DiffErrorV,
            >((t as nat, change_views(chs@))),
            Err(e) => spec_perform(*source, *index, *ig2, *settings, sort) == Err::<
                (nat, Seq<ChangeV>),
                DiffErrorV,
            >(e@),
        },
{
    let root_entries: &Vec<SourceEntry> = match source {
        SourceNode::Dir(es) => es,
        SourceNode::DirFailed(d) => {
            let e = DiffError {
                op: DiffOp::GettingEntries,
                path: Vec::new(),
                detail: crate::paths::clone_bytes(d),
            };
            proof {
                assert(crate::text::views_of(e.path@) =~= Seq::<Seq<u8>>::empty());
            }
            return Err(e);
        },
        _ => {
            let e = DiffError { op: DiffOp::GettingEntries, path: Vec::new(), detail: Vec::new() };
            proof {
                assert(crate::text::views_of(e.path@) =~= Seq::<Seq<u8>>::empty());
                assert(e.detail@ =~= Seq::<u8>::empty());
            }
            return Err(e);
        },
    };
    let root_path: Vec<Vec<u8>> = Vec::new();
    proof {
        assert(crate::text::views_of(root_path@) =~= Seq::<Seq<u8>>::empty());
        assert(src_weight(*source) == entries_weight(root_entries@, root_entries@.len() as int));
    }
    match rec(root_entries, &root_path, Some(index), ig2, settings, sort) {
        Err(e) => Err(e),
        Ok(None) => {
            let out: Vec<IndexChange> = Vec::new();
            proof {
                assert(change_views(out@) =~= Seq::<ChangeV>::empty());
            }
            Ok((0, out))
        },
        Ok(Some((t, chs))) => {
            let ghost whole = change_views(chs@);
            proof {
                lemma_rec_some_head(
                    root_entries@,
                    crate::text::views_of(root_path@),
                    Some(*index),
                    *ig2,
                    *settings,
                    sort,
                );
            }
            let mut rest = chs;
            let _marker = rest.remove(0);
            proof {
                assert forall|j: int| 0 <= j < rest@.len() implies change_views(rest@)[j]
                    == whole.skip(1)[j] by {
                    assert(change_views(rest@)[j] == rest@[j]@);
                }
                assert(change_views(rest@) =~= whole.skip(1));
            }
            Ok((t, rest))
        },
    }
}

pub fn perform_index_diff(
    source: &SourceNode,
    index: &IndexNode,
    index_rel: Option<&Vec<Vec<u8>>>,
    target_rel: Option<&Vec<Vec<u8>>>,
    ignore: Ignore,
    settings: &Settings,
    sort_by_size_largest: Option<bool>,
) -> (r: Result<(u64, Vec<IndexChange>), DiffError>)
    requires
        src_weight(*source) <= u64::MAX,
    ensures
        perform_post(
            r,
            *source,
            *index,
            ignore,
            match index_rel {
                Some(p) => Some(crate::text::views_of(p@)),
                None => None::<Seq<Seq<u8>>>,
            },
            match target_rel {
                Some(p) => Some(crate::text::views_of(p@)),
                None => None::<Seq<Seq<u8>>>,
            },
            *settings,
            sort_by_size_largest,
        ),
{
    let ghost irel = match index_rel {
        Some(p) => Some(crate::text::views_of(p@)),
        None => None::<Seq<Seq<u8>>>,
    };
    let ghost trel = match target_rel {
        Some(p) => Some(crate::text::views_of(p@)),
        None => None::<Seq<Seq<u8>>>,
    };
    let ghost ig0 = ignore;
    let mut ig2 = ignore;
    let ghost orig_specs = ig2.0@;
    match index_rel {
        Some(p) => {
            ig2.0.push(
                Specifier::InDir {
                    dir: Match::Eq(crate::paths::clone_path(p)),
                    inner: Ignore(Vec::new()),
                },
            );
        },
        None => {},
    }
    match target_rel {
        Some(p) => {
            ig2.0.push(
                Specifier::InDir {
                    dir: Match::Eq(crate::paths::clone_path(p)),
                    inner: Ignore(Vec::new()),
                },
            );
        },
        None => {},
    }
    proof {
        assert(ig2.0@.subrange(0, orig_specs.len() as int) =~= orig_specs);
        assert(excluded_ignore(ig2, ig0, irel, trel));
    }
    let r = perform_inner(source, index, &ig2, settings, sort_by_size_largest);
    proof {
        assert(perform_post(
            r,
            *source,
            *index,
            ig0,
            irel,
            trel,
            *settings,
            sort_by_size_largest,
        )) by {
            assert(excluded_ignore(ig2, ig0, irel, trel) && spec_perform(
                *source,
                *index,
                ig2,
                *settings,
                sort_by_size_largest,
            ) == (match r {
                Ok((t, chs)) => Ok::<(nat, Seq<ChangeV>), DiffErrorV>(
                    (t as nat, change_views(chs@)),
                ),
                Err(e) => Err::<(nat, Seq<ChangeV>), DiffErrorV>(e@),
            }));
        }
        assert(ig0 == ignore);
    }
    r
}

} // verus!