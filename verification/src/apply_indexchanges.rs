use crate::indexchanges::{change_views, ChangeV, IndexChange};
use crate::indexfile::IndexFile;
use crate::text::views_of;
use vstd::prelude::*;

verus! {

broadcast use vstd::std_specs::vec::group_vec_axioms;

// ---------------------------------------------------------------------------
// Applying a change list touches the target first and the index only after
// the target-side effect succeeded. The decisions live here; performing the
// effects is the caller's part, and it reports each outcome back.
// ---------------------------------------------------------------------------

pub open spec fn is_symlink_add(c: ChangeV) -> bool {
    c is AddSymlink
}

/// The order changes are applied in: symlink additions move after every
/// other change, each side keeping its relative order.
pub open spec fn spec_reorder(s: Seq<ChangeV>) -> Seq<ChangeV> {
    s.filter(|c: ChangeV| !is_symlink_add(c)) + s.filter(|c: ChangeV| is_symlink_add(c))
}

/// Reorders a change list for applying: every symlink addition moves after
/// every other change; both parts keep their relative order.
pub fn reorder_for_apply(changes: Vec<IndexChange>) -> (r: Vec<IndexChange>)
    ensures
        change_views(r@) == spec_reorder(change_views(changes@)),
{
    broadcast use vstd::seq_lib::group_seq_properties;

    let ghost orig = change_views(changes@);
    let mut rest = changes;
    let mut front: Vec<IndexChange> = Vec::new();
    let mut back: Vec<IndexChange> = Vec::new();
    proof {
        assert(orig.take(0) =~= Seq::<ChangeV>::empty());
        reveal(Seq::filter);
        assert(change_views(front@) =~= orig.take(0).filter(|c: ChangeV| !is_symlink_add(c)));
        assert(change_views(back@) =~= orig.take(0).filter(|c: ChangeV| is_symlink_add(c)));
        assert(change_views(rest@) =~= orig.skip(0));
    }
    while rest.len() > 0
        invariant
            rest@.len() <= orig.len(),
            change_views(front@) == orig.take(orig.len() - rest@.len()).filter(
                |c: ChangeV| !is_symlink_add(c),
            ),
            change_views(back@) == orig.take(orig.len() - rest@.len()).filter(
                |c: ChangeV| is_symlink_add(c),
            ),
            change_views(rest@) == orig.skip(orig.len() - rest@.len()),
        decreases rest@.len(),
    {
        let ghost k = orig.len() - rest@.len();
        let ghost old_rest = rest@;
        let c = rest.remove(0);
        let ghost cv = c@;
        proof {
            assert(c == old_rest[0]);
            assert(change_views(old_rest)[0] == orig.skip(k)[0]);
            assert(cv == orig[k]);
            assert forall|j: int| 0 <= j < rest@.len() implies change_views(rest@)[j] == orig.skip(
                k + 1,
            )[j] by {
                assert(rest@[j] == old_rest[j + 1]);
                assert(change_views(old_rest)[j + 1] == orig.skip(k)[j + 1]);
            }
            assert(change_views(rest@) =~= orig.skip(k + 1));
            assert(orig.take(k + 1) =~= orig.take(k) + seq![cv]);
            reveal_with_fuel(Seq::filter, 3);
            assert(seq![cv].drop_last() =~= Seq::<ChangeV>::empty());
            assert(seq![cv].last() == cv);
            if is_symlink_add(cv) {
                assert(seq![cv].filter(|c: ChangeV| is_symlink_add(c)) =~= seq![cv]);
                assert(seq![cv].filter(|c: ChangeV| !is_symlink_add(c)) =~= Seq::<
                    ChangeV,
                >::empty());
            } else {
                assert(seq![cv].filter(|c: ChangeV| !is_symlink_add(c)) =~= seq![cv]);
                assert(seq![cv].filter(|c: ChangeV| is_symlink_add(c)) =~= Seq::<
                    ChangeV,
                >::empty());
            }
            Seq::filter_distributes_over_add(orig.take(k), seq![cv], |c: ChangeV| !is_symlink_add(c));
            Seq::filter_distributes_over_add(orig.take(k), seq![cv], |c: ChangeV| is_symlink_add(c));
        }
        let ghost old_front = change_views(front@);
        let ghost old_back = change_views(back@);
        if c.is_symlink_add() {
            back.push(c);
            proof {
                assert(change_views(back@) =~= old_back + seq![cv]);
                assert(change_views(front@) =~= old_front + Seq::<ChangeV>::empty());
            }
        } else {
            front.push(c);
            proof {
                assert(change_views(front@) =~= old_front + seq![cv]);
                assert(change_views(back@) =~= old_back + Seq::<ChangeV>::empty());
            }
        }
    }
    proof {
        assert(orig.take(orig.len() as int) =~= orig);
    }
    let ghost front_v = change_views(front@);
    let ghost back_v = change_views(back@);
    let mut out = front;
    let mut back2 = back;
    out.append(&mut back2);
    proof {
        assert forall|j: int| 0 <= j < out@.len() implies change_views(out@)[j] == (front_v
            + back_v)[j] by {
            if j < front_v.len() {
            } else {
            }
        }
        assert(change_views(out@) =~= front_v + back_v);
    }
    out
}

/// After the reordering, no symlink addition stands before any other kind:
/// whatever follows a symlink addition is a symlink addition too.
pub proof fn lemma_symlinks_last(s: Seq<ChangeV>, i: int, j: int)
    requires
        0 <= i < j < spec_reorder(s).len(),
        is_symlink_add(spec_reorder(s)[i]),
    ensures
        is_symlink_add(spec_reorder(s)[j]),
{
    let nonsym = s.filter(|c: ChangeV| !is_symlink_add(c));
    let sym = s.filter(|c: ChangeV| is_symlink_add(c));
    if i < nonsym.len() {
        nonsym.lemma_filter_pred(|c: ChangeV| !is_symlink_add(c), i);
        s.lemma_filter_pred(|c: ChangeV| !is_symlink_add(c), i);
        assert(false);
    } else {
        s.lemma_filter_pred(|c: ChangeV| is_symlink_add(c), j - nonsym.len());
        assert(spec_reorder(s)[j] == sym[j - nonsym.len()]);
    }
}

// ---------------------------------------------------------------------------
// The two effects of one change: what to do on the target, and what to do
// under the index once the target-side effect succeeded.
// ---------------------------------------------------------------------------

/// The target-side effect of one change.
#[derive(Debug, PartialEq, Eq)]
pub enum TargetAction {
    /// create this directory and any missing ancestors
    CreateDirAll(Vec<Vec<u8>>),
    /// copy the file's bytes from the source tree to the target tree
    CopyFile(Vec<Vec<u8>>),
    /// remove anything at the path, then create a symlink to the target text
    CreateSymlink(Vec<Vec<u8>>, Vec<u8>),
    /// remove the file or symlink
    RemoveFile(Vec<Vec<u8>>),
    /// remove the directory with everything under it
    RemoveDirAll(Vec<Vec<u8>>),
    /// nothing: the change needs no target-side work
    Nothing,
}

/// The shape of a target-side effect.
pub ghost enum TargetActionV {
    CreateDirAll(Seq<Seq<u8>>),
    CopyFile(Seq<Seq<u8>>),
    CreateSymlink(Seq<Seq<u8>>, Seq<u8>),
    RemoveFile(Seq<Seq<u8>>),
    RemoveDirAll(Seq<Seq<u8>>),
    Nothing,
}

impl View for TargetAction {
    type V = TargetActionV;

    open spec fn view(&self) -> TargetActionV {
        match self {
            TargetAction::CreateDirAll(p) => TargetActionV::CreateDirAll(views_of(p@)),
            TargetAction::CopyFile(p) => TargetActionV::CopyFile(views_of(p@)),
            TargetAction::CreateSymlink(p, t) => TargetActionV::CreateSymlink(views_of(p@), t@),
            TargetAction::RemoveFile(p) => TargetActionV::RemoveFile(views_of(p@)),
            TargetAction::RemoveDirAll(p) => TargetActionV::RemoveDirAll(views_of(p@)),
            TargetAction::Nothing => TargetActionV::Nothing,
        }
    }
}

/// The target-side effect one change asks for.
pub open spec fn spec_target_action(c: ChangeV) -> TargetActionV {
    match c {
        ChangeV::AddDir(p, is_new, _) => if is_new {
            TargetActionV::CreateDirAll(p)
        } else {
            TargetActionV::Nothing
        },
        ChangeV::AddFile(p, _) => TargetActionV::CopyFile(p),
        ChangeV::AddSymlink(p, t) => TargetActionV::CreateSymlink(p, t),
        ChangeV::RemoveFile(p) => TargetActionV::RemoveFile(p),
        ChangeV::RemoveDir(p) => TargetActionV::RemoveDirAll(p),
    }
}

/// What one change asks of the target tree. With no target configured the
/// caller skips the action and counts it as succeeded.
pub fn target_action(c: &IndexChange) -> (r: TargetAction)
    ensures
        r@ == spec_target_action(c@),
{
    match c {
        IndexChange::AddDir(p, is_new, _) => {
            if *is_new {
                TargetAction::CreateDirAll(crate::paths::clone_path(p))
            } else {
                TargetAction::Nothing
            }
        },
        IndexChange::AddFile(p, _) => TargetAction::CopyFile(crate::paths::clone_path(p)),
        IndexChange::AddSymlink(p, t) => TargetAction::CreateSymlink(
            crate::paths::clone_path(p),
            crate::paths::clone_bytes(t),
        ),
        IndexChange::RemoveFile(p) => TargetAction::RemoveFile(crate::paths::clone_path(p)),
        IndexChange::RemoveDir(p) => TargetAction::RemoveDirAll(crate::paths::clone_path(p)),
    }
}

/// The index-side effect of one change.
#[derive(Debug, PartialEq, Eq)]
pub enum IndexAction {
    /// create this directory and any missing ancestors
    CreateDirAll(Vec<Vec<u8>>),
    /// write exactly these bytes as the record file at the path
    WriteRecord(Vec<Vec<u8>>, Vec<u8>),
    /// remove anything at the path, then create a symlink to the target text
    CreateSymlink(Vec<Vec<u8>>, Vec<u8>),
    /// remove the record file or symlink
    RemoveFile(Vec<Vec<u8>>),
    /// remove the directory with everything under it
    RemoveDirAll(Vec<Vec<u8>>),
    /// nothing: the change needs no index-side work
    Nothing,
}

/// The shape of an index-side effect.
pub ghost enum IndexActionV {
    CreateDirAll(Seq<Seq<u8>>),
    WriteRecord(Seq<Seq<u8>>, Seq<u8>),
    CreateSymlink(Seq<Seq<u8>>, Seq<u8>),
    RemoveFile(Seq<Seq<u8>>),
    RemoveDirAll(Seq<Seq<u8>>),
    Nothing,
}

impl View for IndexAction {
    type V = IndexActionV;

    open spec fn view(&self) -> IndexActionV {
        match self {
            IndexAction::CreateDirAll(p) => IndexActionV::CreateDirAll(views_of(p@)),
            IndexAction::WriteRecord(p, c) => IndexActionV::WriteRecord(views_of(p@), c@),
            IndexAction::CreateSymlink(p, t) => IndexActionV::CreateSymlink(views_of(p@), t@),
            IndexAction::RemoveFile(p) => IndexActionV::RemoveFile(views_of(p@)),
            IndexAction::RemoveDirAll(p) => IndexActionV::RemoveDirAll(views_of(p@)),
            IndexAction::Nothing => IndexActionV::Nothing,
        }
    }
}

/// The index-side effect one change asks for, once the target-side effect
/// succeeded: a record is written as exactly the record's saved text.
pub open spec fn spec_index_action(c: ChangeV) -> IndexActionV {
    match c {
        ChangeV::AddDir(p, is_new, _) => if is_new {
            IndexActionV::CreateDirAll(p)
        } else {
            IndexActionV::Nothing
        },
        ChangeV::AddFile(p, rec) => IndexActionV::WriteRecord(p, rec.repr()),
        ChangeV::AddSymlink(p, t) => IndexActionV::CreateSymlink(p, t),
        ChangeV::RemoveFile(p) => IndexActionV::RemoveFile(p),
        ChangeV::RemoveDir(p) => IndexActionV::RemoveDirAll(p),
    }
}

/// What one change asks of the index tree after its target-side effect
/// succeeded; a failed change leaves the index untouched, so the next diff
/// finds the same change again.
pub fn index_action(c: &IndexChange) -> (r: IndexAction)
    ensures
        r@ == spec_index_action(c@),
{
    match c {
        IndexChange::AddDir(p, is_new, _) => {
            if *is_new {
                IndexAction::CreateDirAll(crate::paths::clone_path(p))
            } else {
                IndexAction::Nothing
            }
        },
        IndexChange::AddFile(p, rec) => IndexAction::WriteRecord(
            crate::paths::clone_path(p),
            rec.save(),
        ),
        IndexChange::AddSymlink(p, t) => IndexAction::CreateSymlink(
            crate::paths::clone_path(p),
            crate::paths::clone_bytes(t),
        ),
        IndexChange::RemoveFile(p) => IndexAction::RemoveFile(crate::paths::clone_path(p)),
        IndexChange::RemoveDir(p) => IndexAction::RemoveDirAll(crate::paths::clone_path(p)),
    }
}

// ---------------------------------------------------------------------------
// Progress of one apply run, for an outside renderer to consume.
// ---------------------------------------------------------------------------

/// Counters of one apply run. `failures` starts at the number of changes
/// and is taken down once for each change whose target-side effect
/// succeeded; what is left when the run ends is the failure count.
pub struct ApplyRun {
    pub changes_total: usize,
    pub changes_done: usize,
    pub failures: usize,
    pub bytes_total: u64,
    pub bytes_done: u64,
}

impl ApplyRun {
    pub fn new(changes_total: usize, bytes_total: u64) -> (r: ApplyRun)
        ensures
            r.changes_total == changes_total,
            r.changes_done == 0,
            r.failures == changes_total,
            r.bytes_total == bytes_total,
            r.bytes_done == 0,
    {
        ApplyRun { changes_total, changes_done: 0, failures: changes_total, bytes_total, bytes_done: 0 }
    }

    /// Records one finished change: whether its target-side effect
    /// succeeded, and how many bytes it moved. The byte counter saturates;
    /// it only feeds a display.
    pub fn record(&mut self, ok: bool, bytes: u64)
        requires
            old(self).changes_done < old(self).changes_total,
            ok ==> old(self).failures > 0,
        ensures
            final(self).changes_total == old(self).changes_total,
            final(self).changes_done == old(self).changes_done + 1,
            final(self).failures == if ok {
                (old(self).failures - 1) as usize
            } else {
                old(self).failures
            },
            final(self).bytes_total == old(self).bytes_total,
            final(self).bytes_done == if old(self).bytes_done + bytes <= u64::MAX {
                (old(self).bytes_done + bytes) as u64
            } else {
                u64::MAX
            },
    {
        self.changes_done = self.changes_done + 1;
        if ok {
            self.failures = self.failures - 1;
        }
        self.bytes_done = self.bytes_done.saturating_add(bytes);
    }
}

} // verus!
