use crate::config::{spec_ignore_matches, spec_scan, spec_specifier_matches, FsEntryV, Ignore};
use crate::indexchanges::ChangeV;
use crate::indexfile::IndexFile;
use crate::update_index::{
    first_unknown_kind, flatten_adds, idx_find, idx_listing, node_is_dir, sort_le,
    spec_insert_add, spec_leftover_removals, spec_rec, spec_sort_adds, spec_step, spec_walk,
    DiffErrorV, IndexEntry, IndexNode, SourceEntry, SourceNode, Settings, StepV, WalkV,
};
use vstd::prelude::*;

verus! {

broadcast use vstd::std_specs::vec::group_vec_axioms;

// ---------------------------------------------------------------------------
// Type transitions in a directory of any shape: the removal of the old
// state always stands before the addition of the new one, whatever else the
// directory holds and however the additions are sorted.
// ---------------------------------------------------------------------------

/// Whatever one step of the walk contributes stays in the walk's result.
proof fn lemma_walk_mem(
    src_entries: Seq<SourceEntry>,
    i: int,
    j: int,
    rel: Seq<Seq<u8>>,
    es: Seq<IndexEntry>,
    ig: Ignore,
    st: Settings,
    sort: Option<bool>,
)
    requires
        0 <= i < j <= src_entries.len(),
        spec_walk(src_entries, j, rel, es, ig, st, sort) is Ok,
    ensures
        spec_step(src_entries[i], rel, es, ig, st, sort) is Ok,
        forall|x: ChangeV|
            spec_step(src_entries[i], rel, es, ig, st, sort)->Ok_0.removals.contains(x)
                ==> spec_walk(src_entries, j, rel, es, ig, st, sort)->Ok_0.removals.contains(x),
        forall|bt: (nat, Seq<ChangeV>)|
            spec_step(src_entries[i], rel, es, ig, st, sort)->Ok_0.adds.contains(bt)
                ==> spec_walk(src_entries, j, rel, es, ig, st, sort)->Ok_0.adds.contains(bt),
    decreases j,
{
    broadcast use vstd::seq_lib::lemma_seq_concat_contains_all_elements;

    if j == i + 1 {
    } else {
        lemma_walk_mem(src_entries, i, j - 1, rel, es, ig, st, sort);
    }
}

/// Inserting keeps every batch, and places the inserted one.
proof fn lemma_insert_mem(
    s: Seq<(nat, Seq<ChangeV>)>,
    x: (nat, Seq<ChangeV>),
    largest: bool,
    bt: (nat, Seq<ChangeV>),
)
    requires
        s.contains(bt) || bt == x,
    ensures
        spec_insert_add(s, x, largest).contains(bt),
    decreases s.len(),
{
    broadcast use vstd::seq_lib::lemma_seq_concat_contains_all_elements;
    broadcast use vstd::seq_lib::lemma_seq_contains_after_push;

    if s.len() == 0 {
        assert(spec_insert_add(s, x, largest)[0] == x);
        assert(bt == x);
    } else if sort_le(s.last(), x, largest) {
    } else {
        if bt == x {
            lemma_insert_mem(s.drop_last(), x, largest, bt);
        } else if bt == s.last() {
        } else {
            let k = s.lemma_contains_to_index(bt);
            assert(s.drop_last()[k] == bt);
            assert(s.drop_last().contains(bt));
            lemma_insert_mem(s.drop_last(), x, largest, bt);
        }
    }
}

/// Sorting the addition batches keeps every batch.
proof fn lemma_sort_mem(s: Seq<(nat, Seq<ChangeV>)>, largest: bool, bt: (nat, Seq<ChangeV>))
    requires
        s.contains(bt),
    ensures
        spec_sort_adds(s, largest).contains(bt),
    decreases s.len(),
{
    if s.len() == 0 {
    } else if bt == s.last() {
        lemma_insert_mem(spec_sort_adds(s.drop_last(), largest), s.last(), largest, bt);
    } else {
        let k = s.lemma_contains_to_index(bt);
        assert(s.drop_last()[k] == bt);
        assert(s.drop_last().contains(bt));
        lemma_sort_mem(s.drop_last(), largest, bt);
        lemma_insert_mem(spec_sort_adds(s.drop_last(), largest), s.last(), largest, bt);
    }
}

/// Every change of every batch stands in the flattened additions.
proof fn lemma_flatten_mem(adds: Seq<(nat, Seq<ChangeV>)>, bt: (nat, Seq<ChangeV>), m: int)
    requires
        adds.contains(bt),
        0 <= m < bt.1.len(),
    ensures
        flatten_adds(adds).contains(bt.1[m]),
    decreases adds.len(),
{
    broadcast use vstd::seq_lib::lemma_seq_concat_contains_all_elements;

    if adds.len() == 0 {
    } else if adds.last() == bt {
        assert(adds.last().1.contains(bt.1[m])) by {
            assert(adds.last().1[m] == bt.1[m]);
        }
    } else {
        let k = adds.lemma_contains_to_index(bt);
        assert(adds.drop_last()[k] == bt);
        assert(adds.drop_last().contains(bt));
        lemma_flatten_mem(adds.drop_last(), bt, m);
    }
}

/// One file after a successful apply: once the record an `AddFile` change
/// carries has been written for the file, the next diff contributes nothing
/// for it — except under the policy that replaces files whose timestamp is
/// unknown on both sides, which asks for the repetition. A file whose
/// target-side copy failed keeps its index entry untouched instead, and the
/// diff, a function of the snapshots, produces its `AddFile` again.
pub proof fn lemma_applied_file_needs_nothing(
    entry: SourceEntry,
    es: Seq<IndexEntry>,
    rel: Seq<Seq<u8>>,
    ig: Ignore,
    st: Settings,
    sort: Option<bool>,
)
    requires
        entry.node is File,
        !skipped(entry, rel, ig),
        ({
            let meta = entry.node->File_0;
            match idx_find(es, entry.name@, 0) {
                Some(p) => p.kind_dir == Some(false) && match p.node {
                    IndexNode::File(Some(c)) => c@ == meta.repr(),
                    _ => false,
                },
                None => false,
            }
        }),
        entry.node->File_0.last_modified is Some || !st.replace_if_timestamp_unknown,
    ensures
        spec_step(entry, rel, es, ig, st, sort) == Ok::<StepV, DiffErrorV>(
            StepV {
                skip: false,
                bytes: 0,
                removals: Seq::<ChangeV>::empty(),
                adds: Seq::<(nat, Seq<ChangeV>)>::empty(),
            },
        ),
{
    let meta = entry.node->File_0;
    crate::indexfile::lemma_record_round_trip(meta);
    lemma_fresh_record_needs_no_update(meta, st);
    assert(Seq::<ChangeV>::empty() + Seq::<ChangeV>::empty() =~= Seq::<ChangeV>::empty());
}

/// A path recorded as a file that is now a directory, in a directory of any
/// shape: among the diff's changes, `RemoveFile` for the path stands
/// strictly before the `AddDir` that recreates it, never the other way
/// round.
pub proof fn lemma_transition_file_to_dir_ordered(
    src_entries: Seq<SourceEntry>,
    i: int,
    idx: Option<IndexNode>,
    rel: Seq<Seq<u8>>,
    ig: Ignore,
    st: Settings,
    sort: Option<bool>,
    t: nat,
    chs: Seq<ChangeV>,
)
    requires
        spec_rec(src_entries, rel, idx, ig, st, sort) == Ok::<
            Option<(nat, Seq<ChangeV>)>,
            DiffErrorV,
        >(Some((t, chs))),
        0 <= i < src_entries.len(),
        src_entries[i].node is Dir,
        !skipped(src_entries[i], rel, ig),
        ({
            let es = match idx_listing(idx) {
                Some(es) => es,
                None => Seq::<IndexEntry>::empty(),
            };
            match idx_find(es, src_entries[i].name@, 0) {
                Some(p) => p.kind_dir == Some(false) && !(p.node matches IndexNode::Dir(Some(_))),
                None => false,
            }
        }),
    ensures
        exists|a: int, b: int|
            #![trigger chs[a], chs[b]]
            0 <= a < b < chs.len() && chs[a] == ChangeV::RemoveFile(
                rel.push(src_entries[i].name@),
            ) && chs[b] is AddDir && chs[b]->AddDir_0 == rel.push(src_entries[i].name@)
                && chs[b]->AddDir_1,
{
    broadcast use vstd::seq_lib::lemma_seq_concat_contains_all_elements;

    let entry = src_entries[i];
    let e_path = rel.push(entry.name@);
    let es = match idx_listing(idx) {
        Some(es) => es,
        None => Seq::<IndexEntry>::empty(),
    };
    let p = idx_find(es, entry.name@, 0)->Some_0;
    let n = src_entries.len() as int;
    let acc = spec_walk(src_entries, n, rel, es, ig, st, sort)->Ok_0;
    lemma_walk_mem(src_entries, i, n, rel, es, ig, st, sort);
    let stp = spec_step(entry, rel, es, ig, st, sort)->Ok_0;
    // the step for this entry: remove the file, then the whole new directory
    let children = entry.node->Dir_0;
    assert(idx_listing(Some(p.node)) is None);
    let child = spec_rec(children@, e_path, Some(p.node), ig, st, sort);
    match spec_walk(children@, children@.len() as int, e_path, seq![], ig, st, sort) {
        Ok(_) => {},
        Err(_) => {},
    }
    let rf = ChangeV::RemoveFile(e_path);
    match child {
        Err(_) => {
            assert(false);
        },
        Ok(None) => {
            assert(false);
        },
        Ok(Some((cb, cchs))) => {
            crate::update_index::lemma_rec_some_head(children@, e_path, Some(p.node), ig, st, sort);
            let bt = (cb, cchs);
            assert(stp.removals.contains(rf)) by {
                assert(stp.removals[0] == rf);
            }
            assert(stp.adds.contains(bt)) by {
                assert(stp.adds[0] == bt);
            }
            assert(acc.removals.contains(rf));
            assert(acc.adds.contains(bt));
            let removals_all = acc.removals + spec_leftover_removals(es, es.len() as int, rel, acc.seen);
            assert(removals_all.contains(rf));
            let sorted = match sort {
                Some(largest) => spec_sort_adds(acc.adds, largest),
                None => acc.adds,
            };
            match sort {
                Some(largest) => {
                    lemma_sort_mem(acc.adds, largest, bt);
                },
                None => {},
            }
            assert(sorted.contains(bt));
            lemma_flatten_mem(sorted, bt, 0);
            let flat = flatten_adds(sorted);
            let ad = cchs[0];
            assert(flat.contains(ad));
            let ra = removals_all.lemma_contains_to_index(rf);
            let fa = flat.lemma_contains_to_index(ad);
            assert(chs =~= seq![
                ChangeV::AddDir(rel, idx_listing(idx) is None, acc.total as u64),
            ] + removals_all + flat);
            let a = 1 + ra;
            let b = 1 + removals_all.len() as int + fa;
            assert(chs[a] == rf);
            assert(chs[b] == ad);
            assert(ad is AddDir && ad->AddDir_0 == e_path && ad->AddDir_1);
            assert(0 <= a < b < chs.len());
        },
    }
}

/// A path recorded as a directory that is now a regular file, in a
/// directory of any shape: among the diff's changes, `RemoveDir` for the
/// path stands strictly before the `AddFile` that records it.
pub proof fn lemma_transition_dir_to_file_ordered(
    src_entries: Seq<SourceEntry>,
    i: int,
    idx: Option<IndexNode>,
    rel: Seq<Seq<u8>>,
    ig: Ignore,
    st: Settings,
    sort: Option<bool>,
    t: nat,
    chs: Seq<ChangeV>,
)
    requires
        spec_rec(src_entries, rel, idx, ig, st, sort) == Ok::<
            Option<(nat, Seq<ChangeV>)>,
            DiffErrorV,
        >(Some((t, chs))),
        0 <= i < src_entries.len(),
        src_entries[i].node is File,
        !skipped(src_entries[i], rel, ig),
        ({
            let es = match idx_listing(idx) {
                Some(es) => es,
                None => Seq::<IndexEntry>::empty(),
            };
            match idx_find(es, src_entries[i].name@, 0) {
                Some(p) => p.kind_dir == Some(true) && p.node is Dir,
                None => false,
            }
        }),
    ensures
        exists|a: int, b: int|
            #![trigger chs[a], chs[b]]
            0 <= a < b < chs.len() && chs[a] == ChangeV::RemoveDir(
                rel.push(src_entries[i].name@),
            ) && chs[b] == ChangeV::AddFile(
                rel.push(src_entries[i].name@),
                src_entries[i].node->File_0,
            ),
{
    broadcast use vstd::seq_lib::lemma_seq_concat_contains_all_elements;

    let entry = src_entries[i];
    let e_path = rel.push(entry.name@);
    let es = match idx_listing(idx) {
        Some(es) => es,
        None => Seq::<IndexEntry>::empty(),
    };
    let n = src_entries.len() as int;
    let acc = spec_walk(src_entries, n, rel, es, ig, st, sort)->Ok_0;
    lemma_walk_mem(src_entries, i, n, rel, es, ig, st, sort);
    let stp = spec_step(entry, rel, es, ig, st, sort)->Ok_0;
    let meta = entry.node->File_0;
    let rd = ChangeV::RemoveDir(e_path);
    let ad = ChangeV::AddFile(e_path, meta);
    let bt = (meta.size as nat, seq![ad]);
    assert(stp.removals.contains(rd)) by {
        assert(stp.removals == seq![rd] + Seq::<ChangeV>::empty());
        assert(stp.removals[0] == rd);
    }
    assert(stp.adds.contains(bt)) by {
        assert(stp.adds[0] == bt);
    }
    assert(acc.removals.contains(rd));
    assert(acc.adds.contains(bt));
    let removals_all = acc.removals + spec_leftover_removals(es, es.len() as int, rel, acc.seen);
    assert(removals_all.contains(rd));
    let sorted = match sort {
        Some(largest) => spec_sort_adds(acc.adds, largest),
        None => acc.adds,
    };
    match sort {
        Some(largest) => {
            lemma_sort_mem(acc.adds, largest, bt);
        },
        None => {},
    }
    assert(sorted.contains(bt));
    lemma_flatten_mem(sorted, bt, 0);
    let flat = flatten_adds(sorted);
    assert(flat.contains(ad));
    let ra = removals_all.lemma_contains_to_index(rd);
    let fa = flat.lemma_contains_to_index(ad);
    assert(chs =~= seq![
        ChangeV::AddDir(rel, idx_listing(idx) is None, acc.total as u64),
    ] + removals_all + flat);
    let a = 1 + ra;
    let b = 1 + removals_all.len() as int + fa;
    assert(chs[a] == rd);
    assert(chs[b] == ad);
    assert(0 <= a < b < chs.len());
}

// ---------------------------------------------------------------------------
// Idempotence. A fully successful apply leaves the index mirroring the
// source at every entry the rules keep: every kept entry is recorded with
// its current kind, record and link target, and the index holds nothing
// else. `synced` states that mirror relation; the law is that a diff of a
// mirrored index finds no changes, so running the diff again right after a
// fully successful apply yields none.
// ---------------------------------------------------------------------------

/// Whether the rules drop this entry from consideration.
pub open spec fn skipped(entry: SourceEntry, rel: Seq<Seq<u8>>, ig: Ignore) -> bool {
    spec_ignore_matches(
        ig,
        FsEntryV { path: rel.push(entry.name@), is_directory: node_is_dir(entry.node) },
    ) == Some(true)
}

/// Whether the index mirrors one source entry.
pub open spec fn entry_synced(
    entry: SourceEntry,
    es: Seq<IndexEntry>,
    rel: Seq<Seq<u8>>,
    ig: Ignore,
    st: Settings,
) -> bool
    decreases entry, 2int, 0int,
{
    if skipped(entry, rel, ig) {
        true
    } else {
        match idx_find(es, entry.name@, 0) {
            None => false,
            Some(p) => match entry.node {
                SourceNode::Dir(children) => {
                    &&& p.kind_dir == Some(true)
                    &&& synced(children@, Some(p.node), rel.push(entry.name@), ig, st)
                },
                SourceNode::File(meta) => {
                    &&& p.kind_dir == Some(false)
                    &&& match p.node {
                        IndexNode::File(Some(c)) => match IndexFile::spec_load(c@) {
                            Ok(o) => !IndexFile::spec_should_be_updated(meta, o, st),
                            Err(_) => false,
                        },
                        _ => false,
                    }
                },
                SourceNode::Symlink(t_opt) => match t_opt {
                    Some(t) => match p.node {
                        IndexNode::Symlink(Some(o)) => o@ == t@,
                        _ => false,
                    },
                    None => false,
                },
                _ => false,
            },
        }
    }
}

/// Whether the index mirrors the first `i` source entries.
pub open spec fn synced_entries(
    src_entries: Seq<SourceEntry>,
    i: int,
    es: Seq<IndexEntry>,
    rel: Seq<Seq<u8>>,
    ig: Ignore,
    st: Settings,
) -> bool
    decreases src_entries, 1int, i,
{
    if i <= 0 || i > src_entries.len() {
        true
    } else {
        synced_entries(src_entries, i - 1, es, rel, ig, st) && entry_synced(
            src_entries[i - 1],
            es,
            rel,
            ig,
            st,
        )
    }
}

/// Whether some kept source entry among the first `i` carries this name.
pub open spec fn name_kept(
    src_entries: Seq<SourceEntry>,
    i: int,
    name: Seq<u8>,
    rel: Seq<Seq<u8>>,
    ig: Ignore,
) -> bool
    decreases i,
{
    if i <= 0 || i > src_entries.len() {
        false
    } else {
        (src_entries[i - 1].name@ == name && !skipped(src_entries[i - 1], rel, ig)) || name_kept(
            src_entries,
            i - 1,
            name,
            rel,
            ig,
        )
    }
}

/// Whether each of the first `j` index entries is named by a kept source
/// entry: the index holds nothing the source does not.
pub open spec fn covered(
    es: Seq<IndexEntry>,
    j: int,
    src_entries: Seq<SourceEntry>,
    rel: Seq<Seq<u8>>,
    ig: Ignore,
) -> bool
    decreases j,
{
    if j <= 0 || j > es.len() {
        true
    } else {
        covered(es, j - 1, src_entries, rel, ig) && name_kept(
            src_entries,
            src_entries.len() as int,
            es[j - 1].name@,
            rel,
            ig,
        )
    }
}

/// Whether the index mirrors the source at every entry the rules keep.
pub open spec fn synced(
    src_entries: Seq<SourceEntry>,
    idx: Option<IndexNode>,
    rel: Seq<Seq<u8>>,
    ig: Ignore,
    st: Settings,
) -> bool
    decreases src_entries, 3int, 0int,
{
    match idx_listing(idx) {
        None => false,
        Some(es) => {
            &&& first_unknown_kind(es, 0) is None
            &&& synced_entries(src_entries, src_entries.len() as int, es, rel, ig, st)
            &&& covered(es, es.len() as int, src_entries, rel, ig)
        },
    }
}

/// The names the walk has marked seen after its first `i` entries.
pub open spec fn seen_upto(
    src_entries: Seq<SourceEntry>,
    i: int,
    rel: Seq<Seq<u8>>,
    ig: Ignore,
) -> Set<Seq<u8>>
    decreases i,
{
    if i <= 0 || i > src_entries.len() {
        Set::empty()
    } else {
        let rest = seen_upto(src_entries, i - 1, rel, ig);
        if skipped(src_entries[i - 1], rel, ig) {
            rest
        } else {
            rest.insert(src_entries[i - 1].name@)
        }
    }
}

proof fn lemma_name_kept_seen(
    src_entries: Seq<SourceEntry>,
    i: int,
    name: Seq<u8>,
    rel: Seq<Seq<u8>>,
    ig: Ignore,
)
    requires
        name_kept(src_entries, i, name, rel, ig),
    ensures
        seen_upto(src_entries, i, rel, ig).contains(name),
    decreases i,
{
    if 0 < i <= src_entries.len() {
        if src_entries[i - 1].name@ == name && !skipped(src_entries[i - 1], rel, ig) {
        } else {
            lemma_name_kept_seen(src_entries, i - 1, name, rel, ig);
        }
    }
}

proof fn lemma_covered_leftover(
    es: Seq<IndexEntry>,
    j: int,
    src_entries: Seq<SourceEntry>,
    rel: Seq<Seq<u8>>,
    ig: Ignore,
)
    requires
        covered(es, j, src_entries, rel, ig),
    ensures
        spec_leftover_removals(
            es,
            j,
            rel,
            seen_upto(src_entries, src_entries.len() as int, rel, ig),
        ) == Seq::<ChangeV>::empty(),
    decreases j,
{
    if 0 < j <= es.len() {
        lemma_covered_leftover(es, j - 1, src_entries, rel, ig);
        lemma_name_kept_seen(src_entries, src_entries.len() as int, es[j - 1].name@, rel, ig);
    }
}

proof fn lemma_synced_step(
    entry: SourceEntry,
    es: Seq<IndexEntry>,
    rel: Seq<Seq<u8>>,
    ig: Ignore,
    st: Settings,
    sort: Option<bool>,
)
    requires
        entry_synced(entry, es, rel, ig, st),
    ensures
        spec_step(entry, rel, es, ig, st, sort) == Ok::<StepV, DiffErrorV>(
            StepV {
                skip: skipped(entry, rel, ig),
                bytes: 0,
                removals: Seq::<ChangeV>::empty(),
                adds: Seq::<(nat, Seq<ChangeV>)>::empty(),
            },
        ),
    decreases entry, 2int, 0int,
{
    if skipped(entry, rel, ig) {
    } else {
        let p = idx_find(es, entry.name@, 0).unwrap();
        match entry.node {
            SourceNode::Dir(children) => {
                lemma_synced_diff_empty(children@, Some(p.node), rel.push(entry.name@), ig, st, sort);
            },
            SourceNode::File(meta) => {
                assert(Seq::<ChangeV>::empty() + Seq::<ChangeV>::empty() =~= Seq::<
                    ChangeV,
                >::empty());
            },
            SourceNode::Symlink(t_opt) => {
            },
            _ => {
                assert(false);
            },
        }
    }
}

proof fn lemma_synced_walk(
    src_entries: Seq<SourceEntry>,
    i: int,
    es: Seq<IndexEntry>,
    rel: Seq<Seq<u8>>,
    ig: Ignore,
    st: Settings,
    sort: Option<bool>,
)
    requires
        0 <= i <= src_entries.len(),
        synced_entries(src_entries, i, es, rel, ig, st),
    ensures
        spec_walk(src_entries, i, rel, es, ig, st, sort) == Ok::<WalkV, DiffErrorV>(
            WalkV {
                total: 0,
                removals: Seq::<ChangeV>::empty(),
                adds: Seq::<(nat, Seq<ChangeV>)>::empty(),
                seen: seen_upto(src_entries, i, rel, ig),
            },
        ),
    decreases src_entries, 1int, i,
{
    if i > 0 {
        lemma_synced_walk(src_entries, i - 1, es, rel, ig, st, sort);
        lemma_synced_step(src_entries[i - 1], es, rel, ig, st, sort);
        assert(Seq::<ChangeV>::empty() + Seq::<ChangeV>::empty() =~= Seq::<ChangeV>::empty());
        assert(Seq::<(nat, Seq<ChangeV>)>::empty() + Seq::<(nat, Seq<ChangeV>)>::empty() =~= Seq::<
            (nat, Seq<ChangeV>),
        >::empty());
    } else {
        assert(seen_upto(src_entries, i, rel, ig) =~= Set::<Seq<u8>>::empty());
    }
}

/// A diff of a mirrored index finds nothing: wherever the index mirrors
/// the source at every entry the rules keep, as a fully successful apply
/// leaves it, the diff of that directory reports no changes at all.
pub proof fn lemma_synced_diff_empty(
    src_entries: Seq<SourceEntry>,
    idx: Option<IndexNode>,
    rel: Seq<Seq<u8>>,
    ig: Ignore,
    st: Settings,
    sort: Option<bool>,
)
    requires
        synced(src_entries, idx, rel, ig, st),
    ensures
        spec_rec(src_entries, rel, idx, ig, st, sort) == Ok::<
            Option<(nat, Seq<ChangeV>)>,
            DiffErrorV,
        >(None),
    decreases src_entries, 3int, 0int,
{
    let es = idx_listing(idx).unwrap();
    lemma_synced_walk(src_entries, src_entries.len() as int, es, rel, ig, st, sort);
    lemma_covered_leftover(es, es.len() as int, src_entries, rel, ig);
    assert(Seq::<ChangeV>::empty() + Seq::<ChangeV>::empty() =~= Seq::<ChangeV>::empty());
    match sort {
        Some(largest) => {
            assert(spec_sort_adds(Seq::<(nat, Seq<ChangeV>)>::empty(), largest) =~= Seq::<
                (nat, Seq<ChangeV>),
            >::empty());
        },
        None => {},
    }
}

/// Last match wins: whenever the rule declared last has an answer for an
/// entry, that answer is the whole rule list's verdict, whatever the
/// earlier rules say.
pub proof fn lemma_last_match_wins(ig: Ignore, e: FsEntryV)
    requires
        ig.0@.len() > 0,
        spec_specifier_matches(ig.0@.last(), e) is Some,
    ensures
        spec_ignore_matches(ig, e) == spec_specifier_matches(ig.0@.last(), e),
{
    let n = ig.0@.len() as int;
    assert(spec_scan(ig.0@, n, e) == spec_specifier_matches(ig.0@[n - 1], e));
}

/// What an apply writes for an added file reads back as that file's
/// record: the index-side effect of `AddFile` writes the record's saved
/// text at the change's path, and loading that text yields the record.
pub proof fn lemma_written_record_reads_back(p: Seq<Seq<u8>>, rec: IndexFile)
    ensures
        match crate::apply_indexchanges::spec_index_action(ChangeV::AddFile(p, rec)) {
            crate::apply_indexchanges::IndexActionV::WriteRecord(q, bytes) => q == p
                && IndexFile::spec_load(bytes) == Ok::<IndexFile, crate::repr_file::LoadError>(
                rec,
            ),
            _ => false,
        },
{
    crate::indexfile::lemma_record_round_trip(rec);
}

/// A freshly written record needs no further update, so a diff right after
/// a successful apply leaves the file alone — except under the policy that
/// replaces files whose timestamp is unknown on both sides, which asks for
/// exactly that repetition.
pub proof fn lemma_fresh_record_needs_no_update(meta: IndexFile, st: Settings)
    requires
        meta.last_modified is Some || !st.replace_if_timestamp_unknown,
    ensures
        !IndexFile::spec_should_be_updated(meta, meta, st),
{
}

/// A path recorded as a file that is now a directory: the diff of its
/// parent directory yields exactly the parent's own marker, then
/// `RemoveFile` for the path, then the new directory's changes, whose first
/// is `AddDir` for the same path. The removal always stands before the
/// addition.
pub proof fn lemma_file_becomes_dir(
    entry: SourceEntry,
    children: Vec<SourceEntry>,
    idx: IndexNode,
    p: IndexEntry,
    rel: Seq<Seq<u8>>,
    ig: Ignore,
    st: Settings,
    sort: Option<bool>,
    b: nat,
    chs: Seq<ChangeV>,
)
    requires
        entry.node == SourceNode::Dir(children),
        idx matches IndexNode::Dir(Some(es)) && es@ == seq![p],
        p.name@ == entry.name@,
        p.kind_dir == Some(false),
        !(p.node is Dir),
        spec_ignore_matches(
            ig,
            FsEntryV { path: rel.push(entry.name@), is_directory: Some(true) },
        ) != Some(true),
        spec_rec(children@, rel.push(entry.name@), Some(p.node), ig, st, sort) == Ok::<
            Option<(nat, Seq<ChangeV>)>,
            DiffErrorV,
        >(Some((b, chs))),
    ensures
        spec_rec(seq![entry], rel, Some(idx), ig, st, sort) == Ok::<
            Option<(nat, Seq<ChangeV>)>,
            DiffErrorV,
        >(
            Some(
                (
                    b,
                    seq![
                        ChangeV::AddDir(rel, false, b as u64),
                        ChangeV::RemoveFile(rel.push(entry.name@)),
                    ] + chs,
                ),
            ),
        ),
        chs[0] == ChangeV::AddDir(rel.push(entry.name@), true, b as u64),
{
    let e_path = rel.push(entry.name@);
    let es = seq![p];
    let src = seq![entry];
    // the singleton listing is readable
    assert(first_unknown_kind(es, 1) is None);
    assert(first_unknown_kind(es, 0) is None);
    assert(idx_listing(Some(idx)) == Some(es));
    // the one step: the file became a directory
    assert(idx_find(es, entry.name@, 0) == Some(p));
    let stp = spec_step(entry, rel, es, ig, st, sort);
    assert(stp == Ok::<StepV, DiffErrorV>(
        StepV {
            skip: false,
            bytes: b,
            removals: seq![ChangeV::RemoveFile(e_path)],
            adds: seq![(b, chs)],
        },
    ));
    // the walk is that one step
    let w1 = spec_walk(src, 1, rel, es, ig, st, sort);
    assert(spec_walk(src, 0, rel, es, ig, st, sort) == Ok::<WalkV, DiffErrorV>(
        WalkV { total: 0, removals: seq![], adds: seq![], seen: Set::empty() },
    ));
    assert(src[0] == entry);
    let acc = WalkV {
        total: b,
        removals: seq![] + seq![ChangeV::RemoveFile(e_path)],
        adds: seq![] + seq![(b, chs)],
        seen: Set::<Seq<u8>>::empty().insert(entry.name@),
    };
    assert(w1 == Ok::<WalkV, DiffErrorV>(acc));
    assert(acc.removals =~= seq![ChangeV::RemoveFile(e_path)]);
    assert(acc.adds =~= seq![(b, chs)]);
    // the one index entry was seen, so nothing is left to remove
    assert(acc.seen.contains(p.name@));
    assert(spec_leftover_removals(es, 0, rel, acc.seen) =~= Seq::<ChangeV>::empty());
    assert(spec_leftover_removals(es, 1, rel, acc.seen) =~= Seq::<ChangeV>::empty());
    // a single addition batch is already in order
    let adds1 = seq![(b, chs)];
    assert(adds1.drop_last() =~= Seq::<(nat, Seq<ChangeV>)>::empty());
    match sort {
        Some(largest) => {
            assert(spec_sort_adds(Seq::<(nat, Seq<ChangeV>)>::empty(), largest)
                =~= Seq::<(nat, Seq<ChangeV>)>::empty());
            assert(spec_sort_adds(adds1, largest) =~= adds1);
        },
        None => {},
    }
    // assemble
    assert(flatten_adds(adds1.drop_last()) =~= Seq::<ChangeV>::empty());
    assert(flatten_adds(adds1) =~= chs);
    let removals_all = acc.removals + spec_leftover_removals(es, 1, rel, acc.seen);
    assert(removals_all =~= seq![ChangeV::RemoveFile(e_path)]);
    assert(seq![ChangeV::AddDir(rel, false, b as u64)] + removals_all + flatten_adds(adds1)
        =~= seq![ChangeV::AddDir(rel, false, b as u64), ChangeV::RemoveFile(e_path)] + chs);
    // the child's first change is its own new-directory marker
    assert(idx_listing(Some(p.node)) is None);
    let child = spec_rec(children@, e_path, Some(p.node), ig, st, sort);
    assert(child == Ok::<Option<(nat, Seq<ChangeV>)>, DiffErrorV>(Some((b, chs))));
    match spec_walk(children@, children@.len() as int, e_path, seq![], ig, st, sort) {
        Ok(cacc) => {
            assert(chs[0] == ChangeV::AddDir(e_path, true, cacc.total as u64));
            assert(cacc.total == b);
        },
        Err(_) => {
            assert(false);
        },
    }
}

/// A path recorded as a directory that is now a regular file: the diff of
/// its parent yields exactly the parent's own marker, then `RemoveDir` for
/// the path, then `AddFile` with the file's record. The removal always
/// stands before the addition.
pub proof fn lemma_dir_becomes_file(
    entry: SourceEntry,
    meta: IndexFile,
    idx: IndexNode,
    p: IndexEntry,
    rel: Seq<Seq<u8>>,
    ig: Ignore,
    st: Settings,
    sort: Option<bool>,
)
    requires
        entry.node == SourceNode::File(meta),
        idx matches IndexNode::Dir(Some(es)) && es@ == seq![p],
        p.name@ == entry.name@,
        p.kind_dir == Some(true),
        p.node is Dir,
        spec_ignore_matches(
            ig,
            FsEntryV { path: rel.push(entry.name@), is_directory: Some(false) },
        ) != Some(true),
    ensures
        spec_rec(seq![entry], rel, Some(idx), ig, st, sort) == Ok::<
            Option<(nat, Seq<ChangeV>)>,
            DiffErrorV,
        >(
            Some(
                (
                    meta.size as nat,
                    seq![
                        ChangeV::AddDir(rel, false, meta.size),
                        ChangeV::RemoveDir(rel.push(entry.name@)),
                        ChangeV::AddFile(rel.push(entry.name@), meta),
                    ],
                ),
            ),
        ),
{
    let e_path = rel.push(entry.name@);
    let es = seq![p];
    let src = seq![entry];
    assert(first_unknown_kind(es, 1) is None);
    assert(first_unknown_kind(es, 0) is None);
    assert(idx_listing(Some(idx)) == Some(es));
    assert(idx_find(es, entry.name@, 0) == Some(p));
    let batch = seq![ChangeV::AddFile(e_path, meta)];
    let stp = spec_step(entry, rel, es, ig, st, sort);
    assert(seq![ChangeV::RemoveDir(e_path)] + Seq::<ChangeV>::empty() =~= seq![
        ChangeV::RemoveDir(e_path),
    ]);
    assert(stp == Ok::<StepV, DiffErrorV>(
        StepV {
            skip: false,
            bytes: meta.size as nat,
            removals: seq![ChangeV::RemoveDir(e_path)],
            adds: seq![(meta.size as nat, batch)],
        },
    ));
    let w1 = spec_walk(src, 1, rel, es, ig, st, sort);
    assert(spec_walk(src, 0, rel, es, ig, st, sort) == Ok::<WalkV, DiffErrorV>(
        WalkV { total: 0, removals: seq![], adds: seq![], seen: Set::empty() },
    ));
    assert(src[0] == entry);
    let acc = WalkV {
        total: meta.size as nat,
        removals: seq![] + seq![ChangeV::RemoveDir(e_path)],
        adds: seq![] + seq![(meta.size as nat, batch)],
        seen: Set::<Seq<u8>>::empty().insert(entry.name@),
    };
    assert(w1 == Ok::<WalkV, DiffErrorV>(acc));
    assert(acc.removals =~= seq![ChangeV::RemoveDir(e_path)]);
    assert(acc.adds =~= seq![(meta.size as nat, batch)]);
    assert(acc.seen.contains(p.name@));
    assert(spec_leftover_removals(es, 0, rel, acc.seen) =~= Seq::<ChangeV>::empty());
    assert(spec_leftover_removals(es, 1, rel, acc.seen) =~= Seq::<ChangeV>::empty());
    let adds1 = seq![(meta.size as nat, batch)];
    assert(adds1.drop_last() =~= Seq::<(nat, Seq<ChangeV>)>::empty());
    match sort {
        Some(largest) => {
            assert(spec_sort_adds(Seq::<(nat, Seq<ChangeV>)>::empty(), largest)
                =~= Seq::<(nat, Seq<ChangeV>)>::empty());
            assert(spec_sort_adds(adds1, largest) =~= adds1);
        },
        None => {},
    }
    assert(flatten_adds(adds1.drop_last()) =~= Seq::<ChangeV>::empty());
    assert(flatten_adds(adds1) =~= batch);
    let removals_all = acc.removals + spec_leftover_removals(es, 1, rel, acc.seen);
    assert(removals_all =~= seq![ChangeV::RemoveDir(e_path)]);
    assert(seq![ChangeV::AddDir(rel, false, meta.size)] + removals_all + flatten_adds(adds1) =~= seq![
        ChangeV::AddDir(rel, false, meta.size),
        ChangeV::RemoveDir(e_path),
        ChangeV::AddFile(e_path, meta),
    ]);
}

} // verus!
