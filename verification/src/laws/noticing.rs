//! What is noticed while the directories of a volume are put together.

use crate::explore::{capped, lemma_same_total, total};
use crate::keys::{ascending_keys, lemma_keys_listed};
use crate::laws::volume::{is_user_dir, is_user_file, names_parent};
use crate::mft::attributes::Attr;
use crate::mft::bytes::le;
use crate::mft::record::{counts_stream, effective_names, starts_stream};
use crate::mft::types::{MftNameView, MftRecordView};
use crate::mft::FileRef;
use crate::paths::EnvVarsView;
use crate::scanner::tree_model::{
    counter, dir_total, filed_names, findings, findings_in, first_link, graph_of, names_of_kind,
    plain_tree, second_parents, Finding, ParentKind,
};
use vstd::prelude::*;

verus! {

/// Nothing is filed where the reference leads.
pub open spec fn is_gone(recs: Map<u64, MftRecordView>, p: FileRef) -> bool {
    !recs.contains_key(p.record_no)
}

/// The record where the reference leads was reused since.
pub open spec fn is_reused(recs: Map<u64, MftRecordView>, p: FileRef) -> bool {
    recs.contains_key(p.record_no) && recs[p.record_no].id.sequence != p.sequence
}

/// The reference leads to the record that it means, and that is no directory of the user.
pub open spec fn is_no_directory(recs: Map<u64, MftRecordView>, p: FileRef) -> bool {
    recs.contains_key(p.record_no) && recs[p.record_no].id.sequence == p.sequence && !is_user_dir(
        recs,
        p,
    )
}

/// What is gone, as a test on references.
pub open spec fn gone(recs: Map<u64, MftRecordView>) -> spec_fn(FileRef) -> bool {
    |p: FileRef| is_gone(recs, p)
}

/// What was reused, as a test on references.
pub open spec fn reused(recs: Map<u64, MftRecordView>) -> spec_fn(FileRef) -> bool {
    |p: FileRef| is_reused(recs, p)
}

/// What is no directory, as a test on references.
pub open spec fn no_directory(recs: Map<u64, MftRecordView>) -> spec_fn(FileRef) -> bool {
    |p: FileRef| is_no_directory(recs, p)
}

/// How many names of the record that count lead to a parent of which `f` holds, names
/// in `own` aside.
pub open spec fn names_leading(
    names: Seq<MftNameView>,
    own: Option<FileRef>,
    f: spec_fn(FileRef) -> bool,
) -> nat {
    total(
        effective_names(names),
        |m: MftNameView|
            if own != Some(m.parent) && f(m.parent) {
                1nat
            } else {
                0nat
            },
    )
}

/// A directory in use other than the root.
pub open spec fn is_inner_dir(recs: Map<u64, MftRecordView>, no: u64) -> bool {
    recs.contains_key(no) && recs[no].in_use && recs[no].is_dir && no >= 16
}

/// What the names of a file count for.
pub open spec fn of_files(
    recs: Map<u64, MftRecordView>,
    f: spec_fn(FileRef) -> bool,
) -> spec_fn(u64) -> nat {
    |no: u64|
        if is_user_file(recs, no) {
            names_leading(recs[no].names, None, f)
        } else {
            0
        }
}

/// What the names of a directory count for; a directory that names itself is another
/// matter.
pub open spec fn of_dirs(
    recs: Map<u64, MftRecordView>,
    f: spec_fn(FileRef) -> bool,
) -> spec_fn(u64) -> nat {
    |no: u64|
        if is_inner_dir(recs, no) {
            names_leading(recs[no].names, Some(recs[no].id), f)
        } else {
            0
        }
}

/// What the names of a file or a directory count for.
pub open spec fn of_both(
    recs: Map<u64, MftRecordView>,
    f: spec_fn(FileRef) -> bool,
) -> spec_fn(u64) -> nat {
    |no: u64| of_files(recs, f)(no) + of_dirs(recs, f)(no)
}

/// One for a directory that one of its names puts into itself.
pub open spec fn of_loops(recs: Map<u64, MftRecordView>) -> spec_fn(u64) -> nat {
    |no: u64|
        if is_inner_dir(recs, no) && exists|i: int|
            0 <= i < effective_names(recs[no].names).len() && (#[trigger] effective_names(
                recs[no].names,
            )[i]).parent == recs[no].id {
            1
        } else {
            0
        }
}

proof fn lemma_names_leading(
    recs: Map<u64, MftRecordView>,
    names: Seq<MftNameView>,
    own: Option<FileRef>,
    kind: ParentKind,
    f: spec_fn(FileRef) -> bool,
    n: nat,
)
    requires
        n <= names.len(),
        kind is Stale && f == reused(recs) || kind is Missing && f == gone(recs) || kind is Other
            && f == no_directory(recs),
    ensures
        names_of_kind(recs, names, own, kind, n) == total(
            names.take(n as int),
            |m: MftNameView|
                if own != Some(m.parent) && f(m.parent) {
                    1nat
                } else {
                    0nat
                },
        ),
    decreases n,
{
    if n > 0 {
        lemma_names_leading(recs, names, own, kind, f, (n - 1) as nat);
        let now = names.take(n as int);
        assert(now.drop_last() =~= names.take(n - 1));
        assert(now.last() == names[n - 1]);
    }
}

/// What a record counts for.
spec fn worth(recs: Map<u64, MftRecordView>, f: Finding) -> spec_fn(u64) -> nat {
    match f {
        Finding::StaleDirs => of_dirs(recs, reused(recs)),
        Finding::StaleFiles => of_files(recs, reused(recs)),
        Finding::MissingParent => of_both(recs, gone(recs)),
        Finding::OtherParentDirs => of_dirs(recs, no_directory(recs)),
        Finding::OtherParentFiles => of_files(recs, no_directory(recs)),
        _ => of_loops(recs),
    }
}

proof fn lemma_finding(recs: Map<u64, MftRecordView>, no: u64, f: Finding)
    requires
        recs.contains_key(no),
        !(f is DuplicateDirEntry),
    ensures
        findings_in(recs, no, f) == worth(recs, f)(no),
{
    let names = filed_names(recs, no);
    let n = names.len();
    let own = Some(recs[no].id);
    assert(names.take(n as int) =~= names);
    lemma_names_leading(recs, names, None, ParentKind::Stale, reused(recs), n);
    lemma_names_leading(recs, names, None, ParentKind::Missing, gone(recs), n);
    lemma_names_leading(recs, names, None, ParentKind::Other, no_directory(recs), n);
    lemma_names_leading(recs, names, own, ParentKind::Stale, reused(recs), n);
    lemma_names_leading(recs, names, own, ParentKind::Missing, gone(recs), n);
    lemma_names_leading(recs, names, own, ParentKind::Other, no_directory(recs), n);
}

proof fn lemma_findings(recs: Map<u64, MftRecordView>, keys: Seq<u64>, f: Finding, n: nat)
    requires
        n <= keys.len(),
        forall|i: int| 0 <= i < keys.len() ==> recs.contains_key(#[trigger] keys[i]),
        !(f is DuplicateDirEntry),
    ensures
        findings(recs, keys, f, n) == total(keys.take(n as int), worth(recs, f)),
    decreases n,
{
    if n > 0 {
        lemma_findings(recs, keys, f, (n - 1) as nat);
        lemma_finding(recs, keys[n - 1], f);
        let now = keys.take(n as int);
        assert(now.drop_last() =~= keys.take(n - 1));
        assert(now.last() == keys[n - 1]);
    }
}

/// One for a directory in use that does not belong to the file system itself.
pub open spec fn one_for_dirs(recs: Map<u64, MftRecordView>) -> spec_fn(u64) -> nat {
    |no: u64|
        if recs.contains_key(no) && recs[no].in_use && recs[no].is_dir && (no >= 16 || no == 5) {
            1
        } else {
            0
        }
}

proof fn lemma_dirs(recs: Map<u64, MftRecordView>, keys: Seq<u64>, n: nat)
    requires
        n <= keys.len(),
    ensures
        dir_total(recs, keys, n) == total(keys.take(n as int), one_for_dirs(recs)),
    decreases n,
{
    if n > 0 {
        lemma_dirs(recs, keys, (n - 1) as nat);
        let now = keys.take(n as int);
        assert(now.drop_last() =~= keys.take(n - 1));
        assert(now.last() == keys[n - 1]);
    }
}

proof fn lemma_counted(recs: Map<u64, MftRecordView>, nos: Seq<u64>, f: Finding)
    requires
        nos.no_duplicates(),
        forall|no: u64| #[trigger] nos.contains(no) <==> recs.contains_key(no),
        !(f is DuplicateDirEntry),
    ensures
        counter(recs, f) == capped(total(nos, worth(recs, f))),
{
    let keys = ascending_keys(recs.dom());
    lemma_keys_listed(recs.dom());
    assert forall|i: int| 0 <= i < keys.len() implies recs.contains_key(#[trigger] keys[i]) by {
        assert(keys.contains(keys[i]));
    }
    lemma_findings(recs, keys, f, keys.len());
    assert(keys.take(keys.len() as int) =~= keys);
    assert forall|no: u64| #[trigger] keys.contains(no) <==> nos.contains(no) by {
        assert(recs.dom().contains(no) <==> recs.contains_key(no));
    }
    lemma_same_total(keys, nos, worth(recs, f));
}

/// Names that lead nowhere are counted by what is wrong with them: the directory is
/// gone, its record was reused, or it is none. A directory that names itself counts
/// once. Directories that no way leads to from the root are those in use that have no
/// node.
pub proof fn law_names_that_lead_nowhere_are_counted(
    recs: Map<u64, MftRecordView>,
    excluded_paths: Seq<Seq<char>>,
    drive: char,
    env: EnvVarsView,
    nos: Seq<u64>,
)
    requires
        nos.no_duplicates(),
        forall|no: u64| #[trigger] nos.contains(no) <==> recs.contains_key(no),
    ensures
        ({
            let g = graph_of(recs, excluded_paths, drive, env);
            let d = g.diagnostics;
            &&& d.stale_sequence_dirs == capped(total(nos, of_dirs(recs, reused(recs))))
            &&& d.stale_sequence_files == capped(total(nos, of_files(recs, reused(recs))))
            &&& d.missing_parent == capped(total(nos, of_both(recs, gone(recs))))
            &&& d.non_dir_parent_dirs == capped(
                total(nos, of_dirs(recs, no_directory(recs))),
            )
            &&& d.non_dir_parent_files == capped(
                total(nos, of_files(recs, no_directory(recs))),
            )
            &&& d.cycle_nodes == capped(total(nos, of_loops(recs)))
            &&& d.unreachable_nodes == (total(nos, one_for_dirs(recs)) - g.nodes.len()) as u64
            &&& d.root_missing <==> !(recs.contains_key(5) && recs[5].is_dir)
        }),
{
    let keys = ascending_keys(recs.dom());
    lemma_counted(recs, nos, Finding::StaleDirs);
    lemma_counted(recs, nos, Finding::StaleFiles);
    lemma_counted(recs, nos, Finding::MissingParent);
    lemma_counted(recs, nos, Finding::OtherParentDirs);
    lemma_counted(recs, nos, Finding::OtherParentFiles);
    lemma_counted(recs, nos, Finding::Cycle);
    lemma_keys_listed(recs.dom());
    lemma_dirs(recs, keys, keys.len());
    assert(keys.take(keys.len() as int) =~= keys);
    assert forall|no: u64| #[trigger] keys.contains(no) <==> nos.contains(no) by {
        assert(recs.dom().contains(no) <==> recs.contains_key(no));
    }
    lemma_same_total(keys, nos, one_for_dirs(recs));
    let g = graph_of(recs, excluded_paths, drive, env);
    let plain = plain_tree(recs, drive);
    assert(g.nodes.dom() =~= plain.nodes.dom());
    assert(g.diagnostics == plain.diagnostics);
    let d = g.diagnostics;
    assert(d.stale_sequence_dirs == capped(total(nos, worth(recs, Finding::StaleDirs))));
    assert(d.missing_parent == capped(total(nos, worth(recs, Finding::MissingParent))));
    assert(d.cycle_nodes == capped(total(nos, worth(recs, Finding::Cycle))));
    assert(d.unreachable_nodes == (total(nos, one_for_dirs(recs)) - g.nodes.len()) as u64);
    assert(d.root_missing <==> !(recs.contains_key(5) && recs[5].is_dir));
}

/// One for a name that puts the directory `id` into another directory than `first`.
pub open spec fn one_for_others(
    recs: Map<u64, MftRecordView>,
    id: FileRef,
    first: FileRef,
) -> spec_fn(MftNameView) -> nat {
    |m: MftNameView|
        if m.parent != first && m.parent != id && is_user_dir(recs, m.parent) {
            1
        } else {
            0
        }
}

proof fn lemma_second_parents(
    recs: Map<u64, MftRecordView>,
    id: FileRef,
    names: Seq<MftNameView>,
    k: int,
    n: nat,
)
    requires
        0 <= k < names.len(),
        n <= names.len(),
        names_parent(recs, id, names[k], names[k].parent),
        forall|j: int|
            0 <= j < k ==> !names_parent(recs, id, #[trigger] names[j], names[j].parent),
    ensures
        first_link(recs, id, names, n) == if n <= k {
            None
        } else {
            Some(names[k])
        },
        second_parents(recs, id, names, n) == total(
            names.take(n as int),
            one_for_others(recs, id, names[k].parent),
        ),
    decreases n,
{
    if n > 0 {
        lemma_second_parents(recs, id, names, k, (n - 1) as nat);
        let now = names.take(n as int);
        assert(now.drop_last() =~= names.take(n - 1));
        assert(now.last() == names[n - 1]);
        if n - 1 < k {
            assert(!names_parent(recs, id, names[n - 1], names[n - 1].parent));
        }
    }
}

/// A directory lies in one place: of the names that put it into a directory the first
/// one counts, and every one that puts it elsewhere is noticed.
pub proof fn law_second_places_are_noticed(
    recs: Map<u64, MftRecordView>,
    id: FileRef,
    names: Seq<MftNameView>,
    k: int,
)
    requires
        0 <= k < names.len(),
        names_parent(recs, id, names[k], names[k].parent),
        forall|j: int|
            0 <= j < k ==> !names_parent(recs, id, #[trigger] names[j], names[j].parent),
    ensures
        second_parents(recs, id, names, names.len()) == total(
            names,
            one_for_others(recs, id, names[k].parent),
        ),
{
    lemma_second_parents(recs, id, names, k, names.len());
    assert(names.take(names.len() as int) =~= names);
}

/// The attribute is the first piece of a data stream: the whole of it where it lies
/// inside the record, the piece with the first cluster elsewhere.
pub open spec fn is_first_piece(a: Attr) -> bool {
    a.type_ == 128 && (!a.non_resident || (a.bytes.len() >= 64 && le(a.bytes, 16, 8) == 0))
}

/// The pieces of a stream count once: a first piece counts unless one with its name and
/// its number stands before it.
pub proof fn law_stream_counts_once(attrs: Seq<Attr>, i: int)
    requires
        0 <= i < attrs.len(),
    ensures
        counts_stream(attrs, i) <==> is_first_piece(attrs[i]) && forall|j: int|
            0 <= j < i && is_first_piece(#[trigger] attrs[j]) ==> attrs[j].name != attrs[i].name
                || attrs[j].attribute_id != attrs[i].attribute_id,
{
    assert forall|j: int| 0 <= j < i implies is_first_piece(#[trigger] attrs[j])
        == starts_stream(attrs[j]) by {}
}

} // verus!
