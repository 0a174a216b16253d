//! From the slots of a volume to its directories: what is gathered, what is counted,
//! and where a directory hangs.

use crate::explore::{capped, lemma_same_total, total};
use crate::keys::{ascending_keys, lemma_keys_listed};
use crate::mft::index::{
    enumeration, extension_size, file_total, first_fault, link_total, merged_records, scanned,
    skipped, Slot,
};
use crate::mft::record::effective_names;
use crate::mft::types::{MftNameView, MftRecordView};
use crate::mft::FileRef;
use crate::paths::EnvVarsView;
use crate::scanner::construct::{
    filed_by_number, law_children_follow_their_parent, lemma_tree_kids,
};
use crate::scanner::graph::kids_of;
use crate::scanner::tree_model::{
    at_level, bytes_in_dir, filed_names, files_in_dir, first_link, graph_of, in_tree, level_of,
    link_of, names_in_dir, system_bytes, tree_kids, tree_root,
};
use vstd::prelude::*;

verus! {

// ---------------------------------------------------------------------------
// Names
// ---------------------------------------------------------------------------

/// A long name, which may be a short one too.
pub open spec fn is_long(n: MftNameView) -> bool {
    n.namespace == 1 || n.namespace == 3
}

/// The name counts among `names`: it is a long one, or a POSIX name where there is no
/// long one. A short name never counts.
pub open spec fn name_counts(names: Seq<MftNameView>, n: MftNameView) -> bool {
    is_long(n) || (n.namespace == 0 && forall|i: int|
        0 <= i < names.len() ==> !is_long(#[trigger] names[i]))
}

proof fn lemma_filter_total(
    names: Seq<MftNameView>,
    keep: spec_fn(MftNameView) -> bool,
    worth: spec_fn(MftNameView) -> nat,
)
    ensures
        total(names.filter(keep), worth) == total(
            names,
            |n: MftNameView|
                if keep(n) {
                    worth(n)
                } else {
                    0
                },
        ),
    decreases names.len(),
{
    reveal(Seq::filter);
    if names.len() > 0 {
        let rest = names.drop_last();
        lemma_filter_total(rest, keep, worth);
        if keep(names.last()) {
            assert(names.filter(keep) == rest.filter(keep).push(names.last()));
            crate::explore::lemma_total_push(rest.filter(keep), names.last(), worth);
        }
    }
}

proof fn lemma_total_same(
    names: Seq<MftNameView>,
    a: spec_fn(MftNameView) -> nat,
    b: spec_fn(MftNameView) -> nat,
)
    requires
        forall|n: MftNameView| #[trigger] a(n) == b(n),
    ensures
        total(names, a) == total(names, b),
    decreases names.len(),
{
    if names.len() > 0 {
        lemma_total_same(names.drop_last(), a, b);
    }
}

/// A record is filed under those of its names that count, and under nothing else.
pub proof fn law_names_that_count(
    names: Seq<MftNameView>,
    worth: spec_fn(MftNameView) -> nat,
)
    ensures
        total(effective_names(names), worth) == total(
            names,
            |n: MftNameView|
                if name_counts(names, n) {
                    worth(n)
                } else {
                    0
                },
        ),
        forall|i: int|
            0 <= i < effective_names(names).len() ==> names.contains(
                #[trigger] effective_names(names)[i],
            ) && name_counts(names, effective_names(names)[i]),
{
    let long = |n: MftNameView| crate::mft::record::is_win32_name(n);
    let posix = |n: MftNameView| n.namespace == 0;
    let some_long = exists|i: int|
        0 <= i < names.len() && crate::mft::record::is_win32_name(#[trigger] names[i]);
    let keep = if some_long {
        long
    } else {
        posix
    };
    assert(effective_names(names) == names.filter(keep));
    assert(some_long <==> exists|i: int| 0 <= i < names.len() && is_long(#[trigger] names[i]));
    lemma_filter_total(names, keep, worth);
    lemma_kept_total(names, names, keep, worth);
    assert forall|i: int| 0 <= i < effective_names(names).len() implies names.contains(
        #[trigger] effective_names(names)[i],
    ) && name_counts(names, effective_names(names)[i]) by {
        let chosen = effective_names(names);
        assert(chosen.contains(chosen[i]));
        names.lemma_filter_contains_rev(keep, chosen[i]);
        names.lemma_filter_pred(keep, i);
    }
}

proof fn lemma_kept_total(
    all: Seq<MftNameView>,
    names: Seq<MftNameView>,
    keep: spec_fn(MftNameView) -> bool,
    worth: spec_fn(MftNameView) -> nat,
)
    requires
        forall|i: int| 0 <= i < names.len() ==> keep(#[trigger] names[i]) == name_counts(all, names[i]),
    ensures
        total(
            names,
            |n: MftNameView|
                if keep(n) {
                    worth(n)
                } else {
                    0
                },
        ) == total(
            names,
            |n: MftNameView|
                if name_counts(all, n) {
                    worth(n)
                } else {
                    0
                },
        ),
    decreases names.len(),
{
    if names.len() > 0 {
        assert(keep(names[names.len() - 1]) == name_counts(all, names[names.len() - 1]));
        lemma_kept_total(all, names.drop_last(), keep, worth);
    }
}

// ---------------------------------------------------------------------------
// The index
// ---------------------------------------------------------------------------

/// The slot holds a record in use that extends record `k`.
pub open spec fn belongs_to(s: Slot, k: int) -> bool {
    s matches Slot::Record(r) && r.in_use && r.base_record is Some && r.base_record->0.record_no
        == k
}

/// The slot holds a record in use that extends none.
pub open spec fn stands_alone(s: Slot) -> bool {
    s matches Slot::Record(r) && r.in_use && r.base_record is None
}

/// The size of the slots that extend record `k`.
pub open spec fn extra_of(k: int) -> spec_fn(Slot) -> nat {
    |s: Slot|
        if belongs_to(s, k) {
            s->Record_0.logical_size as nat
        } else {
            0
        }
}

proof fn lemma_extension_size(slots: Seq<Slot>, b: int, n: nat)
    requires
        n <= slots.len(),
    ensures
        extension_size(slots, b, n) == total(slots.take(n as int), extra_of(b)),
    decreases n,
{
    if n > 0 {
        lemma_extension_size(slots, b, (n - 1) as nat);
        let now = slots.take(n as int);
        assert(now.drop_last() =~= slots.take(n - 1));
        assert(now.last() == slots[n - 1]);
    }
}

proof fn lemma_slot_counts(slots: Seq<Slot>, n: nat)
    requires
        n <= slots.len(),
    ensures
        scanned(slots, n) == total(
            slots.take(n as int),
            |s: Slot|
                if s is Unread {
                    0nat
                } else {
                    1nat
                },
        ),
        skipped(slots, n) == total(
            slots.take(n as int),
            |s: Slot|
                if s is Record {
                    0nat
                } else {
                    1nat
                },
        ),
    decreases n,
{
    if n > 0 {
        lemma_slot_counts(slots, (n - 1) as nat);
        let now = slots.take(n as int);
        assert(now.drop_last() =~= slots.take(n - 1));
        assert(now.last() == slots[n - 1]);
    }
}

proof fn lemma_file_total(slots: Seq<Slot>, n: nat)
    requires
        n <= slots.len() <= u64::MAX,
    ensures
        file_total(merged_records(slots, slots.len()), n) == total(
            slots.take(n as int),
            |s: Slot|
                if stands_alone(s) && !s->Record_0.is_dir {
                    1nat
                } else {
                    0nat
                },
        ),
        link_total(merged_records(slots, slots.len()), n) == total(
            slots.take(n as int),
            |s: Slot|
                if stands_alone(s) && !s->Record_0.is_dir {
                    more_than_one(effective_names(s->Record_0.names).len())
                } else {
                    0nat
                },
        ),
    decreases n,
{
    if n > 0 {
        lemma_file_total(slots, (n - 1) as nat);
        let now = slots.take(n as int);
        assert(now.drop_last() =~= slots.take(n - 1));
        assert(now.last() == slots[n - 1]);
        let k = (n - 1) as u64;
        assert(merged_records(slots, slots.len()).contains_key(k) <==> stands_alone(slots[n - 1]));
    }
}

/// How many there are beyond the first.
pub open spec fn more_than_one(n: nat) -> nat {
    if n > 1 {
        (n - 1) as nat
    } else {
        0
    }
}

/// The index of a volume holds every record in use that extends no other, with the
/// sizes of its extensions added wherever they stand, and counts slots, files and
/// extra names.
pub proof fn law_index_gathers_the_records(slots: Seq<Slot>, k: u64)
    requires
        enumeration(slots) is Ok,
        slots.len() <= u64::MAX,
    ensures
        ({
            let index = enumeration(slots)->Ok_0;
            &&& index.records.contains_key(k) <==> k < slots.len() && stands_alone(slots[k as int])
            &&& index.records.contains_key(k) ==> index.records[k] == (MftRecordView {
                logical_size: index.records[k].logical_size,
                ..slots[k as int]->Record_0
            })
            &&& index.records.contains_key(k) && slots[k as int]->Record_0.logical_size + total(
                slots,
                extra_of(k as int),
            ) <= u64::MAX ==> index.records[k].logical_size
                == slots[k as int]->Record_0.logical_size + total(slots, extra_of(k as int))
            &&& index.scanned_records == total(
                slots,
                |s: Slot|
                    if s is Unread {
                        0nat
                    } else {
                        1nat
                    },
            )
            &&& index.skipped_records == total(
                slots,
                |s: Slot|
                    if s is Record {
                        0nat
                    } else {
                        1nat
                    },
            )
            &&& index.scanned_files == total(
                slots,
                |s: Slot|
                    if stands_alone(s) && !s->Record_0.is_dir {
                        1nat
                    } else {
                        0nat
                    },
            )
            &&& index.hard_link_entries == capped(
                total(
                    slots,
                    |s: Slot|
                        if stands_alone(s) && !s->Record_0.is_dir {
                            more_than_one(effective_names(s->Record_0.names).len())
                        } else {
                            0nat
                        },
                ),
            )
        }),
{
    let n = slots.len();
    assert(slots.take(n as int) =~= slots);
    lemma_extension_size(slots, k as int, n);
    lemma_slot_counts(slots, n);
    lemma_file_total(slots, n);
}

/// A volume all of whose slots can be read is indexed, as long as slot 5 holds a record
/// in use that extends none and no size exceeds 64 bits.
pub proof fn law_sound_volume_is_indexed(slots: Seq<Slot>)
    requires
        5 < slots.len() <= u64::MAX,
        stands_alone(slots[5]),
        forall|i: int| 0 <= i < slots.len() ==> #[trigger] slots[i] is Record,
        forall|k: int|
            0 <= k < slots.len() && stands_alone(#[trigger] slots[k])
                ==> slots[k]->Record_0.logical_size + total(slots, extra_of(k)) <= u64::MAX,
    ensures
        enumeration(slots) is Ok,
{
    lemma_no_fault(slots, slots.len());
}

proof fn lemma_total_grows(slots: Seq<Slot>, worth: spec_fn(Slot) -> nat, n: nat)
    requires
        n <= slots.len(),
    ensures
        total(slots.take(n as int), worth) <= total(slots, worth),
    decreases slots.len() - n,
{
    if n == slots.len() {
        assert(slots.take(n as int) =~= slots);
    } else {
        lemma_total_grows(slots, worth, n + 1);
        let now = slots.take(n as int + 1);
        assert(now.drop_last() =~= slots.take(n as int));
    }
}

proof fn lemma_no_fault(slots: Seq<Slot>, n: nat)
    requires
        n <= slots.len() <= u64::MAX,
        forall|i: int| 0 <= i < slots.len() ==> #[trigger] slots[i] is Record,
        forall|k: int|
            0 <= k < slots.len() && stands_alone(#[trigger] slots[k])
                ==> slots[k]->Record_0.logical_size + total(slots, extra_of(k)) <= u64::MAX,
    ensures
        first_fault(slots, n) is None,
    decreases n,
{
    if n > 0 {
        let m = (n - 1) as nat;
        lemma_no_fault(slots, m);
        let s = slots[m as int];
        if stands_alone(s) {
            lemma_extension_size(slots, m as int, m);
            lemma_total_grows(slots, extra_of(m as int), m);
        } else if crate::mft::index::is_extension(s) && crate::mft::index::has_base(slots, s, m) {
            let b = s->Record_0.base_record->0.record_no;
            assert(stands_alone(slots[b as int]));
            lemma_extension_size(slots, b as int, n);
            lemma_total_grows(slots, extra_of(b as int), n);
        }
    }
}

// ---------------------------------------------------------------------------
// Files in directories
// ---------------------------------------------------------------------------

/// The record is a file in use that does not belong to the file system itself.
pub open spec fn is_user_file(recs: Map<u64, MftRecordView>, no: u64) -> bool {
    recs.contains_key(no) && recs[no].in_use && !recs[no].is_dir && (no >= 16 || no == 5)
}

/// How many names of the record that count are names in `p`.
pub open spec fn names_under(names: Seq<MftNameView>, p: FileRef) -> nat {
    total(
        effective_names(names),
        |n: MftNameView|
            if n.parent == p {
                1nat
            } else {
                0nat
            },
    )
}

proof fn lemma_names_in_dir(names: Seq<MftNameView>, p: FileRef, n: nat)
    requires
        n <= names.len(),
    ensures
        names_in_dir(names, p, n) == total(
            names.take(n as int),
            |n: MftNameView|
                if n.parent == p {
                    1nat
                } else {
                    0nat
                },
        ),
    decreases n,
{
    if n > 0 {
        lemma_names_in_dir(names, p, (n - 1) as nat);
        let now = names.take(n as int);
        assert(now.drop_last() =~= names.take(n - 1));
        assert(now.last() == names[n - 1]);
    }
}

/// What a record adds to the number of files in `p`.
pub open spec fn adds_files(recs: Map<u64, MftRecordView>, p: FileRef) -> spec_fn(u64) -> nat {
    |no: u64|
        if is_user_file(recs, no) {
            names_under(recs[no].names, p)
        } else {
            0
        }
}

/// What a record adds to the size of the files in `p`.
pub open spec fn adds_bytes(recs: Map<u64, MftRecordView>, p: FileRef) -> spec_fn(u64) -> nat {
    |no: u64|
        if is_user_file(recs, no) {
            names_under(recs[no].names, p) * recs[no].logical_size as nat
        } else {
            0
        }
}

/// What a record adds to the size of the file system's own records.
pub open spec fn adds_system_bytes(recs: Map<u64, MftRecordView>) -> spec_fn(u64) -> nat {
    |no: u64|
        if no < 16 && no != 5 {
            recs[no].logical_size as nat
        } else {
            0
        }
}

proof fn lemma_dir_totals(recs: Map<u64, MftRecordView>, keys: Seq<u64>, p: FileRef, n: nat)
    requires
        n <= keys.len(),
    ensures
        files_in_dir(recs, keys, p, n) == total(keys.take(n as int), adds_files(recs, p)),
        bytes_in_dir(recs, keys, p, n) == total(keys.take(n as int), adds_bytes(recs, p)),
        system_bytes(recs, keys, n) == total(keys.take(n as int), adds_system_bytes(recs)),
    decreases n,
{
    if n > 0 {
        lemma_dir_totals(recs, keys, p, (n - 1) as nat);
        let now = keys.take(n as int);
        let no = keys[n - 1];
        assert(now.drop_last() =~= keys.take(n - 1));
        assert(now.last() == no);
        let names = filed_names(recs, no);
        lemma_names_in_dir(names, p, names.len());
        assert(names.take(names.len() as int) =~= names);
    }
}

/// The files directly in a directory are the names in it of the files of the volume:
/// each adds one to their number and its size to their size. What belongs to the file
/// system itself is counted apart.
pub proof fn law_files_are_counted_where_they_are_named(
    recs: Map<u64, MftRecordView>,
    excluded_paths: Seq<Seq<char>>,
    drive: char,
    env: EnvVarsView,
    nos: Seq<u64>,
    p: FileRef,
)
    requires
        nos.no_duplicates(),
        forall|no: u64| #[trigger] nos.contains(no) <==> recs.contains_key(no),
    ensures
        ({
            let g = graph_of(recs, excluded_paths, drive, env);
            &&& g.nodes.contains_key(p) ==> g.nodes[p].direct_file_count == capped(
                total(nos, adds_files(recs, p)),
            )
            &&& g.nodes.contains_key(p) ==> g.nodes[p].direct_file_size_bytes == capped(
                total(nos, adds_bytes(recs, p)),
            )
            &&& g.system_metadata_size_bytes == capped(total(nos, adds_system_bytes(recs)))
        }),
{
    let keys = ascending_keys(recs.dom());
    lemma_keys_listed(recs.dom());
    lemma_dir_totals(recs, keys, p, keys.len());
    assert(keys.take(keys.len() as int) =~= keys);
    assert forall|no: u64| #[trigger] keys.contains(no) <==> nos.contains(no) by {
        assert(recs.dom().contains(no) <==> recs.contains_key(no));
    }
    assert(keys.no_duplicates());
    lemma_same_total(keys, nos, adds_files(recs, p));
    lemma_same_total(keys, nos, adds_bytes(recs, p));
    lemma_same_total(keys, nos, adds_system_bytes(recs));
}

// ---------------------------------------------------------------------------
// Where directories hang
// ---------------------------------------------------------------------------

/// The name says that the directory `r` lies in `p`, a directory in use with that
/// sequence number.
pub open spec fn names_parent(
    recs: Map<u64, MftRecordView>,
    r: FileRef,
    n: MftNameView,
    p: FileRef,
) -> bool {
    n.parent == p && p != r && is_user_dir(recs, p)
}

/// `r` is a directory in use that does not belong to the file system itself.
pub open spec fn is_user_dir(recs: Map<u64, MftRecordView>, r: FileRef) -> bool {
    &&& recs.contains_key(r.record_no)
    &&& recs[r.record_no].id == r
    &&& recs[r.record_no].is_dir
    &&& recs[r.record_no].in_use
    &&& r.record_no >= 16 || r.record_no == 5
}

proof fn lemma_first_link(
    recs: Map<u64, MftRecordView>,
    r: FileRef,
    names: Seq<MftNameView>,
    n: nat,
)
    requires
        n <= names.len(),
    ensures
        match first_link(recs, r, names, n) {
            Some(link) => exists|i: int|
                0 <= i < n && #[trigger] names[i] == link && names_parent(recs, r, link, link.parent)
                    && forall|j: int|
                    0 <= j < i ==> !names_parent(
                        recs,
                        r,
                        #[trigger] names[j],
                        names[j].parent,
                    ),
            None => forall|j: int|
                0 <= j < n ==> !names_parent(recs, r, #[trigger] names[j], names[j].parent),
        },
    decreases n,
{
    if n > 0 {
        lemma_first_link(recs, r, names, (n - 1) as nat);
        match first_link(recs, r, names, (n - 1) as nat) {
            Some(link) => {
                let i = choose|i: int|
                    0 <= i < n - 1 && #[trigger] names[i] == link && names_parent(
                        recs,
                        r,
                        link,
                        link.parent,
                    ) && forall|j: int|
                        0 <= j < i ==> !names_parent(
                            recs,
                            r,
                            #[trigger] names[j],
                            names[j].parent,
                        );
                assert(0 <= i < n && names[i] == link);
            },
            None => {
                if first_link(recs, r, names, n) is Some {
                    assert(names[n - 1] == first_link(recs, r, names, n)->0);
                }
            },
        }
    }
}

/// A directory is listed by the one that its first usable name says, under that name;
/// a name that refers to a record which was reused since, or is no directory, does not
/// count.
pub proof fn law_directory_lies_where_its_name_says(
    recs: Map<u64, MftRecordView>,
    excluded_paths: Seq<Seq<char>>,
    drive: char,
    env: EnvVarsView,
    p: FileRef,
    r: FileRef,
)
    requires
        filed_by_number(recs),
        ({
            let g = graph_of(recs, excluded_paths, drive, env);
            kids_of(g.children, p).contains(r)
        }),
    ensures
        ({
            let g = graph_of(recs, excluded_paths, drive, env);
            let names = effective_names(recs[r.record_no].names);
            &&& is_user_dir(recs, r)
            &&& exists|i: int|
                0 <= i < names.len() && names_parent(recs, r, #[trigger] names[i], p)
                    && g.nodes[r].display_name == names[i].name && forall|j: int|
                    0 <= j < i ==> !names_parent(
                        recs,
                        r,
                        #[trigger] names[j],
                        names[j].parent,
                    )
        }),
{
    let g = graph_of(recs, excluded_paths, drive, env);
    let names = effective_names(recs[r.record_no].names);
    lemma_keys_listed(recs.dom());
    lemma_tree_kids(recs, ascending_keys(recs.dom()), p);
    assert(tree_kids(recs, p).contains(r));
    lemma_first_link(recs, r, names, names.len());
    let link = link_of(recs, r)->0;
    let i = choose|i: int|
        0 <= i < names.len() && #[trigger] names[i] == link && names_parent(
            recs,
            r,
            link,
            link.parent,
        ) && forall|j: int|
            0 <= j < i ==> !names_parent(recs, r, #[trigger] names[j], names[j].parent);
    lemma_display(recs, excluded_paths, drive, env, p, r);
    assert(names_parent(recs, r, names[i], p));
}

proof fn lemma_display(
    recs: Map<u64, MftRecordView>,
    excluded_paths: Seq<Seq<char>>,
    drive: char,
    env: EnvVarsView,
    p: FileRef,
    r: FileRef,
)
    requires
        filed_by_number(recs),
        ({
            let g = graph_of(recs, excluded_paths, drive, env);
            kids_of(g.children, p).contains(r)
        }),
        link_of(recs, r) is Some,
    ensures
        graph_of(recs, excluded_paths, drive, env).nodes[r].display_name == link_of(
            recs,
            r,
        )->0.name,
{
    law_children_follow_their_parent(recs, excluded_paths, drive, env, p, r);
    assert(in_tree(recs, r));
    let root = tree_root(recs)->0;
    assert(at_level(recs, root, r, level_of(recs, r)));
    assert(level_of(recs, r) > 0) by {
        if level_of(recs, r) == 0 {
            assert(r == root);
        }
    }
}

/// Every directory in use whose first usable name says that it lies in a directory of
/// the tree is listed there.
pub proof fn law_directory_in_the_tree_is_listed(
    recs: Map<u64, MftRecordView>,
    excluded_paths: Seq<Seq<char>>,
    drive: char,
    env: EnvVarsView,
    p: FileRef,
    r: FileRef,
    i: int,
)
    requires
        filed_by_number(recs),
        graph_of(recs, excluded_paths, drive, env).nodes.contains_key(p),
        is_user_dir(recs, r),
        r.record_no != 5,
        ({
            let names = effective_names(recs[r.record_no].names);
            &&& 0 <= i < names.len()
            &&& names_parent(recs, r, names[i], p)
            &&& forall|j: int|
                0 <= j < i ==> !names_parent(recs, r, #[trigger] names[j], names[j].parent)
        }),
    ensures
        ({
            let g = graph_of(recs, excluded_paths, drive, env);
            &&& g.nodes.contains_key(r)
            &&& kids_of(g.children, p).contains(r)
        }),
{
    let names = effective_names(recs[r.record_no].names);
    lemma_first_link(recs, r, names, names.len());
    let link = link_of(recs, r);
    assert(link is Some) by {
        assert(names_parent(recs, r, names[i], names[i].parent));
    }
    let k = choose|k: int|
        0 <= k < names.len() && #[trigger] names[k] == link->0 && names_parent(
            recs,
            r,
            link->0,
            link->0.parent,
        ) && forall|j: int|
            0 <= j < k ==> !names_parent(recs, r, #[trigger] names[j], names[j].parent);
    if k < i {
        assert(!names_parent(recs, r, names[k], names[k].parent));
    } else if i < k {
        assert(!names_parent(recs, r, names[i], names[i].parent));
    }
    lemma_keys_listed(recs.dom());
    lemma_tree_kids(recs, ascending_keys(recs.dom()), p);
    assert(tree_kids(recs, p).contains(r));
    let root = tree_root(recs)->0;
    let d = choose|d: nat| at_level(recs, root, p, d);
    assert(((d + 1) - 1) as nat == d);
    assert(at_level(recs, root, r, d + 1));
    assert(in_tree(recs, r));
}

} // verus!
