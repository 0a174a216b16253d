//! Building the directory graph from the index of a volume.

use super::aggregate::{
    aggregate_and_exclude, is_closed, law_totals_add_up, shown_subtotal, shown_totals,
};
use super::graph::{
    children_view, kids_of, nodes_view, DirectoryGraph, DirectoryNode, DirectoryNodeView,
    GraphDiagnostics,
};
use super::order::is_tree;
use super::tree_model::{
    at_level, bytes_in_dir, count32, dir_total, filed_names, files_in_dir, findings, first_link,
    graph_of, hanging, hangs_under, in_tree, is_dir_ref, is_directory, is_plain_file, level_of,
    link_of, low32, names_in_dir, names_itself, names_of_kind, parent_kind, plain_tree,
    second_parents, stored_depth, system_bytes, tree_kids, tree_node, tree_nodes, tree_path,
    tree_root, Finding, ParentKind,
};
use super::walk::{descends, reachable};
use crate::keys::{ascending_keys, lemma_keys_listed, lists_ascending, sorted_keys};
use crate::mft::index::{records_view, sat64, ROOT_RECORD_NO};

use crate::mft::types::{names_view, MftNameView, MftRecordView};
use crate::mft::{select_effective_names, FileRef, MftIndex, MftName, MftRecord};
use crate::models::{strings_view, AccessState};
use crate::paths::{
    drive_root, drive_root_path, join_path, joined, normal_list, normalize_excluded, EnvVars,
    EnvVarsView,
};
use crate::refmap::RefMap;
use std::collections::HashMap;
use vstd::prelude::*;

verus! {

/// A directory while its graph is being built.
struct Draft {
    reparse_tag: Option<u32>,
    bytes: u64,
    files: u64,
    /// The name under which it hangs, once it is known.
    link: Option<MftName>,
    kids: Vec<FileRef>,
}

/// Every record is filed under its own number.
pub open spec fn filed_by_number(recs: Map<u64, MftRecordView>) -> bool {
    forall|k: u64| #[trigger] recs.contains_key(k) ==> recs[k].id.record_no == k
}

/// The drafts are those of the directories.
spec fn drafts_cover(drafts: Map<FileRef, Draft>, recs: Map<u64, MftRecordView>) -> bool {
    forall|r: FileRef| #[trigger] drafts.contains_key(r) <==> is_dir_ref(recs, r)
}

/// Makes a draft for every directory.
fn draft_directories(records: &HashMap<u64, MftRecord>, keys: &Vec<u64>) -> (drafts: RefMap<Draft>)
    requires
        lists_ascending(records@.dom(), keys@),
        filed_by_number(records_view(records@)),
    ensures
        drafts.wf(),
        drafts_cover(drafts@, records_view(records@)),
        drafts.order().len() == dir_total(records_view(records@), keys@, keys@.len()),
        forall|r: FileRef| #[trigger]
            drafts@.contains_key(r) ==> {
                &&& drafts@[r].reparse_tag == records_view(records@)[r.record_no].reparse_tag
                &&& drafts@[r].bytes == 0
                &&& drafts@[r].files == 0
                &&& drafts@[r].link is None
                &&& drafts@[r].kids@.len() == 0
            },
{
    let ghost recs = records_view(records@);
    let mut drafts: RefMap<Draft> = RefMap::new();
    let mut i: usize = 0;
    while i < keys.len()
        invariant
            i <= keys@.len(),
            drafts.wf(),
            recs == records_view(records@),
            lists_ascending(records@.dom(), keys@),
            filed_by_number(recs),
            forall|r: FileRef| #[trigger]
                drafts@.contains_key(r) <==> is_dir_ref(recs, r) && exists|j: int|
                    0 <= j < i && #[trigger] keys@[j] == r.record_no,
            drafts.order().len() == dir_total(recs, keys@, i as nat),
            forall|r: FileRef| #[trigger]
                drafts@.contains_key(r) ==> {
                    &&& drafts@[r].reparse_tag == recs[r.record_no].reparse_tag
                    &&& drafts@[r].bytes == 0
                    &&& drafts@[r].files == 0
                    &&& drafts@[r].link is None
                    &&& drafts@[r].kids@.len() == 0
                },
        decreases keys@.len() - i,
    {
        let no: u64 = keys[i];
        let ghost before = drafts@;
        assert(records@.contains_key(no)) by {
            assert(keys@.contains(no));
        }
        match records.get(&no) {
            Some(rec) => {
                assert(recs[no] == rec@);
                if !(no < 16 && no != ROOT_RECORD_NO) && rec.is_dir && rec.in_use {
                    let id: FileRef = rec.id;
                    proof {
                        assert(recs.contains_key(no));
                        assert(id.record_no == no);
                        assert(is_dir_ref(recs, id));
                        if before.contains_key(id) {
                            let j = choose|j: int| 0 <= j < i && #[trigger] keys@[j] == id.record_no;
                            assert(keys@[j] < keys@[i as int]);
                        }
                        assert(!before.contains_key(id));
                    }
                    drafts.insert(
                        id,
                        Draft {
                            reparse_tag: rec.reparse_tag,
                            bytes: 0,
                            files: 0,
                            link: None,
                            kids: Vec::new(),
                        },
                    );
                }
            },
            None => {},
        }
        proof {
            assert forall|r: FileRef| #[trigger]
                drafts@.contains_key(r) <==> is_dir_ref(recs, r) && exists|j: int|
                    0 <= j < i + 1 && #[trigger] keys@[j] == r.record_no by {
                if is_dir_ref(recs, r) && r.record_no == no {
                    assert(r == recs[no].id);
                    assert(keys@[i as int] == r.record_no);
                }
                if before.contains_key(r) {
                    let j = choose|j: int| 0 <= j < i && #[trigger] keys@[j] == r.record_no;
                    assert(0 <= j < i + 1 && keys@[j] == r.record_no);
                }
            }
        }
        i += 1;
    }
    proof {
        assert forall|r: FileRef| #[trigger] drafts@.contains_key(r) <==> is_dir_ref(recs, r) by {
            if is_dir_ref(recs, r) {
                assert(records@.contains_key(r.record_no));
                assert(keys@.contains(r.record_no));
            }
        }
    }
    drafts
}

/// What a reference to a parent refers to.
fn classify(records: &HashMap<u64, MftRecord>, p: FileRef) -> (r: ParentKind)
    requires
        filed_by_number(records_view(records@)),
    ensures
        r == parent_kind(records_view(records@), p),
{
    let ghost recs = records_view(records@);
    match records.get(&p.record_no) {
        None => ParentKind::Missing,
        Some(rec) => {
            assert(recs[p.record_no] == rec@);
            assert(rec.id.record_no == p.record_no);
            if rec.id.sequence != p.sequence {
                ParentKind::Stale
            } else if !(p.record_no < 16 && p.record_no != ROOT_RECORD_NO) && rec.is_dir
                && rec.in_use {
                ParentKind::Directory
            } else {
                ParentKind::Other
            }
        },
    }
}

/// The counters hold the findings in the first `n` records.
spec fn counters_at(
    d: GraphDiagnostics,
    recs: Map<u64, MftRecordView>,
    keys: Seq<u64>,
    n: nat,
) -> bool {
    &&& d.stale_sequence_dirs == sat64(findings(recs, keys, Finding::StaleDirs, n))
    &&& d.stale_sequence_files == sat64(findings(recs, keys, Finding::StaleFiles, n))
    &&& d.missing_parent == sat64(findings(recs, keys, Finding::MissingParent, n))
    &&& d.duplicate_dir_entry == sat64(findings(recs, keys, Finding::DuplicateDirEntry, n))
    &&& d.cycle_nodes == sat64(findings(recs, keys, Finding::Cycle, n))
    &&& d.non_dir_parent_files == sat64(findings(recs, keys, Finding::OtherParentFiles, n))
    &&& d.non_dir_parent_dirs == sat64(findings(recs, keys, Finding::OtherParentDirs, n))
    &&& d.unreachable_nodes == 0
    &&& !d.root_missing
}

/// The drafts hold the files of the first `n` records.
spec fn files_at(
    drafts: Map<FileRef, Draft>,
    recs: Map<u64, MftRecordView>,
    keys: Seq<u64>,
    n: nat,
) -> bool {
    forall|r: FileRef| #[trigger]
        drafts.contains_key(r) ==> {
            &&& drafts[r].bytes == sat64(bytes_in_dir(recs, keys, r, n))
            &&& drafts[r].files == sat64(files_in_dir(recs, keys, r, n))
        }
}

/// The drafts `a` and `b` agree in everything but the files.
spec fn same_but_files(a: Map<FileRef, Draft>, b: Map<FileRef, Draft>) -> bool {
    &&& forall|r: FileRef| #[trigger] a.contains_key(r) <==> b.contains_key(r)
    &&& forall|r: FileRef| #[trigger]
        a.contains_key(r) ==> a[r].reparse_tag == b[r].reparse_tag && a[r].link == b[r].link
            && a[r].kids@ == b[r].kids@
}

/// Adds the file in record `no` to the directories in which it is filed.
fn add_file(
    records: &HashMap<u64, MftRecord>,
    drafts: &mut RefMap<Draft>,
    diagnostics: &mut GraphDiagnostics,
    no: u64,
    Ghost(keys): Ghost<Seq<u64>>,
    Ghost(n): Ghost<nat>,
)
    requires
        old(drafts).wf(),
        filed_by_number(records_view(records@)),
        n < keys.len(),
        keys[n as int] == no,
        is_plain_file(records_view(records@), no),
        drafts_cover(old(drafts)@, records_view(records@)),
        files_at(old(drafts)@, records_view(records@), keys, n),
        counters_at(*old(diagnostics), records_view(records@), keys, n),
    ensures
        final(drafts).wf(),
        final(drafts).order() == old(drafts).order(),
        drafts_cover(final(drafts)@, records_view(records@)),
        same_but_files(final(drafts)@, old(drafts)@),
        files_at(final(drafts)@, records_view(records@), keys, n + 1),
        counters_at(*final(diagnostics), records_view(records@), keys, n + 1),
{
    let ghost recs = records_view(records@);
    assert(records@.contains_key(no));
    match records.get(&no) {
        Some(rec) => {
            assert(recs[no] == rec@);
            let names: Vec<MftName> = select_effective_names(rec.names.as_slice());
            let ghost all = filed_names(recs, no);
            assert(all == names_view(names@));
            let size: u64 = rec.logical_size;
            let mut i: usize = 0;
            let ghost d0 = *diagnostics;
            assert(drafts@ =~= old(drafts)@);
            proof {
                assert forall|r: FileRef| #[trigger] drafts@.contains_key(r) implies {
                    &&& drafts@[r].bytes == sat64(
                        bytes_in_dir(recs, keys, r, n) + names_in_dir(all, r, 0) * size as nat,
                    )
                    &&& drafts@[r].files == sat64(
                        files_in_dir(recs, keys, r, n) + names_in_dir(all, r, 0),
                    )
                } by {
                    assert(names_in_dir(all, r, 0) * size as nat == 0) by (nonlinear_arith)
                        requires
                            names_in_dir(all, r, 0) == 0,
                    ;
                }
            }
            while i < names.len()
                invariant
                    i <= names@.len(),
                    filed_by_number(recs),
                    recs == records_view(records@),
                    all == names_view(names@),
                    size == recs[no].logical_size,
                    drafts.wf(),
                    drafts.order() == old(drafts).order(),
                    drafts_cover(drafts@, recs),
                    same_but_files(drafts@, old(drafts)@),
                    forall|r: FileRef| #[trigger]
                        drafts@.contains_key(r) ==> {
                            &&& drafts@[r].bytes == sat64(
                                bytes_in_dir(recs, keys, r, n) + names_in_dir(all, r, i as nat)
                                    * size as nat,
                            )
                            &&& drafts@[r].files == sat64(
                                files_in_dir(recs, keys, r, n) + names_in_dir(all, r, i as nat),
                            )
                        },
                    counters_at(d0, recs, keys, n),
                    diagnostics.stale_sequence_files == sat64(
                        findings(recs, keys, Finding::StaleFiles, n) + names_of_kind(
                            recs,
                            all,
                            None,
                            ParentKind::Stale,
                            i as nat,
                        ),
                    ),
                    diagnostics.missing_parent == sat64(
                        findings(recs, keys, Finding::MissingParent, n) + names_of_kind(
                            recs,
                            all,
                            None,
                            ParentKind::Missing,
                            i as nat,
                        ),
                    ),
                    diagnostics.non_dir_parent_files == sat64(
                        findings(recs, keys, Finding::OtherParentFiles, n) + names_of_kind(
                            recs,
                            all,
                            None,
                            ParentKind::Other,
                            i as nat,
                        ),
                    ),
                    *diagnostics == (GraphDiagnostics {
                        stale_sequence_files: diagnostics.stale_sequence_files,
                        missing_parent: diagnostics.missing_parent,
                        non_dir_parent_files: diagnostics.non_dir_parent_files,
                        ..d0
                    }),
                decreases names@.len() - i,
            {
                let p: FileRef = names[i].parent;
                assert(all[i as int] == names@[i as int]@);
                let ghost before = drafts@;
                match classify(records, p) {
                    ParentKind::Directory => {
                        match drafts.position(p) {
                            Some(at) => {
                                let slot = drafts.value_mut(at);
                                slot.bytes = slot.bytes.saturating_add(size);
                                slot.files = slot.files.saturating_add(1);
                            },
                            None => {
                                assert(before.contains_key(p));
                            },
                        }
                    },
                    ParentKind::Missing => {
                        diagnostics.missing_parent = diagnostics.missing_parent.saturating_add(1);
                    },
                    ParentKind::Stale => {
                        diagnostics.stale_sequence_files =
                        diagnostics.stale_sequence_files.saturating_add(1);
                    },
                    ParentKind::Other => {
                        diagnostics.non_dir_parent_files =
                        diagnostics.non_dir_parent_files.saturating_add(1);
                    },
                }
                proof {
                    assert forall|r: FileRef| #[trigger] drafts@.contains_key(r) implies {
                        &&& drafts@[r].bytes == sat64(
                            bytes_in_dir(recs, keys, r, n) + names_in_dir(all, r, (i + 1) as nat)
                                * size as nat,
                        )
                        &&& drafts@[r].files == sat64(
                            files_in_dir(recs, keys, r, n) + names_in_dir(all, r, (i + 1) as nat),
                        )
                    } by {
                        assert(before.contains_key(r));
                        let c = names_in_dir(all, r, i as nat);
                        assert((c + 1) * size as nat == c * size as nat + size as nat)
                            by (nonlinear_arith);
                        if r != p {
                            assert(drafts@[r] == before[r]);
                        }
                    }
                }
                i += 1;
            }
        },
        None => {},
    }
}

/// The drafts hold the links and the kids that the first `n` records give.
spec fn links_at(
    drafts: Map<FileRef, Draft>,
    recs: Map<u64, MftRecordView>,
    keys: Seq<u64>,
    n: nat,
) -> bool {
    &&& forall|r: FileRef| #[trigger]
        drafts.contains_key(r) ==> drafts[r].kids@ == hanging(recs, keys, r, n)
    &&& forall|r: FileRef, j: int|
        #![trigger drafts.contains_key(r), keys[j]]
        drafts.contains_key(r) && 0 <= j < n && keys[j] == r.record_no ==> link_view(drafts[r].link)
            == link_of(recs, r)
}

spec fn link_view(link: Option<MftName>) -> Option<MftNameView> {
    match link {
        Some(n) => Some(n@),
        None => None,
    }
}

/// Finds the first name whose parent is another directory, and counts what is
/// noticed about the names of the directory in record `no`.
fn find_link(
    records: &HashMap<u64, MftRecord>,
    diagnostics: &mut GraphDiagnostics,
    no: u64,
    Ghost(keys): Ghost<Seq<u64>>,
    Ghost(n): Ghost<nat>,
) -> (r: Option<MftName>)
    requires
        filed_by_number(records_view(records@)),
        n < keys.len(),
        keys[n as int] == no,
        is_directory(records_view(records@), no),
        no != ROOT_RECORD_NO,
        counters_at(*old(diagnostics), records_view(records@), keys, n),
    ensures
        counters_at(*final(diagnostics), records_view(records@), keys, n + 1),
        link_view(r) == link_of(records_view(records@), records_view(records@)[no].id),
{
    let ghost recs = records_view(records@);
    assert(records@.contains_key(no));
    let rec: &MftRecord = match records.get(&no) {
        Some(rec) => rec,
        None => {
            assert(false);
            return None;
        },
    };
    assert(recs[no] == rec@);
    let id: FileRef = rec.id;
    assert(id.record_no == no);
    let names: Vec<MftName> = select_effective_names(rec.names.as_slice());
    let ghost all = filed_names(recs, no);
    assert(all == names_view(names@));
    let ghost d0 = *diagnostics;
    let mut link: Option<MftName> = None;
    let mut itself: bool = false;
    let mut i: usize = 0;
    while i < names.len()
        invariant
            i <= names@.len(),
            filed_by_number(recs),
            recs == records_view(records@),
            all == names_view(names@),
            link_view(link) == first_link(recs, id, all, i as nat),
            itself == (exists|j: int| 0 <= j < i && (#[trigger] all[j]).parent == id),
            counters_at(d0, recs, keys, n),
            diagnostics.stale_sequence_dirs == sat64(
                findings(recs, keys, Finding::StaleDirs, n) + names_of_kind(
                    recs,
                    all,
                    Some(id),
                    ParentKind::Stale,
                    i as nat,
                ),
            ),
            diagnostics.missing_parent == sat64(
                findings(recs, keys, Finding::MissingParent, n) + names_of_kind(
                    recs,
                    all,
                    Some(id),
                    ParentKind::Missing,
                    i as nat,
                ),
            ),
            diagnostics.non_dir_parent_dirs == sat64(
                findings(recs, keys, Finding::OtherParentDirs, n) + names_of_kind(
                    recs,
                    all,
                    Some(id),
                    ParentKind::Other,
                    i as nat,
                ),
            ),
            diagnostics.duplicate_dir_entry == sat64(
                findings(recs, keys, Finding::DuplicateDirEntry, n) + second_parents(
                    recs,
                    id,
                    all,
                    i as nat,
                ),
            ),
            *diagnostics == (GraphDiagnostics {
                stale_sequence_dirs: diagnostics.stale_sequence_dirs,
                missing_parent: diagnostics.missing_parent,
                non_dir_parent_dirs: diagnostics.non_dir_parent_dirs,
                duplicate_dir_entry: diagnostics.duplicate_dir_entry,
                ..d0
            }),
        decreases names@.len() - i,
    {
        let p: FileRef = names[i].parent;
        assert(all[i as int] == names@[i as int]@);
        if p == id {
            itself = true;
            assert(all[i as int].parent == id);
        } else {
            match classify(records, p) {
                ParentKind::Missing => {
                    diagnostics.missing_parent = diagnostics.missing_parent.saturating_add(1);
                },
                ParentKind::Stale => {
                    diagnostics.stale_sequence_dirs =
                    diagnostics.stale_sequence_dirs.saturating_add(1);
                },
                ParentKind::Other => {
                    diagnostics.non_dir_parent_dirs =
                    diagnostics.non_dir_parent_dirs.saturating_add(1);
                },
                ParentKind::Directory => {
                    match &link {
                        Some(first) => {
                            if first.parent != p {
                                diagnostics.duplicate_dir_entry =
                                diagnostics.duplicate_dir_entry.saturating_add(1);
                            }
                        },
                        None => {
                            link = Some(names[i].copy());
                        },
                    }
                },
            }
        }
        i += 1;
    }
    if itself {
        diagnostics.cycle_nodes = diagnostics.cycle_nodes.saturating_add(1);
    }
    assert(itself == names_itself(id, all));
    link
}

proof fn lemma_first_link(
    recs: Map<u64, MftRecordView>,
    id: FileRef,
    names: Seq<MftNameView>,
    n: nat,
)
    ensures
        first_link(recs, id, names, n) is Some ==> is_dir_ref(
            recs,
            first_link(recs, id, names, n)->0.parent,
        ) && first_link(recs, id, names, n)->0.parent != id,
    decreases n,
{
    if n > 0 {
        lemma_first_link(recs, id, names, (n - 1) as nat);
    }
}

/// Adds every file to its directories, and every directory to its parent.
fn fill_drafts(
    records: &HashMap<u64, MftRecord>,
    keys: &Vec<u64>,
    drafts: &mut RefMap<Draft>,
    diagnostics: &mut GraphDiagnostics,
)
    requires
        lists_ascending(records@.dom(), keys@),
        filed_by_number(records_view(records@)),
        old(drafts).wf(),
        drafts_cover(old(drafts)@, records_view(records@)),
        files_at(old(drafts)@, records_view(records@), keys@, 0),
        links_at(old(drafts)@, records_view(records@), keys@, 0),
        counters_at(*old(diagnostics), records_view(records@), keys@, 0),
    ensures
        final(drafts).wf(),
        final(drafts).order() == old(drafts).order(),
        drafts_cover(final(drafts)@, records_view(records@)),
        files_at(final(drafts)@, records_view(records@), keys@, keys@.len()),
        links_at(final(drafts)@, records_view(records@), keys@, keys@.len()),
        counters_at(*final(diagnostics), records_view(records@), keys@, keys@.len()),
        forall|r: FileRef| #[trigger]
            final(drafts)@.contains_key(r) ==> final(drafts)@[r].reparse_tag == old(
                drafts,
            )@[r].reparse_tag,
{
    let ghost recs = records_view(records@);
    let mut i: usize = 0;
    while i < keys.len()
        invariant
            i <= keys@.len(),
            lists_ascending(records@.dom(), keys@),
            recs == records_view(records@),
            filed_by_number(recs),
            drafts.wf(),
            drafts.order() == old(drafts).order(),
            drafts_cover(old(drafts)@, recs),
            drafts_cover(drafts@, recs),
            files_at(drafts@, recs, keys@, i as nat),
            links_at(drafts@, recs, keys@, i as nat),
            counters_at(*diagnostics, recs, keys@, i as nat),
            forall|r: FileRef| #[trigger]
                drafts@.contains_key(r) ==> drafts@[r].reparse_tag == old(drafts)@[r].reparse_tag,
        decreases keys@.len() - i,
    {
        let no: u64 = keys[i];
        assert(keys@.contains(no));
        assert(recs.contains_key(no));
        let ghost before = drafts@;
        let (is_dir, in_use, id): (bool, bool, FileRef) = match records.get(&no) {
            Some(rec) => (rec.is_dir, rec.in_use, rec.id),
            None => (false, false, FileRef { record_no: 0, sequence: 0 }),
        };
        assert(recs[no] == records@[no]@);
        let system: bool = no < 16 && no != ROOT_RECORD_NO;
        if !system && in_use && !is_dir {
            add_file(records, drafts, diagnostics, no, Ghost(keys@), Ghost(i as nat));
            proof {
                assert forall|r: FileRef| #[trigger] drafts@.contains_key(r) implies drafts@[r].kids@
                    == hanging(recs, keys@, r, (i + 1) as nat) by {
                    assert(before.contains_key(r));
                }
                assert forall|r: FileRef, j: int|
                    #![trigger drafts@.contains_key(r), keys@[j]]
                    drafts@.contains_key(r) && 0 <= j < i + 1 && keys@[j]
                        == r.record_no implies link_view(drafts@[r].link) == link_of(recs, r) by {
                    assert(before.contains_key(r));
                    assert(is_dir_ref(recs, r));
                }
            }
        } else if !system && in_use && is_dir {
            assert(id.record_no == no && is_dir_ref(recs, id));
            assert(before.contains_key(id));
            let link: Option<MftName> = if no == ROOT_RECORD_NO {
                None
            } else {
                find_link(records, diagnostics, no, Ghost(keys@), Ghost(i as nat))
            };
            assert(link_view(link) == link_of(recs, id));
            proof {
                let names = filed_names(recs, no);
                lemma_first_link(recs, id, names, names.len());
                assert(hangs_under(recs, no, id) == false);
            }
            match &link {
                Some(l) => {
                    let p: FileRef = l.parent;
                    assert(is_dir_ref(recs, p) && p != id);
                    assert(before.contains_key(p));
                    match drafts.position(p) {
                        Some(at) => {
                            let slot = drafts.value_mut(at);
                            slot.kids.push(id);
                        },
                        None => {},
                    }
                },
                None => {},
            }
            let ghost middle = drafts@;
            proof {
                assert forall|r: FileRef| #[trigger] middle.contains_key(r) implies middle[r].kids@
                    == hanging(recs, keys@, r, (i + 1) as nat) && middle[r].link == before[r].link
                    && middle[r].bytes == before[r].bytes && middle[r].files == before[r].files
                    && middle[r].reparse_tag == before[r].reparse_tag && before.contains_key(r) by {
                    if link is None || r != link->0.parent {
                        assert(!hangs_under(recs, no, r));
                    } else {
                        assert(hangs_under(recs, no, r));
                    }
                }
            }
            match drafts.position(id) {
                Some(at) => {
                    let slot = drafts.value_mut(at);
                    slot.link = link;
                },
                None => {
                    assert(middle.contains_key(id));
                },
            }
            proof {
                assert forall|r: FileRef| #[trigger] drafts@.contains_key(r) implies drafts@[r].kids@
                    == hanging(recs, keys@, r, (i + 1) as nat) && drafts@[r].bytes
                    == before[r].bytes && drafts@[r].files == before[r].files
                    && drafts@[r].reparse_tag == before[r].reparse_tag && before.contains_key(
                    r,
                ) by {
                    assert(middle.contains_key(r));
                    if r != id {
                        assert(drafts@[r] == middle[r]);
                    }
                }
                assert forall|r: FileRef, j: int|
                    #![trigger drafts@.contains_key(r), keys@[j]]
                    drafts@.contains_key(r) && 0 <= j < i + 1 && keys@[j]
                        == r.record_no implies link_view(drafts@[r].link) == link_of(recs, r) by {
                    assert(middle.contains_key(r));
                    if r != id {
                        assert(drafts@[r] == middle[r]);
                        assert(is_dir_ref(recs, r));
                        assert(j < i);
                    }
                }
                assert(drafts_cover(drafts@, recs)) by {
                    assert forall|r: FileRef| #[trigger]
                        drafts@.contains_key(r) <==> before.contains_key(r) by {
                        assert(middle.contains_key(r) <==> before.contains_key(r));
                    }
                }
                assert forall|r: FileRef| #[trigger] drafts@.contains_key(r) implies {
                    &&& drafts@[r].bytes == sat64(bytes_in_dir(recs, keys@, r, (i + 1) as nat))
                    &&& drafts@[r].files == sat64(files_in_dir(recs, keys@, r, (i + 1) as nat))
                } by {
                    assert(before.contains_key(r));
                }
                assert(counters_at(*diagnostics, recs, keys@, (i + 1) as nat));
            }
        } else {
            proof {
                assert forall|r: FileRef| #[trigger] drafts@.contains_key(r) implies drafts@[r].kids@
                    == hanging(recs, keys@, r, (i + 1) as nat) by {}
                assert forall|r: FileRef, j: int|
                    #![trigger drafts@.contains_key(r), keys@[j]]
                    drafts@.contains_key(r) && 0 <= j < i + 1 && keys@[j]
                        == r.record_no implies link_view(drafts@[r].link) == link_of(recs, r) by {
                    assert(is_dir_ref(recs, r));
                }
            }
        }
        i += 1;
    }
}

// ---------------------------------------------------------------------------
// Lemmas about the tree
// ---------------------------------------------------------------------------

/// `r` is one of the first `n` records and hangs under `p`.
spec fn hangs_among(
    recs: Map<u64, MftRecordView>,
    keys: Seq<u64>,
    p: FileRef,
    n: nat,
    r: FileRef,
) -> bool {
    exists|j: int| 0 <= j < n && hangs_under(recs, #[trigger] keys[j], p) && recs[keys[j]].id == r
}

/// What hangs under `p` is what the records say.
proof fn lemma_hanging(recs: Map<u64, MftRecordView>, keys: Seq<u64>, p: FileRef, n: nat)
    requires
        n <= keys.len(),
    ensures
        forall|r: FileRef| #[trigger]
            hanging(recs, keys, p, n).contains(r) <==> hangs_among(recs, keys, p, n, r),
    decreases n,
{
    if n > 0 {
        lemma_hanging(recs, keys, p, (n - 1) as nat);
        let before = hanging(recs, keys, p, (n - 1) as nat);
        let now = hanging(recs, keys, p, n);
        assert forall|r: FileRef| #[trigger] now.contains(r) <==> hangs_among(
            recs,
            keys,
            p,
            n,
            r,
        ) by {
            if now.contains(r) {
                let i = choose|i: int| 0 <= i < now.len() && now[i] == r;
                if i < before.len() {
                    assert(before[i] == r);
                    assert(before.contains(r));
                    let j = choose|j: int|
                        0 <= j < n - 1 && hangs_under(recs, #[trigger] keys[j], p)
                            && recs[keys[j]].id == r;
                    assert(hangs_under(recs, keys[j], p));
                } else {
                    assert(hangs_under(recs, keys[n - 1], p));
                }
            }
            if hangs_among(recs, keys, p, n, r) {
                let j = choose|j: int|
                    0 <= j < n && hangs_under(recs, #[trigger] keys[j], p) && recs[keys[j]].id == r;
                if j < n - 1 {
                    assert(hangs_among(recs, keys, p, (n - 1) as nat, r));
                    assert(before.contains(r));
                    let i = choose|i: int| 0 <= i < before.len() && before[i] == r;
                    assert(now[i] == r);
                } else {
                    assert(now[before.len() as int] == r);
                }
            }
        }
    } else {
        assert(hanging(recs, keys, p, n) =~= Seq::<FileRef>::empty());
    }
}

/// A directory is a kid of `p` exactly where its link says so.
pub proof fn lemma_tree_kids(recs: Map<u64, MftRecordView>, keys: Seq<u64>, p: FileRef)
    requires
        filed_by_number(recs),
        lists_ascending(recs.dom(), keys),
        keys == ascending_keys(recs.dom()),
    ensures
        forall|r: FileRef| #[trigger]
            tree_kids(recs, p).contains(r) <==> link_of(recs, r) is Some && link_of(
                recs,
                r,
            )->0.parent == p,
{
    lemma_hanging(recs, keys, p, keys.len());
    let kids = tree_kids(recs, p);
    assert forall|r: FileRef| #[trigger] kids.contains(r) <==> link_of(recs, r) is Some && link_of(
        recs,
        r,
    )->0.parent == p by {
        if kids.contains(r) {
            assert(hangs_among(recs, keys, p, keys.len(), r));
        }
        if link_of(recs, r) is Some && link_of(recs, r)->0.parent == p {
            assert(recs.contains_key(r.record_no));
            assert(keys.contains(r.record_no));
            let j = choose|j: int| 0 <= j < keys.len() && keys[j] == r.record_no;
            assert(hangs_under(recs, keys[j], p));
            assert(hangs_among(recs, keys, p, keys.len(), r));
        }
    }
}

/// Nothing hangs at two levels.
pub proof fn lemma_level_unique(
    recs: Map<u64, MftRecordView>,
    root: FileRef,
    r: FileRef,
    a: nat,
    b: nat,
)
    requires
        filed_by_number(recs),
        tree_root(recs) == Some(root),
        at_level(recs, root, r, a),
        at_level(recs, root, r, b),
    ensures
        a == b,
    decreases a,
{
    assert(root.record_no == ROOT_RECORD_NO);
    if a > 0 && b > 0 {
        lemma_level_unique(recs, root, link_of(recs, r)->0.parent, (a - 1) as nat, (b - 1) as nat);
    }
}

/// Everything in the tree is a directory.
pub proof fn lemma_in_tree_dir(recs: Map<u64, MftRecordView>, root: FileRef, r: FileRef, k: nat)
    requires
        at_level(recs, root, r, k),
    ensures
        is_dir_ref(recs, r),
{
}

/// The kids of a directory hang one level below it.
pub proof fn lemma_kid_level(
    recs: Map<u64, MftRecordView>,
    keys: Seq<u64>,
    root: FileRef,
    p: FileRef,
    k: nat,
    r: FileRef,
)
    requires
        filed_by_number(recs),
        lists_ascending(recs.dom(), keys),
        keys == ascending_keys(recs.dom()),
        at_level(recs, root, p, k),
        tree_kids(recs, p).contains(r),
    ensures
        at_level(recs, root, r, k + 1),
        link_of(recs, r) is Some,
        link_of(recs, r)->0.parent == p,
{
    lemma_tree_kids(recs, keys, p);
    let m: nat = k + 1;
    assert((m - 1) as nat == k);
    assert(at_level(recs, root, r, m));
}

// ---------------------------------------------------------------------------
// Growing the tree
// ---------------------------------------------------------------------------

/// The drafts hold everything that the records say.
spec fn drafts_done(drafts: Map<FileRef, Draft>, recs: Map<u64, MftRecordView>) -> bool {
    let keys = ascending_keys(recs.dom());
    &&& lists_ascending(recs.dom(), keys)
    &&& drafts_cover(drafts, recs)
    &&& files_at(drafts, recs, keys, keys.len())
    &&& links_at(drafts, recs, keys, keys.len())
    &&& forall|r: FileRef| #[trigger]
        drafts.contains_key(r) ==> drafts[r].reparse_tag == recs[r.record_no].reparse_tag
}

/// The node of a directory.
fn make_node(r: FileRef, draft: &Draft, path: String, display_name: String, depth: u32) -> (node:
    DirectoryNode)
    ensures
        node@ == (DirectoryNodeView {
            file_ref: r,
            path: path@,
            display_name: display_name@,
            depth,
            reparse_tag: draft.reparse_tag,
            is_junction: false,
            matched_preset: None,
            category: None,
            auto_migrate: false,
            access_state: AccessState::Unknown,
            scan_status: None,
            migration_id: None,
            linked_target_size_bytes: None,
            visible: false,
            direct_file_size_bytes: draft.bytes,
            direct_file_count: draft.files,
            direct_dir_count: low32(draft.kids@.len()),
            subtree_size_bytes: 0,
            subtree_file_count: 0,
            subtree_dir_count: 0,
            excluded: false,
            reachable_from_root: true,
        }),
{
    DirectoryNode {
        file_ref: r,
        path,
        display_name,
        depth,
        reparse_tag: draft.reparse_tag,
        is_junction: false,
        matched_preset: None,
        category: None,
        auto_migrate: false,
        access_state: AccessState::Unknown,
        scan_status: None,
        migration_id: None,
        linked_target_size_bytes: None,
        visible: false,
        direct_file_size_bytes: draft.bytes,
        direct_file_count: draft.files,
        direct_dir_count: count32(draft.kids.len()),
        subtree_size_bytes: 0,
        subtree_file_count: 0,
        subtree_dir_count: 0,
        excluded: false,
        reachable_from_root: true,
    }
}

/// Every node is the node of its directory.
spec fn nodes_right(
    nodes: &RefMap<DirectoryNode>,
    recs: Map<u64, MftRecordView>,
    root: FileRef,
    drive: char,
) -> bool {
    forall|a: int|
        0 <= a < nodes.order().len() ==> is_node_of(
            (#[trigger] nodes.vals()[a])@,
            recs,
            root,
            drive,
            nodes.order()[a],
        )
}

/// `node` is the node of `r` in the tree.
spec fn is_node_of(
    node: DirectoryNodeView,
    recs: Map<u64, MftRecordView>,
    root: FileRef,
    drive: char,
    r: FileRef,
) -> bool {
    exists|k: nat| #[trigger] at_level(recs, root, r, k) && node == tree_node(recs, drive, r, k)
}

/// Adds the kids of the directory at place `at` to the nodes.
fn add_kids(
    nodes: &mut RefMap<DirectoryNode>,
    drafts: &RefMap<Draft>,
    kids: &Vec<FileRef>,
    at: usize,
    Ghost(recs): Ghost<Map<u64, MftRecordView>>,
    Ghost(root): Ghost<FileRef>,
    Ghost(drive): Ghost<char>,
)
    requires
        old(nodes).wf(),
        drafts.wf(),
        filed_by_number(recs),
        drafts_done(drafts@, recs),
        tree_root(recs) == Some(root),
        at < old(nodes).order().len(),
        kids@ == tree_kids(recs, old(nodes).order()[at as int]),
        nodes_right(old(nodes), recs, root, drive),
    ensures
        final(nodes).wf(),
        old(nodes).order().len() <= final(nodes).order().len(),
        forall|a: int|
            0 <= a < old(nodes).order().len() ==> #[trigger] final(nodes).order()[a] == old(
                nodes,
            ).order()[a],
        nodes_right(final(nodes), recs, root, drive),
        forall|k: FileRef| #[trigger]
            old(nodes)@.contains_key(k) ==> final(nodes)@.contains_key(k),
        forall|i: int| 0 <= i < kids@.len() ==> final(nodes)@.contains_key(#[trigger] kids@[i]),
{
    let ghost keys = ascending_keys(recs.dom());
    let ghost p = nodes.order()[at as int];
    proof {
        nodes.lemma_order();
    }
    let parent_path: String = nodes.value_at(at).path.clone();
    let parent_depth: u32 = nodes.value_at(at).depth;
    assert(is_node_of(nodes.vals()[at as int]@, recs, root, drive, p));
    let ghost k = choose|k: nat| #[trigger]
        at_level(recs, root, p, k) && nodes.vals()[at as int]@ == tree_node(recs, drive, p, k);
    assert(parent_path@ == tree_path(recs, drive, p, k));
    let mut i: usize = 0;
    while i < kids.len()
        invariant
            i <= kids@.len(),
            nodes.wf(),
            drafts.wf(),
            filed_by_number(recs),
            drafts_done(drafts@, recs),
            keys == ascending_keys(recs.dom()),
            tree_root(recs) == Some(root),
            kids@ == tree_kids(recs, p),
            at_level(recs, root, p, k),
            parent_path@ == tree_path(recs, drive, p, k),
            parent_depth == stored_depth(k),
            old(nodes).order().len() <= nodes.order().len(),
            forall|a: int|
                0 <= a < old(nodes).order().len() ==> #[trigger] nodes.order()[a] == old(
                    nodes,
                ).order()[a],
            nodes_right(nodes, recs, root, drive),
            forall|x: FileRef| #[trigger] old(nodes)@.contains_key(x) ==> nodes@.contains_key(x),
            forall|j: int| 0 <= j < i ==> nodes@.contains_key(#[trigger] kids@[j]),
        decreases kids@.len() - i,
    {
        let kid: FileRef = kids[i];
        proof {
            assert(tree_kids(recs, p).contains(kid));
            lemma_kid_level(recs, keys, root, p, k, kid);
            lemma_in_tree_dir(recs, root, kid, k + 1);
            assert(drafts@.contains_key(kid));
            assert(recs.contains_key(kid.record_no));
            assert(keys.contains(kid.record_no));
        }
        if !nodes.contains_key(&kid) {
            match drafts.get(&kid) {
                Some(draft) => {
                    proof {
                        let j = choose|j: int| 0 <= j < keys.len() && keys[j] == kid.record_no;
                        assert(drafts@.contains_key(kid) && keys[j] == kid.record_no);
                        assert(link_view(draft.link) == link_of(recs, kid));
                    }
                    match &draft.link {
                        Some(link) => {
                            let path = join_path(parent_path.as_str(), link.name.as_str());
                            let depth: u32 = parent_depth.saturating_add(1);
                            let node = make_node(kid, draft, path, link.name.clone(), depth);
                            let ghost order = nodes.order();
                            let ghost vals = nodes.vals();
                            proof {
                                assert(draft.kids@ == tree_kids(recs, kid));
                                assert(depth == stored_depth(k + 1));
                                assert(((k + 1) - 1) as nat == k);
                                assert(path@ == tree_path(recs, drive, kid, k + 1));
                                assert(node@ == tree_node(recs, drive, kid, k + 1));
                                assert(is_node_of(node@, recs, root, drive, kid));
                            }
                            nodes.insert(kid, node);
                            proof {
                                nodes.lemma_order();
                                assert forall|a: int| 0 <= a < nodes.order().len() implies is_node_of(
                                    (#[trigger] nodes.vals()[a])@,
                                    recs,
                                    root,
                                    drive,
                                    nodes.order()[a],
                                ) by {
                                    if a < order.len() {
                                        assert(nodes.vals()[a] == vals[a]);
                                    }
                                }
                            }
                        },
                        None => {},
                    }
                },
                None => {},
            }
        }
        i += 1;
    }
}

/// Grows the tree below the root from the drafts.
fn grow_tree(
    drafts: &RefMap<Draft>,
    root: FileRef,
    drive: char,
    Ghost(recs): Ghost<Map<u64, MftRecordView>>,
) -> (r: (RefMap<DirectoryNode>, RefMap<Vec<FileRef>>))
    requires
        drafts.wf(),
        filed_by_number(recs),
        drafts_done(drafts@, recs),
        tree_root(recs) == Some(root),
    ensures
        r.0.wf(),
        r.1.wf(),
        nodes_view(r.0@) == plain_tree(recs, drive).nodes,
        children_view(r.1@) == plain_tree(recs, drive).children,
        r.0.order().len() <= drafts.order().len(),
{
    let ghost keys = ascending_keys(recs.dom());
    let mut nodes: RefMap<DirectoryNode> = RefMap::new();
    let mut children: RefMap<Vec<FileRef>> = RefMap::new();
    match drafts.get(&root) {
        Some(draft) => {
            let mut name = String::new();
            name.push(drive);
            let node = make_node(root, draft, drive_root_path(drive), name, 0);
            proof {
                assert(name@ =~= seq![drive]);
                assert(draft.kids@ == tree_kids(recs, root));
                assert(at_level(recs, root, root, 0));
                assert(node@ == tree_node(recs, drive, root, 0));
                assert(is_node_of(node@, recs, root, drive, root));
            }
            nodes.insert(root, node);
            proof {
                nodes.lemma_order();
                assert(nodes.vals()[0] == node);
            }
        },
        None => {},
    }
    proof {
        nodes.lemma_order();
        assert(nodes_right(&nodes, recs, root, drive));
        crate::refmap::lemma_submap_len(&nodes, drafts);
    }
    let mut i: usize = 0;
    while i < nodes.len()
        invariant
            drafts.wf(),
            nodes.wf(),
            children.wf(),
            keys == ascending_keys(recs.dom()),
            filed_by_number(recs),
            drafts_done(drafts@, recs),
            tree_root(recs) == Some(root),
            i <= nodes.order().len(),
            nodes.order().len() <= drafts.order().len(),
            drafts@.contains_key(root) ==> nodes@.contains_key(root),
            nodes_right(&nodes, recs, root, drive),
            forall|a: int, j: int|
                #![trigger tree_kids(recs, nodes.order()[a])[j]]
                0 <= a < i && 0 <= j < tree_kids(recs, nodes.order()[a]).len()
                    ==> nodes@.contains_key(tree_kids(recs, nodes.order()[a])[j]),
            forall|p: FileRef| #[trigger]
                children@.contains_key(p) <==> tree_kids(recs, p).len() > 0 && exists|a: int|
                    0 <= a < i && #[trigger] nodes.order()[a] == p,
            forall|p: FileRef| #[trigger]
                children@.contains_key(p) ==> children@[p]@ == tree_kids(recs, p),
        decreases drafts.order().len() - i,
    {
        proof {
            nodes.lemma_order();
        }
        let p: FileRef = nodes.key_at(i);
        let ghost before = nodes.order();
        let ghost edges = children@;
        proof {
            assert(is_node_of(nodes.vals()[i as int]@, recs, root, drive, p));
            let k = choose|k: nat| #[trigger]
                at_level(recs, root, p, k) && nodes.vals()[i as int]@ == tree_node(
                    recs,
                    drive,
                    p,
                    k,
                );
            lemma_in_tree_dir(recs, root, p, k);
            assert(drafts@.contains_key(p));
        }
        match drafts.get(&p) {
            Some(draft) => {
                assert(draft.kids@ == tree_kids(recs, p));
                add_kids(
                    &mut nodes,
                    drafts,
                    &draft.kids,
                    i,
                    Ghost(recs),
                    Ghost(root),
                    Ghost(drive),
                );
                if draft.kids.len() > 0 {
                    children.insert(p, copy_refs(&draft.kids));
                }
            },
            None => {},
        }
        proof {
            nodes.lemma_order();
            assert forall|k: FileRef| #[trigger] nodes@.contains_key(k) implies drafts@.contains_key(
                k,
            ) by {
                let a = choose|a: int| 0 <= a < nodes.order().len() && #[trigger] nodes.order()[a]
                    == k;
                assert(is_node_of(nodes.vals()[a]@, recs, root, drive, k));
                let lv = choose|lv: nat| #[trigger]
                    at_level(recs, root, k, lv) && nodes.vals()[a]@ == tree_node(
                        recs,
                        drive,
                        k,
                        lv,
                    );
                lemma_in_tree_dir(recs, root, k, lv);
            }
            crate::refmap::lemma_submap_len(&nodes, drafts);
            assert forall|a: int, j: int|
                #![trigger tree_kids(recs, nodes.order()[a])[j]]
                0 <= a < i + 1 && 0 <= j < tree_kids(
                    recs,
                    nodes.order()[a],
                ).len() implies nodes@.contains_key(tree_kids(recs, nodes.order()[a])[j]) by {
                assert(nodes.order()[a] == before[a]);
            }
            assert forall|x: FileRef| #[trigger]
                children@.contains_key(x) <==> tree_kids(recs, x).len() > 0 && exists|a: int|
                    0 <= a < i + 1 && #[trigger] nodes.order()[a] == x by {
                if edges.contains_key(x) {
                    let a = choose|a: int| 0 <= a < i && #[trigger] before[a] == x;
                    assert(nodes.order()[a] == x);
                }
                if x == p {
                    assert(nodes.order()[i as int] == x);
                }
                if exists|a: int| 0 <= a < i + 1 && #[trigger] nodes.order()[a] == x {
                    let a = choose|a: int| 0 <= a < i + 1 && #[trigger] nodes.order()[a] == x;
                    assert(before[a] == x);
                }
            }
        }
        i += 1;
    }
    proof {
        lemma_tree_complete(&nodes, recs, root, drive);
        let model = tree_nodes(recs, drive);
        nodes.lemma_order();
        assert forall|k: FileRef| nodes@.contains_key(k) <==> #[trigger] model.contains_key(k) by {}
        assert forall|a: int| 0 <= a < nodes.order().len() implies (#[trigger] nodes.vals()[a])@
            == model[nodes.order()[a]] by {
            let r = nodes.order()[a];
            assert(is_node_of(nodes.vals()[a]@, recs, root, drive, r));
            let k = choose|k: nat| #[trigger]
                at_level(recs, root, r, k) && nodes.vals()[a]@ == tree_node(recs, drive, r, k);
            lemma_level_unique(recs, root, r, k, level_of(recs, r));
            assert(model.contains_key(r));
        }
        super::aggregate::lemma_nodes_by_place(&nodes, model);
        let edges = plain_tree(recs, drive).children;
        assert forall|p: FileRef| #[trigger] children_view(children@).contains_key(p)
            <==> edges.contains_key(p) by {
            if in_tree(recs, p) {
                assert(nodes@.contains_key(p));
            }
            if children@.contains_key(p) {
                let a = choose|a: int| 0 <= a < i && #[trigger] nodes.order()[a] == p;
                assert(nodes@.contains_key(nodes.order()[a]));
            }
        }
        assert(children_view(children@) =~= edges);
    }
    (nodes, children)
}

/// Where the kids of every node are nodes, the nodes are those of the tree.
proof fn lemma_tree_complete(
    nodes: &RefMap<DirectoryNode>,
    recs: Map<u64, MftRecordView>,
    root: FileRef,
    drive: char,
)
    requires
        nodes.wf(),
        filed_by_number(recs),
        lists_ascending(recs.dom(), ascending_keys(recs.dom())),
        tree_root(recs) == Some(root),
        is_dir_ref(recs, root) ==> nodes@.contains_key(root),
        nodes_right(nodes, recs, root, drive),
        forall|a: int, j: int|
            #![trigger tree_kids(recs, nodes.order()[a])[j]]
            0 <= a < nodes.order().len() && 0 <= j < tree_kids(recs, nodes.order()[a]).len()
                ==> nodes@.contains_key(tree_kids(recs, nodes.order()[a])[j]),
    ensures
        forall|r: FileRef| #[trigger] nodes@.contains_key(r) <==> in_tree(recs, r),
{
    nodes.lemma_order();
    assert forall|r: FileRef| #[trigger] nodes@.contains_key(r) <==> in_tree(recs, r) by {
        if nodes@.contains_key(r) {
            let a = choose|a: int| 0 <= a < nodes.order().len() && #[trigger] nodes.order()[a] == r;
            assert(is_node_of(nodes.vals()[a]@, recs, root, drive, r));
            let k = choose|k: nat| #[trigger]
                at_level(recs, root, r, k) && nodes.vals()[a]@ == tree_node(recs, drive, r, k);
            assert(at_level(recs, tree_root(recs)->0, r, k));
        }
        if in_tree(recs, r) {
            let k = choose|k: nat| at_level(recs, root, r, k);
            lemma_level_has_node(nodes, recs, root, r, k);
        }
    }
}

proof fn lemma_level_has_node(
    nodes: &RefMap<DirectoryNode>,
    recs: Map<u64, MftRecordView>,
    root: FileRef,
    r: FileRef,
    k: nat,
)
    requires
        nodes.wf(),
        filed_by_number(recs),
        lists_ascending(recs.dom(), ascending_keys(recs.dom())),
        is_dir_ref(recs, root) ==> nodes@.contains_key(root),
        forall|a: int, j: int|
            #![trigger tree_kids(recs, nodes.order()[a])[j]]
            0 <= a < nodes.order().len() && 0 <= j < tree_kids(recs, nodes.order()[a]).len()
                ==> nodes@.contains_key(tree_kids(recs, nodes.order()[a])[j]),
        at_level(recs, root, r, k),
    ensures
        nodes@.contains_key(r),
    decreases k,
{
    nodes.lemma_order();
    if k > 0 {
        let p = link_of(recs, r)->0.parent;
        lemma_level_has_node(nodes, recs, root, p, (k - 1) as nat);
        lemma_tree_kids(recs, ascending_keys(recs.dom()), p);
        assert(tree_kids(recs, p).contains(r));
        let a = choose|a: int| 0 <= a < nodes.order().len() && #[trigger] nodes.order()[a] == p;
        let kids = tree_kids(recs, nodes.order()[a]);
        let j = choose|j: int| 0 <= j < kids.len() && kids[j] == r;
        assert(nodes@.contains_key(tree_kids(recs, nodes.order()[a])[j]));
    }
}

/// A copy of a list of references.
pub fn copy_refs(v: &Vec<FileRef>) -> (r: Vec<FileRef>)
    ensures
        r@ == v@,
{
    let mut out: Vec<FileRef> = Vec::new();
    let mut i: usize = 0;
    while i < v.len()
        invariant
            i <= v@.len(),
            out@ =~= v@.take(i as int),
        decreases v@.len() - i,
    {
        out.push(v[i]);
        i += 1;
    }
    assert(v@.take(v@.len() as int) =~= v@);
    out
}

/// Whatever can be reached from the root of the tree is in the tree.
pub proof fn lemma_tree_closed(recs: Map<u64, MftRecordView>, drive: char)
    requires
        filed_by_number(recs),
        lists_ascending(recs.dom(), ascending_keys(recs.dom())),
    ensures
        is_closed(plain_tree(recs, drive)),
{
    let g = plain_tree(recs, drive);
    if g.nodes.contains_key(g.root) {
        assert forall|n: FileRef| #[trigger] reachable(g.children, g.root, n) implies g.nodes.contains_key(
            n,
        ) by {
            let k = choose|k: nat| descends(g.children, g.root, n, k);
            lemma_descends_in_tree(recs, drive, n, k);
        }
    }
}

proof fn lemma_descends_in_tree(
    recs: Map<u64, MftRecordView>,
    drive: char,
    n: FileRef,
    k: nat,
)
    requires
        filed_by_number(recs),
        lists_ascending(recs.dom(), ascending_keys(recs.dom())),
        plain_tree(recs, drive).nodes.contains_key(plain_tree(recs, drive).root),
        descends(plain_tree(recs, drive).children, plain_tree(recs, drive).root, n, k),
    ensures
        in_tree(recs, n),
    decreases k,
{
    let g = plain_tree(recs, drive);
    if k > 0 {
        let p = choose|p: FileRef|
            #[trigger] kids_of(g.children, p).contains(n) && descends(
                g.children,
                g.root,
                p,
                (k - 1) as nat,
            );
        lemma_descends_in_tree(recs, drive, p, (k - 1) as nat);
        let root = tree_root(recs)->0;
        let l = choose|l: nat| at_level(recs, root, p, l);
        lemma_kid_level(recs, ascending_keys(recs.dom()), root, p, l, n);
        assert(at_level(recs, root, n, l + 1));
    }
}

// ---------------------------------------------------------------------------
// The whole graph
// ---------------------------------------------------------------------------

/// Sums up the file system's own records.
fn sum_system(records: &HashMap<u64, MftRecord>, keys: &Vec<u64>) -> (r: u64)
    requires
        lists_ascending(records@.dom(), keys@),
    ensures
        r == sat64(system_bytes(records_view(records@), keys@, keys@.len())),
{
    let ghost recs = records_view(records@);
    let mut sum: u64 = 0;
    let mut i: usize = 0;
    while i < keys.len()
        invariant
            i <= keys@.len(),
            recs == records_view(records@),
            lists_ascending(records@.dom(), keys@),
            sum == sat64(system_bytes(recs, keys@, i as nat)),
        decreases keys@.len() - i,
    {
        let no: u64 = keys[i];
        assert(keys@.contains(no));
        if no < 16 && no != ROOT_RECORD_NO {
            match records.get(&no) {
                Some(rec) => {
                    assert(recs[no] == rec@);
                    sum = sum.saturating_add(rec.logical_size);
                },
                None => {},
            }
        }
        i += 1;
    }
    sum
}

/// Builds the directory graph of a volume. `excluded_paths` may hold
/// environment variables; `root_drive` is the letter of the drive.
pub fn build_graph(
    index: &MftIndex,
    excluded_paths: &[String],
    root_drive: char,
    env: &EnvVars,
) -> (graph: DirectoryGraph)
    requires
        index.wf(),
    ensures
        graph.wf(),
        graph@ == graph_of(
            index@.records,
            strings_view(excluded_paths@),
            root_drive,
            env@,
        ),
{
    let ghost recs = index@.records;
    assert(filed_by_number(recs)) by {
        assert forall|k: u64| #[trigger] recs.contains_key(k) implies recs[k].id.record_no == k by {
            assert(index.records@.contains_key(k));
        }
    }
    let normalized_excluded: Vec<String> = normalize_excluded(excluded_paths, env);
    let keys: Vec<u64> = sorted_keys(&index.records);
    assert(recs.dom() =~= index.records@.dom());
    let mut drafts: RefMap<Draft> = draft_directories(&index.records, &keys);
    let mut diagnostics: GraphDiagnostics = GraphDiagnostics::none();
    proof {
        assert forall|r: FileRef| #[trigger] drafts@.contains_key(r) implies drafts@[r].kids@
            == hanging(recs, keys@, r, 0) by {
            assert(drafts@[r].kids@ =~= Seq::<FileRef>::empty());
        }
    }
    let ghost empty_drafts = drafts@;
    fill_drafts(&index.records, &keys, &mut drafts, &mut diagnostics);
    proof {
        assert(keys@ == ascending_keys(recs.dom()));
        assert forall|r: FileRef| #[trigger] drafts@.contains_key(r) implies drafts@[r].reparse_tag
            == recs[r.record_no].reparse_tag by {
            assert(empty_drafts.contains_key(r));
        }
        assert(drafts_done(drafts@, recs));
    }
    let system_metadata_size_bytes: u64 = sum_system(&index.records, &keys);
    let root: Option<FileRef> = match index.records.get(&ROOT_RECORD_NO) {
        Some(rec) => {
            assert(recs[ROOT_RECORD_NO] == rec@);
            if rec.is_dir {
                Some(rec.id)
            } else {
                None
            }
        },
        None => None,
    };
    assert(root == tree_root(recs));
    let mut graph: DirectoryGraph = match root {
        Some(r) => {
            let (nodes, children) = grow_tree(&drafts, r, root_drive, Ghost(recs));
            proof {
                nodes.lemma_len();
                assert(nodes_view(nodes@).dom() =~= nodes@.dom());
            }
            diagnostics.unreachable_nodes = (drafts.len() - nodes.len()) as u64;
            DirectoryGraph {
                nodes,
                root: r,
                children,
                system_metadata_size_bytes,
                diagnostics,
                excluded_subtree_size_bytes: 0,
            }
        },
        None => {
            diagnostics.root_missing = true;
            diagnostics.unreachable_nodes = drafts.len() as u64;
            let g = DirectoryGraph {
                nodes: RefMap::new(),
                root: FileRef { record_no: ROOT_RECORD_NO, sequence: 0 },
                children: RefMap::new(),
                system_metadata_size_bytes,
                diagnostics,
                excluded_subtree_size_bytes: 0,
            };
            proof {
                assert(nodes_view(g.nodes@) =~= plain_tree(recs, root_drive).nodes);
                assert(children_view(g.children@) =~= plain_tree(recs, root_drive).children);
                g.nodes.lemma_len();
                assert(nodes_view(g.nodes@).dom() =~= g.nodes@.dom());
            }
            g
        },
    };
    proof {
        assert(graph@ == plain_tree(recs, root_drive));
        lemma_tree_closed(recs, root_drive);
    }
    aggregate_and_exclude(&mut graph, normalized_excluded.as_slice());
    graph
}

// ---------------------------------------------------------------------------
// Laws
// ---------------------------------------------------------------------------

proof fn lemma_hanging_distinct(
    recs: Map<u64, MftRecordView>,
    keys: Seq<u64>,
    p: FileRef,
    n: nat,
)
    requires
        filed_by_number(recs),
        lists_ascending(recs.dom(), keys),
        n <= keys.len(),
    ensures
        hanging(recs, keys, p, n).no_duplicates(),
        forall|i: int|
            0 <= i < hanging(recs, keys, p, n).len() ==> exists|j: int|
                0 <= j < n && #[trigger] keys[j] == (#[trigger] hanging(recs, keys, p, n)[i]).record_no,
    decreases n,
{
    if n > 0 {
        let m = (n - 1) as nat;
        lemma_hanging_distinct(recs, keys, p, m);
        let before = hanging(recs, keys, p, m);
        let now = hanging(recs, keys, p, n);
        assert(keys.contains(keys[n - 1]));
        assert forall|i: int| 0 <= i < now.len() implies exists|j: int|
            0 <= j < n && #[trigger] keys[j] == (#[trigger] now[i]).record_no by {
            if i < before.len() {
                assert(now[i] == before[i]);
                let j = choose|j: int| 0 <= j < m && #[trigger] keys[j] == before[i].record_no;
                assert(0 <= j < n && keys[j] == now[i].record_no);
            } else {
                assert(keys[n - 1] == now[i].record_no);
            }
        }
        assert forall|a: int, b: int| 0 <= a < b < now.len() implies now[a] != now[b] by {
            if b == before.len() {
                assert(now[a] == before[a]);
                let j = choose|j: int| 0 <= j < m && #[trigger] keys[j] == before[a].record_no;
                assert(keys[j] != keys[n - 1]);
            }
        }
    }
}

/// The directories of a volume form a tree: however their names refer to each
/// other, each of them has one parent at most.
pub proof fn law_directories_form_a_tree(recs: Map<u64, MftRecordView>, drive: char)
    requires
        filed_by_number(recs),
    ensures
        is_tree(plain_tree(recs, drive).children, plain_tree(recs, drive).root),
{
    let g = plain_tree(recs, drive);
    let keys = ascending_keys(recs.dom());
    lemma_keys_listed(recs.dom());
    assert forall|p: FileRef, n: FileRef| #[trigger] kids_of(g.children, p).contains(
        n,
    ) implies link_of(recs, n) is Some && link_of(recs, n)->0.parent == p by {
        lemma_tree_kids(recs, keys, p);
        assert(tree_kids(recs, p).contains(n));
    }
    assert forall|p: FileRef| (#[trigger] kids_of(g.children, p)).no_duplicates() by {
        lemma_hanging_distinct(recs, keys, p, keys.len());
    }
    assert forall|p: FileRef| !(#[trigger] kids_of(g.children, p)).contains(g.root) by {
        if kids_of(g.children, p).contains(g.root) {
            assert(link_of(recs, g.root) is Some);
        }
    }
}

proof fn lemma_level_descends(recs: Map<u64, MftRecordView>, drive: char, r: FileRef, k: nat)
    requires
        filed_by_number(recs),
        tree_root(recs) is Some,
        at_level(recs, tree_root(recs)->0, r, k),
    ensures
        descends(plain_tree(recs, drive).children, tree_root(recs)->0, r, k),
        is_dir_ref(recs, tree_root(recs)->0),
    decreases k,
{
    if k > 0 {
        let g = plain_tree(recs, drive);
        let p = link_of(recs, r)->0.parent;
        lemma_level_descends(recs, drive, p, (k - 1) as nat);
        lemma_keys_listed(recs.dom());
        lemma_tree_kids(recs, ascending_keys(recs.dom()), p);
        assert(tree_kids(recs, p).contains(r));
        assert(in_tree(recs, p));
        assert(kids_of(g.children, p).contains(r));
    }
}

/// The tree has finitely many directories.
proof fn lemma_tree_finite(recs: Map<u64, MftRecordView>, drive: char)
    requires
        filed_by_number(recs),
    ensures
        plain_tree(recs, drive).nodes.dom().finite(),
{
    let keys = ascending_keys(recs.dom());
    let ids = keys.map_values(|k: u64| recs[k].id);
    lemma_keys_listed(recs.dom());
    vstd::seq_lib::seq_to_set_is_finite(ids);
    let dom = plain_tree(recs, drive).nodes.dom();
    assert forall|r: FileRef| #[trigger] dom.contains(r) implies ids.to_set().contains(r) by {
        let k = choose|k: nat| at_level(recs, tree_root(recs)->0, r, k);
        lemma_in_tree_dir(recs, tree_root(recs)->0, r, k);
        assert(keys.contains(r.record_no));
        let j = choose|j: int| 0 <= j < keys.len() && keys[j] == r.record_no;
        assert(ids[j] == r);
    }
    assert(dom.subset_of(ids.to_set()));
    vstd::set_lib::lemma_set_subset_finite(ids.to_set(), dom);
}

/// What can be reached in the graph of a volume is what hangs in its tree.
pub proof fn lemma_reach_iff(recs: Map<u64, MftRecordView>, drive: char, r: FileRef)
    requires
        filed_by_number(recs),
        tree_root(recs) is Some,
        is_dir_ref(recs, tree_root(recs)->0),
    ensures
        reachable(plain_tree(recs, drive).children, plain_tree(recs, drive).root, r) <==> in_tree(
            recs,
            r,
        ),
{
    let g = plain_tree(recs, drive);
    lemma_keys_listed(recs.dom());
    assert(at_level(recs, tree_root(recs)->0, tree_root(recs)->0, 0));
    assert(in_tree(recs, g.root));
    if in_tree(recs, r) {
        let k = choose|k: nat| at_level(recs, tree_root(recs)->0, r, k);
        lemma_level_descends(recs, drive, r, k);
    }
    if reachable(g.children, g.root, r) {
        let k = choose|k: nat| descends(g.children, g.root, r, k);
        lemma_descends_in_tree(recs, drive, r, k);
    }
}

/// Every directory of a volume shows the totals of its own files and of its
/// subdirectories, excluded ones aside.
pub proof fn law_volume_totals_add_up(
    recs: Map<u64, MftRecordView>,
    excluded_paths: Seq<Seq<char>>,
    drive: char,
    env: EnvVarsView,
    r: FileRef,
)
    requires
        filed_by_number(recs),
        in_tree(recs, r),
    ensures
        ({
            let g = graph_of(recs, excluded_paths, drive, env);
            &&& g.nodes.contains_key(r)
            &&& shown_totals(g.nodes[r]) == shown_subtotal(g, r, kids_of(g.children, r).len())
        }),
{
    let g = plain_tree(recs, drive);
    let k = choose|k: nat| at_level(recs, tree_root(recs)->0, r, k);
    lemma_keys_listed(recs.dom());
    lemma_level_descends(recs, drive, r, k);
    assert(at_level(recs, tree_root(recs)->0, tree_root(recs)->0, 0));
    assert(in_tree(recs, g.root));
    assert(reachable(g.children, g.root, r));
    lemma_tree_closed(recs, drive);
    lemma_tree_finite(recs, drive);
    law_directories_form_a_tree(recs, drive);
    law_totals_add_up(g, normal_list(excluded_paths, env, excluded_paths.len()), r);
}

/// The level of a directory is the only one at which it hangs.
proof fn lemma_level_of(recs: Map<u64, MftRecordView>, r: FileRef, k: nat)
    requires
        filed_by_number(recs),
        tree_root(recs) is Some,
        at_level(recs, tree_root(recs)->0, r, k),
    ensures
        level_of(recs, r) == k,
{
    lemma_level_unique(recs, tree_root(recs)->0, r, level_of(recs, r), k);
}

/// Every directory of a volume can be reached from the root directory, which lies
/// at the root of the drive; every other one is listed once, by one directory.
pub proof fn law_every_directory_is_listed_once(
    recs: Map<u64, MftRecordView>,
    excluded_paths: Seq<Seq<char>>,
    drive: char,
    env: EnvVarsView,
    r: FileRef,
)
    requires
        filed_by_number(recs),
        is_directory(recs, ROOT_RECORD_NO),
    ensures
        ({
            let g = graph_of(recs, excluded_paths, drive, env);
            &&& g.nodes.contains_key(g.root)
            &&& g.nodes[g.root].path == drive_root(drive)
            &&& g.nodes[g.root].depth == 0
            &&& is_tree(g.children, g.root)
            &&& g.nodes.contains_key(r) ==> g.nodes[r].reachable_from_root && reachable(
                g.children,
                g.root,
                r,
            )
            &&& g.nodes.contains_key(r) && r != g.root ==> exists|p: FileRef|
                g.nodes.contains_key(p) && #[trigger] kids_of(g.children, p).contains(r)
        }),
{
    let g = graph_of(recs, excluded_paths, drive, env);
    let root = tree_root(recs)->0;
    assert(root.record_no == ROOT_RECORD_NO);
    assert(at_level(recs, root, root, 0));
    assert(in_tree(recs, root));
    lemma_level_of(recs, root, 0);
    law_directories_form_a_tree(recs, drive);
    if g.nodes.contains_key(r) {
        let k = choose|k: nat| at_level(recs, root, r, k);
        lemma_level_descends(recs, drive, r, k);
        if r != root {
            assert(k > 0);
            let p = link_of(recs, r)->0.parent;
            lemma_keys_listed(recs.dom());
            lemma_tree_kids(recs, ascending_keys(recs.dom()), p);
            assert(tree_kids(recs, p).contains(r));
            assert(at_level(recs, root, p, (k - 1) as nat));
            assert(in_tree(recs, p));
            assert(g.nodes.contains_key(p) && kids_of(g.children, p).contains(r));
        }
    }
}

/// A directory lies one level below the one that lists it, and its path is that
/// one's path with its own name behind it. Each directory knows how many it lists.
/// The depth stops at the largest that can be stored, and the number counts up to
/// the largest that can be stored.
pub proof fn law_children_follow_their_parent(
    recs: Map<u64, MftRecordView>,
    excluded_paths: Seq<Seq<char>>,
    drive: char,
    env: EnvVarsView,
    p: FileRef,
    c: FileRef,
)
    requires
        filed_by_number(recs),
    ensures
        ({
            let g = graph_of(recs, excluded_paths, drive, env);
            let kids = kids_of(g.children, p);
            &&& kids.contains(c) ==> {
                &&& g.nodes.contains_key(p)
                &&& g.nodes.contains_key(c)
                &&& g.nodes[c].path == joined(g.nodes[p].path, g.nodes[c].display_name)
                &&& g.nodes[c].depth == if g.nodes[p].depth == u32::MAX {
                    u32::MAX as int
                } else {
                    g.nodes[p].depth + 1
                }
            }
            &&& g.nodes.contains_key(p) && kids.len() <= u32::MAX ==> g.nodes[p].direct_dir_count
                == kids.len()
        }),
{
    let g = graph_of(recs, excluded_paths, drive, env);
    if kids_of(g.children, p).contains(c) {
        let root = tree_root(recs)->0;
        let k = choose|k: nat| at_level(recs, root, p, k);
        lemma_keys_listed(recs.dom());
        lemma_kid_level(recs, ascending_keys(recs.dom()), root, p, k, c);
        assert(in_tree(recs, c));
        lemma_level_of(recs, p, k);
        lemma_level_of(recs, c, k + 1);
        assert(((k + 1) - 1) as nat == k);
    }
}

} // verus!
