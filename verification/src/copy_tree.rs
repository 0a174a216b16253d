//! The two halves of copying a tree: listing what is to be copied, and taking
//! stock of what was copied.

use crate::error::AppError;
use crate::file_ops::{
    differ_at, entries_view, entry_for_path, same_tree, CopyOutcome, CopyPhase, CopyProgress,
    Manifest, ManifestEntry, ManifestEntryView,
};
use crate::models::strings_view;
use crate::scanner::aggregate::sat_add;
use crate::text::{replace_char, replaced_char};
use vstd::prelude::*;
use vstd::string::*;

verus! {

// ---------------------------------------------------------------------------
// Visiting
// ---------------------------------------------------------------------------

/// What to do with a path in the source tree.
#[derive(Debug, Clone, Copy, PartialEq, Eq, Structural)]
pub enum Visit {
    /// It is gone.
    Skip,
    /// A link: an empty directory stands for it, and it is not followed.
    Placeholder,
    /// A directory, whose entries are to be visited.
    Directory,
    /// Something else, which is to be copied.
    File,
}

/// What to do with the path `rel` below the root of the tree. The root itself
/// is followed even where it is a link.
pub open spec fn visit_kind(rel: Seq<char>, exists: bool, reparse: bool, is_dir: bool) -> Visit {
    if !exists {
        Visit::Skip
    } else if reparse && rel.len() > 0 {
        Visit::Placeholder
    } else if is_dir {
        Visit::Directory
    } else {
        Visit::File
    }
}

/// What to do with a path in the source tree.
pub fn classify(rel: &str, exists: bool, reparse: bool, is_dir: bool) -> (r: Visit)
    ensures
        r == visit_kind(rel@, exists, reparse, is_dir),
{
    if !exists {
        Visit::Skip
    } else if reparse && !rel.is_empty() {
        Visit::Placeholder
    } else if is_dir {
        Visit::Directory
    } else {
        Visit::File
    }
}

/// The path of `name` in the directory `rel` of the tree.
pub open spec fn child_path(rel: Seq<char>, name: Seq<char>) -> Seq<char> {
    if rel.len() == 0 {
        replace_char(name, '\\', '/')
    } else {
        rel.push('/') + name
    }
}

/// The path of `name` in the directory `rel` of the tree.
pub fn child_rel(rel: &str, name: &str) -> (r: String)
    ensures
        r@ == child_path(rel@, name@),
{
    if rel.is_empty() {
        replaced_char(name, '\\', '/')
    } else {
        let mut out = String::from_str(rel);
        out.push('/');
        out.append(name);
        out
    }
}

/// An entry of a manifest. A directory has no size.
pub open spec fn entry_of(
    rel: Seq<char>,
    is_dir: bool,
    len: u64,
    mtime: i64,
    attrs: u32,
) -> ManifestEntryView {
    ManifestEntryView {
        rel_path: rel,
        is_dir,
        size: if is_dir {
            0
        } else {
            len
        },
        mtime,
        attrs,
    }
}

/// An entry of a manifest.
pub fn entry_for(rel: &str, is_dir: bool, len: u64, mtime: i64, attrs: u32) -> (r: ManifestEntry)
    ensures
        r@ == entry_of(rel@, is_dir, len, mtime, attrs),
{
    ManifestEntry {
        rel_path: String::from_str(rel),
        is_dir,
        size: if is_dir {
            0
        } else {
            len
        },
        mtime,
        attrs,
    }
}

// ---------------------------------------------------------------------------
// Listing what is to be copied
// ---------------------------------------------------------------------------

/// Model of a [`CopyScan`].
pub struct CopyScanView {
    /// Paths that are still to be visited; the last one comes first.
    pub stack: Seq<Seq<char>>,
    /// Directories and links so far.
    pub dirs: Seq<ManifestEntryView>,
    /// Files that are to be copied.
    pub tasks: Seq<Seq<char>>,
    pub total_bytes: u64,
    pub total_files: u64,
}

/// The list of what is to be copied, while the source tree is being walked.
pub struct CopyScan {
    stack: Vec<String>,
    dirs: Vec<ManifestEntry>,
    tasks: Vec<String>,
    total_bytes: u64,
    total_files: u64,
}

impl View for CopyScan {
    type V = CopyScanView;

    closed spec fn view(&self) -> CopyScanView {
        CopyScanView {
            stack: strings_view(self.stack@),
            dirs: entries_view(self.dirs@),
            tasks: strings_view(self.tasks@),
            total_bytes: self.total_bytes,
            total_files: self.total_files,
        }
    }
}

/// The paths of the entries of the directory `rel`.
pub open spec fn child_paths(rel: Seq<char>, names: Seq<Seq<char>>) -> Seq<Seq<char>> {
    Seq::new(names.len(), |i: int| child_path(rel, names[i]))
}

/// The list at the beginning: the root of the tree is to be visited.
pub open spec fn scan_begun() -> CopyScanView {
    CopyScanView {
        stack: seq![Seq::empty()],
        dirs: Seq::empty(),
        tasks: Seq::empty(),
        total_bytes: 0,
        total_files: 0,
    }
}

/// The list after the next path was taken.
pub open spec fn path_taken(s: CopyScanView) -> CopyScanView {
    CopyScanView { stack: s.stack.drop_last(), ..s }
}

/// The list with a link, which an empty directory stands for.
pub open spec fn with_placeholder(s: CopyScanView, rel: Seq<char>) -> CopyScanView {
    CopyScanView { dirs: s.dirs.push(entry_of(rel, true, 0, 0, 0)), ..s }
}

/// The list with a directory, whose entries are to be visited. The root of the tree
/// is no entry of its own.
pub open spec fn with_directory(s: CopyScanView, rel: Seq<char>, names: Seq<Seq<char>>) -> CopyScanView {
    CopyScanView {
        stack: s.stack + child_paths(rel, names),
        dirs: if rel.len() == 0 {
            s.dirs
        } else {
            s.dirs.push(entry_of(rel, true, 0, 0, 0))
        },
        ..s
    }
}

/// The list with a file.
pub open spec fn with_file(s: CopyScanView, rel: Seq<char>, len: u64) -> CopyScanView {
    CopyScanView {
        tasks: s.tasks.push(rel),
        total_bytes: sat_add(s.total_bytes, len),
        total_files: sat_add(s.total_files, 1),
        ..s
    }
}

impl CopyScan {
    /// Begins with the root of the tree.
    pub fn start() -> (r: Self)
        ensures
            r@ == scan_begun(),
    {
        let mut stack: Vec<String> = Vec::new();
        stack.push(String::new());
        let r = CopyScan {
            stack,
            dirs: Vec::new(),
            tasks: Vec::new(),
            total_bytes: 0,
            total_files: 0,
        };
        proof {
            assert(r@.stack =~= seq![Seq::<char>::empty()]);
            assert(r@.dirs =~= Seq::<ManifestEntryView>::empty());
            assert(r@.tasks =~= Seq::<Seq<char>>::empty());
        }
        r
    }

    /// The next path to visit.
    pub fn next(&mut self) -> (r: Option<String>)
        ensures
            match r {
                Some(rel) => old(self)@.stack.len() > 0 && rel@ == old(self)@.stack.last()
                    && final(self)@ == path_taken(old(self)@),
                None => old(self)@.stack.len() == 0 && final(self)@ == old(self)@,
            },
    {
        let r = self.stack.pop();
        proof {
            if old(self).stack@.len() > 0 {
                assert(self@.stack =~= old(self)@.stack.drop_last());
            } else {
                assert(self@.stack =~= old(self)@.stack);
            }
        }
        r
    }

    /// Takes in a link, which an empty directory stands for.
    pub fn add_placeholder(&mut self, rel: &str)
        ensures
            final(self)@ == with_placeholder(old(self)@, rel@),
    {
        self.dirs.push(entry_for(rel, true, 0, 0, 0));
        assert(self@.dirs =~= old(self)@.dirs.push(entry_of(rel@, true, 0, 0, 0)));
    }

    /// Takes in a directory and the names of its entries. The root of the tree
    /// is no entry of its own.
    pub fn add_directory(&mut self, rel: &str, names: &[String])
        ensures
            final(self)@ == with_directory(old(self)@, rel@, strings_view(names@)),
    {
        if !rel.is_empty() {
            self.add_placeholder(rel);
        }
        let ghost s1 = self@;
        let ghost paths = child_paths(rel@, strings_view(names@));
        let mut i: usize = 0;
        assert(self@.stack + paths.take(0) =~= s1.stack);
        while i < names.len()
            invariant
                i <= names@.len(),
                paths == child_paths(rel@, strings_view(names@)),
                self@ == (CopyScanView { stack: s1.stack + paths.take(i as int), ..s1 }),
            decreases names@.len() - i,
        {
            let ghost before = self@.stack;
            let path = child_rel(rel, names[i].as_str());
            assert(path@ == paths[i as int]);
            self.stack.push(path);
            proof {
                assert(self@.stack =~= before.push(path@));
                assert(before.push(path@) =~= s1.stack + paths.take(i + 1));
            }
            i += 1;
        }
        assert(paths.take(paths.len() as int) =~= paths);
    }

    /// Takes in a file.
    pub fn add_file(&mut self, rel: &str, len: u64)
        ensures
            final(self)@ == with_file(old(self)@, rel@, len),
    {
        self.total_bytes = self.total_bytes.saturating_add(len);
        self.total_files = self.total_files.saturating_add(1);
        self.tasks.push(String::from_str(rel));
        assert(self@.tasks =~= old(self)@.tasks.push(rel@));
    }

    /// How far the listing has come.
    pub fn progress(&self) -> (r: CopyProgress)
        ensures
            r.phase == CopyPhase::Preparing,
            r.completed_bytes == self@.total_bytes,
            r.total_bytes is None,
            r.completed_files == self@.total_files,
            r.total_files is None,
            r.current_path is None,
    {
        CopyProgress {
            phase: CopyPhase::Preparing,
            completed_bytes: self.total_bytes,
            total_bytes: None,
            completed_files: self.total_files,
            total_files: None,
            current_path: None,
        }
    }

    /// The files to copy, and the account in which the copies are to be entered.
    pub fn into_tally(self) -> (r: (Vec<String>, CopyTally))
        ensures
            strings_view(r.0@) == self@.tasks,
            r.1@ == tally_of(self@),
    {
        let tally = CopyTally {
            dirs: self.dirs,
            copied: Vec::new(),
            written: Vec::new(),
            total_bytes: self.total_bytes,
            total_files: self.total_files,
            actual_bytes: 0,
            actual_files: 0,
            first_error: None,
        };
        proof {
            assert(tally@.copied =~= Seq::<ManifestEntryView>::empty());
            assert(tally@.written =~= Seq::<ManifestEntryView>::empty());
        }
        (self.tasks, tally)
    }
}

// ---------------------------------------------------------------------------
// Taking stock
// ---------------------------------------------------------------------------

/// Model of a [`CopyTally`].
pub struct CopyTallyView {
    pub dirs: Seq<ManifestEntryView>,
    /// Files as they were read.
    pub copied: Seq<ManifestEntryView>,
    /// Files as they were written.
    pub written: Seq<ManifestEntryView>,
    pub total_bytes: u64,
    pub total_files: u64,
    pub actual_bytes: u64,
    pub actual_files: u64,
    pub first_error: Option<AppError>,
}

/// The account of a copy.
pub struct CopyTally {
    dirs: Vec<ManifestEntry>,
    copied: Vec<ManifestEntry>,
    written: Vec<ManifestEntry>,
    total_bytes: u64,
    total_files: u64,
    actual_bytes: u64,
    actual_files: u64,
    first_error: Option<AppError>,
}

impl View for CopyTally {
    type V = CopyTallyView;

    closed spec fn view(&self) -> CopyTallyView {
        CopyTallyView {
            dirs: entries_view(self.dirs@),
            copied: entries_view(self.copied@),
            written: entries_view(self.written@),
            total_bytes: self.total_bytes,
            total_files: self.total_files,
            actual_bytes: self.actual_bytes,
            actual_files: self.actual_files,
            first_error: self.first_error,
        }
    }
}

/// The account in which the copies of a listing are entered.
pub open spec fn tally_of(s: CopyScanView) -> CopyTallyView {
    CopyTallyView {
        dirs: s.dirs,
        copied: Seq::empty(),
        written: Seq::empty(),
        total_bytes: s.total_bytes,
        total_files: s.total_files,
        actual_bytes: 0,
        actual_files: 0,
        first_error: None,
    }
}

/// The account with a copied file: how many bytes were read, and the size of the copy
/// as it was found afterwards.
pub open spec fn with_copied(
    t: CopyTallyView,
    rel: Seq<char>,
    actual: u64,
    written: Result<u64, AppError>,
) -> CopyTallyView {
    CopyTallyView {
        copied: t.copied.push(entry_of(rel, false, actual, 0, 0)),
        written: match written {
            Ok(len) => t.written.push(entry_of(rel, false, len, 0, 0)),
            Err(_) => t.written,
        },
        actual_bytes: sat_add(t.actual_bytes, actual),
        actual_files: sat_add(t.actual_files, 1),
        first_error: match written {
            Ok(_) => t.first_error,
            Err(e) => first_of(t.first_error, e),
        },
        ..t
    }
}

/// The account with a failure.
pub open spec fn with_failed(t: CopyTallyView, e: AppError) -> CopyTallyView {
    CopyTallyView { first_error: first_of(t.first_error, e), ..t }
}

/// The smaller of two numbers.
pub open spec fn at_most(a: u64, b: u64) -> u64 {
    if a < b {
        a
    } else {
        b
    }
}

/// The first error, given one more.
pub open spec fn first_of(first: Option<AppError>, e: AppError) -> Option<AppError> {
    match first {
        Some(f) => Some(f),
        None => Some(e),
    }
}

/// `r` is what closing the account `t` of a copy from `src` to `dst` comes to: the
/// first error, or the cancellation, or the two manifests.
pub open spec fn closes(
    t: CopyTallyView,
    cancelled: bool,
    src: Seq<char>,
    dst: Seq<char>,
    r: Result<CopyOutcome, AppError>,
) -> bool {
    match t.first_error {
        Some(e) => r is Err && r->Err_0 == e,
        None => if cancelled {
            r is Err && r->Err_0 is Cancelled
        } else {
            &&& r is Ok
            &&& r->Ok_0.copied_manifest.root@ == src
            &&& r->Ok_0.dst_manifest.root@ == dst
            &&& entries_view(r->Ok_0.copied_manifest.entries@) == t.dirs + t.copied
            &&& entries_view(r->Ok_0.dst_manifest.entries@) == t.dirs + t.written
            &&& r->Ok_0.total_bytes == t.total_bytes
            &&& r->Ok_0.total_files == t.total_files
        },
    }
}

impl CopyTally {
    /// Enters a copied file: how many bytes were read, and the size of the
    /// copy as it was found afterwards.
    pub fn file_copied(&mut self, rel: &str, actual: u64, written: Result<u64, AppError>)
        ensures
            final(self)@ == with_copied(old(self)@, rel@, actual, written),
    {
        self.actual_bytes = self.actual_bytes.saturating_add(actual);
        self.actual_files = self.actual_files.saturating_add(1);
        self.copied.push(entry_for(rel, false, actual, 0, 0));
        assert(self@.copied =~= old(self)@.copied.push(entry_of(rel@, false, actual, 0, 0)));
        match written {
            Ok(len) => {
                self.written.push(entry_for(rel, false, len, 0, 0));
                assert(self@.written =~= old(self)@.written.push(entry_of(rel@, false, len, 0, 0)));
            },
            Err(e) => {
                self.file_failed(e);
            },
        }
    }

    /// Enters a failure. Only the first one counts.
    pub fn file_failed(&mut self, e: AppError)
        ensures
            final(self)@ == with_failed(old(self)@, e),
    {
        if self.first_error.is_none() {
            self.first_error = Some(e);
        }
    }

    /// Whether the remaining files are to be left alone.
    pub fn stopped(&self) -> (r: bool)
        ensures
            r == self@.first_error is Some,
    {
        self.first_error.is_some()
    }

    /// How far the copy has come; never beyond what was listed.
    pub fn progress(&self) -> (r: CopyProgress)
        ensures
            r.phase == CopyPhase::Copying,
            r.completed_bytes == at_most(self@.actual_bytes, self@.total_bytes),
            r.total_bytes == Some(self@.total_bytes),
            r.completed_files == at_most(self@.actual_files, self@.total_files),
            r.total_files == Some(self@.total_files),
            r.current_path is None,
    {
        CopyProgress {
            phase: CopyPhase::Copying,
            completed_bytes: if self.actual_bytes < self.total_bytes {
                self.actual_bytes
            } else {
                self.total_bytes
            },
            total_bytes: Some(self.total_bytes),
            completed_files: if self.actual_files < self.total_files {
                self.actual_files
            } else {
                self.total_files
            },
            total_files: Some(self.total_files),
            current_path: None,
        }
    }

    /// Closes the account: the first error, or the cancellation, or the two
    /// manifests.
    pub fn finish(self, cancelled: bool, src: &str, dst: &str) -> (r: Result<CopyOutcome, AppError>)
        ensures
            closes(self@, cancelled, src@, dst@, r),
    {
        let CopyTally { dirs, copied, written, total_bytes, total_files, first_error, .. } = self;
        match first_error {
            Some(e) => {
                return Err(e);
            },
            None => {},
        }
        if cancelled {
            return Err(AppError::Cancelled);
        }
        let all_copied = joined_entries(&dirs, &copied);
        let all_written = joined_entries(&dirs, &written);
        Ok(
            CopyOutcome {
                copied_manifest: Manifest { root: String::from_str(src), entries: all_copied },
                dst_manifest: Manifest { root: String::from_str(dst), entries: all_written },
                total_bytes,
                total_files,
            },
        )
    }
}

/// Copies of the entries of both lists.
fn joined_entries(a: &Vec<ManifestEntry>, b: &Vec<ManifestEntry>) -> (r: Vec<ManifestEntry>)
    ensures
        entries_view(r@) == entries_view(a@) + entries_view(b@),
{
    let mut out: Vec<ManifestEntry> = Vec::new();
    let mut i: usize = 0;
    while i < a.len()
        invariant
            i <= a@.len(),
            out@.len() == i,
            forall|j: int| 0 <= j < i ==> (#[trigger] out@[j])@ == a@[j]@,
        decreases a@.len() - i,
    {
        out.push(copy_entry(&a[i]));
        i += 1;
    }
    let mut k: usize = 0;
    while k < b.len()
        invariant
            k <= b@.len(),
            out@.len() == a@.len() + k,
            forall|j: int| 0 <= j < a@.len() ==> (#[trigger] out@[j])@ == a@[j]@,
            forall|j: int|
                a@.len() <= j < a@.len() + k ==> (#[trigger] out@[j])@ == b@[j - a@.len()]@,
        decreases b@.len() - k,
    {
        out.push(copy_entry(&b[k]));
        k += 1;
    }
    assert(entries_view(out@) =~= entries_view(a@) + entries_view(b@));
    out
}

/// A copy of an entry.
fn copy_entry(e: &ManifestEntry) -> (r: ManifestEntry)
    ensures
        r@ == e@,
{
    ManifestEntry {
        rel_path: e.rel_path.clone(),
        is_dir: e.is_dir,
        size: e.size,
        mtime: e.mtime,
        attrs: e.attrs,
    }
}

// ---------------------------------------------------------------------------
// Listing a tree
// ---------------------------------------------------------------------------

/// Whether a file that was listed is still to be copied: it has not vanished
/// or become something else since.
pub fn still_plain(is_file: Option<bool>, reparse: bool) -> (r: bool)
    ensures
        r == (is_file == Some(true) && !reparse),
{
    match is_file {
        Some(file) => file && !reparse,
        None => false,
    }
}

/// The path of `name` in the directory `rel` of a listed tree.
pub open spec fn listed_path(rel: Seq<char>, name: Seq<char>) -> Seq<char> {
    if rel.len() == 0 {
        replace_char(name, '\\', '/')
    } else {
        rel.push('/') + replace_char(name, '\\', '/')
    }
}

/// Model of a [`ManifestScan`].
pub struct ManifestScanView {
    /// Paths that are still to be visited; the last one comes first.
    pub stack: Seq<(Seq<char>, Seq<char>)>,
    pub entries: Seq<ManifestEntryView>,
}

/// A path that is to be visited: as it stands in the manifest, and as it is
/// found below the root.
#[derive(Debug, Clone)]
pub struct Spot {
    pub rel: String,
    pub place: String,
}

/// The models of a sequence of spots.
pub open spec fn spots_view(s: Seq<Spot>) -> Seq<(Seq<char>, Seq<char>)> {
    Seq::new(s.len(), |i: int| (s[i].rel@, s[i].place@))
}

/// The manifest of a tree, while the tree is being walked.
pub struct ManifestScan {
    stack: Vec<Spot>,
    entries: Vec<ManifestEntry>,
}

impl View for ManifestScan {
    type V = ManifestScanView;

    closed spec fn view(&self) -> ManifestScanView {
        ManifestScanView {
            stack: spots_view(self.stack@),
            entries: entries_view(self.entries@),
        }
    }
}

/// Where `name` is found in the directory at `place`.
pub open spec fn place_below(place: Seq<char>, name: Seq<char>) -> Seq<char> {
    if place.len() == 0 {
        name
    } else {
        place.push('/') + name
    }
}

/// The spots of the entries of a directory.
pub open spec fn spots_in(
    rel: Seq<char>,
    place: Seq<char>,
    names: Seq<Seq<char>>,
) -> Seq<(Seq<char>, Seq<char>)> {
    Seq::new(names.len(), |i: int| (listed_path(rel, names[i]), place_below(place, names[i])))
}

/// The manifest at the beginning: the root of the tree is to be visited.
pub open spec fn manifest_begun() -> ManifestScanView {
    ManifestScanView { stack: seq![(Seq::empty(), Seq::empty())], entries: Seq::empty() }
}

/// The manifest after the next path was taken.
pub open spec fn spot_taken(s: ManifestScanView) -> ManifestScanView {
    ManifestScanView { stack: s.stack.drop_last(), ..s }
}

/// The manifest with an entry.
pub open spec fn with_entry(s: ManifestScanView, e: ManifestEntryView) -> ManifestScanView {
    ManifestScanView { entries: s.entries.push(e), ..s }
}

/// The manifest with a directory, whose entries are to be visited. The root of the
/// tree is no entry of its own.
pub open spec fn with_listed(
    s: ManifestScanView,
    rel: Seq<char>,
    place: Seq<char>,
    mtime: i64,
    attrs: u32,
    names: Seq<Seq<char>>,
) -> ManifestScanView {
    ManifestScanView {
        stack: s.stack + spots_in(rel, place, names),
        entries: if rel.len() == 0 {
            s.entries
        } else {
            s.entries.push(entry_of(rel, true, 0, mtime, attrs))
        },
    }
}

impl ManifestScan {
    /// Begins with the root of the tree.
    pub fn start() -> (r: Self)
        ensures
            r@ == manifest_begun(),
    {
        let mut stack: Vec<Spot> = Vec::new();
        stack.push(Spot { rel: String::new(), place: String::new() });
        let r = ManifestScan { stack, entries: Vec::new() };
        proof {
            assert(r@.stack =~= seq![(Seq::<char>::empty(), Seq::<char>::empty())]);
            assert(r@.entries =~= Seq::<ManifestEntryView>::empty());
        }
        r
    }

    /// The next path to visit.
    pub fn next(&mut self) -> (r: Option<Spot>)
        ensures
            match r {
                Some(spot) => old(self)@.stack.len() > 0 && (spot.rel@, spot.place@) == old(
                    self,
                )@.stack.last() && final(self)@ == spot_taken(old(self)@),
                None => old(self)@.stack.len() == 0 && final(self)@ == old(self)@,
            },
    {
        let r = self.stack.pop();
        proof {
            if old(self).stack@.len() > 0 {
                assert(self@.stack =~= old(self)@.stack.drop_last());
            } else {
                assert(self@.stack =~= old(self)@.stack);
            }
        }
        r
    }

    /// Takes in a link, which counts as an empty directory.
    pub fn add_placeholder(&mut self, rel: &str)
        ensures
            final(self)@ == with_entry(old(self)@, entry_of(rel@, true, 0, 0, 0)),
    {
        self.entries.push(entry_for(rel, true, 0, 0, 0));
        assert(self@.entries =~= old(self)@.entries.push(entry_of(rel@, true, 0, 0, 0)));
    }

    /// Takes in a file.
    pub fn add_file(&mut self, rel: &str, len: u64, mtime: i64, attrs: u32)
        ensures
            final(self)@ == with_entry(old(self)@, entry_of(rel@, false, len, mtime, attrs)),
    {
        self.entries.push(entry_for(rel, false, len, mtime, attrs));
        assert(self@.entries =~= old(self)@.entries.push(
            entry_of(rel@, false, len, mtime, attrs),
        ));
    }

    /// Takes in a directory and the names of its entries. The root of the tree
    /// is no entry of its own.
    pub fn add_directory(&mut self, spot: &Spot, mtime: i64, attrs: u32, names: &[String])
        ensures
            final(self)@ == with_listed(
                old(self)@,
                spot.rel@,
                spot.place@,
                mtime,
                attrs,
                strings_view(names@),
            ),
    {
        if !spot.rel.as_str().is_empty() {
            self.entries.push(entry_for(spot.rel.as_str(), true, 0, mtime, attrs));
            assert(self@.entries =~= old(self)@.entries.push(
                entry_of(spot.rel@, true, 0, mtime, attrs),
            ));
        }
        let ghost s1 = self@;
        let ghost spots = spots_in(spot.rel@, spot.place@, strings_view(names@));
        let mut i: usize = 0;
        assert(s1.stack + spots.take(0) =~= s1.stack);
        while i < names.len()
            invariant
                i <= names@.len(),
                spots == spots_in(spot.rel@, spot.place@, strings_view(names@)),
                self@ == (ManifestScanView { stack: s1.stack + spots.take(i as int), ..s1 }),
            decreases names@.len() - i,
        {
            let ghost before = self@.stack;
            let plain: String = replaced_char(names[i].as_str(), '\\', '/');
            let rel: String = if spot.rel.as_str().is_empty() {
                plain
            } else {
                let mut out = spot.rel.clone();
                out.push('/');
                out.append(plain.as_str());
                out
            };
            let place: String = if spot.place.as_str().is_empty() {
                names[i].clone()
            } else {
                let mut out = spot.place.clone();
                out.push('/');
                out.append(names[i].as_str());
                out
            };
            let kid = Spot { rel, place };
            assert((kid.rel@, kid.place@) == spots[i as int]);
            self.stack.push(kid);
            proof {
                assert(self@.stack =~= before.push((kid.rel@, kid.place@)));
                assert(before.push((kid.rel@, kid.place@)) =~= s1.stack + spots.take(i + 1));
            }
            i += 1;
        }
        assert(spots.take(spots.len() as int) =~= spots);
    }

    /// The manifest of the tree.
    pub fn finish(self, root: &str) -> (r: Manifest)
        ensures
            r.root@ == root@,
            entries_view(r.entries@) == self@.entries,
    {
        Manifest { root: String::from_str(root), entries: self.entries }
    }
}

// ---------------------------------------------------------------------------
// Laws
// ---------------------------------------------------------------------------

/// The entry for a path that occurs once.
proof fn lemma_entry_for_path(s: Seq<ManifestEntryView>, i: int, n: nat)
    requires
        0 <= i < n <= s.len(),
        forall|a: int, b: int|
            0 <= a < b < s.len() ==> (#[trigger] s[a]).rel_path != (#[trigger] s[b]).rel_path,
    ensures
        entry_for_path(s, s[i].rel_path, n) == Some(s[i]),
    decreases n,
{
    if i < n - 1 {
        assert(s[i].rel_path != s[n - 1].rel_path);
        lemma_entry_for_path(s, i, (n - 1) as nat);
    }
}

/// A path that does not occur has no entry.
proof fn lemma_no_entry(s: Seq<ManifestEntryView>, k: Seq<char>, n: nat)
    requires
        n <= s.len(),
        forall|i: int| 0 <= i < s.len() ==> (#[trigger] s[i]).rel_path != k,
    ensures
        entry_for_path(s, k, n) is None,
    decreases n,
{
    if n > 0 {
        assert(s[n - 1].rel_path != k);
        lemma_no_entry(s, k, (n - 1) as nat);
    }
}

/// A file that was written with another size than was read is noticed.
pub proof fn law_short_file_is_noticed(
    copied: Seq<ManifestEntryView>,
    written: Seq<ManifestEntryView>,
    i: int,
    j: int,
)
    requires
        0 <= i < copied.len(),
        0 <= j < written.len(),
        copied[i].rel_path == written[j].rel_path,
        copied[i].size != written[j].size,
        forall|a: int, b: int|
            0 <= a < b < copied.len() ==> (#[trigger] copied[a]).rel_path != (
            #[trigger] copied[b]).rel_path,
        forall|a: int, b: int|
            0 <= a < b < written.len() ==> (#[trigger] written[a]).rel_path != (
            #[trigger] written[b]).rel_path,
    ensures
        !same_tree(copied, written),
{
    lemma_entry_for_path(copied, i, copied.len());
    lemma_entry_for_path(written, j, written.len());
    assert(differ_at(copied, written, copied[i].rel_path));
}

/// A file that was not written, or that nobody read, is noticed.
pub proof fn law_missing_file_is_noticed(
    copied: Seq<ManifestEntryView>,
    written: Seq<ManifestEntryView>,
    i: int,
)
    requires
        0 <= i < copied.len(),
        forall|a: int, b: int|
            0 <= a < b < copied.len() ==> (#[trigger] copied[a]).rel_path != (
            #[trigger] copied[b]).rel_path,
        forall|j: int|
            0 <= j < written.len() ==> (#[trigger] written[j]).rel_path != copied[i].rel_path,
    ensures
        !same_tree(copied, written),
        !same_tree(written, copied),
{
    lemma_entry_for_path(copied, i, copied.len());
    lemma_no_entry(written, copied[i].rel_path, written.len());
    assert(differ_at(copied, written, copied[i].rel_path));
    assert(differ_at(written, copied, copied[i].rel_path));
}

} // verus!
