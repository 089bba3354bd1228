//! Tallying a directory walk.
//!
//! A walker reports what it meets as a stream of [`WalkEvent`]s. The scanner
//! classifies each event, counts files and directories, totals the file
//! sizes and keeps one [`FileEntry`] per file. The outcome depends on the
//! events alone, and not on the order in which they arrive.

use std::path::PathBuf;
use vstd::arithmetic::div_mod::{lemma_add_mod_noop, lemma_mod_sub_multiples_vanish, lemma_small_mod};
use vstd::prelude::*;
use vstd::string::StringExecFns;

verus! {

/// `std::path::PathBuf`: a path is carried through as it is, and nothing is
/// known of what it holds.
#[verifier::external_type_specification]
#[verifier::external_body]
pub struct ExPathBuf(PathBuf);

/// `PathBuf::clone` of std: the copy is the same path as the one it was made
/// of.
pub assume_specification[ <PathBuf as Clone>::clone ](path: &PathBuf) -> (copy: PathBuf)
    ensures
        copy == *path,
;

/// Why a scan was refused before any traversal.
#[derive(Debug, Clone, Copy, PartialEq, Eq, Structural)]
pub enum ScanError {
    /// The root does not exist on the file system.
    PathNotFound,
    /// The root exists but is not a directory.
    NotADirectory,
}

impl ScanError {
    /// The message for this error on the root `path`.
    pub open spec fn message_text(self, path: Seq<char>) -> Seq<char> {
        match self {
            ScanError::PathNotFound => "Path does not exist: "@ + path,
            ScanError::NotADirectory => "Path is not a directory: "@ + path,
        }
    }

    /// Writes the error out for the root `path` on which it came.
    pub fn message(&self, path: &str) -> (text: String)
        ensures
            text@ == self.message_text(path@),
    {
        let reason = match self {
            ScanError::PathNotFound => "Path does not exist: ",
            ScanError::NotADirectory => "Path is not a directory: ",
        };
        String::from_str(reason).concat(path)
    }
}

/// What a walk leaves out.
#[derive(Debug, Clone, Copy, PartialEq, Eq, Structural)]
pub struct WalkPolicy {
    /// Hidden entries, those whose name begins with a dot, are left out.
    pub skip_hidden: bool,
    /// Entries that the ignore files of the tree exclude are left out.
    pub respect_ignore_files: bool,
}

impl Default for WalkPolicy {
    /// The policy of a scan: hidden entries are left out, and so is what the
    /// ignore files of the tree exclude.
    fn default() -> (policy: WalkPolicy)
        ensures
            policy == (WalkPolicy { skip_hidden: true, respect_ignore_files: true }),
    {
        WalkPolicy { skip_hidden: true, respect_ignore_files: true }
    }
}

/// What the file-type metadata of an entry says it is.
#[derive(Debug, Clone, Copy, PartialEq, Eq, Structural)]
pub enum EntryKind {
    File,
    Directory,
    /// Anything else: a symbolic link that is not followed, a socket, a device.
    Other,
}

impl EntryKind {
    /// The kind of an entry, from the two questions that its file type
    /// answers: a regular file where it says so, else a directory where it
    /// says so, else neither.
    pub fn of(is_file: bool, is_dir: bool) -> (kind: EntryKind)
        ensures
            kind == EntryKind::spec_of(is_file, is_dir),
    {
        if is_file {
            EntryKind::File
        } else if is_dir {
            EntryKind::Directory
        } else {
            EntryKind::Other
        }
    }

    /// See [`EntryKind::of`].
    pub open spec fn spec_of(is_file: bool, is_dir: bool) -> EntryKind {
        if is_file {
            EntryKind::File
        } else if is_dir {
            EntryKind::Directory
        } else {
            EntryKind::Other
        }
    }

    /// Whether the scanner reads the size of an entry of this kind: it does
    /// for regular files, whose sizes it totals, and for nothing else.
    pub fn has_size(&self) -> (wanted: bool)
        ensures
            wanted == (*self == EntryKind::File),
    {
        match self {
            EntryKind::File => true,
            _ => false,
        }
    }
}

/// One entry as the walker reported it.
#[derive(Debug)]
pub struct WalkEntry {
    /// Full path of the entry.
    pub path: PathBuf,
    /// Base name of the entry.
    pub name: String,
    /// File type, or `None` where it could not be determined.
    pub kind: Option<EntryKind>,
    /// Length in bytes, or `None` where the metadata was not read or could
    /// not be read.
    pub size: Option<u64>,
}

impl Clone for WalkEntry {
    fn clone(&self) -> (copy: WalkEntry)
        ensures
            copy == *self,
    {
        WalkEntry { path: self.path.clone(), name: self.name.clone(), kind: self.kind, size: self.size }
    }
}

/// One step of a walk.
#[derive(Debug)]
pub enum WalkEvent {
    /// The walker reached an entry.
    Entry(WalkEntry),
    /// The walker failed on an entry (permission denied, a broken link).
    Failed,
}

impl Clone for WalkEvent {
    fn clone(&self) -> (copy: WalkEvent)
        ensures
            copy == *self,
    {
        match self {
            WalkEvent::Entry(entry) => WalkEvent::Entry(entry.clone()),
            WalkEvent::Failed => WalkEvent::Failed,
        }
    }
}

/// A single file discovered during scanning.
#[derive(Debug)]
pub struct FileEntry {
    /// Full path on disk.
    pub path: PathBuf,
    /// Base name of the file.
    pub name: String,
    /// Length in bytes at the time of the scan.
    pub size: u64,
    /// Always `false`: directories are counted, not recorded.
    pub is_dir: bool,
}

impl Clone for FileEntry {
    fn clone(&self) -> (copy: FileEntry)
        ensures
            copy == *self,
    {
        FileEntry { path: self.path.clone(), name: self.name.clone(), size: self.size, is_dir: self.is_dir }
    }
}

/// Outcome of one scan.
///
/// A result that the scanner hands out is well formed ([`ScanResult::wf`]):
/// its counters agree with its list of files.
#[derive(Debug)]
pub struct ScanResult {
    /// The path that was scanned.
    pub root: PathBuf,
    /// Number of files met.
    pub file_count: usize,
    /// Number of directories met, the root among them where the walker reports it.
    pub dir_count: usize,
    /// Sum of the sizes of the files met, in bytes, as a 64-bit counter holds
    /// it.
    pub total_size: u64,
    /// Wall-clock duration of the scan, in milliseconds.
    pub elapsed_ms: u128,
    /// One record per file met, in the order of arrival.
    pub files: Vec<FileEntry>,
}

/// True of the events that report a regular file.
pub open spec fn is_file_event(event: WalkEvent) -> bool {
    event matches WalkEvent::Entry(entry) && entry.kind == Some(EntryKind::File)
}

/// True of the events that report a directory.
pub open spec fn is_dir_event(event: WalkEvent) -> bool {
    event matches WalkEvent::Entry(entry) && entry.kind == Some(EntryKind::Directory)
}

/// The record that is kept of a file: its path and name as reported, its
/// size, or 0 where the size could not be read.
pub open spec fn file_record(entry: WalkEntry) -> FileEntry {
    FileEntry {
        path: entry.path,
        name: entry.name,
        size: match entry.size {
            Some(bytes) => bytes,
            None => 0,
        },
        is_dir: false,
    }
}

/// What one event adds to the list of files: a record for a regular file,
/// nothing for a directory, for any other kind of entry, for an entry of
/// unknown kind and for a failure of the walker.
pub open spec fn recorded(event: WalkEvent) -> Option<FileEntry> {
    match event {
        WalkEvent::Entry(entry) => if entry.kind == Some(EntryKind::File) {
            Some(file_record(entry))
        } else {
            None
        },
        WalkEvent::Failed => None,
    }
}

/// The files of a walk: the records of its file events, in order.
pub open spec fn files_of(events: Seq<WalkEvent>) -> Seq<FileEntry> {
    events.filter_map(|event: WalkEvent| recorded(event))
}

/// The number of directories that a walk reports.
pub open spec fn dirs_in(events: Seq<WalkEvent>) -> nat {
    events.filter(|event: WalkEvent| is_dir_event(event)).len()
}

/// The sum of the sizes of a list of files, as a natural number.
pub open spec fn total_bytes(files: Seq<FileEntry>) -> nat
    decreases files.len(),
{
    if files.len() == 0 {
        0
    } else {
        total_bytes(files.drop_last()) + files.last().size as nat
    }
}

/// A byte total as a 64-bit counter holds it: reduced modulo 2^64.
pub open spec fn wrap_u64(total: nat) -> u64 {
    (total % 0x1_0000_0000_0000_0000) as u64
}

/// A count as a counter of machine-word size holds it: reduced modulo the
/// number of values of `usize`.
pub open spec fn wrap_usize(count: nat) -> usize {
    (count % (usize::MAX as nat + 1)) as usize
}

impl Clone for ScanResult {
    fn clone(&self) -> (copy: ScanResult)
        ensures
            copy.root == self.root,
            copy.file_count == self.file_count,
            copy.dir_count == self.dir_count,
            copy.total_size == self.total_size,
            copy.elapsed_ms == self.elapsed_ms,
            copy.files@ == self.files@,
    {
        let files = self.files.clone();
        assert(files@ =~= self.files@);
        ScanResult {
            root: self.root.clone(),
            file_count: self.file_count,
            dir_count: self.dir_count,
            total_size: self.total_size,
            elapsed_ms: self.elapsed_ms,
            files,
        }
    }
}

impl ScanResult {
    /// The counters agree with the list: `file_count` is its length and
    /// `total_size` is the sum of its sizes, as a 64-bit counter holds it.
    pub open spec fn wf(&self) -> bool {
        &&& self.file_count == self.files@.len()
        &&& self.total_size == wrap_u64(total_bytes(self.files@))
    }

    /// The result of tallying `events` under `root`.
    pub open spec fn tallies(&self, root: PathBuf, events: Seq<WalkEvent>, elapsed_ms: u128) -> bool {
        &&& self.root == root
        &&& self.elapsed_ms == elapsed_ms
        &&& self.files@ == files_of(events)
        &&& self.file_count == files_of(events).len()
        &&& self.dir_count == wrap_usize(dirs_in(events))
        &&& self.total_size == wrap_u64(total_bytes(files_of(events)))
    }
}

/// Decides whether a root can be scanned, from what the file system says of it.
pub fn check_root(exists: bool, is_dir: bool) -> (r: Result<(), ScanError>)
    ensures
        r == root_verdict(exists, is_dir),
{
    if !exists {
        Err(ScanError::PathNotFound)
    } else if !is_dir {
        Err(ScanError::NotADirectory)
    } else {
        Ok(())
    }
}

/// The verdict on a root: existence is tested first, then the kind.
pub open spec fn root_verdict(exists: bool, is_dir: bool) -> Result<(), ScanError> {
    if !exists {
        Err(ScanError::PathNotFound)
    } else if !is_dir {
        Err(ScanError::NotADirectory)
    } else {
        Ok(())
    }
}

/// The running tally of a scan: what has been counted of the events
/// recorded so far.
pub struct ScanTally {
    files: Vec<FileEntry>,
    file_count: usize,
    dir_count: usize,
    total_size: u64,
    seen: Ghost<Seq<WalkEvent>>,
}

impl ScanTally {
    #[verifier::type_invariant]
    spec fn inv(&self) -> bool {
        &&& self.files@ == files_of(self.seen@)
        &&& self.file_count == self.files@.len()
        &&& self.dir_count == wrap_usize(dirs_in(self.seen@))
        &&& self.total_size == wrap_u64(total_bytes(self.files@))
    }

    /// The events recorded so far, in the order of recording.
    pub closed spec fn seen(&self) -> Seq<WalkEvent> {
        self.seen@
    }

    /// A tally that has recorded nothing.
    pub fn new() -> (tally: ScanTally)
        ensures
            tally.seen() == Seq::<WalkEvent>::empty(),
    {
        proof {
            lemma_empty_walk();
        }
        ScanTally {
            files: Vec::new(),
            file_count: 0,
            dir_count: 0,
            total_size: 0,
            seen: Ghost(Seq::empty()),
        }
    }

    /// The tally after one more event.
    fn advanced(self, event: WalkEvent) -> (tally: ScanTally)
        ensures
            tally.seen() == self.seen().push(event),
    {
        proof {
            use_type_invariant(&self);
        }
        let ScanTally { mut files, mut file_count, mut dir_count, mut total_size, seen } = self;
        let ghost before = files@;
        match event {
            WalkEvent::Entry(entry) => {
                match entry.kind {
                    Some(EntryKind::File) => {
                        let size = match entry.size {
                            Some(bytes) => bytes,
                            None => 0,
                        };
                        files.push(FileEntry { path: entry.path, name: entry.name, size, is_dir: false });
                        file_count = files.len();
                        total_size = total_size.wrapping_add(size);
                    },
                    Some(EntryKind::Directory) => {
                        dir_count = dir_count.wrapping_add(1);
                    },
                    _ => {},
                }
            },
            WalkEvent::Failed => {},
        }
        proof {
            lemma_files_of_push(seen@, event);
            lemma_dirs_in_push(seen@, event);
            if is_file_event(event) {
                let added = files@.last();
                assert(files@ == before.push(added));
                lemma_total_bytes_push(before, added);
                lemma_wrapped_sum(total_bytes(before), added.size as nat, 0x1_0000_0000_0000_0000);
            }
            if is_dir_event(event) {
                lemma_wrapped_sum(dirs_in(seen@), 1, usize::MAX as nat + 1);
            }
        }
        ScanTally { files, file_count, dir_count, total_size, seen: Ghost(seen@.push(event)) }
    }

    /// Records one event of the walk.
    pub fn record(&mut self, event: WalkEvent)
        ensures
            final(self).seen() == old(self).seen().push(event),
    {
        let mut current = ScanTally::new();
        core::mem::swap(self, &mut current);
        *self = current.advanced(event);
    }

    /// Closes the tally: the result of the scan of `root` that took
    /// `elapsed_ms` milliseconds and met the events recorded.
    pub fn finish(self, root: PathBuf, elapsed_ms: u128) -> (result: ScanResult)
        ensures
            result.tallies(root, self.seen(), elapsed_ms),
            result.wf(),
    {
        proof {
            use_type_invariant(&self);
        }
        let ScanTally { files, file_count, dir_count, total_size, seen: _ } = self;
        ScanResult { root, file_count, dir_count, total_size, elapsed_ms, files }
    }
}

/// Opens a scan: refuses a root that is missing or is no directory, and
/// hands out an empty tally for one that can be walked.
pub fn begin_scan(exists: bool, is_dir: bool) -> (r: Result<ScanTally, ScanError>)
    ensures
        match r {
            Ok(tally) => root_verdict(exists, is_dir) is Ok && tally.seen() == Seq::<WalkEvent>::empty(),
            Err(error) => root_verdict(exists, is_dir) == Err::<(), ScanError>(error),
        },
{
    match check_root(exists, is_dir) {
        Ok(()) => Ok(ScanTally::new()),
        Err(error) => Err(error),
    }
}

/// Scans a directory from what the file system said of it: whether `root`
/// exists, whether it is a directory, the events of the walk below it, and
/// the time the walk took.
///
/// A root that is missing or is no directory is refused, whatever the
/// events. Otherwise the result tallies the events: one record per file in
/// the order of arrival, the number of files, the number of directories and
/// the sum of the file sizes.
pub fn scan_directory(
    root: PathBuf,
    exists: bool,
    is_dir: bool,
    events: Vec<WalkEvent>,
    elapsed_ms: u128,
) -> (r: Result<ScanResult, ScanError>)
    ensures
        match r {
            Ok(result) => {
                &&& root_verdict(exists, is_dir) is Ok
                &&& result.tallies(root, events@, elapsed_ms)
                &&& result.wf()
                &&& result.dir_count == dirs_in(events@)
            },
            Err(error) => root_verdict(exists, is_dir) == Err::<(), ScanError>(error),
        },
{
    let mut tally = match begin_scan(exists, is_dir) {
        Ok(tally) => tally,
        Err(error) => { return Err(error); },
    };
    let ghost all = events@;
    assert(all.len() == events.len() <= usize::MAX);
    for event in it: events
        invariant
            it.seq() == all,
            all.len() <= usize::MAX,
            tally.seen() == all.take(it.index() as int),
    {
        assert(all.take(it.index() + 1) == all.take(it.index() as int).push(event));
        tally.record(event);
    }
    proof {
        assert(all.take(all.len() as int) == all);
        lemma_dirs_in_bound(all);
        lemma_small_mod(dirs_in(all), usize::MAX as nat + 1);
    }
    Ok(tally.finish(root, elapsed_ms))
}

/// The total of a well-formed result is the sum of the sizes of its files,
/// as long as that sum is below 2^64.
pub proof fn lemma_total_size_is_sum(result: ScanResult)
    requires
        result.wf(),
        total_bytes(result.files@) <= u64::MAX,
    ensures
        result.total_size == total_bytes(result.files@),
{
}

/// No record in the files of a walk is marked as a directory, and each has
/// the size that the walker read, or 0.
pub proof fn lemma_files_are_files(events: Seq<WalkEvent>, i: int)
    requires
        0 <= i < files_of(events).len(),
    ensures
        !files_of(events)[i].is_dir,
        exists|k: int|
            0 <= k < events.len() && is_file_event(#[trigger] events[k]) && files_of(events)[i]
                == file_record(events[k]->0),
    decreases events.len(),
{
    let rest = events.drop_last();
    let last = events.last();
    assert(events == rest.push(last));
    lemma_files_of_push(rest, last);
    if i < files_of(rest).len() {
        lemma_files_are_files(rest, i);
        let k = choose|k: int|
            0 <= k < rest.len() && is_file_event(#[trigger] rest[k]) && files_of(rest)[i]
                == file_record(rest[k]->0);
        assert(events[k] == rest[k]);
    } else {
        assert(is_file_event(events[events.len() - 1]));
    }
}

/// A walk reports no more directories than it has events.
pub proof fn lemma_dirs_in_bound(events: Seq<WalkEvent>)
    ensures
        dirs_in(events) <= events.len(),
{
    events.lemma_filter_len(|event: WalkEvent| is_dir_event(event));
}

/// A walk without events has no files and no directories.
pub proof fn lemma_empty_walk()
    ensures
        files_of(Seq::empty()) == Seq::<FileEntry>::empty(),
        dirs_in(Seq::empty()) == 0,
        total_bytes(Seq::empty()) == 0,
{
    reveal(Seq::filter);
}

/// A counter that wraps at `modulus` holds, after an addition, the sum
/// reduced modulo `modulus`.
proof fn lemma_wrapped_sum(total: nat, added: nat, modulus: nat)
    requires
        0 < modulus,
        added < modulus,
    ensures
        (total + added) % modulus == if total % modulus + added >= modulus {
            total % modulus + added - modulus
        } else {
            (total % modulus + added) as int
        },
{
    let m = modulus as int;
    let landed = (total % modulus + added) as int;
    lemma_add_mod_noop(total as int, added as int, m);
    lemma_small_mod(added, modulus);
    if landed < m {
        lemma_small_mod(landed as nat, modulus);
    } else {
        lemma_mod_sub_multiples_vanish(landed, m);
        lemma_small_mod((landed - m) as nat, modulus);
    }
}

/// One more event adds to the files of a walk what it records.
pub proof fn lemma_files_of_push(events: Seq<WalkEvent>, event: WalkEvent)
    ensures
        files_of(events.push(event)) == match recorded(event) {
            Some(file) => files_of(events).push(file),
            None => files_of(events),
        },
{
    assert(events.push(event).drop_last() == events);
}

/// One more event adds one to the directories of a walk where it reports a
/// directory.
pub proof fn lemma_dirs_in_push(events: Seq<WalkEvent>, event: WalkEvent)
    ensures
        dirs_in(events.push(event)) == dirs_in(events) + if is_dir_event(event) { 1nat } else { 0nat },
{
    events.lemma_filter_push(event, |event: WalkEvent| is_dir_event(event));
}

/// One more file adds its size to the total.
pub proof fn lemma_total_bytes_push(files: Seq<FileEntry>, file: FileEntry)
    ensures
        total_bytes(files.push(file)) == total_bytes(files) + file.size,
{
    assert(files.push(file).drop_last() == files);
}

} // verus!
