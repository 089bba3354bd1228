//! The outcome of a scan does not depend on the order of the walk.
//!
//! A walker that fans out over several workers reports the same entries in
//! an order that differs from run to run. What the scanner computes from
//! them is the same in every order: the counters are sums, and the list of
//! files holds the same records, each as often.

use crate::scanner::{
    dirs_in, files_of, lemma_files_of_push, lemma_total_bytes_push, total_bytes, FileEntry, ScanResult,
    WalkEvent,
};
use std::path::PathBuf;
use vstd::prelude::*;
use vstd::seq_lib::{lemma_multiset_commutative, to_multiset_contains, to_multiset_len, to_multiset_remove};

verus! {

/// A measure of a walk is additive if the measure of two walks, one after
/// the other, is the sum of their measures.
pub open spec fn additive(measure: spec_fn(Seq<WalkEvent>) -> nat) -> bool {
    forall|first: Seq<WalkEvent>, second: Seq<WalkEvent>|
        #[trigger] measure(first + second) == measure(first) + measure(second)
}

/// An additive measure gives two walks with the same events, each as often,
/// the same value.
pub proof fn lemma_additive_measure_of_reordering(
    a: Seq<WalkEvent>,
    b: Seq<WalkEvent>,
    measure: spec_fn(Seq<WalkEvent>) -> nat,
)
    requires
        a.to_multiset() == b.to_multiset(),
        additive(measure),
    ensures
        measure(a) == measure(b),
    decreases a.len(),
{
    to_multiset_len(a);
    to_multiset_len(b);
    if a.len() == 0 {
        assert(a == b);
    } else {
        let last = a.last();
        let rest = a.drop_last();
        assert(a.contains(last));
        to_multiset_contains(a, last);
        to_multiset_contains(b, last);
        let at = b.index_of(last);
        let others = b.remove(at);
        assert(rest == a.remove(a.len() - 1));
        to_multiset_remove(a, a.len() - 1);
        to_multiset_remove(b, at);
        lemma_additive_measure_of_reordering(rest, others, measure);
        assert(a == rest + seq![last]);
        assert(b == b.take(at) + seq![last] + b.skip(at + 1));
        assert(others == b.take(at) + b.skip(at + 1));
    }
}

/// The files of two walks, one after the other, are the files of the first
/// followed by the files of the second.
pub proof fn lemma_files_of_concat(first: Seq<WalkEvent>, second: Seq<WalkEvent>)
    ensures
        files_of(first + second) == files_of(first) + files_of(second),
    decreases second.len(),
{
    if second.len() == 0 {
        assert(first + second == first);
        assert(files_of(second) == Seq::<FileEntry>::empty());
    } else {
        let rest = second.drop_last();
        let last = second.last();
        lemma_files_of_concat(first, rest);
        assert(first + second == (first + rest).push(last));
        assert(second == rest.push(last));
        lemma_files_of_push(first + rest, last);
        lemma_files_of_push(rest, last);
    }
}

/// The bytes of two lists of files, one after the other, are the sum of the
/// bytes of each.
pub proof fn lemma_total_bytes_concat(first: Seq<FileEntry>, second: Seq<FileEntry>)
    ensures
        total_bytes(first + second) == total_bytes(first) + total_bytes(second),
    decreases second.len(),
{
    if second.len() == 0 {
        assert(first + second == first);
    } else {
        let rest = second.drop_last();
        let last = second.last();
        lemma_total_bytes_concat(first, rest);
        assert(first + second == (first + rest).push(last));
        assert(second == rest.push(last));
        lemma_total_bytes_push(first + rest, last);
        lemma_total_bytes_push(rest, last);
    }
}

/// Reordering the events of a walk changes none of the counters of its scan,
/// and leaves in its list of files the same records, each as often.
///
/// So two scans of a directory that has not changed agree on the number of
/// files, the number of directories and the total size, and their lists of
/// files differ in order at most.
pub proof fn lemma_scan_ignores_order(a: Seq<WalkEvent>, b: Seq<WalkEvent>)
    requires
        a.to_multiset() == b.to_multiset(),
    ensures
        files_of(a).len() == files_of(b).len(),
        dirs_in(a) == dirs_in(b),
        total_bytes(files_of(a)) == total_bytes(files_of(b)),
        files_of(a).to_multiset() == files_of(b).to_multiset(),
{
    let file_count = |events: Seq<WalkEvent>| files_of(events).len();
    assert(additive(file_count)) by {
        assert forall|first: Seq<WalkEvent>, second: Seq<WalkEvent>|
            #[trigger] file_count(first + second) == file_count(first) + file_count(second) by {
            lemma_files_of_concat(first, second);
        }
    }
    lemma_additive_measure_of_reordering(a, b, file_count);

    let dir_count = |events: Seq<WalkEvent>| dirs_in(events);
    assert(additive(dir_count)) by {
        assert forall|first: Seq<WalkEvent>, second: Seq<WalkEvent>|
            #[trigger] dir_count(first + second) == dir_count(first) + dir_count(second) by {
            Seq::filter_distributes_over_add(first, second, |event: WalkEvent| crate::scanner::is_dir_event(event));
        }
    }
    lemma_additive_measure_of_reordering(a, b, dir_count);

    let bytes = |events: Seq<WalkEvent>| total_bytes(files_of(events));
    assert(additive(bytes)) by {
        assert forall|first: Seq<WalkEvent>, second: Seq<WalkEvent>|
            #[trigger] bytes(first + second) == bytes(first) + bytes(second) by {
            lemma_files_of_concat(first, second);
            lemma_total_bytes_concat(files_of(first), files_of(second));
        }
    }
    lemma_additive_measure_of_reordering(a, b, bytes);

    assert forall|file: FileEntry|
        files_of(a).to_multiset().count(file) == files_of(b).to_multiset().count(file) by {
        let copies = |events: Seq<WalkEvent>| files_of(events).to_multiset().count(file);
        assert(additive(copies)) by {
            assert forall|first: Seq<WalkEvent>, second: Seq<WalkEvent>|
                #[trigger] copies(first + second) == copies(first) + copies(second) by {
                lemma_files_of_concat(first, second);
                lemma_multiset_commutative(files_of(first), files_of(second));
            }
        }
        lemma_additive_measure_of_reordering(a, b, copies);
    }
    assert(files_of(a).to_multiset() =~= files_of(b).to_multiset());
}

/// Two scans that met the same events, each as often, agree on the number
/// of files, the number of directories and the total size, and their lists
/// of files hold the same records, each as often: scanning a directory that
/// has not changed a second time gives the first result again, up to the
/// order of the files and the time it took.
pub proof fn lemma_rescan_agrees(
    first: ScanResult,
    second: ScanResult,
    root: PathBuf,
    a: Seq<WalkEvent>,
    b: Seq<WalkEvent>,
    first_ms: u128,
    second_ms: u128,
)
    requires
        first.tallies(root, a, first_ms),
        second.tallies(root, b, second_ms),
        a.to_multiset() == b.to_multiset(),
    ensures
        first.file_count == second.file_count,
        first.dir_count == second.dir_count,
        first.total_size == second.total_size,
        first.files@.to_multiset() == second.files@.to_multiset(),
{
    lemma_scan_ignores_order(a, b);
}

} // verus!
