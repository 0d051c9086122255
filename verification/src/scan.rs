//! The scan-and-aggregate engine: entry records, the summary accumulator,
//! and the fold that turns a stream of directory entries into a summary.

use vstd::prelude::*;

use crate::render::spec_report;

verus! {

/// Number of seconds in the staleness window: files whose last modification
/// lies strictly before scan start minus this many seconds count as old.
pub const STALE_SECONDS: u64 = 180 * 24 * 60 * 60;

/// Three-way classification of a directory entry.
#[derive(Clone, Copy, PartialEq, Eq, Structural, Debug)]
pub enum EntryKind {
    File,
    Directory,
    Other,
}

/// One traversed filesystem entry, reduced to the plain values the
/// aggregator reads: its depth below the scan root (the root itself is
/// depth 0), its classification, its file name, and its metadata where
/// that could be read.
pub struct EntryRecord {
    pub depth: u64,
    pub kind: EntryKind,
    pub name: String,
    pub size: Option<u64>,
    pub modified: Option<u64>,
}

/// One bucket of the extension histogram.
pub struct ExtCount {
    pub name: String,
    pub count: u64,
}

/// The finished summary of one scan.
pub struct ScanSummary {
    pub file_count: u64,
    pub directory_count: u64,
    pub total_bytes: u64,
    pub extensions: Vec<ExtCount>,
    pub old_files: u64,
}

/// Mathematical model of a summary: unbounded counts and the histogram as a
/// sequence of (key, count) pairs in insertion order.
#[verifier::ext_equal]
pub ghost struct SummaryModel {
    pub file_count: int,
    pub directory_count: int,
    pub total_bytes: int,
    pub extensions: Seq<(Seq<char>, int)>,
    pub old_files: int,
}

/// The histogram a vector of buckets stands for.
pub open spec fn hist_view(h: Seq<ExtCount>) -> Seq<(Seq<char>, int)> {
    h.map_values(|ec: ExtCount| (ec.name@, ec.count as int))
}

impl View for ScanSummary {
    type V = SummaryModel;

    open spec fn view(&self) -> SummaryModel {
        SummaryModel {
            file_count: self.file_count as int,
            directory_count: self.directory_count as int,
            total_bytes: self.total_bytes as int,
            extensions: hist_view(self.extensions@),
            old_files: self.old_files as int,
        }
    }
}

pub open spec fn hist_has_key(h: Seq<(Seq<char>, int)>, key: Seq<char>) -> bool {
    exists|i: int| 0 <= i < h.len() && (#[trigger] h[i]).0 == key
}

pub open spec fn hist_index_of(h: Seq<(Seq<char>, int)>, key: Seq<char>) -> int {
    choose|i: int| 0 <= i < h.len() && (#[trigger] h[i]).0 == key
}

/// The histogram after one more occurrence of `key`: the existing bucket is
/// incremented in place, or a fresh bucket with count 1 is appended.
pub open spec fn hist_bump(h: Seq<(Seq<char>, int)>, key: Seq<char>) -> Seq<(Seq<char>, int)> {
    if hist_has_key(h, key) {
        let i = hist_index_of(h, key);
        h.update(i, (key, h[i].1 + 1))
    } else {
        h.push((key, 1))
    }
}

pub open spec fn hist_sum(h: Seq<(Seq<char>, int)>) -> int
    decreases h.len(),
{
    if h.len() == 0 {
        0
    } else {
        hist_sum(h.drop_last()) + h.last().1
    }
}

pub open spec fn hist_keys_unique(h: Seq<(Seq<char>, int)>) -> bool {
    forall|i: int, j: int|
        0 <= i < j < h.len() ==> (#[trigger] h[i]).0 != (#[trigger] h[j]).0
}

pub open spec fn hist_counts_pos(h: Seq<(Seq<char>, int)>) -> bool {
    forall|i: int| 0 <= i < h.len() ==> (#[trigger] h[i]).1 >= 1
}

/// Well-formedness of a summary model: the histogram has one bucket per
/// distinct key, every bucket was hit at least once, the file count equals
/// the histogram total, and stale files are a subset of the files.
pub open spec fn model_wf(m: SummaryModel) -> bool {
    &&& 0 <= m.file_count
    &&& 0 <= m.directory_count
    &&& 0 <= m.total_bytes
    &&& 0 <= m.old_files
    &&& hist_keys_unique(m.extensions)
    &&& hist_counts_pos(m.extensions)
    &&& hist_sum(m.extensions) == m.file_count
    &&& m.old_files <= m.file_count
}

pub open spec fn empty_model() -> SummaryModel {
    SummaryModel {
        file_count: 0,
        directory_count: 0,
        total_bytes: 0,
        extensions: Seq::empty(),
        old_files: 0,
    }
}

/// Whether an entry at `depth` is counted at all: the root itself never is,
/// a flat scan stops at the root's direct children, a recursive scan takes
/// every depth below the root.
pub open spec fn spec_counted(recursive: bool, depth: u64) -> bool {
    1 <= depth && (recursive || depth == 1)
}

/// A file is old when its modification time is known and strictly before
/// the staleness threshold.
pub open spec fn spec_is_old(modified: Option<u64>, threshold: u64) -> bool {
    modified is Some && modified->Some_0 < threshold
}

/// The bytes an entry contributes: its size where metadata was readable,
/// nothing otherwise.
pub open spec fn spec_entry_size(size: Option<u64>) -> int {
    if size is Some {
        size->Some_0 as int
    } else {
        0
    }
}

/// Index of the last `.` in a file name, or -1 when there is none.
pub open spec fn last_dot(name: Seq<char>) -> int
    decreases name.len(),
{
    if name.len() == 0 {
        -1
    } else if name.last() == '.' {
        name.len() - 1
    } else {
        last_dot(name.drop_last())
    }
}

/// The histogram key of a file name: from the last `.` to the end of the
/// name (so the key carries its leading dot), or the sentinel `Other` for
/// a name without any dot.
pub open spec fn spec_ext_label(name: Seq<char>) -> Seq<char> {
    if last_dot(name) < 0 {
        "Other"@
    } else {
        name.subrange(last_dot(name), name.len() as int)
    }
}

/// One step of the aggregation fold.
pub open spec fn spec_record(
    m: SummaryModel,
    e: EntryRecord,
    recursive: bool,
    threshold: u64,
) -> SummaryModel {
    if !spec_counted(recursive, e.depth) {
        m
    } else {
        match e.kind {
            EntryKind::File => SummaryModel {
                file_count: m.file_count + 1,
                directory_count: m.directory_count,
                total_bytes: m.total_bytes + spec_entry_size(e.size),
                extensions: hist_bump(m.extensions, spec_ext_label(e.name@)),
                old_files: m.old_files + if spec_is_old(e.modified, threshold) {
                    1int
                } else {
                    0int
                },
            },
            EntryKind::Directory => SummaryModel {
                directory_count: m.directory_count + 1,
                ..m
            },
            EntryKind::Other => m,
        }
    }
}

/// The whole aggregation: fold `spec_record` over the entry stream.
pub open spec fn spec_aggregate(
    entries: Seq<EntryRecord>,
    recursive: bool,
    threshold: u64,
) -> SummaryModel
    decreases entries.len(),
{
    if entries.len() == 0 {
        empty_model()
    } else {
        spec_record(
            spec_aggregate(entries.drop_last(), recursive, threshold),
            entries.last(),
            recursive,
            threshold,
        )
    }
}

/// Whether one more entry fits the summary's 64-bit counters.
pub open spec fn can_absorb(
    m: SummaryModel,
    e: EntryRecord,
    recursive: bool,
    threshold: u64,
) -> bool {
    spec_counted(recursive, e.depth) ==> match e.kind {
        EntryKind::File => m.file_count + 1 <= u64::MAX
            && m.total_bytes + spec_entry_size(e.size) <= u64::MAX,
        EntryKind::Directory => m.directory_count + 1 <= u64::MAX,
        EntryKind::Other => true,
    }
}

pub proof fn lemma_hist_sum_nonneg(h: Seq<(Seq<char>, int)>)
    requires
        hist_counts_pos(h),
    ensures
        hist_sum(h) >= 0,
    decreases h.len(),
{
    if h.len() > 0 {
        assert(hist_counts_pos(h.drop_last()));
        lemma_hist_sum_nonneg(h.drop_last());
    }
}

pub proof fn lemma_hist_count_le_sum(h: Seq<(Seq<char>, int)>, i: int)
    requires
        hist_counts_pos(h),
        0 <= i < h.len(),
    ensures
        h[i].1 <= hist_sum(h),
    decreases h.len(),
{
    if i == h.len() - 1 {
        assert(hist_counts_pos(h.drop_last()));
        lemma_hist_sum_nonneg(h.drop_last());
    } else {
        assert(hist_counts_pos(h.drop_last()));
        lemma_hist_count_le_sum(h.drop_last(), i);
    }
}

pub proof fn lemma_hist_sum_update(h: Seq<(Seq<char>, int)>, i: int, p: (Seq<char>, int))
    requires
        0 <= i < h.len(),
    ensures
        hist_sum(h.update(i, p)) == hist_sum(h) - h[i].1 + p.1,
    decreases h.len(),
{
    if i == h.len() - 1 {
        assert(h.update(i, p).drop_last() =~= h.drop_last());
    } else {
        assert(h.update(i, p).drop_last() =~= h.drop_last().update(i, p));
        lemma_hist_sum_update(h.drop_last(), i, p);
    }
}

pub proof fn lemma_hist_sum_push(h: Seq<(Seq<char>, int)>, p: (Seq<char>, int))
    ensures
        hist_sum(h.push(p)) == hist_sum(h) + p.1,
{
    assert(h.push(p).drop_last() =~= h);
}

/// Bumping a key raises the histogram total by exactly one and preserves
/// key uniqueness and positivity of the counts.
pub proof fn lemma_hist_bump(h: Seq<(Seq<char>, int)>, key: Seq<char>)
    requires
        hist_keys_unique(h),
        hist_counts_pos(h),
    ensures
        hist_sum(hist_bump(h, key)) == hist_sum(h) + 1,
        hist_keys_unique(hist_bump(h, key)),
        hist_counts_pos(hist_bump(h, key)),
{
    if hist_has_key(h, key) {
        let i = hist_index_of(h, key);
        assert(0 <= i < h.len() && h[i].0 == key);
        lemma_hist_sum_update(h, i, (key, h[i].1 + 1));
    } else {
        lemma_hist_sum_push(h, (key, 1));
    }
}

impl ScanSummary {
    /// A summary is well formed when its model is.
    pub open spec fn wf(&self) -> bool {
        model_wf(self@)
    }

    /// The empty summary a scan starts from.
    pub fn new() -> (s: ScanSummary)
        ensures
            s@ == empty_model(),
            s.wf(),
    {
        let s = ScanSummary {
            file_count: 0,
            directory_count: 0,
            total_bytes: 0,
            extensions: Vec::new(),
            old_files: 0,
        };
        proof {
            assert(s@ =~= empty_model());
        }
        s
    }

    /// Fold one entry into the summary: files are counted, sized and
    /// binned by extension, directories are counted, everything else and
    /// everything outside the traversal depth is ignored.
    pub fn record(&mut self, e: &EntryRecord, recursive: bool, threshold: u64)
        requires
            old(self).wf(),
            can_absorb(old(self)@, *e, recursive, threshold),
        ensures
            final(self)@ == spec_record(old(self)@, *e, recursive, threshold),
            final(self).wf(),
    {
        if e.depth >= 1 && (recursive || e.depth == 1) {
            match e.kind {
                EntryKind::File => {
                    proof {
                        lemma_hist_bump(old(self)@.extensions, spec_ext_label(e.name@));
                    }
                    self.file_count = self.file_count + 1;
                    let label = extension_label(e.name.as_str());
                    self.bump_extension(label);
                    if let Some(sz) = e.size {
                        self.total_bytes = self.total_bytes + sz;
                    }
                    if let Some(modified) = e.modified {
                        if modified < threshold {
                            self.old_files = self.old_files + 1;
                        }
                    }
                    proof {
                        assert(self@ =~= spec_record(old(self)@, *e, recursive, threshold));
                    }
                }
                EntryKind::Directory => {
                    self.directory_count = self.directory_count + 1;
                    proof {
                        assert(self@ =~= spec_record(old(self)@, *e, recursive, threshold));
                    }
                }
                EntryKind::Other => {
                    proof {
                        assert(self@ =~= spec_record(old(self)@, *e, recursive, threshold));
                    }
                }
            }
        } else {
            proof {
                assert(self@ =~= spec_record(old(self)@, *e, recursive, threshold));
            }
        }
    }

    /// Add one occurrence of `label` to the extension histogram.
    fn bump_extension(&mut self, label: String)
        requires
            hist_keys_unique(old(self)@.extensions),
            hist_counts_pos(old(self)@.extensions),
            hist_sum(old(self)@.extensions) + 1 <= u64::MAX,
        ensures
            final(self)@.extensions == hist_bump(old(self)@.extensions, label@),
            final(self).file_count == old(self).file_count,
            final(self).directory_count == old(self).directory_count,
            final(self).total_bytes == old(self).total_bytes,
            final(self).old_files == old(self).old_files,
    {
        let ghost h = old(self)@.extensions;
        match find_bucket(&self.extensions, &label) {
            Some(j) => {
                proof {
                    assert(h[j as int].0 == label@);
                    assert(hist_has_key(h, label@));
                    let i = hist_index_of(h, label@);
                    assert(h[i].0 == label@);
                    assert(i == j as int);
                    lemma_hist_count_le_sum(h, j as int);
                }
                let bucket = self.extensions.remove(j);
                proof {
                    // the sum bound gives room for the increment
                    lemma_hist_sum_update(h, j as int, (label@, h[j as int].1 + 1));
                    assert(hist_sum(h.update(j as int, (label@, h[j as int].1 + 1)))
                        == hist_sum(h) + 1);
                }
                let next = ExtCount { name: bucket.name, count: bucket.count + 1 };
                self.extensions.insert(j, next);
                proof {
                    assert(self.extensions@ =~= old(self).extensions@.update(j as int, ExtCount {
                        name: bucket.name,
                        count: (bucket.count + 1) as u64,
                    }));
                    assert(hist_view(self.extensions@) =~= hist_bump(h, label@));
                }
            }
            None => {
                self.extensions.push(ExtCount { name: label, count: 1 });
                proof {
                    assert(!hist_has_key(h, label@));
                    assert(hist_view(self.extensions@) =~= hist_bump(h, label@));
                }
            }
        }
    }
}

/// One fold step keeps the summary model well formed.
pub proof fn lemma_record_wf(m: SummaryModel, e: EntryRecord, recursive: bool, threshold: u64)
    requires
        model_wf(m),
    ensures
        model_wf(spec_record(m, e, recursive, threshold)),
{
    if spec_counted(recursive, e.depth) && e.kind is File {
        lemma_hist_bump(m.extensions, spec_ext_label(e.name@));
    }
}

/// The fold yields a well-formed model, and no counter outgrows the
/// number of entries seen.
pub proof fn lemma_aggregate_wf(entries: Seq<EntryRecord>, recursive: bool, threshold: u64)
    ensures
        model_wf(spec_aggregate(entries, recursive, threshold)),
        spec_aggregate(entries, recursive, threshold).file_count <= entries.len(),
        spec_aggregate(entries, recursive, threshold).directory_count <= entries.len(),
    decreases entries.len(),
{
    if entries.len() > 0 {
        lemma_aggregate_wf(entries.drop_last(), recursive, threshold);
        lemma_record_wf(
            spec_aggregate(entries.drop_last(), recursive, threshold),
            entries.last(),
            recursive,
            threshold,
        );
    }
}

/// Folding one more entry is one more fold step.
pub proof fn lemma_aggregate_take_succ(
    entries: Seq<EntryRecord>,
    recursive: bool,
    threshold: u64,
    i: int,
)
    requires
        0 <= i < entries.len(),
    ensures
        spec_aggregate(entries.take(i + 1), recursive, threshold) == spec_record(
            spec_aggregate(entries.take(i), recursive, threshold),
            entries[i],
            recursive,
            threshold,
        ),
{
    assert(entries.take(i + 1).drop_last() =~= entries.take(i));
    assert(entries.take(i + 1).last() == entries[i]);
}

/// The byte total only grows along the stream: any prefix's total is at
/// most the whole stream's total.
pub proof fn lemma_aggregate_total_monotone(
    entries: Seq<EntryRecord>,
    recursive: bool,
    threshold: u64,
    i: int,
)
    requires
        0 <= i <= entries.len(),
    ensures
        spec_aggregate(entries.take(i), recursive, threshold).total_bytes <= spec_aggregate(
            entries,
            recursive,
            threshold,
        ).total_bytes,
    decreases entries.len() - i,
{
    if i == entries.len() {
        assert(entries.take(i) =~= entries);
    } else {
        lemma_aggregate_take_succ(entries, recursive, threshold, i);
        lemma_aggregate_total_monotone(entries, recursive, threshold, i + 1);
    }
}

/// Run the whole aggregation over a finished stream of entries.
pub fn aggregate(entries: &Vec<EntryRecord>, recursive: bool, threshold: u64) -> (s: ScanSummary)
    requires
        spec_aggregate(entries@, recursive, threshold).total_bytes <= u64::MAX,
    ensures
        s@ == spec_aggregate(entries@, recursive, threshold),
        s.wf(),
{
    let mut s = ScanSummary::new();
    let n = entries.len();
    let mut i: usize = 0;
    while i < n
        invariant
            i <= n,
            n == entries@.len(),
            spec_aggregate(entries@, recursive, threshold).total_bytes <= u64::MAX,
            s@ == spec_aggregate(entries@.take(i as int), recursive, threshold),
            s.wf(),
        decreases n - i,
    {
        proof {
            lemma_aggregate_wf(entries@.take(i as int), recursive, threshold);
            lemma_aggregate_take_succ(entries@, recursive, threshold, i as int);
            lemma_aggregate_total_monotone(entries@, recursive, threshold, i as int + 1);
            assert(entries@.take(i as int).len() == i);
            assert(can_absorb(s@, entries@[i as int], recursive, threshold));
        }
        s.record(&entries[i], recursive, threshold);
        i = i + 1;
    }
    proof {
        assert(entries@.take(n as int) =~= entries@);
    }
    s
}

/// For every scan: the file count equals the histogram total, and the old
/// files are a subset of the files.
pub proof fn lemma_summary_invariant(s: &ScanSummary)
    requires
        s.wf(),
    ensures
        s@.file_count == hist_sum(s@.extensions),
        s@.old_files <= s@.file_count,
{
}

/// The depth-one entries of a stream, in order.
pub open spec fn only_direct_children(entries: Seq<EntryRecord>) -> Seq<EntryRecord>
    decreases entries.len(),
{
    if entries.len() == 0 {
        entries
    } else if entries.last().depth == 1 {
        only_direct_children(entries.drop_last()).push(entries.last())
    } else {
        only_direct_children(entries.drop_last())
    }
}

/// A flat scan is blind to anything nested more than one level below the
/// root: aggregating the whole stream equals aggregating only the entries
/// at depth one.
pub proof fn lemma_flat_scan_ignores_deep_entries(entries: Seq<EntryRecord>, threshold: u64)
    ensures
        spec_aggregate(entries, false, threshold) == spec_aggregate(
            only_direct_children(entries),
            false,
            threshold,
        ),
    decreases entries.len(),
{
    if entries.len() > 0 {
        lemma_flat_scan_ignores_deep_entries(entries.drop_last(), threshold);
        if entries.last().depth == 1 {
            let shallow = only_direct_children(entries.drop_last());
            assert(shallow.push(entries.last()).drop_last() =~= shallow);
            assert(shallow.push(entries.last()).last() == entries.last());
        }
    }
}

/// A recursive scan counts entries at every depth below the root.
pub proof fn lemma_recursive_counts_every_depth(m: SummaryModel, e: EntryRecord, threshold: u64)
    requires
        e.depth >= 1,
    ensures
        e.kind is File ==> spec_record(m, e, true, threshold).file_count == m.file_count + 1,
        e.kind is Directory ==> spec_record(m, e, true, threshold).directory_count
            == m.directory_count + 1,
{
}

/// An entry whose metadata could not be read still counts as a file and
/// still lands in the histogram, but adds no bytes and is never old.
pub proof fn lemma_unreadable_metadata_still_counted(
    m: SummaryModel,
    e: EntryRecord,
    recursive: bool,
    threshold: u64,
)
    requires
        e.kind is File,
        spec_counted(recursive, e.depth),
        e.size is None,
        e.modified is None,
    ensures
        spec_record(m, e, recursive, threshold).file_count == m.file_count + 1,
        spec_record(m, e, recursive, threshold).extensions == hist_bump(
            m.extensions,
            spec_ext_label(e.name@),
        ),
        spec_record(m, e, recursive, threshold).total_bytes == m.total_bytes,
        spec_record(m, e, recursive, threshold).old_files == m.old_files,
{
}

/// Index of the bucket holding `key`, where the histogram has one.
fn find_bucket(h: &Vec<ExtCount>, key: &String) -> (r: Option<usize>)
    ensures
        match r {
            Some(j) => j < h@.len() && h@[j as int].name@ == key@,
            None => forall|i: int| 0 <= i < h@.len() ==> (#[trigger] h@[i]).name@ != key@,
        },
{
    let mut j: usize = 0;
    while j < h.len()
        invariant
            j <= h@.len(),
            forall|i: int| 0 <= i < j ==> (#[trigger] h@[i]).name@ != key@,
        decreases h@.len() - j,
    {
        if h[j].name == *key {
            return Some(j);
        }
        j = j + 1;
    }
    None
}

/// What `last_dot` finds: the rightmost dot, or nothing.
pub proof fn lemma_last_dot(name: Seq<char>)
    ensures
        last_dot(name) >= 0 ==> {
            &&& last_dot(name) < name.len()
            &&& name[last_dot(name)] == '.'
            &&& forall|j: int| last_dot(name) < j < name.len() ==> name[j] != '.'
        },
        last_dot(name) < 0 ==> forall|j: int| 0 <= j < name.len() ==> name[j] != '.',
    decreases name.len(),
{
    if name.len() == 0 {
    } else if name.last() == '.' {
        assert(name[name.len() - 1] == '.');
    } else {
        lemma_last_dot(name.drop_last());
        let d = last_dot(name);
        assert(d == last_dot(name.drop_last()));
        if d >= 0 {
            assert(name[d] == '.') by {
                assert(name.drop_last()[d] == name[d]);
            }
            assert forall|j: int| d < j < name.len() implies name[j] != '.' by {
                if j < name.len() - 1 {
                    assert(name.drop_last()[j] == name[j]);
                } else {
                    assert(name[j] == name.last());
                }
            }
        } else {
            assert forall|j: int| 0 <= j < name.len() implies name[j] != '.' by {
                if j < name.len() - 1 {
                    assert(name.drop_last()[j] == name[j]);
                } else {
                    assert(name[j] == name.last());
                }
            }
        }
    }
}

/// The histogram key of one file name, per the model `spec_ext_label`.
pub fn extension_label(name: &str) -> (r: String)
    ensures
        r@ == spec_ext_label(name@),
{
    proof {
        lemma_last_dot(name@);
    }
    let len = name.unicode_len();
    let mut i: usize = len;
    while i > 0
        invariant
            i <= len,
            len == name@.len(),
            forall|j: int| i <= j < len ==> name@[j] != '.',
        decreases i,
    {
        if name.get_char(i - 1) == '.' {
            let r = String::from_str(name.substring_char(i - 1, len));
            proof {
                lemma_last_dot(name@);
                assert(last_dot(name@) == i - 1);
            }
            return r;
        }
        i = i - 1;
    }
    proof {
        lemma_last_dot(name@);
        assert(last_dot(name@) < 0);
    }
    String::from_str("Other")
}

/// Every histogram key fits in `bound` characters.
pub open spec fn keys_fit(h: Seq<(Seq<char>, int)>, bound: int) -> bool {
    forall|k: int| 0 <= k < h.len() ==> (#[trigger] h[k]).0.len() <= bound
}

/// Every entry name leaves room for the table's separator and count
/// columns within a `usize` width.
pub open spec fn names_fit(entries: Seq<EntryRecord>) -> bool {
    forall|k: int|
        0 <= k < entries.len() ==> (#[trigger] entries[k]).name@.len() + 23 <= usize::MAX
}

/// Histogram keys are either the `Other` sentinel or a suffix of some
/// entry name, so they inherit the entry names' length bound.
pub proof fn lemma_aggregate_keys_fit(
    entries: Seq<EntryRecord>,
    recursive: bool,
    threshold: u64,
    bound: int,
)
    requires
        bound >= 5,
        forall|k: int| 0 <= k < entries.len() ==> (#[trigger] entries[k]).name@.len() <= bound,
    ensures
        keys_fit(spec_aggregate(entries, recursive, threshold).extensions, bound),
    decreases entries.len(),
{
    reveal_strlit("Other");
    if entries.len() > 0 {
        assert(forall|k: int|
            0 <= k < entries.drop_last().len() ==> (#[trigger] entries.drop_last()[k]).name@.len()
                <= bound);
        lemma_aggregate_keys_fit(entries.drop_last(), recursive, threshold, bound);
        let m = spec_aggregate(entries.drop_last(), recursive, threshold);
        let e = entries.last();
        if spec_counted(recursive, e.depth) && e.kind is File {
            let key = spec_ext_label(e.name@);
            lemma_last_dot(e.name@);
            assert(e.name@.len() <= bound) by {
                assert(entries[entries.len() - 1].name@.len() <= bound);
            }
            assert(key.len() <= bound);
            let h = m.extensions;
            if hist_has_key(h, key) {
                let i = hist_index_of(h, key);
                assert(forall|k: int|
                    0 <= k < h.update(i, (key, h[i].1 + 1)).len() ==> (#[trigger] h.update(
                        i,
                        (key, h[i].1 + 1),
                    )[k]).0.len() <= bound);
            } else {
                assert(forall|k: int|
                    0 <= k < h.push((key, 1)).len() ==> (#[trigger] h.push((key, 1))[k]).0.len()
                        <= bound);
            }
        }
    }
}

/// The staleness threshold of one scan: its start, minus the staleness
/// window, floored at the epoch.
pub fn stale_threshold(now_secs: u64) -> (t: u64)
    ensures
        t == if now_secs >= STALE_SECONDS {
            now_secs - STALE_SECONDS
        } else {
            0
        },
{
    now_secs.saturating_sub(STALE_SECONDS)
}

/// Why a scan failed outright.
#[derive(Debug)]
pub enum ScanError {
    /// The scan root does not exist or is not a directory; traversal
    /// never started.
    RootNotFound { path: String },
}

impl ScanError {
    /// The offending path the error carries.
    pub open spec fn spec_path(&self) -> Seq<char> {
        match self {
            ScanError::RootNotFound { path } => path@,
        }
    }

    /// A printable description of the failure.
    pub fn message(&self) -> (r: String)
        ensures
            r@ == "Scan root not found or not a directory: "@ + self.spec_path(),
    {
        match self {
            ScanError::RootNotFound { path } => {
                let mut r = String::from_str("Scan root not found or not a directory: ");
                r.append(path.as_str());
                r
            }
        }
    }
}

/// Run one whole scan over an already-traversed entry stream: reject a
/// root that is not a directory, otherwise aggregate the entries and
/// render the report.
pub fn scan(
    root: &str,
    root_is_dir: bool,
    entries: &Vec<EntryRecord>,
    recursive: bool,
    threshold: u64,
    ext_display_limit: u64,
    elapsed_ms: u64,
) -> (r: Result<String, ScanError>)
    requires
        root_is_dir ==> spec_aggregate(entries@, recursive, threshold).total_bytes <= u64::MAX,
        root_is_dir ==> names_fit(entries@),
    ensures
        root_is_dir <==> r is Ok,
        !root_is_dir ==> r->Err_0.spec_path() == root@,
        root_is_dir ==> r->Ok_0@ == spec_report(
            spec_aggregate(entries@, recursive, threshold),
            ext_display_limit,
            elapsed_ms,
        ),
{
    if !root_is_dir {
        return Err(ScanError::RootNotFound { path: root.to_owned() });
    }
    let summary = aggregate(entries, recursive, threshold);
    proof {
        lemma_aggregate_keys_fit(entries@, recursive, threshold, usize::MAX as int - 23);
    }
    Ok(summary.render_summary(ext_display_limit, elapsed_ms))
}

} // verus!
