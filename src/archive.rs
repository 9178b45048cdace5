use vstd::prelude::*;
use vstd::multiset::Multiset;

use crate::codec::{archive_decode, archive_fields};
use crate::error::Error;
use crate::strmap::StrMap;
use crate::wire::serialize;
use crate::text::{
    all_digits, chars_of, decimal_padded, format_decimal_padded, lemma_decimal_padded, parse_decimal,
    parse_unsigned, pow10, string_of, unsigned_digits,
};

verus! {

broadcast use vstd::seq_lib::group_to_multiset_ensures;

/// The directory, under a dataset's base, that holds archives.
pub const ARCHIVE_DIR: &'static str = "_archive";

/// The subdirectory of `ARCHIVE_DIR` that holds version archives.
pub const VERSION_ARCHIVE_SUBDIR: &'static str = "versions";

/// The suffix of an archive file name.
pub const VERSION_ARCHIVE_FILE_SUFFIX: &'static str = ".binpb";

/// Offset that maps a version number to its inverted form.
const INVERTED_VERSION_OFFSET: u64 = 0xFFFF_FFFF_FFFF_FFFF;

/// Converts a version number into the inverted form used in archive file names.
pub fn to_inverted_version(version: u64) -> (r: u64)
    ensures
        r == u64::MAX - version,
{
    INVERTED_VERSION_OFFSET - version
}

/// Converts an inverted version back into the version number.
pub fn from_inverted_version(inverted: u64) -> (r: u64)
    ensures
        r == u64::MAX - inverted,
{
    INVERTED_VERSION_OFFSET - inverted
}

/// Inverting is undone by inverting back, and it reverses the order of versions.
pub proof fn lemma_inversion(x: u64, a: u64, b: u64)
    ensures
        (u64::MAX - (u64::MAX - x)) as u64 == x,
        a < b ==> u64::MAX - a > u64::MAX - b,
{
}

pub const ENABLED_KEY: &'static str = "lance.version_archive.enabled";
pub const MAX_ENTRIES_KEY: &'static str = "lance.version_archive.max_entries";
pub const MAX_ARCHIVE_FILES_KEY: &'static str = "lance.version_archive.max_archive_files";
pub const DEFAULT_MAX_ENTRIES: usize = 10000;
pub const DEFAULT_MAX_ARCHIVE_FILES: usize = 2;

/// How the version archive is kept.
#[derive(Clone, Copy, Debug, PartialEq, Eq, Structural)]
pub struct VersionArchiveConfig {
    /// Whether the archive is kept at all.
    pub enabled: bool,
    /// The most version entries that one archive file holds.
    pub max_entries: usize,
    /// The most archive files that are kept.
    pub max_archive_files: usize,
}

impl Default for VersionArchiveConfig {
    fn default() -> (r: VersionArchiveConfig)
        ensures
            r.enabled,
            r.max_entries == DEFAULT_MAX_ENTRIES,
            r.max_archive_files == DEFAULT_MAX_ARCHIVE_FILES,
    {
        VersionArchiveConfig {
            enabled: true,
            max_entries: DEFAULT_MAX_ENTRIES,
            max_archive_files: DEFAULT_MAX_ARCHIVE_FILES,
        }
    }
}

/// The value stored under `key`, if any.
pub open spec fn setting(m: Map<Seq<char>, Seq<char>>, key: Seq<char>) -> Option<Seq<char>> {
    if m.contains_key(key) {
        Some(m[key])
    } else {
        None
    }
}

/// `true` or `false`, spelled out exactly.
pub open spec fn parse_bool(cs: Seq<char>) -> Option<bool> {
    if cs == seq!['t', 'r', 'u', 'e'] {
        Some(true)
    } else if cs == seq!['f', 'a', 'l', 's', 'e'] {
        Some(false)
    } else {
        None
    }
}

/// The boolean setting under `key`, or `default` where it is missing or unreadable.
pub open spec fn bool_setting(m: Map<Seq<char>, Seq<char>>, key: Seq<char>, default: bool) -> bool {
    match setting(m, key) {
        Some(v) => match parse_bool(v) {
            Some(b) => b,
            None => default,
        },
        None => default,
    }
}

/// The count setting under `key`, or `default` where it is missing or unreadable.
pub open spec fn count_setting(m: Map<Seq<char>, Seq<char>>, key: Seq<char>, default: usize) -> usize {
    match setting(m, key) {
        Some(v) => match parse_unsigned(v, usize::MAX as int) {
            Some(n) => n as usize,
            None => default,
        },
        None => default,
    }
}

fn read_bool(cs: &Vec<char>) -> (r: Option<bool>)
    ensures
        r == parse_bool(cs@),
{
    if cs.len() == 4 && cs[0] == 't' && cs[1] == 'r' && cs[2] == 'u' && cs[3] == 'e' {
        assert(cs@ =~= seq!['t', 'r', 'u', 'e']);
        Some(true)
    } else if cs.len() == 5 && cs[0] == 'f' && cs[1] == 'a' && cs[2] == 'l' && cs[3] == 's' && cs[4] == 'e' {
        assert(cs@ =~= seq!['f', 'a', 'l', 's', 'e']);
        Some(false)
    } else {
        proof {
            if cs@ == seq!['t', 'r', 'u', 'e'] {
                assert(cs@[0] == 't' && cs@[1] == 'r' && cs@[2] == 'u' && cs@[3] == 'e');
            }
            if cs@ == seq!['f', 'a', 'l', 's', 'e'] {
                assert(cs@[0] == 'f' && cs@[1] == 'a' && cs@[2] == 'l' && cs@[3] == 's' && cs@[4] == 'e');
            }
        }
        None
    }
}

impl VersionArchiveConfig {
    /// Reads the configuration from a table's configuration entries; a
    /// missing or unreadable entry leaves its default.
    pub fn from_config(config: &StrMap) -> (r: VersionArchiveConfig)
        requires
            config.wf(),
        ensures
            r.enabled == bool_setting(config@, ENABLED_KEY@, true),
            r.max_entries == count_setting(config@, MAX_ENTRIES_KEY@, DEFAULT_MAX_ENTRIES),
            r.max_archive_files == count_setting(config@, MAX_ARCHIVE_FILES_KEY@, DEFAULT_MAX_ARCHIVE_FILES),
    {
        let enabled = match config.get(&ENABLED_KEY.to_owned()) {
            Some(v) => match read_bool(&chars_of(v.as_str())) {
                Some(b) => b,
                None => true,
            },
            None => true,
        };
        let max_entries = read_count(config, MAX_ENTRIES_KEY, DEFAULT_MAX_ENTRIES);
        let max_archive_files = read_count(config, MAX_ARCHIVE_FILES_KEY, DEFAULT_MAX_ARCHIVE_FILES);
        VersionArchiveConfig { enabled, max_entries, max_archive_files }
    }
}

fn read_count(config: &StrMap, key: &str, default: usize) -> (r: usize)
    requires
        config.wf(),
    ensures
        r == count_setting(config@, key@, default),
{
    let k = key.to_owned();
    match config.get(&k) {
        Some(v) => {
            let cs = chars_of(v.as_str());
            let max: u64 = usize::MAX as u64;
            assert(max as int == usize::MAX as int);
            assert(setting(config@, key@) == Some(cs@));
            match parse_decimal(cs.as_slice(), max) {
                Some(n) => n as usize,
                None => default,
            }
        },
        None => default,
    }
}

/// Statistics of the manifest of one version.
#[derive(Clone, Copy, Debug, PartialEq, Eq, Structural)]
pub struct ManifestSummary {
    pub total_fragments: u64,
    pub total_data_files: u64,
    pub total_files_size: u64,
    pub total_deletion_files: u64,
    pub total_data_file_rows: u64,
    pub total_deletion_file_rows: u64,
    pub total_rows: u64,
}

/// What the archive keeps of one version.
#[derive(Clone, Debug)]
pub struct VersionSummary {
    pub version: u64,
    pub timestamp_millis: i64,
    pub manifest_summary: ManifestSummary,
    pub is_tagged: bool,
    pub is_cleaned_up: bool,
    pub transaction_uuid: Option<String>,
    pub read_version: Option<u64>,
    pub operation_type: Option<String>,
    pub transaction_properties: StrMap,
}

pub ghost struct VersionSummaryView {
    pub version: u64,
    pub timestamp_millis: i64,
    pub manifest_summary: ManifestSummary,
    pub is_tagged: bool,
    pub is_cleaned_up: bool,
    pub transaction_uuid: Option<Seq<char>>,
    pub read_version: Option<u64>,
    pub operation_type: Option<Seq<char>>,
    pub transaction_properties: Seq<(Seq<char>, Seq<char>)>,
}

pub open spec fn opt_string_view(s: Option<String>) -> Option<Seq<char>> {
    match s {
        Some(s) => Some(s@),
        None => None,
    }
}

impl View for VersionSummary {
    type V = VersionSummaryView;

    open spec fn view(&self) -> VersionSummaryView {
        VersionSummaryView {
            version: self.version,
            timestamp_millis: self.timestamp_millis,
            manifest_summary: self.manifest_summary,
            is_tagged: self.is_tagged,
            is_cleaned_up: self.is_cleaned_up,
            transaction_uuid: opt_string_view(self.transaction_uuid),
            read_version: self.read_version,
            operation_type: opt_string_view(self.operation_type),
            transaction_properties: self.transaction_properties.entry_views(),
        }
    }
}

pub fn duplicate_opt_string(s: &Option<String>) -> (r: Option<String>)
    ensures
        opt_string_view(r) == opt_string_view(*s),
{
    match s {
        Some(s) => Some(s.clone()),
        None => None,
    }
}

impl VersionSummary {
    pub fn duplicate(&self) -> (r: VersionSummary)
        ensures
            r@ == self@,
    {
        VersionSummary {
            version: self.version,
            timestamp_millis: self.timestamp_millis,
            manifest_summary: self.manifest_summary,
            is_tagged: self.is_tagged,
            is_cleaned_up: self.is_cleaned_up,
            transaction_uuid: duplicate_opt_string(&self.transaction_uuid),
            read_version: self.read_version,
            operation_type: duplicate_opt_string(&self.operation_type),
            transaction_properties: self.transaction_properties.duplicate(),
        }
    }
}

/// The keys of the summary's transaction properties are distinct.
pub open spec fn summary_wf(v: VersionSummaryView) -> bool {
    crate::strmap::keys_distinct(v.transaction_properties)
}

pub open spec fn summary_views(s: Seq<VersionSummary>) -> Seq<VersionSummaryView> {
    s.map_values(|v: VersionSummary| v@)
}

/// The versions of the summaries `s`, in order.

pub open spec fn sorted_by_version(s: Seq<VersionSummaryView>) -> bool {
    forall|i: int, j: int| 0 <= i < j < s.len() ==> (#[trigger] s[i]).version <= (#[trigger] s[j]).version
}

/// The largest version in `s`, or 0 for no summaries.
pub open spec fn max_version(s: Seq<VersionSummaryView>) -> u64
    decreases s.len(),
{
    if s.len() == 0 {
        0
    } else {
        let m = max_version(s.drop_last());
        if m >= s.last().version { m } else { s.last().version }
    }
}

/// The archive of per-version summaries of a dataset.
#[derive(Clone, Debug)]
pub struct VersionArchive {
    pub versions: Vec<VersionSummary>,
    pub latest_version_number: u64,
    pub dataset_created_millis: u64,
    pub created_at_millis: u64,
    pub config: VersionArchiveConfig,
    /// The dataset's base path, under which `ARCHIVE_DIR` lies.
    pub base: String,
}

/// Relies on `chrono::Utc::now`: the wall-clock time in milliseconds since
/// the epoch (nothing is known of its value).
#[verifier::external_body]
fn now_millis() -> (r: u64) {
    chrono::Utc::now().timestamp_millis() as u64
}

impl VersionArchive {
    pub open spec fn summaries(&self) -> Seq<VersionSummaryView> {
        summary_views(self.versions@)
    }

    /// The transaction properties of every summary have distinct keys.
    pub open spec fn wf(&self) -> bool {
        forall|i: int| 0 <= i < self.summaries().len() ==> summary_wf(#[trigger] self.summaries()[i])
    }

    /// An empty archive, created now.
    pub fn new(base: String, config: VersionArchiveConfig) -> (r: VersionArchive)
        ensures
            r.wf(),
            r.versions@.len() == 0,
            r.latest_version_number == 0,
            r.dataset_created_millis == 0,
            r.config == config,
            r.base == base,
    {
        VersionArchive {
            versions: Vec::new(),
            latest_version_number: 0,
            dataset_created_millis: 0,
            created_at_millis: now_millis(),
            config,
            base,
        }
    }

    pub fn latest_version(&self) -> (r: u64)
        ensures
            r == self.latest_version_number,
    {
        self.latest_version_number
    }

    pub fn is_enabled(&self) -> (r: bool)
        ensures
            r == self.config.enabled,
    {
        self.config.enabled
    }

    pub fn config(&self) -> (r: &VersionArchiveConfig)
        ensures
            *r == self.config,
    {
        &self.config
    }

    /// Appends copies of `summaries`, in order.
    pub fn add_summaries(&mut self, summaries: &[VersionSummary])
        requires
            old(self).wf(),
            forall|i: int| 0 <= i < summaries@.len() ==> (#[trigger] summaries@[i]).transaction_properties.wf(),
        ensures
            final(self).wf(),
            final(self).summaries() == old(self).summaries() + summary_views(summaries@),
            final(self).latest_version_number == old(self).latest_version_number,
            final(self).dataset_created_millis == old(self).dataset_created_millis,
            final(self).created_at_millis == old(self).created_at_millis,
            final(self).config == old(self).config,
            final(self).base == old(self).base,
    {
        let mut i: usize = 0;
        while i < summaries.len()
            invariant
                i <= summaries.len(),
                self.summaries() == old(self).summaries() + summary_views(summaries@).subrange(0, i as int),
                old(self).wf(),
                forall|k: int| 0 <= k < summaries@.len() ==> (#[trigger] summaries@[k]).transaction_properties.wf(),
                self.latest_version_number == old(self).latest_version_number,
                self.dataset_created_millis == old(self).dataset_created_millis,
                self.created_at_millis == old(self).created_at_millis,
                self.config == old(self).config,
                self.base == old(self).base,
            decreases summaries.len() - i,
        {
            let ghost before = self.versions@;
            let s = summaries[i].duplicate();
            self.versions.push(s);
            proof {
                assert(summary_views(self.versions@) =~= summary_views(before).push(s@));
                assert(summary_views(summaries@).subrange(0, i + 1) =~= summary_views(summaries@).subrange(0, i as int).push(summaries@[i as int]@));
            }
            i = i + 1;
        }
        assert(summary_views(summaries@).subrange(0, i as int) =~= summary_views(summaries@));
        assert forall|k: int| 0 <= k < self.summaries().len() implies summary_wf(#[trigger] self.summaries()[k]) by {
            if k >= old(self).summaries().len() {
                let j = k - old(self).summaries().len();
                assert(self.summaries()[k] == summaries@[j]@);
                assert(summaries@[j].transaction_properties.wf());
            }
        }
    }

    /// Sorts the summaries by version, records the dataset's creation time
    /// if it is unset, drops the oldest summaries beyond `max_entries`, and
    /// records the latest version and the time `now`.
    pub fn finalize_summaries_at(&mut self, now: u64)
        requires
            old(self).wf(),
        ensures
            final(self).wf(),
            sorted_by_version(final(self).summaries()),
            final(self).summaries().len() == if old(self).summaries().len() > old(self).config.max_entries {
                old(self).config.max_entries as int
            } else {
                old(self).summaries().len() as int
            },
            final(self).summaries().to_multiset().subset_of(old(self).summaries().to_multiset()),
            forall|i: int, v: VersionSummaryView| 0 <= i < final(self).summaries().len()
                && #[trigger] old(self).summaries().to_multiset().sub(final(self).summaries().to_multiset()).contains(v)
                ==> v.version <= (#[trigger] final(self).summaries()[i]).version,
            old(self).summaries().len() > 0 ==> final(self).latest_version_number == max_version(final(self).summaries()),
            old(self).summaries().len() > 0 ==> final(self).created_at_millis == now,
            old(self).summaries().len() == 0 ==> *final(self) == *old(self),
            final(self).config == old(self).config,
            final(self).base == old(self).base,
            old(self).summaries().len() > 0 ==> final(self).summaries() == keep_newest(
                stable_sort_by_version(old(self).summaries()),
                old(self).config.max_entries as int,
            ),
            old(self).summaries().len() > 0 ==> final(self).dataset_created_millis == if old(self).dataset_created_millis == 0 {
                stable_sort_by_version(old(self).summaries())[0].timestamp_millis as u64
            } else {
                old(self).dataset_created_millis
            },
    {
        if self.versions.len() == 0 {
            return;
        }
        let ghost orig = self.summaries();
        let sorted = sort_by_version(&self.versions);
        self.versions = sorted;
        if self.dataset_created_millis == 0 {
            self.dataset_created_millis = self.versions[0].timestamp_millis as u64;
        }
        let ghost all = self.summaries();
        if self.versions.len() > self.config.max_entries {
            let remove_count = self.versions.len() - self.config.max_entries;
            let tail = self.versions.split_off(remove_count);
            let ghost head = self.summaries();
            self.versions = tail;
            proof {
                assert(all =~= head + self.summaries());
                assert(self.summaries() =~= all.subrange(remove_count as int, all.len() as int));
                vstd::seq_lib::lemma_multiset_commutative(head, self.summaries());
                assert forall|i: int, v: VersionSummaryView| 0 <= i < self.summaries().len()
                    && #[trigger] orig.to_multiset().sub(self.summaries().to_multiset()).contains(v)
                    implies v.version <= (#[trigger] self.summaries()[i]).version by {
                    assert(orig.to_multiset().sub(self.summaries().to_multiset()) =~= head.to_multiset());
                    let k = choose|k: int| 0 <= k < head.len() && head[k] == v;
                    assert(all[k] == v);
                    assert(all[remove_count + i] == self.summaries()[i]);
                }
                assert(self.summaries().to_multiset().subset_of(orig.to_multiset()));
                assert forall|i: int, j: int| 0 <= i < j < self.summaries().len() implies
                    (#[trigger] self.summaries()[i]).version <= (#[trigger] self.summaries()[j]).version by {
                    assert(all[remove_count + i] == self.summaries()[i]);
                    assert(all[remove_count + j] == self.summaries()[j]);
                }
            }
        } else {
            proof {
                assert(orig.to_multiset().sub(self.summaries().to_multiset()) =~= Multiset::empty());
            }
        }
        let latest = max_summary_version(&self.versions);
        self.latest_version_number = latest;
        self.created_at_millis = now;
        proof {
            assert forall|k: int| 0 <= k < self.summaries().len() implies summary_wf(#[trigger] self.summaries()[k]) by {
                let v = self.summaries()[k];
                vstd::seq_lib::to_multiset_contains(self.summaries(), v);
                assert(self.summaries().contains(v));
                assert(self.summaries().to_multiset().count(v) > 0);
                assert(orig.to_multiset().count(v) > 0);
                vstd::seq_lib::to_multiset_contains(orig, v);
                let j = choose|j: int| 0 <= j < orig.len() && orig[j] == v;
            }
        }
    }
}

/// The largest version among `vs`, or 0 for none.
fn max_summary_version(vs: &Vec<VersionSummary>) -> (r: u64)
    ensures
        r == max_version(summary_views(vs@)),
{
    let mut best: u64 = 0;
    let mut i: usize = 0;
    while i < vs.len()
        invariant
            i <= vs.len(),
            best == max_version(summary_views(vs@).subrange(0, i as int)),
        decreases vs.len() - i,
    {
        proof {
            let s = summary_views(vs@);
            assert(s.subrange(0, i + 1).drop_last() =~= s.subrange(0, i as int));
        }
        if vs[i].version > best {
            best = vs[i].version;
        }
        i = i + 1;
    }
    assert(summary_views(vs@).subrange(0, i as int) =~= summary_views(vs@));
    best
}

/// The last `k` summaries of `s`, or all of them where there are fewer.
pub open spec fn keep_newest(s: Seq<VersionSummaryView>, k: int) -> Seq<VersionSummaryView> {
    if s.len() > k {
        s.subrange(s.len() - k, s.len() as int)
    } else {
        s
    }
}

/// `s` with `x` placed after every summary whose version is at most `x`'s.
pub open spec fn insert_by_version(s: Seq<VersionSummaryView>, x: VersionSummaryView) -> Seq<VersionSummaryView>
    decreases s.len(),
{
    if s.len() == 0 || s.last().version <= x.version {
        s.push(x)
    } else {
        insert_by_version(s.drop_last(), x).push(s.last())
    }
}

/// The summaries sorted by version; summaries of equal version keep their order.
pub open spec fn stable_sort_by_version(s: Seq<VersionSummaryView>) -> Seq<VersionSummaryView>
    decreases s.len(),
{
    if s.len() == 0 {
        s
    } else {
        insert_by_version(stable_sort_by_version(s.drop_last()), s.last())
    }
}

proof fn lemma_insert_at(s: Seq<VersionSummaryView>, x: VersionSummaryView, j: int)
    requires
        0 <= j <= s.len(),
        forall|k: int| j <= k < s.len() ==> (#[trigger] s[k]).version > x.version,
        j > 0 ==> s[j - 1].version <= x.version,
    ensures
        insert_by_version(s, x) == s.insert(j, x),
    decreases s.len(),
{
    if j == s.len() {
        assert(s.push(x) =~= s.insert(j, x));
    } else {
        let d = s.drop_last();
        assert forall|k: int| j <= k < d.len() implies (#[trigger] d[k]).version > x.version by {
            assert(d[k] == s[k]);
        }
        if j > 0 {
            assert(d[j - 1] == s[j - 1]);
        }
        lemma_insert_at(d, x, j);
        assert(d.insert(j, x).push(s.last()) =~= s.insert(j, x));
    }
}

proof fn lemma_insert_sorted(s: Seq<VersionSummaryView>, x: VersionSummaryView)
    requires
        sorted_by_version(s),
    ensures
        sorted_by_version(insert_by_version(s, x)),
        insert_by_version(s, x).to_multiset() == s.to_multiset().insert(x),
        insert_by_version(s, x).len() == s.len() + 1,
    decreases s.len(),
{
    if s.len() == 0 || s.last().version <= x.version {
        vstd::seq_lib::to_multiset_build(s, x);
        let r = s.push(x);
        assert forall|i: int, j: int| 0 <= i < j < r.len() implies (#[trigger] r[i]).version <= (#[trigger] r[j]).version by {
            if j == s.len() {
                assert(s[i].version <= s.last().version);
            }
        }
    } else {
        let d = s.drop_last();
        assert(sorted_by_version(d)) by {
            assert forall|i: int, j: int| 0 <= i < j < d.len() implies (#[trigger] d[i]).version <= (#[trigger] d[j]).version by {
                assert(d[i] == s[i] && d[j] == s[j]);
            }
        }
        lemma_insert_sorted(d, x);
        let t = insert_by_version(d, x);
        vstd::seq_lib::to_multiset_build(t, s.last());
        vstd::seq_lib::to_multiset_build(d, s.last());
        assert(d.push(s.last()) =~= s);
        assert(t.push(s.last()).to_multiset() =~= s.to_multiset().insert(x));
        let r = t.push(s.last());
        assert forall|i: int, j: int| 0 <= i < j < r.len() implies (#[trigger] r[i]).version <= (#[trigger] r[j]).version by {
            if j == t.len() {
                // every element of t is x or an element of d, all at most the last of s
                vstd::seq_lib::to_multiset_contains(t, t[i]);
                assert(t.contains(t[i]));
                assert(t.to_multiset().count(t[i]) > 0);
                if t[i] != x {
                    assert(d.to_multiset().count(t[i]) > 0);
                    vstd::seq_lib::to_multiset_contains(d, t[i]);
                    let k = choose|k: int| 0 <= k < d.len() && d[k] == t[i];
                    assert(s[k] == d[k]);
                }
            } else {
                assert(r[i] == t[i] && r[j] == t[j]);
            }
        }
    }
}

pub proof fn lemma_stable_sort(s: Seq<VersionSummaryView>)
    ensures
        sorted_by_version(stable_sort_by_version(s)),
        stable_sort_by_version(s).to_multiset() == s.to_multiset(),
        stable_sort_by_version(s).len() == s.len(),
    decreases s.len(),
{
    if s.len() > 0 {
        lemma_stable_sort(s.drop_last());
        lemma_insert_sorted(stable_sort_by_version(s.drop_last()), s.last());
        vstd::seq_lib::to_multiset_build(s.drop_last(), s.last());
        assert(s.drop_last().push(s.last()) =~= s);
    } else {
        assert(s.to_multiset() =~= Multiset::empty());
    }
}

/// Copies the summaries into a new list sorted by version, in which
/// summaries of equal version keep their order.
fn sort_by_version(vs: &Vec<VersionSummary>) -> (r: Vec<VersionSummary>)
    ensures
        summary_views(r@) == stable_sort_by_version(summary_views(vs@)),
        sorted_by_version(summary_views(r@)),
        summary_views(r@).to_multiset() == summary_views(vs@).to_multiset(),
        r@.len() == vs@.len(),
{
    let ghost all = summary_views(vs@);
    let mut out: Vec<VersionSummary> = Vec::new();
    let mut i: usize = 0;
    while i < vs.len()
        invariant
            i <= vs@.len(),
            all == summary_views(vs@),
            summary_views(out@) == stable_sort_by_version(all.subrange(0, i as int)),
        decreases vs.len() - i,
    {
        let x = vs[i].duplicate();
        let ghost prev = summary_views(out@);
        proof {
            lemma_stable_sort(all.subrange(0, i as int));
            assert(all.subrange(0, i + 1).drop_last() =~= all.subrange(0, i as int));
            assert(all.subrange(0, i + 1).last() == x@);
        }
        let mut j: usize = out.len();
        while j > 0 && out[j - 1].version > x.version
            invariant
                j <= out@.len(),
                prev == summary_views(out@),
                forall|k: int| j <= k < out@.len() ==> (#[trigger] prev[k]).version > x.version,
            decreases j,
        {
            j = j - 1;
        }
        proof {
            if j > 0 {
                assert(prev[j - 1] == out@[j - 1]@);
            }
            lemma_insert_at(prev, x@, j as int);
        }
        out.insert(j, x);
        proof {
            assert(summary_views(out@) =~= prev.insert(j as int, x@));
        }
        i = i + 1;
    }
    proof {
        assert(all.subrange(0, i as int) =~= all);
        lemma_stable_sort(all);
        assert(summary_views(out@).len() == out@.len());
    }
    out
}

/// The characters of the archive file suffix.
pub open spec fn archive_suffix() -> Seq<char> {
    seq!['.', 'b', 'i', 'n', 'p', 'b']
}

/// The name of the archive file whose newest version is `version`: the
/// inverted version in twenty zero-padded digits, then the suffix.
pub open spec fn archive_file_name_of(version: u64) -> Seq<char> {
    decimal_padded((u64::MAX - version) as nat, 20) + archive_suffix()
}

/// The newest version of the archive file named `name`, for a name that
/// is an inverted version followed by the suffix.
pub open spec fn archive_version_of(name: Seq<char>) -> Option<u64> {
    if name.len() >= 6 && name.subrange(name.len() - 6, name.len() as int) == archive_suffix() {
        match parse_unsigned(name.subrange(0, name.len() - 6), u64::MAX as int) {
            Some(v) => Some((u64::MAX - v) as u64),
            None => None,
        }
    } else {
        None
    }
}

/// The name of the archive file whose newest version is `version`.
pub fn archive_file_name(version: u64) -> (r: String)
    ensures
        r@ == archive_file_name_of(version),
{
    let mut cs = format_decimal_padded(to_inverted_version(version), 20);
    cs.push('.');
    cs.push('b');
    cs.push('i');
    cs.push('n');
    cs.push('p');
    cs.push('b');
    assert(cs@ =~= archive_file_name_of(version));
    string_of(cs.as_slice())
}

/// The newest version of the archive file named `name`, where `name` has
/// the shape of an archive file name.
pub fn archive_file_version(name: &str) -> (r: Option<u64>)
    ensures
        r == archive_version_of(name@),
{
    let cs = chars_of(name);
    let n = cs.len();
    if n < 6 {
        return None;
    }
    if !(cs[n - 6] == '.' && cs[n - 5] == 'b' && cs[n - 4] == 'i' && cs[n - 3] == 'n' && cs[n - 2] == 'p'
        && cs[n - 1] == 'b') {
        proof {
            if cs@.subrange(n - 6, n as int) == archive_suffix() {
                assert(cs@.subrange(n - 6, n as int)[0] == cs@[n - 6]);
                assert(cs@.subrange(n - 6, n as int)[1] == cs@[n - 5]);
                assert(cs@.subrange(n - 6, n as int)[2] == cs@[n - 4]);
                assert(cs@.subrange(n - 6, n as int)[3] == cs@[n - 3]);
                assert(cs@.subrange(n - 6, n as int)[4] == cs@[n - 2]);
                assert(cs@.subrange(n - 6, n as int)[5] == cs@[n - 1]);
            }
        }
        return None;
    }
    assert(cs@.subrange(n - 6, n as int) =~= archive_suffix());
    let mut digits: Vec<char> = Vec::new();
    let mut i: usize = 0;
    while i < n - 6
        invariant
            n == cs@.len(),
            n >= 6,
            i <= n - 6,
            digits@ == cs@.subrange(0, i as int),
        decreases n - 6 - i,
    {
        digits.push(cs[i]);
        proof {
            assert(digits@ =~= cs@.subrange(0, i + 1));
        }
        i = i + 1;
    }
    match parse_decimal(digits.as_slice(), u64::MAX) {
        Some(v) => Some(from_inverted_version(v)),
        None => None,
    }
}

/// An archive file's name gives back the version it was named for.
pub proof fn lemma_archive_file_name_round_trip(version: u64)
    ensures
        archive_version_of(archive_file_name_of(version)) == Some(version),
{
    let x = (u64::MAX - version) as nat;
    let name = archive_file_name_of(version);
    let ds = decimal_padded(x, 20);
    lemma_decimal_padded(x, 20);
    reveal_with_fuel(pow10, 21);
    assert(pow10(20) == 100000000000000000000nat);
    assert(name.subrange(name.len() - 6, name.len() as int) =~= archive_suffix());
    assert(name.subrange(0, name.len() - 6) =~= ds);
    assert(ds[0] != '+') by {
        assert(all_digits(ds));
        assert(crate::text::is_digit(ds[0]));
    }
    assert(unsigned_digits(ds) == ds);
    assert(x % pow10(20) == x);
}

/// Moves the numbers out of `vs` into a new list sorted from largest to smallest.
fn sort_descending(vs: &mut Vec<u64>) -> (r: Vec<u64>)
    ensures
        forall|a: int, b: int| 0 <= a < b < r@.len() ==> r@[a] >= r@[b],
        r@.to_multiset() == old(vs)@.to_multiset(),
        r@.len() == old(vs)@.len(),
{
    let mut out: Vec<u64> = Vec::new();
    while vs.len() > 0
        invariant
            out@.to_multiset().add(vs@.to_multiset()) == old(vs)@.to_multiset(),
            forall|a: int, b: int| 0 <= a < b < out@.len() ==> out@[a] >= out@[b],
            forall|a: int, b: int| 0 <= a < out@.len() && 0 <= b < vs@.len() ==> (#[trigger] out@[a]) >= (#[trigger] vs@[b]),
            out@.len() + vs@.len() == old(vs)@.len(),
        decreases vs.len(),
    {
        let mut m: usize = 0;
        let mut j: usize = 1;
        while j < vs.len()
            invariant
                m < vs.len(),
                1 <= j <= vs.len(),
                forall|b: int| 0 <= b < j ==> vs@[m as int] >= (#[trigger] vs@[b]),
            decreases vs.len() - j,
        {
            if vs[j] > vs[m] {
                m = j;
            }
            j = j + 1;
        }
        let ghost before_vs = vs@;
        let ghost before_out = out@;
        let x = vs.remove(m);
        out.push(x);
        proof {
            vstd::seq_lib::to_multiset_remove(before_vs, m as int);
            vstd::seq_lib::to_multiset_build(before_out, x);
            assert(out@.to_multiset().add(vs@.to_multiset()) =~= old(vs)@.to_multiset());
            assert forall|a: int, b: int| 0 <= a < out@.len() && 0 <= b < vs@.len() implies (#[trigger] out@[a]) >= (#[trigger] vs@[b]) by {
                if b < m {
                    assert(vs@[b] == before_vs[b]);
                } else {
                    assert(vs@[b] == before_vs[b + 1]);
                }
                if a < before_out.len() {
                    assert(out@[a] == before_out[a]);
                }
            }
            assert forall|a: int, b: int| 0 <= a < b < out@.len() implies out@[a] >= out@[b] by {
                if b < before_out.len() {
                    assert(out@[a] == before_out[a]);
                    assert(out@[b] == before_out[b]);
                } else {
                    assert(out@[a] == before_out[a]);
                }
            }
        }
    }
    proof {
        assert(vs@.to_multiset() =~= Multiset::empty());
        assert(out@.to_multiset().add(Multiset::empty()) =~= out@.to_multiset());
    }
    out
}

/// The versions of the archive files to delete so that at most
/// `max_archive_files` remain: all but the newest ones.
pub fn archives_to_delete(listed: &Vec<u64>, max_archive_files: usize) -> (r: Vec<u64>)
    ensures
        r@.len() == if listed@.len() > max_archive_files { listed@.len() - max_archive_files } else { 0 },
        listed@.len() - r@.len() <= max_archive_files,
        r@.to_multiset().subset_of(listed@.to_multiset()),
        forall|i: int, v: u64| 0 <= i < r@.len()
            && #[trigger] listed@.to_multiset().sub(r@.to_multiset()).contains(v)
            ==> (#[trigger] r@[i]) <= v,
        forall|newest: u64| #![trigger listed@.to_multiset().count(newest)]
            max_archive_files >= 1 && listed@.to_multiset().count(newest) == 1
            && (forall|i: int| 0 <= i < listed@.len() ==> listed@[i] <= newest) ==> !r@.contains(newest),
{
    let mut copy: Vec<u64> = Vec::new();
    let mut i: usize = 0;
    while i < listed.len()
        invariant
            i <= listed.len(),
            copy@ == listed@.subrange(0, i as int),
        decreases listed.len() - i,
    {
        copy.push(listed[i]);
        i = i + 1;
    }
    assert(copy@ =~= listed@);
    let mut sorted = sort_descending(&mut copy);
    if sorted.len() <= max_archive_files {
        let none: Vec<u64> = Vec::new();
        proof {
            assert(none@.to_multiset() =~= Multiset::empty());
            assert(none@ =~= Seq::<u64>::empty());
        }
        return none;
    }
    let ghost all = sorted@;
    let old_ones = sorted.split_off(max_archive_files);
    proof {
        let head = sorted@;
        assert(all =~= head + old_ones@);
        vstd::seq_lib::lemma_multiset_commutative(head, old_ones@);
        assert(listed@.to_multiset().sub(old_ones@.to_multiset()) =~= head.to_multiset());
        assert forall|i: int, v: u64| 0 <= i < old_ones@.len()
            && #[trigger] listed@.to_multiset().sub(old_ones@.to_multiset()).contains(v)
            implies (#[trigger] old_ones@[i]) <= v by {
            let k = choose|k: int| 0 <= k < head.len() && head[k] == v;
            assert(all[k] == v);
            assert(all[max_archive_files + i] == old_ones@[i]);
        }
        assert forall|newest: u64| #![trigger listed@.to_multiset().count(newest)]
            max_archive_files >= 1 && listed@.to_multiset().count(newest) == 1
            && (forall|i: int| 0 <= i < listed@.len() ==> listed@[i] <= newest) implies !old_ones@.contains(newest) by {
            if old_ones@.contains(newest) {
                let i = choose|i: int| 0 <= i < old_ones@.len() && old_ones@[i] == newest;
                assert(all[max_archive_files + i] == newest);
                vstd::seq_lib::to_multiset_contains(all, newest);
                assert(all.contains(newest));
                assert(all.to_multiset().count(newest) == 1);
                vstd::seq_lib::to_multiset_contains(listed@, all[0]);
                assert(listed@.to_multiset().count(all[0]) > 0);
                let k = choose|k: int| 0 <= k < listed@.len() && listed@[k] == all[0];
                assert(all[0] <= newest);
                let m = choose|m: int| 0 <= m < all.len() && all[m] == newest;
                assert(all[0] >= all[m]);
                assert(all[0] == newest);
                vstd::seq_lib::to_multiset_remove(all, 0);
                let rest = all.remove(0);
                assert(rest[max_archive_files + i - 1] == newest);
                vstd::seq_lib::to_multiset_contains(rest, newest);
                assert(rest.to_multiset().count(newest) > 0);
                assert(false);
            }
        }
    }
    old_ones
}

/// The readable contents of the candidate files, newest first (`None` for
/// a file that could not be read).
pub open spec fn candidate_views(cs: Seq<Option<Vec<u8>>>) -> Seq<Option<Seq<u8>>> {
    cs.map_values(|c: Option<Vec<u8>>| match c {
        Some(b) => Some(b@),
        None => None,
    })
}

/// Whether a candidate was read and decodes as an archive.
pub open spec fn decodes(c: Option<Seq<u8>>) -> bool {
    c matches Some(b) && archive_decode(b) is Some
}

/// The position of the first candidate that decodes as an archive.
pub open spec fn first_valid(cs: Seq<Option<Seq<u8>>>) -> Option<int>
    decreases cs.len(),
{
    if cs.len() == 0 {
        None
    } else if decodes(cs[0]) {
        Some(0)
    } else {
        match first_valid(cs.drop_first()) {
            Some(i) => Some(i + 1),
            None => None,
        }
    }
}

proof fn lemma_first_valid_step(cs: Seq<Option<Seq<u8>>>, i: int)
    requires
        0 <= i < cs.len(),
        forall|j: int| 0 <= j < i ==> !decodes(#[trigger] cs[j]),
    ensures
        decodes(cs[i]) ==> first_valid(cs) == Some(i),
        !decodes(cs[i]) ==> forall|j: int| 0 <= j <= i ==> !decodes(#[trigger] cs[j]),
    decreases i,
{
    if i > 0 {
        let rest = cs.drop_first();
        assert forall|j: int| 0 <= j < i - 1 implies !decodes(#[trigger] rest[j]) by {
            assert(rest[j] == cs[j + 1]);
        }
        lemma_first_valid_step(rest, i - 1);
        assert(rest[i - 1] == cs[i]);
    }
}

proof fn lemma_first_valid_none(cs: Seq<Option<Seq<u8>>>)
    requires
        forall|j: int| 0 <= j < cs.len() ==> !decodes(#[trigger] cs[j]),
    ensures
        first_valid(cs) is None,
    decreases cs.len(),
{
    if cs.len() > 0 {
        let rest = cs.drop_first();
        assert forall|j: int| 0 <= j < rest.len() implies !decodes(#[trigger] rest[j]) by {
            assert(rest[j] == cs[j + 1]);
        }
        lemma_first_valid_none(rest);
    }
}

impl VersionArchive {
    /// Finalizes the summaries at the current time and gives the archive
    /// file to write, its name and its contents; `None` where there are no
    /// summaries and nothing is written.
    pub fn prepare_flush(&mut self) -> (r: Option<(String, Vec<u8>)>)
        requires
            old(self).wf(),
        ensures
            final(self).wf(),
            r is None <==> final(self).summaries().len() == 0,
            final(self).summaries().len() <= old(self).config.max_entries,
            old(self).summaries().len() == 0 ==> *final(self) == *old(self),
            sorted_by_version(final(self).summaries()),
            final(self).summaries().len() == if old(self).summaries().len() > old(self).config.max_entries {
                old(self).config.max_entries as int
            } else {
                old(self).summaries().len() as int
            },
            final(self).summaries().to_multiset().subset_of(old(self).summaries().to_multiset()),
            forall|i: int, v: VersionSummaryView| 0 <= i < final(self).summaries().len()
                && #[trigger] old(self).summaries().to_multiset().sub(final(self).summaries().to_multiset()).contains(v)
                ==> v.version <= (#[trigger] final(self).summaries()[i]).version,
            old(self).summaries().len() > 0 ==> final(self).latest_version_number == max_version(final(self).summaries()),
            final(self).config == old(self).config,
            final(self).base == old(self).base,
            r matches Some((name, bytes)) ==> name@ == archive_file_name_of(final(self).latest_version_number)
                && bytes@ == serialize(archive_fields(*final(self)))
                && archive_decode(bytes@) == Some((
                    final(self).latest_version_number,
                    final(self).dataset_created_millis,
                    final(self).created_at_millis,
                    final(self).summaries(),
                )),
            old(self).summaries().len() > 0 ==> final(self).summaries() == keep_newest(
                stable_sort_by_version(old(self).summaries()),
                old(self).config.max_entries as int,
            ),
            old(self).summaries().len() > 0 ==> final(self).dataset_created_millis == if old(self).dataset_created_millis == 0 {
                stable_sort_by_version(old(self).summaries())[0].timestamp_millis as u64
            } else {
                old(self).dataset_created_millis
            },
    {
        let now = now_millis();
        self.finalize_summaries_at(now);
        proof {
            assert(self.summaries().len() == self.versions@.len());
        }
        if self.versions.len() == 0 {
            return None;
        }
        let name = archive_file_name(self.latest_version_number);
        let bytes = self.encode();
        Some((name, bytes))
    }

    /// The archive in the first candidate that decodes, or `None`.
    /// Candidates are the contents of the archive files, newest first;
    /// `None` stands for a file that could not be read.
    pub fn load_latest_from(base: String, config: VersionArchiveConfig, candidates: &Vec<Option<Vec<u8>>>) -> (r: Option<VersionArchive>)
        ensures
            match first_valid(candidate_views(candidates@)) {
                None => r is None,
                Some(i) => r matches Some(a) && a.wf() && 0 <= i < candidates@.len() && ({
                    let d = archive_decode(candidate_views(candidates@)[i]->0)->0;
                    a.latest_version_number == d.0 && a.dataset_created_millis == d.1
                        && a.created_at_millis == d.2 && a.summaries() == d.3
                }) && a.config == config && a.base == base,
            },
    {
        let ghost cv = candidate_views(candidates@);
        let mut i: usize = 0;
        while i < candidates.len()
            invariant
                i <= candidates@.len(),
                cv == candidate_views(candidates@),
                forall|j: int| 0 <= j < i ==> !decodes(#[trigger] cv[j]),
            decreases candidates.len() - i,
        {
            proof {
                lemma_first_valid_step(cv, i as int);
            }
            match &candidates[i] {
                Some(bytes) => {
                    assert(cv[i as int] == Some(bytes@));
                    match VersionArchive::decode(bytes.as_slice(), base.clone(), config) {
                        Ok(a) => {
                            return Some(a);
                        },
                        Err(_) => {},
                    }
                },
                None => {},
            }
            i = i + 1;
        }
        proof {
            lemma_first_valid_none(cv);
        }
        None
    }

    /// The archive in the first candidate that decodes, or where none does
    /// a new empty archive created now.
    pub fn load_or_new_from(base: String, config: VersionArchiveConfig, candidates: &Vec<Option<Vec<u8>>>) -> (r: VersionArchive)
        ensures
            match first_valid(candidate_views(candidates@)) {
                None => r.summaries().len() == 0 && r.latest_version_number == 0 && r.dataset_created_millis == 0,
                Some(i) => 0 <= i < candidates@.len() && ({
                    let d = archive_decode(candidate_views(candidates@)[i]->0)->0;
                    r.latest_version_number == d.0 && r.dataset_created_millis == d.1
                        && r.created_at_millis == d.2 && r.summaries() == d.3
                }),
            },
            r.wf(),
            r.config == config,
            r.base == base,
    {
        match VersionArchive::load_latest_from(base.clone(), config, candidates) {
            Some(a) => a,
            None => {
                let a = VersionArchive::new(base, config);
                assert(a.summaries().len() == a.versions@.len());
                a
            },
        }
    }
}

/// The versions named by the archive file names `names`, in order.
pub open spec fn listed_versions(names: Seq<Seq<char>>) -> Seq<u64>
    decreases names.len(),
{
    if names.len() == 0 {
        Seq::empty()
    } else {
        match archive_version_of(names.last()) {
            Some(v) => listed_versions(names.drop_last()).push(v),
            None => listed_versions(names.drop_last()),
        }
    }
}

/// The versions of the archive files among `names`, newest first; names
/// that are not archive file names are left out.
pub fn archive_versions(names: &Vec<String>) -> (r: Vec<u64>)
    ensures
        forall|a: int, b: int| 0 <= a < b < r@.len() ==> r@[a] >= r@[b],
        r@.to_multiset() == listed_versions(crate::strmap::string_views(names@)).to_multiset(),
{
    let ghost ns = crate::strmap::string_views(names@);
    let mut found: Vec<u64> = Vec::new();
    let mut i: usize = 0;
    while i < names.len()
        invariant
            i <= names@.len(),
            ns == crate::strmap::string_views(names@),
            found@ == listed_versions(ns.subrange(0, i as int)),
        decreases names.len() - i,
    {
        proof {
            assert(ns.subrange(0, i + 1).drop_last() =~= ns.subrange(0, i as int));
            assert(ns.subrange(0, i + 1).last() == names@[i as int]@);
        }
        match archive_file_version(names[i].as_str()) {
            Some(v) => found.push(v),
            None => {},
        }
        i = i + 1;
    }
    assert(ns.subrange(0, i as int) =~= ns);
    sort_descending(&mut found)
}

} // verus!
