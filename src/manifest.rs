use vstd::prelude::*;

use crate::error::Error;
use crate::fragment::{fragment_views, rows_of, Fragment, FragmentView, LanceFileVersion};
use crate::schema::{max_id_of, Schema, StorageClass};
use crate::strmap::{string_views, StrMap};
use crate::text::{chars_of, decimal, format_decimal, parse_decimal, parse_unsigned, string_of};

verus! {

/// Versions with this bit set belong to detached commits.
pub const DETACHED_VERSION_MASK: u64 = 0x8000_0000_0000_0000;

/// Reader flag: every fragment carries row-id metadata.
pub const FLAG_MOVE_STABLE_ROW_IDS: u64 = 2;

/// Writer flag of early writers of the second storage version.
pub const FLAG_USE_V2_FORMAT_DEPRECATED: u64 = 4;

/// The storage version name of the legacy format.
pub const LEGACY_FORMAT_VERSION: &'static str = "0.1";

/// The name of the library's data file format.
pub const LANCE_FORMAT_NAME: &'static str = "lance";

/// The version of this library, recorded as the writer of new manifests.
pub const LIBRARY_VERSION: &'static str = "0.1.0";

/// Whether `version` names a detached commit.
pub fn is_detached_version(version: u64) -> (r: bool)
    ensures
        r == (version & DETACHED_VERSION_MASK != 0),
{
    version & DETACHED_VERSION_MASK != 0
}

/// Whether the writer flags carry the deprecated second-version flag.
pub fn has_deprecated_v2_feature_flag(writer_flags: u64) -> (r: bool)
    ensures
        r == (writer_flags & FLAG_USE_V2_FORMAT_DEPRECATED != 0),
{
    writer_flags & FLAG_USE_V2_FORMAT_DEPRECATED != 0
}

/// The sum of the first `n` row counts (an unknown count adds nothing).
pub open spec fn prefix_rows(fs: Seq<FragmentView>, n: int) -> int
    decreases n,
{
    if n <= 0 {
        0
    } else {
        prefix_rows(fs, n - 1) + match rows_of(fs[n - 1]) {
            Some(r) => r as int,
            None => 0,
        }
    }
}

/// The row count of a fragment, with an unknown count taken as zero.
pub open spec fn rows_or_zero(f: FragmentView) -> int {
    match rows_of(f) {
        Some(r) => r as int,
        None => 0,
    }
}

/// The offsets of the fragments: the running total of rows before each one,
/// and at the end the total of all rows.
pub open spec fn offsets_of(fs: Seq<FragmentView>) -> Seq<int> {
    Seq::new(fs.len() + 1, |i: int| prefix_rows(fs, i))
}

pub proof fn lemma_prefix_rows_monotone(fs: Seq<FragmentView>, a: int, b: int)
    requires
        0 <= a <= b,
    ensures
        prefix_rows(fs, a) <= prefix_rows(fs, b),
    decreases b - a,
{
    if a < b {
        lemma_prefix_rows_monotone(fs, a, b - 1);
    }
}

/// The stored offsets as integers.
pub open spec fn offset_ints(v: Seq<u64>) -> Seq<int> {
    v.map_values(|x: u64| x as int)
}

/// Computes the offset of each fragment and, last, the total number of rows.
pub fn compute_fragment_offsets(fragments: &Vec<Fragment>) -> (r: Vec<u64>)
    requires
        prefix_rows(fragment_views(fragments@), fragments@.len() as int) <= u64::MAX,
    ensures
        offset_ints(r@) == offsets_of(fragment_views(fragments@)),
{
    let ghost fs = fragment_views(fragments@);
    let mut r: Vec<u64> = Vec::new();
    let mut total: u64 = 0;
    let mut i: usize = 0;
    while i < fragments.len()
        invariant
            i <= fragments.len(),
            fs == fragment_views(fragments@),
            prefix_rows(fs, fragments@.len() as int) <= u64::MAX,
            total as int == prefix_rows(fs, i as int),
            r@.len() == i,
            forall|a: int| 0 <= a < i ==> r@[a] as int == prefix_rows(fs, a),
        decreases fragments.len() - i,
    {
        r.push(total);
        proof {
            lemma_prefix_rows_monotone(fs, i as int + 1, fragments@.len() as int);
            assert(fs[i as int] == fragments@[i as int]@);
        }
        let n = match fragments[i].num_rows() {
            Some(n) => n,
            None => 0,
        };
        total = total + n;
        i = i + 1;
    }
    r.push(total);
    assert(offset_ints(r@) =~= offsets_of(fs));
    r
}

/// The version of the library that wrote a manifest.
#[derive(Clone, Debug)]
pub struct WriterVersion {
    pub library: String,
    pub version: String,
}

/// Which numeric part of a version to increment.
#[derive(Clone, Copy, Debug, PartialEq, Eq, Structural)]
pub enum VersionPart {
    Major,
    Minor,
    Patch,
}

/// The file format and storage version of the data files.
#[derive(Clone, Debug)]
pub struct DataStorageFormat {
    pub file_format: String,
    pub version: String,
}

/// The storage version name that `v` resolves to.
pub open spec fn version_name(v: LanceFileVersion) -> Seq<char> {
    match v {
        LanceFileVersion::Legacy => seq!['0', '.', '1'],
        LanceFileVersion::V2_0 => seq!['2', '.', '0'],
        LanceFileVersion::V2_1 => seq!['2', '.', '1'],
    }
}

impl DataStorageFormat {
    pub fn new(version: LanceFileVersion) -> (r: DataStorageFormat)
        ensures
            r.file_format@ == LANCE_FORMAT_NAME@,
            r.version@ == version_name(version),
    {
        let name = match version {
            LanceFileVersion::Legacy => LEGACY_FORMAT_VERSION,
            LanceFileVersion::V2_0 => "2.0",
            LanceFileVersion::V2_1 => "2.1",
        };
        proof {
            reveal_strlit("0.1");
            reveal_strlit("2.0");
            reveal_strlit("2.1");
        }
        DataStorageFormat { file_format: LANCE_FORMAT_NAME.to_owned(), version: name.to_owned() }
    }

    /// The storage version that the version name stands for.
    pub fn lance_file_version(&self) -> (r: Result<LanceFileVersion, Error>)
        ensures
            match r {
                Ok(v) => self.version@ == version_name(v),
                Err(e) => e.is_invalid_input() && forall|v: LanceFileVersion| self.version@ != #[trigger] version_name(v),
            },
    {
        let cs = chars_of(self.version.as_str());
        if cs.len() == 3 && cs[1] == '.' {
            let (a, b) = (cs[0], cs[2]);
            if a == '0' && b == '1' {
                assert(cs@ =~= version_name(LanceFileVersion::Legacy));
                return Ok(LanceFileVersion::Legacy);
            } else if a == '2' && b == '0' {
                assert(cs@ =~= version_name(LanceFileVersion::V2_0));
                return Ok(LanceFileVersion::V2_0);
            } else if a == '2' && b == '1' {
                assert(cs@ =~= version_name(LanceFileVersion::V2_1));
                return Ok(LanceFileVersion::V2_1);
            }
        }
        proof {
            assert forall|v: LanceFileVersion| self.version@ != #[trigger] version_name(v) by {
                if self.version@ == version_name(v) {
                    assert(cs@[0] == version_name(v)[0] && cs@[1] == version_name(v)[1] && cs@[2] == version_name(v)[2]);
                }
            }
        }
        Err(Error::InvalidInput("Unknown Lance storage version".to_owned()))
    }

    pub fn duplicate(&self) -> (r: DataStorageFormat)
        ensures
            r.file_format@ == self.file_format@,
            r.version@ == self.version@,
    {
        DataStorageFormat { file_format: self.file_format.clone(), version: self.version.clone() }
    }
}

impl Default for DataStorageFormat {
    fn default() -> (r: DataStorageFormat)
        ensures
            r.file_format@ == LANCE_FORMAT_NAME@,
            r.version@ == version_name(LanceFileVersion::V2_0),
    {
        DataStorageFormat::new(LanceFileVersion::V2_0)
    }
}

impl WriterVersion {
    pub fn duplicate(&self) -> (r: WriterVersion)
        ensures
            r.library@ == self.library@,
            r.version@ == self.version@,
    {
        WriterVersion { library: self.library.clone(), version: self.version.clone() }
    }
}

/// The parts of `s` between dots, as `str::split('.')` gives them.
pub open spec fn split_dots(s: Seq<char>) -> Seq<Seq<char>>
    decreases s.len(),
{
    if s.len() == 0 {
        seq![Seq::empty()]
    } else {
        let p = split_dots(s.drop_last());
        if s.last() == '.' {
            p.push(Seq::empty())
        } else {
            p.update(p.len() - 1, p.last().push(s.last()))
        }
    }
}

/// Part `i` of `ps`, or `"0"` where there is no such part.
pub open spec fn part_or_zero(ps: Seq<Seq<char>>, i: int) -> Seq<char> {
    if i < ps.len() {
        ps[i]
    } else {
        seq!['0']
    }
}

/// The version `(major, minor, patch, tag)` that `s` spells, where each of
/// the first three dot-separated parts (missing ones read as 0) is a number
/// of at most 32 bits; the tag is the fourth part, if any.
pub open spec fn semver_of(s: Seq<char>) -> Option<(u32, u32, u32, Option<Seq<char>>)> {
    let ps = split_dots(s);
    match (
        parse_unsigned(part_or_zero(ps, 0), u32::MAX as int),
        parse_unsigned(part_or_zero(ps, 1), u32::MAX as int),
        parse_unsigned(part_or_zero(ps, 2), u32::MAX as int),
    ) {
        (Some(a), Some(b), Some(c)) => Some((a as u32, b as u32, c as u32, if ps.len() > 3 { Some(ps[3]) } else { None })),
        _ => None,
    }
}

/// Whether `(a0, a1, a2)` comes before `(b0, b1, b2)` in lexicographic order.
pub open spec fn triple_lt(a: (u32, u32, u32), b: (u32, u32, u32)) -> bool {
    a.0 < b.0 || (a.0 == b.0 && (a.1 < b.1 || (a.1 == b.1 && a.2 < b.2)))
}

/// The comparison of versions is a strict total order.
pub proof fn lemma_older_than_strict_total_order(a: (u32, u32, u32), b: (u32, u32, u32), c: (u32, u32, u32))
    ensures
        !triple_lt(a, a),
        triple_lt(a, b) && triple_lt(b, c) ==> triple_lt(a, c),
        triple_lt(a, b) ==> !triple_lt(b, a),
        a != b ==> triple_lt(a, b) || triple_lt(b, a),
{
}

/// The version string of `(major, minor, patch)` and an optional tag.
pub open spec fn version_string(a: u32, b: u32, c: u32, tag: Option<Seq<char>>) -> Seq<char> {
    let base = decimal(a as nat) + seq!['.'] + decimal(b as nat) + seq!['.'] + decimal(c as nat);
    match tag {
        Some(t) => base + seq!['.'] + t,
        None => base,
    }
}

/// The version after incrementing `part`; later parts are kept as they are.
pub open spec fn bumped(v: (u32, u32, u32, Option<Seq<char>>), part: VersionPart, keep_tag: bool) -> Seq<char> {
    let tag = if keep_tag { v.3 } else { None };
    match part {
        VersionPart::Major => version_string((v.0 + 1) as u32, v.1, v.2, tag),
        VersionPart::Minor => version_string(v.0, (v.1 + 1) as u32, v.2, tag),
        VersionPart::Patch => version_string(v.0, v.1, (v.2 + 1) as u32, tag),
    }
}

pub open spec fn char_views(v: Seq<Vec<char>>) -> Seq<Seq<char>> {
    v.map_values(|p: Vec<char>| p@)
}

fn split_on_dots(cs: &Vec<char>) -> (r: Vec<Vec<char>>)
    ensures
        char_views(r@) == split_dots(cs@),
{
    let mut done: Vec<Vec<char>> = Vec::new();
    let mut cur: Vec<char> = Vec::new();
    let mut i: usize = 0;
    proof {
        assert(cs@.subrange(0, 0) =~= Seq::<char>::empty());
        assert(char_views(done@).push(cur@) =~= seq![Seq::<char>::empty()]);
    }
    while i < cs.len()
        invariant
            i <= cs@.len(),
            char_views(done@).push(cur@) == split_dots(cs@.subrange(0, i as int)),
        decreases cs.len() - i,
    {
        let ghost pre = cs@.subrange(0, i as int);
        proof {
            assert(cs@.subrange(0, i + 1).drop_last() =~= pre);
            assert(cs@.subrange(0, i + 1).last() == cs@[i as int]);
        }
        let c = cs[i];
        if c == '.' {
            let ghost d0 = done@;
            let finished = cur;
            done.push(finished);
            cur = Vec::new();
            proof {
                assert(char_views(done@) =~= char_views(d0).push(finished@));
                assert(char_views(done@).push(cur@) =~= split_dots(pre).push(Seq::empty()));
            }
        } else {
            let ghost c0 = cur@;
            cur.push(c);
            proof {
                let p = split_dots(pre);
                assert(p.len() - 1 == char_views(done@).len());
                assert(char_views(done@).push(cur@) =~= p.update(p.len() - 1, c0.push(c)));
            }
        }
        i = i + 1;
    }
    assert(cs@.subrange(0, i as int) =~= cs@);
    let ghost d1 = done@;
    done.push(cur);
    assert(char_views(done@) =~= char_views(d1).push(cur@));
    done
}

fn parse_part(ps: &Vec<Vec<char>>, i: usize) -> (r: Option<u32>)
    ensures
        match parse_unsigned(part_or_zero(char_views(ps@), i as int), u32::MAX as int) {
            Some(v) => r == Some(v as u32),
            None => r is None,
        },
{
    let r = if i < ps.len() {
        parse_decimal(ps[i].as_slice(), 0xFFFF_FFFF)
    } else {
        let mut zero: Vec<char> = Vec::new();
        zero.push('0');
        assert(zero@ =~= seq!['0']);
        parse_decimal(zero.as_slice(), 0xFFFF_FFFF)
    };
    match r {
        Some(v) => Some(v as u32),
        None => None,
    }
}

impl WriterVersion {
    /// The `(major, minor, patch, tag)` of the version string, where it
    /// has that shape.
    pub fn semver(&self) -> (r: Option<(u32, u32, u32, Option<String>)>)
        ensures
            match semver_of(self.version@) {
                Some((a, b, c, t)) => r matches Some((x, y, z, u)) && x == a && y == b && z == c && match t {
                    Some(t) => u matches Some(s) && s@ == t,
                    None => u is None,
                },
                None => r is None,
            },
    {
        let cs = chars_of(self.version.as_str());
        let ps = split_on_dots(&cs);
        let major = parse_part(&ps, 0);
        let minor = parse_part(&ps, 1);
        let patch = parse_part(&ps, 2);
        match (major, minor, patch) {
            (Some(a), Some(b), Some(c)) => {
                let tag = if ps.len() > 3 {
                    Some(string_of(ps[3].as_slice()))
                } else {
                    None
                };
                Some((a, b, c, tag))
            },
            _ => None,
        }
    }

    /// The parsed version, for a version string known to have that shape.
    pub fn semver_or_panic(&self) -> (r: (u32, u32, u32, Option<String>))
        requires
            semver_of(self.version@) is Some,
        ensures
            ({
                let v = semver_of(self.version@)->0;
                r.0 == v.0 && r.1 == v.1 && r.2 == v.2 && match v.3 {
                    Some(t) => r.3 matches Some(s) && s@ == t,
                    None => r.3 is None,
                }
            }),
    {
        match self.semver() {
            Some(v) => v,
            None => {
                assert(false);
                (0, 0, 0, None)
            },
        }
    }

    /// Whether this version comes before `major.minor.patch`.
    pub fn older_than(&self, major: u32, minor: u32, patch: u32) -> (r: bool)
        requires
            semver_of(self.version@) is Some,
        ensures
            ({
                let v = semver_of(self.version@)->0;
                r == triple_lt((v.0, v.1, v.2), (major, minor, patch))
            }),
    {
        let v = self.semver_or_panic();
        v.0 < major || (v.0 == major && (v.1 < minor || (v.1 == minor && v.2 < patch)))
    }

    /// The version with `part` incremented; the tag is kept where `keep_tag` asks.
    pub fn bump(&self, part: VersionPart, keep_tag: bool) -> (r: WriterVersion)
        requires
            semver_of(self.version@) is Some,
            ({
                let v = semver_of(self.version@)->0;
                match part {
                    VersionPart::Major => v.0 < u32::MAX,
                    VersionPart::Minor => v.1 < u32::MAX,
                    VersionPart::Patch => v.2 < u32::MAX,
                }
            }),
        ensures
            r.library@ == self.library@,
            r.version@ == bumped(semver_of(self.version@)->0, part, keep_tag),
    {
        let (a, b, c, tag) = self.semver_or_panic();
        let (a, b, c) = match part {
            VersionPart::Major => (a + 1, b, c),
            VersionPart::Minor => (a, b + 1, c),
            VersionPart::Patch => (a, b, c + 1),
        };
        let mut cs = format_decimal(a as u64);
        cs.push('.');
        let mut bs = format_decimal(b as u64);
        cs.append(&mut bs);
        cs.push('.');
        let mut zs = format_decimal(c as u64);
        cs.append(&mut zs);
        let ghost base = cs@;
        assert(base =~= decimal(a as nat) + seq!['.'] + decimal(b as nat) + seq!['.'] + decimal(c as nat));
        if keep_tag {
            match tag {
                Some(t) => {
                    cs.push('.');
                    let mut ts = chars_of(t.as_str());
                    cs.append(&mut ts);
                    assert(cs@ =~= base + seq!['.'] + t@);
                },
                None => {},
            }
        }
        WriterVersion { library: self.library.clone(), version: string_of(cs.as_slice()) }
    }
}

impl Default for WriterVersion {
    fn default() -> (r: WriterVersion)
        ensures
            r.library@ == LANCE_FORMAT_NAME@,
            r.version@ == LIBRARY_VERSION@,
    {
        WriterVersion { library: LANCE_FORMAT_NAME.to_owned(), version: LIBRARY_VERSION.to_owned() }
    }
}

/// A UTC point in time: seconds since the epoch and residual nanoseconds.
#[derive(Clone, Copy, Debug, PartialEq, Eq, Structural)]
pub struct UtcTimestamp {
    pub seconds: i64,
    pub nanos: u32,
}

/// Whether chrono can represent the UTC time `seconds` and `nanos` after the
/// epoch: the day lies between -262143-01-01 and +262142-12-31, and
/// nanoseconds of 10^9 or more mark a leap second, allowed only at second 59.
pub open spec fn utc_datetime_exists(seconds: i64, nanos: u32) -> bool {
    &&& -8334601228800 <= seconds <= 8210266876799
    &&& nanos < 2_000_000_000
    &&& (nanos < 1_000_000_000 || (seconds as int % 86400) % 60 == 59)
}

/// Relies on `chrono::DateTime::from_timestamp`: it gives a date-time exactly
/// where the day is within chrono's date range and the time of day is valid.
#[verifier::external_body]
fn datetime_exists(seconds: i64, nanos: u32) -> (r: bool)
    ensures
        r == utc_datetime_exists(seconds, nanos),
{
    chrono::DateTime::from_timestamp(seconds, nanos).is_some()
}

/// `x` as a signed 64-bit integer, keeping its low 64 bits.
pub open spec fn wrap_i64(x: int) -> i64 {
    let m = x % 0x1_0000_0000_0000_0000;
    if m < 0x8000_0000_0000_0000 {
        m as i64
    } else {
        (m - 0x1_0000_0000_0000_0000) as i64
    }
}

/// The point in time `seconds` and `nanos` after the epoch where it is
/// representable, else the epoch itself.
pub fn timestamp_or_epoch(seconds: i64, nanos: u32, representable: bool) -> (r: UtcTimestamp)
    ensures
        r == (if representable { UtcTimestamp { seconds, nanos } } else { UtcTimestamp { seconds: 0, nanos: 0 } }),
{
    if representable {
        UtcTimestamp { seconds, nanos }
    } else {
        UtcTimestamp { seconds: 0, nanos: 0 }
    }
}

/// The description of one version of a dataset.
#[derive(Clone, Debug)]
pub struct Manifest {
    /// The dataset schema.
    pub schema: Schema,
    /// The schema restricted to fields of the default storage class.
    pub local_schema: Schema,
    pub version: u64,
    pub writer_version: Option<WriterVersion>,
    /// Sorted by fragment id; ids may have gaps.
    pub fragments: Vec<Fragment>,
    pub version_aux_data: u64,
    pub index_section: Option<u64>,
    pub timestamp_nanos: u128,
    pub tag: Option<String>,
    pub reader_feature_flags: u64,
    pub writer_feature_flags: u64,
    /// The largest fragment id ever used, where it was recorded.
    pub max_fragment_id: Option<u32>,
    pub transaction_file: Option<String>,
    /// The offset of each fragment, and last the total number of rows.
    pub fragment_offsets: Vec<u64>,
    pub next_row_id: u64,
    pub data_storage_format: DataStorageFormat,
    pub config: StrMap,
    pub blob_dataset_version: Option<u64>,
}

/// The largest fragment id of `fs`, `None` for no fragments.
pub open spec fn max_fragment_id_of(fs: Seq<FragmentView>) -> Option<u64>
    decreases fs.len(),
{
    if fs.len() == 0 {
        None
    } else {
        match max_fragment_id_of(fs.drop_last()) {
            None => Some(fs.last().id),
            Some(m) => Some(if m >= fs.last().id { m } else { fs.last().id }),
        }
    }
}

/// The field ids named by the data files of `fs`, in order.
pub open spec fn data_file_field_ids(fs: Seq<FragmentView>) -> Seq<i32> {
    fs.map_values(|f: FragmentView| f.files.map_values(|d: crate::fragment::DataFileView| d.fields).flatten()).flatten()
}

/// The largest of `xs` and `floor`.
pub open spec fn max_with(xs: Seq<i32>, floor: i32) -> i32
    decreases xs.len(),
{
    if xs.len() == 0 {
        floor
    } else {
        let m = max_with(xs.drop_last(), floor);
        if m >= xs.last() { m } else { xs.last() }
    }
}

/// Whether fragment `i` holds rows of the offset range `[start, end)`;
/// a fragment without rows holds none.
pub open spec fn overlaps(fs: Seq<FragmentView>, i: int, start: int, end: int) -> bool {
    rows_or_zero(fs[i]) > 0 && prefix_rows(fs, i) < end && prefix_rows(fs, i) + rows_or_zero(fs[i]) > start
}

/// The indices of the fragments that overlap `[start, end)`, in order.
pub open spec fn overlapping_indices(fs: Seq<FragmentView>, start: int, end: int) -> Seq<int> {
    overlapping_below(fs, start, end, fs.len() as int)
}

/// The indices below `n` of the fragments that overlap `[start, end)`, in order.
pub open spec fn overlapping_below(fs: Seq<FragmentView>, start: int, end: int, n: int) -> Seq<int> {
    Seq::new(n as nat, |i: int| i).filter(|i: int| overlaps(fs, i, start, end))
}

proof fn lemma_overlapping_step(fs: Seq<FragmentView>, start: int, end: int, n: int)
    requires
        0 <= n,
    ensures
        overlapping_below(fs, start, end, n + 1) == if overlaps(fs, n, start, end) {
            overlapping_below(fs, start, end, n).push(n)
        } else {
            overlapping_below(fs, start, end, n)
        },
{
    reveal(Seq::filter);
    assert(Seq::new((n + 1) as nat, |i: int| i).drop_last() =~= Seq::new(n as nat, |i: int| i));
}

proof fn lemma_overlapping_skip(fs: Seq<FragmentView>, start: int, end: int, i: int, n: int)
    requires
        0 <= i <= n,
        forall|a: int| i <= a < n ==> !overlaps(fs, a, start, end),
    ensures
        overlapping_below(fs, start, end, n) == overlapping_below(fs, start, end, i),
    decreases n - i,
{
    if n > i {
        lemma_overlapping_skip(fs, start, end, i, n - 1);
        lemma_overlapping_step(fs, start, end, n - 1);
    }
}

impl Manifest {
    /// Derived fields agree with the stored ones.
    pub open spec fn wf(&self) -> bool {
        &&& self.schema.wf()
        &&& self.local_schema.wf()
        &&& self.config.wf()
        &&& self.local_schema@ == self.schema@.retain(StorageClass::Default)
        &&& self.offsets_computed()
    }

    /// The stored offsets are those of the fragments.
    pub open spec fn offsets_computed(&self) -> bool {
        offset_ints(self.fragment_offsets@) == offsets_of(fragment_views(self.fragments@))
    }

    pub open spec fn fragment_views(&self) -> Seq<FragmentView> {
        fragment_views(self.fragments@)
    }

    /// The offsets of the fragments, followed by the total number of rows.
    pub fn fragment_offsets(&self) -> (r: &Vec<u64>)
        requires
            self.wf(),
        ensures
            offset_ints(r@) == offsets_of(self.fragment_views()),
    {
        &self.fragment_offsets
    }

    /// A first manifest: version 1, written by this library.
    pub fn new(
        schema: Schema,
        fragments: Vec<Fragment>,
        data_storage_format: DataStorageFormat,
        blob_dataset_version: Option<u64>,
    ) -> (r: Manifest)
        requires
            schema.wf(),
            prefix_rows(fragment_views(fragments@), fragments@.len() as int) <= u64::MAX,
        ensures
            r.wf(),
            r.schema@ == schema@,
            r.fragments@ == fragments@,
            r.version == 1,
            r.writer_version matches Some(w) && w.library@ == LANCE_FORMAT_NAME@ && w.version@ == LIBRARY_VERSION@,
            r.version_aux_data == 0,
            r.index_section is None,
            r.timestamp_nanos == 0,
            r.tag is None,
            r.reader_feature_flags == 0,
            r.writer_feature_flags == 0,
            r.max_fragment_id is None,
            r.transaction_file is None,
            r.next_row_id == 0,
            r.data_storage_format == data_storage_format,
            r.config@ == Map::<Seq<char>, Seq<char>>::empty(),
            r.blob_dataset_version == blob_dataset_version,
    {
        let fragment_offsets = compute_fragment_offsets(&fragments);
        let local_schema = schema.retain_storage_class(StorageClass::Default);
        Manifest {
            schema,
            local_schema,
            version: 1,
            writer_version: Some(WriterVersion::default()),
            fragments,
            version_aux_data: 0,
            index_section: None,
            timestamp_nanos: 0,
            tag: None,
            reader_feature_flags: 0,
            writer_feature_flags: 0,
            max_fragment_id: None,
            transaction_file: None,
            fragment_offsets,
            next_row_id: 0,
            data_storage_format,
            config: StrMap::new(),
            blob_dataset_version,
        }
    }

    /// The manifest of the version after `previous`.
    pub fn new_from_previous(
        previous: &Manifest,
        schema: Schema,
        fragments: Vec<Fragment>,
        new_blob_version: Option<u64>,
    ) -> (r: Manifest)
        requires
            previous.wf(),
            previous.version < u64::MAX,
            schema.wf(),
            prefix_rows(fragment_views(fragments@), fragments@.len() as int) <= u64::MAX,
        ensures
            r.wf(),
            r.schema@ == schema@,
            r.fragments@ == fragments@,
            r.version == previous.version + 1,
            r.writer_version matches Some(w) && w.library@ == LANCE_FORMAT_NAME@ && w.version@ == LIBRARY_VERSION@,
            r.version_aux_data == 0,
            r.index_section is None,
            r.timestamp_nanos == 0,
            r.tag is None,
            r.reader_feature_flags == 0,
            r.writer_feature_flags == 0,
            r.max_fragment_id == previous.max_fragment_id,
            r.transaction_file is None,
            r.next_row_id == previous.next_row_id,
            r.data_storage_format.file_format@ == previous.data_storage_format.file_format@,
            r.data_storage_format.version@ == previous.data_storage_format.version@,
            r.config@ == previous.config@,
            r.blob_dataset_version == (match new_blob_version {
                Some(v) => Some(v),
                None => previous.blob_dataset_version,
            }),
    {
        let fragment_offsets = compute_fragment_offsets(&fragments);
        let local_schema = schema.retain_storage_class(StorageClass::Default);
        let blob_dataset_version = match new_blob_version {
            Some(v) => Some(v),
            None => previous.blob_dataset_version,
        };
        let config = previous.config.duplicate();
        proof {
            crate::strmap::lemma_keys_distinct_same(previous.config.entry_views(), config.entry_views());
        }
        Manifest {
            schema,
            local_schema,
            version: previous.version + 1,
            writer_version: Some(WriterVersion::default()),
            fragments,
            version_aux_data: 0,
            index_section: None,
            timestamp_nanos: 0,
            tag: None,
            reader_feature_flags: 0,
            writer_feature_flags: 0,
            max_fragment_id: previous.max_fragment_id,
            transaction_file: None,
            fragment_offsets,
            next_row_id: previous.next_row_id,
            data_storage_format: previous.data_storage_format.duplicate(),
            config,
            blob_dataset_version,
        }
    }

    /// The commit time as a UTC point in time; the epoch where it is out of range.
    pub fn timestamp(&self) -> (r: UtcTimestamp)
        ensures
            ({
                let seconds = wrap_i64(self.timestamp_nanos as int / 1_000_000_000);
                let nanos = (self.timestamp_nanos % 1_000_000_000) as u32;
                r == (if utc_datetime_exists(seconds, nanos) {
                    UtcTimestamp { seconds, nanos }
                } else {
                    UtcTimestamp { seconds: 0, nanos: 0 }
                })
            }),
    {
        let nanos = (self.timestamp_nanos % 1_000_000_000) as u32;
        let low = ((self.timestamp_nanos / 1_000_000_000) % 0x1_0000_0000_0000_0000u128) as u64;
        let seconds: i64 = if low < 0x8000_0000_0000_0000 {
            low as i64
        } else {
            (low as i128 - 0x1_0000_0000_0000_0000i128) as i64
        };
        timestamp_or_epoch(seconds, nanos, datetime_exists(seconds, nanos))
    }

    /// Sets the commit time, in nanoseconds since the epoch.
    pub fn set_timestamp(&mut self, nanos: u128)
        ensures
            *final(self) == (Manifest { timestamp_nanos: nanos, ..*old(self) }),
    {
        self.timestamp_nanos = nanos;
    }

    /// Inserts or replaces each given configuration entry, in order.
    pub fn update_config(&mut self, upsert_values: Vec<(String, String)>)
        requires
            old(self).wf(),
        ensures
            final(self).wf(),
            final(self).config@ == old(self).config@.union_prefer_right(
                crate::strmap::entries_map(crate::strmap::pair_views(upsert_values@)),
            ),
            *final(self) == (Manifest { config: final(self).config, ..*old(self) }),
    {
        let ghost ups = crate::strmap::pair_views(upsert_values@);
        let mut i: usize = 0;
        while i < upsert_values.len()
            invariant
                i <= upsert_values.len(),
                ups == crate::strmap::pair_views(upsert_values@),
                self.wf(),
                *self == (Manifest { config: self.config, ..*old(self) }),
                self.config@ == old(self).config@.union_prefer_right(
                    crate::strmap::entries_map(ups.subrange(0, i as int)),
                ),
            decreases upsert_values.len() - i,
        {
            let k = upsert_values[i].0.clone();
            let v = upsert_values[i].1.clone();
            proof {
                assert(ups.subrange(0, i + 1).drop_last() =~= ups.subrange(0, i as int));
                assert(ups[i as int] == (k@, v@));
            }
            self.config.insert(k, v);
            proof {
                assert(self.config@ =~= old(self).config@.union_prefer_right(
                    crate::strmap::entries_map(ups.subrange(0, i + 1))));
            }
            i = i + 1;
        }
        assert(ups.subrange(0, i as int) =~= ups);
    }

    /// Removes the configuration entries whose key is one of `delete_keys`.
    pub fn delete_config_keys(&mut self, delete_keys: &[String])
        requires
            old(self).wf(),
        ensures
            final(self).wf(),
            final(self).config@ == old(self).config@.restrict(
                old(self).config@.dom().filter(|k: Seq<char>| !string_views(delete_keys@).contains(k)),
            ),
            *final(self) == (Manifest { config: final(self).config, ..*old(self) }),
    {
        self.config.remove_keys(delete_keys);
    }

    /// Replaces the schema's metadata.
    pub fn replace_schema_metadata(&mut self, new_metadata: StrMap)
        requires
            old(self).wf(),
            new_metadata.wf(),
        ensures
            final(self).wf(),
            final(self).schema@.metadata == new_metadata.entry_views(),
            final(self).schema.fields == old(self).schema.fields,
            *final(self) == (Manifest { schema: final(self).schema, local_schema: final(self).local_schema, ..*old(self) }),
    {
        self.schema.metadata = new_metadata;
        proof {
            assert(self.schema@.retain(StorageClass::Default).fields == old(self).schema@.retain(StorageClass::Default).fields);
        }
        self.local_schema = self.schema.retain_storage_class(StorageClass::Default);
    }

    /// Replaces the metadata of the field with id `field_id`.
    pub fn replace_field_metadata(&mut self, field_id: i32, new_metadata: StrMap) -> (r: Result<(), Error>)
        requires
            old(self).wf(),
            new_metadata.wf(),
        ensures
            final(self).wf(),
            *final(self) == (Manifest { schema: final(self).schema, local_schema: final(self).local_schema, ..*old(self) }),
            r is Ok <==> exists|i: int| 0 <= i < old(self).schema.fields@.len() && (#[trigger] old(self).schema.fields@[i]).id == field_id,
            r is Err ==> r->Err_0.is_invalid_input() && *final(self) == *old(self),
            r is Ok ==> exists|i: int| #![trigger old(self).schema.fields@[i]]
                0 <= i < old(self).schema.fields@.len() && old(self).schema.fields@[i].id == field_id
                && final(self).schema@.fields == old(self).schema@.fields.update(i,
                    crate::schema::FieldView { metadata: new_metadata.entry_views(), ..old(self).schema@.fields[i] })
                && final(self).schema@.metadata == old(self).schema@.metadata,
    {
        if self.schema.set_field_metadata(field_id, new_metadata) {
            self.local_schema = self.schema.retain_storage_class(StorageClass::Default);
            Ok(())
        } else {
            Err(Error::InvalidInput("Field id does not exist for replace_field_metadata".to_owned()))
        }
    }

    /// Raises the recorded high-water mark of fragment ids to the largest id
    /// in the fragment list; without fragments the mark is kept.
    pub fn update_max_fragment_id(&mut self)
        requires
            forall|i: int| 0 <= i < old(self).fragments@.len() ==> (#[trigger] old(self).fragments@[i]).id <= u32::MAX,
        ensures
            *final(self) == (Manifest { max_fragment_id: final(self).max_fragment_id, ..*old(self) }),
            final(self).max_fragment_id == next_max_fragment_id(old(self).max_fragment_id, fragment_views(old(self).fragments@)),
    {
        if self.fragments.len() == 0 {
            return;
        }
        let mut best: u64 = self.fragments[0].id;
        let mut i: usize = 1;
        proof {
            let fs = fragment_views(self.fragments@);
            assert(fs.subrange(0, 1).drop_last() =~= Seq::<FragmentView>::empty());
            assert(fs.subrange(0, 1).last() == fs[0]);
            assert(fs[0] == self.fragments@[0]@);
            reveal_with_fuel(max_fragment_id_of, 2);
            assert(max_fragment_id_of(fs.subrange(0, 1)) == Some(fs[0].id));
        }
        while i < self.fragments.len()
            invariant
                1 <= i <= self.fragments.len(),
                Some(best) == max_fragment_id_of(fragment_views(self.fragments@).subrange(0, i as int)),
                forall|a: int| 0 <= a < self.fragments@.len() ==> (#[trigger] self.fragments@[a]).id <= u32::MAX,
            decreases self.fragments.len() - i,
        {
            proof {
                let fs = fragment_views(self.fragments@);
                assert(fs.subrange(0, i + 1).drop_last() =~= fs.subrange(0, i as int));
            }
            if self.fragments[i].id > best {
                best = self.fragments[i].id;
            }
            i = i + 1;
        }
        proof {
            let fs = fragment_views(self.fragments@);
            assert(fs.subrange(0, i as int) =~= fs);
            assert(fs.subrange(0, 1).drop_last() =~= Seq::<FragmentView>::empty());
            lemma_max_fragment_id_member(fs);
        }
        let computed = best as u32;
        match self.max_fragment_id {
            None => {
                self.max_fragment_id = Some(computed);
            },
            Some(current) => {
                if computed > current {
                    self.max_fragment_id = Some(computed);
                }
            },
        }
    }

    /// The recorded high-water mark of fragment ids, or where none was
    /// recorded the largest id in the fragment list.
    pub fn max_fragment_id(&self) -> (r: Option<u64>)
        ensures
            r == (match self.max_fragment_id {
                Some(m) => Some(m as u64),
                None => max_fragment_id_of(fragment_views(self.fragments@)),
            }),
    {
        match self.max_fragment_id {
            Some(m) => Some(m as u64),
            None => {
                let mut best: Option<u64> = None;
                let mut i: usize = 0;
                while i < self.fragments.len()
                    invariant
                        i <= self.fragments.len(),
                        best == max_fragment_id_of(fragment_views(self.fragments@).subrange(0, i as int)),
                    decreases self.fragments.len() - i,
                {
                    proof {
                        let fs = fragment_views(self.fragments@);
                        assert(fs.subrange(0, i + 1).drop_last() =~= fs.subrange(0, i as int));
                    }
                    let id = self.fragments[i].id;
                    best = match best {
                        None => Some(id),
                        Some(m) => Some(if m >= id { m } else { id }),
                    };
                    i = i + 1;
                }
                assert(fragment_views(self.fragments@).subrange(0, i as int) =~= fragment_views(self.fragments@));
                best
            },
        }
    }

    /// The largest field id in use: in the schema, or named by a data file
    /// of a fragment even where the field was dropped from the schema.
    pub fn max_field_id(&self) -> (r: i32)
        ensures
            r == max_with(
                data_file_field_ids(fragment_views(self.fragments@)),
                schema_floor(max_id_of(self.schema@.fields)),
            ),
    {
        let mut best: i32 = match self.schema.max_field_id() {
            Some(m) => if m >= -1 { m } else { -1 },
            None => -1,
        };
        let ghost floor = best;
        let ghost all = data_file_field_ids(fragment_views(self.fragments@));
        let mut i: usize = 0;
        while i < self.fragments.len()
            invariant
                i <= self.fragments.len(),
                all == data_file_field_ids(fragment_views(self.fragments@)),
                best == max_with(fragment_field_ids(fragment_views(self.fragments@).subrange(0, i as int)), floor),
            decreases self.fragments.len() - i,
        {
            let frag = &self.fragments[i];
            let mut j: usize = 0;
            while j < frag.files.len()
                invariant
                    j <= frag.files.len(),
                    i < self.fragments.len(),
                    frag == self.fragments@[i as int],
                    best == max_with(fragment_field_ids(fragment_views(self.fragments@).subrange(0, i as int))
                        + file_field_ids(frag@.files.subrange(0, j as int)), floor),
                decreases frag.files.len() - j,
            {
                let file = &frag.files[j];
                let mut k: usize = 0;
                while k < file.fields.len()
                    invariant
                        k <= file.fields.len(),
                        j < frag.files.len(),
                        i < self.fragments.len(),
                        frag == self.fragments@[i as int],
                        file == frag.files@[j as int],
                        best == max_with(fragment_field_ids(fragment_views(self.fragments@).subrange(0, i as int))
                            + file_field_ids(frag@.files.subrange(0, j as int)) + file.fields@.subrange(0, k as int), floor),
                    decreases file.fields.len() - k,
                {
                    let ghost pre = fragment_field_ids(fragment_views(self.fragments@).subrange(0, i as int))
                            + file_field_ids(frag@.files.subrange(0, j as int)) + file.fields@.subrange(0, k as int);
                    let x = file.fields[k];
                    proof {
                        let nxt = fragment_field_ids(fragment_views(self.fragments@).subrange(0, i as int))
                            + file_field_ids(frag@.files.subrange(0, j as int)) + file.fields@.subrange(0, k + 1);
                        assert(nxt.drop_last() =~= pre);
                        assert(nxt.last() == x);
                    }
                    if x > best {
                        best = x;
                    }
                    k = k + 1;
                }
                proof {
                    assert(file.fields@.subrange(0, k as int) =~= file.fields@);
                    lemma_file_field_ids_step(frag@.files, j as int);
                    assert(frag@.files[j as int] == file@);
                    let a = fragment_field_ids(fragment_views(self.fragments@).subrange(0, i as int));
                    assert(a + file_field_ids(frag@.files.subrange(0, j as int)) + file.fields@
                        =~= a + file_field_ids(frag@.files.subrange(0, j + 1)));
                }
                j = j + 1;
            }
            proof {
                assert(frag@.files.subrange(0, j as int) =~= frag@.files);
                lemma_fragment_field_ids_step(fragment_views(self.fragments@), i as int);
                assert(fragment_views(self.fragments@)[i as int] == frag@);
            }
            i = i + 1;
        }
        proof {
            assert(fragment_views(self.fragments@).subrange(0, i as int) =~= fragment_views(self.fragments@));
            lemma_field_ids_agree(fragment_views(self.fragments@));
        }
        best
    }

    /// The fragments added since `since`: those whose id is above its
    /// largest fragment id (all of them where it has none).
    pub fn fragments_since(&self, since: &Manifest) -> (r: Result<Vec<Fragment>, Error>)
        ensures
            r is Err <==> since.version >= self.version,
            r is Err ==> r->Err_0.is_io(),
            r is Ok ==> fragment_views(r->Ok_0@) == fragment_views(self.fragments@).filter(
                |f: FragmentView| newer_than(f, since.spec_max_fragment_id())),
    {
        if since.version >= self.version {
            return Err(Error::Io("fragments_since: the given version is not older than this manifest".to_owned()));
        }
        let start = since.max_fragment_id();
        let ghost keep = |f: FragmentView| newer_than(f, start);
        let mut out: Vec<Fragment> = Vec::new();
        let mut i: usize = 0;
        while i < self.fragments.len()
            invariant
                i <= self.fragments.len(),
                start == since.spec_max_fragment_id(),
                keep == (|f: FragmentView| newer_than(f, start)),
                fragment_views(out@) == fragment_views(self.fragments@).subrange(0, i as int).filter(keep),
            decreases self.fragments.len() - i,
        {
            let ghost fs = fragment_views(self.fragments@);
            proof {
                reveal(Seq::filter);
                assert(fs.subrange(0, i + 1).drop_last() =~= fs.subrange(0, i as int));
                assert(fs.subrange(0, i + 1).last() == self.fragments@[i as int]@);
            }
            let take = match start {
                Some(s) => self.fragments[i].id > s,
                None => true,
            };
            if take {
                let ghost before = out@;
                let f = self.fragments[i].duplicate();
                out.push(f);
                proof {
                    assert(fragment_views(out@) =~= fragment_views(before).push(f@));
                }
            }
            i = i + 1;
        }
        assert(fragment_views(self.fragments@).subrange(0, i as int) =~= fragment_views(self.fragments@));
        Ok(out)
    }

    pub open spec fn spec_max_fragment_id(&self) -> Option<u64> {
        match self.max_fragment_id {
            Some(m) => Some(m as u64),
            None => max_fragment_id_of(fragment_views(self.fragments@)),
        }
    }

    /// The fragments that hold rows of the offset range `range`, each with
    /// its starting offset, in fragment order; fragments without rows are
    /// skipped.
    pub fn fragments_by_offset_range(&self, range: std::ops::Range<u64>) -> (r: Vec<(u64, &Fragment)>)
        requires
            self.wf(),
        ensures
            r@.len() == overlapping_indices(self.fragment_views(), range.start as int, range.end as int).len(),
            forall|k: int| 0 <= k < r@.len() ==> {
                let i = #[trigger] overlapping_indices(self.fragment_views(), range.start as int, range.end as int)[k];
                &&& 0 <= i < self.fragments@.len()
                &&& r@[k].0 as int == prefix_rows(self.fragment_views(), i)
                &&& *r@[k].1 == self.fragments@[i]
            },
    {
        let start = range.start;
        let end = range.end;
        let n = self.fragments.len();
        let ghost fs = self.fragment_views();
        let ghost offs = offsets_of(fs);
        proof {
            assert(fs.len() == n);
            assert(offs.len() == n + 1);
            assert(offset_ints(self.fragment_offsets@).len() == self.fragment_offsets@.len());
            assert forall|a: int| 0 <= a <= n implies #[trigger] self.fragment_offsets@[a] as int == prefix_rows(fs, a) by {
                assert(offset_ints(self.fragment_offsets@)[a] == offs[a]);
            }
        }
        // Find the first fragment whose rows end after `start`.
        let mut lo: usize = 0;
        let mut hi: usize = n;
        while lo < hi
            invariant
                self.wf(),
                fs == self.fragment_views(),
                start == range.start,
                end == range.end,
                fs.len() == n,
                n == self.fragments@.len(),
                self.fragment_offsets@.len() == n + 1,
                forall|a: int| 0 <= a <= n ==> #[trigger] self.fragment_offsets@[a] as int == prefix_rows(fs, a),
                lo <= hi <= n,
                forall|a: int| 0 <= a < lo ==> row_end(fs, a) <= start,
                forall|a: int| hi <= a < n ==> row_end(fs, a) > start,
            decreases hi - lo,
        {
            let mid = lo + (hi - lo) / 2;
            if self.fragment_offsets[mid + 1] <= start {
                proof {
                    assert forall|a: int| 0 <= a < mid + 1 implies row_end(fs, a) <= start by {
                        lemma_prefix_rows_monotone(fs, a + 1, mid + 1);
                        assert(row_end(fs, mid as int) == prefix_rows(fs, mid + 1));
                    }
                }
                lo = mid + 1;
            } else {
                proof {
                    assert forall|a: int| mid <= a < n implies row_end(fs, a) > start by {
                        lemma_prefix_rows_monotone(fs, mid + 1, a + 1);
                        assert(row_end(fs, mid as int) == prefix_rows(fs, mid + 1));
                    }
                }
                hi = mid;
            }
        }
        let ghost first = lo as int;
        let ghost ids = overlapping_indices(fs, start as int, end as int);
        proof {
            assert forall|a: int| 0 <= a < first implies !overlaps(fs, a, start as int, end as int) by {
                assert(row_end(fs, a) == prefix_rows(fs, a) + rows_or_zero(fs[a]));
            }
            lemma_overlapping_skip(fs, start as int, end as int, 0, first);
            reveal(Seq::filter);
            assert(Seq::new(0, |i: int| i).filter(|i: int| overlaps(fs, i, start as int, end as int)).len() == 0);
        }
        let mut out: Vec<(u64, &Fragment)> = Vec::new();
        let mut i: usize = lo;
        while i < n
            invariant
                self.wf(),
                fs == self.fragment_views(),
                start == range.start,
                end == range.end,
                fs.len() == n,
                n == self.fragments@.len(),
                self.fragment_offsets@.len() == n + 1,
                forall|a: int| 0 <= a <= n ==> #[trigger] self.fragment_offsets@[a] as int == prefix_rows(fs, a),
                first <= i <= n,
                forall|a: int| first <= a < n ==> row_end(fs, a) > start,
                out@.len() == overlapping_below(fs, start as int, end as int, i as int).len(),
                forall|k: int| 0 <= k < out@.len() ==> {
                    let a = #[trigger] overlapping_below(fs, start as int, end as int, i as int)[k];
                    &&& 0 <= a < n
                    &&& out@[k].0 as int == prefix_rows(fs, a)
                    &&& *out@[k].1 == self.fragments@[a]
                },
            decreases n - i,
        {
            let off = self.fragment_offsets[i];
            if off >= end {
                proof {
                    assert forall|a: int| i <= a < n implies !overlaps(fs, a, start as int, end as int) by {
                        lemma_prefix_rows_monotone(fs, i as int, a);
                    }
                    lemma_overlapping_skip(fs, start as int, end as int, i as int, n as int);
                    assert(overlapping_indices(fs, start as int, end as int) == overlapping_below(fs, start as int, end as int, n as int));
                    assert(overlapping_indices(self.fragment_views(), range.start as int, range.end as int)
                        == overlapping_below(fs, start as int, end as int, i as int));
                }
                return out;
            }
            let next = self.fragment_offsets[i + 1];
            proof {
                lemma_overlapping_step(fs, start as int, end as int, i as int);
                assert(prefix_rows(fs, i + 1) == prefix_rows(fs, i as int) + rows_or_zero(fs[i as int]));
                assert(row_end(fs, i as int) > start);
            }
            if next == off {
                // A fragment without rows holds none of the range.
                i = i + 1;
                continue;
            }
            proof {
                assert(overlaps(fs, i as int, start as int, end as int));
            }
            let ghost before = out@;
            out.push((off, &self.fragments[i]));
            proof {
                let ids = overlapping_below(fs, start as int, end as int, i + 1);
                assert forall|k: int| 0 <= k < out@.len() implies {
                    let a = #[trigger] overlapping_below(fs, start as int, end as int, i + 1)[k];
                    &&& 0 <= a < n
                    &&& out@[k].0 as int == prefix_rows(fs, a)
                    &&& *out@[k].1 == self.fragments@[a]
                } by {
                    if k < before.len() {
                        assert(ids[k] == overlapping_below(fs, start as int, end as int, i as int)[k]);
                    }
                }
            }
            i = i + 1;
        }
        out
    }

    /// Whether the dataset uses move-stable row ids.
    pub fn uses_move_stable_row_ids(&self) -> (r: bool)
        ensures
            r == (self.reader_feature_flags & FLAG_MOVE_STABLE_ROW_IDS != 0),
    {
        self.reader_feature_flags & FLAG_MOVE_STABLE_ROW_IDS != 0
    }

    /// Whether the data files use the legacy storage version.
    pub fn should_use_legacy_format(&self) -> (r: bool)
        ensures
            r == (self.data_storage_format.version@ == LEGACY_FORMAT_VERSION@),
    {
        self.data_storage_format.version == LEGACY_FORMAT_VERSION.to_owned()
    }
}

/// The high-water mark after raising `current` to the largest id of `fs`.
pub open spec fn next_max_fragment_id(current: Option<u32>, fs: Seq<FragmentView>) -> Option<u32> {
    match max_fragment_id_of(fs) {
        None => current,
        Some(m) => match current {
            None => Some(m as u32),
            Some(c) => if m as u32 > c { Some(m as u32) } else { Some(c) },
        },
    }
}

/// Whether fragment `f` is newer than the high-water mark `mark`.
pub open spec fn newer_than(f: FragmentView, mark: Option<u64>) -> bool {
    match mark {
        Some(s) => f.id > s,
        None => true,
    }
}

pub proof fn lemma_max_fragment_id_member(fs: Seq<FragmentView>)
    ensures
        fs.len() == 0 <==> max_fragment_id_of(fs) is None,
        fs.len() > 0 ==> exists|i: int| 0 <= i < fs.len() && max_fragment_id_of(fs) == Some(#[trigger] fs[i].id),
        forall|i: int| 0 <= i < fs.len() ==> max_fragment_id_of(fs)->0 >= #[trigger] fs[i].id,
    decreases fs.len(),
{
    if fs.len() > 0 {
        let rest = fs.drop_last();
        lemma_max_fragment_id_member(rest);
        assert forall|i: int| 0 <= i < fs.len() implies max_fragment_id_of(fs)->0 >= #[trigger] fs[i].id by {
            if i < fs.len() - 1 {
                assert(rest[i] == fs[i]);
            }
        }
        if rest.len() > 0 && max_fragment_id_of(fs) != Some(fs.last().id) {
            let i = choose|i: int| 0 <= i < rest.len() && max_fragment_id_of(rest) == Some(#[trigger] rest[i].id);
            assert(fs[i] == rest[i]);
        }
    }
}

/// The field ids named by the data files `ds`, in order.
pub open spec fn file_field_ids(ds: Seq<crate::fragment::DataFileView>) -> Seq<i32>
    decreases ds.len(),
{
    if ds.len() == 0 {
        Seq::empty()
    } else {
        file_field_ids(ds.drop_last()) + ds.last().fields
    }
}

/// The field ids named by the data files of the fragments `fs`, in order.
pub open spec fn fragment_field_ids(fs: Seq<FragmentView>) -> Seq<i32>
    decreases fs.len(),
{
    if fs.len() == 0 {
        Seq::empty()
    } else {
        fragment_field_ids(fs.drop_last()) + file_field_ids(fs.last().files)
    }
}

proof fn lemma_file_field_ids_step(ds: Seq<crate::fragment::DataFileView>, j: int)
    requires
        0 <= j < ds.len(),
    ensures
        file_field_ids(ds.subrange(0, j + 1)) == file_field_ids(ds.subrange(0, j)) + ds[j].fields,
{
    assert(ds.subrange(0, j + 1).drop_last() =~= ds.subrange(0, j));
}

proof fn lemma_fragment_field_ids_step(fs: Seq<FragmentView>, i: int)
    requires
        0 <= i < fs.len(),
    ensures
        fragment_field_ids(fs.subrange(0, i + 1)) == fragment_field_ids(fs.subrange(0, i)) + file_field_ids(fs[i].files),
{
    assert(fs.subrange(0, i + 1).drop_last() =~= fs.subrange(0, i));
}

proof fn lemma_file_ids_flatten(ds: Seq<crate::fragment::DataFileView>)
    ensures
        file_field_ids(ds) == ds.map_values(|d: crate::fragment::DataFileView| d.fields).flatten(),
    decreases ds.len(),
{
    if ds.len() > 0 {
        lemma_file_ids_flatten(ds.drop_last());
        let m = ds.map_values(|d: crate::fragment::DataFileView| d.fields);
        assert(m.drop_last() =~= ds.drop_last().map_values(|d: crate::fragment::DataFileView| d.fields));
        m.lemma_flatten_and_flatten_alt_are_equivalent();
        ds.drop_last().map_values(|d: crate::fragment::DataFileView| d.fields).lemma_flatten_and_flatten_alt_are_equivalent();
    }
}

proof fn lemma_field_ids_agree(fs: Seq<FragmentView>)
    ensures
        fragment_field_ids(fs) == data_file_field_ids(fs),
    decreases fs.len(),
{
    let g = |f: FragmentView| f.files.map_values(|d: crate::fragment::DataFileView| d.fields).flatten();
    if fs.len() > 0 {
        lemma_field_ids_agree(fs.drop_last());
        lemma_file_ids_flatten(fs.last().files);
        let m = fs.map_values(g);
        assert(m.drop_last() =~= fs.drop_last().map_values(g));
        m.lemma_flatten_and_flatten_alt_are_equivalent();
        fs.drop_last().map_values(g).lemma_flatten_and_flatten_alt_are_equivalent();
    } else {
        assert(fs.map_values(g) =~= Seq::<Seq<i32>>::empty());
    }
}

/// The schema's largest field id, with `-1` as the least value.
pub open spec fn schema_floor(m: Option<i32>) -> i32 {
    match m {
        Some(m) => if m >= -1 { m } else { -1i32 },
        None => -1i32,
    }
}

/// The offset just past the rows of fragment `a`.
pub open spec fn row_end(fs: Seq<FragmentView>, a: int) -> int {
    prefix_rows(fs, a + 1)
}

/// In a well-formed manifest the local schema is the schema restricted to
/// fields of the default storage class.
pub proof fn lemma_local_schema(m: Manifest)
    requires
        m.wf(),
    ensures
        m.local_schema@ == m.schema@.retain(StorageClass::Default),
{
}

/// In a well-formed manifest there is one offset per fragment and one for
/// the end; they start at 0, grow by each fragment's row count, and never
/// decrease.
pub proof fn lemma_fragment_offsets(m: Manifest)
    requires
        m.wf(),
    ensures
        m.fragment_offsets@.len() == m.fragments@.len() + 1,
        m.fragment_offsets@[0] == 0,
        forall|i: int| 0 <= i < m.fragments@.len() ==> #[trigger] m.fragment_offsets@[i + 1] as int
            == m.fragment_offsets@[i] as int + rows_or_zero(m.fragment_views()[i]),
        forall|i: int, j: int| 0 <= i <= j <= m.fragments@.len() ==> m.fragment_offsets@[i] <= m.fragment_offsets@[j],
{
    let fs = m.fragment_views();
    let offs = offset_ints(m.fragment_offsets@);
    assert(offs.len() == m.fragment_offsets@.len());
    assert(fs.len() == m.fragments@.len());
    assert forall|i: int| 0 <= i <= m.fragments@.len() implies m.fragment_offsets@[i] as int == prefix_rows(fs, i) by {
        assert(offs[i] == offsets_of(fs)[i]);
    }
    assert forall|i: int, j: int| 0 <= i <= j <= m.fragments@.len() implies m.fragment_offsets@[i] <= m.fragment_offsets@[j] by {
        lemma_prefix_rows_monotone(fs, i, j);
    }
    assert forall|i: int| 0 <= i < m.fragments@.len() implies #[trigger] m.fragment_offsets@[i + 1] as int
        == m.fragment_offsets@[i] as int + rows_or_zero(m.fragment_views()[i]) by {
        assert(prefix_rows(fs, i + 1) == prefix_rows(fs, i) + rows_or_zero(fs[i]));
    }
    assert(m.fragment_offsets@[0] as int == prefix_rows(fs, 0));
}

/// Raising the high-water mark never lowers it, and never unsets it.
pub proof fn lemma_max_fragment_id_monotone(current: Option<u32>, fs: Seq<FragmentView>)
    ensures
        current matches Some(c) ==> next_max_fragment_id(current, fs) matches Some(n) && n >= c,
        fs.len() == 0 ==> next_max_fragment_id(current, fs) == current,
{
    lemma_max_fragment_id_member(fs);
}

} // verus!
