use vstd::prelude::*;

use crate::error::Error;

verus! {

/// The storage version of the data files.
#[derive(Clone, Copy, Debug, PartialEq, Eq, Structural)]
pub enum LanceFileVersion {
    Legacy,
    V2_0,
    V2_1,
}

/// The file version that a data file's `(major, minor)` pair denotes.
pub open spec fn file_version_of(major: u32, minor: u32) -> Option<LanceFileVersion> {
    if major == 0 && minor <= 2 {
        Some(LanceFileVersion::Legacy)
    } else if (major == 0 && minor == 3) || (major == 2 && minor == 0) {
        Some(LanceFileVersion::V2_0)
    } else if major == 2 && minor == 1 {
        Some(LanceFileVersion::V2_1)
    } else {
        None
    }
}

impl LanceFileVersion {
    /// Maps a data file's `(major, minor)` pair to its storage version.
    pub fn try_from_major_minor(major: u32, minor: u32) -> (r: Result<LanceFileVersion, Error>)
        ensures
            match r {
                Ok(v) => file_version_of(major, minor) == Some(v),
                Err(e) => file_version_of(major, minor) is None && e.is_invalid_input(),
            },
    {
        if major == 0 && minor <= 2 {
            Ok(LanceFileVersion::Legacy)
        } else if (major == 0 && minor == 3) || (major == 2 && minor == 0) {
            Ok(LanceFileVersion::V2_0)
        } else if major == 2 && minor == 1 {
            Ok(LanceFileVersion::V2_1)
        } else {
            Err(Error::InvalidInput("Unknown Lance storage version".to_owned()))
        }
    }
}

/// One data file of a fragment and the ids of the fields it holds.
#[derive(Clone, Debug)]
pub struct DataFile {
    pub path: String,
    pub fields: Vec<i32>,
    pub file_major_version: u32,
    pub file_minor_version: u32,
}

pub ghost struct DataFileView {
    pub path: Seq<char>,
    pub fields: Seq<i32>,
    pub file_major_version: u32,
    pub file_minor_version: u32,
}

impl View for DataFile {
    type V = DataFileView;

    open spec fn view(&self) -> DataFileView {
        DataFileView {
            path: self.path@,
            fields: self.fields@,
            file_major_version: self.file_major_version,
            file_minor_version: self.file_minor_version,
        }
    }
}

impl DataFile {
    /// A data file in the legacy layout that holds `fields`.
    pub fn new_legacy_from_fields(path: &str, fields: Vec<i32>) -> (r: DataFile)
        ensures
            r.path@ == path@,
            r.fields@ == fields@,
            r.file_major_version == 0,
            r.file_minor_version == 0,
    {
        DataFile { path: path.to_owned(), fields, file_major_version: 0, file_minor_version: 0 }
    }

    pub fn duplicate(&self) -> (r: DataFile)
        ensures
            r@ == self@,
    {
        DataFile {
            path: self.path.clone(),
            fields: vec_copy_i32(&self.fields),
            file_major_version: self.file_major_version,
            file_minor_version: self.file_minor_version,
        }
    }
}

pub fn vec_copy_i32(v: &Vec<i32>) -> (r: Vec<i32>)
    ensures
        r@ == v@,
{
    let mut r: Vec<i32> = Vec::new();
    let mut i: usize = 0;
    while i < v.len()
        invariant
            i <= v.len(),
            r@ == v@.subrange(0, i as int),
        decreases v.len() - i,
    {
        r.push(v[i]);
        i = i + 1;
    }
    assert(v@.subrange(0, i as int) =~= v@);
    r
}

pub fn vec_copy_u8(v: &Vec<u8>) -> (r: Vec<u8>)
    ensures
        r@ == v@,
{
    let mut r: Vec<u8> = Vec::new();
    let mut i: usize = 0;
    while i < v.len()
        invariant
            i <= v.len(),
            r@ == v@.subrange(0, i as int),
        decreases v.len() - i,
    {
        r.push(v[i]);
        i = i + 1;
    }
    assert(v@.subrange(0, i as int) =~= v@);
    r
}

/// The file that records which rows of a fragment were deleted.
#[derive(Clone, Copy, Debug, PartialEq, Eq, Structural)]
pub struct DeletionFile {
    pub read_version: u64,
    pub id: u64,
    pub num_deleted_rows: u64,
}

/// The serialized row-id sequence of a fragment.
#[derive(Clone, Debug)]
pub struct RowIdMeta {
    pub sequence: Vec<u8>,
}

/// A group of data files that together hold a range of rows.
#[derive(Clone, Debug)]
pub struct Fragment {
    pub id: u64,
    pub files: Vec<DataFile>,
    pub deletion_file: Option<DeletionFile>,
    pub row_id_meta: Option<RowIdMeta>,
    pub physical_rows: Option<u64>,
}

pub ghost struct FragmentView {
    pub id: u64,
    pub files: Seq<DataFileView>,
    pub deletion_file: Option<DeletionFile>,
    pub row_id_meta: Option<Seq<u8>>,
    pub physical_rows: Option<u64>,
}

pub open spec fn data_file_views(fs: Seq<DataFile>) -> Seq<DataFileView> {
    fs.map_values(|f: DataFile| f@)
}

impl View for Fragment {
    type V = FragmentView;

    open spec fn view(&self) -> FragmentView {
        FragmentView {
            id: self.id,
            files: data_file_views(self.files@),
            deletion_file: self.deletion_file,
            row_id_meta: match self.row_id_meta {
                Some(m) => Some(m.sequence@),
                None => None,
            },
            physical_rows: self.physical_rows,
        }
    }
}

pub open spec fn fragment_views(fs: Seq<Fragment>) -> Seq<FragmentView> {
    fs.map_values(|f: Fragment| f@)
}

/// The number of live rows of a fragment, where it is known.
pub open spec fn rows_of(f: FragmentView) -> Option<u64> {
    match f.physical_rows {
        None => None,
        Some(p) => match f.deletion_file {
            None => Some(p),
            Some(d) => if d.num_deleted_rows <= p {
                Some((p - d.num_deleted_rows) as u64)
            } else {
                None
            },
        },
    }
}

/// The `(major, minor)` version pairs of all data files of `fs`, in order.
pub open spec fn version_pairs(fs: Seq<FragmentView>) -> Seq<(u32, u32)>
    decreases fs.len(),
{
    if fs.len() == 0 {
        Seq::empty()
    } else {
        version_pairs(fs.drop_last()) + fs.last().files.map_values(
            |d: DataFileView| (d.file_major_version, d.file_minor_version),
        )
    }
}

/// The storage version shared by all data files of `fs`: `Ok(None)` where there
/// is no data file, an error where a pair is unknown or two files differ.
pub open spec fn infer_version(fs: Seq<FragmentView>) -> Result<Option<LanceFileVersion>, ()> {
    let ps = version_pairs(fs);
    if ps.len() == 0 {
        Ok(None)
    } else {
        match file_version_of(ps[0].0, ps[0].1) {
            None => Err(()),
            Some(v) => if forall|i: int| 0 <= i < ps.len() ==> file_version_of(#[trigger] ps[i].0, ps[i].1) == Some(v) {
                Ok(Some(v))
            } else {
                Err(())
            },
        }
    }
}

/// The storage version shared by all data files, where there are any.
pub fn try_infer_version(fragments: &Vec<Fragment>) -> (r: Result<Option<LanceFileVersion>, Error>)
    ensures
        match infer_version(fragment_views(fragments@)) {
            Ok(v) => r == Ok::<Option<LanceFileVersion>, Error>(v),
            Err(_) => r matches Err(e) && e.is_invalid_input(),
        },
{
    let ghost fs = fragment_views(fragments@);
    let mut pairs: Vec<(u32, u32)> = Vec::new();
    let mut i: usize = 0;
    while i < fragments.len()
        invariant
            i <= fragments.len(),
            fs == fragment_views(fragments@),
            pairs@ == version_pairs(fs.subrange(0, i as int)),
        decreases fragments.len() - i,
    {
        let files = &fragments[i].files;
        let ghost start = pairs@;
        let mut j: usize = 0;
        while j < files.len()
            invariant
                j <= files@.len(),
                pairs@ == start + data_file_views(files@).subrange(0, j as int).map_values(
                    |d: DataFileView| (d.file_major_version, d.file_minor_version),
                ),
            decreases files.len() - j,
        {
            pairs.push((files[j].file_major_version, files[j].file_minor_version));
            proof {
                assert(pairs@ =~= start + data_file_views(files@).subrange(0, j + 1).map_values(
                    |d: DataFileView| (d.file_major_version, d.file_minor_version),
                ));
            }
            j = j + 1;
        }
        proof {
            assert(data_file_views(files@).subrange(0, j as int) =~= fs[i as int].files);
            assert(fs.subrange(0, i + 1).drop_last() =~= fs.subrange(0, i as int));
        }
        i = i + 1;
    }
    assert(fs.subrange(0, i as int) =~= fs);
    if pairs.len() == 0 {
        return Ok(None);
    }
    let first = match LanceFileVersion::try_from_major_minor(pairs[0].0, pairs[0].1) {
        Ok(v) => v,
        Err(e) => return Err(e),
    };
    let mut k: usize = 0;
    while k < pairs.len()
        invariant
            k <= pairs@.len(),
            fs == fragment_views(fragments@),
            pairs@ == version_pairs(fs),
            pairs@.len() > 0,
            file_version_of(pairs@[0].0, pairs@[0].1) == Some(first),
            forall|a: int| 0 <= a < k ==> file_version_of(#[trigger] pairs@[a].0, pairs@[a].1) == Some(first),
        decreases pairs.len() - k,
    {
        match LanceFileVersion::try_from_major_minor(pairs[k].0, pairs[k].1) {
            Ok(v) => {
                if v != first {
                    assert(file_version_of(pairs@[k as int].0, pairs@[k as int].1) != Some(first));
                    return Err(Error::InvalidInput("All data files must have the same version".to_owned()));
                }
            },
            Err(e) => {
                assert(file_version_of(pairs@[k as int].0, pairs@[k as int].1) != Some(first));
                return Err(e);
            },
        }
        k = k + 1;
    }
    Ok(Some(first))
}

impl Fragment {
    /// A fragment with one legacy data file holding `fields`.
    pub fn with_file_legacy(id: u64, path: &str, fields: Vec<i32>, physical_rows: Option<u64>) -> (r: Fragment)
        ensures
            r.id == id,
            r@.files.len() == 1,
            r@.files[0].path == path@,
            r@.files[0].fields == fields@,
            r.deletion_file is None,
            r.row_id_meta is None,
            r.physical_rows == physical_rows,
    {
        let mut files: Vec<DataFile> = Vec::new();
        files.push(DataFile::new_legacy_from_fields(path, fields));
        Fragment { id, files, deletion_file: None, row_id_meta: None, physical_rows }
    }

    /// The number of live rows, where it is known.
    pub fn num_rows(&self) -> (r: Option<u64>)
        ensures
            r == rows_of(self@),
    {
        match self.physical_rows {
            None => None,
            Some(p) => match self.deletion_file {
                None => Some(p),
                Some(d) => if d.num_deleted_rows <= p {
                    Some(p - d.num_deleted_rows)
                } else {
                    None
                },
            },
        }
    }

    pub fn duplicate(&self) -> (r: Fragment)
        ensures
            r@ == self@,
    {
        let mut files: Vec<DataFile> = Vec::new();
        let mut i: usize = 0;
        while i < self.files.len()
            invariant
                i <= self.files.len(),
                data_file_views(files@) == data_file_views(self.files@).subrange(0, i as int),
            decreases self.files.len() - i,
        {
            let ghost before = files@;
            let f = self.files[i].duplicate();
            files.push(f);
            assert(data_file_views(files@) =~= data_file_views(before).push(f@));
            assert(data_file_views(self.files@).subrange(0, i as int + 1) =~= data_file_views(self.files@).subrange(0, i as int).push(self.files@[i as int]@));
            i = i + 1;
        }
        assert(data_file_views(self.files@).subrange(0, i as int) =~= data_file_views(self.files@));
        let row_id_meta = match &self.row_id_meta {
            Some(m) => Some(RowIdMeta { sequence: vec_copy_u8(&m.sequence) }),
            None => None,
        };
        Fragment {
            id: self.id,
            files,
            deletion_file: self.deletion_file,
            row_id_meta,
            physical_rows: self.physical_rows,
        }
    }
}

} // verus!
