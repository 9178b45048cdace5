use vstd::prelude::*;
use vstd::utf8::{decode_utf8, encode_utf8, valid_utf8};

use crate::archive::{
    summary_wf, opt_string_view, summary_views, ManifestSummary, VersionArchive, VersionArchiveConfig, VersionSummary,
    VersionSummaryView,
};
use crate::error::Error;
use crate::manifest::{
    has_deprecated_v2_feature_flag, offsets_of, prefix_rows, version_name, DataStorageFormat, Manifest,
    WriterVersion, FLAG_MOVE_STABLE_ROW_IDS,
};
use crate::schema::{field_views, Field, FieldView, Schema, SchemaView, StorageClass};
use crate::strmap::{upsert, StrMap};
use crate::fragment::{
    infer_version, try_infer_version, LanceFileVersion, data_file_views, fragment_views, DataFile, DataFileView, DeletionFile, Fragment, FragmentView,
    RowIdMeta,
};
use crate::wire::{
    all_tag, flat, lemma_flat_push, tagged, all_writable, datas, nums, with_tag, byte_views, get_opt_number, last_opt_number, all_data, all_numbers, field_bytes, get_all_data, get_all_numbers, get_data, get_number,
    last_data, last_number, parse_fields, put_bytes_field, put_varint_field, raw_views, read_fields,
    serialize, RawField, WireField, WireKind,
};

verus! {

/// Relies on `String::from_utf8`: the string whose UTF-8 encoding is
/// `bytes`, where `bytes` is valid UTF-8.
#[verifier::external_body]
pub(crate) fn utf8_string(bytes: Vec<u8>) -> (r: Option<String>)
    ensures
        r is Some <==> valid_utf8(bytes@),
        r matches Some(s) ==> s@ == decode_utf8(bytes@),
{
    String::from_utf8(bytes).ok()
}

/// A byte-string field, left out where `data` is empty.
pub open spec fn bytes_field(tag: u32, data: Seq<u8>) -> Seq<WireField> {
    if data.len() == 0 {
        Seq::empty()
    } else {
        seq![WireField { tag, kind: WireKind::Bytes, num: 0, data }]
    }
}

/// A varint field, left out where `v` is zero.
pub open spec fn varint_field(tag: u32, v: u64) -> Seq<WireField> {
    if v == 0 {
        Seq::empty()
    } else {
        seq![WireField { tag, kind: WireKind::Varint, num: v, data: Seq::empty() }]
    }
}

/// A field that is always written.
pub open spec fn message_field(tag: u32, data: Seq<u8>) -> WireField {
    WireField { tag, kind: WireKind::Bytes, num: 0, data }
}

pub open spec fn number_field(tag: u32, v: u64) -> WireField {
    WireField { tag, kind: WireKind::Varint, num: v, data: Seq::empty() }
}

/// Appends a string field, left out for the empty string.
pub fn put_string(buf: &mut Vec<u8>, tag: u32, s: &String)
    requires
        1 <= tag < 0x2000_0000,
    ensures
        final(buf)@ == old(buf)@ + serialize(bytes_field(tag, encode_utf8(s@))),
        encode_utf8(s@).len() <= u64::MAX,
{
    let b = s.as_str().as_bytes();
    assert(b@.len() == b.len());
    if b.len() > 0 {
        put_bytes_field(buf, tag, b);
        proof {
            lemma_serialize_one(message_field(tag, encode_utf8(s@)));
        }
    } else {
        assert(serialize(Seq::<WireField>::empty()) =~= Seq::<u8>::empty());
        assert(final(buf)@ =~= old(buf)@ + Seq::<u8>::empty());
    }
}

/// Appends a varint field, left out for zero.
pub fn put_number(buf: &mut Vec<u8>, tag: u32, v: u64)
    requires
        1 <= tag < 0x2000_0000,
    ensures
        final(buf)@ == old(buf)@ + serialize(varint_field(tag, v)),
{
    if v != 0 {
        put_varint_field(buf, tag, v);
        proof {
            lemma_serialize_one(number_field(tag, v));
        }
    } else {
        assert(old(buf)@ =~= old(buf)@ + Seq::<u8>::empty());
    }
}

pub proof fn lemma_serialize_one(f: WireField)
    ensures
        serialize(seq![f]) == field_bytes(f),
{
    reveal_with_fuel(serialize, 2);
    assert(seq![f].drop_first() =~= Seq::<WireField>::empty());
    assert(field_bytes(f) + Seq::<u8>::empty() =~= field_bytes(f));
}

pub proof fn lemma_serialize_append(a: Seq<WireField>, b: Seq<WireField>)
    ensures
        serialize(a + b) == serialize(a) + serialize(b),
    decreases a.len(),
{
    if a.len() == 0 {
        assert(a + b =~= b);
        assert(Seq::<u8>::empty() + serialize(b) =~= serialize(b));
    } else {
        lemma_serialize_append(a.drop_first(), b);
        assert((a + b).drop_first() =~= a.drop_first() + b);
        assert(serialize(a) + serialize(b) =~= field_bytes(a[0]) + (serialize(a.drop_first()) + serialize(b)));
    }
}

pub broadcast proof fn lemma_tag_varint_field(t: u32, v: u64)
    ensures
        #[trigger] all_tag(varint_field(t, v), t),
        1 <= t < 0x2000_0000 ==> all_writable(varint_field(t, v)),
{
}

pub broadcast proof fn lemma_tag_bytes_field(t: u32, d: Seq<u8>)
    ensures
        #[trigger] all_tag(bytes_field(t, d), t),
        1 <= t < 0x2000_0000 && d.len() <= u64::MAX ==> all_writable(bytes_field(t, d)),
{
}

pub broadcast proof fn lemma_tag_opt_number(t: u32, v: Option<u64>)
    ensures
        #[trigger] all_tag(opt_number(t, v), t),
        1 <= t < 0x2000_0000 ==> all_writable(opt_number(t, v)),
{
}

pub broadcast proof fn lemma_tag_opt_message(t: u32, d: Option<Seq<u8>>)
    ensures
        #[trigger] all_tag(opt_message(t, d), t),
        1 <= t < 0x2000_0000 && (d matches Some(b) ==> b.len() <= u64::MAX) ==> all_writable(opt_message(t, d)),
{
}

pub broadcast proof fn lemma_tag_opt_text(t: u32, x: Option<Seq<char>>)
    ensures
        #[trigger] all_tag(opt_text_message(t, x), t),
        1 <= t < 0x2000_0000 && (x matches Some(c) ==> encode_utf8(c).len() <= u64::MAX) ==> all_writable(opt_text_message(t, x)),
{
}

pub broadcast proof fn lemma_tag_entries(t: u32, es: Seq<(Seq<char>, Seq<char>)>)
    ensures
        #[trigger] all_tag(entry_messages(t, es), t),
{
}

pub broadcast group group_piece_facts {
    lemma_tag_varint_field,
    lemma_tag_bytes_field,
    lemma_tag_opt_number,
    lemma_tag_opt_message,
    lemma_tag_opt_text,
    lemma_tag_entries,
    lemma_tag_id_fields,
    lemma_tag_data_file_messages,
    lemma_tag_manifest_lists,
}

/// The string fields of a message with two of them (tags 1 and 2), as bytes.
pub ghost struct PairBytes {
    pub first: Seq<u8>,
    pub second: Seq<u8>,
}

/// Reads one field into a two-string message; a known tag of the wrong
/// kind is an error and an unknown tag is skipped.
pub open spec fn pair_apply(acc: PairBytes, f: WireField) -> Option<PairBytes> {
    if f.tag == 1 {
        if f.kind == WireKind::Bytes { Some(PairBytes { first: f.data, ..acc }) } else { None }
    } else if f.tag == 2 {
        if f.kind == WireKind::Bytes { Some(PairBytes { second: f.data, ..acc }) } else { None }
    } else {
        Some(acc)
    }
}

pub open spec fn pair_fold(fs: Seq<WireField>) -> Option<PairBytes>
    decreases fs.len(),
{
    if fs.len() == 0 {
        Some(PairBytes { first: Seq::empty(), second: Seq::empty() })
    } else {
        match pair_fold(fs.drop_last()) {
            Some(acc) => pair_apply(acc, fs.last()),
            None => None,
        }
    }
}

/// The two strings of an encoded two-string message.
pub open spec fn pair_decode(bytes: Seq<u8>) -> Option<(Seq<char>, Seq<char>)> {
    match parse_fields(bytes) {
        Some(fs) => match pair_fold(fs) {
            Some(p) => if valid_utf8(p.first) && valid_utf8(p.second) {
                Some((decode_utf8(p.first), decode_utf8(p.second)))
            } else {
                None
            },
            None => None,
        },
        None => None,
    }
}

/// The fields of a two-string message.
pub open spec fn pair_fields(a: Seq<char>, b: Seq<char>) -> Seq<WireField> {
    bytes_field(1, encode_utf8(a)) + bytes_field(2, encode_utf8(b))
}

/// Encodes a message of two strings, under tags 1 and 2.
pub fn encode_pair(a: &String, b: &String) -> (r: Vec<u8>)
    ensures
        r@ == serialize(pair_fields(a@, b@)),
        pair_decode(r@) == Some((a@, b@)),
        r@.len() <= u64::MAX,
{
    let mut buf: Vec<u8> = Vec::new();
    put_string(&mut buf, 1, a);
    put_string(&mut buf, 2, b);
    proof {
        lemma_serialize_append(bytes_field(1, encode_utf8(a@)), bytes_field(2, encode_utf8(b@)));
        assert(buf@ =~= serialize(pair_fields(a@, b@)));
        lemma_pair_round_trip(a@, b@);
        assert(buf@.len() == buf.len());
    }
    buf
}

/// Decodes a message of two strings, under tags 1 and 2.
pub fn decode_pair(bytes: &[u8]) -> (r: Option<(String, String)>)
    ensures
        match pair_decode(bytes@) {
            Some((a, b)) => r matches Some((x, y)) && x@ == a && y@ == b,
            None => r is None,
        },
{
    let read = read_fields(bytes);
    let fields = match read {
        Some(fs) => fs,
        None => return None,
    };
    let ghost fs = raw_views(fields@);
    assert(parse_fields(bytes@) == Some(fs));
    let mut first: Vec<u8> = Vec::new();
    let mut second: Vec<u8> = Vec::new();
    let mut i: usize = 0;
    while i < fields.len()
        invariant
            i <= fields.len(),
            fs == raw_views(fields@),
            pair_fold(fs.subrange(0, i as int)) == Some(PairBytes { first: first@, second: second@ }),
            parse_fields(bytes@) == Some(fs),
        decreases fields.len() - i,
    {
        let f = &fields[i];
        proof {
            assert(fs.subrange(0, i + 1).drop_last() =~= fs.subrange(0, i as int));
            assert(fs.subrange(0, i + 1).last() == f@);
        }
        if f.tag == 1 {
            if f.kind != WireKind::Bytes {
                proof {
                    assert(pair_fold(fs.subrange(0, i + 1)) is None);
                    lemma_pair_fold_error(fs, i as int);
                }
                return None;
            }
            first = crate::fragment::vec_copy_u8(&f.data);
        } else if f.tag == 2 {
            if f.kind != WireKind::Bytes {
                proof {
                    assert(pair_fold(fs.subrange(0, i + 1)) is None);
                    lemma_pair_fold_error(fs, i as int);
                }
                return None;
            }
            second = crate::fragment::vec_copy_u8(&f.data);
        }
        i = i + 1;
    }
    assert(fs.subrange(0, i as int) =~= fs);
    let a = match utf8_string(first) {
        Some(a) => a,
        None => return None,
    };
    let b = match utf8_string(second) {
        Some(b) => b,
        None => return None,
    };
    Some((a, b))
}

proof fn lemma_pair_fold_error(fs: Seq<WireField>, i: int)
    requires
        0 <= i < fs.len(),
        pair_fold(fs.subrange(0, i + 1)) is None,
    ensures
        pair_fold(fs) is None,
    decreases fs.len() - i,
{
    if i + 1 < fs.len() {
        assert(fs.subrange(0, i + 2).drop_last() =~= fs.subrange(0, i + 1));
        lemma_pair_fold_error(fs, i + 1);
    } else {
        assert(fs.subrange(0, i + 1) =~= fs);
    }
}

/// A message of two strings reads back as the same two strings.
pub proof fn lemma_pair_round_trip(a: Seq<char>, b: Seq<char>)
    requires
        encode_utf8(a).len() <= u64::MAX,
        encode_utf8(b).len() <= u64::MAX,
    ensures
        pair_decode(serialize(pair_fields(a, b))) == Some((a, b)),
{
    broadcast use vstd::utf8::encode_utf8_decode_utf8, vstd::utf8::encode_utf8_valid_utf8;

    let fs = pair_fields(a, b);
    assert(crate::wire::all_writable(fs));
    crate::wire::lemma_fields_round_trip(fs);
    let ea = encode_utf8(a);
    let eb = encode_utf8(b);
    let first_field = bytes_field(1, ea);
    let empty = PairBytes { first: Seq::empty(), second: Seq::empty() };
    assert(pair_fold(first_field) == Some(PairBytes { first: ea, ..empty })) by {
        if ea.len() > 0 {
            assert(first_field.drop_last() =~= Seq::<WireField>::empty());
            assert(pair_fold(Seq::<WireField>::empty()) == Some(empty));
        } else {
            assert(first_field =~= Seq::<WireField>::empty());
            assert(ea =~= Seq::<u8>::empty());
        }
    }
    if eb.len() > 0 {
        assert(fs.drop_last() =~= first_field);
    } else {
        assert(fs =~= first_field);
    }
    if ea.len() == 0 {
        vstd::utf8::decode_utf8_encode_utf8(ea);
    }
}

/// The wire value of a 32-bit signed integer: its two's-complement bits.
pub open spec fn i32_bits(x: i32) -> u64 {
    if x >= 0 {
        x as u64
    } else {
        (x as int + 0x1_0000_0000) as u64
    }
}

/// The 32-bit signed integer whose two's-complement bits are `v`.
pub open spec fn i32_from_bits(v: u64) -> Option<i32> {
    if v < 0x8000_0000 {
        Some(v as i32)
    } else if v <= 0xFFFF_FFFF {
        Some((v as int - 0x1_0000_0000) as i32)
    } else {
        None
    }
}

pub fn to_i32_bits(x: i32) -> (r: u64)
    ensures
        r == i32_bits(x),
        i32_from_bits(r) == Some(x),
{
    if x >= 0 {
        x as u64
    } else {
        (x as i64 + 0x1_0000_0000i64) as u64
    }
}

pub fn from_i32_bits(v: u64) -> (r: Option<i32>)
    ensures
        r == i32_from_bits(v),
{
    if v < 0x8000_0000 {
        Some(v as i32)
    } else if v <= 0xFFFF_FFFF {
        Some((v as i64 - 0x1_0000_0000i64) as i32)
    } else {
        None
    }
}

/// The string whose UTF-8 encoding is `d`, the empty string where absent.
pub open spec fn text_of(d: Option<Seq<u8>>) -> Option<Seq<char>> {
    match d {
        None => Some(Seq::empty()),
        Some(b) => if valid_utf8(b) { Some(decode_utf8(b)) } else { None },
    }
}

fn read_text(d: Option<Vec<u8>>) -> (r: Option<String>)
    ensures
        match text_of(match d { Some(v) => Some(v@), None => None }) {
            Some(t) => r matches Some(s) && s@ == t,
            None => r is None,
        },
{
    match d {
        None => Some(String::new()),
        Some(v) => utf8_string(v),
    }
}

/// An unsigned number that must fit in 32 bits.
pub open spec fn u32_of(v: Option<u64>) -> Option<u32> {
    match v {
        Some(n) => if n <= u32::MAX { Some(n as u32) } else { None },
        None => None,
    }
}

// ---- Data files: path (1), field ids (2, one varint each), major (3), minor (4).

/// One varint field under tag 2 per field id, in order.
pub open spec fn id_fields(ids: Seq<i32>) -> Seq<WireField> {
    ids.map_values(|x: i32| number_field(2, i32_bits(x)))
}

pub proof fn lemma_i32_bits(x: i32)
    ensures
        i32_from_bits(i32_bits(x)) == Some(x),
{
}

pub broadcast proof fn lemma_tag_id_fields(ids: Seq<i32>)
    ensures
        #[trigger] all_tag(id_fields(ids), 2),
        all_writable(id_fields(ids)),
        forall|i: int| 0 <= i < ids.len() ==> (#[trigger] id_fields(ids)[i]).kind == WireKind::Varint,
{
}

pub open spec fn data_file_fields(d: DataFileView) -> Seq<WireField> {
    bytes_field(1, encode_utf8(d.path))
        + id_fields(d.fields)
        + varint_field(3, d.file_major_version as u64)
        + varint_field(4, d.file_minor_version as u64)
}

pub open spec fn decode_ids(ns: Seq<u64>) -> Seq<i32> {
    ns.map_values(|v: u64| i32_from_bits(v)->0)
}

pub open spec fn all_i32(ns: Seq<u64>) -> bool {
    forall|i: int| 0 <= i < ns.len() ==> (#[trigger] i32_from_bits(ns[i])) is Some
}

pub open spec fn data_file_decode(bytes: Seq<u8>) -> Option<DataFileView> {
    match parse_fields(bytes) {
        None => None,
        Some(fs) => match (text_of_field(fs, 1), all_numbers(fs, 2), u32_of(last_number(fs, 3)), u32_of(last_number(fs, 4))) {
            (Some(path), Some(ids), Some(major), Some(minor)) => if all_i32(ids) {
                Some(DataFileView {
                    path,
                    fields: decode_ids(ids),
                    file_major_version: major,
                    file_minor_version: minor,
                })
            } else {
                None
            },
            _ => None,
        },
    }
}

/// The string under `tag`: empty where absent, `None` where it is not text.
pub open spec fn text_of_field(fs: Seq<WireField>, tag: u32) -> Option<Seq<char>> {
    match last_data(fs, tag) {
        Some(d) => text_of(d),
        None => None,
    }
}

fn get_text(fields: &Vec<RawField>, tag: u32) -> (r: Option<String>)
    ensures
        match text_of_field(raw_views(fields@), tag) {
            Some(t) => r matches Some(s) && s@ == t,
            None => r is None,
        },
{
    match get_data(fields, tag) {
        None => None,
        Some(d) => read_text(d),
    }
}

fn get_u32(fields: &Vec<RawField>, tag: u32) -> (r: Option<u32>)
    ensures
        r == u32_of(last_number(raw_views(fields@), tag)),
{
    match get_number(fields, tag) {
        Some(n) => if n <= 0xFFFF_FFFF { Some(n as u32) } else { None },
        None => None,
    }
}

pub fn encode_data_file(d: &DataFile) -> (r: Vec<u8>)
    ensures
        r@ == serialize(data_file_fields(d@)),
        data_file_ok(d@),
{
    let mut buf: Vec<u8> = Vec::new();
    put_string(&mut buf, 1, &d.path);
    let ghost head = bytes_field(1, encode_utf8(d.path@));
    let mut i: usize = 0;
    while i < d.fields.len()
        invariant
            i <= d.fields@.len(),
            head == bytes_field(1, encode_utf8(d.path@)),
            encode_utf8(d.path@).len() <= u64::MAX,
            buf@ == serialize(head + id_fields(d.fields@.subrange(0, i as int))),
        decreases d.fields.len() - i,
    {
        let ghost before = head + id_fields(d.fields@.subrange(0, i as int));
        let v = to_i32_bits(d.fields[i]);
        put_varint_field(&mut buf, 2, v);
        proof {
            let after = head + id_fields(d.fields@.subrange(0, i + 1));
            assert(after =~= before + seq![number_field(2, v)]);
            lemma_serialize_append(before, seq![number_field(2, v)]);
            lemma_serialize_one(number_field(2, v));
        }
        i = i + 1;
    }
    let ghost mid = head + id_fields(d.fields@);
    assert(d.fields@.subrange(0, i as int) =~= d.fields@);
    put_number(&mut buf, 3, d.file_major_version as u64);
    proof {
        lemma_serialize_append(mid, varint_field(3, d.file_major_version as u64));
    }
    put_number(&mut buf, 4, d.file_minor_version as u64);
    proof {
        lemma_serialize_append(mid + varint_field(3, d.file_major_version as u64), varint_field(4, d.file_minor_version as u64));
        lemma_data_file_round_trip(d@);
        assert(buf@.len() == buf.len());
    }
    buf
}

pub fn decode_data_file(bytes: &[u8]) -> (r: Option<DataFile>)
    ensures
        match data_file_decode(bytes@) {
            Some(v) => r matches Some(d) && d@ == v,
            None => r is None,
        },
{
    let read = read_fields(bytes);
    let fields = match read {
        Some(f) => f,
        None => return None,
    };
    assert(parse_fields(bytes@) == Some(raw_views(fields@)));
    let path = get_text(&fields, 1);
    let ids = get_all_numbers(&fields, 2);
    let major = get_u32(&fields, 3);
    let minor = get_u32(&fields, 4);
    match (path, ids, major, minor) {
        (Some(path), Some(ids), Some(major), Some(minor)) => {
            let ghost fsv = raw_views(fields@);
            let mut out: Vec<i32> = Vec::new();
            let mut k: usize = 0;
            while k < ids.len()
                invariant
                    parse_fields(bytes@) == Some(fsv),
                    all_numbers(fsv, 2) == Some(ids@),
                    text_of_field(fsv, 1) == Some(path@),
                    u32_of(last_number(fsv, 3)) == Some(major),
                    u32_of(last_number(fsv, 4)) == Some(minor),
                    k <= ids@.len(),
                    out@.len() == k,
                    forall|j: int| 0 <= j < k ==> i32_from_bits(ids@[j]) == Some(#[trigger] out@[j]),
                decreases ids.len() - k,
            {
                match from_i32_bits(ids[k]) {
                    Some(x) => out.push(x),
                    None => {
                        proof {
                            assert(i32_from_bits(ids@[k as int]) is None);
                            assert(!all_i32(ids@));
                        }
                        return None;
                    },
                }
                k = k + 1;
            }
            proof {
                assert(out@ =~= decode_ids(ids@));
                assert forall|i: int| 0 <= i < ids@.len() implies (#[trigger] i32_from_bits(ids@[i])) is Some by {
                    assert(i32_from_bits(ids@[i]) == Some(out@[i]));
                }
            }
            let d = DataFile { path, fields: out, file_major_version: major, file_minor_version: minor };
            assert(d@ == DataFileView { path: path@, fields: decode_ids(ids@), file_major_version: major, file_minor_version: minor });
            assert(data_file_decode(bytes@) == Some(d@));
            Some(d)
        },
        _ => None,
    }
}

// ---- Deletion files: read version (1), id (2), deleted rows (3).

pub open spec fn deletion_fields(d: DeletionFile) -> Seq<WireField> {
    varint_field(1, d.read_version) + varint_field(2, d.id) + varint_field(3, d.num_deleted_rows)
}

pub open spec fn deletion_decode(bytes: Seq<u8>) -> Option<DeletionFile> {
    match parse_fields(bytes) {
        None => None,
        Some(fs) => match (last_number(fs, 1), last_number(fs, 2), last_number(fs, 3)) {
            (Some(a), Some(b), Some(c)) => Some(DeletionFile { read_version: a, id: b, num_deleted_rows: c }),
            _ => None,
        },
    }
}

pub fn encode_deletion(d: &DeletionFile) -> (r: Vec<u8>)
    ensures
        r@ == serialize(deletion_fields(*d)),
        r@.len() <= u64::MAX,
{
    let mut buf: Vec<u8> = Vec::new();
    put_number(&mut buf, 1, d.read_version);
    put_number(&mut buf, 2, d.id);
    proof {
        lemma_serialize_append(varint_field(1, d.read_version), varint_field(2, d.id));
        assert(buf@ =~= serialize(varint_field(1, d.read_version) + varint_field(2, d.id)));
    }
    put_number(&mut buf, 3, d.num_deleted_rows);
    proof {
        lemma_serialize_append(varint_field(1, d.read_version) + varint_field(2, d.id), varint_field(3, d.num_deleted_rows));
        assert(buf@.len() == buf.len());
    }
    buf
}

pub fn decode_deletion(bytes: &[u8]) -> (r: Option<DeletionFile>)
    ensures
        r == deletion_decode(bytes@),
{
    let read = read_fields(bytes);
    let fields = match read {
        Some(f) => f,
        None => return None,
    };
    assert(parse_fields(bytes@) == Some(raw_views(fields@)));
    match (get_number(&fields, 1), get_number(&fields, 2), get_number(&fields, 3)) {
        (Some(a), Some(b), Some(c)) => Some(DeletionFile { read_version: a, id: b, num_deleted_rows: c }),
        _ => None,
    }
}

// ---- Fragments: id (1), data files (2), deletion file (3), physical rows (4),
// row-id sequence (5).

pub open spec fn opt_message(tag: u32, data: Option<Seq<u8>>) -> Seq<WireField> {
    match data {
        Some(d) => seq![message_field(tag, d)],
        None => Seq::empty(),
    }
}

pub open spec fn data_file_messages(ds: Seq<DataFileView>) -> Seq<WireField> {
    ds.map_values(|d: DataFileView| message_field(2, serialize(data_file_fields(d))))
}

pub open spec fn fragment_fields(f: FragmentView) -> Seq<WireField> {
    varint_field(1, f.id)
        + data_file_messages(f.files)
        + opt_message(3, deletion_data(f.deletion_file))
        + varint_field(4, rows_value(f.physical_rows))
        + opt_message(5, f.row_id_meta)
}

/// The encoding of the deletion file, if any.
pub open spec fn deletion_data(d: Option<DeletionFile>) -> Option<Seq<u8>> {
    match d {
        Some(d) => Some(serialize(deletion_fields(d))),
        None => None,
    }
}

/// The physical row count on the wire, 0 where unknown.
pub open spec fn rows_value(p: Option<u64>) -> u64 {
    match p {
        Some(n) => n,
        None => 0,
    }
}

/// A data file whose encoding fits a length field and reads back as the file.
pub open spec fn data_file_ok(d: DataFileView) -> bool {
    serialize(data_file_fields(d)).len() <= u64::MAX && data_file_decode(serialize(data_file_fields(d))) == Some(d)
}

pub broadcast proof fn lemma_tag_data_file_messages(ds: Seq<DataFileView>)
    ensures
        #[trigger] all_tag(data_file_messages(ds), 2),
        forall|i: int| 0 <= i < ds.len() ==> (#[trigger] data_file_messages(ds)[i]).kind == WireKind::Bytes,
{
}

proof fn lemma_data_files_round_trip(ds: Seq<DataFileView>)
    requires
        forall|i: int| 0 <= i < ds.len() ==> data_file_ok(#[trigger] ds[i]),
    ensures
        all_writable(data_file_messages(ds)),
        decode_data_files(datas(data_file_messages(ds))) == Some(ds),
    decreases ds.len(),
{
    if ds.len() > 0 {
        let rest = ds.drop_last();
        assert forall|i: int| 0 <= i < rest.len() implies data_file_ok(#[trigger] rest[i]) by {
            assert(rest[i] == ds[i]);
        }
        lemma_data_files_round_trip(rest);
        assert(datas(data_file_messages(ds)).drop_last() =~= datas(data_file_messages(rest)));
        assert(data_file_ok(ds[ds.len() - 1]));
        assert(rest.push(ds.last()) =~= ds);
    } else {
        assert(datas(data_file_messages(ds)) =~= Seq::<Seq<u8>>::empty());
    }
}

/// Decodes each of `ds` as a data file; `None` where one fails.
pub open spec fn decode_data_files(ds: Seq<Seq<u8>>) -> Option<Seq<DataFileView>>
    decreases ds.len(),
{
    if ds.len() == 0 {
        Some(Seq::empty())
    } else {
        match (decode_data_files(ds.drop_last()), data_file_decode(ds.last())) {
            (Some(a), Some(d)) => Some(a.push(d)),
            _ => None,
        }
    }
}

pub open spec fn fragment_decode(bytes: Seq<u8>) -> Option<FragmentView> {
    match parse_fields(bytes) {
        None => None,
        Some(fs) => match (last_number(fs, 1), all_data(fs, 2), last_data(fs, 3), last_number(fs, 4), last_data(fs, 5)) {
            (Some(id), Some(files), Some(del), Some(rows), Some(seq_ids)) => {
                match (decode_data_files(files), del) {
                    (Some(files), None) => Some(FragmentView {
                        id,
                        files,
                        deletion_file: None,
                        row_id_meta: seq_ids,
                        physical_rows: if rows == 0 { None } else { Some(rows) },
                    }),
                    (Some(files), Some(d)) => match deletion_decode(d) {
                        Some(d) => Some(FragmentView {
                            id,
                            files,
                            deletion_file: Some(d),
                            row_id_meta: seq_ids,
                            physical_rows: if rows == 0 { None } else { Some(rows) },
                        }),
                        None => None,
                    },
                    _ => None,
                }
            },
            _ => None,
        },
    }
}

pub fn encode_fragment(f: &Fragment) -> (r: Vec<u8>)
    ensures
        r@ == serialize(fragment_fields(f@)),
        f@.physical_rows != Some(0u64) ==> fragment_ok(f@),
{
    let mut buf: Vec<u8> = Vec::new();
    put_number(&mut buf, 1, f.id);
    let ghost head = varint_field(1, f.id);
    let mut i: usize = 0;
    while i < f.files.len()
        invariant
            i <= f.files@.len(),
            head == varint_field(1, f.id),
            buf@ == serialize(head + data_file_messages(data_file_views(f.files@).subrange(0, i as int))),
            forall|k: int| 0 <= k < i ==> data_file_ok(#[trigger] data_file_views(f.files@)[k]),
        decreases f.files.len() - i,
    {
        let ghost before = head + data_file_messages(data_file_views(f.files@).subrange(0, i as int));
        let enc = encode_data_file(&f.files[i]);
        assert(data_file_views(f.files@)[i as int] == f.files@[i as int]@);
        put_bytes_field(&mut buf, 2, enc.as_slice());
        proof {
            let m = message_field(2, enc@);
            assert(head + data_file_messages(data_file_views(f.files@).subrange(0, i + 1)) =~= before + seq![m]);
            lemma_serialize_append(before, seq![m]);
            lemma_serialize_one(m);
        }
        i = i + 1;
    }
    assert(data_file_views(f.files@).subrange(0, i as int) =~= f@.files);
    let ghost upto_files = head + data_file_messages(f@.files);
    let ghost del = opt_message(3, deletion_data(f.deletion_file));
    match &f.deletion_file {
        Some(d) => {
            let enc = encode_deletion(d);
            put_bytes_field(&mut buf, 3, enc.as_slice());
            proof {
                lemma_serialize_one(message_field(3, enc@));
            }
        },
        None => {
            assert(buf@ =~= buf@ + serialize(Seq::<WireField>::empty()));
        },
    }
    proof {
        lemma_serialize_append(upto_files, del);
    }
    let rows = match f.physical_rows {
        Some(n) => n,
        None => 0,
    };
    put_number(&mut buf, 4, rows);
    proof {
        lemma_serialize_append(upto_files + del, varint_field(4, rows));
    }
    let ghost upto_rows = upto_files + del + varint_field(4, rows);
    match &f.row_id_meta {
        Some(m) => {
            put_bytes_field(&mut buf, 5, m.sequence.as_slice());
            proof {
                lemma_serialize_one(message_field(5, m.sequence@));
                assert(m.sequence@.len() == m.sequence.len());
            }
        },
        None => {
            assert(buf@ =~= buf@ + serialize(Seq::<WireField>::empty()));
        },
    }
    proof {
        lemma_serialize_append(upto_rows, opt_message(5, f@.row_id_meta));
        if f@.physical_rows != Some(0u64) {
            assert forall|k: int| 0 <= k < f@.files.len() implies data_file_ok(#[trigger] f@.files[k]) by {}
            lemma_fragment_round_trip(f@);
            assert(buf@.len() == buf.len());
        }
    }
    buf
}

pub fn decode_fragment(bytes: &[u8]) -> (r: Option<Fragment>)
    ensures
        match fragment_decode(bytes@) {
            Some(v) => r matches Some(f) && f@ == v,
            None => r is None,
        },
{
    let read = read_fields(bytes);
    let fields = match read {
        Some(f) => f,
        None => return None,
    };
    let ghost fsv = raw_views(fields@);
    assert(parse_fields(bytes@) == Some(fsv));
    let id = match get_number(&fields, 1) {
        Some(v) => v,
        None => return None,
    };
    let files = match get_all_data(&fields, 2) {
        Some(v) => v,
        None => return None,
    };
    let del = match get_data(&fields, 3) {
        Some(v) => v,
        None => return None,
    };
    let rows = match get_number(&fields, 4) {
        Some(v) => v,
        None => return None,
    };
    let seq_ids = match get_data(&fields, 5) {
        Some(v) => v,
        None => return None,
    };
    let ghost fd = all_data(fsv, 2)->0;
    let mut out: Vec<DataFile> = Vec::new();
    let mut k: usize = 0;
    while k < files.len()
        invariant
            parse_fields(bytes@) == Some(fsv),
            all_data(fsv, 2) == Some(fd),
            last_number(fsv, 1) == Some(id),
            last_number(fsv, 4) == Some(rows),
            match last_data(fsv, 3) {
                Some(None) => del is None,
                Some(Some(d)) => del matches Some(x) && x@ == d,
                None => false,
            },
            match last_data(fsv, 5) {
                Some(None) => seq_ids is None,
                Some(Some(d)) => seq_ids matches Some(x) && x@ == d,
                None => false,
            },
            k <= files@.len(),
            files@.len() == fd.len(),
            forall|j: int| 0 <= j < fd.len() ==> (#[trigger] files@[j])@ == fd[j],
            decode_data_files(fd.subrange(0, k as int)) == Some(data_file_views(out@)),
        decreases files.len() - k,
    {
        proof {
            assert(fd.subrange(0, k + 1).drop_last() =~= fd.subrange(0, k as int));
            assert(fd.subrange(0, k + 1).last() == files@[k as int]@);
        }
        match decode_data_file(files[k].as_slice()) {
            Some(d) => {
                let ghost before = out@;
                out.push(d);
                proof {
                    assert(data_file_views(out@) =~= data_file_views(before).push(d@));
                }
            },
            None => {
                proof {
                    lemma_decode_data_files_prefix(fd, k as int + 1);
                }
                return None;
            },
        }
        k = k + 1;
    }
    assert(fd.subrange(0, k as int) =~= fd);
    let deletion_file = match del {
        Some(b) => match decode_deletion(b.as_slice()) {
            Some(d) => Some(d),
            None => return None,
        },
        None => None,
    };
    let row_id_meta = match seq_ids {
        Some(b) => Some(RowIdMeta { sequence: b }),
        None => None,
    };
    Some(Fragment {
        id,
        files: out,
        deletion_file,
        row_id_meta,
        physical_rows: if rows == 0 { None } else { Some(rows) },
    })
}

proof fn lemma_decode_data_files_prefix(ds: Seq<Seq<u8>>, n: int)
    requires
        0 <= n <= ds.len(),
        decode_data_files(ds.subrange(0, n)) is None,
    ensures
        decode_data_files(ds) is None,
    decreases ds.len() - n,
{
    if n < ds.len() {
        assert(ds.subrange(0, n + 1).drop_last() =~= ds.subrange(0, n));
        lemma_decode_data_files_prefix(ds, n + 1);
    } else {
        assert(ds.subrange(0, n) =~= ds);
    }
}

// ---- String maps: one two-string message per entry.

/// The encoding of one map entry.
pub open spec fn entry_bytes(e: (Seq<char>, Seq<char>)) -> Seq<u8> {
    serialize(pair_fields(e.0, e.1))
}

/// An entry whose encoding fits a length field and reads back as the entry.
pub open spec fn entry_ok(e: (Seq<char>, Seq<char>)) -> bool {
    entry_bytes(e).len() <= u64::MAX && pair_decode(entry_bytes(e)) == Some(e)
}

pub open spec fn entry_messages(tag: u32, es: Seq<(Seq<char>, Seq<char>)>) -> Seq<WireField> {
    es.map_values(|e: (Seq<char>, Seq<char>)| message_field(tag, entry_bytes(e)))
}

/// Encoded entries read back as the same entries, in the same order.
pub proof fn lemma_entries_round_trip(tag: u32, es: Seq<(Seq<char>, Seq<char>)>)
    requires
        1 <= tag < 0x2000_0000,
        crate::strmap::keys_distinct(es),
        forall|i: int| 0 <= i < es.len() ==> entry_ok(#[trigger] es[i]),
    ensures
        with_tag(entry_messages(tag, es), tag) == entry_messages(tag, es),
        all_writable(entry_messages(tag, es)),
        decode_entries(datas(entry_messages(tag, es))) == Some(es),
    decreases es.len(),
{
    let ms = entry_messages(tag, es);
    crate::wire::lemma_with_tag_uniform(ms, tag, tag);
    if es.len() > 0 {
        let rest = es.drop_last();
        assert(crate::strmap::keys_distinct(rest)) by {
            assert forall|a: int, b: int| 0 <= a < b < rest.len() implies (#[trigger] rest[a]).0 != (#[trigger] rest[b]).0 by {
                assert(rest[a] == es[a] && rest[b] == es[b]);
            }
        }
        assert forall|i: int| 0 <= i < rest.len() implies entry_ok(#[trigger] rest[i]) by {
            assert(rest[i] == es[i]);
        }
        lemma_entries_round_trip(tag, rest);
        assert(datas(ms).drop_last() =~= datas(entry_messages(tag, rest)));
        assert(entry_ok(es[es.len() - 1]));
        assert(datas(ms).last() == entry_bytes(es.last()));
        assert forall|i: int| 0 <= i < rest.len() implies rest[i].0 != es.last().0 by {
            assert(rest[i] == es[i]);
        }
        assert(crate::strmap::upsert(rest, es.last().0, es.last().1) =~= es);
    } else {
        assert(datas(ms) =~= Seq::<Seq<u8>>::empty());
    }
}

/// The entries that setting each decoded pair in turn gives, or `None`
/// where an entry fails to decode.
pub open spec fn decode_entries(ds: Seq<Seq<u8>>) -> Option<Seq<(Seq<char>, Seq<char>)>>
    decreases ds.len(),
{
    if ds.len() == 0 {
        Some(Seq::empty())
    } else {
        match (decode_entries(ds.drop_last()), pair_decode(ds.last())) {
            (Some(es), Some((k, v))) => Some(upsert(es, k, v)),
            _ => None,
        }
    }
}

fn put_entries(buf: &mut Vec<u8>, tag: u32, m: &StrMap)
    requires
        1 <= tag < 0x2000_0000,
    ensures
        final(buf)@ == old(buf)@ + serialize(entry_messages(tag, m.entry_views())),
        forall|i: int| 0 <= i < m.entry_views().len() ==> entry_ok(#[trigger] m.entry_views()[i]),
{
    let mut i: usize = 0;
    while i < m.len()
        invariant
            1 <= tag < 0x2000_0000,
            i <= m.entry_views().len(),
            buf@ == old(buf)@ + serialize(entry_messages(tag, m.entry_views().subrange(0, i as int))),
            forall|j: int| 0 <= j < i ==> entry_ok(#[trigger] m.entry_views()[j]),
        decreases m.entry_views().len() - i,
    {
        let (k, v) = m.entry(i);
        let enc = encode_pair(k, v);
        let ghost before = entry_messages(tag, m.entry_views().subrange(0, i as int));
        put_bytes_field(buf, tag, enc.as_slice());
        proof {
            let f = message_field(tag, enc@);
            assert(m.entry_views()[i as int] == (k@, v@));
            assert(entry_ok(m.entry_views()[i as int]));
            assert(entry_messages(tag, m.entry_views().subrange(0, i + 1)) =~= before + seq![f]);
            lemma_serialize_append(before, seq![f]);
            lemma_serialize_one(f);
        }
        i = i + 1;
    }
    assert(m.entry_views().subrange(0, i as int) =~= m.entry_views());
}

fn get_entries(fields: &Vec<RawField>, tag: u32) -> (r: Option<StrMap>)
    ensures
        match all_data(raw_views(fields@), tag) {
            Some(ds) => match decode_entries(ds) {
                Some(es) => r matches Some(m) && m.wf() && m.entry_views() == es,
                None => r is None,
            },
            None => r is None,
        },
{
    let ds = match get_all_data(fields, tag) {
        Some(d) => d,
        None => return None,
    };
    let ghost dv = all_data(raw_views(fields@), tag)->0;
    let mut m = StrMap::new();
    assert(m.entry_views() =~= Seq::empty());
    let mut k: usize = 0;
    while k < ds.len()
        invariant
            all_data(raw_views(fields@), tag) == Some(dv),
            k <= ds@.len(),
            ds@.len() == dv.len(),
            forall|j: int| 0 <= j < dv.len() ==> (#[trigger] ds@[j])@ == dv[j],
            m.wf(),
            decode_entries(dv.subrange(0, k as int)) == Some(m.entry_views()),
        decreases ds.len() - k,
    {
        proof {
            assert(dv.subrange(0, k + 1).drop_last() =~= dv.subrange(0, k as int));
            assert(dv.subrange(0, k + 1).last() == ds@[k as int]@);
        }
        match decode_pair(ds[k].as_slice()) {
            Some((key, value)) => {
                m.insert(key, value);
            },
            None => {
                proof {
                    lemma_decode_entries_prefix(dv, k as int + 1);
                }
                return None;
            },
        }
        k = k + 1;
    }
    assert(dv.subrange(0, k as int) =~= dv);
    Some(m)
}

proof fn lemma_decode_entries_prefix(ds: Seq<Seq<u8>>, n: int)
    requires
        0 <= n <= ds.len(),
        decode_entries(ds.subrange(0, n)) is None,
    ensures
        decode_entries(ds) is None,
    decreases ds.len() - n,
{
    if n < ds.len() {
        assert(ds.subrange(0, n + 1).drop_last() =~= ds.subrange(0, n));
        lemma_decode_entries_prefix(ds, n + 1);
    } else {
        assert(ds.subrange(0, n) =~= ds);
    }
}

// ---- Schema fields: name (2), id (3), parent id (4), logical type (5),
// nullable (6), metadata (10), storage class (12).

pub open spec fn storage_class_code(c: StorageClass) -> u64 {
    match c {
        StorageClass::Default => 0,
        StorageClass::Blob => 1,
    }
}

pub open spec fn storage_class_of(n: u64) -> Option<StorageClass> {
    if n == 0 {
        Some(StorageClass::Default)
    } else if n == 1 {
        Some(StorageClass::Blob)
    } else {
        None
    }
}

pub open spec fn field_fields(f: FieldView) -> Seq<WireField> {
    bytes_field(2, encode_utf8(f.name))
        + varint_field(3, i32_bits(f.id))
        + varint_field(4, i32_bits(f.parent_id))
        + bytes_field(5, encode_utf8(f.logical_type))
        + varint_field(6, if f.nullable { 1 } else { 0 })
        + entry_messages(10, f.metadata)
        + varint_field(12, storage_class_code(f.storage_class))
}

pub open spec fn i32_field(fs: Seq<WireField>, tag: u32) -> Option<i32> {
    match last_number(fs, tag) {
        Some(n) => i32_from_bits(n),
        None => None,
    }
}

pub open spec fn field_decode(bytes: Seq<u8>) -> Option<FieldView> {
    match parse_fields(bytes) {
        None => None,
        Some(fs) => match (
            text_of_field(fs, 2),
            i32_field(fs, 3),
            i32_field(fs, 4),
            text_of_field(fs, 5),
            last_number(fs, 6),
            all_data(fs, 10),
            last_number(fs, 12),
        ) {
            (Some(name), Some(id), Some(parent_id), Some(logical_type), Some(nullable), Some(md), Some(class)) => {
                match (decode_entries(md), storage_class_of(class)) {
                    (Some(metadata), Some(storage_class)) => Some(FieldView {
                        name,
                        id,
                        parent_id,
                        logical_type,
                        nullable: nullable != 0,
                        storage_class,
                        metadata,
                    }),
                    _ => None,
                }
            },
            _ => None,
        },
    }
}

fn get_i32(fields: &Vec<RawField>, tag: u32) -> (r: Option<i32>)
    ensures
        r == i32_field(raw_views(fields@), tag),
{
    match get_number(fields, tag) {
        Some(n) => from_i32_bits(n),
        None => None,
    }
}

pub fn encode_field(f: &Field) -> (r: Vec<u8>)
    ensures
        r@ == serialize(field_fields(f@)),
        f.wf() ==> field_ok(f@),
{
    let mut buf: Vec<u8> = Vec::new();
    put_string(&mut buf, 2, &f.name);
    let ghost a = bytes_field(2, encode_utf8(f.name@));
    put_number(&mut buf, 3, to_i32_bits(f.id));
    proof { lemma_serialize_append(a, varint_field(3, i32_bits(f.id))); }
    let ghost b = a + varint_field(3, i32_bits(f.id));
    put_number(&mut buf, 4, to_i32_bits(f.parent_id));
    proof { lemma_serialize_append(b, varint_field(4, i32_bits(f.parent_id))); }
    let ghost c = b + varint_field(4, i32_bits(f.parent_id));
    put_string(&mut buf, 5, &f.logical_type);
    proof { lemma_serialize_append(c, bytes_field(5, encode_utf8(f.logical_type@))); }
    let ghost d = c + bytes_field(5, encode_utf8(f.logical_type@));
    put_number(&mut buf, 6, if f.nullable { 1 } else { 0 });
    proof { lemma_serialize_append(d, varint_field(6, if f.nullable { 1 } else { 0 })); }
    let ghost e = d + varint_field(6, if f.nullable { 1 } else { 0 });
    put_entries(&mut buf, 10, &f.metadata);
    proof { lemma_serialize_append(e, entry_messages(10, f.metadata.entry_views())); }
    let ghost g = e + entry_messages(10, f.metadata.entry_views());
    let code: u64 = match f.storage_class {
        StorageClass::Default => 0,
        StorageClass::Blob => 1,
    };
    put_number(&mut buf, 12, code);
    proof {
        lemma_serialize_append(g, varint_field(12, code));
        if f.wf() {
            lemma_field_round_trip(f@);
        }
        assert(buf@.len() == buf.len());
    }
    buf
}

pub fn decode_field(bytes: &[u8]) -> (r: Option<Field>)
    ensures
        match field_decode(bytes@) {
            Some(v) => r matches Some(f) && f@ == v && f.wf(),
            None => r is None,
        },
{
    let read = read_fields(bytes);
    let fields = match read {
        Some(f) => f,
        None => return None,
    };
    assert(parse_fields(bytes@) == Some(raw_views(fields@)));
    let name = get_text(&fields, 2);
    let id = get_i32(&fields, 3);
    let parent_id = get_i32(&fields, 4);
    let logical_type = get_text(&fields, 5);
    let nullable = get_number(&fields, 6);
    let metadata = get_entries(&fields, 10);
    let class = get_number(&fields, 12);
    match (name, id, parent_id, logical_type, nullable, metadata, class) {
        (Some(name), Some(id), Some(parent_id), Some(logical_type), Some(nullable), Some(metadata), Some(class)) => {
            let storage_class = if class == 0 {
                StorageClass::Default
            } else if class == 1 {
                StorageClass::Blob
            } else {
                return None;
            };
            Some(Field { name, id, parent_id, logical_type, nullable: nullable != 0, storage_class, metadata })
        },
        _ => None,
    }
}

// ---- Manifests.

pub open spec fn opt_number(tag: u32, v: Option<u64>) -> Seq<WireField> {
    match v {
        Some(n) => seq![number_field(tag, n)],
        None => Seq::empty(),
    }
}

pub open spec fn opt_text(s: Option<String>) -> Seq<char> {
    match s {
        Some(s) => s@,
        None => Seq::empty(),
    }
}

/// The encoding of a set timestamp.
pub open spec fn timestamp_data(ts: u128) -> Option<Seq<u8>> {
    if ts == 0 { None } else { Some(serialize(timestamp_fields(ts))) }
}

pub open spec fn max_fragment_value(m: Option<u32>) -> Option<u64> {
    match m {
        Some(x) => Some(x as u64),
        None => None,
    }
}

/// The data storage format field, which is always written.
pub open spec fn format_field(f: DataStorageFormat) -> Seq<WireField> {
    seq![message_field(15, serialize(pair_fields(f.file_format@, f.version@)))]
}

pub open spec fn writer_version_data(w: Option<WriterVersion>) -> Option<Seq<u8>> {
    match w {
        Some(w) => Some(serialize(pair_fields(w.library@, w.version@))),
        None => None,
    }
}

pub open spec fn nanos_per_second() -> int {
    1_000_000_000
}

/// The seconds and residual nanoseconds of a timestamp, as varint fields.
pub open spec fn timestamp_fields(ts: u128) -> Seq<WireField> {
    varint_field(1, ((ts as int / nanos_per_second()) % 0x1_0000_0000_0000_0000) as u64)
        + varint_field(2, (ts as int % nanos_per_second()) as u64)
}

pub open spec fn field_messages(fs: Seq<FieldView>) -> Seq<WireField> {
    fs.map_values(|f: FieldView| message_field(1, serialize(field_fields(f))))
}

pub open spec fn fragment_messages(fs: Seq<FragmentView>) -> Seq<WireField> {
    fs.map_values(|f: FragmentView| message_field(2, serialize(fragment_fields(f))))
}

/// The fields of a manifest on the wire.
pub open spec fn manifest_fields(m: Manifest) -> Seq<WireField> {
    field_messages(m.schema@.fields)
        + fragment_messages(fragment_views(m.fragments@))
        + varint_field(3, m.version)
        + varint_field(4, m.version_aux_data)
        + entry_messages(5, m.schema@.metadata)
        + opt_number(6, m.index_section)
        + opt_message(7, timestamp_data(m.timestamp_nanos))
        + bytes_field(8, encode_utf8(opt_text(m.tag)))
        + varint_field(9, m.reader_feature_flags)
        + varint_field(10, m.writer_feature_flags)
        + opt_number(11, max_fragment_value(m.max_fragment_id))
        + bytes_field(12, encode_utf8(opt_text(m.transaction_file)))
        + opt_message(13, writer_version_data(m.writer_version))
        + varint_field(14, m.next_row_id)
        + format_field(m.data_storage_format)
        + entry_messages(16, m.config.entry_views())
        + varint_field(17, rows_value(m.blob_dataset_version))
}

fn put_opt_number(buf: &mut Vec<u8>, tag: u32, v: Option<u64>)
    requires
        1 <= tag < 0x2000_0000,
    ensures
        final(buf)@ == old(buf)@ + serialize(opt_number(tag, v)),
{
    match v {
        Some(n) => {
            put_varint_field(buf, tag, n);
            proof { lemma_serialize_one(number_field(tag, n)); }
        },
        None => {
            assert(old(buf)@ =~= old(buf)@ + serialize(Seq::<WireField>::empty()));
        },
    }
}

fn put_opt_message(buf: &mut Vec<u8>, tag: u32, data: Option<Vec<u8>>)
    requires
        1 <= tag < 0x2000_0000,
    ensures
        final(buf)@ == old(buf)@ + serialize(opt_message(tag, match data { Some(d) => Some(d@), None => None })),
{
    match data {
        Some(d) => {
            put_bytes_field(buf, tag, d.as_slice());
            proof { lemma_serialize_one(message_field(tag, d@)); }
        },
        None => {
            assert(old(buf)@ =~= old(buf)@ + serialize(Seq::<WireField>::empty()));
        },
    }
}

fn empty_if_none(s: &Option<String>) -> (r: String)
    ensures
        r@ == opt_text(*s),
{
    match s {
        Some(s) => s.clone(),
        None => String::new(),
    }
}

fn encode_timestamp(ts: u128) -> (r: Vec<u8>)
    ensures
        r@ == serialize(timestamp_fields(ts)),
        r@.len() <= u64::MAX,
        (ts as int) < 0x1_0000_0000_0000_0000 * nanos_per_second() ==> timestamp_decode(Some(r@)) == Some(ts as int),
{
    let mut buf: Vec<u8> = Vec::new();
    let secs = ((ts / 1_000_000_000) % 0x1_0000_0000_0000_0000u128) as u64;
    let nanos = (ts % 1_000_000_000) as u64;
    put_number(&mut buf, 1, secs);
    put_number(&mut buf, 2, nanos);
    proof {
        lemma_serialize_append(
            varint_field(1, ((ts as int / nanos_per_second()) % 0x1_0000_0000_0000_0000) as u64),
            varint_field(2, (ts as int % nanos_per_second()) as u64),
        );
        lemma_timestamp_round_trip(ts);
        assert(buf@.len() == buf.len());
        if (ts as int) < 0x1_0000_0000_0000_0000 * nanos_per_second() {
            let q = ts as int / nanos_per_second();
            assert(q < 0x1_0000_0000_0000_0000) by (nonlinear_arith)
                requires q == ts as int / nanos_per_second(), (ts as int) < 0x1_0000_0000_0000_0000 * nanos_per_second(),
                    nanos_per_second() == 1_000_000_000, ts >= 0;
            assert(q % 0x1_0000_0000_0000_0000 == q);
            assert(q * nanos_per_second() + ts as int % nanos_per_second() == ts as int) by (nonlinear_arith)
                requires q == ts as int / nanos_per_second(), nanos_per_second() == 1_000_000_000;
        }
    }
    buf
}

impl Manifest {
    /// The manifest's wire encoding. A manifest that keeps the data
    /// model's rules reads back from it as itself.
    pub fn serialized(&self) -> (r: Vec<u8>)
        ensures
            r@ == serialize(manifest_fields(*self)),
            canonical(*self) ==> manifest_decode(r@) == Ok::<ManifestParts, DecodeFailure>(parts_of(*self)),
    {
        let mut buf: Vec<u8> = Vec::new();
        let ghost mut acc: Seq<WireField> = Seq::empty();
        let mut i: usize = 0;
        while i < self.schema.fields.len()
            invariant
                i <= self.schema.fields@.len(),
                buf@ == serialize(field_messages(field_views(self.schema.fields@).subrange(0, i as int))),
                forall|k: int| 0 <= k < i ==> (self.schema.wf() ==> field_ok(#[trigger] field_views(self.schema.fields@)[k])),
            decreases self.schema.fields.len() - i,
        {
            let ghost before = field_messages(field_views(self.schema.fields@).subrange(0, i as int));
            let enc = encode_field(&self.schema.fields[i]);
            assert(field_views(self.schema.fields@)[i as int] == self.schema.fields@[i as int]@);
            put_bytes_field(&mut buf, 1, enc.as_slice());
            proof {
                let f = message_field(1, enc@);
                assert(field_messages(field_views(self.schema.fields@).subrange(0, i + 1)) =~= before + seq![f]);
                lemma_serialize_append(before, seq![f]);
                lemma_serialize_one(f);
            }
            i = i + 1;
        }
        assert(field_views(self.schema.fields@).subrange(0, i as int) =~= self.schema@.fields);
        proof { acc = field_messages(self.schema@.fields); }
        let mut j: usize = 0;
        while j < self.fragments.len()
            invariant
                j <= self.fragments@.len(),
                buf@ == serialize(acc + fragment_messages(fragment_views(self.fragments@).subrange(0, j as int))),
                forall|k: int| 0 <= k < j ==> ((#[trigger] fragment_views(self.fragments@)[k]).physical_rows != Some(0u64)
                    ==> fragment_ok(fragment_views(self.fragments@)[k])),
            decreases self.fragments.len() - j,
        {
            let ghost before = acc + fragment_messages(fragment_views(self.fragments@).subrange(0, j as int));
            let enc = encode_fragment(&self.fragments[j]);
            assert(fragment_views(self.fragments@)[j as int] == self.fragments@[j as int]@);
            put_bytes_field(&mut buf, 2, enc.as_slice());
            proof {
                let f = message_field(2, enc@);
                assert(acc + fragment_messages(fragment_views(self.fragments@).subrange(0, j + 1)) =~= before + seq![f]);
                lemma_serialize_append(before, seq![f]);
                lemma_serialize_one(f);
            }
            j = j + 1;
        }
        assert(fragment_views(self.fragments@).subrange(0, j as int) =~= fragment_views(self.fragments@));
        proof { acc = acc + fragment_messages(fragment_views(self.fragments@)); }

        put_number(&mut buf, 3, self.version);
        proof { lemma_serialize_append(acc, varint_field(3, self.version)); acc = acc + varint_field(3, self.version); }
        put_number(&mut buf, 4, self.version_aux_data);
        proof { lemma_serialize_append(acc, varint_field(4, self.version_aux_data)); acc = acc + varint_field(4, self.version_aux_data); }
        put_entries(&mut buf, 5, &self.schema.metadata);
        proof { lemma_serialize_append(acc, entry_messages(5, self.schema@.metadata)); acc = acc + entry_messages(5, self.schema@.metadata); }
        put_opt_number(&mut buf, 6, self.index_section);
        proof { lemma_serialize_append(acc, opt_number(6, self.index_section)); acc = acc + opt_number(6, self.index_section); }
        let ts = if self.timestamp_nanos == 0 { None } else { Some(encode_timestamp(self.timestamp_nanos)) };
        put_opt_message(&mut buf, 7, ts);
        proof {
            let p = opt_message(7, timestamp_data(self.timestamp_nanos));
            lemma_serialize_append(acc, p);
            acc = acc + p;
        }
        put_string(&mut buf, 8, &empty_if_none(&self.tag));
        proof { let p = bytes_field(8, encode_utf8(opt_text(self.tag))); lemma_serialize_append(acc, p); acc = acc + p; }
        put_number(&mut buf, 9, self.reader_feature_flags);
        proof { lemma_serialize_append(acc, varint_field(9, self.reader_feature_flags)); acc = acc + varint_field(9, self.reader_feature_flags); }
        put_number(&mut buf, 10, self.writer_feature_flags);
        proof { lemma_serialize_append(acc, varint_field(10, self.writer_feature_flags)); acc = acc + varint_field(10, self.writer_feature_flags); }
        let mf = match self.max_fragment_id { Some(x) => Some(x as u64), None => None };
        put_opt_number(&mut buf, 11, mf);
        proof { lemma_serialize_append(acc, opt_number(11, mf)); acc = acc + opt_number(11, mf); assert(mf == max_fragment_value(self.max_fragment_id)); }
        put_string(&mut buf, 12, &empty_if_none(&self.transaction_file));
        proof { let p = bytes_field(12, encode_utf8(opt_text(self.transaction_file))); lemma_serialize_append(acc, p); acc = acc + p; }
        let wv = match &self.writer_version { Some(w) => Some(encode_pair(&w.library, &w.version)), None => None };
        put_opt_message(&mut buf, 13, wv);
        proof {
            let p = opt_message(13, writer_version_data(self.writer_version));
            lemma_serialize_append(acc, p);
            acc = acc + p;
        }
        put_number(&mut buf, 14, self.next_row_id);
        proof { lemma_serialize_append(acc, varint_field(14, self.next_row_id)); acc = acc + varint_field(14, self.next_row_id); }
        let df = encode_pair(&self.data_storage_format.file_format, &self.data_storage_format.version);
        put_bytes_field(&mut buf, 15, df.as_slice());
        proof {
            let p = format_field(self.data_storage_format);
            lemma_serialize_one(message_field(15, df@));
            lemma_serialize_append(acc, p);
            acc = acc + p;
        }
        put_entries(&mut buf, 16, &self.config);
        proof { lemma_serialize_append(acc, entry_messages(16, self.config.entry_views())); acc = acc + entry_messages(16, self.config.entry_views()); }
        let blob = match self.blob_dataset_version { Some(v) => v, None => 0 };
        put_number(&mut buf, 17, blob);
        proof {
            lemma_serialize_append(acc, varint_field(17, blob));
            acc = acc + varint_field(17, blob);
            assert(acc =~= manifest_fields(*self));
            if canonical(*self) {
                assert forall|k: int| 0 <= k < self.schema@.fields.len() implies field_ok(#[trigger] self.schema@.fields[k]) by {}
                assert forall|k: int| 0 <= k < self.fragments@.len() implies fragment_ok(#[trigger] fragment_views(self.fragments@)[k]) by {
                    assert(fragment_views(self.fragments@)[k] == self.fragments@[k]@);
                }
                lemma_manifest_round_trip(*self);
            }
        }
        buf
    }
}

/// The message of the error for a fragment without the row-id metadata that
/// the reader flags demand.
pub const MISSING_ROW_IDS: &'static str = "All fragments must have row ids";

/// Why a manifest fails to decode.
pub enum DecodeFailure {
    /// The bytes are not a manifest.
    Invalid,
    /// A fragment lacks the row-id metadata that the reader flags demand.
    MissingRowIds,
}

/// What a manifest's bytes describe.
pub ghost struct ManifestParts {
    pub fields: Seq<FieldView>,
    pub metadata: Seq<(Seq<char>, Seq<char>)>,
    pub fragments: Seq<FragmentView>,
    pub version: u64,
    pub version_aux_data: u64,
    pub index_section: Option<u64>,
    pub timestamp_nanos: int,
    pub tag: Option<Seq<char>>,
    pub reader_feature_flags: u64,
    pub writer_feature_flags: u64,
    pub max_fragment_id: Option<u32>,
    pub transaction_file: Option<Seq<char>>,
    pub writer_version: Option<(Seq<char>, Seq<char>)>,
    pub next_row_id: u64,
    pub data_format: (Seq<char>, Seq<char>),
    pub config: Seq<(Seq<char>, Seq<char>)>,
    pub blob_dataset_version: Option<u64>,
}

pub open spec fn decode_field_list(ds: Seq<Seq<u8>>) -> Option<Seq<FieldView>>
    decreases ds.len(),
{
    if ds.len() == 0 {
        Some(Seq::empty())
    } else {
        match (decode_field_list(ds.drop_last()), field_decode(ds.last())) {
            (Some(a), Some(f)) => Some(a.push(f)),
            _ => None,
        }
    }
}

pub open spec fn decode_fragment_list(ds: Seq<Seq<u8>>) -> Option<Seq<FragmentView>>
    decreases ds.len(),
{
    if ds.len() == 0 {
        Some(Seq::empty())
    } else {
        match (decode_fragment_list(ds.drop_last()), fragment_decode(ds.last())) {
            (Some(a), Some(f)) => Some(a.push(f)),
            _ => None,
        }
    }
}

/// The timestamp in nanoseconds that an encoded timestamp gives: 0 where absent.
pub open spec fn timestamp_decode(d: Option<Seq<u8>>) -> Option<int> {
    match d {
        None => Some(0),
        Some(b) => match parse_fields(b) {
            Some(fs) => match (last_number(fs, 1), last_number(fs, 2)) {
                (Some(secs), Some(nanos)) => Some(secs as int * nanos_per_second() + nanos as int),
                _ => None,
            },
            None => None,
        },
    }
}

/// A writer version counts only where both its library and its version are set.
pub open spec fn fully_set(p: Option<(Seq<char>, Seq<char>)>) -> Option<(Seq<char>, Seq<char>)> {
    match p {
        Some((l, v)) => if l.len() > 0 && v.len() > 0 { Some((l, v)) } else { None },
        None => None,
    }
}

fn is_empty_text(s: &String) -> (r: bool)
    ensures
        r == (s@.len() == 0),
{
    let empty = String::new();
    proof {
        if s@.len() == 0 {
            assert(s@ =~= empty@);
        }
    }
    *s == empty
}

/// A text field where the empty string means none.
pub open spec fn nonempty_text(t: Seq<char>) -> Option<Seq<char>> {
    if t.len() == 0 { None } else { Some(t) }
}

/// The decoded optional two-string message under a field: `Some(None)` where absent.
pub open spec fn opt_pair(d: Option<Seq<u8>>) -> Option<Option<(Seq<char>, Seq<char>)>> {
    match d {
        None => Some(None),
        Some(b) => match pair_decode(b) {
            Some(p) => Some(Some(p)),
            None => None,
        },
    }
}

pub open spec fn u32_opt(v: Option<u64>) -> Option<Option<u32>> {
    match v {
        None => Some(None),
        Some(n) => if n <= u32::MAX { Some(Some(n as u32)) } else { None },
    }
}

/// What the wire fields of a manifest say, before the checks across fields.
pub open spec fn manifest_wire(fs: Seq<WireField>) -> Option<ManifestParts> {
    match (all_data(fs, 1), all_data(fs, 2), last_number(fs, 3), last_number(fs, 4), all_data(fs, 5),
        last_opt_number(fs, 6), last_data(fs, 7), text_of_field(fs, 8)) {
        (Some(fd), Some(gd), Some(version), Some(aux), Some(md), Some(index_section), Some(ts), Some(tag)) =>
        match (last_number(fs, 9), last_number(fs, 10), last_opt_number(fs, 11), text_of_field(fs, 12),
            last_data(fs, 13), last_number(fs, 14), last_data(fs, 15), all_data(fs, 16), last_number(fs, 17)) {
            (Some(rff), Some(wff), Some(mf), Some(tx), Some(wv), Some(next_row_id), Some(df), Some(cd), Some(blob)) =>
            match (decode_field_list(fd), decode_fragment_list(gd), decode_entries(md), timestamp_decode(ts),
                u32_opt(mf), opt_pair(wv), opt_pair(df), decode_entries(cd)) {
                (Some(fields), Some(fragments), Some(metadata), Some(nanos), Some(max_fragment_id), Some(writer_version),
                    Some(data_format), Some(config)) => Some(ManifestParts {
                    fields,
                    metadata,
                    fragments,
                    version,
                    version_aux_data: aux,
                    index_section,
                    timestamp_nanos: nanos,
                    tag: nonempty_text(tag),
                    reader_feature_flags: rff,
                    writer_feature_flags: wff,
                    max_fragment_id,
                    transaction_file: nonempty_text(tx),
                    writer_version: fully_set(writer_version),
                    next_row_id,
                    data_format: match data_format {
                        Some(p) => p,
                        None => (Seq::empty(), Seq::empty()),
                    },
                    config,
                    blob_dataset_version: if blob == 0 { None } else { Some(blob) },
                }),
                _ => None,
            },
            _ => None,
        },
        _ => None,
    }
}

/// Whether the data format field was present.
pub open spec fn has_data_format(fs: Seq<WireField>) -> bool {
    last_data(fs, 15) matches Some(Some(_))
}

/// The storage format a manifest without one is taken to have.
pub open spec fn inferred_format(fragments: Seq<FragmentView>, writer_flags: u64) -> Option<(Seq<char>, Seq<char>)> {
    match infer_version(fragments) {
        Err(_) => None,
        Ok(Some(v)) => Some((crate::manifest::LANCE_FORMAT_NAME@, version_name(v))),
        Ok(None) => Some((crate::manifest::LANCE_FORMAT_NAME@, version_name(
            if writer_flags & crate::manifest::FLAG_USE_V2_FORMAT_DEPRECATED != 0 {
                LanceFileVersion::V2_0
            } else {
                LanceFileVersion::Legacy
            },
        ))),
    }
}

/// The manifest that `bytes` encode, or why they do not encode one.
pub open spec fn manifest_decode(bytes: Seq<u8>) -> Result<ManifestParts, DecodeFailure> {
    match parse_fields(bytes) {
        None => Err(DecodeFailure::Invalid),
        Some(fs) => match manifest_wire(fs) {
            None => Err(DecodeFailure::Invalid),
            Some(p) => if p.reader_feature_flags & FLAG_MOVE_STABLE_ROW_IDS != 0 && exists|i: int|
                0 <= i < p.fragments.len() && (#[trigger] p.fragments[i]).row_id_meta is None {
                Err(DecodeFailure::MissingRowIds)
            } else if has_data_format(fs) {
                if prefix_rows(p.fragments, p.fragments.len() as int) <= u64::MAX { Ok(p) } else { Err(DecodeFailure::Invalid) }
            } else {
                match inferred_format(p.fragments, p.writer_feature_flags) {
                    None => Err(DecodeFailure::Invalid),
                    Some(f) => if prefix_rows(p.fragments, p.fragments.len() as int) <= u64::MAX {
                        Ok(ManifestParts { data_format: f, ..p })
                    } else {
                        Err(DecodeFailure::Invalid)
                    },
                }
            },
        },
    }
}

/// What a manifest value holds, in the terms of `ManifestParts`.
pub open spec fn parts_of(m: Manifest) -> ManifestParts {
    ManifestParts {
        fields: m.schema@.fields,
        metadata: m.schema@.metadata,
        fragments: fragment_views(m.fragments@),
        version: m.version,
        version_aux_data: m.version_aux_data,
        index_section: m.index_section,
        timestamp_nanos: m.timestamp_nanos as int,
        tag: match m.tag { Some(t) => Some(t@), None => None },
        reader_feature_flags: m.reader_feature_flags,
        writer_feature_flags: m.writer_feature_flags,
        max_fragment_id: m.max_fragment_id,
        transaction_file: match m.transaction_file { Some(t) => Some(t@), None => None },
        writer_version: match m.writer_version { Some(w) => Some((w.library@, w.version@)), None => None },
        next_row_id: m.next_row_id,
        data_format: (m.data_storage_format.file_format@, m.data_storage_format.version@),
        config: m.config.entry_views(),
        blob_dataset_version: m.blob_dataset_version,
    }
}

fn decode_field_vec(ds: &Vec<Vec<u8>>) -> (r: Option<Vec<Field>>)
    ensures
        match decode_field_list(byte_views(ds@)) {
            Some(v) => r matches Some(x) && field_views(x@) == v && forall|k: int| 0 <= k < x@.len() ==> (#[trigger] x@[k]).wf(),
            None => r is None,
        },
{
    let ghost dv = byte_views(ds@);
    let mut out: Vec<Field> = Vec::new();
    let mut k: usize = 0;
    while k < ds.len()
        invariant
            k <= ds@.len(),
            dv == byte_views(ds@),
            decode_field_list(dv.subrange(0, k as int)) == Some(field_views(out@)),
            forall|j: int| 0 <= j < out@.len() ==> (#[trigger] out@[j]).wf(),
        decreases ds.len() - k,
    {
        proof {
            assert(dv.subrange(0, k + 1).drop_last() =~= dv.subrange(0, k as int));
            assert(dv.subrange(0, k + 1).last() == ds@[k as int]@);
        }
        match decode_field(ds[k].as_slice()) {
            Some(f) => {
                let ghost before = out@;
                out.push(f);
                proof {
                    assert(field_views(out@) =~= field_views(before).push(f@));
                }
            },
            None => {
                proof {
                    lemma_decode_field_list_prefix(dv, k as int + 1);
                }
                return None;
            },
        }
        k = k + 1;
    }
    assert(dv.subrange(0, k as int) =~= dv);
    Some(out)
}

proof fn lemma_decode_field_list_prefix(ds: Seq<Seq<u8>>, n: int)
    requires
        0 <= n <= ds.len(),
        decode_field_list(ds.subrange(0, n)) is None,
    ensures
        decode_field_list(ds) is None,
    decreases ds.len() - n,
{
    if n < ds.len() {
        assert(ds.subrange(0, n + 1).drop_last() =~= ds.subrange(0, n));
        lemma_decode_field_list_prefix(ds, n + 1);
    } else {
        assert(ds.subrange(0, n) =~= ds);
    }
}

fn decode_fragment_vec(ds: &Vec<Vec<u8>>) -> (r: Option<Vec<Fragment>>)
    ensures
        match decode_fragment_list(byte_views(ds@)) {
            Some(v) => r matches Some(x) && fragment_views(x@) == v,
            None => r is None,
        },
{
    let ghost dv = byte_views(ds@);
    let mut out: Vec<Fragment> = Vec::new();
    let mut k: usize = 0;
    while k < ds.len()
        invariant
            k <= ds@.len(),
            dv == byte_views(ds@),
            decode_fragment_list(dv.subrange(0, k as int)) == Some(fragment_views(out@)),
        decreases ds.len() - k,
    {
        proof {
            assert(dv.subrange(0, k + 1).drop_last() =~= dv.subrange(0, k as int));
            assert(dv.subrange(0, k + 1).last() == ds@[k as int]@);
        }
        match decode_fragment(ds[k].as_slice()) {
            Some(f) => {
                let ghost before = out@;
                out.push(f);
                proof {
                    assert(fragment_views(out@) =~= fragment_views(before).push(f@));
                }
            },
            None => {
                proof {
                    lemma_decode_fragment_list_prefix(dv, k as int + 1);
                }
                return None;
            },
        }
        k = k + 1;
    }
    assert(dv.subrange(0, k as int) =~= dv);
    Some(out)
}

proof fn lemma_decode_fragment_list_prefix(ds: Seq<Seq<u8>>, n: int)
    requires
        0 <= n <= ds.len(),
        decode_fragment_list(ds.subrange(0, n)) is None,
    ensures
        decode_fragment_list(ds) is None,
    decreases ds.len() - n,
{
    if n < ds.len() {
        assert(ds.subrange(0, n + 1).drop_last() =~= ds.subrange(0, n));
        lemma_decode_fragment_list_prefix(ds, n + 1);
    } else {
        assert(ds.subrange(0, n) =~= ds);
    }
}

fn decode_timestamp(d: &Option<Vec<u8>>) -> (r: Option<u128>)
    ensures
        match timestamp_decode(match d { Some(v) => Some(v@), None => None }) {
            Some(n) => r == Some(n as u128) && 0 <= n <= u128::MAX,
            None => r is None,
        },
{
    match d {
        None => Some(0),
        Some(b) => {
            let read = read_fields(b.as_slice());
            let fields = match read {
                Some(f) => f,
                None => return None,
            };
            assert(parse_fields(b@) == Some(raw_views(fields@)));
            match (get_number(&fields, 1), get_number(&fields, 2)) {
                (Some(secs), Some(nanos)) => {
                    assert(secs as int * 1_000_000_000 + nanos as int <= u128::MAX) by (nonlinear_arith)
                        requires secs <= u64::MAX, nanos <= u64::MAX;
                    Some(secs as u128 * 1_000_000_000 + nanos as u128)
                },
                _ => None,
            }
        },
    }
}

fn decode_opt_pair(d: &Option<Vec<u8>>) -> (r: Option<Option<(String, String)>>)
    ensures
        match opt_pair(match d { Some(v) => Some(v@), None => None }) {
            Some(None) => r == Some(None::<(String, String)>),
            Some(Some((a, b))) => r matches Some(Some((x, y))) && x@ == a && y@ == b,
            None => r is None,
        },
{
    match d {
        None => Some(None),
        Some(b) => match decode_pair(b.as_slice()) {
            Some(p) => Some(Some(p)),
            None => None,
        },
    }
}

fn text_option(t: String) -> (r: Option<String>)
    ensures
        match nonempty_text(t@) {
            Some(x) => r matches Some(s) && s@ == x,
            None => r is None,
        },
{
    let empty = String::new();
    proof {
        if t@.len() == 0 {
            assert(t@ =~= empty@);
        }
    }
    if t == empty {
        None
    } else {
        Some(t)
    }
}

/// The sum of the row counts of the fragments, where it fits in 64 bits.
fn total_rows(fragments: &Vec<Fragment>) -> (r: Option<u64>)
    ensures
        match r {
            Some(t) => t as int == prefix_rows(fragment_views(fragments@), fragments@.len() as int),
            None => prefix_rows(fragment_views(fragments@), fragments@.len() as int) > u64::MAX,
        },
{
    let ghost fs = fragment_views(fragments@);
    let mut total: u64 = 0;
    let mut i: usize = 0;
    while i < fragments.len()
        invariant
            i <= fragments.len(),
            fs == fragment_views(fragments@),
            total as int == prefix_rows(fs, i as int),
        decreases fragments.len() - i,
    {
        assert(fs[i as int] == fragments@[i as int]@);
        let n = match fragments[i].num_rows() {
            Some(n) => n,
            None => 0,
        };
        if n > u64::MAX - total {
            proof {
                crate::manifest::lemma_prefix_rows_monotone(fs, i + 1, fragments@.len() as int);
            }
            return None;
        }
        total = total + n;
        i = i + 1;
    }
    Some(total)
}

fn invalid_manifest() -> (r: Error)
    ensures
        r.is_invalid_input(),
{
    Error::InvalidInput("Failed to decode manifest".to_owned())
}

fn missing_row_ids(fragments: &Vec<Fragment>) -> (r: bool)
    ensures
        r == exists|i: int| 0 <= i < fragments@.len() && (#[trigger] fragment_views(fragments@)[i]).row_id_meta is None,
{
    let mut i: usize = 0;
    while i < fragments.len()
        invariant
            i <= fragments.len(),
            forall|j: int| 0 <= j < i ==> (#[trigger] fragment_views(fragments@)[j]).row_id_meta is Some,
        decreases fragments.len() - i,
    {
        if fragments[i].row_id_meta.is_none() {
            assert(fragment_views(fragments@)[i as int].row_id_meta is None);
            return true;
        }
        i = i + 1;
    }
    false
}

impl Manifest {
    /// Decodes a manifest from its wire encoding, recomputing the local
    /// schema and the fragment offsets.
    pub fn from_serialized(bytes: &[u8]) -> (r: Result<Manifest, Error>)
        ensures
            match manifest_decode(bytes@) {
                Ok(p) => r matches Ok(m) && m.wf() && parts_of(m) == p,
                Err(DecodeFailure::Invalid) => r matches Err(e) && e.is_invalid_input(),
                Err(DecodeFailure::MissingRowIds) => r matches Err(Error::Internal(msg)) && msg@ == MISSING_ROW_IDS@,
            },
    {
        let read = read_fields(bytes);
        let fields = match read {
            Some(f) => f,
            None => return Err(invalid_manifest()),
        };
        let ghost fs = raw_views(fields@);
        assert(parse_fields(bytes@) == Some(fs));
        let fd = get_all_data(&fields, 1);
        let gd = get_all_data(&fields, 2);
        let version = get_number(&fields, 3);
        let aux = get_number(&fields, 4);
        let md = get_entries(&fields, 5);
        let index_section = get_opt_number(&fields, 6);
        let ts = get_data(&fields, 7);
        let tag = get_text(&fields, 8);
        let rff = get_number(&fields, 9);
        let wff = get_number(&fields, 10);
        let mf = get_opt_number(&fields, 11);
        let tx = get_text(&fields, 12);
        let wv = get_data(&fields, 13);
        let next_row_id = get_number(&fields, 14);
        let df = get_data(&fields, 15);
        let config = get_entries(&fields, 16);
        let blob = get_number(&fields, 17);
        let (fd, gd, version, aux, metadata, index_section, ts, tag) = match (fd, gd, version, aux, md, index_section, ts, tag) {
            (Some(a), Some(b), Some(c), Some(d), Some(e), Some(f), Some(g), Some(h)) => (a, b, c, d, e, f, g, h),
            _ => return Err(invalid_manifest()),
        };
        let (rff, wff, mf, tx, wv, next_row_id, df, config, blob) = match (rff, wff, mf, tx, wv, next_row_id, df, config, blob) {
            (Some(a), Some(b), Some(c), Some(d), Some(e), Some(f), Some(g), Some(h), Some(k)) => (a, b, c, d, e, f, g, h, k),
            _ => return Err(invalid_manifest()),
        };
        let schema_fields = decode_field_vec(&fd);
        let fragments = decode_fragment_vec(&gd);
        let nanos = decode_timestamp(&ts);
        let max_fragment_id = match mf {
            None => Some(None),
            Some(n) => if n <= 0xFFFF_FFFF { Some(Some(n as u32)) } else { None },
        };
        let writer_version = decode_opt_pair(&wv);
        let data_format = decode_opt_pair(&df);
        let (schema_fields, fragments, nanos, max_fragment_id, writer_version, data_format) =
            match (schema_fields, fragments, nanos, max_fragment_id, writer_version, data_format) {
                (Some(a), Some(b), Some(c), Some(d), Some(e), Some(f)) => (a, b, c, d, e, f),
                _ => return Err(invalid_manifest()),
            };
        let ghost wire = manifest_wire(fs)->0;
        assert(manifest_wire(fs) is Some);
        if rff & FLAG_MOVE_STABLE_ROW_IDS != 0 && missing_row_ids(&fragments) {
            return Err(Error::Internal(MISSING_ROW_IDS.to_owned()));
        }
        let has_format = data_format.is_some();
        let data_storage_format = match data_format {
            Some((file_format, version)) => DataStorageFormat { file_format, version },
            None => match try_infer_version(&fragments) {
                Err(e) => return Err(e),
                Ok(Some(v)) => DataStorageFormat::new(v),
                Ok(None) => if has_deprecated_v2_feature_flag(wff) {
                    DataStorageFormat::new(LanceFileVersion::V2_0)
                } else {
                    DataStorageFormat::new(LanceFileVersion::Legacy)
                },
            },
        };
        assert(has_format == has_data_format(fs));
        match total_rows(&fragments) {
            Some(_) => {},
            None => return Err(invalid_manifest()),
        }
        let schema = Schema { fields: schema_fields, metadata };
        let fragment_offsets = crate::manifest::compute_fragment_offsets(&fragments);
        let local_schema = schema.retain_storage_class(StorageClass::Default);
        let writer_version = match writer_version {
            Some((library, version)) => if is_empty_text(&library) || is_empty_text(&version) {
                None
            } else {
                Some(WriterVersion { library, version })
            },
            None => None,
        };
        let m = Manifest {
            schema,
            local_schema,
            version,
            writer_version,
            fragments,
            version_aux_data: aux,
            index_section,
            timestamp_nanos: nanos,
            tag: text_option(tag),
            reader_feature_flags: rff,
            writer_feature_flags: wff,
            max_fragment_id,
            transaction_file: text_option(tx),
            fragment_offsets,
            next_row_id,
            data_storage_format,
            config,
            blob_dataset_version: if blob == 0 { None } else { Some(blob) },
        };
        proof {
            assert(parts_of(m).fields == wire.fields);
            assert(parts_of(m).fragments == wire.fragments);
        }
        Ok(m)
    }
}

// ---- Version archives.

/// The wire value of a signed 64-bit integer: its two's-complement bits.
pub open spec fn i64_bits(x: i64) -> u64 {
    if x >= 0 {
        x as u64
    } else {
        (x as int + 0x1_0000_0000_0000_0000) as u64
    }
}

/// The signed 64-bit integer whose two's-complement bits are `v`.
pub open spec fn i64_from_bits(v: u64) -> i64 {
    if v < 0x8000_0000_0000_0000 {
        v as i64
    } else {
        (v as int - 0x1_0000_0000_0000_0000) as i64
    }
}

pub fn to_i64_bits(x: i64) -> (r: u64)
    ensures
        r == i64_bits(x),
        i64_from_bits(r) == x,
{
    if x >= 0 {
        x as u64
    } else {
        (x as i128 + 0x1_0000_0000_0000_0000i128) as u64
    }
}

pub fn from_i64_bits(v: u64) -> (r: i64)
    ensures
        r == i64_from_bits(v),
{
    if v < 0x8000_0000_0000_0000 {
        v as i64
    } else {
        (v as i128 - 0x1_0000_0000_0000_0000i128) as i64
    }
}

pub open spec fn opt_text_message(tag: u32, t: Option<Seq<char>>) -> Seq<WireField> {
    match t {
        Some(t) => seq![message_field(tag, encode_utf8(t))],
        None => Seq::empty(),
    }
}

pub open spec fn summary_pieces(v: VersionSummaryView) -> Seq<Seq<WireField>> {
    seq![
        varint_field(1, v.version),
        varint_field(2, i64_bits(v.timestamp_millis)),
        varint_field(3, v.manifest_summary.total_fragments),
        varint_field(4, v.manifest_summary.total_data_files),
        varint_field(5, v.manifest_summary.total_files_size),
        varint_field(6, v.manifest_summary.total_deletion_files),
        varint_field(7, v.manifest_summary.total_data_file_rows),
        varint_field(8, v.manifest_summary.total_deletion_file_rows),
        varint_field(9, v.manifest_summary.total_rows),
        varint_field(10, if v.is_tagged { 1 } else { 0 }),
        varint_field(11, if v.is_cleaned_up { 1 } else { 0 }),
        opt_text_message(12, v.transaction_uuid),
        opt_number(13, v.read_version),
        opt_text_message(14, v.operation_type),
        entry_messages(15, v.transaction_properties),
    ]
}

/// The tags 1 to `n`, in order.
pub open spec fn tags_upto(n: nat) -> Seq<u32> {
    Seq::new(n, |i: int| (i + 1) as u32)
}

pub open spec fn summary_fields(v: VersionSummaryView) -> Seq<WireField> {
    flat(summary_pieces(v))
}

/// The optional text under a field: `Some(None)` where absent.
pub open spec fn opt_text_field(fs: Seq<WireField>, tag: u32) -> Option<Option<Seq<char>>> {
    match last_data(fs, tag) {
        None => None,
        Some(None) => Some(None),
        Some(Some(b)) => if valid_utf8(b) { Some(Some(decode_utf8(b))) } else { None },
    }
}

pub open spec fn summary_decode(bytes: Seq<u8>) -> Option<VersionSummaryView> {
    match parse_fields(bytes) {
        None => None,
        Some(fs) => match (last_number(fs, 1), last_number(fs, 2), last_number(fs, 3), last_number(fs, 4),
            last_number(fs, 5), last_number(fs, 6), last_number(fs, 7), last_number(fs, 8)) {
            (Some(version), Some(ts), Some(a), Some(b), Some(c), Some(d), Some(e), Some(f)) =>
            match (last_number(fs, 9), last_number(fs, 10), last_number(fs, 11), opt_text_field(fs, 12),
                last_opt_number(fs, 13), opt_text_field(fs, 14), all_data(fs, 15)) {
                (Some(g), Some(tagged), Some(cleaned), Some(uuid), Some(read_version), Some(op), Some(pd)) =>
                match decode_entries(pd) {
                    Some(props) => Some(VersionSummaryView {
                        version,
                        timestamp_millis: i64_from_bits(ts),
                        manifest_summary: ManifestSummary {
                            total_fragments: a,
                            total_data_files: b,
                            total_files_size: c,
                            total_deletion_files: d,
                            total_data_file_rows: e,
                            total_deletion_file_rows: f,
                            total_rows: g,
                        },
                        is_tagged: tagged != 0,
                        is_cleaned_up: cleaned != 0,
                        transaction_uuid: uuid,
                        read_version,
                        operation_type: op,
                        transaction_properties: props,
                    }),
                    None => None,
                },
                _ => None,
            },
            _ => None,
        },
    }
}

fn put_opt_text(buf: &mut Vec<u8>, tag: u32, t: &Option<String>)
    requires
        1 <= tag < 0x2000_0000,
    ensures
        final(buf)@ == old(buf)@ + serialize(opt_text_message(tag, opt_string_view(*t))),
        opt_string_view(*t) matches Some(c) ==> encode_utf8(c).len() <= u64::MAX,
{
    match t {
        Some(s) => {
            put_bytes_field(buf, tag, s.as_str().as_bytes());
            proof { lemma_serialize_one(message_field(tag, encode_utf8(s@))); }
        },
        None => {
            assert(old(buf)@ =~= old(buf)@ + serialize(Seq::<WireField>::empty()));
        },
    }
}

proof fn lemma_summary_concat(v: VersionSummaryView)
    ensures
        summary_fields(v) == ({
            let ms = v.manifest_summary;
            ((((((((((((((varint_field(1, v.version) + varint_field(2, i64_bits(v.timestamp_millis))) + varint_field(3, ms.total_fragments)) + varint_field(4, ms.total_data_files)) + varint_field(5, ms.total_files_size)) + varint_field(6, ms.total_deletion_files)) + varint_field(7, ms.total_data_file_rows)) + varint_field(8, ms.total_deletion_file_rows)) + varint_field(9, ms.total_rows)) + varint_field(10, if v.is_tagged { 1u64 } else { 0u64 })) + varint_field(11, if v.is_cleaned_up { 1u64 } else { 0u64 })) + opt_text_message(12, v.transaction_uuid)) + opt_number(13, v.read_version)) + opt_text_message(14, v.operation_type)) + entry_messages(15, v.transaction_properties))
        }),
{
    let ms = v.manifest_summary;
    let mut ps: Seq<Seq<WireField>> = Seq::empty();
    crate::wire::lemma_flat_empty();
    let ghost mut acc: Seq<WireField> = Seq::empty();
    lemma_flat_push(ps, varint_field(1, v.version));
    ps = ps.push(varint_field(1, v.version));
    lemma_flat_push(ps, varint_field(2, i64_bits(v.timestamp_millis)));
    ps = ps.push(varint_field(2, i64_bits(v.timestamp_millis)));
    lemma_flat_push(ps, varint_field(3, ms.total_fragments));
    ps = ps.push(varint_field(3, ms.total_fragments));
    lemma_flat_push(ps, varint_field(4, ms.total_data_files));
    ps = ps.push(varint_field(4, ms.total_data_files));
    lemma_flat_push(ps, varint_field(5, ms.total_files_size));
    ps = ps.push(varint_field(5, ms.total_files_size));
    lemma_flat_push(ps, varint_field(6, ms.total_deletion_files));
    ps = ps.push(varint_field(6, ms.total_deletion_files));
    lemma_flat_push(ps, varint_field(7, ms.total_data_file_rows));
    ps = ps.push(varint_field(7, ms.total_data_file_rows));
    lemma_flat_push(ps, varint_field(8, ms.total_deletion_file_rows));
    ps = ps.push(varint_field(8, ms.total_deletion_file_rows));
    lemma_flat_push(ps, varint_field(9, ms.total_rows));
    ps = ps.push(varint_field(9, ms.total_rows));
    lemma_flat_push(ps, varint_field(10, if v.is_tagged { 1u64 } else { 0u64 }));
    ps = ps.push(varint_field(10, if v.is_tagged { 1u64 } else { 0u64 }));
    lemma_flat_push(ps, varint_field(11, if v.is_cleaned_up { 1u64 } else { 0u64 }));
    ps = ps.push(varint_field(11, if v.is_cleaned_up { 1u64 } else { 0u64 }));
    lemma_flat_push(ps, opt_text_message(12, v.transaction_uuid));
    ps = ps.push(opt_text_message(12, v.transaction_uuid));
    lemma_flat_push(ps, opt_number(13, v.read_version));
    ps = ps.push(opt_number(13, v.read_version));
    lemma_flat_push(ps, opt_text_message(14, v.operation_type));
    ps = ps.push(opt_text_message(14, v.operation_type));
    lemma_flat_push(ps, entry_messages(15, v.transaction_properties));
    ps = ps.push(entry_messages(15, v.transaction_properties));
    assert(ps =~= summary_pieces(v));
    assert(Seq::<WireField>::empty() + varint_field(1, v.version) =~= varint_field(1, v.version));
}

pub fn encode_summary(v: &VersionSummary) -> (r: Vec<u8>)
    requires
        v.transaction_properties.wf(),
    ensures
        r@ == serialize(summary_fields(v@)),
        summary_decode(r@) == Some(v@),
        r@.len() <= u64::MAX,
{
    let mut buf: Vec<u8> = Vec::new();
    let ms = v.manifest_summary;
    let tagged: u64 = if v.is_tagged { 1 } else { 0 };
    let cleaned: u64 = if v.is_cleaned_up { 1 } else { 0 };
    put_number(&mut buf, 1, v.version);
    let ghost mut acc = varint_field(1, v.version);
    put_number(&mut buf, 2, to_i64_bits(v.timestamp_millis));
    proof { lemma_serialize_append(acc, varint_field(2, i64_bits(v.timestamp_millis))); acc = acc + varint_field(2, i64_bits(v.timestamp_millis)); }
    put_number(&mut buf, 3, ms.total_fragments);
    proof { lemma_serialize_append(acc, varint_field(3, ms.total_fragments)); acc = acc + varint_field(3, ms.total_fragments); }
    put_number(&mut buf, 4, ms.total_data_files);
    proof { lemma_serialize_append(acc, varint_field(4, ms.total_data_files)); acc = acc + varint_field(4, ms.total_data_files); }
    put_number(&mut buf, 5, ms.total_files_size);
    proof { lemma_serialize_append(acc, varint_field(5, ms.total_files_size)); acc = acc + varint_field(5, ms.total_files_size); }
    put_number(&mut buf, 6, ms.total_deletion_files);
    proof { lemma_serialize_append(acc, varint_field(6, ms.total_deletion_files)); acc = acc + varint_field(6, ms.total_deletion_files); }
    put_number(&mut buf, 7, ms.total_data_file_rows);
    proof { lemma_serialize_append(acc, varint_field(7, ms.total_data_file_rows)); acc = acc + varint_field(7, ms.total_data_file_rows); }
    put_number(&mut buf, 8, ms.total_deletion_file_rows);
    proof { lemma_serialize_append(acc, varint_field(8, ms.total_deletion_file_rows)); acc = acc + varint_field(8, ms.total_deletion_file_rows); }
    put_number(&mut buf, 9, ms.total_rows);
    proof { lemma_serialize_append(acc, varint_field(9, ms.total_rows)); acc = acc + varint_field(9, ms.total_rows); }
    put_number(&mut buf, 10, tagged);
    proof { lemma_serialize_append(acc, varint_field(10, tagged)); acc = acc + varint_field(10, tagged); }
    put_number(&mut buf, 11, cleaned);
    proof { lemma_serialize_append(acc, varint_field(11, cleaned)); acc = acc + varint_field(11, cleaned); }
    put_opt_text(&mut buf, 12, &v.transaction_uuid);
    proof { lemma_serialize_append(acc, opt_text_message(12, opt_string_view(v.transaction_uuid))); acc = acc + opt_text_message(12, opt_string_view(v.transaction_uuid)); }
    put_opt_number(&mut buf, 13, v.read_version);
    proof { lemma_serialize_append(acc, opt_number(13, v.read_version)); acc = acc + opt_number(13, v.read_version); }
    put_opt_text(&mut buf, 14, &v.operation_type);
    proof { lemma_serialize_append(acc, opt_text_message(14, opt_string_view(v.operation_type))); acc = acc + opt_text_message(14, opt_string_view(v.operation_type)); }
    put_entries(&mut buf, 15, &v.transaction_properties);
    proof { lemma_serialize_append(acc, entry_messages(15, v.transaction_properties.entry_views())); acc = acc + entry_messages(15, v.transaction_properties.entry_views()); }
    proof {
        lemma_summary_concat(v@);
        assert(acc == summary_fields(v@));
        lemma_summary_round_trip(v@);
        assert(buf@.len() == buf.len());
    }
    buf
}

proof fn lemma_summary_round_trip(v: VersionSummaryView)
    requires
        crate::strmap::keys_distinct(v.transaction_properties),
        forall|i: int| 0 <= i < v.transaction_properties.len() ==> entry_ok(#[trigger] v.transaction_properties[i]),
        v.transaction_uuid matches Some(t) ==> encode_utf8(t).len() <= u64::MAX,
        v.operation_type matches Some(t) ==> encode_utf8(t).len() <= u64::MAX,
    ensures
        summary_decode(serialize(summary_fields(v))) == Some(v),
{
    let ps = summary_pieces(v);
    let fs = flat(ps);
    lemma_entries_round_trip(15, v.transaction_properties);
    lemma_summary_pieces(v);
    crate::wire::lemma_flat_writable(ps);
    crate::wire::lemma_fields_round_trip(fs);
    lemma_summary_tags(v);
    lemma_summary_extract(v);
    lemma_summary_final(v);
}

proof fn lemma_summary_pieces(v: VersionSummaryView)
    requires
        all_writable(entry_messages(15, v.transaction_properties)),
        v.transaction_uuid matches Some(t) ==> encode_utf8(t).len() <= u64::MAX,
        v.operation_type matches Some(t) ==> encode_utf8(t).len() <= u64::MAX,
    ensures
        tagged(summary_pieces(v), tags_upto(15)),
        forall|j: int| 0 <= j < summary_pieces(v).len() ==> all_writable(#[trigger] summary_pieces(v)[j]),
{
    broadcast use group_piece_facts;
    let ps = summary_pieces(v);
    let tags = tags_upto(15);
    assert forall|j: int| 0 <= j < ps.len() implies all_tag(#[trigger] ps[j], tags[j]) && all_writable(ps[j]) by {
        if j == 0 {} else if j == 1 {} else if j == 2 {} else if j == 3 {} else if j == 4 {}
        else if j == 5 {} else if j == 6 {} else if j == 7 {} else if j == 8 {} else if j == 9 {}
        else if j == 10 {} else if j == 11 {} else if j == 12 {} else if j == 13 {} else {}
    }
}


proof fn lemma_summary_extract(v: VersionSummaryView)
    requires
        forall|t: u32| 1 <= t <= 15 ==> #[trigger] with_tag(flat(summary_pieces(v)), t) == summary_pieces(v)[t - 1],
    ensures
        ({
            let fs = summary_fields(v);
            let ms = v.manifest_summary;
            &&& last_number(fs, 1) == Some(v.version)
            &&& last_number(fs, 2) == Some(i64_bits(v.timestamp_millis))
            &&& last_number(fs, 3) == Some(ms.total_fragments)
            &&& last_number(fs, 4) == Some(ms.total_data_files)
            &&& last_number(fs, 5) == Some(ms.total_files_size)
            &&& last_number(fs, 6) == Some(ms.total_deletion_files)
            &&& last_number(fs, 7) == Some(ms.total_data_file_rows)
            &&& last_number(fs, 8) == Some(ms.total_deletion_file_rows)
            &&& last_number(fs, 9) == Some(ms.total_rows)
            &&& last_number(fs, 10) == Some(if v.is_tagged { 1u64 } else { 0u64 })
            &&& last_number(fs, 11) == Some(if v.is_cleaned_up { 1u64 } else { 0u64 })
            &&& last_data(fs, 12) == Some(match v.transaction_uuid { Some(t) => Some(encode_utf8(t)), None => None })
            &&& last_opt_number(fs, 13) == Some(v.read_version)
            &&& last_data(fs, 14) == Some(match v.operation_type { Some(t) => Some(encode_utf8(t)), None => None })
            &&& all_data(fs, 15) == Some(datas(entry_messages(15, v.transaction_properties)))
        }),
{
    let fs = summary_fields(v);
    let ms = v.manifest_summary;
    assert(with_tag(fs, 1) == summary_pieces(v)[0]);
    crate::wire::lemma_last_number_single(fs, 1, v.version);
    assert(with_tag(fs, 2) == summary_pieces(v)[1]);
    crate::wire::lemma_last_number_single(fs, 2, i64_bits(v.timestamp_millis));
    assert(with_tag(fs, 3) == summary_pieces(v)[2]);
    crate::wire::lemma_last_number_single(fs, 3, ms.total_fragments);
    assert(with_tag(fs, 4) == summary_pieces(v)[3]);
    crate::wire::lemma_last_number_single(fs, 4, ms.total_data_files);
    assert(with_tag(fs, 5) == summary_pieces(v)[4]);
    crate::wire::lemma_last_number_single(fs, 5, ms.total_files_size);
    assert(with_tag(fs, 6) == summary_pieces(v)[5]);
    crate::wire::lemma_last_number_single(fs, 6, ms.total_deletion_files);
    assert(with_tag(fs, 7) == summary_pieces(v)[6]);
    crate::wire::lemma_last_number_single(fs, 7, ms.total_data_file_rows);
    assert(with_tag(fs, 8) == summary_pieces(v)[7]);
    crate::wire::lemma_last_number_single(fs, 8, ms.total_deletion_file_rows);
    assert(with_tag(fs, 9) == summary_pieces(v)[8]);
    crate::wire::lemma_last_number_single(fs, 9, ms.total_rows);
    assert(with_tag(fs, 10) == summary_pieces(v)[9]);
    crate::wire::lemma_last_number_single(fs, 10, if v.is_tagged { 1 } else { 0 });
    assert(with_tag(fs, 11) == summary_pieces(v)[10]);
    crate::wire::lemma_last_number_single(fs, 11, if v.is_cleaned_up { 1 } else { 0 });
    assert(with_tag(fs, 12) == summary_pieces(v)[11]);
    crate::wire::lemma_last_data_single(fs, 12, match v.transaction_uuid { Some(t) => Some(encode_utf8(t)), None => None });
    assert(with_tag(fs, 13) == summary_pieces(v)[12]);
    crate::wire::lemma_last_opt_number_single(fs, 13, v.read_version);
    assert(with_tag(fs, 14) == summary_pieces(v)[13]);
    crate::wire::lemma_last_data_single(fs, 14, match v.operation_type { Some(t) => Some(encode_utf8(t)), None => None });
    assert(with_tag(fs, 15) == summary_pieces(v)[14]);
    crate::wire::lemma_all_data_uniform(fs, 15, entry_messages(15, v.transaction_properties));
}

proof fn lemma_summary_final(v: VersionSummaryView)
    requires
        parse_fields(serialize(summary_fields(v))) == Some(summary_fields(v)),
        decode_entries(datas(entry_messages(15, v.transaction_properties))) == Some(v.transaction_properties),
        ({
            let fs = summary_fields(v);
            let ms = v.manifest_summary;
            &&& last_number(fs, 1) == Some(v.version)
            &&& last_number(fs, 2) == Some(i64_bits(v.timestamp_millis))
            &&& last_number(fs, 3) == Some(ms.total_fragments)
            &&& last_number(fs, 4) == Some(ms.total_data_files)
            &&& last_number(fs, 5) == Some(ms.total_files_size)
            &&& last_number(fs, 6) == Some(ms.total_deletion_files)
            &&& last_number(fs, 7) == Some(ms.total_data_file_rows)
            &&& last_number(fs, 8) == Some(ms.total_deletion_file_rows)
            &&& last_number(fs, 9) == Some(ms.total_rows)
            &&& last_number(fs, 10) == Some(if v.is_tagged { 1u64 } else { 0u64 })
            &&& last_number(fs, 11) == Some(if v.is_cleaned_up { 1u64 } else { 0u64 })
            &&& last_data(fs, 12) == Some(match v.transaction_uuid { Some(t) => Some(encode_utf8(t)), None => None })
            &&& last_opt_number(fs, 13) == Some(v.read_version)
            &&& last_data(fs, 14) == Some(match v.operation_type { Some(t) => Some(encode_utf8(t)), None => None })
            &&& all_data(fs, 15) == Some(datas(entry_messages(15, v.transaction_properties)))
        }),
    ensures
        summary_decode(serialize(summary_fields(v))) == Some(v),
{
    broadcast use vstd::utf8::encode_utf8_decode_utf8, vstd::utf8::encode_utf8_valid_utf8;
    let fs = summary_fields(v);
    assert(i64_from_bits(i64_bits(v.timestamp_millis)) == v.timestamp_millis);
    assert(opt_text_field(fs, 12) == Some(v.transaction_uuid));
    assert(opt_text_field(fs, 14) == Some(v.operation_type));
}

proof fn lemma_summary_tags(v: VersionSummaryView)
    requires
        tagged(summary_pieces(v), tags_upto(15)),
    ensures
        forall|t: u32| 1 <= t <= 15 ==> #[trigger] with_tag(flat(summary_pieces(v)), t) == summary_pieces(v)[t - 1],
{
    assert forall|t: u32| 1 <= t <= 15 implies #[trigger] with_tag(flat(summary_pieces(v)), t) == summary_pieces(v)[t - 1] by {
        crate::wire::lemma_flat_with_tag(summary_pieces(v), tags_upto(15), t);
        assert(tags_upto(15)[t - 1] == t);
    }
}


fn get_opt_text(fields: &Vec<RawField>, tag: u32) -> (r: Option<Option<String>>)
    ensures
        match opt_text_field(raw_views(fields@), tag) {
            None => r is None,
            Some(t) => r matches Some(x) && opt_string_view(x) == t,
        },
{
    match get_data(fields, tag) {
        None => None,
        Some(None) => Some(None),
        Some(Some(b)) => match utf8_string(b) {
            Some(s) => Some(Some(s)),
            None => None,
        },
    }
}

pub fn decode_summary(bytes: &[u8]) -> (r: Option<VersionSummary>)
    ensures
        match summary_decode(bytes@) {
            Some(v) => r matches Some(s) && s@ == v && s.transaction_properties.wf(),
            None => r is None,
        },
{
    let read = read_fields(bytes);
    let fields = match read {
        Some(f) => f,
        None => return None,
    };
    assert(parse_fields(bytes@) == Some(raw_views(fields@)));
    let n1 = get_number(&fields, 1);
    let n2 = get_number(&fields, 2);
    let n3 = get_number(&fields, 3);
    let n4 = get_number(&fields, 4);
    let n5 = get_number(&fields, 5);
    let n6 = get_number(&fields, 6);
    let n7 = get_number(&fields, 7);
    let n8 = get_number(&fields, 8);
    let n9 = get_number(&fields, 9);
    let n10 = get_number(&fields, 10);
    let n11 = get_number(&fields, 11);
    let uuid = get_opt_text(&fields, 12);
    let read_version = get_opt_number(&fields, 13);
    let op = get_opt_text(&fields, 14);
    let props = get_entries(&fields, 15);
    match (n1, n2, n3, n4, n5, n6, n7, n8) {
        (Some(version), Some(ts), Some(a), Some(b), Some(c), Some(d), Some(e), Some(f)) => {
            match (n9, n10, n11, uuid, read_version, op, props) {
                (Some(g), Some(tagged), Some(cleaned), Some(uuid), Some(read_version), Some(op), Some(props)) => {
                    Some(VersionSummary {
                        version,
                        timestamp_millis: from_i64_bits(ts),
                        manifest_summary: ManifestSummary {
                            total_fragments: a,
                            total_data_files: b,
                            total_files_size: c,
                            total_deletion_files: d,
                            total_data_file_rows: e,
                            total_deletion_file_rows: f,
                            total_rows: g,
                        },
                        is_tagged: tagged != 0,
                        is_cleaned_up: cleaned != 0,
                        transaction_uuid: uuid,
                        read_version,
                        operation_type: op,
                        transaction_properties: props,
                    })
                },
                _ => None,
            }
        },
        _ => None,
    }
}

/// The encoding of one summary.
pub open spec fn summary_bytes(v: VersionSummaryView) -> Seq<u8> {
    serialize(summary_fields(v))
}

/// A summary whose encoding fits a length field and reads back as the summary.
pub open spec fn summary_ok(v: VersionSummaryView) -> bool {
    summary_bytes(v).len() <= u64::MAX && summary_decode(summary_bytes(v)) == Some(v)
}

pub open spec fn summary_messages(vs: Seq<VersionSummaryView>) -> Seq<WireField> {
    vs.map_values(|v: VersionSummaryView| message_field(4, summary_bytes(v)))
}

proof fn lemma_summaries_round_trip(vs: Seq<VersionSummaryView>)
    requires
        forall|i: int| 0 <= i < vs.len() ==> summary_ok(#[trigger] vs[i]),
    ensures
        all_writable(summary_messages(vs)),
        all_tag(summary_messages(vs), 4),
        decode_summary_list(datas(summary_messages(vs))) == Some(vs),
    decreases vs.len(),
{
    if vs.len() > 0 {
        let rest = vs.drop_last();
        assert forall|i: int| 0 <= i < rest.len() implies summary_ok(#[trigger] rest[i]) by {
            assert(rest[i] == vs[i]);
        }
        lemma_summaries_round_trip(rest);
        assert(datas(summary_messages(vs)).drop_last() =~= datas(summary_messages(rest)));
        assert(summary_ok(vs[vs.len() - 1]));
        assert(datas(summary_messages(vs)).last() == summary_bytes(vs.last()));
        assert(rest.push(vs.last()) =~= vs);
    } else {
        assert(datas(summary_messages(vs)) =~= Seq::<Seq<u8>>::empty());
    }
}

pub open spec fn archive_pieces(latest: u64, created: u64, at: u64, vs: Seq<VersionSummaryView>) -> Seq<Seq<WireField>> {
    seq![varint_field(1, latest), varint_field(2, created), varint_field(3, at), summary_messages(vs)]
}

proof fn lemma_archive_concat(latest: u64, created: u64, at: u64, vs: Seq<VersionSummaryView>)
    ensures
        flat(archive_pieces(latest, created, at, vs)) == varint_field(1, latest) + varint_field(2, created)
            + varint_field(3, at) + summary_messages(vs),
{
    let mut ps: Seq<Seq<WireField>> = Seq::empty();
    crate::wire::lemma_flat_empty();
    lemma_flat_push(ps, varint_field(1, latest));
    ps = ps.push(varint_field(1, latest));
    lemma_flat_push(ps, varint_field(2, created));
    ps = ps.push(varint_field(2, created));
    lemma_flat_push(ps, varint_field(3, at));
    ps = ps.push(varint_field(3, at));
    lemma_flat_push(ps, summary_messages(vs));
    ps = ps.push(summary_messages(vs));
    assert(ps =~= archive_pieces(latest, created, at, vs));
    assert(Seq::<WireField>::empty() + varint_field(1, latest) =~= varint_field(1, latest));
}

proof fn lemma_archive_pieces(latest: u64, created: u64, at: u64, vs: Seq<VersionSummaryView>)
    requires
        all_writable(summary_messages(vs)),
        all_tag(summary_messages(vs), 4),
    ensures
        tagged(archive_pieces(latest, created, at, vs), tags_upto(4)),
        forall|j: int| 0 <= j < 4 ==> all_writable(#[trigger] archive_pieces(latest, created, at, vs)[j]),
{
    broadcast use group_piece_facts;
    let ps = archive_pieces(latest, created, at, vs);
    let tags = tags_upto(4);
    assert forall|j: int| 0 <= j < ps.len() implies all_tag(#[trigger] ps[j], tags[j]) && all_writable(ps[j]) by {
        if j == 0 {} else if j == 1 {} else if j == 2 {} else {}
    }
}

proof fn lemma_archive_round_trip(latest: u64, created: u64, at: u64, vs: Seq<VersionSummaryView>)
    requires
        forall|i: int| 0 <= i < vs.len() ==> summary_ok(#[trigger] vs[i]),
    ensures
        archive_decode(serialize(varint_field(1, latest) + varint_field(2, created) + varint_field(3, at)
            + summary_messages(vs))) == Some((latest, created, at, vs)),
{
    lemma_summaries_round_trip(vs);
    let ps = archive_pieces(latest, created, at, vs);
    let tags = tags_upto(4);
    let fs = flat(ps);
    lemma_archive_concat(latest, created, at, vs);
    lemma_archive_pieces(latest, created, at, vs);
    crate::wire::lemma_flat_writable(ps);
    crate::wire::lemma_fields_round_trip(fs);
    lemma_archive_tags(latest, created, at, vs);
    lemma_archive_extract(fs, latest, created, at, vs);
    lemma_archive_final(fs, latest, created, at, vs);
}

proof fn lemma_archive_tags(latest: u64, created: u64, at: u64, vs: Seq<VersionSummaryView>)
    requires
        tagged(archive_pieces(latest, created, at, vs), tags_upto(4)),
    ensures
        with_tag(flat(archive_pieces(latest, created, at, vs)), 1) == varint_field(1, latest),
        with_tag(flat(archive_pieces(latest, created, at, vs)), 2) == varint_field(2, created),
        with_tag(flat(archive_pieces(latest, created, at, vs)), 3) == varint_field(3, at),
        with_tag(flat(archive_pieces(latest, created, at, vs)), 4) == summary_messages(vs),
{
    let ps = archive_pieces(latest, created, at, vs);
    let tags = tags_upto(4);
    crate::wire::lemma_flat_with_tag(ps, tags, 1);
    crate::wire::lemma_flat_with_tag(ps, tags, 2);
    crate::wire::lemma_flat_with_tag(ps, tags, 3);
    crate::wire::lemma_flat_with_tag(ps, tags, 4);
    assert(tags[0] == 1 && tags[1] == 2 && tags[2] == 3 && tags[3] == 4);
}

proof fn lemma_archive_extract(fs: Seq<WireField>, latest: u64, created: u64, at: u64, vs: Seq<VersionSummaryView>)
    requires
        with_tag(fs, 1) == varint_field(1, latest),
        with_tag(fs, 2) == varint_field(2, created),
        with_tag(fs, 3) == varint_field(3, at),
        with_tag(fs, 4) == summary_messages(vs),
    ensures
        last_number(fs, 1) == Some(latest),
        last_number(fs, 2) == Some(created),
        last_number(fs, 3) == Some(at),
        all_data(fs, 4) == Some(datas(summary_messages(vs))),
{
    crate::wire::lemma_last_number_single(fs, 1, latest);
    crate::wire::lemma_last_number_single(fs, 2, created);
    crate::wire::lemma_last_number_single(fs, 3, at);
    crate::wire::lemma_all_data_uniform(fs, 4, summary_messages(vs));
}

proof fn lemma_archive_final(fs: Seq<WireField>, latest: u64, created: u64, at: u64, vs: Seq<VersionSummaryView>)
    requires
        fs == varint_field(1, latest) + varint_field(2, created) + varint_field(3, at) + summary_messages(vs),
        parse_fields(serialize(fs)) == Some(fs),
        last_number(fs, 1) == Some(latest),
        last_number(fs, 2) == Some(created),
        last_number(fs, 3) == Some(at),
        all_data(fs, 4) == Some(datas(summary_messages(vs))),
        decode_summary_list(datas(summary_messages(vs))) == Some(vs),
    ensures
        archive_decode(serialize(varint_field(1, latest) + varint_field(2, created) + varint_field(3, at)
            + summary_messages(vs))) == Some((latest, created, at, vs)),
{
}

/// The fields of an archive on the wire.
pub open spec fn archive_fields(a: VersionArchive) -> Seq<WireField> {
    varint_field(1, a.latest_version_number)
        + varint_field(2, a.dataset_created_millis)
        + varint_field(3, a.created_at_millis)
        + summary_messages(a.summaries())
}

pub open spec fn decode_summary_list(ds: Seq<Seq<u8>>) -> Option<Seq<VersionSummaryView>>
    decreases ds.len(),
{
    if ds.len() == 0 {
        Some(Seq::empty())
    } else {
        match (decode_summary_list(ds.drop_last()), summary_decode(ds.last())) {
            (Some(a), Some(v)) => Some(a.push(v)),
            _ => None,
        }
    }
}

/// What an archive's bytes hold: the latest version, the two creation
/// times and the summaries.
pub open spec fn archive_decode(bytes: Seq<u8>) -> Option<(u64, u64, u64, Seq<VersionSummaryView>)> {
    match parse_fields(bytes) {
        None => None,
        Some(fs) => match (last_number(fs, 1), last_number(fs, 2), last_number(fs, 3), all_data(fs, 4)) {
            (Some(latest), Some(created), Some(at), Some(ds)) => match decode_summary_list(ds) {
                Some(vs) => Some((latest, created, at, vs)),
                None => None,
            },
            _ => None,
        },
    }
}

fn decode_summary_vec(ds: &Vec<Vec<u8>>) -> (r: Option<Vec<VersionSummary>>)
    ensures
        match decode_summary_list(byte_views(ds@)) {
            Some(v) => r matches Some(x) && summary_views(x@) == v
                && forall|k: int| 0 <= k < v.len() ==> summary_wf(#[trigger] v[k]),
            None => r is None,
        },
{
    let ghost dv = byte_views(ds@);
    let mut out: Vec<VersionSummary> = Vec::new();
    let mut k: usize = 0;
    while k < ds.len()
        invariant
            k <= ds@.len(),
            dv == byte_views(ds@),
            decode_summary_list(dv.subrange(0, k as int)) == Some(summary_views(out@)),
            forall|j: int| 0 <= j < out@.len() ==> summary_wf(#[trigger] summary_views(out@)[j]),
        decreases ds.len() - k,
    {
        proof {
            assert(dv.subrange(0, k + 1).drop_last() =~= dv.subrange(0, k as int));
            assert(dv.subrange(0, k + 1).last() == ds@[k as int]@);
        }
        match decode_summary(ds[k].as_slice()) {
            Some(v) => {
                let ghost before = out@;
                out.push(v);
                proof {
                    assert(summary_views(out@) =~= summary_views(before).push(v@));
                    assert forall|j: int| 0 <= j < out@.len() implies summary_wf(#[trigger] summary_views(out@)[j]) by {
                        if j < before.len() {
                            assert(summary_views(out@)[j] == summary_views(before)[j]);
                        }
                    }
                }
            },
            None => {
                proof {
                    lemma_decode_summary_list_prefix(dv, k as int + 1);
                }
                return None;
            },
        }
        k = k + 1;
    }
    assert(dv.subrange(0, k as int) =~= dv);
    Some(out)
}

proof fn lemma_decode_summary_list_prefix(ds: Seq<Seq<u8>>, n: int)
    requires
        0 <= n <= ds.len(),
        decode_summary_list(ds.subrange(0, n)) is None,
    ensures
        decode_summary_list(ds) is None,
    decreases ds.len() - n,
{
    if n < ds.len() {
        assert(ds.subrange(0, n + 1).drop_last() =~= ds.subrange(0, n));
        lemma_decode_summary_list_prefix(ds, n + 1);
    } else {
        assert(ds.subrange(0, n) =~= ds);
    }
}

impl VersionArchive {
    /// The archive's wire encoding, which decodes back to the archive.
    pub fn encode(&self) -> (r: Vec<u8>)
        requires
            self.wf(),
        ensures
            r@ == serialize(archive_fields(*self)),
            archive_decode(r@) == Some((self.latest_version_number, self.dataset_created_millis, self.created_at_millis, self.summaries())),
    {
        let mut buf: Vec<u8> = Vec::new();
        put_number(&mut buf, 1, self.latest_version_number);
        put_number(&mut buf, 2, self.dataset_created_millis);
        proof { lemma_serialize_append(varint_field(1, self.latest_version_number), varint_field(2, self.dataset_created_millis)); }
        put_number(&mut buf, 3, self.created_at_millis);
        let ghost head = varint_field(1, self.latest_version_number) + varint_field(2, self.dataset_created_millis)
            + varint_field(3, self.created_at_millis);
        proof {
            lemma_serialize_append(varint_field(1, self.latest_version_number) + varint_field(2, self.dataset_created_millis),
                varint_field(3, self.created_at_millis));
        }
        let mut i: usize = 0;
        while i < self.versions.len()
            invariant
                i <= self.versions@.len(),
                self.wf(),
                buf@ == serialize(head + summary_messages(self.summaries().subrange(0, i as int))),
                forall|k: int| 0 <= k < i ==> summary_ok(#[trigger] self.summaries()[k]),
            decreases self.versions.len() - i,
        {
            assert(summary_wf(self.summaries()[i as int]));
            let ghost before = head + summary_messages(self.summaries().subrange(0, i as int));
            let enc = encode_summary(&self.versions[i]);
            put_bytes_field(&mut buf, 4, enc.as_slice());
            proof {
                let f = message_field(4, enc@);
                assert(self.summaries()[i as int] == self.versions@[i as int]@);
                assert(summary_ok(self.summaries()[i as int]));
                assert(head + summary_messages(self.summaries().subrange(0, i + 1)) =~= before + seq![f]);
                lemma_serialize_append(before, seq![f]);
                lemma_serialize_one(f);
            }
            i = i + 1;
        }
        assert(self.summaries().subrange(0, i as int) =~= self.summaries());
        proof {
            lemma_archive_round_trip(self.latest_version_number, self.dataset_created_millis, self.created_at_millis, self.summaries());
        }
        buf
    }

    /// Decodes an archive of the dataset at `base` from its wire encoding.
    pub fn decode(bytes: &[u8], base: String, config: VersionArchiveConfig) -> (r: Result<VersionArchive, Error>)
        ensures
            match archive_decode(bytes@) {
                Some((latest, created, at, vs)) => r matches Ok(a) && a.latest_version_number == latest
                    && a.dataset_created_millis == created && a.created_at_millis == at && a.summaries() == vs
                    && a.config == config && a.base == base && a.wf(),
                None => r matches Err(e) && e.is_invalid_input(),
            },
    {
        let read = read_fields(bytes);
        let fields = match read {
            Some(f) => f,
            None => return Err(Error::InvalidInput("Failed to decode archive".to_owned())),
        };
        assert(parse_fields(bytes@) == Some(raw_views(fields@)));
        match (get_number(&fields, 1), get_number(&fields, 2), get_number(&fields, 3), get_all_data(&fields, 4)) {
            (Some(latest), Some(created), Some(at), Some(ds)) => match decode_summary_vec(&ds) {
                Some(versions) => Ok(VersionArchive {
                    versions,
                    latest_version_number: latest,
                    dataset_created_millis: created,
                    created_at_millis: at,
                    config,
                    base,
                }),
                None => Err(Error::InvalidInput("Failed to decode archive".to_owned())),
            },
            _ => Err(Error::InvalidInput("Failed to decode archive".to_owned())),
        }
    }
}

pub open spec fn deletion_pieces(d: DeletionFile) -> Seq<Seq<WireField>> {
    seq![
        varint_field(1, d.read_version),
        varint_field(2, d.id),
        varint_field(3, d.num_deleted_rows),
    ]
}

pub open spec fn deletion_tags() -> Seq<u32> {
    tags_upto(3)
}

proof fn lemma_deletion_concat(d: DeletionFile)
    ensures
        flat(deletion_pieces(d)) == deletion_fields(d),
{
    let mut ps: Seq<Seq<WireField>> = Seq::empty();
    crate::wire::lemma_flat_empty();
    lemma_flat_push(ps, varint_field(1, d.read_version));
    ps = ps.push(varint_field(1, d.read_version));
    lemma_flat_push(ps, varint_field(2, d.id));
    ps = ps.push(varint_field(2, d.id));
    lemma_flat_push(ps, varint_field(3, d.num_deleted_rows));
    ps = ps.push(varint_field(3, d.num_deleted_rows));
    assert(ps =~= deletion_pieces(d));
    assert(Seq::<WireField>::empty() + varint_field(1, d.read_version) =~= varint_field(1, d.read_version));
}

proof fn lemma_deletion_pieces_ok(d: DeletionFile)
    requires
        true,
    ensures
        tagged(deletion_pieces(d), deletion_tags()),
        forall|j: int| 0 <= j < deletion_pieces(d).len() ==> all_writable(#[trigger] deletion_pieces(d)[j]),
{
    broadcast use group_piece_facts;
    let ps = deletion_pieces(d);
    let tags = deletion_tags();
    assert forall|j: int| 0 <= j < ps.len() implies all_tag(#[trigger] ps[j], tags[j]) && all_writable(ps[j]) by {
        if j == 0 {  } else if j == 1 {  } else {  }
    }
}

proof fn lemma_deletion_tags(d: DeletionFile)
    requires
        tagged(deletion_pieces(d), deletion_tags()),
    ensures
        with_tag(flat(deletion_pieces(d)), 1) == varint_field(1, d.read_version),
        with_tag(flat(deletion_pieces(d)), 2) == varint_field(2, d.id),
        with_tag(flat(deletion_pieces(d)), 3) == varint_field(3, d.num_deleted_rows),
{
    let ps = deletion_pieces(d);
    let tags = deletion_tags();
    assert(tags[0] == 1 && tags[1] == 2 && tags[2] == 3);
    crate::wire::lemma_flat_with_tag(ps, tags, 1);
    crate::wire::lemma_flat_with_tag(ps, tags, 2);
    crate::wire::lemma_flat_with_tag(ps, tags, 3);
}

proof fn lemma_deletion_extract(fs: Seq<WireField>, d: DeletionFile)
    requires
        with_tag(fs, 1) == varint_field(1, d.read_version),
        with_tag(fs, 2) == varint_field(2, d.id),
        with_tag(fs, 3) == varint_field(3, d.num_deleted_rows),
    ensures
        last_number(fs, 1) == Some(d.read_version),
        last_number(fs, 2) == Some(d.id),
        last_number(fs, 3) == Some(d.num_deleted_rows),
{
    crate::wire::lemma_last_number_single(fs, 1, d.read_version);
    crate::wire::lemma_last_number_single(fs, 2, d.id);
    crate::wire::lemma_last_number_single(fs, 3, d.num_deleted_rows);
}

proof fn lemma_deletion_final(fs: Seq<WireField>, d: DeletionFile)
    requires
        fs == deletion_fields(d),
        parse_fields(serialize(fs)) == Some(fs),
        last_number(fs, 1) == Some(d.read_version),
        last_number(fs, 2) == Some(d.id),
        last_number(fs, 3) == Some(d.num_deleted_rows),
    ensures
        deletion_decode(serialize(deletion_fields(d))) == Some(d),
{
}

proof fn lemma_deletion_round_trip(d: DeletionFile)
    requires
        true,
    ensures
        deletion_decode(serialize(deletion_fields(d))) == Some(d),
{
    let ps = deletion_pieces(d);
    let fs = flat(ps);
    lemma_deletion_concat(d);
    lemma_deletion_pieces_ok(d);
    crate::wire::lemma_flat_writable(ps);
    crate::wire::lemma_fields_round_trip(fs);
    lemma_deletion_tags(d);
    lemma_deletion_extract(fs, d);
    lemma_deletion_final(fs, d);
}

pub open spec fn timestamp_pieces(ts: u128) -> Seq<Seq<WireField>> {
    seq![
        varint_field(1, ((ts as int / nanos_per_second()) % 0x1_0000_0000_0000_0000) as u64),
        varint_field(2, (ts as int % nanos_per_second()) as u64),
    ]
}

pub open spec fn timestamp_tags() -> Seq<u32> {
    tags_upto(2)
}

proof fn lemma_timestamp_concat(ts: u128)
    ensures
        flat(timestamp_pieces(ts)) == timestamp_fields(ts),
{
    let mut ps: Seq<Seq<WireField>> = Seq::empty();
    crate::wire::lemma_flat_empty();
    lemma_flat_push(ps, varint_field(1, ((ts as int / nanos_per_second()) % 0x1_0000_0000_0000_0000) as u64));
    ps = ps.push(varint_field(1, ((ts as int / nanos_per_second()) % 0x1_0000_0000_0000_0000) as u64));
    lemma_flat_push(ps, varint_field(2, (ts as int % nanos_per_second()) as u64));
    ps = ps.push(varint_field(2, (ts as int % nanos_per_second()) as u64));
    assert(ps =~= timestamp_pieces(ts));
    assert(Seq::<WireField>::empty() + varint_field(1, ((ts as int / nanos_per_second()) % 0x1_0000_0000_0000_0000) as u64) =~= varint_field(1, ((ts as int / nanos_per_second()) % 0x1_0000_0000_0000_0000) as u64));
}

proof fn lemma_timestamp_pieces_ok(ts: u128)
    requires
        true,
    ensures
        tagged(timestamp_pieces(ts), timestamp_tags()),
        forall|j: int| 0 <= j < timestamp_pieces(ts).len() ==> all_writable(#[trigger] timestamp_pieces(ts)[j]),
{
    broadcast use group_piece_facts;
    let ps = timestamp_pieces(ts);
    let tags = timestamp_tags();
    assert forall|j: int| 0 <= j < ps.len() implies all_tag(#[trigger] ps[j], tags[j]) && all_writable(ps[j]) by {
        if j == 0 {  } else {  }
    }
}

proof fn lemma_timestamp_tags(ts: u128)
    requires
        tagged(timestamp_pieces(ts), timestamp_tags()),
    ensures
        with_tag(flat(timestamp_pieces(ts)), 1) == varint_field(1, ((ts as int / nanos_per_second()) % 0x1_0000_0000_0000_0000) as u64),
        with_tag(flat(timestamp_pieces(ts)), 2) == varint_field(2, (ts as int % nanos_per_second()) as u64),
{
    let ps = timestamp_pieces(ts);
    let tags = timestamp_tags();
    assert(tags[0] == 1 && tags[1] == 2);
    crate::wire::lemma_flat_with_tag(ps, tags, 1);
    crate::wire::lemma_flat_with_tag(ps, tags, 2);
}

proof fn lemma_timestamp_extract(fs: Seq<WireField>, ts: u128)
    requires
        with_tag(fs, 1) == varint_field(1, ((ts as int / nanos_per_second()) % 0x1_0000_0000_0000_0000) as u64),
        with_tag(fs, 2) == varint_field(2, (ts as int % nanos_per_second()) as u64),
    ensures
        last_number(fs, 1) == Some(((ts as int / nanos_per_second()) % 0x1_0000_0000_0000_0000) as u64),
        last_number(fs, 2) == Some((ts as int % nanos_per_second()) as u64),
{
    crate::wire::lemma_last_number_single(fs, 1, ((ts as int / nanos_per_second()) % 0x1_0000_0000_0000_0000) as u64);
    crate::wire::lemma_last_number_single(fs, 2, (ts as int % nanos_per_second()) as u64);
}

proof fn lemma_timestamp_final(fs: Seq<WireField>, ts: u128)
    requires
        fs == timestamp_fields(ts),
        parse_fields(serialize(fs)) == Some(fs),
        last_number(fs, 1) == Some(((ts as int / nanos_per_second()) % 0x1_0000_0000_0000_0000) as u64),
        last_number(fs, 2) == Some((ts as int % nanos_per_second()) as u64),
    ensures
        timestamp_decode(Some(serialize(timestamp_fields(ts)))) == Some(((ts as int / nanos_per_second()) % 0x1_0000_0000_0000_0000) * nanos_per_second() + ts as int % nanos_per_second()),
{
}

proof fn lemma_timestamp_round_trip(ts: u128)
    requires
        true,
    ensures
        timestamp_decode(Some(serialize(timestamp_fields(ts)))) == Some(((ts as int / nanos_per_second()) % 0x1_0000_0000_0000_0000) * nanos_per_second() + ts as int % nanos_per_second()),
{
    let ps = timestamp_pieces(ts);
    let fs = flat(ps);
    lemma_timestamp_concat(ts);
    lemma_timestamp_pieces_ok(ts);
    crate::wire::lemma_flat_writable(ps);
    crate::wire::lemma_fields_round_trip(fs);
    lemma_timestamp_tags(ts);
    lemma_timestamp_extract(fs, ts);
    lemma_timestamp_final(fs, ts);
}

pub open spec fn data_file_pieces(d: DataFileView) -> Seq<Seq<WireField>> {
    seq![
        bytes_field(1, encode_utf8(d.path)),
        id_fields(d.fields),
        varint_field(3, d.file_major_version as u64),
        varint_field(4, d.file_minor_version as u64),
    ]
}

pub open spec fn data_file_tags() -> Seq<u32> {
    tags_upto(4)
}

proof fn lemma_data_file_concat(d: DataFileView)
    ensures
        flat(data_file_pieces(d)) == data_file_fields(d),
{
    let mut ps: Seq<Seq<WireField>> = Seq::empty();
    crate::wire::lemma_flat_empty();
    lemma_flat_push(ps, bytes_field(1, encode_utf8(d.path)));
    ps = ps.push(bytes_field(1, encode_utf8(d.path)));
    lemma_flat_push(ps, id_fields(d.fields));
    ps = ps.push(id_fields(d.fields));
    lemma_flat_push(ps, varint_field(3, d.file_major_version as u64));
    ps = ps.push(varint_field(3, d.file_major_version as u64));
    lemma_flat_push(ps, varint_field(4, d.file_minor_version as u64));
    ps = ps.push(varint_field(4, d.file_minor_version as u64));
    assert(ps =~= data_file_pieces(d));
    assert(Seq::<WireField>::empty() + bytes_field(1, encode_utf8(d.path)) =~= bytes_field(1, encode_utf8(d.path)));
}

proof fn lemma_data_file_pieces_ok(d: DataFileView)
    requires
        encode_utf8(d.path).len() <= u64::MAX,
    ensures
        tagged(data_file_pieces(d), data_file_tags()),
        forall|j: int| 0 <= j < data_file_pieces(d).len() ==> all_writable(#[trigger] data_file_pieces(d)[j]),
{
    broadcast use group_piece_facts;
    let ps = data_file_pieces(d);
    let tags = data_file_tags();
    assert forall|j: int| 0 <= j < ps.len() implies all_tag(#[trigger] ps[j], tags[j]) && all_writable(ps[j]) by {
        if j == 0 {  } else if j == 1 {  } else if j == 2 {  } else {  }
    }
}

proof fn lemma_data_file_tags(d: DataFileView)
    requires
        tagged(data_file_pieces(d), data_file_tags()),
    ensures
        with_tag(flat(data_file_pieces(d)), 1) == bytes_field(1, encode_utf8(d.path)),
        with_tag(flat(data_file_pieces(d)), 2) == id_fields(d.fields),
        with_tag(flat(data_file_pieces(d)), 3) == varint_field(3, d.file_major_version as u64),
        with_tag(flat(data_file_pieces(d)), 4) == varint_field(4, d.file_minor_version as u64),
{
    let ps = data_file_pieces(d);
    let tags = data_file_tags();
    assert(tags[0] == 1 && tags[1] == 2 && tags[2] == 3 && tags[3] == 4);
    crate::wire::lemma_flat_with_tag(ps, tags, 1);
    crate::wire::lemma_flat_with_tag(ps, tags, 2);
    crate::wire::lemma_flat_with_tag(ps, tags, 3);
    crate::wire::lemma_flat_with_tag(ps, tags, 4);
}

proof fn lemma_data_file_extract(fs: Seq<WireField>, d: DataFileView)
    requires
        with_tag(fs, 1) == bytes_field(1, encode_utf8(d.path)),
        with_tag(fs, 2) == id_fields(d.fields),
        with_tag(fs, 3) == varint_field(3, d.file_major_version as u64),
        with_tag(fs, 4) == varint_field(4, d.file_minor_version as u64),
    ensures
        last_data(fs, 1) == Some(if encode_utf8(d.path).len() == 0 { None } else { Some(encode_utf8(d.path)) }),
        all_numbers(fs, 2) == Some(nums(id_fields(d.fields))),
        last_number(fs, 3) == Some(d.file_major_version as u64),
        last_number(fs, 4) == Some(d.file_minor_version as u64),
{
    crate::wire::lemma_last_data_single(fs, 1, if encode_utf8(d.path).len() == 0 { None } else { Some(encode_utf8(d.path)) });
    crate::wire::lemma_all_numbers_uniform(fs, 2, id_fields(d.fields));
    crate::wire::lemma_last_number_single(fs, 3, d.file_major_version as u64);
    crate::wire::lemma_last_number_single(fs, 4, d.file_minor_version as u64);
}

proof fn lemma_data_file_final(fs: Seq<WireField>, d: DataFileView)
    requires
        fs == data_file_fields(d),
        parse_fields(serialize(fs)) == Some(fs),
        last_data(fs, 1) == Some(if encode_utf8(d.path).len() == 0 { None } else { Some(encode_utf8(d.path)) }),
        all_numbers(fs, 2) == Some(nums(id_fields(d.fields))),
        last_number(fs, 3) == Some(d.file_major_version as u64),
        last_number(fs, 4) == Some(d.file_minor_version as u64),
    ensures
        data_file_decode(serialize(data_file_fields(d))) == Some(d),
{
    broadcast use vstd::utf8::encode_utf8_decode_utf8, vstd::utf8::encode_utf8_valid_utf8;
    let ns = nums(id_fields(d.fields));
    assert forall|i: int| 0 <= i < ns.len() implies (#[trigger] i32_from_bits(ns[i])) is Some by {
        lemma_i32_bits(d.fields[i]);
    }
    assert forall|i: int| 0 <= i < ns.len() implies #[trigger] decode_ids(ns)[i] == d.fields[i] by {
        lemma_i32_bits(d.fields[i]);
    }
    assert(decode_ids(ns) =~= d.fields);
    if encode_utf8(d.path).len() == 0 {
        assert(encode_utf8(d.path) =~= Seq::<u8>::empty());
        assert(decode_utf8(Seq::<u8>::empty()) =~= Seq::<char>::empty());
    }
    assert(text_of_field(fs, 1) == Some(d.path));
}

proof fn lemma_data_file_round_trip(d: DataFileView)
    requires
        encode_utf8(d.path).len() <= u64::MAX,
    ensures
        data_file_decode(serialize(data_file_fields(d))) == Some(d),
{
    let ps = data_file_pieces(d);
    let fs = flat(ps);
    lemma_data_file_concat(d);
    lemma_data_file_pieces_ok(d);
    crate::wire::lemma_flat_writable(ps);
    crate::wire::lemma_fields_round_trip(fs);
    lemma_data_file_tags(d);
    lemma_data_file_extract(fs, d);
    lemma_data_file_final(fs, d);
}

pub open spec fn field_pieces(f: FieldView) -> Seq<Seq<WireField>> {
    seq![
        bytes_field(2, encode_utf8(f.name)),
        varint_field(3, i32_bits(f.id)),
        varint_field(4, i32_bits(f.parent_id)),
        bytes_field(5, encode_utf8(f.logical_type)),
        varint_field(6, if f.nullable { 1 } else { 0 }),
        entry_messages(10, f.metadata),
        varint_field(12, storage_class_code(f.storage_class)),
    ]
}

pub open spec fn field_tags() -> Seq<u32> {
    Seq::new(7, |i: int| if i < 5 { (i + 2) as u32 } else if i == 5 { 10u32 } else { 12u32 })
}

proof fn lemma_field_concat(f: FieldView)
    ensures
        flat(field_pieces(f)) == field_fields(f),
{
    let mut ps: Seq<Seq<WireField>> = Seq::empty();
    crate::wire::lemma_flat_empty();
    lemma_flat_push(ps, bytes_field(2, encode_utf8(f.name)));
    ps = ps.push(bytes_field(2, encode_utf8(f.name)));
    lemma_flat_push(ps, varint_field(3, i32_bits(f.id)));
    ps = ps.push(varint_field(3, i32_bits(f.id)));
    lemma_flat_push(ps, varint_field(4, i32_bits(f.parent_id)));
    ps = ps.push(varint_field(4, i32_bits(f.parent_id)));
    lemma_flat_push(ps, bytes_field(5, encode_utf8(f.logical_type)));
    ps = ps.push(bytes_field(5, encode_utf8(f.logical_type)));
    lemma_flat_push(ps, varint_field(6, if f.nullable { 1 } else { 0 }));
    ps = ps.push(varint_field(6, if f.nullable { 1 } else { 0 }));
    lemma_flat_push(ps, entry_messages(10, f.metadata));
    ps = ps.push(entry_messages(10, f.metadata));
    lemma_flat_push(ps, varint_field(12, storage_class_code(f.storage_class)));
    ps = ps.push(varint_field(12, storage_class_code(f.storage_class)));
    assert(ps =~= field_pieces(f));
    assert(Seq::<WireField>::empty() + bytes_field(2, encode_utf8(f.name)) =~= bytes_field(2, encode_utf8(f.name)));
}

proof fn lemma_field_pieces_ok(f: FieldView)
    requires
        encode_utf8(f.name).len() <= u64::MAX,
        encode_utf8(f.logical_type).len() <= u64::MAX,
        all_writable(entry_messages(10, f.metadata)),
    ensures
        tagged(field_pieces(f), field_tags()),
        forall|j: int| 0 <= j < field_pieces(f).len() ==> all_writable(#[trigger] field_pieces(f)[j]),
{
    broadcast use group_piece_facts;
    let ps = field_pieces(f);
    let tags = field_tags();
    assert forall|j: int| 0 <= j < ps.len() implies all_tag(#[trigger] ps[j], tags[j]) && all_writable(ps[j]) by {
        if j == 0 {  } else if j == 1 {  } else if j == 2 {  } else if j == 3 {  } else if j == 4 {  } else if j == 5 {  } else {  }
    }
}

proof fn lemma_field_tags(f: FieldView)
    requires
        tagged(field_pieces(f), field_tags()),
    ensures
        with_tag(flat(field_pieces(f)), 2) == bytes_field(2, encode_utf8(f.name)),
        with_tag(flat(field_pieces(f)), 3) == varint_field(3, i32_bits(f.id)),
        with_tag(flat(field_pieces(f)), 4) == varint_field(4, i32_bits(f.parent_id)),
        with_tag(flat(field_pieces(f)), 5) == bytes_field(5, encode_utf8(f.logical_type)),
        with_tag(flat(field_pieces(f)), 6) == varint_field(6, if f.nullable { 1 } else { 0 }),
        with_tag(flat(field_pieces(f)), 10) == entry_messages(10, f.metadata),
        with_tag(flat(field_pieces(f)), 12) == varint_field(12, storage_class_code(f.storage_class)),
{
    let ps = field_pieces(f);
    let tags = field_tags();
    assert(tags[0] == 2 && tags[1] == 3 && tags[2] == 4 && tags[3] == 5 && tags[4] == 6 && tags[5] == 10 && tags[6] == 12);
    crate::wire::lemma_flat_with_tag(ps, tags, 2);
    crate::wire::lemma_flat_with_tag(ps, tags, 3);
    crate::wire::lemma_flat_with_tag(ps, tags, 4);
    crate::wire::lemma_flat_with_tag(ps, tags, 5);
    crate::wire::lemma_flat_with_tag(ps, tags, 6);
    crate::wire::lemma_flat_with_tag(ps, tags, 10);
    crate::wire::lemma_flat_with_tag(ps, tags, 12);
}

proof fn lemma_field_extract(fs: Seq<WireField>, f: FieldView)
    requires
        with_tag(fs, 2) == bytes_field(2, encode_utf8(f.name)),
        with_tag(fs, 3) == varint_field(3, i32_bits(f.id)),
        with_tag(fs, 4) == varint_field(4, i32_bits(f.parent_id)),
        with_tag(fs, 5) == bytes_field(5, encode_utf8(f.logical_type)),
        with_tag(fs, 6) == varint_field(6, if f.nullable { 1 } else { 0 }),
        with_tag(fs, 10) == entry_messages(10, f.metadata),
        with_tag(fs, 12) == varint_field(12, storage_class_code(f.storage_class)),
    ensures
        last_data(fs, 2) == Some(if encode_utf8(f.name).len() == 0 { None } else { Some(encode_utf8(f.name)) }),
        last_number(fs, 3) == Some(i32_bits(f.id)),
        last_number(fs, 4) == Some(i32_bits(f.parent_id)),
        last_data(fs, 5) == Some(if encode_utf8(f.logical_type).len() == 0 { None } else { Some(encode_utf8(f.logical_type)) }),
        last_number(fs, 6) == Some(if f.nullable { 1u64 } else { 0u64 }),
        all_data(fs, 10) == Some(datas(entry_messages(10, f.metadata))),
        last_number(fs, 12) == Some(storage_class_code(f.storage_class)),
{
    crate::wire::lemma_last_data_single(fs, 2, if encode_utf8(f.name).len() == 0 { None } else { Some(encode_utf8(f.name)) });
    crate::wire::lemma_last_number_single(fs, 3, i32_bits(f.id));
    crate::wire::lemma_last_number_single(fs, 4, i32_bits(f.parent_id));
    crate::wire::lemma_last_data_single(fs, 5, if encode_utf8(f.logical_type).len() == 0 { None } else { Some(encode_utf8(f.logical_type)) });
    crate::wire::lemma_last_number_single(fs, 6, if f.nullable { 1u64 } else { 0u64 });
    crate::wire::lemma_all_data_uniform(fs, 10, entry_messages(10, f.metadata));
    crate::wire::lemma_last_number_single(fs, 12, storage_class_code(f.storage_class));
}

proof fn lemma_field_final(fs: Seq<WireField>, f: FieldView)
    requires
        fs == field_fields(f),
        parse_fields(serialize(fs)) == Some(fs),
        last_data(fs, 2) == Some(if encode_utf8(f.name).len() == 0 { None } else { Some(encode_utf8(f.name)) }),
        last_number(fs, 3) == Some(i32_bits(f.id)),
        last_number(fs, 4) == Some(i32_bits(f.parent_id)),
        last_data(fs, 5) == Some(if encode_utf8(f.logical_type).len() == 0 { None } else { Some(encode_utf8(f.logical_type)) }),
        last_number(fs, 6) == Some(if f.nullable { 1u64 } else { 0u64 }),
        all_data(fs, 10) == Some(datas(entry_messages(10, f.metadata))),
        last_number(fs, 12) == Some(storage_class_code(f.storage_class)),
        decode_entries(datas(entry_messages(10, f.metadata))) == Some(f.metadata),
    ensures
        field_decode(serialize(field_fields(f))) == Some(f),
{
    broadcast use vstd::utf8::encode_utf8_decode_utf8, vstd::utf8::encode_utf8_valid_utf8;
    if encode_utf8(f.name).len() == 0 {
        assert(encode_utf8(f.name) =~= Seq::<u8>::empty());
        assert(decode_utf8(Seq::<u8>::empty()) =~= Seq::<char>::empty());
    }
    if encode_utf8(f.logical_type).len() == 0 {
        assert(encode_utf8(f.logical_type) =~= Seq::<u8>::empty());
        assert(decode_utf8(Seq::<u8>::empty()) =~= Seq::<char>::empty());
    }
    lemma_i32_bits(f.id);
    lemma_i32_bits(f.parent_id);
    assert(text_of_field(fs, 2) == Some(f.name));
    assert(text_of_field(fs, 5) == Some(f.logical_type));
}

proof fn lemma_field_round_trip(f: FieldView)
    requires
        encode_utf8(f.name).len() <= u64::MAX,
        encode_utf8(f.logical_type).len() <= u64::MAX,
        crate::strmap::keys_distinct(f.metadata),
        forall|i: int| 0 <= i < f.metadata.len() ==> entry_ok(#[trigger] f.metadata[i]),
    ensures
        field_decode(serialize(field_fields(f))) == Some(f),
{
    lemma_entries_round_trip(10, f.metadata);
    let ps = field_pieces(f);
    let fs = flat(ps);
    lemma_field_concat(f);
    lemma_field_pieces_ok(f);
    crate::wire::lemma_flat_writable(ps);
    crate::wire::lemma_fields_round_trip(fs);
    lemma_field_tags(f);
    lemma_field_extract(fs, f);
    lemma_field_final(fs, f);
}

pub open spec fn fragment_pieces(f: FragmentView) -> Seq<Seq<WireField>> {
    seq![
        varint_field(1, f.id),
        data_file_messages(f.files),
        opt_message(3, deletion_data(f.deletion_file)),
        varint_field(4, rows_value(f.physical_rows)),
        opt_message(5, f.row_id_meta),
    ]
}

pub open spec fn fragment_tags() -> Seq<u32> {
    tags_upto(5)
}

proof fn lemma_fragment_concat(f: FragmentView)
    ensures
        flat(fragment_pieces(f)) == fragment_fields(f),
{
    let mut ps: Seq<Seq<WireField>> = Seq::empty();
    crate::wire::lemma_flat_empty();
    lemma_flat_push(ps, varint_field(1, f.id));
    ps = ps.push(varint_field(1, f.id));
    lemma_flat_push(ps, data_file_messages(f.files));
    ps = ps.push(data_file_messages(f.files));
    lemma_flat_push(ps, opt_message(3, deletion_data(f.deletion_file)));
    ps = ps.push(opt_message(3, deletion_data(f.deletion_file)));
    lemma_flat_push(ps, varint_field(4, rows_value(f.physical_rows)));
    ps = ps.push(varint_field(4, rows_value(f.physical_rows)));
    lemma_flat_push(ps, opt_message(5, f.row_id_meta));
    ps = ps.push(opt_message(5, f.row_id_meta));
    assert(ps =~= fragment_pieces(f));
    assert(Seq::<WireField>::empty() + varint_field(1, f.id) =~= varint_field(1, f.id));
}

proof fn lemma_fragment_pieces_ok(f: FragmentView)
    requires
        all_writable(data_file_messages(f.files)),
        deletion_data(f.deletion_file) matches Some(b) ==> b.len() <= u64::MAX,
        f.row_id_meta matches Some(b) ==> b.len() <= u64::MAX,
    ensures
        tagged(fragment_pieces(f), fragment_tags()),
        forall|j: int| 0 <= j < fragment_pieces(f).len() ==> all_writable(#[trigger] fragment_pieces(f)[j]),
{
    broadcast use group_piece_facts;
    let ps = fragment_pieces(f);
    let tags = fragment_tags();
    assert forall|j: int| 0 <= j < ps.len() implies all_tag(#[trigger] ps[j], tags[j]) && all_writable(ps[j]) by {
        if j == 0 {  } else if j == 1 {  } else if j == 2 {  } else if j == 3 {  } else {  }
    }
}

proof fn lemma_fragment_tags(f: FragmentView)
    requires
        tagged(fragment_pieces(f), fragment_tags()),
    ensures
        with_tag(flat(fragment_pieces(f)), 1) == varint_field(1, f.id),
        with_tag(flat(fragment_pieces(f)), 2) == data_file_messages(f.files),
        with_tag(flat(fragment_pieces(f)), 3) == opt_message(3, deletion_data(f.deletion_file)),
        with_tag(flat(fragment_pieces(f)), 4) == varint_field(4, rows_value(f.physical_rows)),
        with_tag(flat(fragment_pieces(f)), 5) == opt_message(5, f.row_id_meta),
{
    let ps = fragment_pieces(f);
    let tags = fragment_tags();
    assert(tags[0] == 1 && tags[1] == 2 && tags[2] == 3 && tags[3] == 4 && tags[4] == 5);
    crate::wire::lemma_flat_with_tag(ps, tags, 1);
    crate::wire::lemma_flat_with_tag(ps, tags, 2);
    crate::wire::lemma_flat_with_tag(ps, tags, 3);
    crate::wire::lemma_flat_with_tag(ps, tags, 4);
    crate::wire::lemma_flat_with_tag(ps, tags, 5);
}

proof fn lemma_fragment_extract(fs: Seq<WireField>, f: FragmentView)
    requires
        with_tag(fs, 1) == varint_field(1, f.id),
        with_tag(fs, 2) == data_file_messages(f.files),
        with_tag(fs, 3) == opt_message(3, deletion_data(f.deletion_file)),
        with_tag(fs, 4) == varint_field(4, rows_value(f.physical_rows)),
        with_tag(fs, 5) == opt_message(5, f.row_id_meta),
    ensures
        last_number(fs, 1) == Some(f.id),
        all_data(fs, 2) == Some(datas(data_file_messages(f.files))),
        last_data(fs, 3) == Some(deletion_data(f.deletion_file)),
        last_number(fs, 4) == Some(rows_value(f.physical_rows)),
        last_data(fs, 5) == Some(f.row_id_meta),
{
    crate::wire::lemma_last_number_single(fs, 1, f.id);
    crate::wire::lemma_all_data_uniform(fs, 2, data_file_messages(f.files));
    crate::wire::lemma_last_data_single(fs, 3, deletion_data(f.deletion_file));
    crate::wire::lemma_last_number_single(fs, 4, rows_value(f.physical_rows));
    crate::wire::lemma_last_data_single(fs, 5, f.row_id_meta);
}

proof fn lemma_fragment_final(fs: Seq<WireField>, f: FragmentView)
    requires
        fs == fragment_fields(f),
        parse_fields(serialize(fs)) == Some(fs),
        last_number(fs, 1) == Some(f.id),
        all_data(fs, 2) == Some(datas(data_file_messages(f.files))),
        last_data(fs, 3) == Some(deletion_data(f.deletion_file)),
        last_number(fs, 4) == Some(rows_value(f.physical_rows)),
        last_data(fs, 5) == Some(f.row_id_meta),
        decode_data_files(datas(data_file_messages(f.files))) == Some(f.files),
        f.deletion_file matches Some(d) ==> deletion_decode(serialize(deletion_fields(d))) == Some(d),
        f.physical_rows != Some(0u64),
    ensures
        fragment_decode(serialize(fragment_fields(f))) == Some(f),
{
}

proof fn lemma_fragment_round_trip(f: FragmentView)
    requires
        forall|i: int| 0 <= i < f.files.len() ==> data_file_ok(#[trigger] f.files[i]),
        deletion_data(f.deletion_file) matches Some(b) ==> b.len() <= u64::MAX,
        f.row_id_meta matches Some(b) ==> b.len() <= u64::MAX,
        f.physical_rows != Some(0u64),
    ensures
        fragment_decode(serialize(fragment_fields(f))) == Some(f),
{
    lemma_data_files_round_trip(f.files);
    if let Some(d) = f.deletion_file {
        lemma_deletion_round_trip(d);
    }
    let ps = fragment_pieces(f);
    let fs = flat(ps);
    lemma_fragment_concat(f);
    lemma_fragment_pieces_ok(f);
    crate::wire::lemma_flat_writable(ps);
    crate::wire::lemma_fields_round_trip(fs);
    lemma_fragment_tags(f);
    lemma_fragment_extract(fs, f);
    lemma_fragment_final(fs, f);
}

/// A schema field whose encoding fits a length field and reads back as the field.
pub open spec fn field_ok(f: FieldView) -> bool {
    serialize(field_fields(f)).len() <= u64::MAX && field_decode(serialize(field_fields(f))) == Some(f)
}

/// A fragment whose encoding fits a length field and reads back as the fragment.
pub open spec fn fragment_ok(f: FragmentView) -> bool {
    serialize(fragment_fields(f)).len() <= u64::MAX && fragment_decode(serialize(fragment_fields(f))) == Some(f)
}

pub broadcast proof fn lemma_tag_manifest_lists(fs: Seq<FieldView>, gs: Seq<FragmentView>, f: DataStorageFormat)
    ensures
        #[trigger] all_tag(field_messages(fs), 1),
        forall|i: int| 0 <= i < fs.len() ==> (#[trigger] field_messages(fs)[i]).kind == WireKind::Bytes,
        #[trigger] all_tag(fragment_messages(gs), 2),
        forall|i: int| 0 <= i < gs.len() ==> (#[trigger] fragment_messages(gs)[i]).kind == WireKind::Bytes,
        #[trigger] all_tag(format_field(f), 15),
        serialize(pair_fields(f.file_format@, f.version@)).len() <= u64::MAX ==> all_writable(format_field(f)),
{
}

proof fn lemma_field_list_round_trip(fs: Seq<FieldView>)
    requires
        forall|i: int| 0 <= i < fs.len() ==> field_ok(#[trigger] fs[i]),
    ensures
        all_writable(field_messages(fs)),
        decode_field_list(datas(field_messages(fs))) == Some(fs),
    decreases fs.len(),
{
    if fs.len() > 0 {
        let rest = fs.drop_last();
        assert forall|i: int| 0 <= i < rest.len() implies field_ok(#[trigger] rest[i]) by {
            assert(rest[i] == fs[i]);
        }
        lemma_field_list_round_trip(rest);
        assert(datas(field_messages(fs)).drop_last() =~= datas(field_messages(rest)));
        assert(field_ok(fs[fs.len() - 1]));
        assert(rest.push(fs.last()) =~= fs);
    } else {
        assert(datas(field_messages(fs)) =~= Seq::<Seq<u8>>::empty());
    }
}

proof fn lemma_fragment_list_round_trip(fs: Seq<FragmentView>)
    requires
        forall|i: int| 0 <= i < fs.len() ==> fragment_ok(#[trigger] fs[i]),
    ensures
        all_writable(fragment_messages(fs)),
        decode_fragment_list(datas(fragment_messages(fs))) == Some(fs),
    decreases fs.len(),
{
    if fs.len() > 0 {
        let rest = fs.drop_last();
        assert forall|i: int| 0 <= i < rest.len() implies fragment_ok(#[trigger] rest[i]) by {
            assert(rest[i] == fs[i]);
        }
        lemma_fragment_list_round_trip(rest);
        assert(datas(fragment_messages(fs)).drop_last() =~= datas(fragment_messages(rest)));
        assert(fragment_ok(fs[fs.len() - 1]));
        assert(rest.push(fs.last()) =~= fs);
    } else {
        assert(datas(fragment_messages(fs)) =~= Seq::<Seq<u8>>::empty());
    }
}

/// The conditions under which a manifest reads back as itself: the data
/// model's rules (a tag or transaction file is never empty, a writer version
/// has both its library and its version set, a blob version is never 0, a known row count is never 0, move-stable row ids mean
/// every fragment has row-id metadata), distinct keys in every map, a
/// timestamp whose seconds fit in 64 bits, and a total row count that fits
/// in 64 bits.
pub open spec fn canonical(m: Manifest) -> bool {
    &&& m.schema.wf()
    &&& m.config.wf()
    &&& m.tag matches Some(t) ==> t@.len() > 0
    &&& m.transaction_file matches Some(t) ==> t@.len() > 0
    &&& m.blob_dataset_version != Some(0u64)
    &&& m.writer_version matches Some(w) ==> w.library@.len() > 0 && w.version@.len() > 0
    &&& forall|i: int| 0 <= i < m.fragments@.len() ==> (#[trigger] m.fragments@[i]).physical_rows != Some(0u64)
    &&& m.reader_feature_flags & FLAG_MOVE_STABLE_ROW_IDS != 0 ==> forall|i: int|
        0 <= i < m.fragments@.len() ==> (#[trigger] m.fragments@[i]).row_id_meta is Some
    &&& (m.timestamp_nanos as int) < 0x1_0000_0000_0000_0000 * nanos_per_second()
    &&& prefix_rows(fragment_views(m.fragments@), m.fragments@.len() as int) <= u64::MAX
}

pub open spec fn manifest_pieces(m: Manifest) -> Seq<Seq<WireField>> {
    seq![
        field_messages(m.schema@.fields),
        fragment_messages(fragment_views(m.fragments@)),
        varint_field(3, m.version),
        varint_field(4, m.version_aux_data),
        entry_messages(5, m.schema@.metadata),
        opt_number(6, m.index_section),
        opt_message(7, timestamp_data(m.timestamp_nanos)),
        bytes_field(8, encode_utf8(opt_text(m.tag))),
        varint_field(9, m.reader_feature_flags),
        varint_field(10, m.writer_feature_flags),
        opt_number(11, max_fragment_value(m.max_fragment_id)),
        bytes_field(12, encode_utf8(opt_text(m.transaction_file))),
        opt_message(13, writer_version_data(m.writer_version)),
        varint_field(14, m.next_row_id),
        format_field(m.data_storage_format),
        entry_messages(16, m.config.entry_views()),
        varint_field(17, rows_value(m.blob_dataset_version)),
    ]
}

pub open spec fn manifest_tags() -> Seq<u32> {
    tags_upto(17)
}

proof fn lemma_manifest_concat(m: Manifest)
    ensures
        flat(manifest_pieces(m)) == manifest_fields(m),
{
    let mut ps: Seq<Seq<WireField>> = Seq::empty();
    crate::wire::lemma_flat_empty();
    lemma_flat_push(ps, field_messages(m.schema@.fields));
    ps = ps.push(field_messages(m.schema@.fields));
    lemma_flat_push(ps, fragment_messages(fragment_views(m.fragments@)));
    ps = ps.push(fragment_messages(fragment_views(m.fragments@)));
    lemma_flat_push(ps, varint_field(3, m.version));
    ps = ps.push(varint_field(3, m.version));
    lemma_flat_push(ps, varint_field(4, m.version_aux_data));
    ps = ps.push(varint_field(4, m.version_aux_data));
    lemma_flat_push(ps, entry_messages(5, m.schema@.metadata));
    ps = ps.push(entry_messages(5, m.schema@.metadata));
    lemma_flat_push(ps, opt_number(6, m.index_section));
    ps = ps.push(opt_number(6, m.index_section));
    lemma_flat_push(ps, opt_message(7, timestamp_data(m.timestamp_nanos)));
    ps = ps.push(opt_message(7, timestamp_data(m.timestamp_nanos)));
    lemma_flat_push(ps, bytes_field(8, encode_utf8(opt_text(m.tag))));
    ps = ps.push(bytes_field(8, encode_utf8(opt_text(m.tag))));
    lemma_flat_push(ps, varint_field(9, m.reader_feature_flags));
    ps = ps.push(varint_field(9, m.reader_feature_flags));
    lemma_flat_push(ps, varint_field(10, m.writer_feature_flags));
    ps = ps.push(varint_field(10, m.writer_feature_flags));
    lemma_flat_push(ps, opt_number(11, max_fragment_value(m.max_fragment_id)));
    ps = ps.push(opt_number(11, max_fragment_value(m.max_fragment_id)));
    lemma_flat_push(ps, bytes_field(12, encode_utf8(opt_text(m.transaction_file))));
    ps = ps.push(bytes_field(12, encode_utf8(opt_text(m.transaction_file))));
    lemma_flat_push(ps, opt_message(13, writer_version_data(m.writer_version)));
    ps = ps.push(opt_message(13, writer_version_data(m.writer_version)));
    lemma_flat_push(ps, varint_field(14, m.next_row_id));
    ps = ps.push(varint_field(14, m.next_row_id));
    lemma_flat_push(ps, format_field(m.data_storage_format));
    ps = ps.push(format_field(m.data_storage_format));
    lemma_flat_push(ps, entry_messages(16, m.config.entry_views()));
    ps = ps.push(entry_messages(16, m.config.entry_views()));
    lemma_flat_push(ps, varint_field(17, rows_value(m.blob_dataset_version)));
    ps = ps.push(varint_field(17, rows_value(m.blob_dataset_version)));
    assert(ps =~= manifest_pieces(m));
    assert(Seq::<WireField>::empty() + field_messages(m.schema@.fields) =~= field_messages(m.schema@.fields));
}

proof fn lemma_manifest_pieces_ok(m: Manifest)
    requires
        all_writable(field_messages(m.schema@.fields)),
        all_writable(fragment_messages(fragment_views(m.fragments@))),
        all_writable(entry_messages(5, m.schema@.metadata)),
        all_writable(entry_messages(16, m.config.entry_views())),
        timestamp_data(m.timestamp_nanos) matches Some(b) ==> b.len() <= u64::MAX,
        encode_utf8(opt_text(m.tag)).len() <= u64::MAX,
        encode_utf8(opt_text(m.transaction_file)).len() <= u64::MAX,
        writer_version_data(m.writer_version) matches Some(b) ==> b.len() <= u64::MAX,
        serialize(pair_fields(m.data_storage_format.file_format@, m.data_storage_format.version@)).len() <= u64::MAX,
    ensures
        tagged(manifest_pieces(m), manifest_tags()),
        forall|j: int| 0 <= j < manifest_pieces(m).len() ==> all_writable(#[trigger] manifest_pieces(m)[j]),
{
    broadcast use group_piece_facts;
    let ps = manifest_pieces(m);
    let tags = manifest_tags();
    assert forall|j: int| 0 <= j < ps.len() implies all_tag(#[trigger] ps[j], tags[j]) && all_writable(ps[j]) by {
        if j == 0 {  } else if j == 1 {  } else if j == 2 {  } else if j == 3 {  } else if j == 4 {  } else if j == 5 {  } else if j == 6 {  } else if j == 7 {  } else if j == 8 {  } else if j == 9 {  } else if j == 10 {  } else if j == 11 {  } else if j == 12 {  } else if j == 13 {  } else if j == 14 {  } else if j == 15 {  } else {  }
    }
}

proof fn lemma_manifest_tags(m: Manifest)
    requires
        tagged(manifest_pieces(m), manifest_tags()),
    ensures
        with_tag(flat(manifest_pieces(m)), 1) == field_messages(m.schema@.fields),
        with_tag(flat(manifest_pieces(m)), 2) == fragment_messages(fragment_views(m.fragments@)),
        with_tag(flat(manifest_pieces(m)), 3) == varint_field(3, m.version),
        with_tag(flat(manifest_pieces(m)), 4) == varint_field(4, m.version_aux_data),
        with_tag(flat(manifest_pieces(m)), 5) == entry_messages(5, m.schema@.metadata),
        with_tag(flat(manifest_pieces(m)), 6) == opt_number(6, m.index_section),
        with_tag(flat(manifest_pieces(m)), 7) == opt_message(7, timestamp_data(m.timestamp_nanos)),
        with_tag(flat(manifest_pieces(m)), 8) == bytes_field(8, encode_utf8(opt_text(m.tag))),
        with_tag(flat(manifest_pieces(m)), 9) == varint_field(9, m.reader_feature_flags),
        with_tag(flat(manifest_pieces(m)), 10) == varint_field(10, m.writer_feature_flags),
        with_tag(flat(manifest_pieces(m)), 11) == opt_number(11, max_fragment_value(m.max_fragment_id)),
        with_tag(flat(manifest_pieces(m)), 12) == bytes_field(12, encode_utf8(opt_text(m.transaction_file))),
        with_tag(flat(manifest_pieces(m)), 13) == opt_message(13, writer_version_data(m.writer_version)),
        with_tag(flat(manifest_pieces(m)), 14) == varint_field(14, m.next_row_id),
        with_tag(flat(manifest_pieces(m)), 15) == format_field(m.data_storage_format),
        with_tag(flat(manifest_pieces(m)), 16) == entry_messages(16, m.config.entry_views()),
        with_tag(flat(manifest_pieces(m)), 17) == varint_field(17, rows_value(m.blob_dataset_version)),
{
    let ps = manifest_pieces(m);
    let tags = manifest_tags();
    assert(tags[0] == 1 && tags[1] == 2 && tags[2] == 3 && tags[3] == 4 && tags[4] == 5 && tags[5] == 6 && tags[6] == 7 && tags[7] == 8 && tags[8] == 9 && tags[9] == 10 && tags[10] == 11 && tags[11] == 12 && tags[12] == 13 && tags[13] == 14 && tags[14] == 15 && tags[15] == 16 && tags[16] == 17);
    crate::wire::lemma_flat_with_tag(ps, tags, 1);
    crate::wire::lemma_flat_with_tag(ps, tags, 2);
    crate::wire::lemma_flat_with_tag(ps, tags, 3);
    crate::wire::lemma_flat_with_tag(ps, tags, 4);
    crate::wire::lemma_flat_with_tag(ps, tags, 5);
    crate::wire::lemma_flat_with_tag(ps, tags, 6);
    crate::wire::lemma_flat_with_tag(ps, tags, 7);
    crate::wire::lemma_flat_with_tag(ps, tags, 8);
    crate::wire::lemma_flat_with_tag(ps, tags, 9);
    crate::wire::lemma_flat_with_tag(ps, tags, 10);
    crate::wire::lemma_flat_with_tag(ps, tags, 11);
    crate::wire::lemma_flat_with_tag(ps, tags, 12);
    crate::wire::lemma_flat_with_tag(ps, tags, 13);
    crate::wire::lemma_flat_with_tag(ps, tags, 14);
    crate::wire::lemma_flat_with_tag(ps, tags, 15);
    crate::wire::lemma_flat_with_tag(ps, tags, 16);
    crate::wire::lemma_flat_with_tag(ps, tags, 17);
}

proof fn lemma_manifest_extract(fs: Seq<WireField>, m: Manifest)
    requires
        with_tag(fs, 1) == field_messages(m.schema@.fields),
        with_tag(fs, 2) == fragment_messages(fragment_views(m.fragments@)),
        with_tag(fs, 3) == varint_field(3, m.version),
        with_tag(fs, 4) == varint_field(4, m.version_aux_data),
        with_tag(fs, 5) == entry_messages(5, m.schema@.metadata),
        with_tag(fs, 6) == opt_number(6, m.index_section),
        with_tag(fs, 7) == opt_message(7, timestamp_data(m.timestamp_nanos)),
        with_tag(fs, 8) == bytes_field(8, encode_utf8(opt_text(m.tag))),
        with_tag(fs, 9) == varint_field(9, m.reader_feature_flags),
        with_tag(fs, 10) == varint_field(10, m.writer_feature_flags),
        with_tag(fs, 11) == opt_number(11, max_fragment_value(m.max_fragment_id)),
        with_tag(fs, 12) == bytes_field(12, encode_utf8(opt_text(m.transaction_file))),
        with_tag(fs, 13) == opt_message(13, writer_version_data(m.writer_version)),
        with_tag(fs, 14) == varint_field(14, m.next_row_id),
        with_tag(fs, 15) == format_field(m.data_storage_format),
        with_tag(fs, 16) == entry_messages(16, m.config.entry_views()),
        with_tag(fs, 17) == varint_field(17, rows_value(m.blob_dataset_version)),
    ensures
        all_data(fs, 1) == Some(datas(field_messages(m.schema@.fields))),
        all_data(fs, 2) == Some(datas(fragment_messages(fragment_views(m.fragments@)))),
        last_number(fs, 3) == Some(m.version),
        last_number(fs, 4) == Some(m.version_aux_data),
        all_data(fs, 5) == Some(datas(entry_messages(5, m.schema@.metadata))),
        last_opt_number(fs, 6) == Some(m.index_section),
        last_data(fs, 7) == Some(timestamp_data(m.timestamp_nanos)),
        last_data(fs, 8) == Some(if encode_utf8(opt_text(m.tag)).len() == 0 { None } else { Some(encode_utf8(opt_text(m.tag))) }),
        last_number(fs, 9) == Some(m.reader_feature_flags),
        last_number(fs, 10) == Some(m.writer_feature_flags),
        last_opt_number(fs, 11) == Some(max_fragment_value(m.max_fragment_id)),
        last_data(fs, 12) == Some(if encode_utf8(opt_text(m.transaction_file)).len() == 0 { None } else { Some(encode_utf8(opt_text(m.transaction_file))) }),
        last_data(fs, 13) == Some(writer_version_data(m.writer_version)),
        last_number(fs, 14) == Some(m.next_row_id),
        last_data(fs, 15) == Some(Some(serialize(pair_fields(m.data_storage_format.file_format@, m.data_storage_format.version@)))),
        all_data(fs, 16) == Some(datas(entry_messages(16, m.config.entry_views()))),
        last_number(fs, 17) == Some(rows_value(m.blob_dataset_version)),
{
    crate::wire::lemma_all_data_uniform(fs, 1, field_messages(m.schema@.fields));
    crate::wire::lemma_all_data_uniform(fs, 2, fragment_messages(fragment_views(m.fragments@)));
    crate::wire::lemma_last_number_single(fs, 3, m.version);
    crate::wire::lemma_last_number_single(fs, 4, m.version_aux_data);
    crate::wire::lemma_all_data_uniform(fs, 5, entry_messages(5, m.schema@.metadata));
    crate::wire::lemma_last_opt_number_single(fs, 6, m.index_section);
    crate::wire::lemma_last_data_single(fs, 7, timestamp_data(m.timestamp_nanos));
    crate::wire::lemma_last_data_single(fs, 8, if encode_utf8(opt_text(m.tag)).len() == 0 { None } else { Some(encode_utf8(opt_text(m.tag))) });
    crate::wire::lemma_last_number_single(fs, 9, m.reader_feature_flags);
    crate::wire::lemma_last_number_single(fs, 10, m.writer_feature_flags);
    crate::wire::lemma_last_opt_number_single(fs, 11, max_fragment_value(m.max_fragment_id));
    crate::wire::lemma_last_data_single(fs, 12, if encode_utf8(opt_text(m.transaction_file)).len() == 0 { None } else { Some(encode_utf8(opt_text(m.transaction_file))) });
    crate::wire::lemma_last_data_single(fs, 13, writer_version_data(m.writer_version));
    crate::wire::lemma_last_number_single(fs, 14, m.next_row_id);
    crate::wire::lemma_last_data_single(fs, 15, Some(serialize(pair_fields(m.data_storage_format.file_format@, m.data_storage_format.version@))));
    crate::wire::lemma_all_data_uniform(fs, 16, entry_messages(16, m.config.entry_views()));
    crate::wire::lemma_last_number_single(fs, 17, rows_value(m.blob_dataset_version));
}

#[verifier::rlimit(100)]
proof fn lemma_manifest_wire(fs: Seq<WireField>, m: Manifest)
    requires
        fs == manifest_fields(m),
        parse_fields(serialize(fs)) == Some(fs),
        all_data(fs, 1) == Some(datas(field_messages(m.schema@.fields))),
        all_data(fs, 2) == Some(datas(fragment_messages(fragment_views(m.fragments@)))),
        last_number(fs, 3) == Some(m.version),
        last_number(fs, 4) == Some(m.version_aux_data),
        all_data(fs, 5) == Some(datas(entry_messages(5, m.schema@.metadata))),
        last_opt_number(fs, 6) == Some(m.index_section),
        last_data(fs, 7) == Some(timestamp_data(m.timestamp_nanos)),
        last_data(fs, 8) == Some(if encode_utf8(opt_text(m.tag)).len() == 0 { None } else { Some(encode_utf8(opt_text(m.tag))) }),
        last_number(fs, 9) == Some(m.reader_feature_flags),
        last_number(fs, 10) == Some(m.writer_feature_flags),
        last_opt_number(fs, 11) == Some(max_fragment_value(m.max_fragment_id)),
        last_data(fs, 12) == Some(if encode_utf8(opt_text(m.transaction_file)).len() == 0 { None } else { Some(encode_utf8(opt_text(m.transaction_file))) }),
        last_data(fs, 13) == Some(writer_version_data(m.writer_version)),
        last_number(fs, 14) == Some(m.next_row_id),
        last_data(fs, 15) == Some(Some(serialize(pair_fields(m.data_storage_format.file_format@, m.data_storage_format.version@)))),
        all_data(fs, 16) == Some(datas(entry_messages(16, m.config.entry_views()))),
        last_number(fs, 17) == Some(rows_value(m.blob_dataset_version)),
        decode_field_list(datas(field_messages(m.schema@.fields))) == Some(m.schema@.fields),
        decode_fragment_list(datas(fragment_messages(fragment_views(m.fragments@)))) == Some(fragment_views(m.fragments@)),
        decode_entries(datas(entry_messages(5, m.schema@.metadata))) == Some(m.schema@.metadata),
        decode_entries(datas(entry_messages(16, m.config.entry_views()))) == Some(m.config.entry_views()),
        timestamp_decode(timestamp_data(m.timestamp_nanos)) == Some(m.timestamp_nanos as int),
        m.writer_version matches Some(w) ==> pair_decode(serialize(pair_fields(w.library@, w.version@))) == Some((w.library@, w.version@)),
        pair_decode(serialize(pair_fields(m.data_storage_format.file_format@, m.data_storage_format.version@))) == Some((m.data_storage_format.file_format@, m.data_storage_format.version@)),
        m.tag matches Some(t) ==> t@.len() > 0,
        m.transaction_file matches Some(t) ==> t@.len() > 0,
        m.blob_dataset_version != Some(0u64),
        m.reader_feature_flags & FLAG_MOVE_STABLE_ROW_IDS != 0 ==> forall|i: int| 0 <= i < m.fragments@.len() ==> (#[trigger] m.fragments@[i]).row_id_meta is Some,
        prefix_rows(fragment_views(m.fragments@), m.fragments@.len() as int) <= u64::MAX,
        m.writer_version matches Some(w) ==> w.library@.len() > 0 && w.version@.len() > 0,
    ensures
        manifest_wire(fs) == Some(parts_of(m)),
{
    broadcast use vstd::utf8::encode_utf8_decode_utf8, vstd::utf8::encode_utf8_valid_utf8;
    if encode_utf8(opt_text(m.tag)).len() == 0 {
        assert(encode_utf8(opt_text(m.tag)) =~= Seq::<u8>::empty());
        assert(decode_utf8(Seq::<u8>::empty()) =~= Seq::<char>::empty());
    }
    if encode_utf8(opt_text(m.transaction_file)).len() == 0 {
        assert(encode_utf8(opt_text(m.transaction_file)) =~= Seq::<u8>::empty());
        assert(decode_utf8(Seq::<u8>::empty()) =~= Seq::<char>::empty());
    }
    assert(text_of_field(fs, 8) == Some(opt_text(m.tag)));
    assert(text_of_field(fs, 12) == Some(opt_text(m.transaction_file)));
    assert(nonempty_text(opt_text(m.tag)) == match m.tag { Some(t) => Some(t@), None => None::<Seq<char>> });
    assert(nonempty_text(opt_text(m.transaction_file)) == match m.transaction_file { Some(t) => Some(t@), None => None::<Seq<char>> });
    assert(u32_opt(max_fragment_value(m.max_fragment_id)) == Some(m.max_fragment_id));
    assert(opt_pair(writer_version_data(m.writer_version)) == Some(match m.writer_version {
        Some(w) => Some((w.library@, w.version@)),
        None => None::<(Seq<char>, Seq<char>)>,
    }));
    assert(fully_set(match m.writer_version {
        Some(w) => Some((w.library@, w.version@)),
        None => None::<(Seq<char>, Seq<char>)>,
    }) == match m.writer_version {
        Some(w) => Some((w.library@, w.version@)),
        None => None::<(Seq<char>, Seq<char>)>,
    });
}

proof fn lemma_manifest_final(fs: Seq<WireField>, m: Manifest)
    requires
        fs == manifest_fields(m),
        parse_fields(serialize(fs)) == Some(fs),
        manifest_wire(fs) == Some(parts_of(m)),
        last_data(fs, 15) == Some(Some(serialize(pair_fields(m.data_storage_format.file_format@, m.data_storage_format.version@)))),
        m.reader_feature_flags & FLAG_MOVE_STABLE_ROW_IDS != 0 ==> forall|i: int| 0 <= i < m.fragments@.len() ==> (#[trigger] m.fragments@[i]).row_id_meta is Some,
        prefix_rows(fragment_views(m.fragments@), m.fragments@.len() as int) <= u64::MAX,
    ensures
        manifest_decode(serialize(manifest_fields(m))) == Ok::<ManifestParts, DecodeFailure>(parts_of(m)),
{
    let p = parts_of(m);
    assert(has_data_format(fs));
    if m.reader_feature_flags & FLAG_MOVE_STABLE_ROW_IDS != 0 {
        assert forall|i: int| 0 <= i < p.fragments.len() implies (#[trigger] p.fragments[i]).row_id_meta is Some by {
            assert(p.fragments[i] == m.fragments@[i]@);
            assert(m.fragments@[i].row_id_meta is Some);
        }
    }
}

proof fn lemma_manifest_round_trip(m: Manifest)
    requires
        timestamp_data(m.timestamp_nanos) matches Some(b) ==> b.len() <= u64::MAX,
        encode_utf8(opt_text(m.tag)).len() <= u64::MAX,
        encode_utf8(opt_text(m.transaction_file)).len() <= u64::MAX,
        writer_version_data(m.writer_version) matches Some(b) ==> b.len() <= u64::MAX,
        serialize(pair_fields(m.data_storage_format.file_format@, m.data_storage_format.version@)).len() <= u64::MAX,
        forall|i: int| 0 <= i < m.schema@.fields.len() ==> field_ok(#[trigger] m.schema@.fields[i]),
        forall|i: int| 0 <= i < m.fragments@.len() ==> fragment_ok(#[trigger] fragment_views(m.fragments@)[i]),
        forall|i: int| 0 <= i < m.schema@.metadata.len() ==> entry_ok(#[trigger] m.schema@.metadata[i]),
        forall|i: int| 0 <= i < m.config.entry_views().len() ==> entry_ok(#[trigger] m.config.entry_views()[i]),
        timestamp_decode(timestamp_data(m.timestamp_nanos)) == Some(m.timestamp_nanos as int),
        m.writer_version matches Some(w) ==> pair_decode(serialize(pair_fields(w.library@, w.version@))) == Some((w.library@, w.version@)),
        pair_decode(serialize(pair_fields(m.data_storage_format.file_format@, m.data_storage_format.version@))) == Some((m.data_storage_format.file_format@, m.data_storage_format.version@)),
        canonical(m),
    ensures
        manifest_decode(serialize(manifest_fields(m))) == Ok::<ManifestParts, DecodeFailure>(parts_of(m)),
{
    lemma_field_list_round_trip(m.schema@.fields);
    assert forall|i: int| 0 <= i < fragment_views(m.fragments@).len() implies fragment_ok(#[trigger] fragment_views(m.fragments@)[i]) by {}
    lemma_fragment_list_round_trip(fragment_views(m.fragments@));
    lemma_entries_round_trip(5, m.schema@.metadata);
    lemma_entries_round_trip(16, m.config.entry_views());
    let ps = manifest_pieces(m);
    let fs = flat(ps);
    lemma_manifest_concat(m);
    lemma_manifest_pieces_ok(m);
    crate::wire::lemma_flat_writable(ps);
    crate::wire::lemma_fields_round_trip(fs);
    lemma_manifest_tags(m);
    lemma_manifest_extract(fs, m);
    lemma_manifest_wire(fs, m);
    lemma_manifest_final(fs, m);
}

/// A manifest's encoding depends only on what the manifest holds.
pub proof fn lemma_manifest_fields_by_parts(m1: Manifest, m2: Manifest)
    requires
        parts_of(m1) == parts_of(m2),
    ensures
        manifest_fields(m1) == manifest_fields(m2),
{
    let (left, right) = (parts_of(m1), parts_of(m2));
    assert(m1.schema@.fields == m2.schema@.fields);
    assert(fragment_views(m1.fragments@) == fragment_views(m2.fragments@));
    assert(m1.timestamp_nanos == m2.timestamp_nanos);
    assert(opt_text(m1.tag) == opt_text(m2.tag)) by {
        assert(left.tag == right.tag);
    }
    assert(opt_text(m1.transaction_file) == opt_text(m2.transaction_file)) by {
        assert(left.transaction_file == right.transaction_file);
    }
    assert(writer_version_data(m1.writer_version) == writer_version_data(m2.writer_version)) by {
        assert(left.writer_version == right.writer_version);
    }
    assert(format_field(m1.data_storage_format) == format_field(m2.data_storage_format)) by {
        assert(left.data_format == right.data_format);
    }
    assert(max_fragment_value(m1.max_fragment_id) == max_fragment_value(m2.max_fragment_id));
}

/// Re-encoding a decoded manifest gives back the bytes it was decoded
/// from: `bytes` is the encoding of `m`, which reads back as `m` (as
/// `serialized` promises for every manifest that keeps the data model's
/// rules), and `m2` is what decoding `bytes` gives.
pub proof fn lemma_encode_decode_round_trip(m: Manifest, m2: Manifest, bytes: Seq<u8>)
    requires
        bytes == serialize(manifest_fields(m)),
        manifest_decode(bytes) == Ok::<ManifestParts, DecodeFailure>(parts_of(m)),
        manifest_decode(bytes) == Ok::<ManifestParts, DecodeFailure>(parts_of(m2)),
    ensures
        serialize(manifest_fields(m2)) == bytes,
{
    lemma_manifest_fields_by_parts(m, m2);
}

} // verus!
