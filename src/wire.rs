use vstd::prelude::*;

verus! {

/// The LEB128 encoding of `v`: seven bits per byte, low bits first, the
/// high bit set on every byte but the last.
pub open spec fn varint(v: nat) -> Seq<u8>
    decreases v,
{
    if v < 128 {
        seq![v as u8]
    } else {
        seq![((v % 128) + 128) as u8] + varint(v / 128)
    }
}

/// Reads a LEB128 number of at most `budget` bytes from the front of `s`:
/// its value and its length.
pub open spec fn leb(s: Seq<u8>, budget: nat) -> Option<(nat, nat)>
    decreases budget,
{
    if budget == 0 || s.len() == 0 {
        None
    } else if s[0] < 128 {
        Some((s[0] as nat, 1))
    } else {
        match leb(s.drop_first(), (budget - 1) as nat) {
            Some((v, n)) => Some((((s[0] - 128) as nat + 128 * v) as nat, n + 1)),
            None => None,
        }
    }
}

/// The varint at the front of `s` and its length: at most ten bytes, and a
/// tenth byte of at most 1, so that the value fits in 64 bits.
pub open spec fn parse_varint(s: Seq<u8>) -> Option<(u64, nat)> {
    match leb(s, 10) {
        Some((v, n)) => if n == 10 && s[9] >= 2 {
            None
        } else {
            Some((v as u64, n))
        },
        None => None,
    }
}

/// Relies on `prost::encoding::encode_varint`: appends the LEB128 encoding of `v`.
#[verifier::external_body]
pub(crate) fn put_varint(buf: &mut Vec<u8>, v: u64)
    ensures
        final(buf)@ == old(buf)@ + varint(v as nat),
{
    prost::encoding::encode_varint(v, buf)
}

/// Relies on `prost::encoding::encode_key`: appends the key of a varint
/// field under `tag`, the varint of `tag * 8`.
#[verifier::external_body]
pub(crate) fn put_varint_key(buf: &mut Vec<u8>, tag: u32)
    requires
        1 <= tag < 0x2000_0000,
    ensures
        final(buf)@ == old(buf)@ + varint((tag as nat) * 8),
{
    prost::encoding::encode_key(tag, prost::encoding::WireType::Varint, buf)
}

/// Relies on `prost::encoding::encode_key`: appends the key of a
/// length-delimited field under `tag`, the varint of `tag * 8 + 2`.
#[verifier::external_body]
pub(crate) fn put_bytes_key(buf: &mut Vec<u8>, tag: u32)
    requires
        1 <= tag < 0x2000_0000,
    ensures
        final(buf)@ == old(buf)@ + varint((tag as nat) * 8 + 2),
{
    prost::encoding::encode_key(tag, prost::encoding::WireType::LengthDelimited, buf)
}

/// Relies on `prost::encoding::decode_key`: reads the field key that starts
/// at `pos`, giving its tag, its wire type and its length; `None` where the
/// key is no varint, exceeds 32 bits, has tag 0 or names wire type 6 or 7.
#[verifier::external_body]
pub(crate) fn get_key(bytes: &[u8], pos: usize) -> (r: Option<(u32, u64, usize)>)
    requires
        pos <= bytes@.len(),
    ensures
        r == match parse_varint(bytes@.subrange(pos as int, bytes@.len() as int)) {
            Some((k, n)) => if k > u32::MAX || k % 8 > 5 || k / 8 == 0 {
                None
            } else {
                Some(((k / 8) as u32, (k % 8) as u64, n as usize))
            },
            None => None,
        },
{
    let mut rest: &[u8] = &bytes[pos..];
    let before = rest.len();
    match prost::encoding::decode_key(&mut rest) {
        Ok((tag, wire_type)) => Some((tag, match wire_type {
            prost::encoding::WireType::Varint => 0,
            prost::encoding::WireType::SixtyFourBit => 1,
            prost::encoding::WireType::LengthDelimited => 2,
            prost::encoding::WireType::StartGroup => 3,
            prost::encoding::WireType::EndGroup => 4,
            prost::encoding::WireType::ThirtyTwoBit => 5,
        }, before - rest.len())),
        Err(_) => None,
    }
}

/// Relies on `prost::encoding::decode_varint`: reads the varint that starts at
/// `pos`, giving its value and length, or `None` where no valid varint starts there.
#[verifier::external_body]
pub(crate) fn get_varint(bytes: &[u8], pos: usize) -> (r: Option<(u64, usize)>)
    requires
        pos <= bytes@.len(),
    ensures
        r == match parse_varint(bytes@.subrange(pos as int, bytes@.len() as int)) {
            Some((v, n)) => Some((v, n as usize)),
            None => None,
        },
{
    let mut rest: &[u8] = &bytes[pos..];
    let before = rest.len();
    match prost::encoding::decode_varint(&mut rest) {
        Ok(v) => Some((v, before - rest.len())),
        Err(_) => None,
    }
}

pub open spec fn pow128(k: nat) -> nat
    decreases k,
{
    if k == 0 {
        1
    } else {
        128 * pow128((k - 1) as nat)
    }
}

proof fn lemma_varint_shape(v: nat, k: nat)
    requires
        v < pow128(k),
        k >= 1,
    ensures
        1 <= varint(v).len() <= k,
        forall|i: int| 0 <= i < varint(v).len() - 1 ==> varint(v)[i] >= 128,
        varint(v)[varint(v).len() - 1] < 128,
        forall|rest: Seq<u8>| #[trigger] leb(varint(v) + rest, k) == Some((v, varint(v).len())),
        varint(v).len() == k ==> v / pow128((k - 1) as nat) == varint(v)[k - 1],
    decreases k,
{
    if v < 128 {
        assert forall|rest: Seq<u8>| #[trigger] leb(varint(v) + rest, k) == Some((v, varint(v).len())) by {
            assert((varint(v) + rest)[0] == v as u8);
        }
        if k == 1 {
            assert(pow128(0) == 1);
        }
    } else {
        assert(k >= 2) by {
            if k == 1 {
                assert(pow128(1) == 128 * pow128(0));
            }
        }
        let q = v / 128;
        assert(q < pow128((k - 1) as nat)) by {
            assert(pow128(k) == 128 * pow128((k - 1) as nat));
        }
        lemma_varint_shape(q, (k - 1) as nat);
        let head = ((v % 128) + 128) as u8;
        assert(varint(v) == seq![head] + varint(q));
        assert forall|i: int| 0 <= i < varint(v).len() - 1 implies varint(v)[i] >= 128 by {
            if i > 0 {
                assert(varint(v)[i] == varint(q)[i - 1]);
            }
        }
        assert(varint(v)[varint(v).len() - 1] == varint(q)[varint(q).len() - 1]);
        assert forall|rest: Seq<u8>| #[trigger] leb(varint(v) + rest, k) == Some((v, varint(v).len())) by {
            let s = varint(v) + rest;
            assert(s[0] == head);
            assert(s.drop_first() =~= varint(q) + rest);
            assert(leb(varint(q) + rest, (k - 1) as nat) == Some((q, varint(q).len())));
        }
        if varint(v).len() == k {
            assert(varint(v)[k - 1] == varint(q)[k - 2]);
            assert(pow128((k - 1) as nat) == 128 * pow128((k - 2) as nat));
            vstd::arithmetic::div_mod::lemma_div_denominator(v as int, 128, pow128((k - 2) as nat) as int);
        }
    }
}

/// A varint reads back as the value that was written, whatever follows it.
pub proof fn lemma_varint_round_trip(v: u64, rest: Seq<u8>)
    ensures
        parse_varint(varint(v as nat) + rest) == Some((v, varint(v as nat).len())),
        1 <= varint(v as nat).len() <= 10,
{
    reveal_with_fuel(pow128, 11);
    assert(pow128(10) == 1180591620717411303424nat);
    assert(pow128(9) == 9223372036854775808nat);
    lemma_varint_shape(v as nat, 10);
    let s = varint(v as nat) + rest;
    if varint(v as nat).len() == 10 {
        assert(s[9] == varint(v as nat)[9]);
        assert(v as nat / pow128(9) < 2);
    }
}

/// The kinds of field value on the wire.
#[derive(Clone, Copy, Debug, PartialEq, Eq, Structural)]
pub enum WireKind {
    /// A varint (wire type 0).
    Varint,
    /// A length-delimited byte string (wire type 2).
    Bytes,
    /// A fixed-width value (wire types 1 and 5), which is skipped.
    Fixed,
}

/// One field as it stands on the wire.
pub ghost struct WireField {
    pub tag: u32,
    pub kind: WireKind,
    pub num: u64,
    pub data: Seq<u8>,
}

/// A field read from the wire.
#[derive(Clone, Debug)]
pub struct RawField {
    pub tag: u32,
    pub kind: WireKind,
    pub num: u64,
    pub data: Vec<u8>,
}

impl View for RawField {
    type V = WireField;

    open spec fn view(&self) -> WireField {
        WireField { tag: self.tag, kind: self.kind, num: self.num, data: self.data@ }
    }
}

pub open spec fn raw_views(fs: Seq<RawField>) -> Seq<WireField> {
    fs.map_values(|f: RawField| f@)
}

/// The field at the front of `s` and its length on the wire.
pub open spec fn parse_field(s: Seq<u8>) -> Option<(WireField, nat)> {
    match parse_varint(s) {
        None => None,
        Some((key, n1)) => {
            let tag = key / 8;
            let wt = key % 8;
            let rest = s.subrange(n1 as int, s.len() as int);
            if key > u32::MAX || tag == 0 {
                None
            } else if wt == 0 {
                match parse_varint(rest) {
                    Some((v, n2)) => Some((WireField { tag: tag as u32, kind: WireKind::Varint, num: v, data: Seq::empty() }, n1 + n2)),
                    None => None,
                }
            } else if wt == 2 {
                match parse_varint(rest) {
                    Some((len, n2)) => if n2 + (len as nat) <= rest.len() {
                        Some((WireField {
                            tag: tag as u32,
                            kind: WireKind::Bytes,
                            num: 0,
                            data: rest.subrange(n2 as int, (n2 + len) as int),
                        }, n1 + n2 + (len as nat)))
                    } else {
                        None
                    },
                    None => None,
                }
            } else if wt == 1 && rest.len() >= 8 {
                Some((WireField { tag: tag as u32, kind: WireKind::Fixed, num: 0, data: Seq::empty() }, n1 + 8))
            } else if wt == 5 && rest.len() >= 4 {
                Some((WireField { tag: tag as u32, kind: WireKind::Fixed, num: 0, data: Seq::empty() }, n1 + 4))
            } else {
                None
            }
        },
    }
}

proof fn lemma_leb_len(s: Seq<u8>, budget: nat)
    requires
        leb(s, budget) is Some,
    ensures
        1 <= (leb(s, budget)->0).1 <= s.len(),
        (leb(s, budget)->0).1 <= budget,
    decreases budget,
{
    if s[0] >= 128 {
        lemma_leb_len(s.drop_first(), (budget - 1) as nat);
    }
}

proof fn lemma_parse_varint_len(s: Seq<u8>)
    requires
        parse_varint(s) is Some,
    ensures
        1 <= (parse_varint(s)->0).1 <= s.len(),
{
    lemma_leb_len(s, 10);
}

/// The fields of a message, read from the front of `s` to its end.
pub open spec fn parse_fields(s: Seq<u8>) -> Option<Seq<WireField>>
    decreases s.len(),
{
    if s.len() == 0 {
        Some(Seq::empty())
    } else {
        match parse_field(s) {
            Some((f, n)) => if 0 < n <= s.len() {
                match parse_fields(s.subrange(n as int, s.len() as int)) {
                    Some(fs) => Some(seq![f] + fs),
                    None => None,
                }
            } else {
                None
            },
            None => None,
        }
    }
}

/// The bytes of one field on the wire.
pub open spec fn field_bytes(f: WireField) -> Seq<u8> {
    match f.kind {
        WireKind::Varint => varint((f.tag as nat) * 8) + varint(f.num as nat),
        WireKind::Bytes => varint((f.tag as nat) * 8 + 2) + varint(f.data.len()) + f.data,
        WireKind::Fixed => Seq::empty(),
    }
}

/// The bytes of a sequence of fields.
pub open spec fn serialize(fs: Seq<WireField>) -> Seq<u8>
    decreases fs.len(),
{
    if fs.len() == 0 {
        Seq::empty()
    } else {
        field_bytes(fs[0]) + serialize(fs.drop_first())
    }
}

/// A field that can be written: a varint or a byte string under a tag of
/// at most 29 bits.
pub open spec fn writable(f: WireField) -> bool {
    &&& 1 <= f.tag < 0x2000_0000
    &&& f.kind != WireKind::Fixed
    &&& f.data.len() <= u64::MAX
    &&& f.kind == WireKind::Varint ==> f.data.len() == 0
    &&& f.kind == WireKind::Bytes ==> f.num == 0
}

pub open spec fn all_writable(fs: Seq<WireField>) -> bool {
    forall|i: int| 0 <= i < fs.len() ==> writable(#[trigger] fs[i])
}

#[verifier::rlimit(30)]
proof fn lemma_field_round_trip(f: WireField, rest: Seq<u8>)
    requires
        writable(f),
    ensures
        parse_field(field_bytes(f) + rest) == Some((f, field_bytes(f).len())),
{
    let s = field_bytes(f) + rest;
    if f.kind == WireKind::Varint {
        let key = (f.tag as nat * 8) as u64;
        assert(varint(key as nat) == varint((f.tag as nat) * 8));
        assert(s =~= varint(key as nat) + (varint(f.num as nat) + rest));
        lemma_varint_round_trip(key, varint(f.num as nat) + rest);
        let n1 = varint(key as nat).len();
        assert(s.subrange(n1 as int, s.len() as int) =~= varint(f.num as nat) + rest);
        lemma_varint_round_trip(f.num, rest);
        assert(f.data =~= Seq::<u8>::empty());
    } else {
        let key = (f.tag as nat * 8 + 2) as u64;
        let len = f.data.len() as u64;
        assert(s =~= varint(key as nat) + (varint(len as nat) + (f.data + rest)));
        lemma_varint_round_trip(key, varint(len as nat) + (f.data + rest));
        let n1 = varint(key as nat).len();
        let r1 = s.subrange(n1 as int, s.len() as int);
        assert(r1 =~= varint(len as nat) + (f.data + rest));
        lemma_varint_round_trip(len, f.data + rest);
        let n2 = varint(len as nat).len();
        assert(r1.subrange(n2 as int, n2 + len) =~= f.data);
    }
}

/// Written fields read back as the same fields.
pub proof fn lemma_fields_round_trip(fs: Seq<WireField>)
    requires
        all_writable(fs),
    ensures
        parse_fields(serialize(fs)) == Some(fs),
    decreases fs.len(),
{
    if fs.len() > 0 {
        let f = fs[0];
        let rest = serialize(fs.drop_first());
        assert(all_writable(fs.drop_first())) by {
            assert forall|i: int| 0 <= i < fs.drop_first().len() implies writable(#[trigger] fs.drop_first()[i]) by {
                assert(fs.drop_first()[i] == fs[i + 1]);
            }
        }
        assert(writable(fs[0]));
        lemma_fields_round_trip(fs.drop_first());
        lemma_field_round_trip(f, rest);
        let s = serialize(fs);
        assert(s == field_bytes(f) + rest);
        let n = field_bytes(f).len();
        assert(n > 0) by {
            if f.kind == WireKind::Varint {
                lemma_varint_round_trip((f.tag as nat * 8) as u64, Seq::empty());
            } else {
                lemma_varint_round_trip((f.tag as nat * 8 + 2) as u64, Seq::empty());
            }
        }
        assert(s.subrange(n as int, s.len() as int) =~= rest);
        assert(seq![f] + fs.drop_first() =~= fs);
    }
}

/// Reads the fields of a message.
#[verifier::rlimit(80)]
pub fn read_fields(bytes: &[u8]) -> (r: Option<Vec<RawField>>)
    ensures
        match parse_fields(bytes@) {
            Some(fs) => r is Some && raw_views(r->0@) == fs,
            None => r is None,
        },
{
    let mut out: Vec<RawField> = Vec::new();
    let mut pos: usize = 0;
    proof {
        assert(bytes@.subrange(0, bytes@.len() as int) =~= bytes@);
        match parse_fields(bytes@) {
            Some(fs) => {
                assert(raw_views(out@) + fs =~= fs);
            },
            None => {},
        }
    }
    while pos < bytes.len()
        invariant
            pos <= bytes@.len(),
            parse_fields(bytes@) == match parse_fields(bytes@.subrange(pos as int, bytes@.len() as int)) {
                Some(fs) => Some(raw_views(out@) + fs),
                None => None::<Seq<WireField>>,
            },
        decreases bytes.len() - pos,
    {
        let ghost s = bytes@.subrange(pos as int, bytes@.len() as int);
        let key = match get_key(bytes, pos) {
            Some(k) => k,
            None => return None,
        };
        proof {
            lemma_parse_varint_len(s);
        }
        let (tag, wt, n1) = key;
        let after_key = pos + n1;
        let ghost rest = s.subrange(n1 as int, s.len() as int);
        assert(rest =~= bytes@.subrange(after_key as int, bytes@.len() as int));
        let field: RawField;
        let next: usize;
        if wt == 0 {
            match get_varint(bytes, after_key) {
                Some((v, n2)) => {
                    proof {
                        lemma_parse_varint_len(rest);
                    }
                    field = RawField { tag, kind: WireKind::Varint, num: v, data: Vec::new() };
                    next = after_key + n2;
                },
                None => return None,
            }
        } else if wt == 2 {
            match get_varint(bytes, after_key) {
                Some((len, n2)) => {
                    proof {
                        lemma_parse_varint_len(rest);
                    }
                    let avail = bytes.len() - after_key - n2;
                    if len > avail as u64 {
                        return None;
                    }
                    let start = after_key + n2;
                    let stop = start + len as usize;
                    let mut data: Vec<u8> = Vec::new();
                    let mut j: usize = start;
                    while j < stop
                        invariant
                            start <= j <= stop <= bytes@.len(),
                            data@ == bytes@.subrange(start as int, j as int),
                        decreases stop - j,
                    {
                        data.push(bytes[j]);
                        proof {
                            assert(data@ =~= bytes@.subrange(start as int, j + 1));
                        }
                        j = j + 1;
                    }
                    assert(data@ =~= rest.subrange(n2 as int, n2 + len));
                    field = RawField { tag, kind: WireKind::Bytes, num: 0, data };
                    next = stop;
                },
                None => return None,
            }
        } else if wt == 1 && bytes.len() - after_key >= 8 {
            field = RawField { tag, kind: WireKind::Fixed, num: 0, data: Vec::new() };
            next = after_key + 8;
        } else if wt == 5 && bytes.len() - after_key >= 4 {
            field = RawField { tag, kind: WireKind::Fixed, num: 0, data: Vec::new() };
            next = after_key + 4;
        } else {
            return None;
        }
        proof {
            assert(field.data@ =~= (parse_field(s)->0).0.data);
            assert(field@ == (parse_field(s)->0).0);
            assert((parse_field(s)->0).1 == next - pos);
            assert(s.subrange((next - pos) as int, s.len() as int) =~= bytes@.subrange(next as int, bytes@.len() as int));
        }
        let ghost before = out@;
        out.push(field);
        proof {
            assert(raw_views(out@) =~= raw_views(before).push(field@));
            match parse_fields(bytes@.subrange(next as int, bytes@.len() as int)) {
                Some(fs) => {
                    assert(raw_views(before) + (seq![field@] + fs) =~= raw_views(out@) + fs);
                },
                None => {},
            }
        }
        pos = next;
    }
    assert(bytes@.subrange(pos as int, bytes@.len() as int) =~= Seq::<u8>::empty());
    assert(raw_views(out@) + Seq::<WireField>::empty() =~= raw_views(out@));
    Some(out)
}

/// Appends a varint field.
pub fn put_varint_field(buf: &mut Vec<u8>, tag: u32, v: u64)
    requires
        1 <= tag < 0x2000_0000,
    ensures
        final(buf)@ == old(buf)@ + field_bytes(WireField { tag, kind: WireKind::Varint, num: v, data: Seq::empty() }),
{
    put_varint_key(buf, tag);
    put_varint(buf, v);
    assert(final(buf)@ =~= old(buf)@ + field_bytes(WireField { tag, kind: WireKind::Varint, num: v, data: Seq::empty() }));
}

/// Appends a length-delimited field.
pub fn put_bytes_field(buf: &mut Vec<u8>, tag: u32, data: &[u8])
    requires
        1 <= tag < 0x2000_0000,
    ensures
        final(buf)@ == old(buf)@ + field_bytes(WireField { tag, kind: WireKind::Bytes, num: 0, data: data@ }),
        data@.len() <= u64::MAX,
{
    put_bytes_key(buf, tag);
    put_varint(buf, data.len() as u64);
    let ghost mid = buf@;
    let mut i: usize = 0;
    while i < data.len()
        invariant
            i <= data@.len(),
            buf@ == mid + data@.subrange(0, i as int),
        decreases data.len() - i,
    {
        buf.push(data[i]);
        proof {
            assert(buf@ =~= mid + data@.subrange(0, i + 1));
        }
        i = i + 1;
    }
    assert(data@.subrange(0, i as int) =~= data@);
    assert(final(buf)@ =~= old(buf)@ + field_bytes(WireField { tag, kind: WireKind::Bytes, num: 0, data: data@ }));
}

pub open spec fn byte_views(v: Seq<Vec<u8>>) -> Seq<Seq<u8>> {
    v.map_values(|b: Vec<u8>| b@)
}

/// The contents of the byte strings `fs`.
pub open spec fn datas(fs: Seq<WireField>) -> Seq<Seq<u8>> {
    fs.map_values(|f: WireField| f.data)
}

/// The values of the varints `fs`.
pub open spec fn nums(fs: Seq<WireField>) -> Seq<u64> {
    fs.map_values(|f: WireField| f.num)
}

/// The fields of `fs` under `tag`, in order.
pub open spec fn with_tag(fs: Seq<WireField>, tag: u32) -> Seq<WireField> {
    fs.filter(|f: WireField| f.tag == tag)
}

/// Every field of `fs` under `tag` is of kind `kind`.
pub open spec fn kinds_are(fs: Seq<WireField>, tag: u32, kind: WireKind) -> bool {
    forall|i: int| 0 <= i < with_tag(fs, tag).len() ==> (#[trigger] with_tag(fs, tag)[i]).kind == kind
}

/// The value of the last varint under `tag` (0 where there is none), or
/// `None` where a field under `tag` is not a varint.
#[verifier::opaque]
pub open spec fn last_number(fs: Seq<WireField>, tag: u32) -> Option<u64> {
    if !kinds_are(fs, tag, WireKind::Varint) {
        None
    } else if with_tag(fs, tag).len() == 0 {
        Some(0)
    } else {
        Some(with_tag(fs, tag).last().num)
    }
}

/// The contents of the last byte string under `tag` (`Some(None)` where
/// there is none), or `None` where a field under `tag` is not a byte string.
#[verifier::opaque]
pub open spec fn last_data(fs: Seq<WireField>, tag: u32) -> Option<Option<Seq<u8>>> {
    if !kinds_are(fs, tag, WireKind::Bytes) {
        None
    } else if with_tag(fs, tag).len() == 0 {
        Some(None)
    } else {
        Some(Some(with_tag(fs, tag).last().data))
    }
}

/// The contents of every byte string under `tag`, in order, or `None`
/// where a field under `tag` is not a byte string.
#[verifier::opaque]
pub open spec fn all_data(fs: Seq<WireField>, tag: u32) -> Option<Seq<Seq<u8>>> {
    if !kinds_are(fs, tag, WireKind::Bytes) {
        None
    } else {
        Some(datas(with_tag(fs, tag)))
    }
}

/// The value of every varint under `tag`, in order, or `None` where a field
/// under `tag` is not a varint.
#[verifier::opaque]
pub open spec fn all_numbers(fs: Seq<WireField>, tag: u32) -> Option<Seq<u64>> {
    if !kinds_are(fs, tag, WireKind::Varint) {
        None
    } else {
        Some(nums(with_tag(fs, tag)))
    }
}

proof fn lemma_with_tag_step(fs: Seq<WireField>, tag: u32, i: int)
    requires
        0 <= i < fs.len(),
    ensures
        with_tag(fs.subrange(0, i + 1), tag) == if fs[i].tag == tag {
            with_tag(fs.subrange(0, i), tag).push(fs[i])
        } else {
            with_tag(fs.subrange(0, i), tag)
        },
{
    reveal(Seq::filter);
    assert(fs.subrange(0, i + 1).drop_last() =~= fs.subrange(0, i));
}

/// Collects the fields of `fields` under `tag`, failing where one is not of kind `kind`.
fn collect_tag(fields: &Vec<RawField>, tag: u32, kind: WireKind) -> (r: Option<Vec<&RawField>>)
    ensures
        r is Some <==> kinds_are(raw_views(fields@), tag, kind),
        r matches Some(v) ==> v@.len() == with_tag(raw_views(fields@), tag).len() && forall|k: int|
            0 <= k < v@.len() ==> (#[trigger] v@[k])@ == with_tag(raw_views(fields@), tag)[k],
{
    let ghost fs = raw_views(fields@);
    let mut out: Vec<&RawField> = Vec::new();
    let mut i: usize = 0;
    while i < fields.len()
        invariant
            i <= fields.len(),
            fs == raw_views(fields@),
            kinds_are(fs.subrange(0, i as int), tag, kind),
            out@.len() == with_tag(fs.subrange(0, i as int), tag).len(),
            forall|k: int| 0 <= k < out@.len() ==> (#[trigger] out@[k])@ == with_tag(fs.subrange(0, i as int), tag)[k],
        decreases fields.len() - i,
    {
        proof {
            lemma_with_tag_step(fs, tag, i as int);
            assert(fs[i as int] == fields@[i as int]@);
        }
        let f = &fields[i];
        if f.tag == tag {
            if f.kind != kind {
                proof {
                    let w = with_tag(fs.subrange(0, i + 1), tag);
                    assert(w.last().kind != kind);
                    lemma_kinds_prefix(fs, tag, kind, i + 1);
                }
                return None;
            }
            out.push(f);
        }
        i = i + 1;
    }
    assert(fs.subrange(0, i as int) =~= fs);
    Some(out)
}

proof fn lemma_kinds_prefix(fs: Seq<WireField>, tag: u32, kind: WireKind, n: int)
    requires
        0 <= n <= fs.len(),
        !kinds_are(fs.subrange(0, n), tag, kind),
    ensures
        !kinds_are(fs, tag, kind),
    decreases fs.len() - n,
{
    if n < fs.len() {
        lemma_with_tag_step(fs, tag, n);
        let w = with_tag(fs.subrange(0, n), tag);
        let i = choose|i: int| 0 <= i < w.len() && (#[trigger] w[i]).kind != kind;
        let w2 = with_tag(fs.subrange(0, n + 1), tag);
        assert(w2[i] == w[i]);
        lemma_kinds_prefix(fs, tag, kind, n + 1);
    } else {
        assert(fs.subrange(0, n) =~= fs);
    }
}

/// The last varint under `tag`, or 0; `None` where a field under `tag` is not a varint.
pub fn get_number(fields: &Vec<RawField>, tag: u32) -> (r: Option<u64>)
    ensures
        r == last_number(raw_views(fields@), tag),
{
    reveal(last_number);
    match collect_tag(fields, tag, WireKind::Varint) {
        None => None,
        Some(v) => if v.len() == 0 {
            Some(0)
        } else {
            Some(v[v.len() - 1].num)
        },
    }
}

/// The last byte string under `tag`, if any; `None` where a field under
/// `tag` is not a byte string.
pub fn get_data(fields: &Vec<RawField>, tag: u32) -> (r: Option<Option<Vec<u8>>>)
    ensures
        match last_data(raw_views(fields@), tag) {
            None => r is None,
            Some(None) => r == Some(None::<Vec<u8>>),
            Some(Some(d)) => r matches Some(Some(x)) && x@ == d,
        },
{
    reveal(last_data);
    match collect_tag(fields, tag, WireKind::Bytes) {
        None => None,
        Some(v) => if v.len() == 0 {
            Some(None)
        } else {
            Some(Some(crate::fragment::vec_copy_u8(&v[v.len() - 1].data)))
        },
    }
}

/// Every byte string under `tag`, in order; `None` where a field under
/// `tag` is not a byte string.
pub fn get_all_data(fields: &Vec<RawField>, tag: u32) -> (r: Option<Vec<Vec<u8>>>)
    ensures
        match all_data(raw_views(fields@), tag) {
            None => r is None,
            Some(ds) => r matches Some(x) && x@.len() == ds.len() && forall|k: int| 0 <= k < ds.len() ==> (#[trigger] x@[k])@ == ds[k],
        },
        r matches Some(x) ==> all_data(raw_views(fields@), tag) == Some(byte_views(x@)),
{
    reveal(all_data);
    match collect_tag(fields, tag, WireKind::Bytes) {
        None => None,
        Some(v) => {
            let mut out: Vec<Vec<u8>> = Vec::new();
            let mut k: usize = 0;
            while k < v.len()
                invariant
                    k <= v@.len(),
                    out@.len() == k,
                    forall|j: int| 0 <= j < k ==> (#[trigger] out@[j])@ == v@[j].data@,
                decreases v.len() - k,
            {
                out.push(crate::fragment::vec_copy_u8(&v[k].data));
                k = k + 1;
            }
            proof {
                assert(byte_views(out@) =~= datas(with_tag(raw_views(fields@), tag)));
            }
            Some(out)
        },
    }
}

/// Every varint under `tag`, in order; `None` where a field under `tag` is not a varint.
pub fn get_all_numbers(fields: &Vec<RawField>, tag: u32) -> (r: Option<Vec<u64>>)
    ensures
        match all_numbers(raw_views(fields@), tag) {
            None => r is None,
            Some(ns) => r matches Some(x) && x@ == ns,
        },
{
    reveal(all_numbers);
    match collect_tag(fields, tag, WireKind::Varint) {
        None => None,
        Some(v) => {
            let mut out: Vec<u64> = Vec::new();
            let mut k: usize = 0;
            while k < v.len()
                invariant
                    k <= v@.len(),
                    out@.len() == k,
                    forall|j: int| 0 <= j < k ==> out@[j] == v@[j].num,
                decreases v.len() - k,
            {
                out.push(v[k].num);
                k = k + 1;
            }
            proof {
                assert(out@ =~= nums(with_tag(raw_views(fields@), tag)));
            }
            Some(out)
        },
    }
}

/// The value of the last varint under `tag`, `Some(None)` where there is
/// none, or `None` where a field under `tag` is not a varint.
#[verifier::opaque]
pub open spec fn last_opt_number(fs: Seq<WireField>, tag: u32) -> Option<Option<u64>> {
    if !kinds_are(fs, tag, WireKind::Varint) {
        None
    } else if with_tag(fs, tag).len() == 0 {
        Some(None)
    } else {
        Some(Some(with_tag(fs, tag).last().num))
    }
}

pub fn get_opt_number(fields: &Vec<RawField>, tag: u32) -> (r: Option<Option<u64>>)
    ensures
        r == last_opt_number(raw_views(fields@), tag),
{
    reveal(last_opt_number);
    match collect_tag(fields, tag, WireKind::Varint) {
        None => None,
        Some(v) => if v.len() == 0 {
            Some(None)
        } else {
            Some(Some(v[v.len() - 1].num))
        },
    }
}

/// Picking the fields under a tag distributes over concatenation.
pub broadcast proof fn lemma_with_tag_add(a: Seq<WireField>, b: Seq<WireField>, tag: u32)
    ensures
        #[trigger] with_tag(a + b, tag) == with_tag(a, tag) + with_tag(b, tag),
{
    Seq::<WireField>::filter_distributes_over_add(a, b, |f: WireField| f.tag == tag);
}

/// The fields under `tag` of a list whose fields all share the tag `t`.
pub proof fn lemma_with_tag_uniform(fs: Seq<WireField>, t: u32, tag: u32)
    requires
        forall|i: int| 0 <= i < fs.len() ==> (#[trigger] fs[i]).tag == t,
    ensures
        with_tag(fs, tag) == if t == tag { fs } else { Seq::<WireField>::empty() },
    decreases fs.len(),
{
    reveal(Seq::filter);
    if fs.len() > 0 {
        let rest = fs.drop_last();
        assert forall|i: int| 0 <= i < rest.len() implies (#[trigger] rest[i]).tag == t by {
            assert(rest[i] == fs[i]);
        }
        lemma_with_tag_uniform(rest, t, tag);
        if t == tag {
            assert(rest.push(fs.last()) =~= fs);
        }
    } else {
        assert(fs =~= Seq::<WireField>::empty());
    }
}

/// The fields of a message made of pieces, in order.
#[verifier::opaque]
pub open spec fn flat(ps: Seq<Seq<WireField>>) -> Seq<WireField>
    decreases ps.len(),
{
    if ps.len() == 0 {
        Seq::empty()
    } else {
        flat(ps.drop_last()) + ps.last()
    }
}

/// Piece `j` of `ps` holds only fields under `tags[j]`, and no two pieces
/// share a tag.
pub open spec fn tagged(ps: Seq<Seq<WireField>>, tags: Seq<u32>) -> bool {
    &&& ps.len() == tags.len()
    &&& forall|j: int| 0 <= j < ps.len() ==> all_tag(#[trigger] ps[j], tags[j])
    &&& forall|a: int, b: int| 0 <= a < b < tags.len() ==> tags[a] != tags[b]
}

/// Every field of `fs` is under `t`.
pub open spec fn all_tag(fs: Seq<WireField>, t: u32) -> bool {
    forall|i: int| 0 <= i < fs.len() ==> (#[trigger] fs[i]).tag == t
}

pub proof fn lemma_flat_empty()
    ensures
        flat(Seq::<Seq<WireField>>::empty()) == Seq::<WireField>::empty(),
{
    reveal(flat);
}

pub proof fn lemma_flat_push(ps: Seq<Seq<WireField>>, p: Seq<WireField>)
    ensures
        flat(ps.push(p)) == flat(ps) + p,
{
    reveal(flat);
    assert(ps.push(p).drop_last() =~= ps);
}

/// In a message made of tagged pieces, the fields under a piece's tag are that piece.
pub proof fn lemma_flat_with_tag(ps: Seq<Seq<WireField>>, tags: Seq<u32>, t: u32)
    requires
        tagged(ps, tags),
    ensures
        forall|j: int| 0 <= j < tags.len() && tags[j] == t ==> with_tag(flat(ps), t) == ps[j],
        (forall|j: int| 0 <= j < tags.len() ==> tags[j] != t) ==> with_tag(flat(ps), t) == Seq::<WireField>::empty(),
    decreases ps.len(),
{
    reveal(flat);
    if ps.len() == 0 {
        reveal(Seq::filter);
    } else {
        let n = ps.len() - 1;
        let rest = ps.drop_last();
        let rtags = tags.drop_last();
        assert(tagged(rest, rtags)) by {
            assert forall|j: int| 0 <= j < rest.len() implies all_tag(#[trigger] rest[j], rtags[j]) by {
                assert(rest[j] == ps[j]);
                assert(all_tag(ps[j], tags[j]));
            }
        }
        lemma_flat_with_tag(rest, rtags, t);
        lemma_with_tag_add(flat(rest), ps.last(), t);
        assert(all_tag(ps[n], tags[n]));
        lemma_with_tag_uniform(ps.last(), tags[n], t);
        if tags[n] == t {
            assert forall|j: int| 0 <= j < rtags.len() implies rtags[j] != t by {
                assert(tags[j] != tags[n]);
            }
            assert(Seq::<WireField>::empty() + ps.last() =~= ps.last());
            assert forall|j: int| 0 <= j < tags.len() && tags[j] == t implies with_tag(flat(ps), t) == ps[j] by {
                if j < n {
                    assert(tags[j] != tags[n]);
                }
            }
        } else {
            assert(with_tag(flat(rest), t) + Seq::<WireField>::empty() =~= with_tag(flat(rest), t));
            assert forall|j: int| 0 <= j < tags.len() && tags[j] == t implies with_tag(flat(ps), t) == ps[j] by {
                assert(j < n);
                assert(rtags[j] == tags[j]);
                assert(rest[j] == ps[j]);
            }
            if forall|j: int| 0 <= j < tags.len() ==> tags[j] != t {
                assert forall|j: int| 0 <= j < rtags.len() implies rtags[j] != t by {
                    assert(rtags[j] == tags[j]);
                }
            }
        }
    }
}

/// A message made of writable pieces is writable.
pub proof fn lemma_flat_writable(ps: Seq<Seq<WireField>>)
    requires
        forall|j: int| 0 <= j < ps.len() ==> all_writable(#[trigger] ps[j]),
    ensures
        all_writable(flat(ps)),
    decreases ps.len(),
{
    reveal(flat);
    if ps.len() > 0 {
        let rest = ps.drop_last();
        assert forall|j: int| 0 <= j < rest.len() implies all_writable(#[trigger] rest[j]) by {
            assert(rest[j] == ps[j]);
        }
        lemma_flat_writable(rest);
        let a = flat(rest);
        let b = ps.last();
        assert(all_writable(b));
        assert forall|i: int| 0 <= i < (a + b).len() implies writable(#[trigger] (a + b)[i]) by {
            if i < a.len() {
                assert((a + b)[i] == a[i]);
            } else {
                assert((a + b)[i] == b[i - a.len()]);
            }
        }
    }
}

pub proof fn lemma_last_number_single(fs: Seq<WireField>, tag: u32, v: u64)
    requires
        with_tag(fs, tag) == (if v == 0 { Seq::<WireField>::empty() } else {
            seq![WireField { tag, kind: WireKind::Varint, num: v, data: Seq::empty() }]
        }),
    ensures
        last_number(fs, tag) == Some(v),
        last_opt_number(fs, tag) == if v == 0 { Some(None::<u64>) } else { Some(Some(v)) },
{
    reveal(last_number);
    reveal(last_opt_number);
}

pub proof fn lemma_last_opt_number_single(fs: Seq<WireField>, tag: u32, v: Option<u64>)
    requires
        with_tag(fs, tag) == (match v {
            Some(n) => seq![WireField { tag, kind: WireKind::Varint, num: n, data: Seq::empty() }],
            None => Seq::<WireField>::empty(),
        }),
    ensures
        last_opt_number(fs, tag) == Some(v),
{
    reveal(last_opt_number);
}

pub proof fn lemma_last_data_single(fs: Seq<WireField>, tag: u32, d: Option<Seq<u8>>)
    requires
        with_tag(fs, tag) == (match d {
            Some(b) => seq![WireField { tag, kind: WireKind::Bytes, num: 0, data: b }],
            None => Seq::<WireField>::empty(),
        }),
    ensures
        last_data(fs, tag) == Some(d),
{
    reveal(last_data);
}

pub proof fn lemma_all_data_uniform(fs: Seq<WireField>, tag: u32, ms: Seq<WireField>)
    requires
        with_tag(fs, tag) == ms,
        forall|i: int| 0 <= i < ms.len() ==> (#[trigger] ms[i]).kind == WireKind::Bytes,
    ensures
        all_data(fs, tag) == Some(datas(ms)),
{
    reveal(all_data);
}


pub proof fn lemma_all_numbers_uniform(fs: Seq<WireField>, tag: u32, ms: Seq<WireField>)
    requires
        with_tag(fs, tag) == ms,
        forall|i: int| 0 <= i < ms.len() ==> (#[trigger] ms[i]).kind == WireKind::Varint,
    ensures
        all_numbers(fs, tag) == Some(nums(ms)),
{
    reveal(all_numbers);
}

} // verus!
