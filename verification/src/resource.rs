//! Resource records: a name, a type, a class, a lifetime and the data.

use vstd::prelude::*;
use crate::error::DecodeError;
use crate::error::EncodeError;
use crate::name::decode_name;
use crate::name::encode_name;
use crate::name::has_long_label;
use crate::name::lemma_decode_name_wire;
use crate::name::lemma_decoded_name_is_wire;
use crate::name::lemma_name_cut_short;
use crate::name::name_wire;
use crate::name::valid_name;
use crate::name::DomainName;
use crate::name::MAX_NAME_LEN;
use crate::question::DnsQuestion;
use crate::question::QClass;
use crate::question::QType;
use crate::question::QuestionView;
use crate::reader::PacketReader;
use crate::wire::cut;
use crate::wire::has_bytes;
use crate::wire::lemma_cut_keeps;
use crate::wire::lemma_regroup;
use crate::wire::lemma_u16_bytes_of_read;
use crate::wire::lemma_u16_read_of_bytes;
use crate::wire::lemma_u32_bytes_of_read;
use crate::wire::lemma_u32_read_of_bytes;
use crate::wire::prepend;
use crate::wire::prepend_bytes;
use crate::wire::push_all;
use crate::wire::push_u16;
use crate::wire::push_u32;
use crate::wire::u16_at;
use crate::wire::u16_bytes;
use crate::wire::u32_at;
use crate::wire::u32_bytes;
use crate::wire::Decoded;

verus! {

/// The lifetime, in seconds, of a record built without one.
pub const DEFAULT_TTL: u32 = 600;

/// The most bytes of data that a record's 16-bit length field can announce.
pub const MAX_RDATA_LEN: usize = 0xFFFF;

/// The bytes that a record holds before its data and behind its name: type,
/// class, lifetime and the length of the data.
pub const FIXED_LEN: usize = 10;

/// The data of a resource record.
#[allow(clippy::upper_case_acronyms)]
#[derive(Debug, PartialEq, Eq)]
pub enum RData {
    /// An IPv4 address: its four bytes.
    A([u8; 4]),
    /// An IPv6 address: its eight 16-bit groups.
    AAAA([u16; 8]),
    /// The data of a record of another type, as it stood on the wire.
    Opaque(Vec<u8>),
}

/// The data of a resource record as a mathematical value.
#[allow(clippy::upper_case_acronyms)]
pub enum RDataView {
    A([u8; 4]),
    AAAA([u16; 8]),
    Opaque(Seq<u8>),
}

impl View for RData {
    type V = RDataView;

    open spec fn view(&self) -> RDataView {
        match *self {
            RData::A(octets) => RDataView::A(octets),
            RData::AAAA(groups) => RDataView::AAAA(groups),
            RData::Opaque(bytes) => RDataView::Opaque(bytes@),
        }
    }
}

/// What a resolver said of a question, as a mathematical value.
pub open spec fn resolution_view(o: Option<RData>) -> Option<RDataView> {
    match o {
        Some(rdata) => Some(rdata@),
        None => None,
    }
}

/// The data with which a server that knows only its own host answers a
/// question of type `typ`: 127.0.0.1 for `A`, ::1 for `AAAA`, and nothing
/// for every other type.
pub open spec fn loopback_data(typ: QType) -> Option<RDataView> {
    match typ {
        QType::A => Some(RDataView::A([127, 0, 0, 1])),
        QType::AAAA => Some(RDataView::AAAA([0, 0, 0, 0, 0, 0, 0, 1])),
        _ => None,
    }
}

/// The sixteen bytes of eight groups, each group with its high byte first.
pub open spec fn groups_bytes(groups: [u16; 8]) -> Seq<u8> {
    u16_bytes(groups[0]) + u16_bytes(groups[1]) + u16_bytes(groups[2]) + u16_bytes(groups[3])
        + u16_bytes(groups[4]) + u16_bytes(groups[5]) + u16_bytes(groups[6]) + u16_bytes(groups[7])
}

impl RDataView {
    /// The bytes that stand for the data on the wire.
    pub open spec fn bytes(self) -> Seq<u8> {
        match self {
            RDataView::A(octets) => octets@,
            RDataView::AAAA(groups) => groups_bytes(groups),
            RDataView::Opaque(bytes) => bytes,
        }
    }

    /// Whether the data is of the form that records of type `typ` hold: an
    /// IPv4 address for `A`, an IPv6 address for `AAAA`, a run of at most
    /// 65535 bytes for every other type.
    pub open spec fn fits(self, typ: QType) -> bool {
        match self {
            RDataView::A(_) => typ == QType::A,
            RDataView::AAAA(_) => typ == QType::AAAA,
            RDataView::Opaque(bytes) => typ != QType::A && typ != QType::AAAA && bytes.len()
                <= MAX_RDATA_LEN,
        }
    }
}

/// The data of a record of type `typ` that stands in `data` at offset
/// `pos`: four bytes for `A`, eight 16-bit groups for `AAAA`, and
/// `rd_length` bytes for every other type.
pub open spec fn decode_rdata(typ: QType, rd_length: u16, data: Seq<u8>, pos: int) -> Decoded<
    RDataView,
> {
    match typ {
        QType::A => if !has_bytes(data, pos, 4) {
            Err(DecodeError::Truncated)
        } else {
            Ok((RDataView::A([data[pos], data[pos + 1], data[pos + 2], data[pos + 3]]), pos + 4))
        },
        QType::AAAA => if !has_bytes(data, pos, 16) {
            Err(DecodeError::Truncated)
        } else {
            Ok(
                (
                    RDataView::AAAA(
                        [
                            u16_at(data, pos),
                            u16_at(data, pos + 2),
                            u16_at(data, pos + 4),
                            u16_at(data, pos + 6),
                            u16_at(data, pos + 8),
                            u16_at(data, pos + 10),
                            u16_at(data, pos + 12),
                            u16_at(data, pos + 14),
                        ],
                    ),
                    pos + 16,
                ),
            )
        },
        _ => if !has_bytes(data, pos, rd_length as int) {
            Err(DecodeError::Truncated)
        } else {
            Ok((RDataView::Opaque(data.subrange(pos, pos + rd_length)), pos + rd_length))
        },
    }
}

/// One resource record.
#[derive(Debug, PartialEq, Eq)]
pub struct DnsResource {
    pub name: DomainName,
    pub typ: QType,
    pub class: QClass,
    /// The lifetime of the record in seconds.
    pub ttl: u32,
    pub rdata: RData,
}

/// A resource record as a mathematical value.
pub struct ResourceView {
    pub name: Seq<Seq<u8>>,
    pub typ: QType,
    pub class: QClass,
    pub ttl: u32,
    pub rdata: RDataView,
}

impl View for DnsResource {
    type V = ResourceView;

    open spec fn view(&self) -> ResourceView {
        ResourceView {
            name: self.name@,
            typ: self.typ,
            class: self.class,
            ttl: self.ttl,
            rdata: self.rdata@,
        }
    }
}

impl ResourceView {
    /// Whether the record can travel and come back as it is: its name is
    /// valid, type and class are what their codes decode to, and the data is
    /// of the form that the type asks for.
    pub open spec fn valid(self) -> bool {
        &&& valid_name(self.name)
        &&& self.typ.is_canonical()
        &&& self.class.is_canonical()
        &&& self.rdata.fits(self.typ)
    }

    /// The record that answers `question` with `rdata`: name, type and
    /// class are those of the question.
    pub open spec fn answering(question: QuestionView, rdata: RDataView, ttl: u32) -> ResourceView {
        ResourceView {
            name: question.qname,
            typ: question.qtype,
            class: question.qclass,
            ttl,
            rdata,
        }
    }
}

/// The record that stands in `data` at offset `pos`: a name, then type,
/// class, lifetime and data length in ten bytes, then the data as its type
/// asks for it.
pub open spec fn decode_resource(data: Seq<u8>, pos: int) -> Decoded<ResourceView> {
    match decode_name(data, pos) {
        Err(e) => Err(e),
        Ok((name, next)) => if !has_bytes(data, next, FIXED_LEN as int) {
            Err(DecodeError::Truncated)
        } else {
            let typ = QType::of_code(u16_at(data, next));
            match decode_rdata(typ, u16_at(data, next + 8), data, next + FIXED_LEN) {
                Err(e) => Err(e),
                Ok((rdata, end)) => Ok(
                    (
                        ResourceView {
                            name,
                            typ,
                            class: QClass::of_code(u16_at(data, next + 2)),
                            ttl: u32_at(data, next + 4),
                            rdata,
                        },
                        end,
                    ),
                ),
            }
        },
    }
}

/// The ten bytes between the name and the data of a record: the codes of
/// type and class, the lifetime, and the number of bytes of the data.
pub open spec fn fixed_bytes(r: ResourceView) -> Seq<u8> {
    u16_bytes(r.typ.wire_code()) + u16_bytes(r.class.wire_code()) + u32_bytes(r.ttl) + u16_bytes(
        r.rdata.bytes().len() as u16,
    )
}

/// The bytes of a record: the wire form of its name, the ten fixed bytes
/// and the data. A name without a wire form is an error, and so, after it,
/// is data of more than 65535 bytes.
pub open spec fn encode_resource(r: ResourceView) -> Result<Seq<u8>, EncodeError> {
    match encode_name(r.name) {
        Err(e) => Err(e),
        Ok(name) => if r.rdata.bytes().len() > MAX_RDATA_LEN {
            Err(EncodeError::RdataTooLong)
        } else {
            Ok(name + fixed_bytes(r) + r.rdata.bytes())
        },
    }
}

/// The `count` records that stand one behind the other in `data` from offset
/// `pos` on. The first that cannot be decoded decides the error.
pub open spec fn decode_resources(data: Seq<u8>, pos: int, count: nat) -> Decoded<
    Seq<ResourceView>,
>
    decreases count,
{
    if count == 0 {
        Ok((Seq::empty(), pos))
    } else {
        match decode_resource(data, pos) {
            Err(e) => Err(e),
            Ok((r, next)) => prepend(seq![r], decode_resources(data, next, (count - 1) as nat)),
        }
    }
}

/// The bytes of records in a row. The first that cannot be encoded decides
/// the error.
pub open spec fn encode_resources(resources: Seq<ResourceView>) -> Result<Seq<u8>, EncodeError>
    decreases resources.len(),
{
    if resources.len() == 0 {
        Ok(Seq::empty())
    } else {
        match encode_resource(resources.first()) {
            Err(e) => Err(e),
            Ok(bytes) => prepend_bytes(bytes, encode_resources(resources.drop_first())),
        }
    }
}

/// The records of a vector as mathematical values.
pub open spec fn resources_view(resources: Seq<DnsResource>) -> Seq<ResourceView> {
    resources.map_values(|r: DnsResource| r@)
}

/// Data that was decoded is decoded alike from every buffer that is cut off
/// behind it, and a buffer that is cut off within it is truncated.
pub proof fn lemma_rdata_cut_short(typ: QType, rd_length: u16, data: Seq<u8>, pos: int, k: int)
    requires
        decode_rdata(typ, rd_length, data, pos).is_ok(),
        0 <= pos <= k <= data.len(),
    ensures
        pos <= decode_rdata(typ, rd_length, data, pos).unwrap().1 <= data.len(),
        decode_rdata(typ, rd_length, cut(data, k), pos) == if k >= decode_rdata(
            typ,
            rd_length,
            data,
            pos,
        ).unwrap().1 {
            decode_rdata(typ, rd_length, data, pos)
        } else {
            Err(DecodeError::Truncated)
        },
{
    let end = decode_rdata(typ, rd_length, data, pos).unwrap().1;
    if k >= end {
        lemma_cut_keeps(data, k, pos, end - pos);
        if typ == QType::AAAA {
            lemma_cut_keeps(data, k, pos, 2);
            lemma_cut_keeps(data, k, pos + 2, 2);
            lemma_cut_keeps(data, k, pos + 4, 2);
            lemma_cut_keeps(data, k, pos + 6, 2);
            lemma_cut_keeps(data, k, pos + 8, 2);
            lemma_cut_keeps(data, k, pos + 10, 2);
            lemma_cut_keeps(data, k, pos + 12, 2);
            lemma_cut_keeps(data, k, pos + 14, 2);
        }
    }
}

/// A record that was decoded is decoded alike from every buffer that is cut
/// off behind it, and a buffer that is cut off within it is truncated.
pub proof fn lemma_resource_cut_short(data: Seq<u8>, pos: int, k: int)
    requires
        decode_resource(data, pos).is_ok(),
        0 <= k <= data.len(),
    ensures
        pos < decode_resource(data, pos).unwrap().1 <= data.len(),
        decode_resource(cut(data, k), pos) == if k >= decode_resource(data, pos).unwrap().1 {
            decode_resource(data, pos)
        } else {
            Err(DecodeError::Truncated)
        },
{
    let next = decode_name(data, pos).unwrap().1;
    lemma_decoded_name_is_wire(data, pos);
    lemma_name_cut_short(data, pos, k);
    let typ = QType::of_code(u16_at(data, next));
    let rd_length = u16_at(data, next + 8);
    if k >= next + 10 {
        lemma_cut_keeps(data, k, next, 10);
        lemma_cut_keeps(data, k, next + 2, 2);
        lemma_cut_keeps(data, k, next + 4, 4);
        lemma_cut_keeps(data, k, next + 8, 2);
        lemma_rdata_cut_short(typ, rd_length, data, next + 10, k);
    } else {
        lemma_rdata_cut_short(typ, rd_length, data, next + 10, next + 10);
    }
}

/// Records that were decoded are decoded alike from every buffer that is
/// cut off behind them, and a buffer that is cut off within them is
/// truncated.
pub proof fn lemma_resources_cut_short(data: Seq<u8>, pos: int, count: nat, k: int)
    requires
        decode_resources(data, pos, count).is_ok(),
        0 <= pos <= k <= data.len(),
    ensures
        pos <= decode_resources(data, pos, count).unwrap().1 <= data.len(),
        decode_resources(cut(data, k), pos, count) == if k >= decode_resources(
            data,
            pos,
            count,
        ).unwrap().1 {
            decode_resources(data, pos, count)
        } else {
            Err(DecodeError::Truncated)
        },
    decreases count,
{
    if count > 0 {
        let next = decode_resource(data, pos).unwrap().1;
        lemma_resource_cut_short(data, pos, k);
        lemma_resources_cut_short(data, next, (count - 1) as nat, if k >= next {
            k
        } else {
            next
        });
    }
}

/// Decoding the bytes that stand for data of the form that `typ` asks for
/// gives the data back, whatever stands before and behind them.
pub proof fn lemma_rdata_round_trip(typ: QType, rdata: RDataView, before: Seq<u8>, after: Seq<u8>)
    requires
        rdata.fits(typ),
    ensures
        rdata.bytes().len() <= MAX_RDATA_LEN,
        decode_rdata(
            typ,
            rdata.bytes().len() as u16,
            before + rdata.bytes() + after,
            before.len() as int,
        ) == Ok::<(RDataView, int), DecodeError>(
            (rdata, before.len() as int + rdata.bytes().len()),
        ),
{
    let bytes = rdata.bytes();
    let data = before + bytes + after;
    let pos = before.len() as int;
    let found = decode_rdata(typ, bytes.len() as u16, data, pos);
    assert(data.subrange(pos, pos + bytes.len()) =~= bytes);
    match rdata {
        RDataView::A(octets) => {
            assert(typ == QType::A);
            assert(bytes.len() == 4);
            assert(found is Ok);
            let read = found->Ok_0.0->A_0;
            assert forall|k: int| 0 <= k < 4 implies read[k] == octets[k] by {
                assert(data[pos + k] == data.subrange(pos, pos + 4)[k]);
            }
            assert(read =~= octets);
        },
        RDataView::AAAA(groups) => {
            assert(typ == QType::AAAA);
            assert(bytes.len() == 16);
            assert(found is Ok);
            lemma_read_groups(groups, data, pos);
            let read = found->Ok_0.0->AAAA_0;
            assert(read =~= groups);
        },
        RDataView::Opaque(blob) => {
            assert(typ != QType::A && typ != QType::AAAA);
            assert(found is Ok);
        },
    }
}

/// Where the sixteen bytes of eight groups stand at offset `pos`, the groups
/// are read there.
proof fn lemma_read_groups(groups: [u16; 8], data: Seq<u8>, pos: int)
    requires
        has_bytes(data, pos, 16),
        data.subrange(pos, pos + 16) == groups_bytes(groups),
    ensures
        u16_at(data, pos) == groups[0],
        u16_at(data, pos + 2) == groups[1],
        u16_at(data, pos + 4) == groups[2],
        u16_at(data, pos + 6) == groups[3],
        u16_at(data, pos + 8) == groups[4],
        u16_at(data, pos + 10) == groups[5],
        u16_at(data, pos + 12) == groups[6],
        u16_at(data, pos + 14) == groups[7],
{
    let all = data.subrange(pos, pos + 16);
    assert forall|k: int| 0 <= k < 8 implies u16_at(data, pos + 2 * k) == groups[k] by {
        assert(data.subrange(pos + 2 * k, pos + 2 * k + 2) =~= all.subrange(2 * k, 2 * k + 2));
        assert(all.subrange(2 * k, 2 * k + 2) =~= u16_bytes(groups[k]));
        lemma_u16_read_of_bytes(data, pos + 2 * k, groups[k]);
    }
    assert(u16_at(data, pos + 2 * 0) == groups[0]);
    assert(u16_at(data, pos + 2 * 1) == groups[1]);
    assert(u16_at(data, pos + 2 * 2) == groups[2]);
    assert(u16_at(data, pos + 2 * 3) == groups[3]);
    assert(u16_at(data, pos + 2 * 4) == groups[4]);
    assert(u16_at(data, pos + 2 * 5) == groups[5]);
    assert(u16_at(data, pos + 2 * 6) == groups[6]);
    assert(u16_at(data, pos + 2 * 7) == groups[7]);
}

/// Where the ten fixed bytes of a record stand at offset `pos`, the fields
/// of the record are read there.
proof fn lemma_read_fixed(r: ResourceView, data: Seq<u8>, pos: int)
    requires
        has_bytes(data, pos, FIXED_LEN as int),
        data.subrange(pos, pos + FIXED_LEN) == fixed_bytes(r),
        r.rdata.bytes().len() <= MAX_RDATA_LEN,
    ensures
        u16_at(data, pos) == r.typ.wire_code(),
        u16_at(data, pos + 2) == r.class.wire_code(),
        u32_at(data, pos + 4) == r.ttl,
        u16_at(data, pos + 8) == r.rdata.bytes().len(),
{
    let fixed = data.subrange(pos, pos + 10);
    let typ = u16_bytes(r.typ.wire_code());
    let class = u16_bytes(r.class.wire_code());
    let ttl = u32_bytes(r.ttl);
    let len = u16_bytes(r.rdata.bytes().len() as u16);
    assert(fixed == typ + class + ttl + len);
    assert(data.subrange(pos, pos + 2) =~= fixed.subrange(0, 2));
    assert(data.subrange(pos + 2, pos + 4) =~= fixed.subrange(2, 4));
    assert(data.subrange(pos + 4, pos + 8) =~= fixed.subrange(4, 8));
    assert(data.subrange(pos + 8, pos + 10) =~= fixed.subrange(8, 10));
    assert(fixed.subrange(0, 2) =~= typ);
    assert(fixed.subrange(2, 4) =~= class);
    assert(fixed.subrange(4, 8) =~= ttl);
    assert(fixed.subrange(8, 10) =~= len);
    lemma_u16_read_of_bytes(data, pos, r.typ.wire_code());
    lemma_u16_read_of_bytes(data, pos + 2, r.class.wire_code());
    lemma_u32_read_of_bytes(data, pos + 4, r.ttl);
    lemma_u16_read_of_bytes(data, pos + 8, r.rdata.bytes().len() as u16);
}

/// A valid record is encoded, and decoding those bytes gives the record
/// back, whatever stands before and behind them.
pub proof fn lemma_resource_round_trip(r: ResourceView, before: Seq<u8>, after: Seq<u8>)
    requires
        r.valid(),
    ensures
        encode_resource(r).is_ok(),
        decode_resource(before + encode_resource(r).unwrap() + after, before.len() as int) == Ok::<
            (ResourceView, int),
            DecodeError,
        >((r, before.len() as int + encode_resource(r).unwrap().len())),
{
    let name = name_wire(r.name);
    let fixed = fixed_bytes(r);
    let rdata = r.rdata.bytes();
    let next = before.len() as int + name.len();
    lemma_rdata_round_trip(r.typ, r.rdata, before + name + fixed, after);
    lemma_decode_name_wire(r.name, before, fixed + rdata + after);
    assert(encode_resource(r) == Ok::<Seq<u8>, EncodeError>(name + fixed + rdata));
    let data = before + (name + fixed + rdata) + after;
    assert(data =~= before + name + (fixed + rdata + after));
    assert(data =~= before + name + fixed + rdata + after);
    assert(fixed.len() == 10);
    assert(data.subrange(next, next + 10) =~= fixed);
    lemma_read_fixed(r, data, next);
}

/// Decoding `count` records gives `count` records.
pub proof fn lemma_decoded_resources_len(data: Seq<u8>, pos: int, count: nat)
    requires
        decode_resources(data, pos, count).is_ok(),
    ensures
        decode_resources(data, pos, count).unwrap().0.len() == count,
    decreases count,
{
    if count > 0 {
        let next = decode_resource(data, pos).unwrap().1;
        lemma_decoded_resources_len(data, next, (count - 1) as nat);
    }
}

/// Valid records in a row are encoded, and decoding those bytes gives the
/// records back, whatever stands before and behind them.
pub proof fn lemma_resources_round_trip(
    resources: Seq<ResourceView>,
    before: Seq<u8>,
    after: Seq<u8>,
)
    requires
        forall|i: int| 0 <= i < resources.len() ==> (#[trigger] resources[i]).valid(),
    ensures
        encode_resources(resources).is_ok(),
        decode_resources(
            before + encode_resources(resources).unwrap() + after,
            before.len() as int,
            resources.len(),
        ) == Ok::<(Seq<ResourceView>, int), DecodeError>(
            (resources, before.len() as int + encode_resources(resources).unwrap().len()),
        ),
    decreases resources.len(),
{
    if resources.len() == 0 {
        assert(resources =~= Seq::empty());
    } else {
        let first = resources.first();
        let rest = resources.drop_first();
        let head = encode_resource(first).unwrap();
        assert(seq![first] + rest =~= resources);
        assert(first.valid()) by {
            assert(first == resources[0]);
        }
        assert forall|i: int| 0 <= i < rest.len() implies (#[trigger] rest[i]).valid() by {
            assert(rest[i] == resources[i + 1]);
        }
        lemma_resources_round_trip(rest, before + head, after);
        let tail = encode_resources(rest).unwrap();
        lemma_resource_round_trip(first, before, tail + after);
        lemma_resources_join(first, rest, before, after);
    }
}

/// Decoding a first item and then the rest of a row is decoding the row.
proof fn lemma_resources_join(
    first: ResourceView,
    rest: Seq<ResourceView>,
    before: Seq<u8>,
    after: Seq<u8>,
)
    requires
        encode_resource(first).is_ok(),
        encode_resources(rest).is_ok(),
        decode_resource(
            before + encode_resource(first).unwrap() + (encode_resources(rest).unwrap() + after),
            before.len() as int,
        ) == Ok::<(ResourceView, int), DecodeError>(
            (first, before.len() as int + encode_resource(first).unwrap().len()),
        ),
        decode_resources(
            before + encode_resource(first).unwrap() + encode_resources(rest).unwrap() + after,
            (before + encode_resource(first).unwrap()).len() as int,
            rest.len(),
        ) == Ok::<(Seq<ResourceView>, int), DecodeError>(
            (
                rest,
                (before + encode_resource(first).unwrap()).len() as int + encode_resources(
                    rest,
                ).unwrap().len(),
            ),
        ),
    ensures
        encode_resources(seq![first] + rest).is_ok(),
        decode_resources(
            before + encode_resources(seq![first] + rest).unwrap() + after,
            before.len() as int,
            rest.len() + 1,
        ) == Ok::<(Seq<ResourceView>, int), DecodeError>(
            (
                seq![first] + rest,
                before.len() as int + encode_resources(seq![first] + rest).unwrap().len(),
            ),
        ),
{
    let all = seq![first] + rest;
    let head = encode_resource(first).unwrap();
    let tail = encode_resources(rest).unwrap();
    assert(all.first() == first);
    assert(all.drop_first() =~= rest);
    assert(encode_resources(all) == Ok::<Seq<u8>, EncodeError>(head + tail));
    lemma_regroup(before, head, tail, after);
    assert((rest.len() + 1 - 1) as nat == rest.len());
}

/// In the bytes of a record the length field, which stands eight bytes
/// behind the name, says how many bytes of data follow it, and those bytes
/// are the record's data.
pub proof fn lemma_length_field_counts_data(r: ResourceView)
    requires
        encode_resource(r).is_ok(),
    ensures
        ({
            let bytes = encode_resource(r).unwrap();
            let data_at = name_wire(r.name).len() + FIXED_LEN;
            &&& data_at <= bytes.len()
            &&& u16_at(bytes, data_at - 2) == bytes.len() - data_at
            &&& bytes.subrange(data_at as int, bytes.len() as int) == r.rdata.bytes()
        }),
{
    let name = name_wire(r.name);
    let fixed = fixed_bytes(r);
    let rdata = r.rdata.bytes();
    let bytes = encode_resource(r).unwrap();
    assert(bytes =~= name + fixed + rdata);
    assert(fixed.len() == 10);
    let data_at = name.len() + 10;
    assert(bytes[data_at - 2] == fixed[8]);
    assert(bytes[data_at - 1] == fixed[9]);
    assert(bytes.subrange(data_at as int, bytes.len() as int) =~= rdata);
}

/// A record of a type other than `A` and `AAAA` keeps its data as it stood
/// on the wire, in the length that its length field said. Encoding what was
/// decoded gives back the very bytes that were read, the data among them;
/// only a name whose wire form is too long for encoding stands in the way.
pub proof fn lemma_opaque_data_passes_through(data: Seq<u8>, pos: int)
    requires
        decode_resource(data, pos).is_ok(),
        decode_resource(data, pos).unwrap().0.typ != QType::A,
        decode_resource(data, pos).unwrap().0.typ != QType::AAAA,
    ensures
        ({
            let (r, end) = decode_resource(data, pos).unwrap();
            let data_at = pos + name_wire(r.name).len() + FIXED_LEN;
            &&& 0 <= pos < data_at <= end <= data.len()
            &&& end - data_at == u16_at(data, data_at - 2)
            &&& r.rdata == RDataView::Opaque(data.subrange(data_at, end))
            &&& encode_resource(r) == if name_wire(r.name).len()
                <= MAX_NAME_LEN {
                Ok::<Seq<u8>, EncodeError>(data.subrange(pos, end))
            } else {
                Err::<Seq<u8>, EncodeError>(EncodeError::NameTooLong)
            }
        }),
{
    let (r, end) = decode_resource(data, pos).unwrap();
    lemma_decoded_name_is_wire(data, pos);
    let next = decode_name(data, pos).unwrap().1;
    let name = name_wire(r.name);
    let data_at = next + 10;
    let rd_length = u16_at(data, next + 8);
    assert(next == pos + name.len());
    assert(r.rdata == RDataView::Opaque(data.subrange(data_at, data_at + rd_length)));
    assert(!has_long_label(r.name));
    assert(fixed_bytes(r) == data.subrange(next, next + 10)) by {
        lemma_u16_bytes_of_read(data, next);
        lemma_u16_bytes_of_read(data, next + 2);
        lemma_u32_bytes_of_read(data, next + 4);
        lemma_u16_bytes_of_read(data, next + 8);
        assert(r.typ.wire_code() == u16_at(data, next));
        assert(r.class.wire_code() == u16_at(data, next + 2));
        assert(r.rdata.bytes().len() as u16 == rd_length);
        assert(data.subrange(next, next + 2) + data.subrange(next + 2, next + 4) + data.subrange(
            next + 4,
            next + 8,
        ) + data.subrange(next + 8, next + 10) =~= data.subrange(next, next + 10));
    }
    assert(data.subrange(pos, next) + data.subrange(next, next + 10) + data.subrange(data_at, end)
        =~= data.subrange(pos, end));
}

impl RData {
    /// Reads the data of a record of type `typ` whose length field said
    /// `rd_length`; on an error the reader stays where it was.
    ///
    /// An `A` record gives four bytes and an `AAAA` record eight 16-bit
    /// groups, whatever the length field said. Of every other type the
    /// `rd_length` bytes are kept as they are.
    pub fn parse(typ: QType, rd_length: u16, reader: &mut PacketReader) -> (r: Result<
        RData,
        DecodeError,
    >)
        ensures
            final(reader).bytes() == old(reader).bytes(),
            match decode_rdata(typ, rd_length, old(reader).bytes(), old(reader).position()) {
                Ok((rdata, end)) => {
                    &&& r.is_ok()
                    &&& r.unwrap()@ == rdata
                    &&& final(reader).position() == end
                },
                Err(e) => {
                    &&& r == Err::<RData, DecodeError>(e)
                    &&& final(reader).position() == old(reader).position()
                },
            },
    {
        match typ {
            QType::A => {
                let b: Vec<u8> = reader.read_bytes(4)?;
                Ok(RData::A([b[0], b[1], b[2], b[3]]))
            },
            QType::AAAA => {
                let g: Vec<u16> = reader.read_u16s(8)?;
                Ok(RData::AAAA([g[0], g[1], g[2], g[3], g[4], g[5], g[6], g[7]]))
            },
            _ => {
                let bytes: Vec<u8> = reader.read_bytes(rd_length as usize)?;
                Ok(RData::Opaque(bytes))
            },
        }
    }

    /// The data with which a server that knows only its own host answers a
    /// question of type `typ`: the loopback address of the asked family, and
    /// nothing for every other type.
    pub fn loopback(typ: QType) -> (r: Option<RData>)
        ensures
            resolution_view(r) == loopback_data(typ),
    {
        match typ {
            QType::A => Some(RData::A([127, 0, 0, 1])),
            QType::AAAA => Some(RData::AAAA([0, 0, 0, 0, 0, 0, 0, 1])),
            _ => None,
        }
    }

    /// The number of bytes that the data takes on the wire.
    pub fn byte_len(&self) -> (r: usize)
        ensures
            r == self@.bytes().len(),
    {
        match self {
            RData::A(_) => 4,
            RData::AAAA(_) => 16,
            RData::Opaque(bytes) => bytes.len(),
        }
    }

    /// The bytes that stand for the data on the wire.
    pub fn to_bytes(&self) -> (r: Vec<u8>)
        ensures
            r@ == self@.bytes(),
    {
        match self {
            RData::A(octets) => {
                let mut v: Vec<u8> = Vec::new();
                push_all(&mut v, octets.as_slice());
                v
            },
            RData::AAAA(groups) => {
                let mut v: Vec<u8> = Vec::new();
                push_u16(&mut v, groups[0]);
                push_u16(&mut v, groups[1]);
                push_u16(&mut v, groups[2]);
                push_u16(&mut v, groups[3]);
                push_u16(&mut v, groups[4]);
                push_u16(&mut v, groups[5]);
                push_u16(&mut v, groups[6]);
                push_u16(&mut v, groups[7]);
                assert(v@ =~= groups_bytes(*groups));
                v
            },
            RData::Opaque(bytes) => bytes.clone(),
        }
    }

    /// The bytes that stand for the data on the wire, as `to_bytes` gives
    /// them.
    pub fn into_bytes(self) -> (r: Vec<u8>)
        ensures
            r@ == self@.bytes(),
    {
        self.to_bytes()
    }
}

impl Clone for RData {
    /// The same data.
    fn clone(&self) -> (r: RData)
        ensures
            r@ == self@,
    {
        match self {
            RData::A(octets) => RData::A(*octets),
            RData::AAAA(groups) => RData::AAAA(*groups),
            RData::Opaque(bytes) => RData::Opaque(bytes.clone()),
        }
    }
}

impl DnsResource {
    /// Reads a record and steps past it; on an error the reader stays where
    /// it was.
    pub fn parse(reader: &mut PacketReader) -> (r: Result<DnsResource, DecodeError>)
        ensures
            final(reader).bytes() == old(reader).bytes(),
            match decode_resource(old(reader).bytes(), old(reader).position()) {
                Ok((resource, end)) => {
                    &&& r.is_ok()
                    &&& r.unwrap()@ == resource
                    &&& final(reader).position() == end
                },
                Err(e) => {
                    &&& r == Err::<DnsResource, DecodeError>(e)
                    &&& final(reader).position() == old(reader).position()
                },
            },
    {
        let start: usize = reader.offset();
        let r = DnsResource::parse_fields(reader);
        if r.is_err() {
            let _ = reader.seek(start);
        }
        r
    }

    /// Reads the fields of a record one after the other and stops at the
    /// first that fails, wherever the reader then stands.
    fn parse_fields(reader: &mut PacketReader) -> (r: Result<DnsResource, DecodeError>)
        ensures
            final(reader).bytes() == old(reader).bytes(),
            match decode_resource(old(reader).bytes(), old(reader).position()) {
                Ok((resource, end)) => {
                    &&& r.is_ok()
                    &&& r.unwrap()@ == resource
                    &&& final(reader).position() == end
                },
                Err(e) => r == Err::<DnsResource, DecodeError>(e),
            },
    {
        let name = reader.read_name()?;
        let typ = QType::from(reader.read_u16()?);
        let class = QClass::from(reader.read_u16()?);
        let ttl: u32 = reader.read_u32()?;
        let rd_length: u16 = reader.read_u16()?;
        let rdata = RData::parse(typ, rd_length, reader)?;
        Ok(DnsResource { name, typ, class, ttl, rdata })
    }

    /// Reads `count` records that stand one behind the other; on an error
    /// the reader stays where it was.
    pub fn parse_many(reader: &mut PacketReader, count: u16) -> (r: Result<
        Vec<DnsResource>,
        DecodeError,
    >)
        ensures
            final(reader).bytes() == old(reader).bytes(),
            match decode_resources(old(reader).bytes(), old(reader).position(), count as nat) {
                Ok((resources, end)) => {
                    &&& r.is_ok()
                    &&& resources_view(r.unwrap()@) == resources
                    &&& final(reader).position() == end
                },
                Err(e) => {
                    &&& r == Err::<Vec<DnsResource>, DecodeError>(e)
                    &&& final(reader).position() == old(reader).position()
                },
            },
    {
        let start: usize = reader.offset();
        let mut resources: Vec<DnsResource> = Vec::new();
        let mut i: u16 = 0;
        while i < count
            invariant
                i <= count,
                reader.bytes() == old(reader).bytes(),
                start == old(reader).position(),
                start <= reader.bytes().len(),
                decode_resources(reader.bytes(), start as int, count as nat) == prepend(
                    resources_view(resources@),
                    decode_resources(reader.bytes(), reader.position(), (count - i) as nat),
                ),
            decreases count - i,
        {
            match DnsResource::parse(reader) {
                Ok(record) => {
                    proof {
                        let found = resources_view(resources@);
                        let rest = decode_resources(
                            reader.bytes(),
                            reader.position(),
                            (count - i - 1) as nat,
                        );
                        assert(resources_view(resources@.push(record)) =~= found + seq![record@]);
                        if rest.is_ok() {
                            assert(found + (seq![record@] + rest.unwrap().0) =~= found
                                + seq![record@] + rest.unwrap().0);
                        }
                    }
                    resources.push(record);
                },
                Err(e) => {
                    let _ = reader.seek(start);
                    return Err(e);
                },
            }
            i += 1;
        }
        assert(resources_view(resources@) + Seq::<ResourceView>::empty() =~= resources_view(
            resources@,
        ));
        Ok(resources)
    }

    /// Copies of the records of a vector, in their order.
    pub fn clone_many(resources: &Vec<DnsResource>) -> (r: Vec<DnsResource>)
        ensures
            resources_view(r@) == resources_view(resources@),
    {
        let mut copies: Vec<DnsResource> = Vec::new();
        let mut i: usize = 0;
        while i < resources.len()
            invariant
                i <= resources@.len(),
                copies@.len() == i,
                forall|k: int| 0 <= k < i ==> (#[trigger] copies@[k])@ == resources@[k]@,
            decreases resources@.len() - i,
        {
            copies.push(resources[i].clone());
            i += 1;
        }
        assert(resources_view(copies@) =~= resources_view(resources@));
        copies
    }

    /// The bytes of records in a row; the first that cannot be encoded is
    /// the error.
    pub fn many_to_bytes(resources: &Vec<DnsResource>) -> (r: Result<Vec<u8>, EncodeError>)
        ensures
            match encode_resources(resources_view(resources@)) {
                Ok(bytes) => r.is_ok() && r.unwrap()@ == bytes,
                Err(e) => r == Err::<Vec<u8>, EncodeError>(e),
            },
    {
        let ghost all = resources_view(resources@);
        let mut v: Vec<u8> = Vec::new();
        let mut i: usize = 0;
        assert(all.skip(0) =~= all);
        assert(Seq::<u8>::empty() + encode_resources(all).unwrap() =~= encode_resources(
            all,
        ).unwrap());
        while i < resources.len()
            invariant
                i <= resources@.len(),
                all == resources_view(resources@),
                encode_resources(all) == prepend_bytes(v@, encode_resources(all.skip(i as int))),
            decreases resources@.len() - i,
        {
            let ghost before = v@;
            let ghost rest = encode_resources(all.skip(i + 1));
            proof {
                assert(all.skip(i as int).first() == resources@[i as int]@);
                assert(all.skip(i as int).drop_first() =~= all.skip(i + 1));
            }
            let bytes: Vec<u8> = resources[i].to_bytes()?;
            push_all(&mut v, bytes.as_slice());
            proof {
                if rest.is_ok() {
                    assert(before + (bytes@ + rest.unwrap()) =~= v@ + rest.unwrap());
                }
            }
            i += 1;
        }
        assert(all.skip(i as int) =~= Seq::<ResourceView>::empty());
        assert(v@ + Seq::<u8>::empty() =~= v@);
        Ok(v)
    }

    /// The record that answers `question` with `rdata` for the default
    /// lifetime: name, type and class are those of the question.
    pub fn new(question: &DnsQuestion, rdata: RData) -> (r: DnsResource)
        ensures
            r@ == ResourceView::answering(question@, rdata@, DEFAULT_TTL),
    {
        DnsResource::with_ttl(question, rdata, DEFAULT_TTL)
    }

    /// The record that answers `question` with `rdata` for `ttl` seconds:
    /// name, type and class are those of the question.
    pub fn with_ttl(question: &DnsQuestion, rdata: RData, ttl: u32) -> (r: DnsResource)
        ensures
            r@ == ResourceView::answering(question@, rdata@, ttl),
    {
        DnsResource {
            name: question.qname.clone(),
            typ: question.qtype,
            class: question.qclass,
            ttl,
            rdata,
        }
    }

    /// The number of bytes of the record's data, which is what its length
    /// field says once the record is encoded.
    pub fn rd_length(&self) -> (r: usize)
        ensures
            r == self@.rdata.bytes().len(),
    {
        self.rdata.byte_len()
    }

    /// The bytes of the record. The length field is counted from the data.
    /// A name without a wire form is an error, and so, after it, is data of
    /// more than 65535 bytes.
    pub fn to_bytes(&self) -> (r: Result<Vec<u8>, EncodeError>)
        ensures
            match encode_resource(self@) {
                Ok(bytes) => r.is_ok() && r.unwrap()@ == bytes,
                Err(e) => r == Err::<Vec<u8>, EncodeError>(e),
            },
    {
        let mut v: Vec<u8> = self.name.to_bytes()?;
        let rd_length: usize = self.rdata.byte_len();
        if rd_length > MAX_RDATA_LEN {
            return Err(EncodeError::RdataTooLong);
        }
        push_u16(&mut v, self.typ.code());
        push_u16(&mut v, self.class.code());
        push_u32(&mut v, self.ttl);
        push_u16(&mut v, rd_length as u16);
        let data: Vec<u8> = self.rdata.to_bytes();
        push_all(&mut v, data.as_slice());
        Ok(v)
    }

    /// The bytes of the record, as `to_bytes` gives them.
    pub fn into_bytes(self) -> (r: Result<Vec<u8>, EncodeError>)
        ensures
            match encode_resource(self@) {
                Ok(bytes) => r.is_ok() && r.unwrap()@ == bytes,
                Err(e) => r == Err::<Vec<u8>, EncodeError>(e),
            },
    {
        self.to_bytes()
    }
}

impl Clone for DnsResource {
    /// A record with the same fields.
    fn clone(&self) -> (r: DnsResource)
        ensures
            r@ == self@,
    {
        DnsResource {
            name: self.name.clone(),
            typ: self.typ,
            class: self.class,
            ttl: self.ttl,
            rdata: self.rdata.clone(),
        }
    }
}

} // verus!
