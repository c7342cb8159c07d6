use vstd::prelude::*;
use crate::buffer::{BytePacketBuffer, PACKET_BUFFER_SIZE, be16, be32, u16_of, u32_of, put, lemma_wrote_concat};
use crate::error::BytePacketError as Error;
use crate::question::{name_wire, name_ok, name_read};
use crate::types::QueryType;

verus! {

/// A resource record of a DNS message, by type.
#[derive(PartialEq, Eq, Debug, Clone, Hash, PartialOrd, Ord)]
pub enum DnsRecord {
    UNKNOWN { data_len: u16, domain: String, qtype: u16, ttl: u32 },
    AAAA { address: [u16; 8], domain: String, ttl: u32 },
    MX { priority: u16, domain: String, host: String, ttl: u32 },
    CNAME { domain: String, host: String, ttl: u32 },
    NS { domain: String, host: String, ttl: u32 },
    A { address: [u8; 4], domain: String, ttl: u32 },
}

/// What a record holds, with its names as text.
pub enum RecordView {
    UNKNOWN { data_len: u16, domain: Seq<char>, qtype: u16, ttl: u32 },
    AAAA { address: Seq<u16>, domain: Seq<char>, ttl: u32 },
    MX { priority: u16, domain: Seq<char>, host: Seq<char>, ttl: u32 },
    CNAME { domain: Seq<char>, host: Seq<char>, ttl: u32 },
    NS { domain: Seq<char>, host: Seq<char>, ttl: u32 },
    A { address: Seq<u8>, domain: Seq<char>, ttl: u32 },
}

impl View for DnsRecord {
    type V = RecordView;

    open spec fn view(&self) -> RecordView {
        match self {
            DnsRecord::UNKNOWN { data_len, domain, qtype, ttl } =>
                RecordView::UNKNOWN { data_len: *data_len, domain: domain@, qtype: *qtype, ttl: *ttl },
            DnsRecord::AAAA { address, domain, ttl } =>
                RecordView::AAAA { address: address@, domain: domain@, ttl: *ttl },
            DnsRecord::MX { priority, domain, host, ttl } =>
                RecordView::MX { priority: *priority, domain: domain@, host: host@, ttl: *ttl },
            DnsRecord::CNAME { domain, host, ttl } =>
                RecordView::CNAME { domain: domain@, host: host@, ttl: *ttl },
            DnsRecord::NS { domain, host, ttl } =>
                RecordView::NS { domain: domain@, host: host@, ttl: *ttl },
            DnsRecord::A { address, domain, ttl } =>
                RecordView::A { address: address@, domain: domain@, ttl: *ttl },
        }
    }
}

/// The big-endian bytes of the eight segments of an IPv6 address.
pub open spec fn segments_wire(s: Seq<u16>) -> Seq<u8> {
    be16(s[0]) + be16(s[1]) + be16(s[2]) + be16(s[3]) + be16(s[4]) + be16(s[5]) + be16(s[6]) + be16(s[7])
}

/// The part of a record between its name and its data: type, class IN,
/// time to live and data length.
pub open spec fn record_fixed(code: u16, ttl: u32, len: u16) -> Seq<u8> {
    be16(code) + be16(1) + be32(ttl) + be16(len)
}

/// The encoding of a record of a known type.
pub open spec fn record_wire(v: RecordView) -> Seq<u8> {
    match v {
        RecordView::A { address, domain, ttl } => name_wire(domain) + record_fixed(1, ttl, 4) + address,
        RecordView::AAAA { address, domain, ttl } =>
            name_wire(domain) + record_fixed(0x1c, ttl, 16) + segments_wire(address),
        RecordView::CNAME { domain, host, ttl } =>
            name_wire(domain) + record_fixed(5, ttl, name_wire(host).len() as u16) + name_wire(host),
        RecordView::NS { domain, host, ttl } =>
            name_wire(domain) + record_fixed(2, ttl, name_wire(host).len() as u16) + name_wire(host),
        RecordView::MX { priority, domain, host, ttl } =>
            name_wire(domain) + record_fixed(0x0f, ttl, (name_wire(host).len() + 2) as u16) + be16(priority)
                + name_wire(host),
        RecordView::UNKNOWN { .. } => Seq::empty(),
    }
}

/// Whether every name of the record can be encoded.
pub open spec fn record_names_ok(v: RecordView) -> bool {
    match v {
        RecordView::A { domain, .. } => name_ok(domain),
        RecordView::AAAA { domain, .. } => name_ok(domain),
        RecordView::CNAME { domain, host, .. } => name_ok(domain) && name_ok(host),
        RecordView::NS { domain, host, .. } => name_ok(domain) && name_ok(host),
        RecordView::MX { domain, host, .. } => name_ok(domain) && name_ok(host),
        RecordView::UNKNOWN { .. } => true,
    }
}

/// The eight segments that the sixteen bytes of `b` from `d` on encode.
pub open spec fn segments_at(b: Seq<u8>, d: int) -> Seq<u16> {
    Seq::new(8, |i: int| u16_of(b[d + 2 * i], b[d + 2 * i + 1]))
}

/// What reading the data of a record at `d` gives, once its name, type and
/// time to live are known: the record and the position after it.
pub open spec fn rdata_read(b: Seq<u8>, d: int, domain: Seq<char>, code: u16, ttl: u32, len: u16)
    -> Result<(RecordView, int), Error>
{
    match QueryType::spec_from(code) {
        QueryType::UNKNOWN(_) => Ok((RecordView::UNKNOWN { data_len: len, domain, qtype: code, ttl }, d + len)),
        QueryType::A => if d + 4 > b.len() {
            Err(Error::EndOfBuffer)
        } else {
            Ok((RecordView::A { address: b.subrange(d, d + 4), domain, ttl }, d + 4))
        },
        QueryType::AAAA => if d + 16 > b.len() {
            Err(Error::EndOfBuffer)
        } else {
            Ok((RecordView::AAAA { address: segments_at(b, d), domain, ttl }, d + 16))
        },
        QueryType::MX => if d + 2 > b.len() {
            Err(Error::EndOfBuffer)
        } else {
            match name_read(b, d + 2) {
                Ok((host, e)) => Ok((RecordView::MX { priority: u16_of(b[d], b[d + 1]), domain, host, ttl }, e)),
                Err(err) => Err(err),
            }
        },
        QueryType::CNAME => match name_read(b, d) {
            Ok((host, e)) => Ok((RecordView::CNAME { domain, host, ttl }, e)),
            Err(err) => Err(err),
        },
        QueryType::NS => match name_read(b, d) {
            Ok((host, e)) => Ok((RecordView::NS { domain, host, ttl }, e)),
            Err(err) => Err(err),
        },
    }
}

/// What reading a record at `p` gives: the record and the position after it.
pub open spec fn record_read(b: Seq<u8>, p: int) -> Result<(RecordView, int), Error> {
    match name_read(b, p) {
        Err(e) => Err(e),
        Ok((domain, q)) => if q + 10 > b.len() {
            Err(Error::EndOfBuffer)
        } else {
            rdata_read(b, q + 10, domain, u16_of(b[q], b[q + 1]),
                u32_of(b[q + 4], b[q + 5], b[q + 6], b[q + 7]), u16_of(b[q + 8], b[q + 9]))
        },
    }
}

/// Writes a buffer's state after two writes that fit, from the first.
proof fn lemma_wrote3(a: BytePacketBuffer, b: BytePacketBuffer, c: BytePacketBuffer, d: BytePacketBuffer,
    d1: Seq<u8>, d2: Seq<u8>, d3: Seq<u8>)
    requires
        a.buffer@.len() == PACKET_BUFFER_SIZE,
        BytePacketBuffer::wrote(a, b, d1),
        a.fits(d1.len() as int),
        BytePacketBuffer::wrote(b, c, d2),
        b.fits(d2.len() as int),
        BytePacketBuffer::wrote(c, d, d3),
    ensures
        BytePacketBuffer::wrote(a, d, d1 + d2 + d3),
{
    lemma_wrote_concat(a, b, c, d1, d2);
    lemma_wrote_concat(a, c, d, d1 + d2, d3);
}

/// Writes the type, class, time to live and data length of a record.
fn write_fixed(buffer: &mut BytePacketBuffer, code: u16, ttl: u32, len: u16) -> (r: Result<(), Error>)
    ensures
        BytePacketBuffer::wrote(*old(buffer), *final(buffer), record_fixed(code, ttl, len)),
        old(buffer).fits(10) ==> r is Ok,
        !old(buffer).fits(10) ==> r == Err::<(), Error>(Error::EndOfBuffer),
{
    let bytes: [u8; 10] = [
        (code >> 8u16) as u8, (code & 0xffu16) as u8,
        0, 1,
        (ttl >> 24u32) as u8, ((ttl >> 16u32) & 0xffu32) as u8, ((ttl >> 8u32) & 0xffu32) as u8, (ttl & 0xffu32) as u8,
        (len >> 8u16) as u8, (len & 0xffu16) as u8,
    ];
    assert(bytes@ =~= record_fixed(code, ttl, len)) by {
        assert(((1u16 >> 8u16) as u8) == 0 && ((1u16 & 0xffu16) as u8) == 1) by (bit_vector);
    };
    buffer.write_bytes(bytes.as_slice())
}

pub fn write_a_record(buffer: &mut BytePacketBuffer, domain: &String, addr: &[u8; 4], ttl: &u32) -> (r: Result<(), Error>)
    ensures
        ({
            let w = record_wire(RecordView::A { address: addr@, domain: domain@, ttl: *ttl });
            &&& r is Ok <==> name_ok(domain@) && old(buffer).fits(w.len() as int)
            &&& r is Ok ==> BytePacketBuffer::wrote(*old(buffer), *final(buffer), w)
            &&& r is Err && name_ok(domain@) ==> r == Err::<(), Error>(Error::EndOfBuffer)
            &&& r is Err && old(buffer).fits(w.len() as int) ==> r == Err::<(), Error>(Error::LabelTooLong)
        }),
{
    let ghost b0 = *buffer;
    match buffer.write_qname(domain.as_str()) {
        Ok(()) => {},
        Err(e) => return Err(e),
    }
    let ghost b1 = *buffer;
    match write_fixed(buffer, 1, *ttl, 4) {
        Ok(()) => {},
        Err(e) => return Err(e),
    }
    let ghost b2 = *buffer;
    match buffer.write_bytes(addr.as_slice()) {
        Ok(()) => {},
        Err(e) => return Err(e),
    }
    proof {
        lemma_wrote3(b0, b1, b2, *buffer, name_wire(domain@), record_fixed(1, *ttl, 4), addr@);
    }
    Ok(())
}

pub fn write_aaaa_record(buffer: &mut BytePacketBuffer, domain: &String, addr: &[u16; 8], ttl: &u32) -> (r: Result<(), Error>)
    ensures
        ({
            let w = record_wire(RecordView::AAAA { address: addr@, domain: domain@, ttl: *ttl });
            &&& r is Ok <==> name_ok(domain@) && old(buffer).fits(w.len() as int)
            &&& r is Ok ==> BytePacketBuffer::wrote(*old(buffer), *final(buffer), w)
            &&& r is Err && name_ok(domain@) ==> r == Err::<(), Error>(Error::EndOfBuffer)
            &&& r is Err && old(buffer).fits(w.len() as int) ==> r == Err::<(), Error>(Error::LabelTooLong)
        }),
{
    let ghost b0 = *buffer;
    match buffer.write_qname(domain.as_str()) {
        Ok(()) => {},
        Err(e) => return Err(e),
    }
    let ghost b1 = *buffer;
    match write_fixed(buffer, 0x1c, *ttl, 16) {
        Ok(()) => {},
        Err(e) => return Err(e),
    }
    let ghost b2 = *buffer;
    let a = addr;
    let bytes: [u8; 16] = [
        (a[0] >> 8u16) as u8, (a[0] & 0xffu16) as u8, (a[1] >> 8u16) as u8, (a[1] & 0xffu16) as u8,
        (a[2] >> 8u16) as u8, (a[2] & 0xffu16) as u8, (a[3] >> 8u16) as u8, (a[3] & 0xffu16) as u8,
        (a[4] >> 8u16) as u8, (a[4] & 0xffu16) as u8, (a[5] >> 8u16) as u8, (a[5] & 0xffu16) as u8,
        (a[6] >> 8u16) as u8, (a[6] & 0xffu16) as u8, (a[7] >> 8u16) as u8, (a[7] & 0xffu16) as u8,
    ];
    assert(bytes@ =~= segments_wire(addr@));
    match buffer.write_bytes(bytes.as_slice()) {
        Ok(()) => {},
        Err(e) => return Err(e),
    }
    proof {
        lemma_wrote3(b0, b1, b2, *buffer, name_wire(domain@), record_fixed(0x1c, *ttl, 16), segments_wire(addr@));
    }
    Ok(())
}

/// Filling in a length field after the fact is writing the right length in the first place.
proof fn lemma_patch(bytes: Seq<u8>, p: int, a: Seq<u8>, x: Seq<u8>, y: Seq<u8>, c: Seq<u8>)
    requires
        0 <= p,
        x.len() == y.len(),
    ensures
        put(put(bytes, p, a + x + c), p + a.len(), y) == put(bytes, p, a + y + c),
{
    assert(put(put(bytes, p, a + x + c), p + a.len(), y) =~= put(bytes, p, a + y + c));
}

/// Writes a record whose data is one name, optionally after a priority: the
/// data length is reserved, then filled in once the name is written.
fn write_named_data(buffer: &mut BytePacketBuffer, code: u16, domain: &String, priority: Option<u16>,
    host: &String, ttl: u32) -> (r: Result<(), Error>)
    ensures
        ({
            let pre = match priority { Some(v) => be16(v), None => Seq::<u8>::empty() };
            let len = (pre.len() + name_wire(host@).len()) as u16;
            let w = name_wire(domain@) + record_fixed(code, ttl, len) + pre + name_wire(host@);
            &&& r is Ok <==> name_ok(domain@) && name_ok(host@) && old(buffer).fits(w.len() as int)
            &&& r is Ok ==> BytePacketBuffer::wrote(*old(buffer), *final(buffer), w)
            &&& r is Err && name_ok(domain@) && name_ok(host@) ==> r == Err::<(), Error>(Error::EndOfBuffer)
            &&& r is Err && old(buffer).fits(w.len() as int) ==> r == Err::<(), Error>(Error::LabelTooLong)
        }),
{
    let ghost pre = match priority { Some(v) => be16(v), None => Seq::<u8>::empty() };
    let ghost b0 = *buffer;
    match buffer.write_qname(domain.as_str()) {
        Ok(()) => {},
        Err(e) => return Err(e),
    }
    let ghost b1 = *buffer;
    match write_fixed(buffer, code, ttl, 0) {
        Ok(()) => {},
        Err(e) => return Err(e),
    }
    let ghost b2 = *buffer;
    let pos: usize = buffer.pos() - 2;
    match priority {
        Some(v) => match buffer.write_u16(v) {
            Ok(()) => {},
            Err(e) => return Err(e),
        },
        None => {
            assert(buffer.buffer@ =~= put(b2.buffer@, b2.position as int, pre));
        },
    }
    let ghost b3 = *buffer;
    match buffer.write_qname(host.as_str()) {
        Ok(()) => {},
        Err(e) => return Err(e),
    }
    let ghost b4 = *buffer;
    let size: usize = buffer.pos() - (pos + 2);
    let _ = buffer.set_u16(pos, size as u16);
    proof {
        let nw = name_wire(domain@);
        let hw = name_wire(host@);
        lemma_wrote3(b0, b1, b2, b3, nw, record_fixed(code, ttl, 0), pre);
        lemma_wrote_concat(b0, b3, b4, nw + record_fixed(code, ttl, 0) + pre, hw);
        let head = nw + (be16(code) + be16(1) + be32(ttl));
        assert(nw + record_fixed(code, ttl, 0) + pre + hw =~= head + be16(0) + (pre + hw));
        assert(nw + record_fixed(code, ttl, size as u16) + pre + hw =~= head + be16(size as u16) + (pre + hw));
        lemma_patch(b0.buffer@, b0.position as int, head, be16(0), be16(size as u16), pre + hw);
    }
    Ok(())
}

pub fn write_cnns_record(qtype: QueryType, buffer: &mut BytePacketBuffer, domain: &String, host: &String,
    ttl: &u32) -> (r: Result<(), Error>)
    ensures
        ({
            let len = name_wire(host@).len() as u16;
            let w = name_wire(domain@) + record_fixed(qtype.code(), *ttl, len) + name_wire(host@);
            &&& r is Ok <==> name_ok(domain@) && name_ok(host@) && old(buffer).fits(w.len() as int)
            &&& r is Ok ==> BytePacketBuffer::wrote(*old(buffer), *final(buffer), w)
            &&& r is Err && name_ok(domain@) && name_ok(host@) ==> r == Err::<(), Error>(Error::EndOfBuffer)
            &&& r is Err && old(buffer).fits(w.len() as int) ==> r == Err::<(), Error>(Error::LabelTooLong)
        }),
{
    let r = write_named_data(buffer, qtype.to_u16(), domain, None, host, *ttl);
    proof {
        let w = name_wire(domain@) + record_fixed(qtype.code(), *ttl, name_wire(host@).len() as u16) + name_wire(host@);
        assert(w =~= name_wire(domain@) + record_fixed(qtype.code(), *ttl, name_wire(host@).len() as u16)
            + Seq::<u8>::empty() + name_wire(host@));
    }
    r
}

pub fn write_mx_record(buffer: &mut BytePacketBuffer, priority: &u16, domain: &String, host: &String,
    ttl: &u32) -> (r: Result<(), Error>)
    ensures
        ({
            let w = record_wire(RecordView::MX { priority: *priority, domain: domain@, host: host@, ttl: *ttl });
            &&& r is Ok <==> name_ok(domain@) && name_ok(host@) && old(buffer).fits(w.len() as int)
            &&& r is Ok ==> BytePacketBuffer::wrote(*old(buffer), *final(buffer), w)
            &&& r is Err && name_ok(domain@) && name_ok(host@) ==> r == Err::<(), Error>(Error::EndOfBuffer)
            &&& r is Err && old(buffer).fits(w.len() as int) ==> r == Err::<(), Error>(Error::LabelTooLong)
        }),
{
    write_named_data(buffer, 0x0f, domain, Some(*priority), host, *ttl)
}

pub fn make_a_record(buffer: &mut BytePacketBuffer, domain: String, ttl: u32) -> (r: Result<DnsRecord, Error>)
    ensures
        final(buffer).buffer == old(buffer).buffer,
        ({
            let (d, b) = (old(buffer).position as int, old(buffer).buffer@);
            if old(buffer).fits(4) {
                &&& r is Ok
                &&& r->Ok_0@ == (RecordView::A { address: b.subrange(d, d + 4), domain: domain@, ttl })
                &&& final(buffer).position == d + 4
            } else {
                r == Err::<DnsRecord, Error>(Error::EndOfBuffer)
            }
        }),
{
    let raw: u32 = match buffer.read_u32() {
        Ok(v) => v,
        Err(e) => return Err(e),
    };
    let address: [u8; 4] = [(raw >> 24u32) as u8, (raw >> 16u32) as u8, (raw >> 8u32) as u8, (raw & 0xffu32) as u8];
    proof {
        let (d, b) = (old(buffer).position as int, old(buffer).buffer@);
        let (b0, b1, b2, b3) = (b[d], b[d + 1], b[d + 2], b[d + 3]);
        assert(((b0 as int * 0x1000000 + b1 as int * 0x10000 + b2 as int * 0x100 + b3 as int) as u32 >> 24u32) as u8 == b0
            && ((b0 as int * 0x1000000 + b1 as int * 0x10000 + b2 as int * 0x100 + b3 as int) as u32 >> 16u32) as u8 == b1
            && ((b0 as int * 0x1000000 + b1 as int * 0x10000 + b2 as int * 0x100 + b3 as int) as u32 >> 8u32) as u8 == b2
            && ((b0 as int * 0x1000000 + b1 as int * 0x10000 + b2 as int * 0x100 + b3 as int) as u32 & 0xffu32) as u8 == b3)
            by (bit_vector);
        assert(address@ =~= b.subrange(d, d + 4));
    }
    Ok(DnsRecord::A { address, domain, ttl })
}

/// The two segments of an IPv6 address that one big-endian 32-bit read gives.
fn split_u32(raw: u32) -> (r: (u16, u16))
    ensures
        forall|b0: u8, b1: u8, b2: u8, b3: u8| raw == u32_of(b0, b1, b2, b3)
            ==> r.0 == u16_of(b0, b1) && r.1 == u16_of(b2, b3),
{
    let r = ((raw >> 16u32) as u16, (raw & 0xffffu32) as u16);
    assert forall|b0: u8, b1: u8, b2: u8, b3: u8| raw == u32_of(b0, b1, b2, b3)
        implies r.0 == u16_of(b0, b1) && r.1 == u16_of(b2, b3) by {
        assert(((b0 as int * 0x1000000 + b1 as int * 0x10000 + b2 as int * 0x100 + b3 as int) as u32 >> 16u32) as u16
            == (b0 as int * 256 + b1 as int) as u16
            && ((b0 as int * 0x1000000 + b1 as int * 0x10000 + b2 as int * 0x100 + b3 as int) as u32 & 0xffffu32) as u16
            == (b2 as int * 256 + b3 as int) as u16) by (bit_vector);
    }
    r
}

pub fn make_aaaa_record(buffer: &mut BytePacketBuffer, domain: String, ttl: u32) -> (r: Result<DnsRecord, Error>)
    ensures
        final(buffer).buffer == old(buffer).buffer,
        ({
            let (d, b) = (old(buffer).position as int, old(buffer).buffer@);
            if old(buffer).fits(16) {
                &&& r is Ok
                &&& r->Ok_0@ == (RecordView::AAAA { address: segments_at(b, d), domain: domain@, ttl })
                &&& final(buffer).position == d + 16
            } else {
                r == Err::<DnsRecord, Error>(Error::EndOfBuffer)
            }
        }),
{
    let raw1: u32 = match buffer.read_u32() {
        Ok(v) => v,
        Err(e) => return Err(e),
    };
    let raw2: u32 = match buffer.read_u32() {
        Ok(v) => v,
        Err(e) => return Err(e),
    };
    let raw3: u32 = match buffer.read_u32() {
        Ok(v) => v,
        Err(e) => return Err(e),
    };
    let raw4: u32 = match buffer.read_u32() {
        Ok(v) => v,
        Err(e) => return Err(e),
    };
    let (s0, s1) = split_u32(raw1);
    let (s2, s3) = split_u32(raw2);
    let (s4, s5) = split_u32(raw3);
    let (s6, s7) = split_u32(raw4);
    let address: [u16; 8] = [s0, s1, s2, s3, s4, s5, s6, s7];
    proof {
        let (d, b) = (old(buffer).position as int, old(buffer).buffer@);
        assert(address@ =~= segments_at(b, d));
    }
    Ok(DnsRecord::AAAA { address, domain, ttl })
}

pub fn make_mcn_record(qtype: QueryType, buffer: &mut BytePacketBuffer, domain: String, ttl: u32)
    -> (r: Result<DnsRecord, Error>)
    ensures
        final(buffer).buffer == old(buffer).buffer,
        ({
            let (d, b) = (old(buffer).position as int, old(buffer).buffer@);
            match qtype {
                QueryType::MX | QueryType::CNAME | QueryType::NS => {
                    match rdata_read(b, d, domain@, qtype.code(), ttl, 0) {
                        Ok((v, e)) => r is Ok && r->Ok_0@ == v && final(buffer).position == e,
                        Err(err) => r == Err::<DnsRecord, Error>(err),
                    }
                },
                _ => r == Err::<DnsRecord, Error>(Error::InvalidQueryType(qtype.code())),
            }
        }),
{
    match qtype {
        QueryType::MX => {
            let priority = match buffer.read_u16() {
                Ok(v) => v,
                Err(e) => return Err(e),
            };
            let mut host = String::new();
            match buffer.read_qname(&mut host) {
                Ok(()) => {},
                Err(e) => return Err(e),
            }
            Ok(DnsRecord::MX { priority, domain, host, ttl })
        },
        QueryType::CNAME => {
            let mut host = String::new();
            match buffer.read_qname(&mut host) {
                Ok(()) => {},
                Err(e) => return Err(e),
            }
            Ok(DnsRecord::CNAME { domain, host, ttl })
        },
        QueryType::NS => {
            let mut host = String::new();
            match buffer.read_qname(&mut host) {
                Ok(()) => {},
                Err(e) => return Err(e),
            }
            Ok(DnsRecord::NS { domain, host, ttl })
        },
        _ => Err(Error::InvalidQueryType(qtype.to_u16())),
    }
}

impl DnsRecord {
    /// Reads a record at the cursor. The data of a record of an unknown type
    /// is skipped by its declared length.
    pub fn read(buffer: &mut BytePacketBuffer) -> (r: Result<DnsRecord, Error>)
        ensures
            final(buffer).buffer == old(buffer).buffer,
            match record_read(old(buffer).buffer@, old(buffer).position as int) {
                Ok((v, e)) => r is Ok && r->Ok_0@ == v && final(buffer).position == e,
                Err(err) => r == Err::<DnsRecord, Error>(err),
            },
    {
        let mut domain = String::new();
        match buffer.read_qname(&mut domain) {
            Ok(()) => {},
            Err(e) => return Err(e),
        }
        let code = match buffer.read_u16() {
            Ok(v) => v,
            Err(e) => return Err(e),
        };
        let qtype = QueryType::from(code);
        match buffer.read_u16() {
            Ok(_) => {},
            Err(e) => return Err(e),
        }
        let ttl = match buffer.read_u32() {
            Ok(v) => v,
            Err(e) => return Err(e),
        };
        let data_len = match buffer.read_u16() {
            Ok(v) => v,
            Err(e) => return Err(e),
        };
        match qtype {
            QueryType::UNKNOWN(_) => {
                let _ = buffer.step(data_len as usize);
                Ok(DnsRecord::UNKNOWN { data_len, domain, qtype: code, ttl })
            },
            QueryType::AAAA => make_aaaa_record(buffer, domain, ttl),
            QueryType::A => make_a_record(buffer, domain, ttl),
            _ => make_mcn_record(qtype, buffer, domain, ttl),
        }
    }

    /// Writes the record at the cursor and returns the number of bytes written.
    /// A record of an unknown type cannot be written.
    pub fn write(&self, buffer: &mut BytePacketBuffer) -> (r: Result<usize, Error>)
        ensures
            ({
                let w = record_wire(self@);
                &&& self@ is UNKNOWN ==> r == Err::<usize, Error>(Error::UnknownRecordError)
                    && *final(buffer) == *old(buffer)
                &&& !(self@ is UNKNOWN) ==> {
                    &&& r is Ok <==> record_names_ok(self@) && old(buffer).fits(w.len() as int)
                    &&& r is Ok ==> r->Ok_0 == w.len() && BytePacketBuffer::wrote(*old(buffer), *final(buffer), w)
                    &&& r is Err && record_names_ok(self@) ==> r == Err::<usize, Error>(Error::EndOfBuffer)
                    &&& r is Err && old(buffer).fits(w.len() as int) ==> r == Err::<usize, Error>(Error::LabelTooLong)
                }
            }),
    {
        let start_pos = buffer.pos();
        let r = match self {
            DnsRecord::AAAA { address, domain, ttl } => write_aaaa_record(buffer, domain, address, ttl),
            DnsRecord::MX { priority, domain, host, ttl } => write_mx_record(buffer, priority, domain, host, ttl),
            DnsRecord::A { address, domain, ttl } => write_a_record(buffer, domain, address, ttl),
            DnsRecord::CNAME { domain, host, ttl } => write_cnns_record(QueryType::CNAME, buffer, domain, host, ttl),
            DnsRecord::NS { domain, host, ttl } => write_cnns_record(QueryType::NS, buffer, domain, host, ttl),
            DnsRecord::UNKNOWN { .. } => return Err(Error::UnknownRecordError),
        };
        match r {
            Ok(()) => Ok(buffer.pos() - start_pos),
            Err(e) => Err(e),
        }
    }
}

} // verus!
