use vstd::prelude::*;
use crate::buffer::{BytePacketBuffer, be16, u16_of, cursor_after};
use crate::error::BytePacketError as Error;
use crate::types::ResultCode;

verus! {

/// Size of a header on the wire.
pub const HEADER_SIZE: usize = 12;

/// The header of a DNS message.
#[derive(Debug, Clone, Copy, PartialEq, Eq, Structural)]
pub struct DnsHeader {
    pub id: u16,
    pub authoritative_answer: bool,
    pub recursion_desired: bool,
    pub truncated_message: bool,
    pub response: bool,
    pub opcode: u8,
    pub recursion_available: bool,
    pub checking_disabled: bool,
    pub authed_data: bool,
    pub rescode: ResultCode,
    pub z: bool,
    pub authoritative_entries: u16,
    pub resource_entries: u16,
    pub questions: u16,
    pub answers: u16,
}

pub open spec fn bit(b: bool) -> u8 {
    if b { 1 } else { 0 }
}

/// The high byte of the flags: RD, TC, AA, the opcode and QR.
pub open spec fn flags_high(h: DnsHeader) -> u8 {
    bit(h.recursion_desired) | (bit(h.truncated_message) << 1u8) | (bit(h.authoritative_answer) << 2u8)
        | (h.opcode << 3u8) | (bit(h.response) << 7u8)
}

/// The low byte of the flags: the response code, CD, AD, Z and RA.
pub open spec fn flags_low(h: DnsHeader) -> u8 {
    h.rescode.code() | (bit(h.checking_disabled) << 4u8) | (bit(h.authed_data) << 5u8)
        | (bit(h.z) << 6u8) | (bit(h.recursion_available) << 7u8)
}

/// The twelve bytes of a header on the wire.
pub open spec fn header_wire(h: DnsHeader) -> Seq<u8> {
    be16(h.id) + seq![flags_high(h), flags_low(h)] + be16(h.questions) + be16(h.answers)
        + be16(h.authoritative_entries) + be16(h.resource_entries)
}

/// The header that the twelve bytes of `b` from `p` on encode.
pub open spec fn header_from(b: Seq<u8>, p: int) -> DnsHeader {
    let a = b[p + 2];
    let c = b[p + 3];
    DnsHeader {
        id: u16_of(b[p], b[p + 1]),
        recursion_desired: a & 0x01u8 != 0,
        truncated_message: a & 0x02u8 != 0,
        authoritative_answer: a & 0x04u8 != 0,
        opcode: (a >> 3u8) & 0x0fu8,
        response: a & 0x80u8 != 0,
        rescode: ResultCode::spec_from(c & 0x0fu8),
        checking_disabled: c & 0x10u8 != 0,
        authed_data: c & 0x20u8 != 0,
        z: c & 0x40u8 != 0,
        recursion_available: c & 0x80u8 != 0,
        questions: u16_of(b[p + 4], b[p + 5]),
        answers: u16_of(b[p + 6], b[p + 7]),
        authoritative_entries: u16_of(b[p + 8], b[p + 9]),
        resource_entries: u16_of(b[p + 10], b[p + 11]),
    }
}

fn flag(b: bool) -> (r: u8)
    ensures
        r == bit(b),
{
    if b { 1 } else { 0 }
}

impl DnsHeader {
    /// A header with every flag off, id and counts zero and `NoError`.
    pub open spec fn spec_new() -> DnsHeader {
        DnsHeader {
            id: 0,
            authoritative_answer: false,
            recursion_desired: false,
            truncated_message: false,
            response: false,
            opcode: 0,
            recursion_available: false,
            checking_disabled: false,
            authed_data: false,
            rescode: ResultCode::NoError,
            z: false,
            authoritative_entries: 0,
            resource_entries: 0,
            questions: 0,
            answers: 0,
        }
    }

    /// A header with every flag off, id and counts zero and `NoError`.
    pub fn new() -> (r: Self)
        ensures
            r == DnsHeader::spec_new(),
            r == (DnsHeader {
                id: 0,
                authoritative_answer: false,
                recursion_desired: false,
                truncated_message: false,
                response: false,
                opcode: 0,
                recursion_available: false,
                checking_disabled: false,
                authed_data: false,
                rescode: ResultCode::NoError,
                z: false,
                authoritative_entries: 0,
                resource_entries: 0,
                questions: 0,
                answers: 0,
            }),
    {
        DnsHeader {
            id: 0,
            authoritative_answer: false,
            recursion_desired: false,
            truncated_message: false,
            response: false,
            opcode: 0,
            recursion_available: false,
            checking_disabled: false,
            authed_data: false,
            rescode: ResultCode::NoError,
            z: false,
            authoritative_entries: 0,
            resource_entries: 0,
            questions: 0,
            answers: 0,
        }
    }

    /// Reads a header at the cursor into `self`. On an error `self` is left as it was.
    pub fn read(&mut self, buffer: &mut BytePacketBuffer) -> (r: Result<(), Error>)
        ensures
            final(buffer).buffer == old(buffer).buffer,
            ({
                let (p, b) = (old(buffer).position as int, old(buffer).buffer@);
                if old(buffer).fits(HEADER_SIZE as int) {
                    &&& r is Ok
                    &&& *final(self) == header_from(b, p)
                    &&& final(buffer).position == p + HEADER_SIZE
                } else {
                    &&& r == Err::<(), Error>(Error::EndOfBuffer)
                    &&& *final(self) == *old(self)
                    &&& final(buffer).position == cursor_after(p, HEADER_SIZE as int)
                }
            }),
    {
        let id = match buffer.read_u16() {
            Ok(v) => v,
            Err(e) => return Err(e),
        };
        let flags = match buffer.read_u16() {
            Ok(v) => v,
            Err(e) => return Err(e),
        };
        let questions = match buffer.read_u16() {
            Ok(v) => v,
            Err(e) => return Err(e),
        };
        let answers = match buffer.read_u16() {
            Ok(v) => v,
            Err(e) => return Err(e),
        };
        let authorities = match buffer.read_u16() {
            Ok(v) => v,
            Err(e) => return Err(e),
        };
        let resources = match buffer.read_u16() {
            Ok(v) => v,
            Err(e) => return Err(e),
        };
        let a: u8 = (flags >> 8u16) as u8;
        let c: u8 = (flags & 0xffu16) as u8;
        proof {
            let b = old(buffer).buffer@;
            let p = old(buffer).position as int;
            let (hi, lo) = (b[p + 2], b[p + 3]);
            assert(flags == u16_of(hi, lo));
            assert(((hi as int * 256 + lo as int) as u16 >> 8u16) as u8 == hi
                && ((hi as int * 256 + lo as int) as u16 & 0xffu16) as u8 == lo) by (bit_vector);
        }
        self.id = id;
        self.recursion_desired = a & 0x01u8 != 0;
        self.truncated_message = a & 0x02u8 != 0;
        self.authoritative_answer = a & 0x04u8 != 0;
        self.opcode = (a >> 3u8) & 0x0fu8;
        self.response = a & 0x80u8 != 0;
        self.rescode = ResultCode::from(c & 0x0fu8);
        self.checking_disabled = c & 0x10u8 != 0;
        self.authed_data = c & 0x20u8 != 0;
        self.z = c & 0x40u8 != 0;
        self.recursion_available = c & 0x80u8 != 0;
        self.questions = questions;
        self.answers = answers;
        self.authoritative_entries = authorities;
        self.resource_entries = resources;
        Ok(())
    }

    /// Writes the header at the cursor, counts as they stand.
    pub fn write(&self, buffer: &mut BytePacketBuffer) -> (r: Result<(), Error>)
        ensures
            BytePacketBuffer::wrote(*old(buffer), *final(buffer), header_wire(*self)),
            old(buffer).fits(HEADER_SIZE as int) ==> r is Ok,
            !old(buffer).fits(HEADER_SIZE as int) ==> r == Err::<(), Error>(Error::EndOfBuffer),
    {
        let a: u8 = flag(self.recursion_desired) | (flag(self.truncated_message) << 1u8)
            | (flag(self.authoritative_answer) << 2u8) | (self.opcode << 3u8) | (flag(self.response) << 7u8);
        let c: u8 = self.rescode.to_u8() | (flag(self.checking_disabled) << 4u8)
            | (flag(self.authed_data) << 5u8) | (flag(self.z) << 6u8) | (flag(self.recursion_available) << 7u8);
        let bytes: [u8; 12] = [
            (self.id >> 8u16) as u8, (self.id & 0xffu16) as u8,
            a, c,
            (self.questions >> 8u16) as u8, (self.questions & 0xffu16) as u8,
            (self.answers >> 8u16) as u8, (self.answers & 0xffu16) as u8,
            (self.authoritative_entries >> 8u16) as u8, (self.authoritative_entries & 0xffu16) as u8,
            (self.resource_entries >> 8u16) as u8, (self.resource_entries & 0xffu16) as u8,
        ];
        assert(bytes@ =~= header_wire(*self));
        buffer.write_bytes(bytes.as_slice())
    }
}

} // verus!
