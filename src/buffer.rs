use vstd::prelude::*;
use crate::error::BytePacketError as Error;

verus! {

/// Capacity of a packet buffer: the largest UDP payload that is not fragmented.
pub const PACKET_BUFFER_SIZE: usize = 1280;

/// The two big-endian bytes of `v`.
pub open spec fn be16(v: u16) -> Seq<u8> {
    seq![(v >> 8u16) as u8, (v & 0xffu16) as u8]
}

/// The four big-endian bytes of `v`.
pub open spec fn be32(v: u32) -> Seq<u8> {
    seq![(v >> 24u32) as u8, ((v >> 16u32) & 0xffu32) as u8, ((v >> 8u32) & 0xffu32) as u8, (v & 0xffu32) as u8]
}

/// The 16-bit number whose big-endian bytes are `hi`, `lo`.
pub open spec fn u16_of(hi: u8, lo: u8) -> u16 {
    (hi as int * 256 + lo as int) as u16
}

/// The 32-bit number whose big-endian bytes are `b0` .. `b3`.
pub open spec fn u32_of(b0: u8, b1: u8, b2: u8, b3: u8) -> u32 {
    (b0 as int * 0x1000000 + b1 as int * 0x10000 + b2 as int * 0x100 + b3 as int) as u32
}

/// `bytes` with `data` laid over it from `pos` on; what falls past the end is lost.
pub open spec fn put(bytes: Seq<u8>, pos: int, data: Seq<u8>) -> Seq<u8> {
    Seq::new(bytes.len(), |i: int| if pos <= i < pos + data.len() { data[i - pos] } else { bytes[i] })
}

/// The cursor after writing `n` bytes from `pos`, byte by byte, until one falls outside.
pub open spec fn cursor_after(pos: int, n: int) -> int {
    if pos + n <= PACKET_BUFFER_SIZE {
        pos + n
    } else if pos > PACKET_BUFFER_SIZE {
        pos
    } else {
        PACKET_BUFFER_SIZE as int
    }
}

pub proof fn lemma_be16_u16_of(v: u16)
    ensures
        u16_of(be16(v)[0], be16(v)[1]) == v,
{
    assert(((v >> 8u16) as u8) as int * 256 + ((v & 0xffu16) as u8) as int == v) by (bit_vector);
}

pub proof fn lemma_be32_u32_of(v: u32)
    ensures
        u32_of(be32(v)[0], be32(v)[1], be32(v)[2], be32(v)[3]) == v,
{
    assert(((v >> 24u32) as u8) as int * 0x1000000 + (((v >> 16u32) & 0xffu32) as u8) as int * 0x10000
        + (((v >> 8u32) & 0xffu32) as u8) as int * 0x100 + ((v & 0xffu32) as u8) as int == v) by (bit_vector);
}

/// Two writes in a row, the first of which fit, are one write of both.
pub proof fn lemma_wrote_concat(a: BytePacketBuffer, b: BytePacketBuffer, c: BytePacketBuffer, d1: Seq<u8>, d2: Seq<u8>)
    requires
        a.buffer@.len() == PACKET_BUFFER_SIZE,
        BytePacketBuffer::wrote(a, b, d1),
        a.fits(d1.len() as int),
        BytePacketBuffer::wrote(b, c, d2),
    ensures
        BytePacketBuffer::wrote(a, c, d1 + d2),
{
    assert(c.buffer@ =~= put(a.buffer@, a.position as int, d1 + d2));
}

/// A fixed-size byte buffer with a cursor, from which DNS messages are read
/// and into which they are written.
pub struct BytePacketBuffer {
    pub position: usize,
    pub buffer: [u8; PACKET_BUFFER_SIZE],
}

impl BytePacketBuffer {
    /// What writing `data` at the cursor of `old` makes of it: the bytes that fit
    /// are laid over the buffer and the cursor moves past them.
    pub open spec fn wrote(old: BytePacketBuffer, new: BytePacketBuffer, data: Seq<u8>) -> bool {
        &&& new.buffer@ == put(old.buffer@, old.position as int, data)
        &&& new.position == cursor_after(old.position as int, data.len() as int)
    }

    /// Two writes in a row, the first of which succeeded, are one write of both.
    pub proof fn lemma_wrote_any(a: BytePacketBuffer, b: BytePacketBuffer, c: BytePacketBuffer, d1: Seq<u8>, d2: Seq<u8>)
        requires
            a.buffer@.len() == PACKET_BUFFER_SIZE,
            BytePacketBuffer::wrote(a, b, d1),
            a.fits_all(d1.len() as int),
            BytePacketBuffer::wrote(b, c, d2),
        ensures
            BytePacketBuffer::wrote(a, c, d1 + d2),
    {
        assert(c.buffer@ =~= put(a.buffer@, a.position as int, d1 + d2));
    }

    /// Whether writing `n` bytes from the cursor on succeeds: nothing to write, or room for all.
    pub open spec fn fits_all(self, n: int) -> bool {
        n == 0 || self.fits(n)
    }

    /// Whether `n` bytes fit from the cursor on.
    pub open spec fn fits(self, n: int) -> bool {
        self.position + n <= PACKET_BUFFER_SIZE
    }

    pub fn new() -> (r: Self)
        ensures
            r.position == 0,
            r.buffer@ == Seq::new(PACKET_BUFFER_SIZE as nat, |i: int| 0u8),
    {
        let r = BytePacketBuffer { position: 0, buffer: [0u8; PACKET_BUFFER_SIZE] };
        assert(r.buffer@ =~= Seq::new(PACKET_BUFFER_SIZE as nat, |i: int| 0u8));
        r
    }

    /// A buffer holding `data` from its start, zeros after it, cursor at zero.
    pub fn from_bytes(data: &[u8]) -> (r: Self)
        requires
            data@.len() <= PACKET_BUFFER_SIZE,
        ensures
            r.position == 0,
            r.buffer@ == put(Seq::new(PACKET_BUFFER_SIZE as nat, |i: int| 0u8), 0, data@),
    {
        let mut r = BytePacketBuffer::new();
        let mut i: usize = 0;
        while i < data.len()
            invariant
                i <= data@.len() <= PACKET_BUFFER_SIZE,
                r.position == 0,
                r.buffer@ == put(Seq::new(PACKET_BUFFER_SIZE as nat, |i: int| 0u8), 0, data@.take(i as int)),
            decreases data@.len() - i,
        {
            r.buffer[i] = data[i];
            i = i + 1;
            assert(r.buffer@ =~= put(Seq::new(PACKET_BUFFER_SIZE as nat, |i: int| 0u8), 0, data@.take(i as int)));
        }
        assert(data@.take(i as int) =~= data@);
        r
    }

    /// The bytes before the cursor.
    pub fn written(&self) -> (r: Vec<u8>)
        requires
            self.position <= PACKET_BUFFER_SIZE,
        ensures
            r@ == self.buffer@.take(self.position as int),
    {
        let r = vstd::slice::slice_to_vec(&self.buffer.as_slice()[0..self.position]);
        assert(r@ =~= self.buffer@.take(self.position as int));
        r
    }

    pub fn pos(&self) -> (r: usize)
        ensures
            r == self.position,
    {
        self.position
    }

    /// Moves the cursor forward by `steps`, without checking it against the capacity.
    pub fn step(&mut self, steps: usize) -> (r: Result<(), Error>)
        requires
            old(self).position + steps <= usize::MAX,
        ensures
            r is Ok,
            final(self).position == old(self).position + steps,
            final(self).buffer == old(self).buffer,
    {
        self.position = self.position + steps;
        Ok(())
    }

    /// Moves the cursor to `pos`, without checking it against the capacity.
    pub fn seek(&mut self, pos: usize) -> (r: Result<(), Error>)
        ensures
            r is Ok,
            final(self).position == pos,
            final(self).buffer == old(self).buffer,
    {
        self.position = pos;
        Ok(())
    }

    /// Reads the byte at the cursor and moves past it.
    pub fn read(&mut self) -> (r: Result<u8, Error>)
        ensures
            final(self).buffer == old(self).buffer,
            old(self).fits(1) ==> r == Ok::<u8, Error>(old(self).buffer@[old(self).position as int])
                && final(self).position == old(self).position + 1,
            !old(self).fits(1) ==> r == Err::<u8, Error>(Error::EndOfBuffer)
                && final(self).position == old(self).position,
    {
        if self.position < PACKET_BUFFER_SIZE {
            let byte = self.buffer[self.position];
            self.position = self.position + 1;
            Ok(byte)
        } else {
            Err(Error::EndOfBuffer)
        }
    }

    /// Reads a big-endian 16-bit number at the cursor.
    pub fn read_u16(&mut self) -> (r: Result<u16, Error>)
        ensures
            final(self).buffer == old(self).buffer,
            ({
                let (p, b) = (old(self).position as int, old(self).buffer@);
                if old(self).fits(2) {
                    r == Ok::<u16, Error>(u16_of(b[p], b[p + 1])) && final(self).position == p + 2
                } else {
                    r == Err::<u16, Error>(Error::EndOfBuffer)
                        && final(self).position == cursor_after(p, 2)
                }
            }),
    {
        let high: u16 = match self.read() {
            Ok(byte) => byte as u16,
            Err(e) => return Err(e),
        };
        let low: u16 = match self.read() {
            Ok(byte) => byte as u16,
            Err(e) => return Err(e),
        };
        let r = (high << 8u16) | low;
        assert(high < 256 && low < 256 ==> (high << 8u16) | low == high * 256 + low) by (bit_vector);
        Ok(r)
    }

    /// Reads a big-endian 32-bit number at the cursor.
    pub fn read_u32(&mut self) -> (r: Result<u32, Error>)
        ensures
            final(self).buffer == old(self).buffer,
            ({
                let (p, b) = (old(self).position as int, old(self).buffer@);
                if old(self).fits(4) {
                    r == Ok::<u32, Error>(u32_of(b[p], b[p + 1], b[p + 2], b[p + 3]))
                        && final(self).position == p + 4
                } else {
                    r == Err::<u32, Error>(Error::EndOfBuffer)
                        && final(self).position == cursor_after(p, 4)
                }
            }),
    {
        let b0: u32 = match self.read() {
            Ok(byte) => byte as u32,
            Err(e) => return Err(e),
        };
        let b1: u32 = match self.read() {
            Ok(byte) => byte as u32,
            Err(e) => return Err(e),
        };
        let b2: u32 = match self.read() {
            Ok(byte) => byte as u32,
            Err(e) => return Err(e),
        };
        let b3: u32 = match self.read() {
            Ok(byte) => byte as u32,
            Err(e) => return Err(e),
        };
        assert(b0 < 256 && b1 < 256 && b2 < 256 && b3 < 256 ==> (b0 << 24u32) | (b1 << 16u32) | (b2 << 8u32) | b3
            == b0 * 0x1000000 + b1 * 0x10000 + b2 * 0x100 + b3) by (bit_vector);
        Ok((b0 << 24u32) | (b1 << 16u32) | (b2 << 8u32) | b3)
    }

    /// The byte at absolute position `pos`; the cursor stays.
    pub fn get(&mut self, pos: usize) -> (r: Result<u8, Error>)
        ensures
            *final(self) == *old(self),
            pos < PACKET_BUFFER_SIZE ==> r == Ok::<u8, Error>(old(self).buffer@[pos as int]),
            pos >= PACKET_BUFFER_SIZE ==> r == Err::<u8, Error>(Error::EndOfBuffer),
    {
        if pos < PACKET_BUFFER_SIZE {
            Ok(self.buffer[pos])
        } else {
            Err(Error::EndOfBuffer)
        }
    }

    /// The bytes at absolute positions `start .. start + len`; the cursor stays.
    pub fn get_range(&mut self, start: usize, len: usize) -> (r: Result<&[u8], Error>)
        ensures
            *final(self) == *old(self),
            start + len <= PACKET_BUFFER_SIZE ==> r is Ok
                && r->Ok_0@ == old(self).buffer@.subrange(start as int, start + len),
            start + len > PACKET_BUFFER_SIZE ==> r == Err::<&[u8], Error>(Error::EndOfBuffer),
    {
        if start > PACKET_BUFFER_SIZE || len > PACKET_BUFFER_SIZE - start {
            Err(Error::EndOfBuffer)
        } else {
            Ok(&self.buffer.as_slice()[start..start + len])
        }
    }

    /// Writes one byte at the cursor and moves past it.
    pub fn write(&mut self, val: u8) -> (r: Result<(), Error>)
        ensures
            BytePacketBuffer::wrote(*old(self), *final(self), seq![val]),
            old(self).fits(1) ==> r is Ok,
            !old(self).fits(1) ==> r == Err::<(), Error>(Error::EndOfBuffer),
    {
        if self.position < PACKET_BUFFER_SIZE {
            self.buffer[self.position] = val;
            self.position = self.position + 1;
            assert(self.buffer@ =~= put(old(self).buffer@, old(self).position as int, seq![val]));
            Ok(())
        } else {
            assert(self.buffer@ =~= put(old(self).buffer@, old(self).position as int, seq![val]));
            Err(Error::EndOfBuffer)
        }
    }

    /// Writes `bytes` at the cursor, byte by byte; stops at the first that does not fit.
    pub fn write_bytes(&mut self, bytes: &[u8]) -> (r: Result<(), Error>)
        ensures
            BytePacketBuffer::wrote(*old(self), *final(self), bytes@),
            old(self).fits_all(bytes@.len() as int) ==> r is Ok,
            !old(self).fits_all(bytes@.len() as int) ==> r == Err::<(), Error>(Error::EndOfBuffer),
    {
        let mut i: usize = 0;
        assert(self.buffer@ =~= put(old(self).buffer@, old(self).position as int, bytes@.subrange(0, 0)));
        while i < bytes.len()
            invariant
                i <= bytes@.len(),
                i == 0 || old(self).fits(i as int),
                BytePacketBuffer::wrote(*old(self), *self, bytes@.subrange(0, i as int)),
            decreases bytes@.len() - i,
        {
            let ghost mid = *self;
            match self.write(bytes[i]) {
                Ok(()) => {},
                Err(e) => {
                    assert(self.buffer@ =~= put(old(self).buffer@, old(self).position as int, bytes@));
                    return Err(e);
                },
            }
            assert(self.buffer@ =~= put(old(self).buffer@, old(self).position as int, bytes@.subrange(0, i + 1)));
            i = i + 1;
        }
        assert(bytes@.subrange(0, i as int) =~= bytes@);
        Ok(())
    }

    /// Writes a big-endian 16-bit number at the cursor.
    pub fn write_u16(&mut self, val: u16) -> (r: Result<(), Error>)
        ensures
            BytePacketBuffer::wrote(*old(self), *final(self), be16(val)),
            old(self).fits(2) ==> r is Ok,
            !old(self).fits(2) ==> r == Err::<(), Error>(Error::EndOfBuffer),
    {
        let bytes: [u8; 2] = [(val >> 8u16) as u8, (val & 0xffu16) as u8];
        assert(bytes@ =~= be16(val));
        self.write_bytes(bytes.as_slice())
    }

    /// Writes a big-endian 32-bit number at the cursor.
    pub fn write_u32(&mut self, val: u32) -> (r: Result<(), Error>)
        ensures
            BytePacketBuffer::wrote(*old(self), *final(self), be32(val)),
            old(self).fits(4) ==> r is Ok,
            !old(self).fits(4) ==> r == Err::<(), Error>(Error::EndOfBuffer),
    {
        let bytes: [u8; 4] = [
            (val >> 24u32) as u8,
            ((val >> 16u32) & 0xffu32) as u8,
            ((val >> 8u32) & 0xffu32) as u8,
            (val & 0xffu32) as u8,
        ];
        assert(bytes@ =~= be32(val));
        self.write_bytes(bytes.as_slice())
    }

    /// Overwrites the byte at absolute position `pos`; the cursor stays.
    pub fn set(&mut self, pos: usize, val: u8) -> (r: Result<(), Error>)
        ensures
            final(self).position == old(self).position,
            final(self).buffer@ == put(old(self).buffer@, pos as int, seq![val]),
            pos < PACKET_BUFFER_SIZE ==> r is Ok,
            pos >= PACKET_BUFFER_SIZE ==> r == Err::<(), Error>(Error::OutOfBounds),
    {
        if pos < PACKET_BUFFER_SIZE {
            self.buffer[pos] = val;
            assert(self.buffer@ =~= put(old(self).buffer@, pos as int, seq![val]));
            Ok(())
        } else {
            assert(self.buffer@ =~= put(old(self).buffer@, pos as int, seq![val]));
            Err(Error::OutOfBounds)
        }
    }

    /// Overwrites the two bytes at absolute position `pos` with the big-endian
    /// bytes of `val`; the cursor stays. Used to fill in a length once it is known.
    pub fn set_u16(&mut self, pos: usize, val: u16) -> (r: Result<(), Error>)
        ensures
            final(self).position == old(self).position,
            final(self).buffer@ == put(old(self).buffer@, pos as int, be16(val)),
            pos + 2 <= PACKET_BUFFER_SIZE ==> r is Ok,
            pos + 2 > PACKET_BUFFER_SIZE ==> r == Err::<(), Error>(Error::OutOfBounds),
    {
        match self.set(pos, (val >> 8u16) as u8) {
            Ok(()) => {},
            Err(e) => {
                assert(self.buffer@ =~= put(old(self).buffer@, pos as int, be16(val)));
                return Err(e);
            },
        }
        let r = self.set(pos + 1, (val & 0xffu16) as u8);
        assert(self.buffer@ =~= put(old(self).buffer@, pos as int, be16(val)));
        r
    }
}

} // verus!
