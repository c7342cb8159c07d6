use vstd::prelude::*;
use vstd::string::StringSliceAdditionalSpecFns;
use vstd::utf8::{decode_utf8, valid_utf8};
use crate::buffer::{BytePacketBuffer, PACKET_BUFFER_SIZE, put, lemma_wrote_concat};
use crate::error::BytePacketError as Error;

verus! {

/// Most compression pointers that one name may follow.
pub const MAX_JUMPS: usize = 5;

/// Longest label that can be encoded.
pub const MAX_LABEL_LENGTH: usize = 63;

/// The text of some bytes read as UTF-8, with U+FFFD for what is not.
pub uninterp spec fn lossy_of(b: Seq<u8>) -> Seq<char>;

/// The lowercase form of a text.
pub uninterp spec fn lower_of(s: Seq<char>) -> Seq<char>;

/// Relies on `String::from_utf8_lossy`: the bytes as text, invalid sequences
/// replaced; bytes that are valid UTF-8 give the characters they encode.
#[verifier::external_body]
fn text_of_bytes(b: &[u8]) -> (r: String)
    ensures
        r@ == lossy_of(b@),
        valid_utf8(b@) ==> r@ == decode_utf8(b@),
{
    String::from_utf8_lossy(b).into_owned()
}

/// Relies on `str::to_lowercase`: the lowercase form of the text.
#[verifier::external_body]
pub(crate) fn lowercase(s: &str) -> (r: String)
    ensures
        r@ == lower_of(s@),
{
    s.to_lowercase()
}

/// Whether a length byte is instead the first byte of a compression pointer.
pub open spec fn is_pointer(b: u8) -> bool {
    b & 0xc0u8 == 0xc0u8
}

/// The absolute offset that a compression pointer of bytes `b1`, `b2` points to.
pub open spec fn pointer_target(b1: u8, b2: u8) -> int {
    (b1 & 0x3fu8) as int * 256 + b2 as int
}

/// The labels of the name that starts at `pos` in `bytes`, having followed
/// `jumps` pointers so far, or the error that reading it meets.
pub open spec fn name_labels(bytes: Seq<u8>, pos: int, jumps: int) -> Result<Seq<Seq<u8>>, Error>
    decreases 6 - jumps, bytes.len() - pos,
{
    if jumps > MAX_JUMPS {
        Err(Error::MaxJumpsExceeded)
    } else if pos < 0 || pos >= bytes.len() {
        Err(Error::EndOfBuffer)
    } else if is_pointer(bytes[pos]) {
        if pos + 1 >= bytes.len() {
            Err(Error::EndOfBuffer)
        } else {
            name_labels(bytes, pointer_target(bytes[pos], bytes[pos + 1]), jumps + 1)
        }
    } else if bytes[pos] == 0 {
        Ok(Seq::empty())
    } else if pos + 1 + bytes[pos] > bytes.len() {
        Err(Error::EndOfBuffer)
    } else {
        let label = bytes.subrange(pos + 1, pos + 1 + bytes[pos]);
        match name_labels(bytes, pos + 1 + bytes[pos], jumps) {
            Ok(rest) => Ok(seq![label] + rest),
            Err(e) => Err(e),
        }
    }
}

/// Where the cursor stands after reading the name at `pos`: past its
/// terminating zero, or past the first compression pointer.
pub open spec fn name_end(bytes: Seq<u8>, pos: int) -> int
    decreases bytes.len() - pos,
{
    if pos < 0 || pos >= bytes.len() {
        pos
    } else if is_pointer(bytes[pos]) {
        pos + 2
    } else if bytes[pos] == 0 {
        pos + 1
    } else if pos + 1 + bytes[pos] > bytes.len() {
        pos
    } else {
        name_end(bytes, pos + 1 + bytes[pos])
    }
}

/// The decoded text of one label: read as UTF-8, then lowercased.
pub open spec fn label_text(l: Seq<u8>) -> Seq<char> {
    lower_of(lossy_of(l))
}

/// The texts `parts` joined by dots.
pub open spec fn dotted(parts: Seq<Seq<char>>) -> Seq<char>
    decreases parts.len(),
{
    if parts.len() == 0 {
        Seq::empty()
    } else if parts.len() == 1 {
        parts[0]
    } else {
        dotted(parts.drop_last()) + seq!['.'] + parts.last()
    }
}

/// The decoded texts of `labels`, joined by dots.
pub open spec fn dotted_text(labels: Seq<Seq<u8>>) -> Seq<char> {
    dotted(labels.map_values(|l: Seq<u8>| label_text(l)))
}

/// Joins `parts` with dots.
pub fn join_labels(parts: &Vec<String>) -> (r: String)
    ensures
        r@ == dotted(parts@.map_values(|p: String| p@)),
{
    let mut text = String::new();
    let mut i: usize = 0;
    proof {
        reveal_strlit(".");
        assert(parts@.take(0).map_values(|p: String| p@) =~= Seq::<Seq<char>>::empty());
    }
    while i < parts.len()
        invariant
            i <= parts@.len(),
            "."@ == seq!['.'],
            text@ == dotted(parts@.take(i as int).map_values(|p: String| p@)),
        decreases parts@.len() - i,
    {
        let ghost prev = parts@.take(i as int).map_values(|p: String| p@);
        if i > 0 {
            text.append(".");
        }
        text.append(parts[i].as_str());
        proof {
            let next = parts@.take(i + 1).map_values(|p: String| p@);
            assert(next.drop_last() =~= prev);
            assert(next.last() == parts@[i as int]@);
            if i == 0 {
                assert(text@ =~= next[0]);
            } else {
                assert(text@ =~= dotted(prev) + seq!['.'] + next.last());
            }
        }
        i = i + 1;
    }
    assert(parts@.take(i as int) =~= parts@);
    text
}

/// `labels` before what `rest` reads, or the error of `rest`.
pub open spec fn prefixed(labels: Seq<Seq<u8>>, rest: Result<Seq<Seq<u8>>, Error>) -> Result<Seq<Seq<u8>>, Error> {
    match rest {
        Ok(r) => Ok(labels + r),
        Err(e) => Err(e),
    }
}


/// The labels of a dotted name, as bytes: `s` split at each `.`.
pub open spec fn split_labels(s: Seq<u8>) -> Seq<Seq<u8>>
    decreases s.len(),
{
    if s.len() == 0 {
        seq![Seq::empty()]
    } else {
        let rest = split_labels(s.drop_last());
        if s.last() == 0x2eu8 {
            rest.push(Seq::empty())
        } else {
            rest.drop_last().push(rest.last().push(s.last()))
        }
    }
}

/// Each label after its length byte.
pub open spec fn labels_wire(labels: Seq<Seq<u8>>) -> Seq<u8>
    decreases labels.len(),
{
    if labels.len() == 0 {
        Seq::empty()
    } else {
        labels_wire(labels.drop_last()) + seq![labels.last().len() as u8] + labels.last()
    }
}

/// Whether no label is longer than a label may be.
pub open spec fn all_short(labels: Seq<Seq<u8>>) -> bool {
    forall|i: int| 0 <= i < labels.len() ==> #[trigger] labels[i].len() <= MAX_LABEL_LENGTH
}

/// The encoding of the dotted name `s`: its labels, each after its length,
/// then a zero. Compression is never used.
pub open spec fn qname_wire(s: Seq<u8>) -> Seq<u8> {
    labels_wire(split_labels(s)) + seq![0u8]
}

pub proof fn lemma_split_labels_len(s: Seq<u8>)
    ensures
        split_labels(s).len() >= 1,
    decreases s.len(),
{
    if s.len() > 0 {
        lemma_split_labels_len(s.drop_last());
    }
}

/// The encoding of a name is two bytes longer than the name.
pub proof fn lemma_wire_len(s: Seq<u8>)
    ensures
        labels_wire(split_labels(s)).len() == s.len() + 1,
    decreases s.len(),
{
    if s.len() > 0 {
        lemma_wire_len(s.drop_last());
        lemma_split_labels_len(s.drop_last());
        let rest = split_labels(s.drop_last());
        if s.last() != 0x2eu8 {
            let ls = rest.drop_last().push(rest.last().push(s.last()));
            assert(ls.drop_last() =~= rest.drop_last());
            assert(rest.drop_last().push(rest.last()) =~= rest);
            assert(labels_wire(rest).len() == labels_wire(rest.drop_last()).len() + 1 + rest.last().len());
            assert(ls.last() == rest.last().push(s.last()));
            assert(labels_wire(ls).len() == labels_wire(ls.drop_last()).len() + 1 + ls.last().len());
        } else {
            assert(rest.push(Seq::<u8>::empty()).drop_last() =~= rest);
            assert(labels_wire(rest.push(Seq::<u8>::empty())).len() == labels_wire(rest).len() + 1);
        }
    } else {
        let ls = split_labels(s);
        assert(ls.drop_last() =~= Seq::<Seq<u8>>::empty());
        assert(labels_wire(ls).len() == labels_wire(ls.drop_last()).len() + 1 + ls.last().len());
    }
}

/// Splitting one byte more either opens a new label or extends the last one.
pub proof fn lemma_split_step(s: Seq<u8>, i: int)
    requires
        0 <= i < s.len(),
    ensures
        ({
            let before = split_labels(s.take(i));
            let after = split_labels(s.take(i + 1));
            if s[i] == 0x2eu8 {
                after == before.push(Seq::<u8>::empty())
            } else {
                after == before.drop_last().push(before.last().push(s[i]))
            }
        }),
{
    assert(s.take(i + 1).drop_last() =~= s.take(i));
}

impl BytePacketBuffer {
    /// Reads the name at the cursor and appends its text to `outstr`: labels
    /// lowercased and joined by dots, compression pointers followed. The cursor
    /// ends past the name's terminating zero, or past the first pointer met.
    /// On an error neither the buffer nor `outstr` changes.
    pub fn read_qname(&mut self, outstr: &mut String) -> (r: Result<(), Error>)
        ensures
            final(self).buffer == old(self).buffer,
            match name_labels(old(self).buffer@, old(self).position as int, 0) {
                Ok(labels) => {
                    &&& r is Ok
                    &&& final(outstr)@ == old(outstr)@ + dotted_text(labels)
                    &&& final(self).position == name_end(old(self).buffer@, old(self).position as int)
                },
                Err(e) => {
                    &&& r == Err::<(), Error>(e)
                    &&& final(self).position == old(self).position
                    &&& final(outstr)@ == old(outstr)@
                },
            },
    {
        let ghost b = self.buffer@;
        let ghost p0 = self.position as int;
        let mut position: usize = self.position;
        let mut jumped: bool = false;
        let mut end: usize = 0;
        let mut jumps: usize = 0;
        let mut parts: Vec<String> = Vec::new();
        let ghost mut labels: Seq<Seq<u8>> = Seq::empty();
        proof {
            assert(parts@.map_values(|p: String| p@) =~= labels.map_values(|l: Seq<u8>| label_text(l)));
            assert(labels + Seq::<Seq<u8>>::empty() =~= labels);
            assert(forall|r: Seq<Seq<u8>>| #[trigger] (Seq::<Seq<u8>>::empty() + r) =~= r);
        }
        loop
            invariant
                *self == *old(self),
                *outstr == *old(outstr),
                self.buffer@ == b,
                self.position == p0,
                b.len() == PACKET_BUFFER_SIZE,
                jumps <= 6,
                jumped <==> jumps > 0,
                parts@.map_values(|p: String| p@) == labels.map_values(|l: Seq<u8>| label_text(l)),
                name_labels(b, p0, 0) == prefixed(labels, name_labels(b, position as int, jumps as int)),
                !jumped ==> name_end(b, p0) == name_end(b, position as int),
                jumped ==> end as int == name_end(b, p0),
            decreases 6 - jumps, usize::MAX - position,
        {
            if jumps > MAX_JUMPS {
                return Err(Error::MaxJumpsExceeded);
            }
            let length: u8 = match self.get(position) {
                Ok(len) => len,
                Err(e) => return Err(e),
            };
            if length & 0xc0u8 == 0xc0u8 {
                let byte2: u16 = match self.get(position + 1) {
                    Ok(byte) => byte as u16,
                    Err(e) => return Err(e),
                };
                if !jumped {
                    end = position + 2;
                }
                let offset: u16 = (((length as u16) ^ 0xc0u16) << 8u16) | byte2;
                assert(length & 0xc0u8 == 0xc0u8 && byte2 < 256 ==> (((length as u16) ^ 0xc0u16) << 8u16) | byte2
                    == (length & 0x3fu8) as u16 * 256 + byte2 && (length & 0x3fu8) < 64) by (bit_vector);
                position = offset as usize;
                jumps = jumps + 1;
                jumped = true;
                continue;
            }
            if length == 0 {
                proof {
                    assert(labels + Seq::<Seq<u8>>::empty() =~= labels);
                }
                let cursor = if jumped { end } else { position + 1 };
                let text = join_labels(&parts);
                outstr.append(text.as_str());
                self.seek(cursor);
                return Ok(());
            }
            let label_bytes: &[u8] = match self.get_range(position + 1, length as usize) {
                Ok(bytes) => bytes,
                Err(e) => return Err(e),
            };
            let piece = lowercase(text_of_bytes(label_bytes).as_str());
            let ghost label = label_bytes@;
            let ghost before = parts@;
            parts.push(piece);
            proof {
                let next = name_labels(b, position + 1 + length, jumps as int);
                assert(name_labels(b, position as int, jumps as int) == prefixed(seq![label], next));
                assert(labels + seq![label] + Seq::<Seq<u8>>::empty() =~= labels.push(label));
                match next {
                    Ok(rest) => {
                        assert(labels + (seq![label] + rest) =~= labels.push(label) + rest);
                    },
                    Err(e) => {},
                }
                assert(parts@.map_values(|p: String| p@) =~= before.map_values(|p: String| p@).push(label_text(label)));
                assert(labels.push(label).map_values(|l: Seq<u8>| label_text(l))
                    =~= labels.map_values(|l: Seq<u8>| label_text(l)).push(label_text(label)));
                labels = labels.push(label);
            }
            position = position + 1 + length as usize;
        }
    }

    /// Writes the dotted name `qname` at the cursor: each label after its
    /// length byte, then a zero. A label longer than 63 bytes fails the whole
    /// name with `LabelTooLong`, and a name that does not fit fails with
    /// `EndOfBuffer`; either way nothing is written.
    pub fn write_qname(&mut self, qname: &str) -> (r: Result<(), Error>)
        ensures
            ({
                let wire = qname_wire(qname.spec_bytes());
                if !all_short(split_labels(qname.spec_bytes())) {
                    r == Err::<(), Error>(Error::LabelTooLong) && *final(self) == *old(self)
                } else if !old(self).fits(wire.len() as int) {
                    r == Err::<(), Error>(Error::EndOfBuffer) && *final(self) == *old(self)
                } else {
                    r is Ok && BytePacketBuffer::wrote(*old(self), *final(self), wire)
                }
            }),
    {
        let bytes: &[u8] = qname.as_bytes();
        let ghost s = bytes@;
        let n = bytes.len();
        // First pass: every label must be short enough.
        let mut short: bool = true;
        let mut start: usize = 0;
        let mut i: usize = 0;
        let ghost mut done: Seq<Seq<u8>> = Seq::empty();
        proof {
            assert(s.take(0) =~= Seq::<u8>::empty());
            assert(split_labels(s.take(0)) =~= done.push(s.subrange(0, 0)));
        }
        while i < n
            invariant
                bytes@ == s,
                n == s.len(),
                start <= i <= n,
                split_labels(s.take(i as int)) == done.push(s.subrange(start as int, i as int)),
                short == all_short(done),
            decreases n - i,
        {
            proof {
                lemma_split_step(s, i as int);
            }
            if bytes[i] == 0x2eu8 {
                let ok = i - start <= MAX_LABEL_LENGTH;
                proof {
                    let ghost cur = s.subrange(start as int, i as int);
                    assert(done.push(cur).drop_last() =~= done);
                    assert(all_short(done.push(cur)) == (all_short(done) && cur.len() <= MAX_LABEL_LENGTH)) by {
                        if all_short(done) && cur.len() <= MAX_LABEL_LENGTH {
                            assert forall|j: int| 0 <= j < done.push(cur).len() implies #[trigger] done.push(cur)[j].len() <= MAX_LABEL_LENGTH by {
                                if j < done.len() {
                                    assert(done.push(cur)[j] == done[j]);
                                }
                            }
                        }
                        if all_short(done.push(cur)) {
                            assert(done.push(cur)[done.len() as int] == cur);
                            assert forall|j: int| 0 <= j < done.len() implies #[trigger] done[j].len() <= MAX_LABEL_LENGTH by {
                                assert(done.push(cur)[j] == done[j]);
                            }
                        }
                    };
                    done = done.push(cur);
                    assert(s.subrange(i + 1, i + 1) =~= Seq::<u8>::empty());
                }
                short = short && ok;
                start = i + 1;
            } else {
                proof {
                    let ghost cur = s.subrange(start as int, i as int);
                    assert(done.push(cur).drop_last() =~= done);
                    assert(cur.push(s[i as int]) =~= s.subrange(start as int, i + 1));
                }
            }
            i = i + 1;
        }
        proof {
            assert(s.take(n as int) =~= s);
        }
        let last_ok = n - start <= MAX_LABEL_LENGTH;
        proof {
            let cur = s.subrange(start as int, n as int);
            assert(all_short(done.push(cur)) == (all_short(done) && cur.len() <= MAX_LABEL_LENGTH)) by {
                if all_short(done) && cur.len() <= MAX_LABEL_LENGTH {
                    assert forall|j: int| 0 <= j < done.push(cur).len() implies #[trigger] done.push(cur)[j].len() <= MAX_LABEL_LENGTH by {
                        if j < done.len() {
                            assert(done.push(cur)[j] == done[j]);
                        }
                    }
                }
                if all_short(done.push(cur)) {
                    assert(done.push(cur)[done.len() as int] == cur);
                    assert forall|j: int| 0 <= j < done.len() implies #[trigger] done[j].len() <= MAX_LABEL_LENGTH by {
                        assert(done.push(cur)[j] == done[j]);
                    }
                }
            };
        }
        if !(short && last_ok) {
            return Err(Error::LabelTooLong);
        }
        proof {
            lemma_wire_len(s);
        }
        if self.position > PACKET_BUFFER_SIZE || n > PACKET_BUFFER_SIZE || n + 2 > PACKET_BUFFER_SIZE - self.position {
            return Err(Error::EndOfBuffer);
        }
        self.write_labels(bytes);
        Ok(())
    }

    /// Writes the labels of `bytes`, split at dots, each after its length, and a zero.
    fn write_labels(&mut self, bytes: &[u8])
        requires
            old(self).fits(bytes@.len() + 2int),
        ensures
            BytePacketBuffer::wrote(*old(self), *final(self), qname_wire(bytes@)),
    {
        let ghost s = bytes@;
        let n = bytes.len();
        let mut start: usize = 0;
        let mut i: usize = 0;
        let ghost mut done: Seq<Seq<u8>> = Seq::empty();
        proof {
            assert(s.take(0) =~= Seq::<u8>::empty());
            assert(split_labels(s.take(0)) =~= done.push(s.subrange(0, 0)));
            assert(self.buffer@ =~= put(old(self).buffer@, old(self).position as int, labels_wire(done)));
        }
        while i < n
            invariant
                bytes@ == s,
                n == s.len(),
                start <= i <= n,
                old(self).fits(n + 2int),
                old(self).buffer@.len() == PACKET_BUFFER_SIZE,
                split_labels(s.take(i as int)) == done.push(s.subrange(start as int, i as int)),
                labels_wire(done).len() == start,
                BytePacketBuffer::wrote(*old(self), *self, labels_wire(done)),
            decreases n - i,
        {
            proof {
                lemma_split_step(s, i as int);
                lemma_wire_len(s.take(i as int));
                let cur = s.subrange(start as int, i as int);
                assert(done.push(cur).drop_last() =~= done);
            }
            if bytes[i] == 0x2eu8 {
                let ghost cur = s.subrange(start as int, i as int);
                let ghost before = *self;
                let _ = self.write((i - start) as u8);
                let ghost mid = *self;
                let _ = self.write_bytes(&bytes[start..i]);
                proof {
                    lemma_wrote_concat(before, mid, *self, seq![cur.len() as u8], cur);
                    lemma_wrote_concat(*old(self), before, *self, labels_wire(done), seq![cur.len() as u8] + cur);
                    assert(labels_wire(done.push(cur)) =~= labels_wire(done) + (seq![cur.len() as u8] + cur)) by {
                        assert(done.push(cur).drop_last() =~= done);
                    };
                    done = done.push(cur);
                    assert(s.subrange(i + 1, i + 1) =~= Seq::<u8>::empty());
                }
                start = i + 1;
            } else {
                proof {
                    let cur = s.subrange(start as int, i as int);
                    assert(cur.push(s[i as int]) =~= s.subrange(start as int, i + 1));
                }
            }
            i = i + 1;
        }
        proof {
            assert(s.take(n as int) =~= s);
            lemma_wire_len(s);
        }
        let ghost cur = s.subrange(start as int, n as int);
        let ghost before = *self;
        let _ = self.write((n - start) as u8);
        let ghost mid = *self;
        let _ = self.write_bytes(&bytes[start..n]);
        let ghost mid2 = *self;
        let _ = self.write(0u8);
        proof {
            lemma_wrote_concat(before, mid, mid2, seq![cur.len() as u8], cur);
            lemma_wrote_concat(*old(self), before, mid2, labels_wire(done), seq![cur.len() as u8] + cur);
            assert(labels_wire(done.push(cur)) =~= labels_wire(done) + (seq![cur.len() as u8] + cur)) by {
                assert(done.push(cur).drop_last() =~= done);
            };
            lemma_wrote_concat(*old(self), mid2, *self, labels_wire(done.push(cur)), seq![0u8]);
        }
    }
}

} // verus!
