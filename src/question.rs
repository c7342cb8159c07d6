use vstd::prelude::*;
use vstd::utf8::encode_utf8;
use crate::buffer::{BytePacketBuffer, be16, u16_of, lemma_wrote_concat};
use crate::error::BytePacketError as Error;
use crate::qname::{name_labels, name_end, dotted_text, qname_wire, all_short, split_labels};
use crate::types::QueryType;

verus! {

/// The encoding of the name whose text is `s`.
pub open spec fn name_wire(s: Seq<char>) -> Seq<u8> {
    qname_wire(encode_utf8(s))
}

/// Whether the name whose text is `s` can be encoded: no label over 63 bytes.
pub open spec fn name_ok(s: Seq<char>) -> bool {
    all_short(split_labels(encode_utf8(s)))
}

/// What reading a name at `p` gives: its text and the position after it.
pub open spec fn name_read(b: Seq<u8>, p: int) -> Result<(Seq<char>, int), Error> {
    match name_labels(b, p, 0) {
        Ok(labels) => Ok((dotted_text(labels), name_end(b, p))),
        Err(e) => Err(e),
    }
}

/// A question of a DNS message: a name and the type of record asked for.
#[derive(PartialEq, Eq, Debug, Clone)]
pub struct DnsQuestion {
    pub qtype: QueryType,
    pub name: String,
}

/// What a question holds, with its name as text.
pub struct QuestionView {
    pub name: Seq<char>,
    pub qtype: QueryType,
}

impl View for DnsQuestion {
    type V = QuestionView;

    open spec fn view(&self) -> QuestionView {
        QuestionView { name: self.name@, qtype: self.qtype }
    }
}

/// The encoding of a question: its name, its type and the class IN.
pub open spec fn question_wire(q: QuestionView) -> Seq<u8> {
    name_wire(q.name) + be16(q.qtype.code()) + be16(1)
}

/// What reading a question at `p` gives: the question and the position after it.
pub open spec fn question_read(b: Seq<u8>, p: int) -> Result<(QuestionView, int), Error> {
    match name_read(b, p) {
        Err(e) => Err(e),
        Ok((name, q)) => if q + 4 > b.len() {
            Err(Error::EndOfBuffer)
        } else {
            Ok((QuestionView { name, qtype: QueryType::spec_from(u16_of(b[q], b[q + 1])) }, q + 4))
        },
    }
}

impl DnsQuestion {
    pub fn new(qtype: QueryType, name: String) -> (r: Self)
        ensures
            r.qtype == qtype,
            r.name == name,
    {
        DnsQuestion { qtype, name }
    }

    /// Reads a question at the cursor; its name is appended to `self.name`
    /// and its type replaces `self.qtype`. On an error `self` is left as it was.
    pub fn read(&mut self, buffer: &mut BytePacketBuffer) -> (r: Result<(), Error>)
        ensures
            final(buffer).buffer == old(buffer).buffer,
            match question_read(old(buffer).buffer@, old(buffer).position as int) {
                Ok((v, end)) => {
                    &&& r is Ok
                    &&& final(self).name@ == old(self).name@ + v.name
                    &&& final(self).qtype == v.qtype
                    &&& final(buffer).position == end
                },
                Err(e) => r == Err::<(), Error>(e) && *final(self) == *old(self),
            },
    {
        let mut name = String::new();
        match buffer.read_qname(&mut name) {
            Ok(()) => {},
            Err(e) => return Err(e),
        }
        let code = match buffer.read_u16() {
            Ok(v) => v,
            Err(e) => return Err(e),
        };
        match buffer.read_u16() {
            Ok(_) => {},
            Err(e) => return Err(e),
        }
        self.name.append(name.as_str());
        self.qtype = QueryType::from(code);
        Ok(())
    }

    /// Writes the question at the cursor: name, type, then the class IN.
    pub fn write(&self, buffer: &mut BytePacketBuffer) -> (r: Result<(), Error>)
        ensures
            r is Ok <==> name_ok(self.name@) && old(buffer).fits(question_wire(self@).len() as int),
            r is Ok ==> BytePacketBuffer::wrote(*old(buffer), *final(buffer), question_wire(self@)),
            r is Err && name_ok(self.name@) ==> r == Err::<(), Error>(Error::EndOfBuffer),
            r is Err && old(buffer).fits(question_wire(self@).len() as int) ==> r == Err::<(), Error>(Error::LabelTooLong),
    {
        let ghost b0 = *buffer;
        match buffer.write_qname(self.name.as_str()) {
            Ok(()) => {},
            Err(e) => return Err(e),
        }
        let ghost b1 = *buffer;
        let code = self.qtype.to_u16();
        match buffer.write_u16(code) {
            Ok(()) => {},
            Err(e) => return Err(e),
        }
        let ghost b2 = *buffer;
        match buffer.write_u16(1) {
            Ok(()) => {},
            Err(e) => return Err(e),
        }
        proof {
            lemma_wrote_concat(b0, b1, b2, name_wire(self.name@), be16(code));
            lemma_wrote_concat(b0, b2, *buffer, name_wire(self.name@) + be16(code), be16(1));
        }
        Ok(())
    }
}

} // verus!
