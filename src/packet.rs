use vstd::prelude::*;
use vstd::utf8::encode_utf8;
use vstd::string::StringSliceAdditionalSpecFns;
use crate::buffer::{BytePacketBuffer, lemma_wrote_concat};
use crate::error::BytePacketError as Error;
use crate::header::{DnsHeader, header_from, header_wire, HEADER_SIZE};
use crate::question::{DnsQuestion, QuestionView, question_read, question_wire, name_ok};
use crate::record::{DnsRecord, RecordView, record_read, record_wire, record_names_ok};
use crate::types::QueryType;

verus! {

/// What reading `n` questions in a row from `p` gives, and the position after them.
pub open spec fn questions_read(b: Seq<u8>, p: int, n: nat) -> Result<(Seq<QuestionView>, int), Error>
    decreases n,
{
    if n == 0 {
        Ok((Seq::empty(), p))
    } else {
        match questions_read(b, p, (n - 1) as nat) {
            Ok((qs, e)) => match question_read(b, e) {
                Ok((q, e2)) => Ok((qs.push(q), e2)),
                Err(x) => Err(x),
            },
            Err(x) => Err(x),
        }
    }
}

/// What reading `n` records in a row from `p` gives, and the position after them.
pub open spec fn records_read(b: Seq<u8>, p: int, n: nat) -> Result<(Seq<RecordView>, int), Error>
    decreases n,
{
    if n == 0 {
        Ok((Seq::empty(), p))
    } else {
        match records_read(b, p, (n - 1) as nat) {
            Ok((rs, e)) => match record_read(b, e) {
                Ok((r, e2)) => Ok((rs.push(r), e2)),
                Err(x) => Err(x),
            },
            Err(x) => Err(x),
        }
    }
}

/// What a message holds, with its names as text.
pub struct PacketView {
    pub header: DnsHeader,
    pub questions: Seq<QuestionView>,
    pub answers: Seq<RecordView>,
    pub authorities: Seq<RecordView>,
    pub resources: Seq<RecordView>,
}

/// What reading a whole message at `p` gives: the header, then as many
/// questions, answers, authority and additional records as it declares.
pub open spec fn packet_read(b: Seq<u8>, p: int) -> Result<PacketView, Error> {
    if p + HEADER_SIZE > b.len() {
        Err(Error::EndOfBuffer)
    } else {
        let h = header_from(b, p);
        match questions_read(b, p + HEADER_SIZE, h.questions as nat) {
            Err(x) => Err(x),
            Ok((qs, e1)) => match records_read(b, e1, h.answers as nat) {
                Err(x) => Err(x),
                Ok((an, e2)) => match records_read(b, e2, h.authoritative_entries as nat) {
                    Err(x) => Err(x),
                    Ok((ns, e3)) => match records_read(b, e3, h.resource_entries as nat) {
                        Err(x) => Err(x),
                        Ok((ar, _)) => Ok(PacketView { header: h, questions: qs, answers: an, authorities: ns, resources: ar }),
                    },
                },
            },
        }
    }
}

/// The questions encoded one after another.
pub open spec fn questions_wire(qs: Seq<QuestionView>) -> Seq<u8>
    decreases qs.len(),
{
    if qs.len() == 0 { Seq::empty() } else { questions_wire(qs.drop_last()) + question_wire(qs.last()) }
}

/// The records encoded one after another.
pub open spec fn records_wire(rs: Seq<RecordView>) -> Seq<u8>
    decreases rs.len(),
{
    if rs.len() == 0 { Seq::empty() } else { records_wire(rs.drop_last()) + record_wire(rs.last()) }
}

/// Whether every question can be encoded.
pub open spec fn questions_ok(qs: Seq<QuestionView>) -> bool {
    forall|i: int| 0 <= i < qs.len() ==> name_ok(#[trigger] qs[i].name)
}

/// Whether every record can be encoded: known types and encodable names.
pub open spec fn records_ok(rs: Seq<RecordView>) -> bool {
    forall|i: int| 0 <= i < rs.len() ==> !(#[trigger] rs[i] is UNKNOWN) && record_names_ok(rs[i])
}

/// The header with its four counts set to the lengths of the sections, as 16-bit numbers.
pub open spec fn counted(v: PacketView) -> DnsHeader {
    DnsHeader {
        questions: v.questions.len() as u16,
        answers: v.answers.len() as u16,
        authoritative_entries: v.authorities.len() as u16,
        resource_entries: v.resources.len() as u16,
        ..v.header
    }
}

/// The encoding of a message, with the counts of its header recomputed.
pub open spec fn packet_wire(v: PacketView) -> Seq<u8> {
    header_wire(counted(v)) + questions_wire(v.questions) + records_wire(v.answers)
        + records_wire(v.authorities) + records_wire(v.resources)
}

/// Whether every part of the message can be encoded.
pub open spec fn packet_ok(v: PacketView) -> bool {
    questions_ok(v.questions) && records_ok(v.answers) && records_ok(v.authorities) && records_ok(v.resources)
}

proof fn lemma_questions_read_err(b: Seq<u8>, p: int, i: nat, n: nat)
    requires
        i <= n,
        questions_read(b, p, i) is Err,
    ensures
        questions_read(b, p, n) == questions_read(b, p, i),
    decreases n,
{
    if n > i {
        lemma_questions_read_err(b, p, i, (n - 1) as nat);
    }
}

proof fn lemma_records_read_err(b: Seq<u8>, p: int, i: nat, n: nat)
    requires
        i <= n,
        records_read(b, p, i) is Err,
    ensures
        records_read(b, p, n) == records_read(b, p, i),
    decreases n,
{
    if n > i {
        lemma_records_read_err(b, p, i, (n - 1) as nat);
    }
}

proof fn lemma_questions_wire_prefix(qs: Seq<QuestionView>, k: int)
    requires
        0 <= k <= qs.len(),
    ensures
        questions_wire(qs.take(k)).len() <= questions_wire(qs).len(),
    decreases qs.len(),
{
    if k < qs.len() {
        assert(qs.take(k) =~= qs.drop_last().take(k));
        lemma_questions_wire_prefix(qs.drop_last(), k);
    } else {
        assert(qs.take(k) =~= qs);
    }
}

proof fn lemma_records_wire_prefix(rs: Seq<RecordView>, k: int)
    requires
        0 <= k <= rs.len(),
    ensures
        records_wire(rs.take(k)).len() <= records_wire(rs).len(),
    decreases rs.len(),
{
    if k < rs.len() {
        assert(rs.take(k) =~= rs.drop_last().take(k));
        lemma_records_wire_prefix(rs.drop_last(), k);
    } else {
        assert(rs.take(k) =~= rs);
    }
}

/// Reads `n` questions at the cursor.
fn read_questions(buffer: &mut BytePacketBuffer, n: u16) -> (r: Result<Vec<DnsQuestion>, Error>)
    ensures
        final(buffer).buffer == old(buffer).buffer,
        match questions_read(old(buffer).buffer@, old(buffer).position as int, n as nat) {
            Ok((qs, e)) => r is Ok && r->Ok_0@.map_values(|q: DnsQuestion| q@) == qs && final(buffer).position == e,
            Err(x) => r == Err::<Vec<DnsQuestion>, Error>(x),
        },
{
    let ghost b = buffer.buffer@;
    let ghost p = buffer.position as int;
    let mut out: Vec<DnsQuestion> = Vec::new();
    let mut i: u16 = 0;
    assert(out@.map_values(|q: DnsQuestion| q@) =~= Seq::<QuestionView>::empty());
    while i < n
        invariant
            buffer.buffer@ == b,
            buffer.buffer == old(buffer).buffer,
            b == old(buffer).buffer@,
            p == old(buffer).position as int,
            i <= n,
            questions_read(b, p, i as nat) == Ok::<(Seq<QuestionView>, int), Error>(
                (out@.map_values(|q: DnsQuestion| q@), buffer.position as int)),
        decreases n - i,
    {
        let mut question = DnsQuestion { qtype: QueryType::UNKNOWN(0), name: String::new() };
        let ghost at = buffer.position as int;
        match question.read(buffer) {
            Ok(()) => {},
            Err(e) => {
                proof {
                    assert(questions_read(b, p, (i + 1) as nat) == Err::<(Seq<QuestionView>, int), Error>(e));
                    lemma_questions_read_err(b, p, (i + 1) as nat, n as nat);
                }
                return Err(e);
            },
        }
        proof {
            match question_read(b, at) {
                Ok((v, e)) => {
                    assert(Seq::<char>::empty() + v.name =~= v.name);
                    assert(question@ == v);
                },
                Err(_) => {},
            }
        }
        let ghost prev = out@;
        out.push(question);
        proof {
            assert(out@.map_values(|q: DnsQuestion| q@) =~= prev.map_values(|q: DnsQuestion| q@).push(question@));
        }
        i = i + 1;
    }
    Ok(out)
}

/// Reads `n` records at the cursor.
fn read_records(buffer: &mut BytePacketBuffer, n: u16) -> (r: Result<Vec<DnsRecord>, Error>)
    ensures
        final(buffer).buffer == old(buffer).buffer,
        match records_read(old(buffer).buffer@, old(buffer).position as int, n as nat) {
            Ok((rs, e)) => r is Ok && r->Ok_0@.map_values(|x: DnsRecord| x@) == rs && final(buffer).position == e,
            Err(x) => r == Err::<Vec<DnsRecord>, Error>(x),
        },
{
    let ghost b = buffer.buffer@;
    let ghost p = buffer.position as int;
    let mut out: Vec<DnsRecord> = Vec::new();
    let mut i: u16 = 0;
    assert(out@.map_values(|x: DnsRecord| x@) =~= Seq::<RecordView>::empty());
    while i < n
        invariant
            buffer.buffer == old(buffer).buffer,
            b == old(buffer).buffer@,
            p == old(buffer).position as int,
            i <= n,
            records_read(b, p, i as nat) == Ok::<(Seq<RecordView>, int), Error>(
                (out@.map_values(|x: DnsRecord| x@), buffer.position as int)),
        decreases n - i,
    {
        let record = match DnsRecord::read(buffer) {
            Ok(rec) => rec,
            Err(e) => {
                proof {
                    assert(records_read(b, p, (i + 1) as nat) == Err::<(Seq<RecordView>, int), Error>(e));
                    lemma_records_read_err(b, p, (i + 1) as nat, n as nat);
                }
                return Err(e);
            },
        };
        let ghost prev = out@;
        out.push(record);
        proof {
            assert(out@.map_values(|x: DnsRecord| x@) =~= prev.map_values(|x: DnsRecord| x@).push(record@));
        }
        i = i + 1;
    }
    Ok(out)
}

/// Writes the questions one after another at the cursor.
fn write_questions(buffer: &mut BytePacketBuffer, questions: &Vec<DnsQuestion>) -> (r: Result<(), Error>)
    ensures
        ({
            let qs = questions@.map_values(|q: DnsQuestion| q@);
            &&& r is Ok <==> questions_ok(qs) && old(buffer).fits_all(questions_wire(qs).len() as int)
            &&& r is Ok ==> BytePacketBuffer::wrote(*old(buffer), *final(buffer), questions_wire(qs))
        }),
{
    let ghost qs = questions@.map_values(|q: DnsQuestion| q@);
    let mut i: usize = 0;
    proof {
        assert(qs.take(0) =~= Seq::<QuestionView>::empty());
        assert(buffer.buffer@ =~= crate::buffer::put(buffer.buffer@, buffer.position as int, Seq::<u8>::empty()));
        assert(old(buffer).fits(0) || old(buffer).position > 1280);
    }
    while i < questions.len()
        invariant
            qs == questions@.map_values(|q: DnsQuestion| q@),
            0 <= i <= questions@.len(),
            old(buffer).buffer@.len() == 1280,
            questions_ok(qs.take(i as int)),
            i > 0 ==> old(buffer).fits(questions_wire(qs.take(i as int)).len() as int),
            i == 0 ==> *buffer == *old(buffer),
            BytePacketBuffer::wrote(*old(buffer), *buffer, questions_wire(qs.take(i as int))),
        decreases questions@.len() - i,
    {
        let ghost before = *buffer;
        let r = questions[i].write(buffer);
        proof {
            assert(qs.take(i + 1).drop_last() =~= qs.take(i as int));
            assert(qs.take(i + 1).last() == qs[i as int]);
        }
        match r {
            Ok(()) => {},
            Err(e) => {
                proof {
                    lemma_questions_wire_prefix(qs, i + 1);
                    if questions_ok(qs) {
                        assert(name_ok(qs[i as int].name));
                    }
                }
                return Err(e);
            },
        }
        proof {
            if i > 0 {
                lemma_wrote_concat(*old(buffer), before, *buffer, questions_wire(qs.take(i as int)), question_wire(qs[i as int]));
            } else {
                assert(questions_wire(qs.take(0)) =~= Seq::<u8>::empty());
                assert(questions_wire(qs.take(1)) =~= question_wire(qs[0]));
            }
            assert forall|j: int| 0 <= j < qs.take(i + 1).len() implies name_ok(#[trigger] qs.take(i + 1)[j].name) by {
                if j < i {
                    assert(qs.take(i + 1)[j] == qs.take(i as int)[j]);
                }
            }
        }
        i = i + 1;
    }
    proof {
        assert(qs.take(i as int) =~= qs);
    }
    Ok(())
}

/// Writes the records one after another at the cursor.
fn write_records(buffer: &mut BytePacketBuffer, records: &Vec<DnsRecord>) -> (r: Result<(), Error>)
    ensures
        ({
            let rs = records@.map_values(|x: DnsRecord| x@);
            &&& r is Ok <==> records_ok(rs) && old(buffer).fits_all(records_wire(rs).len() as int)
            &&& r is Ok ==> BytePacketBuffer::wrote(*old(buffer), *final(buffer), records_wire(rs))
        }),
{
    let ghost rs = records@.map_values(|x: DnsRecord| x@);
    let mut i: usize = 0;
    proof {
        assert(rs.take(0) =~= Seq::<RecordView>::empty());
        assert(buffer.buffer@ =~= crate::buffer::put(buffer.buffer@, buffer.position as int, Seq::<u8>::empty()));
    }
    while i < records.len()
        invariant
            rs == records@.map_values(|x: DnsRecord| x@),
            0 <= i <= records@.len(),
            old(buffer).buffer@.len() == 1280,
            records_ok(rs.take(i as int)),
            i > 0 ==> old(buffer).fits(records_wire(rs.take(i as int)).len() as int),
            i == 0 ==> *buffer == *old(buffer),
            BytePacketBuffer::wrote(*old(buffer), *buffer, records_wire(rs.take(i as int))),
        decreases records@.len() - i,
    {
        let ghost before = *buffer;
        let r = records[i].write(buffer);
        proof {
            assert(rs.take(i + 1).drop_last() =~= rs.take(i as int));
            assert(rs.take(i + 1).last() == rs[i as int]);
        }
        match r {
            Ok(_) => {},
            Err(e) => {
                proof {
                    lemma_records_wire_prefix(rs, i + 1);
                    if records_ok(rs) {
                        assert(!(rs[i as int] is UNKNOWN) && record_names_ok(rs[i as int]));
                    }
                }
                return Err(e);
            },
        }
        proof {
            if i > 0 {
                lemma_wrote_concat(*old(buffer), before, *buffer, records_wire(rs.take(i as int)), record_wire(rs[i as int]));
            } else {
                assert(records_wire(rs.take(0)) =~= Seq::<u8>::empty());
                assert(records_wire(rs.take(1)) =~= record_wire(rs[0]));
            }
            assert forall|j: int| 0 <= j < rs.take(i + 1).len() implies
                !(#[trigger] rs.take(i + 1)[j] is UNKNOWN) && record_names_ok(rs.take(i + 1)[j]) by {
                if j < i {
                    assert(rs.take(i + 1)[j] == rs.take(i as int)[j]);
                }
            }
        }
        i = i + 1;
    }
    proof {
        assert(rs.take(i as int) =~= rs);
    }
    Ok(())
}

/// A DNS message: a header and its four sections, in wire order.
#[derive(Debug, Clone)]
pub struct DnsPacket {
    pub header: DnsHeader,
    pub authorities: Vec<DnsRecord>,
    pub questions: Vec<DnsQuestion>,
    pub resources: Vec<DnsRecord>,
    pub answers: Vec<DnsRecord>,
}

impl View for DnsPacket {
    type V = PacketView;

    open spec fn view(&self) -> PacketView {
        PacketView {
            header: self.header,
            questions: self.questions@.map_values(|q: DnsQuestion| q@),
            answers: self.answers@.map_values(|x: DnsRecord| x@),
            authorities: self.authorities@.map_values(|x: DnsRecord| x@),
            resources: self.resources@.map_values(|x: DnsRecord| x@),
        }
    }
}

impl DnsPacket {
    /// An empty message with a blank header.
    pub fn new() -> (r: Self)
        ensures
            r.header == DnsHeader::spec_new(),
            r.questions@.len() == 0,
            r.answers@.len() == 0,
            r.authorities@.len() == 0,
            r.resources@.len() == 0,
    {
        DnsPacket {
            header: DnsHeader::new(),
            authorities: Vec::new(),
            questions: Vec::new(),
            resources: Vec::new(),
            answers: Vec::new(),
        }
    }

    /// Reads a whole message at the cursor: the header, then exactly as many
    /// entries of each section as the header declares. The first failure is returned.
    pub fn from_buffer(buffer: &mut BytePacketBuffer) -> (r: Result<Self, Error>)
        ensures
            final(buffer).buffer == old(buffer).buffer,
            match packet_read(old(buffer).buffer@, old(buffer).position as int) {
                Ok(v) => r is Ok && r->Ok_0@ == v,
                Err(x) => r is Err && r->Err_0 == x,
            },
    {
        let mut packet = DnsPacket::new();
        match packet.header.read(buffer) {
            Ok(()) => {},
            Err(e) => return Err(e),
        }
        packet.questions = match read_questions(buffer, packet.header.questions) {
            Ok(v) => v,
            Err(e) => return Err(e),
        };
        packet.answers = match read_records(buffer, packet.header.answers) {
            Ok(v) => v,
            Err(e) => return Err(e),
        };
        packet.authorities = match read_records(buffer, packet.header.authoritative_entries) {
            Ok(v) => v,
            Err(e) => return Err(e),
        };
        packet.resources = match read_records(buffer, packet.header.resource_entries) {
            Ok(v) => v,
            Err(e) => return Err(e),
        };
        Ok(packet)
    }

    /// Writes the message at the cursor. The counts of the header are first
    /// set from the lengths of the sections.
    pub fn write(&mut self, buffer: &mut BytePacketBuffer) -> (r: Result<(), Error>)
        ensures
            final(self)@ == (PacketView { header: counted(old(self)@), ..old(self)@ }),
            r is Ok <==> packet_ok(old(self)@) && old(buffer).fits(packet_wire(old(self)@).len() as int),
            r is Ok ==> BytePacketBuffer::wrote(*old(buffer), *final(buffer), packet_wire(old(self)@)),
    {
        let ghost v = self@;
        self.header.questions = self.questions.len() as u16;
        self.header.answers = self.answers.len() as u16;
        self.header.authoritative_entries = self.authorities.len() as u16;
        self.header.resource_entries = self.resources.len() as u16;
        assert(self.header == counted(v));
        let ghost b0 = *buffer;
        match self.header.write(buffer) {
            Ok(()) => {},
            Err(e) => {
                proof {
                    lemma_packet_wire_split(v);
                }
                return Err(e);
            },
        }
        let ghost b1 = *buffer;
        let r = write_sections(buffer, &self.questions, &self.answers, &self.authorities, &self.resources);
        proof {
            lemma_packet_wire_split(v);
            if r.is_ok() {
                BytePacketBuffer::lemma_wrote_any(b0, b1, *buffer, header_wire(counted(v)), sections_wire(v));
            }
        }
        r
    }
}

proof fn lemma_packet_wire_split(v: PacketView)
    ensures
        packet_wire(v) == header_wire(counted(v)) + sections_wire(v),
        header_wire(counted(v)).len() == HEADER_SIZE,
{
    assert(packet_wire(v) =~= header_wire(counted(v)) + sections_wire(v));
}

/// The sections of a message encoded one after another.
pub open spec fn sections_wire(v: PacketView) -> Seq<u8> {
    questions_wire(v.questions) + records_wire(v.answers) + records_wire(v.authorities) + records_wire(v.resources)
}

/// Writes the four sections of a message one after another.
fn write_sections(buffer: &mut BytePacketBuffer, questions: &Vec<DnsQuestion>, answers: &Vec<DnsRecord>,
    authorities: &Vec<DnsRecord>, resources: &Vec<DnsRecord>) -> (r: Result<(), Error>)
    requires
        old(buffer).position <= 1280,
    ensures
        ({
            let v = PacketView {
                header: DnsHeader::spec_new(),
                questions: questions@.map_values(|q: DnsQuestion| q@),
                answers: answers@.map_values(|x: DnsRecord| x@),
                authorities: authorities@.map_values(|x: DnsRecord| x@),
                resources: resources@.map_values(|x: DnsRecord| x@),
            };
            &&& r is Ok <==> packet_ok(v) && old(buffer).fits(sections_wire(v).len() as int)
            &&& r is Ok ==> BytePacketBuffer::wrote(*old(buffer), *final(buffer), sections_wire(v))
        }),
{
    let ghost b0 = *buffer;
    match write_questions(buffer, questions) {
        Ok(()) => {},
        Err(e) => return Err(e),
    }
    let ghost b1 = *buffer;
    let r = write_record_sections(buffer, answers, authorities, resources);
    proof {
        let qw = questions@.map_values(|q: DnsQuestion| q@);
        let tail = records_wire(answers@.map_values(|x: DnsRecord| x@)) + records_wire(authorities@.map_values(|x: DnsRecord| x@))
            + records_wire(resources@.map_values(|x: DnsRecord| x@));
        if r.is_ok() {
            BytePacketBuffer::lemma_wrote_any(b0, b1, *buffer, questions_wire(qw), tail);
        }
        assert(questions_wire(qw) + records_wire(answers@.map_values(|x: DnsRecord| x@))
            + records_wire(authorities@.map_values(|x: DnsRecord| x@)) + records_wire(resources@.map_values(|x: DnsRecord| x@))
            =~= questions_wire(qw) + tail);
    }
    r
}

/// Writes the answer, authority and additional sections one after another.
fn write_record_sections(buffer: &mut BytePacketBuffer, answers: &Vec<DnsRecord>, authorities: &Vec<DnsRecord>,
    resources: &Vec<DnsRecord>) -> (r: Result<(), Error>)
    requires
        old(buffer).position <= 1280,
    ensures
        ({
            let (an, ns, ar) = (answers@.map_values(|x: DnsRecord| x@), authorities@.map_values(|x: DnsRecord| x@),
                resources@.map_values(|x: DnsRecord| x@));
            let w = records_wire(an) + records_wire(ns) + records_wire(ar);
            &&& r is Ok <==> records_ok(an) && records_ok(ns) && records_ok(ar) && old(buffer).fits(w.len() as int)
            &&& r is Ok ==> BytePacketBuffer::wrote(*old(buffer), *final(buffer), w)
        }),
{
    let ghost b0 = *buffer;
    match write_records(buffer, answers) {
        Ok(()) => {},
        Err(e) => return Err(e),
    }
    let ghost b1 = *buffer;
    match write_records(buffer, authorities) {
        Ok(()) => {},
        Err(e) => return Err(e),
    }
    let ghost b2 = *buffer;
    let r = write_records(buffer, resources);
    proof {
        let (an, ns, ar) = (answers@.map_values(|x: DnsRecord| x@), authorities@.map_values(|x: DnsRecord| x@),
            resources@.map_values(|x: DnsRecord| x@));
        if r.is_ok() {
            BytePacketBuffer::lemma_wrote_any(b0, b1, b2, records_wire(an), records_wire(ns));
            BytePacketBuffer::lemma_wrote_any(b0, b2, *buffer, records_wire(an) + records_wire(ns), records_wire(ar));
        }
    }
    r
}

/// Whether `suffix` is a suffix of `s`.
pub open spec fn is_suffix(s: Seq<u8>, suffix: Seq<u8>) -> bool {
    suffix.len() <= s.len() && s.subrange(s.len() - suffix.len(), s.len() as int) == suffix
}

/// Whether the byte string `s` ends with `suffix`.
pub fn ends_with(s: &[u8], suffix: &[u8]) -> (r: bool)
    ensures
        r == is_suffix(s@, suffix@),
{
    if suffix.len() > s.len() {
        return false;
    }
    let off = s.len() - suffix.len();
    let mut i: usize = 0;
    assert(s@.len() == s.len());
    while i < suffix.len()
        invariant
            off == s@.len() - suffix@.len(),
            off + suffix@.len() == s@.len(),
            s@.len() <= usize::MAX,
            i <= suffix@.len(),
            forall|j: int| 0 <= j < i ==> s@[off + j] == suffix@[j],
        decreases suffix@.len() - i,
    {
        if s[off + i] != suffix[i] {
            assert(s@.subrange(s@.len() - suffix@.len(), s@.len() as int)[i as int] != suffix@[i as int]);
            return false;
        }
        i = i + 1;
    }
    assert(s@.subrange(s@.len() - suffix@.len(), s@.len() as int) =~= suffix@);
    true
}

/// The (domain, host) pairs of the NS records of `rs`, in order, whose domain
/// the name `q` ends with.
pub open spec fn ns_for(rs: Seq<RecordView>, q: Seq<u8>) -> Seq<(Seq<char>, Seq<char>)>
    decreases rs.len(),
{
    if rs.len() == 0 {
        Seq::empty()
    } else {
        let rest = ns_for(rs.drop_last(), q);
        match rs.last() {
            RecordView::NS { domain, host, .. } => if is_suffix(q, encode_utf8(domain)) {
                rest.push((domain, host))
            } else {
                rest
            },
            _ => rest,
        }
    }
}

/// The address of the first A record of `rs`.
pub open spec fn first_a(rs: Seq<RecordView>) -> Option<Seq<u8>>
    decreases rs.len(),
{
    if rs.len() == 0 {
        None
    } else {
        match rs[0] {
            RecordView::A { address, .. } => Some(address),
            _ => first_a(rs.drop_first()),
        }
    }
}

/// The address of the first A record of `rs` for the name `host`.
pub open spec fn first_a_for(rs: Seq<RecordView>, host: Seq<char>) -> Option<Seq<u8>>
    decreases rs.len(),
{
    if rs.len() == 0 {
        None
    } else {
        match rs[0] {
            RecordView::A { address, domain, .. } => if domain == host {
                Some(address)
            } else {
                first_a_for(rs.drop_first(), host)
            },
            _ => first_a_for(rs.drop_first(), host),
        }
    }
}

/// The address, among the records `rs`, of the first host of `ns` that has one.
pub open spec fn resolved_in(ns: Seq<(Seq<char>, Seq<char>)>, rs: Seq<RecordView>) -> Option<Seq<u8>>
    decreases ns.len(),
{
    if ns.len() == 0 {
        None
    } else {
        match first_a_for(rs, ns[0].1) {
            Some(a) => Some(a),
            None => resolved_in(ns.drop_first(), rs),
        }
    }
}

/// The address of the first A record for `host` among `records`.
fn find_a_for(records: &Vec<DnsRecord>, host: &String) -> (r: Option<[u8; 4]>)
    ensures
        match first_a_for(records@.map_values(|x: DnsRecord| x@), host@) {
            Some(a) => r is Some && r->Some_0@ == a,
            None => r is None,
        },
{
    let ghost rs = records@.map_values(|x: DnsRecord| x@);
    let mut i: usize = 0;
    assert(rs.skip(0) =~= rs);
    while i < records.len()
        invariant
            rs == records@.map_values(|x: DnsRecord| x@),
            i <= records@.len(),
            first_a_for(rs, host@) == first_a_for(rs.skip(i as int), host@),
        decreases records@.len() - i,
    {
        assert(rs.skip(i as int)[0] == records@[i as int]@);
        assert(rs.skip(i as int).drop_first() =~= rs.skip(i + 1));
        match &records[i] {
            DnsRecord::A { address, domain, .. } => {
                if domain.eq(host) {
                    return Some(*address);
                }
            },
            _ => {},
        }
        i = i + 1;
    }
    None
}

impl DnsPacket {
    /// The address of the first A record among the answers.
    pub fn get_random_a(&self) -> (r: Option<[u8; 4]>)
        ensures
            match first_a(self@.answers) {
                Some(a) => r is Some && r->Some_0@ == a,
                None => r is None,
            },
    {
        let ghost rs = self@.answers;
        let mut i: usize = 0;
        assert(rs.skip(0) =~= rs);
        while i < self.answers.len()
            invariant
                rs == self@.answers,
                i <= self.answers@.len(),
                first_a(rs) == first_a(rs.skip(i as int)),
            decreases self.answers@.len() - i,
        {
            assert(rs.skip(i as int)[0] == self.answers@[i as int]@);
            assert(rs.skip(i as int).drop_first() =~= rs.skip(i + 1));
            match &self.answers[i] {
                DnsRecord::A { address, .. } => {
                    return Some(*address);
                },
                _ => {},
            }
            i = i + 1;
        }
        None
    }

    /// The (domain, host) pairs of the NS authority records whose domain `qname` ends with.
    pub fn get_ns(&self, qname: &str) -> (r: Vec<(String, String)>)
        ensures
            r@.map_values(|p: (String, String)| (p.0@, p.1@)) == ns_for(self@.authorities, qname.spec_bytes()),
    {
        let ghost rs = self@.authorities;
        let ghost q = qname.spec_bytes();
        let mut out: Vec<(String, String)> = Vec::new();
        let mut i: usize = 0;
        assert(rs.take(0) =~= Seq::<RecordView>::empty());
        assert(out@.map_values(|p: (String, String)| (p.0@, p.1@)) =~= Seq::<(Seq<char>, Seq<char>)>::empty());
        while i < self.authorities.len()
            invariant
                rs == self@.authorities,
                q == qname.spec_bytes(),
                i <= self.authorities@.len(),
                out@.map_values(|p: (String, String)| (p.0@, p.1@)) == ns_for(rs.take(i as int), q),
            decreases self.authorities@.len() - i,
        {
            assert(rs.take(i + 1).drop_last() =~= rs.take(i as int));
            assert(rs.take(i + 1).last() == self.authorities@[i as int]@);
            match &self.authorities[i] {
                DnsRecord::NS { domain, host, .. } => {
                    if ends_with(qname.as_bytes(), domain.as_str().as_bytes()) {
                        let ghost prev = out@;
                        out.push((domain.clone(), host.clone()));
                        assert(out@.map_values(|p: (String, String)| (p.0@, p.1@)) =~=
                            prev.map_values(|p: (String, String)| (p.0@, p.1@)).push((domain@, host@)));
                    }
                },
                _ => {},
            }
            i = i + 1;
        }
        assert(rs.take(i as int) =~= rs);
        out
    }

    /// The address, found among the additional records, of the first name
    /// server that covers `qname`.
    pub fn get_resolved_ns(&self, qname: &str) -> (r: Option<[u8; 4]>)
        ensures
            match resolved_in(ns_for(self@.authorities, qname.spec_bytes()), self@.resources) {
                Some(a) => r is Some && r->Some_0@ == a,
                None => r is None,
            },
    {
        let ns = self.get_ns(qname);
        let ghost nv = ns@.map_values(|p: (String, String)| (p.0@, p.1@));
        let mut i: usize = 0;
        assert(nv.skip(0) =~= nv);
        while i < ns.len()
            invariant
                nv == ns@.map_values(|p: (String, String)| (p.0@, p.1@)),
                nv == ns_for(self@.authorities, qname.spec_bytes()),
                i <= ns@.len(),
                resolved_in(nv, self@.resources) == resolved_in(nv.skip(i as int), self@.resources),
            decreases ns@.len() - i,
        {
            assert(nv.skip(i as int)[0] == nv[i as int]);
            assert(nv.skip(i as int).drop_first() =~= nv.skip(i + 1));
            match find_a_for(&self.resources, &ns[i].1) {
                Some(a) => return Some(a),
                None => {},
            }
            i = i + 1;
        }
        None
    }

    /// The host of the first name server that covers `qname`.
    pub fn get_unresolved_ns(&self, qname: &str) -> (r: Option<String>)
        ensures
            ({
                let ns = ns_for(self@.authorities, qname.spec_bytes());
                if ns.len() == 0 { r is None } else { r is Some && r->Some_0@ == ns[0].1 }
            }),
    {
        let ns = self.get_ns(qname);
        if ns.len() == 0 {
            None
        } else {
            assert(ns@.map_values(|p: (String, String)| (p.0@, p.1@))[0] == (ns@[0].0@, ns@[0].1@));
            Some(ns[0].1.clone())
        }
    }
}

} // verus!
