use vstd::prelude::*;
use crate::buffer::{BytePacketBuffer, PACKET_BUFFER_SIZE, put};
use crate::error::BytePacketError as Error;
use crate::header::DnsHeader;
use crate::overrides::{DnsServerConfig, LookAtRecord, entry_covers, first_cover, handle_look_at,
    is_block, override_answer, SYNTHETIC_ID};
use crate::packet::{DnsPacket, PacketView, packet_ok, packet_read, packet_wire};
use crate::qname::lower_of;
use crate::question::{DnsQuestion, QuestionView};
use crate::types::{QueryType, ResultCode};

verus! {

/// The bytes of a buffer that has never been written.
pub open spec fn zeros() -> Seq<u8> {
    Seq::new(PACKET_BUFFER_SIZE as nat, |i: int| 0u8)
}

/// What decoding the datagram `data` gives.
pub open spec fn datagram_read(data: Seq<u8>) -> Result<PacketView, Error> {
    packet_read(put(zeros(), 0, data), 0)
}

/// Decodes a received datagram into a message.
pub fn decode_packet(data: &[u8]) -> (r: Result<DnsPacket, Error>)
    requires
        data@.len() <= PACKET_BUFFER_SIZE,
    ensures
        match datagram_read(data@) {
            Ok(v) => r is Ok && r->Ok_0@ == v,
            Err(e) => r is Err && r->Err_0 == e,
        },
{
    let mut buffer = BytePacketBuffer::from_bytes(data);
    DnsPacket::from_buffer(&mut buffer)
}

/// Encodes a message into the bytes of a datagram, its counts recomputed.
pub fn encode_packet(packet: &mut DnsPacket) -> (r: Result<Vec<u8>, Error>)
    ensures
        final(packet)@ == (PacketView { header: crate::packet::counted(old(packet)@), ..old(packet)@ }),
        r is Ok <==> packet_ok(old(packet)@) && packet_wire(old(packet)@).len() <= PACKET_BUFFER_SIZE,
        r is Ok ==> r->Ok_0@ == packet_wire(old(packet)@),
{
    let mut buffer = BytePacketBuffer::new();
    match packet.write(&mut buffer) {
        Ok(()) => {},
        Err(e) => return Err(e),
    }
    let r = buffer.written();
    proof {
        assert(r@ =~= packet_wire(old(packet)@));
    }
    Ok(r)
}

/// The query sent to an upstream server: one question, recursion desired.
pub fn build_query(qname: &str, qtype: QueryType) -> (r: DnsPacket)
    ensures
        r@.header == (DnsHeader { id: SYNTHETIC_ID, questions: 1, recursion_desired: true, ..DnsHeader::spec_new() }),
        r@.questions == seq![QuestionView { name: qname@, qtype }],
        r@.answers.len() == 0,
        r@.authorities.len() == 0,
        r@.resources.len() == 0,
{
    let mut packet = DnsPacket::new();
    packet.header.id = SYNTHETIC_ID;
    packet.header.questions = 1;
    packet.header.recursion_desired = true;
    packet.questions.push(DnsQuestion::new(qtype, qname.to_owned()));
    assert(packet@.questions =~= seq![QuestionView { name: qname@, qtype }]);
    packet
}

/// What to do with a query: send a reply now, or resolve the question
/// upstream and complete the response with the outcome.
pub enum QueryPlan {
    Reply(DnsPacket),
    Resolve { response: DnsPacket, question: DnsQuestion },
}

/// The response skeleton for a query of transaction id `id`: the id echoed,
/// RD, RA and QR set, no records.
pub open spec fn skeleton(id: u16) -> PacketView {
    PacketView {
        header: DnsHeader { id, recursion_desired: true, recursion_available: true, response: true, ..DnsHeader::spec_new() },
        questions: Seq::empty(),
        answers: Seq::empty(),
        authorities: Seq::empty(),
        resources: Seq::empty(),
    }
}

/// Decides how to answer `request`. Without a question: `FormError`. With
/// an override entry covering its first question: that entry's reply
/// (`Refused` for a blocking entry). Otherwise: resolve the first question.
pub fn plan_query(config: &DnsServerConfig, request: &DnsPacket) -> (r: QueryPlan)
    requires
        config.sized(),
    ensures
        ({
            let sk = skeleton(request.header.id);
            let es = config.look_at@.map_values(|e: LookAtRecord| e@);
            if request@.questions.len() == 0 {
                r is Reply && r->Reply_0@ == (PacketView {
                    header: DnsHeader { rescode: ResultCode::FormError, ..sk.header }, ..sk })
            } else {
                let q = request@.questions[0];
                let req = lower_of(q.name);
                &&& (forall|k: int| 0 <= k < es.len() ==> !entry_covers(#[trigger] es[k], req))
                    ==> r is Resolve && r->response@ == sk && r->question@ == q
                &&& forall|k: int| #[trigger] first_cover(es, req, k) ==> r is Reply && if is_block(es[k]) {
                    &&& r->Reply_0@ == (PacketView { header: DnsHeader { rescode: ResultCode::Refused, ..sk.header }, ..sk })
                    &&& r->Reply_0@.questions.len() == 0
                    &&& r->Reply_0@.answers.len() == 0
                    &&& r->Reply_0@.authorities.len() == 0
                    &&& r->Reply_0@.resources.len() == 0
                } else {
                    r->Reply_0@ == override_answer(es[k], q, sk.header)
                }
            }
        }),
{
    let mut response = DnsPacket::new();
    response.header.id = request.header.id;
    response.header.recursion_desired = true;
    response.header.recursion_available = true;
    response.header.response = true;
    proof {
        assert(response@.questions =~= Seq::<QuestionView>::empty());
        assert(response@.answers =~= Seq::<crate::record::RecordView>::empty());
        assert(response@.authorities =~= Seq::<crate::record::RecordView>::empty());
        assert(response@.resources =~= Seq::<crate::record::RecordView>::empty());
        assert(response@ == skeleton(request.header.id));
    }
    if request.questions.len() == 0 {
        response.header.rescode = ResultCode::FormError;
        return QueryPlan::Reply(response);
    }
    let question = &request.questions[0];
    assert(question@ == request@.questions[0]);
    match handle_look_at(config, question, &mut response) {
        Some(result) => QueryPlan::Reply(result),
        None => QueryPlan::Resolve { response, question: question.duplicate() },
    }
}

/// Completes a response skeleton with the outcome of resolving `question`:
/// on success the question, the response code and the three record sections
/// of the result; on failure `ServerFail` and nothing else.
pub fn complete_response(response: DnsPacket, question: &DnsQuestion, outcome: Result<DnsPacket, Error>) -> (r: DnsPacket)
    ensures
        match outcome {
            Ok(res) => r@ == (PacketView {
                header: DnsHeader { rescode: res.header.rescode, ..response.header },
                questions: response@.questions.push(question@),
                answers: response@.answers + res@.answers,
                authorities: response@.authorities + res@.authorities,
                resources: response@.resources + res@.resources,
            }),
            Err(_) => r@ == (PacketView { header: DnsHeader { rescode: ResultCode::ServerFail, ..response.header }, ..response@ }),
        },
{
    let mut response = response;
    match outcome {
        Ok(mut result) => {
            let ghost (r0, res0) = (response@, result@);
            response.questions.push(question.duplicate());
            response.header.rescode = result.header.rescode;
            response.answers.append(&mut result.answers);
            response.authorities.append(&mut result.authorities);
            response.resources.append(&mut result.resources);
            proof {
                assert(response@.questions =~= r0.questions.push(question@));
                assert(response@.answers =~= r0.answers + res0.answers);
                assert(response@.authorities =~= r0.authorities + res0.authorities);
                assert(response@.resources =~= r0.resources + res0.resources);
            }
            response
        },
        Err(_) => {
            response.header.rescode = ResultCode::ServerFail;
            response
        },
    }
}

} // verus!
