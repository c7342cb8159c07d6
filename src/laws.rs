use vstd::prelude::*;
use crate::buffer::{PACKET_BUFFER_SIZE, put, be16, u16_of, lemma_be16_u16_of, be32, u32_of, lemma_be32_u32_of};
use crate::header::{DnsHeader, header_wire, header_from, flags_high, flags_low, bit};
use crate::types::ResultCode;
use crate::qname::dotted_text;
use crate::question::{QuestionView, question_wire, question_read, name_wire, name_read};
use crate::record::{RecordView, record_wire, record_read, record_fixed, segments_wire, segments_at};
use vstd::utf8::encode_utf8;
use crate::packet::{PacketView, questions_read, records_read, questions_wire, records_wire, packet_read, packet_wire,
    packet_ok, counted, questions_ok, records_ok};
use crate::handler::{datagram_read, zeros, skeleton};
use crate::overrides::{LookView, override_answer, is_block, ns_host, mail_host, OVERRIDE_TTL};
use crate::types::QueryType;
use crate::error::BytePacketError as Error;
use crate::qname::{MAX_JUMPS, MAX_LABEL_LENGTH, is_pointer, pointer_target, name_labels, name_end, split_labels,
    labels_wire, qname_wire};

verus! {

/// Whether `q[0] .. q[q.len() - 2]` are compression pointers in `bytes`,
/// each pointing to the next position of `q`.
pub open spec fn pointer_chain(bytes: Seq<u8>, q: Seq<int>) -> bool {
    forall|i: int| 0 <= i < q.len() - 1 ==> {
        &&& 0 <= #[trigger] q[i] && q[i] + 1 < bytes.len()
        &&& is_pointer(bytes[q[i]])
        &&& pointer_target(bytes[q[i]], bytes[q[i] + 1]) == q[i + 1]
    }
}

/// A name whose reading meets more than five pointers in a row fails with
/// `MaxJumpsExceeded`, whatever the pointers lead to; in particular a cycle
/// of pointers never makes reading loop.
pub proof fn lemma_pointer_chain_rejected(bytes: Seq<u8>, q: Seq<int>)
    requires
        q.len() == MAX_JUMPS + 2,
        pointer_chain(bytes, q),
    ensures
        name_labels(bytes, q[0], 0) == Err::<Seq<Seq<u8>>, Error>(Error::MaxJumpsExceeded),
{
    lemma_chain_from(bytes, q, 0);
}

proof fn lemma_chain_from(bytes: Seq<u8>, q: Seq<int>, k: int)
    requires
        q.len() == MAX_JUMPS + 2,
        pointer_chain(bytes, q),
        0 <= k <= MAX_JUMPS + 1,
    ensures
        name_labels(bytes, q[k], k) == Err::<Seq<Seq<u8>>, Error>(Error::MaxJumpsExceeded),
    decreases MAX_JUMPS + 1 - k,
{
    if k <= MAX_JUMPS {
        lemma_chain_from(bytes, q, k + 1);
    }
}

/// Whether the byte string is a dotted name that can be encoded: each label
/// non-empty and at most 63 bytes.
pub open spec fn valid_name(n: Seq<u8>) -> bool {
    forall|i: int| 0 <= i < split_labels(n).len() ==> 0 < #[trigger] split_labels(n)[i].len() <= MAX_LABEL_LENGTH
}

proof fn lemma_wire_prefix(ls: Seq<Seq<u8>>, k: int)
    requires
        0 <= k <= ls.len(),
    ensures
        labels_wire(ls.take(k)).len() <= labels_wire(ls).len(),
        labels_wire(ls).take(labels_wire(ls.take(k)).len() as int) == labels_wire(ls.take(k)),
    decreases ls.len(),
{
    if k == ls.len() {
        assert(ls.take(k) =~= ls);
        assert(labels_wire(ls).take(labels_wire(ls).len() as int) =~= labels_wire(ls));
    } else {
        assert(ls.take(k) =~= ls.drop_last().take(k));
        lemma_wire_prefix(ls.drop_last(), k);
        let w = labels_wire(ls.take(k));
        assert(labels_wire(ls).take(w.len() as int) =~= labels_wire(ls.drop_last()).take(w.len() as int));
    }
}

/// Whether `w` stands in `bytes` from position `p` on.
pub open spec fn holds_at(bytes: Seq<u8>, p: int, w: Seq<u8>) -> bool {
    0 <= p && p + w.len() <= bytes.len() && bytes.subrange(p, p + w.len()) == w
}

pub proof fn lemma_holds_split(bytes: Seq<u8>, p: int, a: Seq<u8>, b: Seq<u8>)
    requires
        holds_at(bytes, p, a + b),
    ensures
        holds_at(bytes, p, a),
        holds_at(bytes, p + a.len(), b),
{
    let whole = bytes.subrange(p, p + (a + b).len());
    assert(whole == a + b);
    assert(bytes.subrange(p, p + a.len()) =~= whole.subrange(0, a.len() as int));
    assert(whole.subrange(0, a.len() as int) =~= a);
    assert(bytes.subrange(p + a.len(), p + a.len() + b.len()) =~= whole.subrange(a.len() as int, (a.len() + b.len()) as int));
    assert(whole.subrange(a.len() as int, (a.len() + b.len()) as int) =~= b);
}

proof fn lemma_read_labels(bytes: Seq<u8>, p: int, ls: Seq<Seq<u8>>, k: int, j: int)
    requires
        holds_at(bytes, p, labels_wire(ls) + seq![0u8]),
        forall|i: int| 0 <= i < ls.len() ==> 0 < #[trigger] ls[i].len() <= MAX_LABEL_LENGTH,
        0 <= k <= ls.len(),
        0 <= j <= MAX_JUMPS,
    ensures
        ({
            let pos = p + labels_wire(ls.take(k)).len();
            &&& name_labels(bytes, pos, j) == Ok::<Seq<Seq<u8>>, Error>(ls.skip(k))
            &&& name_end(bytes, pos) == p + labels_wire(ls).len() + 1
        }),
    decreases ls.len() - k,
{
    let w = labels_wire(ls) + seq![0u8];
    let pos = p + labels_wire(ls.take(k)).len();
    lemma_wire_prefix(ls, k);
    assert(forall|i: int| 0 <= i < w.len() ==> bytes[p + i] == #[trigger] w[i]) by {
        assert forall|i: int| 0 <= i < w.len() implies bytes[p + i] == #[trigger] w[i] by {
            assert(bytes.subrange(p, p + w.len())[i] == w[i]);
        }
    };
    if k == ls.len() {
        assert(ls.take(k) =~= ls);
        assert(bytes[pos] == w[labels_wire(ls).len() as int]);
        assert(bytes[pos] == 0);
        assert(!is_pointer(0u8)) by (bit_vector);
        assert(ls.skip(k) =~= Seq::<Seq<u8>>::empty());
    } else {
        lemma_wire_prefix(ls, k + 1);
        let l = ls[k];
        assert(ls.take(k + 1).drop_last() =~= ls.take(k));
        assert(ls.take(k + 1).last() == l);
        let wk = labels_wire(ls.take(k));
        let wk1 = labels_wire(ls.take(k + 1));
        assert(wk1 == wk + seq![l.len() as u8] + l);
        assert(w.take(wk1.len() as int) =~= wk1);
        assert(w[wk.len() as int] == wk1[wk.len() as int]);
        assert(bytes[pos] == l.len() as u8);
        let len = l.len() as u8;
        assert(len < 64 ==> len & 0xc0u8 != 0xc0u8) by (bit_vector);
        assert(bytes.subrange(pos + 1, pos + 1 + l.len()) =~= l) by {
            assert forall|i: int| 0 <= i < l.len() implies bytes.subrange(pos + 1, pos + 1 + l.len())[i] == l[i] by {
                assert(w[wk.len() + 1 + i] == wk1[wk.len() + 1 + i]);
            }
        };
        assert(len as int == l.len());
        assert(!is_pointer(bytes[pos]));
        assert(pos + 1 + l.len() == p + wk1.len());
        lemma_read_labels(bytes, p, ls, k + 1, j);
        assert(seq![l] + ls.skip(k + 1) =~= ls.skip(k));
        assert(name_labels(bytes, pos, j) == Ok::<Seq<Seq<u8>>, Error>(seq![l] + ls.skip(k + 1)));
    }
}

/// Reading a name where a valid name is encoded gives its labels, and the
/// cursor ends right after the encoding.
pub proof fn lemma_name_at(bytes: Seq<u8>, p: int, n: Seq<u8>)
    requires
        valid_name(n),
        holds_at(bytes, p, qname_wire(n)),
    ensures
        name_labels(bytes, p, 0) == Ok::<Seq<Seq<u8>>, Error>(split_labels(n)),
        name_end(bytes, p) == p + qname_wire(n).len(),
{
    lemma_name_after_jumps(bytes, p, n, 0);
}

/// The same, for a name reached after `j` pointers, `j` within the bound.
proof fn lemma_name_after_jumps(bytes: Seq<u8>, p: int, n: Seq<u8>, j: int)
    requires
        valid_name(n),
        holds_at(bytes, p, qname_wire(n)),
        0 <= j <= MAX_JUMPS,
    ensures
        name_labels(bytes, p, j) == Ok::<Seq<Seq<u8>>, Error>(split_labels(n)),
        name_end(bytes, p) == p + qname_wire(n).len(),
{
    let ls = split_labels(n);
    assert(ls.take(0) =~= Seq::<Seq<u8>>::empty());
    assert(labels_wire(ls.take(0)) =~= Seq::<u8>::empty());
    lemma_read_labels(bytes, p, ls, 0, j);
    assert(ls.skip(0) =~= ls);
}

/// A name reached through at most five pointers in a row is read in full:
/// the labels of the name the last pointer leads to, the cursor past the
/// first pointer.
pub proof fn lemma_short_pointer_chain_accepted(bytes: Seq<u8>, q: Seq<int>, n: Seq<u8>)
    requires
        2 <= q.len() <= MAX_JUMPS + 1,
        pointer_chain(bytes, q),
        valid_name(n),
        holds_at(bytes, q.last(), qname_wire(n)),
    ensures
        name_labels(bytes, q[0], 0) == Ok::<Seq<Seq<u8>>, Error>(split_labels(n)),
        name_end(bytes, q[0]) == q[0] + 2,
{
    lemma_chain_accepted_from(bytes, q, n, 0);
}

proof fn lemma_chain_accepted_from(bytes: Seq<u8>, q: Seq<int>, n: Seq<u8>, k: int)
    requires
        1 <= q.len() <= MAX_JUMPS + 1,
        pointer_chain(bytes, q),
        valid_name(n),
        holds_at(bytes, q.last(), qname_wire(n)),
        0 <= k < q.len(),
    ensures
        name_labels(bytes, q[k], k) == Ok::<Seq<Seq<u8>>, Error>(split_labels(n)),
    decreases q.len() - k,
{
    if k == q.len() - 1 {
        lemma_name_after_jumps(bytes, q[k], n, k);
    } else {
        lemma_chain_accepted_from(bytes, q, n, k + 1);
    }
}

/// Decoding an encoded name gives back its labels: writing a valid dotted
/// name at `p` and reading a name at `p` yields exactly its labels, whose
/// texts, lowercased, the decoded name joins with dots, and the cursor ends
/// right after the encoding.
pub proof fn lemma_name_round_trip(b: Seq<u8>, p: int, n: Seq<u8>)
    requires
        b.len() == PACKET_BUFFER_SIZE,
        0 <= p,
        p + n.len() + 2 <= PACKET_BUFFER_SIZE,
        valid_name(n),
    ensures
        name_labels(put(b, p, qname_wire(n)), p, 0) == Ok::<Seq<Seq<u8>>, Error>(split_labels(n)),
        name_end(put(b, p, qname_wire(n)), p) == p + qname_wire(n).len(),
{
    crate::qname::lemma_wire_len(n);
    let bytes = put(b, p, qname_wire(n));
    assert(bytes.subrange(p, p + qname_wire(n).len()) =~= qname_wire(n));
    lemma_name_at(bytes, p, n);
}

proof fn lemma_flag_bits(rd: u8, tc: u8, aa: u8, op: u8, qr: u8)
    requires
        rd < 2 && tc < 2 && aa < 2 && op < 16 && qr < 2,
    ensures
        ({
            let x = rd | (tc << 1u8) | (aa << 2u8) | (op << 3u8) | (qr << 7u8);
            &&& (x & 0x01u8 != 0) == (rd == 1)
            &&& (x & 0x02u8 != 0) == (tc == 1)
            &&& (x & 0x04u8 != 0) == (aa == 1)
            &&& (x >> 3u8) & 0x0fu8 == op
            &&& (x & 0x80u8 != 0) == (qr == 1)
        }),
{
    assert(rd < 2 && tc < 2 && aa < 2 && op < 16 && qr < 2 ==> {
        let x = rd | (tc << 1u8) | (aa << 2u8) | (op << 3u8) | (qr << 7u8);
        &&& (x & 0x01u8 != 0) == (rd == 1)
        &&& (x & 0x02u8 != 0) == (tc == 1)
        &&& (x & 0x04u8 != 0) == (aa == 1)
        &&& (x >> 3u8) & 0x0fu8 == op
        &&& (x & 0x80u8 != 0) == (qr == 1)
    }) by (bit_vector);
}

proof fn lemma_low_bits(c: u8, cd: u8, ad: u8, z: u8, ra: u8)
    requires
        c < 16 && cd < 2 && ad < 2 && z < 2 && ra < 2,
    ensures
        ({
            let x = c | (cd << 4u8) | (ad << 5u8) | (z << 6u8) | (ra << 7u8);
            &&& x & 0x0fu8 == c
            &&& (x & 0x10u8 != 0) == (cd == 1)
            &&& (x & 0x20u8 != 0) == (ad == 1)
            &&& (x & 0x40u8 != 0) == (z == 1)
            &&& (x & 0x80u8 != 0) == (ra == 1)
        }),
{
    assert(c < 16 && cd < 2 && ad < 2 && z < 2 && ra < 2 ==> {
        let x = c | (cd << 4u8) | (ad << 5u8) | (z << 6u8) | (ra << 7u8);
        &&& x & 0x0fu8 == c
        &&& (x & 0x10u8 != 0) == (cd == 1)
        &&& (x & 0x20u8 != 0) == (ad == 1)
        &&& (x & 0x40u8 != 0) == (z == 1)
        &&& (x & 0x80u8 != 0) == (ra == 1)
    }) by (bit_vector);
}

/// Reading a header where one is encoded gives it back, provided its opcode
/// fits the four bits that the wire gives it.
pub proof fn lemma_header_at(bytes: Seq<u8>, p: int, h: DnsHeader)
    requires
        h.opcode < 16,
        holds_at(bytes, p, header_wire(h)),
    ensures
        header_from(bytes, p) == h,
{
    let w = header_wire(h);
    assert forall|i: int| 0 <= i < 12 implies bytes[p + i] == #[trigger] w[i] by {
        assert(bytes.subrange(p, p + w.len())[i] == w[i]);
    }
    lemma_be16_u16_of(h.id);
    lemma_be16_u16_of(h.questions);
    lemma_be16_u16_of(h.answers);
    lemma_be16_u16_of(h.authoritative_entries);
    lemma_be16_u16_of(h.resource_entries);
    lemma_flag_bits(bit(h.recursion_desired), bit(h.truncated_message), bit(h.authoritative_answer), h.opcode,
        bit(h.response));
    lemma_low_bits(h.rescode.code(), bit(h.checking_disabled), bit(h.authed_data), bit(h.z), bit(h.recursion_available));
    let (i, q, an, ns, ar) = (be16(h.id), be16(h.questions), be16(h.answers), be16(h.authoritative_entries),
        be16(h.resource_entries));
    assert(w =~= seq![i[0], i[1], flags_high(h), flags_low(h), q[0], q[1], an[0], an[1], ns[0], ns[1], ar[0], ar[1]]);
    assert(ResultCode::spec_from(h.rescode.code()) == h.rescode);
    let g = header_from(bytes, p);
    assert(g.id == h.id);
    assert(g.questions == h.questions);
    assert(g.answers == h.answers);
    assert(g.authoritative_entries == h.authoritative_entries);
    assert(g.resource_entries == h.resource_entries);
    assert(g.recursion_desired == h.recursion_desired);
    assert(g.truncated_message == h.truncated_message);
    assert(g.authoritative_answer == h.authoritative_answer);
    assert(g.opcode == h.opcode);
    assert(g.response == h.response);
    assert(g.rescode == h.rescode);
    assert(g.checking_disabled == h.checking_disabled);
    assert(g.authed_data == h.authed_data);
    assert(g.z == h.z);
    assert(g.recursion_available == h.recursion_available);
}

proof fn lemma_u16_at(bytes: Seq<u8>, p: int, v: u16)
    requires
        holds_at(bytes, p, be16(v)),
    ensures
        u16_of(bytes[p], bytes[p + 1]) == v,
{
    assert(bytes.subrange(p, p + 2)[0] == bytes[p]);
    assert(bytes.subrange(p, p + 2)[1] == bytes[p + 1]);
    lemma_be16_u16_of(v);
}

proof fn lemma_u32_at(bytes: Seq<u8>, p: int, v: u32)
    requires
        holds_at(bytes, p, be32(v)),
    ensures
        u32_of(bytes[p], bytes[p + 1], bytes[p + 2], bytes[p + 3]) == v,
{
    let w = bytes.subrange(p, p + 4);
    assert(w[0] == bytes[p] && w[1] == bytes[p + 1] && w[2] == bytes[p + 2] && w[3] == bytes[p + 3]);
    lemma_be32_u32_of(v);
}

/// Whether a name's text is exactly what decoding its encoding gives: every
/// label non-empty, at most 63 bytes, and already in lowercase form.
pub open spec fn canonical_name(s: Seq<char>) -> bool {
    valid_name(encode_utf8(s)) && dotted_text(split_labels(encode_utf8(s))) == s
}

proof fn lemma_name_read_at(bytes: Seq<u8>, p: int, s: Seq<char>)
    requires
        canonical_name(s),
        holds_at(bytes, p, name_wire(s)),
    ensures
        name_read(bytes, p) == Ok::<(Seq<char>, int), Error>((s, p + name_wire(s).len())),
{
    lemma_name_at(bytes, p, encode_utf8(s));
}

/// Whether a question survives encoding and decoding unchanged.
pub open spec fn canonical_question(q: QuestionView) -> bool {
    canonical_name(q.name) && q.qtype.is_canonical()
}

proof fn lemma_question_at(bytes: Seq<u8>, p: int, q: QuestionView)
    requires
        canonical_question(q),
        holds_at(bytes, p, question_wire(q)),
    ensures
        question_read(bytes, p) == Ok::<(QuestionView, int), Error>((q, p + question_wire(q).len())),
{
    let nw = name_wire(q.name);
    lemma_holds_split(bytes, p, nw + be16(q.qtype.code()), be16(1));
    lemma_holds_split(bytes, p, nw, be16(q.qtype.code()));
    lemma_name_read_at(bytes, p, q.name);
    lemma_u16_at(bytes, p + nw.len(), q.qtype.code());
}

/// Whether a record survives encoding and decoding unchanged: a known type,
/// canonical names, and addresses of their proper size.
pub open spec fn canonical_record(v: RecordView) -> bool {
    match v {
        RecordView::A { address, domain, .. } => canonical_name(domain) && address.len() == 4,
        RecordView::AAAA { address, domain, .. } => canonical_name(domain) && address.len() == 8,
        RecordView::CNAME { domain, host, .. } => canonical_name(domain) && canonical_name(host),
        RecordView::NS { domain, host, .. } => canonical_name(domain) && canonical_name(host),
        RecordView::MX { domain, host, .. } => canonical_name(domain) && canonical_name(host),
        RecordView::UNKNOWN { .. } => false,
    }
}

proof fn lemma_segments_at(bytes: Seq<u8>, d: int, a: Seq<u16>)
    requires
        a.len() == 8,
        holds_at(bytes, d, segments_wire(a)),
    ensures
        segments_at(bytes, d) == a,
{
    let w = segments_wire(a);
    assert forall|i: int| 0 <= i < 8 implies #[trigger] segments_at(bytes, d)[i] == a[i] by {
        let s = be16(a[i]);
        assert(w[2 * i] == s[0] && w[2 * i + 1] == s[1]) by {
            assert(w =~= seq![be16(a[0])[0], be16(a[0])[1], be16(a[1])[0], be16(a[1])[1], be16(a[2])[0], be16(a[2])[1],
                be16(a[3])[0], be16(a[3])[1], be16(a[4])[0], be16(a[4])[1], be16(a[5])[0], be16(a[5])[1],
                be16(a[6])[0], be16(a[6])[1], be16(a[7])[0], be16(a[7])[1]]);
        };
        assert(bytes.subrange(d, d + 16)[2 * i] == bytes[d + 2 * i]);
        assert(bytes.subrange(d, d + 16)[2 * i + 1] == bytes[d + 2 * i + 1]);
        lemma_be16_u16_of(a[i]);
    }
    assert(segments_at(bytes, d) =~= a);
}

#[verifier::spinoff_prover]
#[verifier::rlimit(50)]
proof fn lemma_record_at(bytes: Seq<u8>, p: int, v: RecordView)
    requires
        canonical_record(v),
        holds_at(bytes, p, record_wire(v)),
    ensures
        record_read(bytes, p) == Ok::<(RecordView, int), Error>((v, p + record_wire(v).len())),
{
    match v {
        RecordView::A { address, domain, ttl } => {
            let nw = name_wire(domain);
            let fx = record_fixed(1, ttl, 4);
            lemma_holds_split(bytes, p, nw + fx, address);
            lemma_holds_split(bytes, p, nw, fx);
            lemma_fixed_at(bytes, p + nw.len(), 1, ttl, 4);
            lemma_name_read_at(bytes, p, domain);
            assert(bytes.subrange(p + nw.len() + 10, p + nw.len() + 14) == address);
        },
        RecordView::AAAA { address, domain, ttl } => {
            let nw = name_wire(domain);
            let fx = record_fixed(0x1c, ttl, 16);
            lemma_holds_split(bytes, p, nw + fx, segments_wire(address));
            lemma_holds_split(bytes, p, nw, fx);
            lemma_fixed_at(bytes, p + nw.len(), 0x1c, ttl, 16);
            lemma_name_read_at(bytes, p, domain);
            lemma_segments_at(bytes, p + nw.len() + 10, address);
        },
        RecordView::CNAME { domain, host, ttl } => {
            let nw = name_wire(domain);
            let fx = record_fixed(5, ttl, name_wire(host).len() as u16);
            lemma_holds_split(bytes, p, nw + fx, name_wire(host));
            lemma_holds_split(bytes, p, nw, fx);
            lemma_fixed_at(bytes, p + nw.len(), 5, ttl, name_wire(host).len() as u16);
            lemma_name_read_at(bytes, p, domain);
            lemma_name_read_at(bytes, p + nw.len() + 10, host);
        },
        RecordView::NS { domain, host, ttl } => {
            let nw = name_wire(domain);
            let fx = record_fixed(2, ttl, name_wire(host).len() as u16);
            lemma_holds_split(bytes, p, nw + fx, name_wire(host));
            lemma_holds_split(bytes, p, nw, fx);
            lemma_fixed_at(bytes, p + nw.len(), 2, ttl, name_wire(host).len() as u16);
            lemma_name_read_at(bytes, p, domain);
            lemma_name_read_at(bytes, p + nw.len() + 10, host);
        },
        RecordView::MX { priority, domain, host, ttl } => {
            let nw = name_wire(domain);
            let fx = record_fixed(0x0f, ttl, (name_wire(host).len() + 2) as u16);
            lemma_holds_split(bytes, p, nw + fx + be16(priority), name_wire(host));
            lemma_holds_split(bytes, p, nw + fx, be16(priority));
            lemma_holds_split(bytes, p, nw, fx);
            lemma_fixed_at(bytes, p + nw.len(), 0x0f, ttl, (name_wire(host).len() + 2) as u16);
            lemma_name_read_at(bytes, p, domain);
            lemma_u16_at(bytes, p + nw.len() + 10, priority);
            lemma_name_read_at(bytes, p + nw.len() + 12, host);
        },
        RecordView::UNKNOWN { .. } => {},
    }
}

proof fn lemma_fixed_at(bytes: Seq<u8>, q: int, code: u16, ttl: u32, len: u16)
    requires
        holds_at(bytes, q, record_fixed(code, ttl, len)),
    ensures
        u16_of(bytes[q], bytes[q + 1]) == code,
        u32_of(bytes[q + 4], bytes[q + 5], bytes[q + 6], bytes[q + 7]) == ttl,
        q + 10 <= bytes.len(),
{
    lemma_holds_split(bytes, q, be16(code) + be16(1) + be32(ttl), be16(len));
    lemma_holds_split(bytes, q, be16(code) + be16(1), be32(ttl));
    lemma_holds_split(bytes, q, be16(code), be16(1));
    lemma_u16_at(bytes, q, code);
    lemma_u32_at(bytes, q + 4, ttl);
}

proof fn lemma_questions_at(bytes: Seq<u8>, p: int, qs: Seq<QuestionView>)
    requires
        forall|i: int| 0 <= i < qs.len() ==> canonical_question(#[trigger] qs[i]),
        holds_at(bytes, p, questions_wire(qs)),
    ensures
        questions_read(bytes, p, qs.len()) == Ok::<(Seq<QuestionView>, int), Error>((qs, p + questions_wire(qs).len())),
    decreases qs.len(),
{
    if qs.len() == 0 {
        assert(qs =~= Seq::<QuestionView>::empty());
    } else {
        let init = qs.drop_last();
        lemma_holds_split(bytes, p, questions_wire(init), question_wire(qs.last()));
        lemma_questions_at(bytes, p, init);
        lemma_question_at(bytes, p + questions_wire(init).len(), qs.last());
        assert(init.push(qs.last()) =~= qs);
    }
}

proof fn lemma_records_at(bytes: Seq<u8>, p: int, rs: Seq<RecordView>)
    requires
        forall|i: int| 0 <= i < rs.len() ==> canonical_record(#[trigger] rs[i]),
        holds_at(bytes, p, records_wire(rs)),
    ensures
        records_read(bytes, p, rs.len()) == Ok::<(Seq<RecordView>, int), Error>((rs, p + records_wire(rs).len())),
    decreases rs.len(),
{
    if rs.len() == 0 {
        assert(rs =~= Seq::<RecordView>::empty());
    } else {
        let init = rs.drop_last();
        lemma_holds_split(bytes, p, records_wire(init), record_wire(rs.last()));
        lemma_records_at(bytes, p, init);
        lemma_record_at(bytes, p + records_wire(init).len(), rs.last());
        assert(init.push(rs.last()) =~= rs);
    }
}

/// Whether a message survives encoding and decoding, its counts aside: every
/// question and record canonical, an opcode of four bits, sections short
/// enough to be counted in 16 bits, and an encoding that fits a buffer.
pub open spec fn canonical_packet(v: PacketView) -> bool {
    &&& v.header.opcode < 16
    &&& forall|i: int| 0 <= i < v.questions.len() ==> canonical_question(#[trigger] v.questions[i])
    &&& forall|i: int| 0 <= i < v.answers.len() ==> canonical_record(#[trigger] v.answers[i])
    &&& forall|i: int| 0 <= i < v.authorities.len() ==> canonical_record(#[trigger] v.authorities[i])
    &&& forall|i: int| 0 <= i < v.resources.len() ==> canonical_record(#[trigger] v.resources[i])
    &&& v.questions.len() < 0x10000
    &&& v.answers.len() < 0x10000
    &&& v.authorities.len() < 0x10000
    &&& v.resources.len() < 0x10000
    &&& packet_wire(v).len() <= PACKET_BUFFER_SIZE
}

proof fn lemma_canonical_records_ok(rs: Seq<RecordView>)
    requires
        forall|i: int| 0 <= i < rs.len() ==> canonical_record(#[trigger] rs[i]),
    ensures
        records_ok(rs),
{
    assert forall|i: int| 0 <= i < rs.len() implies !(#[trigger] rs[i] is UNKNOWN) && crate::record::record_names_ok(rs[i]) by {
        assert(canonical_record(rs[i]));
    }
}

proof fn lemma_packet_at(bytes: Seq<u8>, v: PacketView)
    requires
        canonical_packet(v),
        holds_at(bytes, 0, packet_wire(v)),
    ensures
        packet_read(bytes, 0) == Ok::<PacketView, Error>(PacketView { header: counted(v), ..v }),
{
    let h = header_wire(counted(v));
    let qw = questions_wire(v.questions);
    let aw = records_wire(v.answers);
    let nw = records_wire(v.authorities);
    let rw = records_wire(v.resources);
    assert(packet_wire(v) == h + qw + aw + nw + rw);
    lemma_holds_split(bytes, 0, h + qw + aw + nw, rw);
    lemma_holds_split(bytes, 0, h + qw + aw, nw);
    lemma_holds_split(bytes, 0, h + qw, aw);
    lemma_holds_split(bytes, 0, h, qw);
    lemma_header_at(bytes, 0, counted(v));
    let hv = header_from(bytes, 0);
    assert(hv == counted(v));
    assert(h.len() == 12);
    assert(hv.questions as nat == v.questions.len());
    assert(hv.answers as nat == v.answers.len());
    assert(hv.authoritative_entries as nat == v.authorities.len());
    assert(hv.resource_entries as nat == v.resources.len());
    let (e1, e2, e3) = ((12 + qw.len()) as int, (12 + qw.len() + aw.len()) as int, (12 + qw.len() + aw.len() + nw.len()) as int);
    lemma_questions_at(bytes, 12, v.questions);
    lemma_records_at(bytes, e1, v.answers);
    lemma_records_at(bytes, e2, v.authorities);
    lemma_records_at(bytes, e3, v.resources);
    assert(questions_read(bytes, 12, hv.questions as nat) == Ok::<(Seq<QuestionView>, int), Error>((v.questions, e1)));
    assert(records_read(bytes, e1, hv.answers as nat) == Ok::<(Seq<RecordView>, int), Error>((v.answers, e2)));
    assert(records_read(bytes, e2, hv.authoritative_entries as nat) == Ok::<(Seq<RecordView>, int), Error>((v.authorities, e3)));
}

/// A message encodes without error, and decoding its encoding gives it back
/// exactly, with the counts of its header set to the lengths of its sections.
pub proof fn lemma_message_round_trip(v: PacketView)
    requires
        canonical_packet(v),
    ensures
        packet_ok(v),
        datagram_read(packet_wire(v)) == Ok::<PacketView, Error>(PacketView { header: counted(v), ..v }),
{
    assert(questions_ok(v.questions)) by {
        assert forall|i: int| 0 <= i < v.questions.len() implies crate::question::name_ok(#[trigger] v.questions[i].name) by {
            assert(canonical_question(v.questions[i]));
        }
    };
    lemma_canonical_records_ok(v.answers);
    lemma_canonical_records_ok(v.authorities);
    lemma_canonical_records_ok(v.resources);
    let w = packet_wire(v);
    let bytes = put(zeros(), 0, w);
    assert(bytes.subrange(0, w.len() as int) =~= w);
    lemma_packet_at(bytes, v);
}

/// The answer for a query covered by an entry with one name `d` and one IPv4
/// address `a`: `NoError`, the query's id, one A record for `a`, an NS record
/// for `ns1.<d>` and an MX record for `mail.<d>`, all with a TTL of 3600.
pub proof fn lemma_single_address_answer(d: Seq<char>, a: Seq<u8>, question: QuestionView, id: u16)
    ensures
        ({
            let p = override_answer(LookView { ipv6: Seq::empty(), ipv4: seq![a], domains: seq![d] }, question,
                skeleton(id).header);
            &&& p.header.rescode == ResultCode::NoError
            &&& p.header.id == id
            &&& p.answers == seq![RecordView::A { address: a, domain: d, ttl: OVERRIDE_TTL }]
            &&& p.authorities == seq![RecordView::NS { domain: d, host: ns_host(d), ttl: OVERRIDE_TTL }]
            &&& p.resources == seq![RecordView::MX { priority: 10, domain: d, host: mail_host(d), ttl: OVERRIDE_TTL }]
            &&& p.questions == seq![QuestionView { name: d, qtype: QueryType::A }, question]
        }),
{
    let e = LookView { ipv6: Seq::empty(), ipv4: seq![a], domains: seq![d] };
    let p = override_answer(e, question, skeleton(id).header);
    assert(e.domains.drop_last() =~= Seq::<Seq<char>>::empty());
    assert(e.domains.last() == d);
    assert(crate::overrides::override_answers(Seq::<Seq<char>>::empty(), e.ipv4, e.ipv6) =~= Seq::<RecordView>::empty());
    assert(crate::overrides::override_questions(Seq::<Seq<char>>::empty(), true, false) =~= Seq::<QuestionView>::empty());
    assert(crate::overrides::a_records(d, e.ipv4) =~= seq![RecordView::A { address: a, domain: d, ttl: OVERRIDE_TTL }]);
    assert(crate::overrides::aaaa_records(d, e.ipv6) =~= Seq::<RecordView>::empty());
    assert(crate::overrides::override_answers(e.domains, e.ipv4, e.ipv6)
        =~= seq![RecordView::A { address: a, domain: d, ttl: OVERRIDE_TTL }]);
    assert(crate::overrides::override_questions(e.domains, true, false) =~= seq![QuestionView { name: d, qtype: QueryType::A }]);
    assert(p.questions =~= seq![QuestionView { name: d, qtype: QueryType::A }, question]);
    assert(p.authorities =~= seq![RecordView::NS { domain: d, host: ns_host(d), ttl: OVERRIDE_TTL }]);
    assert(p.resources =~= seq![RecordView::MX { priority: 10, domain: d, host: mail_host(d), ttl: OVERRIDE_TTL }]);
}

/// An entry whose addresses are `0.0.0.0` and `::` blocks: a covered query is
/// answered `Refused`, with no records.
pub proof fn lemma_zero_addresses_block(d: Seq<char>)
    ensures
        is_block(LookView { ipv6: seq![seq![0u16, 0, 0, 0, 0, 0, 0, 0]], ipv4: seq![seq![0u8, 0, 0, 0]], domains: seq![d] }),
{
}

} // verus!
