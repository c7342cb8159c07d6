use vstd::prelude::*;
use vstd::utf8::encode_utf8;
use vstd::string::StringSliceAdditionalSpecFns;
use crate::error::BytePacketError as Error;
use crate::header::DnsHeader;
use crate::packet::{DnsPacket, PacketView, ends_with, is_suffix};
use crate::qname::{lowercase, lower_of};
use crate::question::{DnsQuestion, QuestionView};
use crate::record::{DnsRecord, RecordView};
use crate::types::{QueryType, ResultCode};

verus! {

/// Time to live, in seconds, of every record of an override answer.
pub const OVERRIDE_TTL: u32 = 3600;

/// The transaction id of a synthesized answer, before the query's own replaces it.
pub const SYNTHETIC_ID: u16 = 0x29a;

/// A local override: names, and the addresses to answer for them. An entry
/// whose addresses are all zero blocks its names instead.
#[derive(Debug, Clone)]
pub struct LookAtRecord {
    pub ipv6_addrs: Vec<[u16; 8]>,
    pub ipv4_addrs: Vec<[u8; 4]>,
    pub domains: Vec<String>,
}

/// What an override entry holds, with its names as text.
pub struct LookView {
    pub ipv6: Seq<Seq<u16>>,
    pub ipv4: Seq<Seq<u8>>,
    pub domains: Seq<Seq<char>>,
}

impl View for LookAtRecord {
    type V = LookView;

    open spec fn view(&self) -> LookView {
        LookView {
            ipv6: self.ipv6_addrs@.map_values(|a: [u16; 8]| a@),
            ipv4: self.ipv4_addrs@.map_values(|a: [u8; 4]| a@),
            domains: self.domains@.map_values(|d: String| d@),
        }
    }
}

impl LookAtRecord {
    pub fn new(domains: Vec<String>, ipv4: Vec<[u8; 4]>, ipv6: Vec<[u16; 8]>) -> (r: Self)
        ensures
            r.domains == domains,
            r.ipv4_addrs == ipv4,
            r.ipv6_addrs == ipv6,
    {
        LookAtRecord { ipv6_addrs: ipv6, ipv4_addrs: ipv4, domains }
    }
}

/// The configuration of the server: upstream name servers, in the order
/// given, the override entries, and the bounds of the worker pool.
#[derive(Debug, Clone)]
pub struct DnsServerConfig {
    pub nameservers: Vec<[u8; 4]>,
    pub look_at: Vec<LookAtRecord>,
    pub max_messages_count: usize,
    pub max_workers_count: usize,
}

impl DnsServerConfig {
    /// A configuration without overrides; a bound of zero is raised to one.
    pub fn new(nameservers: Vec<[u8; 4]>, max_workers: usize, max_messages: usize) -> (r: Self)
        ensures
            r.nameservers == nameservers,
            r.look_at@.len() == 0,
            r.max_messages_count == if max_messages > 0 { max_messages } else { 1 },
            r.max_workers_count == if max_workers > 0 { max_workers } else { 1 },
    {
        DnsServerConfig {
            nameservers,
            look_at: Vec::new(),
            max_messages_count: if max_messages > 0 { max_messages } else { 1 },
            max_workers_count: if max_workers > 0 { max_workers } else { 1 },
        }
    }

    /// Appends an entry for `domains`, unless there are none.
    fn add_look_at_record(&mut self, domains: Vec<String>, ipv4: Vec<[u8; 4]>, ipv6: Vec<[u16; 8]>)
        ensures
            final(self).nameservers == old(self).nameservers,
            final(self).max_messages_count == old(self).max_messages_count,
            final(self).max_workers_count == old(self).max_workers_count,
            domains@.len() == 0 ==> final(self).look_at@ == old(self).look_at@,
            domains@.len() > 0 ==> final(self).look_at@ == old(self).look_at@.push(
                LookAtRecord { ipv6_addrs: ipv6, ipv4_addrs: ipv4, domains }),
    {
        if domains.len() > 0 {
            self.look_at.push(LookAtRecord::new(domains, ipv4, ipv6));
        }
    }

    /// Adds an override entry for one name.
    pub fn look_at(&mut self, domain: String, ipv4: Vec<[u8; 4]>, ipv6: Vec<[u16; 8]>)
        ensures
            final(self).nameservers == old(self).nameservers,
            final(self).max_messages_count == old(self).max_messages_count,
            final(self).max_workers_count == old(self).max_workers_count,
            final(self).look_at@.len() == old(self).look_at@.len() + 1,
            final(self).look_at@.drop_last() == old(self).look_at@,
            final(self).look_at@.last().domains@ == seq![domain],
            final(self).look_at@.last().ipv4_addrs == ipv4,
            final(self).look_at@.last().ipv6_addrs == ipv6,
    {
        let mut domains: Vec<String> = Vec::new();
        domains.push(domain);
        self.add_look_at_record(domains, ipv4, ipv6);
        assert(self.look_at@.drop_last() =~= old(self).look_at@);
    }

    /// Adds one override entry for several names; nothing when there are none.
    pub fn look_many(&mut self, domains: Vec<String>, ipv4: Vec<[u8; 4]>, ipv6: Vec<[u16; 8]>)
        ensures
            final(self).nameservers == old(self).nameservers,
            final(self).max_messages_count == old(self).max_messages_count,
            final(self).max_workers_count == old(self).max_workers_count,
            domains@.len() == 0 ==> final(self).look_at@ == old(self).look_at@,
            domains@.len() > 0 ==> final(self).look_at@ == old(self).look_at@.push(
                LookAtRecord { ipv6_addrs: ipv6, ipv4_addrs: ipv4, domains }),
    {
        self.add_look_at_record(domains, ipv4, ipv6);
    }
}

/// `s` without its trailing dots.
pub open spec fn strip_dots(s: Seq<char>) -> Seq<char>
    decreases s.len(),
{
    if s.len() > 0 && s.last() == '.' { strip_dots(s.drop_last()) } else { s }
}

/// Relies on `str::trim_end_matches` with a `char` pattern: every trailing `.` is removed.
#[verifier::external_body]
fn trim_trailing_dots(s: &str) -> (r: String)
    ensures
        r@ == strip_dots(s@),
{
    s.trim_end_matches('.').to_string()
}

/// The form of an entry's name that queries are compared with.
pub open spec fn domain_key(d: Seq<char>) -> Seq<char> {
    lower_of(strip_dots(d))
}

/// Whether the query name `req` falls under the name `key`: equal, or
/// ending with a dot and `key`.
pub open spec fn under(req: Seq<char>, key: Seq<char>) -> bool {
    req == key || is_suffix(encode_utf8(req), encode_utf8(seq!['.'] + key))
}

/// Whether the entry name `d` covers the lowercased query name `req`.
pub open spec fn covers(d: Seq<char>, req: Seq<char>) -> bool {
    under(req, domain_key(d))
}

/// Whether some name of the entry covers `req`.
pub open spec fn entry_covers(e: LookView, req: Seq<char>) -> bool {
    exists|i: int| 0 <= i < e.domains.len() && covers(#[trigger] e.domains[i], req)
}

/// Whether every address of the entry, in either family, is all zeros.
pub open spec fn is_block(e: LookView) -> bool {
    &&& forall|i: int, j: int| 0 <= i < e.ipv4.len() && 0 <= j < 4 ==> #[trigger] e.ipv4[i][j] == 0
    &&& forall|i: int, j: int| 0 <= i < e.ipv6.len() && 0 <= j < 8 ==> #[trigger] e.ipv6[i][j] == 0
}

/// The questions of the answer for the names `ds`: per name, one for each
/// family that has addresses.
pub open spec fn override_questions(ds: Seq<Seq<char>>, v4: bool, v6: bool) -> Seq<QuestionView>
    decreases ds.len(),
{
    if ds.len() == 0 {
        Seq::empty()
    } else {
        let d = ds.last();
        override_questions(ds.drop_last(), v4, v6)
            + (if v4 { seq![QuestionView { name: d, qtype: QueryType::A }] } else { Seq::empty() })
            + (if v6 { seq![QuestionView { name: d, qtype: QueryType::AAAA }] } else { Seq::empty() })
    }
}

pub open spec fn a_records(d: Seq<char>, a4: Seq<Seq<u8>>) -> Seq<RecordView> {
    a4.map_values(|a: Seq<u8>| RecordView::A { address: a, domain: d, ttl: OVERRIDE_TTL })
}

pub open spec fn aaaa_records(d: Seq<char>, a6: Seq<Seq<u16>>) -> Seq<RecordView> {
    a6.map_values(|a: Seq<u16>| RecordView::AAAA { address: a, domain: d, ttl: OVERRIDE_TTL })
}

/// The answers for the names `ds`: per name, one record per address.
pub open spec fn override_answers(ds: Seq<Seq<char>>, a4: Seq<Seq<u8>>, a6: Seq<Seq<u16>>) -> Seq<RecordView>
    decreases ds.len(),
{
    if ds.len() == 0 {
        Seq::empty()
    } else {
        override_answers(ds.drop_last(), a4, a6) + a_records(ds.last(), a4) + aaaa_records(ds.last(), a6)
    }
}

pub open spec fn ns_host(d: Seq<char>) -> Seq<char> {
    seq!['n', 's', '1', '.'] + d
}

pub open spec fn mail_host(d: Seq<char>) -> Seq<char> {
    seq!['m', 'a', 'i', 'l', '.'] + d
}

/// The answer that an override entry synthesizes.
pub open spec fn override_packet(e: LookView) -> PacketView {
    let nd = e.domains.len();
    let nq = (if e.ipv4.len() > 0 { nd } else { 0 }) + (if e.ipv6.len() > 0 { nd } else { 0 });
    PacketView {
        header: DnsHeader {
            id: SYNTHETIC_ID,
            recursion_desired: true,
            truncated_message: false,
            authoritative_answer: true,
            opcode: 0,
            response: true,
            rescode: ResultCode::NoError,
            checking_disabled: false,
            authed_data: true,
            z: false,
            recursion_available: true,
            questions: nq as u16,
            answers: (nd * (e.ipv4.len() + e.ipv6.len())) as u16,
            authoritative_entries: nd as u16,
            resource_entries: nd as u16,
        },
        questions: override_questions(e.domains, e.ipv4.len() > 0, e.ipv6.len() > 0),
        answers: override_answers(e.domains, e.ipv4, e.ipv6),
        authorities: e.domains.map_values(|d: Seq<char>| RecordView::NS { domain: d, host: ns_host(d), ttl: OVERRIDE_TTL }),
        resources: e.domains.map_values(|d: Seq<char>| RecordView::MX {
            priority: 10, domain: d, host: mail_host(d), ttl: OVERRIDE_TTL }),
    }
}

fn prefixed_name(prefix: &str, domain: &String) -> (r: String)
    ensures
        r@ == prefix@ + domain@,
{
    let mut r = String::from_str(prefix);
    r.append(domain.as_str());
    r
}

/// Synthesizes the answer of an override entry: per name, a question for
/// each family with addresses, a record per address, an NS record for
/// `ns1.<name>` and an MX record of priority 10 for `mail.<name>`.
pub fn build_dns_packet(record: &LookAtRecord) -> (r: Result<DnsPacket, Error>)
    requires
        record.ipv4_addrs@.len() + record.ipv6_addrs@.len() <= usize::MAX,
        record.domains@.len() * (record.ipv4_addrs@.len() + record.ipv6_addrs@.len()) <= usize::MAX,
    ensures
        r is Ok,
        r->Ok_0@ == override_packet(record@),
{
    let ghost e = record@;
    let num_domains: usize = record.domains.len();
    let has_ipv4: bool = record.ipv4_addrs.len() > 0;
    let has_ipv6: bool = record.ipv6_addrs.len() > 0;
    let mut num_questions: usize = 0;
    proof {
        let (nd, n4, n6) = (num_domains as int, record.ipv4_addrs@.len() as int, record.ipv6_addrs@.len() as int);
        if n4 > 0 && n6 > 0 {
            assert(nd * 2 <= nd * (n4 + n6)) by (nonlinear_arith)
                requires n4 > 0 && n6 > 0 && nd >= 0;
        }
        if n4 > 0 || n6 > 0 {
            assert(nd <= nd * (n4 + n6)) by (nonlinear_arith)
                requires n4 + n6 >= 1 && nd >= 0;
        }
    }
    if has_ipv4 {
        num_questions = num_questions + num_domains;
    }
    if has_ipv6 {
        num_questions = num_questions + num_domains;
    }
    let total: usize = record.ipv4_addrs.len() + record.ipv6_addrs.len();
    let num_answers: usize = num_domains * total;
    let mut packet = DnsPacket::new();
    packet.header = DnsHeader {
        id: SYNTHETIC_ID,
        recursion_desired: true,
        truncated_message: false,
        authoritative_answer: true,
        opcode: 0,
        response: true,
        rescode: ResultCode::NoError,
        checking_disabled: false,
        authed_data: true,
        z: false,
        recursion_available: true,
        questions: num_questions as u16,
        answers: num_answers as u16,
        authoritative_entries: num_domains as u16,
        resource_entries: num_domains as u16,
    };
    proof {
        reveal_strlit("ns1.");
        reveal_strlit("mail.");
        assert(packet@.questions =~= override_questions(e.domains.take(0), has_ipv4, has_ipv6));
        assert(packet@.answers =~= override_answers(e.domains.take(0), e.ipv4, e.ipv6));
    }
    let mut i: usize = 0;
    while i < record.domains.len()
        invariant
            e == record@,
            has_ipv4 == (e.ipv4.len() > 0),
            has_ipv6 == (e.ipv6.len() > 0),
            i <= e.domains.len(),
            e.domains.len() == record.domains@.len(),
            packet.header == override_packet(e).header,
            packet@.questions == override_questions(e.domains.take(i as int), has_ipv4, has_ipv6),
            packet@.answers == override_answers(e.domains.take(i as int), e.ipv4, e.ipv6),
            packet@.authorities == e.domains.take(i as int).map_values(|d: Seq<char>|
                RecordView::NS { domain: d, host: ns_host(d), ttl: OVERRIDE_TTL }),
            packet@.resources == e.domains.take(i as int).map_values(|d: Seq<char>| RecordView::MX {
                priority: 10, domain: d, host: mail_host(d), ttl: OVERRIDE_TTL }),
            "ns1."@ == seq!['n', 's', '1', '.'],
            "mail."@ == seq!['m', 'a', 'i', 'l', '.'],
        decreases e.domains.len() - i,
    {
        let domain = &record.domains[i];
        let ghost d = domain@;
        assert(d == e.domains[i as int]);
        let ghost q0 = packet@.questions;
        if has_ipv4 {
            packet.questions.push(DnsQuestion { name: domain.clone(), qtype: QueryType::A });
        }
        if has_ipv6 {
            packet.questions.push(DnsQuestion { name: domain.clone(), qtype: QueryType::AAAA });
        }
        proof {
            assert(e.domains.take(i + 1).drop_last() =~= e.domains.take(i as int));
            assert(e.domains.take(i + 1).last() == d);
            assert(packet@.questions =~= override_questions(e.domains.take(i + 1), has_ipv4, has_ipv6));
        }
        let ghost a0 = packet@.answers;
        let mut j: usize = 0;
        while j < record.ipv4_addrs.len()
            invariant
                e == record@,
                j <= e.ipv4.len(),
                e.ipv4.len() == record.ipv4_addrs@.len(),
                domain@ == d,
                packet@.answers == a0 + a_records(d, e.ipv4.take(j as int)),
                packet@.questions == override_questions(e.domains.take(i + 1), has_ipv4, has_ipv6),
                packet@.authorities == e.domains.take(i as int).map_values(|d: Seq<char>|
                    RecordView::NS { domain: d, host: ns_host(d), ttl: OVERRIDE_TTL }),
                packet@.resources == e.domains.take(i as int).map_values(|d: Seq<char>| RecordView::MX {
                    priority: 10, domain: d, host: mail_host(d), ttl: OVERRIDE_TTL }),
                packet.header == override_packet(e).header,
            decreases e.ipv4.len() - j,
        {
            let rec = DnsRecord::A { domain: domain.clone(), address: record.ipv4_addrs[j], ttl: OVERRIDE_TTL };
            assert(rec@ == (RecordView::A { address: e.ipv4[j as int], domain: d, ttl: OVERRIDE_TTL }));
            let ghost before = packet@.answers;
            packet.answers.push(rec);
            proof {
                assert(packet@.answers =~= before.push(rec@));
                assert(e.ipv4.take(j + 1) =~= e.ipv4.take(j as int).push(e.ipv4[j as int]));
                assert(a_records(d, e.ipv4.take(j + 1)) =~= a_records(d, e.ipv4.take(j as int)).push(rec@));
                assert(packet@.answers =~= a0 + a_records(d, e.ipv4.take(j + 1)));
            }
            j = j + 1;
        }
        proof {
            assert(e.ipv4.take(j as int) =~= e.ipv4);
        }
        let ghost a1 = packet@.answers;
        let mut k: usize = 0;
        while k < record.ipv6_addrs.len()
            invariant
                e == record@,
                k <= e.ipv6.len(),
                e.ipv6.len() == record.ipv6_addrs@.len(),
                domain@ == d,
                packet@.answers == a1 + aaaa_records(d, e.ipv6.take(k as int)),
                packet@.questions == override_questions(e.domains.take(i + 1), has_ipv4, has_ipv6),
                packet@.authorities == e.domains.take(i as int).map_values(|d: Seq<char>|
                    RecordView::NS { domain: d, host: ns_host(d), ttl: OVERRIDE_TTL }),
                packet@.resources == e.domains.take(i as int).map_values(|d: Seq<char>| RecordView::MX {
                    priority: 10, domain: d, host: mail_host(d), ttl: OVERRIDE_TTL }),
                packet.header == override_packet(e).header,
            decreases e.ipv6.len() - k,
        {
            let rec = DnsRecord::AAAA { domain: domain.clone(), address: record.ipv6_addrs[k], ttl: OVERRIDE_TTL };
            assert(rec@ == (RecordView::AAAA { address: e.ipv6[k as int], domain: d, ttl: OVERRIDE_TTL }));
            let ghost before = packet@.answers;
            packet.answers.push(rec);
            proof {
                assert(packet@.answers =~= before.push(rec@));
                assert(e.ipv6.take(k + 1) =~= e.ipv6.take(k as int).push(e.ipv6[k as int]));
                assert(aaaa_records(d, e.ipv6.take(k + 1)) =~= aaaa_records(d, e.ipv6.take(k as int)).push(rec@));
                assert(packet@.answers =~= a1 + aaaa_records(d, e.ipv6.take(k + 1)));
            }
            k = k + 1;
        }
        proof {
            assert(e.ipv6.take(k as int) =~= e.ipv6);
            assert(packet@.answers =~= override_answers(e.domains.take(i + 1), e.ipv4, e.ipv6));
        }
        let ns = DnsRecord::NS { domain: domain.clone(), host: prefixed_name("ns1.", domain), ttl: OVERRIDE_TTL };
        assert(ns@ == (RecordView::NS { domain: d, host: ns_host(d), ttl: OVERRIDE_TTL }));
        let ghost au0 = packet@.authorities;
        packet.authorities.push(ns);
        let mx = DnsRecord::MX { domain: domain.clone(), priority: 10, host: prefixed_name("mail.", domain), ttl: OVERRIDE_TTL };
        assert(mx@ == (RecordView::MX { priority: 10, domain: d, host: mail_host(d), ttl: OVERRIDE_TTL }));
        let ghost re0 = packet@.resources;
        packet.resources.push(mx);
        proof {
            assert(e.domains.take(i + 1) =~= e.domains.take(i as int).push(d));
            assert(packet@.authorities =~= au0.push(ns@));
            assert(packet@.resources =~= re0.push(mx@));
        }
        proof {
            assert(packet@.authorities =~= e.domains.take(i + 1).map_values(|d: Seq<char>|
                RecordView::NS { domain: d, host: ns_host(d), ttl: OVERRIDE_TTL }));
            assert(packet@.resources =~= e.domains.take(i + 1).map_values(|d: Seq<char>| RecordView::MX {
                priority: 10, domain: d, host: mail_host(d), ttl: OVERRIDE_TTL }));
        }
        i = i + 1;
    }
    proof {
        assert(e.domains.take(i as int) =~= e.domains);
    }
    Ok(packet)
}

impl DnsServerConfig {
    /// Whether the address counts of every entry stay within machine words.
    pub open spec fn sized(&self) -> bool {
        forall|k: int| 0 <= k < self.look_at@.len() ==> {
            let e = #[trigger] self.look_at@[k];
            &&& e.ipv4_addrs@.len() + e.ipv6_addrs@.len() <= usize::MAX
            &&& e.domains@.len() * (e.ipv4_addrs@.len() + e.ipv6_addrs@.len()) <= usize::MAX
        }
    }
}

/// Whether the query name `req` falls under the name `key`: equal, or a
/// subdomain of it. Both are compared as they are, already lowercased.
pub fn name_under(req: &String, key: &String) -> (r: bool)
    ensures
        r == under(req@, key@),
{
    if req.eq(key) {
        return true;
    }
    let dotted = prefixed_name(".", key);
    proof {
        reveal_strlit(".");
        assert(dotted@ =~= seq!['.'] + key@);
    }
    ends_with(req.as_str().as_bytes(), dotted.as_str().as_bytes())
}

/// Whether the entry name `d` covers the lowercased query name `req`.
fn domain_covers(d: &String, req: &String) -> (r: bool)
    ensures
        r == covers(d@, req@),
{
    let trimmed = trim_trailing_dots(d.as_str());
    let key = lowercase(trimmed.as_str());
    name_under(req, &key)
}

/// Whether some name of the entry covers `req`.
fn entry_matches(e: &LookAtRecord, req: &String) -> (r: bool)
    ensures
        r == entry_covers(e@, req@),
{
    let mut i: usize = 0;
    while i < e.domains.len()
        invariant
            i <= e.domains@.len(),
            forall|j: int| 0 <= j < i ==> !covers(#[trigger] e@.domains[j], req@),
        decreases e.domains@.len() - i,
    {
        if domain_covers(&e.domains[i], req) {
            assert(covers(e@.domains[i as int], req@));
            return true;
        }
        i = i + 1;
    }
    false
}

/// Whether every address of the entry is all zeros.
fn entry_blocks(e: &LookAtRecord) -> (r: bool)
    ensures
        r == is_block(e@),
{
    let mut i: usize = 0;
    while i < e.ipv4_addrs.len()
        invariant
            i <= e.ipv4_addrs@.len(),
            forall|a: int, j: int| 0 <= a < i && 0 <= j < 4 ==> #[trigger] e@.ipv4[a][j] == 0,
        decreases e.ipv4_addrs@.len() - i,
    {
        let ip = e.ipv4_addrs[i];
        if ip[0] != 0 || ip[1] != 0 || ip[2] != 0 || ip[3] != 0 {
            assert(e@.ipv4[i as int] == ip@);
            return false;
        }
        assert(e@.ipv4[i as int] == ip@);
        i = i + 1;
    }
    let mut k: usize = 0;
    while k < e.ipv6_addrs.len()
        invariant
            i == e.ipv4_addrs@.len(),
            forall|a: int, j: int| 0 <= a < e@.ipv4.len() && 0 <= j < 4 ==> #[trigger] e@.ipv4[a][j] == 0,
            k <= e.ipv6_addrs@.len(),
            forall|a: int, j: int| 0 <= a < k && 0 <= j < 8 ==> #[trigger] e@.ipv6[a][j] == 0,
        decreases e.ipv6_addrs@.len() - k,
    {
        let ip = e.ipv6_addrs[k];
        assert(e@.ipv6[k as int] == ip@);
        if ip[0] != 0 || ip[1] != 0 || ip[2] != 0 || ip[3] != 0 || ip[4] != 0 || ip[5] != 0 || ip[6] != 0
            || ip[7] != 0 {
            return false;
        }
        k = k + 1;
    }
    true
}

/// The override answer for `question`, given the skeleton `h` of the response:
/// the entry's synthesized packet with the question appended, and the id and
/// RD, RA and QR flags of `h`.
pub open spec fn override_answer(e: LookView, question: QuestionView, h: DnsHeader) -> PacketView {
    let p = override_packet(e);
    PacketView {
        header: DnsHeader {
            id: h.id,
            recursion_desired: h.recursion_desired,
            recursion_available: h.recursion_available,
            response: h.response,
            ..p.header
        },
        questions: p.questions.push(question),
        ..p
    }
}

/// Whether entry `k` is the first of `es` that covers `req`.
pub open spec fn first_cover(es: Seq<LookView>, req: Seq<char>, k: int) -> bool {
    &&& 0 <= k < es.len()
    &&& entry_covers(es[k], req)
    &&& forall|j: int| 0 <= j < k ==> !entry_covers(#[trigger] es[j], req)
}

/// Consults the override table for `question`. With no entry covering its
/// lowercased name, nothing. With a blocking entry first, the response
/// skeleton is marked `Refused` and a copy of it returned. Otherwise the
/// entry's synthesized answer, carrying the skeleton's id and flags.
pub fn handle_look_at(config: &DnsServerConfig, question: &DnsQuestion, response: &mut DnsPacket) -> (r: Option<DnsPacket>)
    requires
        config.sized(),
    ensures
        ({
            let req = lower_of(question.name@);
            let es = config.look_at@.map_values(|e: LookAtRecord| e@);
            &&& (forall|k: int| 0 <= k < es.len() ==> !entry_covers(#[trigger] es[k], req))
                ==> r is None && *final(response) == *old(response)
            &&& forall|k: int| #[trigger] first_cover(es, req, k) ==> {
                if is_block(es[k]) {
                    &&& final(response)@ == (PacketView {
                        header: DnsHeader { rescode: ResultCode::Refused, ..old(response).header },
                        ..old(response)@
                    })
                    &&& r is Some && r->Some_0@ == final(response)@
                } else {
                    &&& *final(response) == *old(response)
                    &&& r is Some && r->Some_0@ == override_answer(es[k], question@, old(response).header)
                }
            }
        }),
{
    let req_domain = lowercase(question.name.as_str());
    let ghost es = config.look_at@.map_values(|e: LookAtRecord| e@);
    let mut i: usize = 0;
    while i < config.look_at.len()
        invariant
            es == config.look_at@.map_values(|e: LookAtRecord| e@),
            req_domain@ == lower_of(question.name@),
            i <= config.look_at@.len(),
            *response == *old(response),
            config.sized(),
            forall|j: int| 0 <= j < i ==> !entry_covers(#[trigger] es[j], req_domain@),
        decreases config.look_at@.len() - i,
    {
        let record = &config.look_at[i];
        assert(es[i as int] == record@);
        if entry_matches(record, &req_domain) {
            assert(first_cover(es, req_domain@, i as int));
            assert forall|k: int| #[trigger] first_cover(es, req_domain@, k) implies k == i by {
                if k < i {
                } else if k > i {
                    assert(!entry_covers(es[i as int], req_domain@));
                }
            }
            if entry_blocks(record) {
                response.header.rescode = ResultCode::Refused;
                return Some(response.duplicate());
            }
            assert(config.look_at@[i as int] == *record);
            let mut result = match build_dns_packet(record) {
                Ok(p) => p,
                Err(_) => return None,
            };
            let ghost before = result@.questions;
            result.questions.push(question.duplicate());
            proof {
                assert(result@.questions =~= before.push(question@));
            }
            result.header.id = response.header.id;
            result.header.recursion_desired = response.header.recursion_desired;
            result.header.recursion_available = response.header.recursion_available;
            result.header.response = response.header.response;
            return Some(result);
        }
        i = i + 1;
    }
    None
}

} // verus!
