use vstd::prelude::*;
use crate::packet::DnsPacket;
use crate::question::DnsQuestion;
use crate::record::DnsRecord;

verus! {

impl DnsQuestion {
    /// A copy of the question.
    pub fn duplicate(&self) -> (r: DnsQuestion)
        ensures
            r@ == self@,
    {
        DnsQuestion { qtype: self.qtype, name: self.name.clone() }
    }
}

impl DnsRecord {
    /// A copy of the record.
    pub fn duplicate(&self) -> (r: DnsRecord)
        ensures
            r@ == self@,
    {
        match self {
            DnsRecord::UNKNOWN { data_len, domain, qtype, ttl } =>
                DnsRecord::UNKNOWN { data_len: *data_len, domain: domain.clone(), qtype: *qtype, ttl: *ttl },
            DnsRecord::AAAA { address, domain, ttl } =>
                DnsRecord::AAAA { address: *address, domain: domain.clone(), ttl: *ttl },
            DnsRecord::MX { priority, domain, host, ttl } =>
                DnsRecord::MX { priority: *priority, domain: domain.clone(), host: host.clone(), ttl: *ttl },
            DnsRecord::CNAME { domain, host, ttl } =>
                DnsRecord::CNAME { domain: domain.clone(), host: host.clone(), ttl: *ttl },
            DnsRecord::NS { domain, host, ttl } =>
                DnsRecord::NS { domain: domain.clone(), host: host.clone(), ttl: *ttl },
            DnsRecord::A { address, domain, ttl } =>
                DnsRecord::A { address: *address, domain: domain.clone(), ttl: *ttl },
        }
    }
}

fn copy_records(v: &Vec<DnsRecord>) -> (r: Vec<DnsRecord>)
    ensures
        r@.map_values(|x: DnsRecord| x@) == v@.map_values(|x: DnsRecord| x@),
{
    let mut out: Vec<DnsRecord> = Vec::new();
    let mut i: usize = 0;
    while i < v.len()
        invariant
            i <= v@.len(),
            out@.len() == i,
            forall|j: int| 0 <= j < i ==> #[trigger] out@[j]@ == v@[j]@,
        decreases v@.len() - i,
    {
        let c = v[i].duplicate();
        out.push(c);
        i = i + 1;
    }
    assert(out@.map_values(|x: DnsRecord| x@) =~= v@.map_values(|x: DnsRecord| x@));
    out
}

fn copy_questions(v: &Vec<DnsQuestion>) -> (r: Vec<DnsQuestion>)
    ensures
        r@.map_values(|x: DnsQuestion| x@) == v@.map_values(|x: DnsQuestion| x@),
{
    let mut out: Vec<DnsQuestion> = Vec::new();
    let mut i: usize = 0;
    while i < v.len()
        invariant
            i <= v@.len(),
            out@.len() == i,
            forall|j: int| 0 <= j < i ==> #[trigger] out@[j]@ == v@[j]@,
        decreases v@.len() - i,
    {
        let c = v[i].duplicate();
        out.push(c);
        i = i + 1;
    }
    assert(out@.map_values(|x: DnsQuestion| x@) =~= v@.map_values(|x: DnsQuestion| x@));
    out
}

impl DnsPacket {
    /// A copy of the message.
    pub fn duplicate(&self) -> (r: DnsPacket)
        ensures
            r@ == self@,
    {
        DnsPacket {
            header: self.header,
            authorities: copy_records(&self.authorities),
            questions: copy_questions(&self.questions),
            resources: copy_records(&self.resources),
            answers: copy_records(&self.answers),
        }
    }
}

} // verus!
