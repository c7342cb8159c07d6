use dns_core::{
    build_dns_packet, complete_response, decode_packet, encode_packet, handle_look_at, plan_query, BytePacketError,
    Dispatch, DnsPacket, DnsQuestion, DnsRecord, DnsServerConfig, LookAtRecord, QueryPlan, QueryType, ResolveStep,
    Resolver, ResultCode, WorkerPool,
};

fn query_datagram(id: u16, name: &str, qtype: QueryType) -> Vec<u8> {
    let mut q = dns_core::build_query(name, qtype);
    q.header.id = id;
    encode_packet(&mut q).unwrap()
}

fn config_with(domain: &str, v4: Vec<[u8; 4]>, v6: Vec<[u16; 8]>) -> DnsServerConfig {
    let mut c = DnsServerConfig::new(vec![[8, 8, 8, 8]], 4, 16);
    c.look_at(domain.to_string(), v4, v6);
    c
}

fn plan(config: &DnsServerConfig, datagram: &[u8]) -> QueryPlan {
    let request = decode_packet(datagram).unwrap();
    plan_query(config, &request)
}

#[test]
fn override_answer_scenario() {
    let config = config_with("example.com", vec![[93, 184, 216, 34]], vec![]);
    let data = query_datagram(7, "example.com", QueryType::A);
    let QueryPlan::Reply(mut reply) = plan(&config, &data) else { panic!("expected a reply") };
    assert_eq!(reply.header.rescode, ResultCode::NoError);
    assert_eq!(reply.header.id, 7);
    assert_eq!(
        reply.answers,
        vec![DnsRecord::A { address: [93, 184, 216, 34], domain: "example.com".into(), ttl: 3600 }]
    );
    assert_eq!(
        reply.authorities,
        vec![DnsRecord::NS { domain: "example.com".into(), host: "ns1.example.com".into(), ttl: 3600 }]
    );
    assert_eq!(
        reply.resources,
        vec![DnsRecord::MX { priority: 10, domain: "example.com".into(), host: "mail.example.com".into(), ttl: 3600 }]
    );
    let bytes = encode_packet(&mut reply).unwrap();
    let back = decode_packet(&bytes).unwrap();
    assert_eq!(back.answers, reply.answers);
}

#[test]
fn block_entry_scenario() {
    let config = config_with("example.com", vec![[0, 0, 0, 0]], vec![[0; 8]]);
    let data = query_datagram(9, "example.com", QueryType::A);
    let QueryPlan::Reply(reply) = plan(&config, &data) else { panic!("expected a reply") };
    assert_eq!(reply.header.rescode, ResultCode::Refused);
    assert_eq!(reply.header.id, 9);
    assert!(reply.answers.is_empty());
    assert!(reply.authorities.is_empty());
    assert!(reply.resources.is_empty());
}

#[test]
fn override_matches_subdomains_only_of_its_name() {
    let com = config_with("example.com", vec![[1, 2, 3, 4]], vec![]);
    let org = config_with("example.org", vec![[1, 2, 3, 4]], vec![]);
    let data = query_datagram(1, "mail.example.com", QueryType::A);
    assert!(matches!(plan(&com, &data), QueryPlan::Reply(_)));
    assert!(matches!(plan(&org, &data), QueryPlan::Resolve { .. }));
    let other = query_datagram(1, "notexample.com", QueryType::A);
    assert!(matches!(plan(&com, &other), QueryPlan::Resolve { .. }));
}

#[test]
fn override_names_are_compared_lowercase_without_trailing_dot() {
    let config = config_with("Example.COM.", vec![[1, 2, 3, 4]], vec![]);
    let data = query_datagram(1, "WWW.example.com", QueryType::A);
    assert!(matches!(plan(&config, &data), QueryPlan::Reply(_)));
}

#[test]
fn block_applies_to_every_matching_query() {
    let config = config_with("ads.example", vec![[0, 0, 0, 0]], vec![]);
    for name in ["ads.example", "x.ads.example", "a.b.ads.example"] {
        let data = query_datagram(3, name, QueryType::AAAA);
        let QueryPlan::Reply(reply) = plan(&config, &data) else { panic!("expected a reply") };
        assert_eq!(reply.header.rescode, ResultCode::Refused);
    }
}

#[test]
fn handle_look_at_without_match_leaves_response() {
    let config = config_with("example.com", vec![[1, 2, 3, 4]], vec![]);
    let mut response = DnsPacket::new();
    response.header.id = 5;
    let q = DnsQuestion::new(QueryType::A, "example.net".into());
    assert!(handle_look_at(&config, &q, &mut response).is_none());
    assert_eq!(response.header.rescode, ResultCode::NoError);
}

#[test]
fn build_dns_packet_for_two_names_and_families() {
    let rec = LookAtRecord::new(
        vec!["a.test".into(), "b.test".into()],
        vec![[10, 0, 0, 1]],
        vec![[0xfe80, 0, 0, 0, 0, 0, 0, 1]],
    );
    let p = build_dns_packet(&rec).unwrap();
    assert_eq!(p.header.id, 0x29a);
    assert_eq!(p.header.questions, 4);
    assert_eq!(p.header.answers, 4);
    assert_eq!(p.questions.len(), 4);
    assert_eq!(p.questions[1], DnsQuestion::new(QueryType::AAAA, "a.test".into()));
    assert_eq!(p.answers[2], DnsRecord::A { address: [10, 0, 0, 1], domain: "b.test".into(), ttl: 3600 });
    assert_eq!(p.resources[1], DnsRecord::MX { priority: 10, domain: "b.test".into(), host: "mail.b.test".into(), ttl: 3600 });
}

#[test]
fn config_bounds_and_entries() {
    let mut c = DnsServerConfig::new(vec![], 0, 0);
    assert_eq!(c.max_workers_count, 1);
    assert_eq!(c.max_messages_count, 1);
    c.look_many(vec![], vec![[1, 1, 1, 1]], vec![]);
    assert!(c.look_at.is_empty());
    c.look_many(vec!["x".into(), "y".into()], vec![], vec![]);
    assert_eq!(c.look_at.len(), 1);
}

#[test]
fn unreachable_upstream_gives_server_fail() {
    let config = config_with("example.com", vec![[1, 2, 3, 4]], vec![]);
    let data = query_datagram(11, "other.net", QueryType::A);
    let QueryPlan::Resolve { response, question } = plan(&config, &data) else { panic!("expected to resolve") };
    let (mut resolver, step) = Resolver::start(config.nameservers.clone(), question.name.clone(), question.qtype);
    let ResolveStep::Query { server, .. } = step else { panic!("expected a query") };
    assert_eq!(server, [8, 8, 8, 8]);
    let ResolveStep::Done(outcome) = resolver.on_response(Err(BytePacketError::Custom("timed out".into()))) else {
        panic!("expected the end")
    };
    let reply = complete_response(response, &question, outcome);
    assert_eq!(reply.header.rescode, ResultCode::ServerFail);
    assert_eq!(reply.header.id, 11);
    assert!(reply.answers.is_empty());
}

#[test]
fn no_questions_gives_form_error() {
    let data = [0x12u8, 0x34, 0x01, 0x00, 0, 0, 0, 0, 0, 0, 0, 0];
    let config = DnsServerConfig::new(vec![], 1, 1);
    let QueryPlan::Reply(reply) = plan(&config, &data) else { panic!("expected a reply") };
    assert_eq!(reply.header.rescode, ResultCode::FormError);
    assert_eq!(reply.header.id, 0x1234);
    assert!(reply.header.response);
}

#[test]
fn resolver_without_servers_fails() {
    let (_, step) = Resolver::start(vec![], "x.test".into(), QueryType::A);
    assert!(matches!(step, ResolveStep::Done(Err(BytePacketError::LookupFailed))));
}

fn answer(rescode: ResultCode) -> DnsPacket {
    let mut p = DnsPacket::new();
    p.header.rescode = rescode;
    p
}

#[test]
fn resolver_follows_delegations() {
    let (mut r, step) = Resolver::start(vec![[9, 9, 9, 9], [8, 8, 8, 8]], "www.example.com".into(), QueryType::A);
    assert!(matches!(step, ResolveStep::Query { server: [8, 8, 8, 8], .. }));
    // A referral with glue: ask the named server next.
    let mut referral = answer(ResultCode::NoError);
    referral.authorities.push(DnsRecord::NS { domain: "example.com".into(), host: "ns.example.com".into(), ttl: 1 });
    referral.resources.push(DnsRecord::A { address: [5, 5, 5, 5], domain: "ns.example.com".into(), ttl: 1 });
    let step = r.on_response(Ok(referral));
    assert!(matches!(step, ResolveStep::Query { server: [5, 5, 5, 5], qtype: QueryType::A, .. }));
    // A referral without glue: look the server up at the fallback servers.
    let mut bare = answer(ResultCode::NoError);
    bare.authorities.push(DnsRecord::NS { domain: "example.com".into(), host: "ns2.example.com".into(), ttl: 1 });
    let step = r.on_response(Ok(bare));
    let ResolveStep::Query { server, qname, qtype } = step else { panic!("expected a query") };
    assert_eq!((server, qname.as_str(), qtype), ([1, 0, 0, 1], "ns2.example.com", QueryType::A));
    // Its address comes back: the outer lookup asks it.
    let mut glue = answer(ResultCode::NoError);
    glue.answers.push(DnsRecord::A { address: [6, 6, 6, 6], domain: "ns2.example.com".into(), ttl: 1 });
    let step = r.on_response(Ok(glue));
    let ResolveStep::Query { server, qname, .. } = step else { panic!("expected a query") };
    assert_eq!((server, qname.as_str()), ([6, 6, 6, 6], "www.example.com"));
    // The final answer ends the resolution.
    let mut fin = answer(ResultCode::NxDomain);
    fin.header.id = 77;
    let ResolveStep::Done(Ok(done)) = r.on_response(Ok(fin)) else { panic!("expected the end") };
    assert_eq!(done.header.id, 77);
    assert!(r.frames.is_empty());
}

#[test]
fn resolved_outcome_is_merged() {
    let mut response = DnsPacket::new();
    response.header.id = 3;
    let q = DnsQuestion::new(QueryType::A, "example.com".into());
    let mut result = answer(ResultCode::NoError);
    result.answers.push(DnsRecord::A { address: [1, 1, 1, 1], domain: "example.com".into(), ttl: 5 });
    let reply = complete_response(response, &q, Ok(result));
    assert_eq!(reply.questions, vec![q]);
    assert_eq!(reply.answers.len(), 1);
    assert_eq!(reply.header.id, 3);
}

#[test]
fn pool_never_runs_more_than_its_workers() {
    let mut pool = WorkerPool::new(2, 3);
    assert!(pool.offer());
    assert!(pool.offer());
    assert!(pool.offer());
    assert!(!pool.offer());
    assert_eq!(pool.queued, 3);
    assert_eq!(pool.dispatch(), Dispatch::Spawn(0));
    assert_eq!(pool.dispatch(), Dispatch::Spawn(1));
    assert_eq!(pool.dispatch(), Dispatch::Wait);
    assert_eq!(pool.workers.iter().filter(|w| **w).count(), 2);
    pool.finished(1);
    assert_eq!(pool.dispatch(), Dispatch::Reuse(1));
    assert_eq!(pool.dispatch(), Dispatch::Idle);
    pool.finished(0);
    assert_eq!(pool.reap(), vec![1]);
    assert_eq!(pool.workers, vec![true]);
}

#[test]
fn names_fall_under_their_parents_only() {
    let under = |a: &str, b: &str| dns_core::name_under(&a.to_string(), &b.to_string());
    assert!(under("example.com", "example.com"));
    assert!(under("mail.example.com", "example.com"));
    assert!(!under("mail.example.com", "example.org"));
    assert!(!under("badexample.com", "example.com"));
    assert!(!under("com", "example.com"));
}

fn timeout() -> Result<DnsPacket, BytePacketError> {
    Err(BytePacketError::Custom("timed out".into()))
}

#[test]
fn failed_server_gives_way_to_the_next() {
    let (mut r, step) = Resolver::start(vec![[3, 3, 3, 3], [2, 2, 2, 2], [1, 1, 1, 1]], "x.test".into(), QueryType::A);
    assert!(matches!(step, ResolveStep::Query { server: [1, 1, 1, 1], .. }));
    let ResolveStep::Query { server, qname, qtype } = r.on_response(timeout()) else { panic!("expected a query") };
    assert_eq!((server, qname.as_str(), qtype), ([2, 2, 2, 2], "x.test", QueryType::A));
    assert!(matches!(r.on_response(timeout()), ResolveStep::Query { server: [3, 3, 3, 3], .. }));
    assert!(matches!(r.on_response(timeout()), ResolveStep::Done(Err(BytePacketError::LookupFailed))));
    assert!(r.frames.is_empty());
}

#[test]
fn name_server_lookup_tries_every_fallback_then_keeps_the_referral() {
    let (mut r, _) = Resolver::start(vec![[8, 8, 8, 8]], "www.example.com".into(), QueryType::A);
    let mut bare = answer(ResultCode::NoError);
    bare.header.id = 55;
    bare.authorities.push(DnsRecord::NS { domain: "example.com".into(), host: "ns.example.com".into(), ttl: 1 });
    assert!(matches!(r.on_response(Ok(bare)), ResolveStep::Query { server: [1, 0, 0, 1], .. }));
    assert!(matches!(r.on_response(timeout()), ResolveStep::Query { server: [1, 1, 1, 1], .. }));
    assert!(matches!(r.on_response(timeout()), ResolveStep::Query { server: [198, 41, 0, 4], .. }));
    let ResolveStep::Done(Ok(best)) = r.on_response(timeout()) else { panic!("expected the referral back") };
    assert_eq!(best.header.id, 55);
}

#[test]
fn delegation_cycle_ends_in_lookup_failed() {
    let (mut r, _) = Resolver::start(vec![[8, 8, 8, 8]], "www.example.com".into(), QueryType::A);
    let referral = |to: [u8; 4]| {
        let mut p = answer(ResultCode::NoError);
        p.authorities.push(DnsRecord::NS { domain: "example.com".into(), host: "ns.example.com".into(), ttl: 1 });
        p.resources.push(DnsRecord::A { address: to, domain: "ns.example.com".into(), ttl: 1 });
        p
    };
    let mut queries = 1;
    let mut to = [5, 5, 5, 5];
    loop {
        match r.on_response(Ok(referral(to))) {
            ResolveStep::Query { .. } => queries += 1,
            ResolveStep::Done(outcome) => {
                assert!(matches!(outcome, Err(BytePacketError::LookupFailed)));
                break;
            },
        }
        to = if to == [5, 5, 5, 5] { [6, 6, 6, 6] } else { [5, 5, 5, 5] };
        assert!(queries <= 24);
    }
    assert_eq!(queries, 24);
}
