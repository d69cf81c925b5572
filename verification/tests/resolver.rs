use dns::dns::{DnsPacket, DnsQuestion, DnsRecord, Ipv4Addr, QueryType, ResultCode};
use dns::packet::{PacketReader, PacketWriter};
use dns::resolver::{ResolveStep, after_ns_resolution, assemble_reply, build_query, resolve_step, root_ns};

fn a_record(domain: &str, a: u8, b: u8, c: u8, d: u8) -> DnsRecord {
    DnsRecord::A { domain: String::from(domain), addr: Ipv4Addr::new(a, b, c, d), ttl: 60 }
}

fn ns_record(domain: &str, host: &str) -> DnsRecord {
    DnsRecord::NS { domain: String::from(domain), host: String::from(host), ttl: 60 }
}

fn response() -> DnsPacket {
    let mut p = DnsPacket::new();
    p.header.qr = true;
    p
}

#[test]
fn cname_is_followed_at_the_same_server() {
    let mut resp = response();
    resp.header.rcode = ResultCode::NOERROR;
    resp.answers.push(DnsRecord::CNAME {
        domain: String::from("a"),
        host: String::from("b"),
        ttl: 60,
    });
    let ns = Ipv4Addr::new(9, 9, 9, 9);
    match resolve_step("a", ns, resp) {
        ResolveStep::Query { name, ns: next } => {
            assert_eq!("b", name);
            assert_eq!(ns, next);
        },
        _ => panic!("expected a follow-up query"),
    }
}

#[test]
fn an_address_answer_ends_the_walk() {
    let mut resp = response();
    resp.answers.push(a_record("a", 1, 2, 3, 4));
    match resolve_step("a", root_ns(), resp) {
        ResolveStep::Answer(p) => {
            assert_eq!(Some(Ipv4Addr::new(1, 2, 3, 4)), p.get_first_a());
        },
        _ => panic!("expected the walk to end"),
    }
}

#[test]
fn glue_fast_path_picks_the_glue_address() {
    let mut resp = response();
    resp.authorities.push(ns_record("x", "a.x"));
    resp.resources.push(a_record("a.x", 10, 0, 0, 1));
    match resolve_step("foo.x", root_ns(), resp) {
        ResolveStep::Query { name, ns } => {
            assert_eq!("foo.x", name);
            assert_eq!(Ipv4Addr::new(10, 0, 0, 1), ns);
        },
        _ => panic!("expected the glue address to be asked next"),
    }
}

#[test]
fn glueless_slow_path_resolves_the_name_server() {
    let mut resp = response();
    resp.authorities.push(ns_record("x", "a.x"));
    let referral = match resolve_step("foo.x", root_ns(), resp) {
        ResolveStep::ResolveNs { host, response } => {
            assert_eq!("a.x", host);
            response
        },
        _ => panic!("expected a detour for the name server host"),
    };

    // The detour's first address becomes the next server.
    let mut sub = response();
    sub.answers.push(a_record("a.x", 10, 0, 0, 2));
    match after_ns_resolution("foo.x", referral, &sub) {
        ResolveStep::Query { name, ns } => {
            assert_eq!("foo.x", name);
            assert_eq!(Ipv4Addr::new(10, 0, 0, 2), ns);
        },
        _ => panic!("expected the detour's address to be asked next"),
    }
}

#[test]
fn non_suffix_ns_is_never_selected() {
    let mut resp = response();
    resp.authorities.push(ns_record("y", "b.y"));
    resp.resources.push(a_record("b.y", 10, 0, 0, 3));
    assert_eq!(None, resp.get_resolved_ns("foo.x"));
    assert_eq!(None, resp.get_unresolved_ns("foo.x"));
    match resolve_step("foo.x", root_ns(), resp) {
        ResolveStep::Answer(_) => {},
        _ => panic!("a server for another zone must not be selected"),
    }
}

#[test]
fn suffix_match_selects_the_matching_server() {
    let mut resp = response();
    resp.authorities.push(ns_record("y", "b.y"));
    resp.authorities.push(ns_record("x", "a.x"));
    assert_eq!(Some(String::from("a.x")), resp.get_unresolved_ns("foo.x"));
}

#[test]
fn nxdomain_ends_the_walk_at_once() {
    let mut resp = response();
    resp.header.rcode = ResultCode::NXDOMAIN;
    // Even a referral in the same response is ignored.
    resp.authorities.push(ns_record("x", "a.x"));
    resp.resources.push(a_record("a.x", 10, 0, 0, 1));
    match resolve_step("foo.x", root_ns(), resp) {
        ResolveStep::Answer(p) => {
            assert_eq!(ResultCode::NXDOMAIN, p.header.rcode);
        },
        _ => panic!("a name-not-found response must end the walk"),
    }
}

#[test]
fn query_is_built_as_the_walk_sends_it() {
    let q = build_query("google.com", QueryType::A);
    assert_eq!(6666, q.header.id);
    assert_eq!(1, q.header.qd_count);
    assert!(q.header.rd);
    assert!(!q.header.qr);
    assert_eq!(1, q.questions.len());
    assert_eq!("google.com", q.questions[0].name);
    assert_eq!(QueryType::A, q.questions[0].qtype);
    assert_eq!(1, q.questions[0].qclass);
    assert_eq!(0, q.answers.len());
}

#[test]
fn reply_without_question_is_a_format_error() {
    let reply = assemble_reply(0x72AB, None, None);
    assert_eq!(0x72AB, reply.header.id);
    assert!(reply.header.qr && reply.header.ra && reply.header.rd);
    assert_eq!(ResultCode::FORMERR, reply.header.rcode);
    assert_eq!(0, reply.questions.len());
    assert_eq!(0, reply.answers.len());
    assert_eq!(0, reply.authorities.len());
    assert_eq!(0, reply.resources.len());
    // Its wire form announces no records at all.
    let mut reply = reply;
    let mut pw = PacketWriter::new(Vec::new());
    let n = reply.write(&mut pw).unwrap();
    assert_eq!(12, n);
    let bytes = pw.into_bytes();
    assert_eq!(&bytes[4..12], &[0, 0, 0, 0, 0, 0, 0, 0]);
}

#[test]
fn failed_resolution_becomes_a_server_failure() {
    let mut q = DnsQuestion::new();
    q.name = String::from("example.com");
    q.qtype = QueryType::A;
    q.qclass = 1;
    let reply = assemble_reply(7, Some(q), None);
    assert_eq!(ResultCode::SERVFAIL, reply.header.rcode);
    assert_eq!(0, reply.answers.len());
}

#[test]
fn resolved_outcome_is_copied_into_the_reply() {
    let mut q = DnsQuestion::new();
    q.name = String::from("example.com");
    q.qtype = QueryType::A;
    q.qclass = 1;
    let mut outcome = response();
    outcome.header.rcode = ResultCode::NOERROR;
    outcome.answers.push(a_record("example.com", 93, 184, 216, 34));
    outcome.authorities.push(ns_record("example.com", "ns.example.com"));
    outcome.resources.push(a_record("ns.example.com", 10, 0, 0, 53));
    let reply = assemble_reply(7, Some(q.clone()), Some(outcome));
    assert_eq!(7, reply.header.id);
    assert_eq!(ResultCode::NOERROR, reply.header.rcode);
    assert_eq!(vec![q], reply.questions);
    assert_eq!(1, reply.answers.len());
    assert_eq!(1, reply.authorities.len());
    assert_eq!(1, reply.resources.len());
}

#[test]
fn walk_over_crafted_referrals_reaches_the_answer() {
    // A referral with glue, then the answer, driven through the decision
    // function the way a caller drives it over the network.
    let qname = "host.example.com";

    let mut referral = response();
    referral.authorities.push(ns_record("example.com", "ns.example.com"));
    referral.resources.push(a_record("ns.example.com", 10, 0, 0, 53));

    let ns = match resolve_step(qname, root_ns(), referral) {
        ResolveStep::Query { name, ns } => {
            assert_eq!(qname, name);
            ns
        },
        _ => panic!("expected a referral"),
    };
    assert_eq!(Ipv4Addr::new(10, 0, 0, 53), ns);

    let mut answer = response();
    answer.answers.push(a_record(qname, 93, 184, 216, 34));
    match resolve_step(qname, ns, answer) {
        ResolveStep::Answer(p) => {
            assert!(p.have_a());
            assert_eq!(Some(Ipv4Addr::new(93, 184, 216, 34)), p.get_first_a());
        },
        _ => panic!("expected the final answer"),
    }
}

#[test]
fn query_serializes_and_parses_back() {
    let mut q = build_query("baidu.com", QueryType::A);
    let mut pw = PacketWriter::new(vec![0; 64]);
    let n = q.write(&mut pw).unwrap();
    assert_eq!(12 + 11 + 4, n);
    let mut pr = PacketReader::new(pw.into_bytes());
    let back = DnsPacket::from_buffer(&mut pr).unwrap();
    assert_eq!(6666, back.header.id);
    assert_eq!(1, back.header.qd_count);
    assert_eq!("baidu.com", back.questions[0].name);
    assert_eq!(QueryType::A, back.questions[0].qtype);
}

#[test]
fn unresolved_ns_skips_hosts_with_glue() {
    let mut resp = response();
    resp.authorities.push(ns_record("x", "a.x"));
    resp.authorities.push(ns_record("x", "b.x"));
    resp.resources.push(a_record("a.x", 10, 0, 0, 1));
    // The first matched host has glue; the first glueless one is b.x.
    assert_eq!(Some(String::from("b.x")), resp.get_unresolved_ns("foo.x"));
    // Once every matched host has glue there is nothing left to resolve.
    resp.resources.push(a_record("b.x", 10, 0, 0, 2));
    assert_eq!(None, resp.get_unresolved_ns("foo.x"));
}

#[test]
fn resolved_ns_takes_the_first_glue_of_the_additional_section() {
    let mut resp = response();
    resp.authorities.push(ns_record("x", "a.x"));
    resp.authorities.push(ns_record("x", "b.x"));
    // Both matched hosts have glue; the additional section lists b.x
    // first, so its address wins.
    resp.resources.push(a_record("b.x", 10, 0, 0, 2));
    resp.resources.push(a_record("a.x", 10, 0, 0, 1));
    assert_eq!(Some(Ipv4Addr::new(10, 0, 0, 2)), resp.get_resolved_ns("foo.x"));
}
