//! The decision core of the iterative resolver.
//!
//! The walk itself talks to the network, which this crate does not do:
//! a caller sends the query that `build_query` produced, parses the
//! response datagram, and hands the packet to `resolve_step`, which
//! decides whether the walk is over, which server to ask next, or
//! whether a name server's own address must be resolved first
//! (`after_ns_resolution` resumes from that detour). `assemble_reply`
//! builds the packet sent back to the client.

use vstd::prelude::*;

use crate::dns::{
    DnsHeader, DnsPacket, DnsQuestion, Ipv4Addr, QueryType, ResultCode, default_header,
    questions_view,
};
use crate::wire::{
    SpecPacket, SpecQuestion, first_a, first_cname, has_a, resolved_ns, unresolved_ns,
};

verus! {

/// What an iteration of the walk does next.
pub enum ResolveStep {
    /// The walk is over: hand this packet back.
    Answer(DnsPacket),
    /// Ask the name server at `ns` about `name`.
    Query { name: String, ns: Ipv4Addr },
    /// No glue was found: resolve this name server host first, then
    /// resume with `after_ns_resolution`, handing `response` back in.
    ResolveNs { host: String, response: DnsPacket },
}

/// A step as mathematics.
pub enum SpecStep {
    Answer(SpecPacket),
    Query { name: Seq<char>, ns: Ipv4Addr },
    ResolveNs { host: Seq<char>, response: SpecPacket },
}

impl View for ResolveStep {
    type V = SpecStep;

    open spec fn view(&self) -> SpecStep {
        match self {
            ResolveStep::Answer(p) => SpecStep::Answer(p@),
            ResolveStep::Query { name, ns } => SpecStep::Query { name: name@, ns: *ns },
            ResolveStep::ResolveNs { host, response } => SpecStep::ResolveNs {
                host: host@,
                response: response@,
            },
        }
    }
}

/// The decision taken once no answer ends the walk: a name-not-found
/// response is final; otherwise the first glue address of a matching
/// name server is asked next; otherwise the first matching name server
/// without glue is resolved first; with none of those the response is
/// surfaced as it is.
pub open spec fn spec_resolve_tail(name: Seq<char>, resp: SpecPacket) -> SpecStep {
    if resp.header.rcode == ResultCode::NXDOMAIN {
        SpecStep::Answer(resp)
    } else {
        match resolved_ns(resp.authorities, resp.resources, name) {
            Some(ip) => SpecStep::Query { name, ns: ip },
            None => match unresolved_ns(resp.authorities, resp.resources, name) {
                Some(h) => SpecStep::ResolveNs { host: h, response: resp },
                None => SpecStep::Answer(resp),
            },
        }
    }
}

/// The decision taken on an upstream response: on a clean response with
/// answers, the first canonical name is followed at the same server,
/// else an address answer ends the walk; everything else falls to
/// `spec_resolve_tail`.
pub open spec fn spec_resolve_step(name: Seq<char>, ns: Ipv4Addr, resp: SpecPacket) -> SpecStep {
    if resp.answers.len() > 0 && resp.header.rcode == ResultCode::NOERROR {
        match first_cname(resp.answers) {
            Some(c) => SpecStep::Query { name: c, ns },
            None => if has_a(resp.answers) {
                SpecStep::Answer(resp)
            } else {
                spec_resolve_tail(name, resp)
            },
        }
    } else {
        spec_resolve_tail(name, resp)
    }
}

/// The decision taken after a name server's host was itself resolved:
/// its first address is asked next, and without one the walk surfaces
/// the response it already had.
pub open spec fn spec_after_ns(name: Seq<char>, resp: SpecPacket, sub: SpecPacket) -> SpecStep {
    match first_a(sub.answers) {
        Some(ip) => SpecStep::Query { name, ns: ip },
        None => SpecStep::Answer(resp),
    }
}

/// Decide what the walk does with the response `response` received for
/// `name` from the server at `ns`.
pub fn resolve_step(name: &str, ns: Ipv4Addr, response: DnsPacket) -> (r: ResolveStep)
    ensures
        r@ == spec_resolve_step(name@, ns, response@),
{
    if response.answers.len() > 0 && response.header.rcode == ResultCode::NOERROR {
        if let Some(cname) = response.get_first_cname() {
            return ResolveStep::Query { name: cname, ns };
        }
        if response.have_a() {
            return ResolveStep::Answer(response);
        }
    }

    if response.header.rcode == ResultCode::NXDOMAIN {
        return ResolveStep::Answer(response);
    }

    if let Some(ip) = response.get_resolved_ns(name) {
        return ResolveStep::Query { name: name.to_owned(), ns: ip };
    }

    match response.get_unresolved_ns(name) {
        Some(host) => ResolveStep::ResolveNs { host, response },
        None => ResolveStep::Answer(response),
    }
}

/// Resume the walk for `name` after the detour that resolved a name
/// server host: `sub` is the detour's result, `response` the referral
/// that caused it.
pub fn after_ns_resolution(name: &str, response: DnsPacket, sub: &DnsPacket) -> (r: ResolveStep)
    ensures
        r@ == spec_after_ns(name@, response@, sub@),
{
    match sub.get_first_a() {
        Some(ip) => ResolveStep::Query { name: name.to_owned(), ns: ip },
        None => ResolveStep::Answer(response),
    }
}

/// The address of a root name server, where every walk starts.
pub fn root_ns() -> (r: Ipv4Addr)
    ensures
        r == (Ipv4Addr { bits: 0xC6290004 }),
{
    Ipv4Addr::new(198, 41, 0, 4)
}

/// The packet asking `qname` for records of type `qtype`: a fixed
/// identifier, recursion desired, and one question of class one.
pub fn build_query(qname: &str, qtype: QueryType) -> (r: DnsPacket)
    ensures
        r.header == (DnsHeader { id: 6666, qd_count: 1, rd: true, ..default_header() }),
        r@.questions == seq![SpecQuestion { name: qname@, qtype, qclass: 1 }],
        r@.answers.len() == 0,
        r@.authorities.len() == 0,
        r@.resources.len() == 0,
{
    let mut packet = DnsPacket::new();

    let mut question = DnsQuestion::new();
    question.name = qname.to_owned();
    question.qtype = qtype;
    question.qclass = 1;

    packet.header.id = 6666;
    packet.header.qd_count = 1;
    packet.header.rd = true;
    let ghost before = packet.questions@;
    packet.questions.push(question);
    proof {
        assert(questions_view(before.push(question)) =~= seq![
            SpecQuestion { name: qname@, qtype, qclass: 1 },
        ]);
    }
    packet
}

/// Build the reply to a client. `question` is the request's first
/// question, if it had one; `outcome` what the resolver returned for
/// it, or nothing where resolution failed. A request without a question
/// is answered with a format error, a failed resolution with a server
/// failure, and a resolved one echoes the question and carries the
/// resolver's code and record sections.
pub fn assemble_reply(request_id: u16, question: Option<DnsQuestion>, outcome: Option<
    DnsPacket,
>) -> (r: DnsPacket)
    ensures
        r.header.id == request_id,
        r.header.rd && r.header.ra && r.header.qr,
        !r.header.aa && !r.header.tc && !r.header.z && !r.header.ad && !r.header.cd,
        r.header.opcode == 0,
        match question {
            None => r.header.rcode == ResultCode::FORMERR && r@.questions.len() == 0
                && r@.answers.len() == 0 && r@.authorities.len() == 0 && r@.resources.len() == 0,
            Some(q) => match outcome {
                None => r.header.rcode == ResultCode::SERVFAIL && r@.questions.len() == 0
                    && r@.answers.len() == 0 && r@.authorities.len() == 0 && r@.resources.len()
                    == 0,
                Some(res) => r.header.rcode == res.header.rcode && r@.questions == seq![q@]
                    && r@.answers == res@.answers && r@.authorities == res@.authorities
                    && r@.resources == res@.resources,
            },
        },
{
    let mut packet = DnsPacket::new();
    packet.header.id = request_id;
    packet.header.rd = true;
    packet.header.ra = true;
    packet.header.qr = true;

    match question {
        Some(q) => {
            match outcome {
                Some(res) => {
                    let ghost before = packet.questions@;
                    packet.header.rcode = res.header.rcode;
                    packet.questions.push(q);
                    proof {
                        assert(questions_view(before.push(q)) =~= seq![q@]);
                    }
                    packet.answers = res.answers;
                    packet.authorities = res.authorities;
                    packet.resources = res.resources;
                },
                None => {
                    packet.header.rcode = ResultCode::SERVFAIL;
                },
            }
        },
        None => {
            packet.header.rcode = ResultCode::FORMERR;
        },
    }

    packet
}

/// Law: a clean response with answers whose first canonical name is `c`
/// makes the walk ask about `c` next, at the same server.
pub proof fn lemma_step_follows_cname(name: Seq<char>, ns: Ipv4Addr, resp: SpecPacket, c: Seq<
    char,
>)
    requires
        resp.answers.len() > 0,
        resp.header.rcode == ResultCode::NOERROR,
        first_cname(resp.answers) == Some(c),
    ensures
        spec_resolve_step(name, ns, resp) == (SpecStep::Query { name: c, ns }),
{
}

/// Law: a referral that carries glue for a matching name server makes
/// the walk ask the glue address next, for the same name.
pub proof fn lemma_step_uses_glue(name: Seq<char>, ns: Ipv4Addr, resp: SpecPacket, ip: Ipv4Addr)
    requires
        !(resp.answers.len() > 0 && resp.header.rcode == ResultCode::NOERROR),
        resp.header.rcode != ResultCode::NXDOMAIN,
        resolved_ns(resp.authorities, resp.resources, name) == Some(ip),
    ensures
        spec_resolve_step(name, ns, resp) == (SpecStep::Query { name, ns: ip }),
{
}

/// Law: a referral whose matching name servers all lack glue makes the
/// walk resolve the first such host before going on.
pub proof fn lemma_step_resolves_ns(name: Seq<char>, ns: Ipv4Addr, resp: SpecPacket, h: Seq<char>)
    requires
        !(resp.answers.len() > 0 && resp.header.rcode == ResultCode::NOERROR),
        resp.header.rcode != ResultCode::NXDOMAIN,
        resolved_ns(resp.authorities, resp.resources, name) is None,
        unresolved_ns(resp.authorities, resp.resources, name) == Some(h),
    ensures
        spec_resolve_step(name, ns, resp) == (SpecStep::ResolveNs { host: h, response: resp }),
{
}

/// Law: the detour's first address becomes the next server asked, for
/// the unchanged name.
pub proof fn lemma_after_ns_uses_first_a(name: Seq<char>, resp: SpecPacket, sub: SpecPacket, ip:
    Ipv4Addr)
    requires
        first_a(sub.answers) == Some(ip),
    ensures
        spec_after_ns(name, resp, sub) == (SpecStep::Query { name, ns: ip }),
{
}

/// Law: a name-not-found response ends the walk at once, whatever else
/// it carries.
pub proof fn lemma_step_stops_on_nxdomain(name: Seq<char>, ns: Ipv4Addr, resp: SpecPacket)
    requires
        resp.header.rcode == ResultCode::NXDOMAIN,
    ensures
        spec_resolve_step(name, ns, resp) == SpecStep::Answer(resp),
{
}

} // verus!
