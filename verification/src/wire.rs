//! The byte-level meaning of DNS messages.
//!
//! For each part of a message there is a pair of specification
//! functions: one gives the bytes its serializer emits, the other the
//! value its parser yields at a position of a buffer. The executable
//! code in `dns` carries contracts phrased over these functions, and
//! the lemmas here state the laws that tie the two directions together.

use vstd::prelude::*;

use crate::dns::{DnsHeader, Ipv4Addr, Ipv6Addr, QueryType, ResultCode};
use crate::name::{NameRead, encode_name, join_labels, name_read};
use crate::packet::{be16_bytes, be16_of, be32_bytes, be32_of};
use vstd::utf8::encode_utf8;

verus! {

/// The numeric value of a result code.
pub open spec fn rc_num(rc: ResultCode) -> u8 {
    match rc {
        ResultCode::NOERROR => 0,
        ResultCode::FORMERR => 1,
        ResultCode::SERVFAIL => 2,
        ResultCode::NXDOMAIN => 3,
        ResultCode::NOTIMP => 4,
        ResultCode::REFUSED => 5,
    }
}

/// The result code a numeric value stands for; values without one fall
/// back to `NOERROR`.
pub open spec fn rc_of_num(num: u8) -> ResultCode {
    match num {
        1 => ResultCode::FORMERR,
        2 => ResultCode::SERVFAIL,
        3 => ResultCode::NXDOMAIN,
        4 => ResultCode::NOTIMP,
        5 => ResultCode::REFUSED,
        _ => ResultCode::NOERROR,
    }
}

/// The numeric value of a query type.
pub open spec fn qt_num(qt: QueryType) -> u16 {
    match qt {
        QueryType::UNKNOWN(x) => x,
        QueryType::A => 1,
        QueryType::NS => 2,
        QueryType::CNAME => 5,
        QueryType::SOA => 6,
        QueryType::MX => 15,
        QueryType::AAAA => 28,
    }
}

/// The query type a numeric value stands for; values without a named
/// type keep their number.
pub open spec fn qt_of_num(num: u16) -> QueryType {
    match num {
        1 => QueryType::A,
        2 => QueryType::NS,
        5 => QueryType::CNAME,
        6 => QueryType::SOA,
        15 => QueryType::MX,
        28 => QueryType::AAAA,
        _ => QueryType::UNKNOWN(num),
    }
}

/// Law: every numeric query type comes back out of the type it maps to.
pub proof fn lemma_query_type_round_trip(x: u16)
    ensures
        qt_num(qt_of_num(x)) == x,
{
}

/// The high flags octet: recursion desired in bit 0, truncation in bit
/// 1, authoritative answer in bit 2, the opcode in bits 3 to 6, and the
/// query/response flag in bit 7.
pub open spec fn flags_a(h: DnsHeader) -> u8 {
    let rd: u8 = if h.rd {
        1
    } else {
        0
    };
    let tc: u8 = if h.tc {
        1
    } else {
        0
    };
    let aa: u8 = if h.aa {
        1
    } else {
        0
    };
    let qr: u8 = if h.qr {
        1
    } else {
        0
    };
    rd | (tc << 1) | (aa << 2) | (h.opcode << 3) | (qr << 7)
}

/// The low flags octet: the result code in bits 0 to 3, then checking
/// disabled, authenticated data, the reserved bit, and recursion
/// available in bit 7.
pub open spec fn flags_b(h: DnsHeader) -> u8 {
    let cd: u8 = if h.cd {
        1
    } else {
        0
    };
    let ad: u8 = if h.ad {
        1
    } else {
        0
    };
    let z: u8 = if h.z {
        1
    } else {
        0
    };
    let ra: u8 = if h.ra {
        1
    } else {
        0
    };
    rc_num(h.rcode) | (cd << 4) | (ad << 5) | (z << 6) | (ra << 7)
}

/// The twelve octets of a header on the wire.
pub open spec fn header_bytes(h: DnsHeader) -> Seq<u8> {
    be16_bytes(h.id) + seq![flags_a(h), flags_b(h)] + be16_bytes(h.qd_count) + be16_bytes(
        h.an_count,
    ) + be16_bytes(h.ns_count) + be16_bytes(h.ar_count)
}

/// The header encoded at position `pos` of a buffer holding at least
/// twelve octets there.
pub open spec fn header_from_bytes(data: Seq<u8>, pos: int) -> DnsHeader
    recommends
        0 <= pos,
        pos + 12 <= data.len(),
{
    let a = data[pos + 2];
    let b = data[pos + 3];
    DnsHeader {
        id: be16_of(data[pos], data[pos + 1]),
        rd: (a & 1) > 0,
        tc: (a & 2) > 0,
        aa: (a & 4) > 0,
        opcode: (a >> 3) & 0x0F,
        qr: (a & 128) > 0,
        rcode: rc_of_num(b & 0x0F),
        cd: (b & 16) > 0,
        ad: (b & 32) > 0,
        z: (b & 64) > 0,
        ra: (b & 128) > 0,
        qd_count: be16_of(data[pos + 4], data[pos + 5]),
        an_count: be16_of(data[pos + 6], data[pos + 7]),
        ns_count: be16_of(data[pos + 8], data[pos + 9]),
        ar_count: be16_of(data[pos + 10], data[pos + 11]),
    }
}

/// Law: a header whose opcode fits its four bits reads back from its
/// wire form unchanged.
pub proof fn lemma_header_round_trip(h: DnsHeader)
    requires
        h.opcode < 16,
    ensures
        header_from_bytes(header_bytes(h), 0) == h,
{
    let bs = header_bytes(h);
    assert(bs.len() == 12);
    let a = flags_a(h);
    let b = flags_b(h);
    assert(bs[2] == a && bs[3] == b);
    let rd: u8 = if h.rd { 1 } else { 0 };
    let tc: u8 = if h.tc { 1 } else { 0 };
    let aa: u8 = if h.aa { 1 } else { 0 };
    let qr: u8 = if h.qr { 1 } else { 0 };
    let op = h.opcode;
    assert(((a & 1) > 0) == (rd == 1) && ((a & 2) > 0) == (tc == 1) && ((a & 4) > 0) == (aa == 1)
        && ((a >> 3) & 0x0F) == op && ((a & 128) > 0) == (qr == 1)) by (bit_vector)
        requires
            rd <= 1,
            tc <= 1,
            aa <= 1,
            qr <= 1,
            op < 16,
            a == rd | (tc << 1) | (aa << 2) | (op << 3) | (qr << 7),
    ;
    let cd: u8 = if h.cd { 1 } else { 0 };
    let ad: u8 = if h.ad { 1 } else { 0 };
    let z: u8 = if h.z { 1 } else { 0 };
    let ra: u8 = if h.ra { 1 } else { 0 };
    let rc = rc_num(h.rcode);
    assert((b & 0x0F) == rc && ((b & 16) > 0) == (cd == 1) && ((b & 32) > 0) == (ad == 1) && ((b
        & 64) > 0) == (z == 1) && ((b & 128) > 0) == (ra == 1)) by (bit_vector)
        requires
            rc <= 5,
            cd <= 1,
            ad <= 1,
            z <= 1,
            ra <= 1,
            b == rc | (cd << 4) | (ad << 5) | (z << 6) | (ra << 7),
    ;
    assert(rc_of_num(rc_num(h.rcode)) == h.rcode);
    assert(bs[0] == be16_bytes(h.id)[0] && bs[1] == be16_bytes(h.id)[1]);
    assert(bs[4] == be16_bytes(h.qd_count)[0] && bs[5] == be16_bytes(h.qd_count)[1]);
    assert(bs[6] == be16_bytes(h.an_count)[0] && bs[7] == be16_bytes(h.an_count)[1]);
    assert(bs[8] == be16_bytes(h.ns_count)[0] && bs[9] == be16_bytes(h.ns_count)[1]);
    assert(bs[10] == be16_bytes(h.ar_count)[0] && bs[11] == be16_bytes(h.ar_count)[1]);
}

/// A question as mathematics: its name as characters.
pub struct SpecQuestion {
    pub name: Seq<char>,
    pub qtype: QueryType,
    pub qclass: u16,
}

/// A record as mathematics: names as characters, everything else as
/// the executable model holds it.
pub enum SpecRecord {
    Unknown { domain: Seq<char>, qtype: u16, data_len: u16, ttl: u32 },
    A { domain: Seq<char>, addr: Ipv4Addr, ttl: u32 },
    Aaaa { domain: Seq<char>, addr: Ipv6Addr, ttl: u32 },
    Ns { domain: Seq<char>, host: Seq<char>, ttl: u32 },
    Cname { domain: Seq<char>, host: Seq<char>, ttl: u32 },
    Mx { domain: Seq<char>, priority: u16, host: Seq<char>, ttl: u32 },
    Soa {
        domain: Seq<char>,
        m_name: Seq<char>,
        r_name: Seq<char>,
        serial: u32,
        refresh: u32,
        retry: u32,
        expire: u32,
        minimum: u32,
        ttl: u32,
    },
}

/// A whole message as mathematics.
pub struct SpecPacket {
    pub header: DnsHeader,
    pub questions: Seq<SpecQuestion>,
    pub answers: Seq<SpecRecord>,
    pub authorities: Seq<SpecRecord>,
    pub resources: Seq<SpecRecord>,
}

/// What a parser yields at a position: a value and the position after
/// it, or the failure it runs into.
pub enum Parsed<T> {
    Done { v: T, end: int },
    Trunc,
    Loop,
}

/// The wire form of a name given as characters.
pub open spec fn name_wire(nm: Seq<char>) -> Seq<u8> {
    encode_name(encode_utf8(nm))
}

/// A name whose wire form keeps to the 255 octets the format allows a
/// name.
pub open spec fn name_fits(nm: Seq<char>) -> bool {
    encode_utf8(nm).len() + 2 <= 255
}

/// The question encoded at `pos`: a name, the type, the class.
pub open spec fn parse_question(data: Seq<u8>, pos: int) -> Parsed<SpecQuestion> {
    match name_read(data, pos) {
        NameRead::Done { labels, end } => if end + 4 <= data.len() {
            Parsed::Done {
                v: SpecQuestion {
                    name: join_labels(labels),
                    qtype: qt_of_num(be16_of(data[end], data[end + 1])),
                    qclass: be16_of(data[end + 2], data[end + 3]),
                },
                end: end + 4,
            }
        } else {
            Parsed::Trunc
        },
        NameRead::Trunc => Parsed::Trunc,
        NameRead::Loop => Parsed::Loop,
    }
}

/// The bytes of a question: the name's wire form, then type and class.
pub open spec fn question_bytes(q: SpecQuestion) -> Seq<u8> {
    name_wire(q.name) + be16_bytes(qt_num(q.qtype)) + be16_bytes(q.qclass)
}

/// The record encoded at `pos`: name, type, class (read and dropped),
/// time to live and payload length, then the payload the type asks for;
/// a type without a reading of its own is skipped over by its payload
/// length and kept as an opaque entry.
pub open spec fn parse_record(data: Seq<u8>, pos: int) -> Parsed<SpecRecord> {
    match name_read(data, pos) {
        NameRead::Trunc => Parsed::Trunc,
        NameRead::Loop => Parsed::Loop,
        NameRead::Done { labels, end } => if end + 10 <= data.len() {
            let domain = join_labels(labels);
            let qtype_num = be16_of(data[end], data[end + 1]);
            let ttl = be32_of(data[end + 4], data[end + 5], data[end + 6], data[end + 7]);
            let data_len = be16_of(data[end + 8], data[end + 9]);
            let p = end + 10;
            match qt_of_num(qtype_num) {
                QueryType::A => if p + 4 <= data.len() {
                    Parsed::Done {
                        v: SpecRecord::A {
                            domain,
                            addr: Ipv4Addr {
                                bits: be32_of(data[p], data[p + 1], data[p + 2], data[p + 3]),
                            },
                            ttl,
                        },
                        end: p + 4,
                    }
                } else {
                    Parsed::Trunc
                },
                QueryType::AAAA => if p + 16 <= data.len() {
                    Parsed::Done {
                        v: SpecRecord::Aaaa {
                            domain,
                            addr: Ipv6Addr {
                                w0: be32_of(data[p], data[p + 1], data[p + 2], data[p + 3]),
                                w1: be32_of(data[p + 4], data[p + 5], data[p + 6], data[p + 7]),
                                w2: be32_of(data[p + 8], data[p + 9], data[p + 10], data[p + 11]),
                                w3: be32_of(data[p + 12], data[p + 13], data[p + 14], data[p + 15]),
                            },
                            ttl,
                        },
                        end: p + 16,
                    }
                } else {
                    Parsed::Trunc
                },
                QueryType::NS => match name_read(data, p) {
                    NameRead::Done { labels: hl, end: he } => Parsed::Done {
                        v: SpecRecord::Ns { domain, host: join_labels(hl), ttl },
                        end: he,
                    },
                    NameRead::Trunc => Parsed::Trunc,
                    NameRead::Loop => Parsed::Loop,
                },
                QueryType::CNAME => match name_read(data, p) {
                    NameRead::Done { labels: hl, end: he } => Parsed::Done {
                        v: SpecRecord::Cname { domain, host: join_labels(hl), ttl },
                        end: he,
                    },
                    NameRead::Trunc => Parsed::Trunc,
                    NameRead::Loop => Parsed::Loop,
                },
                QueryType::SOA => match name_read(data, p) {
                    NameRead::Done { labels: ml, end: me } => match name_read(data, me) {
                        NameRead::Done { labels: rl, end: re } => if re + 20 <= data.len() {
                            Parsed::Done {
                                v: SpecRecord::Soa {
                                    domain,
                                    m_name: join_labels(ml),
                                    r_name: join_labels(rl),
                                    serial: be32_of(
                                        data[re],
                                        data[re + 1],
                                        data[re + 2],
                                        data[re + 3],
                                    ),
                                    refresh: be32_of(
                                        data[re + 4],
                                        data[re + 5],
                                        data[re + 6],
                                        data[re + 7],
                                    ),
                                    retry: be32_of(
                                        data[re + 8],
                                        data[re + 9],
                                        data[re + 10],
                                        data[re + 11],
                                    ),
                                    expire: be32_of(
                                        data[re + 12],
                                        data[re + 13],
                                        data[re + 14],
                                        data[re + 15],
                                    ),
                                    minimum: be32_of(
                                        data[re + 16],
                                        data[re + 17],
                                        data[re + 18],
                                        data[re + 19],
                                    ),
                                    ttl,
                                },
                                end: re + 20,
                            }
                        } else {
                            Parsed::Trunc
                        },
                        NameRead::Trunc => Parsed::Trunc,
                        NameRead::Loop => Parsed::Loop,
                    },
                    NameRead::Trunc => Parsed::Trunc,
                    NameRead::Loop => Parsed::Loop,
                },
                QueryType::MX => if p + 2 <= data.len() {
                    match name_read(data, p + 2) {
                        NameRead::Done { labels: hl, end: he } => Parsed::Done {
                            v: SpecRecord::Mx {
                                domain,
                                priority: be16_of(data[p], data[p + 1]),
                                host: join_labels(hl),
                                ttl,
                            },
                            end: he,
                        },
                        NameRead::Trunc => Parsed::Trunc,
                        NameRead::Loop => Parsed::Loop,
                    }
                } else {
                    Parsed::Trunc
                },
                QueryType::UNKNOWN(_) => if p + data_len <= usize::MAX {
                    Parsed::Done {
                        v: SpecRecord::Unknown { domain, qtype: qtype_num, data_len, ttl },
                        end: p + data_len,
                    }
                } else {
                    Parsed::Trunc
                },
            }
        } else {
            Parsed::Trunc
        },
    }
}

/// The payload length octets written for a record whose payload is one
/// name: the name's wire length.
pub open spec fn rdlen_name(host: Seq<char>) -> u16 {
    ((encode_utf8(host).len() + 2) as u16)
}

/// The payload length written for a mail exchange: the host's wire
/// length plus the two priority octets.
pub open spec fn rdlen_mx(host: Seq<char>) -> u16 {
    ((encode_utf8(host).len() + 4) as u16)
}

/// The payload length written for a start of authority: both names'
/// wire lengths and the five 32-bit fields.
pub open spec fn rdlen_soa(m_name: Seq<char>, r_name: Seq<char>) -> u16 {
    ((encode_utf8(m_name).len() + encode_utf8(r_name).len() + 24) as u16)
}

/// The bytes of a record: name, type, class one, time to live, payload
/// length, payload. An opaque record is written as nothing.
pub open spec fn record_bytes(r: SpecRecord) -> Seq<u8> {
    match r {
        SpecRecord::A { domain, addr, ttl } => name_wire(domain) + be16_bytes(1) + be16_bytes(1)
            + be32_bytes(ttl) + be16_bytes(4) + be32_bytes(addr.bits),
        SpecRecord::Aaaa { domain, addr, ttl } => name_wire(domain) + be16_bytes(28) + be16_bytes(1)
            + be32_bytes(ttl) + be16_bytes(16) + be32_bytes(addr.w0) + be32_bytes(addr.w1)
            + be32_bytes(addr.w2) + be32_bytes(addr.w3),
        SpecRecord::Ns { domain, host, ttl } => name_wire(domain) + be16_bytes(2) + be16_bytes(1)
            + be32_bytes(ttl) + be16_bytes(rdlen_name(host)) + name_wire(host),
        SpecRecord::Cname { domain, host, ttl } => name_wire(domain) + be16_bytes(5) + be16_bytes(1)
            + be32_bytes(ttl) + be16_bytes(rdlen_name(host)) + name_wire(host),
        SpecRecord::Mx { domain, priority, host, ttl } => name_wire(domain) + be16_bytes(15)
            + be16_bytes(1) + be32_bytes(ttl) + be16_bytes(rdlen_mx(host)) + be16_bytes(priority)
            + name_wire(host),
        SpecRecord::Soa {
            domain,
            m_name,
            r_name,
            serial,
            refresh,
            retry,
            expire,
            minimum,
            ttl,
        } => name_wire(domain) + be16_bytes(6) + be16_bytes(1) + be32_bytes(ttl) + be16_bytes(
            rdlen_soa(m_name, r_name),
        ) + name_wire(m_name) + name_wire(r_name) + be32_bytes(serial) + be32_bytes(refresh)
            + be32_bytes(retry) + be32_bytes(expire) + be32_bytes(minimum),
        SpecRecord::Unknown { .. } => Seq::empty(),
    }
}

/// `count` questions one after another, starting at `pos`.
pub open spec fn parse_questions(data: Seq<u8>, pos: int, count: int) -> Parsed<Seq<SpecQuestion>>
    decreases count,
{
    if count <= 0 {
        Parsed::Done { v: Seq::empty(), end: pos }
    } else {
        match parse_question(data, pos) {
            Parsed::Done { v, end } => match parse_questions(data, end, count - 1) {
                Parsed::Done { v: rest, end: e2 } => Parsed::Done {
                    v: seq![v] + rest,
                    end: e2,
                },
                other => other,
            },
            Parsed::Trunc => Parsed::Trunc,
            Parsed::Loop => Parsed::Loop,
        }
    }
}

/// `count` records one after another, starting at `pos`.
pub open spec fn parse_records(data: Seq<u8>, pos: int, count: int) -> Parsed<Seq<SpecRecord>>
    decreases count,
{
    if count <= 0 {
        Parsed::Done { v: Seq::empty(), end: pos }
    } else {
        match parse_record(data, pos) {
            Parsed::Done { v, end } => match parse_records(data, end, count - 1) {
                Parsed::Done { v: rest, end: e2 } => Parsed::Done {
                    v: seq![v] + rest,
                    end: e2,
                },
                other => other,
            },
            Parsed::Trunc => Parsed::Trunc,
            Parsed::Loop => Parsed::Loop,
        }
    }
}

/// The packet encoded at `pos`: a header whose counts say how many
/// questions and records of each section follow it.
pub open spec fn parse_packet(data: Seq<u8>, pos: int) -> Parsed<SpecPacket> {
    if pos + 12 <= data.len() {
        let h = header_from_bytes(data, pos);
        match parse_questions(data, pos + 12, h.qd_count as int) {
            Parsed::Done { v: qs, end: p1 } => match parse_records(data, p1, h.an_count as int) {
                Parsed::Done { v: ans, end: p2 } => match parse_records(
                    data,
                    p2,
                    h.ns_count as int,
                ) {
                    Parsed::Done { v: auth, end: p3 } => match parse_records(
                        data,
                        p3,
                        h.ar_count as int,
                    ) {
                        Parsed::Done { v: res, end: p4 } => Parsed::Done {
                            v: SpecPacket {
                                header: h,
                                questions: qs,
                                answers: ans,
                                authorities: auth,
                                resources: res,
                            },
                            end: p4,
                        },
                        other_r => match other_r {
                            Parsed::Trunc => Parsed::Trunc,
                            _ => Parsed::Loop,
                        },
                    },
                    other_r => match other_r {
                        Parsed::Trunc => Parsed::Trunc,
                        _ => Parsed::Loop,
                    },
                },
                other_r => match other_r {
                    Parsed::Trunc => Parsed::Trunc,
                    _ => Parsed::Loop,
                },
            },
            other_q => match other_q {
                Parsed::Trunc => Parsed::Trunc,
                _ => Parsed::Loop,
            },
        }
    } else {
        Parsed::Trunc
    }
}

/// The questions of a packet one after another on the wire.
pub open spec fn cat_questions(qs: Seq<SpecQuestion>) -> Seq<u8>
    decreases qs.len(),
{
    if qs.len() == 0 {
        Seq::empty()
    } else {
        question_bytes(qs[0]) + cat_questions(qs.drop_first())
    }
}

/// The records of a section one after another on the wire.
pub open spec fn cat_records(rs: Seq<SpecRecord>) -> Seq<u8>
    decreases rs.len(),
{
    if rs.len() == 0 {
        Seq::empty()
    } else {
        record_bytes(rs[0]) + cat_records(rs.drop_first())
    }
}

/// One more question at the end extends the wire form at the end.
pub proof fn lemma_cat_questions_snoc(qs: Seq<SpecQuestion>, q: SpecQuestion)
    ensures
        cat_questions(qs.push(q)) == cat_questions(qs) + question_bytes(q),
    decreases qs.len(),
{
    let w = qs.push(q);
    assert(w.len() == qs.len() + 1);
    assert(w[0] == if qs.len() == 0 { q } else { qs[0] });
    if qs.len() == 0 {
        assert(w.drop_first() =~= Seq::<SpecQuestion>::empty());
        assert(cat_questions(w.drop_first()) == Seq::<u8>::empty());
        assert(cat_questions(w) == question_bytes(q) + Seq::<u8>::empty());
        assert(cat_questions(w) =~= cat_questions(qs) + question_bytes(q));
    } else {
        lemma_cat_questions_snoc(qs.drop_first(), q);
        assert(w.drop_first() =~= qs.drop_first().push(q));
        assert(cat_questions(w) == question_bytes(qs[0]) + (cat_questions(qs.drop_first())
            + question_bytes(q)));
        assert(cat_questions(w) =~= cat_questions(qs) + question_bytes(q));
    }
}

/// One more record at the end extends the wire form at the end.
pub proof fn lemma_cat_records_snoc(rs: Seq<SpecRecord>, r: SpecRecord)
    ensures
        cat_records(rs.push(r)) == cat_records(rs) + record_bytes(r),
    decreases rs.len(),
{
    let w = rs.push(r);
    assert(w.len() == rs.len() + 1);
    assert(w[0] == if rs.len() == 0 { r } else { rs[0] });
    if rs.len() == 0 {
        assert(w.drop_first() =~= Seq::<SpecRecord>::empty());
        assert(cat_records(w.drop_first()) == Seq::<u8>::empty());
        assert(cat_records(w) == record_bytes(r) + Seq::<u8>::empty());
        assert(cat_records(w) =~= cat_records(rs) + record_bytes(r));
    } else {
        lemma_cat_records_snoc(rs.drop_first(), r);
        assert(w.drop_first() =~= rs.drop_first().push(r));
        assert(cat_records(w) == record_bytes(rs[0]) + (cat_records(rs.drop_first())
            + record_bytes(r)));
        assert(cat_records(w) =~= cat_records(rs) + record_bytes(r));
    }
}

/// Parsing `i + k` items is parsing `i`, then `k` more where the first
/// `i` ended.
pub proof fn lemma_parse_questions_split(data: Seq<u8>, pos: int, i: int, n: int)
    requires
        0 <= i <= n,
    ensures
        parse_questions(data, pos, n) == (match parse_questions(data, pos, i) {
            Parsed::Done { v, end } => match parse_questions(data, end, n - i) {
                Parsed::Done { v: rest, end: e2 } => Parsed::Done { v: v + rest, end: e2 },
                other => other,
            },
            other => other,
        }),
    decreases i,
{
    if i == 0 {
        match parse_questions(data, pos, n) {
            Parsed::Done { v, end } => {
                assert(Seq::<SpecQuestion>::empty() + v =~= v);
            },
            _ => {},
        }
    } else {
        match parse_question(data, pos) {
            Parsed::Done { v: q, end: e } => {
                lemma_parse_questions_split(data, e, i - 1, n - 1);
                match parse_questions(data, e, i - 1) {
                    Parsed::Done { v: front, end: ef } => {
                        match parse_questions(data, ef, n - i) {
                            Parsed::Done { v: rest, end: e2 } => {
                                assert(seq![q] + (front + rest) =~= (seq![q] + front) + rest);
                            },
                            _ => {},
                        }
                    },
                    _ => {},
                }
            },
            _ => {},
        }
    }
}

/// Parsing `i + k` records is parsing `i`, then `k` more where the
/// first `i` ended.
pub proof fn lemma_parse_records_split(data: Seq<u8>, pos: int, i: int, n: int)
    requires
        0 <= i <= n,
    ensures
        parse_records(data, pos, n) == (match parse_records(data, pos, i) {
            Parsed::Done { v, end } => match parse_records(data, end, n - i) {
                Parsed::Done { v: rest, end: e2 } => Parsed::Done { v: v + rest, end: e2 },
                other => other,
            },
            other => other,
        }),
    decreases i,
{
    if i == 0 {
        match parse_records(data, pos, n) {
            Parsed::Done { v, end } => {
                assert(Seq::<SpecRecord>::empty() + v =~= v);
            },
            _ => {},
        }
    } else {
        match parse_record(data, pos) {
            Parsed::Done { v: q, end: e } => {
                lemma_parse_records_split(data, e, i - 1, n - 1);
                match parse_records(data, e, i - 1) {
                    Parsed::Done { v: front, end: ef } => {
                        match parse_records(data, ef, n - i) {
                            Parsed::Done { v: rest, end: e2 } => {
                                assert(seq![q] + (front + rest) =~= (seq![q] + front) + rest);
                            },
                            _ => {},
                        }
                    },
                    _ => {},
                }
            },
            _ => {},
        }
    }
}

/// The header as the serializer sends it out: each count field set to
/// the length of its section.
pub open spec fn counted_header(p: SpecPacket) -> DnsHeader
    recommends
        p.questions.len() <= 0xFFFF,
        p.answers.len() <= 0xFFFF,
        p.authorities.len() <= 0xFFFF,
        p.resources.len() <= 0xFFFF,
{
    DnsHeader {
        qd_count: p.questions.len() as u16,
        an_count: p.answers.len() as u16,
        ns_count: p.authorities.len() as u16,
        ar_count: p.resources.len() as u16,
        ..p.header
    }
}

/// The bytes of a whole packet: the recounted header, the questions,
/// then answers, authorities and additional records.
pub open spec fn packet_bytes(p: SpecPacket) -> Seq<u8> {
    header_bytes(counted_header(p)) + cat_questions(p.questions) + cat_records(p.answers)
        + cat_records(p.authorities) + cat_records(p.resources)
}

/// Names a packet's serializer is asked to count: every name short
/// enough for the machine, every section short enough for its count
/// field.
pub open spec fn packet_fits(p: SpecPacket) -> bool {
    &&& p.questions.len() <= 0xFFFF
    &&& p.answers.len() <= 0xFFFF
    &&& p.authorities.len() <= 0xFFFF
    &&& p.resources.len() <= 0xFFFF
    &&& (forall|i: int| 0 <= i < p.questions.len() ==> name_fits(#[trigger] p.questions[i].name))
    &&& (forall|i: int| 0 <= i < p.answers.len() ==> record_fits(#[trigger] p.answers[i]))
    &&& (forall|i: int| 0 <= i < p.authorities.len() ==> record_fits(#[trigger] p.authorities[i]))
    &&& (forall|i: int| 0 <= i < p.resources.len() ==> record_fits(#[trigger] p.resources[i]))
}

/// Every name a record holds is short enough for the machine to count
/// its wire bytes.
pub open spec fn record_fits(r: SpecRecord) -> bool {
    match r {
        SpecRecord::A { domain, .. } => name_fits(domain),
        SpecRecord::Aaaa { domain, .. } => name_fits(domain),
        SpecRecord::Ns { domain, host, .. } => name_fits(domain) && name_fits(host),
        SpecRecord::Cname { domain, host, .. } => name_fits(domain) && name_fits(host),
        SpecRecord::Mx { domain, host, .. } => name_fits(domain) && name_fits(host),
        SpecRecord::Soa { domain, m_name, r_name, .. } => name_fits(domain) && name_fits(m_name)
            && name_fits(r_name),
        SpecRecord::Unknown { domain, .. } => name_fits(domain),
    }
}

/// Some record of the section is an address record.
pub open spec fn has_a(rs: Seq<SpecRecord>) -> bool {
    exists|i: int| 0 <= i < rs.len() && rs[i] is A
}

/// The address of the first address record of the section.
pub open spec fn first_a(rs: Seq<SpecRecord>) -> Option<Ipv4Addr>
    decreases rs.len(),
{
    if rs.len() == 0 {
        None
    } else {
        match rs[0] {
            SpecRecord::A { addr, .. } => Some(addr),
            _ => first_a(rs.drop_first()),
        }
    }
}

/// The target of the first canonical-name record of the section.
pub open spec fn first_cname(rs: Seq<SpecRecord>) -> Option<Seq<char>>
    decreases rs.len(),
{
    if rs.len() == 0 {
        None
    } else {
        match rs[0] {
            SpecRecord::Cname { host, .. } => Some(host),
            _ => first_cname(rs.drop_first()),
        }
    }
}

/// `d` is a tail of `q`.
pub open spec fn spec_ends_with(q: Seq<char>, d: Seq<char>) -> bool {
    d.len() <= q.len() && q.subrange(q.len() - d.len(), q.len() as int) == d
}

/// A name-server record whose zone the asked name falls under: its
/// owner name is a tail of the asked name.
pub open spec fn ns_matches(qname: Seq<char>, r: SpecRecord) -> bool {
    match r {
        SpecRecord::Ns { domain, .. } => spec_ends_with(qname, domain),
        _ => false,
    }
}

/// The address of the first address record among `res` owned by `host`.
pub open spec fn glue_for(res: Seq<SpecRecord>, host: Seq<char>) -> Option<Ipv4Addr>
    decreases res.len(),
{
    if res.len() == 0 {
        None
    } else {
        match res[0] {
            SpecRecord::A { domain, addr, .. } => if domain == host {
                Some(addr)
            } else {
                glue_for(res.drop_first(), host)
            },
            _ => glue_for(res.drop_first(), host),
        }
    }
}

/// Some name server of `auth` matches `qname` and names `target` as
/// its host.
pub open spec fn is_matched_host(auth: Seq<SpecRecord>, qname: Seq<char>, target: Seq<char>) -> bool {
    exists|i: int|
        0 <= i < auth.len() && (#[trigger] auth[i] matches SpecRecord::Ns { domain, host, .. }
            && spec_ends_with(qname, domain) && host == target)
}

/// The first address record of the additional section whose owner is
/// the host of some matching name server.
pub open spec fn resolved_ns(auth: Seq<SpecRecord>, res: Seq<SpecRecord>, qname: Seq<char>) -> Option<
    Ipv4Addr,
>
    decreases res.len(),
{
    if res.len() == 0 {
        None
    } else {
        match res[0] {
            SpecRecord::A { domain, addr, .. } => if is_matched_host(auth, qname, domain) {
                Some(addr)
            } else {
                resolved_ns(auth, res.drop_first(), qname)
            },
            _ => resolved_ns(auth, res.drop_first(), qname),
        }
    }
}

/// The host of the first matching name server of `auth` that has no
/// glue address among `res`.
pub open spec fn unresolved_ns(auth: Seq<SpecRecord>, res: Seq<SpecRecord>, qname: Seq<
    char,
>) -> Option<Seq<char>>
    decreases auth.len(),
{
    if auth.len() == 0 {
        None
    } else {
        match auth[0] {
            SpecRecord::Ns { domain, host, .. } => if spec_ends_with(qname, domain) && glue_for(
                res,
                host,
            ) is None {
                Some(host)
            } else {
                unresolved_ns(auth.drop_first(), res, qname)
            },
            _ => unresolved_ns(auth.drop_first(), res, qname),
        }
    }
}

/// The glueless-host half of the selection law.
proof fn lemma_unresolved_selection(auth: Seq<SpecRecord>, res: Seq<SpecRecord>, qname: Seq<char>)
    ensures
        (match unresolved_ns(auth, res, qname) {
            Some(h) => exists|i: int|
                0 <= i < auth.len() && ns_matches(qname, #[trigger] auth[i]) && (auth[i] matches
                SpecRecord::Ns { domain, host, .. } && host == h && glue_for(res, host) is None),
            None => forall|i: int|
                0 <= i < auth.len() ==> !(#[trigger] auth[i] matches SpecRecord::Ns {
                    domain,
                    host,
                    .. } && spec_ends_with(qname, domain) && glue_for(res, host) is None),
        }),
    decreases auth.len(),
{
    if auth.len() > 0 {
        lemma_unresolved_selection(auth.drop_first(), res, qname);
        let rest = auth.drop_first();
        match unresolved_ns(auth, res, qname) {
            Some(h) => {
                if !(ns_matches(qname, auth[0]) && (auth[0] matches SpecRecord::Ns { host, .. }
                    && host == h && glue_for(res, host) is None)) {
                    let j = choose|j: int|
                        0 <= j < rest.len() && ns_matches(qname, #[trigger] rest[j]) && (rest[j]
                        matches SpecRecord::Ns { domain, host, .. } && host == h && glue_for(
                            res,
                            host,
                        ) is None);
                    assert(auth[j + 1] == rest[j]);
                }
            },
            None => {
                assert forall|i: int| 0 <= i < auth.len() implies !(#[trigger] auth[i] matches
                    SpecRecord::Ns { domain, host, .. } && spec_ends_with(qname, domain)
                    && glue_for(res, host) is None) by {
                    if i > 0 {
                        assert(rest[i - 1] == auth[i]);
                    }
                }
            },
        }
    }
}

/// The glue half of the selection law.
proof fn lemma_resolved_selection(auth: Seq<SpecRecord>, res: Seq<SpecRecord>, qname: Seq<char>)
    ensures
        (match resolved_ns(auth, res, qname) {
            Some(ip) => exists|j: int|
                0 <= j < res.len() && (#[trigger] res[j] matches SpecRecord::A {
                    domain,
                    addr,
                    .. } && addr == ip && is_matched_host(auth, qname, domain)),
            None => true,
        }),
    decreases res.len(),
{
    if res.len() > 0 {
        lemma_resolved_selection(auth, res.drop_first(), qname);
        let rest = res.drop_first();
        match resolved_ns(auth, res, qname) {
            Some(ip) => {
                if !(res[0] matches SpecRecord::A { domain, addr, .. } && addr == ip
                    && is_matched_host(auth, qname, domain)) {
                    let j = choose|j: int|
                        0 <= j < rest.len() && (#[trigger] rest[j] matches SpecRecord::A {
                            domain,
                            addr,
                            .. } && addr == ip && is_matched_host(auth, qname, domain));
                    assert(res[j + 1] == rest[j]);
                }
            },
            None => {},
        }
    }
}

/// Law: a name server is only ever selected for a name its owner name
/// is a tail of. The glue fast path yields an address from the
/// additional section owned by the host of such a server; the glueless
/// slow path yields the host of such a server and only one without a
/// glue address.
pub proof fn lemma_ns_selection_matches(auth: Seq<SpecRecord>, res: Seq<SpecRecord>, qname: Seq<
    char,
>)
    ensures
        (match unresolved_ns(auth, res, qname) {
            Some(h) => exists|i: int|
                0 <= i < auth.len() && ns_matches(qname, #[trigger] auth[i]) && (auth[i] matches
                SpecRecord::Ns { domain, host, .. } && host == h && glue_for(res, host) is None),
            None => forall|i: int|
                0 <= i < auth.len() ==> !(#[trigger] auth[i] matches SpecRecord::Ns {
                    domain,
                    host,
                    .. } && spec_ends_with(qname, domain) && glue_for(res, host) is None),
        }),
        (match resolved_ns(auth, res, qname) {
            Some(ip) => exists|j: int|
                0 <= j < res.len() && (#[trigger] res[j] matches SpecRecord::A {
                    domain,
                    addr,
                    .. } && addr == ip && is_matched_host(auth, qname, domain)),
            None => true,
        }),
{
    lemma_unresolved_selection(auth, res, qname);
    lemma_resolved_selection(auth, res, qname);
}

} // verus!
