//! The DNS message model: header, question, resource records and the
//! packet that holds them, with a parser from and a serializer to the
//! wire format of RFC 1035.
//!
//! Every parsing method is specified against the `parse_*` functions of
//! `wire`, every serializing method against the `*_bytes` functions
//! there, so that what a method does to its cursor is pinned down byte
//! for byte.

use vstd::prelude::*;

use crate::packet::{DnsError, PacketReader, PacketWriter, be16_bytes, be32_bytes, lemma_splice_concat, splice};
use crate::wire::{
    Parsed, SpecQuestion, SpecRecord, header_bytes, header_from_bytes, name_fits, name_wire,
    parse_question, parse_record, qt_num, qt_of_num, question_bytes, rc_num, rc_of_num, rdlen_mx,
    rdlen_name, rdlen_soa, record_bytes,
};
use vstd::string::StringSliceAdditionalSpecFns;
use vstd::string::StrSliceExecFns;

verus! {

/// The response code of a reply.
#[derive(Copy, Clone, Debug, PartialEq, Eq, Structural)]
pub enum ResultCode {
    NOERROR,
    FORMERR,
    SERVFAIL,
    NXDOMAIN,
    NOTIMP,
    REFUSED,
}

impl ResultCode {
    /// The code a numeric value stands for; unknown values are taken as
    /// `NOERROR`.
    pub fn from_num(num: u8) -> (r: ResultCode)
        ensures
            r == rc_of_num(num),
    {
        match num {
            1 => ResultCode::FORMERR,
            2 => ResultCode::SERVFAIL,
            3 => ResultCode::NXDOMAIN,
            4 => ResultCode::NOTIMP,
            5 => ResultCode::REFUSED,
            _ => ResultCode::NOERROR,
        }
    }

    /// The numeric value of the code.
    pub fn to_num(&self) -> (r: u8)
        ensures
            r == rc_num(*self),
    {
        match *self {
            ResultCode::NOERROR => 0,
            ResultCode::FORMERR => 1,
            ResultCode::SERVFAIL => 2,
            ResultCode::NXDOMAIN => 3,
            ResultCode::NOTIMP => 4,
            ResultCode::REFUSED => 5,
        }
    }
}

/// The type of a question or record, with unknown numeric types kept
/// as they came.
#[derive(PartialEq, Eq, Debug, Clone, Hash, Copy, Structural)]
pub enum QueryType {
    UNKNOWN(u16),
    A,
    NS,
    CNAME,
    SOA,
    MX,
    AAAA,
}

impl QueryType {
    /// The numeric value of the type.
    pub fn to_num(&self) -> (r: u16)
        ensures
            r == qt_num(*self),
    {
        match *self {
            QueryType::UNKNOWN(x) => x,
            QueryType::A => 1,
            QueryType::NS => 2,
            QueryType::CNAME => 5,
            QueryType::SOA => 6,
            QueryType::MX => 15,
            QueryType::AAAA => 28,
        }
    }

    /// The type a numeric value stands for.
    pub fn from_num(num: u16) -> (r: QueryType)
        ensures
            r == qt_of_num(num),
    {
        match num {
            1 => QueryType::A,
            2 => QueryType::NS,
            5 => QueryType::CNAME,
            6 => QueryType::SOA,
            15 => QueryType::MX,
            28 => QueryType::AAAA,
            _ => QueryType::UNKNOWN(num),
        }
    }
}

/// A version 4 address as the 32-bit value of its four octets in
/// network order.
#[derive(Copy, Clone, Debug, PartialEq, Eq, Structural)]
pub struct Ipv4Addr {
    /// The address, first octet most significant.
    pub bits: u32,
}

impl Ipv4Addr {
    /// The address `a.b.c.d`.
    pub fn new(a: u8, b: u8, c: u8, d: u8) -> (r: Ipv4Addr)
        ensures
            r.bits == crate::packet::be32_of(a, b, c, d),
    {
        Ipv4Addr {
            bits: (a as u32) * 0x1000000 + (b as u32) * 0x10000 + (c as u32) * 0x100 + (d as u32),
        }
    }

    /// The four octets, most significant first.
    pub fn octets(&self) -> (r: [u8; 4])
        ensures
            r@ == crate::packet::be32_bytes(self.bits),
    {
        let r = [
            (self.bits / 0x1000000) as u8,
            ((self.bits / 0x10000) % 256) as u8,
            ((self.bits / 0x100) % 256) as u8,
            (self.bits % 256) as u8,
        ];
        proof {
            assert(r@ =~= crate::packet::be32_bytes(self.bits));
        }
        r
    }
}

/// A version 6 address as four 32-bit words in network order.
#[derive(Copy, Clone, Debug, PartialEq, Eq, Structural)]
pub struct Ipv6Addr {
    /// Octets 0 to 3, first octet most significant.
    pub w0: u32,
    /// Octets 4 to 7.
    pub w1: u32,
    /// Octets 8 to 11.
    pub w2: u32,
    /// Octets 12 to 15.
    pub w3: u32,
}

impl Ipv6Addr {
    /// The address with the eight given 16-bit groups.
    pub fn new(s0: u16, s1: u16, s2: u16, s3: u16, s4: u16, s5: u16, s6: u16, s7: u16) -> (r:
        Ipv6Addr)
        ensures
            r.w0 == s0 as int * 0x10000 + s1 as int,
            r.w1 == s2 as int * 0x10000 + s3 as int,
            r.w2 == s4 as int * 0x10000 + s5 as int,
            r.w3 == s6 as int * 0x10000 + s7 as int,
    {
        Ipv6Addr {
            w0: (s0 as u32) * 0x10000 + (s1 as u32),
            w1: (s2 as u32) * 0x10000 + (s3 as u32),
            w2: (s4 as u32) * 0x10000 + (s5 as u32),
            w3: (s6 as u32) * 0x10000 + (s7 as u32),
        }
    }

    /// The eight 16-bit groups, most significant first.
    pub fn segments(&self) -> (r: [u16; 8])
        ensures
            r@ == seq![
                (self.w0 / 0x10000) as u16,
                (self.w0 % 0x10000) as u16,
                (self.w1 / 0x10000) as u16,
                (self.w1 % 0x10000) as u16,
                (self.w2 / 0x10000) as u16,
                (self.w2 % 0x10000) as u16,
                (self.w3 / 0x10000) as u16,
                (self.w3 % 0x10000) as u16,
            ],
    {
        let r = [
            (self.w0 / 0x10000) as u16,
            (self.w0 % 0x10000) as u16,
            (self.w1 / 0x10000) as u16,
            (self.w1 % 0x10000) as u16,
            (self.w2 / 0x10000) as u16,
            (self.w2 % 0x10000) as u16,
            (self.w3 / 0x10000) as u16,
            (self.w3 % 0x10000) as u16,
        ];
        proof {
            assert(r@ =~= seq![
                (self.w0 / 0x10000) as u16,
                (self.w0 % 0x10000) as u16,
                (self.w1 / 0x10000) as u16,
                (self.w1 % 0x10000) as u16,
                (self.w2 / 0x10000) as u16,
                (self.w2 % 0x10000) as u16,
                (self.w3 / 0x10000) as u16,
                (self.w3 % 0x10000) as u16,
            ]);
        }
        r
    }
}

/// The fixed twelve-octet head of every message.
#[derive(Clone, Debug, PartialEq, Eq, Structural, Copy)]
pub struct DnsHeader {
    /// Packet identifier.
    pub id: u16,
    /// Query (false) or response (true).
    pub qr: bool,
    /// Operation code, four bits.
    pub opcode: u8,
    /// Authoritative answer.
    pub aa: bool,
    /// Truncated message.
    pub tc: bool,
    /// Recursion desired.
    pub rd: bool,
    /// Recursion available.
    pub ra: bool,
    /// Reserved bit.
    pub z: bool,
    /// Authenticated data.
    pub ad: bool,
    /// Checking disabled.
    pub cd: bool,
    /// Response code, four bits.
    pub rcode: ResultCode,
    /// Questions in the message.
    pub qd_count: u16,
    /// Answer records.
    pub an_count: u16,
    /// Authority records.
    pub ns_count: u16,
    /// Additional records.
    pub ar_count: u16,
}

/// The header with every field cleared, as `DnsHeader::new` returns it.
pub open spec fn default_header() -> DnsHeader {
    DnsHeader {
        id: 0,
        qr: false,
        opcode: 0,
        aa: false,
        tc: false,
        rd: false,
        ra: false,
        z: false,
        ad: false,
        cd: false,
        rcode: ResultCode::NOERROR,
        qd_count: 0,
        an_count: 0,
        ns_count: 0,
        ar_count: 0,
    }
}

impl DnsHeader {
    /// A header with every field cleared.
    pub fn new() -> (r: DnsHeader)
        ensures
            r == default_header(),
    {
        DnsHeader {
            id: 0,
            qr: false,
            opcode: 0,
            aa: false,
            tc: false,
            rd: false,
            ra: false,
            z: false,
            ad: false,
            cd: false,
            rcode: ResultCode::NOERROR,
            qd_count: 0,
            an_count: 0,
            ns_count: 0,
            ar_count: 0,
        }
    }

    /// Fill the header from the next twelve octets of the buffer.
    pub fn read(&mut self, buffer: &mut PacketReader) -> (r: Result<(), DnsError>)
        ensures
            final(buffer).buf@ == old(buffer).buf@,
            old(buffer).pos + 12 <= old(buffer).buf@.len() ==> (r matches Ok(())
                && *final(self) == header_from_bytes(old(buffer).buf@, old(buffer).pos as int)
                && final(buffer).pos == old(buffer).pos + 12),
            old(buffer).pos + 12 > old(buffer).buf@.len() ==> (r matches Err(e)
                && e == DnsError::Truncated),
    {
        self.id = buffer.read_u16()?;

        let a = buffer.read_u8()?;
        let b = buffer.read_u8()?;
        self.rd = (a & 1) > 0;
        self.tc = (a & 2) > 0;
        self.aa = (a & 4) > 0;
        self.opcode = (a >> 3) & 0x0F;
        self.qr = (a & 128) > 0;

        self.rcode = ResultCode::from_num(b & 0x0F);
        self.cd = (b & 16) > 0;
        self.ad = (b & 32) > 0;
        self.z = (b & 64) > 0;
        self.ra = (b & 128) > 0;

        self.qd_count = buffer.read_u16()?;
        self.an_count = buffer.read_u16()?;
        self.ns_count = buffer.read_u16()?;
        self.ar_count = buffer.read_u16()?;

        Ok(())
    }

    /// Write the header's twelve octets.
    pub fn write(&mut self, buffer: &mut PacketWriter) -> (r: Result<usize, DnsError>)
        requires
            old(buffer).wf(),
        ensures
            r matches Ok(n) && n == 12,
            *final(self) == *old(self),
            final(buffer).bytes() == splice(
                old(buffer).bytes(),
                old(buffer).wpos(),
                header_bytes(*old(self)),
            ),
            final(buffer).wpos() == old(buffer).wpos() + 12,
            final(buffer).wf(),
    {
        let ghost d0 = buffer.bytes();
        let ghost p0 = buffer.wpos();
        buffer.write_u16(self.id)?;

        let rd: u8 = if self.rd {
            1
        } else {
            0
        };
        let tc: u8 = if self.tc {
            1
        } else {
            0
        };
        let aa: u8 = if self.aa {
            1
        } else {
            0
        };
        let qr: u8 = if self.qr {
            1
        } else {
            0
        };
        let a: u8 = rd | (tc << 1) | (aa << 2) | (self.opcode << 3) | (qr << 7);
        buffer.write_u8(a)?;

        let cd: u8 = if self.cd {
            1
        } else {
            0
        };
        let ad: u8 = if self.ad {
            1
        } else {
            0
        };
        let z: u8 = if self.z {
            1
        } else {
            0
        };
        let ra: u8 = if self.ra {
            1
        } else {
            0
        };
        let b: u8 = self.rcode.to_num() | (cd << 4) | (ad << 5) | (z << 6) | (ra << 7);
        buffer.write_u8(b)?;

        proof {
            crate::packet::lemma_splice_concat(d0, p0, crate::packet::be16_bytes(self.id), seq![a]);
            crate::packet::lemma_splice_concat(
                d0,
                p0,
                crate::packet::be16_bytes(self.id) + seq![a],
                seq![b],
            );
        }
        let ghost acc0 = crate::packet::be16_bytes(self.id) + seq![a] + seq![b];

        buffer.write_u16(self.qd_count)?;
        proof {
            crate::packet::lemma_splice_concat(d0, p0, acc0, crate::packet::be16_bytes(self.qd_count));
        }
        let ghost acc1 = acc0 + crate::packet::be16_bytes(self.qd_count);
        buffer.write_u16(self.an_count)?;
        proof {
            crate::packet::lemma_splice_concat(d0, p0, acc1, crate::packet::be16_bytes(self.an_count));
        }
        let ghost acc2 = acc1 + crate::packet::be16_bytes(self.an_count);
        buffer.write_u16(self.ns_count)?;
        proof {
            crate::packet::lemma_splice_concat(d0, p0, acc2, crate::packet::be16_bytes(self.ns_count));
        }
        let ghost acc3 = acc2 + crate::packet::be16_bytes(self.ns_count);
        buffer.write_u16(self.ar_count)?;
        proof {
            crate::packet::lemma_splice_concat(d0, p0, acc3, crate::packet::be16_bytes(self.ar_count));
            assert(acc3 + crate::packet::be16_bytes(self.ar_count) =~= header_bytes(*self));
        }
        Ok(12)
    }
}

/// One question of a query: a name asked about, the record type wanted,
/// and the class.
#[derive(Debug, Clone, PartialEq, Eq)]
pub struct DnsQuestion {
    pub name: String,
    pub qtype: QueryType,
    pub qclass: u16,
}

impl View for DnsQuestion {
    type V = SpecQuestion;

    open spec fn view(&self) -> SpecQuestion {
        SpecQuestion { name: self.name@, qtype: self.qtype, qclass: self.qclass }
    }
}

impl DnsQuestion {
    /// A question with an empty name, type number zero and class zero.
    pub fn new() -> (r: DnsQuestion)
        ensures
            r@ == (SpecQuestion {
                name: Seq::<char>::empty(),
                qtype: QueryType::UNKNOWN(0),
                qclass: 0,
            }),
    {
        DnsQuestion { name: String::new(), qtype: QueryType::UNKNOWN(0), qclass: 0 }
    }

    /// Fill the question from the buffer: a name, the type, the class.
    pub fn read(&mut self, buffer: &mut PacketReader) -> (r: Result<(), DnsError>)
        ensures
            final(buffer).buf@ == old(buffer).buf@,
            match parse_question(old(buffer).buf@, old(buffer).pos as int) {
                Parsed::Done { v, end } => (r matches Ok(()) && final(self)@ == v
                    && final(buffer).pos == end),
                Parsed::Trunc => (r matches Err(e) && e == DnsError::Truncated),
                Parsed::Loop => (r matches Err(e) && e == DnsError::NameLoop),
            },
    {
        self.name = buffer.read_name()?;
        self.qtype = QueryType::from_num(buffer.read_u16()?);
        self.qclass = buffer.read_u16()?;

        Ok(())
    }

    /// Write the question: the name's wire form, the type, the class.
    /// Returns the number of bytes written.
    pub fn write(&self, buffer: &mut PacketWriter) -> (r: Result<usize, DnsError>)
        requires
            old(buffer).wf(),
            name_fits(self.name@),
        ensures
            r matches Ok(n) && n == question_bytes(self@).len(),
            final(buffer).bytes() == splice(
                old(buffer).bytes(),
                old(buffer).wpos(),
                question_bytes(self@),
            ),
            final(buffer).wpos() == old(buffer).wpos() + question_bytes(self@).len(),
            final(buffer).wf(),
    {
        let ghost d0 = buffer.bytes();
        let ghost p0 = buffer.wpos();
        proof {
            crate::name::lemma_encode_name_len(vstd::utf8::encode_utf8(self.name@));
        }
        let mut size: usize = 0;
        size = size + buffer.write_name(self.name.as_str())?;
        buffer.write_u16(self.qtype.to_num())?;
        proof {
            lemma_splice_concat(d0, p0, name_wire(self@.name), be16_bytes(qt_num(self.qtype)));
        }
        buffer.write_u16(self.qclass)?;
        proof {
            lemma_splice_concat(
                d0,
                p0,
                name_wire(self@.name) + be16_bytes(qt_num(self.qtype)),
                be16_bytes(self.qclass),
            );
            assert(name_wire(self@.name) + be16_bytes(qt_num(self.qtype)) + be16_bytes(self.qclass)
                =~= question_bytes(self@));
        }
        Ok(size + 4)
    }
}

/// One resource record, its payload depending on its type. Types
/// without a reading of their own are kept as `UNKNOWN` entries whose
/// payload was skipped.
#[derive(Debug, Clone, PartialEq, Eq)]
pub enum DnsRecord {
    UNKNOWN { domain: String, qtype: u16, data_len: u16, ttl: u32 },
    A { domain: String, addr: Ipv4Addr, ttl: u32 },
    AAAA { domain: String, addr: Ipv6Addr, ttl: u32 },
    NS { domain: String, host: String, ttl: u32 },
    CNAME { domain: String, host: String, ttl: u32 },
    MX { domain: String, priority: u16, host: String, ttl: u32 },
    SOA {
        domain: String,
        m_name: String,
        r_name: String,
        serial: u32,
        refresh: u32,
        retry: u32,
        expire: u32,
        minimum: u32,
        ttl: u32,
    },
}

impl View for DnsRecord {
    type V = SpecRecord;

    open spec fn view(&self) -> SpecRecord {
        match self {
            DnsRecord::UNKNOWN { domain, qtype, data_len, ttl } => SpecRecord::Unknown {
                domain: domain@,
                qtype: *qtype,
                data_len: *data_len,
                ttl: *ttl,
            },
            DnsRecord::A { domain, addr, ttl } => SpecRecord::A {
                domain: domain@,
                addr: *addr,
                ttl: *ttl,
            },
            DnsRecord::AAAA { domain, addr, ttl } => SpecRecord::Aaaa {
                domain: domain@,
                addr: *addr,
                ttl: *ttl,
            },
            DnsRecord::NS { domain, host, ttl } => SpecRecord::Ns {
                domain: domain@,
                host: host@,
                ttl: *ttl,
            },
            DnsRecord::CNAME { domain, host, ttl } => SpecRecord::Cname {
                domain: domain@,
                host: host@,
                ttl: *ttl,
            },
            DnsRecord::MX { domain, priority, host, ttl } => SpecRecord::Mx {
                domain: domain@,
                priority: *priority,
                host: host@,
                ttl: *ttl,
            },
            DnsRecord::SOA {
                domain,
                m_name,
                r_name,
                serial,
                refresh,
                retry,
                expire,
                minimum,
                ttl,
            } => SpecRecord::Soa {
                domain: domain@,
                m_name: m_name@,
                r_name: r_name@,
                serial: *serial,
                refresh: *refresh,
                retry: *retry,
                expire: *expire,
                minimum: *minimum,
                ttl: *ttl,
            },
        }
    }
}

impl DnsRecord {
    /// Read one record: name, type, class (dropped), time to live and
    /// payload length, then the payload the type asks for. The payload
    /// of a type without a reading of its own is skipped.
    #[verifier::rlimit(80)]
    pub fn read(buffer: &mut PacketReader) -> (r: Result<DnsRecord, DnsError>)
        ensures
            final(buffer).buf@ == old(buffer).buf@,
            match parse_record(old(buffer).buf@, old(buffer).pos as int) {
                Parsed::Done { v, end } => (r matches Ok(rec) && rec@ == v && final(buffer).pos
                    == end),
                Parsed::Trunc => (r matches Err(e) && e == DnsError::Truncated),
                Parsed::Loop => (r matches Err(e) && e == DnsError::NameLoop),
            },
    {
        let domain = buffer.read_name()?;

        let qtype_num = buffer.read_u16()?;
        let qtype = QueryType::from_num(qtype_num);
        let _ = buffer.read_u16()?;
        let ttl = buffer.read_u32()?;
        let data_len = buffer.read_u16()?;

        match qtype {
            QueryType::A => {
                let raw_addr = buffer.read_u32()?;
                let addr = Ipv4Addr { bits: raw_addr };

                Ok(DnsRecord::A { domain, addr, ttl })
            },
            QueryType::AAAA => {
                let raw_addr1 = buffer.read_u32()?;
                let raw_addr2 = buffer.read_u32()?;
                let raw_addr3 = buffer.read_u32()?;
                let raw_addr4 = buffer.read_u32()?;
                let addr = Ipv6Addr { w0: raw_addr1, w1: raw_addr2, w2: raw_addr3, w3: raw_addr4 };

                Ok(DnsRecord::AAAA { domain, addr, ttl })
            },
            QueryType::NS => {
                let host = buffer.read_name()?;

                Ok(DnsRecord::NS { domain, host, ttl })
            },
            QueryType::CNAME => {
                let cname = buffer.read_name()?;

                Ok(DnsRecord::CNAME { domain, host: cname, ttl })
            },
            QueryType::SOA => {
                let m_name = buffer.read_name()?;
                let r_name = buffer.read_name()?;

                let serial = buffer.read_u32()?;
                let refresh = buffer.read_u32()?;
                let retry = buffer.read_u32()?;
                let expire = buffer.read_u32()?;
                let minimum = buffer.read_u32()?;

                Ok(DnsRecord::SOA {
                    domain,
                    m_name,
                    r_name,
                    serial,
                    refresh,
                    retry,
                    expire,
                    minimum,
                    ttl,
                })
            },
            QueryType::MX => {
                let priority = buffer.read_u16()?;
                let host = buffer.read_name()?;

                Ok(DnsRecord::MX { domain, priority, host, ttl })
            },
            _ => {
                buffer.step(data_len as usize)?;

                Ok(DnsRecord::UNKNOWN { domain, qtype: qtype_num, data_len, ttl })
            },
        }
    }

    /// Write one record: name, type, class one, time to live, payload
    /// length, payload. An `UNKNOWN` record is written as nothing.
    /// Returns the number of bytes written.
    #[verifier::rlimit(100)]
    pub fn write(&self, buffer: &mut PacketWriter) -> (r: Result<usize, DnsError>)
        requires
            old(buffer).wf(),
            crate::wire::record_fits(self@),
        ensures
            r matches Ok(n) && n == record_bytes(self@).len(),
            final(buffer).bytes() == splice(
                old(buffer).bytes(),
                old(buffer).wpos(),
                record_bytes(self@),
            ),
            final(buffer).wpos() == old(buffer).wpos() + record_bytes(self@).len(),
            final(buffer).wf(),
    {
        let ghost d0 = buffer.bytes();
        let ghost p0 = buffer.wpos();
        match self {
            DnsRecord::A { domain, addr, ttl } => {
                let ghost pre = pre_bytes(domain@, 1, *ttl);
                let pre_n = write_preamble(buffer, domain, 1, *ttl)?;
                let rdata_n = write_a_rdata(buffer, addr)?;
                proof {
                    lemma_splice_concat(d0, p0, pre, a_rdata_bytes(*addr));
                    assert(pre + a_rdata_bytes(*addr) =~= record_bytes(self@));
                }
                Ok(pre_n + rdata_n)
            },
            DnsRecord::AAAA { domain, addr, ttl } => {
                let ghost pre = pre_bytes(domain@, 28, *ttl);
                let pre_n = write_preamble(buffer, domain, 28, *ttl)?;
                let rdata_n = write_aaaa_rdata(buffer, addr)?;
                proof {
                    lemma_splice_concat(d0, p0, pre, aaaa_rdata_bytes(*addr));
                    assert(pre + aaaa_rdata_bytes(*addr) =~= record_bytes(self@));
                }
                Ok(pre_n + rdata_n)
            },
            DnsRecord::NS { domain, host, ttl } => {
                let ghost pre = pre_bytes(domain@, 2, *ttl);
                let pre_n = write_preamble(buffer, domain, 2, *ttl)?;
                let rdata_n = write_host_rdata(buffer, host)?;
                proof {
                    lemma_splice_concat(d0, p0, pre, host_rdata_bytes(host@));
                    assert(pre + host_rdata_bytes(host@) =~= record_bytes(self@));
                }
                Ok(pre_n + rdata_n)
            },
            DnsRecord::CNAME { domain, host, ttl } => {
                let ghost pre = pre_bytes(domain@, 5, *ttl);
                let pre_n = write_preamble(buffer, domain, 5, *ttl)?;
                let rdata_n = write_host_rdata(buffer, host)?;
                proof {
                    lemma_splice_concat(d0, p0, pre, host_rdata_bytes(host@));
                    assert(pre + host_rdata_bytes(host@) =~= record_bytes(self@));
                }
                Ok(pre_n + rdata_n)
            },
            DnsRecord::SOA { domain, m_name, r_name, serial, refresh, retry, expire, minimum, ttl } => {
                let ghost pre = pre_bytes(domain@, 6, *ttl);
                let pre_n = write_preamble(buffer, domain, 6, *ttl)?;
                let rdata_n = write_soa_rdata(
                    buffer,
                    m_name,
                    r_name,
                    *serial,
                    *refresh,
                    *retry,
                    *expire,
                    *minimum,
                )?;
                proof {
                    lemma_splice_concat(
                        d0,
                        p0,
                        pre,
                        soa_rdata_bytes(m_name@, r_name@, *serial, *refresh, *retry, *expire, *minimum),
                    );
                    assert(pre + soa_rdata_bytes(
                        m_name@,
                        r_name@,
                        *serial,
                        *refresh,
                        *retry,
                        *expire,
                        *minimum,
                    ) =~= record_bytes(self@));
                }
                Ok(pre_n + rdata_n)
            },
            DnsRecord::MX { domain, priority, host, ttl } => {
                let ghost pre = pre_bytes(domain@, 15, *ttl);
                let pre_n = write_preamble(buffer, domain, 15, *ttl)?;
                let rdata_n = write_mx_rdata(buffer, *priority, host)?;
                proof {
                    lemma_splice_concat(d0, p0, pre, mx_rdata_bytes(*priority, host@));
                    assert(pre + mx_rdata_bytes(*priority, host@) =~= record_bytes(self@));
                }
                Ok(pre_n + rdata_n)
            },
            DnsRecord::UNKNOWN { .. } => {
                proof {
                    crate::packet::lemma_splice_empty(d0, p0);
                }
                Ok(0)
            },
        }
    }
}

/// A whole message: its header and its four sections.
#[derive(Debug, Clone, PartialEq, Eq)]
pub struct DnsPacket {
    pub header: DnsHeader,
    pub questions: Vec<DnsQuestion>,
    pub answers: Vec<DnsRecord>,
    pub authorities: Vec<DnsRecord>,
    pub resources: Vec<DnsRecord>,
}

/// The questions of a packet as mathematics.
pub open spec fn questions_view(qs: Seq<DnsQuestion>) -> Seq<SpecQuestion> {
    qs.map_values(|q: DnsQuestion| q@)
}

/// A record section of a packet as mathematics.
pub open spec fn records_view(rs: Seq<DnsRecord>) -> Seq<SpecRecord> {
    rs.map_values(|r: DnsRecord| r@)
}

impl View for DnsPacket {
    type V = crate::wire::SpecPacket;

    open spec fn view(&self) -> crate::wire::SpecPacket {
        crate::wire::SpecPacket {
            header: self.header,
            questions: questions_view(self.questions@),
            answers: records_view(self.answers@),
            authorities: records_view(self.authorities@),
            resources: records_view(self.resources@),
        }
    }
}

impl DnsPacket {
    /// A packet with a cleared header and no questions or records.
    pub fn new() -> (r: DnsPacket)
        ensures
            r.header == default_header(),
            r@.questions == Seq::<SpecQuestion>::empty(),
            r@.answers == Seq::<SpecRecord>::empty(),
            r@.authorities == Seq::<SpecRecord>::empty(),
            r@.resources == Seq::<SpecRecord>::empty(),
            r.questions@.len() == 0,
            r.answers@.len() == 0,
            r.authorities@.len() == 0,
            r.resources@.len() == 0,
    {
        let r = DnsPacket {
            header: DnsHeader::new(),
            questions: Vec::new(),
            answers: Vec::new(),
            authorities: Vec::new(),
            resources: Vec::new(),
        };
        proof {
            assert(r@.questions =~= Seq::<SpecQuestion>::empty());
            assert(r@.answers =~= Seq::<SpecRecord>::empty());
            assert(r@.authorities =~= Seq::<SpecRecord>::empty());
            assert(r@.resources =~= Seq::<SpecRecord>::empty());
        }
        r
    }

    /// Read a whole packet: the header, then as many questions and
    /// records of each section as its counts announce.
    pub fn from_buffer(buffer: &mut PacketReader) -> (r: Result<DnsPacket, DnsError>)
        ensures
            final(buffer).buf@ == old(buffer).buf@,
            match crate::wire::parse_packet(old(buffer).buf@, old(buffer).pos as int) {
                Parsed::Done { v, end } => (r matches Ok(p) && p@ == v && final(buffer).pos
                    == end),
                Parsed::Trunc => (r matches Err(e) && e == DnsError::Truncated),
                Parsed::Loop => (r matches Err(e) && e == DnsError::NameLoop),
            },
    {
        let ghost data = buffer.buf@;
        let ghost pos0 = buffer.pos as int;
        let mut result = DnsPacket::new();
        result.header.read(buffer)?;

        result.questions = read_questions(buffer, result.header.qd_count)?;
        result.answers = read_records(buffer, result.header.an_count)?;
        result.authorities = read_records(buffer, result.header.ns_count)?;
        result.resources = read_records(buffer, result.header.ar_count)?;

        Ok(result)
    }

    /// Write the whole packet: the header with each count field set to
    /// its section's length, then questions, answers, authorities and
    /// additional records. Returns the number of bytes written.
    #[verifier::rlimit(100)]
    pub fn write(&mut self, buffer: &mut PacketWriter) -> (r: Result<usize, DnsError>)
        requires
            old(buffer).wf(),
            crate::wire::packet_fits(old(self)@),
        ensures
            r matches Ok(n) && n == crate::wire::packet_bytes(old(self)@).len(),
            final(self)@ == (crate::wire::SpecPacket {
                header: crate::wire::counted_header(old(self)@),
                ..old(self)@
            }),
            final(buffer).bytes() == splice(
                old(buffer).bytes(),
                old(buffer).wpos(),
                crate::wire::packet_bytes(old(self)@),
            ),
            final(buffer).wpos() == old(buffer).wpos() + crate::wire::packet_bytes(
                old(self)@,
            ).len(),
            final(buffer).wf(),
    {
        let ghost d0 = buffer.bytes();
        let ghost p0 = buffer.wpos();
        let ghost pk0 = self@;
        self.header.qd_count = self.questions.len() as u16;
        self.header.an_count = self.answers.len() as u16;
        self.header.ar_count = self.resources.len() as u16;
        self.header.ns_count = self.authorities.len() as u16;
        proof {
            assert(self.header == crate::wire::counted_header(pk0));
        }
        let ghost hb = header_bytes(crate::wire::counted_header(pk0));
        let mut size: usize = self.header.write(buffer)?;

        let ghost qb = crate::wire::cat_questions(pk0.questions);
        let qn = write_questions(buffer, &self.questions)?;
        proof {
            lemma_splice_concat(d0, p0, hb, qb);
            buffer.wpos_in_range();
        }
        size = size + qn;

        let ghost ab = crate::wire::cat_records(pk0.answers);
        let an = write_records(buffer, &self.answers)?;
        proof {
            lemma_splice_concat(d0, p0, hb + qb, ab);
            buffer.wpos_in_range();
        }
        size = size + an;

        let ghost ub = crate::wire::cat_records(pk0.authorities);
        let un = write_records(buffer, &self.authorities)?;
        proof {
            lemma_splice_concat(d0, p0, hb + qb + ab, ub);
            buffer.wpos_in_range();
        }
        size = size + un;

        let ghost rb = crate::wire::cat_records(pk0.resources);
        let rn = write_records(buffer, &self.resources)?;
        proof {
            lemma_splice_concat(d0, p0, hb + qb + ab + ub, rb);
            buffer.wpos_in_range();
            assert(hb + qb + ab + ub + rb =~= crate::wire::packet_bytes(pk0));
        }
        size = size + rn;

        Ok(size)
    }

    /// Whether any answer is an address record.
    pub fn have_a(&self) -> (r: bool)
        ensures
            r == crate::wire::has_a(self@.answers),
    {
        let ghost av = records_view(self.answers@);
        let mut i: usize = 0;
        while i < self.answers.len()
            invariant
                i <= av.len(),
                forall|j: int| 0 <= j < i ==> !(#[trigger] av[j] is A),
            decreases av.len() - i,
        {
            match &self.answers[i] {
                DnsRecord::A { .. } => {
                    proof {
                        assert(av[i as int] is A);
                    }
                    return true;
                },
                _ => {},
            }
            i = i + 1;
        }
        false
    }

    /// The address of the first address record among the answers.
    pub fn get_first_a(&self) -> (r: Option<Ipv4Addr>)
        ensures
            r == crate::wire::first_a(self@.answers),
    {
        let ghost av = records_view(self.answers@);
        proof {
            assert(av.skip(0) =~= av);
        }
        let mut i: usize = 0;
        while i < self.answers.len()
            invariant
                i <= av.len(),
                crate::wire::first_a(av) == crate::wire::first_a(av.skip(i as int)),
            decreases av.len() - i,
        {
            match &self.answers[i] {
                DnsRecord::A { addr, .. } => {
                    proof {
                        assert(av.skip(i as int)[0] == av[i as int]);
                    }
                    return Some(*addr);
                },
                _ => {
                    proof {
                        assert(av.skip(i as int)[0] == av[i as int]);
                        assert(av.skip(i as int).drop_first() =~= av.skip(i as int + 1));
                    }
                },
            }
            i = i + 1;
        }
        proof {
            assert(av.skip(av.len() as int) =~= Seq::<SpecRecord>::empty());
        }
        None
    }

    /// The target of the first canonical-name record among the answers.
    pub fn get_first_cname(&self) -> (r: Option<String>)
        ensures
            match r {
                Some(host) => crate::wire::first_cname(self@.answers) == Some(host@),
                None => crate::wire::first_cname(self@.answers) is None,
            },
    {
        let ghost av = records_view(self.answers@);
        proof {
            assert(av.skip(0) =~= av);
        }
        let mut i: usize = 0;
        while i < self.answers.len()
            invariant
                i <= av.len(),
                crate::wire::first_cname(av) == crate::wire::first_cname(av.skip(i as int)),
            decreases av.len() - i,
        {
            match &self.answers[i] {
                DnsRecord::CNAME { host, .. } => {
                    proof {
                        assert(av.skip(i as int)[0] == av[i as int]);
                    }
                    return Some(host.clone());
                },
                _ => {
                    proof {
                        assert(av.skip(i as int)[0] == av[i as int]);
                        assert(av.skip(i as int).drop_first() =~= av.skip(i as int + 1));
                    }
                },
            }
            i = i + 1;
        }
        proof {
            assert(av.skip(av.len() as int) =~= Seq::<SpecRecord>::empty());
        }
        None
    }

    /// The address of the first record in the additional section that
    /// is an address record owned by the host of a name server of the
    /// authority section whose zone covers `qname`.
    pub fn get_resolved_ns(&self, qname: &str) -> (r: Option<Ipv4Addr>)
        ensures
            r == crate::wire::resolved_ns(
                records_view(self.authorities@),
                records_view(self.resources@),
                qname@,
            ),
    {
        let ghost nv = records_view(self.authorities@);
        let ghost rv = records_view(self.resources@);
        proof {
            assert(rv.skip(0) =~= rv);
        }
        let mut j: usize = 0;
        while j < self.resources.len()
            invariant
                j <= rv.len(),
                crate::wire::resolved_ns(nv, rv, qname@) == crate::wire::resolved_ns(
                    nv,
                    rv.skip(j as int),
                    qname@,
                ),
            decreases rv.len() - j,
        {
            proof {
                assert(rv.skip(j as int)[0] == rv[j as int]);
                assert(rv.skip(j as int).drop_first() =~= rv.skip(j as int + 1));
            }
            match &self.resources[j] {
                DnsRecord::A { domain, addr, .. } => {
                    if self.has_matching_ns(qname, domain) {
                        return Some(*addr);
                    }
                },
                _ => {},
            }
            j = j + 1;
        }
        proof {
            assert(rv.skip(rv.len() as int) =~= Seq::<SpecRecord>::empty());
        }
        None
    }

    /// Whether some name server of the authority section matches
    /// `qname` and names `target` as its host.
    fn has_matching_ns(&self, qname: &str, target: &String) -> (r: bool)
        ensures
            r == crate::wire::is_matched_host(records_view(self.authorities@), qname@, target@),
    {
        let ghost nv = records_view(self.authorities@);
        let mut i: usize = 0;
        while i < self.authorities.len()
            invariant
                i <= nv.len(),
                forall|k: int|
                    0 <= k < i ==> !(#[trigger] nv[k] matches SpecRecord::Ns { domain, host, .. }
                        && crate::wire::spec_ends_with(qname@, domain) && host == target@),
            decreases nv.len() - i,
        {
            match &self.authorities[i] {
                DnsRecord::NS { domain, host, .. } => {
                    if str_ends_with(qname, domain.as_str()) && *host == *target {
                        proof {
                            assert(nv[i as int] matches SpecRecord::Ns { domain: d, host: h, .. }
                                && crate::wire::spec_ends_with(qname@, d) && h == target@);
                        }
                        return true;
                    }
                },
                _ => {},
            }
            i = i + 1;
        }
        false
    }

    /// The first glue address of `host` among the additional records.
    fn find_glue(&self, host: &String) -> (r: Option<Ipv4Addr>)
        ensures
            r == crate::wire::glue_for(records_view(self.resources@), host@),
    {
        let ghost rv = records_view(self.resources@);
        proof {
            assert(rv.skip(0) =~= rv);
        }
        let mut j: usize = 0;
        while j < self.resources.len()
            invariant
                j <= rv.len(),
                crate::wire::glue_for(rv, host@) == crate::wire::glue_for(
                    rv.skip(j as int),
                    host@,
                ),
            decreases rv.len() - j,
        {
            proof {
                assert(rv.skip(j as int)[0] == rv[j as int]);
                assert(rv.skip(j as int).drop_first() =~= rv.skip(j as int + 1));
            }
            match &self.resources[j] {
                DnsRecord::A { domain, addr, .. } => {
                    if *domain == *host {
                        return Some(*addr);
                    }
                },
                _ => {},
            }
            j = j + 1;
        }
        proof {
            assert(rv.skip(rv.len() as int) =~= Seq::<SpecRecord>::empty());
        }
        None
    }

    /// The host of the first name server in the authority section whose
    /// zone covers `qname` and that has no glue address in the
    /// additional section.
    pub fn get_unresolved_ns(&self, qname: &str) -> (r: Option<String>)
        ensures
            match r {
                Some(host) => crate::wire::unresolved_ns(
                    records_view(self.authorities@),
                    records_view(self.resources@),
                    qname@,
                ) == Some(host@),
                None => crate::wire::unresolved_ns(
                    records_view(self.authorities@),
                    records_view(self.resources@),
                    qname@,
                ) is None,
            },
    {
        let ghost nv = records_view(self.authorities@);
        let ghost rv = records_view(self.resources@);
        proof {
            assert(nv.skip(0) =~= nv);
        }
        let mut i: usize = 0;
        while i < self.authorities.len()
            invariant
                i <= nv.len(),
                crate::wire::unresolved_ns(nv, rv, qname@) == crate::wire::unresolved_ns(
                    nv.skip(i as int),
                    rv,
                    qname@,
                ),
            decreases nv.len() - i,
        {
            proof {
                assert(nv.skip(i as int)[0] == nv[i as int]);
                assert(nv.skip(i as int).drop_first() =~= nv.skip(i as int + 1));
            }
            match &self.authorities[i] {
                DnsRecord::NS { domain, host, .. } => {
                    if str_ends_with(qname, domain.as_str()) {
                        if self.find_glue(host).is_none() {
                            return Some(host.clone());
                        }
                    }
                },
                _ => {},
            }
            i = i + 1;
        }
        proof {
            assert(nv.skip(nv.len() as int) =~= Seq::<SpecRecord>::empty());
        }
        None
    }
}

/// The head shared by every written record: the owner name's wire form,
/// the numeric type, class one, and the time to live.
spec fn pre_bytes(domain: Seq<char>, qtype_num: u16, ttl: u32) -> Seq<u8> {
    name_wire(domain) + be16_bytes(qtype_num) + be16_bytes(1) + be32_bytes(ttl)
}

/// Write the head shared by every record: name, type, class one, time
/// to live. Returns the number of bytes written.
fn write_preamble(buffer: &mut PacketWriter, domain: &String, qtype_num: u16, ttl: u32) -> (r:
    Result<usize, DnsError>)
    requires
        old(buffer).wf(),
        name_fits(domain@),
    ensures
        r matches Ok(n) && n == pre_bytes(domain@, qtype_num, ttl).len() && n == name_wire(
            domain@,
        ).len() + 8 && n <= 263,
        final(buffer).bytes() == splice(
            old(buffer).bytes(),
            old(buffer).wpos(),
            pre_bytes(domain@, qtype_num, ttl),
        ),
        final(buffer).wpos() == old(buffer).wpos() + pre_bytes(domain@, qtype_num, ttl).len(),
        final(buffer).wf(),
{
    let ghost d0 = buffer.bytes();
    let ghost p0 = buffer.wpos();
    proof {
        crate::name::lemma_encode_name_len(vstd::utf8::encode_utf8(domain@));
    }
    let name_n = buffer.write_name(domain.as_str())?;
    buffer.write_u16(qtype_num)?;
    proof {
        lemma_splice_concat(d0, p0, name_wire(domain@), be16_bytes(qtype_num));
    }
    buffer.write_u16(1)?;
    proof {
        lemma_splice_concat(d0, p0, name_wire(domain@) + be16_bytes(qtype_num), be16_bytes(1));
    }
    buffer.write_u32(ttl)?;
    proof {
        lemma_splice_concat(
            d0,
            p0,
            name_wire(domain@) + be16_bytes(qtype_num) + be16_bytes(1),
            be32_bytes(ttl),
        );
    }
    Ok(name_n + 8)
}

/// The payload of a start-of-authority record behind its length octets.
spec fn soa_rdata_bytes(
    m_name: Seq<char>,
    r_name: Seq<char>,
    serial: u32,
    refresh: u32,
    retry: u32,
    expire: u32,
    minimum: u32,
) -> Seq<u8> {
    be16_bytes(rdlen_soa(m_name, r_name)) + name_wire(m_name) + name_wire(r_name) + be32_bytes(
        serial,
    ) + be32_bytes(refresh) + be32_bytes(retry) + be32_bytes(expire) + be32_bytes(minimum)
}

/// Write the length octets and payload of a start-of-authority record.
/// Returns the number of bytes written.
#[verifier::rlimit(60)]
fn write_soa_rdata(
    buffer: &mut PacketWriter,
    m_name: &String,
    r_name: &String,
    serial: u32,
    refresh: u32,
    retry: u32,
    expire: u32,
    minimum: u32,
) -> (r: Result<usize, DnsError>)
    requires
        old(buffer).wf(),
        name_fits(m_name@),
        name_fits(r_name@),
    ensures
        r matches Ok(n) && n == soa_rdata_bytes(
            m_name@,
            r_name@,
            serial,
            refresh,
            retry,
            expire,
            minimum,
        ).len() && n <= 1024,
        final(buffer).bytes() == splice(
            old(buffer).bytes(),
            old(buffer).wpos(),
            soa_rdata_bytes(m_name@, r_name@, serial, refresh, retry, expire, minimum),
        ),
        final(buffer).wpos() == old(buffer).wpos() + soa_rdata_bytes(
            m_name@,
            r_name@,
            serial,
            refresh,
            retry,
            expire,
            minimum,
        ).len(),
        final(buffer).wf(),
{
    let ghost d0 = buffer.bytes();
    let ghost p0 = buffer.wpos();
    let rdlen = buffer.get_name_len(m_name.as_str()) + buffer.get_name_len(r_name.as_str()) + 20;
    buffer.write_u16(rdlen as u16)?;
    let ghost a0 = be16_bytes(rdlen_soa(m_name@, r_name@));
    let m_n = buffer.write_name(m_name.as_str())?;
    proof {
        lemma_splice_concat(d0, p0, a0, name_wire(m_name@));
    }
    let ghost a1 = a0 + name_wire(m_name@);
    let r_n = buffer.write_name(r_name.as_str())?;
    proof {
        lemma_splice_concat(d0, p0, a1, name_wire(r_name@));
    }
    let ghost a2 = a1 + name_wire(r_name@);
    buffer.write_u32(serial)?;
    proof {
        lemma_splice_concat(d0, p0, a2, be32_bytes(serial));
    }
    let ghost a3 = a2 + be32_bytes(serial);
    buffer.write_u32(refresh)?;
    proof {
        lemma_splice_concat(d0, p0, a3, be32_bytes(refresh));
    }
    let ghost a4 = a3 + be32_bytes(refresh);
    buffer.write_u32(retry)?;
    proof {
        lemma_splice_concat(d0, p0, a4, be32_bytes(retry));
    }
    let ghost a5 = a4 + be32_bytes(retry);
    buffer.write_u32(expire)?;
    proof {
        lemma_splice_concat(d0, p0, a5, be32_bytes(expire));
    }
    let ghost a6 = a5 + be32_bytes(expire);
    buffer.write_u32(minimum)?;
    proof {
        lemma_splice_concat(d0, p0, a6, be32_bytes(minimum));
        assert(a6 + be32_bytes(minimum) =~= soa_rdata_bytes(
            m_name@,
            r_name@,
            serial,
            refresh,
            retry,
            expire,
            minimum,
        ));
    }
    Ok(2 + m_n + r_n + 20)
}

/// The payload of an address record behind its length octets.
spec fn a_rdata_bytes(addr: Ipv4Addr) -> Seq<u8> {
    be16_bytes(4) + be32_bytes(addr.bits)
}

/// Write the length octets and payload of an address record.
fn write_a_rdata(buffer: &mut PacketWriter, addr: &Ipv4Addr) -> (r: Result<usize, DnsError>)
    requires
        old(buffer).wf(),
    ensures
        r matches Ok(n) && n == 6,
        a_rdata_bytes(*addr).len() == 6,
        final(buffer).bytes() == splice(old(buffer).bytes(), old(buffer).wpos(), a_rdata_bytes(*addr)),
        final(buffer).wpos() == old(buffer).wpos() + 6,
        final(buffer).wf(),
{
    let ghost d0 = buffer.bytes();
    let ghost p0 = buffer.wpos();
    buffer.write_u16(4)?;
    buffer.write_u32(addr.bits)?;
    proof {
        lemma_splice_concat(d0, p0, be16_bytes(4), be32_bytes(addr.bits));
    }
    Ok(6)
}

/// The payload of a version 6 address record behind its length octets.
spec fn aaaa_rdata_bytes(addr: Ipv6Addr) -> Seq<u8> {
    be16_bytes(16) + be32_bytes(addr.w0) + be32_bytes(addr.w1) + be32_bytes(addr.w2) + be32_bytes(
        addr.w3,
    )
}

/// Write the length octets and payload of a version 6 address record.
fn write_aaaa_rdata(buffer: &mut PacketWriter, addr: &Ipv6Addr) -> (r: Result<usize, DnsError>)
    requires
        old(buffer).wf(),
    ensures
        r matches Ok(n) && n == 18,
        aaaa_rdata_bytes(*addr).len() == 18,
        final(buffer).bytes() == splice(
            old(buffer).bytes(),
            old(buffer).wpos(),
            aaaa_rdata_bytes(*addr),
        ),
        final(buffer).wpos() == old(buffer).wpos() + 18,
        final(buffer).wf(),
{
    let ghost d0 = buffer.bytes();
    let ghost p0 = buffer.wpos();
    buffer.write_u16(16)?;
    proof {
        lemma_splice_concat(d0, p0, be16_bytes(16), be32_bytes(addr.w0));
    }
    buffer.write_u32(addr.w0)?;
    proof {
        lemma_splice_concat(d0, p0, be16_bytes(16), be32_bytes(addr.w0));
    }
    let ghost a1 = be16_bytes(16) + be32_bytes(addr.w0);
    buffer.write_u32(addr.w1)?;
    proof {
        lemma_splice_concat(d0, p0, a1, be32_bytes(addr.w1));
    }
    let ghost a2 = a1 + be32_bytes(addr.w1);
    buffer.write_u32(addr.w2)?;
    proof {
        lemma_splice_concat(d0, p0, a2, be32_bytes(addr.w2));
    }
    let ghost a3 = a2 + be32_bytes(addr.w2);
    buffer.write_u32(addr.w3)?;
    proof {
        lemma_splice_concat(d0, p0, a3, be32_bytes(addr.w3));
        assert(a3 + be32_bytes(addr.w3) =~= aaaa_rdata_bytes(*addr));
    }
    Ok(18)
}

/// The payload of a record that carries one host name, behind its
/// length octets.
spec fn host_rdata_bytes(host: Seq<char>) -> Seq<u8> {
    be16_bytes(rdlen_name(host)) + name_wire(host)
}

/// Write the length octets and payload of a record that carries one
/// host name.
fn write_host_rdata(buffer: &mut PacketWriter, host: &String) -> (r: Result<usize, DnsError>)
    requires
        old(buffer).wf(),
        name_fits(host@),
    ensures
        r matches Ok(n) && n == host_rdata_bytes(host@).len() && n <= 300,
        final(buffer).bytes() == splice(
            old(buffer).bytes(),
            old(buffer).wpos(),
            host_rdata_bytes(host@),
        ),
        final(buffer).wpos() == old(buffer).wpos() + host_rdata_bytes(host@).len(),
        final(buffer).wf(),
{
    let ghost d0 = buffer.bytes();
    let ghost p0 = buffer.wpos();
    let rdlen = buffer.get_name_len(host.as_str());
    buffer.write_u16(rdlen as u16)?;
    let host_n = buffer.write_name(host.as_str())?;
    proof {
        lemma_splice_concat(d0, p0, be16_bytes(rdlen_name(host@)), name_wire(host@));
    }
    Ok(2 + host_n)
}

/// The payload of a mail exchange record behind its length octets: the
/// priority, then the host name.
spec fn mx_rdata_bytes(priority: u16, host: Seq<char>) -> Seq<u8> {
    be16_bytes(rdlen_mx(host)) + be16_bytes(priority) + name_wire(host)
}

/// Write the length octets and payload of a mail exchange record.
fn write_mx_rdata(buffer: &mut PacketWriter, priority: u16, host: &String) -> (r: Result<
    usize,
    DnsError,
>)
    requires
        old(buffer).wf(),
        name_fits(host@),
    ensures
        r matches Ok(n) && n == mx_rdata_bytes(priority, host@).len() && n <= 300,
        final(buffer).bytes() == splice(
            old(buffer).bytes(),
            old(buffer).wpos(),
            mx_rdata_bytes(priority, host@),
        ),
        final(buffer).wpos() == old(buffer).wpos() + mx_rdata_bytes(priority, host@).len(),
        final(buffer).wf(),
{
    let ghost d0 = buffer.bytes();
    let ghost p0 = buffer.wpos();
    let rdlen = buffer.get_name_len(host.as_str()) + 2;
    buffer.write_u16(rdlen as u16)?;
    let ghost a0 = be16_bytes(rdlen_mx(host@));
    buffer.write_u16(priority)?;
    proof {
        lemma_splice_concat(d0, p0, a0, be16_bytes(priority));
    }
    let host_n = buffer.write_name(host.as_str())?;
    proof {
        lemma_splice_concat(d0, p0, a0 + be16_bytes(priority), name_wire(host@));
    }
    Ok(4 + host_n)
}

/// Read `count` questions one after another.
fn read_questions(buffer: &mut PacketReader, count: u16) -> (r: Result<Vec<DnsQuestion>, DnsError>)
    ensures
        final(buffer).buf@ == old(buffer).buf@,
        match crate::wire::parse_questions(old(buffer).buf@, old(buffer).pos as int, count as int) {
            Parsed::Done { v, end } => (r matches Ok(qs) && questions_view(qs@) == v
                && final(buffer).pos == end),
            Parsed::Trunc => (r matches Err(e) && e == DnsError::Truncated),
            Parsed::Loop => (r matches Err(e) && e == DnsError::NameLoop),
        },
{
    let ghost data = buffer.buf@;
    let ghost q0 = buffer.pos as int;
    let mut out: Vec<DnsQuestion> = Vec::new();
    proof {
        assert(questions_view(out@) =~= Seq::<SpecQuestion>::empty());
    }
    let mut i: usize = 0;
    while i < count as usize
        invariant
            i <= count,
            buffer.buf@ == data,
            out@.len() == i,
            crate::wire::parse_questions(data, q0, i as int) == (Parsed::Done {
                v: questions_view(out@),
                end: buffer.pos as int,
            }),
        decreases count - i,
    {
        let ghost p = buffer.pos as int;
        let mut question = DnsQuestion::new();
        match question.read(buffer) {
            Ok(()) => {},
            Err(e) => {
                proof {
                    crate::wire::lemma_parse_questions_split(data, q0, i as int, count as int);
                }
                return Err(e);
            },
        }
        proof {
            let e = buffer.pos as int;
            assert(parse_question(data, p) == (Parsed::Done { v: question@, end: e }));
            assert(crate::wire::parse_questions(data, e, 0) == (Parsed::Done {
                v: Seq::<SpecQuestion>::empty(),
                end: e,
            }));
            assert(seq![question@] + Seq::<SpecQuestion>::empty() =~= seq![question@]);
            assert(crate::wire::parse_questions(data, p, 1) == (Parsed::Done {
                v: seq![question@],
                end: e,
            }));
            crate::wire::lemma_parse_questions_split(data, q0, i as int, i as int + 1);
            assert(questions_view(out@) + seq![question@] =~= questions_view(out@.push(question)));
            assert(crate::wire::parse_questions(data, q0, i as int + 1) == (Parsed::Done {
                v: questions_view(out@.push(question)),
                end: e,
            }));
        }
        out.push(question);
        i = i + 1;
    }
    Ok(out)
}

/// Read `count` records one after another.
fn read_records(buffer: &mut PacketReader, count: u16) -> (r: Result<Vec<DnsRecord>, DnsError>)
    ensures
        final(buffer).buf@ == old(buffer).buf@,
        match crate::wire::parse_records(old(buffer).buf@, old(buffer).pos as int, count as int) {
            Parsed::Done { v, end } => (r matches Ok(rs) && records_view(rs@) == v
                && final(buffer).pos == end),
            Parsed::Trunc => (r matches Err(e) && e == DnsError::Truncated),
            Parsed::Loop => (r matches Err(e) && e == DnsError::NameLoop),
        },
{
    let ghost data = buffer.buf@;
    let ghost r0 = buffer.pos as int;
    let mut out: Vec<DnsRecord> = Vec::new();
    proof {
        assert(records_view(out@) =~= Seq::<SpecRecord>::empty());
    }
    let mut i: usize = 0;
    while i < count as usize
        invariant
            i <= count,
            buffer.buf@ == data,
            out@.len() == i,
            crate::wire::parse_records(data, r0, i as int) == (Parsed::Done {
                v: records_view(out@),
                end: buffer.pos as int,
            }),
        decreases count - i,
    {
        let ghost p = buffer.pos as int;
        let rec = match DnsRecord::read(buffer) {
            Ok(rec) => rec,
            Err(e) => {
                proof {
                    crate::wire::lemma_parse_records_split(data, r0, i as int, count as int);
                }
                return Err(e);
            },
        };
        proof {
            let e = buffer.pos as int;
            assert(parse_record(data, p) == (Parsed::Done { v: rec@, end: e }));
            assert(crate::wire::parse_records(data, e, 0) == (Parsed::Done {
                v: Seq::<SpecRecord>::empty(),
                end: e,
            }));
            assert(seq![rec@] + Seq::<SpecRecord>::empty() =~= seq![rec@]);
            assert(crate::wire::parse_records(data, p, 1) == (Parsed::Done {
                v: seq![rec@],
                end: e,
            }));
            crate::wire::lemma_parse_records_split(data, r0, i as int, i as int + 1);
            assert(records_view(out@) + seq![rec@] =~= records_view(out@.push(rec)));
            assert(crate::wire::parse_records(data, r0, i as int + 1) == (Parsed::Done {
                v: records_view(out@.push(rec)),
                end: e,
            }));
        }
        out.push(rec);
        i = i + 1;
    }
    Ok(out)
}

/// Write the questions of a packet one after another. Returns the
/// number of bytes written.
fn write_questions(buffer: &mut PacketWriter, qs: &Vec<DnsQuestion>) -> (r: Result<
    usize,
    DnsError,
>)
    requires
        old(buffer).wf(),
        forall|i: int| 0 <= i < qs@.len() ==> name_fits(#[trigger] questions_view(qs@)[i].name),
    ensures
        r matches Ok(n) && n == crate::wire::cat_questions(questions_view(qs@)).len(),
        final(buffer).bytes() == splice(
            old(buffer).bytes(),
            old(buffer).wpos(),
            crate::wire::cat_questions(questions_view(qs@)),
        ),
        final(buffer).wpos() == old(buffer).wpos() + crate::wire::cat_questions(
            questions_view(qs@),
        ).len(),
        final(buffer).wf(),
{
    let ghost d0 = buffer.bytes();
    let ghost p0 = buffer.wpos();
    let ghost qv = questions_view(qs@);
    let mut size: usize = 0;
    proof {
        assert(crate::wire::cat_questions(qv.take(0)) =~= Seq::<u8>::empty());
        crate::packet::lemma_splice_empty(d0, p0);
    }
    let mut i: usize = 0;
    while i < qs.len()
        invariant
            i <= qs@.len(),
            buffer.wf(),
            buffer.bytes() == splice(d0, p0, crate::wire::cat_questions(qv.take(i as int))),
            buffer.wpos() == p0 + crate::wire::cat_questions(qv.take(i as int)).len(),
            size == buffer.wpos() - p0,
        decreases qs@.len() - i,
    {
        let ghost acc = crate::wire::cat_questions(qv.take(i as int));
        let q = &qs[i];
        proof {
            assert(q@ == qv[i as int]);
            assert(name_fits(questions_view(qs@)[i as int].name));
        }
        let qn = q.write(buffer)?;
        proof {
            lemma_splice_concat(d0, p0, acc, question_bytes(q@));
            crate::wire::lemma_cat_questions_snoc(qv.take(i as int), qv[i as int]);
            assert(qv.take(i as int).push(qv[i as int]) =~= qv.take(i as int + 1));
            buffer.wpos_in_range();
        }
        size = size + qn;
        i = i + 1;
    }
    proof {
        assert(qv.take(qs@.len() as int) =~= qv);
    }
    Ok(size)
}

/// Write the records of one section one after another. Returns the
/// number of bytes written.
fn write_records(buffer: &mut PacketWriter, rs: &Vec<DnsRecord>) -> (r: Result<usize, DnsError>)
    requires
        old(buffer).wf(),
        forall|i: int| 0 <= i < rs@.len() ==> crate::wire::record_fits(
            #[trigger] records_view(rs@)[i],
        ),
    ensures
        r matches Ok(n) && n == crate::wire::cat_records(records_view(rs@)).len(),
        final(buffer).bytes() == splice(
            old(buffer).bytes(),
            old(buffer).wpos(),
            crate::wire::cat_records(records_view(rs@)),
        ),
        final(buffer).wpos() == old(buffer).wpos() + crate::wire::cat_records(
            records_view(rs@),
        ).len(),
        final(buffer).wf(),
{
    let ghost d0 = buffer.bytes();
    let ghost p0 = buffer.wpos();
    let ghost rv = records_view(rs@);
    let mut size: usize = 0;
    proof {
        assert(crate::wire::cat_records(rv.take(0)) =~= Seq::<u8>::empty());
        crate::packet::lemma_splice_empty(d0, p0);
    }
    let mut i: usize = 0;
    while i < rs.len()
        invariant
            i <= rs@.len(),
            buffer.wf(),
            buffer.bytes() == splice(d0, p0, crate::wire::cat_records(rv.take(i as int))),
            buffer.wpos() == p0 + crate::wire::cat_records(rv.take(i as int)).len(),
            size == buffer.wpos() - p0,
        decreases rs@.len() - i,
    {
        let ghost acc = crate::wire::cat_records(rv.take(i as int));
        let rec = &rs[i];
        proof {
            assert(rec@ == rv[i as int]);
            assert(crate::wire::record_fits(records_view(rs@)[i as int]));
        }
        let rn = rec.write(buffer)?;
        proof {
            lemma_splice_concat(d0, p0, acc, record_bytes(rec@));
            crate::wire::lemma_cat_records_snoc(rv.take(i as int), rv[i as int]);
            assert(rv.take(i as int).push(rv[i as int]) =~= rv.take(i as int + 1));
            buffer.wpos_in_range();
        }
        size = size + rn;
        i = i + 1;
    }
    proof {
        assert(rv.take(rs@.len() as int) =~= rv);
    }
    Ok(size)
}

/// Whether `d` is a tail of `q`, character for character.
pub fn str_ends_with(q: &str, d: &str) -> (r: bool)
    ensures
        r == crate::wire::spec_ends_with(q@, d@),
{
    let n = q.unicode_len();
    let m = d.unicode_len();
    if m > n {
        return false;
    }
    let mut i: usize = 0;
    while i < m
        invariant
            i <= m,
            m <= n,
            n == q@.len(),
            m == d@.len(),
            forall|j: int| 0 <= j < i ==> q@[n - m + j] == d@[j],
        decreases m - i,
    {
        if q.get_char(n - m + i) != d.get_char(i) {
            proof {
                if crate::wire::spec_ends_with(q@, d@) {
                    assert(q@.subrange(n - m, n as int)[i as int] == d@[i as int]);
                }
            }
            return false;
        }
        i = i + 1;
    }
    proof {
        assert(q@.subrange(n - m, n as int) =~= d@);
    }
    true
}

} // verus!
