use dns::dns::{DnsHeader, DnsPacket, DnsQuestion, DnsRecord, Ipv4Addr, QueryType, ResultCode};
use dns::packet::{DnsError, PacketReader, PacketWriter};

fn sample_response() -> Vec<u8> {
    vec![
        0x72, 0x6b, 0x81, 0x80, 0x00, 0x01, 0x00, 0x02, 0x00, 0x00, 0x00, 0x00, 0x05, 0x62, 0x61,
        0x69, 0x64, 0x75, 0x03, 0x63, 0x6f, 0x6d, 0x00, 0x00, 0x01, 0x00, 0x01, 0xc0, 0x0c, 0x00,
        0x01, 0x00, 0x01, 0x00, 0x00, 0x00, 0xb2, 0x00, 0x04, 0xdc, 0xb5, 0x26, 0x94, 0xc0, 0x0c,
        0x00, 0x01, 0x00, 0x01, 0x00, 0x00, 0x00, 0xb2, 0x00, 0x04, 0xdc, 0xb5, 0x26, 0xfb,
    ]
}

#[test]
fn packet_buffer_reader() {
    let data = sample_response();
    let mut pr = PacketReader::new(data);

    pr.step(12).unwrap();

    let s = pr.read_name().unwrap();
    assert_eq!("baidu.com", s);
    println!("position1 {}", pr.pos);

    pr.step(4).unwrap();

    let s = pr.read_name().unwrap();
    assert_eq!("baidu.com", s);
    println!("position2 {}", pr.pos);

    pr.step(14).unwrap();

    let s = pr.read_name().unwrap();
    assert_eq!("baidu.com", s);
    println!("position3 {}", pr.pos);
}

#[test]
fn packet_write() {
    let v = vec![0; 10];
    let domain_name = "baidu.com";
    let mut pw = PacketWriter::new(v);
    pw.write_name(domain_name).unwrap();
    assert_eq!(&vec![5, 98, 97, 105, 100, 117, 3, 99, 111, 109, 0], pw.get_ref());
}

#[test]
fn name_decode_with_pointers_positions() {
    // After the twelve-octet header one plain name, then two names that
    // reach it through the pointer 0xC00C.
    let mut pr = PacketReader::new(sample_response());
    pr.step(12).unwrap();
    assert_eq!("baidu.com", pr.read_name().unwrap());
    assert_eq!(23, pr.pos);
    pr.step(4).unwrap();
    assert_eq!("baidu.com", pr.read_name().unwrap());
    assert_eq!(29, pr.pos);
    pr.step(14).unwrap();
    assert_eq!("baidu.com", pr.read_name().unwrap());
    assert_eq!(45, pr.pos);
}

#[test]
fn name_decode_lowercases() {
    let mut pr = PacketReader::new(vec![5, b'B', b'a', b'I', b'd', b'U', 3, b'C', b'o', b'M', 0]);
    assert_eq!("baidu.com", pr.read_name().unwrap());
}

#[test]
fn name_encode_bytes() {
    let mut pw = PacketWriter::new(Vec::new());
    let n = pw.write_name("baidu.com").unwrap();
    assert_eq!(11, n);
    assert_eq!(&vec![5, 98, 97, 105, 100, 117, 3, 99, 111, 109, 0], pw.get_ref());
    assert_eq!(11, pw.get_name_len("baidu.com"));
}

#[test]
fn name_self_pointer_fails_with_loop() {
    // The first label is a pointer to itself.
    let mut pr = PacketReader::new(vec![0xC0, 0x00]);
    assert_eq!(Err(DnsError::NameLoop), pr.read_name());
}

#[test]
fn name_truncated_label_fails() {
    let mut pr = PacketReader::new(vec![5, b'a', b'b']);
    assert_eq!(Err(DnsError::Truncated), pr.read_name());
}

#[test]
fn reads_past_end_fail() {
    let mut pr = PacketReader::new(vec![1]);
    assert_eq!(Err(DnsError::Truncated), pr.read_u16());
    let mut pr = PacketReader::new(vec![1, 2, 3]);
    assert_eq!(Err(DnsError::Truncated), pr.read_u32());
    let mut pr = PacketReader::new(Vec::new());
    assert_eq!(Err(DnsError::Truncated), pr.read_u8());
}

#[test]
fn query_type_numbers_round_trip() {
    for x in [0u16, 1, 2, 5, 6, 15, 28, 99, 65535] {
        assert_eq!(x, QueryType::from_num(x).to_num());
    }
    assert_eq!(QueryType::A, QueryType::from_num(1));
    assert_eq!(QueryType::UNKNOWN(99), QueryType::from_num(99));
}

#[test]
fn result_code_numbers() {
    assert_eq!(ResultCode::NOERROR, ResultCode::from_num(0));
    assert_eq!(ResultCode::FORMERR, ResultCode::from_num(1));
    assert_eq!(ResultCode::SERVFAIL, ResultCode::from_num(2));
    assert_eq!(ResultCode::NXDOMAIN, ResultCode::from_num(3));
    assert_eq!(ResultCode::NOTIMP, ResultCode::from_num(4));
    assert_eq!(ResultCode::REFUSED, ResultCode::from_num(5));
    // Unknown codes fall back to NOERROR.
    assert_eq!(ResultCode::NOERROR, ResultCode::from_num(77));
}

#[test]
fn header_bit_pack() {
    let mut h = DnsHeader::new();
    h.id = 0x1234;
    h.qr = true;
    h.opcode = 0;
    h.rd = true;
    h.ra = true;
    h.rcode = ResultCode::NOERROR;
    let mut pw = PacketWriter::new(Vec::new());
    assert_eq!(12, h.write(&mut pw).unwrap());
    assert_eq!(
        &vec![0x12, 0x34, 0x81, 0x80, 0x00, 0x00, 0x00, 0x00, 0x00, 0x00, 0x00, 0x00],
        pw.get_ref()
    );
}

#[test]
fn header_round_trips() {
    let mut h = DnsHeader::new();
    h.id = 0xBEEF;
    h.qr = true;
    h.opcode = 11;
    h.aa = true;
    h.tc = false;
    h.rd = true;
    h.ra = false;
    h.z = true;
    h.ad = false;
    h.cd = true;
    h.rcode = ResultCode::REFUSED;
    h.qd_count = 1;
    h.an_count = 513;
    h.ns_count = 7;
    h.ar_count = 65535;
    let mut pw = PacketWriter::new(Vec::new());
    h.write(&mut pw).unwrap();
    let mut pr = PacketReader::new(pw.into_bytes());
    let mut back = DnsHeader::new();
    back.read(&mut pr).unwrap();
    assert_eq!(h, back);
}

#[test]
fn a_record_round_trips() {
    let rec = DnsRecord::A {
        domain: String::from("example.com"),
        addr: Ipv4Addr::new(93, 184, 216, 34),
        ttl: 3600,
    };
    let mut pw = PacketWriter::new(Vec::new());
    let n = rec.write(&mut pw).unwrap();
    // name (13) + type + class + ttl + rdlength (10) + address (4)
    assert_eq!(27, n);
    let mut pr = PacketReader::new(pw.into_bytes());
    let back = DnsRecord::read(&mut pr).unwrap();
    assert_eq!(rec, back);
}

#[test]
fn mx_and_soa_records_round_trip() {
    let mx = DnsRecord::MX {
        domain: String::from("example.com"),
        priority: 10,
        host: String::from("mail.example.com"),
        ttl: 300,
    };
    let soa = DnsRecord::SOA {
        domain: String::from("example.com"),
        m_name: String::from("ns1.example.com"),
        r_name: String::from("hostmaster.example.com"),
        serial: 2024,
        refresh: 7200,
        retry: 600,
        expire: 86400,
        minimum: 60,
        ttl: 1800,
    };
    for rec in [mx, soa] {
        let mut pw = PacketWriter::new(Vec::new());
        rec.write(&mut pw).unwrap();
        let mut pr = PacketReader::new(pw.into_bytes());
        assert_eq!(rec, DnsRecord::read(&mut pr).unwrap());
    }
}

#[test]
fn counts_recomputed_on_write() {
    let mut packet = DnsPacket::new();
    let mut q = DnsQuestion::new();
    q.name = String::from("example.com");
    q.qtype = QueryType::A;
    q.qclass = 1;
    packet.questions.push(q);
    packet.answers.push(DnsRecord::A {
        domain: String::from("example.com"),
        addr: Ipv4Addr::new(1, 2, 3, 4),
        ttl: 60,
    });
    packet.answers.push(DnsRecord::A {
        domain: String::from("example.com"),
        addr: Ipv4Addr::new(5, 6, 7, 8),
        ttl: 60,
    });
    // The header still announces nothing; serializing recounts it.
    assert_eq!(0, packet.header.an_count);
    let mut pw = PacketWriter::new(Vec::new());
    packet.write(&mut pw).unwrap();
    assert_eq!(1, packet.header.qd_count);
    assert_eq!(2, packet.header.an_count);
    assert_eq!(0, packet.header.ns_count);
    assert_eq!(0, packet.header.ar_count);
    // The wire form announces the same counts.
    let bytes = pw.into_bytes();
    assert_eq!(&bytes[4..6], &[0, 1]);
    assert_eq!(&bytes[6..8], &[0, 2]);
}

#[test]
fn packet_round_trips() {
    let mut packet = DnsPacket::new();
    packet.header.id = 4242;
    packet.header.qr = true;
    packet.header.rd = true;
    packet.header.ra = true;
    let mut q = DnsQuestion::new();
    q.name = String::from("www.example.com");
    q.qtype = QueryType::A;
    q.qclass = 1;
    packet.questions.push(q);
    packet.answers.push(DnsRecord::CNAME {
        domain: String::from("www.example.com"),
        host: String::from("example.com"),
        ttl: 120,
    });
    packet.answers.push(DnsRecord::A {
        domain: String::from("example.com"),
        addr: Ipv4Addr::new(93, 184, 216, 34),
        ttl: 3600,
    });
    packet.authorities.push(DnsRecord::NS {
        domain: String::from("example.com"),
        host: String::from("ns.example.com"),
        ttl: 900,
    });
    packet.resources.push(DnsRecord::A {
        domain: String::from("ns.example.com"),
        addr: Ipv4Addr::new(10, 0, 0, 53),
        ttl: 900,
    });
    let mut pw = PacketWriter::new(Vec::new());
    let n = packet.write(&mut pw).unwrap();
    let bytes = pw.into_bytes();
    assert_eq!(n, bytes.len());
    let mut pr = PacketReader::new(bytes);
    let back = DnsPacket::from_buffer(&mut pr).unwrap();
    assert_eq!(packet, back);
}

#[test]
fn unknown_record_is_skipped_on_read_and_dropped_on_write() {
    // type 99 with a three-octet payload, followed by nothing.
    let mut bytes = vec![
        3, b'f', b'o', b'o', 0, // foo
        0, 99, // type
        0, 1, // class
        0, 0, 0, 60, // ttl
        0, 3, // rdlength
        1, 2, 3, // payload
    ];
    let mut pr = PacketReader::new(bytes.clone());
    let rec = DnsRecord::read(&mut pr).unwrap();
    assert_eq!(
        DnsRecord::UNKNOWN { domain: String::from("foo"), qtype: 99, data_len: 3, ttl: 60 },
        rec
    );
    assert_eq!(bytes.len(), pr.pos);
    let mut pw = PacketWriter::new(Vec::new());
    assert_eq!(0, rec.write(&mut pw).unwrap());
    assert_eq!(0, pw.get_ref().len());
    bytes.truncate(0);
    assert_eq!(0, bytes.len());
}

#[test]
fn ipv6_record_round_trips() {
    let rec = DnsRecord::AAAA {
        domain: String::from("example.com"),
        addr: dns::dns::Ipv6Addr::new(0x2606, 0x2800, 0x220, 0x1, 0x248, 0x1893, 0x25c8, 0x1946),
        ttl: 3600,
    };
    let mut pw = PacketWriter::new(Vec::new());
    rec.write(&mut pw).unwrap();
    let mut pr = PacketReader::new(pw.into_bytes());
    assert_eq!(rec, DnsRecord::read(&mut pr).unwrap());
}

#[test]
fn ipv4_octets() {
    let a = Ipv4Addr::new(198, 41, 0, 4);
    assert_eq!([198, 41, 0, 4], a.octets());
    assert_eq!(0xC6290004, a.bits);
}

#[test]
fn name_round_trips_through_the_codec() {
    let long_label = "x".repeat(63);
    for name in ["a", "baidu.com", "a.bc.def.com", long_label.as_str()] {
        let mut pw = PacketWriter::new(Vec::new());
        pw.write_name(name).unwrap();
        let mut pr = PacketReader::new(pw.into_bytes());
        assert_eq!(name, pr.read_name().unwrap());
    }
}
