//! Octet cursor: a seekable byte source (`PacketReader`) and sink
//! (`PacketWriter`) with big-endian integer primitives.
//!
//! The reader walks an owned byte vector with a logical position; reads
//! past the end fail with `DnsError::Truncated`. The writer overwrites
//! the bytes of its vector from the current position on and grows the
//! vector once the position reaches its end, which is how a cursor over
//! a pre-sized reply buffer behaves.

use vstd::prelude::*;

use crate::name::{
    NameRead, compose_read, encode_name, first_dot, join_labels, label_chars,
    lemma_compose_read_empty, lemma_encode_name_len, lemma_join_push, lower_byte, name_read,
    name_read_at,
};
use vstd::string::StringSliceAdditionalSpecFns;

verus! {

/// Relies on String::push: appends one character to the string.
#[verifier::external_body]
fn push_char(s: &mut String, c: char)
    ensures
        final(s)@ == old(s)@.push(c),
{
    s.push(c);
}

/// The ways a codec operation can fail.
#[derive(Clone, Copy, Debug, PartialEq, Eq, Structural)]
pub enum DnsError {
    /// A read ran past the end of the buffer.
    Truncated,
    /// A compressed name followed more than the allowed number of pointers.
    NameLoop,
}

/// The value of `data` after `bs` has been written at position `pos`:
/// bytes under the new ones are overwritten, and the sequence grows
/// where the write runs past its end.
pub open spec fn splice(data: Seq<u8>, pos: int, bs: Seq<u8>) -> Seq<u8>
    recommends
        0 <= pos <= data.len(),
{
    if pos + bs.len() <= data.len() {
        data.subrange(0, pos) + bs + data.subrange(pos + bs.len(), data.len() as int)
    } else {
        data.subrange(0, pos) + bs
    }
}

/// Splicing nothing changes nothing.
pub proof fn lemma_splice_empty(data: Seq<u8>, pos: int)
    requires
        0 <= pos <= data.len(),
    ensures
        splice(data, pos, Seq::<u8>::empty()) == data,
{
    assert(splice(data, pos, Seq::<u8>::empty()) =~= data);
}

/// Two consecutive writes are one write of the concatenation.
pub proof fn lemma_splice_concat(data: Seq<u8>, pos: int, a: Seq<u8>, b: Seq<u8>)
    requires
        0 <= pos <= data.len(),
    ensures
        splice(splice(data, pos, a), pos + a.len(), b) == splice(data, pos, a + b),
{
    assert(splice(splice(data, pos, a), pos + a.len(), b) =~= splice(data, pos, a + b));
}

/// The big-endian value of two bytes.
pub open spec fn be16_of(hi: u8, lo: u8) -> u16 {
    ((hi as int) * 256 + (lo as int)) as u16
}

/// The big-endian value of four bytes.
pub open spec fn be32_of(b0: u8, b1: u8, b2: u8, b3: u8) -> u32 {
    ((b0 as int) * 0x1000000 + (b1 as int) * 0x10000 + (b2 as int) * 0x100 + (b3 as int)) as u32
}

/// The two bytes of a 16-bit value, most significant first.
pub open spec fn be16_bytes(v: u16) -> Seq<u8> {
    seq![(v / 256) as u8, (v % 256) as u8]
}

/// The four bytes of a 32-bit value, most significant first.
pub open spec fn be32_bytes(v: u32) -> Seq<u8> {
    seq![
        (v / 0x1000000) as u8,
        ((v / 0x10000) % 256) as u8,
        ((v / 0x100) % 256) as u8,
        (v % 256) as u8,
    ]
}

/// A cursor over a received datagram.
pub struct PacketReader {
    /// The bytes of the datagram.
    pub buf: Vec<u8>,
    /// The position of the next read.
    pub pos: usize,
}

impl PacketReader {
    /// A reader over `buf`, positioned at its start.
    pub fn new(buf: Vec<u8>) -> (r: PacketReader)
        ensures
            r.buf@ == buf@,
            r.pos == 0,
    {
        PacketReader { buf, pos: 0 }
    }

    /// Step the position forward by `step` bytes without reading them.
    pub fn step(&mut self, step: usize) -> (r: Result<(), DnsError>)
        ensures
            final(self).buf@ == old(self).buf@,
            old(self).pos + step <= usize::MAX ==> (r matches Ok(())
                && final(self).pos == old(self).pos + step),
            old(self).pos + step > usize::MAX ==> (r matches Err(e)
                && e == DnsError::Truncated && final(self).pos == old(self).pos),
    {
        match self.pos.checked_add(step) {
            Some(p) => {
                self.pos = p;
                Ok(())
            },
            None => Err(DnsError::Truncated),
        }
    }

    /// Read a single byte.
    pub fn read_u8(&mut self) -> (r: Result<u8, DnsError>)
        ensures
            final(self).buf@ == old(self).buf@,
            old(self).pos < old(self).buf@.len() ==> (r matches Ok(b)
                && b == old(self).buf@[old(self).pos as int]
                && final(self).pos == old(self).pos + 1),
            old(self).pos >= old(self).buf@.len() ==> (r matches Err(e)
                && e == DnsError::Truncated && final(self).pos == old(self).pos),
    {
        if self.pos < self.buf.len() {
            let b = self.buf[self.pos];
            self.pos = self.pos + 1;
            Ok(b)
        } else {
            Err(DnsError::Truncated)
        }
    }

    /// Read two bytes as a big-endian value.
    pub fn read_u16(&mut self) -> (r: Result<u16, DnsError>)
        ensures
            final(self).buf@ == old(self).buf@,
            old(self).pos + 2 <= old(self).buf@.len() ==> (r matches Ok(v)
                && v == be16_of(
                    old(self).buf@[old(self).pos as int],
                    old(self).buf@[old(self).pos + 1],
                ) && final(self).pos == old(self).pos + 2),
            old(self).pos + 2 > old(self).buf@.len() ==> (r matches Err(e)
                && e == DnsError::Truncated),
    {
        let hi = self.read_u8()?;
        let lo = self.read_u8()?;
        Ok((hi as u16) * 256 + (lo as u16))
    }

    /// Read four bytes as a big-endian value.
    pub fn read_u32(&mut self) -> (r: Result<u32, DnsError>)
        ensures
            final(self).buf@ == old(self).buf@,
            old(self).pos + 4 <= old(self).buf@.len() ==> (r matches Ok(v)
                && v == be32_of(
                    old(self).buf@[old(self).pos as int],
                    old(self).buf@[old(self).pos + 1],
                    old(self).buf@[old(self).pos + 2],
                    old(self).buf@[old(self).pos + 3],
                ) && final(self).pos == old(self).pos + 4),
            old(self).pos + 4 > old(self).buf@.len() ==> (r matches Err(e)
                && e == DnsError::Truncated),
    {
        let b0 = self.read_u8()?;
        let b1 = self.read_u8()?;
        let b2 = self.read_u8()?;
        let b3 = self.read_u8()?;
        Ok((b0 as u32) * 0x1000000 + (b1 as u32) * 0x10000 + (b2 as u32) * 0x100 + (b3 as u32))
    }

    /// Read a name in the wire format: length-prefixed labels until a
    /// zero octet, following at most 20 compression pointers, labels
    /// lowercased and joined with dots. After a pointer was followed the
    /// cursor rests right after the first pointer; otherwise it rests
    /// after the terminating zero.
    pub fn read_name(&mut self) -> (r: Result<String, DnsError>)
        ensures
            final(self).buf@ == old(self).buf@,
            match name_read(old(self).buf@, old(self).pos as int) {
                NameRead::Done { labels, end } => (r matches Ok(n) && n@ == join_labels(labels)
                    && final(self).pos == end),
                NameRead::Trunc => (r matches Err(e) && e == DnsError::Truncated),
                NameRead::Loop => (r matches Err(e) && e == DnsError::NameLoop),
            },
    {
        let ghost data = self.buf@;
        let ghost pos0 = self.pos as int;
        let mut out = String::new();
        let ghost mut acc: Seq<Seq<u8>> = Seq::empty();
        let mut first: bool = true;
        let mut jumps: u32 = 0;
        let mut jumped: bool = false;
        let mut first_return: usize = 0;
        proof {
            lemma_compose_read_empty(name_read(data, pos0));
        }
        loop
            invariant
                self.buf@ == data,
                jumps <= 21,
                jumped == (jumps > 0),
                first == (acc.len() == 0),
                out@ == join_labels(acc),
                name_read(data, pos0) == compose_read(
                    acc,
                    jumped,
                    first_return as int,
                    name_read_at(data, self.pos as int, (21 - jumps) as nat),
                ),
            decreases (21 - jumps) as int, (if self.pos as int <= data.len() {
                data.len() - self.pos as int
            } else {
                0int
            }),
        {
            if jumps > 20 {
                return Err(DnsError::NameLoop);
            }
            let ghost jl = (21 - jumps) as nat;
            let ghost p = self.pos as int;
            let len = match self.read_u8() {
                Ok(b) => b,
                Err(_) => {
                    return Err(DnsError::Truncated);
                },
            };
            if (len & 0xC0) == 0xC0 {
                let b2 = match self.read_u8() {
                    Ok(b) => b,
                    Err(_) => {
                        return Err(DnsError::Truncated);
                    },
                };
                let offset = ((len ^ 0xC0) as usize) * 256 + (b2 as usize);
                if !jumped {
                    first_return = self.pos;
                }
                jumped = true;
                jumps = jumps + 1;
                self.pos = offset;
            } else if len == 0 {
                if jumped {
                    self.pos = first_return;
                }
                proof {
                    assert(acc + Seq::<Seq<u8>>::empty() =~= acc);
                }
                return Ok(out);
            } else {
                if !first {
                    push_char(&mut out, '.');
                }
                let ghost sep: Seq<char> = if acc.len() == 0 {
                    Seq::empty()
                } else {
                    seq!['.']
                };
                proof {
                    assert(out@ =~= join_labels(acc) + sep + label_chars(
                        data.subrange(p + 1, p + 1),
                    ));
                }
                let mut i: usize = 0;
                loop
                    invariant
                        self.buf@ == data,
                        i <= len,
                        self.pos as int == p + 1 + i,
                        p + 1 + i <= data.len(),
                        0 <= p < data.len(),
                        data[p] == len,
                        out@ == join_labels(acc) + sep + label_chars(
                            data.subrange(p + 1, p + 1 + i),
                        ),
                    decreases len as int - i,
                {
                    if i >= len as usize {
                        break ;
                    }
                    let b = match self.read_u8() {
                        Ok(b) => b,
                        Err(_) => {
                            proof {
                                assert(p + 1 + len > data.len());
                                assert(name_read_at(data, p, jl) == NameRead::Trunc);
                            }
                            return Err(DnsError::Truncated);
                        },
                    };
                    let low = if 65 <= b && b <= 90 {
                        b + 32
                    } else {
                        b
                    };
                    push_char(&mut out, low as char);
                    i = i + 1;
                    proof {
                        assert(low == lower_byte(b));
                        assert(label_chars(data.subrange(p + 1, p + 1 + i)) =~= label_chars(
                            data.subrange(p + 1, p + i),
                        ).push(lower_byte(b) as char));
                    }
                }
                proof {
                    let l = data.subrange(p + 1, p + 1 + len);
                    lemma_join_push(acc, l);
                    assert(join_labels(acc) + sep + label_chars(l) =~= join_labels(acc.push(l)));
                    let tail = name_read_at(data, self.pos as int, jl);
                    match tail {
                        NameRead::Done { labels, end } => {
                            assert(acc + (seq![l] + labels) =~= acc.push(l) + labels);
                        },
                        _ => {},
                    }
                    acc = acc.push(l);
                }
                first = false;
            }
        }
    }
}

/// A cursor over a reply buffer under construction.
pub struct PacketWriter {
    write: Vec<u8>,
    pos: usize,
}

impl PacketWriter {
    /// The position of the next write never runs ahead of the buffer.
    /// `new` establishes this and every write keeps it.
    pub open spec fn wf(&self) -> bool {
        0 <= self.wpos() <= self.bytes().len()
    }

    /// The bytes written and inherited so far.
    pub closed spec fn bytes(&self) -> Seq<u8> {
        self.write@
    }

    /// The position of the next write.
    pub closed spec fn wpos(&self) -> int {
        self.pos as int
    }

    /// A writer over `w`, positioned at its start: writes overwrite the
    /// bytes of `w` and extend it once they reach its end.
    pub fn new(w: Vec<u8>) -> (r: PacketWriter)
        ensures
            r.bytes() == w@,
            r.wpos() == 0,
            r.wf(),
    {
        PacketWriter { write: w, pos: 0 }
    }

    /// A view of the whole buffer, written and inherited bytes alike.
    pub fn get_ref(&self) -> (r: &Vec<u8>)
        ensures
            r@ == self.bytes(),
    {
        &self.write
    }

    /// The buffer, surrendered.
    pub fn into_bytes(self) -> (r: Vec<u8>)
        ensures
            r@ == self.bytes(),
    {
        self.write
    }

    /// The position of the next write never exceeds what a machine
    /// word holds.
    pub proof fn wpos_in_range(&self)
        ensures
            0 <= self.wpos() <= usize::MAX,
    {
    }

    /// The position of the next write.
    pub fn position(&self) -> (r: usize)
        ensures
            r == self.wpos(),
    {
        self.pos
    }

    /// Write a single byte.
    pub fn write_u8(&mut self, val: u8) -> (r: Result<(), DnsError>)
        requires
            old(self).wf(),
        ensures
            r matches Ok(()),
            final(self).bytes() == splice(old(self).bytes(), old(self).wpos(), seq![val]),
            final(self).wpos() == old(self).wpos() + 1,
            final(self).wf(),
    {
        if self.pos < self.write.len() {
            self.write.set(self.pos, val);
        } else {
            self.write.push(val);
        }
        let grown = self.write.len();
        assert(self.pos < grown);
        self.pos = self.pos + 1;
        proof {
            assert(final(self).bytes() =~= splice(old(self).bytes(), old(self).wpos(), seq![val]));
        }
        Ok(())
    }

    /// Write two bytes, most significant first.
    pub fn write_u16(&mut self, val: u16) -> (r: Result<(), DnsError>)
        requires
            old(self).wf(),
        ensures
            r matches Ok(()),
            final(self).bytes() == splice(old(self).bytes(), old(self).wpos(), be16_bytes(val)),
            final(self).wpos() == old(self).wpos() + 2,
            final(self).wf(),
    {
        let ghost d0 = self.bytes();
        let ghost p0 = self.wpos();
        self.write_u8((val / 256) as u8)?;
        self.write_u8((val % 256) as u8)?;
        proof {
            lemma_splice_concat(d0, p0, seq![(val / 256) as u8], seq![(val % 256) as u8]);
            assert(seq![(val / 256) as u8] + seq![(val % 256) as u8] =~= be16_bytes(val));
        }
        Ok(())
    }

    /// Write four bytes, most significant first.
    pub fn write_u32(&mut self, val: u32) -> (r: Result<(), DnsError>)
        requires
            old(self).wf(),
        ensures
            r matches Ok(()),
            final(self).bytes() == splice(old(self).bytes(), old(self).wpos(), be32_bytes(val)),
            final(self).wpos() == old(self).wpos() + 4,
            final(self).wf(),
    {
        let ghost d0 = self.bytes();
        let ghost p0 = self.wpos();
        self.write_u16((val / 0x10000) as u16)?;
        self.write_u16((val % 0x10000) as u16)?;
        proof {
            lemma_splice_concat(d0, p0, be16_bytes((val / 0x10000) as u16), be16_bytes((val % 0x10000) as u16));
            assert(be16_bytes((val / 0x10000) as u16) + be16_bytes((val % 0x10000) as u16)
                =~= be32_bytes(val));
        }
        Ok(())
    }

    /// The number of bytes `write_name` would emit for `name`: one
    /// length octet per dot-separated part, the parts themselves, and a
    /// terminating zero, which comes to the name's byte length plus two.
    pub fn get_name_len(&self, name: &str) -> (r: usize)
        requires
            name.spec_bytes().len() + 2 <= usize::MAX,
        ensures
            r == name.spec_bytes().len() + 2,
            r == encode_name(name.spec_bytes()).len(),
    {
        proof {
            lemma_encode_name_len(name.spec_bytes());
        }
        name.as_bytes().len() + 2
    }

    /// Write `name` in the wire format, without compression: for each
    /// dot-separated part of its bytes a length octet (the part's length
    /// reduced modulo 256) and the part's bytes, then a terminating
    /// zero. Returns the number of bytes written.
    #[verifier::rlimit(30)]
    pub fn write_name(&mut self, name: &str) -> (r: Result<usize, DnsError>)
        requires
            old(self).wf(),
            name.spec_bytes().len() + 2 <= usize::MAX,
        ensures
            r matches Ok(n) && n == name.spec_bytes().len() + 2,
            final(self).bytes() == splice(
                old(self).bytes(),
                old(self).wpos(),
                encode_name(name.spec_bytes()),
            ),
            final(self).wpos() == old(self).wpos() + name.spec_bytes().len() + 2,
            final(self).wf(),
    {
        let bytes: &[u8] = name.as_bytes();
        let n: usize = bytes.len();
        let ghost s = name.spec_bytes();
        let ghost d0 = self.bytes();
        let ghost p0 = self.wpos();
        let mut lab_start: usize = 0;
        let ghost mut done: Seq<u8> = Seq::empty();
        proof {
            assert(s.skip(0) =~= s);
            assert(Seq::<u8>::empty() + encode_name(s) =~= encode_name(s));
            lemma_encode_name_len(s);
        }
        loop
            invariant
                self.wf(),
                0 <= lab_start <= n,
                done.len() == lab_start,
                self.wpos() == p0 + lab_start,
                self.bytes() == splice(d0, p0, done),
                done + encode_name(s.skip(lab_start as int)) == encode_name(s),
            decreases n - lab_start,
        {
            let ghost ls = lab_start as int;
            let ghost s2 = s.skip(ls);
            let mut end: usize = lab_start;
            while end < n && bytes[end] != 46
                invariant
                    lab_start <= end <= n,
                    forall|j: int| ls <= j < end ==> s[j] != 46,
                decreases n - end,
            {
                end = end + 1;
            }
            proof {
                assert forall|j: int| 0 <= j < end - ls implies s2[j] != 46 by {
                    assert(s2[j] == s[ls + j]);
                }
                assert(end < n ==> s2[end - ls] == 46);
                crate::name::lemma_first_dot_char(s2, end - ls);
            }
            let len_byte = (((end - lab_start) % 256)) as u8;
            let ghost d1 = self.bytes();
            let ghost q1 = self.wpos();
            self.write_u8(len_byte)?;
            let mut j: usize = lab_start;
            loop
                invariant
                    lab_start <= j <= end,
                    self.wf(),
                    self.wpos() == q1 + 1 + (j - lab_start),
                    self.bytes() == splice(
                        d1,
                        q1,
                        seq![len_byte] + s.subrange(ls, j as int),
                    ),
                decreases end - j,
            {
                if j >= end {
                    break ;
                }
                let ghost before = seq![len_byte] + s.subrange(ls, j as int);
                self.write_u8(bytes[j])?;
                proof {
                    lemma_splice_concat(d1, q1, before, seq![s[j as int]]);
                    assert(before + seq![s[j as int]] =~= seq![len_byte] + s.subrange(
                        ls,
                        j + 1,
                    ));
                }
                j = j + 1;
            }
            if end >= n {
                let ghost before = seq![len_byte] + s.subrange(ls, n as int);
                self.write_u8(0)?;
                proof {
                    assert(s.subrange(ls, n as int) =~= s2);
                    assert(first_dot(s2) == s2.len());
                    assert(encode_name(s2) == seq![(s2.len() % 256) as u8] + s2 + seq![0u8]);
                    assert(len_byte == (s2.len() % 256) as u8);
                    lemma_splice_concat(d1, q1, before, seq![0u8]);
                    assert(before + seq![0u8] =~= encode_name(s2));
                    lemma_splice_concat(d0, p0, done, encode_name(s2));
                    assert(self.bytes() == splice(d0, p0, done + encode_name(s2)));
                }
                return Ok(n + 2);
            }
            proof {
                let i = end - ls;
                assert(encode_name(s2) == seq![(i % 256) as u8] + s2.subrange(0, i)
                    + encode_name(s2.subrange(i + 1, s2.len() as int)));
                assert(s2.subrange(0, i) =~= s.subrange(ls, end as int));
                assert(s2.subrange(i + 1, s2.len() as int) =~= s.skip(end + 1));
                lemma_splice_concat(d0, p0, done, seq![len_byte] + s.subrange(ls, end as int));
                let done2 = done + (seq![len_byte] + s.subrange(ls, end as int));
                assert(done2 + encode_name(s.skip(end + 1)) =~= done + encode_name(s2));
                done = done2;
            }
            lab_start = end + 1;
        }
    }
}

} // verus!
