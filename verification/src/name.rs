//! The wire format of DNS names, as mathematics.
//!
//! A name on the wire is a run of length-prefixed labels ended by a zero
//! octet; a length octet whose top two bits are set is instead a pointer
//! whose fourteen remaining bits give the offset of the name's
//! continuation. `name_read_at` is the meaning of reading a name at a
//! position, `encode_name` the bytes the writer emits for a dotted name,
//! and the lemmas at the end tie the two together.

use vstd::prelude::*;

verus! {

/// An ASCII capital letter mapped to its small form; any other octet
/// kept as it is.
pub open spec fn lower_byte(b: u8) -> u8 {
    if 65 <= b <= 90 {
        (b + 32) as u8
    } else {
        b
    }
}

/// The characters the reader yields for one label's octets.
pub open spec fn label_chars(l: Seq<u8>) -> Seq<char> {
    Seq::new(l.len(), |i: int| lower_byte(l[i]) as char)
}

/// One character per octet, unchanged.
pub open spec fn byte_chars(s: Seq<u8>) -> Seq<char> {
    Seq::new(s.len(), |i: int| s[i] as char)
}

/// Labels joined with dots into one name.
pub open spec fn join_labels(ls: Seq<Seq<u8>>) -> Seq<char>
    decreases ls.len(),
{
    if ls.len() == 0 {
        Seq::empty()
    } else if ls.len() == 1 {
        label_chars(ls[0])
    } else {
        label_chars(ls[0]) + seq!['.'] + join_labels(ls.drop_first())
    }
}

/// What decoding a name from a buffer yields.
pub enum NameRead {
    /// The labels in order, and the position where reading continues:
    /// one past the terminating zero octet when no pointer was followed,
    /// and one past the first pointer otherwise.
    Done { labels: Seq<Seq<u8>>, end: int },
    /// A read ran past the end of the buffer.
    Trunc,
    /// More pointers than the reader follows.
    Loop,
}

/// The meaning of decoding a name at `pos` with `jumps_left` pointer
/// follows still allowed. A fresh read starts with 21: the reader gives
/// up as soon as a 21st pointer has been followed.
pub open spec fn name_read_at(data: Seq<u8>, pos: int, jumps_left: nat) -> NameRead
    decreases jumps_left, data.len() - pos,
{
    if jumps_left == 0 {
        NameRead::Loop
    } else if !(0 <= pos < data.len()) {
        NameRead::Trunc
    } else {
        let len = data[pos];
        if len & 0xC0 == 0xC0 {
            if pos + 1 >= data.len() {
                NameRead::Trunc
            } else {
                let off = ((len ^ 0xC0) as int) * 256 + data[pos + 1];
                match name_read_at(data, off, (jumps_left - 1) as nat) {
                    NameRead::Done { labels, end: _ } => NameRead::Done { labels, end: pos + 2 },
                    other => other,
                }
            }
        } else if len == 0 {
            NameRead::Done { labels: Seq::empty(), end: pos + 1 }
        } else if pos + 1 + len > data.len() {
            NameRead::Trunc
        } else {
            match name_read_at(data, pos + 1 + len, jumps_left) {
                NameRead::Done { labels, end } => NameRead::Done {
                    labels: seq![data.subrange(pos + 1, pos + 1 + len)] + labels,
                    end,
                },
                other => other,
            }
        }
    }
}

/// Decoding a name with a fresh pointer budget.
pub open spec fn name_read(data: Seq<u8>, pos: int) -> NameRead {
    name_read_at(data, pos, 21)
}

/// A partial read continued: labels already gathered are put in front
/// of what the rest of the read yields, and once a pointer has been
/// followed the resting position is pinned to `fr`.
pub open spec fn compose_read(acc: Seq<Seq<u8>>, jumped: bool, fr: int, tail: NameRead) -> NameRead {
    match tail {
        NameRead::Done { labels, end } => NameRead::Done {
            labels: acc + labels,
            end: if jumped {
                fr
            } else {
                end
            },
        },
        other => other,
    }
}

/// A read continued by nothing is the read itself.
pub proof fn lemma_compose_read_empty(tail: NameRead)
    ensures
        compose_read(Seq::empty(), false, 0, tail) == tail,
{
    match tail {
        NameRead::Done { labels, end } => {
            assert(Seq::<Seq<u8>>::empty() + labels =~= labels);
        },
        _ => {},
    }
}

/// The length of the run of octets before the first dot, or the whole
/// length where there is none.
pub open spec fn first_dot(s: Seq<u8>) -> nat
    decreases s.len(),
{
    if s.len() == 0 {
        0
    } else if s[0] == 46 {
        0
    } else {
        1 + first_dot(s.drop_first())
    }
}

/// `first_dot` points at a dot, or past the end where there is none,
/// and nothing before it is a dot.
pub proof fn lemma_first_dot(s: Seq<u8>)
    ensures
        first_dot(s) <= s.len(),
        first_dot(s) < s.len() ==> s[first_dot(s) as int] == 46,
        forall|j: int| 0 <= j < first_dot(s) ==> s[j] != 46,
    decreases s.len(),
{
    if s.len() > 0 && s[0] != 46 {
        lemma_first_dot(s.drop_first());
        assert forall|j: int| 0 <= j < first_dot(s) implies s[j] != 46 by {
            if j > 0 {
                assert(s.drop_first()[j - 1] != 46);
            }
        }
    }
}

/// The bytes the writer emits for the dotted name `s`: for each
/// dot-separated part its length (reduced modulo 256) and its octets,
/// then a terminating zero.
pub open spec fn encode_name(s: Seq<u8>) -> Seq<u8>
    decreases s.len(),
{
    let i = first_dot(s) as int;
    if i >= s.len() {
        seq![(s.len() % 256) as u8] + s + seq![0u8]
    } else {
        seq![(i % 256) as u8] + s.subrange(0, i) + encode_name(s.subrange(i + 1, s.len() as int))
    }
}

/// A name's wire form is two octets longer than the name.
pub proof fn lemma_encode_name_len(s: Seq<u8>)
    ensures
        encode_name(s).len() == s.len() + 2,
    decreases s.len(),
{
    let i = first_dot(s) as int;
    lemma_first_dot(s);
    if i < s.len() {
        lemma_encode_name_len(s.subrange(i + 1, s.len() as int));
    }
}

/// The dot-separated parts of `s`, in order.
pub open spec fn name_labels(s: Seq<u8>) -> Seq<Seq<u8>>
    decreases s.len(),
{
    let i = first_dot(s) as int;
    if i >= s.len() {
        seq![s]
    } else {
        seq![s.subrange(0, i)] + name_labels(s.subrange(i + 1, s.len() as int))
    }
}

/// A dotted name the codec reproduces: every part between dots is 1 to
/// 63 octets of seven-bit ASCII with no capital letter.
pub open spec fn valid_name_bytes(s: Seq<u8>) -> bool
    decreases s.len(),
{
    let i = first_dot(s) as int;
    &&& 1 <= i <= 63
    &&& (forall|j: int| 0 <= j < i ==> s[j] < 128 && !(65 <= s[j] <= 90))
    &&& (i < s.len() ==> valid_name_bytes(s.subrange(i + 1, s.len() as int)))
}

/// A label's length octet never carries the pointer flag.
proof fn lemma_label_octet(b: u8)
    by (bit_vector)
    requires
        b <= 63,
    ensures
        b & 0xC0 != 0xC0,
{
}

/// Reading an encoded name back yields its parts, wherever in a buffer
/// the encoding sits and whatever pointer budget remains.
pub proof fn lemma_read_encoded(data: Seq<u8>, pos: int, s: Seq<u8>, jumps_left: nat)
    requires
        valid_name_bytes(s),
        jumps_left >= 1,
        0 <= pos,
        pos + s.len() + 2 <= data.len(),
        data.subrange(pos, pos + s.len() + 2) == encode_name(s),
    ensures
        name_read_at(data, pos, jumps_left) == (NameRead::Done {
            labels: name_labels(s),
            end: pos + s.len() + 2,
        }),
    decreases s.len(),
{
    lemma_first_dot(s);
    lemma_encode_name_len(s);
    let i = first_dot(s) as int;
    let enc = encode_name(s);
    assert forall|k: int| pos <= k < pos + s.len() + 2 implies data[k] == enc[k - pos] by {
        assert(data.subrange(pos, pos + s.len() + 2)[k - pos] == data[k]);
    }
    assert(data[pos] == enc[0]);
    let len = data[pos];
    assert(len == (i % 256) as u8);
    assert(1 <= len <= 63);
    lemma_label_octet(len);
    if i >= s.len() {
        assert(enc == seq![(s.len() % 256) as u8] + s + seq![0u8]);
        assert(data.subrange(pos + 1, pos + 1 + len) =~= s) by {
            assert forall|j: int| 0 <= j < s.len() implies data.subrange(
                pos + 1,
                pos + 1 + len,
            )[j] == s[j] by {
                assert(data[pos + 1 + j] == enc[1 + j]);
                assert(enc[1 + j] == s[j]);
            }
        }
        assert(data[pos + 1 + len] == enc[s.len() as int + 1]);
        assert(data[pos + 1 + len] == 0);
        lemma_label_octet(0u8);
        assert(name_read_at(data, pos + 1 + len, jumps_left) == (NameRead::Done {
            labels: Seq::<Seq<u8>>::empty(),
            end: pos + s.len() + 2,
        }));
        assert(seq![data.subrange(pos + 1, pos + 1 + len)] + Seq::<Seq<u8>>::empty()
            =~= name_labels(s));
    } else {
        let s2 = s.subrange(i + 1, s.len() as int);
        lemma_encode_name_len(s2);
        let enc2 = encode_name(s2);
        assert(enc == seq![(i % 256) as u8] + s.subrange(0, i) + enc2);
        assert(data.subrange(pos + 1, pos + 1 + len) =~= s.subrange(0, i)) by {
            assert forall|j: int| 0 <= j < i implies data.subrange(pos + 1, pos + 1 + len)[j]
                == s.subrange(0, i)[j] by {
                assert(data[pos + 1 + j] == enc[1 + j]);
                assert(enc[1 + j] == (seq![(i % 256) as u8] + s.subrange(0, i) + enc2)[1 + j]);
                assert(enc[1 + j] == s.subrange(0, i)[j]);
            }
        }
        let pos2 = pos + 1 + i;
        assert(data.subrange(pos2, pos2 + s2.len() + 2) =~= enc2) by {
            assert forall|j: int| 0 <= j < s2.len() + 2 implies data.subrange(
                pos2,
                pos2 + s2.len() + 2,
            )[j] == enc2[j] by {
                assert(data[pos2 + j] == enc[1 + i + j]);
                assert(enc[1 + i + j] == (seq![(i % 256) as u8] + s.subrange(0, i) + enc2)[1 + i
                    + j]);
                assert(enc[1 + i + j] == enc2[j]);
            }
        }
        lemma_read_encoded(data, pos2, s2, jumps_left);
        assert(seq![data.subrange(pos + 1, pos + 1 + len)] + name_labels(s2)
            =~= name_labels(s));
    }
}

/// Joining the parts of a well-formed name gives back its characters.
pub proof fn lemma_join_name_labels(s: Seq<u8>)
    requires
        valid_name_bytes(s),
    ensures
        name_labels(s).len() >= 1,
        join_labels(name_labels(s)) == byte_chars(s),
    decreases s.len(),
{
    lemma_first_dot(s);
    let i = first_dot(s) as int;
    if i >= s.len() {
        assert(join_labels(name_labels(s)) == label_chars(s));
        assert(label_chars(s) =~= byte_chars(s));
    } else {
        let s2 = s.subrange(i + 1, s.len() as int);
        lemma_join_name_labels(s2);
        let ls = name_labels(s);
        let l0 = s.subrange(0, i);
        assert(ls == seq![l0] + name_labels(s2));
        assert(ls.len() >= 2);
        assert(ls[0] == l0);
        assert(ls.drop_first() =~= name_labels(s2));
        assert(join_labels(ls) == label_chars(l0) + seq!['.'] + byte_chars(s2));
        assert(s[i] == 46);
        assert(label_chars(l0) + seq!['.'] + byte_chars(s2) =~= byte_chars(s));
    }
}

/// Appending a label to a joined name inserts a dot first unless the
/// name is still empty.
pub proof fn lemma_join_push(ls: Seq<Seq<u8>>, l: Seq<u8>)
    ensures
        join_labels(ls.push(l)) == join_labels(ls) + (if ls.len() == 0 {
            Seq::<char>::empty()
        } else {
            seq!['.']
        }) + label_chars(l),
    decreases ls.len(),
{
    if ls.len() == 0 {
        assert(ls.push(l) =~= seq![l]);
        assert(join_labels(seq![l]) == label_chars(l));
        assert(join_labels(ls) + Seq::<char>::empty() + label_chars(l) =~= label_chars(l));
    } else {
        lemma_join_push(ls.drop_first(), l);
        assert(ls.push(l).drop_first() =~= ls.drop_first().push(l));
        if ls.len() == 1 {
            assert(ls.drop_first().len() == 0);
            assert(join_labels(ls.push(l)) == label_chars(ls[0]) + seq!['.'] + join_labels(
                ls.drop_first().push(l),
            ));
            assert(join_labels(ls.push(l)) =~= join_labels(ls) + seq!['.'] + label_chars(l));
        } else {
            assert(join_labels(ls.push(l)) =~= join_labels(ls) + seq!['.'] + label_chars(l));
        }
    }
}

/// What pins `first_dot` down: nothing before `k` is a dot and `k` is
/// one, or the end.
pub proof fn lemma_first_dot_char(s: Seq<u8>, k: int)
    requires
        0 <= k <= s.len(),
        forall|j: int| 0 <= j < k ==> s[j] != 46,
        k < s.len() ==> s[k] == 46,
    ensures
        first_dot(s) == k,
    decreases s.len(),
{
    if s.len() > 0 && s[0] != 46 {
        lemma_first_dot_char(s.drop_first(), k - 1);
    }
}

/// Each character as one octet, its low eight bits.
pub open spec fn ascii_bytes(d: Seq<char>) -> Seq<u8> {
    Seq::new(d.len(), |i: int| d[i] as u8)
}

/// For seven-bit characters the octets read back as the characters.
pub proof fn lemma_byte_chars_ascii(d: Seq<char>)
    requires
        forall|i: int| 0 <= i < d.len() ==> (d[i] as u32) < 128,
    ensures
        byte_chars(ascii_bytes(d)) == d,
{
    assert forall|i: int| 0 <= i < d.len() implies byte_chars(ascii_bytes(d))[i] == d[i] by {
        vstd::utf8::char_u32_cast(d[i], d[i] as u32);
        assert((d[i] as u8) as u32 == d[i] as u32);
    }
    assert(byte_chars(ascii_bytes(d)) =~= d);
}

/// Law: a lowercase seven-bit domain of wire length at most 255, with
/// labels of 1 to 63 octets, written without compression, reads back as
/// the same name, the cursor resting right after its terminator.
pub proof fn lemma_name_codec_round_trip(d: Seq<char>)
    requires
        valid_name_bytes(ascii_bytes(d)),
        forall|i: int| 0 <= i < d.len() ==> (d[i] as u32) < 128,
        d.len() + 2 <= 255,
    ensures
        name_read(encode_name(ascii_bytes(d)), 0) == (NameRead::Done {
            labels: name_labels(ascii_bytes(d)),
            end: d.len() + 2int,
        }),
        join_labels(name_labels(ascii_bytes(d))) == d,
{
    let s = ascii_bytes(d);
    lemma_encode_name_len(s);
    assert(encode_name(s).subrange(0, s.len() as int + 2) =~= encode_name(s));
    lemma_read_encoded(encode_name(s), 0, s, 21);
    lemma_join_name_labels(s);
    lemma_byte_chars_ascii(d);
}

} // verus!
