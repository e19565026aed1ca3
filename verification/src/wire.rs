use vstd::prelude::*;

use crate::error::DnsError;

verus! {

/// Outcome of decoding one item of a message at a given offset: the decoded
/// value together with the offset just past it, or the reported error.
pub enum Parsed<T> {
    Found { value: T, next: int },
    Fail(DnsError),
}

/// How many consecutive compression-pointer follows a name decode tolerates
/// before it reports `MaxJumpsExceeded`.
pub const MAX_JUMPS: u32 = 5;

/// Big-endian 16-bit value of two bytes.
pub open spec fn be16(hi: u8, lo: u8) -> u16 {
    (hi as int * 256 + lo as int) as u16
}

/// The 16-bit value stored big-endian at offset `i`.
pub open spec fn at16(b: Seq<u8>, i: int) -> u16 {
    be16(b[i], b[i + 1])
}

/// Big-endian 32-bit value of four bytes.
pub open spec fn be32(b0: u8, b1: u8, b2: u8, b3: u8) -> u32 {
    (b0 as int * 0x1000000 + b1 as int * 0x10000 + b2 as int * 0x100 + b3 as int) as u32
}

/// The 32-bit value stored big-endian at offset `i`.
pub open spec fn at32(b: Seq<u8>, i: int) -> u32 {
    be32(b[i], b[i + 1], b[i + 2], b[i + 3])
}

/// The two big-endian bytes of a 16-bit value.
pub open spec fn enc16(v: u16) -> Seq<u8> {
    seq![(v as int / 256) as u8, (v as int % 256) as u8]
}

/// The four big-endian bytes of a 32-bit value.
pub open spec fn enc32(v: u32) -> Seq<u8> {
    seq![
        (v as int / 0x1000000) as u8,
        (v as int / 0x10000 % 256) as u8,
        (v as int / 0x100 % 256) as u8,
        (v as int % 256) as u8,
    ]
}

/// `b` with `data` laid over it starting at offset `pos`; the length of the
/// underlying buffer never changes.
pub open spec fn splice(b: Seq<u8>, pos: int, data: Seq<u8>) -> Seq<u8> {
    Seq::new(b.len(), |i: int| if pos <= i < pos + data.len() { data[i - pos] } else { b[i] })
}

/// Writing two chunks one after the other is writing their concatenation.
pub proof fn lemma_splice_concat(b: Seq<u8>, pos: int, d1: Seq<u8>, d2: Seq<u8>)
    ensures
        splice(splice(b, pos, d1), pos + d1.len(), d2) == splice(b, pos, d1 + d2),
{
    assert(splice(splice(b, pos, d1), pos + d1.len(), d2) =~= splice(b, pos, d1 + d2));
}

/// A write leaves everything outside its own range untouched.
pub proof fn lemma_splice_frame(b: Seq<u8>, pos: int, data: Seq<u8>)
    ensures
        forall|i: int|
            0 <= i < b.len() && !(pos <= i < pos + data.len()) ==> #[trigger] splice(
                b,
                pos,
                data,
            )[i] == b[i],
{
}

/// Reading back a 16-bit value written big-endian gives the value.
pub proof fn lemma_be16_enc16(v: u16)
    ensures
        be16(enc16(v)[0], enc16(v)[1]) == v,
{
}

/// Each byte read as the character with the same code; how decoded names
/// become text.
pub open spec fn chars_of(bytes: Seq<u8>) -> Seq<char> {
    bytes.map_values(|b: u8| b as char)
}

/// The bytes a string is written as on the wire: its UTF-8 encoding.
pub open spec fn str_bytes(s: Seq<char>) -> Seq<u8> {
    vstd::utf8::encode_utf8(s)
}

/// No byte of `s` is an ASCII dot.
pub open spec fn dotless(s: Seq<u8>) -> bool {
    forall|i: int| 0 <= i < s.len() ==> s[i] != 46
}

/// The labels of a name: the (possibly empty) runs of bytes between ASCII
/// dots. The empty name has one empty label.
pub open spec fn split_labels(name: Seq<u8>) -> Seq<Seq<u8>>
    decreases name.len(),
{
    if name.len() == 0 {
        seq![Seq::<u8>::empty()]
    } else if name[0] == 46 {
        seq![Seq::<u8>::empty()] + split_labels(name.skip(1))
    } else {
        let rest = split_labels(name.skip(1));
        seq![seq![name[0]] + rest[0]] + rest.skip(1)
    }
}

/// Every label fits the 6-bit length field of the wire format.
pub open spec fn labels_ok(labels: Seq<Seq<u8>>) -> bool {
    forall|i: int| 0 <= i < labels.len() ==> #[trigger] labels[i].len() <= 63
}

/// A name can be encoded: no label exceeds 63 bytes.
pub open spec fn name_ok(name: Seq<u8>) -> bool {
    labels_ok(split_labels(name))
}

/// Length-prefixed wire form of a label sequence, without the terminator.
pub open spec fn encode_labels(labels: Seq<Seq<u8>>) -> Seq<u8>
    decreases labels.len(),
{
    if labels.len() == 0 {
        Seq::empty()
    } else {
        seq![labels[0].len() as u8] + labels[0] + encode_labels(labels.skip(1))
    }
}

/// Uncompressed wire form of a name: its labels, length-prefixed, followed
/// by the zero-length terminator label.
pub open spec fn encode_name(name: Seq<u8>) -> Seq<u8> {
    encode_labels(split_labels(name)) + seq![0u8]
}

/// The wire form of a name is always exactly two bytes longer than its
/// text: each dot becomes a length octet, plus one leading length octet
/// and the terminator.
pub proof fn lemma_encode_name_len(name: Seq<u8>)
    ensures
        encode_name(name).len() == name.len() + 2,
    decreases name.len(),
{
    lemma_encode_labels_len(name);
}

proof fn lemma_encode_labels_len(s: Seq<u8>)
    ensures
        encode_labels(split_labels(s)).len() == s.len() + 1,
    decreases s.len(),
{
    if s.len() == 0 {
        assert(encode_labels(split_labels(s)) == seq![0u8] + Seq::<u8>::empty() + encode_labels(
            split_labels(s).skip(1),
        ));
        assert(split_labels(s).skip(1) =~= Seq::<Seq<u8>>::empty());
    } else if s[0] == 46 {
        lemma_encode_labels_len(s.skip(1));
        assert(split_labels(s).skip(1) =~= split_labels(s.skip(1)));
        assert(encode_labels(split_labels(s)) == seq![0u8] + Seq::<u8>::empty() + encode_labels(
            split_labels(s).skip(1),
        ));
    } else {
        lemma_encode_labels_len(s.skip(1));
        let rest = split_labels(s.skip(1));
        let first = seq![s[0]] + rest[0];
        assert(split_labels(s) == seq![first] + rest.skip(1));
        assert(split_labels(s)[0] == first);
        assert(split_labels(s).skip(1) =~= rest.skip(1));
        assert(encode_labels(split_labels(s)) == seq![first.len() as u8] + first + encode_labels(
            rest.skip(1),
        ));
        assert(rest.len() > 0) by {
            lemma_split_labels_len(s.skip(1));
        }
        assert(encode_labels(rest) == seq![rest[0].len() as u8] + rest[0] + encode_labels(
            rest.skip(1),
        ));
    }
}

/// A split always yields at least one label.
pub proof fn lemma_split_labels_len(s: Seq<u8>)
    ensures
        split_labels(s).len() >= 1,
    decreases s.len(),
{
}

/// A name decodes to exact round-trip text only if every label is
/// non-empty and at most 63 bytes long.
pub open spec fn name_round_trippable(name: Seq<u8>) -> bool {
    forall|i: int|
        0 <= i < split_labels(name).len() ==> 1 <= #[trigger] split_labels(name)[i].len() <= 63
}

/// The index of the first ASCII dot of `s`, or its length if it has none.
pub open spec fn first_dot(s: Seq<u8>) -> int
    decreases s.len(),
{
    if s.len() == 0 {
        0
    } else if s[0] == 46 {
        0
    } else {
        1 + first_dot(s.skip(1))
    }
}

proof fn lemma_first_dot(s: Seq<u8>)
    ensures
        0 <= first_dot(s) <= s.len(),
        dotless(s.take(first_dot(s))),
        first_dot(s) < s.len() ==> s[first_dot(s)] == 46,
        first_dot(s) == s.len() ==> dotless(s),
    decreases s.len(),
{
    if s.len() == 0 {
    } else if s[0] == 46 {
    } else {
        lemma_first_dot(s.skip(1));
        let k = first_dot(s);
        assert forall|i: int| 0 <= i < k implies s.take(k)[i] != 46 by {
            if i == 0 {
                assert(s.take(k)[0] == s[0]);
            } else {
                assert(s.take(k)[i] == s.skip(1).take(k - 1)[i - 1]);
            }
        }
        if k < s.len() {
            assert(s[k] == s.skip(1)[k - 1]);
        }
        if k == s.len() {
            assert forall|i: int| 0 <= i < s.len() implies s[i] != 46 by {
                if i > 0 {
                    assert(s[i] == s.skip(1)[i - 1]);
                }
            }
        }
    }
}

/// The codec's round trip for names: decoding an uncompressed name from
/// the bytes its encoding occupies yields the name itself, with the offset
/// just past the terminator — for any name whose labels are all 1 to 63
/// bytes long, wherever the encoding sits in a message, and with any
/// number of pointer follows already spent.
pub proof fn lemma_name_round_trip(b: Seq<u8>, pos: int, name: Seq<u8>, jumps: int)
    requires
        name_round_trippable(name),
        0 <= jumps <= MAX_JUMPS as int,
        0 <= pos,
        pos + encode_name(name).len() <= b.len(),
        b.subrange(pos, pos + encode_name(name).len()) == encode_name(name),
    ensures
        parse_name(b, pos, jumps) == (Parsed::Found::<Seq<u8>> {
            value: name,
            next: pos + name.len() + 2,
        }),
    decreases name.len(),
{
    lemma_encode_name_len(name);
    let enc = encode_name(name);
    let ln = name.len() as int;
    assert forall|i: int| 0 <= i < enc.len() implies b[pos + i] == enc[i] by {
        assert(b.subrange(pos, pos + enc.len())[i] == b[pos + i]);
    }
    lemma_first_dot(name);
    let k = first_dot(name);
    if k == ln {
        lemma_split_single(name);
        assert(split_labels(name)[0] == name);
        assert(1 <= name.len() <= 63);
        assert(split_labels(name).skip(1) =~= Seq::<Seq<u8>>::empty());
        assert(enc =~= seq![name.len() as u8] + name + seq![0u8]);
        let lb = b[pos];
        assert(lb == name.len() as u8) by {
            assert(b[pos + 0] == enc[0]);
        }
        assert((lb & 0xC0) != 0xC0 && lb != 0) by (bit_vector)
            requires
                1 <= lb <= 63,
        ;
        assert(b.subrange(pos + 1, pos + 1 + ln) =~= name) by {
            assert forall|i: int|
                0 <= i < ln implies b.subrange(pos + 1, pos + 1 + ln)[i] == name[i] by {
                assert(b[pos + (1 + i)] == enc[1 + i]);
                assert(b.subrange(pos + 1, pos + 1 + ln)[i] == b[pos + 1 + i]);
                assert(enc[1 + i] == name[i]);
            }
        }
        assert(b[pos + 1 + ln] == 0) by {
            assert(b[pos + (1 + ln)] == enc[1 + ln]);
            assert(enc[1 + ln] == 0);
        }
        assert((0u8 & 0xC0) != 0xC0) by (bit_vector);
        assert(parse_name(b, pos + 1 + ln, jumps) == (Parsed::Found::<Seq<u8>> {
            value: Seq::empty(),
            next: pos + ln + 2,
        }));
    } else {
        let label = name.take(k);
        let rest = name.skip(k + 1);
        lemma_split_dot(name, k);
        assert(split_labels(name)[0] == label);
        assert(1 <= label.len() <= 63);
        assert(name_round_trippable(rest)) by {
            assert forall|j: int|
                0 <= j < split_labels(rest).len() implies 1 <= #[trigger] split_labels(
                rest,
            )[j].len() <= 63 by {
                assert(split_labels(name)[j + 1] == split_labels(rest)[j]);
                assert(1 <= split_labels(name)[j + 1].len() <= 63);
            }
        }
        assert(rest.len() >= 1) by {
            if rest.len() == 0 {
                assert(split_labels(rest) == seq![Seq::<u8>::empty()]);
                assert(split_labels(rest)[0].len() == 0);
            }
        }
        lemma_encode_name_len(rest);
        assert(split_labels(name).skip(1) =~= split_labels(rest));
        assert(encode_labels(split_labels(name)) == seq![label.len() as u8] + label
            + encode_labels(split_labels(rest)));
        assert(enc =~= seq![label.len() as u8] + label + encode_name(rest));
        let rpos = pos + 1 + k;
        assert(b.subrange(rpos, rpos + encode_name(rest).len()) =~= encode_name(rest)) by {
            assert forall|i: int|
                0 <= i < encode_name(rest).len() implies b.subrange(
                rpos,
                rpos + encode_name(rest).len(),
            )[i] == encode_name(rest)[i] by {
                assert(b.subrange(rpos, rpos + encode_name(rest).len())[i] == b[rpos + i]);
                assert(b[pos + (1 + k + i)] == enc[1 + k + i]);
                assert(b[rpos + i] == enc[1 + k + i]);
                assert(enc[1 + k + i] == encode_name(rest)[i]);
            }
        }
        lemma_name_round_trip(b, rpos, rest, jumps);
        let lb = b[pos];
        assert(lb == label.len() as u8) by {
            assert(b[pos + 0] == enc[0]);
        }
        assert((lb & 0xC0) != 0xC0 && lb != 0) by (bit_vector)
            requires
                1 <= lb <= 63,
        ;
        assert(b.subrange(pos + 1, pos + 1 + k) =~= label) by {
            assert forall|i: int|
                0 <= i < k implies b.subrange(pos + 1, pos + 1 + k)[i] == label[i] by {
                assert(b[pos + (1 + i)] == enc[1 + i]);
                assert(b.subrange(pos + 1, pos + 1 + k)[i] == b[pos + 1 + i]);
                assert(enc[1 + i] == label[i]);
            }
        }
        assert(label + seq![46u8] + rest =~= name);
        assert(pos + 1 + k + rest.len() + 2 == pos + ln + 2);
    }
}

/// The name stored at offset `pos` of a message, decompressed.
///
/// A length octet with its top two bits set is a pointer: together with the
/// following octet it names the absolute offset where reading resumes. The
/// offset just past the name is the offset past the terminator when no
/// pointer was followed, and the offset past the first pointer otherwise
/// (`jumps == 0` identifies the frame before the first jump). `jumps`
/// counts the pointers followed so far; more than `MAX_JUMPS` fails.
pub open spec fn parse_name(b: Seq<u8>, pos: int, jumps: int) -> Parsed<Seq<u8>>
    decreases 6 - jumps, b.len() - pos,
{
    if jumps > MAX_JUMPS as int {
        Parsed::Fail(DnsError::MaxJumpsExceeded)
    } else if !(0 <= pos < b.len()) {
        Parsed::Fail(DnsError::BufferBounds)
    } else {
        let len = b[pos];
        if (len & 0xC0) == 0xC0 {
            if pos + 1 >= b.len() {
                Parsed::Fail(DnsError::BufferBounds)
            } else {
                let target = (len & 0x3F) as int * 256 + b[pos + 1] as int;
                match parse_name(b, target, jumps + 1) {
                    Parsed::Found { value, next } => Parsed::Found {
                        value,
                        next: if jumps == 0 { pos + 2 } else { next },
                    },
                    fail => fail,
                }
            }
        } else if len == 0 {
            Parsed::Found { value: Seq::empty(), next: pos + 1 }
        } else if pos + 1 + len as int > b.len() {
            Parsed::Fail(DnsError::BufferBounds)
        } else {
            let label = b.subrange(pos + 1, pos + 1 + len as int);
            match parse_name(b, pos + 1 + len as int, jumps) {
                Parsed::Found { value, next } => Parsed::Found {
                    value: if value.len() == 0 { label } else { label + seq![46u8] + value },
                    next,
                },
                fail => fail,
            }
        }
    }
}

/// Joining a decoded piece of a name onto the text gathered so far: the
/// empty piece adds nothing, otherwise a dot separates the two.
pub open spec fn name_join(acc: Seq<u8>, tail: Seq<u8>) -> Seq<u8> {
    if acc.len() == 0 {
        tail
    } else if tail.len() == 0 {
        acc
    } else {
        acc + seq![46u8] + tail
    }
}

/// How a partial decode composes with the decode of the rest: text gathered
/// so far is joined in front, and once a pointer was followed the resume
/// offset is already fixed.
pub open spec fn name_seal(
    acc: Seq<u8>,
    rest: Parsed<Seq<u8>>,
    jumped: bool,
    resume: int,
) -> Parsed<Seq<u8>> {
    match rest {
        Parsed::Found { value, next } => Parsed::Found {
            value: name_join(acc, value),
            next: if jumped { resume } else { next },
        },
        fail => fail,
    }
}

/// Bounded measure for how far a decode position can still advance.
pub open spec fn pos_measure(pos: int) -> int {
    if pos <= 512 {
        512 - pos
    } else {
        0
    }
}

/// A name without dots is a single label.
pub proof fn lemma_split_single(s: Seq<u8>)
    requires
        dotless(s),
    ensures
        split_labels(s) == seq![s],
    decreases s.len(),
{
    if s.len() == 0 {
        assert(s =~= Seq::<u8>::empty());
        assert(split_labels(s) =~= seq![s]);
    } else {
        assert(s[0] != 46);
        assert(dotless(s.skip(1)));
        lemma_split_single(s.skip(1));
        let rest = split_labels(s.skip(1));
        let first = seq![s[0]] + rest[0];
        assert(split_labels(s) == seq![first] + rest.skip(1));
        assert(first =~= s);
        assert(rest.skip(1) =~= Seq::<Seq<u8>>::empty());
        assert(seq![first] + rest.skip(1) =~= seq![s]);
    }
}

/// Splitting at the first dot: the dotless prefix is the first label and
/// the rest splits on its own.
pub proof fn lemma_split_dot(s: Seq<u8>, k: int)
    requires
        0 <= k < s.len(),
        s[k] == 46,
        dotless(s.take(k)),
    ensures
        split_labels(s) == seq![s.take(k)] + split_labels(s.skip(k + 1)),
    decreases k,
{
    if k == 0 {
        assert(s.take(0) =~= Seq::<u8>::empty());
        assert(split_labels(s) =~= seq![s.take(0)] + split_labels(s.skip(1)));
    } else {
        assert(s[0] != 46) by {
            assert(s.take(k)[0] == s[0]);
        }
        let t = s.skip(1);
        assert(t[k - 1] == 46);
        assert(dotless(t.take(k - 1))) by {
            assert(forall|i: int|
                0 <= i < k - 1 ==> #[trigger] t.take(k - 1)[i] == s.take(k)[i + 1]);
        }
        lemma_split_dot(t, k - 1);
        let rest = split_labels(t);
        assert(seq![s[0]] + rest[0] =~= s.take(k)) by {
            assert(rest[0] == t.take(k - 1));
        }
        assert(rest.skip(1) =~= split_labels(t.skip(k)));
        assert(t.skip(k) =~= s.skip(k + 1));
        assert(split_labels(s) =~= seq![s.take(k)] + split_labels(s.skip(k + 1)));
    }
}

/// A label sequence is encodable exactly when its head fits and its tail
/// is encodable.
pub proof fn lemma_labels_ok_cons(l: Seq<u8>, ls: Seq<Seq<u8>>)
    ensures
        labels_ok(seq![l] + ls) <==> (l.len() <= 63 && labels_ok(ls)),
{
    let all = seq![l] + ls;
    if labels_ok(all) {
        assert(all[0] == l);
        assert forall|i: int| 0 <= i < ls.len() implies #[trigger] ls[i].len() <= 63 by {
            assert(all[i + 1] == ls[i]);
            assert(all[i + 1].len() <= 63);
        }
    }
    if l.len() <= 63 && labels_ok(ls) {
        assert forall|i: int| 0 <= i < all.len() implies #[trigger] all[i].len() <= 63 by {
            if i == 0 {
                assert(all[0] == l);
            } else {
                assert(all[i] == ls[i - 1]);
            }
        }
    }
}

/// `name_join` is associative when the middle piece is non-empty, which is
/// what lets a label-at-a-time decode build the same text as the
/// one-shot decode.
pub proof fn lemma_name_join_assoc(a: Seq<u8>, l: Seq<u8>, r: Seq<u8>)
    requires
        l.len() > 0,
    ensures
        name_join(a, name_join(l, r)) == name_join(name_join(a, l), r),
{
    if a.len() == 0 {
    } else if r.len() == 0 {
    } else {
        assert(name_join(a, name_join(l, r)) =~= name_join(name_join(a, l), r));
    }
}

} // verus!
