use vstd::prelude::*;

use crate::buffer::{BytePacketBuffer, PACKET_SIZE};
use crate::error::DnsError;
use crate::query::{query_num, query_of, Query};
use crate::wire::{
    at16, chars_of, enc16, encode_name, lemma_be16_enc16, lemma_encode_name_len,
    lemma_name_round_trip, lemma_splice_concat, name_ok, name_round_trippable, parse_name, splice,
    str_bytes, Parsed,
};
use vstd::string::StringSliceAdditionalSpecFns;

verus! {

/// What one question entry denotes: the queried name (as its wire bytes)
/// and the query type. The class is always IN and is not kept.
pub struct QuestionModel {
    pub name: Seq<u8>,
    pub qtype: Query,
}

/// The question entry stored at offset `pos`: a name, a 16-bit type code,
/// and a 16-bit class that is read and discarded.
pub open spec fn parse_question(b: Seq<u8>, pos: int) -> Parsed<QuestionModel> {
    match parse_name(b, pos, 0) {
        Parsed::Found { value, next } => if next + 4 <= b.len() {
            Parsed::Found {
                value: QuestionModel { name: value, qtype: query_of(at16(b, next)) },
                next: next + 4,
            }
        } else {
            Parsed::Fail(DnsError::BufferBounds)
        },
        Parsed::Fail(e) => Parsed::Fail(e),
    }
}

/// The wire bytes of a question: the encoded name, the type code, and the
/// literal class 1 (IN).
pub open spec fn encode_question(name: Seq<u8>, qtype: Query) -> Seq<u8> {
    encode_name(name) + enc16(query_num(qtype)) + enc16(1)
}

/// The question codec's round trip: the bytes a question writes decode to
/// the same question, wherever they sit in a message, provided the name's
/// labels are all 1 to 63 bytes and the type's code maps back to it (every
/// type except an `UNKNOWN` carrying a known code).
pub proof fn lemma_question_round_trip(b: Seq<u8>, pos: int, name: Seq<u8>, qtype: Query)
    requires
        name_round_trippable(name),
        query_of(query_num(qtype)) == qtype,
        0 <= pos,
        pos + encode_question(name, qtype).len() <= b.len(),
        b.subrange(pos, pos + encode_question(name, qtype).len()) == encode_question(name, qtype),
    ensures
        parse_question(b, pos) == (Parsed::Found::<QuestionModel> {
            value: QuestionModel { name, qtype },
            next: pos + encode_question(name, qtype).len(),
        }),
{
    let enc = encode_question(name, qtype);
    lemma_encode_name_len(name);
    let nl = encode_name(name).len() as int;
    assert(enc.len() == nl + 4);
    assert forall|i: int| 0 <= i < enc.len() implies b[pos + i] == enc[i] by {
        assert(b.subrange(pos, pos + enc.len())[i] == b[pos + i]);
    }
    assert(b.subrange(pos, pos + nl) =~= encode_name(name)) by {
        assert forall|i: int|
            0 <= i < nl implies b.subrange(pos, pos + nl)[i] == encode_name(name)[i] by {
            assert(b.subrange(pos, pos + nl)[i] == b[pos + i]);
            assert(b[pos + i] == enc[i]);
            assert(enc[i] == encode_name(name)[i]);
        }
    }
    lemma_name_round_trip(b, pos, name, 0);
    let next = pos + nl;
    lemma_be16_enc16(query_num(qtype));
    assert(b[pos + (nl + 0)] == enc[nl] && b[pos + (nl + 1)] == enc[nl + 1]);
    assert(enc[nl] == enc16(query_num(qtype))[0] && enc[nl + 1] == enc16(query_num(qtype))[1]);
    assert(at16(b, next) == query_num(qtype));
}

/// A single query entry of a packet.
#[derive(Debug, Clone, PartialEq, Eq)]
pub struct Question {
    pub name: String,
    pub qtype: Query,
}

impl Question {
    pub fn new(name: String, qtype: Query) -> (r: Question)
        ensures
            r.name == name,
            r.qtype == qtype,
    {
        Question { name, qtype }
    }

    /// Decode one question at the buffer's position into `self`, appending
    /// the name's text to `self.name` and leaving the position just past
    /// the entry.
    pub fn read(&mut self, buffer: &mut BytePacketBuffer) -> (r: Result<(), DnsError>)
        requires
            old(buffer).wf(),
        ensures
            final(buffer).wf(),
            final(buffer).buf@ == old(buffer).buf@,
            match r {
                Ok(()) => match parse_question(old(buffer).buf@, old(buffer).pos as int) {
                    Parsed::Found { value, next } => {
                        &&& final(self).name@ == old(self).name@ + chars_of(value.name)
                        &&& final(self).qtype == value.qtype
                        &&& final(buffer).pos == next
                    },
                    Parsed::Fail(_) => false,
                },
                Err(e) => parse_question(old(buffer).buf@, old(buffer).pos as int)
                    == Parsed::<QuestionModel>::Fail(e) && final(buffer).pos == old(buffer).pos,
            },
    {
        let p0: usize = buffer.pos;
        match buffer.read_qname(&mut self.name) {
            Ok(()) => {},
            Err(e) => {
                buffer.seek(p0);
                return Err(e);
            },
        }
        let num = match buffer.read_u16() {
            Ok(v) => v,
            Err(e) => {
                buffer.seek(p0);
                return Err(e);
            },
        };
        self.qtype = Query::from_num(num);
        match buffer.read_u16() {
            Ok(_) => {},
            Err(e) => {
                buffer.seek(p0);
                return Err(e);
            },
        }
        Ok(())
    }

    /// Encode this question at the buffer's position: the name, the type's
    /// numeric code, and the class written literally as 1.
    pub fn write(&self, buffer: &mut BytePacketBuffer) -> (r: Result<(), DnsError>)
        requires
            old(buffer).wf(),
        ensures
            final(buffer).wf(),
            final(buffer).pos >= old(buffer).pos,
            forall|i: int|
                0 <= i < PACKET_SIZE && !(old(buffer).pos <= i < final(buffer).pos)
                    ==> final(buffer).buf@[i] == old(buffer).buf@[i],
            match r {
                Ok(()) => name_ok(str_bytes(self.name@)) && old(buffer).pos + encode_question(
                    str_bytes(self.name@),
                    self.qtype,
                ).len() <= PACKET_SIZE && final(buffer).buf@ == splice(
                    old(buffer).buf@,
                    old(buffer).pos as int,
                    encode_question(str_bytes(self.name@), self.qtype),
                ) && final(buffer).pos == old(buffer).pos + encode_question(
                    str_bytes(self.name@),
                    self.qtype,
                ).len(),
                Err(e) => {
                    &&& !(name_ok(str_bytes(self.name@)) && old(buffer).pos + encode_question(
                        str_bytes(self.name@),
                        self.qtype,
                    ).len() <= PACKET_SIZE)
                    &&& (e == DnsError::LabelTooLong || e == DnsError::BufferBounds)
                    &&& (e == DnsError::LabelTooLong ==> !name_ok(str_bytes(self.name@)))
                    &&& (e == DnsError::BufferBounds ==> old(buffer).pos + encode_question(
                        str_bytes(self.name@),
                        self.qtype,
                    ).len() > PACKET_SIZE)
                },
            },
    {
        let ghost buf0 = buffer.buf@;
        let ghost pos0 = buffer.pos as int;
        let ghost nm = str_bytes(self.name@);
        let ghost encq = encode_question(nm, self.qtype);
        match buffer.write_qname(self.name.as_str()) {
            Ok(()) => {},
            Err(e) => {
                return Err(e);
            },
        }
        let ghost mut w: Seq<u8> = encode_name(nm);
        let typenum = self.qtype.to_num();
        match buffer.write_u16(typenum) {
            Ok(()) => {},
            Err(e) => {
                return Err(e);
            },
        }
        proof {
            lemma_splice_concat(buf0, pos0, w, enc16(typenum));
            w = w + enc16(typenum);
            assert(buffer.buf@ == splice(buf0, pos0, w));
        }
        match buffer.write_u16(1) {
            Ok(()) => {},
            Err(e) => {
                return Err(e);
            },
        }
        proof {
            lemma_splice_concat(buf0, pos0, w, enc16(1));
            w = w + enc16(1);
            assert(w =~= encq);
            assert(buffer.buf@ == splice(buf0, pos0, encq));
        }
        Ok(())
    }
}

} // verus!
