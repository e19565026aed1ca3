use vstd::prelude::*;

use crate::buffer::{BytePacketBuffer, PACKET_SIZE};
use crate::error::DnsError;
use crate::header::{default_header, encode_header, parse_header, Header};
use crate::query::Query;
use crate::question::{encode_question, parse_question, Question, QuestionModel};
use crate::record::{
    encode_record, parse_record, record_fits, record_model, record_names_ok, Ipv4, Record,
    RecordModel,
};
use crate::wire::{chars_of, lemma_splice_concat, name_ok, splice, str_bytes, Parsed};
use vstd::string::StringSliceAdditionalSpecFns;

verus! {

/// What a whole message denotes.
pub struct PacketModel {
    pub header: Header,
    pub questions: Seq<QuestionModel>,
    pub answers: Seq<RecordModel>,
    pub authorities: Seq<RecordModel>,
    pub resources: Seq<RecordModel>,
}

/// `n` questions in a row starting at offset `pos`.
pub open spec fn parse_questions(b: Seq<u8>, pos: int, n: int) -> Parsed<Seq<QuestionModel>>
    decreases n,
{
    if n <= 0 {
        Parsed::Found { value: Seq::empty(), next: pos }
    } else {
        match parse_question(b, pos) {
            Parsed::Found { value, next } => match parse_questions(b, next, n - 1) {
                Parsed::Found { value: rest, next: nx } => Parsed::Found {
                    value: seq![value] + rest,
                    next: nx,
                },
                Parsed::Fail(e) => Parsed::Fail(e),
            },
            Parsed::Fail(e) => Parsed::Fail(e),
        }
    }
}

/// `n` records in a row starting at offset `pos`.
pub open spec fn parse_records(b: Seq<u8>, pos: int, n: int) -> Parsed<Seq<RecordModel>>
    decreases n,
{
    if n <= 0 {
        Parsed::Found { value: Seq::empty(), next: pos }
    } else {
        match parse_record(b, pos) {
            Parsed::Found { value, next } => match parse_records(b, next, n - 1) {
                Parsed::Found { value: rest, next: nx } => Parsed::Found {
                    value: seq![value] + rest,
                    next: nx,
                },
                Parsed::Fail(e) => Parsed::Fail(e),
            },
            Parsed::Fail(e) => Parsed::Fail(e),
        }
    }
}

/// A whole message starting at offset `pos`: the header, then exactly the
/// counted questions, answers, authorities and additional records, in that
/// fixed order.
pub open spec fn parse_packet(b: Seq<u8>, pos: int) -> Parsed<PacketModel> {
    match parse_header(b, pos) {
        None => Parsed::Fail(DnsError::BufferBounds),
        Some(h) => match parse_questions(b, pos + 12, h.questions as int) {
            Parsed::Fail(e) => Parsed::Fail(e),
            Parsed::Found { value: qs, next: n1 } => match parse_records(
                b,
                n1,
                h.answers as int,
            ) {
                Parsed::Fail(e) => Parsed::Fail(e),
                Parsed::Found { value: ans, next: n2 } => match parse_records(
                    b,
                    n2,
                    h.authoritative_entries as int,
                ) {
                    Parsed::Fail(e) => Parsed::Fail(e),
                    Parsed::Found { value: auth, next: n3 } => match parse_records(
                        b,
                        n3,
                        h.resource_entries as int,
                    ) {
                        Parsed::Fail(e) => Parsed::Fail(e),
                        Parsed::Found { value: res, next: n4 } => Parsed::Found {
                            value: PacketModel {
                                header: h,
                                questions: qs,
                                answers: ans,
                                authorities: auth,
                                resources: res,
                            },
                            next: n4,
                        },
                    },
                },
            },
        },
    }
}

/// The model a question writes as.
pub open spec fn question_model(q: Question) -> QuestionModel {
    QuestionModel { name: str_bytes(q.name@), qtype: q.qtype }
}

/// A decoded question presents a parsed model.
pub open spec fn question_fits(q: Question, m: QuestionModel) -> bool {
    q.name@ == chars_of(m.name) && q.qtype == m.qtype
}

/// Decoded questions present the parsed models, one for one.
pub open spec fn questions_fit(qs: Seq<Question>, ms: Seq<QuestionModel>) -> bool {
    qs.len() == ms.len() && (forall|i: int|
        0 <= i < qs.len() ==> #[trigger] question_fits(qs[i], ms[i]))
}

/// Decoded records present the parsed models, one for one.
pub open spec fn records_fit(rs: Seq<Record>, ms: Seq<RecordModel>) -> bool {
    rs.len() == ms.len() && (forall|i: int| 0 <= i < rs.len() ==> #[trigger] record_fits(rs[i], ms[i]))
}

/// A decoded packet presents the parsed model.
pub open spec fn packet_fits(p: Packet, m: PacketModel) -> bool {
    &&& p.header == m.header
    &&& questions_fit(p.questions@, m.questions)
    &&& records_fit(p.answers@, m.answers)
    &&& records_fit(p.authorities@, m.authorities)
    &&& records_fit(p.resources@, m.resources)
}

/// Wire bytes of a question sequence.
pub open spec fn encode_questions(ms: Seq<QuestionModel>) -> Seq<u8>
    decreases ms.len(),
{
    if ms.len() == 0 {
        Seq::empty()
    } else {
        encode_question(ms[0].name, ms[0].qtype) + encode_questions(ms.skip(1))
    }
}

/// Wire bytes of a record sequence.
pub open spec fn encode_records(ms: Seq<RecordModel>) -> Seq<u8>
    decreases ms.len(),
{
    if ms.len() == 0 {
        Seq::empty()
    } else {
        encode_record(ms[0]) + encode_records(ms.skip(1))
    }
}

/// Wire bytes of a whole message.
pub open spec fn encode_packet(m: PacketModel) -> Seq<u8> {
    encode_header(m.header) + encode_questions(m.questions) + encode_records(m.answers)
        + encode_records(m.authorities) + encode_records(m.resources)
}

/// The model a packet writes as.
pub open spec fn packet_model(p: Packet) -> PacketModel {
    PacketModel {
        header: p.header,
        questions: p.questions@.map_values(|q: Question| question_model(q)),
        answers: p.answers@.map_values(|r: Record| record_model(r)),
        authorities: p.authorities@.map_values(|r: Record| record_model(r)),
        resources: p.resources@.map_values(|r: Record| record_model(r)),
    }
}

/// Every question name in the sequence is encodable.
pub open spec fn all_questions_ok(ms: Seq<QuestionModel>) -> bool {
    forall|i: int| 0 <= i < ms.len() ==> name_ok(#[trigger] ms[i].name)
}

/// Every record name in the sequence is encodable.
pub open spec fn all_records_ok(ms: Seq<RecordModel>) -> bool {
    forall|i: int| 0 <= i < ms.len() ==> record_names_ok(#[trigger] ms[i])
}

/// Every name the packet would write is encodable.
pub open spec fn packet_names_ok(m: PacketModel) -> bool {
    &&& all_questions_ok(m.questions)
    &&& all_records_ok(m.answers)
    &&& all_records_ok(m.authorities)
    &&& all_records_ok(m.resources)
}

/// The header with its four count fields recomputed from the sequences it
/// travels with; counts are never trusted from caller-set values.
pub open spec fn counts_fixed(p: Packet) -> Header {
    Header {
        questions: p.questions@.len() as u16,
        answers: p.answers@.len() as u16,
        authoritative_entries: p.authorities@.len() as u16,
        resource_entries: p.resources@.len() as u16,
        ..p.header
    }
}

/// One whole DNS message: the header and the four record sections in wire
/// order.
#[derive(Debug, Clone, PartialEq, Eq)]
pub struct Packet {
    pub header: Header,
    pub questions: Vec<Question>,
    pub answers: Vec<Record>,
    pub authorities: Vec<Record>,
    pub resources: Vec<Record>,
}

impl Packet {
    /// An empty packet with a zeroed header.
    pub fn new() -> (r: Packet)
        ensures
            r.header == default_header(),
            r.questions@.len() == 0,
            r.answers@.len() == 0,
            r.authorities@.len() == 0,
            r.resources@.len() == 0,
    {
        Packet {
            header: Header::new(),
            questions: Vec::new(),
            answers: Vec::new(),
            authorities: Vec::new(),
            resources: Vec::new(),
        }
    }

    /// Decode a whole message at the buffer's position: the header, then
    /// exactly as many questions and records as its counts announce, in
    /// the protocol's fixed order.
    pub fn from_buffer(buffer: &mut BytePacketBuffer) -> (r: Result<Packet, DnsError>)
        requires
            old(buffer).wf(),
        ensures
            final(buffer).wf(),
            final(buffer).buf@ == old(buffer).buf@,
            match r {
                Ok(p) => match parse_packet(old(buffer).buf@, old(buffer).pos as int) {
                    Parsed::Found { value, next } => packet_fits(p, value) && final(buffer).pos
                        == next,
                    Parsed::Fail(_) => false,
                },
                Err(e) => parse_packet(old(buffer).buf@, old(buffer).pos as int)
                    == Parsed::<PacketModel>::Fail(e) && final(buffer).pos == old(buffer).pos,
            },
    {
        let ghost b = buffer.buf@;
        let p0e: usize = buffer.pos;
        let ghost p0 = buffer.pos as int;
        let mut result = Packet::new();
        match result.header.read(buffer) {
            Ok(()) => {},
            Err(e) => {
                return Err(e);
            },
        }
        let ghost h = parse_header(b, p0)->Some_0;
        let mut i: u16 = 0;
        let ghost q0 = buffer.pos as int;
        let ghost mut qmodels: Seq<QuestionModel> = Seq::empty();
        let n_questions = result.header.questions;
        while i < n_questions
            invariant
                buffer.wf(),
                b == old(buffer).buf@,
                p0 == old(buffer).pos as int,
                p0e as int == p0,
                buffer.buf@ == b,
                parse_header(b, p0) == Some(h),
                result.header == h,
                n_questions == h.questions,
                q0 == p0 + 12,
                i <= n_questions,
                qmodels.len() == i as int,
                questions_fit(result.questions@, qmodels),
                result.answers@.len() == 0,
                result.authorities@.len() == 0,
                result.resources@.len() == 0,
                match parse_questions(b, buffer.pos as int, n_questions as int - i as int) {
                    Parsed::Found { value, next } => parse_questions(b, q0, n_questions as int)
                        == Parsed::Found::<Seq<QuestionModel>> { value: qmodels + value, next },
                    Parsed::Fail(e) => parse_questions(b, q0, n_questions as int)
                        == Parsed::<Seq<QuestionModel>>::Fail(e),
                },
            decreases n_questions as int - i as int,
        {
            let mut question = Question::new(String::new(), Query::UNKNOWN(0));
            let ghost cur = buffer.pos as int;
            let ghost kq = n_questions as int - i as int;
            match question.read(buffer) {
                Ok(()) => {},
                Err(e) => {
                    proof {
                        assert(parse_question(b, cur) == Parsed::<QuestionModel>::Fail(e));
                        assert(kq >= 1);
                        assert(parse_questions(b, cur, kq) == Parsed::<Seq<QuestionModel>>::Fail(e));
                    }
                    buffer.seek(p0e);
                    return Err(e);
                },
            }
            proof {
                let value = parse_question(b, cur)->Found_value;
                assert(qmodels + (seq![value] + parse_questions(
                    b,
                    buffer.pos as int,
                    n_questions as int - i as int - 1,
                )->Found_value) =~= (qmodels + seq![value]) + parse_questions(
                    b,
                    buffer.pos as int,
                    n_questions as int - i as int - 1,
                )->Found_value);
                qmodels = qmodels + seq![value];
            }
            result.questions.push(question);
            i = i + 1;
        }
        let ghost n1 = buffer.pos as int;
        match Self::read_records(buffer, result.header.answers, &mut result.answers) {
            Ok(()) => {},
            Err(e) => {
                buffer.seek(p0e);
                return Err(e);
            },
        }
        let ghost n2 = buffer.pos as int;
        match Self::read_records(
            buffer,
            result.header.authoritative_entries,
            &mut result.authorities,
        ) {
            Ok(()) => {},
            Err(e) => {
                buffer.seek(p0e);
                return Err(e);
            },
        }
        let ghost n3 = buffer.pos as int;
        match Self::read_records(buffer, result.header.resource_entries, &mut result.resources) {
            Ok(()) => {},
            Err(e) => {
                buffer.seek(p0e);
                return Err(e);
            },
        }
        Ok(result)
    }

    /// Recompute the four header counts from the actual sequence lengths,
    /// then encode the header and every section in wire order at the
    /// buffer's position.
    pub fn write(&mut self, buffer: &mut BytePacketBuffer) -> (r: Result<(), DnsError>)
        requires
            old(buffer).wf(),
        ensures
            final(buffer).wf(),
            *final(self) == (Packet { header: counts_fixed(*old(self)), ..*old(self) }),
            final(buffer).pos >= old(buffer).pos,
            forall|i: int|
                0 <= i < PACKET_SIZE && !(old(buffer).pos <= i < final(buffer).pos)
                    ==> final(buffer).buf@[i] == old(buffer).buf@[i],
            match r {
                Ok(()) => final(buffer).buf@ == splice(
                    old(buffer).buf@,
                    old(buffer).pos as int,
                    encode_packet(packet_model(*final(self))),
                ) && final(buffer).pos == old(buffer).pos + encode_packet(
                    packet_model(*final(self)),
                ).len(),
                Err(e) => {
                    &&& !(packet_names_ok(packet_model(*final(self))) && old(buffer).pos
                        + encode_packet(packet_model(*final(self))).len() <= PACKET_SIZE)
                    &&& (e == DnsError::LabelTooLong || e == DnsError::BufferBounds)
                    &&& (e == DnsError::LabelTooLong ==> !packet_names_ok(
                        packet_model(*final(self)),
                    ))
                    &&& (e == DnsError::BufferBounds ==> old(buffer).pos + encode_packet(
                        packet_model(*final(self)),
                    ).len() > PACKET_SIZE)
                },
            },
    {
        self.header.questions = self.questions.len() as u16;
        self.header.answers = self.answers.len() as u16;
        self.header.authoritative_entries = self.authorities.len() as u16;
        self.header.resource_entries = self.resources.len() as u16;
        let ghost buf0 = buffer.buf@;
        let ghost pos0 = buffer.pos as int;
        let ghost m = packet_model(*self);
        let ghost enc = encode_packet(m);
        match self.header.write(buffer) {
            Ok(()) => {},
            Err(e) => {
                return Err(e);
            },
        }
        let ghost mut w: Seq<u8> = encode_header(m.header);
        match Self::write_questions(buffer, &self.questions) {
            Ok(()) => {},
            Err(e) => {
                return Err(e);
            },
        }
        proof {
            lemma_splice_concat(buf0, pos0, w, encode_questions(m.questions));
            w = w + encode_questions(m.questions);
            assert(buffer.buf@ == splice(buf0, pos0, w));
        }
        match Self::write_records(buffer, &self.answers) {
            Ok(()) => {},
            Err(e) => {
                return Err(e);
            },
        }
        proof {
            lemma_splice_concat(buf0, pos0, w, encode_records(m.answers));
            w = w + encode_records(m.answers);
            assert(buffer.buf@ == splice(buf0, pos0, w));
        }
        match Self::write_records(buffer, &self.authorities) {
            Ok(()) => {},
            Err(e) => {
                return Err(e);
            },
        }
        proof {
            lemma_splice_concat(buf0, pos0, w, encode_records(m.authorities));
            w = w + encode_records(m.authorities);
            assert(buffer.buf@ == splice(buf0, pos0, w));
        }
        match Self::write_records(buffer, &self.resources) {
            Ok(()) => {},
            Err(e) => {
                return Err(e);
            },
        }
        proof {
            lemma_splice_concat(buf0, pos0, w, encode_records(m.resources));
            w = w + encode_records(m.resources);
            assert(w =~= enc);
        }
        Ok(())
    }

    /// Encode the questions one after the other at the buffer's position.
    fn write_questions(buffer: &mut BytePacketBuffer, questions: &Vec<Question>) -> (r: Result<
        (),
        DnsError,
    >)
        requires
            old(buffer).wf(),
        ensures
            final(buffer).wf(),
            final(buffer).pos >= old(buffer).pos,
            forall|i: int|
                0 <= i < PACKET_SIZE && !(old(buffer).pos <= i < final(buffer).pos)
                    ==> final(buffer).buf@[i] == old(buffer).buf@[i],
            ({
                let ms = questions@.map_values(|q: Question| question_model(q));
                match r {
                    Ok(()) => final(buffer).buf@ == splice(
                        old(buffer).buf@,
                        old(buffer).pos as int,
                        encode_questions(ms),
                    ) && final(buffer).pos == old(buffer).pos + encode_questions(ms).len(),
                    Err(e) => {
                        &&& !(all_questions_ok(ms) && old(buffer).pos + encode_questions(ms).len()
                            <= PACKET_SIZE)
                        &&& (e == DnsError::LabelTooLong || e == DnsError::BufferBounds)
                        &&& (e == DnsError::LabelTooLong ==> !all_questions_ok(ms))
                        &&& (e == DnsError::BufferBounds ==> old(buffer).pos + encode_questions(
                            ms,
                        ).len() > PACKET_SIZE)
                    },
                }
            }),
    {
        let ghost buf0 = buffer.buf@;
        let ghost pos0 = buffer.pos as int;
        let ghost ms = questions@.map_values(|q: Question| question_model(q));
        let ghost enc = encode_questions(ms);
        let ghost mut w: Seq<u8> = Seq::empty();
        proof {
            assert(buffer.buf@ =~= splice(buf0, pos0, w));
            assert(ms.skip(0) =~= ms);
        }
        let mut i: usize = 0;
        while i < questions.len()
            invariant
                buffer.wf(),
                buf0 == old(buffer).buf@,
                pos0 == old(buffer).pos as int,
                ms == questions@.map_values(|q: Question| question_model(q)),
                enc == encode_questions(ms),
                i <= questions@.len(),
                buffer.buf@ == splice(buf0, pos0, w),
                buffer.pos == pos0 + w.len(),
                enc == w + encode_questions(ms.skip(i as int)),
            decreases questions@.len() - i as int,
        {
            let ghost suffix = ms.skip(i as int);
            proof {
                assert(suffix[0] == ms[i as int]);
                assert(suffix.skip(1) =~= ms.skip(i as int + 1));
                assert(encode_questions(suffix) == encode_question(suffix[0].name, suffix[0].qtype)
                    + encode_questions(suffix.skip(1)));
            }
            match questions[i].write(buffer) {
                Ok(()) => {},
                Err(e) => {
                    proof {
                        if e == DnsError::LabelTooLong {
                            assert(!name_ok(ms[i as int].name));
                            assert(!all_questions_ok(ms));
                        }
                    }
                    return Err(e);
                },
            }
            proof {
                lemma_splice_concat(
                    buf0,
                    pos0,
                    w,
                    encode_question(ms[i as int].name, ms[i as int].qtype),
                );
                w = w + encode_question(ms[i as int].name, ms[i as int].qtype);
            }
            i = i + 1;
        }
        proof {
            assert(ms.skip(ms.len() as int) =~= Seq::<QuestionModel>::empty());
            assert(enc =~= w);
        }
        Ok(())
    }

    /// Encode the records one after the other at the buffer's position;
    /// records of unknown type are skipped.
    fn write_records(buffer: &mut BytePacketBuffer, records: &Vec<Record>) -> (r: Result<
        (),
        DnsError,
    >)
        requires
            old(buffer).wf(),
        ensures
            final(buffer).wf(),
            final(buffer).pos >= old(buffer).pos,
            forall|i: int|
                0 <= i < PACKET_SIZE && !(old(buffer).pos <= i < final(buffer).pos)
                    ==> final(buffer).buf@[i] == old(buffer).buf@[i],
            ({
                let ms = records@.map_values(|rc: Record| record_model(rc));
                match r {
                    Ok(()) => final(buffer).buf@ == splice(
                        old(buffer).buf@,
                        old(buffer).pos as int,
                        encode_records(ms),
                    ) && final(buffer).pos == old(buffer).pos + encode_records(ms).len(),
                    Err(e) => {
                        &&& !(all_records_ok(ms) && old(buffer).pos + encode_records(ms).len()
                            <= PACKET_SIZE)
                        &&& (e == DnsError::LabelTooLong || e == DnsError::BufferBounds)
                        &&& (e == DnsError::LabelTooLong ==> !all_records_ok(ms))
                        &&& (e == DnsError::BufferBounds ==> old(buffer).pos + encode_records(
                            ms,
                        ).len() > PACKET_SIZE)
                    },
                }
            }),
    {
        let ghost buf0 = buffer.buf@;
        let ghost pos0 = buffer.pos as int;
        let ghost ms = records@.map_values(|rc: Record| record_model(rc));
        let ghost enc = encode_records(ms);
        let ghost mut w: Seq<u8> = Seq::empty();
        proof {
            assert(buffer.buf@ =~= splice(buf0, pos0, w));
            assert(ms.skip(0) =~= ms);
        }
        let mut i: usize = 0;
        while i < records.len()
            invariant
                buffer.wf(),
                buf0 == old(buffer).buf@,
                pos0 == old(buffer).pos as int,
                ms == records@.map_values(|rc: Record| record_model(rc)),
                enc == encode_records(ms),
                i <= records@.len(),
                buffer.buf@ == splice(buf0, pos0, w),
                buffer.pos == pos0 + w.len(),
                enc == w + encode_records(ms.skip(i as int)),
            decreases records@.len() - i as int,
        {
            let ghost suffix = ms.skip(i as int);
            proof {
                assert(suffix[0] == ms[i as int]);
                assert(suffix.skip(1) =~= ms.skip(i as int + 1));
                assert(encode_records(suffix) == encode_record(suffix[0]) + encode_records(
                    suffix.skip(1),
                ));
            }
            match records[i].write(buffer) {
                Ok(()) => {},
                Err(e) => {
                    proof {
                        if e == DnsError::LabelTooLong {
                            assert(!record_names_ok(ms[i as int]));
                            assert(!all_records_ok(ms));
                        }
                    }
                    return Err(e);
                },
            }
            proof {
                lemma_splice_concat(buf0, pos0, w, encode_record(ms[i as int]));
                w = w + encode_record(ms[i as int]);
            }
            i = i + 1;
        }
        proof {
            assert(ms.skip(ms.len() as int) =~= Seq::<RecordModel>::empty());
            assert(enc =~= w);
        }
        Ok(())
    }

    /// Decode `count` records in a row into `out`.
    fn read_records(buffer: &mut BytePacketBuffer, count: u16, out: &mut Vec<Record>) -> (r:
        Result<(), DnsError>)
        requires
            old(buffer).wf(),
            old(out)@.len() == 0,
        ensures
            final(buffer).wf(),
            final(buffer).buf@ == old(buffer).buf@,
            match r {
                Ok(()) => match parse_records(old(buffer).buf@, old(buffer).pos as int, count as int) {
                    Parsed::Found { value, next } => records_fit(final(out)@, value)
                        && final(buffer).pos == next,
                    Parsed::Fail(_) => false,
                },
                Err(e) => parse_records(old(buffer).buf@, old(buffer).pos as int, count as int)
                    == Parsed::<Seq<RecordModel>>::Fail(e) && final(buffer).pos == old(buffer).pos,
            },
    {
        let ghost b = buffer.buf@;
        let r0e: usize = buffer.pos;
        let ghost r0 = buffer.pos as int;
        let mut i: u16 = 0;
        let ghost mut rmodels: Seq<RecordModel> = Seq::empty();
        while i < count
            invariant
                buffer.wf(),
                b == old(buffer).buf@,
                r0 == old(buffer).pos as int,
                r0e as int == r0,
                buffer.buf@ == b,
                i <= count,
                rmodels.len() == i as int,
                records_fit(out@, rmodels),
                match parse_records(b, buffer.pos as int, count as int - i as int) {
                    Parsed::Found { value, next } => parse_records(b, r0, count as int)
                        == Parsed::Found::<Seq<RecordModel>> { value: rmodels + value, next },
                    Parsed::Fail(e) => parse_records(b, r0, count as int)
                        == Parsed::<Seq<RecordModel>>::Fail(e),
                },
            decreases count as int - i as int,
        {
            let ghost cur = buffer.pos as int;
            let ghost k = count as int - i as int;
            let rec = match Record::read(buffer) {
                Ok(v) => v,
                Err(e) => {
                    proof {
                        assert(parse_record(b, cur) == Parsed::<RecordModel>::Fail(e));
                        assert(k >= 1);
                        assert(parse_records(b, cur, k) == Parsed::<Seq<RecordModel>>::Fail(e));
                    }
                    buffer.seek(r0e);
                    return Err(e);
                },
            };
            proof {
                let value = parse_record(b, cur)->Found_value;
                assert(rmodels + (seq![value] + parse_records(
                    b,
                    buffer.pos as int,
                    count as int - i as int - 1,
                )->Found_value) =~= (rmodels + seq![value]) + parse_records(
                    b,
                    buffer.pos as int,
                    count as int - i as int - 1,
                )->Found_value);
                rmodels = rmodels + seq![value];
            }
            out.push(rec);
            i = i + 1;
        }
        Ok(())
    }

    /// The address of the first A record among the answers, if any; the
    /// choice among several equally valid answers is left to callers, who
    /// may shuffle before asking.
    pub fn get_random_a(&self) -> (r: Option<Ipv4>)
        ensures
            r == first_a(self.answers@),
    {
        let mut i: usize = 0;
        proof {
            assert(self.answers@.skip(0) =~= self.answers@);
        }
        while i < self.answers.len()
            invariant
                i <= self.answers@.len(),
                first_a(self.answers@) == first_a(self.answers@.skip(i as int)),
            decreases self.answers@.len() - i as int,
        {
            proof {
                assert(self.answers@.skip(i as int)[0] == self.answers@[i as int]);
                assert(self.answers@.skip(i as int).skip(1) =~= self.answers@.skip(i as int + 1));
            }
            match &self.answers[i] {
                Record::A { addr, .. } => {
                    return Some(*addr);
                },
                _ => {},
            }
            i = i + 1;
        }
        proof {
            assert(self.answers@.skip(self.answers@.len() as int)
                =~= Seq::<Record>::empty());
        }
        None
    }

    /// The name servers of the authorities section that are authoritative
    /// for `qname`: every NS record whose domain is a suffix of `qname` on
    /// a label boundary, in order, as (domain, host) pairs.
    pub fn get_ns(&self, qname: &str) -> (r: Vec<(String, String)>)
        ensures
            r@.len() == ns_pairs(self.authorities@, qname.spec_bytes()).len(),
            forall|i: int|
                0 <= i < r@.len() ==> (#[trigger] r@[i].0@, r@[i].1@) == ns_pairs(
                    self.authorities@,
                    qname.spec_bytes(),
                )[i],
    {
        let ghost qb = qname.spec_bytes();
        let mut out: Vec<(String, String)> = Vec::new();
        let mut i: usize = 0;
        proof {
            assert(self.authorities@.skip(0) =~= self.authorities@);
            assert(pair_views(out@) =~= Seq::<(Seq<char>, Seq<char>)>::empty());
            assert(pair_views(out@) + ns_pairs(self.authorities@, qb) =~= ns_pairs(
                self.authorities@,
                qb,
            ));
        }
        while i < self.authorities.len()
            invariant
                i <= self.authorities@.len(),
                qb == qname.spec_bytes(),
                ns_pairs(self.authorities@, qb) == pair_views(out@) + ns_pairs(
                    self.authorities@.skip(i as int),
                    qb,
                ),
                out@.len() == pair_views(out@).len(),
                forall|j: int|
                    0 <= j < out@.len() ==> (#[trigger] out@[j].0@, out@[j].1@) == pair_views(
                        out@,
                    )[j],
            decreases self.authorities@.len() - i as int,
        {
            proof {
                assert(self.authorities@.skip(i as int)[0] == self.authorities@[i as int]);
                assert(self.authorities@.skip(i as int).skip(1) =~= self.authorities@.skip(
                    i as int + 1,
                ));
            }
            match &self.authorities[i] {
                Record::NS { domain, host, .. } => {
                    if ends_with_domain(qname, domain.as_str()) {
                        let pair = (domain.clone(), host.clone());
                        proof {
                            assert(pair_views(out@.push(pair)) =~= pair_views(out@) + seq![
                                (domain@, host@),
                            ]);
                            assert(pair_views(out@) + (seq![(domain@, host@)] + ns_pairs(
                                self.authorities@.skip(i as int + 1),
                                qb,
                            )) =~= (pair_views(out@) + seq![(domain@, host@)]) + ns_pairs(
                                self.authorities@.skip(i as int + 1),
                                qb,
                            ));
                        }
                        out.push(pair);
                    }
                },
                _ => {},
            }
            i = i + 1;
        }
        proof {
            assert(self.authorities@.skip(self.authorities@.len() as int)
                =~= Seq::<Record>::empty());
            assert(pair_views(out@) + ns_pairs(Seq::<Record>::empty(), qb) =~= pair_views(out@));
        }
        out
    }

    /// The address of the first glue record: among the nameservers
    /// authoritative for `qname`, the first whose host also appears as the
    /// domain of an A record in the additional section.
    pub fn get_resolved_ns(&self, qname: &str) -> (r: Option<Ipv4>)
        ensures
            r == resolved_ns(self.authorities@, self.resources@, qname.spec_bytes()),
    {
        let ghost qb = qname.spec_bytes();
        let mut i: usize = 0;
        proof {
            assert(self.authorities@.skip(0) =~= self.authorities@);
        }
        while i < self.authorities.len()
            invariant
                i <= self.authorities@.len(),
                qb == qname.spec_bytes(),
                resolved_ns(self.authorities@, self.resources@, qb) == resolved_ns(
                    self.authorities@.skip(i as int),
                    self.resources@,
                    qb,
                ),
            decreases self.authorities@.len() - i as int,
        {
            proof {
                assert(self.authorities@.skip(i as int)[0] == self.authorities@[i as int]);
                assert(self.authorities@.skip(i as int).skip(1) =~= self.authorities@.skip(
                    i as int + 1,
                ));
            }
            match &self.authorities[i] {
                Record::NS { domain, host, .. } => {
                    if ends_with_domain(qname, domain.as_str()) {
                        match Self::a_lookup(&self.resources, host) {
                            Some(addr) => {
                                return Some(addr);
                            },
                            None => {},
                        }
                    }
                },
                _ => {},
            }
            i = i + 1;
        }
        proof {
            assert(self.authorities@.skip(self.authorities@.len() as int)
                =~= Seq::<Record>::empty());
        }
        None
    }

    /// The address of the first A record among `records` whose domain
    /// equals `host`.
    fn a_lookup(records: &Vec<Record>, host: &String) -> (r: Option<Ipv4>)
        ensures
            r == a_for_host(records@, host@),
    {
        let mut i: usize = 0;
        proof {
            assert(records@.skip(0) =~= records@);
        }
        while i < records.len()
            invariant
                i <= records@.len(),
                a_for_host(records@, host@) == a_for_host(records@.skip(i as int), host@),
            decreases records@.len() - i as int,
        {
            proof {
                assert(records@.skip(i as int)[0] == records@[i as int]);
                assert(records@.skip(i as int).skip(1) =~= records@.skip(i as int + 1));
            }
            match &records[i] {
                Record::A { domain, addr, .. } => {
                    if domain.eq(host) {
                        return Some(*addr);
                    }
                },
                _ => {},
            }
            i = i + 1;
        }
        proof {
            assert(records@.skip(records@.len() as int) =~= Seq::<Record>::empty());
        }
        None
    }

    /// The host name of the first nameserver authoritative for `qname`,
    /// for when no glue record supplies its address and the resolution
    /// loop must look it up itself.
    pub fn get_unresolved_ns(&self, qname: &str) -> (r: Option<String>)
        ensures
            match r {
                Some(h) => ns_pairs(self.authorities@, qname.spec_bytes()).len() > 0 && h@
                    == ns_pairs(self.authorities@, qname.spec_bytes())[0].1,
                None => ns_pairs(self.authorities@, qname.spec_bytes()).len() == 0,
            },
    {
        let ghost qb = qname.spec_bytes();
        let mut i: usize = 0;
        proof {
            assert(self.authorities@.skip(0) =~= self.authorities@);
        }
        while i < self.authorities.len()
            invariant
                i <= self.authorities@.len(),
                qb == qname.spec_bytes(),
                ns_pairs(self.authorities@, qb) == ns_pairs(
                    self.authorities@.skip(i as int),
                    qb,
                ),
            decreases self.authorities@.len() - i as int,
        {
            proof {
                assert(self.authorities@.skip(i as int)[0] == self.authorities@[i as int]);
                assert(self.authorities@.skip(i as int).skip(1) =~= self.authorities@.skip(
                    i as int + 1,
                ));
            }
            match &self.authorities[i] {
                Record::NS { domain, host, .. } => {
                    if ends_with_domain(qname, domain.as_str()) {
                        return Some(host.clone());
                    }
                },
                _ => {},
            }
            i = i + 1;
        }
        proof {
            assert(self.authorities@.skip(self.authorities@.len() as int)
                =~= Seq::<Record>::empty());
        }
        None
    }
}

/// `d` names a zone the queried name belongs to: `d` is a byte suffix of
/// `q` and the cut falls on a label boundary, either taking the whole name
/// or starting just after an ASCII dot.
pub open spec fn is_domain_suffix(q: Seq<u8>, d: Seq<u8>) -> bool {
    &&& d.len() <= q.len()
    &&& q.skip(q.len() - d.len()) == d
    &&& (d.len() == q.len() || q[q.len() - d.len() - 1] == 46)
}

/// Whether `q` ends with the domain `d` on a label boundary.
pub fn ends_with_domain(q: &str, d: &str) -> (r: bool)
    ensures
        r == is_domain_suffix(q.spec_bytes(), d.spec_bytes()),
{
    let qb: &[u8] = q.as_bytes();
    let db: &[u8] = d.as_bytes();
    let qn: usize = qb.len();
    let dn: usize = db.len();
    if dn > qn {
        return false;
    }
    let off: usize = qn - dn;
    let mut j: usize = 0;
    while j < dn
        invariant
            qb@ == q.spec_bytes(),
            db@ == d.spec_bytes(),
            qn == qb@.len(),
            dn == db@.len(),
            dn <= qn,
            off == qn - dn,
            j <= dn,
            forall|k: int| 0 <= k < j ==> qb@[off + k] == db@[k],
        decreases dn - j,
    {
        if qb[off + j] != db[j] {
            proof {
                assert(qb@.skip(off as int)[j as int] != db@[j as int]);
            }
            return false;
        }
        j = j + 1;
    }
    proof {
        assert(qb@.skip(off as int) =~= db@);
    }
    if off == 0 {
        true
    } else {
        qb[off - 1] == 46
    }
}

/// The views of a sequence of (domain, host) pairs.
pub open spec fn pair_views(ps: Seq<(String, String)>) -> Seq<(Seq<char>, Seq<char>)> {
    ps.map_values(|p: (String, String)| (p.0@, p.1@))
}

/// The first A record among the answers, by position.
pub open spec fn first_a(rs: Seq<Record>) -> Option<Ipv4>
    decreases rs.len(),
{
    if rs.len() == 0 {
        None
    } else {
        match rs[0] {
            Record::A { addr, .. } => Some(addr),
            _ => first_a(rs.skip(1)),
        }
    }
}

/// The (domain, host) pairs of the NS records whose domain is a suffix of
/// the queried name on a label boundary, in order.
pub open spec fn ns_pairs(rs: Seq<Record>, qb: Seq<u8>) -> Seq<(Seq<char>, Seq<char>)>
    decreases rs.len(),
{
    if rs.len() == 0 {
        Seq::empty()
    } else {
        match rs[0] {
            Record::NS { domain, host, .. } => if is_domain_suffix(qb, str_bytes(domain@)) {
                seq![(domain@, host@)] + ns_pairs(rs.skip(1), qb)
            } else {
                ns_pairs(rs.skip(1), qb)
            },
            _ => ns_pairs(rs.skip(1), qb),
        }
    }
}

/// The first A record whose domain equals `host`.
pub open spec fn a_for_host(rs: Seq<Record>, host: Seq<char>) -> Option<Ipv4>
    decreases rs.len(),
{
    if rs.len() == 0 {
        None
    } else {
        match rs[0] {
            Record::A { domain, addr, .. } => if domain@ == host {
                Some(addr)
            } else {
                a_for_host(rs.skip(1), host)
            },
            _ => a_for_host(rs.skip(1), host),
        }
    }
}

/// The glue address for the queried name: walking the authoritative NS
/// records in order, the first address that the additional section holds
/// for one of their hosts.
pub open spec fn resolved_ns(auths: Seq<Record>, res: Seq<Record>, qb: Seq<u8>) -> Option<Ipv4>
    decreases auths.len(),
{
    if auths.len() == 0 {
        None
    } else {
        match auths[0] {
            Record::NS { domain, host, .. } => if is_domain_suffix(qb, str_bytes(domain@)) {
                match a_for_host(res, host@) {
                    Some(a) => Some(a),
                    None => resolved_ns(auths.skip(1), res, qb),
                }
            } else {
                resolved_ns(auths.skip(1), res, qb)
            },
            _ => resolved_ns(auths.skip(1), res, qb),
        }
    }
}

} // verus!
