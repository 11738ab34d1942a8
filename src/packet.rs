use vstd::prelude::*;
use crate::error::DnsError;
use crate::header::{empty_header, header_from, header_wire, DnsHeader, HEADER_SIZE};
use crate::name::encode_name;
use crate::packet_buffer::{lemma_splice_concat, splice, write_outcome, PacketBuffer, BUFFER_SIZE};
use crate::question::{question_wire, read_question, text_valid, DnsQuestion, QuestionModel};
use crate::query_type::QueryType;
use crate::record::{read_record, record_valid, record_wire, DnsRecord, RecordModel};

verus! {

/// A message: header and the four sections in wire order.
pub struct DnsPacket {
    pub header: DnsHeader,
    pub question_section: Vec<DnsQuestion>,
    pub answer_section: Vec<DnsRecord>,
    pub authority_section: Vec<DnsRecord>,
    pub additional_section: Vec<DnsRecord>,
}

/// A message as a value.
pub struct PacketModel {
    pub header: DnsHeader,
    pub questions: Seq<QuestionModel>,
    pub answers: Seq<RecordModel>,
    pub authorities: Seq<RecordModel>,
    pub additionals: Seq<RecordModel>,
}

pub open spec fn questions_view(v: Seq<DnsQuestion>) -> Seq<QuestionModel> {
    v.map_values(|q: DnsQuestion| q@)
}

pub open spec fn records_view(v: Seq<DnsRecord>) -> Seq<RecordModel> {
    v.map_values(|r: DnsRecord| r@)
}

impl View for DnsPacket {
    type V = PacketModel;

    open spec fn view(&self) -> PacketModel {
        PacketModel {
            header: self.header,
            questions: questions_view(self.question_section@),
            answers: records_view(self.answer_section@),
            authorities: records_view(self.authority_section@),
            additionals: records_view(self.additional_section@),
        }
    }
}

/// Items read so far, then the outcome of reading the rest.
pub open spec fn after<A>(acc: Seq<A>, rest: Result<(Seq<A>, int), DnsError>) -> Result<(Seq<A>, int), DnsError> {
    match rest {
        Ok((xs, end)) => Ok((acc + xs, end)),
        Err(e) => Err(e),
    }
}

/// `n` questions read one after another from `p`.
pub open spec fn read_questions(d: Seq<u8>, p: int, n: nat) -> Result<(Seq<QuestionModel>, int), DnsError>
    decreases n,
{
    if n == 0 {
        Ok((seq![], p))
    } else {
        match read_question(d, p) {
            Err(e) => Err(e),
            Ok((q, next)) => after(seq![q], read_questions(d, next, (n - 1) as nat)),
        }
    }
}

/// `n` records read one after another from `p`.
pub open spec fn read_records(d: Seq<u8>, p: int, n: nat) -> Result<(Seq<RecordModel>, int), DnsError>
    decreases n,
{
    if n == 0 {
        Ok((seq![], p))
    } else {
        match read_record(d, p) {
            Err(e) => Err(e),
            Ok((r, next)) => after(seq![r], read_records(d, next, (n - 1) as nat)),
        }
    }
}

/// The message at `p`: the header, then as many entries of each section as it counts.
pub open spec fn read_packet(d: Seq<u8>, p: int) -> Result<(PacketModel, int), DnsError> {
    if p < 0 || p + HEADER_SIZE > d.len() {
        Err(DnsError::BufferOverflow)
    } else {
        let h = header_from(d, p);
        match read_questions(d, p + HEADER_SIZE, h.question_count as nat) {
            Err(e) => Err(e),
            Ok((qs, p1)) => match read_records(d, p1, h.answer_count as nat) {
                Err(e) => Err(e),
                Ok((an, p2)) => match read_records(d, p2, h.authority_count as nat) {
                    Err(e) => Err(e),
                    Ok((ns, p3)) => match read_records(d, p3, h.additional_count as nat) {
                        Err(e) => Err(e),
                        Ok((ar, p4)) => Ok((
                            PacketModel { header: h, questions: qs, answers: an, authorities: ns, additionals: ar },
                            p4,
                        )),
                    },
                },
            },
        }
    }
}

pub open spec fn questions_wire(qs: Seq<QuestionModel>) -> Seq<u8>
    decreases qs.len(),
{
    if qs.len() == 0 {
        seq![]
    } else {
        questions_wire(qs.drop_last()) + question_wire(qs.last())
    }
}

pub open spec fn records_wire(rs: Seq<RecordModel>) -> Seq<u8>
    decreases rs.len(),
{
    if rs.len() == 0 {
        seq![]
    } else {
        records_wire(rs.drop_last()) + record_wire(rs.last())
    }
}

/// The header with its four counts taken from the sections.
pub open spec fn counted(m: PacketModel) -> PacketModel {
    PacketModel {
        header: DnsHeader {
            question_count: m.questions.len() as u16,
            answer_count: m.answers.len() as u16,
            authority_count: m.authorities.len() as u16,
            additional_count: m.additionals.len() as u16,
            ..m.header
        },
        ..m
    }
}

/// The message's wire form, header counts as they stand.
pub open spec fn packet_wire(m: PacketModel) -> Seq<u8> {
    header_wire(m.header) + questions_wire(m.questions) + records_wire(m.answers) + records_wire(m.authorities)
        + records_wire(m.additionals)
}

pub open spec fn records_valid(rs: Seq<RecordModel>) -> bool {
    forall|i: int| 0 <= i < rs.len() ==> record_valid(#[trigger] rs[i])
}

/// Every name in the message can be encoded.
pub open spec fn packet_valid(m: PacketModel) -> bool {
    &&& forall|i: int| 0 <= i < m.questions.len() ==> text_valid(#[trigger] m.questions[i].name)
    &&& records_valid(m.answers)
    &&& records_valid(m.authorities)
    &&& records_valid(m.additionals)
}

pub proof fn lemma_questions_wire_concat(a: Seq<QuestionModel>, b: Seq<QuestionModel>)
    ensures
        questions_wire(a + b) == questions_wire(a) + questions_wire(b),
    decreases b.len(),
{
    if b.len() == 0 {
        assert(a + b =~= a);
        assert(questions_wire(a) + seq![] =~= questions_wire(a));
    } else {
        assert((a + b).drop_last() =~= a + b.drop_last());
        lemma_questions_wire_concat(a, b.drop_last());
        assert(questions_wire(a + b) =~= questions_wire(a) + questions_wire(b));
    }
}

pub proof fn lemma_records_wire_concat(a: Seq<RecordModel>, b: Seq<RecordModel>)
    ensures
        records_wire(a + b) == records_wire(a) + records_wire(b),
    decreases b.len(),
{
    if b.len() == 0 {
        assert(a + b =~= a);
        assert(records_wire(a) + seq![] =~= records_wire(a));
    } else {
        assert((a + b).drop_last() =~= a + b.drop_last());
        lemma_records_wire_concat(a, b.drop_last());
        assert(records_wire(a + b) =~= records_wire(a) + records_wire(b));
    }
}

fn read_question_section(buffer: &mut PacketBuffer, n: u16) -> (r: Result<Vec<DnsQuestion>, DnsError>)
    requires
        old(buffer).wf(),
    ensures
        final(buffer).wf(),
        final(buffer).data() == old(buffer).data(),
        match read_questions(old(buffer).data(), old(buffer).cursor(), n as nat) {
            Ok((qs, end)) => r is Ok && questions_view(r->Ok_0@) == qs && final(buffer).cursor() == end,
            Err(e) => r == Err::<Vec<DnsQuestion>, DnsError>(e),
        },
{
    let ghost d = buffer.data();
    let ghost p0 = buffer.cursor();
    let mut out: Vec<DnsQuestion> = Vec::new();
    let mut i: u16 = 0;
    assert(questions_view(out@) + seq![] =~= questions_view(out@));
    while i < n
        invariant
            buffer.wf(),
            buffer.data() == d,
            d == old(buffer).data(),
            p0 == old(buffer).cursor(),
            i <= n,
            read_questions(d, p0, n as nat) == after(questions_view(out@), read_questions(d, buffer.cursor(), (n - i) as nat)),
        decreases n - i,
    {
        let ghost p = buffer.cursor();
        let mut q = DnsQuestion::new(String::new(), QueryType::UNKNOWN(0));
        match q.read(buffer) {
            Ok(()) => {},
            Err(e) => {
                return Err(e);
            },
        }
        proof {
            let rest = read_questions(d, buffer.cursor(), (n - i - 1) as nat);
            match rest {
                Ok((xs, end)) => {
                    assert(questions_view(out@) + (seq![q@] + xs) =~= questions_view(out@).push(q@) + xs);
                },
                Err(e) => {},
            }
        }
        let ghost before = out@;
        out.push(q);
        proof {
            assert(questions_view(out@) =~= questions_view(before).push(q@));
        }
        i = i + 1;
    }
    proof {
        assert(questions_view(out@) + seq![] =~= questions_view(out@));
    }
    Ok(out)
}

fn read_record_section(buffer: &mut PacketBuffer, n: u16) -> (r: Result<Vec<DnsRecord>, DnsError>)
    requires
        old(buffer).wf(),
    ensures
        final(buffer).wf(),
        final(buffer).data() == old(buffer).data(),
        match read_records(old(buffer).data(), old(buffer).cursor(), n as nat) {
            Ok((rs, end)) => r is Ok && records_view(r->Ok_0@) == rs && final(buffer).cursor() == end,
            Err(e) => r == Err::<Vec<DnsRecord>, DnsError>(e),
        },
{
    let ghost d = buffer.data();
    let ghost p0 = buffer.cursor();
    let mut out: Vec<DnsRecord> = Vec::new();
    let mut i: u16 = 0;
    assert(records_view(out@) + seq![] =~= records_view(out@));
    while i < n
        invariant
            buffer.wf(),
            buffer.data() == d,
            d == old(buffer).data(),
            p0 == old(buffer).cursor(),
            i <= n,
            read_records(d, p0, n as nat) == after(records_view(out@), read_records(d, buffer.cursor(), (n - i) as nat)),
        decreases n - i,
    {
        let rec = match DnsRecord::read(buffer) {
            Ok(x) => x,
            Err(e) => {
                return Err(e);
            },
        };
        proof {
            let rest = read_records(d, buffer.cursor(), (n - i - 1) as nat);
            match rest {
                Ok((xs, end)) => {
                    assert(records_view(out@) + (seq![rec@] + xs) =~= records_view(out@).push(rec@) + xs);
                },
                Err(e) => {},
            }
        }
        let ghost before = out@;
        out.push(rec);
        proof {
            assert(records_view(out@) =~= records_view(before).push(rec@));
        }
        i = i + 1;
    }
    proof {
        assert(records_view(out@) + seq![] =~= records_view(out@));
    }
    Ok(out)
}

/// Writes the questions one after another; every name is known to be encodable.
fn write_question_section(buffer: &mut PacketBuffer, qs: &Vec<DnsQuestion>) -> (r: Result<(), DnsError>)
    requires
        old(buffer).wf(),
        forall|i: int| 0 <= i < qs@.len() ==> text_valid(#[trigger] qs@[i].qname@),
    ensures
        final(buffer).wf(),
        r is Ok ==> final(buffer).data() == splice(old(buffer).data(), old(buffer).cursor(), questions_wire(questions_view(qs@)))
            && final(buffer).cursor() == old(buffer).cursor() + questions_wire(questions_view(qs@)).len(),
        r is Ok <==> old(buffer).cursor() + questions_wire(questions_view(qs@)).len() <= BUFFER_SIZE,
        r is Err ==> r == Err::<(), DnsError>(DnsError::BufferOverflow),
{
    let ghost d = buffer.data();
    let ghost p = buffer.cursor();
    let ghost all = questions_view(qs@);
    let mut i: usize = 0;
    proof {
        assert(all.subrange(0, 0) =~= Seq::<QuestionModel>::empty());
        assert(splice(d, p, seq![]) =~= d);
    }
    while i < qs.len()
        invariant
            buffer.wf(),
            d.len() == BUFFER_SIZE,
            0 <= p <= BUFFER_SIZE,
            all == questions_view(qs@),
            i <= qs@.len(),
            forall|k: int| 0 <= k < qs@.len() ==> text_valid(#[trigger] qs@[k].qname@),
            buffer.cursor() == p + questions_wire(all.subrange(0, i as int)).len(),
            buffer.data() == splice(d, p, questions_wire(all.subrange(0, i as int))),
            d == old(buffer).data(),
            p == old(buffer).cursor(),
        decreases qs@.len() - i,
    {
        let ghost done = questions_wire(all.subrange(0, i as int));
        let ghost piece = question_wire(all[i as int]);
        proof {
            assert(all.subrange(0, i + 1).drop_last() =~= all.subrange(0, i as int));
            assert(questions_wire(all.subrange(0, i + 1)) == done + piece);
            assert(all[i as int] == qs@[i as int]@);
            lemma_questions_wire_concat(all.subrange(0, i + 1), all.subrange(i + 1, all.len() as int));
            assert(all.subrange(0, i + 1) + all.subrange(i + 1, all.len() as int) =~= all);
        }
        match qs[i].write(buffer) {
            Ok(()) => {},
            Err(e) => {
                return Err(e);
            },
        }
        proof {
            lemma_splice_concat(d, p, done, piece);
        }
        i = i + 1;
    }
    proof {
        assert(all.subrange(0, i as int) =~= all);
    }
    Ok(())
}

/// Writes the records one after another; every name is known to be encodable.
#[verifier::rlimit(40)]
fn write_record_section(buffer: &mut PacketBuffer, rs: &Vec<DnsRecord>) -> (r: Result<(), DnsError>)
    requires
        old(buffer).wf(),
        records_valid(records_view(rs@)),
    ensures
        final(buffer).wf(),
        r is Ok ==> final(buffer).data() == splice(old(buffer).data(), old(buffer).cursor(), records_wire(records_view(rs@)))
            && final(buffer).cursor() == old(buffer).cursor() + records_wire(records_view(rs@)).len(),
        r is Ok <==> old(buffer).cursor() + records_wire(records_view(rs@)).len() <= BUFFER_SIZE,
        r is Err ==> r == Err::<(), DnsError>(DnsError::BufferOverflow),
{
    let ghost d = buffer.data();
    let ghost p = buffer.cursor();
    let ghost all = records_view(rs@);
    let mut i: usize = 0;
    proof {
        assert(all.subrange(0, 0) =~= Seq::<RecordModel>::empty());
        assert(splice(d, p, seq![]) =~= d);
    }
    while i < rs.len()
        invariant
            buffer.wf(),
            d.len() == BUFFER_SIZE,
            0 <= p <= BUFFER_SIZE,
            all == records_view(rs@),
            i <= rs@.len(),
            records_valid(all),
            buffer.cursor() == p + records_wire(all.subrange(0, i as int)).len(),
            buffer.data() == splice(d, p, records_wire(all.subrange(0, i as int))),
            d == old(buffer).data(),
            p == old(buffer).cursor(),
        decreases rs@.len() - i,
    {
        let ghost done = records_wire(all.subrange(0, i as int));
        let ghost piece = record_wire(all[i as int]);
        proof {
            assert(all.subrange(0, i + 1).drop_last() =~= all.subrange(0, i as int));
            assert(records_wire(all.subrange(0, i + 1)) == done + piece);
            assert(all[i as int] == rs@[i as int]@);
            lemma_records_wire_concat(all.subrange(0, i + 1), all.subrange(i + 1, all.len() as int));
            assert(all.subrange(0, i + 1) + all.subrange(i + 1, all.len() as int) =~= all);
            assert(record_valid(all[i as int]));
        }
        match rs[i].write(buffer) {
            Ok(()) => {},
            Err(e) => {
                return Err(e);
            },
        }
        proof {
            lemma_splice_concat(d, p, done, piece);
        }
        i = i + 1;
    }
    proof {
        assert(all.subrange(0, i as int) =~= all);
    }
    Ok(())
}

/// Whether the name can be encoded.
fn name_ok(name: &String) -> (r: bool)
    ensures
        r == text_valid(name@),
{
    match encode_name(name.as_str()) {
        Ok(_) => true,
        Err(_) => false,
    }
}

impl DnsRecord {
    /// Whether every name of the record can be encoded.
    pub fn is_encodable(&self) -> (r: bool)
        ensures
            r == record_valid(self@),
    {
        match self {
            DnsRecord::UNKNOWN { .. } => true,
            DnsRecord::A { domain, .. } => name_ok(domain),
            DnsRecord::NS { domain, host, .. } => name_ok(domain) && name_ok(host),
            DnsRecord::CNAME { domain, host, .. } => name_ok(domain) && name_ok(host),
            DnsRecord::MX { domain, host, .. } => name_ok(domain) && name_ok(host),
            DnsRecord::AAAA { domain, .. } => name_ok(domain),
        }
    }
}

fn records_ok(rs: &Vec<DnsRecord>) -> (r: bool)
    ensures
        r == records_valid(records_view(rs@)),
{
    let mut i: usize = 0;
    while i < rs.len()
        invariant
            i <= rs@.len(),
            forall|k: int| 0 <= k < i ==> record_valid(#[trigger] records_view(rs@)[k]),
        decreases rs@.len() - i,
    {
        if !rs[i].is_encodable() {
            assert(records_view(rs@)[i as int] == rs@[i as int]@);
            return false;
        }
        assert(records_view(rs@)[i as int] == rs@[i as int]@);
        i = i + 1;
    }
    true
}

impl DnsPacket {
    /// An empty message with a cleared header.
    pub fn new() -> (r: Self)
        ensures
            r@ == (PacketModel {
                header: empty_header(),
                questions: seq![],
                answers: seq![],
                authorities: seq![],
                additionals: seq![],
            }),
    {
        let r = DnsPacket {
            header: DnsHeader::new(),
            question_section: Vec::new(),
            answer_section: Vec::new(),
            authority_section: Vec::new(),
            additional_section: Vec::new(),
        };
        assert(r@.questions =~= seq![]);
        assert(r@.answers =~= seq![]);
        assert(r@.authorities =~= seq![]);
        assert(r@.additionals =~= seq![]);
        r
    }

    /// Whether every name in the message can be encoded.
    pub fn is_encodable(&self) -> (r: bool)
        ensures
            r == packet_valid(self@),
    {
        let mut i: usize = 0;
        while i < self.question_section.len()
            invariant
                i <= self.question_section@.len(),
                forall|k: int| 0 <= k < i ==> text_valid(#[trigger] self@.questions[k].name),
            decreases self.question_section@.len() - i,
        {
            assert(self@.questions[i as int] == self.question_section@[i as int]@);
            if !name_ok(&self.question_section[i].qname) {
                assert(!text_valid(self@.questions[i as int].name));
                return false;
            }
            i = i + 1;
        }
        records_ok(&self.answer_section) && records_ok(&self.authority_section) && records_ok(
            &self.additional_section,
        )
    }

    /// Decodes a whole message at the buffer's cursor.
    pub fn get_packet_from_buffer(buffer: &mut PacketBuffer) -> (r: Result<DnsPacket, DnsError>)
        requires
            old(buffer).wf(),
        ensures
            final(buffer).wf(),
            final(buffer).data() == old(buffer).data(),
            match read_packet(old(buffer).data(), old(buffer).cursor()) {
                Ok((m, end)) => r is Ok && r->Ok_0@ == m && final(buffer).cursor() == end,
                Err(e) => r == Err::<DnsPacket, DnsError>(e),
            },
    {
        let mut header = DnsHeader::new();
        match header.read(buffer) {
            Ok(()) => {},
            Err(e) => {
                return Err(e);
            },
        }
        let question_section = match read_question_section(buffer, header.question_count) {
            Ok(v) => v,
            Err(e) => {
                return Err(e);
            },
        };
        let answer_section = match read_record_section(buffer, header.answer_count) {
            Ok(v) => v,
            Err(e) => {
                return Err(e);
            },
        };
        let authority_section = match read_record_section(buffer, header.authority_count) {
            Ok(v) => v,
            Err(e) => {
                return Err(e);
            },
        };
        let additional_section = match read_record_section(buffer, header.additional_count) {
            Ok(v) => v,
            Err(e) => {
                return Err(e);
            },
        };
        Ok(DnsPacket { header, question_section, answer_section, authority_section, additional_section })
    }

    /// Sets the header's counts from the sections, then encodes the whole message at
    /// the buffer's cursor; on failure nothing is written.
    pub fn write_packet_to_buffer(&mut self, buffer: &mut PacketBuffer) -> (r: Result<(), DnsError>)
        requires
            old(buffer).wf(),
            old(self).question_section@.len() <= u16::MAX,
            old(self).answer_section@.len() <= u16::MAX,
            old(self).authority_section@.len() <= u16::MAX,
            old(self).additional_section@.len() <= u16::MAX,
        ensures
            final(self)@ == counted(old(self)@),
            write_outcome(*old(buffer), *final(buffer), r, packet_valid(old(self)@), packet_wire(counted(old(self)@))),
    {
        self.header.question_count = self.question_section.len() as u16;
        self.header.answer_count = self.answer_section.len() as u16;
        self.header.authority_count = self.authority_section.len() as u16;
        self.header.additional_count = self.additional_section.len() as u16;
        assert(self@ == counted(old(self)@));
        if !self.is_encodable() {
            return Err(DnsError::MalformedName);
        }
        let saved = buffer.duplicate();
        match self.write_sections(buffer) {
            Ok(()) => Ok(()),
            Err(e) => {
                *buffer = saved;
                Err(e)
            },
        }
    }

    /// Writes header and sections in wire order; every name is known to be encodable.
    #[verifier::rlimit(80)]
    fn write_sections(&self, buffer: &mut PacketBuffer) -> (r: Result<(), DnsError>)
        requires
            old(buffer).wf(),
            packet_valid(self@),
        ensures
            final(buffer).wf(),
            r is Ok ==> final(buffer).data() == splice(old(buffer).data(), old(buffer).cursor(), packet_wire(self@))
                && final(buffer).cursor() == old(buffer).cursor() + packet_wire(self@).len(),
            r is Ok <==> old(buffer).cursor() + packet_wire(self@).len() <= BUFFER_SIZE,
            r is Err ==> r == Err::<(), DnsError>(DnsError::BufferOverflow),
    {
        let ghost m = self@;
        let ghost d = buffer.data();
        let ghost p = buffer.cursor();
        proof {
            assert forall|i: int| 0 <= i < self.question_section@.len() implies text_valid(
                #[trigger] self.question_section@[i].qname@,
            ) by {
                assert(m.questions[i] == self.question_section@[i]@);
                assert(text_valid(m.questions[i].name));
            }
        }
        match self.header.write(buffer) {
            Ok(()) => {},
            Err(e) => {
                return Err(e);
            },
        }
        let ghost w0 = header_wire(m.header);
        match write_question_section(buffer, &self.question_section) {
            Ok(()) => {},
            Err(e) => {
                return Err(e);
            },
        }
        proof {
            lemma_splice_concat(d, p, w0, questions_wire(m.questions));
        }
        let ghost w1 = w0 + questions_wire(m.questions);
        match write_record_section(buffer, &self.answer_section) {
            Ok(()) => {},
            Err(e) => {
                return Err(e);
            },
        }
        proof {
            lemma_splice_concat(d, p, w1, records_wire(m.answers));
        }
        let ghost w2 = w1 + records_wire(m.answers);
        match write_record_section(buffer, &self.authority_section) {
            Ok(()) => {},
            Err(e) => {
                return Err(e);
            },
        }
        proof {
            lemma_splice_concat(d, p, w2, records_wire(m.authorities));
        }
        let ghost w3 = w2 + records_wire(m.authorities);
        match write_record_section(buffer, &self.additional_section) {
            Ok(()) => {},
            Err(e) => {
                return Err(e);
            },
        }
        proof {
            lemma_splice_concat(d, p, w3, records_wire(m.additionals));
        }
        Ok(())
    }
}

} // verus!
