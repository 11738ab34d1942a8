use vstd::prelude::*;
use vstd::string::StringSliceAdditionalSpecFns;
use vstd::utf8::encode_utf8;
use crate::error::DnsError;
use crate::name::{encode_name, name_wire, read_name, valid_name};
use crate::packet_buffer::{be16, lemma_splice_concat, splice, u16_bytes, PacketBuffer, BUFFER_SIZE};
use crate::query_type::{type_code, type_of_code, QueryType};

verus! {

/// The uncompressed wire form of a name given as text.
pub open spec fn text_wire(t: Seq<char>) -> Seq<u8> {
    name_wire(encode_utf8(t))
}

/// A name given as text that the encoder accepts.
pub open spec fn text_valid(t: Seq<char>) -> bool {
    valid_name(encode_utf8(t))
}

/// One entry of the question section.
pub struct DnsQuestion {
    pub qname: String,
    pub qtype: QueryType,
}

/// A question as a value: its name as text and its type.
pub struct QuestionModel {
    pub name: Seq<char>,
    pub qtype: QueryType,
}

impl View for DnsQuestion {
    type V = QuestionModel;

    open spec fn view(&self) -> QuestionModel {
        QuestionModel { name: self.qname@, qtype: self.qtype }
    }
}

/// The question at `p` and the offset after it; the class is read and dropped.
pub open spec fn read_question(d: Seq<u8>, p: int) -> Result<(QuestionModel, int), DnsError> {
    match read_name(d, p) {
        Ok((name, q)) => if q + 4 > d.len() {
            Err(DnsError::BufferOverflow)
        } else {
            Ok((QuestionModel { name, qtype: type_of_code(be16(d, q)) }, q + 4))
        },
        Err(e) => Err(e),
    }
}

/// Name, type code and class 1.
pub open spec fn question_wire(q: QuestionModel) -> Seq<u8> {
    text_wire(q.name) + u16_bytes(type_code(q.qtype)) + u16_bytes(1)
}

impl DnsQuestion {
    pub fn new(qname: String, qtype: QueryType) -> (r: Self)
        ensures
            r.qname@ == qname@,
            r.qtype == qtype,
    {
        DnsQuestion { qname, qtype }
    }

    /// Decodes the question at the buffer's cursor into `self`.
    pub fn read(&mut self, buffer: &mut PacketBuffer) -> (r: Result<(), DnsError>)
        requires
            old(buffer).wf(),
        ensures
            final(buffer).wf(),
            final(buffer).data() == old(buffer).data(),
            match read_question(old(buffer).data(), old(buffer).cursor()) {
                Ok((q, end)) => r is Ok && final(self)@ == q && final(buffer).cursor() == end,
                Err(e) => r == Err::<(), DnsError>(e),
            },
    {
        let name = match buffer.get_qname() {
            Ok(n) => n,
            Err(e) => {
                return Err(e);
            },
        };
        if buffer.get_pos() > BUFFER_SIZE - 4 {
            return Err(DnsError::BufferOverflow);
        }
        let code = buffer.read_u16();
        let _class = buffer.read_u16();
        match code {
            Ok(c) => {
                self.qname = name;
                self.qtype = QueryType::from_num(c);
                Ok(())
            },
            Err(e) => Err(e),
        }
    }

    /// Encodes the question at the buffer's cursor; on failure nothing is written.
    pub fn write(&self, buffer: &mut PacketBuffer) -> (r: Result<(), DnsError>)
        requires
            old(buffer).wf(),
        ensures
            final(buffer).wf(),
            !text_valid(self.qname@) ==> r == Err::<(), DnsError>(DnsError::MalformedName),
            text_valid(self.qname@) && old(buffer).cursor() + question_wire(self@).len() > BUFFER_SIZE
                ==> r == Err::<(), DnsError>(DnsError::BufferOverflow),
            text_valid(self.qname@) && old(buffer).cursor() + question_wire(self@).len() <= BUFFER_SIZE
                ==> r is Ok && final(buffer).data() == splice(old(buffer).data(), old(buffer).cursor(), question_wire(self@))
                && final(buffer).cursor() == old(buffer).cursor() + question_wire(self@).len(),
            r is Err ==> *final(buffer) == *old(buffer),
    {
        let wire = match encode_name(self.qname.as_str()) {
            Ok(w) => w,
            Err(e) => {
                return Err(e);
            },
        };
        if wire.len() > BUFFER_SIZE || wire.len() + 4 > BUFFER_SIZE - buffer.get_pos() {
            return Err(DnsError::BufferOverflow);
        }
        let ghost d = buffer.data();
        let ghost p = buffer.cursor();
        let _ = buffer.write_bytes(wire.as_slice());
        let _ = buffer.write_u16(self.qtype.to_num());
        proof {
            lemma_splice_concat(d, p, wire@, u16_bytes(type_code(self.qtype)));
        }
        let _ = buffer.write_u16(1);
        proof {
            lemma_splice_concat(d, p, wire@ + u16_bytes(type_code(self.qtype)), u16_bytes(1));
        }
        Ok(())
    }
}

} // verus!
