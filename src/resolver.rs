use vstd::prelude::*;
use crate::error::DnsError;
use crate::header::{empty_header, DnsHeader};
use crate::packet::{DnsPacket, PacketModel};
use crate::query_type::QueryType;
use crate::question::{DnsQuestion, QuestionModel};
use crate::record::{DnsRecord, Ipv4Address, RecordModel};
use crate::result_code::ResultCode;

verus! {

/// Queries that one resolution may make before it gives up.
pub const MAX_ATTEMPTS: u32 = 16;

/// Identifier of the queries that the resolver sends.
pub const QUERY_ID: u16 = 1234;

/// The address of the first A record among `rs`, if any.
pub open spec fn first_glue(rs: Seq<RecordModel>) -> Option<Ipv4Address>
    decreases rs.len(),
{
    if rs.len() == 0 {
        None
    } else {
        match rs[0] {
            RecordModel::A { addr, .. } => Some(addr),
            _ => first_glue(rs.drop_first()),
        }
    }
}

/// What the resolver does next.
#[derive(Clone, Copy, Debug, PartialEq, Eq, Structural)]
pub enum Step {
    /// Send the query to this server.
    Query(Ipv4Address),
    /// The response just handed in answers the question.
    Answer,
    /// No answer within the attempt bound.
    Failed,
}

/// The state of one iterative resolution: the server to ask and the queries made.
#[derive(Clone, Copy, Debug, PartialEq, Eq, Structural)]
pub struct Resolution {
    pub server: Ipv4Address,
    pub attempts: u32,
}

/// The server that a response leads to: the first glue address, else the same server.
pub open spec fn next_server(server: Ipv4Address, response: Result<PacketModel, DnsError>) -> Ipv4Address {
    match response {
        Ok(m) => match first_glue(m.additionals) {
            Some(a) => a,
            None => server,
        },
        Err(_) => server,
    }
}

pub open spec fn answered(response: Result<PacketModel, DnsError>) -> bool {
    response is Ok && response->Ok_0.answers.len() > 0
}

pub open spec fn response_view(response: Result<DnsPacket, DnsError>) -> Result<PacketModel, DnsError> {
    match response {
        Ok(p) => Ok(p@),
        Err(e) => Err(e),
    }
}

/// The first A record's address among the records.
fn find_glue(rs: &Vec<DnsRecord>) -> (r: Option<Ipv4Address>)
    ensures
        r == first_glue(rs@.map_values(|x: DnsRecord| x@)),
{
    let ghost all = rs@.map_values(|x: DnsRecord| x@);
    let mut i: usize = 0;
    assert(all.subrange(0, all.len() as int) =~= all);
    while i < rs.len()
        invariant
            i <= rs@.len(),
            all == rs@.map_values(|x: DnsRecord| x@),
            first_glue(all) == first_glue(all.subrange(i as int, all.len() as int)),
        decreases rs@.len() - i,
    {
        let ghost tail = all.subrange(i as int, all.len() as int);
        assert(tail[0] == rs@[i as int]@);
        assert(tail.drop_first() =~= all.subrange(i + 1, all.len() as int));
        match &rs[i] {
            DnsRecord::A { addr, .. } => {
                return Some(*addr);
            },
            _ => {},
        }
        i = i + 1;
    }
    None
}

impl Resolution {
    /// A resolution that starts at the seed server.
    pub fn new(seed: Ipv4Address) -> (r: Self)
        ensures
            r.server == seed,
            r.attempts == 0,
    {
        Resolution { server: seed, attempts: 0 }
    }

    /// The first query goes to the seed server.
    pub fn first_step(&self) -> (r: Step)
        ensures
            r == Step::Query(self.server),
    {
        Step::Query(self.server)
    }

    /// Takes the outcome of the query to `self.server` (a decoded response, or the
    /// failure of the exchange) and decides: an answer ends the resolution; else the
    /// first glue address in the additional section becomes the server to ask, or the
    /// same server is asked again, until `MAX_ATTEMPTS` queries have been made.
    pub fn on_response(&mut self, response: &Result<DnsPacket, DnsError>) -> (r: Step)
        ensures
            final(self).attempts == if old(self).attempts < MAX_ATTEMPTS { old(self).attempts + 1 } else {
                old(self).attempts as int
            },
            answered(response_view(*response)) ==> r == Step::Answer && final(self).server == old(self).server,
            !answered(response_view(*response)) ==> final(self).server == next_server(
                old(self).server,
                response_view(*response),
            ) && r == if final(self).attempts >= MAX_ATTEMPTS {
                Step::Failed
            } else {
                Step::Query(final(self).server)
            },
    {
        if self.attempts < MAX_ATTEMPTS {
            self.attempts = self.attempts + 1;
        }
        match response {
            Ok(p) => {
                if p.answer_section.len() > 0 {
                    return Step::Answer;
                }
                match find_glue(&p.additional_section) {
                    Some(a) => {
                        self.server = a;
                    },
                    None => {},
                }
            },
            Err(_) => {},
        }
        if self.attempts >= MAX_ATTEMPTS {
            Step::Failed
        } else {
            Step::Query(self.server)
        }
    }
}

/// The query that the resolver sends: one question, recursion desired.
pub fn query_packet(qname: &String, qtype: QueryType) -> (r: DnsPacket)
    ensures
        r@ == (PacketModel {
            header: DnsHeader {
                packet_identifier: QUERY_ID,
                recursion_desired: true,
                question_count: 1,
                ..empty_header()
            },
            questions: seq![QuestionModel { name: qname@, qtype }],
            answers: seq![],
            authorities: seq![],
            additionals: seq![],
        }),
{
    let mut packet = DnsPacket::new();
    packet.header.packet_identifier = QUERY_ID;
    packet.header.question_count = 1;
    packet.header.recursion_desired = true;
    packet.question_section.push(DnsQuestion::new(qname.clone(), qtype));
    assert(packet@.questions =~= seq![QuestionModel { name: qname@, qtype }]);
    packet
}

/// The service's reply to a request with identifier `id`: FORMERR where the request
/// held no question; SERVFAIL, the question echoed, where resolution failed; else the
/// question echoed with the resolved message's code and sections.
pub fn response_packet(id: u16, question: Option<DnsQuestion>, outcome: Option<DnsPacket>) -> (r: DnsPacket)
    ensures
        r.header == (DnsHeader {
            packet_identifier: id,
            recursion_desired: true,
            recursion_available: true,
            query_response: true,
            response_code: match (question, outcome) {
                (None, _) => ResultCode::FORMERR,
                (Some(_), None) => ResultCode::SERVFAIL,
                (Some(_), Some(res)) => res.header.response_code,
            },
            ..empty_header()
        }),
        match question {
            None => r@.questions == Seq::<QuestionModel>::empty(),
            Some(q) => r@.questions == seq![q@],
        },
        match (question, outcome) {
            (Some(_), Some(res)) => r@.answers == res@.answers && r@.authorities == res@.authorities
                && r@.additionals == res@.additionals,
            _ => r@.answers == Seq::<RecordModel>::empty() && r@.authorities == Seq::<RecordModel>::empty()
                && r@.additionals == Seq::<RecordModel>::empty(),
        },
{
    let mut packet = DnsPacket::new();
    packet.header.packet_identifier = id;
    packet.header.recursion_desired = true;
    packet.header.recursion_available = true;
    packet.header.query_response = true;
    match question {
        None => {
            packet.header.response_code = ResultCode::FORMERR;
        },
        Some(q) => {
            let ghost qv = q@;
            packet.question_section.push(q);
            assert(packet@.questions =~= seq![qv]);
            match outcome {
                None => {
                    packet.header.response_code = ResultCode::SERVFAIL;
                },
                Some(res) => {
                    packet.header.response_code = res.header.response_code;
                    packet.answer_section = res.answer_section;
                    packet.authority_section = res.authority_section;
                    packet.additional_section = res.additional_section;
                },
            }
        },
    }
    packet
}

} // verus!
