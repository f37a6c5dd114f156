use vstd::prelude::*;

use crate::error::DnsError;
use crate::header::{header_decode_error, Header};
use crate::message::{answer_wire, Answer, Message, ANSWER_TTL, CLASS_IN, IPV4_LEN, TYPE_A};
use crate::question::Question;

verus! {

/// The id that every response carries.
pub const RESPONSE_ID: u16 = 1234;

impl Header {
    /// The header turned into a response: the fixed id, `qr` set, one
    /// question and one answer counted, and the question asking for an A
    /// record of class IN; every other field kept.
    pub open spec fn as_response(self) -> Header {
        Header {
            id: RESPONSE_ID,
            qr: true,
            qdcount: 1,
            ancount: 1,
            question: Question { query_type: TYPE_A, query_class: CLASS_IN, ..self.question },
            ..self
        }
    }

    /// Turns a decoded query header into the header of its response.
    pub fn mark_as_response(&mut self)
        ensures
            *final(self) == old(self).as_response(),
    {
        self.id = RESPONSE_ID;
        self.qr = true;
        self.qdcount = 1;
        self.ancount = 1;
        self.question.query_type = TYPE_A;
        self.question.query_class = CLASS_IN;
    }
}

/// The bytes of the response to a query with header `h`: its header turned
/// into a response, then an A record for the question's name at `address`.
pub open spec fn response_wire(h: Header, address: [u8; 4]) -> Seq<u8> {
    h.as_response().wire() + answer_wire(
        h.question.name@,
        TYPE_A,
        CLASS_IN,
        ANSWER_TTL,
        IPV4_LEN,
        address@,
    )
}

/// The response to a decoded query: its header turned into a response, and
/// an A record that gives the question's name the address `address`.
pub fn build_response(query: Header, address: [u8; 4]) -> (r: Message)
    requires
        query.question.name.wf(),
    ensures
        r.header == query.as_response(),
        r.answer.name@ == query.question.name@,
        r.answer.name.wf(),
        r.answer.record_type == TYPE_A,
        r.answer.record_class == CLASS_IN,
        r.answer.ttl == ANSWER_TTL,
        r.answer.data_length == IPV4_LEN,
        r.answer.data == address,
        r.wire() == response_wire(query, address),
{
    let name = query.question.name.duplicate();
    let mut header = query;
    header.mark_as_response();
    Message { header, answer: Answer::a_record(name, address) }
}

/// Answers one query datagram: decodes its header and question, and encodes
/// the response that gives the question's name the address `address`. Fails,
/// with the decoder's error, exactly where the request does not decode.
pub fn respond(request: &[u8], address: [u8; 4]) -> (r: Result<Vec<u8>, DnsError>)
    ensures
        match r {
            Ok(v) => header_decode_error(request@, 0) is None && exists|h: Header, n: int|
                h.decoded_from(request@, 0, n) && v@ == response_wire(h, address),
            Err(e) => header_decode_error(request@, 0) == Some(e),
        },
{
    let (query, n) = match Header::decode(request, 0) {
        Ok(x) => x,
        Err(e) => {
            return Err(e);
        },
    };
    let ghost q = query;
    let response = build_response(query, address);
    let bytes = response.encode();
    assert(q.decoded_from(request@, 0, n as int) && bytes@ == response_wire(q, address));
    Ok(bytes)
}

} // verus!
