use vstd::prelude::*;

use crate::header::Header;
use crate::name::{labels_wire, Name};
use crate::wire::{be16_bytes, be32_bytes, push_u16, push_u32};

verus! {

/// The record type of a host address (A) record.
pub const TYPE_A: u16 = 1;

/// The Internet record class.
pub const CLASS_IN: u16 = 1;

/// The time to live given to every answer, in seconds.
pub const ANSWER_TTL: u32 = 60;

/// The length of an IPv4 address.
pub const IPV4_LEN: u16 = 4;

/// A resource record that answers a question with an IPv4 address.
#[derive(Debug, Clone, PartialEq, Eq)]
pub struct Answer {
    pub name: Name,
    pub record_type: u16,
    pub record_class: u16,
    pub ttl: u32,
    pub data_length: u16,
    pub data: [u8; 4],
}

/// A record on the wire: the name, type, class, time to live and data length
/// in network byte order, then the address bytes.
pub open spec fn answer_wire(
    ls: Seq<Seq<u8>>,
    record_type: u16,
    record_class: u16,
    ttl: u32,
    data_length: u16,
    data: Seq<u8>,
) -> Seq<u8> {
    labels_wire(ls) + be16_bytes(record_type) + be16_bytes(record_class) + be32_bytes(ttl)
        + be16_bytes(data_length) + data
}

impl Answer {
    /// The record on the wire.
    pub open spec fn wire(&self) -> Seq<u8> {
        answer_wire(
            self.name@,
            self.record_type,
            self.record_class,
            self.ttl,
            self.data_length,
            self.data@,
        )
    }

    /// The A record of class IN that gives `name` the address `address`,
    /// with the fixed time to live.
    pub fn a_record(name: Name, address: [u8; 4]) -> (r: Answer)
        ensures
            r.name == name,
            r.record_type == TYPE_A,
            r.record_class == CLASS_IN,
            r.ttl == ANSWER_TTL,
            r.data_length == IPV4_LEN,
            r.data == address,
    {
        Answer {
            name,
            record_type: TYPE_A,
            record_class: CLASS_IN,
            ttl: ANSWER_TTL,
            data_length: IPV4_LEN,
            data: address,
        }
    }

    /// Appends the record's wire form to `out`.
    pub fn encode_into(&self, out: &mut Vec<u8>)
        requires
            self.name.wf(),
        ensures
            final(out)@ == old(out)@ + self.wire(),
    {
        self.name.encode_into(out);
        push_u16(out, self.record_type);
        push_u16(out, self.record_class);
        push_u32(out, self.ttl);
        push_u16(out, self.data_length);
        out.push(self.data[0]);
        out.push(self.data[1]);
        out.push(self.data[2]);
        out.push(self.data[3]);
        assert(out@ =~= old(out)@ + self.wire());
    }

    /// The record on the wire.
    pub fn encode(&self) -> (r: Vec<u8>)
        requires
            self.name.wf(),
        ensures
            r@ == self.wire(),
    {
        let mut out: Vec<u8> = Vec::new();
        self.encode_into(&mut out);
        assert(out@ =~= self.wire());
        out
    }
}

/// A complete response: the header with its question, then one answer.
#[derive(Debug, Clone, PartialEq, Eq)]
pub struct Message {
    pub header: Header,
    pub answer: Answer,
}

impl Message {
    /// The message on the wire: header and question, then the answer, with
    /// nothing between them.
    pub open spec fn wire(&self) -> Seq<u8> {
        self.header.wire() + self.answer.wire()
    }

    /// The message on the wire.
    pub fn encode(&self) -> (r: Vec<u8>)
        requires
            self.header.question.name.wf(),
            self.answer.name.wf(),
        ensures
            r@ == self.wire(),
    {
        let mut out: Vec<u8> = Vec::new();
        self.header.encode_into(&mut out);
        self.answer.encode_into(&mut out);
        assert(out@ =~= self.wire());
        out
    }
}

} // verus!
