use vstd::prelude::*;

use crate::error::DnsError;
use crate::name::{labels_wire, spec_name_decode, lemma_name_decode_then_encode, Name};
use crate::wire::{be16_bytes, be16_value, lemma_be16_bytes_of_value, push_u16, read_u16};

verus! {

/// The query section: a name, the record type asked for and its class.
#[derive(Debug, Clone, PartialEq, Eq)]
pub struct Question {
    pub name: Name,
    pub query_type: u16,
    pub query_class: u16,
}

impl View for Question {
    type V = (Seq<Seq<u8>>, u16, u16);

    open spec fn view(&self) -> (Seq<Seq<u8>>, u16, u16) {
        (self.name@, self.query_type, self.query_class)
    }
}

/// A question on the wire: the name, then type and class in network byte order.
pub open spec fn question_wire(q: (Seq<Seq<u8>>, u16, u16)) -> Seq<u8> {
    labels_wire(q.0) + be16_bytes(q.1) + be16_bytes(q.2)
}

/// What decoding a question at `off` of `b` gives, and how many bytes it takes.
pub open spec fn spec_question_decode(b: Seq<u8>, off: int) -> Result<
    ((Seq<Seq<u8>>, u16, u16), int),
    DnsError,
> {
    match spec_name_decode(b, off) {
        Err(e) => Err(e),
        Ok((ls, n)) => {
            let at = off + n;
            if at + 4 > b.len() {
                Err(DnsError::TruncatedInput)
            } else {
                Ok(
                    (
                        (ls, be16_value(b[at], b[at + 1]), be16_value(b[at + 2], b[at + 3])),
                        n + 4,
                    ),
                )
            }
        },
    }
}

impl Question {
    /// Reads a question at `offset` of `bytes`, and says how many bytes it took.
    pub fn decode(bytes: &[u8], offset: usize) -> (r: Result<(Question, usize), DnsError>)
        ensures
            match r {
                Ok((q, n)) => q.name.wf() && spec_question_decode(bytes@, offset as int) == Ok::<
                    ((Seq<Seq<u8>>, u16, u16), int),
                    DnsError,
                >((q@, n as int)),
                Err(e) => spec_question_decode(bytes@, offset as int) == Err::<
                    ((Seq<Seq<u8>>, u16, u16), int),
                    DnsError,
                >(e),
            },
    {
        let (name, n) = match Name::decode(bytes, offset) {
            Ok(x) => x,
            Err(e) => {
                return Err(e);
            },
        };
        proof {
            lemma_name_decode_then_encode(bytes@, offset as int);
        }
        let len = bytes.len();
        assert(offset + n <= len);
        let at = offset + n;
        if len - at < 4 {
            return Err(DnsError::TruncatedInput);
        }
        let query_type = read_u16(bytes, at);
        let query_class = read_u16(bytes, at + 2);
        Ok((Question { name, query_type, query_class }, n + 4))
    }

    /// Appends the question's wire form to `out`.
    pub fn encode_into(&self, out: &mut Vec<u8>)
        requires
            self.name.wf(),
        ensures
            final(out)@ == old(out)@ + question_wire(self@),
    {
        self.name.encode_into(out);
        push_u16(out, self.query_type);
        push_u16(out, self.query_class);
        assert(out@ =~= old(out)@ + question_wire(self@));
    }

    /// The question on the wire.
    pub fn encode(&self) -> (r: Vec<u8>)
        requires
            self.name.wf(),
        ensures
            r@ == question_wire(self@),
    {
        let mut out: Vec<u8> = Vec::new();
        self.encode_into(&mut out);
        assert(out@ =~= question_wire(self@));
        out
    }
}

/// Decoding a question and encoding it again gives back exactly the bytes
/// that were read.
pub proof fn lemma_question_decode_then_encode(b: Seq<u8>, off: int)
    requires
        0 <= off,
        spec_question_decode(b, off) is Ok,
    ensures
        ({
            let (q, n) = spec_question_decode(b, off)->Ok_0;
            off + n <= b.len() && question_wire(q).len() == n && question_wire(q) == b.subrange(
                off,
                off + n,
            )
        }),
{
    lemma_name_decode_then_encode(b, off);
    let (ls, m) = spec_name_decode(b, off)->Ok_0;
    let at = off + m;
    assert(at + 4 <= b.len());
    let (q, n) = spec_question_decode(b, off)->Ok_0;
    assert(n == m + 4);
    assert(q.0 == ls);
    assert(labels_wire(ls) == b.subrange(off, at));
    let w = question_wire(q);
    assert(w.len() == n);
    assert forall|k: int| 0 <= k < n implies w[k] == b.subrange(off, off + n)[k] by {
        if k < m {
            assert(w[k] == labels_wire(ls)[k]);
        }
    }
    lemma_be16_bytes_of_value(b[at], b[at + 1]);
    lemma_be16_bytes_of_value(b[at + 2], b[at + 3]);
    assert(be16_bytes(q.1) == seq![b[at], b[at + 1]]);
    assert(be16_bytes(q.2) == seq![b[at + 2], b[at + 3]]);
    assert(question_wire(q) =~= b.subrange(off, off + n));
}

} // verus!
