use vstd::prelude::*;

use crate::error::DnsError;

verus! {

/// One length-prefixed segment of a domain name.
#[derive(Debug, Clone, PartialEq, Eq)]
pub struct Label {
    pub length: u8,
    pub data: Vec<u8>,
}

/// What decoding one label at `off` of `b` gives: its bytes and how many
/// bytes it takes on the wire.
pub open spec fn spec_label_decode(b: Seq<u8>, off: int) -> Result<(Seq<u8>, int), DnsError> {
    if off < 0 || off >= b.len() {
        Err(DnsError::TruncatedInput)
    } else if off + 1 + b[off] > b.len() {
        Err(DnsError::TruncatedInput)
    } else {
        Ok((b.subrange(off + 1, off + 1 + b[off]), 1 + b[off]))
    }
}

/// A fresh vector holding `bytes[start..end]`.
pub fn copy_range(bytes: &[u8], start: usize, end: usize) -> (r: Vec<u8>)
    requires
        start <= end <= bytes@.len(),
    ensures
        r@ == bytes@.subrange(start as int, end as int),
{
    let mut data: Vec<u8> = Vec::new();
    let mut i: usize = start;
    while i < end
        invariant
            start <= i <= end,
            end <= bytes@.len(),
            data@ == bytes@.subrange(start as int, i as int),
        decreases end - i,
    {
        data.push(bytes[i]);
        i += 1;
        assert(data@ =~= bytes@.subrange(start as int, i as int));
    }
    data
}

/// What `String::from_utf8_lossy` makes of a byte sequence: the text it
/// holds, each invalid sequence replaced by U+FFFD.
pub uninterp spec fn utf8_lossy(b: Seq<u8>) -> Seq<char>;

/// Relies on `String::from_utf8_lossy`: its text depends on the bytes alone.
#[verifier::external_body]
fn lossy_text(b: &[u8]) -> (r: String)
    ensures
        r@ == utf8_lossy(b@),
{
    String::from_utf8_lossy(b).into_owned()
}

impl Label {
    /// The length byte agrees with the data.
    pub open spec fn wf(&self) -> bool {
        self.length as int == self.data@.len()
    }

    /// The label on the wire: its length byte, then its data verbatim.
    pub open spec fn wire(&self) -> Seq<u8> {
        seq![self.length] + self.data@
    }

    /// A label holding `data`; data longer than a length byte can count is refused.
    pub fn new(data: Vec<u8>) -> (r: Result<Label, DnsError>)
        ensures
            data@.len() <= 255 <==> r is Ok,
            r is Ok ==> r->Ok_0.wf() && r->Ok_0.data@ == data@,
            r is Err ==> r->Err_0 == DnsError::EncodingOverflow,
    {
        if data.len() > 255 {
            Err(DnsError::EncodingOverflow)
        } else {
            Ok(Label { length: data.len() as u8, data })
        }
    }

    /// The zero-length label that ends every name.
    pub fn terminator() -> (r: Label)
        ensures
            r.wf(),
            r.length == 0,
    {
        Label { length: 0, data: Vec::new() }
    }

    /// Reads one label at `offset` of `bytes`, and says how many bytes it took.
    pub fn decode(bytes: &[u8], offset: usize) -> (r: Result<(Label, usize), DnsError>)
        ensures
            match r {
                Ok((l, n)) => l.wf() && spec_label_decode(bytes@, offset as int) == Ok::<
                    (Seq<u8>, int),
                    DnsError,
                >((l.data@, n as int)),
                Err(e) => spec_label_decode(bytes@, offset as int) == Err::<
                    (Seq<u8>, int),
                    DnsError,
                >(e),
            },
    {
        if offset >= bytes.len() {
            return Err(DnsError::TruncatedInput);
        }
        let length = bytes[offset];
        if bytes.len() - offset - 1 < length as usize {
            return Err(DnsError::TruncatedInput);
        }
        let data = copy_range(bytes, offset + 1, offset + 1 + length as usize);
        Ok((Label { length, data }, 1 + length as usize))
    }

    /// Appends the label's wire form to `out`.
    pub fn encode_into(&self, out: &mut Vec<u8>)
        ensures
            final(out)@ == old(out)@ + self.wire(),
    {
        out.push(self.length);
        let mut i: usize = 0;
        while i < self.data.len()
            invariant
                0 <= i <= self.data@.len(),
                out@ == old(out)@ + seq![self.length] + self.data@.subrange(0, i as int),
            decreases self.data@.len() - i,
        {
            out.push(self.data[i]);
            i += 1;
            assert(out@ =~= old(out)@ + seq![self.length] + self.data@.subrange(0, i as int));
        }
        assert(self.data@.subrange(0, self.data@.len() as int) =~= self.data@);
        assert(out@ =~= old(out)@ + self.wire());
    }

    /// The label's data read as UTF-8 text, invalid sequences replaced.
    pub fn to_text(&self) -> (r: String)
        ensures
            r@ == utf8_lossy(self.data@),
    {
        lossy_text(self.data.as_slice())
    }

    /// A copy of the label.
    pub fn duplicate(&self) -> (r: Label)
        ensures
            r.length == self.length,
            r.data@ == self.data@,
    {
        Label { length: self.length, data: copy_range(self.data.as_slice(), 0, self.data.len()) }
    }

    /// The label's wire form: its length byte, then its data.
    pub fn encode(&self) -> (r: Vec<u8>)
        ensures
            r@ == self.wire(),
    {
        let mut out: Vec<u8> = Vec::new();
        self.encode_into(&mut out);
        assert(out@ =~= self.wire());
        out
    }
}

} // verus!
