use vstd::prelude::*;

use crate::error::DnsError;
use crate::label::{copy_range, spec_label_decode, utf8_lossy, Label};

verus! {

/// The longest label the wire format allows.
pub const MAX_LABEL_LEN: u8 = 63;

/// The longest name, on the wire, the wire format allows.
pub const MAX_NAME_LEN: usize = 255;

/// A domain name: its labels in order, the last one the zero-length terminator.
#[derive(Debug, Clone, PartialEq, Eq)]
pub struct Name {
    pub labels: Vec<Label>,
}

/// The length byte of a label with data `l`.
pub open spec fn length_byte(l: Seq<u8>) -> u8 {
    #[verifier::truncate]
    (l.len() as u8)
}

/// A sequence of labels on the wire: each label's length byte, then its data.
pub open spec fn labels_wire(ls: Seq<Seq<u8>>) -> Seq<u8>
    decreases ls.len(),
{
    if ls.len() == 0 {
        Seq::empty()
    } else {
        seq![length_byte(ls[0])] + ls[0] + labels_wire(ls.drop_first())
    }
}

/// A name that the wire format can carry: at least one label, the last one
/// empty, every other one 1 to 63 bytes long, at most 255 bytes in all.
pub open spec fn valid_labels(ls: Seq<Seq<u8>>) -> bool {
    &&& ls.len() >= 1
    &&& ls.last().len() == 0
    &&& forall|i: int| 0 <= i < ls.len() - 1 ==> 1 <= #[trigger] ls[i].len() <= MAX_LABEL_LEN
    &&& labels_wire(ls).len() <= MAX_NAME_LEN
}

/// What decoding a name that starts at `start` of `b` gives, from the label at
/// `pos` on: the labels up to and including the terminator, and how many bytes
/// they take. Each length byte is checked, in this order: that it is there, that
/// it is no compression pointer, that the label and the whole name stay within
/// their bounds, and that the label's data is there.
pub open spec fn parse_name(b: Seq<u8>, start: int, pos: int) -> Result<(Seq<Seq<u8>>, int), DnsError>
    decreases b.len() - pos,
{
    if pos < 0 || pos >= b.len() {
        Err(DnsError::TruncatedInput)
    } else {
        let len = b[pos] as int;
        if len >= 0xC0 {
            Err(DnsError::UnsupportedNameEncoding)
        } else if len > MAX_LABEL_LEN {
            Err(DnsError::MalformedName)
        } else if (pos - start) + 1 + len > MAX_NAME_LEN {
            Err(DnsError::MalformedName)
        } else if pos + 1 + len > b.len() {
            Err(DnsError::TruncatedInput)
        } else if len == 0 {
            Ok((seq![Seq::<u8>::empty()], 1))
        } else {
            match parse_name(b, start, pos + 1 + len) {
                Ok((rest, n)) => Ok((seq![b.subrange(pos + 1, pos + 1 + len)] + rest, 1 + len + n)),
                Err(e) => Err(e),
            }
        }
    }
}

/// `acc` put before what `r` decoded, `consumed` bytes added to its length.
spec fn prepend_labels(
    acc: Seq<Seq<u8>>,
    consumed: int,
    r: Result<(Seq<Seq<u8>>, int), DnsError>,
) -> Result<(Seq<Seq<u8>>, int), DnsError> {
    match r {
        Ok((rest, n)) => Ok((acc + rest, consumed + n)),
        Err(e) => Err(e),
    }
}

/// What decoding a name at `off` of `b` gives.
pub open spec fn spec_name_decode(b: Seq<u8>, off: int) -> Result<(Seq<Seq<u8>>, int), DnsError> {
    parse_name(b, off, off)
}

proof fn lemma_labels_wire_push(ls: Seq<Seq<u8>>, l: Seq<u8>)
    ensures
        labels_wire(ls.push(l)) == labels_wire(ls) + seq![length_byte(l)] + l,
    decreases ls.len(),
{
    if ls.len() == 0 {
        assert(ls.push(l).drop_first() =~= Seq::<Seq<u8>>::empty());
        assert(labels_wire(Seq::<Seq<u8>>::empty()) =~= Seq::<u8>::empty());
        assert(labels_wire(ls.push(l)) =~= labels_wire(ls) + seq![length_byte(l)] + l);
    } else {
        assert(ls.push(l).drop_first() =~= ls.drop_first().push(l));
        lemma_labels_wire_push(ls.drop_first(), l);
        assert(labels_wire(ls.push(l)) =~= labels_wire(ls) + seq![length_byte(l)] + l);
    }
}

/// Decoding gives back the bytes it read: where the name at `pos` decodes, its
/// labels are valid after the `pos - start` bytes already taken, and their
/// wire form is exactly the bytes consumed.
proof fn lemma_parse_name_wire(b: Seq<u8>, start: int, pos: int)
    requires
        start <= pos,
        parse_name(b, start, pos) is Ok,
    ensures
        ({
            let (ls, n) = parse_name(b, start, pos)->Ok_0;
            &&& ls.len() >= 1
            &&& ls.last().len() == 0
            &&& forall|i: int| 0 <= i < ls.len() - 1 ==> 1 <= #[trigger] ls[i].len() <= MAX_LABEL_LEN
            &&& n == labels_wire(ls).len()
            &&& (pos - start) + n <= MAX_NAME_LEN
            &&& pos + n <= b.len()
            &&& labels_wire(ls) == b.subrange(pos, pos + n)
        }),
    decreases b.len() - pos,
{
    let len = b[pos] as int;
    if len == 0 {
        let ls = seq![Seq::<u8>::empty()];
        assert(ls.drop_first() =~= Seq::<Seq<u8>>::empty());
        assert(labels_wire(Seq::<Seq<u8>>::empty()) =~= Seq::<u8>::empty());
        assert(labels_wire(ls) =~= b.subrange(pos, pos + 1));
    } else {
        let next = pos + 1 + len;
        lemma_parse_name_wire(b, start, next);
        let (rest, m) = parse_name(b, start, next)->Ok_0;
        let d = b.subrange(pos + 1, next);
        let ls = seq![d] + rest;
        assert(ls.drop_first() =~= rest);
        assert(ls.last() == rest.last());
        assert forall|i: int| 0 <= i < ls.len() - 1 implies 1 <= #[trigger] ls[i].len()
            <= MAX_LABEL_LEN by {
            if i > 0 {
                assert(ls[i] == rest[i - 1]);
            }
        }
        assert(length_byte(d) == b[pos]);
        assert(labels_wire(ls) =~= b.subrange(pos, next + m));
    }
}

/// Encoding then decoding gives back the labels: a valid name, followed by
/// anything at all, decodes to itself and takes exactly its wire length.
proof fn lemma_parse_labels_wire(ls: Seq<Seq<u8>>, b: Seq<u8>, start: int, pos: int)
    requires
        0 <= start <= pos,
        ls.len() >= 1,
        ls.last().len() == 0,
        forall|i: int| 0 <= i < ls.len() - 1 ==> 1 <= #[trigger] ls[i].len() <= MAX_LABEL_LEN,
        (pos - start) + labels_wire(ls).len() <= MAX_NAME_LEN,
        pos + labels_wire(ls).len() <= b.len(),
        b.subrange(pos, pos + labels_wire(ls).len()) == labels_wire(ls),
    ensures
        parse_name(b, start, pos) == Ok::<(Seq<Seq<u8>>, int), DnsError>(
            (ls, labels_wire(ls).len() as int),
        ),
    decreases ls.len(),
{
    let w = labels_wire(ls);
    let len = ls[0].len() as int;
    assert(w[0] == b[pos]);
    if ls.len() == 1 {
        assert(ls.drop_first() =~= Seq::<Seq<u8>>::empty());
        assert(ls[0] =~= Seq::<u8>::empty());
        assert(ls =~= seq![Seq::<u8>::empty()]);
    } else {
        assert(1 <= ls[0].len() <= MAX_LABEL_LEN);
        let rest = ls.drop_first();
        let next = pos + 1 + len;
        assert(w =~= seq![length_byte(ls[0])] + ls[0] + labels_wire(rest));
        assert forall|i: int| 0 <= i < rest.len() - 1 implies 1 <= #[trigger] rest[i].len()
            <= MAX_LABEL_LEN by {
            assert(rest[i] == ls[i + 1]);
        }
        assert(b.subrange(next, next + labels_wire(rest).len()) =~= labels_wire(rest)) by {
            assert forall|k: int| 0 <= k < labels_wire(rest).len() implies b.subrange(
                next,
                next + labels_wire(rest).len(),
            )[k] == labels_wire(rest)[k] by {
                assert(b[next + k] == w[1 + len + k]);
            }
        }
        lemma_parse_labels_wire(rest, b, start, next);
        assert(b.subrange(pos + 1, next) =~= ls[0]) by {
            assert forall|k: int| 0 <= k < len implies b.subrange(pos + 1, next)[k] == ls[0][k] by {
                assert(b[pos + 1 + k] == w[1 + k]);
            }
        }
        assert(seq![ls[0]] + rest =~= ls);
    }
}


/// The texts `ts` joined with `.` between them.
pub open spec fn join_dotted(ts: Seq<Seq<char>>) -> Seq<char>
    decreases ts.len(),
{
    if ts.len() == 0 {
        Seq::empty()
    } else if ts.len() == 1 {
        ts[0]
    } else {
        join_dotted(ts.drop_last()) + seq!['.'] + ts.last()
    }
}

/// A name's text: the text of every label but the terminator, joined with `.`.
pub open spec fn name_text(ls: Seq<Seq<u8>>) -> Seq<char> {
    if ls.len() == 0 {
        Seq::empty()
    } else {
        join_dotted(ls.drop_last().map_values(|l: Seq<u8>| utf8_lossy(l)))
    }
}

/// Joins `texts` with `.` between them.
pub fn join_with_dots(texts: &Vec<String>) -> (r: String)
    ensures
        r@ == join_dotted(texts@.map_values(|t: String| t@)),
{
    let ghost ts = texts@.map_values(|t: String| t@);
    let mut s = String::new();
    let mut i: usize = 0;
    proof {
        reveal_strlit(".");
    }
    assert(ts.take(0) =~= Seq::<Seq<char>>::empty());
    while i < texts.len()
        invariant
            ts == texts@.map_values(|t: String| t@),
            0 <= i <= texts@.len(),
            s@ == join_dotted(ts.take(i as int)),
            "."@ == seq!['.'],
        decreases texts@.len() - i,
    {
        let ghost prev = ts.take(i as int);
        assert(ts.take(i + 1).drop_last() =~= prev);
        assert(ts.take(i + 1).last() == texts@[i as int]@);
        if i > 0 {
            s.append(".");
        } else {
            assert(prev.len() == 0);
        }
        s.append(texts[i].as_str());
        i += 1;
        assert(s@ =~= join_dotted(ts.take(i as int)));
    }
    assert(ts.take(i as int) =~= ts);
    s
}

impl View for Name {
    type V = Seq<Seq<u8>>;

    open spec fn view(&self) -> Seq<Seq<u8>> {
        self.labels@.map_values(|l: Label| l.data@)
    }
}

impl Name {
    /// Every length byte agrees with its data, and the labels form a valid name.
    pub open spec fn wf(&self) -> bool {
        &&& forall|i: int| 0 <= i < self.labels@.len() ==> #[trigger] self.labels@[i].wf()
        &&& valid_labels(self@)
    }

    /// Reads a name at `offset` of `bytes`, label by label up to and including
    /// the terminator, and says how many bytes it took.
    pub fn decode(bytes: &[u8], offset: usize) -> (r: Result<(Name, usize), DnsError>)
        ensures
            match r {
                Ok((name, n)) => name.wf() && spec_name_decode(bytes@, offset as int) == Ok::<
                    (Seq<Seq<u8>>, int),
                    DnsError,
                >((name@, n as int)),
                Err(e) => spec_name_decode(bytes@, offset as int) == Err::<
                    (Seq<Seq<u8>>, int),
                    DnsError,
                >(e),
            },
    {
        let ghost b = bytes@;
        let ghost start = offset as int;
        let mut labels: Vec<Label> = Vec::new();
        let mut pos: usize = offset;
        assert(labels@.map_values(|l: Label| l.data@) + Seq::<Seq<u8>>::empty() =~= Seq::<
            Seq<u8>,
        >::empty());
        proof {
            let r0 = parse_name(b, start, start);
            match r0 {
                Ok((rest, n)) => {
                    assert(labels@.map_values(|l: Label| l.data@) + rest =~= rest);
                },
                Err(_) => {},
            }
        }
        loop
            invariant
                offset <= pos,
                pos - offset <= MAX_NAME_LEN,
                b == bytes@,
                start == offset as int,
                forall|i: int| 0 <= i < labels@.len() ==> #[trigger] labels@[i].wf(),
                spec_name_decode(b, start) == prepend_labels(
                    labels@.map_values(|l: Label| l.data@),
                    pos - start,
                    parse_name(b, start, pos as int),
                ),
            decreases MAX_NAME_LEN - (pos - offset),
        {
            if pos >= bytes.len() {
                return Err(DnsError::TruncatedInput);
            }
            let len = bytes[pos];
            if len >= 0xC0 {
                return Err(DnsError::UnsupportedNameEncoding);
            }
            if len > MAX_LABEL_LEN {
                return Err(DnsError::MalformedName);
            }
            if (pos - offset) + 1 + len as usize > MAX_NAME_LEN {
                return Err(DnsError::MalformedName);
            }
            let (label, n) = match Label::decode(bytes, pos) {
                Ok(x) => x,
                Err(e) => {
                    return Err(e);
                },
            };
            let ghost acc = labels@.map_values(|l: Label| l.data@);
            let ghost next = pos + n;
            labels.push(label);
            assert(labels@.map_values(|l: Label| l.data@) =~= acc.push(label.data@));
            if len == 0 {
                let name = Name { labels };
                assert(label.data@ =~= Seq::<u8>::empty());
                assert(acc + seq![Seq::<u8>::empty()] =~= name@);
                proof {
                    lemma_parse_name_wire(b, start, start);
                }
                return Ok((name, pos + 1 - offset));
            }
            proof {
                match parse_name(b, start, next) {
                    Ok((rest, m)) => {
                        assert(acc + (seq![label.data@] + rest) =~= acc.push(label.data@) + rest);
                    },
                    Err(_) => {},
                }
            }
            pos = pos + n;
        }
    }

    /// The name on the wire: each label's encoding, in order.
    pub fn encode(&self) -> (r: Vec<u8>)
        requires
            self.wf(),
        ensures
            r@ == labels_wire(self@),
    {
        let mut out: Vec<u8> = Vec::new();
        self.encode_into(&mut out);
        assert(out@ =~= labels_wire(self@));
        out
    }

    /// Appends the name's wire form to `out`.
    pub fn encode_into(&self, out: &mut Vec<u8>)
        requires
            self.wf(),
        ensures
            final(out)@ == old(out)@ + labels_wire(self@),
    {
        let mut i: usize = 0;
        assert(self@.take(0) =~= Seq::<Seq<u8>>::empty());
        assert(old(out)@ + labels_wire(Seq::<Seq<u8>>::empty()) =~= old(out)@);
        while i < self.labels.len()
            invariant
                0 <= i <= self.labels@.len(),
                self.wf(),
                out@ == old(out)@ + labels_wire(self@.take(i as int)),
            decreases self.labels@.len() - i,
        {
            let ghost before = out@;
            let label = &self.labels[i];
            label.encode_into(out);
            proof {
                assert(self.labels@[i as int].wf());
                assert(self@[i as int] == label.data@);
                assert(self@.take(i + 1) =~= self@.take(i as int).push(label.data@));
                lemma_labels_wire_push(self@.take(i as int), label.data@);
                assert(length_byte(label.data@) == label.length);
            }
            i += 1;
            assert(out@ =~= old(out)@ + labels_wire(self@.take(i as int)));
        }
        assert(self@.take(i as int) =~= self@);
    }

    /// The name as text: each label but the terminator, joined with `.`.
    pub fn to_text(&self) -> (r: String)
        ensures
            r@ == name_text(self@),
    {
        if self.labels.len() == 0 {
            return String::new();
        }
        let count = self.labels.len() - 1;
        let mut texts: Vec<String> = Vec::new();
        let mut i: usize = 0;
        while i < count
            invariant
                count == self.labels@.len() - 1,
                0 <= i <= count,
                texts@.len() == i,
                forall|j: int| 0 <= j < i ==> (#[trigger] texts@[j])@ == utf8_lossy(self@[j]),
            decreases count - i,
        {
            texts.push(self.labels[i].to_text());
            i += 1;
        }
        let r = join_with_dots(&texts);
        assert(texts@.map_values(|t: String| t@) =~= self@.drop_last().map_values(
            |l: Seq<u8>| utf8_lossy(l),
        ));
        r
    }

    /// The name whose labels hold `parts`, the last of them the empty
    /// terminator; refused unless they form a valid name.
    pub fn from_labels(parts: Vec<Vec<u8>>) -> (r: Result<Name, DnsError>)
        ensures
            valid_labels(parts@.map_values(|p: Vec<u8>| p@)) <==> r is Ok,
            r is Ok ==> r->Ok_0.wf() && r->Ok_0@ == parts@.map_values(|p: Vec<u8>| p@),
            r is Err ==> r->Err_0 == DnsError::MalformedName,
    {
        let ghost ps = parts@.map_values(|p: Vec<u8>| p@);
        let n = parts.len();
        if n == 0 {
            return Err(DnsError::MalformedName);
        }
        let mut total: usize = 0;
        let mut i: usize = 0;
        assert(ps.take(0) =~= Seq::<Seq<u8>>::empty());
        assert(labels_wire(Seq::<Seq<u8>>::empty()) =~= Seq::<u8>::empty());
        while i < n
            invariant
                n == parts@.len(),
                ps == parts@.map_values(|p: Vec<u8>| p@),
                0 <= i <= n,
                total <= 256,
                total == if labels_wire(ps.take(i as int)).len() > 256 {
                    256
                } else {
                    labels_wire(ps.take(i as int)).len()
                },
                forall|j: int| 0 <= j < i && j < n - 1 ==> 1 <= #[trigger] ps[j].len() <= MAX_LABEL_LEN,
                i == n ==> ps[n - 1].len() == 0,
            decreases n - i,
        {
            let len = parts[i].len();
            assert(ps[i as int] == parts@[i as int]@);
            if i + 1 < n {
                if len == 0 || len > MAX_LABEL_LEN as usize {
                    return Err(DnsError::MalformedName);
                }
            } else if len != 0 {
                return Err(DnsError::MalformedName);
            }
            proof {
                assert(ps.take(i + 1) =~= ps.take(i as int).push(ps[i as int]));
                lemma_labels_wire_push(ps.take(i as int), ps[i as int]);
            }
            total = if total + 1 + len > 256 {
                256
            } else {
                total + 1 + len
            };
            i += 1;
        }
        assert(ps.take(n as int) =~= ps);
        if total > MAX_NAME_LEN {
            return Err(DnsError::MalformedName);
        }
        let mut labels: Vec<Label> = Vec::new();
        let mut k: usize = 0;
        while k < n
            invariant
                n == parts@.len(),
                ps == parts@.map_values(|p: Vec<u8>| p@),
                valid_labels(ps),
                0 <= k <= n,
                labels@.map_values(|l: Label| l.data@) == ps.take(k as int),
                forall|j: int| 0 <= j < labels@.len() ==> #[trigger] labels@[j].wf(),
            decreases n - k,
        {
            let part = &parts[k];
            let len = part.len();
            assert(ps[k as int] == part@);
            assert(len <= MAX_LABEL_LEN) by {
                if k + 1 < n {
                    assert(1 <= ps[k as int].len() <= MAX_LABEL_LEN);
                }
            }
            let label = Label { length: len as u8, data: copy_range(part.as_slice(), 0, len) };
            assert(part@.subrange(0, len as int) =~= part@);
            let ghost acc = labels@.map_values(|l: Label| l.data@);
            labels.push(label);
            assert(labels@.map_values(|l: Label| l.data@) =~= acc.push(label.data@));
            assert(ps.take(k + 1) =~= ps.take(k as int).push(ps[k as int]));
            k += 1;
        }
        assert(ps.take(n as int) =~= ps);
        Ok(Name { labels })
    }

    /// A copy of the name, label by label.
    pub fn duplicate(&self) -> (r: Name)
        ensures
            r@ == self@,
            self.wf() ==> r.wf(),
    {
        let mut labels: Vec<Label> = Vec::new();
        let mut i: usize = 0;
        while i < self.labels.len()
            invariant
                0 <= i <= self.labels@.len(),
                labels@.len() == i,
                forall|j: int|
                    0 <= j < i ==> (#[trigger] labels@[j]).length == self.labels@[j].length
                        && labels@[j].data@ == self.labels@[j].data@,
            decreases self.labels@.len() - i,
        {
            labels.push(self.labels[i].duplicate());
            i += 1;
        }
        let r = Name { labels };
        assert(r@ =~= self@);
        proof {
            if self.wf() {
                assert forall|j: int| 0 <= j < r.labels@.len() implies #[trigger] r.labels@[j].wf() by {
                    assert(self.labels@[j].wf());
                }
            }
        }
        r
    }
}

/// Decoding a name and encoding it again gives back exactly the bytes that
/// were read.
pub proof fn lemma_name_decode_then_encode(b: Seq<u8>, off: int)
    requires
        0 <= off,
        spec_name_decode(b, off) is Ok,
    ensures
        ({
            let (ls, n) = spec_name_decode(b, off)->Ok_0;
            &&& valid_labels(ls)
            &&& n == labels_wire(ls).len()
            &&& off + n <= b.len()
            &&& labels_wire(ls) == b.subrange(off, off + n)
        }),
{
    lemma_parse_name_wire(b, off, off);
}

/// Encoding a valid name and decoding it again gives back the same labels,
/// whatever bytes follow it.
pub proof fn lemma_name_encode_then_decode(ls: Seq<Seq<u8>>, b: Seq<u8>, off: int)
    requires
        valid_labels(ls),
        0 <= off,
        off + labels_wire(ls).len() <= b.len(),
        b.subrange(off, off + labels_wire(ls).len()) == labels_wire(ls),
    ensures
        spec_name_decode(b, off) == Ok::<(Seq<Seq<u8>>, int), DnsError>(
            (ls, labels_wire(ls).len() as int),
        ),
{
    lemma_parse_labels_wire(ls, b, off, off);
}

/// A label whose declared length runs past the end of the input is refused as
/// truncated, read alone or as the first label of a name (where the length
/// byte is an ordinary label length).
pub proof fn lemma_short_label_truncated(b: Seq<u8>, off: int)
    requires
        0 <= off < b.len(),
        off + 1 + b[off] > b.len(),
    ensures
        spec_label_decode(b, off) == Err::<(Seq<u8>, int), DnsError>(DnsError::TruncatedInput),
        b[off] <= MAX_LABEL_LEN ==> spec_name_decode(b, off) == Err::<
            (Seq<Seq<u8>>, int),
            DnsError,
        >(DnsError::TruncatedInput),
{
}

} // verus!
