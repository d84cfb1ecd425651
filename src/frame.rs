use vstd::prelude::*;
use vstd::utf8::{decode_utf8, encode_utf8, valid_utf8};

use crate::decimal::{decimal, decimal_value, parse_decimal, write_decimal};

verus! {

broadcast use vstd::std_specs::vec::group_vec_axioms, vstd::seq::group_seq_axioms;

/// One value of the wire protocol.
#[derive(Debug, PartialEq, Eq)]
pub enum Frame {
    Simple(String),
    Bulk(Vec<u8>),
    Integer(u64),
    Null,
    Array(Vec<Frame>),
    Error(String),
}

/// Why no frame could be read.
#[derive(Debug, PartialEq, Eq)]
pub enum Error {
    /// The buffer ends before the frame does: read more and try again.
    Incomplete,
    /// The bytes are not a frame.
    Other(String),
}

/// The mathematical value of a frame.
pub enum FrameModel {
    Simple(Seq<char>),
    Bulk(Seq<u8>),
    Integer(u64),
    Null,
    Array(Seq<FrameModel>),
    Error(Seq<char>),
}

pub open spec fn frame_view(f: Frame) -> FrameModel
    decreases f,
{
    match f {
        Frame::Simple(s) => FrameModel::Simple(s@),
        Frame::Bulk(b) => FrameModel::Bulk(b@),
        Frame::Integer(n) => FrameModel::Integer(n),
        Frame::Null => FrameModel::Null,
        Frame::Array(v) => FrameModel::Array(frames_view(v@)),
        Frame::Error(s) => FrameModel::Error(s@),
    }
}

pub open spec fn frames_view(s: Seq<Frame>) -> Seq<FrameModel>
    decreases s,
{
    if s.len() == 0 {
        Seq::empty()
    } else {
        frames_view(s.drop_last()).push(frame_view(s.last()))
    }
}

impl View for Frame {
    type V = FrameModel;

    open spec fn view(&self) -> FrameModel {
        frame_view(*self)
    }
}

pub open spec fn crlf() -> Seq<u8> {
    seq![13u8, 10u8]
}

/// The encoding of one frame.
pub open spec fn ser(m: FrameModel) -> Seq<u8>
    decreases m,
{
    match m {
        FrameModel::Simple(s) => seq![43u8] + encode_utf8(s) + crlf(),
        FrameModel::Error(s) => seq![45u8] + encode_utf8(s) + crlf(),
        FrameModel::Integer(n) => seq![58u8] + decimal(n as nat) + crlf(),
        FrameModel::Null => seq![36u8, 45u8, 49u8, 13u8, 10u8],
        FrameModel::Bulk(b) => seq![36u8] + decimal(b.len()) + crlf() + b + crlf(),
        FrameModel::Array(v) => seq![42u8] + decimal(v.len()) + crlf() + ser_all(v),
    }
}

/// The encodings of several frames, one after the other.
pub open spec fn ser_all(v: Seq<FrameModel>) -> Seq<u8>
    decreases v,
{
    if v.len() == 0 {
        Seq::empty()
    } else {
        ser(v[0]) + ser_all(v.subrange(1, v.len() as int))
    }
}

/// A line of text holds neither CR nor LF.
pub open spec fn line_safe(b: Seq<u8>) -> bool {
    forall|i: int| 0 <= i < b.len() ==> #[trigger] b[i] != 13u8 && b[i] != 10u8
}

/// A frame that its encoding describes exactly: text without line breaks,
/// lengths that fit in 64 bits.
pub open spec fn serializable(m: FrameModel) -> bool
    decreases m,
{
    match m {
        FrameModel::Simple(s) => line_safe(encode_utf8(s)),
        FrameModel::Error(s) => line_safe(encode_utf8(s)),
        FrameModel::Integer(_) => true,
        FrameModel::Null => true,
        FrameModel::Bulk(b) => b.len() <= u64::MAX,
        FrameModel::Array(v) => v.len() <= u64::MAX && all_serializable(v),
    }
}

pub open spec fn all_serializable(v: Seq<FrameModel>) -> bool
    decreases v,
{
    if v.len() == 0 {
        true
    } else {
        serializable(v[0]) && all_serializable(v.subrange(1, v.len() as int))
    }
}

/// A CR LF pair starts at `j`.
pub open spec fn crlf_at(buf: Seq<u8>, j: int) -> bool {
    0 <= j && j + 1 < buf.len() && buf[j] == 13u8 && buf[j + 1] == 10u8
}

/// `e` is the first CR LF at or after `start`.
pub open spec fn first_crlf(buf: Seq<u8>, start: int, e: int) -> bool {
    start <= e && crlf_at(buf, e) && forall|j: int| start <= j < e ==> !crlf_at(buf, j)
}

/// Where the line that starts at `start` ends, if its CR LF is in the buffer.
pub open spec fn line_end(buf: Seq<u8>, start: int) -> Option<int> {
    if exists|e: int| first_crlf(buf, start, e) {
        Some(choose|e: int| first_crlf(buf, start, e))
    } else {
        None
    }
}

/// What reading one frame at a position gives.
pub enum Parsed {
    /// A frame, and the position just past it.
    Frame(FrameModel, int),
    Incomplete,
    Malformed,
}

/// Reads one frame that starts at `pos`.
pub open spec fn parse_frame(buf: Seq<u8>, pos: int) -> Parsed
    decreases buf.len() - pos, 0int, 0int,
{
    if pos < 0 || pos >= buf.len() {
        Parsed::Incomplete
    } else {
        let tag = buf[pos];
        if tag != 43u8 && tag != 45u8 && tag != 58u8 && tag != 36u8 && tag != 42u8 {
            Parsed::Malformed
        } else {
            match line_end(buf, pos + 1) {
                None => Parsed::Incomplete,
                Some(e) => {
                    let line = buf.subrange(pos + 1, e);
                    let next = e + 2;
                    if tag == 43u8 || tag == 45u8 {
                        if valid_utf8(line) {
                            if tag == 43u8 {
                                Parsed::Frame(FrameModel::Simple(decode_utf8(line)), next)
                            } else {
                                Parsed::Frame(FrameModel::Error(decode_utf8(line)), next)
                            }
                        } else {
                            Parsed::Malformed
                        }
                    } else if tag == 58u8 {
                        match decimal_value(line) {
                            Some(n) => Parsed::Frame(FrameModel::Integer(n), next),
                            None => Parsed::Malformed,
                        }
                    } else if tag == 36u8 {
                        if line == seq![45u8, 49u8] {
                            Parsed::Frame(FrameModel::Null, next)
                        } else {
                            match decimal_value(line) {
                                None => Parsed::Malformed,
                                Some(n) => if next + n + 2 > buf.len() {
                                    Parsed::Incomplete
                                } else if !crlf_at(buf, next + n) {
                                    Parsed::Malformed
                                } else {
                                    Parsed::Frame(
                                        FrameModel::Bulk(buf.subrange(next, next + n)),
                                        next + n + 2,
                                    )
                                },
                            }
                        }
                    } else {
                        match decimal_value(line) {
                            None => Parsed::Malformed,
                            Some(n) => parse_elems(buf, next, n as nat, Seq::empty()),
                        }
                    }
                },
            }
        }
    }
}

/// Reads `n` more elements of an array from `pos`, after those in `acc`.
pub open spec fn parse_elems(buf: Seq<u8>, pos: int, n: nat, acc: Seq<FrameModel>) -> Parsed
    decreases buf.len() - pos, 1int, n,
{
    if n == 0 {
        Parsed::Frame(FrameModel::Array(acc), pos)
    } else {
        match parse_frame(buf, pos) {
            Parsed::Frame(f, p) => if p <= pos || p > buf.len() {
                Parsed::Malformed
            } else {
                parse_elems(buf, p, (n - 1) as nat, acc.push(f))
            },
            other => other,
        }
    }
}

/// A successful read ends past its start and within the buffer.
pub proof fn lemma_parse_advances(buf: Seq<u8>, pos: int)
    ensures
        parse_frame(buf, pos) matches Parsed::Frame(_, p) ==> pos < p <= buf.len(),
    decreases buf.len() - pos, 0int, 0int,
{
    if 0 <= pos < buf.len() {
        if let Some(e) = line_end(buf, pos + 1) {
            assert(first_crlf(buf, pos + 1, e));
            let tag = buf[pos];
            if tag == 42u8 {
                if let Some(n) = decimal_value(buf.subrange(pos + 1, e)) {
                    lemma_elems_advance(buf, e + 2, n as nat, Seq::empty());
                }
            }
        }
    }
}

proof fn lemma_elems_advance(buf: Seq<u8>, pos: int, n: nat, acc: Seq<FrameModel>)
    requires
        pos <= buf.len(),
    ensures
        parse_elems(buf, pos, n, acc) matches Parsed::Frame(_, p) ==> pos <= p <= buf.len(),
    decreases buf.len() - pos, 1int, n,
{
    if n > 0 {
        lemma_parse_advances(buf, pos);
        if let Parsed::Frame(f, p) = parse_frame(buf, pos) {
            if pos < p <= buf.len() {
                lemma_elems_advance(buf, p, (n - 1) as nat, acc.push(f));
            }
        }
    }
}

/// What a read returns, against what the encoding says.
pub open spec fn read_agrees(r: Result<(Frame, usize), Error>, spec: Parsed) -> bool {
    match spec {
        Parsed::Frame(m, p) => r matches Ok((f, q)) && f@ == m && q == p,
        Parsed::Incomplete => r matches Err(Error::Incomplete),
        Parsed::Malformed => r matches Err(Error::Other(_)),
    }
}

pub(crate) fn malformed() -> (e: Error)
    ensures
        e matches Error::Other(_),
{
    Error::Other("protocol error; invalid frame format".to_owned())
}

/// Relies on std::str::from_utf8: it accepts exactly the valid UTF-8 byte
/// strings, and the text it gives has those bytes.
#[verifier::external_body]
pub(crate) fn str_from_utf8<'a>(b: &'a [u8]) -> (r: Option<&'a str>)
    ensures
        r is Some <==> valid_utf8(b@),
        r matches Some(s) ==> encode_utf8(s@) == b@,
{
    std::str::from_utf8(b).ok()
}

/// Reads the line that starts at `*pos`, up to its CR LF, and moves `*pos`
/// past the CR LF. Without a CR LF the buffer is incomplete and `*pos` stays.
pub fn get_line<'a>(src: &'a [u8], pos: &mut usize) -> (r: Result<&'a [u8], Error>)
    requires
        *old(pos) <= src@.len(),
    ensures
        match line_end(src@, *old(pos) as int) {
            Some(e) => r matches Ok(line) && line@ == src@.subrange(*old(pos) as int, e)
                && *final(pos) == e + 2,
            None => r matches Err(Error::Incomplete) && *final(pos) == *old(pos),
        },
{
    let start = *pos;
    let mut i = start;
    while src.len() - i >= 2
        invariant
            start <= i <= src@.len(),
            start == *old(pos),
            *pos == *old(pos),
            forall|j: int| start <= j < i ==> !crlf_at(src@, j),
        decreases src@.len() - i,
    {
        if src[i] == 13 && src[i + 1] == 10 {
            proof {
                assert(first_crlf(src@, start as int, i as int));
                let c = choose|e: int| first_crlf(src@, start as int, e);
                assert(first_crlf(src@, start as int, c));
                if c < i {
                    assert(!crlf_at(src@, c));
                } else if c > i {
                    assert(!crlf_at(src@, i as int));
                }
            }
            *pos = i + 2;
            return Ok(vstd::slice::slice_subrange(src, start, i));
        }
        i = i + 1;
    }
    assert forall|c: int| !first_crlf(src@, start as int, c) by {
        if first_crlf(src@, start as int, c) && c < i {
            assert(!crlf_at(src@, c));
        }
    }
    Err(Error::Incomplete)
}

/// Reads a decimal line at `*pos`: a run of digits that fits in 64 bits,
/// else the frame is malformed.
pub fn get_number(src: &[u8], pos: &mut usize) -> (r: Result<u64, Error>)
    requires
        *old(pos) <= src@.len(),
    ensures
        match line_end(src@, *old(pos) as int) {
            Some(e) => match decimal_value(src@.subrange(*old(pos) as int, e)) {
                Some(n) => r == Ok::<u64, Error>(n) && *final(pos) == e + 2,
                None => r matches Err(Error::Other(_)),
            },
            None => r matches Err(Error::Incomplete) && *final(pos) == *old(pos),
        },
{
    let line = get_line(src, pos)?;
    match parse_decimal(line) {
        Some(n) => Ok(n),
        None => Err(malformed()),
    }
}

proof fn lemma_frames_view_push(s: Seq<Frame>, f: Frame)
    ensures
        frames_view(s.push(f)) == frames_view(s).push(f@),
{
    assert(s.push(f).drop_last() =~= s);
}

fn parse_at(src: &[u8], pos: usize) -> (r: Result<(Frame, usize), Error>)
    requires
        pos <= src@.len(),
    ensures
        read_agrees(r, parse_frame(src@, pos as int)),
    decreases src@.len() - pos,
{
    if pos >= src.len() {
        return Err(Error::Incomplete);
    }
    let tag = src[pos];
    if tag != 43u8 && tag != 45u8 && tag != 58u8 && tag != 36u8 && tag != 42u8 {
        return Err(malformed());
    }
    let mut next = pos + 1;
    let line = get_line(src, &mut next)?;
    let ghost e = next - 2;
    assert(line@ == src@.subrange(pos + 1, e));
    if tag == 43u8 || tag == 45u8 {
        match str_from_utf8(line) {
            Some(text) => {
                let s = text.to_owned();
                proof {
                    vstd::utf8::encode_utf8_decode_utf8(text@);
                }
                if tag == 43u8 {
                    Ok((Frame::Simple(s), next))
                } else {
                    Ok((Frame::Error(s), next))
                }
            },
            None => Err(malformed()),
        }
    } else if tag == 58u8 {
        match parse_decimal(line) {
            Some(n) => Ok((Frame::Integer(n), next)),
            None => Err(malformed()),
        }
    } else if tag == 36u8 {
        if line.len() == 2 && line[0] == 45u8 && line[1] == 49u8 {
            assert(line@ =~= seq![45u8, 49u8]);
            return Ok((Frame::Null, next));
        }
        assert(line@ != seq![45u8, 49u8]);
        let n = match parse_decimal(line) {
            Some(n) => n,
            None => return Err(malformed()),
        };
        let rest = src.len() - next;
        if n as u128 + 2 > rest as u128 {
            return Err(Error::Incomplete);
        }
        let end = next + n as usize;
        if src[end] != 13 || src[end + 1] != 10 {
            return Err(malformed());
        }
        let data = vstd::slice::slice_to_vec(vstd::slice::slice_subrange(src, next, end));
        Ok((Frame::Bulk(data), end + 2))
    } else {
        let n = match parse_decimal(line) {
            Some(n) => n,
            None => return Err(malformed()),
        };
        let start = next;
        let mut out: Vec<Frame> = Vec::new();
        let mut i: u64 = 0;
        let mut p = next;
        while i < n
            invariant
                pos < start <= p <= src@.len(),
                i <= n,
                parse_elems(src@, p as int, (n - i) as nat, frames_view(out@))
                    == parse_elems(src@, start as int, n as nat, Seq::empty()),
                parse_frame(src@, pos as int) == parse_elems(src@, start as int, n as nat, Seq::empty()),
            decreases src@.len() - p,
        {
            proof {
                lemma_parse_advances(src@, p as int);
            }
            match parse_at(src, p) {
                Ok((f, q)) => {
                    proof {
                        lemma_frames_view_push(out@, f);
                    }
                    out.push(f);
                    p = q;
                    i = i + 1;
                },
                Err(e) => {
                    return Err(e);
                },
            }
        }
        Ok((Frame::Array(out), p))
    }
}

impl Frame {
    /// Reads one frame at `*pos`. On success `*pos` moves just past it; on
    /// either error it stays, so that a caller can read more bytes and try
    /// again from the start of the frame.
    pub fn parse(src: &[u8], pos: &mut usize) -> (r: Result<Frame, Error>)
        requires
            *old(pos) <= src@.len(),
        ensures
            match parse_frame(src@, *old(pos) as int) {
                Parsed::Frame(m, p) => r matches Ok(f) && f@ == m && *final(pos) == p,
                Parsed::Incomplete => r matches Err(Error::Incomplete) && *final(pos) == *old(pos),
                Parsed::Malformed => r matches Err(Error::Other(_)) && *final(pos) == *old(pos),
            },
    {
        match parse_at(src, *pos) {
            Ok((f, q)) => {
                *pos = q;
                Ok(f)
            },
            Err(e) => Err(e),
        }
    }
}

pub proof fn lemma_frames_view_index(s: Seq<Frame>)
    ensures
        frames_view(s).len() == s.len(),
        forall|i: int| 0 <= i < s.len() ==> #[trigger] frames_view(s)[i] == s[i]@,
    decreases s.len(),
{
    if s.len() > 0 {
        lemma_frames_view_index(s.drop_last());
    }
}

fn append_bytes(out: &mut Vec<u8>, b: &[u8])
    ensures
        final(out)@ == old(out)@ + b@,
{
    let mut i: usize = 0;
    while i < b.len()
        invariant
            i <= b@.len(),
            out@ == old(out)@ + b@.take(i as int),
        decreases b@.len() - i,
    {
        out.push(b[i]);
        i = i + 1;
        assert(out@ =~= old(out)@ + b@.take(i as int));
    }
    assert(b@.take(i as int) =~= b@);
}

fn append_crlf(out: &mut Vec<u8>)
    ensures
        final(out)@ == old(out)@ + crlf(),
{
    out.push(13);
    out.push(10);
    assert(final(out)@ =~= old(out)@ + crlf());
}

impl Frame {
    /// Appends the encoding of this frame to `out`.
    pub fn write_to(&self, out: &mut Vec<u8>)
        ensures
            final(out)@ == old(out)@ + ser(self@),
        decreases self,
    {
        let ghost start = out@;
        match self {
            Frame::Simple(text) => {
                out.push(43);
                append_bytes(out, text.as_str().as_bytes());
                append_crlf(out);
                assert(out@ =~= start + ser(self@));
            },
            Frame::Error(text) => {
                out.push(45);
                append_bytes(out, text.as_str().as_bytes());
                append_crlf(out);
                assert(out@ =~= start + ser(self@));
            },
            Frame::Integer(n) => {
                out.push(58);
                write_decimal(out, *n);
                append_crlf(out);
                assert(out@ =~= start + ser(self@));
            },
            Frame::Null => {
                out.push(36);
                out.push(45);
                out.push(49);
                append_crlf(out);
                assert(out@ =~= start + ser(self@));
            },
            Frame::Bulk(data) => {
                out.push(36);
                write_decimal(out, data.len() as u64);
                append_crlf(out);
                append_bytes(out, data.as_slice());
                append_crlf(out);
                assert(out@ =~= start + ser(self@));
            },
            Frame::Array(items) => {
                let ghost models = frames_view(items@);
                proof {
                    lemma_frames_view_index(items@);
                }
                out.push(42);
                write_decimal(out, items.len() as u64);
                append_crlf(out);
                assert(out@ + ser_all(models.subrange(0, models.len() as int)) =~= start + ser(self@)) by {
                    assert(models.subrange(0, models.len() as int) =~= models);
                }
                let mut i: usize = 0;
                while i < items.len()
                    invariant
                        i <= items@.len(),
                        *self == Frame::Array(*items),
                        models == frames_view(items@),
                        models.len() == items@.len(),
                        forall|j: int| 0 <= j < items@.len() ==> #[trigger] models[j] == items@[j]@,
                        out@ + ser_all(models.subrange(i as int, models.len() as int)) == start + ser(self@),
                    decreases items@.len() - i,
                {
                    let ghost before = out@;
                    let ghost rest = models.subrange(i as int, models.len() as int);
                    assert(rest.subrange(1, rest.len() as int) =~= models.subrange(i + 1, models.len() as int));
                    assert(rest[0] == items@[i as int]@);
                    assert(decreases_to!(*items => items[i as int]));
                    assert(decreases_to!(*self => items[i as int]));
                    items[i].write_to(out);
                    assert(out@ + ser_all(models.subrange(i + 1, models.len() as int))
                        =~= before + ser_all(rest));
                    i = i + 1;
                }
                assert(models.subrange(i as int, models.len() as int) =~= Seq::<FrameModel>::empty());
                assert(out@ =~= out@ + ser_all(Seq::<FrameModel>::empty()));
            },
        }
    }

    /// The encoding of this frame.
    pub fn serialize(&self) -> (r: Vec<u8>)
        ensures
            r@ == ser(self@),
    {
        let mut out: Vec<u8> = Vec::new();
        self.write_to(&mut out);
        assert(out@ =~= ser(self@));
        out
    }
}

/// The buffer holds `enc` from `pos` on, as far as the buffer goes.
pub open spec fn agrees(buf: Seq<u8>, pos: int, enc: Seq<u8>) -> bool {
    forall|j: int| 0 <= j < enc.len() && pos + j < buf.len() ==> buf[pos + j] == #[trigger] enc[j]
}

proof fn lemma_agrees_split(buf: Seq<u8>, pos: int, a: Seq<u8>, b: Seq<u8>)
    requires
        agrees(buf, pos, a + b),
    ensures
        agrees(buf, pos, a),
        agrees(buf, pos + a.len(), b),
{
    assert forall|j: int| 0 <= j < a.len() && pos + j < buf.len() implies buf[pos + j] == #[trigger] a[j] by {
        assert((a + b)[j] == a[j]);
    }
    assert forall|j: int| 0 <= j < b.len() && pos + a.len() + j < buf.len() implies buf[pos + a.len() + j]
        == #[trigger] b[j] by {
        assert((a + b)[a.len() + j] == b[j]);
    }
}

proof fn lemma_digits_line_safe(n: nat)
    ensures
        line_safe(decimal(n)),
        decimal(n).len() > 0,
        decimal(n)[0] != 45u8,
        n <= u64::MAX ==> decimal_value(decimal(n)) == Some(n as u64),
{
    crate::decimal::lemma_decimal_reads_back(n);
    let d = decimal(n);
    assert forall|i: int| 0 <= i < d.len() implies #[trigger] d[i] != 13u8 && d[i] != 10u8 by {
        assert(crate::decimal::is_digit(d[i]));
    }
    assert(crate::decimal::is_digit(d[0]));
}

/// How the header line of an encoding reads: found when its CR LF is in the
/// buffer, missing otherwise.
proof fn lemma_header(buf: Seq<u8>, pos: int, tag: u8, line: Seq<u8>)
    requires
        line_safe(line),
        0 <= pos < buf.len(),
        agrees(buf, pos, seq![tag] + line + crlf()),
    ensures
        buf[pos] == tag,
        pos + line.len() + 3 <= buf.len() ==> line_end(buf, pos + 1) == Some(pos + 1 + line.len())
            && buf.subrange(pos + 1, pos + 1 + line.len()) == line,
        buf.len() < pos + line.len() + 3 ==> line_end(buf, pos + 1) is None,
{
    let h = seq![tag] + line + crlf();
    let e = pos + 1 + line.len();
    assert(h[0] == tag);
    assert forall|j: int| pos + 1 <= j < e && j < buf.len() implies buf[j] == line[j - pos - 1] by {
        assert(h[j - pos] == line[j - pos - 1]);
    }
    if pos + line.len() + 3 <= buf.len() {
        assert(h[line.len() + 1int] == 13u8);
        assert(h[line.len() + 2int] == 10u8);
        assert(buf[e] == 13u8);
        assert(buf[e + 1] == 10u8);
        assert forall|j: int| pos + 1 <= j < e implies !crlf_at(buf, j) by {
            assert(buf[j] == line[j - pos - 1]);
        }
        let st = pos + 1;
        assert(first_crlf(buf, st, e));
        let c = choose|c: int| first_crlf(buf, st, c);
        assert(first_crlf(buf, st, c));
        if c < e {
            assert(!crlf_at(buf, c));
        } else if c > e {
            assert(!crlf_at(buf, e));
        }
        assert(buf.subrange(pos + 1, e) =~= line);
    } else {
        let st = pos + 1;
        assert forall|c: int| !#[trigger] first_crlf(buf, st, c) by {
            if first_crlf(buf, st, c) {
                assert(buf[c] == line[c - pos - 1]);
            }
        }
    }
}

/// A buffer that holds the encoding of a frame at `pos` reads back that frame,
/// and ends the read just past the encoding.
pub proof fn lemma_read_back(buf: Seq<u8>, pos: int, m: FrameModel)
    requires
        serializable(m),
        0 <= pos,
        pos + ser(m).len() <= buf.len(),
        agrees(buf, pos, ser(m)),
    ensures
        parse_frame(buf, pos) == Parsed::Frame(m, pos + ser(m).len()),
    decreases m,
{
    match m {
        FrameModel::Simple(t) => {
            let l = encode_utf8(t);
            lemma_header(buf, pos, 43u8, l);
            vstd::utf8::encode_utf8_valid_utf8(t);
            vstd::utf8::encode_utf8_decode_utf8(t);
        },
        FrameModel::Error(t) => {
            let l = encode_utf8(t);
            lemma_header(buf, pos, 45u8, l);
            vstd::utf8::encode_utf8_valid_utf8(t);
            vstd::utf8::encode_utf8_decode_utf8(t);
        },
        FrameModel::Integer(n) => {
            lemma_digits_line_safe(n as nat);
            lemma_header(buf, pos, 58u8, decimal(n as nat));
        },
        FrameModel::Null => {
            assert(ser(m) =~= seq![36u8] + seq![45u8, 49u8] + crlf());
            lemma_header(buf, pos, 36u8, seq![45u8, 49u8]);
        },
        FrameModel::Bulk(b) => {
            let l = decimal(b.len());
            lemma_digits_line_safe(b.len());
            let h = seq![36u8] + l + crlf();
            assert(ser(m) == h + b + crlf());
            lemma_agrees_split(buf, pos, h + b, crlf());
            lemma_agrees_split(buf, pos, h, b);
            lemma_header(buf, pos, 36u8, l);
            assert(buf.subrange(pos + 1, pos + 1 + l.len())[0] == l[0]);
            let next = pos + h.len();
            assert(buf.subrange(next, next + b.len()) =~= b);
            assert(crlf()[0] == 13u8 && crlf()[1] == 10u8);
            assert(crlf_at(buf, next + b.len()));
        },
        FrameModel::Array(v) => {
            let l = decimal(v.len());
            lemma_digits_line_safe(v.len());
            let h = seq![42u8] + l + crlf();
            assert(ser(m) == h + ser_all(v));
            lemma_agrees_split(buf, pos, h, ser_all(v));
            lemma_header(buf, pos, 42u8, l);
            lemma_read_back_all(buf, pos + h.len(), v, Seq::empty());
            assert(Seq::<FrameModel>::empty() + v =~= v);
        },
    }
}

/// Reading the encodings of several frames, one after the other, gives them
/// in order after those already read.
pub proof fn lemma_read_back_all(buf: Seq<u8>, pos: int, rest: Seq<FrameModel>, acc: Seq<FrameModel>)
    requires
        all_serializable(rest),
        0 <= pos,
        pos + ser_all(rest).len() <= buf.len(),
        agrees(buf, pos, ser_all(rest)),
    ensures
        parse_elems(buf, pos, rest.len(), acc) == Parsed::Frame(
            FrameModel::Array(acc + rest),
            pos + ser_all(rest).len(),
        ),
    decreases rest,
{
    if rest.len() == 0 {
        assert(acc + rest =~= acc);
    } else {
        let m = rest[0];
        let tail = rest.subrange(1, rest.len() as int);
        lemma_agrees_split(buf, pos, ser(m), ser_all(tail));
        lemma_read_back(buf, pos, m);
        lemma_read_back_all(buf, pos + ser(m).len(), tail, acc.push(m));
        assert(acc.push(m) + tail =~= acc + rest);
    }
}

/// A buffer that holds only a proper prefix of the encoding of a frame at
/// `pos` is incomplete: never malformed, never a frame.
pub proof fn lemma_cut_short(buf: Seq<u8>, pos: int, m: FrameModel)
    requires
        serializable(m),
        0 <= pos <= buf.len(),
        buf.len() < pos + ser(m).len(),
        agrees(buf, pos, ser(m)),
    ensures
        parse_frame(buf, pos) == Parsed::Incomplete,
    decreases m,
{
    if pos < buf.len() {
        match m {
            FrameModel::Simple(t) => {
                lemma_header(buf, pos, 43u8, encode_utf8(t));
            },
            FrameModel::Error(t) => {
                lemma_header(buf, pos, 45u8, encode_utf8(t));
            },
            FrameModel::Integer(n) => {
                lemma_digits_line_safe(n as nat);
                lemma_header(buf, pos, 58u8, decimal(n as nat));
            },
            FrameModel::Null => {
                assert(ser(m) =~= seq![36u8] + seq![45u8, 49u8] + crlf());
                lemma_header(buf, pos, 36u8, seq![45u8, 49u8]);
            },
            FrameModel::Bulk(b) => {
                let l = decimal(b.len());
                lemma_digits_line_safe(b.len());
                let h = seq![36u8] + l + crlf();
                assert(ser(m) == h + b + crlf());
                lemma_agrees_split(buf, pos, h + b, crlf());
                lemma_agrees_split(buf, pos, h, b);
                lemma_header(buf, pos, 36u8, l);
                if pos + l.len() + 3 <= buf.len() {
                    assert(buf.subrange(pos + 1, pos + 1 + l.len())[0] == l[0]);
                }
            },
            FrameModel::Array(v) => {
                let l = decimal(v.len());
                lemma_digits_line_safe(v.len());
                let h = seq![42u8] + l + crlf();
                assert(ser(m) == h + ser_all(v));
                lemma_agrees_split(buf, pos, h, ser_all(v));
                lemma_header(buf, pos, 42u8, l);
                if pos + h.len() <= buf.len() {
                    lemma_cut_short_all(buf, pos + h.len(), v, Seq::empty());
                }
            },
        }
    }
}

/// Reading elements from a buffer that ends inside their encodings is
/// incomplete.
pub proof fn lemma_cut_short_all(buf: Seq<u8>, pos: int, rest: Seq<FrameModel>, acc: Seq<FrameModel>)
    requires
        all_serializable(rest),
        0 <= pos <= buf.len(),
        buf.len() < pos + ser_all(rest).len(),
        agrees(buf, pos, ser_all(rest)),
    ensures
        parse_elems(buf, pos, rest.len(), acc) == Parsed::Incomplete,
    decreases rest,
{
    let m = rest[0];
    let tail = rest.subrange(1, rest.len() as int);
    lemma_agrees_split(buf, pos, ser(m), ser_all(tail));
    if buf.len() < pos + ser(m).len() {
        lemma_cut_short(buf, pos, m);
    } else {
        lemma_read_back(buf, pos, m);
        lemma_cut_short_all(buf, pos + ser(m).len(), tail, acc.push(m));
    }
}

/// Reading the encoding of a frame gives back that frame, and consumes the
/// whole encoding.
pub proof fn lemma_round_trip(m: FrameModel)
    requires
        serializable(m),
    ensures
        parse_frame(ser(m), 0) == Parsed::Frame(m, ser(m).len() as int),
{
    lemma_read_back(ser(m), 0, m);
}

/// Fed the encoding of a frame one byte at a time, a reader sees an incomplete
/// buffer at every step before the last, never a malformed one, and the frame
/// itself once the last byte is there.
pub proof fn lemma_prefixes_incomplete(m: FrameModel, k: int)
    requires
        serializable(m),
        0 <= k <= ser(m).len(),
    ensures
        k < ser(m).len() ==> parse_frame(ser(m).take(k), 0) == Parsed::Incomplete,
        k == ser(m).len() ==> parse_frame(ser(m).take(k), 0) == Parsed::Frame(m, k),
{
    let buf = ser(m).take(k);
    if k < ser(m).len() {
        lemma_cut_short(buf, 0, m);
    } else {
        assert(buf =~= ser(m));
        lemma_read_back(buf, 0, m);
    }
}

impl Error {
    /// A line of text that says what went wrong.
    pub fn message(&self) -> (r: String)
        ensures
            self matches Error::Other(m) ==> r@ == m@,
    {
        match self {
            Error::Incomplete => "stream ended early".to_owned(),
            Error::Other(m) => m.clone(),
        }
    }
}

/// Takes the next whole frame from the front of a receive buffer. The bytes
/// of the frame leave the buffer and the bytes after it stay. When the buffer
/// holds only part of a frame nothing is taken: `Ok(None)`, and the caller
/// reads more. Bytes that are no frame are an error.
pub fn take_frame(buf: &mut Vec<u8>) -> (r: Result<Option<Frame>, Error>)
    ensures
        match parse_frame(old(buf)@, 0) {
            Parsed::Frame(m, p) => r matches Ok(Some(f)) && f@ == m
                && final(buf)@ == old(buf)@.subrange(p, old(buf)@.len() as int),
            Parsed::Incomplete => r matches Ok(None) && final(buf)@ == old(buf)@,
            Parsed::Malformed => r matches Err(Error::Other(_)) && final(buf)@ == old(buf)@,
        },
{
    let mut pos: usize = 0;
    let r = Frame::parse(buf.as_slice(), &mut pos);
    match r {
        Ok(f) => {
            proof {
                lemma_parse_advances(buf@, 0);
            }
            let rest = buf.split_off(pos);
            *buf = rest;
            Ok(Some(f))
        },
        Err(Error::Incomplete) => Ok(None),
        Err(e) => Err(e),
    }
}

} // verus!
