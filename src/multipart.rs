//! The driver: a state machine that is fed the body's chunks and hands out
//! fields and their body chunks.
use vstd::prelude::*;
use vstd::slice::{slice_subrange, slice_to_vec};
use vstd::string::StringSliceAdditionalSpecFns;
use vstd::utf8::encode_utf8;
use crate::boundary::{boundary_of, parse_boundary};
use crate::constraints::{exceeds, Constraints};
use crate::error::Error;
use crate::headers::{crlf, parse_part_headers, part_headers, opt_view, PartHeaders};
use crate::matcher::{find, first_match, lemma_first_match, lemma_occurs_prefix, lemma_search_extends, occurs_at};

verus! {

/// The longest header block a part may have, in bytes.
pub const MAX_HEADER_BYTES: usize = 8192;

/// Where the parser stands in the stream.
#[derive(Clone, Copy, Debug, PartialEq, Eq, Structural)]
pub enum Stage {
    /// Before the first delimiter; what stands here is ignored.
    Preamble,
    /// Just after a delimiter: `--` ends the stream, CRLF opens a part.
    AfterDelimiter,
    /// Reading the headers of a part.
    Headers,
    /// Inside the body of a field.
    Body,
    /// The terminal delimiter was seen.
    Done,
    /// The parse failed; it stays failed.
    Failed(Error),
}

/// What asking for the next field gives.
#[derive(Debug)]
pub enum NextField {
    /// The next field, by its headers; its body follows through `next_chunk`.
    Field(PartHeaders),
    /// There are no more fields.
    End,
    /// More of the body must be fed first.
    NeedInput,
    /// The parse failed.
    Error(Error),
}

/// What asking for the next chunk of the open field gives.
#[derive(Debug)]
pub enum NextChunk {
    /// The next bytes of the field's body.
    Chunk(Vec<u8>),
    /// The field's body is over.
    EndOfField,
    /// More of the body must be fed first.
    NeedInput,
    /// The parse failed.
    Error(Error),
}

/// The delimiter of the parts of a body with boundary `boundary`:
/// CRLF, two dashes, and the boundary.
pub open spec fn delimiter_of(boundary: Seq<u8>) -> Seq<u8> {
    seq![13u8, 10u8, 45u8, 45u8] + boundary
}

/// `a + n`, held at the largest `u64`.
pub open spec fn sat_add(a: u64, n: int) -> u64 {
    if a + n > u64::MAX {
        u64::MAX
    } else {
        (a + n) as u64
    }
}

/// Handing out the first `n` buffered bytes of the open field: refused, and
/// the parse failed, where they would go over the whole-stream limit or the
/// field's limit; else handed out and counted.
pub open spec fn emits(pre: Multipart, post: Multipart, r: NextChunk, n: int) -> bool {
    let b = pre.buffered();
    if exceeds(pre.constraints().size_limit.whole_stream, pre.stream_bytes() + n) {
        r == NextChunk::Error(Error::WholeStreamLimitExceeded) && post.stage() == Stage::Failed(
            Error::WholeStreamLimitExceeded,
        ) && post.buffered() == b && post.stream_bytes() == pre.stream_bytes()
            && post.field_bytes() == pre.field_bytes()
    } else if exceeds(pre.field_limit(), pre.field_bytes() + n) {
        r == NextChunk::Error(Error::PerFieldLimitExceeded) && post.stage() == Stage::Failed(
            Error::PerFieldLimitExceeded,
        ) && post.buffered() == b && post.stream_bytes() == pre.stream_bytes()
            && post.field_bytes() == pre.field_bytes()
    } else {
        r is Chunk && r->Chunk_0@ == b.subrange(0, n) && post.stage() == Stage::Body
            && post.buffered() == b.subrange(n, b.len() as int) && post.stream_bytes() == sat_add(
            pre.stream_bytes(),
            n,
        ) && post.field_bytes() == sat_add(pre.field_bytes(), n)
    }
}

/// One call of `next_chunk`. Inside a field's body, the bytes before the next
/// delimiter are handed out; where the buffer holds no delimiter, all but its
/// last `delimiter().len() - 1` bytes, which may begin one. At the delimiter the
/// field ends. A body that ends with no delimiter in sight is truncated.
pub open spec fn chunk_step(pre: Multipart, post: Multipart, r: NextChunk) -> bool {
    let b = pre.buffered();
    let d = pre.delimiter();
    match pre.stage() {
        Stage::Body => match first_match(b, d, 0) {
            Some(i) => if i == 0 {
                r is EndOfField && post.stage() == Stage::AfterDelimiter && post.buffered()
                    == b.subrange(d.len() as int, b.len() as int) && post.stream_bytes()
                    == pre.stream_bytes() && post.field_bytes() == pre.field_bytes()
            } else {
                emits(pre, post, r, i)
            },
            None => if b.len() >= d.len() {
                emits(pre, post, r, b.len() - d.len() + 1)
            } else if pre.input_done() {
                r == NextChunk::Error(Error::TruncatedStream) && post.stage() == Stage::Failed(
                    Error::TruncatedStream,
                ) && post.buffered() == b && post.stream_bytes() == pre.stream_bytes()
                    && post.field_bytes() == pre.field_bytes()
            } else {
                r is NeedInput && post == pre
            },
        },
        Stage::Failed(e) => r == NextChunk::Error(e) && post == pre,
        _ => r is EndOfField && post == pre,
    }
}

/// How far a stage stands from reading headers, for the loop of `next_field`.
pub open spec fn rank(s: Stage) -> int {
    match s {
        Stage::Preamble | Stage::Body => 3,
        Stage::AfterDelimiter => 1,
        _ => 0,
    }
}

/// Memory stays bounded while a field streams: where the parser waited for
/// input inside a field's body, then was fed one chunk, then was asked for the
/// next body chunk, it holds fewer bytes than the delimiter and that chunk
/// together, however long the field is.
pub proof fn lemma_body_memory_bound(
    before: Multipart,
    fed: Multipart,
    after: Multipart,
    chunk: Seq<u8>,
    r: NextChunk,
)
    requires
        before.stage() is Body,
        before.buffered().len() < before.delimiter().len(),
        fed.same_but_buffer(&before),
        fed.buffered() == before.buffered() + chunk,
        chunk_step(fed, after, r),
    ensures
        after.buffered().len() < before.delimiter().len() + chunk.len(),
{
    lemma_first_match(fed.buffered(), fed.delimiter(), 0);
}

/// The limits hold of every chunk handed out: a chunk is counted in full
/// against the whole stream and against its field, and neither count goes
/// over its limit.
pub proof fn lemma_chunk_within_limits(pre: Multipart, post: Multipart, r: NextChunk)
    requires
        pre.wf(),
        chunk_step(pre, post, r),
        r is Chunk,
    ensures
        r->Chunk_0@.len() > 0,
        pre.constraints().size_limit.whole_stream is Some ==> post.stream_bytes()
            == pre.stream_bytes() + r->Chunk_0@.len() && post.stream_bytes()
            <= pre.constraints().size_limit.whole_stream->0,
        pre.field_limit() is Some ==> post.field_bytes() == pre.field_bytes()
            + r->Chunk_0@.len() && post.field_bytes() <= pre.field_limit()->0,
{
    lemma_first_match(pre.buffered(), pre.delimiter(), 0);
}

/// What is handed out does not depend on how the body was cut into chunks: a
/// chunk is the first bytes of what was buffered, followed by exactly what stays
/// buffered, and no delimiter starts inside it in the buffer followed by any
/// bytes at all. So whatever the next chunks of the body hold, the chunk
/// belongs to the field's body, and no byte is lost or moved.
pub proof fn lemma_chunk_split_independent(pre: Multipart, post: Multipart, r: NextChunk, more: Seq<u8>)
    requires
        pre.wf(),
        chunk_step(pre, post, r),
        r is Chunk,
    ensures
        r->Chunk_0@ + post.buffered() == pre.buffered(),
        r->Chunk_0@ == (pre.buffered() + more).subrange(0, r->Chunk_0@.len() as int),
        forall|j: int|
            0 <= j < r->Chunk_0@.len() ==> !#[trigger] occurs_at(
                pre.buffered() + more,
                pre.delimiter(),
                j,
            ),
{
    let b = pre.buffered();
    let d = pre.delimiter();
    lemma_first_match(b, d, 0);
    lemma_search_extends(b, more, d, 0);
    let c = r->Chunk_0@;
    assert(c + post.buffered() =~= b);
    assert(c =~= (b + more).subrange(0, c.len() as int));
    assert forall|j: int| 0 <= j < c.len() implies !#[trigger] occurs_at(b + more, d, j) by {
        if first_match(b, d, 0) is Some {
            lemma_occurs_prefix(b, more, d, j);
        }
    }
}

/// Where the search for the next field stops.
pub enum Stop {
    /// At a part's header block, without its final blank line.
    Headers(Seq<u8>),
    /// At the terminal delimiter, or past it.
    End,
    /// Where more of the body is needed.
    NeedInput,
    /// At a failure.
    Fail(Error),
}

/// The blank line that ends a header block, with the line break before it.
pub open spec fn blank_line() -> Seq<u8> {
    seq![13u8, 10u8, 13u8, 10u8]
}

/// The buffer without the bytes that cannot begin a delimiter of length `dl`.
pub open spec fn keep_tail(b: Seq<u8>, dl: int) -> Seq<u8> {
    if b.len() >= dl {
        b.subrange(b.len() - dl + 1, b.len() as int)
    } else {
        b
    }
}

/// The search for the next field from stage `s` with buffer `b`, delimiter `d`,
/// and `done` where the whole body was fed: past the preamble or the rest of
/// the open field up to the next delimiter; `--` there ends the stream, a line
/// break opens a part, whose header block runs up to the first blank line.
/// Gives where the search stops, the stage it stops in, and what stays buffered.
pub open spec fn seek_field(s: Stage, b: Seq<u8>, d: Seq<u8>, done: bool) -> (Stop, Stage, Seq<u8>)
    decreases b.len() * 4 + rank(s),
{
    match s {
        Stage::Preamble | Stage::Body => match first_match(b, d, 0) {
            Some(i) => if d.len() == 0 || i < 0 || i + d.len() > b.len() {
                (Stop::NeedInput, s, b)
            } else {
                seek_field(Stage::AfterDelimiter, b.subrange(i + d.len(), b.len() as int), d, done)
            },
            None => if done {
                (Stop::Fail(Error::TruncatedStream), Stage::Failed(Error::TruncatedStream), b)
            } else {
                (Stop::NeedInput, s, keep_tail(b, d.len() as int))
            },
        },
        Stage::AfterDelimiter => if b.len() < 2 {
            if done {
                (Stop::Fail(Error::TruncatedStream), Stage::Failed(Error::TruncatedStream), b)
            } else {
                (Stop::NeedInput, s, b)
            }
        } else if b[0] == 45u8 && b[1] == 45u8 {
            (Stop::End, Stage::Done, Seq::empty())
        } else if b[0] == 13u8 && b[1] == 10u8 {
            seek_field(Stage::Headers, b, d, done)
        } else {
            (Stop::Fail(Error::MalformedPartHeader), Stage::Failed(Error::MalformedPartHeader), b)
        },
        Stage::Headers => match first_match(b, blank_line(), 0) {
            Some(i) => if i > MAX_HEADER_BYTES {
                (Stop::Fail(Error::MalformedPartHeader), Stage::Failed(Error::MalformedPartHeader), b)
            } else {
                (Stop::Headers(b.subrange(2, i + 2)), Stage::Body, b.subrange(i + 4, b.len() as int))
            },
            None => if b.len() > MAX_HEADER_BYTES + 3 {
                (Stop::Fail(Error::MalformedPartHeader), Stage::Failed(Error::MalformedPartHeader), b)
            } else if done {
                (Stop::Fail(Error::TruncatedStream), Stage::Failed(Error::TruncatedStream), b)
            } else {
                (Stop::NeedInput, s, b)
            },
        },
        Stage::Done => (Stop::End, s, b),
        Stage::Failed(e) => (Stop::Fail(e), s, b),
    }
}

/// One call of `next_field`: the search stops as `seek_field` says; at a header
/// block, its headers are read, the field name is checked against the
/// constraints, and the field opens with its own limit and a count of zero.
pub open spec fn field_step(pre: Multipart, post: Multipart, r: NextField) -> bool {
    let (stop, st, rest) = seek_field(pre.stage(), pre.buffered(), pre.delimiter(), pre.input_done());
    let counts_kept = post.stream_bytes() == pre.stream_bytes() && post.field_bytes()
        == pre.field_bytes() && post.field_limit() == pre.field_limit();
    &&& post.buffered() == rest
    &&& post.stream_bytes() == pre.stream_bytes()
    &&& match stop {
        Stop::End => r is End && post.stage() == Stage::Done && counts_kept,
        Stop::NeedInput => r is NeedInput && post.stage() == st && counts_kept,
        Stop::Fail(e) => r == NextField::Error(e) && post.stage() == Stage::Failed(e) && counts_kept,
        Stop::Headers(block) => match part_headers(block) {
            Err(e) => r == NextField::Error(e) && post.stage() == Stage::Failed(e) && counts_kept,
            Ok((n, f, ct)) => if !pre.constraints().allows(n) {
                r == NextField::Error(Error::DisallowedFieldName) && post.stage() == Stage::Failed(
                    Error::DisallowedFieldName,
                ) && counts_kept
            } else {
                &&& r is Field
                &&& r->Field_0.name@ == n
                &&& opt_view(r->Field_0.file_name) == f
                &&& opt_view(r->Field_0.content_type) == ct
                &&& post.stage() == Stage::Body
                &&& post.field_bytes() == 0
                &&& post.field_limit() == pre.constraints().field_limit(n)
            },
        },
    }
}

/// Once the fields have run out they stay run out: after a call of
/// `next_field` that reported the end, a further call reports the end again
/// and keeps what is buffered.
pub proof fn lemma_end_is_idempotent(
    a: Multipart,
    b: Multipart,
    r1: NextField,
    c: Multipart,
    r2: NextField,
)
    requires
        field_step(a, b, r1),
        r1 is End,
        field_step(b, c, r2),
    ensures
        b.stage() == Stage::Done,
        r2 is End,
        c.stage() == Stage::Done,
        c.buffered() == b.buffered(),
{
}

/// A field's body is never reported complete without its closing delimiter:
/// `next_chunk` ends a field only where the buffer starts with the delimiter.
pub proof fn lemma_field_ends_only_at_delimiter(pre: Multipart, post: Multipart, r: NextChunk)
    requires
        pre.wf(),
        pre.stage() is Body,
        chunk_step(pre, post, r),
        r is EndOfField,
    ensures
        occurs_at(pre.buffered(), pre.delimiter(), 0),
        post.buffered() == pre.buffered().subrange(
            pre.delimiter().len() as int,
            pre.buffered().len() as int,
        ),
{
    lemma_first_match(pre.buffered(), pre.delimiter(), 0);
}

/// Fields come out in the order of the body: from the preamble or inside a
/// field, where the bytes `data` up to the next delimiter hold none of it, and
/// the part after that delimiter has the header lines `h` with no blank line
/// among them, the search for the next field stops at exactly that part's
/// header block (`h` and its last line break) and keeps what follows it.
pub proof fn lemma_next_part(
    s: Stage,
    data: Seq<u8>,
    d: Seq<u8>,
    h: Seq<u8>,
    rest: Seq<u8>,
    done: bool,
)
    requires
        s is Preamble || s is Body,
        d.len() > 0,
        first_match(data + d, d, 0) == Some(data.len() as int),
        first_match(crlf() + h + blank_line() + rest, blank_line(), 0) == Some((h.len() + 2) as int),
        h.len() + 2 <= MAX_HEADER_BYTES,
    ensures
        seek_field(s, data + d + (crlf() + h + blank_line() + rest), d, done) == (
            Stop::Headers(h + crlf()),
            Stage::Body,
            rest,
        ),
{
    let part = crlf() + h + blank_line() + rest;
    let b = data + d + part;
    lemma_search_extends(data + d, part, d, 0);
    assert(b.subrange((data.len() + d.len()) as int, b.len() as int) =~= part);
    assert(part[0] == 13u8 && part[1] == 10u8);
    assert(part.subrange(2, (h.len() + 4) as int) =~= h + crlf());
    assert(part.subrange((h.len() + 6) as int, part.len() as int) =~= rest);
    reveal_with_fuel(seek_field, 3);
}

/// The search for fields ends at the terminal delimiter: from the preamble or
/// inside a field, where the bytes `data` up to the next delimiter hold none
/// of it and that delimiter is followed by `--`, the stream ends.
pub proof fn lemma_terminal_part(s: Stage, data: Seq<u8>, d: Seq<u8>, rest: Seq<u8>, done: bool)
    requires
        s is Preamble || s is Body,
        d.len() > 0,
        first_match(data + d, d, 0) == Some(data.len() as int),
    ensures
        seek_field(s, data + d + (seq![45u8, 45u8] + rest), d, done) == (
            Stop::End,
            Stage::Done,
            Seq::<u8>::empty(),
        ),
{
    let tail = seq![45u8, 45u8] + rest;
    let b = data + d + tail;
    lemma_search_extends(data + d, tail, d, 0);
    assert(b.subrange((data.len() + d.len()) as int, b.len() as int) =~= tail);
    reveal_with_fuel(seek_field, 2);
}

/// The search for the next field does not depend on how the body was cut
/// into chunks: once it stops anywhere but where it needs more input, the same
/// buffer followed by any further bytes makes it stop in the same place, with
/// the same stage, and at a header block with those bytes kept after the rest.
pub proof fn lemma_seek_field_extends(s: Stage, b: Seq<u8>, more: Seq<u8>, d: Seq<u8>, done: bool)
    requires
        d.len() > 0,
        !(seek_field(s, b, d, false).0 is NeedInput),
    ensures
        seek_field(s, b + more, d, done).0 == seek_field(s, b, d, false).0,
        seek_field(s, b + more, d, done).1 == seek_field(s, b, d, false).1,
        seek_field(s, b, d, false).0 is Headers ==> seek_field(s, b + more, d, done).2
            == seek_field(s, b, d, false).2 + more,
    decreases b.len() * 4 + rank(s),
{
    let bm = b + more;
    match s {
        Stage::Preamble | Stage::Body => {
            lemma_first_match(b, d, 0);
            lemma_search_extends(b, more, d, 0);
            if let Some(i) = first_match(b, d, 0) {
                let b1 = b.subrange(i + d.len(), b.len() as int);
                assert(bm.subrange(i + d.len(), bm.len() as int) =~= b1 + more);
                lemma_seek_field_extends(Stage::AfterDelimiter, b1, more, d, done);
            }
        },
        Stage::AfterDelimiter => {
            if b.len() >= 2 {
                assert(bm[0] == b[0] && bm[1] == b[1]);
                if b[0] == 13u8 && b[1] == 10u8 {
                    lemma_seek_field_extends(Stage::Headers, b, more, d, done);
                }
            }
        },
        Stage::Headers => {
            lemma_first_match(b, blank_line(), 0);
            lemma_first_match(bm, blank_line(), 0);
            lemma_search_extends(b, more, blank_line(), 0);
            if let Some(i) = first_match(b, blank_line(), 0) {
                assert(bm.subrange(2, i + 2) =~= b.subrange(2, i + 2));
                assert(bm.subrange(i + 4, bm.len() as int) =~= b.subrange(i + 4, b.len() as int)
                    + more);
            }
        },
        _ => {},
    }
}

/// A parser of one multipart body.
pub struct Multipart {
    buf: Vec<u8>,
    delimiter: Vec<u8>,
    constraints: Constraints,
    stage: Stage,
    input_done: bool,
    stream_bytes: u64,
    field_bytes: u64,
    field_limit: Option<u64>,
}

fn tail(v: &Vec<u8>, k: usize) -> (r: Vec<u8>)
    requires
        k <= v@.len(),
    ensures
        r@ == v@.subrange(k as int, v@.len() as int),
{
    slice_to_vec(slice_subrange(v.as_slice(), k, v.len()))
}

fn concat(a: &[u8], b: &[u8]) -> (r: Vec<u8>)
    ensures
        r@ == a@ + b@,
{
    let mut r = slice_to_vec(a);
    let mut i: usize = 0;
    while i < b.len()
        invariant
            i <= b@.len(),
            r@ == a@ + b@.subrange(0, i as int),
        decreases b@.len() - i,
    {
        r.push(b[i]);
        i += 1;
        assert(r@ =~= a@ + b@.subrange(0, i as int));
    }
    assert(b@.subrange(0, b@.len() as int) =~= b@);
    r
}

fn add_sat(a: u64, n: usize) -> (r: u64)
    ensures
        r == sat_add(a, n as int),
{
    if n as u64 > u64::MAX - a {
        u64::MAX
    } else {
        a + n as u64
    }
}

/// `count + n` goes over `limit`.
fn over(limit: Option<u64>, count: u64, n: usize) -> (r: bool)
    ensures
        r == exceeds(limit, count + n),
{
    match limit {
        Some(l) => count as u128 + n as u128 > l as u128,
        None => false,
    }
}

impl Multipart {
    /// The bytes fed and not yet handed out or discarded.
    pub closed spec fn buffered(&self) -> Seq<u8> {
        self.buf@
    }

    /// The delimiter between parts.
    pub closed spec fn delimiter(&self) -> Seq<u8> {
        self.delimiter@
    }

    pub closed spec fn constraints(&self) -> Constraints {
        self.constraints
    }

    pub closed spec fn stage(&self) -> Stage {
        self.stage
    }

    /// The whole body has been fed.
    pub closed spec fn input_done(&self) -> bool {
        self.input_done
    }

    /// The body bytes handed out over all fields.
    pub closed spec fn stream_bytes(&self) -> u64 {
        self.stream_bytes
    }

    /// The body bytes handed out of the open field.
    pub closed spec fn field_bytes(&self) -> u64 {
        self.field_bytes
    }

    /// The limit of the open field.
    pub closed spec fn field_limit(&self) -> Option<u64> {
        self.field_limit
    }

    /// The parser's invariant: a delimiter longer than its dashes, no limit
    /// gone over, and truncation declared only once the whole body was fed.
    pub open spec fn wf(&self) -> bool {
        self.delimiter().len() > 4 && !exceeds(
            self.constraints().size_limit.whole_stream,
            self.stream_bytes() as int,
        ) && !exceeds(self.field_limit(), self.field_bytes() as int) && (self.stage()
            == Stage::Failed(Error::TruncatedStream) ==> self.input_done())
    }

    /// `self` and `other` differ at most in what is buffered.
    pub open spec fn same_but_buffer(&self, other: &Multipart) -> bool {
        self.delimiter() == other.delimiter() && self.constraints() == other.constraints()
            && self.stage() == other.stage() && self.input_done() == other.input_done()
            && self.stream_bytes() == other.stream_bytes() && self.field_bytes()
            == other.field_bytes() && self.field_limit() == other.field_limit()
    }

    /// A parser of a body with boundary `boundary` and no constraints.
    pub fn new(boundary: &str) -> (r: Result<Multipart, Error>)
        ensures
            r is Err <==> boundary.spec_bytes().len() == 0,
            match r {
                Ok(m) => m.wf() && m.delimiter() == delimiter_of(boundary.spec_bytes())
                    && m.buffered() == crlf() && m.stage() == Stage::Preamble && !m.input_done()
                    && m.stream_bytes() == 0 && m.constraints().allowed_fields is None
                    && m.constraints().size_limit.whole_stream is None
                    && m.constraints().size_limit.per_field is None
                    && m.constraints().size_limit.field_overrides@.len() == 0,
                Err(e) => e == Error::MissingOrInvalidContentType,
            },
    {
        Multipart::with_constraints(boundary, Constraints::new())
    }

    /// A parser of a body with boundary `boundary` under `constraints`.
    pub fn with_constraints(boundary: &str, constraints: Constraints) -> (r: Result<
        Multipart,
        Error,
    >)
        ensures
            r is Err <==> boundary.spec_bytes().len() == 0,
            match r {
                Ok(m) => m.wf() && m.delimiter() == delimiter_of(boundary.spec_bytes())
                    && m.buffered() == crlf() && m.stage() == Stage::Preamble && !m.input_done()
                    && m.stream_bytes() == 0 && m.constraints() == constraints,
                Err(e) => e == Error::MissingOrInvalidContentType,
            },
    {
        let b = boundary.as_bytes();
        if b.len() == 0 {
            return Err(Error::MissingOrInvalidContentType);
        }
        let dashes: Vec<u8> = vec![13u8, 10u8, 45u8, 45u8];
        assert(dashes@ =~= seq![13u8, 10u8, 45u8, 45u8]);
        let delimiter = concat(dashes.as_slice(), b);
        // The first delimiter may open the body, with no line break before it.
        let buf: Vec<u8> = vec![13u8, 10u8];
        assert(buf@ =~= crlf());
        Ok(
            Multipart {
                buf,
                delimiter,
                constraints,
                stage: Stage::Preamble,
                input_done: false,
                stream_bytes: 0,
                field_bytes: 0,
                field_limit: None,
            },
        )
    }

    /// A parser of a body whose `Content-Type` is `content_type`, under
    /// `constraints`. It fails where the value is not `multipart/form-data`
    /// with a non-empty boundary.
    pub fn from_content_type(content_type: &str, constraints: Constraints) -> (r: Result<
        Multipart,
        Error,
    >)
        ensures
            match boundary_of(content_type@) {
                None => r == Err::<Multipart, Error>(Error::MissingOrInvalidContentType),
                Some(b) => match r {
                    Ok(m) => encode_utf8(b).len() > 0 && m.wf() && m.delimiter() == delimiter_of(
                        encode_utf8(b),
                    ) && m.buffered() == crlf() && m.stage() == Stage::Preamble
                        && !m.input_done() && m.stream_bytes() == 0 && m.constraints()
                        == constraints,
                    Err(e) => encode_utf8(b).len() == 0 && e == Error::MissingOrInvalidContentType,
                },
            },
    {
        match parse_boundary(content_type) {
            Some(b) => Multipart::with_constraints(b.as_str(), constraints),
            None => Err(Error::MissingOrInvalidContentType),
        }
    }

    /// How many bytes the parser holds.
    pub fn buffered_len(&self) -> (r: usize)
        ensures
            r == self.buffered().len(),
    {
        self.buf.len()
    }

    /// Whether the parse is over, by the terminal delimiter or by a failure.
    pub fn is_finished(&self) -> (r: bool)
        ensures
            r == (self.stage() is Done || self.stage() is Failed),
    {
        match self.stage {
            Stage::Done | Stage::Failed(_) => true,
            _ => false,
        }
    }

    /// Hands the parser the next chunk of the body.
    pub fn feed(&mut self, chunk: &[u8])
        requires
            old(self).wf(),
        ensures
            final(self).wf(),
            final(self).same_but_buffer(old(self)),
            final(self).buffered() == old(self).buffered() + chunk@,
    {
        let buf = concat(self.buf.as_slice(), chunk);
        self.buf = buf;
    }

    /// Tells the parser that the whole body has been fed.
    pub fn end_input(&mut self)
        requires
            old(self).wf(),
        ensures
            final(self).wf(),
            final(self).input_done(),
            final(self).buffered() == old(self).buffered(),
            final(self).stage() == old(self).stage(),
            final(self).delimiter() == old(self).delimiter(),
            final(self).constraints() == old(self).constraints(),
            final(self).stream_bytes() == old(self).stream_bytes(),
            final(self).field_bytes() == old(self).field_bytes(),
            final(self).field_limit() == old(self).field_limit(),
    {
        self.input_done = true;
    }

    /// Tells the parser that the body's source failed: a parse not yet over
    /// fails with `UpstreamIoError`.
    pub fn fail_input(&mut self)
        requires
            old(self).wf(),
        ensures
            final(self).wf(),
            final(self).stage() == match old(self).stage() {
                Stage::Done => Stage::Done,
                Stage::Failed(e) => Stage::Failed(e),
                _ => Stage::Failed(Error::UpstreamIoError),
            },
            final(self).buffered() == old(self).buffered(),
            final(self).delimiter() == old(self).delimiter(),
            final(self).constraints() == old(self).constraints(),
            final(self).stream_bytes() == old(self).stream_bytes(),
    {
        match self.stage {
            Stage::Done | Stage::Failed(_) => {},
            _ => {
                self.stage = Stage::Failed(Error::UpstreamIoError);
            },
        }
    }
    /// Advances to the next field: skips what is left of the open field's body
    /// (or the preamble), reads the next part's headers and opens its field.
    pub fn next_field(&mut self) -> (r: NextField)
        requires
            old(self).wf(),
        ensures
            final(self).wf(),
            final(self).delimiter() == old(self).delimiter(),
            final(self).constraints() == old(self).constraints(),
            final(self).input_done() == old(self).input_done(),
            final(self).stream_bytes() == old(self).stream_bytes(),
            final(self).buffered().len() <= old(self).buffered().len(),
            field_step(*old(self), *final(self), r),
            old(self).stage() is Done ==> r is End && *final(self) == *old(self),
            old(self).stage() is Failed ==> r == NextField::Error(old(self).stage()->Failed_0)
                && *final(self) == *old(self),
            r is NeedInput ==> !old(self).input_done() && final(self).buffered().len()
                <= MAX_HEADER_BYTES + 3 + final(self).delimiter().len(),
    {
        match self.stage {
            Stage::Done => {
                return NextField::End;
            },
            Stage::Failed(e) => {
                return NextField::Error(e);
            },
            _ => {},
        }
        let ghost start_len = self.buf@.len();
        loop
            invariant
                self.wf(),
                self.delimiter() == old(self).delimiter(),
                self.constraints() == old(self).constraints(),
                self.input_done() == old(self).input_done(),
                self.stream_bytes() == old(self).stream_bytes(),
                self.buf@.len() <= start_len,
                start_len == old(self).buffered().len(),
                !(self.stage is Done),
                !(self.stage is Failed),
                !(old(self).stage() is Done),
                !(old(self).stage() is Failed),
                self.field_bytes() == old(self).field_bytes(),
                self.field_limit() == old(self).field_limit(),
                seek_field(self.stage(), self.buffered(), self.delimiter(), self.input_done())
                    == seek_field(
                    old(self).stage(),
                    old(self).buffered(),
                    old(self).delimiter(),
                    old(self).input_done(),
                ),
            decreases self.buf@.len() * 4 + rank(self.stage),
        {
            match self.stage {
                Stage::AfterDelimiter => {
                    if self.buf.len() < 2 {
                        if self.input_done {
                            self.stage = Stage::Failed(Error::TruncatedStream);
                            return NextField::Error(Error::TruncatedStream);
                        }
                        return NextField::NeedInput;
                    }
                    if self.buf[0] == 45 && self.buf[1] == 45 {
                        self.stage = Stage::Done;
                        self.buf = Vec::new();
                        return NextField::End;
                    }
                    if self.buf[0] == 13 && self.buf[1] == 10 {
                        self.stage = Stage::Headers;
                    } else {
                        self.stage = Stage::Failed(Error::MalformedPartHeader);
                        return NextField::Error(Error::MalformedPartHeader);
                    }
                },
                Stage::Headers => {
                    return self.open_field();
                },
                _ => {
                    let dl = self.delimiter.len();
                    let bl = self.buf.len();
                    match find(self.buf.as_slice(), self.delimiter.as_slice(), 0) {
                        Some(i) => {
                            proof {
                                lemma_first_match(self.buf@, self.delimiter@, 0);
                            }
                            assert(i + dl <= bl);
                            self.buf = tail(&self.buf, i + dl);
                            self.stage = Stage::AfterDelimiter;
                        },
                        None => {
                            if self.input_done {
                                self.stage = Stage::Failed(Error::TruncatedStream);
                                return NextField::Error(Error::TruncatedStream);
                            }
                            if self.buf.len() >= dl {
                                let k = self.buf.len() - dl + 1;
                                self.buf = tail(&self.buf, k);
                            }
                            return NextField::NeedInput;
                        },
                    }
                },
            }
        }
    }

    fn open_field(&mut self) -> (r: NextField)
        requires
            old(self).wf(),
            old(self).stage() is Headers,
        ensures
            final(self).wf(),
            final(self).delimiter() == old(self).delimiter(),
            final(self).constraints() == old(self).constraints(),
            final(self).input_done() == old(self).input_done(),
            final(self).stream_bytes() == old(self).stream_bytes(),
            final(self).buffered().len() <= old(self).buffered().len(),
            field_step(*old(self), *final(self), r),
            r is NeedInput ==> !old(self).input_done() && final(self).buffered().len()
                <= MAX_HEADER_BYTES + 3,
    {
        let sep: Vec<u8> = vec![13u8, 10u8, 13u8, 10u8];
        assert(sep@ =~= blank_line());
        match find(self.buf.as_slice(), sep.as_slice(), 0) {
            Some(i) => {
                proof {
                    lemma_first_match(self.buf@, sep@, 0);
                }
                if i > MAX_HEADER_BYTES {
                    self.stage = Stage::Failed(Error::MalformedPartHeader);
                    return NextField::Error(Error::MalformedPartHeader);
                }
                let block = slice_to_vec(slice_subrange(self.buf.as_slice(), 2, i + 2));
                self.buf = tail(&self.buf, i + 4);
                match parse_part_headers(block.as_slice()) {
                    Err(e) => {
                        self.stage = Stage::Failed(e);
                        NextField::Error(e)
                    },
                    Ok(h) => {
                        if !self.constraints.is_field_allowed(h.name.as_slice()) {
                            self.stage = Stage::Failed(Error::DisallowedFieldName);
                            return NextField::Error(Error::DisallowedFieldName);
                        }
                        self.field_limit = self.constraints.size_limit.limit_of(h.name.as_slice());
                        self.field_bytes = 0;
                        self.stage = Stage::Body;
                        NextField::Field(h)
                    },
                }
            },
            None => {
                // Past this length no blank line still to come could start in bounds.
                if self.buf.len() > MAX_HEADER_BYTES + 3 {
                    self.stage = Stage::Failed(Error::MalformedPartHeader);
                    NextField::Error(Error::MalformedPartHeader)
                } else if self.input_done {
                    self.stage = Stage::Failed(Error::TruncatedStream);
                    NextField::Error(Error::TruncatedStream)
                } else {
                    NextField::NeedInput
                }
            },
        }
    }

    /// The next chunk of the open field's body.
    pub fn next_chunk(&mut self) -> (r: NextChunk)
        requires
            old(self).wf(),
        ensures
            final(self).wf(),
            chunk_step(*old(self), *final(self), r),
            final(self).delimiter() == old(self).delimiter(),
            final(self).constraints() == old(self).constraints(),
            final(self).input_done() == old(self).input_done(),
            final(self).field_limit() == old(self).field_limit(),
            final(self).buffered().len() <= old(self).buffered().len(),
            old(self).stage() is Body && r is NeedInput ==> final(self).buffered().len()
                < final(self).delimiter().len(),
    {
        match self.stage {
            Stage::Body => {
                let dl = self.delimiter.len();
                match find(self.buf.as_slice(), self.delimiter.as_slice(), 0) {
                    Some(i) => {
                        proof {
                            lemma_first_match(self.buf@, self.delimiter@, 0);
                        }
                        if i == 0 {
                            self.buf = tail(&self.buf, dl);
                            self.stage = Stage::AfterDelimiter;
                            NextChunk::EndOfField
                        } else {
                            self.emit(i)
                        }
                    },
                    None => {
                        if self.buf.len() >= dl {
                            let n = self.buf.len() - dl + 1;
                            self.emit(n)
                        } else if self.input_done {
                            self.stage = Stage::Failed(Error::TruncatedStream);
                            NextChunk::Error(Error::TruncatedStream)
                        } else {
                            NextChunk::NeedInput
                        }
                    },
                }
            },
            Stage::Failed(e) => NextChunk::Error(e),
            _ => NextChunk::EndOfField,
        }
    }

    fn emit(&mut self, n: usize) -> (r: NextChunk)
        requires
            old(self).wf(),
            old(self).stage() is Body,
            0 < n <= old(self).buffered().len(),
        ensures
            final(self).wf(),
            emits(*old(self), *final(self), r, n as int),
            final(self).delimiter() == old(self).delimiter(),
            final(self).constraints() == old(self).constraints(),
            final(self).input_done() == old(self).input_done(),
            final(self).field_limit() == old(self).field_limit(),
    {
        if over(self.constraints.size_limit.whole_stream, self.stream_bytes, n) {
            self.stage = Stage::Failed(Error::WholeStreamLimitExceeded);
            return NextChunk::Error(Error::WholeStreamLimitExceeded);
        }
        if over(self.field_limit, self.field_bytes, n) {
            self.stage = Stage::Failed(Error::PerFieldLimitExceeded);
            return NextChunk::Error(Error::PerFieldLimitExceeded);
        }
        let c = slice_to_vec(slice_subrange(self.buf.as_slice(), 0, n));
        self.buf = tail(&self.buf, n);
        self.stream_bytes = add_sat(self.stream_bytes, n);
        self.field_bytes = add_sat(self.field_bytes, n);
        NextChunk::Chunk(c)
    }
}

} // verus!
