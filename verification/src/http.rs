//! The proxy's HTTP/1.1 side: reading a request's first line and headers,
//! framing its body, choosing the handler, and writing the fixed responses.
use vstd::prelude::*;
use vstd::slice::slice_subrange;
use vstd::utf8::encode_utf8;

use crate::number::{
    decimal_text, hex_text, is_hex_char, parse_unsigned, parse_unsigned_in, push_decimal,
};
use crate::text::{
    all_white, chars_of, contains, has_infix, has_prefix, is_white_space, slice_eq, starts_with,
    trim_bounds, trim_text,
};

verus! {

/// The first index at or after `i` where `s` holds `c`, or the length of `s`.
pub open spec fn find_from(s: Seq<char>, c: char, i: int) -> int
    decreases s.len() - i,
{
    if 0 <= i < s.len() && s[i] != c {
        find_from(s, c, i + 1)
    } else {
        i
    }
}

proof fn lemma_find_from_unique(s: Seq<char>, c: char, i: int, k: int)
    requires
        0 <= i <= k <= s.len(),
        forall|m: int| i <= m < k ==> s[m] != c,
        k < s.len() ==> s[k] == c,
    ensures
        find_from(s, c, i) == k,
    decreases k - i,
{
    if i < k {
        lemma_find_from_unique(s, c, i + 1, k);
    }
}

/// The first index in `from..to` where `cs` holds `c`, or `to`.
fn find_in(cs: &[char], c: char, from: usize, to: usize) -> (k: usize)
    requires
        from <= to <= cs@.len(),
    ensures
        from <= k <= to,
        forall|m: int| from <= m < k ==> cs@[m] != c,
        k < to ==> cs@[k as int] == c,
{
    let mut k = from;
    while k < to && cs[k] != c
        invariant
            from <= k <= to <= cs@.len(),
            forall|m: int| from <= m < k ==> cs@[m] != c,
        decreases to - k,
    {
        k = k + 1;
    }
    k
}

// ---------------------------------------------------------------------------
// Case folding
/// The lower-case form of `c` as `str::to_lowercase` gives it, as far as matching
/// ASCII text can tell: ASCII capitals become small letters, KELVIN SIGN becomes
/// `k`, LATIN CAPITAL LETTER I WITH DOT ABOVE becomes `i` and a combining dot;
/// every other lower-case form holds no ASCII character, and `c` stands for it.
pub open spec fn fold_char(c: char) -> Seq<char> {
    let u = c as u32;
    if 65 <= u <= 90 {
        seq![((u + 32) as u8) as char]
    } else if u == 0x212a {
        seq!['k']
    } else if u == 0x130 {
        seq!['i', '\u{307}']
    } else {
        seq![c]
    }
}

/// `s` case-folded character by character (see `fold_char`).
pub open spec fn fold_text(s: Seq<char>) -> Seq<char>
    decreases s.len(),
{
    if s.len() == 0 {
        Seq::empty()
    } else {
        fold_text(s.drop_last()) + fold_char(s.last())
    }
}

/// `cs` case-folded (see `fold_text`).
pub fn fold(cs: &[char]) -> (r: Vec<char>)
    ensures
        r@ == fold_text(cs@),
{
    let mut r: Vec<char> = Vec::new();
    let mut i: usize = 0;
    while i < cs.len()
        invariant
            i <= cs@.len(),
            r@ == fold_text(cs@.take(i as int)),
        decreases cs@.len() - i,
    {
        let c = cs[i];
        let u = c as u32;
        if 65 <= u && u <= 90 {
            r.push(((u + 32) as u8) as char);
        } else if u == 0x212a {
            r.push('k');
        } else if u == 0x130 {
            r.push('i');
            r.push('\u{307}');
        } else {
            r.push(c);
        }
        assert(cs@.take(i + 1).drop_last() =~= cs@.take(i as int));
        i = i + 1;
    }
    assert(cs@.take(i as int) =~= cs@);
    r
}

// ---------------------------------------------------------------------------
// Request line
/// A request's method and target, the first two space-separated fields of its
/// first line.
pub struct RequestLine {
    pub method: String,
    pub path: String,
}

/// The method and target of the first line `s`: the trimmed line is split at its
/// first two spaces (as `splitn(3, ' ')` does); there is none when the trimmed line
/// holds no space.
pub open spec fn request_line_fields(s: Seq<char>) -> Option<(Seq<char>, Seq<char>)> {
    let t = trim_text(s);
    let a = find_from(t, ' ', 0);
    if a >= t.len() {
        None
    } else {
        Some((t.subrange(0, a), t.subrange(a + 1, find_from(t, ' ', a + 1))))
    }
}

/// Reads a request's first line; `None` when the connection is to be dropped.
pub fn parse_request_line(line: &str) -> (r: Option<RequestLine>)
    ensures
        r is Some == request_line_fields(line@) is Some,
        r matches Some(rl) ==> (rl.method@, rl.path@) == request_line_fields(line@)->0,
{
    let cs = chars_of(line);
    let (lo, hi) = trim_bounds(cs.as_slice());
    let ghost t = cs@.subrange(lo as int, hi as int);
    let a = find_in(cs.as_slice(), ' ', lo, hi);
    proof {
        lemma_find_from_unique(t, ' ', 0, a - lo);
    }
    if a == hi {
        return None;
    }
    let b = find_in(cs.as_slice(), ' ', a + 1, hi);
    proof {
        lemma_find_from_unique(t, ' ', a - lo + 1, b - lo);
    }
    let method = line.substring_char(lo, a).to_owned();
    let path = line.substring_char(a + 1, b).to_owned();
    assert(method@ =~= t.subrange(0, a - lo));
    assert(path@ =~= t.subrange(a - lo + 1, b - lo));
    Some(RequestLine { method, path })
}

// ---------------------------------------------------------------------------
// Headers
/// The text between the first and the second `:` of `s` (to the end when there is
/// no second), as `split(':').nth(1)` gives it; none when `s` holds no `:`.
pub open spec fn second_field(s: Seq<char>) -> Option<Seq<char>> {
    let i = find_from(s, ':', 0);
    if i >= s.len() {
        None
    } else {
        Some(s.subrange(i + 1, find_from(s, ':', i + 1)))
    }
}

/// The body length that a `Content-Length` line announces: its value trimmed and
/// read in base 10, or 0 when that fails.
pub open spec fn announced_length(line: Seq<char>) -> nat {
    match second_field(line) {
        Some(f) => match parse_unsigned(trim_text(f), 10) {
            Some(n) => n,
            None => 0,
        },
        None => 0,
    }
}

/// Whether `line` is a `Content-Length` header, whatever its case.
pub open spec fn is_length_header(line: Seq<char>) -> bool {
    has_prefix(fold_text(line), "content-length:"@)
}

/// Whether `line` announces a chunked body, whatever its case.
pub open spec fn is_chunked_header(line: Seq<char>) -> bool {
    has_infix(fold_text(line), "transfer-encoding:"@) && has_infix(fold_text(line), "chunked"@)
}

/// What the headers read so far say of the body.
pub struct HeaderSummary {
    pub content_length: usize,
    pub chunked: bool,
}

/// How the body of a request is to be read.
#[derive(PartialEq, Eq, Structural, Debug, Clone, Copy)]
pub enum BodyFraming {
    /// Exactly this many bytes.
    Length(usize),
    /// Chunks, each after a line with its size in base 16, up to a chunk of size 0.
    Chunked,
    /// No body.
    Empty,
}

impl HeaderSummary {
    /// Before any header: no length, not chunked.
    pub fn new() -> (r: HeaderSummary)
        ensures
            r.content_length == 0,
            !r.chunked,
    {
        HeaderSummary { content_length: 0, chunked: false }
    }

    /// Takes one header line into account. A `Content-Length` line sets the length
    /// (the last one counts); a line that names both `transfer-encoding:` and
    /// `chunked` marks the body as chunked.
    pub fn observe(&mut self, line: &str)
        ensures
            final(self).content_length == (if is_length_header(line@) {
                announced_length(line@)
            } else {
                old(self).content_length as nat
            }),
            final(self).chunked == (old(self).chunked || is_chunked_header(line@)),
    {
        let cs = chars_of(line);
        let folded = fold(cs.as_slice());
        let length_key = chars_of("content-length:");
        let encoding_key = chars_of("transfer-encoding:");
        let chunked_key = chars_of("chunked");
        if starts_with(folded.as_slice(), length_key.as_slice()) {
            self.content_length = field_length(cs.as_slice());
        }
        if contains(folded.as_slice(), encoding_key.as_slice()) && contains(
            folded.as_slice(),
            chunked_key.as_slice(),
        ) {
            self.chunked = true;
        }
    }

    /// How the body is framed: by its length when one above 0 was given, else in
    /// chunks when so announced, else not at all.
    pub fn framing(&self) -> (r: BodyFraming)
        ensures
            r == (if self.content_length > 0 {
                BodyFraming::Length(self.content_length)
            } else if self.chunked {
                BodyFraming::Chunked
            } else {
                BodyFraming::Empty
            }),
    {
        if self.content_length > 0 {
            BodyFraming::Length(self.content_length)
        } else if self.chunked {
            BodyFraming::Chunked
        } else {
            BodyFraming::Empty
        }
    }
}

/// The length that the header line `cs` announces (see `announced_length`).
fn field_length(cs: &[char]) -> (r: usize)
    ensures
        r == announced_length(cs@),
{
    let n = cs.len();
    let i = find_in(cs, ':', 0, n);
    proof {
        lemma_find_from_unique(cs@, ':', 0, i as int);
    }
    if i == n {
        return 0;
    }
    let j = find_in(cs, ':', i + 1, n);
    proof {
        lemma_find_from_unique(cs@, ':', i + 1, j as int);
    }
    let field = slice_subrange(cs, i + 1, j);
    let (lo, hi) = trim_bounds(field);
    match parse_unsigned_in(field, lo, hi, 10) {
        Some(v) => v,
        None => 0,
    }
}

/// Whether `line` ends the headers (it is blank).
pub fn ends_headers(line: &str) -> (r: bool)
    ensures
        r == (trim_text(line@).len() == 0),
{
    crate::text::is_blank(line)
}

/// The size of the next chunk that the line `line` announces: its trimmed text
/// read in base 16, or 0 (the last chunk) when that fails.
pub fn chunk_size(line: &str) -> (r: usize)
    ensures
        r == (match parse_unsigned(trim_text(line@), 16) {
            Some(n) => n,
            None => 0,
        }),
{
    let cs = chars_of(line);
    let (lo, hi) = trim_bounds(cs.as_slice());
    match parse_unsigned_in(cs.as_slice(), lo, hi, 16) {
        Some(v) => v,
        None => 0,
    }
}

// ---------------------------------------------------------------------------
// Reading a request
/// The headers read so far after one more header line.
pub open spec fn observed(h: HeaderSummary, line: Seq<char>) -> HeaderSummary {
    HeaderSummary {
        content_length: if is_length_header(line) {
            announced_length(line) as usize
        } else {
            h.content_length
        },
        chunked: h.chunked || is_chunked_header(line),
    }
}

/// How a body with these headers is framed (see `HeaderSummary::framing`).
pub open spec fn framing_of(h: HeaderSummary) -> BodyFraming {
    if h.content_length > 0 {
        BodyFraming::Length(h.content_length)
    } else if h.chunked {
        BodyFraming::Chunked
    } else {
        BodyFraming::Empty
    }
}

/// The size that a chunk-size line announces (see `chunk_size`).
pub open spec fn chunk_value(line: Seq<char>) -> nat {
    match parse_unsigned(trim_text(line), 16) {
        Some(n) => n,
        None => 0,
    }
}

/// Where reading a request stands.
#[derive(PartialEq, Eq, Structural, Debug, Clone, Copy)]
pub enum ReadPhase {
    /// Before the first line.
    RequestLine,
    /// Among the headers.
    Headers,
    /// Before a body of this many bytes.
    Body(usize),
    /// Before the line with the next chunk's size.
    ChunkSize,
    /// Before a chunk of this many bytes.
    ChunkData(usize),
    /// Before the line break after a chunk.
    ChunkEnd,
    /// Nothing more to read.
    Done,
}

/// What the reader wants next from the connection.
#[derive(PartialEq, Eq, Structural, Debug, Clone, Copy)]
pub enum NextRead {
    /// One line.
    Line,
    /// Exactly this many bytes.
    Bytes(usize),
    /// Nothing: the request is read, or the connection is to be dropped.
    Stop,
}

/// The phase that follows the headers: the body as the headers frame it.
pub open spec fn body_phase(f: BodyFraming) -> ReadPhase {
    match f {
        BodyFraming::Length(n) => ReadPhase::Body(n),
        BodyFraming::Chunked => ReadPhase::ChunkSize,
        BodyFraming::Empty => ReadPhase::Done,
    }
}

/// The method and target of a request line, as text.
pub open spec fn request_view(r: Option<RequestLine>) -> Option<(Seq<char>, Seq<char>)> {
    match r {
        Some(rl) => Some((rl.method@, rl.path@)),
        None => None,
    }
}

/// The text of a line that was read; none at the end of the input (or on an error).
pub open spec fn line_view(line: Option<&str>) -> Option<Seq<char>> {
    match line {
        Some(l) => Some(l@),
        None => None,
    }
}

/// The phase, request line and headers after the line `line` is read in `phase`.
pub open spec fn after_line(
    phase: ReadPhase,
    req: Option<(Seq<char>, Seq<char>)>,
    h: HeaderSummary,
    line: Option<Seq<char>>,
) -> (ReadPhase, Option<(Seq<char>, Seq<char>)>, HeaderSummary) {
    match phase {
        ReadPhase::RequestLine => match line {
            Some(l) => match request_line_fields(l) {
                Some(f) => (ReadPhase::Headers, Some(f), h),
                None => (ReadPhase::Done, req, h),
            },
            None => (ReadPhase::Done, req, h),
        },
        ReadPhase::Headers => match line {
            Some(l) => if trim_text(l).len() == 0 {
                (body_phase(framing_of(h)), req, h)
            } else {
                (ReadPhase::Headers, req, observed(h, l))
            },
            None => (body_phase(framing_of(h)), req, h),
        },
        ReadPhase::ChunkSize => match line {
            Some(l) => if chunk_value(l) == 0 {
                (ReadPhase::Done, req, h)
            } else {
                (ReadPhase::ChunkData(chunk_value(l) as usize), req, h)
            },
            None => (ReadPhase::Done, req, h),
        },
        ReadPhase::ChunkEnd => (ReadPhase::ChunkSize, req, h),
        _ => (phase, req, h),
    }
}

/// The phase after `bytes` are read in `phase`.
pub open spec fn after_bytes(phase: ReadPhase) -> ReadPhase {
    match phase {
        ReadPhase::Body(_) => ReadPhase::Done,
        ReadPhase::ChunkData(_) => ReadPhase::ChunkEnd,
        _ => phase,
    }
}

/// Whether bytes read in `phase` belong to the body.
pub open spec fn takes_bytes(phase: ReadPhase) -> bool {
    phase is Body || phase is ChunkData
}

/// What is wanted in `phase`.
pub open spec fn next_read_of(phase: ReadPhase) -> NextRead {
    match phase {
        ReadPhase::Body(n) => NextRead::Bytes(n),
        ReadPhase::ChunkData(n) => NextRead::Bytes(n),
        ReadPhase::Done => NextRead::Stop,
        _ => NextRead::Line,
    }
}

/// A request being read from a connection: its first line, its headers, and its
/// body, by length or in chunks.
pub struct RequestReader {
    pub phase: ReadPhase,
    pub request: Option<RequestLine>,
    pub headers: HeaderSummary,
    pub body: Vec<u8>,
}

impl RequestReader {
    /// A reader before the first line.
    pub fn new() -> (r: RequestReader)
        ensures
            r.phase == ReadPhase::RequestLine,
            r.request is None,
            r.headers == (HeaderSummary { content_length: 0, chunked: false }),
            r.body@ == Seq::<u8>::empty(),
    {
        RequestReader {
            phase: ReadPhase::RequestLine,
            request: None,
            headers: HeaderSummary::new(),
            body: Vec::new(),
        }
    }

    /// What to read next.
    pub fn next_read(&self) -> (r: NextRead)
        ensures
            r == next_read_of(self.phase),
    {
        match self.phase {
            ReadPhase::Body(n) => NextRead::Bytes(n),
            ReadPhase::ChunkData(n) => NextRead::Bytes(n),
            ReadPhase::Done => NextRead::Stop,
            _ => NextRead::Line,
        }
    }

    /// Takes in a line read from the connection (`None` at the end of the input).
    /// The first line gives the request (or drops the connection); a header line
    /// is observed and a blank one ends the headers; a chunk-size line gives the
    /// next chunk, or ends the body at size 0; the line after a chunk is passed over.
    pub fn on_line(&mut self, line: Option<&str>)
        ensures
            ({
                let (p, req, h) = after_line(
                    old(self).phase,
                    request_view(old(self).request),
                    old(self).headers,
                    line_view(line),
                );
                &&& final(self).phase == p
                &&& request_view(final(self).request) == req
                &&& final(self).headers == h
            }),
            final(self).body@ == old(self).body@,
            line matches Some(l) ==> reader_model(*final(self)) == read_step(
                reader_model(*old(self)),
                ReadInput::Line(l@),
            ),
    {
        match self.phase {
            ReadPhase::RequestLine => {
                match line {
                    Some(l) => match parse_request_line(l) {
                        Some(rl) => {
                            self.request = Some(rl);
                            self.phase = ReadPhase::Headers;
                        },
                        None => {
                            self.phase = ReadPhase::Done;
                        },
                    },
                    None => {
                        self.phase = ReadPhase::Done;
                    },
                }
            },
            ReadPhase::Headers => {
                let end = match line {
                    Some(l) => ends_headers(l),
                    None => true,
                };
                if end {
                    self.phase = match self.headers.framing() {
                        BodyFraming::Length(n) => ReadPhase::Body(n),
                        BodyFraming::Chunked => ReadPhase::ChunkSize,
                        BodyFraming::Empty => ReadPhase::Done,
                    };
                } else {
                    match line {
                        Some(l) => self.headers.observe(l),
                        None => {},
                    }
                }
            },
            ReadPhase::ChunkSize => {
                match line {
                    Some(l) => {
                        let n = chunk_size(l);
                        if n == 0 {
                            self.phase = ReadPhase::Done;
                        } else {
                            self.phase = ReadPhase::ChunkData(n);
                        }
                    },
                    None => {
                        self.phase = ReadPhase::Done;
                    },
                }
            },
            ReadPhase::ChunkEnd => {
                self.phase = ReadPhase::ChunkSize;
            },
            _ => {},
        }
    }

    /// Takes in the bytes read for a body or a chunk: they are added to the body.
    pub fn on_bytes(&mut self, bytes: &[u8])
        ensures
            final(self).phase == after_bytes(old(self).phase),
            final(self).body@ == (if takes_bytes(old(self).phase) {
                old(self).body@ + bytes@
            } else {
                old(self).body@
            }),
            request_view(final(self).request) == request_view(old(self).request),
            final(self).headers == old(self).headers,
            reader_model(*final(self)) == read_step(
                reader_model(*old(self)),
                ReadInput::Bytes(bytes@),
            ),
    {
        match self.phase {
            ReadPhase::Body(_) => {
                self.body.extend_from_slice(bytes);
                self.phase = ReadPhase::Done;
            },
            ReadPhase::ChunkData(_) => {
                self.body.extend_from_slice(bytes);
                self.phase = ReadPhase::ChunkEnd;
            },
            _ => {},
        }
        assert(takes_bytes(old(self).phase) ==> self.body@ =~= old(self).body@ + bytes@);
    }
}

// ---------------------------------------------------------------------------
// What reading a body gives
/// One read from the connection: a line, or a block of bytes.
pub enum ReadInput {
    Line(Seq<char>),
    Bytes(Seq<u8>),
}

/// A request reader as values: phase, request line, headers and body so far.
pub struct ReadModel {
    pub phase: ReadPhase,
    pub request: Option<(Seq<char>, Seq<char>)>,
    pub headers: HeaderSummary,
    pub body: Seq<u8>,
}

/// The reader `r` as values.
pub open spec fn reader_model(r: RequestReader) -> ReadModel {
    ReadModel {
        phase: r.phase,
        request: request_view(r.request),
        headers: r.headers,
        body: r.body@,
    }
}

/// The reader after one more read (what `on_line` and `on_bytes` do).
pub open spec fn read_step(m: ReadModel, input: ReadInput) -> ReadModel {
    match input {
        ReadInput::Line(l) => {
            let (p, req, h) = after_line(m.phase, m.request, m.headers, Some(l));
            ReadModel { phase: p, request: req, headers: h, body: m.body }
        },
        ReadInput::Bytes(b) => ReadModel {
            phase: after_bytes(m.phase),
            request: m.request,
            headers: m.headers,
            body: if takes_bytes(m.phase) {
                m.body + b
            } else {
                m.body
            },
        },
    }
}

/// The reader after the reads `inputs`, in order.
pub open spec fn read_all(m: ReadModel, inputs: Seq<ReadInput>) -> ReadModel
    decreases inputs.len(),
{
    if inputs.len() == 0 {
        m
    } else {
        read_step(read_all(m, inputs.drop_last()), inputs.last())
    }
}

/// The bytes of `chunks`, one after the other.
pub open spec fn joined_chunks(chunks: Seq<Seq<u8>>) -> Seq<u8>
    decreases chunks.len(),
{
    if chunks.len() == 0 {
        Seq::empty()
    } else {
        joined_chunks(chunks.drop_last()) + chunks.last()
    }
}

/// The line that announces a chunk of `n` bytes.
pub open spec fn chunk_size_line(n: nat) -> Seq<char> {
    hex_text(n) + seq!['\r', '\n']
}

/// `chunks` in the chunked transfer coding, as the reader takes them in: per
/// chunk its size line, its bytes and a line break.
pub open spec fn chunk_reads(chunks: Seq<Seq<u8>>) -> Seq<ReadInput>
    decreases chunks.len(),
{
    if chunks.len() == 0 {
        Seq::empty()
    } else {
        chunk_reads(chunks.drop_last()) + seq![
            ReadInput::Line(chunk_size_line(chunks.last().len())),
            ReadInput::Bytes(chunks.last()),
            ReadInput::Line(seq!['\r', '\n']),
        ]
    }
}

/// The whole chunked coding of `chunks`: their reads, then the size line of the
/// last, empty chunk.
pub open spec fn chunked_body_reads(chunks: Seq<Seq<u8>>) -> Seq<ReadInput> {
    chunk_reads(chunks) + seq![ReadInput::Line(chunk_size_line(0))]
}

proof fn lemma_read_all_concat(m: ReadModel, a: Seq<ReadInput>, b: Seq<ReadInput>)
    ensures
        read_all(m, a + b) == read_all(read_all(m, a), b),
    decreases b.len(),
{
    if b.len() == 0 {
        assert(a + b =~= a);
    } else {
        lemma_read_all_concat(m, a, b.drop_last());
        assert((a + b).drop_last() =~= a + b.drop_last());
        assert((a + b).last() == b.last());
    }
}

proof fn lemma_read_push(m: ReadModel, a: Seq<ReadInput>, x: ReadInput)
    ensures
        read_all(m, a.push(x)) == read_step(read_all(m, a), x),
{
    assert(a.push(x).drop_last() =~= a);
    assert(a.push(x).last() == x);
}

proof fn lemma_read_one(m: ReadModel, x: ReadInput)
    ensures
        read_all(m, seq![x]) == read_step(m, x),
{
    let e = Seq::<ReadInput>::empty();
    assert(read_all(m, e) == m);
    lemma_read_push(m, e, x);
    assert(e.push(x) =~= seq![x]);
}

proof fn lemma_chunk_value(n: nat)
    requires
        n <= usize::MAX,
    ensures
        chunk_value(chunk_size_line(n)) == n,
{
    crate::number::hex_round_trip(n);
    let h = hex_text(n);
    let l = chunk_size_line(n);
    assert(!is_white_space(l[0])) by {
        assert(l[0] == h[0]);
        assert(is_hex_char(h[0]));
    }
    crate::text::lemma_skip_white_unique(l, 0, 0);
    assert(!is_white_space(l[h.len() - 1])) by {
        assert(l[h.len() - 1] == h[h.len() - 1]);
        assert(is_hex_char(h[h.len() - 1]));
    }
    assert forall|m: int| h.len() <= m < l.len() implies is_white_space(#[trigger] l[m]) by {}
    crate::text::lemma_back_white_unique(l, l.len() as int, h.len() as int);
    assert(trim_text(l) =~= h);
}

proof fn lemma_chunk_reads(m: ReadModel, chunks: Seq<Seq<u8>>)
    requires
        m.phase == ReadPhase::ChunkSize,
        forall|i: int| 0 <= i < chunks.len() ==> 1 <= (#[trigger] chunks[i]).len() <= usize::MAX,
    ensures
        read_all(m, chunk_reads(chunks)) == (ReadModel {
            phase: ReadPhase::ChunkSize,
            request: m.request,
            headers: m.headers,
            body: m.body + joined_chunks(chunks),
        }),
    decreases chunks.len(),
{
    if chunks.len() == 0 {
        assert(m.body + joined_chunks(chunks) =~= m.body);
    } else {
        let rest = chunks.drop_last();
        let c = chunks.last();
        assert forall|i: int| 0 <= i < rest.len() implies 1 <= (#[trigger] rest[i]).len()
            <= usize::MAX by {
            assert(rest[i] == chunks[i]);
        }
        lemma_chunk_reads(m, rest);
        let three = seq![
            ReadInput::Line(chunk_size_line(c.len())),
            ReadInput::Bytes(c),
            ReadInput::Line(seq!['\r', '\n']),
        ];
        lemma_read_all_concat(m, chunk_reads(rest), three);
        let m1 = read_all(m, chunk_reads(rest));
        assert(1 <= c.len() <= usize::MAX) by {
            assert(chunks[chunks.len() - 1] == c);
        }
        lemma_chunk_value(c.len());
        let l1 = ReadInput::Line(chunk_size_line(c.len()));
        let b = ReadInput::Bytes(c);
        let l2 = ReadInput::Line(seq!['\r', '\n']);
        let m2 = read_step(m1, l1);
        assert(m2.phase == ReadPhase::ChunkData(c.len() as usize));
        let m3 = read_step(m2, b);
        assert(m3.body == m.body + joined_chunks(rest) + c);
        lemma_read_one(m1, l1);
        lemma_read_push(m1, seq![l1], b);
        assert(seq![l1].push(b) =~= seq![l1, b]);
        lemma_read_push(m1, seq![l1, b], l2);
        assert(seq![l1, b].push(l2) =~= three);
        assert(m.body + joined_chunks(chunks) =~= m.body + joined_chunks(rest) + c);
    }
}

/// Chunked decoding undoes chunked encoding: after headers that ask for a chunked
/// body (and give no length), the blank line and the chunked coding of non-empty
/// chunks leave the reader done, with the chunks one after the other as its body.
pub proof fn chunked_body_read_back(m: ReadModel, blank: Seq<char>, chunks: Seq<Seq<u8>>)
    requires
        m.phase == ReadPhase::Headers,
        framing_of(m.headers) == BodyFraming::Chunked,
        trim_text(blank).len() == 0,
        forall|i: int| 0 <= i < chunks.len() ==> 1 <= (#[trigger] chunks[i]).len() <= usize::MAX,
    ensures
        read_all(m, seq![ReadInput::Line(blank)] + chunked_body_reads(chunks)) == (ReadModel {
            phase: ReadPhase::Done,
            request: m.request,
            headers: m.headers,
            body: m.body + joined_chunks(chunks),
        }),
{
    let first = seq![ReadInput::Line(blank)];
    assert(first.drop_last() =~= Seq::<ReadInput>::empty());
    let m1 = read_all(m, first);
    lemma_read_one(m, ReadInput::Line(blank));
    assert(m1.phase == ReadPhase::ChunkSize);
    lemma_chunk_reads(m1, chunks);
    let last = seq![ReadInput::Line(chunk_size_line(0))];
    lemma_read_all_concat(m, first, chunk_reads(chunks) + last);
    lemma_read_all_concat(m1, chunk_reads(chunks), last);
    assert(first + chunked_body_reads(chunks) =~= first + (chunk_reads(chunks) + last));
    lemma_chunk_value(0);
    let m2 = read_all(m1, chunk_reads(chunks));
    lemma_read_one(m2, ReadInput::Line(chunk_size_line(0)));
}

/// A body sent with its length: after headers that give a length `n` above 0,
/// the blank line and `n` bytes leave the reader done, with those bytes as its body.
pub proof fn length_body_read_back(m: ReadModel, blank: Seq<char>, bytes: Seq<u8>)
    requires
        m.phase == ReadPhase::Headers,
        framing_of(m.headers) == BodyFraming::Length(bytes.len() as usize),
        bytes.len() <= usize::MAX,
        trim_text(blank).len() == 0,
    ensures
        read_all(m, seq![ReadInput::Line(blank), ReadInput::Bytes(bytes)]) == (ReadModel {
            phase: ReadPhase::Done,
            request: m.request,
            headers: m.headers,
            body: m.body + bytes,
        }),
{
    let l = ReadInput::Line(blank);
    let two = seq![l, ReadInput::Bytes(bytes)];
    let m1 = read_step(m, l);
    assert(m1.phase == ReadPhase::Body(bytes.len() as usize));
    lemma_read_one(m, l);
    lemma_read_push(m, seq![l], ReadInput::Bytes(bytes));
    assert(seq![l].push(ReadInput::Bytes(bytes)) =~= two);
}

/// The chunked coding and the length give the same body: a request whose chunks
/// are sent chunked, and one whose same bytes are sent with their length, are
/// read to the same body.
pub proof fn chunked_same_as_length(
    chunked: ReadModel,
    by_length: ReadModel,
    blank: Seq<char>,
    chunks: Seq<Seq<u8>>,
)
    requires
        chunked.phase == ReadPhase::Headers,
        by_length.phase == ReadPhase::Headers,
        chunked.body == by_length.body,
        framing_of(chunked.headers) == BodyFraming::Chunked,
        framing_of(by_length.headers) == BodyFraming::Length(joined_chunks(chunks).len() as usize),
        joined_chunks(chunks).len() <= usize::MAX,
        trim_text(blank).len() == 0,
        forall|i: int| 0 <= i < chunks.len() ==> 1 <= (#[trigger] chunks[i]).len() <= usize::MAX,
    ensures
        read_all(chunked, seq![ReadInput::Line(blank)] + chunked_body_reads(chunks)).body
            == read_all(
            by_length,
            seq![ReadInput::Line(blank), ReadInput::Bytes(joined_chunks(chunks))],
        ).body,
{
    chunked_body_read_back(chunked, blank, chunks);
    length_body_read_back(by_length, blank, joined_chunks(chunks));
}

/// A blank line ends the headers, and the headers alone decide what follows: a
/// body of the announced length when it is above 0, else chunks when so announced,
/// else nothing: the request is complete and no more is read.
pub proof fn blank_line_ends_headers(m: ReadModel, blank: Seq<char>)
    requires
        m.phase == ReadPhase::Headers,
        all_white(blank),
    ensures
        read_step(m, ReadInput::Line(blank)) == (ReadModel {
            phase: if m.headers.content_length > 0 {
                ReadPhase::Body(m.headers.content_length)
            } else if m.headers.chunked {
                ReadPhase::ChunkSize
            } else {
                ReadPhase::Done
            },
            ..m
        }),
        m.headers.content_length == 0 && !m.headers.chunked ==> next_read_of(
            read_step(m, ReadInput::Line(blank)).phase,
        ) == NextRead::Stop,
{
    crate::text::lemma_trim_empty(blank);
}

/// The reads of the lines `lines`, in order.
pub open spec fn line_reads(lines: Seq<Seq<char>>) -> Seq<ReadInput> {
    lines.map_values(|l: Seq<char>| ReadInput::Line(l))
}

proof fn lemma_plain_headers(m: ReadModel, lines: Seq<Seq<char>>)
    requires
        m.phase == ReadPhase::Headers,
        m.headers.content_length == 0,
        forall|i: int| 0 <= i < lines.len() ==> !all_white(#[trigger] lines[i]),
        forall|i: int|
            0 <= i < lines.len() ==> !is_chunked_header(#[trigger] lines[i]) && (is_length_header(
                lines[i],
            ) ==> announced_length(lines[i]) == 0),
    ensures
        read_all(m, line_reads(lines)) == m,
    decreases lines.len(),
{
    if lines.len() > 0 {
        let rest = lines.drop_last();
        assert forall|i: int| 0 <= i < rest.len() implies !all_white(#[trigger] rest[i]) by {
            assert(rest[i] == lines[i]);
        }
        assert forall|i: int| 0 <= i < rest.len() implies !is_chunked_header(#[trigger] rest[i]) && (
        is_length_header(rest[i]) ==> announced_length(rest[i]) == 0) by {
            assert(rest[i] == lines[i]);
        }
        lemma_plain_headers(m, rest);
        assert(line_reads(lines).drop_last() =~= line_reads(rest));
        let l = lines[lines.len() - 1];
        assert(line_reads(lines).last() == ReadInput::Line(l));
        assert(trim_text(l).len() != 0) by {
            crate::text::lemma_trim_empty(l);
        }
        assert(!is_chunked_header(l));
    }
}

/// A request without a body is complete at its blank line: after header lines
/// none of which announces a length above 0 or a chunked body, a blank line
/// leaves the reader done, with its request line, headers and body unchanged,
/// and nothing more is read.
pub proof fn bodyless_request_is_complete(m: ReadModel, lines: Seq<Seq<char>>, blank: Seq<char>)
    requires
        m.phase == ReadPhase::Headers,
        m.headers.content_length == 0,
        !m.headers.chunked,
        forall|i: int| 0 <= i < lines.len() ==> !all_white(#[trigger] lines[i]),
        forall|i: int|
            0 <= i < lines.len() ==> !is_chunked_header(#[trigger] lines[i]) && (is_length_header(
                lines[i],
            ) ==> announced_length(lines[i]) == 0),
        all_white(blank),
    ensures
        read_all(m, line_reads(lines).push(ReadInput::Line(blank))) == (ReadModel {
            phase: ReadPhase::Done,
            ..m
        }),
        next_read_of(ReadPhase::Done) == NextRead::Stop,
{
    lemma_plain_headers(m, lines);
    lemma_read_push(m, line_reads(lines), ReadInput::Line(blank));
    blank_line_ends_headers(m, blank);
}

// ---------------------------------------------------------------------------
// Routing
/// The handler that a request goes to.
#[derive(PartialEq, Eq, Structural, Debug, Clone, Copy)]
pub enum Route {
    /// The health check; `head` when only the headers are wanted.
    Hello { head: bool },
    /// The model list.
    Models,
    /// A conversation turn for the agent.
    Messages,
    /// A CORS preflight.
    Preflight,
    /// Anything else.
    NotFound,
}

/// The handler for method `m` and target `p`.
pub open spec fn route_for(m: Seq<char>, p: Seq<char>) -> Route {
    if (m == "HEAD"@ || m == "GET"@) && p == "/api/hello"@ {
        Route::Hello { head: m == "HEAD"@ }
    } else if m == "GET"@ && (p == "/v1/models"@ || p == "/models"@) {
        Route::Models
    } else if m == "POST"@ && (has_prefix(p, "/v1/messages"@) || has_prefix(p, "/messages"@)) {
        Route::Messages
    } else if m == "OPTIONS"@ {
        Route::Preflight
    } else {
        Route::NotFound
    }
}

/// Chooses the handler for a request.
pub fn route(method: &str, path: &str) -> (r: Route)
    ensures
        r == route_for(method@, path@),
{
    let m = chars_of(method);
    let p = chars_of(path);
    let head = slice_eq(m.as_slice(), chars_of("HEAD").as_slice());
    let get = slice_eq(m.as_slice(), chars_of("GET").as_slice());
    if (head || get) && slice_eq(p.as_slice(), chars_of("/api/hello").as_slice()) {
        return Route::Hello { head };
    }
    if get && (slice_eq(p.as_slice(), chars_of("/v1/models").as_slice()) || slice_eq(
        p.as_slice(),
        chars_of("/models").as_slice(),
    )) {
        return Route::Models;
    }
    if slice_eq(m.as_slice(), chars_of("POST").as_slice()) && (starts_with(
        p.as_slice(),
        chars_of("/v1/messages").as_slice(),
    ) || starts_with(p.as_slice(), chars_of("/messages").as_slice())) {
        return Route::Messages;
    }
    if slice_eq(m.as_slice(), chars_of("OPTIONS").as_slice()) {
        return Route::Preflight;
    }
    Route::NotFound
}

/// Every `POST` whose target begins with `/v1/messages` or `/messages`, whatever
/// follows (a query, a further path such as `/count_tokens`, or nothing), is a
/// conversation turn for the agent.
pub proof fn message_targets_reach_agent(rest: Seq<char>)
    ensures
        route_for("POST"@, "/v1/messages"@ + rest) == Route::Messages,
        route_for("POST"@, "/messages"@ + rest) == Route::Messages,
{
    reveal_strlit("POST");
    reveal_strlit("HEAD");
    reveal_strlit("GET");
    reveal_strlit("/v1/messages");
    reveal_strlit("/messages");
    assert("POST"@[0] != "HEAD"@[0]);
    assert("POST"@.len() != "GET"@.len());
    assert(("/v1/messages"@ + rest).subrange(0, "/v1/messages"@.len() as int) =~= "/v1/messages"@);
    assert(("/messages"@ + rest).subrange(0, "/messages"@.len() as int) =~= "/messages"@);
}

/// `GET` answers the health check and the model list (at `/v1/models` or
/// `/models`) and nothing else; `HEAD` answers the health check alone, without
/// its body.
pub proof fn get_and_head_routes(p: Seq<char>)
    ensures
        route_for("GET"@, p) == (if p == "/api/hello"@ {
            Route::Hello { head: false }
        } else if p == "/v1/models"@ || p == "/models"@ {
            Route::Models
        } else {
            Route::NotFound
        }),
        route_for("HEAD"@, p) == (if p == "/api/hello"@ {
            Route::Hello { head: true }
        } else {
            Route::NotFound
        }),
{
    reveal_strlit("POST");
    reveal_strlit("HEAD");
    reveal_strlit("GET");
    reveal_strlit("OPTIONS");
    assert("GET"@.len() != "HEAD"@.len());
    assert("GET"@.len() != "POST"@.len());
    assert("GET"@.len() != "OPTIONS"@.len());
    assert("HEAD"@[0] != "POST"@[0]);
    assert("HEAD"@.len() != "OPTIONS"@.len());
}

/// Only `POST` reaches the agent, and `OPTIONS` is always a preflight.
pub proof fn only_post_reaches_agent(m: Seq<char>, p: Seq<char>)
    ensures
        route_for(m, p) == Route::Messages ==> m == "POST"@,
        m == "OPTIONS"@ ==> route_for(m, p) == Route::Preflight,
{
    reveal_strlit("POST");
    reveal_strlit("HEAD");
    reveal_strlit("GET");
    reveal_strlit("OPTIONS");
    assert("OPTIONS"@.len() != "HEAD"@.len());
    assert("OPTIONS"@.len() != "GET"@.len());
    assert("OPTIONS"@.len() != "POST"@.len());
}

// ---------------------------------------------------------------------------
// Responses
/// The answer to a CORS preflight.
pub const PREFLIGHT_RESPONSE: &'static str = "HTTP/1.1 204 No Content\r\nAccess-Control-Allow-Origin: *\r\nAccess-Control-Allow-Methods: GET, POST, OPTIONS\r\nAccess-Control-Allow-Headers: *\r\nContent-Length: 0\r\n\r\n";

/// The answer to an unknown request.
pub const NOT_FOUND_RESPONSE: &'static str = "HTTP/1.1 404 Not Found\r\nContent-Length: 2\r\n\r\n{}";

/// The body of the health check.
pub const HELLO_BODY: &'static str = "{\"status\":\"ok\"}";

/// The model list.
pub const MODELS_BODY: &'static str = "{\"data\":[\n        {\"type\":\"model\",\"id\":\"cursor-auto\",\"display_name\":\"Cursor Auto\"},\n        {\"type\":\"model\",\"id\":\"cursor-smart\",\"display_name\":\"Cursor Smart\"},\n        {\"type\":\"model\",\"id\":\"default\",\"display_name\":\"Default\"}\n    ]}";

/// The head of an event stream.
pub const EVENT_STREAM_HEAD: &'static str = "HTTP/1.1 200 OK\r\nContent-Type: text/event-stream\r\nCache-Control: no-cache\r\nConnection: keep-alive\r\nAccess-Control-Allow-Origin: *\r\n\r\n";

/// The number of bytes of the UTF-8 encoding of `s`.
pub open spec fn utf8_len(s: Seq<char>) -> nat {
    encode_utf8(s).len()
}

/// The line that announces a body of `n` bytes, without its line break.
pub open spec fn length_line(n: nat) -> Seq<char> {
    "Content-Length: "@ + decimal_text(n)
}

/// A JSON response with status `status` whose `Content-Length` is the byte length of `body`.
pub open spec fn json_response_text(status: Seq<char>, body: Seq<char>) -> Seq<char> {
    "HTTP/1.1 "@ + status + "\r\nContent-Type: application/json\r\n"@ + length_line(utf8_len(body))
        + "\r\n\r\n"@ + body
}

/// Writes a JSON response with status `status` and body `body`.
pub fn json_response(status: &str, body: &str) -> (r: String)
    ensures
        r@ == json_response_text(status@, body@),
{
    let mut r = String::new();
    r.append("HTTP/1.1 ");
    r.append(status);
    r.append("\r\nContent-Type: application/json\r\n");
    r.append("Content-Length: ");
    let n = body.as_bytes().len();
    assert(n as nat == utf8_len(body@));
    push_decimal(&mut r, n as u64);
    r.append("\r\n\r\n");
    r.append(body);
    assert(r@ =~= json_response_text(status@, body@));
    r
}

/// The answer to the health check, by the process `pid`; without a body for `head`.
pub open spec fn hello_response_text(head: bool, pid: nat) -> Seq<char> {
    "HTTP/1.1 200 OK\r\nContent-Type: application/json\r\n"@ + length_line(utf8_len(HELLO_BODY@))
        + "\r\nx-request-id: ccp-"@ + decimal_text(pid) + "\r\n\r\n"@ + (if head {
        Seq::empty()
    } else {
        HELLO_BODY@
    })
}

/// Answers the health check.
pub fn hello_response(head: bool, pid: u32) -> (r: String)
    ensures
        r@ == hello_response_text(head, pid as nat),
{
    let mut r = String::new();
    r.append("HTTP/1.1 200 OK\r\nContent-Type: application/json\r\n");
    r.append("Content-Length: ");
    let n = HELLO_BODY.as_bytes().len();
    assert(n as nat == utf8_len(HELLO_BODY@));
    push_decimal(&mut r, n as u64);
    r.append("\r\nx-request-id: ccp-");
    push_decimal(&mut r, pid as u64);
    r.append("\r\n\r\n");
    if !head {
        r.append(HELLO_BODY);
    }
    assert(r@ =~= hello_response_text(head, pid as nat));
    r
}

/// Answers a request for the model list.
pub fn models_response() -> (r: String)
    ensures
        r@ == json_response_text("200 OK"@, MODELS_BODY@),
{
    json_response("200 OK", MODELS_BODY)
}

/// The body of the answer when the agent cannot be started, with the reason `err`
/// put in as it is.
pub open spec fn agent_error_body(err: Seq<char>) -> Seq<char> {
    "{\"error\":\"agent: "@ + err + "\"}"@
}

/// Answers a conversation turn for which the agent could not be started.
pub fn agent_error_response(err: &str) -> (r: String)
    ensures
        r@ == json_response_text("500"@, agent_error_body(err@)),
{
    let mut body = String::new();
    body.append("{\"error\":\"agent: ");
    body.append(err);
    body.append("\"}");
    json_response("500", body.as_str())
}

proof fn lemma_fold_single(s: Seq<char>)
    requires
        forall|i: int| 0 <= i < s.len() ==> (#[trigger] s[i]) as u32 != 0x130,
    ensures
        fold_text(s).len() == s.len(),
        forall|i: int| 0 <= i < s.len() ==> #[trigger] fold_text(s)[i] == fold_char(s[i])[0],
    decreases s.len(),
{
    if s.len() > 0 {
        let r = s.drop_last();
        assert forall|i: int| 0 <= i < r.len() implies (#[trigger] r[i]) as u32 != 0x130 by {
            assert(r[i] == s[i]);
        }
        lemma_fold_single(r);
        assert(fold_char(s.last()).len() == 1);
        assert forall|i: int| 0 <= i < s.len() implies #[trigger] fold_text(s)[i] == fold_char(
            s[i],
        )[0] by {
            if i < s.len() - 1 {
                assert(fold_text(s)[i] == fold_text(r)[i]);
                assert(r[i] == s[i]);
            }
        }
    }
}

/// What a response announces is what the header reader takes from it: the
/// `Content-Length` line for `n`, with its line break, is a length header whose
/// value is `n`.
pub proof fn announced_length_read_back(n: nat)
    requires
        n <= usize::MAX,
    ensures
        is_length_header(length_line(n) + "\r\n"@),
        announced_length(length_line(n) + "\r\n"@) == n,
{
    reveal_strlit("Content-Length: ");
    reveal_strlit("\r\n");
    reveal_strlit("content-length:");
    let d = decimal_text(n);
    crate::number::decimal_chars(n);
    crate::number::decimal_round_trip(n);
    let key = "Content-Length: "@;
    let line = length_line(n) + "\r\n"@;
    assert(line.len() == 16 + d.len() + 2);
    assert forall|i: int| 0 <= i < 16 implies #[trigger] line[i] == key[i] by {}
    assert forall|i: int| 16 <= i < 16 + d.len() implies #[trigger] line[i] == d[i - 16] by {}
    assert(line[16 + d.len() as int] == '\r');
    assert(line[17 + d.len() as int] == '\n');
    assert forall|i: int| 0 <= i < line.len() implies (#[trigger] line[i]) as u32 != 0x130 by {
        if 16 <= i < 16 + d.len() {
            assert(48 <= d[i - 16] as u32 <= 57);
        }
    }
    lemma_fold_single(line);
    let f = fold_text(line);
    assert(f.subrange(0, 15) =~= "content-length:"@) by {
        assert forall|i: int| 0 <= i < 15 implies #[trigger] f[i] == "content-length:"@[i] by {
            assert(f[i] == fold_char(line[i])[0]);
        }
    }
    // the field after the colon
    assert forall|m: int| 0 <= m < 14 implies #[trigger] line[m] != ':' by {}
    lemma_find_from_unique(line, ':', 0, 14);
    assert forall|m: int| 15 <= m < line.len() implies #[trigger] line[m] != ':' by {
        if 16 <= m < 16 + d.len() {
            assert(48 <= d[m - 16] as u32 <= 57);
        }
    }
    lemma_find_from_unique(line, ':', 15, line.len() as int);
    let field = line.subrange(15, line.len() as int);
    assert(field[0] == ' ');
    assert(d.len() >= 1) by {
        assert(parse_unsigned(d, 10) is Some);
    }
    assert(!is_white_space(field[1])) by {
        assert(field[1] == d[0]);
        assert(48 <= d[0] as u32 <= 57);
    }
    crate::text::lemma_skip_white_unique(field, 0, 1);
    assert(!is_white_space(field[field.len() - 3])) by {
        assert(field[field.len() - 3] == d[d.len() - 1]);
        assert(48 <= d[d.len() - 1] as u32 <= 57);
    }
    assert forall|m: int| field.len() - 2 <= m < field.len() implies is_white_space(
        #[trigger] field[m],
    ) by {}
    crate::text::lemma_back_white_unique(field, field.len() as int, field.len() - 2);
    assert(trim_text(field) =~= d);
}

} // verus!
