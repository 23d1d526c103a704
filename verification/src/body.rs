//! Skipping the body of a response, so that the next response on the connection can be read.

use vstd::prelude::*;
use vstd::utf8::*;

use crate::http1::{find_line_end, BufferedStream, HttpError, ResponseHead, READ_SIZE};
use crate::number::parse_number;
use crate::text::{characters, find, trimmed, utf8_text};

verus! {

/// The largest number of bytes that are read at once for a line of a chunked body.
pub const LINE_READ_SIZE: usize = 1024;

/// The length from which a line of a chunked body that does not end is too long.
pub const MAX_LINE: usize = 8192;

/// The length from which something other than a line break behind a chunk is an error.
pub const MAX_CHUNK_END: usize = 2;

/// What is still to be skipped of a response body.
#[derive(Clone, Copy, Debug, PartialEq, Eq, Structural)]
pub enum BodyDrain {
    /// This many bytes, and nothing behind them.
    Exact(usize),
    /// A chunked body from the line with the size of a chunk on.
    ChunkSize,
    /// A chunked body from within a chunk on, of which this many bytes are left.
    ChunkData(usize),
    /// A chunked body from the line break behind a chunk on.
    ChunkEnd,
    /// The lines behind the last chunk, up to an empty one.
    Trailer,
}

/// What has to happen before the rest of a body can be skipped.
#[derive(Clone, Copy, Debug, PartialEq, Eq, Structural)]
pub enum DrainProgress {
    /// Nothing: the body is behind us.
    Done,
    /// At most this many bytes are to be read.
    Read(usize),
}

/// How a body is framed: chunked, or with an announced length, or else empty.
pub open spec fn framing(response: crate::http1::ResponseHeadView) -> Result<BodyDrain, HttpError> {
    if response.chunked() {
        Ok(BodyDrain::ChunkSize)
    } else {
        match response.announced_length() {
            Ok(Some(length)) => Ok(BodyDrain::Exact(length as usize)),
            Ok(None) => Ok(BodyDrain::Exact(0)),
            Err(error) => Err(error),
        }
    }
}

/// The size that the line in front of a chunk gives: hexadecimal digits, and extensions behind a
/// semicolon.
pub open spec fn chunk_size(line: Seq<u8>) -> Option<int> {
    if valid_utf8(line) {
        let text = decode_utf8(line);
        let digits = crate::text::trim(text.take(crate::text::first_index(text, ';')));
        match crate::number::parsed(digits, 16, usize::MAX as int) {
            Ok(size) => Some(size),
            Err(_) => None,
        }
    } else {
        None
    }
}

/// What looking for a line at the front of a buffer comes to.
pub enum Line {
    /// A line, without its line break, and what follows it.
    Found(Seq<u8>, Seq<u8>),
    /// The line has not ended yet.
    Unfinished,
    /// The line has not ended, and it is too long.
    TooLong,
}

/// The line at the front of `buffer`.
pub open spec fn first_line(buffer: Seq<u8>, max_bytes: int) -> Line {
    match crate::http1::first_match(buffer, crate::http1::line_break()) {
        Some(n) => Line::Found(buffer.take(n), buffer.skip(n + 2)),
        None => if buffer.len() >= max_bytes {
            Line::TooLong
        } else {
            Line::Unfinished
        },
    }
}

/// One move of skipping a body.
pub enum DrainMove {
    /// Go on in this state with this buffer.
    Next(BodyDrain, Seq<u8>),
    /// Nothing can be done before more bytes arrive, of which at most so many are to be read.
    Wait(int),
    /// The body ends in front of these bytes.
    Done(Seq<u8>),
    /// The body is malformed; these bytes have not been looked at.
    Malformed(Seq<u8>),
}

/// How many bytes to read next, of `count` that are still to be skipped.
pub open spec fn read_size(count: int) -> int {
    if count < READ_SIZE {
        count
    } else {
        READ_SIZE as int
    }
}

/// The move that a state and a buffer call for.
pub open spec fn drain_move(state: BodyDrain, buffer: Seq<u8>) -> DrainMove {
    match state {
        BodyDrain::Exact(count) => if count <= buffer.len() {
            DrainMove::Done(buffer.skip(count as int))
        } else if buffer.len() > 0 {
            DrainMove::Next(BodyDrain::Exact((count - buffer.len()) as usize), seq![])
        } else {
            DrainMove::Wait(read_size(count as int))
        },
        BodyDrain::ChunkSize => match first_line(buffer, MAX_LINE as int) {
            Line::Found(line, rest) => match chunk_size(line) {
                None => DrainMove::Malformed(rest),
                Some(size) => if size == 0 {
                    DrainMove::Next(BodyDrain::Trailer, rest)
                } else {
                    DrainMove::Next(BodyDrain::ChunkData(size as usize), rest)
                },
            },
            Line::Unfinished => DrainMove::Wait(LINE_READ_SIZE as int),
            Line::TooLong => DrainMove::Malformed(buffer),
        },
        BodyDrain::ChunkData(count) => if count <= buffer.len() {
            DrainMove::Next(BodyDrain::ChunkEnd, buffer.skip(count as int))
        } else if buffer.len() > 0 {
            DrainMove::Next(BodyDrain::ChunkData((count - buffer.len()) as usize), seq![])
        } else {
            DrainMove::Wait(read_size(count as int))
        },
        BodyDrain::ChunkEnd => match first_line(buffer, MAX_CHUNK_END as int) {
            Line::Found(line, rest) => if line.len() == 0 {
                DrainMove::Next(BodyDrain::ChunkSize, rest)
            } else {
                DrainMove::Malformed(rest)
            },
            Line::Unfinished => DrainMove::Wait(LINE_READ_SIZE as int),
            Line::TooLong => DrainMove::Malformed(buffer),
        },
        BodyDrain::Trailer => match first_line(buffer, MAX_LINE as int) {
            Line::Found(line, rest) => if line.len() == 0 {
                DrainMove::Done(rest)
            } else {
                DrainMove::Next(BodyDrain::Trailer, rest)
            },
            Line::Unfinished => DrainMove::Wait(LINE_READ_SIZE as int),
            Line::TooLong => DrainMove::Malformed(buffer),
        },
    }
}

/// Where skipping a body comes to a halt.
pub enum Drained {
    /// More bytes are needed: the state, the buffer, and how many bytes to read at most.
    Waiting(BodyDrain, Seq<u8>, int),
    /// The body ends in front of these bytes.
    Done(Seq<u8>),
    /// The body is malformed; these bytes have not been looked at.
    Malformed(Seq<u8>),
}

/// Orders the states in which a move may leave the buffer as it is.
pub open spec fn rank(state: BodyDrain) -> int {
    if state is ChunkData {
        1
    } else {
        0
    }
}

/// Moves until it comes to a halt.
pub open spec fn drained(state: BodyDrain, buffer: Seq<u8>) -> Drained
    decreases buffer.len(), rank(state),
    via drained_decreases
{
    match drain_move(state, buffer) {
        DrainMove::Next(next_state, next_buffer) => drained(next_state, next_buffer),
        DrainMove::Wait(wanted) => Drained::Waiting(state, buffer, wanted),
        DrainMove::Done(rest) => Drained::Done(rest),
        DrainMove::Malformed(rest) => Drained::Malformed(rest),
    }
}

/// A line and its line break are shorter than a buffer that holds them.
proof fn lemma_line(buffer: Seq<u8>, max_bytes: int)
    ensures
        first_line(buffer, max_bytes) matches Line::Found(line, rest) ==> line.len() + 2
            + rest.len() == buffer.len() && buffer == line + crate::http1::line_break() + rest,
{
    crate::http1::lemma_first_match(buffer, crate::http1::line_break());
    if let Some(n) = crate::http1::first_match(buffer, crate::http1::line_break()) {
        assert(buffer.subrange(n, n + 2) == crate::http1::line_break());
        assert(buffer == buffer.take(n) + buffer.subrange(n, n + 2) + buffer.skip(n + 2));
    }
}

#[via_fn]
proof fn drained_decreases(state: BodyDrain, buffer: Seq<u8>) {
    lemma_line(buffer, MAX_LINE as int);
    lemma_line(buffer, MAX_CHUNK_END as int);
}

/// Reads the size in the line in front of a chunk.
fn read_chunk_size(line: &[u8]) -> (size: Option<usize>)
    ensures
        match size {
            Some(n) => chunk_size(line@) == Some(n as int),
            None => chunk_size(line@) is None,
        },
{
    match utf8_text(line) {
        None => None,
        Some(text) => {
            let chars = characters(text);
            let end = find(chars.as_slice(), ';');
            let digits = vstd::slice::slice_subrange(chars.as_slice(), 0, end);
            assert(digits@ == text@.take(end as int));
            match parse_number(trimmed(digits), 16, usize::MAX) {
                Ok(size) => Some(size),
                Err(_) => None,
            }
        },
    }
}

impl BodyDrain {
    /// What is to be skipped behind the head of `response`.
    pub fn new(response: &ResponseHead) -> (drain: Result<BodyDrain, HttpError>)
        ensures
            drain == framing(response@),
    {
        if response.is_chunked() {
            return Ok(BodyDrain::ChunkSize);
        }
        match response.content_length() {
            Ok(Some(length)) => Ok(BodyDrain::Exact(length)),
            Ok(None) => Ok(BodyDrain::Exact(0)),
            Err(error) => Err(error),
        }
    }
}

impl BufferedStream {
    /// Takes a line off the front of the buffer.
    fn read_line(&mut self, max_bytes: usize) -> (line: Result<Option<Vec<u8>>, HttpError>)
        ensures
            match first_line(old(self)@, max_bytes as int) {
                Line::Found(text, rest) => line matches Ok(Some(l)) && l@ == text && final(self)@
                    == rest,
                Line::Unfinished => line == Ok::<Option<Vec<u8>>, HttpError>(None) && final(self)@
                    == old(self)@,
                Line::TooLong => line == Err::<Option<Vec<u8>>, HttpError>(
                    HttpError::InvalidChunkedBody,
                ) && final(self)@ == old(self)@,
            },
    {
        let buffered = self.bytes().len();
        match find_line_end(self.bytes()) {
            Some(index) => {
                let mut line = self.remove_front(index + 2);
                line.truncate(index);
                Ok(Some(line))
            },
            None => if buffered >= max_bytes {
                Err(HttpError::InvalidChunkedBody)
            } else {
                Ok(None)
            },
        }
    }

    /// Drops up to `count` bytes off the front of the buffer, and tells how many are still to go.
    fn discard(&mut self, count: usize) -> (remaining: usize)
        ensures
            if count <= old(self)@.len() {
                remaining == 0 && final(self)@ == old(self)@.skip(count as int)
            } else {
                remaining == count - old(self)@.len() && final(self)@ == Seq::<u8>::empty()
            },
    {
        let buffered = self.bytes().len();
        if count <= buffered {
            let _ = self.remove_front(count);
            0
        } else {
            let _ = self.remove_front(buffered);
            assert(old(self)@.skip(buffered as int) == Seq::<u8>::empty());
            count - buffered
        }
    }

    /// Skips as much of a response body as has arrived, and tells what has to happen next.
    pub fn drain_response_body(&mut self, drain: &mut BodyDrain) -> (progress: Result<
        DrainProgress,
        HttpError,
    >)
        ensures
            match drained(*old(drain), old(self)@) {
                Drained::Waiting(state, buffer, wanted) => {
                    &&& *final(drain) == state
                    &&& final(self)@ == buffer
                    &&& progress == Ok::<DrainProgress, HttpError>(
                        DrainProgress::Read(wanted as usize),
                    )
                },
                Drained::Done(rest) => {
                    &&& final(self)@ == rest
                    &&& progress == Ok::<DrainProgress, HttpError>(DrainProgress::Done)
                },
                Drained::Malformed(rest) => {
                    &&& final(self)@ == rest
                    &&& progress == Err::<DrainProgress, HttpError>(HttpError::InvalidChunkedBody)
                },
            },
    {
        loop
            invariant
                drained(*drain, self@) == drained(*old(drain), old(self)@),
            decreases self@.len(), rank(*drain),
        {
            let ghost buffer = self@;
            proof {
                lemma_line(buffer, MAX_LINE as int);
                lemma_line(buffer, MAX_CHUNK_END as int);
            }
            match *drain {
                BodyDrain::Exact(count) => {
                    let buffered = self.bytes().len();
                    let remaining = self.discard(count);
                    if remaining == 0 {
                        return Ok(DrainProgress::Done);
                    }
                    *drain = BodyDrain::Exact(remaining);
                    if buffered == 0 {
                        return Ok(
                            DrainProgress::Read(
                                if remaining < READ_SIZE {
                                    remaining
                                } else {
                                    READ_SIZE
                                },
                            ),
                        );
                    }
                },
                BodyDrain::ChunkSize => match self.read_line(MAX_LINE) {
                    Err(error) => return Err(error),
                    Ok(None) => return Ok(DrainProgress::Read(LINE_READ_SIZE)),
                    Ok(Some(line)) => match read_chunk_size(line.as_slice()) {
                        None => return Err(HttpError::InvalidChunkedBody),
                        Some(size) => {
                            *drain = if size == 0 {
                                BodyDrain::Trailer
                            } else {
                                BodyDrain::ChunkData(size)
                            };
                        },
                    },
                },
                BodyDrain::ChunkData(count) => {
                    let buffered = self.bytes().len();
                    let remaining = self.discard(count);
                    if remaining == 0 {
                        *drain = BodyDrain::ChunkEnd;
                    } else {
                        *drain = BodyDrain::ChunkData(remaining);
                        if buffered == 0 {
                            return Ok(
                                DrainProgress::Read(
                                    if remaining < READ_SIZE {
                                        remaining
                                    } else {
                                        READ_SIZE
                                    },
                                ),
                            );
                        }
                    }
                },
                BodyDrain::ChunkEnd => match self.read_line(MAX_CHUNK_END) {
                    Err(error) => return Err(error),
                    Ok(None) => return Ok(DrainProgress::Read(LINE_READ_SIZE)),
                    Ok(Some(line)) => {
                        if line.len() > 0 {
                            return Err(HttpError::InvalidChunkedBody);
                        }
                        *drain = BodyDrain::ChunkSize;
                    },
                },
                BodyDrain::Trailer => match self.read_line(MAX_LINE) {
                    Err(error) => return Err(error),
                    Ok(None) => return Ok(DrainProgress::Read(LINE_READ_SIZE)),
                    Ok(Some(line)) => {
                        if line.len() == 0 {
                            return Ok(DrainProgress::Done);
                        }
                    },
                },
            }
        }
    }
}

/// A line that has been found stays the same when more bytes arrive.
proof fn lemma_line_is_final(buffer: Seq<u8>, more: Seq<u8>, max_bytes: int)
    ensures
        first_line(buffer, max_bytes) matches Line::Found(line, rest) ==> first_line(
            buffer + more,
            max_bytes,
        ) == Line::Found(line, rest + more),
{
    let pattern = crate::http1::line_break();
    if let Some(n) = crate::http1::first_match(buffer, pattern) {
        crate::http1::lemma_first_match(buffer, pattern);
        crate::http1::law_match_is_final(buffer, more, pattern);
        assert((buffer + more).take(n) == buffer.take(n));
        assert((buffer + more).skip(n + 2) == buffer.skip(n + 2) + more);
    }
}

/// However the bytes of a body arrive, skipping it comes to the same: to go on where skipping the
/// first bytes has halted is to skip all of them at once.
pub proof fn law_pieces_do_not_matter(state: BodyDrain, buffer: Seq<u8>, more: Seq<u8>)
    requires
        drained(state, buffer) is Waiting,
    ensures
        drained(state, buffer + more) == drained(
            drained(state, buffer)->Waiting_0,
            drained(state, buffer)->Waiting_1 + more,
        ),
    decreases buffer.len(), rank(state),
{
    lemma_line(buffer, MAX_LINE as int);
    lemma_line(buffer, MAX_CHUNK_END as int);
    if let DrainMove::Next(next_state, next_buffer) = drain_move(state, buffer) {
        law_pieces_do_not_matter(next_state, next_buffer, more);
        lemma_line_is_final(buffer, more, MAX_LINE as int);
        lemma_line_is_final(buffer, more, MAX_CHUNK_END as int);
        let all = buffer + more;
        match state {
            BodyDrain::ChunkData(count) | BodyDrain::Exact(count) => {
                if count <= buffer.len() {
                    assert(all.skip(count as int) == buffer.skip(count as int) + more);
                } else {
                    assert(next_buffer + more == more);
                    if count <= all.len() {
                        assert(all.skip(count as int) == more.skip(count - buffer.len()));
                    } else if more.len() == 0 {
                        assert(all == buffer);
                    }
                }
            },
            _ => {},
        }
    }
}

/// One chunk: the line with its size, and its data.
pub open spec fn valid_chunk(chunk: (Seq<u8>, Seq<u8>)) -> bool {
    &&& crate::http1::first_match(chunk.0, crate::http1::line_break()) is None
    &&& chunk_size(chunk.0) == Some(chunk.1.len() as int)
    &&& chunk.1.len() > 0
}

/// A line behind the last chunk.
pub open spec fn valid_trailer(line: Seq<u8>) -> bool {
    crate::http1::first_match(line, crate::http1::line_break()) is None && line.len() > 0
}

/// A chunked body: its chunks, the line of the last chunk, which has no data, and trailer lines.
pub struct ChunkedBody {
    pub chunks: Seq<(Seq<u8>, Seq<u8>)>,
    pub last: Seq<u8>,
    pub trailers: Seq<Seq<u8>>,
}

/// The trailer lines and the empty line that ends a chunked body.
pub open spec fn trailer_bytes(trailers: Seq<Seq<u8>>) -> Seq<u8>
    decreases trailers.len(),
{
    if trailers.len() == 0 {
        crate::http1::line_break()
    } else {
        trailers[0] + crate::http1::line_break() + trailer_bytes(trailers.drop_first())
    }
}

impl ChunkedBody {
    /// Whether the parts make up a chunked body.
    pub open spec fn valid(self) -> bool {
        &&& forall|i: int| 0 <= i < self.chunks.len() ==> valid_chunk(#[trigger] self.chunks[i])
        &&& crate::http1::first_match(self.last, crate::http1::line_break()) is None
        &&& chunk_size(self.last) == Some(0int)
        &&& forall|i: int|
            0 <= i < self.trailers.len() ==> valid_trailer(#[trigger] self.trailers[i])
    }

    /// Whether each line fits into the limit together with its line break.
    pub open spec fn short_lines(self) -> bool {
        &&& forall|i: int|
            0 <= i < self.chunks.len() ==> (#[trigger] self.chunks[i]).0.len() + 2 <= MAX_LINE
        &&& self.last.len() + 2 <= MAX_LINE
        &&& forall|i: int|
            0 <= i < self.trailers.len() ==> (#[trigger] self.trailers[i]).len() + 2 <= MAX_LINE
    }

    /// The bytes of the body.
    pub open spec fn bytes(self) -> Seq<u8>
        decreases self.chunks.len(),
    {
        if self.chunks.len() == 0 {
            self.last + crate::http1::line_break() + trailer_bytes(self.trailers)
        } else {
            self.chunks[0].0 + crate::http1::line_break() + self.chunks[0].1
                + crate::http1::line_break() + self.without_first().bytes()
        }
    }

    /// The body without its first chunk.
    pub open spec fn without_first(self) -> ChunkedBody {
        ChunkedBody { chunks: self.chunks.drop_first(), ..self }
    }
}

/// No line break begins within a line that holds none.
proof fn lemma_no_break_before(line: Seq<u8>, rest: Seq<u8>, i: int)
    requires
        crate::http1::first_match(line, crate::http1::line_break()) is None,
        0 <= i < line.len(),
    ensures
        !crate::http1::matches_at(
            line + crate::http1::line_break() + rest,
            crate::http1::line_break(),
            i,
        ),
{
    let pattern = crate::http1::line_break();
    let all = line + pattern + rest;
    if crate::http1::matches_at(all, pattern, i) {
        let window = all.subrange(i, i + 2);
        assert(window[0] == all[i] && window[1] == all[i + 1]);
        assert(window[1] == 10);
        if i + 2 <= line.len() {
            crate::http1::lemma_first_match(line, pattern);
            assert(line.subrange(i, i + 2) == window);
            assert(crate::http1::matches_at(line, pattern, i));
        } else {
            assert(all[i + 1] == pattern[0]);
        }
    }
}

/// A line with its line break in front of other bytes is the first line.
proof fn lemma_line_in_front(line: Seq<u8>, rest: Seq<u8>, max_bytes: int)
    requires
        crate::http1::first_match(line, crate::http1::line_break()) is None,
    ensures
        first_line(line + crate::http1::line_break() + rest, max_bytes) == Line::Found(line, rest),
        crate::http1::first_match(
            line + crate::http1::line_break() + rest,
            crate::http1::line_break(),
        ) == Some(line.len() as int),
{
    let pattern = crate::http1::line_break();
    let all = line + pattern + rest;
    let n = line.len() as int;
    assert(crate::http1::matches_at(all, pattern, n)) by {
        assert(all.subrange(n, n + 2) == pattern);
    }
    assert forall|i: int| 0 <= i < n implies !crate::http1::matches_at(all, pattern, i) by {
        lemma_no_break_before(line, rest, i);
    }
    crate::http1::lemma_first_match_unique(all, pattern, n);
    assert(all.take(n) == line);
    assert(all.skip(n + 2) == rest);
}

/// A line that is cut off before the end of its line break is unfinished.
proof fn lemma_line_cut_off(line: Seq<u8>, rest: Seq<u8>, n: int, max_bytes: int)
    requires
        crate::http1::first_match(line, crate::http1::line_break()) is None,
        0 <= n < line.len() + 2 <= max_bytes,
    ensures
        first_line((line + crate::http1::line_break() + rest).take(n), max_bytes)
            == Line::Unfinished,
{
    let pattern = crate::http1::line_break();
    let all = line + pattern + rest;
    lemma_line_in_front(line, rest, max_bytes);
    if crate::http1::first_match(all.take(n), pattern) is Some {
        crate::http1::lemma_first_match(all.take(n), pattern);
        crate::http1::law_match_is_final(all.take(n), all.skip(n), pattern);
        assert(all.take(n) + all.skip(n) == all);
    }
}

/// The trailer lines are skipped together with the empty line, and nothing else.
proof fn lemma_trailers_drained(trailers: Seq<Seq<u8>>, rest: Seq<u8>)
    requires
        forall|i: int| 0 <= i < trailers.len() ==> valid_trailer(#[trigger] trailers[i]),
    ensures
        drained(BodyDrain::Trailer, trailer_bytes(trailers) + rest) == Drained::Done(rest),
    decreases trailers.len(),
{
    let pattern = crate::http1::line_break();
    let all = trailer_bytes(trailers) + rest;
    if trailers.len() == 0 {
        assert(all == Seq::<u8>::empty() + pattern + rest);
        lemma_line_in_front(Seq::empty(), rest, MAX_LINE as int);
    } else {
        let after = trailer_bytes(trailers.drop_first()) + rest;
        assert(all == trailers[0] + pattern + after);
        lemma_line_in_front(trailers[0], after, MAX_LINE as int);
        assert(valid_trailer(trailers[0]));
        assert forall|i: int| 0 <= i < trailers.len() - 1 implies valid_trailer(
            #[trigger] trailers.drop_first()[i],
        ) by {
            assert(trailers.drop_first()[i] == trailers[i + 1]);
        }
        lemma_trailers_drained(trailers.drop_first(), rest);
    }
}

/// A chunked body is skipped exactly: what follows it is left.
pub proof fn law_chunked_body_drained(body: ChunkedBody, rest: Seq<u8>)
    requires
        body.valid(),
    ensures
        drained(BodyDrain::ChunkSize, body.bytes() + rest) == Drained::Done(rest),
    decreases body.chunks.len(),
{
    let pattern = crate::http1::line_break();
    let all = body.bytes() + rest;
    if body.chunks.len() == 0 {
        let after = trailer_bytes(body.trailers) + rest;
        assert(all == body.last + pattern + after);
        lemma_line_in_front(body.last, after, MAX_LINE as int);
        lemma_trailers_drained(body.trailers, rest);
    } else {
        let (line, data) = body.chunks[0];
        let after = body.without_first().bytes() + rest;
        let behind_data = pattern + after;
        let behind_line = data + behind_data;
        assert(valid_chunk(body.chunks[0]));
        assert(all == line + pattern + behind_line);
        lemma_line_in_front(line, behind_line, MAX_LINE as int);
        lemma_chunk_size_fits(line);
        assert(behind_line.skip(data.len() as int) == behind_data);
        assert(behind_data == Seq::<u8>::empty() + pattern + after);
        lemma_line_in_front(Seq::empty(), after, MAX_CHUNK_END as int);
        lemma_without_first(body);
        law_chunked_body_drained(body.without_first(), rest);
        reveal_with_fuel(drained, 4);
    }
}

/// The size of a chunk is a number that the machine can hold.
proof fn lemma_chunk_size_fits(line: Seq<u8>)
    ensures
        chunk_size(line) matches Some(size) ==> 0 <= size <= usize::MAX,
{
    if chunk_size(line) is Some {
        let text = decode_utf8(line);
        let digits = crate::text::trim(text.take(crate::text::first_index(text, ';')));
        crate::number::lemma_parsed_range(digits, 16, usize::MAX as int);
    }
}

/// What a chunked body is without its first chunk is one, too.
proof fn lemma_without_first(body: ChunkedBody)
    requires
        body.chunks.len() > 0,
    ensures
        body.valid() ==> body.without_first().valid(),
        body.short_lines() ==> body.without_first().short_lines(),
{
    let rest = body.without_first();
    assert forall|i: int| 0 <= i < rest.chunks.len() implies rest.chunks[i] == body.chunks[i
        + 1] by {}
}

/// A body of announced length is skipped exactly: what follows it is left.
pub proof fn law_sized_body_drained(body: Seq<u8>, rest: Seq<u8>)
    requires
        body.len() <= usize::MAX,
    ensures
        drained(BodyDrain::Exact(body.len() as usize), body + rest) == Drained::Done(rest),
{
    assert((body + rest).skip(body.len() as int) == rest);
}

/// Trailer lines that fit into the limit are never taken for malformed ones, wherever they are cut.
proof fn lemma_trailers_cut(trailers: Seq<Seq<u8>>, rest: Seq<u8>, n: int)
    requires
        forall|i: int| 0 <= i < trailers.len() ==> valid_trailer(#[trigger] trailers[i]),
        forall|i: int| 0 <= i < trailers.len() ==> (#[trigger] trailers[i]).len() + 2 <= MAX_LINE,
        0 <= n <= (trailer_bytes(trailers) + rest).len(),
    ensures
        !(drained(BodyDrain::Trailer, (trailer_bytes(trailers) + rest).take(n)) is Malformed),
    decreases trailers.len(),
{
    let pattern = crate::http1::line_break();
    let all = trailer_bytes(trailers) + rest;
    let (line, after) = if trailers.len() == 0 {
        (Seq::<u8>::empty(), rest)
    } else {
        (trailers[0], trailer_bytes(trailers.drop_first()) + rest)
    };
    assert(all == line + pattern + after);
    if trailers.len() > 0 {
        assert(valid_trailer(trailers[0]));
    }
    if n < line.len() + 2 {
        lemma_line_cut_off(line, after, n, MAX_LINE as int);
    } else {
        let left = n - line.len() - 2;
        assert(all.take(n) == line + pattern + after.take(left));
        lemma_line_in_front(line, after.take(left), MAX_LINE as int);
        if trailers.len() > 0 {
            assert forall|i: int| 0 <= i < trailers.len() - 1 implies valid_trailer(
                #[trigger] trailers.drop_first()[i],
            ) && trailers.drop_first()[i].len() + 2 <= MAX_LINE by {
                assert(trailers.drop_first()[i] == trailers[i + 1]);
            }
            lemma_trailers_cut(trailers.drop_first(), rest, left);
        }
    }
}

/// A chunked body whose lines fit into the limit is never taken for a malformed one, wherever it
/// is cut.
proof fn lemma_chunks_cut(body: ChunkedBody, rest: Seq<u8>, n: int)
    requires
        body.valid(),
        body.short_lines(),
        0 <= n <= (body.bytes() + rest).len(),
    ensures
        !(drained(BodyDrain::ChunkSize, (body.bytes() + rest).take(n)) is Malformed),
    decreases body.chunks.len(),
{
    let pattern = crate::http1::line_break();
    let all = body.bytes() + rest;
    if body.chunks.len() == 0 {
        let after = trailer_bytes(body.trailers) + rest;
        assert(all == body.last + pattern + after);
        if n < body.last.len() + 2 {
            lemma_line_cut_off(body.last, after, n, MAX_LINE as int);
        } else {
            let left = n - body.last.len() - 2;
            assert(all.take(n) == body.last + pattern + after.take(left));
            lemma_line_in_front(body.last, after.take(left), MAX_LINE as int);
            lemma_trailers_cut(body.trailers, rest, left);
        }
    } else {
        let (line, data) = body.chunks[0];
        let after = body.without_first().bytes() + rest;
        let behind_line = data + (pattern + after);
        assert(valid_chunk(body.chunks[0]));
        assert(all == line + pattern + behind_line);
        lemma_chunk_size_fits(line);
        if n < line.len() + 2 {
            lemma_line_cut_off(line, behind_line, n, MAX_LINE as int);
        } else {
            let left = n - line.len() - 2;
            assert(all.take(n) == line + pattern + behind_line.take(left));
            lemma_line_in_front(line, behind_line.take(left), MAX_LINE as int);
            lemma_without_first(body);
            lemma_chunk_cut(data, after, left);
            if left >= data.len() + 2 {
                lemma_chunks_cut(body.without_first(), rest, left - data.len() - 2);
            }
        }
    }
}

/// Data and the line break behind it are never taken for malformed ones, wherever they are cut.
proof fn lemma_chunk_cut(data: Seq<u8>, after: Seq<u8>, n: int)
    requires
        0 < data.len() <= usize::MAX,
        0 <= n <= (data + (crate::http1::line_break() + after)).len(),
    ensures
        ({
            let all = (data + (crate::http1::line_break() + after)).take(n);
            let halt = drained(BodyDrain::ChunkData(data.len() as usize), all);
            if n < data.len() + 2 {
                halt is Waiting
            } else {
                halt == drained(BodyDrain::ChunkSize, after.take(n - data.len() - 2))
            }
        }),
{
    let pattern = crate::http1::line_break();
    let behind_data = pattern + after;
    let all = (data + behind_data).take(n);
    reveal_with_fuel(drained, 3);
    if n >= data.len() {
        let left = n - data.len();
        assert(all.skip(data.len() as int) == behind_data.take(left));
        if left < 2 {
            assert(behind_data == Seq::<u8>::empty() + pattern + after);
            lemma_line_cut_off(Seq::empty(), after, left, MAX_CHUNK_END as int);
        } else {
            assert(behind_data.take(left) == Seq::<u8>::empty() + pattern + after.take(left - 2));
            lemma_line_in_front(Seq::empty(), after.take(left - 2), MAX_CHUNK_END as int);
        }
    }
}

/// A chunked body whose lines fit into the limit is skipped exactly however its bytes arrive:
/// after the first of them, skipping waits for more and then ends in front of what follows the
/// body, or it has ended there already.
pub proof fn law_chunked_body_in_pieces(body: ChunkedBody, rest: Seq<u8>, n: int)
    requires
        body.valid(),
        body.short_lines(),
        0 <= n <= (body.bytes() + rest).len(),
    ensures
        ({
            let all = body.bytes() + rest;
            match drained(BodyDrain::ChunkSize, all.take(n)) {
                Drained::Waiting(state, buffer, _) => drained(state, buffer + all.skip(n))
                    == Drained::Done(rest),
                Drained::Done(left) => left + all.skip(n) == rest,
                Drained::Malformed(_) => false,
            }
        }),
{
    let all = body.bytes() + rest;
    lemma_chunks_cut(body, rest, n);
    law_chunked_body_drained(body, rest);
    assert(all.take(n) + all.skip(n) == all);
    match drained(BodyDrain::ChunkSize, all.take(n)) {
        Drained::Waiting(_, _, _) => {
            law_pieces_do_not_matter(BodyDrain::ChunkSize, all.take(n), all.skip(n));
        },
        Drained::Done(_) => {
            law_end_of_body_is_final(BodyDrain::ChunkSize, all.take(n), all.skip(n));
        },
        Drained::Malformed(_) => {},
    }
}

/// A body that has ended ends at the same place when more bytes arrive.
pub proof fn law_end_of_body_is_final(state: BodyDrain, buffer: Seq<u8>, more: Seq<u8>)
    requires
        drained(state, buffer) is Done,
    ensures
        drained(state, buffer + more) == Drained::Done(drained(state, buffer)->Done_0 + more),
    decreases buffer.len(), rank(state),
{
    lemma_line(buffer, MAX_LINE as int);
    lemma_line(buffer, MAX_CHUNK_END as int);
    lemma_line_is_final(buffer, more, MAX_LINE as int);
    lemma_line_is_final(buffer, more, MAX_CHUNK_END as int);
    let all = buffer + more;
    match state {
        BodyDrain::ChunkData(count) | BodyDrain::Exact(count) => {
            if count <= buffer.len() {
                assert(all.skip(count as int) == buffer.skip(count as int) + more);
            } else {
                reveal_with_fuel(drained, 2);
            }
        },
        _ => {},
    }
    if let DrainMove::Next(next_state, next_buffer) = drain_move(state, buffer) {
        law_end_of_body_is_final(next_state, next_buffer, more);
    }
}

/// Whenever skipping waits, it asks for at least one byte, so that an empty read can only mean the
/// end of the connection.
pub proof fn law_waiting_asks_for_bytes(state: BodyDrain, buffer: Seq<u8>)
    requires
        drained(state, buffer) is Waiting,
    ensures
        1 <= drained(state, buffer)->Waiting_2 <= READ_SIZE,
    decreases buffer.len(), rank(state),
{
    lemma_line(buffer, MAX_LINE as int);
    lemma_line(buffer, MAX_CHUNK_END as int);
    if let DrainMove::Next(next_state, next_buffer) = drain_move(state, buffer) {
        law_waiting_asks_for_bytes(next_state, next_buffer);
    }
}

/// The line in front of a chunk gives the hexadecimal number in front of the first semicolon, with
/// nothing but white space around it, and everything behind the semicolon is passed over. Without
/// such a number, or if the line is no text, there is no size.
pub proof fn law_chunk_size_is_hexadecimal(
    front: Seq<char>,
    digits: Seq<char>,
    back: Seq<char>,
    extension: Seq<char>,
    line: Seq<u8>,
)
    requires
        crate::text::blank(front),
        crate::text::blank(back),
        crate::text::bare(digits),
        crate::text::lacks(digits, ';'),
    ensures
        ({
            let size = match crate::number::parsed(digits, 16, usize::MAX as int) {
                Ok(n) => Some(n),
                Err(_) => None,
            };
            &&& chunk_size(encode_utf8(front + digits + back)) == size
            &&& chunk_size(encode_utf8(front + digits + back + seq![';'] + extension)) == size
        }),
        !valid_utf8(line) ==> chunk_size(line) is None,
{
    let inner = front + digits + back;
    let n = inner.len() as int;
    crate::text::law_trim_cuts_white_space(front, digits, back);
    assert forall|i: int| 0 <= i < n implies inner[i] != ';' by {
        if i < front.len() {
            assert(crate::text::is_white_space(front[i]));
        } else if i < front.len() + digits.len() {
            assert(inner[i] == digits[i - front.len()]);
        } else {
            assert(crate::text::is_white_space(back[i - front.len() - digits.len()]));
        }
    }
    encode_utf8_valid_utf8(inner);
    encode_utf8_decode_utf8(inner);
    crate::text::lemma_first_index_unique(inner, ';', n);
    assert(inner.take(n) == inner);
    let text = inner + seq![';'] + extension;
    encode_utf8_valid_utf8(text);
    encode_utf8_decode_utf8(text);
    assert forall|i: int| 0 <= i < n implies text[i] != ';' by {
        assert(text[i] == inner[i]);
    }
    assert(text[n] == ';');
    crate::text::lemma_first_index_unique(text, ';', n);
    assert(text.take(n) == inner);
}

/// The hexadecimal digits of a number, as many as it needs.
pub open spec fn hex(n: nat) -> Seq<char>
    decreases n,
{
    if n < 16 {
        crate::number::hexadecimal(n, 1)
    } else {
        hex(n / 16) + crate::number::hexadecimal(n % 16, 1)
    }
}

/// One hexadecimal digit.
proof fn lemma_hex_digit(d: nat)
    requires
        d < 16,
    ensures
        crate::number::hexadecimal(d, 1).len() == 1,
        crate::number::numeral(crate::number::hexadecimal(d, 1)[0], d as int),
        crate::number::hexadecimal(d, 1) == seq![crate::number::hexadecimal(d, 1)[0]],
{
    reveal_with_fuel(crate::number::hexadecimal, 2);
    assert(crate::number::hexadecimal(d, 1) == seq![crate::number::digit_char(d as int)]);
}

/// The digits of a number are digits, and stand for it.
proof fn lemma_hex(n: nat, max: int)
    requires
        n <= max,
    ensures
        hex(n).len() > 0,
        forall|i: int|
            0 <= i < hex(n).len() ==> ('0' <= #[trigger] hex(n)[i] <= '9' || 'a' <= hex(n)[i]
                <= 'f'),
        crate::number::parsed(hex(n), 16, max) == Ok::<int, crate::number::NumberError>(n as int),
    decreases n,
{
    let d = n % 16;
    lemma_hex_digit(d);
    let c = crate::number::hexadecimal(d, 1)[0];
    reveal_with_fuel(crate::number::hexadecimal, 2);
    assert(c == crate::number::digit_char(d as int));
    if n < 16 {
        crate::number::law_numerals_make_up_a_number(Seq::empty(), c, d as int, 16, max);
        assert(Seq::<char>::empty().push(c) == hex(n));
    } else {
        lemma_hex(n / 16, max);
        let front = hex(n / 16);
        crate::number::law_numerals_make_up_a_number(front, c, d as int, 16, max);
        assert(front.push(c) == hex(n));
        assert('0' <= front[0] <= '9' || 'a' <= front[0] <= 'f');
        assert(front != seq!['+']) by {
            assert(seq!['+'][0] == '+');
        }
    }
}

/// Any size that the machine can hold can be written in front of its chunk, with an extension or
/// without.
pub proof fn law_every_size_can_be_written(n: nat, extension: Seq<char>)
    requires
        n <= usize::MAX,
    ensures
        chunk_size(encode_utf8(hex(n))) == Some(n as int),
        chunk_size(encode_utf8(hex(n) + seq![';'] + extension)) == Some(n as int),
{
    lemma_hex(n, usize::MAX as int);
    let digits = hex(n);
    let none = Seq::<char>::empty();
    assert('0' <= digits[0] <= '9' || 'a' <= digits[0] <= 'f');
    assert('0' <= digits[digits.len() - 1] <= '9' || 'a' <= digits[digits.len() - 1] <= 'f');
    law_chunk_size_is_hexadecimal(none, digits, none, extension, Seq::empty());
    assert(none + digits + none == digits);
}

/// Data in chunks: each with its size in front and a line break behind it, and an empty one at the
/// end.
pub open spec fn in_chunks(pieces: Seq<Seq<u8>>) -> Seq<u8>
    decreases pieces.len(),
{
    if pieces.len() == 0 {
        seq![48u8, 13u8, 10u8, 13u8, 10u8]
    } else {
        encode_utf8(hex(pieces[0].len())) + seq![13u8, 10u8] + pieces[0] + seq![13u8, 10u8]
            + in_chunks(pieces.drop_first())
    }
}

/// The line with a size holds no line break.
proof fn lemma_size_line(n: nat)
    requires
        n <= usize::MAX,
    ensures
        crate::http1::first_match(encode_utf8(hex(n)), crate::http1::line_break()) is None,
{
    lemma_hex(n, usize::MAX as int);
    crate::wire::lemma_clean_bytes(hex(n));
    let line = encode_utf8(hex(n));
    let pattern = crate::http1::line_break();
    crate::http1::lemma_first_match(line, pattern);
    if let Some(i) = crate::http1::first_match(line, pattern) {
        assert(line.subrange(i, i + 2)[0] == line[i]);
        assert(pattern[0] == 13);
    }
}

/// Data of any length in chunks of any sizes is skipped exactly, whatever follows it.
pub proof fn law_data_in_chunks_is_skipped(pieces: Seq<Seq<u8>>, rest: Seq<u8>)
    requires
        forall|i: int| 0 <= i < pieces.len() ==> 0 < (#[trigger] pieces[i]).len() <= usize::MAX,
    ensures
        drained(BodyDrain::ChunkSize, in_chunks(pieces) + rest) == Drained::Done(rest),
    decreases pieces.len(),
{
    let pattern = crate::http1::line_break();
    let all = in_chunks(pieces) + rest;
    if pieces.len() == 0 {
        let line = encode_utf8(hex(0));
        law_every_size_can_be_written(0, Seq::empty());
        lemma_size_line(0);
        assert(line == seq![48u8]) by {
            lemma_hex_digit(0);
            reveal_with_fuel(encode_utf8, 2);
            assert((48u32 & 0x7f) as u8 == 48) by (bit_vector);
            assert(hex(0) == seq!['0']);
            assert(hex(0).drop_first() == Seq::<char>::empty());
        }
        let body = ChunkedBody { chunks: Seq::empty(), last: line, trailers: Seq::empty() };
        assert(body.bytes() == in_chunks(pieces));
        law_chunked_body_drained(body, rest);
    } else {
        let data = pieces[0];
        let line = encode_utf8(hex(data.len()));
        let next = pieces.drop_first();
        assert forall|i: int| 0 <= i < next.len() implies 0 < (#[trigger] next[i]).len()
            <= usize::MAX by {
            assert(next[i] == pieces[i + 1]);
        }
        law_every_size_can_be_written(data.len(), Seq::empty());
        lemma_size_line(data.len());
        law_data_in_chunks_is_skipped(next, rest);
        let after = in_chunks(next) + rest;
        let behind_data = pattern + after;
        let behind_line = data + behind_data;
        assert(all == line + pattern + behind_line);
        lemma_line_in_front(line, behind_line, MAX_LINE as int);
        assert(behind_line.skip(data.len() as int) == behind_data);
        assert(behind_data == Seq::<u8>::empty() + pattern + after);
        lemma_line_in_front(Seq::empty(), after, MAX_CHUNK_END as int);
        reveal_with_fuel(drained, 4);
    }
}

/// Whatever has arrived of a body, the connection is left in front of what follows it: behind data
/// in chunks of any sizes, or behind as many bytes as were announced.
pub proof fn law_bodies_are_skipped(
    stream: &mut BufferedStream,
    drain: &mut BodyDrain,
    progress: Result<DrainProgress, HttpError>,
    pieces: Seq<Seq<u8>>,
    body: Seq<u8>,
    rest: Seq<u8>,
)
    requires
        call_ensures(BufferedStream::drain_response_body, (stream, drain), progress),
    ensures
        ({
            ||| {
                &&& *old(drain) == BodyDrain::ChunkSize
                &&& old(stream)@ == in_chunks(pieces) + rest
                &&& forall|i: int|
                    0 <= i < pieces.len() ==> 0 < (#[trigger] pieces[i]).len() <= usize::MAX
            }
            ||| {
                &&& *old(drain) == BodyDrain::Exact(body.len() as usize) && body.len() <= usize::MAX
                &&& old(stream)@ == body + rest
            }
        }) ==> progress == Ok::<DrainProgress, HttpError>(DrainProgress::Done) && final(stream)@
            == rest,
{
    if *old(drain) == BodyDrain::ChunkSize && old(stream)@ == in_chunks(pieces) + rest && (
    forall|i: int| 0 <= i < pieces.len() ==> 0 < (#[trigger] pieces[i]).len() <= usize::MAX) {
        law_data_in_chunks_is_skipped(pieces, rest);
    }
    if *old(drain) == BodyDrain::Exact(body.len() as usize) && body.len() <= usize::MAX
        && old(stream)@ == body + rest {
        law_sized_body_drained(body, rest);
    }
}

/// Of a body, or a chunk, of which more bytes are to come, those that have arrived are dropped, and
/// as many as are missing are asked for, but at most 8192.
pub proof fn law_missing_bytes_are_asked_for(count: usize, buffer: Seq<u8>)
    requires
        buffer.len() < count,
    ensures
        ({
            let missing = count - buffer.len();
            let wanted = if missing <= 8192 {
                missing
            } else {
                8192
            };
            &&& drained(BodyDrain::Exact(count), buffer) == Drained::Waiting(
                BodyDrain::Exact(missing as usize),
                Seq::empty(),
                wanted,
            )
            &&& drained(BodyDrain::ChunkData(count), buffer) == Drained::Waiting(
                BodyDrain::ChunkData(missing as usize),
                Seq::empty(),
                wanted,
            )
        }),
{
    reveal_with_fuel(drained, 3);
    if buffer.len() == 0 {
        assert(buffer == Seq::<u8>::empty());
    }
}

/// A line that has not ended is waited for, 1024 bytes at a time, until there are 8192 bytes
/// without its end, or two behind a chunk. A line in front of a chunk that gives no size is an
/// error.
pub proof fn law_lines_are_bounded(buffer: Seq<u8>, line: Seq<u8>, rest: Seq<u8>)
    requires
        forall|i: int|
            0 <= i < buffer.len() - 1 ==> !(#[trigger] buffer[i] == 13 && buffer[i + 1] == 10),
        forall|i: int| 0 <= i < line.len() - 1 ==> !(#[trigger] line[i] == 13 && line[i + 1] == 10),
    ensures
        buffer.len() < 8192 ==> {
            &&& drained(BodyDrain::ChunkSize, buffer) == Drained::Waiting(
                BodyDrain::ChunkSize,
                buffer,
                1024,
            )
            &&& drained(BodyDrain::Trailer, buffer) == Drained::Waiting(
                BodyDrain::Trailer,
                buffer,
                1024,
            )
        },
        buffer.len() < 2 ==> drained(BodyDrain::ChunkEnd, buffer) == Drained::Waiting(
            BodyDrain::ChunkEnd,
            buffer,
            1024,
        ),
        buffer.len() >= 8192 ==> {
            &&& drained(BodyDrain::ChunkSize, buffer) is Malformed
            &&& drained(BodyDrain::Trailer, buffer) is Malformed
        },
        chunk_size(line) is None ==> drained(
            BodyDrain::ChunkSize,
            line + seq![13u8, 10u8] + rest,
        ) is Malformed,
        chunk_size(line) matches Some(size) ==> drained(
            BodyDrain::ChunkSize,
            line + seq![13u8, 10u8] + rest,
        ) == drained(
            if size == 0 {
                BodyDrain::Trailer
            } else {
                BodyDrain::ChunkData(size as usize)
            },
            rest,
        ),
        drained(BodyDrain::Trailer, line + seq![13u8, 10u8] + rest) == if line.len() == 0 {
            Drained::Done(rest)
        } else {
            drained(BodyDrain::Trailer, rest)
        },
{
    lemma_no_line_break(buffer);
    lemma_no_line_break(line);
    lemma_line_in_front(line, rest, MAX_LINE as int);
    assert(crate::http1::line_break() == seq![13u8, 10u8]);
    reveal_with_fuel(drained, 2);
}

/// Without a carriage return and a line feed in a row there is no line break.
proof fn lemma_no_line_break(bytes: Seq<u8>)
    requires
        forall|i: int|
            0 <= i < bytes.len() - 1 ==> !(#[trigger] bytes[i] == 13 && bytes[i + 1] == 10),
    ensures
        crate::http1::first_match(bytes, crate::http1::line_break()) is None,
{
    let pattern = crate::http1::line_break();
    crate::http1::lemma_first_match(bytes, pattern);
    if let Some(n) = crate::http1::first_match(bytes, pattern) {
        let window = bytes.subrange(n, n + 2);
        assert(window[0] == bytes[n] && window[1] == bytes[n + 1]);
        assert(pattern[0] == 13 && pattern[1] == 10);
    }
}

/// Behind the data of a chunk there has to be a line break, and then the next chunk follows; any
/// other two bytes are an error.
pub proof fn law_chunks_end_with_a_line_break(data: Seq<u8>, buffer: Seq<u8>)
    requires
        0 < data.len() <= usize::MAX,
        buffer.len() >= 2,
    ensures
        ({
            let halt = drained(BodyDrain::ChunkData(data.len() as usize), data + buffer);
            if buffer[0] == 13 && buffer[1] == 10 {
                halt == drained(BodyDrain::ChunkSize, buffer.skip(2))
            } else {
                halt is Malformed
            }
        }),
{
    let pattern = crate::http1::line_break();
    assert((data + buffer).skip(data.len() as int) == buffer);
    reveal_with_fuel(drained, 3);
    crate::http1::lemma_first_match(buffer, pattern);
    if buffer[0] == 13 && buffer[1] == 10 {
        let rest = buffer.skip(2);
        assert(buffer == Seq::<u8>::empty() + pattern + rest);
        lemma_line_in_front(Seq::empty(), rest, MAX_CHUNK_END as int);
    } else {
        if let Some(n) = crate::http1::first_match(buffer, pattern) {
            if n == 0 {
                let window = buffer.subrange(0, 2);
                assert(window[0] == buffer[0] && window[1] == buffer[1]);
                assert(pattern[0] == 13 && pattern[1] == 10);
            }
            assert(buffer.take(n).len() == n);
        }
    }
}

/// A chunked body is skipped chunk by chunk, whatever length is announced besides. Else the
/// announced length is skipped, or nothing without one.
pub proof fn law_framing_of_bodies(response: &ResponseHead, drain: Result<BodyDrain, HttpError>)
    requires
        call_ensures(BodyDrain::new, (response,), drain),
    ensures
        drain == framing(response@),
        response@.chunked() ==> drain == Ok::<BodyDrain, HttpError>(BodyDrain::ChunkSize),
        !response@.chunked() ==> match response@.announced_length() {
            Ok(Some(length)) => drain matches Ok(BodyDrain::Exact(n)) && n == length as usize,
            Ok(None) => drain == Ok::<BodyDrain, HttpError>(BodyDrain::Exact(0)),
            Err(error) => drain == Err::<BodyDrain, HttpError>(error),
        },
{
}

} // verus!
