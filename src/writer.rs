//! The decoder: takes in a binary `COPY` stream in chunks of any size and
//! hands out its fields one at a time.
use crate::error::CopyError;
use crate::wire::{
    header_magic, header_magic_bytes, i16_at, i32_at, read_be_i16, read_be_i32,
    min_len, Field, HEADER_LEN, MAGIC_LEN, OID_FLAG,
};
use vstd::prelude::*;
use vstd::slice::slice_subrange;

verus! {

/// Where the decoder stands in the stream.
#[derive(Clone, Copy, Debug, PartialEq, Eq, Structural)]
pub enum WriteState {
    /// The header has not been read in full.
    AtHeader,
    /// The next unit is a tuple's field count.
    AtTuple,
    /// The next unit is a field's length prefix; `remaining` fields of the
    /// tuple are left, this one included.
    AtFieldSize(usize),
    /// The next unit is a payload of `size` bytes.
    AtField { size: usize, remaining: usize },
    /// The end marker has been read.
    Done,
}

/// What the decoder is, as a mathematical value: its state, whether the
/// header announced row OIDs, the bytes of the current unit taken in so far,
/// and every field it has handed out.
pub struct DecoderModel {
    pub state: WriteState,
    pub has_oids: bool,
    pub buf: Seq<u8>,
    pub delivered: Seq<Option<Seq<u8>>>,
}

/// How many bytes the unit read in `st` has.
pub open spec fn unit_len(st: WriteState) -> nat {
    match st {
        WriteState::AtHeader => 19,
        WriteState::AtTuple => 2,
        WriteState::AtFieldSize(_) => 4,
        WriteState::AtField { size, .. } => size as nat,
        WriteState::Done => 0,
    }
}

/// The state after a field, with `remaining` fields left before it.
pub open spec fn next_field_state(remaining: usize) -> WriteState {
    if remaining <= 1 {
        WriteState::AtTuple
    } else {
        WriteState::AtFieldSize((remaining - 1) as usize)
    }
}

/// The fields that one call hands out, as a sequence.
pub open spec fn handed_out(ev: Option<Field>) -> Seq<Option<Seq<u8>>> {
    match ev {
        Some(f) => seq![f@],
        None => Seq::empty(),
    }
}

impl DecoderModel {
    pub open spec fn wf(self) -> bool {
        &&& if unit_len(self.state) == 0 {
            self.buf.len() == 0
        } else {
            self.buf.len() < unit_len(self.state)
        }
        &&& match self.state {
            WriteState::AtFieldSize(r) => r >= 1,
            WriteState::AtField { size, remaining } => size <= i32::MAX && remaining >= 1,
            _ => true,
        }
    }

    pub open spec fn with_buf(self, buf: Seq<u8>) -> DecoderModel {
        DecoderModel { state: self.state, has_oids: self.has_oids, buf, delivered: self.delivered }
    }

    /// The model after a unit that hands out no field.
    pub open spec fn moved_to(self, state: WriteState, has_oids: bool) -> DecoderModel {
        DecoderModel { state, has_oids, buf: Seq::empty(), delivered: self.delivered }
    }

    /// The model after a unit that hands out the field `f`.
    pub open spec fn delivering(self, f: Option<Seq<u8>>, remaining: usize) -> DecoderModel {
        DecoderModel {
            state: next_field_state(remaining),
            has_oids: self.has_oids,
            buf: Seq::empty(),
            delivered: self.delivered.push(f),
        }
    }
}

/// A decoder that has taken in nothing.
pub open spec fn initial_model() -> DecoderModel {
    DecoderModel {
        state: WriteState::AtHeader,
        has_oids: false,
        buf: Seq::empty(),
        delivered: Seq::empty(),
    }
}

/// What the decoder does with a complete unit `unit` read in `m.state`.
pub open spec fn complete(m: DecoderModel, unit: Seq<u8>) -> Result<DecoderModel, CopyError> {
    match m.state {
        WriteState::AtHeader => {
            let flags = i32_at(unit.subrange(11, 15));
            if unit.subrange(0, 11) != header_magic() {
                Err(CopyError::BadHeader)
            } else if flags != 0 && flags != 0x10000 {
                Err(CopyError::CriticalFlags)
            } else {
                Ok(m.moved_to(WriteState::AtTuple, flags == 0x10000))
            }
        },
        WriteState::AtTuple => {
            let n = i16_at(unit);
            let count = if m.has_oids {
                n + 1
            } else {
                n
            };
            if n == -1 {
                Ok(m.moved_to(WriteState::Done, m.has_oids))
            } else if n < 0 {
                Err(CopyError::NegativeFieldCount)
            } else if count == 0 {
                Ok(m.moved_to(WriteState::AtTuple, m.has_oids))
            } else {
                Ok(m.moved_to(WriteState::AtFieldSize(count as usize), m.has_oids))
            }
        },
        WriteState::AtFieldSize(r) => {
            let len = i32_at(unit);
            if len == -1 {
                Ok(m.delivering(None, r))
            } else if len < 0 {
                Err(CopyError::NegativeFieldLength)
            } else {
                Ok(m.moved_to(WriteState::AtField { size: len as usize, remaining: r }, m.has_oids))
            }
        },
        WriteState::AtField { size, remaining } => Ok(m.delivering(Some(unit), remaining)),
        WriteState::Done => Err(CopyError::InputAfterEnd),
    }
}

/// The decoder once a pending payload of no bytes has been handed out: a
/// payload of size 0 is complete without taking in anything.
pub open spec fn settle(m: DecoderModel) -> DecoderModel {
    match m.state {
        WriteState::AtField { size, remaining } => if size == 0 {
            m.delivering(Some(Seq::empty()), remaining)
        } else {
            m
        },
        _ => m,
    }
}

/// The decoder taking in one byte.
pub open spec fn step(m: DecoderModel, b: u8) -> Result<DecoderModel, CopyError> {
    step_settled(settle(m), b)
}

/// The decoder taking in one byte when no empty payload is pending.
pub open spec fn step_settled(m: DecoderModel, b: u8) -> Result<DecoderModel, CopyError> {
    if m.state is Done {
        Err(CopyError::InputAfterEnd)
    } else if m.buf.len() + 1 < unit_len(m.state) {
        Ok(m.with_buf(m.buf.push(b)))
    } else {
        complete(m, m.buf.push(b))
    }
}

/// The decoder taking in `bytes`, one byte after another.
pub open spec fn feed(m: DecoderModel, bytes: Seq<u8>) -> Result<DecoderModel, CopyError>
    decreases bytes.len(),
{
    if bytes.len() == 0 {
        Ok(m)
    } else {
        match feed(m, bytes.drop_last()) {
            Ok(m1) => step(m1, bytes.last()),
            Err(e) => Err(e),
        }
    }
}

/// How many of `avail` offered bytes one call takes in `m`: the rest of
/// the current unit, or all that is offered if that is less.
pub open spec fn chunk_len(m: DecoderModel, avail: nat) -> nat {
    min_len((unit_len(m.state) - m.buf.len()) as nat, avail)
}

/// What one call does in `m` on the first `n` offered bytes: a pending
/// payload of no bytes is handed out without taking any; otherwise the
/// bytes are taken in one after another.
pub open spec fn call_outcome(m: DecoderModel, bytes: Seq<u8>) -> Result<DecoderModel, CopyError> {
    if m.state is AtField && m.state->size == 0 {
        Ok(settle(m))
    } else {
        feed(m, bytes)
    }
}

/// One call on `input` in `m`, with result `r` and model `m2` after it,
/// agrees with `call_outcome` on the bytes that it used.
pub open spec fn call_agrees(
    m: DecoderModel,
    input: Seq<u8>,
    r: Result<(usize, Option<Field>), CopyError>,
    m2: DecoderModel,
) -> bool {
    let n = chunk_len(m, input.len());
    match call_outcome(m, input.subrange(0, n as int)) {
        Ok(m3) => {
            &&& r is Ok
            &&& r->Ok_0.0 == n
            &&& m2 == m3
            &&& m3.delivered == m.delivered + handed_out(r->Ok_0.1)
        },
        Err(e) => r == Err::<(usize, Option<Field>), CopyError>(e),
    }
}

/// While the current unit is incomplete, bytes only pile up; the byte that
/// completes it completes it as one unit.
pub proof fn lemma_feed_accumulate(m: DecoderModel, bytes: Seq<u8>)
    requires
        m.wf(),
        unit_len(m.state) > 0,
        m.buf.len() + bytes.len() <= unit_len(m.state),
    ensures
        m.buf.len() + bytes.len() < unit_len(m.state) ==> feed(m, bytes) == Ok::<
            DecoderModel,
            CopyError,
        >(m.with_buf(m.buf + bytes)),
        m.buf.len() + bytes.len() == unit_len(m.state) ==> feed(m, bytes) == complete(
            m,
            m.buf + bytes,
        ),
    decreases bytes.len(),
{
    if bytes.len() == 0 {
        assert(m.buf + bytes =~= m.buf);
        assert(m.with_buf(m.buf) == m);
    } else {
        let p = bytes.drop_last();
        lemma_feed_accumulate(m, p);
        let m1 = m.with_buf(m.buf + p);
        assert((m.buf + p).push(bytes.last()) =~= m.buf + bytes);
        assert(m1.with_buf(m.buf + bytes) == m.with_buf(m.buf + bytes));
        assert(complete(m1, m.buf + bytes) == complete(m, m.buf + bytes));
    }
}

/// A decoder of the binary `COPY` format. Each call takes in at most one
/// unit of the stream (the header, a tuple's field count, a field's length
/// prefix or its payload) and hands out the field that it completes, if any.
pub struct BinaryCopyWriter {
    state: WriteState,
    has_oids: bool,
    buf: Vec<u8>,
    delivered: Ghost<Seq<Option<Seq<u8>>>>,
}

impl View for BinaryCopyWriter {
    type V = DecoderModel;

    closed spec fn view(&self) -> DecoderModel {
        DecoderModel {
            state: self.state,
            has_oids: self.has_oids,
            buf: self.buf@,
            delivered: self.delivered@,
        }
    }
}

impl BinaryCopyWriter {
    pub open spec fn wf(&self) -> bool {
        self@.wf()
    }

    /// A decoder at the start of a stream.
    pub fn new() -> (r: BinaryCopyWriter)
        ensures
            r@ == initial_model(),
            r.wf(),
    {
        BinaryCopyWriter {
            state: WriteState::AtHeader,
            has_oids: false,
            buf: Vec::new(),
            delivered: Ghost(Seq::empty()),
        }
    }

    /// Whether the end marker has been read.
    pub fn is_done(&self) -> (r: bool)
        ensures
            r == (self@.state is Done),
    {
        match self.state {
            WriteState::Done => true,
            _ => false,
        }
    }

    /// Whether the header announced a row OID field in every tuple.
    pub fn has_oids(&self) -> (r: bool)
        ensures
            r == self@.has_oids,
    {
        self.has_oids
    }

    /// Moves bytes of `buf` into the unit being read until it has `size`
    /// bytes or `buf` runs out; says whether the unit is complete, and how
    /// many bytes it took.
    fn read_to(&mut self, buf: &[u8], size: usize) -> (r: (bool, usize))
        requires
            old(self).buf@.len() <= size,
        ensures
            r.1 == min_len((size - old(self).buf@.len()) as nat, buf@.len()),
            final(self).buf@ == old(self).buf@ + buf@.subrange(0, r.1 as int),
            r.0 == (final(self).buf@.len() == size),
            final(self).state == old(self).state,
            final(self).has_oids == old(self).has_oids,
            final(self).delivered == old(self).delivered,
    {
        let want = size - self.buf.len();
        let to_read = if want < buf.len() {
            want
        } else {
            buf.len()
        };
        let ghost start = self.buf@;
        let mut i: usize = 0;
        while i < to_read
            invariant
                i <= to_read <= buf@.len(),
                self.buf@ == start + buf@.subrange(0, i as int),
                self.state == old(self).state,
                self.has_oids == old(self).has_oids,
                self.delivered == old(self).delivered,
            decreases to_read - i,
        {
            self.buf.push(buf[i]);
            i = i + 1;
            assert(self.buf@ =~= start + buf@.subrange(0, i as int));
        }
        (self.buf.len() == size, to_read)
    }

    /// Moves on from a field with `remaining` fields left in its tuple.
    fn advance_field_state(&mut self, remaining: usize)
        ensures
            final(self).state == next_field_state(remaining),
            final(self).has_oids == old(self).has_oids,
            final(self).buf == old(self).buf,
            final(self).delivered == old(self).delivered,
    {
        self.state = if remaining <= 1 {
            WriteState::AtTuple
        } else {
            WriteState::AtFieldSize(remaining - 1)
        };
    }

    fn read_header(&mut self, buf: &[u8]) -> (r: Result<(usize, Option<Field>), CopyError>)
        requires
            old(self).wf(),
            old(self)@.state == WriteState::AtHeader,
        ensures
            final(self).wf(),
            call_agrees(old(self)@, buf@, r, final(self)@),
    {
        let (done, nread) = self.read_to(buf, HEADER_LEN);
        proof {
            lemma_feed_accumulate(old(self)@, buf@.subrange(0, nread as int));
        }
        if !done {
            return Ok((nread, None));
        }
        if !starts_with_magic(&self.buf) {
            self.buf.clear();
            return Err(CopyError::BadHeader);
        }
        let flags = read_be_i32(slice_subrange(self.buf.as_slice(), MAGIC_LEN, MAGIC_LEN + 4));
        self.buf.clear();
        if flags != 0 && flags != OID_FLAG {
            return Err(CopyError::CriticalFlags);
        }
        self.has_oids = flags == OID_FLAG;
        self.state = WriteState::AtTuple;
        Ok((nread, None))
    }

    fn read_tuple(&mut self, buf: &[u8]) -> (r: Result<(usize, Option<Field>), CopyError>)
        requires
            old(self).wf(),
            old(self)@.state == WriteState::AtTuple,
        ensures
            final(self).wf(),
            call_agrees(old(self)@, buf@, r, final(self)@),
    {
        let (done, nread) = self.read_to(buf, 2);
        proof {
            lemma_feed_accumulate(old(self)@, buf@.subrange(0, nread as int));
        }
        if !done {
            return Ok((nread, None));
        }
        let n = read_be_i16(self.buf.as_slice());
        self.buf.clear();
        if n == -1 {
            self.state = WriteState::Done;
            return Ok((nread, None));
        }
        if n < 0 {
            return Err(CopyError::NegativeFieldCount);
        }
        let count: usize = if self.has_oids {
            n as usize + 1
        } else {
            n as usize
        };
        self.state = if count == 0 {
            WriteState::AtTuple
        } else {
            WriteState::AtFieldSize(count)
        };
        Ok((nread, None))
    }

    fn read_field_size(&mut self, buf: &[u8], remaining: usize) -> (r: Result<
        (usize, Option<Field>),
        CopyError,
    >)
        requires
            old(self).wf(),
            old(self)@.state == WriteState::AtFieldSize(remaining),
        ensures
            final(self).wf(),
            call_agrees(old(self)@, buf@, r, final(self)@),
    {
        let (done, nread) = self.read_to(buf, 4);
        proof {
            lemma_feed_accumulate(old(self)@, buf@.subrange(0, nread as int));
        }
        if !done {
            return Ok((nread, None));
        }
        let len = read_be_i32(self.buf.as_slice());
        self.buf.clear();
        if len == -1 {
            self.delivered = Ghost(self.delivered@.push(None));
            self.advance_field_state(remaining);
            assert(self@.delivered =~= old(self)@.delivered + handed_out(Some(Field::Null)));
            return Ok((nread, Some(Field::Null)));
        }
        if len < 0 {
            return Err(CopyError::NegativeFieldLength);
        }
        self.state = WriteState::AtField { size: len as usize, remaining };
        Ok((nread, None))
    }

    fn read_field(&mut self, buf: &[u8], size: usize, remaining: usize) -> (r: Result<
        (usize, Option<Field>),
        CopyError,
    >)
        requires
            old(self).wf(),
            old(self)@.state == (WriteState::AtField { size, remaining }),
        ensures
            final(self).wf(),
            call_agrees(old(self)@, buf@, r, final(self)@),
    {
        let (done, nread) = self.read_to(buf, size);
        proof {
            if size > 0 {
                lemma_feed_accumulate(old(self)@, buf@.subrange(0, nread as int));
            } else {
                assert(self.buf@ =~= Seq::<u8>::empty());
            }
        }
        if !done {
            return Ok((nread, None));
        }
        let mut payload: Vec<u8> = Vec::new();
        std::mem::swap(&mut payload, &mut self.buf);
        self.delivered = Ghost(self.delivered@.push(Some(payload@)));
        self.advance_field_state(remaining);
        assert(self@.delivered =~= old(self)@.delivered + handed_out(Some(Field::Value(payload))));
        Ok((nread, Some(Field::Value(payload))))
    }

    /// Takes in bytes from the front of `buf`: at most the rest of the current
    /// unit. Returns how many it took, and the field that the unit completes,
    /// if it completes one. A payload of no bytes is handed out by the call
    /// after the one that read its length, and that call takes no bytes.
    /// Taking in a stream through any sequence of calls has the same outcome
    /// as taking it in one byte after another (`feed`).
    pub fn write_with_info(&mut self, buf: &[u8]) -> (r: Result<(usize, Option<Field>), CopyError>)
        requires
            old(self).wf(),
        ensures
            final(self).wf(),
            old(self)@.state is Done ==> r == Err::<(usize, Option<Field>), CopyError>(
                CopyError::InputAfterEnd,
            ) && final(self)@ == old(self)@,
            !(old(self)@.state is Done) ==> call_agrees(old(self)@, buf@, r, final(self)@),
    {
        match self.state {
            WriteState::AtHeader => self.read_header(buf),
            WriteState::AtTuple => self.read_tuple(buf),
            WriteState::AtFieldSize(remaining) => self.read_field_size(buf, remaining),
            WriteState::AtField { size, remaining } => self.read_field(buf, size, remaining),
            WriteState::Done => Err(CopyError::InputAfterEnd),
        }
    }
}

/// A reader over the payload of one field, for the consumer of the decoded
/// fields.
pub struct WriteValueReader {
    bytes: Vec<u8>,
    pos: usize,
}

impl View for WriteValueReader {
    type V = Seq<u8>;

    /// The bytes not read yet.
    closed spec fn view(&self) -> Seq<u8> {
        self.bytes@.subrange(self.pos as int, self.bytes@.len() as int)
    }
}

impl WriteValueReader {
    pub closed spec fn wf(&self) -> bool {
        self.pos <= self.bytes@.len()
    }

    /// A reader over `bytes`, from the first.
    pub fn new(bytes: Vec<u8>) -> (r: WriteValueReader)
        ensures
            r.wf(),
            r@ == bytes@,
    {
        let r = WriteValueReader { bytes, pos: 0 };
        assert(r@ =~= r.bytes@);
        r
    }

    /// How many bytes are left to read.
    pub fn remaining(&self) -> (r: usize)
        requires
            self.wf(),
        ensures
            r == self@.len(),
    {
        self.bytes.len() - self.pos
    }

    /// Copies as many of the bytes left as fit to the front of `dest`, and
    /// returns how many.
    pub fn read(&mut self, dest: &mut [u8]) -> (r: usize)
        requires
            old(self).wf(),
        ensures
            final(self).wf(),
            r == min_len(old(self)@.len(), old(dest)@.len()),
            final(dest)@.len() == old(dest)@.len(),
            final(dest)@.subrange(0, r as int) == old(self)@.subrange(0, r as int),
            final(dest)@.subrange(r as int, old(dest)@.len() as int) == old(dest)@.subrange(
                r as int,
                old(dest)@.len() as int,
            ),
            final(self)@ == old(self)@.subrange(r as int, old(self)@.len() as int),
    {
        let avail = self.bytes.len() - self.pos;
        let n = if avail < dest.len() {
            avail
        } else {
            dest.len()
        };
        let ghost start = self.pos as int;
        let mut i: usize = 0;
        while i < n
            invariant
                i <= n,
                n <= dest@.len(),
                start + n <= self.bytes.len(),
                self.pos == start,
                dest@.len() == old(dest)@.len(),
                forall|j: int| 0 <= j < i ==> dest@[j] == self.bytes@[start + j],
                forall|j: int| i <= j < dest@.len() ==> dest@[j] == old(dest)@[j],
            decreases n - i,
        {
            dest[i] = self.bytes[self.pos + i];
            i = i + 1;
        }
        self.pos = self.pos + n;
        proof {
            let before = old(self)@;
            assert(dest@.subrange(0, n as int) =~= before.subrange(0, n as int));
            assert(dest@.subrange(n as int, dest@.len() as int) =~= old(dest)@.subrange(
                n as int,
                old(dest)@.len() as int,
            ));
            assert(self@ =~= before.subrange(n as int, before.len() as int));
        }
        n
    }
}

/// Whether `b` opens with the fixed signature.
fn starts_with_magic(b: &Vec<u8>) -> (r: bool)
    requires
        b@.len() >= 11,
    ensures
        r == (b@.subrange(0, 11) == header_magic()),
{
    let magic = header_magic_bytes();
    let mut i: usize = 0;
    while i < MAGIC_LEN
        invariant
            i <= 11,
            b@.len() >= 11,
            magic@ == header_magic(),
            forall|j: int| 0 <= j < i ==> b@[j] == magic@[j],
        decreases 11 - i,
    {
        if b[i] != magic[i] {
            assert(b@.subrange(0, 11)[i as int] != header_magic()[i as int]);
            return false;
        }
        i = i + 1;
    }
    assert(b@.subrange(0, 11) =~= header_magic());
    true
}

} // verus!
