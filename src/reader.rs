//! The encoder: turns field values, handed to it one at a time in row-major
//! order, into a binary `COPY` stream that its caller drains in chunks.
use crate::error::CopyError;
use crate::wire::{
    be16, be_i16_bytes, be_i32_bytes, field_bytes, footer_bytes, header_bytes, header_magic_bytes,
    min_len, payloads_fit, Field,
};
use crate::laws::lemma_round_trip;
use crate::writer::{feed, initial_model, DecoderModel, WriteState};
use vstd::arithmetic::div_mod::{
    lemma_fundamental_div_mod, lemma_fundamental_div_mod_converse, lemma_mod_bound,
};
use vstd::prelude::*;

verus! {

/// Where the encoder stands in the stream.
#[derive(Clone, Copy, Debug, PartialEq, Eq, Structural)]
pub enum ReadState {
    /// No value has been taken yet.
    Header,
    /// The last value taken went into the column with this index.
    Body(usize),
    /// The end marker has been written.
    Footer,
}

/// What the encoder is, as a mathematical value: the width of a row, its
/// state, the values taken so far, the bytes handed out so far and the
/// bytes staged but not yet handed out.
pub struct EncoderModel {
    pub num_columns: nat,
    pub state: ReadState,
    pub values: Seq<Option<Seq<u8>>>,
    pub produced: Seq<u8>,
    pub pending: Seq<u8>,
}

/// The field count that opens a tuple, written before the value with index
/// `k` when `k` starts a row.
pub open spec fn tuple_prefix(num_columns: nat, k: nat) -> Seq<u8> {
    if k % num_columns == 0 {
        be16(num_columns as int)
    } else {
        Seq::empty()
    }
}

/// The tuples that carry `values`, in row-major order, rows of
/// `num_columns` values.
pub open spec fn enc_values(num_columns: nat, values: Seq<Option<Seq<u8>>>) -> Seq<u8>
    decreases values.len(),
{
    if values.len() == 0 {
        Seq::empty()
    } else {
        enc_values(num_columns, values.drop_last()) + tuple_prefix(
            num_columns,
            (values.len() - 1) as nat,
        ) + field_bytes(values.last())
    }
}

/// The whole stream that carries `values` in rows of `num_columns`.
pub open spec fn copy_stream(num_columns: nat, values: Seq<Option<Seq<u8>>>) -> Seq<u8> {
    header_bytes() + enc_values(num_columns, values) + footer_bytes()
}

/// Whether `values` make up whole rows of `num_columns` values.
pub open spec fn whole_rows(num_columns: nat, values: Seq<Option<Seq<u8>>>) -> bool {
    values.len() == 0 || (num_columns > 0 && values.len() % num_columns == 0)
}

impl EncoderModel {
    pub open spec fn wf(self) -> bool {
        &&& payloads_fit(self.values)
        &&& self.values.len() > 0 ==> self.num_columns <= i16::MAX
        &&& match self.state {
            ReadState::Header => {
                &&& self.values.len() == 0
                &&& self.produced + self.pending == header_bytes()
            },
            ReadState::Body(i) => {
                &&& self.num_columns >= 1
                &&& self.values.len() >= 1
                &&& i == (self.values.len() - 1) % (self.num_columns as int)
                &&& self.produced + self.pending == header_bytes() + enc_values(
                    self.num_columns,
                    self.values,
                )
            },
            ReadState::Footer => {
                &&& whole_rows(self.num_columns, self.values)
                &&& self.produced + self.pending == copy_stream(self.num_columns, self.values)
            },
        }
    }
}

/// An encoder of the binary `COPY` format. It stages one unit at a time (the
/// header, one field with the field count of its tuple if it opens one, or
/// the end marker) and hands the staged bytes out in chunks.
pub struct BinaryCopyReader {
    num_columns: usize,
    state: ReadState,
    buf: Vec<u8>,
    pos: usize,
    values: Ghost<Seq<Option<Seq<u8>>>>,
    produced: Ghost<Seq<u8>>,
}

impl View for BinaryCopyReader {
    type V = EncoderModel;

    closed spec fn view(&self) -> EncoderModel {
        EncoderModel {
            num_columns: self.num_columns as nat,
            state: self.state,
            values: self.values@,
            produced: self.produced@,
            pending: self.buf@.subrange(self.pos as int, self.buf@.len() as int),
        }
    }
}

impl BinaryCopyReader {
    pub closed spec fn wf(&self) -> bool {
        &&& self.pos <= self.buf@.len()
        &&& self@.wf()
    }

    /// An encoder for rows of `num_columns` values, with the header staged.
    pub fn new(num_columns: usize) -> (r: BinaryCopyReader)
        ensures
            r.wf(),
            r@.num_columns == num_columns,
            r@.state == ReadState::Header,
            r@.values.len() == 0,
            r@.produced.len() == 0,
            r@.pending == header_bytes(),
    {
        let mut buf = header_magic_bytes();
        let mut flags = be_i32_bytes(0);
        let mut ext = be_i32_bytes(0);
        buf.append(&mut flags);
        buf.append(&mut ext);
        let r = BinaryCopyReader {
            num_columns,
            state: ReadState::Header,
            buf,
            pos: 0,
            values: Ghost(Seq::empty()),
            produced: Ghost(Seq::empty()),
        };
        assert(r@.pending =~= header_bytes());
        assert(r@.produced + r@.pending =~= header_bytes());
        r
    }

    /// Whether every staged byte has been handed out.
    pub fn is_drained(&self) -> (r: bool)
        requires
            self.wf(),
        ensures
            r == (self@.pending.len() == 0),
    {
        self.pos == self.buf.len()
    }

    /// Whether the whole stream has been handed out; it then carries exactly
    /// the values taken.
    pub fn is_finished(&self) -> (r: bool)
        requires
            self.wf(),
        ensures
            r == (self@.pending.len() == 0 && self@.state == ReadState::Footer),
            r ==> self@.produced == copy_stream(self@.num_columns, self@.values),
            r ==> feed(initial_model(), self@.produced) == Ok::<DecoderModel, CopyError>(
                DecoderModel {
                    state: WriteState::Done,
                    has_oids: false,
                    buf: Seq::empty(),
                    delivered: self@.values,
                },
            ),
    {
        let done = match self.state {
            ReadState::Footer => true,
            _ => false,
        };
        proof {
            if done && self.pos == self.buf.len() {
                assert(self@.produced + self@.pending =~= self@.produced);
                lemma_round_trip(self@.num_columns, self@.values);
            }
        }
        done && self.pos == self.buf.len()
    }

    /// Whether the values taken make up whole rows, so that the stream may
    /// end here.
    pub fn at_row_boundary(&self) -> (r: bool)
        requires
            self.wf(),
        ensures
            r == whole_rows(self@.num_columns, self@.values),
    {
        proof {
            if let ReadState::Body(_) = self.state {
                lemma_next_index(self@.values.len() as int, self@.num_columns as int);
            }
        }
        match self.state {
            ReadState::Header => true,
            ReadState::Body(i) => i + 1 == self.num_columns,
            ReadState::Footer => true,
        }
    }

    /// The index of the column that the next value goes into.
    pub fn next_column(&self) -> (r: usize)
        requires
            self.wf(),
            self@.num_columns >= 1,
        ensures
            r == (self@.values.len() as int) % (self@.num_columns as int),
    {
        proof {
            if let ReadState::Body(_) = self.state {
                lemma_next_index(self@.values.len() as int, self@.num_columns as int);
            }
            lemma_fundamental_div_mod_converse(0, self@.num_columns as int, 0, 0);
        }
        match self.state {
            ReadState::Header => 0,
            ReadState::Body(i) => if i + 1 == self.num_columns {
                0
            } else {
                i + 1
            },
            ReadState::Footer => 0,
        }
    }

    /// Stages the next unit once everything staged has been handed out:
    /// the field `next` (opening a tuple when it starts a row), or the end
    /// marker when there is no next value. Once the end marker is written it
    /// does nothing.
    pub fn fill_buf(&mut self, next: Option<Field>) -> (r: Result<(), CopyError>)
        requires
            old(self).wf(),
            old(self)@.pending.len() == 0,
            next is None && old(self)@.state != ReadState::Footer ==> whole_rows(
                old(self)@.num_columns,
                old(self)@.values,
            ),
            next is Some ==> old(self)@.num_columns >= 1,
        ensures
            final(self).wf(),
            final(self)@.num_columns == old(self)@.num_columns,
            final(self)@.produced == old(self)@.produced,
            old(self)@.state == ReadState::Footer ==> r is Ok && final(self)@ == old(self)@,
            old(self)@.state != ReadState::Footer ==> fill_agrees(old(self)@, next, r, final(self)@),
    {
        if let ReadState::Footer = self.state {
            return Ok(());
        }
        let ghost old_values = self.values@;
        match next {
            None => {
                self.buf = be_i16_bytes(-1);
                self.pos = 0;
                self.state = ReadState::Footer;
                proof {
                    assert(old(self)@.produced + old(self)@.pending =~= old(self)@.produced);
                    if self@.values.len() == 0 {
                        assert(enc_values(self@.num_columns, self@.values) =~= Seq::empty());
                        assert(header_bytes() + enc_values(self@.num_columns, self@.values)
                            =~= header_bytes());
                    }
                    assert(self@.pending =~= footer_bytes());
                    assert(self@.produced + self@.pending =~= copy_stream(
                        self@.num_columns,
                        self@.values,
                    ));
                }
                Ok(())
            },
            Some(f) => {
                let idx = self.next_column();
                if idx == 0 && self.num_columns > i16::MAX as usize {
                    return Err(CopyError::SchemaTooWide);
                }
                let mut out: Vec<u8> = if idx == 0 {
                    be_i16_bytes(self.num_columns as i16)
                } else {
                    Vec::new()
                };
                assert(out@ == tuple_prefix(self@.num_columns, old_values.len()));
                let ghost fv = f@;
                match f {
                    Field::Null => {
                        let mut marker = be_i32_bytes(-1);
                        out.append(&mut marker);
                    },
                    Field::Value(p) => {
                        if p.len() > i32::MAX as usize {
                            return Err(CopyError::ValueTooLarge);
                        }
                        let mut p = p;
                        let mut len = be_i32_bytes(p.len() as i32);
                        out.append(&mut len);
                        out.append(&mut p);
                    },
                }
                let ghost staged = out@;
                proof {
                    assert(staged =~= tuple_prefix(self@.num_columns, old_values.len()) + field_bytes(
                        fv,
                    ));
                    assert(old(self)@.produced + old(self)@.pending =~= old(self)@.produced);
                    if old_values.len() == 0 {
                        assert(enc_values(self@.num_columns, old_values) =~= Seq::empty());
                        assert(header_bytes() + enc_values(self@.num_columns, old_values)
                            =~= header_bytes());
                    }
                }
                self.buf = out;
                self.pos = 0;
                self.state = ReadState::Body(idx);
                self.values = Ghost(self.values@.push(fv));
                proof {
                    let n = self@.num_columns;
                    let nv = self@.values;
                    assert(nv.drop_last() =~= old_values);
                    assert(nv.last() == fv);
                    assert(enc_values(n, nv) == enc_values(n, old_values) + tuple_prefix(
                        n,
                        old_values.len(),
                    ) + field_bytes(fv));
                    assert(self@.pending =~= staged);
                    assert(self@.produced == header_bytes() + enc_values(n, old_values));
                    assert(self@.produced + self@.pending =~= header_bytes() + enc_values(n, nv));
                    lemma_next_index(nv.len() as int, n as int);
                    lemma_fundamental_div_mod_converse(0, n as int, 0, 0);
                    assert(n <= i16::MAX);
                    assert forall|j: int| 0 <= j < nv.len() implies match #[trigger] nv[j] {
                        Some(q) => q.len() <= i32::MAX,
                        None => true,
                    } by {
                        if j < old_values.len() {
                            assert(nv[j] == old_values[j]);
                        }
                    }
                }
                Ok(())
            },
        }
    }

    /// Hands out staged bytes: copies as many as fit to the front of `dest`
    /// and returns how many.
    pub fn read_with_info(&mut self, dest: &mut [u8]) -> (r: usize)
        requires
            old(self).wf(),
        ensures
            final(self).wf(),
            r == min_len(old(self)@.pending.len(), old(dest)@.len()),
            final(dest)@.len() == old(dest)@.len(),
            final(dest)@.subrange(0, r as int) == old(self)@.pending.subrange(0, r as int),
            final(dest)@.subrange(r as int, old(dest)@.len() as int) == old(dest)@.subrange(
                r as int,
                old(dest)@.len() as int,
            ),
            final(self)@.produced == old(self)@.produced + old(self)@.pending.subrange(0, r as int),
            final(self)@.pending == old(self)@.pending.subrange(r as int, old(self)@.pending.len() as int),
            final(self)@.num_columns == old(self)@.num_columns,
            final(self)@.state == old(self)@.state,
            final(self)@.values == old(self)@.values,
    {
        let avail = self.buf.len() - self.pos;
        let n = if avail < dest.len() {
            avail
        } else {
            dest.len()
        };
        let ghost start = self.pos as int;
        let mut i: usize = 0;
        while i < n
            invariant
                i <= n,
                n <= dest@.len(),
                start + n <= self.buf@.len(),
                start + n <= self.buf.len(),
                self.pos == start,
                dest@.len() == old(dest)@.len(),
                forall|j: int| 0 <= j < i ==> dest@[j] == self.buf@[start + j],
                forall|j: int| i <= j < dest@.len() ==> dest@[j] == old(dest)@[j],
            decreases n - i,
        {
            dest[i] = self.buf[self.pos + i];
            i = i + 1;
        }
        self.pos = self.pos + n;
        self.produced = Ghost(
            self.produced@ + self.buf@.subrange(start, start + n as int),
        );
        proof {
            let before = old(self)@.pending;
            assert(before.subrange(0, n as int) =~= self.buf@.subrange(start, start + n as int));
            assert(self@.pending =~= before.subrange(n as int, before.len() as int));
            assert(dest@.subrange(0, n as int) =~= before.subrange(0, n as int));
            assert(dest@.subrange(n as int, dest@.len() as int) =~= old(dest)@.subrange(
                n as int,
                old(dest)@.len() as int,
            ));
            assert(self@.produced + self@.pending =~= old(self)@.produced + before);
        }
        n
    }
}

/// The column after the one that took value `len - 1` is the column of
/// value `len`, and it starts a row exactly when the earlier one ended one.
pub proof fn lemma_next_index(len: int, n: int)
    requires
        n >= 1,
        len >= 1,
    ensures
        0 <= (len - 1) % n < n,
        ((len - 1) % n + 1 == n) == (len % n == 0),
        (len - 1) % n + 1 != n ==> len % n == (len - 1) % n + 1,
{
    let q = (len - 1) / n;
    let r = (len - 1) % n;
    lemma_fundamental_div_mod(len - 1, n);
    lemma_mod_bound(len - 1, n);
    if r + 1 == n {
        assert(len == (q + 1) * n + 0) by (nonlinear_arith)
            requires
                len - 1 == n * q + r,
                r + 1 == n,
        ;
        lemma_fundamental_div_mod_converse(len, n, q + 1, 0);
    } else {
        assert(len == q * n + (r + 1)) by (nonlinear_arith)
            requires
                len - 1 == n * q + r,
        ;
        lemma_fundamental_div_mod_converse(len, n, q, r + 1);
    }
}

/// One refill of `m` with `next`, with result `r` and model `m2` after it,
/// stages exactly the unit the stream format asks for.
pub open spec fn fill_agrees(
    m: EncoderModel,
    next: Option<Field>,
    r: Result<(), CopyError>,
    m2: EncoderModel,
) -> bool {
    let k = m.values.len();
    match next {
        None => {
            &&& r is Ok
            &&& m2.state == ReadState::Footer
            &&& m2.values == m.values
            &&& m2.pending == footer_bytes()
        },
        Some(f) => {
            let opens_tuple = (k as int) % (m.num_columns as int) == 0;
            if opens_tuple && m.num_columns > i16::MAX {
                r == Err::<(), CopyError>(CopyError::SchemaTooWide) && m2 == m
            } else if f@ is Some && f@->Some_0.len() > i32::MAX {
                r == Err::<(), CopyError>(CopyError::ValueTooLarge) && m2 == m
            } else {
                &&& r is Ok
                &&& m2.state == ReadState::Body(((k as int) % (m.num_columns as int)) as usize)
                &&& m2.values == m.values.push(f@)
                &&& m2.pending == tuple_prefix(m.num_columns, k) + field_bytes(f@)
            }
        },
    }
}

} // verus!
