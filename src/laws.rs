//! What holds of the format as a whole: the decoder does not depend on how
//! its input is split, and it gives back exactly what the encoder was given.
use crate::error::CopyError;
use crate::reader::{copy_stream, enc_values, tuple_prefix, whole_rows};
use crate::wire::{
    be16, be32, field_bytes, footer_bytes, header_bytes, header_magic, lemma_be16, lemma_be32,
    null_marker, payloads_fit,
};
use crate::wire::Field;
use crate::writer::{
    call_agrees, feed, handed_out, initial_model, lemma_feed_accumulate, next_field_state, settle,
    unit_len,
    DecoderModel, WriteState,
};
use vstd::arithmetic::div_mod::lemma_fundamental_div_mod_converse;
use vstd::prelude::*;

verus! {

/// Taking in `a` and then `b` is taking in `a + b`: however a stream is cut
/// into chunks, the decoder ends in the same state with the same fields
/// handed out, or fails with the same error.
pub proof fn lemma_feed_concat(m: DecoderModel, a: Seq<u8>, b: Seq<u8>)
    ensures
        feed(m, a + b) == match feed(m, a) {
            Ok(m1) => feed(m1, b),
            Err(e) => Err(e),
        },
    decreases b.len(),
{
    if b.len() == 0 {
        assert(a + b =~= a);
    } else {
        lemma_feed_concat(m, a, b.drop_last());
        assert((a + b).drop_last() =~= a + b.drop_last());
        assert((a + b).last() == b.last());
    }
}

/// A result of the decoder with any pending payload of no bytes handed out.
pub open spec fn settled(r: Result<DecoderModel, CopyError>) -> Result<DecoderModel, CopyError> {
    match r {
        Ok(m) => Ok(settle(m)),
        Err(e) => Err(e),
    }
}

/// Handing out a pending payload of no bytes before taking in more bytes
/// changes nothing: the first byte would hand it out anyway.
pub proof fn lemma_feed_settle(m: DecoderModel, b: Seq<u8>)
    requires
        b.len() > 0,
    ensures
        settle(settle(m)) == settle(m),
        feed(m, b) == feed(settle(m), b),
    decreases b.len(),
{
    if b.len() == 1 {
        assert(feed(m, b.drop_last()) == Ok::<DecoderModel, CopyError>(m));
        assert(feed(settle(m), b.drop_last()) == Ok::<DecoderModel, CopyError>(settle(m)));
    } else {
        lemma_feed_settle(m, b.drop_last());
    }
}

/// Two calls of the decoder, the second on the state the first left, take
/// in what taking in the bytes they used one after another takes in; and
/// they hand out the fields in that order. By induction, any sequence of
/// calls hands out what one call per byte, or one call on the whole stream,
/// would hand out.
pub proof fn lemma_calls_compose(
    m0: DecoderModel,
    in1: Seq<u8>,
    r1: Result<(usize, Option<Field>), CopyError>,
    m1: DecoderModel,
    in2: Seq<u8>,
    r2: Result<(usize, Option<Field>), CopyError>,
    m2: DecoderModel,
)
    requires
        m0.wf(),
        m1.wf(),
        call_agrees(m0, in1, r1, m1),
        call_agrees(m1, in2, r2, m2),
        r1 is Ok,
        r2 is Ok,
    ensures
        settled(
            feed(m0, in1.subrange(0, r1->Ok_0.0 as int) + in2.subrange(0, r2->Ok_0.0 as int)),
        ) == Ok::<DecoderModel, CopyError>(settle(m2)),
        m2.delivered == m0.delivered + handed_out(r1->Ok_0.1) + handed_out(r2->Ok_0.1),
{
    let a = in1.subrange(0, r1->Ok_0.0 as int);
    let b = in2.subrange(0, r2->Ok_0.0 as int);
    lemma_feed_concat(m0, a, b);
    if m0.state is AtField && m0.state->size == 0 {
        // The first call handed out the empty payload and took nothing.
        assert(a.len() == 0);
        assert(a + b =~= b);
        assert(feed(m0, a) == Ok::<DecoderModel, CopyError>(m0));
        let m1s = settle(m0);
        assert(m1 == m1s);
        assert(!(m1.state is AtField));
        if b.len() > 0 {
            lemma_feed_settle(m0, b);
        } else {
            assert(feed(m0, b) == Ok::<DecoderModel, CopyError>(m0));
            assert(feed(m1, b) == Ok::<DecoderModel, CopyError>(m1));
            lemma_feed_settle(m0, seq![0u8]);
        }
    } else if m1.state is AtField && m1.state->size == 0 {
        // The second call handed out the empty payload and took nothing.
        assert(b.len() == 0);
        assert(feed(m1, b) == Ok::<DecoderModel, CopyError>(m1));
        lemma_feed_settle(m1, seq![0u8]);
    }
    assert(m0.delivered + handed_out(r1->Ok_0.1) + handed_out(r2->Ok_0.1) =~= m2.delivered);
}

/// The header that the encoder writes takes the decoder to its first tuple,
/// with no row OIDs.
pub proof fn lemma_header()
    ensures
        feed(initial_model(), header_bytes()) == Ok::<DecoderModel, CopyError>(
            initial_model().moved_to(WriteState::AtTuple, false),
        ),
{
    let m = initial_model();
    let h = header_bytes();
    lemma_be32(0);
    assert(h.len() == 19);
    lemma_feed_accumulate(m, h);
    assert(m.buf + h =~= h);
    assert(h.subrange(0, 11) =~= header_magic());
    assert(h.subrange(11, 15) =~= be32(0));
}

/// A stream whose first 19 bytes do not open with the signature is refused
/// as soon as those bytes are in, before any tuple is read.
pub proof fn lemma_bad_header(bytes: Seq<u8>)
    requires
        bytes.len() >= 19,
        bytes.subrange(0, 11) != header_magic(),
    ensures
        feed(initial_model(), bytes.subrange(0, 19)) == Err::<DecoderModel, CopyError>(
            CopyError::BadHeader,
        ),
        feed(initial_model(), bytes) == Err::<DecoderModel, CopyError>(CopyError::BadHeader),
{
    let m = initial_model();
    let h = bytes.subrange(0, 19);
    lemma_feed_accumulate(m, h);
    assert(m.buf + h =~= h);
    assert(h.subrange(0, 11) =~= bytes.subrange(0, 11));
    lemma_feed_concat(m, h, bytes.subrange(19, bytes.len() as int));
    assert(h + bytes.subrange(19, bytes.len() as int) =~= bytes);
}

/// A tuple field count of `c` opens a tuple of `c` fields, one more when
/// the header announced row OIDs; a tuple of none is over at once.
pub proof fn lemma_tuple_count(m: DecoderModel, c: int)
    requires
        m.wf(),
        m.state == WriteState::AtTuple,
        m.buf.len() == 0,
        0 <= c <= i16::MAX,
    ensures
        ({
            let count = if m.has_oids {
                c + 1
            } else {
                c
            };
            feed(m, be16(c)) == Ok::<DecoderModel, CopyError>(
                m.moved_to(
                    if count == 0 {
                        WriteState::AtTuple
                    } else {
                        WriteState::AtFieldSize(count as usize)
                    },
                    m.has_oids,
                ),
            )
        }),
{
    lemma_be16(c);
    lemma_feed_accumulate(m, be16(c));
    assert(m.buf + be16(c) =~= be16(c));
}

/// The end marker ends the stream.
pub proof fn lemma_footer(m: DecoderModel)
    requires
        m.wf(),
        m.state == WriteState::AtTuple,
        m.buf.len() == 0,
    ensures
        feed(m, footer_bytes()) == Ok::<DecoderModel, CopyError>(
            m.moved_to(WriteState::Done, m.has_oids),
        ),
{
    lemma_be16(-1);
    lemma_feed_accumulate(m, footer_bytes());
    assert(m.buf + footer_bytes() =~= footer_bytes());
}

/// After the end marker every further byte is refused.
pub proof fn lemma_after_end(m: DecoderModel, more: Seq<u8>)
    requires
        m.state == WriteState::Done,
        more.len() > 0,
    ensures
        feed(m, more) == Err::<DecoderModel, CopyError>(CopyError::InputAfterEnd),
    decreases more.len(),
{
    if more.len() > 1 {
        lemma_after_end(m, more.drop_last());
    } else {
        assert(feed(m, more.drop_last()) == Ok::<DecoderModel, CopyError>(m));
    }
}

/// One field on the wire hands out exactly that field; a payload of no bytes
/// is handed out by the next call, which takes nothing. A null marker hands
/// out the null at once and reads no payload: the decoder goes straight on
/// to the next length prefix or tuple.
pub proof fn lemma_field(m: DecoderModel, f: Option<Seq<u8>>)
    requires
        m.wf(),
        m.state is AtFieldSize,
        m.buf.len() == 0,
        payloads_fit(seq![f]),
    ensures
        settled(feed(m, field_bytes(f))) == Ok::<DecoderModel, CopyError>(
            m.delivering(f, m.state->AtFieldSize_0),
        ),
        f is None ==> feed(m, field_bytes(f)) == Ok::<DecoderModel, CopyError>(
            m.delivering(f, m.state->AtFieldSize_0),
        ),
        f is None ==> field_bytes(f) == null_marker(),
        !(next_field_state(m.state->AtFieldSize_0) is AtField),
{
    let r = m.state->AtFieldSize_0;
    assert(seq![f][0] == f);
    match f {
        None => {
            lemma_be32(-1);
            lemma_feed_accumulate(m, null_marker());
            assert(m.buf + null_marker() =~= null_marker());
        },
        Some(p) => {
            let len = p.len() as int;
            lemma_be32(len);
            if len == 0 {
                assert(field_bytes(f) =~= be32(0));
                assert(p =~= Seq::<u8>::empty());
                lemma_feed_accumulate(m, be32(0));
                assert(m.buf + be32(0) =~= be32(0));
                assert(m.moved_to(WriteState::AtField { size: 0, remaining: r }, m.has_oids).delivering(
                    Some(Seq::empty()),
                    r,
                ) == m.delivering(f, r));
            } else {
                lemma_feed_accumulate(m, be32(len));
                assert(m.buf + be32(len) =~= be32(len));
                let m1 = m.moved_to(WriteState::AtField { size: len as usize, remaining: r }, m.has_oids);
                assert(feed(m, be32(len)) == Ok::<DecoderModel, CopyError>(m1));
                assert(unit_len(m1.state) == len);
                lemma_feed_accumulate(m1, p);
                assert(m1.buf + p =~= p);
                lemma_feed_concat(m, be32(len), p);
            }
        },
    }
}

/// The fields of `fs` one after another on the wire.
pub open spec fn fields_bytes(fs: Seq<Option<Seq<u8>>>) -> Seq<u8>
    decreases fs.len(),
{
    if fs.len() == 0 {
        Seq::empty()
    } else {
        fields_bytes(fs.drop_last()) + field_bytes(fs.last())
    }
}

proof fn lemma_field_bytes_nonempty(f: Option<Seq<u8>>)
    ensures
        field_bytes(f).len() >= 4,
{
    lemma_be32(-1);
    if let Some(p) = f {
        assert(be32(p.len() as int).len() == 4);
    }
}

/// Whether `fs` carries payloads short enough; and the same of a prefix.
proof fn lemma_payloads_fit_prefix(fs: Seq<Option<Seq<u8>>>)
    requires
        fs.len() > 0,
        payloads_fit(fs),
    ensures
        payloads_fit(fs.drop_last()),
        payloads_fit(seq![fs.last()]),
{
    assert forall|i: int| 0 <= i < fs.drop_last().len() implies match #[trigger] fs.drop_last()[i] {
        Some(p) => p.len() <= i32::MAX,
        None => true,
    } by {
        assert(fs.drop_last()[i] == fs[i]);
    }
    assert forall|i: int| 0 <= i < 1 implies match #[trigger] seq![fs.last()][i] {
        Some(p) => p.len() <= i32::MAX,
        None => true,
    } by {
        assert(seq![fs.last()][i] == fs[fs.len() - 1]);
    }
}

/// With `r` fields left in a tuple, the next `fs.len()` fields on the wire
/// are handed out in order, and the tuple is over exactly when `r` of them
/// have come.
pub proof fn lemma_fields(m: DecoderModel, fs: Seq<Option<Seq<u8>>>)
    requires
        m.wf(),
        m.state is AtFieldSize,
        m.buf.len() == 0,
        fs.len() <= m.state->AtFieldSize_0,
        payloads_fit(fs),
    ensures
        ({
            let r = m.state->AtFieldSize_0;
            settled(feed(m, fields_bytes(fs))) == Ok::<DecoderModel, CopyError>(
                DecoderModel {
                    state: if fs.len() == r {
                        WriteState::AtTuple
                    } else {
                        WriteState::AtFieldSize((r - fs.len()) as usize)
                    },
                    has_oids: m.has_oids,
                    buf: Seq::empty(),
                    delivered: m.delivered + fs,
                },
            )
        }),
    decreases fs.len(),
{
    let r = m.state->AtFieldSize_0;
    if fs.len() == 0 {
        assert(m.delivered + fs =~= m.delivered);
        assert(m.buf =~= Seq::<u8>::empty());
    } else {
        let p = fs.drop_last();
        lemma_payloads_fit_prefix(fs);
        lemma_fields(m, p);
        let m1 = DecoderModel {
            state: WriteState::AtFieldSize((r - p.len()) as usize),
            has_oids: m.has_oids,
            buf: Seq::empty(),
            delivered: m.delivered + p,
        };
        lemma_field(m1, fs.last());
        lemma_feed_concat(m, fields_bytes(p), field_bytes(fs.last()));
        lemma_field_bytes_nonempty(fs.last());
        lemma_feed_settle(feed(m, fields_bytes(p))->Ok_0, field_bytes(fs.last()));
        assert(m.delivered + p + seq![fs.last()] =~= m.delivered + fs);
        assert((m.delivered + p).push(fs.last()) =~= m.delivered + fs);
    }
}

/// Every tuple hands out as many fields as its field count announces, one
/// more when the header announced row OIDs, and then the decoder is back at
/// the start of a tuple.
pub proof fn lemma_tuple_fields(m: DecoderModel, c: int, fs: Seq<Option<Seq<u8>>>)
    requires
        m.wf(),
        m.state == WriteState::AtTuple,
        m.buf.len() == 0,
        0 <= c <= i16::MAX,
        fs.len() == c + if m.has_oids {
            1int
        } else {
            0int
        },
        payloads_fit(fs),
    ensures
        settled(feed(m, be16(c) + fields_bytes(fs))) == Ok::<DecoderModel, CopyError>(
            DecoderModel {
                state: WriteState::AtTuple,
                has_oids: m.has_oids,
                buf: Seq::empty(),
                delivered: m.delivered + fs,
            },
        ),
{
    lemma_tuple_count(m, c);
    lemma_feed_concat(m, be16(c), fields_bytes(fs));
    if fs.len() == 0 {
        assert(be16(c) + fields_bytes(fs) =~= be16(c));
        assert(m.delivered + fs =~= m.delivered);
    } else {
        let m1 = m.moved_to(WriteState::AtFieldSize(fs.len() as usize), m.has_oids);
        lemma_fields(m1, fs);
    }
}

/// The decoder after the header and the tuples of `values`, rows of
/// `n` values, the last row possibly incomplete.
pub open spec fn model_after(n: nat, values: Seq<Option<Seq<u8>>>) -> DecoderModel {
    let k = (values.len() as int) % (n as int);
    DecoderModel {
        state: if k == 0 {
            WriteState::AtTuple
        } else {
            WriteState::AtFieldSize((n - k) as usize)
        },
        has_oids: false,
        buf: Seq::empty(),
        delivered: values,
    }
}

proof fn lemma_values(n: nat, values: Seq<Option<Seq<u8>>>)
    requires
        1 <= n <= i16::MAX,
        payloads_fit(values),
    ensures
        settled(feed(initial_model().moved_to(WriteState::AtTuple, false), enc_values(n, values)))
            == Ok::<DecoderModel, CopyError>(model_after(n, values)),
    decreases values.len(),
{
    let h = initial_model().moved_to(WriteState::AtTuple, false);
    if values.len() == 0 {
        assert(enc_values(n, values) =~= Seq::<u8>::empty());
        lemma_fundamental_div_mod_converse(0, n as int, 0, 0);
        assert(h.delivered =~= values);
    } else {
        let ov = values.drop_last();
        let v = values.last();
        let k = ov.len();
        lemma_payloads_fit_prefix(values);
        lemma_values(n, ov);
        let mo = model_after(n, ov);
        let tp = tuple_prefix(n, k);
        lemma_feed_concat(h, enc_values(n, ov), tp);
        lemma_feed_concat(h, enc_values(n, ov) + tp, field_bytes(v));
        crate::reader::lemma_next_index(values.len() as int, n as int);
        let mo_raw = feed(h, enc_values(n, ov))->Ok_0;
        lemma_field_bytes_nonempty(v);
        if (k as int) % (n as int) == 0 {
            lemma_be16(n as int);
            lemma_feed_settle(mo_raw, tp);
            lemma_tuple_count(mo, n as int);
            let m1 = mo.moved_to(WriteState::AtFieldSize(n as usize), false);
            lemma_field(m1, v);
        } else {
            assert(tp =~= Seq::<u8>::empty());
            assert(feed(mo_raw, tp) == Ok::<DecoderModel, CopyError>(mo_raw));
            lemma_feed_settle(mo_raw, field_bytes(v));
            lemma_field(mo, v);
        }
        assert(ov.push(v) =~= values);
    }
}

/// What the encoder writes for whole rows of `n` values, the decoder gives
/// back: the same values, nulls included, in the same order, and it then
/// stands at the end of the stream.
pub proof fn lemma_round_trip(n: nat, values: Seq<Option<Seq<u8>>>)
    requires
        whole_rows(n, values),
        values.len() > 0 ==> n <= i16::MAX,
        payloads_fit(values),
    ensures
        feed(initial_model(), copy_stream(n, values)) == Ok::<DecoderModel, CopyError>(
            DecoderModel {
                state: WriteState::Done,
                has_oids: false,
                buf: Seq::empty(),
                delivered: values,
            },
        ),
{
    let h = initial_model().moved_to(WriteState::AtTuple, false);
    lemma_header();
    lemma_feed_concat(initial_model(), header_bytes(), enc_values(n, values));
    lemma_feed_concat(
        initial_model(),
        header_bytes() + enc_values(n, values),
        footer_bytes(),
    );
    if values.len() == 0 {
        assert(enc_values(n, values) =~= Seq::<u8>::empty());
        assert(header_bytes() + enc_values(n, values) =~= header_bytes());
        lemma_feed_concat(initial_model(), header_bytes(), Seq::empty());
        assert(h.with_buf(h.buf) == h);
        lemma_footer(h);
        assert(h.delivered =~= values);
    } else {
        lemma_values(n, values);
        lemma_be16(-1);
        lemma_feed_settle(
            feed(h, enc_values(n, values))->Ok_0,
            footer_bytes(),
        );
        lemma_feed_concat(h, enc_values(n, values), footer_bytes());
        lemma_footer(model_after(n, values));
    }
}

} // verus!
