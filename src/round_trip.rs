use vstd::prelude::*;

use crate::code_size::{is_width, lemma_max_code, CodeSize};
use crate::decoder::{
    decode_from, decode_step, decoder_start, decompressed, lemma_decode_concat, lemma_decode_err,
    single_bytes,
    DecoderState,
};
use crate::encoder::{
    code_of, compressed, encode_prefix, encoder_start, encode_step, encoder_inv, entry, known,
    lemma_code_of_known, lemma_encode_prefix_inv, EncoderState,
};
use crate::errors::DecompressError;
use crate::code_size::pow256;
use crate::packing::{le_bytes, le_value, lemma_le_bytes_len, lemma_le_round_trip};

verus! {

/// Whether the encoder, once its dictionary is full, ever matches the entry
/// that filled it. That entry's code is the one the decoder never learns, as
/// it is registered without a literal byte.
pub open spec fn reaches_last_entry(input: Seq<u8>, cs: CodeSize) -> bool {
    exists|k: int|
        0 <= k <= input.len() && {
            let st = #[trigger] encode_prefix(input.take(k), cs);
            st.locked && st.buffer == st.dict.last()
        }
}

/// The decoder's dictionary is the encoder's, less the entry that filled it.
spec fn related(e: EncoderState, d: DecoderState, consumed: Seq<u8>) -> bool {
    &&& d.dict == single_bytes() + (if e.locked {
        e.dict.drop_last()
    } else {
        e.dict
    })
    &&& d.code_buffer == Seq::<u8>::empty()
    &&& d.output + e.buffer == consumed
}

proof fn lemma_entry_in_decoder(dict: Seq<Seq<u8>>, c: int)
    requires
        0 <= c < 256 + dict.len(),
    ensures
        (single_bytes() + dict)[c] == entry(dict, c),
{
    if c < 256 {
        assert((single_bytes() + dict)[c] =~= entry(dict, c));
    }
}

/// Reading the first `k` bytes of a code only fills the code buffer.
proof fn lemma_decode_partial_code(d: DecoderState, code: nat, k: nat, cs: CodeSize)
    requires
        d.code_buffer == Seq::<u8>::empty(),
        k < cs.width(),
    ensures
        decode_from(Ok(d), le_bytes(code, cs.width()).take(k as int), cs) == Ok::<DecoderState, u16>(
            DecoderState { dict: d.dict, code_buffer: le_bytes(code, cs.width()).take(k as int), output: d.output },
        ),
    decreases k,
{
    let bytes = le_bytes(code, cs.width());
    lemma_le_bytes_len(code, cs.width());
    if k == 0 {
        assert(bytes.take(0) =~= Seq::<u8>::empty());
    } else {
        lemma_decode_partial_code(d, code, (k - 1) as nat, cs);
        assert(bytes.take(k as int).drop_last() =~= bytes.take(k - 1));
        assert(bytes.take(k - 1).push(bytes.take(k as int).last()) =~= bytes.take(k as int));
    }
}

/// Reading a whole code outputs its string, or fails at check `2` when the
/// decoder does not know it.
proof fn lemma_decode_code(d: DecoderState, code: nat, cs: CodeSize)
    requires
        d.code_buffer == Seq::<u8>::empty(),
        code < pow256(cs.width()),
    ensures
        decode_from(Ok(d), le_bytes(code, cs.width()), cs) == if code < d.dict.len() {
            Ok::<DecoderState, u16>(
                DecoderState {
                    dict: d.dict,
                    code_buffer: if d.dict.len() == cs.max_code() {
                        Seq::<u8>::empty()
                    } else {
                        le_bytes(code, cs.width())
                    },
                    output: d.output + d.dict[code as int],
                },
            )
        } else {
            Err::<DecoderState, u16>(2)
        },
{
    let w = cs.width();
    let bytes = le_bytes(code, w);
    lemma_le_bytes_len(code, w);
    lemma_decode_partial_code(d, code, (w - 1) as nat, cs);
    assert(bytes.drop_last() =~= bytes.take(w - 1));
    assert(bytes.take(w - 1).push(bytes.last()) =~= bytes);
    lemma_le_round_trip(code, w);
}

/// The code of the match is one the decoder knows, and stands for the match.
proof fn lemma_match_in_decoder(e: EncoderState, d: DecoderState, consumed: Seq<u8>, cs: CodeSize)
    requires
        encoder_inv(e, cs),
        related(e, d, consumed),
        e.buffer.len() > 0,
        e.locked ==> e.buffer != e.dict.last(),
    ensures
        code_of(e.dict, e.buffer) < d.dict.len(),
        code_of(e.dict, e.buffer) <= cs.max_code(),
        d.dict[code_of(e.dict, e.buffer)] == e.buffer,
        d.dict.len() == cs.max_code() <==> (e.locked || 256 + e.dict.len() == cs.max_code()),
        code_of(e.dict, e.buffer) < pow256(cs.width()),
{
    let c = code_of(e.dict, e.buffer);
    lemma_code_of_known(e.dict, e.buffer);
    lemma_max_code(cs);
    if e.locked {
        assert(e.dict.len() >= 1);
        if c == 256 + e.dict.len() - 1 {
            assert(entry(e.dict, c) == e.dict.last());
        }
        assert(c != 256 + e.dict.len() - 1);
        lemma_entry_in_decoder(e.dict.drop_last(), c);
    } else {
        lemma_entry_in_decoder(e.dict, c);
    }
}

/// Decoding what one encoder step writes keeps the two sides related.
proof fn lemma_step_related(e: EncoderState, d: DecoderState, p: Seq<u8>, b: u8, cs: CodeSize) -> (d2:
    DecoderState)
    requires
        encoder_inv(e, cs),
        related(e, d, p),
        e.locked ==> e.buffer != e.dict.last(),
        decode_from(Ok(decoder_start()), e.output.drop_first(), cs) == Ok::<DecoderState, u16>(d),
    ensures
        decode_from(Ok(decoder_start()), encode_step(e, b, cs).output.drop_first(), cs) == Ok::<
            DecoderState,
            u16,
        >(d2),
        related(encode_step(e, b, cs), d2, p.push(b)),
{
    let e2 = encode_step(e, b, cs);
    let input = p.push(b);
    let grown = e.buffer.push(b);
    let w = cs.width();
    if known(e.dict, grown) {
        assert(d.output + e2.buffer =~= (d.output + e.buffer).push(b));
        d
    } else {
        assert(e.buffer.len() > 0);
        let c = code_of(e.dict, e.buffer);
        lemma_match_in_decoder(e, d, p, cs);
        let chunk = e2.output.subrange(e.output.len() as int, e2.output.len() as int);
        assert(e2.output.drop_first() =~= e.output.drop_first() + chunk);
        lemma_decode_concat(Ok(decoder_start()), e.output.drop_first(), chunk, cs);
        let code_bytes = le_bytes(c as nat, w);
        lemma_decode_code(d, c as nat, cs);
        let d1 = DecoderState {
            dict: d.dict,
            code_buffer: if d.dict.len() == cs.max_code() {
                Seq::<u8>::empty()
            } else {
                code_bytes
            },
            output: d.output + e.buffer,
        };
        let locks_now = !e.locked && 256 + e.dict.len() == cs.max_code();
        if e.locked || locks_now {
            assert(chunk =~= code_bytes);
            assert(d1.output + e2.buffer =~= input);
            assert(decode_from(Ok(decoder_start()), e2.output.drop_first(), cs) == Ok::<DecoderState, u16>(d1));
            if !e.locked {
                assert(e2.dict.drop_last() =~= e.dict);
            }
            d1
        } else {
            assert(chunk =~= code_bytes.push(b));
            lemma_decode_concat(Ok(d), code_bytes, seq![b], cs);
            assert(seq![b].drop_last() =~= Seq::<u8>::empty());
            lemma_le_bytes_len(c as nat, w);
            lemma_le_round_trip(c as nat, w);
            assert(d1.code_buffer == code_bytes);
            assert(code_bytes.push(b) =~= code_bytes + seq![b]);
            assert(seq![b].last() == b);
            assert(decode_from(Ok(d1), Seq::<u8>::empty(), cs) == Ok::<DecoderState, u16>(d1));
            assert(decode_from(Ok(d1), seq![b], cs) == decode_step(d1, b, cs));
            assert(decode_step(d1, b, cs) is Ok);
            let d2 = decode_step(d1, b, cs)->Ok_0;
            assert(d2.dict =~= single_bytes() + e2.dict);
            assert(d2.output + e2.buffer =~= input);
            d2
        }
    }
}

/// The decoder, run over what the encoder has written for `input`, has the
/// encoder's dictionary and has output all of `input` but the match.
proof fn lemma_decode_prefix(input: Seq<u8>, cs: CodeSize) -> (d: DecoderState)
    requires
        !reaches_last_entry(input, cs),
    ensures
        decode_from(Ok(decoder_start()), encode_prefix(input, cs).output.drop_first(), cs) == Ok::<
            DecoderState,
            u16,
        >(d),
        related(encode_prefix(input, cs), d, input),
    decreases input.len(),
{
    lemma_encode_prefix_inv(input, cs);
    let e2 = encode_prefix(input, cs);
    if input.len() == 0 {
        let d = decoder_start();
        assert(e2.output.drop_first() =~= Seq::<u8>::empty());
        assert(d.dict =~= single_bytes() + e2.dict);
        assert(d.output + e2.buffer =~= input);
        d
    } else {
        let p = input.drop_last();
        let b = input.last();
        assert forall|k: int| 0 <= k <= p.len() implies p.take(k) == input.take(k) by {
            assert(p.take(k) =~= input.take(k));
        }
        if reaches_last_entry(p, cs) {
            let k = choose|k: int|
                0 <= k <= p.len() && {
                    let st = #[trigger] encode_prefix(p.take(k), cs);
                    st.locked && st.buffer == st.dict.last()
                };
            assert(encode_prefix(input.take(k), cs) == encode_prefix(p.take(k), cs));
        }
        let d = lemma_decode_prefix(p, cs);
        lemma_encode_prefix_inv(p, cs);
        let e = encode_prefix(p, cs);
        assert(input.take(p.len() as int) =~= p);
        assert(encode_prefix(input.take(p.len() as int), cs) == e);
        assert(p.push(b) =~= input);
        lemma_step_related(e, d, p, b, cs)
    }
}

/// Compressing and then decompressing gives back the input, whenever the
/// encoder never matches the entry that filled its dictionary (the only code
/// the decoder cannot know).
pub proof fn lemma_round_trip(input: Seq<u8>, cs: CodeSize)
    requires
        !reaches_last_entry(input, cs),
    ensures
        decompressed(compressed(input, cs)) == Ok::<Seq<u8>, DecompressError>(input),
{
    lemma_encode_prefix_inv(input, cs);
    let d = lemma_decode_prefix(input, cs);
    let e = encode_prefix(input, cs);
    let out = compressed(input, cs);
    assert(out[0] == e.output[0]);
    assert(is_width(out[0] as int));
    assert(CodeSize::of_width(out[0] as int) == cs);
    if e.buffer.len() == 0 {
        assert(d.output =~= input);
    } else {
        assert(input.take(input.len() as int) =~= input);
        lemma_match_in_decoder(e, d, input, cs);
        let c = code_of(e.dict, e.buffer);
        let code_bytes = le_bytes(c as nat, cs.width());
        assert(out.drop_first() =~= e.output.drop_first() + code_bytes);
        lemma_decode_concat(Ok(decoder_start()), e.output.drop_first(), code_bytes, cs);
        lemma_decode_code(d, c as nat, cs);
    }
}

/// The first byte of every compressed stream records the width.
pub proof fn lemma_header_records_width(input: Seq<u8>, cs: CodeSize)
    ensures
        compressed(input, cs).len() >= 1,
        compressed(input, cs)[0] == cs.width(),
{
    lemma_encode_prefix_inv(input, cs);
}

/// A one-byte input comes back unchanged, whatever the width.
pub proof fn lemma_single_byte_round_trip(b: u8, cs: CodeSize)
    ensures
        decompressed(compressed(seq![b], cs)) == Ok::<Seq<u8>, DecompressError>(seq![b]),
{
    let input = seq![b];
    lemma_max_code(cs);
    assert(input.take(0) =~= Seq::<u8>::empty());
    assert(input.take(1) =~= input);
    assert(input.drop_last() =~= Seq::<u8>::empty());
    assert forall|k: int| 0 <= k <= input.len() implies !(#[trigger] encode_prefix(input.take(k), cs)).locked by {
        if k == 1 {
            assert(input.take(k).drop_last() =~= Seq::<u8>::empty());
            assert(input.take(k).last() == b);
            let st0 = encode_prefix(Seq::<u8>::empty(), cs);
            assert(st0 == encoder_start(cs));
            assert(encode_prefix(input.take(k), cs) == encode_step(st0, b, cs));
            assert(st0.buffer.push(b).len() == 1);
            assert(known(st0.dict, st0.buffer.push(b)));
        } else {
            assert(input.take(k) =~= Seq::<u8>::empty());
        }
    }
    lemma_round_trip(input, cs);
}

/// Once the dictionary is full it stays full and unchanged, and each input
/// byte writes either nothing or exactly one code, with no literal byte.
pub proof fn lemma_locked_writes_only_codes(st: EncoderState, b: u8, cs: CodeSize)
    requires
        encoder_inv(st, cs),
        st.locked,
    ensures
        encode_step(st, b, cs).locked,
        encode_step(st, b, cs).dict == st.dict,
        encode_step(st, b, cs).output == st.output || encode_step(st, b, cs).output == st.output
            + le_bytes(code_of(st.dict, st.buffer) as nat, cs.width()),
{
}

/// Corrupt streams are refused: an empty one as missing, one whose header is
/// no width at check `1`, and one whose first code names no entry yet at
/// check `2`.
pub proof fn lemma_corrupt_input_rejected(header: u8, rest: Seq<u8>, code: nat, cs: CodeSize)
    ensures
        decompressed(Seq::<u8>::empty()) == Err::<Seq<u8>, DecompressError>(
            DecompressError::MissingEmptyFileError,
        ),
        !is_width(header as int) ==> decompressed(seq![header] + rest) == Err::<
            Seq<u8>,
            DecompressError,
        >(DecompressError::CorruptInvalidFileError(1)),
        256 <= code <= cs.max_code() ==> decompressed(
            seq![cs.width() as u8] + le_bytes(code, cs.width()) + rest,
        ) == Err::<Seq<u8>, DecompressError>(DecompressError::CorruptInvalidFileError(2)),
{
    assert((seq![header] + rest)[0] == header);
    if 256 <= code <= cs.max_code() {
        lemma_max_code(cs);
        let w = cs.width();
        let bytes = le_bytes(code, w);
        let input = seq![w as u8] + bytes + rest;
        assert(input[0] == w as u8);
        assert(CodeSize::of_width(w as int) == cs);
        assert(input.drop_first() =~= bytes + rest);
        lemma_decode_concat(Ok(decoder_start()), bytes, rest, cs);
        lemma_decode_code(decoder_start(), code, cs);
        lemma_decode_err(2, rest, cs);
    }
}

/// Whether the byte at `k` completes a code that names no entry of the
/// decoder's dictionary as it stands when that code is read.
pub open spec fn refuses_code_at(r: Seq<u8>, k: int, cs: CodeSize) -> bool {
    &&& 0 <= k < r.len()
    &&& decode_from(Ok(decoder_start()), r.take(k), cs) matches Ok(st)
    &&& st.code_buffer.len() + 1 == cs.width()
    &&& le_value(st.code_buffer.push(r[k])) >= st.dict.len()
}

/// A whole code waiting for its literal byte always names an entry.
spec fn decoder_inv(st: DecoderState, cs: CodeSize) -> bool {
    &&& st.code_buffer.len() <= cs.width()
    &&& st.code_buffer.len() == cs.width() ==> le_value(st.code_buffer) < st.dict.len()
}

proof fn lemma_decode_refuses(r: Seq<u8>, cs: CodeSize)
    ensures
        decode_from(Ok(decoder_start()), r, cs) is Err <==> exists|k: int| refuses_code_at(r, k, cs),
        decode_from(Ok(decoder_start()), r, cs) is Err ==> decode_from(Ok(decoder_start()), r, cs)
            == Err::<DecoderState, u16>(2),
        decode_from(Ok(decoder_start()), r, cs) matches Ok(st) ==> decoder_inv(st, cs),
    decreases r.len(),
{
    if r.len() == 0 {
        assert(decoder_start().code_buffer.len() == 0);
        assert forall|k: int| !refuses_code_at(r, k, cs) by {}
    } else {
        let q = r.drop_last();
        let x = r.last();
        lemma_decode_refuses(q, cs);
        assert forall|k: int| 0 <= k < q.len() implies #[trigger] refuses_code_at(r, k, cs)
            == refuses_code_at(q, k, cs) by {
            assert(r.take(k) =~= q.take(k));
        }
        assert(r.take(q.len() as int) =~= q);
        match decode_from(Ok(decoder_start()), q, cs) {
            Ok(st) => {
                assert forall|k: int| 0 <= k < q.len() implies !refuses_code_at(r, k, cs) by {
                    assert(!refuses_code_at(q, k, cs));
                }
                if decode_step(st, x, cs) is Err {
                    assert(refuses_code_at(r, q.len() as int, cs));
                } else {
                    assert forall|k: int| !refuses_code_at(r, k, cs) by {
                        if k == q.len() as int {
                        } else if 0 <= k < q.len() {
                            assert(!refuses_code_at(q, k, cs));
                        }
                    }
                }
            },
            Err(e) => {
                let k = choose|k: int| refuses_code_at(q, k, cs);
                assert(refuses_code_at(r, k, cs));
            },
        }
    }
}

/// A stream with a valid header is refused exactly when one of its codes,
/// once complete, names no entry that the decoder has at that point; the
/// refusal is then at check `2`.
pub proof fn lemma_unknown_code_rejected(header: u8, rest: Seq<u8>)
    requires
        is_width(header as int),
    ensures
        decompressed(seq![header] + rest) is Err <==> exists|k: int|
            refuses_code_at(rest, k, CodeSize::of_width(header as int)),
        decompressed(seq![header] + rest) is Err ==> decompressed(seq![header] + rest) == Err::<
            Seq<u8>,
            DecompressError,
        >(DecompressError::CorruptInvalidFileError(2)),
{
    let input = seq![header] + rest;
    assert(input[0] == header);
    assert(input.drop_first() =~= rest);
    lemma_decode_refuses(rest, CodeSize::of_width(header as int));
}

/// Each code of `codes` written in `w` bytes and followed by the literal
/// byte of the same index.
pub open spec fn pair_stream(codes: Seq<nat>, literals: Seq<u8>, w: nat) -> Seq<u8>
    decreases codes.len(),
{
    if codes.len() == 0 || literals.len() == 0 {
        seq![]
    } else {
        pair_stream(codes.drop_last(), literals.drop_last(), w) + le_bytes(codes.last(), w) + seq![
            literals.last(),
        ]
    }
}

/// Each code of `codes` written in `w` bytes, with nothing between them.
pub open spec fn code_stream(codes: Seq<nat>, w: nat) -> Seq<u8>
    decreases codes.len(),
{
    if codes.len() == 0 {
        seq![]
    } else {
        code_stream(codes.drop_last(), w) + le_bytes(codes.last(), w)
    }
}

/// `out` is the header byte, then code and literal pairs, each code naming an
/// entry known when it was written, then bare codes; bare codes come in
/// numbers above one only once all the dictionary's codes below the largest
/// have been taught by a literal.
pub open spec fn stream_layout(
    out: Seq<u8>,
    paired: Seq<nat>,
    literals: Seq<u8>,
    bare: Seq<nat>,
    cs: CodeSize,
) -> bool {
    &&& out == seq![cs.width() as u8] + pair_stream(paired, literals, cs.width()) + code_stream(
        bare,
        cs.width(),
    )
    &&& literals.len() == paired.len()
    &&& paired.len() + 256 <= cs.max_code()
    &&& forall|i: int| 0 <= i < paired.len() ==> #[trigger] paired[i] < 256 + i
    &&& forall|i: int| 0 <= i < bare.len() ==> #[trigger] bare[i] <= cs.max_code()
    &&& paired.len() + 256 < cs.max_code() ==> bare.len() <= 1
}

proof fn lemma_prefix_layout(input: Seq<u8>, cs: CodeSize) -> (r: (Seq<nat>, Seq<u8>, Seq<nat>))
    ensures
        ({
            let st = encode_prefix(input, cs);
            &&& stream_layout(st.output, r.0, r.1, r.2, cs)
            &&& r.0.len() == if st.locked {
                st.dict.len() - 1
            } else {
                st.dict.len() as int
            }
            &&& !st.locked ==> r.2.len() == 0
        }),
    decreases input.len(),
{
    lemma_encode_prefix_inv(input, cs);
    lemma_max_code(cs);
    let w = cs.width();
    if input.len() == 0 {
        let r = (Seq::<nat>::empty(), Seq::<u8>::empty(), Seq::<nat>::empty());
        assert(encode_prefix(input, cs).output =~= seq![w as u8] + pair_stream(r.0, r.1, w)
            + code_stream(r.2, w));
        r
    } else {
        let q = input.drop_last();
        let b = input.last();
        let (paired, literals, bare) = lemma_prefix_layout(q, cs);
        lemma_encode_prefix_inv(q, cs);
        let e = encode_prefix(q, cs);
        let e2 = encode_prefix(input, cs);
        assert(e2 == encode_step(e, b, cs));
        let grown = e.buffer.push(b);
        if known(e.dict, grown) {
            (paired, literals, bare)
        } else {
            let c = code_of(e.dict, e.buffer);
            lemma_code_of_known(e.dict, e.buffer);
            let code_bytes = le_bytes(c as nat, w);
            let locks_now = !e.locked && 256 + e.dict.len() == cs.max_code();
            if e.locked || locks_now {
                let bare2 = bare.push(c as nat);
                assert(bare2.drop_last() =~= bare);
                assert(e2.output =~= seq![w as u8] + pair_stream(paired, literals, w) + code_stream(
                    bare2,
                    w,
                ));
                assert forall|i: int| 0 <= i < bare2.len() implies #[trigger] bare2[i]
                    <= cs.max_code() by {
                    if i < bare.len() {
                        assert(bare2[i] == bare[i]);
                    }
                }
                (paired, literals, bare2)
            } else {
                let paired2 = paired.push(c as nat);
                let literals2 = literals.push(b);
                assert(paired2.drop_last() =~= paired);
                assert(literals2.drop_last() =~= literals);
                assert(code_stream(bare, w) =~= Seq::<u8>::empty());
                assert(e2.output =~= seq![w as u8] + pair_stream(paired2, literals2, w)
                    + code_stream(bare, w));
                assert forall|i: int| 0 <= i < paired2.len() implies #[trigger] paired2[i] < 256
                    + i by {
                    if i < paired.len() {
                        assert(paired2[i] == paired[i]);
                    }
                }
                (paired2, literals2, bare)
            }
        }
    }
}

/// Every compressed stream is the header byte, then code and literal pairs,
/// then bare codes, where more than one bare code comes only after the
/// dictionary has filled: once full, the stream holds no literal byte.
pub proof fn lemma_stream_layout(input: Seq<u8>, cs: CodeSize)
    ensures
        exists|paired: Seq<nat>, literals: Seq<u8>, bare: Seq<nat>|
            stream_layout(compressed(input, cs), paired, literals, bare, cs),
{
    lemma_encode_prefix_inv(input, cs);
    let (paired, literals, bare) = lemma_prefix_layout(input, cs);
    let st = encode_prefix(input, cs);
    let w = cs.width();
    if st.buffer.len() == 0 {
        assert(stream_layout(compressed(input, cs), paired, literals, bare, cs));
    } else {
        let c = code_of(st.dict, st.buffer);
        lemma_code_of_known(st.dict, st.buffer);
        let bare2 = bare.push(c as nat);
        assert(bare2.drop_last() =~= bare);
        assert(compressed(input, cs) =~= seq![w as u8] + pair_stream(paired, literals, w)
            + code_stream(bare2, w));
        assert forall|i: int| 0 <= i < bare2.len() implies #[trigger] bare2[i] <= cs.max_code() by {
            if i < bare.len() {
                assert(bare2[i] == bare[i]);
            }
        }
        assert(stream_layout(compressed(input, cs), paired, literals, bare2, cs));
    }
}

} // verus!
