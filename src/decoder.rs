use vstd::prelude::*;

use crate::code_size::{is_width, CodeSize};
use crate::errors::DecompressError;
use crate::packing::{extend_bytes, le_value, vec_to_code};

verus! {

/// The decoder's dictionary before any input: entry `i` is the byte `i`.
pub open spec fn single_bytes() -> Seq<Seq<u8>> {
    Seq::new(256, |i: int| seq![i as u8])
}

/// The decoder between two input bytes.
pub struct DecoderState {
    /// Every string with a code, indexed by code.
    pub dict: Seq<Seq<u8>>,
    /// The bytes of the code being read; a whole code once a literal byte is
    /// due.
    pub code_buffer: Seq<u8>,
    /// What has been decoded so far.
    pub output: Seq<u8>,
}

pub open spec fn decoder_start() -> DecoderState {
    DecoderState { dict: single_bytes(), code_buffer: seq![], output: seq![] }
}

/// What one byte after the header does to the decoder; an error carries the
/// number of the check that refused it.
pub open spec fn decode_step(st: DecoderState, b: u8, cs: CodeSize) -> Result<DecoderState, u16> {
    if st.code_buffer.len() < cs.width() {
        let cb = st.code_buffer.push(b);
        if cb.len() < cs.width() {
            Ok(DecoderState { dict: st.dict, code_buffer: cb, output: st.output })
        } else if le_value(cb) < st.dict.len() {
            Ok(
                DecoderState {
                    dict: st.dict,
                    code_buffer: if st.dict.len() == cs.max_code() {
                        seq![]
                    } else {
                        cb
                    },
                    output: st.output + st.dict[le_value(cb) as int],
                },
            )
        } else {
            Err(2)
        }
    } else if le_value(st.code_buffer) < st.dict.len() {
        let known = st.dict[le_value(st.code_buffer) as int];
        Ok(
            DecoderState {
                dict: st.dict.push(known.push(b)),
                code_buffer: seq![],
                output: st.output.push(b),
            },
        )
    } else {
        Err(3)
    }
}

/// The decoder after it has read `bytes`, starting from `st`.
pub open spec fn decode_from(st: Result<DecoderState, u16>, bytes: Seq<u8>, cs: CodeSize) -> Result<
    DecoderState,
    u16,
>
    decreases bytes.len(),
{
    if bytes.len() == 0 {
        st
    } else {
        match decode_from(st, bytes.drop_last(), cs) {
            Ok(s) => decode_step(s, bytes.last(), cs),
            Err(e) => Err(e),
        }
    }
}

/// An error, once met, stays.
pub proof fn lemma_decode_err(e: u16, bytes: Seq<u8>, cs: CodeSize)
    ensures
        decode_from(Err(e), bytes, cs) == Err::<DecoderState, u16>(e),
    decreases bytes.len(),
{
    if bytes.len() > 0 {
        lemma_decode_err(e, bytes.drop_last(), cs);
    }
}

/// Reading `a` and then `b` is reading `a + b`.
pub proof fn lemma_decode_concat(st: Result<DecoderState, u16>, a: Seq<u8>, b: Seq<u8>, cs: CodeSize)
    ensures
        decode_from(st, a + b, cs) == decode_from(decode_from(st, a, cs), b, cs),
    decreases b.len(),
{
    if b.len() == 0 {
        assert(a + b =~= a);
    } else {
        lemma_decode_concat(st, a, b.drop_last(), cs);
        assert((a + b).drop_last() =~= a + b.drop_last());
        assert((a + b).last() == b.last());
    }
}

/// What decompressing `input` gives. A code that the input leaves unfinished
/// at its end is dropped.
pub open spec fn decompressed(input: Seq<u8>) -> Result<Seq<u8>, DecompressError> {
    if input.len() == 0 {
        Err(DecompressError::MissingEmptyFileError)
    } else if !is_width(input[0] as int) {
        Err(DecompressError::CorruptInvalidFileError(1))
    } else {
        match decode_from(Ok(decoder_start()), input.drop_first(), CodeSize::of_width(input[0] as int)) {
            Ok(st) => Ok(st.output),
            Err(loc) => Err(DecompressError::CorruptInvalidFileError(loc)),
        }
    }
}

/// Decompresses a stream that `compress` wrote: the header byte selects the
/// width, then codes are looked up in a dictionary that is rebuilt from the
/// literal bytes that follow them.
pub fn decompress(input: &[u8]) -> (r: Result<Vec<u8>, DecompressError>)
    ensures
        match decompressed(input@) {
            Ok(out) => r is Ok && r->Ok_0@ == out,
            Err(e) => r is Err && r->Err_0 == e,
        },
{
    if input.len() == 0 {
        return Err(DecompressError::MissingEmptyFileError);
    }
    let code_size = match CodeSize::new(input[0] as usize) {
        Ok(code_size) => code_size,
        Err(_) => {
            return Err(DecompressError::CorruptInvalidFileError(1));
        },
    };
    let ghost cs = code_size;
    let width = code_size.size();
    let max = code_size.max();
    let mut dictionary: Vec<Vec<u8>> = Vec::new();
    let mut v: usize = 0;
    while v < 256
        invariant
            v <= 256,
            dictionary@.len() == v,
            forall|j: int| 0 <= j < v ==> (#[trigger] dictionary@[j])@ == single_bytes()[j],
        decreases 256 - v,
    {
        let mut single: Vec<u8> = Vec::new();
        single.push(v as u8);
        dictionary.push(single);
        v = v + 1;
        proof {
            assert(dictionary@[v - 1]@ =~= single_bytes()[v - 1]);
        }
    }
    let mut code_buffer: Vec<u8> = Vec::new();
    let mut output: Vec<u8> = Vec::new();
    let ghost mut st = decoder_start();
    let ghost rest = input@.drop_first();
    proof {
        assert(rest.take(0) =~= Seq::<u8>::empty());
        assert(st.code_buffer =~= code_buffer@);
        assert(st.output =~= output@);
    }
    let mut i: usize = 1;
    while i < input.len()
        invariant
            1 <= i <= input@.len(),
            rest == input@.drop_first(),
            cs == code_size,
            is_width(input@[0] as int),
            cs == CodeSize::of_width(input@[0] as int),
            width == cs.width(),
            max == cs.max_code(),
            decode_from(Ok(decoder_start()), rest.take(i - 1), cs) == Ok::<DecoderState, u16>(st),
            dictionary@.len() == st.dict.len(),
            forall|j: int| 0 <= j < dictionary@.len() ==> (#[trigger] dictionary@[j])@ == st.dict[j],
            code_buffer@ == st.code_buffer,
            code_buffer@.len() <= width,
            output@ == st.output,
        decreases input@.len() - i,
    {
        let byte = input[i];
        proof {
            assert(rest.take(i as int).drop_last() =~= rest.take(i - 1));
            assert(rest.take(i as int).last() == byte);
        }
        let ghost next = decode_step(st, byte, cs);
        if code_buffer.len() < width {
            code_buffer.push(byte);
            if code_buffer.len() == width {
                let code = vec_to_code(code_buffer.as_slice());
                if code >= dictionary.len() {
                    proof {
                        lemma_decode_concat(Ok(decoder_start()), rest.take(i as int), rest.skip(i as int), cs);
                        lemma_decode_err(2, rest.skip(i as int), cs);
                        assert(rest.take(i as int) + rest.skip(i as int) =~= rest);
                    }
                    return Err(DecompressError::CorruptInvalidFileError(2));
                }
                extend_bytes(&mut output, dictionary[code].as_slice());
                if dictionary.len() == max {
                    code_buffer.clear();
                }
            }
        } else {
            let code = vec_to_code(code_buffer.as_slice());
            if code >= dictionary.len() {
                proof {
                    lemma_decode_concat(Ok(decoder_start()), rest.take(i as int), rest.skip(i as int), cs);
                    lemma_decode_err(3, rest.skip(i as int), cs);
                    assert(rest.take(i as int) + rest.skip(i as int) =~= rest);
                }
                return Err(DecompressError::CorruptInvalidFileError(3));
            }
            let mut new_string: Vec<u8> = Vec::new();
            extend_bytes(&mut new_string, dictionary[code].as_slice());
            new_string.push(byte);
            output.push(byte);
            dictionary.push(new_string);
            code_buffer.clear();
        }
        proof {
            st = next->Ok_0;
            assert(code_buffer@ =~= st.code_buffer);
            assert(output@ =~= st.output);
        }
        i = i + 1;
    }
    proof {
        assert(rest.take(i - 1) =~= rest);
    }
    Ok(output)
}

} // verus!
