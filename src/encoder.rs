use vstd::prelude::*;

use crate::code_size::CodeSize;
use crate::errors::CompressError;
use crate::packing::{code_to_bytes, extend_bytes, le_bytes};

verus! {

/// The string that `code` stands for: a single byte below 256, and the
/// multi-byte entry `code - 256` of `dict` from 256 on.
pub open spec fn entry(dict: Seq<Seq<u8>>, code: int) -> Seq<u8> {
    if code < 256 {
        seq![code as u8]
    } else {
        dict[code - 256]
    }
}

/// Whether `s` has a code: every single byte has one, a longer string has one
/// once it is in `dict`.
pub open spec fn known(dict: Seq<Seq<u8>>, s: Seq<u8>) -> bool {
    s.len() == 1 || dict.contains(s)
}

/// The code of a known string.
pub open spec fn code_of(dict: Seq<Seq<u8>>, s: Seq<u8>) -> int {
    if s.len() == 1 {
        s[0] as int
    } else {
        256 + dict.index_of(s)
    }
}

/// The multi-byte entries of an encoder's dictionary: distinct, each at least
/// two bytes long, each one byte longer than a string that has a code.
pub open spec fn dict_wf(dict: Seq<Seq<u8>>) -> bool {
    &&& dict.no_duplicates()
    &&& forall|i: int| 0 <= i < dict.len() ==> (#[trigger] dict[i]).len() >= 2
    &&& forall|i: int| 0 <= i < dict.len() ==> known(dict, (#[trigger] dict[i]).drop_last())
}

/// The encoder between two input bytes.
pub struct EncoderState {
    /// Multi-byte entries in order of registration; entry `i` has code `256 + i`.
    pub dict: Seq<Seq<u8>>,
    /// Set once the dictionary has reached the width's capacity.
    pub locked: bool,
    /// The bytes matched so far and not yet written.
    pub buffer: Seq<u8>,
    /// What has been written so far.
    pub output: Seq<u8>,
}

/// The encoder's state before any input: only the header byte is written.
pub open spec fn encoder_start(cs: CodeSize) -> EncoderState {
    EncoderState { dict: seq![], locked: false, buffer: seq![], output: seq![cs.width() as u8] }
}

/// What one input byte `b` does to the encoder.
pub open spec fn encode_step(st: EncoderState, b: u8, cs: CodeSize) -> EncoderState {
    let grown = st.buffer.push(b);
    if known(st.dict, grown) {
        EncoderState { dict: st.dict, locked: st.locked, buffer: grown, output: st.output }
    } else {
        let locks_now = !st.locked && 256 + st.dict.len() == cs.max_code();
        let dict = if st.locked {
            st.dict
        } else {
            st.dict.push(grown)
        };
        let output = st.output + le_bytes(code_of(st.dict, st.buffer) as nat, cs.width());
        if st.locked || locks_now {
            EncoderState { dict, locked: true, buffer: seq![b], output }
        } else {
            EncoderState { dict, locked: false, buffer: seq![], output: output.push(b) }
        }
    }
}

/// The encoder's state after it has read `input`.
pub open spec fn encode_prefix(input: Seq<u8>, cs: CodeSize) -> EncoderState
    decreases input.len(),
{
    if input.len() == 0 {
        encoder_start(cs)
    } else {
        encode_step(encode_prefix(input.drop_last(), cs), input.last(), cs)
    }
}

/// The compressed form of `input`: what the encoder wrote, followed by the
/// code of whatever is still in its buffer.
pub open spec fn compressed(input: Seq<u8>, cs: CodeSize) -> Seq<u8> {
    let st = encode_prefix(input, cs);
    if st.buffer.len() == 0 {
        st.output
    } else {
        st.output + le_bytes(code_of(st.dict, st.buffer) as nat, cs.width())
    }
}

/// What holds of the encoder's state between any two input bytes.
pub open spec fn encoder_inv(st: EncoderState, cs: CodeSize) -> bool {
    &&& dict_wf(st.dict)
    &&& st.buffer.len() == 0 || known(st.dict, st.buffer)
    &&& 256 + st.dict.len() <= cs.max_code() + 1
    &&& st.locked <==> 256 + st.dict.len() == cs.max_code() + 1
    &&& st.output.len() >= 1
    &&& st.output[0] == cs.width()
}

/// In a well-formed dictionary a known string is the entry of its code.
pub proof fn lemma_code_of_known(dict: Seq<Seq<u8>>, s: Seq<u8>)
    requires
        dict_wf(dict),
        known(dict, s),
    ensures
        0 <= code_of(dict, s) < 256 + dict.len(),
        entry(dict, code_of(dict, s)) == s,
{
    if s.len() == 1 {
        assert(entry(dict, code_of(dict, s)) =~= s);
    } else {
        let i = dict.index_of(s);
        assert(0 <= i < dict.len() && dict[i] == s);
    }
}

/// The code of an entry is its own index, since no entry is repeated.
pub proof fn lemma_code_of_entry(dict: Seq<Seq<u8>>, c: int)
    requires
        dict_wf(dict),
        0 <= c < 256 + dict.len(),
    ensures
        known(dict, entry(dict, c)),
        code_of(dict, entry(dict, c)) == c,
{
    if c >= 256 {
        let s = dict[c - 256];
        assert(s.len() >= 2);
        assert(dict.contains(s));
        let i = dict.index_of(s);
        assert(dict[i] == s);
    }
}

/// Each step keeps the invariant.
pub proof fn lemma_encode_step_inv(st: EncoderState, b: u8, cs: CodeSize)
    requires
        encoder_inv(st, cs),
    ensures
        encoder_inv(encode_step(st, b, cs), cs),
{
    let grown = st.buffer.push(b);
    if !known(st.dict, grown) && !st.locked {
        let d = st.dict.push(grown);
        assert forall|i: int, j: int| 0 <= i < d.len() && 0 <= j < d.len() && i != j implies d[i]
            != d[j] by {
            if i == st.dict.len() as int {
                assert(st.dict[j] == d[j]);
            } else if j == st.dict.len() as int {
                assert(st.dict[i] == d[i]);
            }
        }
        assert forall|i: int| 0 <= i < d.len() implies known(d, (#[trigger] d[i]).drop_last()) by {
            if i == st.dict.len() as int {
                assert(grown.drop_last() =~= st.buffer);
            } else {
                assert(d[i] == st.dict[i]);
            }
            let p = d[i].drop_last();
            if p.len() != 1 {
                let j = choose|j: int| 0 <= j < st.dict.len() && st.dict[j] == p;
                assert(d[j] == p);
            }
        }
    }
}

pub proof fn lemma_encode_prefix_inv(input: Seq<u8>, cs: CodeSize)
    ensures
        encoder_inv(encode_prefix(input, cs), cs),
    decreases input.len(),
{
    if input.len() == 0 {
        reveal_with_fuel(crate::code_size::pow256, 5);
    } else {
        lemma_encode_prefix_inv(input.drop_last(), cs);
        lemma_encode_step_inv(encode_prefix(input.drop_last(), cs), input.last(), cs);
    }
}

/// The encoder's dictionary as a trie: for every code, the bytes that extend
/// its string to another entry, each with that entry's code.
struct Dictionary {
    children: Vec<Vec<(u8, usize)>>,
    strings: Ghost<Seq<Seq<u8>>>,
}

impl View for Dictionary {
    type V = Seq<Seq<u8>>;

    closed spec fn view(&self) -> Seq<Seq<u8>> {
        self.strings@
    }
}

impl Dictionary {
    spec fn wf(&self) -> bool {
        &&& dict_wf(self@)
        &&& self.children@.len() == 256 + self@.len()
        &&& forall|c: int, k: int|
            0 <= c < self.children@.len() && 0 <= k < self.children@[c]@.len() ==> {
                let (b, d) = #[trigger] self.children@[c]@[k];
                &&& 256 <= d < 256 + self@.len()
                &&& entry(self@, d as int) == entry(self@, c).push(b)
            }
        &&& forall|c: int, b: u8|
            0 <= c < self.children@.len() && #[trigger] self@.contains(entry(self@, c).push(b))
                ==> exists|k: int|
                0 <= k < self.children@[c]@.len() && (#[trigger] self.children@[c]@[k]).0 == b
    }

    fn new() -> (d: Dictionary)
        ensures
            d.wf(),
            d@ == Seq::<Seq<u8>>::empty(),
    {
        let mut children: Vec<Vec<(u8, usize)>> = Vec::new();
        let mut i: usize = 0;
        while i < 256
            invariant
                i <= 256,
                children@.len() == i,
                forall|c: int| 0 <= c < i ==> (#[trigger] children@[c])@.len() == 0,
            decreases 256 - i,
        {
            children.push(Vec::new());
            i = i + 1;
        }
        Dictionary { children, strings: Ghost(Seq::empty()) }
    }
}

/// The code of the matched string extended by `byte`, if that string has
/// one; `prefix` is the code of the matched string, `None` when it is empty.
fn get_code_from_dictionary(dictionary: &Dictionary, prefix: Option<usize>, byte: u8) -> (r: Option<
    usize,
>)
    requires
        dictionary.wf(),
        prefix matches Some(c) ==> c < 256 + dictionary@.len(),
    ensures
        ({
            let s = match prefix {
                Some(c) => entry(dictionary@, c as int).push(byte),
                None => seq![byte],
            };
            &&& r is Some <==> known(dictionary@, s)
            &&& r matches Some(code) ==> code == code_of(dictionary@, s)
        }),
{
    let c = match prefix {
        None => {
            return Some(byte as usize);
        },
        Some(c) => c,
    };
    let ghost s = entry(dictionary@, c as int).push(byte);
    assert(c < dictionary.children@.len());
    let list = &dictionary.children[c];
    let mut k: usize = 0;
    while k < list.len()
        invariant
            dictionary.wf(),
            c < dictionary.children@.len(),
            list == dictionary.children@[c as int],
            prefix == Some(c),
            s == entry(dictionary@, c as int).push(byte),
            k <= list@.len(),
            forall|j: int| 0 <= j < k ==> (#[trigger] list@[j]).0 != byte,
        decreases list@.len() - k,
    {
        let (b, d) = list[k];
        if b == byte {
            proof {
                assert(dictionary.children@[c as int]@[k as int] == (b, d));
                assert(entry(dictionary@, d as int) == s);
                lemma_code_of_entry(dictionary@, d as int);
            }
            return Some(d);
        }
        k = k + 1;
    }
    proof {
        if dictionary@.contains(s) {
            let k = choose|k: int|
                0 <= k < dictionary.children@[c as int]@.len() && (
                #[trigger] dictionary.children@[c as int]@[k]).0 == byte;
            assert(list@[k].0 == byte);
        }
    }
    None
}

/// Registers the string of `prefix` extended by `byte` under the next code,
/// and tells whether that code is the width's largest, which locks the
/// dictionary.
fn add_string_to_dictionary(dictionary: &mut Dictionary, prefix: usize, byte: u8, code_size: &CodeSize) -> (r: bool)
    requires
        old(dictionary).wf(),
        prefix < 256 + old(dictionary)@.len(),
        !old(dictionary)@.contains(entry(old(dictionary)@, prefix as int).push(byte)),
        256 + old(dictionary)@.len() <= code_size.max_code(),
    ensures
        final(dictionary).wf(),
        final(dictionary)@ == old(dictionary)@.push(entry(old(dictionary)@, prefix as int).push(byte)),
        r == (256 + old(dictionary)@.len() == code_size.max_code()),
{
    let ghost old_d = dictionary@;
    let ghost s = entry(old_d, prefix as int).push(byte);
    let next_code: usize = dictionary.children.len();
    dictionary.children[prefix].push((byte, next_code));
    dictionary.children.push(Vec::new());
    proof { dictionary.strings = Ghost(old_d.push(s)); }
    proof {
        let d = dictionary@;
        assert forall|i: int, j: int| 0 <= i < d.len() && 0 <= j < d.len() && i != j implies d[i]
            != d[j] by {
            if i == old_d.len() as int {
                assert(old_d[j] == d[j]);
            } else if j == old_d.len() as int {
                assert(old_d[i] == d[i]);
            }
        }
        assert forall|c: int| 0 <= c < 256 + old_d.len() implies entry(d, c) == entry(old_d, c) by {}
        assert(entry(d, next_code as int) == s);
        assert forall|c: int, k: int|
            0 <= c < dictionary.children@.len() && 0 <= k < dictionary.children@[c]@.len() implies {
                let (b, e) = #[trigger] dictionary.children@[c]@[k];
                &&& 256 <= e < 256 + d.len()
                &&& entry(d, e as int) == entry(d, c).push(b)
            } by {
            if c == prefix as int && k == old(dictionary).children@[c]@.len() {
            } else {
                assert(dictionary.children@[c]@[k] == old(dictionary).children@[c]@[k]);
            }
        }
        assert forall|c: int, b: u8|
            0 <= c < dictionary.children@.len() && #[trigger] d.contains(entry(d, c).push(b))
                implies exists|k: int|
                0 <= k < dictionary.children@[c]@.len() && (#[trigger] dictionary.children@[c]@[k]).0 == b by {
            let i = choose|i: int| 0 <= i < d.len() && d[i] == entry(d, c).push(b);
            if c == next_code as int {
                assert(entry(d, c) == s);
                assert(d[i].len() == s.len() + 1);
                assert(i != old_d.len() as int);
                assert(old_d[i] == d[i]);
                assert(old_d[i].drop_last() =~= s);
                assert(old_d.contains(s));
            } else {
                assert(entry(d, c) == entry(old_d, c));
                if i == old_d.len() as int {
                    assert(entry(old_d, c) =~= s.drop_last());
                    assert(entry(old_d, c) =~= entry(old_d, prefix as int));
                    lemma_code_of_entry(old_d, c);
                    lemma_code_of_entry(old_d, prefix as int);
                    assert(c == prefix as int);
                    assert(s.last() == byte);
                    assert(entry(d, c).push(b).last() == b);
                    let k = old(dictionary).children@[prefix as int]@.len() as int;
                    assert(dictionary.children@[c]@[k].0 == b);
                } else {
                    assert(old_d[i] == d[i]);
                    assert(old_d.contains(entry(old_d, c).push(b)));
                    let k = choose|k: int|
                        0 <= k < old(dictionary).children@[c]@.len() && (#[trigger] old(
                            dictionary,
                        ).children@[c]@[k]).0 == b;
                    assert(dictionary.children@[c]@[k] == old(dictionary).children@[c]@[k]);
                }
            }
        }
        assert forall|i: int| 0 <= i < d.len() implies known(d, (#[trigger] d[i]).drop_last()) by {
            if i == old_d.len() as int {
                lemma_code_of_entry(old_d, prefix as int);
                assert(s.drop_last() =~= entry(old_d, prefix as int));
            } else {
                assert(d[i] == old_d[i]);
            }
            let p = d[i].drop_last();
            if p.len() != 1 {
                let j = choose|j: int| 0 <= j < old_d.len() && old_d[j] == p;
                assert(d[j] == p);
            }
        }
    }
    next_code == code_size.max()
}

/// Appends the bytes of `code` to `output`; fails, leaving `output` as it
/// was, when the code does not fit the width.
fn push_code_from_dictionary(code: usize, code_size: &CodeSize, output: &mut Vec<u8>) -> (r: Result<
    (),
    CompressError,
>)
    ensures
        r is Ok <==> code <= code_size.max_code(),
        r is Ok ==> final(output)@ == old(output)@ + le_bytes(code as nat, code_size.width()),
        r is Err ==> final(output)@ == old(output)@,
        r is Err ==> r->Err_0 == CompressError::InternalError("Code is larger than allowed width"),
{
    let bytes = code_to_bytes(code, code_size)?;
    extend_bytes(output, bytes.as_slice());
    Ok(())
}

/// Compresses `input`: a header byte that records the width, then the codes
/// of the longest known strings, each followed by a literal byte while the
/// dictionary still grows.
pub fn compress(input: &[u8], code_size: &CodeSize) -> (r: Result<Vec<u8>, CompressError>)
    ensures
        r is Ok,
        r matches Ok(out) ==> out@ == compressed(input@, *code_size),
{
    let ghost cs = *code_size;
    let mut output: Vec<u8> = Vec::new();
    output.push(code_size.size() as u8);
    let mut dictionary = Dictionary::new();
    let mut locked = false;
    // the code of the matched string; `None` while nothing is matched
    let mut buffer: Option<usize> = None;
    let ghost mut st = encoder_start(cs);
    proof {
        assert(output@ =~= st.output);
        assert(input@.take(0) =~= Seq::<u8>::empty());
        reveal_with_fuel(crate::code_size::pow256, 5);
    }
    let mut i: usize = 0;
    while i < input.len()
        invariant
            cs == *code_size,
            i <= input@.len(),
            st == encode_prefix(input@.take(i as int), cs),
            encoder_inv(st, cs),
            dictionary.wf(),
            dictionary@ == st.dict,
            locked == st.locked,
            buffer is None <==> st.buffer.len() == 0,
            buffer matches Some(c) ==> c == code_of(st.dict, st.buffer),
            output@ == st.output,
        decreases input@.len() - i,
    {
        let byte = input[i];
        proof {
            lemma_encode_step_inv(st, byte, cs);
            assert(input@.take(i + 1).drop_last() =~= input@.take(i as int));
            if st.buffer.len() > 0 {
                lemma_code_of_known(st.dict, st.buffer);
            } else {
                assert(st.buffer.push(byte) =~= seq![byte]);
            }
        }
        let ghost next = encode_step(st, byte, cs);
        match get_code_from_dictionary(&dictionary, buffer, byte) {
            Some(code) => {
                buffer = Some(code);
            },
            None => {
                let prefix = match buffer {
                    Some(c) => c,
                    None => {
                        return Err(CompressError::InternalError("Failed to retrieve code from dictionary"));
                    },
                };
                let mut will_lock = false;
                if !locked {
                    will_lock = add_string_to_dictionary(&mut dictionary, prefix, byte, code_size);
                }
                match push_code_from_dictionary(prefix, code_size, &mut output) {
                    Ok(()) => {},
                    Err(e) => {
                        return Err(e);
                    },
                }
                if locked || will_lock {
                    buffer = Some(byte as usize);
                } else {
                    output.push(byte);
                    buffer = None;
                }
                locked = locked || will_lock;
            },
        }
        proof {
            st = next;
            if buffer is Some && st.buffer.len() == 1 {
                assert(st.buffer =~= seq![byte]);
            }
        }
        i = i + 1;
    }
    proof {
        assert(input@.take(input@.len() as int) =~= input@);
    }
    if let Some(code) = buffer {
        proof {
            lemma_code_of_known(st.dict, st.buffer);
        }
        match push_code_from_dictionary(code, code_size, &mut output) {
            Ok(()) => {},
            Err(e) => {
                return Err(e);
            },
        }
    }
    Ok(output)
}

} // verus!
