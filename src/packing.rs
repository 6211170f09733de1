use vstd::prelude::*;

use crate::code_size::{pow256, CodeSize};
use crate::errors::CompressError;

verus! {

/// The `n` low bytes of `code`, least significant first.
pub open spec fn le_bytes(code: nat, n: nat) -> Seq<u8>
    decreases n,
{
    if n == 0 {
        seq![]
    } else {
        seq![(code % 256) as u8] + le_bytes(code / 256, (n - 1) as nat)
    }
}

/// The unsigned little-endian number that `bytes` writes.
pub open spec fn le_value(bytes: Seq<u8>) -> nat
    decreases bytes.len(),
{
    if bytes.len() == 0 {
        0
    } else {
        (bytes[0] + 256 * le_value(bytes.drop_first())) as nat
    }
}

pub proof fn lemma_le_bytes_len(code: nat, n: nat)
    ensures
        le_bytes(code, n).len() == n,
    decreases n,
{
    if n > 0 {
        lemma_le_bytes_len(code / 256, (n - 1) as nat);
    }
}

pub proof fn lemma_pow256_pos(n: nat)
    ensures
        pow256(n) > 0,
    decreases n,
{
    if n > 0 {
        lemma_pow256_pos((n - 1) as nat);
    }
}

/// A little-endian number of `n` bytes is below `256^n`.
pub proof fn lemma_le_value_bound(bytes: Seq<u8>)
    ensures
        le_value(bytes) < pow256(bytes.len()),
    decreases bytes.len(),
{
    if bytes.len() > 0 {
        let rest = bytes.drop_first();
        lemma_le_value_bound(rest);
        let v = le_value(rest);
        let p = pow256(rest.len());
        let b = bytes[0] as nat;
        assert(b + 256 * v < 256 * p) by (nonlinear_arith)
            requires
                v < p,
                b < 256,
        ;
    }
}

/// Reading back the `n` bytes written for a code below `256^n` gives the code.
pub proof fn lemma_le_round_trip(code: nat, n: nat)
    requires
        code < pow256(n),
    ensures
        le_value(le_bytes(code, n)) == code,
    decreases n,
{
    if n > 0 {
        let q = code / 256;
        let p = pow256((n - 1) as nat);
        assert(q < p) by (nonlinear_arith)
            requires
                code < 256 * p,
                q == code / 256,
        ;
        lemma_le_round_trip(q, (n - 1) as nat);
        let s = le_bytes(code, n);
        assert(s.drop_first() =~= le_bytes(q, (n - 1) as nat));
    }
}

/// Writes `code` in exactly as many bytes as `code_size` gives, least
/// significant byte first, padded with zero bytes; fails when the code does
/// not fit.
pub fn code_to_bytes(code: usize, code_size: &CodeSize) -> (r: Result<Vec<u8>, CompressError>)
    ensures
        r is Ok <==> code <= code_size.max_code(),
        r is Ok ==> r->Ok_0@ == le_bytes(code as nat, code_size.width()),
        r is Err ==> r->Err_0 == CompressError::InternalError("Code is larger than allowed width"),
{
    let width = code_size.size();
    let mut res: Vec<u8> = Vec::new();
    let mut rest: usize = code;
    let mut k: usize = 0;
    assert(pow256(0) == 1);
    while k < width
        invariant
            width == code_size.width(),
            k <= width,
            res@ + le_bytes(rest as nat, (width - k) as nat) == le_bytes(code as nat, width as nat),
            rest == code as nat / pow256(k as nat),
        decreases width - k,
    {
        proof {
            let m = (width - k) as nat;
            assert(le_bytes(rest as nat, m) == seq![(rest % 256) as u8] + le_bytes(
                (rest / 256) as nat,
                (m - 1) as nat,
            ));
            assert(res@.push((rest % 256) as u8) + le_bytes((rest / 256) as nat, (m - 1) as nat)
                =~= res@ + le_bytes(rest as nat, m));
            lemma_pow256_pos(k as nat);
            vstd::arithmetic::div_mod::lemma_div_denominator(
                code as int,
                pow256(k as nat) as int,
                256,
            );
            assert(pow256(k as nat) * 256 == pow256((k + 1) as nat));
        }
        res.push((rest % 256) as u8);
        rest = rest / 256;
        k = k + 1;
    }
    proof {
        reveal_with_fuel(pow256, 5);
        if code as nat <= code_size.max_code() {
            vstd::arithmetic::div_mod::lemma_basic_div(code as int, pow256(width as nat) as int);
        } else {
            vstd::arithmetic::div_mod::lemma_div_non_zero(code as int, pow256(width as nat) as int);
        }
    }
    if rest > 0 {
        return Err(CompressError::InternalError("Code is larger than allowed width"));
    }
    Ok(res)
}

/// Reads `bytes` as an unsigned little-endian number.
pub fn vec_to_code(bytes: &[u8]) -> (r: usize)
    requires
        bytes@.len() <= 4,
    ensures
        r == le_value(bytes@),
{
    let mut result: usize = 0;
    let mut i: usize = bytes.len();
    while i > 0
        invariant
            i <= bytes@.len() <= 4,
            result == le_value(bytes@.subrange(i as int, bytes@.len() as int)),
        decreases i,
    {
        proof {
            let tail = bytes@.subrange(i as int, bytes@.len() as int);
            lemma_le_value_bound(tail);
            reveal_with_fuel(pow256, 4);
            assert(pow256(tail.len()) <= pow256(3));
            let step = bytes@.subrange(i - 1, bytes@.len() as int);
            assert(step.drop_first() =~= tail);
        }
        result = bytes[i - 1] as usize + 256 * result;
        i = i - 1;
    }
    proof {
        assert(bytes@.subrange(0, bytes@.len() as int) =~= bytes@);
    }
    result
}

/// Appends `bytes` to `output`.
pub fn extend_bytes(output: &mut Vec<u8>, bytes: &[u8])
    ensures
        final(output)@ == old(output)@ + bytes@,
{
    let mut k: usize = 0;
    assert(output@ =~= old(output)@ + bytes@.take(0));
    while k < bytes.len()
        invariant
            k <= bytes@.len(),
            output@ == old(output)@ + bytes@.take(k as int),
        decreases bytes@.len() - k,
    {
        output.push(bytes[k]);
        k = k + 1;
        proof {
            assert(bytes@.take(k as int) =~= bytes@.take(k - 1).push(bytes@[k - 1]));
        }
    }
    proof {
        assert(bytes@.take(bytes@.len() as int) =~= bytes@);
    }
}

} // verus!
