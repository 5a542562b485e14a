//! Byte-stream codecs: a greedy dictionary-window compressor with its
//! decoder, and a lossy float-to-integer delta codec pair.
//!
//! The compressed form is a flat sequence of two token kinds, with no
//! header. A literal token is a length byte `1..=15` followed by that many
//! raw bytes. A match token is a byte `0x80 | (length - 3)` followed by a
//! big-endian two-byte offset: copy `length` bytes starting `offset` bytes
//! before the end of the output produced so far.
use vstd::prelude::*;

use crate::KernelError;
use crate::fbits::{
    F32_ZERO_BITS, f32_add, f32_add_bits, f32_from_i16, f32_of_i16_bits, f32_sub, f32_sub_bits,
    f32_to_i16, f32_trunc_i16,
};

verus! {

/// Decodes the token stream `s` onto the already-produced output `acc`.
/// `None` marks a malformed stream: a truncated token, a zero-length
/// literal, or a back-reference that reaches outside the produced output.
pub open spec fn tok_decode(s: Seq<u8>, acc: Seq<u8>) -> Option<Seq<u8>>
    decreases s.len(),
{
    if s.len() == 0 {
        Some(acc)
    } else {
        let b0 = s[0] as int;
        if b0 >= 0x80 {
            if s.len() < 3 {
                None
            } else {
                let len = b0 - 0x80 + 3;
                let off = (s[1] as int) * 256 + (s[2] as int);
                if 1 <= off && off <= acc.len() && len <= off {
                    tok_decode(
                        s.subrange(3, s.len() as int),
                        acc + acc.subrange(acc.len() - off, acc.len() - off + len),
                    )
                } else {
                    None
                }
            }
        } else if b0 == 0 {
            None
        } else {
            if s.len() < 1 + b0 {
                None
            } else {
                tok_decode(s.subrange(1 + b0, s.len() as int), acc + s.subrange(1, 1 + b0))
            }
        }
    }
}

/// Decodes a complete token stream from an empty output.
pub open spec fn decode(s: Seq<u8>) -> Option<Seq<u8>> {
    tok_decode(s, Seq::empty())
}

/// Decoding a well-formed stream continues through appended bytes: the
/// remainder starts from the output the first part produced.
proof fn lemma_tok_decode_append(s: Seq<u8>, t: Seq<u8>, acc: Seq<u8>)
    requires
        tok_decode(s, acc) is Some,
    ensures
        tok_decode(s + t, acc) == tok_decode(t, tok_decode(s, acc)->Some_0),
    decreases s.len(),
{
    if s.len() == 0 {
        assert(s + t =~= t);
    } else {
        let st = s + t;
        let b0 = s[0] as int;
        if b0 >= 0x80 {
            let len = b0 - 0x80 + 3;
            let off = (s[1] as int) * 256 + (s[2] as int);
            assert(st.subrange(3, st.len() as int) =~= s.subrange(3, s.len() as int) + t);
            lemma_tok_decode_append(
                s.subrange(3, s.len() as int),
                t,
                acc + acc.subrange(acc.len() - off, acc.len() - off + len),
            );
        } else {
            assert(st.subrange(1 + b0, st.len() as int) =~= s.subrange(1 + b0, s.len() as int)
                + t);
            assert(st.subrange(1, 1 + b0) =~= s.subrange(1, 1 + b0));
            lemma_tok_decode_append(s.subrange(1 + b0, s.len() as int), t, acc + s.subrange(1, 1 + b0));
        }
    }
}

/// The matching run at position `i` against the candidate `off` bytes
/// back, already `l` bytes long: it extends while the bytes match, inside
/// the input, inside the window, and below the cap of 15.
pub open spec fn run_from(d: Seq<u8>, i: int, off: int, l: int) -> int
    decreases 15 - l,
{
    if l >= 15 || i + l >= d.len() || l >= off || d[i + l] != d[i - off + l] {
        l
    } else {
        run_from(d, i, off, l + 1)
    }
}

/// The length of the usable match at `i` with offset `off`.
pub open spec fn match_len(d: Seq<u8>, i: int, off: int) -> int {
    run_from(d, i, off, 0)
}

/// Folds the candidate offsets from `off` down to 1 over the running best
/// `(bl, bo)`, replacing it only on a strictly longer match, exactly as
/// the encoder scans its window.
pub open spec fn best_acc(d: Seq<u8>, i: int, off: int, bl: int, bo: int) -> (int, int)
    decreases off,
{
    if off <= 0 {
        (bl, bo)
    } else {
        let l = match_len(d, i, off);
        if l > bl {
            best_acc(d, i, off - 1, l, off)
        } else {
            best_acc(d, i, off - 1, bl, bo)
        }
    }
}

/// The match the encoder picks at position `i`: the longest run over the
/// `min(i, 4096)`-offset window, ties going to the largest offset.
pub open spec fn best_match(d: Seq<u8>, i: int) -> (int, int) {
    best_acc(
        d,
        i,
        if i < 4096 {
            i
        } else {
            4096
        },
        0,
        0,
    )
}

proof fn lemma_run_from_bound(d: Seq<u8>, i: int, off: int, l: int)
    requires
        0 <= l <= 15,
        i + l <= d.len(),
    ensures
        l <= run_from(d, i, off, l) <= 15,
        i + run_from(d, i, off, l) <= d.len(),
    decreases 15 - l,
{
    if !(l >= 15 || i + l >= d.len() || l >= off || d[i + l] != d[i - off + l]) {
        lemma_run_from_bound(d, i, off, l + 1);
    }
}

proof fn lemma_best_acc_bound(d: Seq<u8>, i: int, off: int, bl: int, bo: int)
    requires
        0 <= bl <= 15,
        i <= d.len(),
        i + bl <= d.len(),
    ensures
        bl <= best_acc(d, i, off, bl, bo).0 <= 15,
        i + best_acc(d, i, off, bl, bo).0 <= d.len(),
    decreases off,
{
    if off > 0 {
        lemma_run_from_bound(d, i, off, 0);
        let l = match_len(d, i, off);
        if l > bl {
            lemma_best_acc_bound(d, i, off - 1, l, off);
        } else {
            lemma_best_acc_bound(d, i, off - 1, bl, bo);
        }
    }
}

/// The token stream the greedy encoder emits from position `i` on: a match
/// token when the best window match reaches 3 bytes, else a literal of up
/// to 15 bytes.
pub open spec fn compress_tokens(d: Seq<u8>, i: int) -> Seq<u8>
    decreases d.len() - i,
    via compress_tokens_decreases
{
    if i < 0 || i >= d.len() {
        Seq::empty()
    } else {
        let b = best_match(d, i);
        if b.0 >= 3 {
            seq![
                (0x80 + b.0 - 3) as u8,
                (b.1 / 256) as u8,
                (b.1 % 256) as u8,
            ] + compress_tokens(d, i + b.0)
        } else {
            let ll = if d.len() - i < 15 {
                d.len() - i
            } else {
                15
            };
            seq![ll as u8] + d.subrange(i, i + ll) + compress_tokens(d, i + ll)
        }
    }
}

#[via_fn]
proof fn compress_tokens_decreases(d: Seq<u8>, i: int) {
    if 0 <= i < d.len() {
        lemma_best_acc_bound(
            d,
            i,
            if i < 4096 {
                i
            } else {
                4096
            },
            0,
            0,
        );
    }
}

/// The 16-bit delta stored for sample `k`: the binary32 difference from the
/// previous sample (or from +0.0 for the first), truncated toward zero and
/// wrapped to 16 bits.
pub open spec fn delta_i16_at(samples: Seq<u32>, k: int) -> i16 {
    f32_trunc_i16(f32_sub_bits(samples[k], if k == 0 { F32_ZERO_BITS } else { samples[k - 1] }))
}

/// Low byte of the little-endian serialization of `d`.
pub open spec fn i16_lo(d: i16) -> u8 {
    (d as u16) as u8
}

/// High byte of the little-endian serialization of `d`.
pub open spec fn i16_hi(d: i16) -> u8 {
    ((d as u16) / 256) as u8
}

/// The signed 16-bit value read from a little-endian byte pair.
pub open spec fn i16_of_le(lo: u8, hi: u8) -> i16 {
    (((hi as u16) * 256 + (lo as u16)) as i16)
}

/// The full delta-encoded byte stream of `samples`.
pub open spec fn delta_encode_spec(samples: Seq<u32>) -> Seq<u8> {
    Seq::new(
        (2 * samples.len()) as nat,
        |t: int|
            if t % 2 == 0 {
                i16_lo(delta_i16_at(samples, t / 2))
            } else {
                i16_hi(delta_i16_at(samples, t / 2))
            },
    )
}

/// Sample `k` reconstructed by the delta decoder: the running binary32 sum,
/// from +0.0, of the decoded 16-bit deltas.
pub open spec fn delta_decoded_at(bytes: Seq<u8>, k: int) -> u32
    decreases k,
{
    f32_add_bits(
        if k <= 0 {
            F32_ZERO_BITS
        } else {
            delta_decoded_at(bytes, k - 1)
        },
        f32_of_i16_bits(i16_of_le(bytes[2 * k], bytes[2 * k + 1])),
    )
}

/// The running binary32 sum, from +0.0, of the exact deltas that encoding
/// `samples` stores; what decoding an encoded stream reconstructs.
pub open spec fn delta_resum(samples: Seq<u32>, k: int) -> u32
    decreases k,
{
    f32_add_bits(
        if k <= 0 {
            F32_ZERO_BITS
        } else {
            delta_resum(samples, k - 1)
        },
        f32_of_i16_bits(delta_i16_at(samples, k)),
    )
}

/// A little-endian byte pair reads back as the 16-bit value it was written
/// from.
pub proof fn lemma_i16_le_round_trip(d: i16)
    ensures
        i16_of_le(i16_lo(d), i16_hi(d)) == d,
{
    assert(((((d as u16) / 256) as u8) as u16) * 256 + (((d as u16) as u8) as u16)
        == d as u16) by (bit_vector);
    assert((d as u16) as i16 == d) by (bit_vector);
}

/// Decoding an encoded delta stream reconstructs exactly the running sum of
/// the stored 16-bit deltas, sample by sample.
pub proof fn lemma_delta_round_trip(samples: Seq<u32>, k: int)
    requires
        0 <= k < samples.len(),
    ensures
        delta_decoded_at(delta_encode_spec(samples), k) == delta_resum(samples, k),
    decreases k,
{
    lemma_i16_le_round_trip(delta_i16_at(samples, k));
    if k > 0 {
        lemma_delta_round_trip(samples, k - 1);
    }
}

/// Stateless compression and delta-codec kernels.
pub struct DataCompressor;

impl DataCompressor {
    /// Greedy dictionary-window compression. Inputs shorter than 16 bytes
    /// pass through unchanged (the output is not tokenized; callers tell
    /// the two cases apart by the input length). Longer inputs become a
    /// token stream that decodes back to exactly the input: at each
    /// position the encoder takes the longest match of at most 15 bytes
    /// within the previous `min(position, 4096)` offsets, if it reaches 3
    /// bytes, and a literal run of at most 15 bytes otherwise.
    #[verifier::rlimit(100)]
    pub fn fast_compress(data: &[u8]) -> (r: Vec<u8>)
        ensures
            data@.len() < 16 ==> r@ == data@,
            data@.len() >= 16 ==> r@ == compress_tokens(data@, 0),
            data@.len() >= 16 ==> decode(r@) == Some(data@),
    {
        if data.len() < 16 {
            let mut copy: Vec<u8> = Vec::new();
            let mut c: usize = 0;
            while c < data.len()
                invariant
                    c <= data@.len(),
                    copy@ == data@.subrange(0, c as int),
                decreases data@.len() - c,
            {
                copy.push(data[c]);
                c += 1;
            }
            assert(copy@ =~= data@);
            return copy;
        }
        let mut out: Vec<u8> = Vec::new();
        let mut i: usize = 0;
        assert(Seq::<u8>::empty() + compress_tokens(data@, 0) =~= compress_tokens(data@, 0));
        while i < data.len()
            invariant
                16 <= data@.len(),
                i <= data@.len(),
                tok_decode(out@, Seq::empty()) == Some(data@.subrange(0, i as int)),
                out@ + compress_tokens(data@, i as int) == compress_tokens(data@, 0),
            decreases data@.len() - i,
        {
            let max_off: usize = if i < 4096 {
                i
            } else {
                4096
            };
            let mut best_len: usize = 0;
            let mut best_off: usize = 0;
            let mut off: usize = max_off;
            while off >= 1
                invariant
                    i < data@.len(),
                    max_off <= i,
                    max_off <= 4096,
                    max_off as int == if (i as int) < 4096 { i as int } else { 4096int },
                    off <= max_off,
                    best_len <= 15,
                    best_acc(data@, i as int, off as int, best_len as int, best_off as int)
                        == best_match(data@, i as int),
                    best_len > 0 ==> 1 <= best_off && best_off <= max_off && best_len <= best_off
                        && i + best_len <= data@.len() && forall|k: int|
                        0 <= k < best_len ==> #[trigger] data@[i + k] == data@[i - best_off + k],
                decreases off,
            {
                let j = i - off;
                let mut l: usize = 0;
                while l < 15 && l < data.len() - i && l < off && data[i + l] == data[j + l]
                    invariant
                        i < data@.len(),
                        off <= i,
                        j == i - off,
                        l <= 15,
                        l <= off,
                        i + l <= data@.len(),
                        forall|k: int| 0 <= k < l ==> #[trigger] data@[i + k] == data@[j + k],
                        match_len(data@, i as int, off as int) == run_from(
                            data@,
                            i as int,
                            off as int,
                            l as int,
                        ),
                    decreases 15 - l,
                {
                    l += 1;
                }
                assert(l as int == match_len(data@, i as int, off as int));
                let ghost obl = best_len as int;
                let ghost obo = best_off as int;
                if l > best_len {
                    best_len = l;
                    best_off = off;
                }
                proof {
                    assert(best_acc(data@, i as int, off as int, obl, obo) == best_acc(
                        data@,
                        i as int,
                        off as int - 1,
                        best_len as int,
                        best_off as int,
                    ));
                }
                off -= 1;
            }
            proof {
                assert(best_match(data@, i as int) == (best_len as int, best_off as int));
            }
            if best_len >= 3 {
                let ghost out0 = out@;
                let ghost pre = data@.subrange(0, i as int);
                out.push((0x80 + (best_len - 3)) as u8);
                out.push((best_off / 256) as u8);
                out.push((best_off % 256) as u8);
                proof {
                    let t = seq![
                        (0x80 + (best_len - 3)) as u8,
                        (best_off / 256) as u8,
                        (best_off % 256) as u8,
                    ];
                    assert(out@ =~= out0 + t);
                    lemma_tok_decode_append(out0, t, Seq::empty());
                    assert((t[0] as int) - 0x80 + 3 == best_len);
                    assert((t[1] as int) * 256 + (t[2] as int) == best_off);
                    let exp = pre.subrange(
                        pre.len() - best_off,
                        pre.len() - best_off + best_len,
                    );
                    assert forall|k: int| 0 <= k < best_len implies exp[k] == data@.subrange(
                        i as int,
                        i + best_len,
                    )[k] by {
                        assert(data@[i + k] == data@[i - best_off + k]);
                    }
                    assert(exp =~= data@.subrange(i as int, i + best_len));
                    assert(t.subrange(3, t.len() as int) =~= Seq::<u8>::empty());
                    assert(tok_decode(Seq::<u8>::empty(), pre + exp) == Some(pre + exp));
                    assert(tok_decode(t, pre) == Some(pre + exp));
                    assert(pre + exp =~= data@.subrange(0, i + best_len));
                    let b = best_match(data@, i as int);
                    let spec_tok = seq![
                        (0x80 + b.0 - 3) as u8,
                        (b.1 / 256) as u8,
                        (b.1 % 256) as u8,
                    ];
                    assert(t =~= spec_tok);
                    assert(compress_tokens(data@, i as int) == spec_tok + compress_tokens(
                        data@,
                        i + best_len,
                    ));
                    assert(out@ + compress_tokens(data@, i + best_len) =~= out0
                        + compress_tokens(data@, i as int));
                }
                i += best_len;
            } else {
                let ll: usize = if data.len() - i < 15 {
                    data.len() - i
                } else {
                    15
                };
                let ghost out0 = out@;
                let ghost pre = data@.subrange(0, i as int);
                out.push(ll as u8);
                assert(out@ =~= out0.push(ll as u8) + data@.subrange(i as int, i as int));
                let mut m: usize = 0;
                while m < ll
                    invariant
                        data@.len() <= usize::MAX,
                        i < data@.len(),
                        1 <= ll && ll <= 15,
                        i + ll <= data@.len(),
                        m <= ll,
                        out@ == out0.push(ll as u8) + data@.subrange(i as int, i + m),
                    decreases ll - m,
                {
                    out.push(data[i + m]);
                    assert(out@ =~= out0.push(ll as u8) + data@.subrange(i as int, i + m + 1));
                    m += 1;
                }
                proof {
                    let t = seq![ll as u8] + data@.subrange(i as int, i + ll);
                    assert(out@ =~= out0 + t);
                    lemma_tok_decode_append(out0, t, Seq::empty());
                    assert(t[0] as int == ll);
                    assert(t.len() == 1 + ll);
                    assert(t.subrange(1, 1 + ll) =~= data@.subrange(i as int, i + ll));
                    assert(t.subrange(1 + ll as int, t.len() as int) =~= Seq::<u8>::empty());
                    assert(tok_decode(
                        Seq::<u8>::empty(),
                        pre + data@.subrange(i as int, i + ll),
                    ) == Some(pre + data@.subrange(i as int, i + ll)));
                    assert(tok_decode(t, pre) == Some(pre + data@.subrange(i as int, i + ll)));
                    assert(pre + data@.subrange(i as int, i + ll) =~= data@.subrange(0, i + ll));
                    assert(compress_tokens(data@, i as int) == seq![ll as u8] + data@.subrange(
                        i as int,
                        i + ll,
                    ) + compress_tokens(data@, i + ll));
                    assert(out@ + compress_tokens(data@, i + ll) =~= out0 + compress_tokens(
                        data@,
                        i as int,
                    ));
                }
                i += ll;
            }
        }
        assert(data@.subrange(0, data@.len() as int) =~= data@);
        assert(out@ + compress_tokens(data@, i as int) =~= out@);
        out
    }

    /// Decodes a token stream produced by `fast_compress` for inputs of at
    /// least 16 bytes. Returns the reconstructed bytes, or
    /// `IndexOutOfRange` exactly when the stream is malformed: a truncated
    /// token, a zero-length literal, or a back-reference past the start of
    /// the produced output.
    pub fn fast_decompress(data: &[u8]) -> (r: Result<Vec<u8>, KernelError>)
        ensures
            decode(data@) is Some ==> r is Ok && r->Ok_0@ == decode(data@)->Some_0,
            decode(data@) is None ==> r == Err::<Vec<u8>, KernelError>(
                KernelError::IndexOutOfRange,
            ),
    {
        let mut out: Vec<u8> = Vec::new();
        let mut p: usize = 0;
        assert(data@.subrange(0, data@.len() as int) =~= data@);
        while p < data.len()
            invariant
                p <= data@.len(),
                decode(data@) == tok_decode(data@.subrange(p as int, data@.len() as int), out@),
            decreases data@.len() - p,
        {
            let ghost rem = data@.subrange(p as int, data@.len() as int);
            let b0 = data[p];
            if b0 >= 0x80 {
                if data.len() - p < 3 {
                    return Err(KernelError::IndexOutOfRange);
                }
                let len: usize = (b0 as usize) - 0x80 + 3;
                let off: usize = (data[p + 1] as usize) * 256 + (data[p + 2] as usize);
                if off < 1 || off > out.len() || len > off {
                    assert(rem[1] == data@[p + 1] && rem[2] == data@[p + 2]);
                    return Err(KernelError::IndexOutOfRange);
                }
                assert(rem[1] == data@[p + 1] && rem[2] == data@[p + 2]);
                let start = out.len() - off;
                let ghost out0 = out@;
                assert(out@ =~= out0 + out0.subrange(start as int, start as int));
                let mut k: usize = 0;
                while k < len
                    invariant
                        k <= len,
                        out0.len() <= usize::MAX,
                        start + len <= out0.len(),
                        out0.len() <= out@.len(),
                        out@ == out0 + out0.subrange(start as int, start + k),
                    decreases len - k,
                {
                    let byte = out[start + k];
                    assert(out@[start + k] == out0[start + k]);
                    out.push(byte);
                    assert(out@ =~= out0 + out0.subrange(start as int, start + k + 1));
                    k += 1;
                }
                proof {
                    assert(rem.subrange(3, rem.len() as int) =~= data@.subrange(
                        p + 3,
                        data@.len() as int,
                    ));
                }
                p += 3;
            } else if b0 == 0 {
                return Err(KernelError::IndexOutOfRange);
            } else {
                let ln: usize = b0 as usize;
                if data.len() - p < ln + 1 {
                    return Err(KernelError::IndexOutOfRange);
                }
                let ghost out0 = out@;
                assert(out@ =~= out0 + data@.subrange(p + 1, p + 1));
                let mut k: usize = 0;
                while k < ln
                    invariant
                        k <= ln,
                        data@.len() <= usize::MAX,
                        p + ln + 1 <= data@.len(),
                        out@ == out0 + data@.subrange(p + 1, p + 1 + k),
                    decreases ln - k,
                {
                    out.push(data[p + 1 + k]);
                    assert(out@ =~= out0 + data@.subrange(p + 1, p + 1 + k + 1));
                    k += 1;
                }
                proof {
                    assert(rem.subrange(1 + ln as int, rem.len() as int) =~= data@.subrange(
                        p + 1 + ln,
                        data@.len() as int,
                    ));
                    assert(rem.subrange(1, 1 + ln as int) =~= data@.subrange(p + 1, p + 1 + ln));
                }
                p += 1 + ln;
            }
        }
        assert(data@.subrange(p as int, data@.len() as int) =~= Seq::<u8>::empty());
        Ok(out)
    }

    /// Delta-encodes binary32 samples: each sample's difference from its
    /// predecessor (from +0.0 for the first) is truncated toward zero,
    /// wrapped to a signed 16-bit value, and written as two little-endian
    /// bytes. Lossy: fractional deltas truncate and deltas beyond the
    /// 16-bit range wrap.
    pub fn delta_encode(samples: &Vec<u32>) -> (r: Vec<u8>)
        ensures
            r@ == delta_encode_spec(samples@),
    {
        let mut out: Vec<u8> = Vec::new();
        let mut last: u32 = F32_ZERO_BITS;
        let mut k: usize = 0;
        while k < samples.len()
            invariant
                k <= samples@.len(),
                last == if k == 0 {
                    F32_ZERO_BITS
                } else {
                    samples@[k - 1]
                },
                out@.len() == 2 * k,
                forall|t: int|
                    0 <= t < k ==> out@[2 * t] == i16_lo(delta_i16_at(samples@, t)) && out@[2 * t
                        + 1] == i16_hi(delta_i16_at(samples@, t)),
            decreases samples@.len() - k,
        {
            let v = samples[k];
            let d: i16 = f32_to_i16(f32_sub(v, last));
            out.push(#[verifier::truncate] ((d as u16) as u8));
            out.push(((d as u16) / 256) as u8);
            last = v;
            k += 1;
        }
        proof {
            assert(out@ =~= delta_encode_spec(samples@));
        }
        out
    }

    /// Delta-decodes little-endian signed 16-bit byte pairs into binary32
    /// samples by accumulating a running sum from +0.0. A trailing odd byte
    /// is ignored.
    pub fn delta_decode(data: &[u8]) -> (r: Vec<u32>)
        ensures
            r@.len() == data@.len() / 2,
            forall|k: int| 0 <= k < r@.len() ==> r@[k] == delta_decoded_at(data@, k),
    {
        let n = data.len() / 2;
        let mut out: Vec<u32> = Vec::new();
        let mut acc: u32 = F32_ZERO_BITS;
        let mut k: usize = 0;
        while k < n
            invariant
                data@.len() <= usize::MAX,
                n == data@.len() / 2,
                2 * n <= data@.len(),
                k <= n,
                acc == if k == 0 {
                    F32_ZERO_BITS
                } else {
                    delta_decoded_at(data@, k - 1)
                },
                out@.len() == k,
                forall|t: int| 0 <= t < k ==> out@[t] == delta_decoded_at(data@, t),
            decreases n - k,
        {
            let lo = data[2 * k];
            let hi = data[2 * k + 1];
            let u: u16 = (hi as u16) * 256 + (lo as u16);
            let d: i16 = #[verifier::truncate] (u as i16);
            assert(d == i16_of_le(lo, hi));
            acc = f32_add(acc, f32_from_i16(d));
            out.push(acc);
            k += 1;
        }
        out
    }
}

} // verus!
