//! The decoder: parses the bit grammar and reconstructs the original bytes.
use vstd::prelude::*;

use vstd::arithmetic::div_mod::{lemma_div_denominator, lemma_fundamental_div_mod};
use vstd::arithmetic::power2::{pow2, lemma_pow2_adds, lemma_pow2_pos, lemma_pow2_strictly_increases};
use vstd::string::StringExecFns;

use crate::bitbuf::{lemma_pow2_values, peek_bits, take_bits};
use crate::constants::{
    lenbits, lenval, offbase, offbits, spec_lenbits, spec_lenval, spec_offbase, spec_offbits,
    DMAX_FAST_LEN, D_BIG_LEN_BASE, D_BIG_LEN_BITS, D_BIG_LEN_CODE, MIN_DECODE,
};

verus! {

/// The decoder keeps no state across calls, so nothing needs setting up.
pub fn unwhackinit() {
}

/// The decimal digit character for `d` in 0..10.
pub open spec fn dec_digit(d: nat) -> char {
    if d == 0 {
        '0'
    } else if d == 1 {
        '1'
    } else if d == 2 {
        '2'
    } else if d == 3 {
        '3'
    } else if d == 4 {
        '4'
    } else if d == 5 {
        '5'
    } else if d == 6 {
        '6'
    } else if d == 7 {
        '7'
    } else if d == 8 {
        '8'
    } else {
        '9'
    }
}

/// The decimal representation of `n`, most significant digit first.
pub open spec fn dec_seq(n: nat) -> Seq<char>
    decreases n,
{
    if n < 10 {
        seq![dec_digit(n)]
    } else {
        dec_seq(n / 10).push(dec_digit(n % 10))
    }
}

fn digit_str(d: u64) -> (s: &'static str)
    requires
        d < 10,
    ensures
        s@ == seq![dec_digit(d as nat)],
{
    proof {
        reveal_strlit("0");
        reveal_strlit("1");
        reveal_strlit("2");
        reveal_strlit("3");
        reveal_strlit("4");
        reveal_strlit("5");
        reveal_strlit("6");
        reveal_strlit("7");
        reveal_strlit("8");
        reveal_strlit("9");
        assert("0"@ =~= seq!['0']);
        assert("1"@ =~= seq!['1']);
        assert("2"@ =~= seq!['2']);
        assert("3"@ =~= seq!['3']);
        assert("4"@ =~= seq!['4']);
        assert("5"@ =~= seq!['5']);
        assert("6"@ =~= seq!['6']);
        assert("7"@ =~= seq!['7']);
        assert("8"@ =~= seq!['8']);
        assert("9"@ =~= seq!['9']);
    }
    if d == 0 {
        "0"
    } else if d == 1 {
        "1"
    } else if d == 2 {
        "2"
    } else if d == 3 {
        "3"
    } else if d == 4 {
        "4"
    } else if d == 5 {
        "5"
    } else if d == 6 {
        "6"
    } else if d == 7 {
        "7"
    } else if d == 8 {
        "8"
    } else {
        "9"
    }
}

/// `n` written in decimal.
fn dec_string(n: u64) -> (s: String)
    ensures
        s@ == dec_seq(n as nat),
    decreases n,
{
    if n < 10 {
        digit_str(n).to_owned()
    } else {
        let mut s: String = dec_string(n / 10);
        let d: &str = digit_str(n % 10);
        s.append(d);
        proof {
            assert(s@ =~= dec_seq(n as nat));
        }
        s
    }
}

/// The text of the offset-out-of-range error for a given offset, output
/// position, match length, and pending bit count.
pub open spec fn offset_err_seq(off: nat, d: nat, len: nat, nbits: nat) -> Seq<char> {
    "offset out of range: off="@ + dec_seq(off) + " d="@ + dec_seq(d) + " len="@ + dec_seq(len)
        + " nbits="@ + dec_seq(nbits)
}

fn offset_error(off: u64, d: u64, len: u64, nbits: u64) -> (s: String)
    ensures
        s@ == offset_err_seq(off as nat, d as nat, len as nat, nbits as nat),
{
    let mut s: String = "offset out of range: off=".to_owned();
    let t0: String = dec_string(off);
    s.append(t0.as_str());
    s.append(" d=");
    let t1: String = dec_string(d);
    s.append(t1.as_str());
    s.append(" len=");
    let t2: String = dec_string(len);
    s.append(t2.as_str());
    s.append(" nbits=");
    let t3: String = dec_string(nbits);
    s.append(t3.as_str());
    proof {
        assert(s@ =~= offset_err_seq(off as nat, d as nat, len as nat, nbits as nat));
    }
    s
}

/// Decoder state between tokens, at the specification level.
pub ghost struct DecState {
    pub spos: nat,
    pub bits: nat,
    pub nbits: nat,
    pub overbits: nat,
    pub lithist: nat,
    pub dst: Seq<u8>,
}

/// Build a decoder state from its components.
pub open spec fn mk_state(spos: nat, bits: nat, nbits: nat, overbits: nat, lithist: nat, dst: Seq<
    u8,
>) -> DecState {
    DecState { spos, bits, nbits, overbits, lithist, dst }
}

/// What decoding produces: the reconstructed bytes or one of four errors.
pub ghost enum DecodeResult {
    Bytes(Seq<u8>),
    TooMuchOutput,
    LenOutOfRange,
    OffsetOutOfRange { off: nat, dpos: nat, len: nat, nbits: nat },
    Overrun,
}

/// One token either ends decoding or yields the state for the next token.
pub ghost enum StepOutcome {
    Done(DecodeResult),
    Next(DecState),
}

/// Refill the bit buffer to more than 24 bits, one byte at a time; bytes
/// past the end of the input are zero and are counted in `overbits`.
pub open spec fn spec_refill(src: Seq<u8>, st: DecState) -> DecState
    decreases 32 - st.nbits,
{
    if st.nbits <= 24 {
        if st.spos < src.len() {
            spec_refill(
                src,
                DecState {
                    spos: st.spos + 1,
                    bits: st.bits * 256 + src[st.spos as int] as nat,
                    nbits: st.nbits + 8,
                    ..st
                },
            )
        } else {
            spec_refill(
                src,
                DecState { bits: st.bits * 256, nbits: st.nbits + 8, overbits: st.overbits + 8, ..st },
            )
        }
    } else {
        st
    }
}

/// The big-length escape: repeatedly widen the code by one bit until it
/// falls below the number of lengths the current width covers. `None`
/// marks bit-buffer underflow. Returns the remaining buffer and the length.
pub open spec fn spec_biglen(bits: nat, nbits: nat, code: int, use0: nat, bflag: nat, mlen: nat) -> Option<
    (nat, nat, nat),
>
    decreases nbits,
{
    if code >= use0 {
        if nbits == 0 {
            Option::None
        } else {
            let b = bits / pow2((nbits - 1) as nat);
            let bits2 = bits % pow2((nbits - 1) as nat);
            let code2 = (code - use0) * 2 + b;
            let use2: nat = if bflag == 1 {
                use0 * 2
            } else {
                use0
            };
            let bflag2: nat = if bflag == 1 {
                0
            } else {
                1
            };
            spec_biglen(bits2, (nbits - 1) as nat, code2, use2, bflag2, mlen + use0)
        }
    } else {
        Option::Some((bits, nbits, (mlen + code) as nat))
    }
}

/// Copy `len` bytes, each read `off` back from the current end, so that an
/// overlapping copy repeats the trailing bytes run-length style.
pub open spec fn spec_copy(dst: Seq<u8>, off: nat, len: nat) -> Seq<u8>
    decreases len,
{
    if len == 0 {
        dst
    } else {
        spec_copy(dst.push(dst[dst.len() - off]), off, (len - 1) as nat)
    }
}

/// Finish a literal token: refuse it when the output is full, else append
/// the byte and roll its non-ASCII-ness into the literal history.
pub open spec fn spec_lit_finish(ndst: nat, st: DecState, lit: nat) -> StepOutcome {
    if st.dst.len() >= ndst {
        StepOutcome::Done(DecodeResult::TooMuchOutput)
    } else {
        let bitv: nat = if lit < 32 || lit > 127 {
            1
        } else {
            0
        };
        StepOutcome::Next(
            DecState { lithist: (st.lithist * 2 + bitv) % 256, dst: st.dst.push(lit as u8), ..st },
        )
    }
}

/// Decode one token from a refilled buffer.
#[verifier::opaque]
pub open spec fn spec_step(src: Seq<u8>, ndst: nat, st0: DecState) -> StepOutcome {
    let st = spec_refill(src, st0);
    let v5 = st.bits / pow2((st.nbits - 5) as nat);
    let lv = spec_lenval(v5 as int);
    if lv == 0 {
        if st.lithist % 16 != 0 {
            let n2 = (st.nbits - 9) as nat;
            let lit = (st.bits / pow2(n2)) % 256;
            spec_lit_finish(ndst, DecState { bits: st.bits % pow2(n2), nbits: n2, ..st }, lit)
        } else {
            let n2 = (st.nbits - 8) as nat;
            let v8 = (st.bits / pow2(n2)) % 128;
            let bits2 = st.bits % pow2(n2);
            if v8 < 24 {
                let n3 = (n2 - 2) as nat;
                let e = bits2 / pow2(n3);
                spec_lit_finish(
                    ndst,
                    DecState { bits: bits2 % pow2(n3), nbits: n3, ..st },
                    (v8 * 4 + e + 192) % 256,
                )
            } else if v8 < 32 {
                let n3 = (n2 - 3) as nat;
                let e = bits2 / pow2(n3);
                spec_lit_finish(
                    ndst,
                    DecState { bits: bits2 % pow2(n3), nbits: n3, ..st },
                    (v8 * 8 + e + 192) % 256,
                )
            } else {
                spec_lit_finish(ndst, DecState { bits: bits2, nbits: n2, ..st }, v8)
            }
        }
    } else {
        let mres = if lv < 255 {
            let n2 = (st.nbits - spec_lenbits(lv as int)) as nat;
            Option::Some((st.bits % pow2(n2), n2, lv as nat))
        } else {
            let n2 = (st.nbits - 6) as nat;
            let v6 = st.bits / pow2(n2);
            spec_biglen(st.bits % pow2(n2), n2, v6 - 60, 1, 1, 7)
        };
        match mres {
            Option::None => StepOutcome::Done(DecodeResult::LenOutOfRange),
            Option::Some(t) => {
                let st2 = if lv < 255 {
                    DecState { bits: t.0, nbits: t.1, ..st }
                } else {
                    spec_refill(src, DecState { bits: t.0, nbits: t.1, ..st })
                };
                let mlen = t.2;
                let n3 = (st2.nbits - 4) as nat;
                let c4 = st2.bits / pow2(n3);
                let ob = spec_offbits(c4 as int);
                let n4 = (n3 - ob) as nat;
                let rest = st2.bits % pow2(n3);
                let extra = rest / pow2(n4);
                let off: nat = (spec_offbase(c4 as int) + extra + 1) as nat;
                if off > st2.dst.len() {
                    StepOutcome::Done(
                        DecodeResult::OffsetOutOfRange {
                            off,
                            dpos: st2.dst.len(),
                            len: mlen,
                            nbits: n4,
                        },
                    )
                } else if st2.dst.len() + mlen > ndst {
                    StepOutcome::Done(DecodeResult::LenOutOfRange)
                } else {
                    StepOutcome::Next(
                        DecState { bits: rest % pow2(n4), nbits: n4, dst: spec_copy(st2.dst, off, mlen), ..st2 },
                    )
                }
            },
        }
    }
}

/// States the decoder's main loop can actually be in.
pub open spec fn dec_wf(src: Seq<u8>, st: DecState) -> bool {
    &&& st.spos <= src.len()
    &&& st.nbits <= 32
    &&& st.bits < pow2(st.nbits)
    &&& st.overbits <= 88
    &&& (st.spos < src.len() ==> st.overbits == 0)
}

/// Real bits still available to the decoder, shifted to keep it nonnegative.
pub open spec fn dec_measure(src: Seq<u8>, st: DecState) -> int {
    8 * (src.len() - st.spos) + 128 + st.nbits - st.overbits
}

/// Run the decoder from `st` to completion: decode tokens while input
/// bytes remain or at least `MIN_DECODE` non-padding bits are pending,
/// then check that no synthesized padding was consumed.
pub open spec fn spec_decode_from(src: Seq<u8>, ndst: nat, st: DecState) -> DecodeResult
    decreases dec_measure(src, st),
    via spec_decode_from_dec
{
    if !dec_wf(src, st) {
        DecodeResult::Overrun
    } else if st.spos < src.len() || st.nbits >= st.overbits + 8 {
        match spec_step(src, ndst, st) {
            StepOutcome::Done(r) => r,
            StepOutcome::Next(st2) => spec_decode_from(src, ndst, st2),
        }
    } else if st.nbits < st.overbits {
        DecodeResult::Overrun
    } else {
        DecodeResult::Bytes(st.dst)
    }
}

/// What decoding a whole block produces.
pub open spec fn spec_unwhack(src: Seq<u8>, ndst: nat) -> DecodeResult {
    spec_decode_from(
        src,
        ndst,
        DecState { spos: 0, bits: 0, nbits: 0, overbits: 0, lithist: 255, dst: Seq::empty() },
    )
}

/// Refilling preserves the measure, tops the buffer up to 25..32 bits,
/// and pads only once the input is exhausted.
pub proof fn lemma_refill_props(src: Seq<u8>, st: DecState)
    requires
        st.nbits <= 32,
        st.bits < pow2(st.nbits),
        st.spos <= src.len(),
    ensures
        ({
            let r = spec_refill(src, st);
            &&& 25 <= r.nbits <= 32
            &&& r.bits < pow2(r.nbits)
            &&& st.spos <= r.spos <= src.len()
            &&& st.overbits <= r.overbits
            &&& r.overbits - st.overbits <= r.nbits - st.nbits
            &&& (r.spos < src.len() ==> r.overbits == st.overbits)
            &&& r.lithist == st.lithist
            &&& r.dst == st.dst
            &&& dec_measure(src, r) == dec_measure(src, st)
        }),
    decreases 32 - st.nbits,
{
    lemma_pow2_values();
    if st.nbits <= 24 {
        lemma_pow2_adds(st.nbits, 8);
        if st.spos < src.len() {
            let st1 = DecState {
                spos: st.spos + 1,
                bits: st.bits * 256 + src[st.spos as int] as nat,
                nbits: st.nbits + 8,
                ..st
            };
            assert(st1.bits < pow2(st1.nbits)) by (nonlinear_arith)
                requires
                    st.bits < pow2(st.nbits),
                    src[st.spos as int] < 256,
                    pow2(st.nbits + 8) == pow2(st.nbits) * 256,
                    st1.bits == st.bits * 256 + src[st.spos as int] as nat,
                    st1.nbits == st.nbits + 8,
            ;
            lemma_refill_props(src, st1);
        } else {
            let st1 = DecState {
                bits: st.bits * 256,
                nbits: st.nbits + 8,
                overbits: st.overbits + 8,
                ..st
            };
            assert(st1.bits < pow2(st1.nbits)) by (nonlinear_arith)
                requires
                    st.bits < pow2(st.nbits),
                    pow2(st.nbits + 8) == pow2(st.nbits) * 256,
                    st1.bits == st.bits * 256,
                    st1.nbits == st.nbits + 8,
            ;
            lemma_refill_props(src, st1);
        }
    }
}

/// The big-length escape only consumes bits and keeps the buffer in range.
pub proof fn lemma_biglen_props(bits: nat, nbits: nat, code: int, use0: nat, bflag: nat, mlen: nat)
    requires
        bits < pow2(nbits),
    ensures
        ({
            match spec_biglen(bits, nbits, code, use0, bflag, mlen) {
                Option::None => true,
                Option::Some(t) => t.1 <= nbits && t.0 < pow2(t.1),
            }
        }),
    decreases nbits,
{
    if code >= use0 && nbits > 0 {
        let lo = pow2((nbits - 1) as nat);
        lemma_pow2_pos((nbits - 1) as nat);
        lemma_fundamental_div_mod(bits as int, lo as int);
        let use2: nat = if bflag == 1 {
            use0 * 2
        } else {
            use0
        };
        let bflag2: nat = if bflag == 1 {
            0nat
        } else {
            1nat
        };
        lemma_biglen_props(
            bits % lo,
            (nbits - 1) as nat,
            (code - use0) * 2 + bits / lo,
            use2,
            bflag2,
            mlen + use0,
        );
    }
}

#[via_fn]
proof fn spec_decode_from_dec(src: Seq<u8>, ndst: nat, st: DecState) {
    if dec_wf(src, st) && (st.spos < src.len() || st.nbits >= st.overbits + 8) {
        lemma_step_consumes(src, ndst, st);
    }
}

/// A token step consumes at least eight real bits: the measure of the
/// successor state is smaller and still in range.
pub proof fn lemma_step_consumes(src: Seq<u8>, ndst: nat, st: DecState)
    requires
        dec_wf(src, st),
        st.spos < src.len() || st.nbits >= st.overbits + 8,
    ensures
        ({
            match spec_step(src, ndst, st) {
                StepOutcome::Done(r) => true,
                StepOutcome::Next(st2) => 0 <= dec_measure(src, st2) <= dec_measure(src, st) - 8,
            }
        }),
{
    reveal(spec_step);
    lemma_pow2_values();
    lemma_refill_props(src, st);
    let st1 = spec_refill(src, st);
    let v5 = st1.bits / pow2((st1.nbits - 5) as nat);
    let lv = spec_lenval(v5 as int);
    assert(st.overbits <= 24);
    assert(st1.overbits <= 56);
    if lv == 0 {
    } else {
        if lv < 255 {
        } else {
            let n2 = (st1.nbits - 6) as nat;
            let v6 = st1.bits / pow2(n2);
            lemma_pow2_pos(n2);
            lemma_fundamental_div_mod(st1.bits as int, pow2(n2) as int);
            lemma_biglen_props(st1.bits % pow2(n2), n2, v6 - 60, 1, 1, 7);
            match spec_biglen(st1.bits % pow2(n2), n2, v6 - 60, 1, 1, 7) {
                Option::None => {},
                Option::Some(t) => {
                    let stm = DecState { bits: t.0, nbits: t.1, ..st1 };
                    lemma_refill_props(src, stm);
                },
            }
        }
    }
}

/// Shift whole input bytes into the bit buffer until it holds more than
/// 24 bits, counting any bytes synthesized past the end of the input.
fn refill(bits: &mut u64, nbits: &mut u32, spos: &mut usize, overbits: &mut u32, src: &Vec<u8>)
    requires
        *old(nbits) <= 32,
        *old(bits) < pow2(*old(nbits) as nat),
        *old(spos) <= src@.len(),
        *old(overbits) <= 56,
    ensures
        25 <= *final(nbits) <= 32,
        *final(bits) < pow2(*final(nbits) as nat),
        *old(spos) <= *final(spos) <= src@.len(),
        *old(overbits) <= *final(overbits) <= *old(overbits) + 32,
        *final(spos) < src@.len() ==> *final(overbits) == *old(overbits),
        8 * (src@.len() - *final(spos) as int) + *final(nbits) - *final(overbits) == 8 * (
        src@.len() - *old(spos) as int) + *old(nbits) - *old(overbits),
        forall|lh: nat, dv: Seq<u8>|
            #[trigger] spec_refill(
                src@,
                mk_state(
                    *old(spos) as nat,
                    *old(bits) as nat,
                    *old(nbits) as nat,
                    *old(overbits) as nat,
                    lh,
                    dv,
                ),
            ) == mk_state(
                *final(spos) as nat,
                *final(bits) as nat,
                *final(nbits) as nat,
                *final(overbits) as nat,
                lh,
                dv,
            ),
{
    while *nbits <= 24
        invariant
            *old(nbits) <= 32,
            *old(overbits) <= 56,
            *nbits <= 32,
            *bits < pow2(*nbits as nat),
            *old(spos) <= *spos <= src@.len(),
            *old(overbits) <= *overbits,
            *overbits - *old(overbits) <= *nbits - *old(nbits),
            *spos < src@.len() ==> *overbits == *old(overbits),
            8 * (src@.len() - *spos as int) + *nbits - *overbits == 8 * (src@.len() - *old(
                spos,
            ) as int) + *old(nbits) - *old(overbits),
            forall|lh: nat, dv: Seq<u8>|
                #[trigger] spec_refill(
                    src@,
                    mk_state(
                        *old(spos) as nat,
                        *old(bits) as nat,
                        *old(nbits) as nat,
                        *old(overbits) as nat,
                        lh,
                        dv,
                    ),
                ) == spec_refill(
                    src@,
                    mk_state(
                        *spos as nat,
                        *bits as nat,
                        *nbits as nat,
                        *overbits as nat,
                        lh,
                        dv,
                    ),
                ),
        decreases 32 - *nbits,
    {
        let b0: u64 = *bits;
        let n0: u32 = *nbits;
        let ghost ps: nat = *spos as nat;
        let ghost po: nat = *overbits as nat;
        proof {
            lemma_pow2_values();
            lemma_pow2_adds(n0 as nat, 8);
            if n0 + 8 < 32 {
                lemma_pow2_strictly_increases((n0 + 8) as nat, 32);
            }
        }
        let byte: u64 = if *spos < src.len() {
            let b: u8 = src[*spos];
            *spos = *spos + 1;
            b as u64
        } else {
            *overbits = *overbits + 8;
            0
        };
        assert(b0 * 256 + byte < pow2((n0 + 8) as nat)) by (nonlinear_arith)
            requires
                b0 < pow2(n0 as nat),
                byte < 256,
                pow2((n0 + 8) as nat) == pow2(n0 as nat) * 256,
        ;
        *bits = b0 * 256 + byte;
        *nbits = n0 + 8;
        proof {
            assert forall|lh: nat, dv: Seq<u8>|
                #[trigger] spec_refill(src@, mk_state(ps, b0 as nat, n0 as nat, po, lh, dv))
                    == spec_refill(
                    src@,
                    mk_state(
                        *spos as nat,
                        *bits as nat,
                        *nbits as nat,
                        *overbits as nat,
                        lh,
                        dv,
                    ),
                ) by {
                let prev = DecState {
                    spos: ps,
                    bits: b0 as nat,
                    nbits: n0 as nat,
                    overbits: po,
                    lithist: lh,
                    dst: dv,
                };
                let curr = DecState {
                    spos: *spos as nat,
                    bits: *bits as nat,
                    nbits: *nbits as nat,
                    overbits: *overbits as nat,
                    lithist: lh,
                    dst: dv,
                };
                assert(spec_refill(src@, prev) == spec_refill(src@, curr));
            }
        }
    }
    proof {
        assert forall|lh: nat, dv: Seq<u8>|
            #[trigger] spec_refill(
                src@,
                mk_state(*spos as nat, *bits as nat, *nbits as nat, *overbits as nat, lh, dv),
            ) == mk_state(*spos as nat, *bits as nat, *nbits as nat, *overbits as nat, lh, dv) by {
            let curr = DecState {
                spos: *spos as nat,
                bits: *bits as nat,
                nbits: *nbits as nat,
                overbits: *overbits as nat,
                lithist: lh,
                dst: dv,
            };
            assert(spec_refill(src@, curr) == curr);
        }
    }
}

/// An empty block decodes to the empty output, whatever length the
/// caller expects.
pub proof fn lemma_empty_decode(ndst: nat)
    ensures
        spec_unwhack(Seq::<u8>::empty(), ndst) == DecodeResult::Bytes(Seq::<u8>::empty()),
{
    lemma_pow2_values();
    let st0 = mk_state(0, 0, 0, 0, 255, Seq::<u8>::empty());
    assert(spec_decode_from(Seq::<u8>::empty(), ndst, st0) == DecodeResult::Bytes(st0.dst));
}

/// Decode one literal token from a refilled buffer, mirroring
/// `spec_step` on a state whose top five bits select a literal.
fn lit_token(
    src: &Vec<u8>,
    ndst: usize,
    bits: &mut u64,
    nbits: &mut u32,
    lithist: &mut u32,
    dst: &mut Vec<u8>,
    Ghost(st_pre): Ghost<DecState>,
    Ghost(sp): Ghost<nat>,
    Ghost(ov): Ghost<nat>,
) -> (e: Option<String>)
    requires
        25 <= *old(nbits) <= 32,
        *old(bits) < pow2(*old(nbits) as nat),
        *old(lithist) < 256,
        old(dst)@.len() <= ndst,
        spec_refill(src@, st_pre) == mk_state(
            sp,
            *old(bits) as nat,
            *old(nbits) as nat,
            ov,
            *old(lithist) as nat,
            old(dst)@,
        ),
        spec_lenval((*old(bits) as nat / pow2((*old(nbits) - 5) as nat)) as int) == 0,
    ensures
        *final(nbits) <= *old(nbits) - 8,
        *old(nbits) - *final(nbits) <= 11,
        *final(bits) < pow2(*final(nbits) as nat),
        *final(lithist) < 256,
        final(dst)@.len() <= ndst,
        old(dst)@.len() <= final(dst)@.len(),
        e is None ==> final(dst)@.len() >= 1,
        match e {
            Option::None => spec_step(src@, ndst as nat, st_pre) == StepOutcome::Next(
                mk_state(
                    sp,
                    *final(bits) as nat,
                    *final(nbits) as nat,
                    ov,
                    *final(lithist) as nat,
                    final(dst)@,
                ),
            ),
            Option::Some(m) => spec_step(src@, ndst as nat, st_pre) == StepOutcome::Done(
                DecodeResult::TooMuchOutput,
            ) && m@ == "too much output"@,
        },
{
    proof {
        lemma_pow2_values();
    }
    let lit: u8;
    if *lithist % 16 != 0 {
        let v9: u64 = take_bits(bits, nbits, 9);
        lit = (v9 % 256) as u8;
    } else {
        let v8: u64 = take_bits(bits, nbits, 8);
        let mut l0: u64 = v8 % 128;
        if l0 < 32 {
            if l0 < 24 {
                let e2: u64 = take_bits(bits, nbits, 2);
                l0 = l0 * 4 + e2;
            } else {
                let e2: u64 = take_bits(bits, nbits, 3);
                l0 = l0 * 8 + e2;
            }
            l0 = (l0 + 192) % 256;
        }
        lit = l0 as u8;
    }
    let ghost st_mid = mk_state(sp, *bits as nat, *nbits as nat, ov, *old(lithist) as nat, dst@);
    proof {
        reveal(spec_step);
        assert(spec_step(src@, ndst as nat, st_pre) == spec_lit_finish(
            ndst as nat,
            st_mid,
            lit as nat,
        ));
    }
    if dst.len() >= ndst {
        return Option::Some("too much output".to_owned());
    }
    dst.push(lit);
    let bitv: u32 = if lit < 32 || lit > 127 {
        1
    } else {
        0
    };
    *lithist = (*lithist * 2 + bitv) % 256;
    proof {
        assert(spec_lit_finish(ndst as nat, st_mid, lit as nat) == StepOutcome::Next(
            mk_state(sp, *bits as nat, *nbits as nat, ov, *lithist as nat, dst@),
        ));
    }
    Option::None
}

/// Decode one match token (length, then offset, then the overlapped
/// copy) from a refilled buffer, mirroring `spec_step` on a state whose
/// top five bits select a match.
fn match_token(
    src: &Vec<u8>,
    ndst: usize,
    bits: &mut u64,
    nbits: &mut u32,
    spos: &mut usize,
    overbits: &mut u32,
    dst: &mut Vec<u8>,
    lv: u8,
    Ghost(st_pre): Ghost<DecState>,
    Ghost(lh): Ghost<nat>,
) -> (e: Option<String>)
    requires
        src@.len() >= 1,
        25 <= *old(nbits) <= 32,
        *old(bits) < pow2(*old(nbits) as nat),
        *old(spos) <= src@.len(),
        *old(overbits) <= 56,
        *old(spos) < src@.len() ==> *old(overbits) == 0,
        old(dst)@.len() <= ndst,
        spec_refill(src@, st_pre) == mk_state(
            *old(spos) as nat,
            *old(bits) as nat,
            *old(nbits) as nat,
            *old(overbits) as nat,
            lh,
            old(dst)@,
        ),
        lv == spec_lenval((*old(bits) as nat / pow2((*old(nbits) - 5) as nat)) as int),
        lv != 0,
    ensures
        *final(nbits) <= 32,
        *final(bits) < pow2(*final(nbits) as nat),
        *old(spos) <= *final(spos) <= src@.len(),
        *final(overbits) <= 88,
        *final(spos) < src@.len() ==> *final(overbits) == 0,
        final(dst)@.len() <= ndst,
        old(dst)@.len() <= final(dst)@.len(),
        e is None ==> final(dst)@.len() >= 1,
        8 * (src@.len() - *final(spos) as int) + *final(nbits) - *final(overbits) <= 8 * (
        src@.len() - *old(spos) as int) + *old(nbits) - *old(overbits) - 8,
        match e {
            Option::None => spec_step(src@, ndst as nat, st_pre) == StepOutcome::Next(
                mk_state(
                    *final(spos) as nat,
                    *final(bits) as nat,
                    *final(nbits) as nat,
                    *final(overbits) as nat,
                    lh,
                    final(dst)@,
                ),
            ),
            Option::Some(m) => (spec_step(src@, ndst as nat, st_pre) matches StepOutcome::Done(dr)
                && match dr {
                DecodeResult::LenOutOfRange => m@ == "len out of range"@,
                DecodeResult::OffsetOutOfRange { off, dpos, len, nbits } => m@ == offset_err_seq(
                    off,
                    dpos,
                    len,
                    nbits,
                ),
                _ => false,
            }),
        },
{
    proof {
        lemma_pow2_values();
    }
    let ghost mres0: Option<(nat, nat, nat)>;
    let mut mlen: u64;
    if lv < 255 {
        mlen = lv as u64;
        let lb: u8 = lenbits(lv);
        let _ = take_bits(bits, nbits, lb as u32);
        proof {
            mres0 = Option::Some((*bits as nat, *nbits as nat, lv as nat));
        }
    } else {
        let ghost bits0: u64 = *bits;
        let ghost n0: u32 = *nbits;
        let v6: u64 = take_bits(bits, nbits, D_BIG_LEN_BITS);
        proof {
            lemma_pow2_pos((n0 - 6) as nat);
            lemma_pow2_adds((n0 - 6) as nat, 1);
            lemma_div_denominator(bits0 as int, pow2((n0 - 6) as nat) as int, 2);
            lemma_fundamental_div_mod(v6 as int, 2);
            assert(v6 / 2 == bits0 as nat / pow2((n0 - 5) as nat));
        }
        let mut code: u64 = v6 - D_BIG_LEN_CODE as u64;
        mlen = DMAX_FAST_LEN as u64;
        let mut use0: u64 = D_BIG_LEN_BASE as u64;
        // D_BIG_LEN_BITS is even, so the first step doubles `use0`.
        let mut bflag: u32 = 1;
        let ghost nstart: u32 = *nbits;
        proof {
            reveal(spec_step);
            mres0 = spec_biglen(*bits as nat, *nbits as nat, code as int, 1, 1, 7);
            if mres0 is None {
                assert(spec_step(src@, ndst as nat, st_pre) == StepOutcome::Done(
                    DecodeResult::LenOutOfRange,
                ));
            }
        }
        while code >= use0
            invariant
                *nbits <= nstart <= 26,
                *bits < pow2(*nbits as nat),
                bflag <= 1,
                use0 as nat <= pow2((nstart - *nbits + 1) as nat),
                use0 >= 1,
                code as nat <= 4 * pow2((nstart - *nbits) as nat) - 1,
                mlen as nat <= 7 + (nstart - *nbits) * pow2(27),
                spec_biglen(
                    *bits as nat,
                    *nbits as nat,
                    code as int,
                    use0 as nat,
                    bflag as nat,
                    mlen as nat,
                ) == mres0,
                mres0 is None ==> spec_step(src@, ndst as nat, st_pre) == StepOutcome::Done(
                    DecodeResult::LenOutOfRange,
                ),
                *spos == *old(spos),
                *overbits == *old(overbits),
                dst@ == old(dst)@,
                old(dst)@.len() <= ndst,
                25 <= *old(nbits) <= 32,
                *old(spos) <= src@.len(),
                *old(overbits) <= 56,
                *old(spos) < src@.len() ==> *old(overbits) == 0,
            decreases *nbits,
        {
            if *nbits == 0 {
                proof {
                    assert(mres0 is None);
                }
                return Option::Some("len out of range".to_owned());
            }
            proof {
                lemma_pow2_values();
                let k: nat = (nstart - *nbits) as nat;
                if k + 1 < 27 {
                    lemma_pow2_strictly_increases(k + 1, 27);
                }
                if k < 26 {
                    lemma_pow2_strictly_increases(k, 26);
                }
                lemma_pow2_adds(k, 1);
                lemma_pow2_adds(k + 1, 1);
            }
            let ghost pb: u64 = *bits;
            let ghost pn: u32 = *nbits;
            let ghost pc: u64 = code;
            let ghost pu: u64 = use0;
            let ghost pf: u32 = bflag;
            let ghost pm: u64 = mlen;
            mlen = mlen + use0;
            code = code - use0;
            let b1: u64 = take_bits(bits, nbits, 1);
            code = code * 2 + b1;
            if bflag == 1 {
                use0 = use0 * 2;
            }
            bflag = 1 - bflag;
            proof {
                assert(spec_biglen(pb as nat, pn as nat, pc as int, pu as nat, pf as nat, pm as nat)
                    == spec_biglen(
                    *bits as nat,
                    *nbits as nat,
                    code as int,
                    use0 as nat,
                    bflag as nat,
                    mlen as nat,
                ));
            }
        }
        proof {
            lemma_pow2_values();
            let k: nat = (nstart - *nbits) as nat;
            if k < 26 {
                lemma_pow2_strictly_increases(k, 26);
            }
            if k + 1 < 27 {
                lemma_pow2_strictly_increases(k + 1, 27);
            }
        }
        mlen = mlen + code;
        proof {
            assert(mres0 == Option::Some((*bits as nat, *nbits as nat, mlen as nat)));
        }
        let ghost gb2: nat = *bits as nat;
        let ghost gn2: nat = *nbits as nat;
        let ghost gs2: nat = *spos as nat;
        let ghost go2: nat = *overbits as nat;
        refill(bits, nbits, spos, overbits, src);
        proof {
            assert(spec_refill(src@, mk_state(gs2, gb2, gn2, go2, lh, dst@)) == mk_state(
                *spos as nat,
                *bits as nat,
                *nbits as nat,
                *overbits as nat,
                lh,
                dst@,
            ));
        }
    }
    let ghost st2 = mk_state(*spos as nat, *bits as nat, *nbits as nat, *overbits as nat, lh, dst@);
    // Offset: 4-bit class, then that class's extra bits.
    let c4: u64 = take_bits(bits, nbits, 4);
    let ob: u8 = offbits(c4);
    let base: u16 = offbase(c4);
    let extra: u64 = take_bits(bits, nbits, ob as u32);
    proof {
        lemma_pow2_values();
    }
    let off: u64 = base as u64 + extra + 1;
    if off > dst.len() as u64 {
        proof {
            reveal(spec_step);
            assert(spec_step(src@, ndst as nat, st_pre) == StepOutcome::Done(
                DecodeResult::OffsetOutOfRange {
                    off: off as nat,
                    dpos: dst@.len(),
                    len: mlen as nat,
                    nbits: *nbits as nat,
                },
            ));
        }
        return Option::Some(offset_error(off, dst.len() as u64, mlen, *nbits as u64));
    }
    if mlen > (ndst - dst.len()) as u64 {
        proof {
            reveal(spec_step);
            assert(spec_step(src@, ndst as nat, st_pre) == StepOutcome::Done(
                DecodeResult::LenOutOfRange,
            ));
        }
        return Option::Some("len out of range".to_owned());
    }
    let mlen_us: usize = mlen as usize;
    let start: usize = dst.len() - off as usize;
    let ghost dst_entry: Seq<u8> = dst@;
    let ghost dpos0: int = dst@.len() as int;
    let mut i: usize = 0;
    while i < mlen_us
        invariant
            dst@.len() == dpos0 + i,
            0 <= i <= mlen_us,
            dpos0 + mlen_us <= ndst,
            start + off == dpos0,
            off >= 1,
            spec_copy(dst@, off as nat, (mlen_us - i) as nat) == spec_copy(
                dst_entry,
                off as nat,
                mlen_us as nat,
            ),
        decreases mlen_us - i,
    {
        let ghost dprev: Seq<u8> = dst@;
        let bcopy: u8 = dst[start + i];
        dst.push(bcopy);
        i = i + 1;
        proof {
            assert(dprev[dprev.len() - off as nat] == bcopy);
            assert(spec_copy(dprev, off as nat, (mlen_us - i + 1) as nat) == spec_copy(
                dst@,
                off as nat,
                (mlen_us - i) as nat,
            ));
        }
    }
    proof {
        reveal(spec_step);
        assert(spec_copy(dst@, off as nat, 0) == dst@);
        assert(dst@ == spec_copy(dst_entry, off as nat, mlen as nat));
        assert(spec_step(src@, ndst as nat, st_pre) == StepOutcome::Next(
            mk_state(*spos as nat, *bits as nat, *nbits as nat, *overbits as nat, lh, dst@),
        ));
    }
    Option::None
}

/// Decompress a block into at most `ndst` bytes: the result is exactly
/// what `spec_unwhack` assigns to the input.
///
/// An empty input decodes to an empty output whatever `ndst` says. On
/// success the output never exceeds `ndst` bytes: a literal or a match
/// that would run past it is refused, as is a match reaching back before
/// the start of the output, a big-length escape that exhausts the bit
/// buffer, and a stream whose final bit accounting is inconsistent. Every
/// error is one of those four messages.
#[verifier::rlimit(100)]
pub fn unwhack(src: &Vec<u8>, ndst: usize) -> (r: Result<Vec<u8>, String>)
    ensures
        (r matches Ok(d) ==> spec_unwhack(src@, ndst as nat) == DecodeResult::Bytes(d@)),
        (spec_unwhack(src@, ndst as nat) matches DecodeResult::Bytes(b) ==> (r matches Ok(d)
            && d@ == b)),
        (r matches Err(m) ==> match spec_unwhack(src@, ndst as nat) {
            DecodeResult::Bytes(d) => false,
            DecodeResult::TooMuchOutput => m@ == "too much output"@,
            DecodeResult::LenOutOfRange => m@ == "len out of range"@,
            DecodeResult::OffsetOutOfRange { off, dpos, len, nbits } => m@ == offset_err_seq(
                off,
                dpos,
                len,
                nbits,
            ),
            DecodeResult::Overrun => m@ == "compressed data overrun"@,
        }),
        (r matches Ok(d) ==> d@.len() <= ndst),
        src@.len() == 0 ==> (r matches Ok(d) && d@.len() == 0),
        src@.len() > 0 ==> (r matches Ok(d) ==> d@.len() >= 1),
        src@.len() > 0 && ndst == 0 ==> r is Err,
        (r matches Err(m) ==> m@ == "too much output"@ || m@ == "len out of range"@ || m@
            == "compressed data overrun"@ || (exists|o: nat, dp: nat, l: nat, nb: nat|
            m@ == offset_err_seq(o, dp, l, nb))),
{
    let smax: usize = src.len();
    if smax == 0 {
        let empty: Vec<u8> = Vec::new();
        proof {
            lemma_pow2_values();
            let st0 = mk_state(0, 0, 0, 0, 255, Seq::<u8>::empty());
            assert(spec_decode_from(src@, ndst as nat, st0) == DecodeResult::Bytes(st0.dst));
            assert(empty@ =~= Seq::<u8>::empty());
        }
        return Result::Ok(empty);
    }
    let mut dst: Vec<u8> = Vec::with_capacity(ndst);
    let mut spos: usize = 0;
    let mut nbits: u32 = 0;
    let mut bits: u64 = 0;
    let mut overbits: u32 = 0;
    let mut lithist: u32 = 255;
    proof {
        lemma_pow2_values();
        assert(dst@ =~= Seq::<u8>::empty());
    }
    while spos < smax || nbits >= overbits + MIN_DECODE
        invariant
            smax == src@.len(),
            smax >= 1,
            spos <= smax,
            nbits <= 32,
            bits < pow2(nbits as nat),
            overbits <= 88,
            spos < smax ==> overbits == 0,
            spos > 0 ==> dst@.len() >= 1,
            dst@.len() <= ndst,
            lithist < 256,
            spec_decode_from(
                src@,
                ndst as nat,
                mk_state(
                    spos as nat,
                    bits as nat,
                    nbits as nat,
                    overbits as nat,
                    lithist as nat,
                    dst@,
                ),
            ) == spec_unwhack(src@, ndst as nat),
        decreases 8 * (smax - spos as int) + 128 + nbits - overbits,
    {
        let ghost st_pre = mk_state(
            spos as nat,
            bits as nat,
            nbits as nat,
            overbits as nat,
            lithist as nat,
            dst@,
        );
        proof {
            lemma_pow2_values();
            assert(dec_wf(src@, st_pre));
        }
        refill(&mut bits, &mut nbits, &mut spos, &mut overbits, src);
        let ghost st1 = mk_state(
            spos as nat,
            bits as nat,
            nbits as nat,
            overbits as nat,
            lithist as nat,
            dst@,
        );
        proof {
            assert(spec_refill(src@, st_pre) == st1);
        }
        let v5: u64 = peek_bits(bits, nbits, 5);
        let lv: u8 = lenval(v5);
        if lv == 0 {
            let e = lit_token(
                src,
                ndst,
                &mut bits,
                &mut nbits,
                &mut lithist,
                &mut dst,
                Ghost(st_pre),
                Ghost(spos as nat),
                Ghost(overbits as nat),
            );
            match e {
                Option::Some(m) => {
                    proof {
                        assert(spec_decode_from(src@, ndst as nat, st_pre)
                            == DecodeResult::TooMuchOutput);
                    }
                    return Result::Err(m);
                },
                Option::None => {
                    proof {
                        assert(spec_decode_from(src@, ndst as nat, st_pre) == spec_decode_from(
                            src@,
                            ndst as nat,
                            mk_state(
                                spos as nat,
                                bits as nat,
                                nbits as nat,
                                overbits as nat,
                                lithist as nat,
                                dst@,
                            ),
                        ));
                    }
                },
            }
        } else {
            let e = match_token(
                src,
                ndst,
                &mut bits,
                &mut nbits,
                &mut spos,
                &mut overbits,
                &mut dst,
                lv,
                Ghost(st_pre),
                Ghost(lithist as nat),
            );
            match e {
                Option::Some(m) => {
                    proof {
                        assert(spec_decode_from(src@, ndst as nat, st_pre) == spec_unwhack(
                            src@,
                            ndst as nat,
                        ));
                    }
                    return Result::Err(m);
                },
                Option::None => {
                    proof {
                        assert(spec_decode_from(src@, ndst as nat, st_pre) == spec_decode_from(
                            src@,
                            ndst as nat,
                            mk_state(
                                spos as nat,
                                bits as nat,
                                nbits as nat,
                                overbits as nat,
                                lithist as nat,
                                dst@,
                            ),
                        ));
                    }
                },
            }
        }
    }
    proof {
        let st_end = mk_state(
            spos as nat,
            bits as nat,
            nbits as nat,
            overbits as nat,
            lithist as nat,
            dst@,
        );
        assert(dec_wf(src@, st_end));
        if nbits < overbits {
            assert(spec_decode_from(src@, ndst as nat, st_end) == DecodeResult::Overrun);
        } else {
            assert(spec_decode_from(src@, ndst as nat, st_end) == DecodeResult::Bytes(dst@));
        }
    }
    if nbits < overbits {
        return Result::Err("compressed data overrun".to_owned());
    }
    Result::Ok(dst)
}

} // verus!
