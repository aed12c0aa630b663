//! The encoder: hash-chain match search over a 16384-byte sliding
//! dictionary, followed by variable-length coding of literals and matches.
use vstd::prelude::*;

use vstd::arithmetic::div_mod::lemma_add_mod_noop;
use vstd::arithmetic::power2::{pow2, lemma_pow2_adds, lemma_pow2_pos, lemma_pow2_strictly_increases};

use crate::bitbuf::{lemma_pow2_values, pow2u64, put_bits, take_bits};
use crate::constants::{
    lentab, spec_lentab_bits, spec_lentab_code, BIG_LEN_BASE, BIG_LEN_BITS, BIG_LEN_CODE, MAXLEN,
    MAX_FAST_LEN, MAX_OFF_BITS, MIN_MATCH, MIN_OFF_BITS, WHACK_MAX_OFF,
};

verus! {

/// Encoder dictionary: a hash table of 16-bit positions and a parallel
/// `next` array forming per-bucket chains of earlier positions.
pub struct Whack {
    pub begin: u16,
    pub hash: [u16; 16384],
    pub next: [u16; 16384],
    pub thwmaxcheck: u32,
}

/// Counters accumulated across encoder calls.
pub struct Stats {
    pub statbytes: usize,
    pub statoutbytes: usize,
    pub statlits: usize,
    pub statmatches: usize,
    pub statlitbits: usize,
    pub statoffbits: usize,
    pub statlenbits: usize,
}

/// Result of a dictionary search: a match length and its offset,
/// or `len == 0` when no usable match was found.
pub struct DictLookup {
    pub len: u16,
    pub off: u16,
}

/// Wrapping 16-bit difference `a - b`.
pub open spec fn sub16(a: u16, b: u16) -> u16 {
    ((a as int + 0x10000 - b as int) % 0x10000) as u16
}

/// A stored dictionary position is usable at source position `s` only if
/// its wrapping distance from the current counter either exceeds the
/// window (dead entry) or stays within the bytes already consumed.
pub open spec fn entry_ok(v: u16, now: u16, s: int) -> bool {
    sub16(now, v) > WHACK_MAX_OFF || sub16(now, v) <= s
}

/// Every slot of both dictionary arrays is usable at position `s`.
pub open spec fn dict_ok(hash: Seq<u16>, next: Seq<u16>, now: u16, s: int) -> bool {
    &&& hash.len() == 16384
    &&& next.len() == 16384
    &&& forall|i: int| 0 <= i < 16384 ==> entry_ok(#[trigger] hash[i], now, s)
    &&& forall|i: int| 0 <= i < 16384 ==> entry_ok(#[trigger] next[i], now, s)
}

/// The counter value after one position advance.
pub open spec fn inc16(now: u16) -> u16 {
    if now == 0xffff {
        0
    } else {
        (now + 1) as u16
    }
}

/// Advancing the counter together with the source position keeps every
/// stored entry usable, as does storing the old counter value itself.
pub proof fn lemma_entry_step(v: u16, now: u16, s: int)
    requires
        s >= 0,
        entry_ok(v, now, s) || v == now,
    ensures
        entry_ok(v, inc16(now), s + 1),
{
    if v == now {
        assert(sub16(inc16(now), v) == 1);
    } else {
        let d = sub16(now, v);
        if d == 0xffff {
            assert(sub16(inc16(now), v) == 0);
        } else {
            assert(sub16(inc16(now), v) == d + 1);
        }
    }
}

/// After storing `now` in some slots and advancing, the dictionary is
/// again consistent at the next source position.
pub proof fn lemma_dict_step(hash: Seq<u16>, next: Seq<u16>, now: u16, s: int)
    requires
        s >= 0,
        hash.len() == 16384,
        next.len() == 16384,
        forall|i: int| 0 <= i < 16384 ==> entry_ok(#[trigger] hash[i], now, s) || hash[i] == now,
        forall|i: int| 0 <= i < 16384 ==> entry_ok(#[trigger] next[i], now, s) || next[i] == now,
    ensures
        dict_ok(hash, next, inc16(now), s + 1),
{
    assert forall|i: int| 0 <= i < 16384 implies entry_ok(#[trigger] hash[i], inc16(now), s + 1) by {
        lemma_entry_step(hash[i], now, s);
    }
    assert forall|i: int| 0 <= i < 16384 implies entry_ok(#[trigger] next[i], inc16(now), s + 1) by {
        lemma_entry_step(next[i], now, s);
    }
}

/// Knuth multiplicative hashing over the 24-bit rolling context.
pub open spec fn spec_hashit(c: nat) -> u16 {
    (((c % 0x1000000) * 0x6b43a9b5) / 0x40000 % 0x4000) as u16
}

/// Hash of the three source bytes packed into the low 24 bits of `c`.
pub fn hashit(c: usize) -> (r: u16)
    ensures
        r == spec_hashit(c as nat),
        r < 16384,
{
    let m: u64 = (c as u64) % 0x1000000;
    let p: u64 = m * 0x6b43a9b5;
    ((p / 0x40000) % 0x4000) as u16
}

/// The per-call bound on match-search effort for a compression level.
pub open spec fn spec_thwmaxcheck(level: u8) -> u32 {
    let t = vstd::arithmetic::power2::pow2(level as nat);
    let tc = t - t / 4;
    if tc < 2 {
        2
    } else if tc > 1024 {
        1024
    } else {
        tc as u32
    }
}

/// A fresh dictionary for one encoder call at compression level `level`.
pub fn whackinit(level: u8) -> (w: Whack)
    requires
        2 <= level <= 14,
    ensures
        w.begin == 2 * WHACK_MAX_OFF,
        w.thwmaxcheck == spec_thwmaxcheck(level),
        2 <= w.thwmaxcheck <= 1024,
        forall|i: int| 0 <= i < 16384 ==> w.hash@[i] == 0 && w.next@[i] == 0,
        dict_ok(w.hash@, w.next@, w.begin, 0),
{
    let t: u64 = crate::bitbuf::pow2u64(level as u32);
    let mut tc: u64 = t - t / 4;
    if tc < 2 {
        tc = 2;
    } else if tc > 1024 {
        tc = 1024;
    }
    let w = Whack {
        begin: 2 * WHACK_MAX_OFF,
        hash: [0u16; 16384],
        next: [0u16; 16384],
        thwmaxcheck: tc as u32,
    };
    proof {
        assert(sub16(w.begin, 0) == 0x8000);
        assert(dict_ok(w.hash@, w.next@, w.begin, 0));
    }
    w
}

/// Length of the longest common run of bytes at `ss` and `t0`, starting
/// from `k` already-matched bytes and never reaching past `cap`.
pub open spec fn spec_extend(src: Seq<u8>, ss: int, t0: int, cap: int, k: int) -> int
    decreases cap - ss - k,
{
    if ss + k < cap && k >= 0 && src[ss + k] == src[t0 + k] {
        spec_extend(src, ss, t0, cap, k + 1)
    } else {
        k
    }
}

/// One walk of a hash chain: up to `check` more probes at strictly
/// increasing offsets, keeping the longest match found and stopping
/// early once a match longer than `thw` appears.
pub open spec fn spec_walk(
    hash: Seq<u16>,
    next: Seq<u16>,
    src: Seq<u8>,
    ss: int,
    cap: int,
    now: u16,
    thw: nat,
    check: nat,
    last: u16,
    then: u16,
    bestlen: int,
    bestoff: u16,
) -> (int, u16)
    decreases check,
{
    if check == 0 {
        (bestlen, bestoff)
    } else {
        let off = sub16(now, then);
        if off <= last || off > WHACK_MAX_OFF {
            (bestlen, bestoff)
        } else {
            let t0 = ss - off;
            let cand: int = if src[ss] == src[t0] && src[ss + 1] == src[t0 + 1] && src[ss + 2]
                == src[t0 + 2] && (bestlen == 0 || (cap - ss > bestlen && src[ss + bestlen]
                == src[t0 + bestlen])) {
                spec_extend(src, ss, t0, cap, 3)
            } else {
                0
            };
            let bl2 = if cand > bestlen {
                cand
            } else {
                bestlen
            };
            let bo2 = if cand > bestlen {
                off
            } else {
                bestoff
            };
            if cand > bestlen && cand > thw {
                (bl2, bo2)
            } else {
                spec_walk(
                    hash,
                    next,
                    src,
                    ss,
                    cap,
                    now,
                    thw,
                    (check - 1) as nat,
                    off,
                    next[(then % 16384) as int],
                    bl2,
                    bo2,
                )
            }
        }
    }
}

/// The match that the dictionary search returns: nothing when fewer than
/// `MIN_MATCH` bytes remain, else the walk's best length and offset.
pub open spec fn spec_whackmatch(
    hash: Seq<u16>,
    next: Seq<u16>,
    thw: u32,
    src: Seq<u8>,
    ss: int,
    esrc: int,
    h: u16,
    now: u16,
) -> Option<(int, u16)> {
    if esrc < ss + MIN_MATCH {
        Option::None
    } else {
        let cap = if esrc - ss > MAXLEN {
            ss + MAXLEN
        } else {
            esrc
        };
        Option::Some(
            spec_walk(hash, next, src, ss, cap, now, thw as nat, thw as nat, 0, hash[h as int], 0, 0),
        )
    }
}

/// The first entry of the chain for hash bucket `h` is live at position
/// `ss`, the search is allowed at least one probe, and the entry's three
/// leading bytes equal those at `ss`.
pub open spec fn head_matches(b: &Whack, src: Seq<u8>, ss: usize, h: u16, now: u16) -> bool {
    let off = sub16(now, b.hash@[h as int]);
    &&& b.thwmaxcheck >= 1
    &&& 1 <= off <= WHACK_MAX_OFF
    &&& off as int <= ss
    &&& ss + MIN_MATCH <= src.len()
    &&& src[ss as int] == src[ss - off]
    &&& src[ss + 1] == src[ss - off + 1]
    &&& src[ss + 2] == src[ss - off + 2]
}

/// Wrapping 16-bit difference, executable form.
fn off16(now: u16, then: u16) -> (r: u16)
    ensures
        r == sub16(now, then),
{
    (((now as u32) + 0x10000 - (then as u32)) % 0x10000) as u16
}

/// Search the dictionary for the longest match of the bytes at `ss`
/// within the already-consumed prefix, walking at most `thwmaxcheck`
/// chain entries at strictly increasing offsets.
///
/// `None` is returned exactly when fewer than `MIN_MATCH` bytes remain.
/// A non-zero result describes a real back-reference: the `len` bytes at
/// `ss` equal the `len` bytes starting `off` back, with `off` within both
/// the window and the consumed prefix.
pub fn whackmatch(b: &Whack, src: &[u8], ss: usize, esrc: usize, h: u16, now: u16) -> (r: Option<
    DictLookup,
>)
    requires
        esrc <= src@.len(),
        h < 16384,
        dict_ok(b.hash@, b.next@, now, ss as int),
    ensures
        match r {
            Option::None => esrc < ss + MIN_MATCH,
            Option::Some(dl) => {
                &&& ss + MIN_MATCH <= esrc
                &&& (dl.len == 0 ==> dl.off == 0)
                &&& (dl.len > 0 ==> {
                    &&& MIN_MATCH <= dl.len as usize <= MAXLEN
                    &&& ss + dl.len as usize <= esrc
                    &&& 1 <= dl.off <= WHACK_MAX_OFF
                    &&& dl.off as usize <= ss
                    &&& forall|i: int|
                        0 <= i < dl.len as int ==> #[trigger] src@[ss + i] == src@[ss - dl.off as int
                            + i]
                })
                // The search is not idle: a live first chain entry whose
                // three leading bytes agree always yields a match.
                &&& (head_matches(b, src@, ss, h, now) ==> MIN_MATCH <= dl.len)
                // The result is exactly the chain walk's best match.
                &&& spec_whackmatch(
                    b.hash@,
                    b.next@,
                    b.thwmaxcheck,
                    src@,
                    ss as int,
                    esrc as int,
                    h,
                    now,
                ) == Option::Some((dl.len as int, dl.off))
            },
        },
{
    if esrc < MIN_MATCH || ss > esrc - MIN_MATCH {
        return Option::None;
    }
    let mut cap: usize = esrc;
    if cap - ss > MAXLEN {
        cap = ss + MAXLEN;
    }
    let mut bestoff: u16 = 0;
    let mut bestlen: usize = 0;
    let mut check: u32 = b.thwmaxcheck;
    let mut last: u16 = 0;
    let mut then: u16 = b.hash[h as usize];
    let ghost w0: (int, u16) = spec_walk(
        b.hash@,
        b.next@,
        src@,
        ss as int,
        cap as int,
        now,
        b.thwmaxcheck as nat,
        b.thwmaxcheck as nat,
        0,
        b.hash@[h as int],
        0,
        0,
    );
    while check > 0
        invariant_except_break
            spec_walk(
                b.hash@,
                b.next@,
                src@,
                ss as int,
                cap as int,
                now,
                b.thwmaxcheck as nat,
                check as nat,
                last,
                then,
                bestlen as int,
                bestoff,
            ) == w0,
        invariant
            esrc <= src@.len(),
            ss + MIN_MATCH <= cap <= esrc,
            cap - ss <= MAXLEN,
            dict_ok(b.hash@, b.next@, now, ss as int),
            entry_ok(then, now, ss as int),
            check <= b.thwmaxcheck,
            check == b.thwmaxcheck ==> then == b.hash@[h as int] && last == 0 && bestlen == 0,
            head_matches(b, src@, ss, h, now) ==> check == b.thwmaxcheck || MIN_MATCH <= bestlen,
            bestlen == 0 ==> bestoff == 0,
            bestlen != 0 ==> {
                &&& MIN_MATCH <= bestlen <= cap - ss
                &&& 1 <= bestoff <= WHACK_MAX_OFF
                &&& bestoff as usize <= ss
                &&& forall|i: int|
                    0 <= i < bestlen ==> #[trigger] src@[ss + i] == src@[ss - bestoff as int + i]
            },
        ensures
            head_matches(b, src@, ss, h, now) ==> MIN_MATCH <= bestlen,
            w0 == (bestlen as int, bestoff),
            bestlen == 0 ==> bestoff == 0,
            bestlen != 0 ==> {
                &&& MIN_MATCH <= bestlen <= cap - ss
                &&& 1 <= bestoff <= WHACK_MAX_OFF
                &&& bestoff as usize <= ss
                &&& forall|i: int|
                    0 <= i < bestlen ==> #[trigger] src@[ss + i] == src@[ss - bestoff as int + i]
            },
        decreases check,
    {
        let ghost hck: nat = check as nat;
        let ghost hlast: u16 = last;
        let ghost hthen: u16 = then;
        let ghost hbl: int = bestlen as int;
        let ghost hbo: u16 = bestoff;
        check = check - 1;

        let off: u16 = off16(now, then);
        if off <= last || off > WHACK_MAX_OFF {
            proof {
                assert(spec_walk(
                    b.hash@,
                    b.next@,
                    src@,
                    ss as int,
                    cap as int,
                    now,
                    b.thwmaxcheck as nat,
                    hck,
                    hlast,
                    hthen,
                    hbl,
                    hbo,
                ) == (bestlen as int, bestoff));
            }
            break;
        }
        // A live entry lies within the consumed prefix.
        assert(off as usize <= ss);
        let t0: usize = ss - off as usize;
        let ghost cand: int = 0;
        if src[ss] == src[t0] && src[ss + 1] == src[t0 + 1] && src[ss + 2] == src[t0 + 2] {
            let extend: bool = if bestlen == 0 {
                true
            } else if cap - ss > bestlen && src[ss + bestlen] == src[t0 + bestlen] {
                true
            } else {
                false
            };
            if extend {
                let mut k: usize = 3;
                while ss + k < cap && src[ss + k] == src[t0 + k]
                    invariant
                        esrc <= src@.len(),
                        ss + MIN_MATCH <= cap <= esrc,
                        t0 == ss - off as usize,
                        1 <= off as usize <= ss,
                        3 <= k <= cap - ss,
                        forall|i: int| 0 <= i < k ==> #[trigger] src@[ss + i] == src@[t0 + i],
                        spec_extend(src@, ss as int, t0 as int, cap as int, k as int)
                            == spec_extend(src@, ss as int, t0 as int, cap as int, 3),
                    decreases cap - ss - k,
                {
                    k = k + 1;
                }
                proof {
                    cand = k as int;
                    assert(spec_extend(src@, ss as int, t0 as int, cap as int, k as int) == k);
                }
                if k > bestlen {
                    bestlen = k;
                    bestoff = off;
                    if bestlen > b.thwmaxcheck as usize {
                        proof {
                            assert(spec_walk(
                                b.hash@,
                                b.next@,
                                src@,
                                ss as int,
                                cap as int,
                                now,
                                b.thwmaxcheck as nat,
                                hck,
                                hlast,
                                hthen,
                                hbl,
                                hbo,
                            ) == (bestlen as int, bestoff));
                        }
                        break;
                    }
                }
            }
        }
        last = off;
        then = b.next[(then % (WHACK_MAX_OFF as u16)) as usize];
        proof {
            assert(spec_walk(
                b.hash@,
                b.next@,
                src@,
                ss as int,
                cap as int,
                now,
                b.thwmaxcheck as nat,
                hck,
                hlast,
                hthen,
                hbl,
                hbo,
            ) == spec_walk(
                b.hash@,
                b.next@,
                src@,
                ss as int,
                cap as int,
                now,
                b.thwmaxcheck as nat,
                check as nat,
                last,
                then,
                bestlen as int,
                bestoff,
            ));
        }
    }
    proof {
        assert(spec_whackmatch(
            b.hash@,
            b.next@,
            b.thwmaxcheck,
            src@,
            ss as int,
            esrc as int,
            h,
            now,
        ) == Option::Some((bestlen as int, bestoff)));
    }
    Option::Some(DictLookup { len: bestlen as u16, off: bestoff })
}

/// Move every whole byte of the pending bits to the output; fail (and
/// leave the remaining bits in place) as soon as the output would reach
/// `wdmax` bytes with bits still pending.
fn flush_bytes(dst: &mut Vec<u8>, wbits: &mut u64, wnbits: &mut u32, wdmax: usize) -> (ok: bool)
    requires
        *old(wnbits) <= 32,
        *old(wbits) < pow2(*old(wnbits) as nat),
        old(dst)@.len() <= wdmax,
    ensures
        *final(wnbits) <= *old(wnbits),
        *final(wbits) < pow2(*final(wnbits) as nat),
        final(dst)@.len() <= wdmax,
        old(dst)@.len() <= final(dst)@.len(),
        ok ==> *final(wnbits) < 8,
        !ok ==> final(dst)@.len() == wdmax,
        8 * final(dst)@.len() + *final(wnbits) == 8 * old(dst)@.len() + *old(wnbits),
        ok ==> spec_flush(old(dst)@, *old(wbits) as nat, *old(wnbits) as nat, wdmax as nat)
            == Option::Some((final(dst)@, *final(wbits) as nat, *final(wnbits) as nat)),
        !ok ==> spec_flush(old(dst)@, *old(wbits) as nat, *old(wnbits) as nat, wdmax as nat)
            is None,
{
    while *wnbits >= 8
        invariant
            *wnbits <= 32,
            *wbits < pow2(*wnbits as nat),
            dst@.len() <= wdmax,
            old(dst)@.len() <= dst@.len(),
            8 * dst@.len() + *wnbits == 8 * old(dst)@.len() + *old(wnbits),
            spec_flush(dst@, *wbits as nat, *wnbits as nat, wdmax as nat) == spec_flush(
                old(dst)@,
                *old(wbits) as nat,
                *old(wnbits) as nat,
                wdmax as nat,
            ),
        decreases *wnbits,
    {
        if dst.len() >= wdmax {
            proof {
                assert(spec_flush(dst@, *wbits as nat, *wnbits as nat, wdmax as nat) is None);
            }
            return false;
        }
        proof {
            lemma_pow2_values();
        }
        let ghost dprev: Seq<u8> = dst@;
        let ghost bprev: u64 = *wbits;
        let ghost nprev: u32 = *wnbits;
        let byte: u64 = take_bits(wbits, wnbits, 8);
        dst.push(byte as u8);
        proof {
            assert(spec_flush(dprev, bprev as nat, nprev as nat, wdmax as nat) == spec_flush(
                dst@,
                *wbits as nat,
                *wnbits as nat,
                wdmax as nat,
            ));
        }
    }
    proof {
        assert(spec_flush(dst@, *wbits as nat, *wnbits as nat, wdmax as nat) == Option::Some(
            (dst@, *wbits as nat, *wnbits as nat),
        ));
    }
    true
}


/// Encoder state between source positions, at the specification level.
pub ghost struct EncState {
    pub s: nat,
    pub now: u16,
    pub cont: nat,
    pub lithist: nat,
    pub half: nat,
    pub lits: nat,
    pub matches: nat,
    pub offbits: nat,
    pub lenbits: nat,
    pub wbits: nat,
    pub wnbits: nat,
    pub out: Seq<u8>,
    pub hash: Seq<u16>,
    pub next: Seq<u16>,
}

/// One encoder step either refuses the block or yields the next state.
pub ghost enum EncOutcome {
    Abort,
    Next(EncState),
}

/// Build an encoder state from its components.
#[verifier::inline]
pub open spec fn mk_enc(
    s: nat,
    now: u16,
    cont: nat,
    lithist: nat,
    half: nat,
    lits: nat,
    matches: nat,
    offbits: nat,
    lenbits: nat,
    wbits: nat,
    wnbits: nat,
    out: Seq<u8>,
    hash: Seq<u16>,
    next: Seq<u16>,
) -> EncState {
    EncState {
        s,
        now,
        cont,
        lithist,
        half,
        lits,
        matches,
        offbits,
        lenbits,
        wbits,
        wnbits,
        out,
        hash,
        next,
    }
}

/// Move every whole byte of the pending bits to the output, refusing as
/// soon as the output would reach `wdmax` bytes with bits still pending.
pub open spec fn spec_flush(out: Seq<u8>, wbits: nat, wnbits: nat, wdmax: nat) -> Option<
    (Seq<u8>, nat, nat),
>
    decreases wnbits,
{
    if wnbits >= 8 {
        if out.len() >= wdmax {
            Option::None
        } else {
            let byte = wbits / pow2((wnbits - 8) as nat);
            spec_flush(out.push(byte as u8), wbits % pow2((wnbits - 8) as nat), (wnbits - 8) as nat, wdmax)
        }
    } else {
        Option::Some((out, wbits, wnbits))
    }
}

/// The width and value of one literal's code, given the literal history
/// already shifted for this byte.
pub open spec fn spec_lit_code(lithist: nat, lit: nat) -> (nat, nat) {
    if lithist % 32 >= 2 {
        (9, lit)
    } else if lithist % 2 == 1 {
        let b2 = (lit + 64) % 256;
        if b2 < 96 {
            (10, b2)
        } else {
            (11, b2)
        }
    } else {
        (8, lit)
    }
}

/// The big-length escape code: widen until the remaining length falls
/// below the number of lengths the current width covers.
pub open spec fn spec_biglen_code(code: nat, bits: nat, use0: nat, l2: nat) -> (nat, nat)
    decreases l2,
{
    if l2 >= use0 && use0 >= 1 {
        let code2 = (code + use0) * 2;
        let use2: nat = if bits % 2 == 0 {
            use0 * 2
        } else {
            use0
        };
        spec_biglen_code(code2, bits + 1, use2, (l2 - use0) as nat)
    } else {
        (code + l2, bits)
    }
}

/// The number of bits needed for a biased offset, at least `MIN_OFF_BITS`.
pub open spec fn spec_offwidth(o: nat, obits: nat) -> nat
    decreases 14 - obits,
{
    if o >= pow2(obits) && obits < 14 {
        spec_offwidth(o, obits + 1)
    } else {
        obits
    }
}

/// The width and value of one offset code: a 3- or 4-bit class selector
/// followed by the offset's low bits.
pub open spec fn spec_off_code(toff: nat) -> (nat, nat) {
    let o = (toff - 1) as nat;
    let obits = spec_offwidth(o, 6);
    if obits < 13 {
        let ebits: nat = if obits != 6 {
            (obits - 1) as nat
        } else {
            obits
        };
        (3 + ebits, ((obits - 6) * pow2(ebits) + o % pow2(ebits)) as nat)
    } else {
        let ebits = (obits - 1) as nat;
        (4 + ebits, ((14 + obits - 13) * pow2(ebits) + o % pow2(ebits)) as nat)
    }
}

/// Enter one source position into the dictionary, stepping the counter
/// and the rolling three-byte context.
pub open spec fn spec_insert(src: Seq<u8>, esrc: nat, hash: Seq<u16>, next: Seq<u16>, now: u16, cont: nat, s: nat) -> (
    Seq<u16>,
    Seq<u16>,
    u16,
    nat,
) {
    let h = spec_hashit(cont);
    let hash2 = if s + 3 <= esrc {
        hash.update(h as int, now)
    } else {
        hash
    };
    let next2 = if s + 3 <= esrc {
        next.update((now % 16384) as int, hash[h as int])
    } else {
        next
    };
    let cont2: nat = if s + 3 < esrc {
        (cont * 256) % 0x1000000 + src[s + 3 as int] as nat
    } else {
        cont
    };
    (hash2, next2, inc16(now), cont2)
}

/// Enter every position of a match's span into the dictionary.
pub open spec fn spec_span(src: Seq<u8>, esrc: nat, hash: Seq<u16>, next: Seq<u16>, now: u16, cont: nat, s: nat, ss2: nat) -> (
    Seq<u16>,
    Seq<u16>,
    u16,
    nat,
)
    decreases ss2 - s,
{
    if s < ss2 {
        let t = spec_insert(src, esrc, hash, next, now, cont, s);
        spec_span(src, esrc, t.0, t.1, t.2, t.3, s + 1, ss2)
    } else {
        (hash, next, now, cont)
    }
}

/// Encode one source position: flush, search the dictionary, then emit
/// either one literal or one match, entering the consumed positions into
/// the dictionary. `Abort` marks an output that reached the input's size
/// or too little progress at the input's midpoint.
#[verifier::opaque]
pub open spec fn spec_enc_step(src: Seq<u8>, n: nat, thw: u32, st: EncState) -> EncOutcome {
    let h = spec_hashit(st.cont);
    let wm = spec_whackmatch(st.hash, st.next, thw, src, st.s as int, n as int, h, st.now);
    let wlen: int = match wm {
        Option::Some(t) => t.0,
        Option::None => 0,
    };
    let toff: int = match wm {
        Option::Some(t) => t.1 as int,
        Option::None => 0,
    };
    match spec_flush(st.out, st.wbits, st.wnbits, n) {
        Option::None => EncOutcome::Abort,
        Option::Some(f) => {
            let st1 = EncState { wbits: f.1, wnbits: f.2, out: f.0, ..st };
            if wlen < MIN_MATCH {
                spec_lit_step(src, n, st1)
            } else {
                spec_match_step(src, n, st1, wlen, toff)
            }
        },
    }
}

/// Emit one literal: code it against the literal history, then check the
/// midpoint progress heuristic and enter the position into the dictionary.
#[verifier::opaque]
pub open spec fn spec_lit_step(src: Seq<u8>, n: nat, st: EncState) -> EncOutcome {
    let lit: nat = src[st.s as int] as nat;
    let bitv: nat = if lit < 32 || lit > 127 {
        1
    } else {
        0
    };
    let lithist2 = (st.lithist * 2 + bitv) % 256;
    let c = spec_lit_code(lithist2, lit);
    let wbits2 = st.wbits * pow2(c.0) + c.1;
    let wnbits2 = st.wnbits + c.0;
    let lits2 = st.lits + 1;
    if st.s > st.half && 4 * st.s < 5 * lits2 {
        EncOutcome::Abort
    } else {
        let half2: nat = if st.s > st.half {
            n
        } else {
            st.half
        };
        let t = spec_insert(src, n, st.hash, st.next, st.now, st.cont, st.s);
        EncOutcome::Next(
            EncState {
                s: st.s + 1,
                now: t.2,
                cont: t.3,
                lithist: lithist2,
                half: half2,
                lits: lits2,
                wbits: wbits2,
                wnbits: wnbits2,
                out: st.out,
                hash: t.0,
                next: t.1,
                ..st
            },
        )
    }
}

/// Emit one match: its length code (flushing after a big-length escape),
/// its offset code, and the dictionary entries for the span it covers.
#[verifier::opaque]
pub open spec fn spec_match_step(src: Seq<u8>, n: nat, st: EncState, wlen: int, toff: int) -> EncOutcome {
    let l = (wlen - MIN_MATCH) as nat;
    let lwidth: nat = if l < MAX_FAST_LEN {
        spec_lentab_bits(l as int) as nat
    } else {
        spec_biglen_code(500, 9, 4, (l - 9) as nat).1
    };
    let lenres: Option<(Seq<u8>, nat, nat)> = if l < MAX_FAST_LEN {
        Option::Some(
            (
                st.out,
                (st.wbits * pow2(spec_lentab_bits(l as int) as nat) + spec_lentab_code(
                    l as int,
                )) as nat,
                (st.wnbits + spec_lentab_bits(l as int)) as nat,
            ),
        )
    } else {
        let bc = spec_biglen_code(500, 9, 4, (l - 9) as nat);
        spec_flush(st.out, st.wbits * pow2(bc.1) + bc.0, st.wnbits + bc.1, n)
    };
    match lenres {
        Option::None => EncOutcome::Abort,
        Option::Some(g) => {
            let oc = spec_off_code(toff as nat);
            let wbits3 = g.1 * pow2(oc.0) + oc.1;
            let wnbits3 = g.2 + oc.0;
            let t = spec_span(src, n, st.hash, st.next, st.now, st.cont, st.s, (st.s + wlen) as nat);
            EncOutcome::Next(
                EncState {
                    s: (st.s + wlen) as nat,
                    now: t.2,
                    cont: t.3,
                    matches: st.matches + 1,
                    offbits: st.offbits + oc.0,
                    lenbits: st.lenbits + lwidth,
                    wbits: wbits3,
                    wnbits: wnbits3,
                    out: g.0,
                    hash: t.0,
                    next: t.1,
                    ..st
                },
            )
        },
    }
}

/// Pad the pending bits to a byte boundary and flush them. A block whose
/// padded form fills the whole input size is refused: a compressed block
/// is strictly shorter than its input. The token-level state before the
/// padding is returned beside the output bytes.
pub open spec fn spec_enc_finish(st: EncState, n: nat) -> Option<(Seq<u8>, EncState)> {
    let pad: nat = if st.wnbits % 8 != 0 {
        (8 - st.wnbits % 8) as nat
    } else {
        0
    };
    match spec_flush(st.out, st.wbits * pow2(pad), st.wnbits + pad, n) {
        Option::None => Option::None,
        Option::Some(f) => if f.0.len() == n {
            Option::None
        } else {
            Option::Some((f.0, st))
        },
    }
}

/// States the encoder's main loop can actually be in.
pub open spec fn enc_wf(src: Seq<u8>, n: nat, st: EncState) -> bool {
    &&& st.s <= n <= src.len()
    &&& st.hash.len() == 16384
    &&& st.next.len() == 16384
}

/// Run the encoder from `st` to the end of the input, yielding the
/// output bytes and the final token-level state.
pub open spec fn spec_whack_from(src: Seq<u8>, n: nat, thw: u32, st: EncState) -> Option<
    (Seq<u8>, EncState),
>
    decreases n - st.s,
    via spec_whack_from_dec
{
    if !enc_wf(src, n, st) {
        Option::None
    } else if st.s < n {
        match spec_enc_step(src, n, thw, st) {
            EncOutcome::Abort => Option::None,
            EncOutcome::Next(st2) => spec_whack_from(src, n, thw, st2),
        }
    } else {
        spec_enc_finish(st, n)
    }
}

/// What compressing a whole block produces: refusal of inputs shorter
/// than `MIN_MATCH`, else the encoder run from a fresh position.
pub open spec fn spec_whack(hash: Seq<u16>, next: Seq<u16>, begin: u16, thw: u32, src: Seq<u8>, n: nat) -> Option<
    (Seq<u8>, EncState),
> {
    if n < MIN_MATCH {
        Option::None
    } else {
        spec_whack_from(
            src,
            n,
            thw,
            EncState {
                s: 0,
                now: begin,
                cont: (src[0] as nat) * 65536 + (src[1] as nat) * 256 + (src[2] as nat),
                lithist: 255,
                half: (n / 2) as nat,
                lits: 0,
                matches: 0,
                offbits: 0,
                lenbits: 0,
                wbits: 0,
                wnbits: 0,
                out: Seq::empty(),
                hash: hash,
                next: next,
            },
        )
    }
}

/// What `whackblock` produces: one encoder run over a fresh dictionary at
/// the default compression level, as a pure function of the input alone.
pub open spec fn spec_whackblock(src: Seq<u8>, n: nat) -> Option<Seq<u8>> {
    match spec_whack(
        Seq::new(16384, |i: int| 0u16),
        Seq::new(16384, |i: int| 0u16),
        0x8000,
        spec_thwmaxcheck(6),
        src,
        n,
    ) {
        Option::None => Option::None,
        Option::Some(t) => Option::Some(t.0),
    }
}

/// The chain walk never reports a match longer than the window it was
/// given nor shorter than the best it started from.
pub proof fn lemma_walk_bounds(
    hash: Seq<u16>,
    next: Seq<u16>,
    src: Seq<u8>,
    ss: int,
    cap: int,
    now: u16,
    thw: nat,
    check: nat,
    last: u16,
    then: u16,
    bestlen: int,
    bestoff: u16,
)
    requires
        ss + 3 <= cap,
        0 <= bestlen <= cap - ss,
    ensures
        ({
            let r = spec_walk(hash, next, src, ss, cap, now, thw, check, last, then, bestlen, bestoff);
            bestlen <= r.0 <= cap - ss
        }),
    decreases check,
{
    if check > 0 {
        let off = sub16(now, then);
        if !(off <= last || off > WHACK_MAX_OFF) {
            let t0 = ss - off;
            let cand: int = if src[ss] == src[t0] && src[ss + 1] == src[t0 + 1] && src[ss + 2]
                == src[t0 + 2] && (bestlen == 0 || (cap - ss > bestlen && src[ss + bestlen]
                == src[t0 + bestlen])) {
                spec_extend(src, ss, t0, cap, 3)
            } else {
                0
            };
            lemma_extend_bounds(src, ss, t0, cap, 3);
            let bl2 = if cand > bestlen {
                cand
            } else {
                bestlen
            };
            let bo2 = if cand > bestlen {
                off
            } else {
                bestoff
            };
            if !(cand > bestlen && cand > thw) {
                lemma_walk_bounds(
                    hash,
                    next,
                    src,
                    ss,
                    cap,
                    now,
                    thw,
                    (check - 1) as nat,
                    off,
                    next[(then % 16384) as int],
                    bl2,
                    bo2,
                );
            }
        }
    }
}

/// Extending a match never reaches past the window.
pub proof fn lemma_extend_bounds(src: Seq<u8>, ss: int, t0: int, cap: int, k: int)
    ensures
        spec_extend(src, ss, t0, cap, k) >= k,
        spec_extend(src, ss, t0, cap, k) <= cap - ss || spec_extend(src, ss, t0, cap, k) <= k,
    decreases cap - ss - k,
{
    if ss + k < cap && k >= 0 && src[ss + k] == src[t0 + k] {
        lemma_extend_bounds(src, ss, t0, cap, k + 1);
    }
}

#[via_fn]
proof fn spec_whack_from_dec(src: Seq<u8>, n: nat, thw: u32, st: EncState) {
    if enc_wf(src, n, st) && st.s < n {
        reveal(spec_enc_step);
        reveal(spec_lit_step);
        reveal(spec_match_step);
        match spec_enc_step(src, n, thw, st) {
            EncOutcome::Abort => {},
            EncOutcome::Next(st2) => {
                if n >= st.s + MIN_MATCH {
                    let h = spec_hashit(st.cont);
                    let cap: int = if n - st.s > MAXLEN {
                        st.s + MAXLEN
                    } else {
                        n as int
                    };
                    lemma_walk_bounds(
                        st.hash,
                        st.next,
                        src,
                        st.s as int,
                        cap,
                        st.now,
                        thw as nat,
                        thw as nat,
                        0,
                        st.hash[h as int],
                        0,
                        0,
                    );
                }
            },
        }
    }
}

/// One accepted step extends the run: the result from the state before
/// the step equals the result from the state after it.
pub proof fn lemma_loop_next(src: Seq<u8>, n: nat, thw: u32, st: EncState, st2: EncState)
    requires
        enc_wf(src, n, st),
        st.s < n,
        spec_enc_step(src, n, thw, st) == EncOutcome::Next(st2),
    ensures
        spec_whack_from(src, n, thw, st) == spec_whack_from(src, n, thw, st2),
{
}

/// A refused step refuses the whole run.
pub proof fn lemma_loop_abort(src: Seq<u8>, n: nat, thw: u32, st: EncState)
    requires
        enc_wf(src, n, st),
        st.s < n,
        spec_enc_step(src, n, thw, st) == EncOutcome::Abort,
    ensures
        spec_whack_from(src, n, thw, st) is None,
{
}

/// One counter increment in the closed modular form: if `cur` is
/// `base + k` reduced mod 2^16, its successor is `base + k + 1` reduced.
pub proof fn lemma_mod_step(base: int, k: int, cur: u16, nxt: u16)
    requires
        k >= 0,
        cur as int == (base + k) % 0x10000,
        nxt == inc16(cur),
    ensures
        nxt as int == (base + k + 1) % 0x10000,
{
    lemma_add_mod_noop(base + k, 1, 0x10000);
}

/// Unfold one encoder step from the facts its parts establish: the
/// dictionary search result, the flush result, and the branch taken.
pub proof fn lemma_enc_step(
    src: Seq<u8>,
    n: nat,
    thw: u32,
    st: EncState,
    wlen: int,
    wtoff: int,
    fres: Option<(Seq<u8>, nat, nat)>,
    out: EncOutcome,
)
    requires
        ({
            let wm = spec_whackmatch(
                st.hash,
                st.next,
                thw,
                src,
                st.s as int,
                n as int,
                spec_hashit(st.cont),
                st.now,
            );
            match wm {
                Option::Some(t) => wlen == t.0 && wtoff == t.1 as int,
                Option::None => wlen == 0 && wtoff == 0,
            }
        }),
        fres == spec_flush(st.out, st.wbits, st.wnbits, n),
        match fres {
            Option::None => out == EncOutcome::Abort,
            Option::Some(f) => {
                let st1 = EncState { wbits: f.1, wnbits: f.2, out: f.0, ..st };
                if wlen < MIN_MATCH {
                    out == spec_lit_step(src, n, st1)
                } else {
                    out == spec_match_step(src, n, st1, wlen, wtoff)
                }
            },
        },
    ensures
        spec_enc_step(src, n, thw, st) == out,
{
    reveal(spec_enc_step);
}

/// Emit one literal and enter its position into the dictionary,
/// mirroring `spec_lit_step`. Returns false on the midpoint refusal.
fn enc_literal(
    src: &[u8],
    esrc: usize,
    wbits: &mut u64,
    wnbits: &mut u32,
    lithist: &mut u32,
    lits: &mut usize,
    half: &mut usize,
    s: &mut usize,
    now: &mut u16,
    cont: &mut usize,
    w: &mut Whack,
    h: u16,
    Ghost(out_v): Ghost<Seq<u8>>,
    Ghost(mt): Ghost<nat>,
    Ghost(ofb): Ghost<nat>,
    Ghost(lnb): Ghost<nat>,
) -> (r: bool)
    requires
        esrc <= src@.len(),
        8 * esrc + 64 <= usize::MAX,
        *old(s) < esrc,
        *old(wnbits) < 8,
        *old(wbits) < pow2(*old(wnbits) as nat),
        *old(lithist) < 256,
        *old(cont) < 0x1000000,
        *old(lits) <= *old(s),
        h == spec_hashit(*old(cont) as nat),
        h < 16384,
        dict_ok(old(w).hash@, old(w).next@, *old(now), *old(s) as int),
    ensures
        r ==> *final(s) == *old(s) + 1,
        !r ==> *final(s) == *old(s),
        *old(wnbits) + 8 <= *final(wnbits) <= *old(wnbits) + 11,
        *old(lithist) == 255 ==> *final(wnbits) >= *old(wnbits) + 9,
        *final(wbits) < pow2(*final(wnbits) as nat),
        *final(lithist) < 256,
        *final(cont) < 0x1000000,
        r ==> *final(lits) <= *final(s),
        r ==> *final(lits) == *old(lits) + 1,
        r ==> *final(now) == inc16(*old(now)),
        final(w).thwmaxcheck == old(w).thwmaxcheck,
        r ==> dict_ok(final(w).hash@, final(w).next@, *final(now), *final(s) as int),
        ({
            let st1 = mk_enc(
                *old(s) as nat,
                *old(now),
                *old(cont) as nat,
                *old(lithist) as nat,
                *old(half) as nat,
                *old(lits) as nat,
                mt,
                ofb,
                lnb,
                *old(wbits) as nat,
                *old(wnbits) as nat,
                out_v,
                old(w).hash@,
                old(w).next@,
            );
            if r {
                spec_lit_step(src@, esrc as nat, st1) == EncOutcome::Next(
                    mk_enc(
                        *final(s) as nat,
                        *final(now),
                        *final(cont) as nat,
                        *final(lithist) as nat,
                        *final(half) as nat,
                        *final(lits) as nat,
                        mt,
                        ofb,
                        lnb,
                        *final(wbits) as nat,
                        *final(wnbits) as nat,
                        out_v,
                        final(w).hash@,
                        final(w).next@,
                    ),
                )
            } else {
                spec_lit_step(src@, esrc as nat, st1) == EncOutcome::Abort
            }
        }),
{
    proof {
        lemma_pow2_values();
        reveal(spec_lit_step);
    }
    let lit: u8 = src[*s];
    let bit: u32 = if lit < 32 || lit > 127 {
        1
    } else {
        0
    };
    *lithist = (*lithist * 2 + bit) % 256;
    if *lithist % 32 >= 2 {
        put_bits(wbits, wnbits, 9, lit as u64);
    } else if *lithist % 2 == 1 {
        let b2: u16 = (lit as u16 + 64) % 256;
        if b2 < 96 {
            put_bits(wbits, wnbits, 10, b2 as u64);
        } else {
            put_bits(wbits, wnbits, 11, b2 as u64);
        }
    } else {
        put_bits(wbits, wnbits, 8, lit as u64);
    }
    *lits = *lits + 1;

    // Bail out when too few positions have compressed by midpoint.
    if *s > *half {
        if 4 * *s < 5 * *lits {
            return false;
        }
        *half = esrc;
    }
    if *s + MIN_MATCH <= esrc {
        let slot: usize = (*now % 16384) as usize;
        let hv: u16 = w.hash[h as usize];
        w.next[slot] = hv;
        w.hash[h as usize] = *now;
        if *s + MIN_MATCH < esrc {
            *cont = (*cont * 256) % 0x1000000 + (src[*s + MIN_MATCH] as usize);
        }
    }
    proof {
        lemma_dict_step(w.hash@, w.next@, *now, *s as int);
    }
    *now = if *now == 0xffff {
        0
    } else {
        *now + 1
    };
    *s = *s + 1;
    true
}

/// Enter one source position into the dictionary, mirroring `spec_insert`.
fn enc_insert_pos(
    src: &[u8],
    esrc: usize,
    s: usize,
    now: &mut u16,
    cont: &mut usize,
    w: &mut Whack,
) -> (u: ())
    requires
        esrc <= src@.len(),
        s < esrc,
        esrc + MIN_MATCH <= usize::MAX,
        *old(cont) < 0x1000000,
        dict_ok(old(w).hash@, old(w).next@, *old(now), s as int),
    ensures
        *final(cont) < 0x1000000,
        final(w).thwmaxcheck == old(w).thwmaxcheck,
        final(w).begin == old(w).begin,
        dict_ok(final(w).hash@, final(w).next@, *final(now), s + 1),
        *final(now) == inc16(*old(now)),
        spec_insert(src@, esrc as nat, old(w).hash@, old(w).next@, *old(now), *old(cont) as nat, s as nat)
            == (final(w).hash@, final(w).next@, *final(now), *final(cont) as nat),
{
    if s + MIN_MATCH <= esrc {
        let h2: u16 = hashit(*cont);
        let slot: usize = (*now % 16384) as usize;
        let hv: u16 = w.hash[h2 as usize];
        w.next[slot] = hv;
        w.hash[h2 as usize] = *now;
        if s + MIN_MATCH < esrc {
            *cont = (*cont * 256) % 0x1000000 + (src[s + MIN_MATCH] as usize);
        }
    }
    proof {
        lemma_dict_step(w.hash@, w.next@, *now, s as int);
    }
    *now = if *now == 0xffff {
        0
    } else {
        *now + 1
    };
}

/// Emit one match (length code, offset code, dictionary entries for the
/// covered span), mirroring `spec_match_step`. Returns false when the
/// big-length escape's flush reaches the output bound.
#[verifier::rlimit(100)]
fn enc_match(
    src: &[u8],
    esrc: usize,
    dst: &mut Vec<u8>,
    wbits: &mut u64,
    wnbits: &mut u32,
    lenbits: &mut usize,
    offbits: &mut usize,
    s: &mut usize,
    now: &mut u16,
    cont: &mut usize,
    w: &mut Whack,
    len: u16,
    toff: u16,
    Ghost(lh): Ghost<nat>,
    Ghost(hf): Ghost<nat>,
    Ghost(ls): Ghost<nat>,
    Ghost(mt): Ghost<nat>,
) -> (r: bool)
    requires
        esrc <= src@.len(),
        8 * esrc + 64 <= usize::MAX,
        *old(s) < esrc,
        MIN_MATCH <= len as usize <= MAXLEN,
        *old(s) + len as usize <= esrc,
        1 <= toff <= WHACK_MAX_OFF,
        toff as usize <= *old(s),
        *old(wnbits) < 8,
        *old(wbits) < pow2(*old(wnbits) as nat),
        *old(cont) < 0x1000000,
        old(dst)@.len() <= esrc,
        *old(offbits) + *old(lenbits) <= 8 * old(dst)@.len() + *old(wnbits),
        *old(lenbits) <= 8 * esrc + 32,
        *old(offbits) <= 8 * esrc + 32,
        dict_ok(old(w).hash@, old(w).next@, *old(now), *old(s) as int),
    ensures
        r ==> *final(s) == *old(s) + len as usize,
        *final(wnbits) <= 32,
        *final(wbits) < pow2(*final(wnbits) as nat),
        *final(cont) < 0x1000000,
        final(dst)@.len() <= esrc,
        old(dst)@.len() <= final(dst)@.len(),
        *final(offbits) + *final(lenbits) <= 8 * final(dst)@.len() + *final(wnbits),
        r ==> 8 * final(dst)@.len() + *final(wnbits) >= 8 * old(dst)@.len() + *old(wnbits) + 11,
        r ==> *final(now) as int == (*old(now) + len) as int % 0x10000,
        final(w).thwmaxcheck == old(w).thwmaxcheck,
        r ==> dict_ok(final(w).hash@, final(w).next@, *final(now), *final(s) as int),
        ({
            let st1 = mk_enc(
                *old(s) as nat,
                *old(now),
                *old(cont) as nat,
                lh,
                hf,
                ls,
                mt,
                *old(offbits) as nat,
                *old(lenbits) as nat,
                *old(wbits) as nat,
                *old(wnbits) as nat,
                old(dst)@,
                old(w).hash@,
                old(w).next@,
            );
            if r {
                spec_match_step(src@, esrc as nat, st1, len as int, toff as int)
                    == EncOutcome::Next(
                    mk_enc(
                        *final(s) as nat,
                        *final(now),
                        *final(cont) as nat,
                        lh,
                        hf,
                        ls,
                        mt + 1,
                        *final(offbits) as nat,
                        *final(lenbits) as nat,
                        *final(wbits) as nat,
                        *final(wnbits) as nat,
                        final(dst)@,
                        final(w).hash@,
                        final(w).next@,
                    ),
                )
            } else {
                spec_match_step(src@, esrc as nat, st1, len as int, toff as int)
                    == EncOutcome::Abort
            }
        }),
{
    proof {
        lemma_pow2_values();
        reveal(spec_match_step);
    }
    let ss2: usize = *s + len as usize;
    let l: u16 = len - MIN_MATCH as u16;
    if l < MAX_FAST_LEN as u16 {
        let hf2 = lentab(l);
        put_bits(wbits, wnbits, hf2.bits as u32, hf2.encode as u64);
        *lenbits = *lenbits + hf2.bits as usize;
    } else {
        let mut code: u64 = BIG_LEN_CODE as u64;
        let mut bits: u32 = BIG_LEN_BITS;
        let mut use0: u64 = BIG_LEN_BASE as u64;
        let mut l2: u64 = (l - MAX_FAST_LEN as u16) as u64;
        let ghost mut j: nat = 0;
        let ghost bc0: (nat, nat) = spec_biglen_code(500, 9, 4, l2 as nat);
        proof {
            lemma_pow2_values();
        }
        while l2 >= use0
            invariant
                use0 as nat == 4 * pow2(j),
                bits as nat == 9 + 2 * j || bits as nat == 10 + 2 * j,
                bits % 2 == 1 ==> code as nat + 3 * (use0 as nat) == pow2(bits as nat),
                bits % 2 == 0 ==> code as nat + 4 * (use0 as nat) == pow2(bits as nat),
                bits <= 25,
                l2 + use0 <= 2043,
                spec_biglen_code(code as nat, bits as nat, use0 as nat, l2 as nat) == bc0,
            decreases l2,
        {
            proof {
                lemma_pow2_values();
                lemma_pow2_pos(j);
                // 2 * use0 <= l2 + use0 <= 2043, so pow2(j) <= 255 and j <= 7
                if j >= 8 {
                    if j > 8 {
                        lemma_pow2_strictly_increases(8, j);
                    }
                    assert(false);
                }
                if bits < 25 {
                    lemma_pow2_strictly_increases(bits as nat, 25);
                }
                lemma_pow2_adds(bits as nat, 1);
                lemma_pow2_adds(j, 1);
            }
            let ghost pc: u64 = code;
            let ghost pb: u32 = bits;
            let ghost pu: u64 = use0;
            let ghost pl: u64 = l2;
            l2 = l2 - use0;
            code = (code + use0) * 2;
            if bits % 2 == 0 {
                use0 = use0 * 2;
                proof {
                    j = j + 1;
                }
            }
            bits = bits + 1;
            proof {
                assert(spec_biglen_code(pc as nat, pb as nat, pu as nat, pl as nat)
                    == spec_biglen_code(code as nat, bits as nat, use0 as nat, l2 as nat));
            }
        }
        proof {
            lemma_pow2_values();
            lemma_pow2_pos(j);
            if bits < 25 {
                lemma_pow2_strictly_increases(bits as nat, 25);
            }
            assert(code + l2 < pow2(bits as nat));
            assert(bc0 == (((code + l2) as nat, bits as nat)));
        }
        put_bits(wbits, wnbits, bits, code + l2);
        *lenbits = *lenbits + bits as usize;
        if !flush_bytes(dst, wbits, wnbits, esrc) {
            return false;
        }
    }

    // Offset: 3- or 4-bit class selector, then the low bits.
    let o: u16 = toff - 1;
    let mut obits: u32 = MIN_OFF_BITS as u32;
    let mut othresh: u64 = 64;
    while (o as u64) >= othresh
        invariant
            6 <= obits <= 14,
            othresh == pow2(obits as nat),
            o < 16384,
            spec_offwidth(o as nat, obits as nat) == spec_offwidth(o as nat, 6),
        decreases 14 - obits,
    {
        proof {
            lemma_pow2_values();
            if obits >= 14 {
                if obits > 14 {
                    lemma_pow2_strictly_increases(14, obits as nat);
                }
                assert(false);
            }
            lemma_pow2_adds(obits as nat, 1);
        }
        obits = obits + 1;
        othresh = othresh * 2;
    }
    proof {
        lemma_pow2_values();
        assert(spec_offwidth(o as nat, obits as nat) == obits as nat);
    }
    let ghost wb1: u64 = *wbits;
    let ghost wn1: u32 = *wnbits;
    if obits < (MAX_OFF_BITS - 1) as u32 {
        put_bits(wbits, wnbits, 3, (obits - 6) as u64);
        let ebits: u32 = if obits != MIN_OFF_BITS as u32 {
            obits - 1
        } else {
            obits
        };
        let m: u64 = pow2u64(ebits);
        put_bits(wbits, wnbits, ebits, (o as u64) % m);
        *offbits = *offbits + (ebits + 3) as usize;
        proof {
            lemma_pow2_adds(3, ebits as nat);
            assert((wb1 * pow2(3) + (obits - 6)) * pow2(ebits as nat) == wb1 * pow2(
                (3 + ebits) as nat,
            ) + (obits - 6) * pow2(ebits as nat)) by (nonlinear_arith)
                requires
                    pow2((3 + ebits) as nat) == pow2(3) * pow2(ebits as nat),
            ;
        }
    } else {
        put_bits(wbits, wnbits, 4, 0xe + (obits - 13) as u64);
        let ebits: u32 = obits - 1;
        let m: u64 = pow2u64(ebits);
        put_bits(wbits, wnbits, ebits, (o as u64) % m);
        *offbits = *offbits + (ebits + 4) as usize;
        proof {
            lemma_pow2_adds(4, ebits as nat);
            assert((wb1 * pow2(4) + (14 + obits - 13)) * pow2(ebits as nat) == wb1 * pow2(
                (4 + ebits) as nat,
            ) + (14 + obits - 13) * pow2(ebits as nat)) by (nonlinear_arith)
                requires
                    pow2((4 + ebits) as nat) == pow2(4) * pow2(ebits as nat),
            ;
        }
    }

    // Enter every position the match consumed into the dictionary.
    let ghost h0: Seq<u16> = w.hash@;
    let ghost n0: Seq<u16> = w.next@;
    let ghost now0: u16 = *now;
    let ghost cont0: nat = *cont as nat;
    let ghost s0: nat = *s as nat;
    while *s < ss2
        invariant
            ss2 <= esrc,
            esrc <= src@.len(),
            esrc + MIN_MATCH <= usize::MAX,
            s0 <= *s <= ss2,
            dict_ok(w.hash@, w.next@, *now, *s as int),
            w.thwmaxcheck == old(w).thwmaxcheck,
            *cont < 0x1000000,
            *now as int == (now0 + *s - s0) as int % 0x10000,
            spec_span(src@, esrc as nat, w.hash@, w.next@, *now, *cont as nat, *s as nat, ss2 as nat)
                == spec_span(src@, esrc as nat, h0, n0, now0, cont0, s0, ss2 as nat),
        decreases ss2 - *s,
    {
        let ghost ph: Seq<u16> = w.hash@;
        let ghost pn: Seq<u16> = w.next@;
        let ghost pnow: u16 = *now;
        let ghost pcont: nat = *cont as nat;
        let ghost ps: nat = *s as nat;
        enc_insert_pos(src, esrc, *s, now, cont, w);
        *s = *s + 1;
        proof {
            lemma_mod_step(now0 as int, (ps - s0) as int, pnow, *now);
            assert(spec_span(src@, esrc as nat, ph, pn, pnow, pcont, ps, ss2 as nat) == spec_span(
                src@,
                esrc as nat,
                w.hash@,
                w.next@,
                *now,
                *cont as nat,
                *s as nat,
                ss2 as nat,
            ));
        }
    }
    proof {
        assert(spec_span(src@, esrc as nat, w.hash@, w.next@, *now, *cont as nat, *s as nat, ss2 as nat)
            == (w.hash@, w.next@, *now, *cont as nat));
    }
    true
}

/// Compress `n` bytes of `src` into a block strictly smaller than `n`
/// bytes: the result is exactly what `spec_whack` assigns to the input
/// and the caller's dictionary.
///
/// `None` is returned when the input is shorter than `MIN_MATCH` (which
/// leaves the dictionary and statistics untouched), when the output would
/// reach the input's size, or when too little progress has been made by
/// the input's midpoint. On success the position counter has advanced
/// once per source byte, the final dictionary is the specification run's,
/// and the statistics grow by exactly that run's literal and match counts
/// and code widths; on refusal `statoutbytes` is untouched and no counter
/// moves by more than the bits and bytes actually processed.
#[verifier::rlimit(100)]
pub fn whack(w: &mut Whack, src: &[u8], n: usize, stats: &mut Stats) -> (r: Option<Vec<u8>>)
    requires
        n <= src@.len(),
        dict_ok(old(w).hash@, old(w).next@, old(w).begin, 0),
        8 * n + 64 <= usize::MAX,
        old(stats).statbytes + n <= usize::MAX,
        old(stats).statoutbytes + n <= usize::MAX,
        old(stats).statlits + n <= usize::MAX,
        old(stats).statmatches + n <= usize::MAX,
        old(stats).statlitbits + 8 * n + 64 <= usize::MAX,
        old(stats).statoffbits + 8 * n + 64 <= usize::MAX,
        old(stats).statlenbits + 8 * n + 64 <= usize::MAX,
    ensures
        final(w).thwmaxcheck == old(w).thwmaxcheck,
        // Refusal below MIN_MATCH leaves the dictionary and counters alone.
        n < MIN_MATCH ==> {
            &&& r is None
            &&& final(w).begin == old(w).begin
            &&& final(w).hash@ == old(w).hash@
            &&& final(w).next@ == old(w).next@
            &&& *final(stats) == *old(stats)
        },
        // The result is exactly what the specification-level encoder
        // assigns to this input and dictionary.
        (r matches Some(y) ==> (spec_whack(
            old(w).hash@,
            old(w).next@,
            old(w).begin,
            old(w).thwmaxcheck,
            src@,
            n as nat,
        ) matches Some(t) && {
            &&& y@ == t.0
            &&& MIN_MATCH <= y@.len() < n
            // One counter step per consumed source position.
            &&& final(w).begin == t.1.now
            &&& final(w).begin as int == (old(w).begin + n) as int % 0x10000
            &&& final(w).hash@ == t.1.hash
            &&& final(w).next@ == t.1.next
            &&& dict_ok(final(w).hash@, final(w).next@, final(w).begin, n as int)
            // Statistics advance by exactly the spec run's token counts
            // and code widths; literal bits by the corrected form.
            &&& final(stats).statbytes == old(stats).statbytes + n
            &&& final(stats).statoutbytes == old(stats).statoutbytes + y@.len()
            &&& final(stats).statlits == old(stats).statlits + t.1.lits
            &&& final(stats).statmatches == old(stats).statmatches + t.1.matches
            &&& final(stats).statoffbits == old(stats).statoffbits + t.1.offbits
            &&& final(stats).statlenbits == old(stats).statlenbits + t.1.lenbits
            &&& final(stats).statlitbits == old(stats).statlitbits + (8 * t.1.out.len()
                + t.1.wnbits - t.1.offbits - t.1.lenbits)
            // Token accounting: every match covers at least MIN_MATCH
            // positions, and no bits are counted beyond those emitted.
            &&& t.1.lits + MIN_MATCH * t.1.matches <= n
            &&& t.1.offbits + t.1.lenbits <= 8 * t.1.out.len() + t.1.wnbits
            &&& 8 * t.1.out.len() + t.1.wnbits <= 8 * y@.len()
        })),
        (r is None ==> spec_whack(
            old(w).hash@,
            old(w).next@,
            old(w).begin,
            old(w).thwmaxcheck,
            src@,
            n as nat,
        ) is None),
        r is None ==> {
            &&& final(stats).statoutbytes == old(stats).statoutbytes
            &&& old(stats).statbytes <= final(stats).statbytes <= old(stats).statbytes + n
            &&& old(stats).statlits <= final(stats).statlits <= old(stats).statlits + n
            &&& old(stats).statmatches <= final(stats).statmatches <= old(stats).statmatches + n
            &&& old(stats).statlitbits <= final(stats).statlitbits <= old(stats).statlitbits + 8 * n
                + 64
            &&& old(stats).statoffbits <= final(stats).statoffbits <= old(stats).statoffbits + 8 * n
                + 64
            &&& old(stats).statlenbits <= final(stats).statlenbits <= old(stats).statlenbits + 8 * n
                + 64
        },
{
    if n < MIN_MATCH {
        return Option::None;
    }
    let mut dst: Vec<u8> = Vec::with_capacity(n);
    let wdmax: usize = n;
    let mut now: u16 = w.begin;
    let mut s: usize = 0;
    let mut cont: usize = (src[0] as usize) * 65536 + (src[1] as usize) * 256 + (src[2] as usize);
    let esrc: usize = n;
    let mut half: usize = n / 2;
    let mut wnbits: u32 = 0;
    let mut wbits: u64 = 0;
    let mut lits: usize = 0;
    let mut matches: usize = 0;
    let mut offbits: usize = 0;
    let mut lenbits: usize = 0;
    let mut lithist: u32 = 255;
    let ghost thw0: u32 = w.thwmaxcheck;
    let ghost target: Option<(Seq<u8>, EncState)> = spec_whack(
        old(w).hash@,
        old(w).next@,
        old(w).begin,
        old(w).thwmaxcheck,
        src@,
        n as nat,
    );
    proof {
        lemma_pow2_values();
        assert(dst@ =~= Seq::<u8>::empty());
    }
    while s < esrc
        invariant
            esrc == n <= src@.len(),
            8 * n + 64 <= usize::MAX,
            MIN_MATCH <= n,
            s <= esrc,
            wnbits <= 32,
            wbits < pow2(wnbits as nat),
            dst@.len() <= wdmax,
            wdmax == n,
            s == 0 ==> lithist == 255,
            s >= 1 ==> 8 * dst@.len() + wnbits >= 9,
            s >= 2 ==> 8 * dst@.len() + wnbits >= 17,
            dict_ok(w.hash@, w.next@, now, s as int),
            w.thwmaxcheck == old(w).thwmaxcheck == thw0,
            *stats == *old(stats),
            lits + MIN_MATCH * matches <= s,
            now as int == (old(w).begin + s) as int % 0x10000,
            offbits + lenbits <= 8 * dst@.len() + wnbits,
            lithist < 256,
            cont < 0x1000000,
            spec_whack_from(
                src@,
                n as nat,
                thw0,
                mk_enc(
                    s as nat,
                    now,
                    cont as nat,
                    lithist as nat,
                    half as nat,
                    lits as nat,
                    matches as nat,
                    offbits as nat,
                    lenbits as nat,
                    wbits as nat,
                    wnbits as nat,
                    dst@,
                    w.hash@,
                    w.next@,
                ),
            ) == target,
            target == spec_whack(
                old(w).hash@,
                old(w).next@,
                old(w).begin,
                old(w).thwmaxcheck,
                src@,
                n as nat,
            ),
        decreases esrc - s,
    {
        let ghost st_pre: EncState = mk_enc(
            s as nat,
            now,
            cont as nat,
            lithist as nat,
            half as nat,
            lits as nat,
            matches as nat,
            offbits as nat,
            lenbits as nat,
            wbits as nat,
            wnbits as nat,
            dst@,
            w.hash@,
            w.next@,
        );
        proof {
            lemma_pow2_values();
            assert(enc_wf(src@, n as nat, st_pre));
        }
        let h: u16 = hashit(cont);

        let wmr: Option<DictLookup> = whackmatch(w, src, s, esrc, h, now);
        let mut len: u16 = 0;
        let mut toff: u16 = 0;
        match wmr {
            Option::Some(dl) => {
                len = dl.len;
                toff = dl.off;
            },
            Option::None => {},
        }

        if !flush_bytes(&mut dst, &mut wbits, &mut wnbits, wdmax) {
            proof {
                lemma_enc_step(
                    src@,
                    n as nat,
                    thw0,
                    st_pre,
                    len as int,
                    toff as int,
                    spec_flush(st_pre.out, st_pre.wbits, st_pre.wnbits, n as nat),
                    EncOutcome::Abort,
                );
                lemma_loop_abort(src@, n as nat, thw0, st_pre);
            }
            w.begin = now;
            return Option::None;
        }

        if (len as usize) < MIN_MATCH {
            let ok = enc_literal(
                src,
                esrc,
                &mut wbits,
                &mut wnbits,
                &mut lithist,
                &mut lits,
                &mut half,
                &mut s,
                &mut now,
                &mut cont,
                w,
                h,
                Ghost(dst@),
                Ghost(matches as nat),
                Ghost(offbits as nat),
                Ghost(lenbits as nat),
            );
            proof {
                let out: EncOutcome = if ok {
                    EncOutcome::Next(
                        mk_enc(
                            s as nat,
                            now,
                            cont as nat,
                            lithist as nat,
                            half as nat,
                            lits as nat,
                            matches as nat,
                            offbits as nat,
                            lenbits as nat,
                            wbits as nat,
                            wnbits as nat,
                            dst@,
                            w.hash@,
                            w.next@,
                        ),
                    )
                } else {
                    EncOutcome::Abort
                };
                lemma_enc_step(
                    src@,
                    n as nat,
                    thw0,
                    st_pre,
                    len as int,
                    toff as int,
                    spec_flush(st_pre.out, st_pre.wbits, st_pre.wnbits, n as nat),
                    out,
                );
                if ok {
                    lemma_loop_next(src@, n as nat, thw0, st_pre, out->Next_0);
                    lemma_mod_step(old(w).begin as int, st_pre.s as int, st_pre.now, now);
                } else {
                    lemma_loop_abort(src@, n as nat, thw0, st_pre);
                }
            }
            if !ok {
                w.begin = now;
                return Option::None;
            }
        } else {
            let ok = enc_match(
                src,
                esrc,
                &mut dst,
                &mut wbits,
                &mut wnbits,
                &mut lenbits,
                &mut offbits,
                &mut s,
                &mut now,
                &mut cont,
                w,
                len,
                toff,
                Ghost(lithist as nat),
                Ghost(half as nat),
                Ghost(lits as nat),
                Ghost(matches as nat),
            );
            if ok {
                matches = matches + 1;
            }
            proof {
                let out: EncOutcome = if ok {
                    EncOutcome::Next(
                        mk_enc(
                            s as nat,
                            now,
                            cont as nat,
                            lithist as nat,
                            half as nat,
                            lits as nat,
                            matches as nat,
                            offbits as nat,
                            lenbits as nat,
                            wbits as nat,
                            wnbits as nat,
                            dst@,
                            w.hash@,
                            w.next@,
                        ),
                    )
                } else {
                    EncOutcome::Abort
                };
                lemma_enc_step(
                    src@,
                    n as nat,
                    thw0,
                    st_pre,
                    len as int,
                    toff as int,
                    spec_flush(st_pre.out, st_pre.wbits, st_pre.wnbits, n as nat),
                    out,
                );
                if ok {
                    lemma_loop_next(src@, n as nat, thw0, st_pre, out->Next_0);
                    lemma_add_mod_noop(old(w).begin + st_pre.s as int, len as int, 0x10000);
                } else {
                    lemma_loop_abort(src@, n as nat, thw0, st_pre);
                }
            }
            if !ok {
                w.begin = now;
                return Option::None;
            }
        }
    }
    let ghost st_end: EncState = mk_enc(
        s as nat,
        now,
        cont as nat,
        lithist as nat,
        half as nat,
        lits as nat,
        matches as nat,
        offbits as nat,
        lenbits as nat,
        wbits as nat,
        wnbits as nat,
        dst@,
        w.hash@,
        w.next@,
    );
    w.begin = now;
    stats.statbytes = stats.statbytes + esrc;
    stats.statlits = stats.statlits + lits;
    stats.statmatches = stats.statmatches + matches;
    let total: usize = 8 * dst.len() + wnbits as usize;
    stats.statlitbits = stats.statlitbits + (total - offbits - lenbits);
    stats.statoffbits = stats.statoffbits + offbits;
    stats.statlenbits = stats.statlenbits + lenbits;

    let ghost pad_g: nat = if st_end.wnbits % 8 != 0 {
        (8 - st_end.wnbits % 8) as nat
    } else {
        0
    };
    if wnbits % 8 != 0 {
        proof {
            lemma_pow2_values();
        }
        let pad: u32 = 8 - wnbits % 8;
        let ghost wb_pre: u64 = wbits;
        proof {
            assert(pad as nat == pad_g);
            assert(wb_pre as nat == st_end.wbits);
            lemma_pow2_pos(pad_g);
        }
        put_bits(&mut wbits, &mut wnbits, pad, 0);
        proof {
            assert(wbits == wb_pre * pow2(pad as nat) + 0);
            assert(wbits as nat == st_end.wbits * pow2(pad_g)) by (nonlinear_arith)
                requires
                    wbits == wb_pre * pow2(pad as nat) + 0,
                    wb_pre as nat == st_end.wbits,
                    pad as nat == pad_g,
            ;
        }
    } else {
        proof {
            lemma_pow2_values();
            assert(pow2(pad_g) == 1);
            assert(st_end.wbits == wbits as nat);
            assert(wbits as nat == st_end.wbits * pow2(pad_g)) by (nonlinear_arith)
                requires
                    pow2(pad_g) == 1,
                    st_end.wbits == wbits as nat,
            ;
        }
    }
    if !flush_bytes(&mut dst, &mut wbits, &mut wnbits, wdmax) {
        proof {
            assert(spec_enc_finish(st_end, n as nat) is None);
            assert(spec_whack_from(src@, n as nat, thw0, st_end) is None);
        }
        return Option::None;
    }
    // A compressed block is strictly shorter than its input; refuse one
    // whose padding filled the output to exactly the input's size.
    if dst.len() >= wdmax {
        proof {
            assert(spec_enc_finish(st_end, n as nat) is None);
            assert(spec_whack_from(src@, n as nat, thw0, st_end) is None);
        }
        return Option::None;
    }
    proof {
        assert(spec_enc_finish(st_end, n as nat) == Option::Some((dst@, st_end)));
        assert(spec_whack_from(src@, n as nat, thw0, st_end) == Option::Some((dst@, st_end)));
    }
    stats.statoutbytes = stats.statoutbytes + dst.len();
    Option::Some(dst)
}

/// Compress a whole block at the default compression level: a pure
/// function of the input bytes alone, and strictly smaller than the
/// input whenever it succeeds.
pub fn whackblock(src: &[u8], ssize: usize) -> (r: Option<Vec<u8>>)
    requires
        ssize <= src@.len(),
        8 * ssize + 64 <= usize::MAX,
    ensures
        ssize < MIN_MATCH ==> r is None,
        (r matches Some(y) ==> MIN_MATCH <= y@.len() < ssize),
        (r matches Some(y) ==> spec_whackblock(src@, ssize as nat) == Option::Some(y@)),
        (r is None ==> spec_whackblock(src@, ssize as nat) is None),
{
    let mut stats = Stats {
        statbytes: 0,
        statoutbytes: 0,
        statlits: 0,
        statmatches: 0,
        statlitbits: 0,
        statoffbits: 0,
        statlenbits: 0,
    };
    let mut w = whackinit(6);
    proof {
        assert(w.hash@ =~= Seq::new(16384, |i: int| 0u16));
        assert(w.next@ =~= Seq::new(16384, |i: int| 0u16));
    }
    whack(&mut w, src, ssize, &mut stats)
}

} // verus!
