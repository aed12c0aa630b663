use whack::constants::lentab;
use whack::unwhack::{unwhack, unwhackinit};
use whack::whack::{hashit, whackblock, whackinit, whackmatch, Stats, Whack};

/// Deterministic pseudorandom bytes (64-bit linear congruential generator).
fn lcg_bytes(seed: u64, n: usize) -> Vec<u8> {
    let mut state: u64 = seed;
    let mut out: Vec<u8> = Vec::with_capacity(n);
    for _ in 0..n {
        state = state
            .wrapping_mul(6364136223846793005)
            .wrapping_add(1442695040888963407);
        out.push((state >> 33) as u8);
    }
    out
}

/// A compressible corpus: repeated phrases with small variations.
fn corpus(n: usize) -> Vec<u8> {
    let mut out: Vec<u8> = Vec::with_capacity(n);
    let mut i: u64 = 0;
    while out.len() < n {
        let phrase = format!("block {} of the archival storage system; ", i % 97);
        out.extend_from_slice(phrase.as_bytes());
        i += 1;
    }
    out.truncate(n);
    out
}

#[test]
/// test if some dictionary compression happens
pub fn whack_minimal() -> Result<(), String> {
    let src = b"foofoofoo".to_vec();
    let rv = whackblock(&src, src.len());
    if rv.is_some() {
        Ok(())
    } else {
        Err(String::from("did not compress"))
    }
}

#[test]
/// test if compressed data uncompresses to data
pub fn whack_test() -> Result<(), String> {
    let src = corpus(8192);
    let rv = whackblock(&src, src.len());
    match rv {
        Some(compressed) => {
            assert!(compressed.len() < src.len());
            let back = unwhack(&compressed, src.len())?;
            if back != src {
                return Err(String::from("compressed result doesn't match ground truth"));
            }
            Ok(())
        }
        None => Err(String::from("did not compress")),
    }
}

#[test]
// test if compression of random data bails out if no compression achieved
pub fn whack_random() -> Result<(), String> {
    let src = lcg_bytes(0x5eed, 10 * 1024);
    let rv = whackblock(&src, src.len());
    if let Some(out) = rv {
        if src.len() > out.len() {
            return Err(String::from("result was expanded"));
        }
        Err(String::from("test data not uncompressible enough"))
    } else {
        Ok(())
    }
}

#[test]
/// test if uncompression of empty data works
pub fn unwhack_null() -> Result<(), String> {
    let src = Vec::new();
    let rv = unwhack(&src, src.len());
    if rv.is_ok() {
        Ok(())
    } else {
        Err(rv.err().unwrap())
    }
}

#[test]
/// test if uncompressed data compresses to data
pub fn unwhack_test() -> Result<(), String> {
    let src = corpus(8192);
    let compressed = whackblock(&src, src.len()).ok_or("did not compress")?;
    let rv = unwhack(&compressed, src.len());
    match rv {
        Ok(result) => {
            if result != src {
                return Err(String::from(
                    "decompressed result doesn't match ground truth",
                ));
            }
            Ok(())
        }
        Err(e) => Err(e),
    }
}

#[test]
fn golden_foofoofoo() {
    // Three 9-bit literals, then a length-6 match at offset 3, zero-padded.
    let src = b"foofoofoo".to_vec();
    let out = whackblock(&src, src.len()).expect("must compress");
    assert_eq!(out, vec![0x33, 0x1b, 0xcd, 0xfd, 0x01, 0x00]);
    assert!(out.len() < 9);
    let back = unwhack(&out, 9).expect("must decode");
    assert_eq!(back, src);
}

#[test]
fn refuses_below_min_match() {
    assert!(whackblock(&[], 0).is_none());
    assert!(whackblock(b"a", 1).is_none());
    assert!(whackblock(b"ab", 2).is_none());
    assert!(whackblock(b"foo", 3).is_none());
}

#[test]
fn boundary_exact_size_refused() {
    // Three 9-bit literals, a length-3 match (2+9 bits), a 9-bit and a
    // 10-bit literal pad to exactly eight output bytes: the block is not
    // strictly smaller than the input, so it is refused.
    let src = vec![0x61, 0x62, 0x63, 0x61, 0x62, 0x63, 0x62, 0xff];
    assert!(whackblock(&src, 8).is_none());
}

#[test]
fn zero_run_compresses() {
    let src = vec![0u8; 65536];
    let out = whackblock(&src, src.len()).expect("must compress");
    assert!(out.len() < 300);
    let back = unwhack(&out, src.len()).expect("must decode");
    assert_eq!(back, src);
}

#[test]
fn ff_run_compresses() {
    let src = vec![0xffu8; 65536];
    let out = whackblock(&src, src.len()).expect("must compress");
    assert!(out.len() < 300);
    let back = unwhack(&out, src.len()).expect("must decode");
    assert_eq!(back, src);
}

#[test]
fn countup_roundtrip() {
    let mut src: Vec<u8> = Vec::new();
    for _ in 0..2 {
        for b in 0..=255u8 {
            src.push(b);
        }
    }
    assert_eq!(src.len(), 512);
    let out = whackblock(&src, src.len()).expect("must compress");
    assert!(out.len() < 512);
    let back = unwhack(&out, 512).expect("must decode");
    assert_eq!(back, src);
}

#[test]
fn truncated_stream_errors() {
    let mut src: Vec<u8> = Vec::new();
    for _ in 0..2 {
        for b in 0..=255u8 {
            src.push(b);
        }
    }
    let out = whackblock(&src, src.len()).expect("must compress");
    let truncated = out[..out.len() - 1].to_vec();
    assert!(unwhack(&truncated, 512).is_err());
}

#[test]
fn forged_leading_offset_errors() {
    // A length-3 match token (code 10), offset class 0, extra bits 0:
    // decodes to offset 1 before any output byte exists.
    let forged = vec![0x80, 0x00];
    let err = unwhack(&forged, 16).unwrap_err();
    assert!(err.starts_with("offset out of range: off=1 d=0 len=3"));
}

#[test]
fn overrun_errors() {
    // One 9-bit literal leaves 23 real bits' worth of accounting against
    // 24 synthesized padding bits: the final bookkeeping must fail.
    let err = unwhack(&vec![0x00], 1).unwrap_err();
    assert_eq!(err, "compressed data overrun");
}

#[test]
fn too_much_output_errors() {
    let src = corpus(4096);
    let out = whackblock(&src, src.len()).expect("must compress");
    let err = unwhack(&out, 4).unwrap_err();
    assert_eq!(err, "too much output");
}

#[test]
fn match_past_ndst_errors() {
    // The countup block begins with 256 literals and then one long match;
    // an ndst inside that match must be refused as a length error.
    let mut src: Vec<u8> = Vec::new();
    for _ in 0..2 {
        for b in 0..=255u8 {
            src.push(b);
        }
    }
    let out = whackblock(&src, src.len()).expect("must compress");
    let err = unwhack(&out, 300).unwrap_err();
    assert_eq!(err, "len out of range");
}

#[test]
fn empty_decode_any_ndst() {
    let empty: Vec<u8> = Vec::new();
    assert_eq!(unwhack(&empty, 0).unwrap(), Vec::<u8>::new());
    assert_eq!(unwhack(&empty, 100).unwrap(), Vec::<u8>::new());
}

#[test]
fn encode_decode_deterministic() {
    let src = corpus(2048);
    let a = whackblock(&src, src.len()).expect("must compress");
    let b = whackblock(&src, src.len()).expect("must compress");
    assert_eq!(a, b);
    let da = unwhack(&a, src.len()).expect("must decode");
    let db = unwhack(&a, src.len()).expect("must decode");
    assert_eq!(da, db);
}

#[test]
fn non_expansion() {
    for n in [9usize, 100, 512, 4096] {
        let src = corpus(n);
        if let Some(out) = whackblock(&src, src.len()) {
            assert!(out.len() < src.len());
        }
    }
}

#[test]
fn hashit_values() {
    assert_eq!(hashit(0), 0);
    assert_eq!(hashit(1), 6864);
    // Only the low 24 bits contribute.
    assert_eq!(hashit(0x1000001), hashit(1));
    assert!(hashit(0xdeadbeef) < 16384);
}

#[test]
fn whackinit_levels() {
    // thwmaxcheck = clamp(2^level - 2^(level-2), 2, 1024)
    let w2 = whackinit(2);
    assert_eq!(w2.thwmaxcheck, 3);
    assert_eq!(w2.begin, 32768);
    let w6 = whackinit(6);
    assert_eq!(w6.thwmaxcheck, 48);
    let w14 = whackinit(14);
    assert_eq!(w14.thwmaxcheck, 1024);
    assert!(w6.hash.iter().all(|&v| v == 0));
    assert!(w6.next.iter().all(|&v| v == 0));
}

#[test]
fn whackmatch_fresh_dictionary_finds_nothing() {
    let w: Whack = whackinit(6);
    let src = b"abcabcabc";
    // Too little input left for a match.
    assert!(whackmatch(&w, src, 7, src.len(), 0, w.begin).is_none());
    // A fresh dictionary holds no usable entry.
    let dl = whackmatch(&w, src, 0, src.len(), hashit(0x616263), w.begin).unwrap();
    assert_eq!(dl.len, 0);
    assert_eq!(dl.off, 0);
}

#[test]
fn lentab_first_rows() {
    let h0 = lentab(0);
    assert_eq!((h0.bits, h0.encode), (2, 0b10));
    let h8 = lentab(8);
    assert_eq!((h8.bits, h8.encode), (8, 0b11111001));
}

#[test]
fn whack_stats_accumulate() {
    let mut stats = Stats {
        statbytes: 0,
        statoutbytes: 0,
        statlits: 0,
        statmatches: 0,
        statlitbits: 0,
        statoffbits: 0,
        statlenbits: 0,
    };
    let mut w = whackinit(6);
    let src = b"foofoofoo".to_vec();
    let out = whack::whack::whack(&mut w, &src, src.len(), &mut stats).expect("must compress");
    assert_eq!(stats.statbytes, 9);
    assert_eq!(stats.statoutbytes, out.len());
    assert_eq!(stats.statlits, 3);
    assert_eq!(stats.statmatches, 1);
    // 3 nine-bit literals; a 5-bit length code; a 3+6-bit offset code.
    assert_eq!(stats.statlitbits, 27);
    assert_eq!(stats.statlenbits, 5);
    assert_eq!(stats.statoffbits, 9);
}

#[test]
fn unwhackinit_is_stateless() {
    unwhackinit();
    let src = b"foofoofoo".to_vec();
    let out = whackblock(&src, src.len()).expect("must compress");
    assert_eq!(unwhack(&out, 9).unwrap(), src);
}
