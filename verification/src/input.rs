//! The compressed front-end: gzip bytes in, parser calls out.
//!
//! Decompressed bytes are read as 64-bit words, big-endian, bit 63 first,
//! so the bit stream is exactly the bytes' bits, most significant first.
//! A word that is all zeros or all ones becomes one batched parser call;
//! any other word is fed bit by bit, as is a trailing group of fewer than
//! eight bytes.

use vstd::prelude::*;
use vstd::arithmetic::div_mod::lemma_fundamental_div_mod_converse;
use crate::error::Error;
use crate::range::{parse_ranges, per_bit_calls, RangeParser, RangeTarget};

verus! {

/// The largest decompressed input the pipeline accepts, in bytes: its
/// bit indices stay below `0x8000_0000`, so they fit comfortably in the
/// parser's 32-bit counter on any host.
pub const MAX_INPUT_BYTES: usize = 0x0FFF_FFF8;

/// What decoding a gzip stream yields: a function of the bytes alone,
/// `None` for a malformed stream.
pub uninterp spec fn gunzip_of(zipped: Seq<u8>) -> Option<Seq<u8>>;

/// Relies on flate2::read::GzDecoder: gzip decoding is deterministic in
/// the input bytes, and fails exactly on a malformed stream.
#[verifier::external_body]
fn gunzip(zipped: &Vec<u8>) -> (r: Result<Vec<u8>, Error>)
    ensures
        match r {
            Ok(d) => gunzip_of(zipped@) == Some(d@),
            Err(e) => gunzip_of(zipped@) is None && e == Error::Io,
        },
{
    let mut out = Vec::new();
    let mut decoder = flate2::read::GzDecoder::new(zipped.as_slice());
    match std::io::Read::read_to_end(&mut decoder, &mut out) {
        Ok(_) => Ok(out),
        Err(_) => Err(Error::Io),
    }
}

/// Bit `k` of a byte, counting 0 for the most significant.
pub open spec fn bit_of(b: u8, k: u8) -> bool {
    (b >> ((7 - k) as u8)) & 1 == 1
}

/// The bits of a byte string, most significant bit of each byte first.
pub open spec fn bits_of_bytes(d: Seq<u8>) -> Seq<bool> {
    Seq::new(d.len() * 8, |i: int| bit_of(d[i / 8], (i % 8) as u8))
}

/// Every byte of `w` is `v`.
pub open spec fn uniform(w: Seq<u8>, v: u8) -> bool {
    forall|i: int| 0 <= i < w.len() ==> w[i] == v
}

/// The parser calls for one 8-byte word: a single batched call when the
/// word is all zeros or all ones, else one call per bit.
pub open spec fn word_calls(w: Seq<u8>) -> Seq<(bool, nat)> {
    if uniform(w, 0) {
        seq![(false, 64nat)]
    } else if uniform(w, 0xff) {
        seq![(true, 64nat)]
    } else {
        per_bit_calls(bits_of_bytes(w))
    }
}

/// The parser calls for a whole byte string: whole words first, then the
/// trailing bytes bit by bit.
pub open spec fn calls_of_bytes(d: Seq<u8>) -> Seq<(bool, nat)>
    decreases d.len(),
{
    if d.len() >= 8 {
        word_calls(d.take(8)) + calls_of_bytes(d.skip(8))
    } else {
        per_bit_calls(bits_of_bytes(d))
    }
}

/// Every call carved out of a byte string covers at least one bit.
pub proof fn lemma_calls_counts(d: Seq<u8>)
    ensures
        forall|i: int| 0 <= i < calls_of_bytes(d).len() ==> (#[trigger] calls_of_bytes(d)[i]).1
            >= 1,
    decreases d.len(),
{
    if d.len() >= 8 {
        lemma_calls_counts(d.skip(8));
        let w = word_calls(d.take(8));
        let rest = calls_of_bytes(d.skip(8));
        assert forall|i: int| 0 <= i < calls_of_bytes(d).len() implies (
        #[trigger] calls_of_bytes(d)[i]).1 >= 1 by {
            if i < w.len() {
                assert(calls_of_bytes(d)[i] == w[i]);
            } else {
                assert(calls_of_bytes(d)[i] == rest[i - w.len()]);
            }
        }
    }
}

/// And together they cover exactly the string's bits.
pub proof fn lemma_calls_total_of_bytes(d: Seq<u8>)
    ensures
        crate::range::calls_total(calls_of_bytes(d)) == 8 * d.len(),
    decreases d.len(),
{
    if d.len() >= 8 {
        lemma_calls_total_of_bytes(d.skip(8));
        let w = word_calls(d.take(8));
        crate::range::lemma_calls_total_concat(w, calls_of_bytes(d.skip(8)));
        if uniform(d.take(8), 0) || uniform(d.take(8), 0xff) {
            if uniform(d.take(8), 0) {
                assert(w == seq![(false, 64nat)]);
            } else {
                assert(w == seq![(true, 64nat)]);
            }
            assert(w.last().1 == 64);
            assert(w.drop_last() =~= Seq::<(bool, nat)>::empty());
            assert(crate::range::calls_total(w.drop_last()) == 0);
            assert(crate::range::calls_total(w) == 64);
        } else {
            crate::range::lemma_per_bit_total(bits_of_bytes(d.take(8)));
            assert(crate::range::calls_total(w) == 64);
        }
    } else {
        crate::range::lemma_per_bit_total(bits_of_bytes(d));
    }
}

/// Appending one whole word to an aligned prefix appends its calls.
pub proof fn lemma_calls_extend_word(d: Seq<u8>, pos: int)
    requires
        pos % 8 == 0,
        0 <= pos,
        pos + 8 <= d.len(),
    ensures
        calls_of_bytes(d.take(pos + 8)) == calls_of_bytes(d.take(pos)) + word_calls(
            d.subrange(pos, pos + 8),
        ),
    decreases pos,
{
    if pos == 0 {
        assert(d.take(0) =~= Seq::<u8>::empty());
        assert(calls_of_bytes(d.take(0)) =~= Seq::<(bool, nat)>::empty());
        let t = d.take(8);
        assert(t.len() == 8);
        assert(t.take(8) =~= d.subrange(0, 8));
        assert(t.skip(8) =~= Seq::<u8>::empty());
        assert(calls_of_bytes(t.skip(8)) =~= Seq::<(bool, nat)>::empty());
        assert(calls_of_bytes(t) =~= word_calls(d.subrange(0, 8)));
        assert(calls_of_bytes(d.take(0)) + word_calls(d.subrange(0, 8)) =~= word_calls(
            d.subrange(0, 8),
        ));
    } else {
        let ds = d.skip(8);
        lemma_calls_extend_word(ds, pos - 8);
        let a = d.take(pos + 8);
        let b = d.take(pos);
        assert(a.len() >= 8 && b.len() >= 8);
        assert(a.take(8) =~= d.take(8));
        assert(b.take(8) =~= d.take(8));
        assert(a.skip(8) =~= ds.take(pos - 8 + 8));
        assert(b.skip(8) =~= ds.take(pos - 8));
        assert(ds.subrange(pos - 8, pos) =~= d.subrange(pos, pos + 8));
        assert(calls_of_bytes(a) == word_calls(d.take(8)) + (calls_of_bytes(ds.take(pos - 8))
            + word_calls(d.subrange(pos, pos + 8))));
        assert(calls_of_bytes(a) =~= (word_calls(d.take(8)) + calls_of_bytes(ds.take(pos - 8)))
            + word_calls(d.subrange(pos, pos + 8)));
        assert(calls_of_bytes(b) == word_calls(d.take(8)) + calls_of_bytes(ds.take(pos - 8)));
    }
}

/// Splitting off the trailing partial word: the whole string's calls are
/// the aligned prefix's calls followed by one call per tail bit.
pub proof fn lemma_calls_split_tail(d: Seq<u8>, pos: int)
    requires
        pos % 8 == 0,
        0 <= pos <= d.len(),
        d.len() - pos < 8,
    ensures
        calls_of_bytes(d) == calls_of_bytes(d.take(pos)) + per_bit_calls(
            bits_of_bytes(d.skip(pos)),
        ),
    decreases pos,
{
    if pos == 0 {
        assert(d.take(0) =~= Seq::<u8>::empty());
        assert(calls_of_bytes(d.take(0)) =~= Seq::<(bool, nat)>::empty());
        assert(d.skip(0) =~= d);
        assert(d.len() < 8);
        assert(calls_of_bytes(d.take(0)) + per_bit_calls(bits_of_bytes(d)) =~= per_bit_calls(
            bits_of_bytes(d),
        ));
    } else {
        let ds = d.skip(8);
        lemma_calls_split_tail(ds, pos - 8);
        let b = d.take(pos);
        assert(d.len() >= 8 && b.len() >= 8);
        assert(b.take(8) =~= d.take(8));
        assert(b.skip(8) =~= ds.take(pos - 8));
        assert(ds.skip(pos - 8) =~= d.skip(pos));
        assert(calls_of_bytes(d) == word_calls(d.take(8)) + (calls_of_bytes(ds.take(pos - 8))
            + per_bit_calls(bits_of_bytes(d.skip(pos)))));
        assert(calls_of_bytes(d) =~= (word_calls(d.take(8)) + calls_of_bytes(ds.take(pos - 8)))
            + per_bit_calls(bits_of_bytes(d.skip(pos))));
        assert(calls_of_bytes(b) == word_calls(d.take(8)) + calls_of_bytes(ds.take(pos - 8)));
    }
}

/// Decode the gzip stream, feed its bits through the parser, and return
/// the completed target.  An input whose decompressed size would push a
/// bit index past the parser's 32-bit counter is rejected like a
/// malformed stream.
pub fn process_zipped_bits<T: RangeTarget>(zipped: &Vec<u8>, parser: RangeParser<T>) -> (r:
    Result<T, Error>)
    requires
        parser.wf(),
        parser.calls@ == Seq::<(bool, nat)>::empty(),
    ensures
        match gunzip_of(zipped@) {
            None => r matches Err(e) && e == Error::Io,
            Some(d) => {
                if d.len() <= MAX_INPUT_BYTES {
                    r matches Ok(t) && t.inv() && t.ranges() == parse_ranges(calls_of_bytes(d))
                        && t.config() == parser.target.config() && parse_ranges(
                        calls_of_bytes(d),
                    ).len() <= 0x8000_0000
                } else {
                    r matches Err(e) && e == Error::Io
                }
            },
        },
{
    let data = match gunzip(zipped) {
        Ok(d) => d,
        Err(e) => {
            return Err(e);
        },
    };
    if data.len() > MAX_INPUT_BYTES {
        return Err(Error::Io);
    }
    let mut parser = parser;
    let ghost cfg = parser.target.config();
    let n = data.len();
    let words = n - n % 8;
    proof {
        assert(parser.calls@ =~= calls_of_bytes(data@.take(0)));
        assert(calls_of_bytes(data@.take(0)) =~= Seq::<(bool, nat)>::empty());
    }
    let mut pos: usize = 0;
    while pos < words
        invariant
            parser.wf(),
            parser.target.config() == cfg,
            parser.calls@ == calls_of_bytes(data@.take(pos as int)),
            parser.bit_idx == 1 + 8 * pos,
            pos % 8 == 0,
            pos <= words,
            words <= n,
            words % 8 == 0,
            n - words < 8,
            n == data@.len(),
            n <= MAX_INPUT_BYTES,
        decreases words - pos,
    {
        proof {
            let a = pos as int / 8;
            let b = words as int / 8;
            vstd::arithmetic::div_mod::lemma_fundamental_div_mod(pos as int, 8);
            vstd::arithmetic::div_mod::lemma_fundamental_div_mod(words as int, 8);
            assert(pos == 8 * a && words == 8 * b);
            assert(a < b && pos + 8 <= words) by (nonlinear_arith)
                requires
                    pos == 8 * a,
                    words == 8 * b,
                    pos < words,
            ;
        }
        let mut all0 = true;
        let mut all1 = true;
        let mut j: usize = 0;
        while j < 8
            invariant
                j <= 8,
                pos + 8 <= n,
                n == data@.len(),
                all0 <==> (forall|i: int| pos <= i < pos + j ==> data@[i] == 0),
                all1 <==> (forall|i: int| pos <= i < pos + j ==> data@[i] == 0xff),
            decreases 8 - j,
        {
            let b = data[pos + j];
            let ghost a0 = all0;
            let ghost a1 = all1;
            if b != 0 {
                all0 = false;
            }
            if b != 0xff {
                all1 = false;
            }
            j = j + 1;
            proof {
                assert(data@[pos + (j - 1)] == b);
                if all0 {
                    assert forall|i: int| pos <= i < pos + j implies data@[i] == 0 by {
                        if i == pos + (j - 1) {
                            assert(data@[i] == b);
                        }
                    }
                } else {
                    if a0 {
                        assert(data@[pos + (j - 1)] != 0);
                    } else {
                        let i0 = choose|i: int| pos <= i < pos + (j - 1) && data@[i] != 0;
                        assert(pos <= i0 < pos + j && data@[i0] != 0);
                    }
                }
                if all1 {
                    assert forall|i: int| pos <= i < pos + j implies data@[i] == 0xff by {
                        if i == pos + (j - 1) {
                            assert(data@[i] == b);
                        }
                    }
                } else {
                    if a1 {
                        assert(data@[pos + (j - 1)] != 0xff);
                    } else {
                        let i1 = choose|i: int| pos <= i < pos + (j - 1) && data@[i] != 0xff;
                        assert(pos <= i1 < pos + j && data@[i1] != 0xff);
                    }
                }
            }
        }
        let ghost word = data@.subrange(pos as int, pos as int + 8);
        if all0 || all1 {
            proof {
                if all0 {
                    assert forall|i: int| 0 <= i < 8 implies word[i] == 0 by {
                        assert(word[i] == data@[pos + i]);
                    }
                    assert(uniform(word, 0));
                    assert(word_calls(word) == seq![(false, 64nat)]);
                    assert(data@[pos as int] == 0);
                    assert(!all1);
                } else {
                    assert forall|i: int| 0 <= i < 8 implies word[i] == 0xff by {
                        assert(word[i] == data@[pos + i]);
                    }
                    assert(uniform(word, 0xff));
                    assert(word[0] == 0xff);
                    assert(!uniform(word, 0));
                    assert(word_calls(word) == seq![(true, 64nat)]);
                }
            }
            match parser.process_bits(all1, 64) {
                Ok(()) => {},
                Err(e) => {
                    return Err(e);
                },
            }
            proof {
                lemma_calls_extend_word(data@, pos as int);
                assert(parser.calls@ =~= calls_of_bytes(data@.take(pos as int)) + word_calls(
                    word,
                ));
            }
        } else {
            proof {
                let i0 = choose|i: int| pos <= i < pos + 8 && data@[i] != 0;
                let i1 = choose|i: int| pos <= i < pos + 8 && data@[i] != 0xff;
                assert(word[i0 - pos] == data@[i0] && word[i1 - pos] == data@[i1]);
                assert(!uniform(word, 0) && !uniform(word, 0xff));
                assert(word_calls(word) == per_bit_calls(bits_of_bytes(word)));
            }
            let ghost base = parser.calls@;
            let ghost wbits = bits_of_bytes(word);
            let mut j: usize = 0;
            proof {
                assert(per_bit_calls(wbits).take(0) =~= Seq::<(bool, nat)>::empty());
                assert(parser.calls@ =~= base + per_bit_calls(wbits).take(0));
            }
            while j < 8
                invariant
                    j <= 8,
                    parser.wf(),
                    parser.target.config() == cfg,
                    pos + 8 <= n,
                    pos < 0x1000_0000,
                    n == data@.len(),
                    n <= MAX_INPUT_BYTES,
                    word == data@.subrange(pos as int, pos as int + 8),
                    wbits == bits_of_bytes(word),
                    base == calls_of_bytes(data@.take(pos as int)),
                    parser.calls@ == base + per_bit_calls(wbits).take(8 * j),
                    parser.bit_idx == 1 + 8 * pos + 8 * j,
                decreases 8 - j,
            {
                let b = data[pos + j];
                let mut k: usize = 0;
                while k < 8
                    invariant
                        k <= 8,
                        j < 8,
                        parser.wf(),
                        parser.target.config() == cfg,
                        pos + 8 <= n,
                        pos < 0x1000_0000,
                        n == data@.len(),
                        n <= MAX_INPUT_BYTES,
                        word == data@.subrange(pos as int, pos as int + 8),
                        wbits == bits_of_bytes(word),
                        b == data@[pos + j],
                        base == calls_of_bytes(data@.take(pos as int)),
                        parser.calls@ == base + per_bit_calls(wbits).take(8 * j + k),
                        parser.bit_idx == 1 + 8 * pos + 8 * j + k,
                    decreases 8 - k,
                {
                    let bit = (b >> ((7 - k) as u8)) & 1 == 1;
                    proof {
                        lemma_fundamental_div_mod_converse(
                            8 * (j as int) + k,
                            8,
                            j as int,
                            k as int,
                        );
                        assert((8 * (j as int) + k as int) / 8 == j as int && (8 * (j as int)
                            + k as int) % 8 == k as int);
                        assert(wbits[8 * j + k] == bit_of(word[j as int], (k as u8)));
                        assert(word[j as int] == b);
                        assert(bit == bit_of(b, k as u8));
                    }
                    let ghost kpre = k;
                    match parser.process_bits(bit, 1) {
                        Ok(()) => {},
                        Err(e) => {
                            return Err(e);
                        },
                    }
                    k = k + 1;
                    proof {
                        assert(per_bit_calls(wbits)[8 * j + kpre] == (wbits[8 * j + kpre], 1nat));
                        assert(per_bit_calls(wbits).take(8 * j + k) =~= per_bit_calls(
                            wbits,
                        ).take(8 * j + kpre).push((bit, 1nat)));
                        assert(parser.calls@ =~= base + per_bit_calls(wbits).take(8 * j + k));
                    }
                }
                j = j + 1;
            }
            proof {
                assert(per_bit_calls(wbits).take(64) =~= per_bit_calls(wbits));
                lemma_calls_extend_word(data@, pos as int);
                assert(parser.calls@ =~= calls_of_bytes(data@.take(pos as int)) + word_calls(
                    word,
                ));
            }
        }
        pos = pos + 8;
        proof {
            assert(parser.calls@ == calls_of_bytes(data@.take(pos as int)));
        }
    }
    let ghost tail = data@.skip(words as int);
    let ghost base2 = parser.calls@;
    let ghost tbits = bits_of_bytes(tail);
    let tail_len = n - words;
    proof {
        assert(per_bit_calls(tbits).take(0) =~= Seq::<(bool, nat)>::empty());
        assert(parser.calls@ =~= base2 + per_bit_calls(tbits).take(0));
    }
    let mut t: usize = 0;
    while t < tail_len
        invariant
            t <= tail_len,
            parser.wf(),
            parser.target.config() == cfg,
            tail_len == n - words,
            tail_len < 8,
            words <= n,
            words < 0x1000_0000,
            n == data@.len(),
            n <= MAX_INPUT_BYTES,
            tail == data@.skip(words as int),
            tbits == bits_of_bytes(tail),
            base2 == calls_of_bytes(data@.take(words as int)),
            parser.calls@ == base2 + per_bit_calls(tbits).take(8 * t),
            parser.bit_idx == 1 + 8 * words + 8 * t,
        decreases tail_len - t,
    {
        let b = data[words + t];
        let mut k: usize = 0;
        while k < 8
            invariant
                k <= 8,
                t < tail_len,
                parser.wf(),
                parser.target.config() == cfg,
                tail_len == n - words,
                tail_len < 8,
                words <= n,
                words < 0x1000_0000,
                n == data@.len(),
                n <= MAX_INPUT_BYTES,
                tail == data@.skip(words as int),
                tbits == bits_of_bytes(tail),
                b == data@[words + t],
                base2 == calls_of_bytes(data@.take(words as int)),
                parser.calls@ == base2 + per_bit_calls(tbits).take(8 * t + k),
                parser.bit_idx == 1 + 8 * words + 8 * t + k,
            decreases 8 - k,
        {
            let bit = (b >> ((7 - k) as u8)) & 1 == 1;
            proof {
                lemma_fundamental_div_mod_converse(8 * (t as int) + k, 8, t as int, k as int);
                assert(tbits[8 * t + k] == bit_of(tail[t as int], (k as u8)));
                assert(tail[t as int] == b);
                assert(bit == bit_of(b, k as u8));
            }
            let ghost kpre = k;
            match parser.process_bits(bit, 1) {
                Ok(()) => {},
                Err(e) => {
                    return Err(e);
                },
            }
            k = k + 1;
            proof {
                assert(per_bit_calls(tbits)[8 * t + kpre] == (tbits[8 * t + kpre], 1nat));
                assert(per_bit_calls(tbits).take(8 * t + k) =~= per_bit_calls(tbits).take(
                    8 * t + kpre,
                ).push((bit, 1nat)));
                assert(parser.calls@ =~= base2 + per_bit_calls(tbits).take(8 * t + k));
            }
        }
        t = t + 1;
    }
    proof {
        assert(per_bit_calls(tbits).take(8 * tail_len as int) =~= per_bit_calls(tbits));
        lemma_calls_split_tail(data@, words as int);
        assert(parser.calls@ =~= calls_of_bytes(data@));
    }
    parser.complete()
}

} // verus!
