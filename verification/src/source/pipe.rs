//! Raw PCM from a byte stream: interleaved signed 16-bit little-endian samples.
use vstd::prelude::*;

use crate::wire;

verus! {

/// Bytes of one sample.
pub const BYTES_PER_SAMPLE: usize = 2;

/// Turns the bytes of a PCM stream, however they are cut up, into samples.
pub struct PcmAssembler {
    /// Carries bytes that didn't form a whole sample across read boundaries, so
    /// samples stay aligned.
    pub leftover: Vec<u8>,
}

/// The 16-bit samples (two's complement, as words) in the bytes.
pub open spec fn pcm_words(bytes: Seq<u8>) -> Seq<u32> {
    wire::WireFormat::S16Le.decoded(bytes)
}

/// The bytes that make no whole sample.
pub open spec fn pcm_rest(bytes: Seq<u8>) -> Seq<u8> {
    bytes.skip(bytes.len() - bytes.len() % 2)
}

impl PcmAssembler {
    pub open spec fn wf(&self) -> bool {
        self.leftover@.len() < BYTES_PER_SAMPLE
    }

    pub fn new() -> (r: Self)
        ensures
            r.wf(),
            r.leftover@ == Seq::<u8>::empty(),
    {
        PcmAssembler { leftover: Vec::new() }
    }

    /// Take in the bytes of one read: every complete sample comes out, and a
    /// trailing partial-sample byte is kept for the next call.
    pub fn push(&mut self, bytes: &Vec<u8>) -> (words: Vec<u32>)
        requires
            old(self).wf(),
        ensures
            final(self).wf(),
            words@ == pcm_words(old(self).leftover@ + bytes@),
            final(self).leftover@ == pcm_rest(old(self).leftover@ + bytes@),
    {
        let ghost all = self.leftover@ + bytes@;
        let mut words: Vec<u32> = Vec::new();
        let mut held: Option<u8> = if self.leftover.len() == 0 {
            None
        } else {
            Some(self.leftover[0])
        };
        let ghost off = self.leftover@.len();
        let mut i: usize = 0;
        while i < bytes.len()
            invariant
                i <= bytes@.len(),
                all.len() == off + bytes@.len(),
                off < 2,
                forall|k: int| 0 <= k < bytes@.len() ==> #[trigger] all[off + k] == bytes@[k],
                words@.len() == (off + i) / 2,
                held is Some <==> (off + i) % 2 == 1,
                held matches Some(b) ==> b == all[off + i - 1],
                forall|k: int|
                    0 <= k < words@.len() ==> #[trigger] words@[k]
                        == wire::WireFormat::S16Le.sample_at(all, k),
            decreases bytes@.len() - i,
        {
            proof {
                assert(all[off + i as int] == bytes@[i as int]);
            }
            match held {
                Some(lo) => {
                    words.push(lo as u32 + bytes[i] as u32 * 0x100);
                    held = None;
                },
                None => {
                    held = Some(bytes[i]);
                },
            }
            i = i + 1;
        }
        let mut rest: Vec<u8> = Vec::new();
        if let Some(b) = held {
            rest.push(b);
        }
        self.leftover = rest;
        proof {
            assert(words@ =~= pcm_words(all));
            assert(self.leftover@ =~= pcm_rest(all));
        }
        words
    }
}

/// How a stream is cut into reads makes no difference: two reads give the samples
/// that one read of all the bytes gives, and leave the same rest.
pub proof fn cuts_make_no_difference(left: Seq<u8>, a: Seq<u8>, b: Seq<u8>)
    requires
        left.len() < BYTES_PER_SAMPLE,
    ensures
        pcm_words(left + a) + pcm_words(pcm_rest(left + a) + b) == pcm_words(left + (a + b)),
        pcm_rest(pcm_rest(left + a) + b) == pcm_rest(left + (a + b)),
{
    let x = left + a;
    let whole = left + (a + b);
    let rest = pcm_rest(x);
    let y = rest + b;
    let n = x.len() as int / 2;
    let first = pcm_words(x);
    let second = pcm_words(y);
    let all = pcm_words(whole);
    assert(whole =~= x + b);
    assert(x.len() == 2 * n + rest.len());
    assert forall|k: int| 0 <= k < y.len() implies y[k] == whole[2 * n + k] by {}
    assert forall|k: int| 0 <= k < all.len() implies all[k] == (first + second)[k] by {
        if k < n {
            assert(first[k] == wire::WireFormat::S16Le.sample_at(x, k));
            assert(x[2 * k] == whole[2 * k] && x[2 * k + 1] == whole[2 * k + 1]);
        } else {
            let m = k - n;
            assert(second[m] == wire::WireFormat::S16Le.sample_at(y, m));
            assert(y[2 * m] == whole[2 * n + 2 * m]);
            assert(y[2 * m + 1] == whole[2 * n + (2 * m + 1)]);
        }
    }
    assert(first + second =~= all);
    assert(pcm_rest(y) =~= pcm_rest(whole));
}

/// Every two bytes make a sample, the low one first; what is left is the last byte of
/// an odd number, and nothing of an even one.
pub proof fn two_bytes_make_a_sample(bytes: Seq<u8>, i: int)
    requires
        0 <= i,
        2 * i + 1 < bytes.len(),
    ensures
        pcm_words(bytes).len() == bytes.len() as int / 2,
        pcm_words(bytes)[i] == bytes[2 * i] + 0x100 * bytes[2 * i + 1],
        pcm_rest(bytes).len() == bytes.len() as int % 2,
        bytes.len() as int % 2 == 1 ==> pcm_rest(bytes)[0] == bytes.last(),
{
}

} // verus!
