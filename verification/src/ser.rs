use vstd::prelude::*;

use crate::data::{History, Pool, Sentence, Word};
use crate::error::Error;
use crate::format::{
    be32, enc_history, enc_pool, enc_pool_seq, enc_sentence, enc_sentence_seq, enc_word,
    enc_word_seq, lemma_enc_pool_seq_snoc, lemma_enc_sentence_seq_snoc, lemma_enc_word_seq_snoc,
    wf_pool, wf_pools, wf_sentence, wf_word,
};
use vstd::slice::slice_to_vec;

verus! {

/// Appends the bytes of a slice to the output buffer.
fn append_bytes(out: &mut Vec<u8>, b: &[u8])
    ensures
        final(out)@ == old(out)@ + b@,
{
    let mut v = slice_to_vec(b);
    out.append(&mut v);
}

/// Builds the wire encoding of a value tree, append-only and single-pass.
pub struct Serializer {
    output: Vec<u8>,
}

impl View for Serializer {
    type V = Seq<u8>;

    closed spec fn view(&self) -> Seq<u8> {
        self.output@
    }
}

impl Serializer {
    /// A serializer with an empty output buffer.
    pub fn new() -> (r: Serializer)
        ensures
            r@ == Seq::<u8>::empty(),
    {
        Serializer { output: Vec::new() }
    }

    /// Hands out the bytes written so far.
    pub fn into_bytes(self) -> (r: Vec<u8>)
        ensures
            r@ == self@,
    {
        self.output
    }

    /// Appends the four big-endian bytes of `v`.
    pub fn serialize_u32(&mut self, v: u32) -> (r: Result<(), Error>)
        ensures
            r is Ok,
            final(self)@ == old(self)@ + be32(v),
    {
        self.output.push(((v >> 24) & 0xff) as u8);
        self.output.push(((v >> 16) & 0xff) as u8);
        self.output.push(((v >> 8) & 0xff) as u8);
        self.output.push((v & 0xff) as u8);
        assert(final(self)@ =~= old(self)@ + be32(v));
        Ok(())
    }

    /// Appends a string: its UTF-8 byte length, then its UTF-8 bytes.
    pub fn serialize_str(&mut self, v: &str) -> (r: Result<(), Error>)
        ensures
            r is Ok <==> wf_word(v@),
            r is Ok ==> final(self)@ == old(self)@ + enc_word(v@),
            r matches Err(e) ==> e is SerializeError && final(self)@ == old(self)@,
    {
        let bytes = v.as_bytes();
        if bytes.len() > u32::MAX as usize {
            return Err(Error::SerializeError("string is too long for a 4-byte length".to_owned()));
        }
        let _ = self.serialize_u32(bytes.len() as u32);
        append_bytes(&mut self.output, bytes);
        assert(final(self)@ =~= old(self)@ + enc_word(v@));
        Ok(())
    }

    /// Appends one word.
    pub fn serialize_word(&mut self, w: &Word) -> (r: Result<(), Error>)
        ensures
            r is Ok <==> wf_word(w@),
            r is Ok ==> final(self)@ == old(self)@ + enc_word(w@),
            r matches Err(e) ==> e is SerializeError && final(self)@ == old(self)@,
    {
        self.serialize_str(w.0.as_str())
    }

    /// Appends one sentence: its word count, then its words.
    pub fn serialize_sentence(&mut self, s: &Sentence) -> (r: Result<(), Error>)
        ensures
            r is Ok <==> wf_sentence(s.deep_view()),
            r is Ok ==> final(self)@ == old(self)@ + enc_sentence(s.deep_view()),
            r matches Err(e) ==> e is SerializeError,
    {
        if s.0.len() > u32::MAX as usize {
            return Err(
                Error::SerializeError("sentence has too many words for a 4-byte count".to_owned()),
            );
        }
        let _ = self.serialize_u32(s.0.len() as u32);
        let ghost sv = s.deep_view();
        let mut i: usize = 0;
        while i < s.0.len()
            invariant
                0 <= i <= s.0.len(),
                sv == s.deep_view(),
                sv.len() == s.0.len(),
                self@ == old(self)@ + be32(sv.len() as u32) + enc_word_seq(sv.take(i as int)),
                forall|j: int| 0 <= j < i ==> wf_word(#[trigger] sv[j]),
            decreases s.0.len() - i,
        {
            assert(sv[i as int] == s.0[i as int]@);
            match self.serialize_word(&s.0[i]) {
                Ok(()) => (),
                Err(e) => {
                    return Err(e);
                },
            }
            proof {
                lemma_enc_word_seq_snoc(sv, i as int);
            }
            i += 1;
        }
        assert(sv.take(sv.len() as int) =~= sv);
        Ok(())
    }

    /// Appends one pool: its sentence count, then its sentences written
    /// oldest first, the reverse of the newest-first in-memory order.
    pub fn serialize_pool(&mut self, p: &Pool) -> (r: Result<(), Error>)
        ensures
            r is Ok <==> wf_pool(p.deep_view()),
            r is Ok ==> final(self)@ == old(self)@ + enc_pool(p.deep_view()),
            r matches Err(e) ==> e is SerializeError,
    {
        if p.0.len() > u32::MAX as usize {
            return Err(
                Error::SerializeError(
                    "pool has too many sentences for a 4-byte count".to_owned(),
                ),
            );
        }
        let _ = self.serialize_u32(p.0.len() as u32);
        let ghost pv = p.deep_view();
        let n = p.0.len();
        let mut i: usize = 0;
        while i < n
            invariant
                0 <= i <= n,
                pv == p.deep_view(),
                pv.len() == n == p.0.len(),
                self@ == old(self)@ + be32(pv.len() as u32) + enc_sentence_seq(
                    pv.reverse().take(i as int),
                ),
                forall|j: int| n - i <= j < n ==> wf_sentence(#[trigger] pv[j]),
            decreases n - i,
        {
            assert(pv.reverse()[i as int] == pv[n - 1 - i as int]);
            match self.serialize_sentence(&p.0[n - 1 - i]) {
                Ok(()) => (),
                Err(e) => {
                    return Err(e);
                },
            }
            proof {
                lemma_enc_sentence_seq_snoc(pv.reverse(), i as int);
            }
            i += 1;
        }
        assert(pv.reverse().take(pv.reverse().len() as int) =~= pv.reverse());
        assert(forall|j: int| 0 <= j < pv.len() ==> wf_sentence(#[trigger] pv[j]));
        Ok(())
    }

    /// Appends a whole record: magic, format version, then the pools back
    /// to back with no pool count.
    pub fn serialize_history(&mut self, h: &History) -> (r: Result<(), Error>)
        ensures
            r is Ok <==> wf_pools(h.pools.deep_view()),
            r is Ok ==> final(self)@ == old(self)@ + enc_history(
                h.magic,
                h.format_version,
                h.pools.deep_view(),
            ),
            r matches Err(e) ==> e is SerializeError,
    {
        let _ = self.serialize_u32(h.magic);
        let _ = self.serialize_u32(h.format_version);
        let ghost hv = h.pools.deep_view();
        let mut i: usize = 0;
        while i < h.pools.len()
            invariant
                0 <= i <= h.pools.len(),
                hv == h.pools.deep_view(),
                hv.len() == h.pools.len(),
                self@ == old(self)@ + be32(h.magic) + be32(h.format_version) + enc_pool_seq(
                    hv.take(i as int),
                ),
                forall|j: int| 0 <= j < i ==> wf_pool(#[trigger] hv[j]),
            decreases h.pools.len() - i,
        {
            assert(hv[i as int] == h.pools[i as int].deep_view());
            match self.serialize_pool(&h.pools[i]) {
                Ok(()) => (),
                Err(e) => {
                    return Err(e);
                },
            }
            proof {
                lemma_enc_pool_seq_snoc(hv, i as int);
            }
            i += 1;
        }
        assert(hv.take(hv.len() as int) =~= hv);
        Ok(())
    }
}

/// The wire bytes of a whole history record, or the reason it cannot be
/// written: some length in it does not fit the 4-byte prefixes.
pub fn to_bytes(h: &History) -> (r: Result<Vec<u8>, Error>)
    ensures
        r is Ok <==> wf_pools(h.pools.deep_view()),
        r matches Ok(v) ==> v@ == enc_history(h.magic, h.format_version, h.pools.deep_view()),
        r matches Err(e) ==> e is SerializeError,
{
    let mut ser = Serializer::new();
    match ser.serialize_history(h) {
        Ok(()) => Ok(ser.into_bytes()),
        Err(e) => Err(e),
    }
}

} // verus!
