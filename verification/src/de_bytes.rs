use vstd::prelude::*;

use crate::data::{Pool, Sentence, Word};
use crate::error::Error;
use crate::format::{
    be32_value, dec_pool, dec_sentence, dec_u32, dec_word, dec_word_seq, dec_sentence_seq,
    DecodeIssue,
};
use vstd::slice::slice_subrange;
use vstd::utf8::{decode_utf8, valid_utf8};

verus! {

/// The error text reported for a word whose bytes are not valid UTF-8.
pub open spec fn utf8_error_text() -> Seq<char> {
    "word bytes are not valid UTF-8"@
}

/// Relies on str::from_utf8 (std): it succeeds exactly on valid UTF-8 input,
/// and the returned string slice holds exactly the input bytes.
#[verifier::external_body]
pub(crate) fn utf8_to_string(b: &[u8]) -> (r: Option<String>)
    ensures
        match r {
            Some(s) => valid_utf8(b@) && s@ == decode_utf8(b@),
            None => !valid_utf8(b@),
        },
{
    match core::str::from_utf8(b) {
        Ok(s) => Some(s.to_owned()),
        Err(_) => None,
    }
}

/// How `Error` renders the decode issues that word and sentence decoding
/// can hit: a truncated input or invalid UTF-8 inside a word.
pub open spec fn data_issue_error(issue: DecodeIssue, e: Error) -> bool {
    match issue {
        DecodeIssue::Eof => e is EofError,
        DecodeIssue::Utf8 => e matches Error::Message(m) && m@ == utf8_error_text(),
        _ => false,
    }
}

/// A single-pass, non-backtracking cursor over a byte buffer: input is
/// consumed left to right and never revisited.
pub struct BytesDeserializer<'a> {
    input: &'a [u8],
}

impl<'a> View for BytesDeserializer<'a> {
    type V = Seq<u8>;

    closed spec fn view(&self) -> Seq<u8> {
        self.input@
    }
}

impl<'a> BytesDeserializer<'a> {
    pub fn new(input: &'a [u8]) -> (r: Self)
        ensures
            r@ == input@,
    {
        BytesDeserializer { input }
    }

    /// True once every byte has been consumed.
    pub fn ended(&self) -> (r: bool)
        ensures
            r == (self@.len() == 0),
    {
        self.input.len() == 0
    }

    /// Consumes next `len` bytes from input and return it
    pub fn next_exact_bytes(&mut self, len: usize) -> (r: Result<&'a [u8], Error>)
        ensures
            match r {
                Ok(s) => len <= old(self)@.len() && s@ == old(self)@.take(len as int) && final(self)@ == old(self)@.skip(len as int),
                Err(e) => len > old(self)@.len() && e is EofError && final(self)@ == old(self)@,
            },
    {
        let cur: &'a [u8] = self.input;
        if len > cur.len() {
            Err(Error::EofError)
        } else {
            let slce = slice_subrange(cur, 0, len);
            self.input = slice_subrange(cur, len, cur.len());
            Ok(slce)
        }
    }

    /// Consumes and returns every byte that is left.
    pub fn take_rest(&mut self) -> (r: &'a [u8])
        ensures
            r@ == old(self)@,
            final(self)@ == Seq::<u8>::empty(),
    {
        let cur: &'a [u8] = self.input;
        self.input = slice_subrange(cur, cur.len(), cur.len());
        cur
    }

    /// Consumes 1 byte of data from input and parses it into a u8
    pub fn parse_u8(&mut self) -> (r: Result<u8, Error>)
        ensures
            match r {
                Ok(v) => old(self)@.len() >= 1 && v == old(self)@[0] && final(self)@ == old(self)@.skip(1),
                Err(e) => old(self)@.len() == 0 && e is EofError && final(self)@ == old(self)@,
            },
    {
        match self.next_exact_bytes(1) {
            Ok(b) => Ok(b[0]),
            Err(e) => Err(e),
        }
    }

    /// Consumes 4 bytes of data from input and parses it into a big-endian u32
    pub fn parse_u32(&mut self) -> (r: Result<u32, Error>)
        ensures
            match dec_u32(old(self)@) {
                Ok((v, rest)) => r == Ok::<u32, Error>(v) && final(self)@ == rest,
                Err(_) => r matches Err(e) && e is EofError && final(self)@ == old(self)@,
            },
    {
        match self.next_exact_bytes(4) {
            Ok(b) => {
                let v = ((b[0] as u32) << 24) | ((b[1] as u32) << 16) | ((b[2] as u32) << 8) | (
                b[3] as u32);
                assert(v == be32_value(
                    old(self)@[0],
                    old(self)@[1],
                    old(self)@[2],
                    old(self)@[3],
                ));
                Ok(v)
            },
            Err(e) => Err(e),
        }
    }

    /// Consumes next `len` bytes from input and parses them into a UTF-8 String
    pub fn parse_string(&mut self, len: usize) -> (r: Result<String, Error>)
        ensures
            match r {
                Ok(s) => len <= old(self)@.len() && valid_utf8(old(self)@.take(len as int)) && s@
                    == decode_utf8(old(self)@.take(len as int)) && final(self)@ == old(self)@.skip(len as int),
                Err(e) => if len > old(self)@.len() {
                    e is EofError && final(self)@ == old(self)@
                } else {
                    !valid_utf8(old(self)@.take(len as int)) && data_issue_error(
                        DecodeIssue::Utf8,
                        e,
                    ) && final(self)@ == old(self)@.skip(len as int)
                },
            },
    {
        match self.next_exact_bytes(len) {
            Ok(b) => match utf8_to_string(b) {
                Some(s) => Ok(s),
                None => Err(Error::Message("word bytes are not valid UTF-8".to_owned())),
            },
            Err(e) => Err(e),
        }
    }

    /// Reads one word: a 4-byte length, then that many UTF-8 bytes.
    pub fn decode_word(&mut self) -> (r: Result<Word, Error>)
        ensures
            match dec_word(old(self)@) {
                Ok((w, rest)) => r matches Ok(word) && word@ == w && final(self)@ == rest,
                Err(issue) => r matches Err(e) && data_issue_error(issue, e),
            },
    {
        let n = match self.parse_u32() {
            Ok(n) => n,
            Err(e) => {
                return Err(e);
            },
        };
        match self.parse_string(n as usize) {
            Ok(s) => Ok(Word(s)),
            Err(e) => Err(e),
        }
    }

    /// Reads one sentence: a 4-byte word count, then that many words.
    pub fn decode_sentence(&mut self) -> (r: Result<Sentence, Error>)
        ensures
            match dec_sentence(old(self)@) {
                Ok((s, rest)) => r matches Ok(sentence) && sentence.deep_view() == s && final(self)@ == rest,
                Err(issue) => r matches Err(e) && data_issue_error(issue, e),
            },
    {
        let n = match self.parse_u32() {
            Ok(n) => n,
            Err(e) => {
                return Err(e);
            },
        };
        let ghost b0 = self@;
        let mut words: Vec<Word> = Vec::new();
        let mut i: usize = 0;
        while i < n as usize
            invariant
                0 <= i <= n as usize,
                words@.len() == i,
                dec_u32(old(self)@) == Ok::<(u32, Seq<u8>), DecodeIssue>((n, b0)),
                match dec_word_seq(self@, (n as usize - i) as nat) {
                    Ok((ws, rest)) => dec_word_seq(b0, n as nat) == Ok::<_, DecodeIssue>(
                        (words.deep_view() + ws, rest),
                    ),
                    Err(e) => dec_word_seq(b0, n as nat) == Err::<(Seq<Seq<char>>, Seq<u8>), _>(
                        e,
                    ),
                },
            decreases n as usize - i,
        {
            let ghost pre = self@;
            let ghost pre_words = words.deep_view();
            match self.decode_word() {
                Ok(w) => {
                    words.push(w);
                    proof {
                        let (wv, rest) = dec_word(pre)->Ok_0;
                        assert(words.deep_view() =~= pre_words + seq![wv]);
                        match dec_word_seq(self@, (n as usize - i - 1) as nat) {
                            Ok((ws2, rest2)) => {
                                assert(pre_words + (seq![wv] + ws2) =~= words.deep_view() + ws2);
                            },
                            Err(_) => (),
                        }
                    }
                },
                Err(e) => {
                    return Err(e);
                },
            }
            i += 1;
        }
        proof {
            assert(dec_word_seq(self@, 0) == Ok::<_, DecodeIssue>(
                (Seq::<Seq<char>>::empty(), self@),
            ));
            assert(words.deep_view() + Seq::<Seq<char>>::empty() =~= words.deep_view());
        }
        Ok(Sentence(words))
    }

    /// Reads one pool: a 4-byte sentence count, then that many sentences,
    /// reversed back from the stored oldest-first order to newest-first.
    pub fn decode_pool(&mut self) -> (r: Result<Pool, Error>)
        ensures
            match dec_pool(old(self)@) {
                Ok((p, rest)) => r matches Ok(pool) && pool.deep_view() == p && final(self)@
                    == rest,
                Err(issue) => r matches Err(e) && data_issue_error(issue, e),
            },
    {
        let n = match self.parse_u32() {
            Ok(n) => n,
            Err(e) => {
                return Err(e);
            },
        };
        let ghost b0 = self@;
        let mut stored: Vec<Sentence> = Vec::new();
        let mut i: usize = 0;
        while i < n as usize
            invariant
                0 <= i <= n as usize,
                stored@.len() == i,
                dec_u32(old(self)@) == Ok::<(u32, Seq<u8>), DecodeIssue>((n, b0)),
                match dec_sentence_seq(self@, (n as usize - i) as nat) {
                    Ok((ss, rest)) => dec_sentence_seq(b0, n as nat) == Ok::<_, DecodeIssue>(
                        (stored.deep_view() + ss, rest),
                    ),
                    Err(e) => dec_sentence_seq(b0, n as nat) == Err::<
                        (Seq<Seq<Seq<char>>>, Seq<u8>),
                        _,
                    >(e),
                },
            decreases n as usize - i,
        {
            let ghost pre = self@;
            let ghost pre_stored = stored.deep_view();
            match self.decode_sentence() {
                Ok(s) => {
                    stored.push(s);
                    proof {
                        let (sv, rest) = dec_sentence(pre)->Ok_0;
                        assert(stored.deep_view() =~= pre_stored + seq![sv]);
                        match dec_sentence_seq(self@, (n as usize - i - 1) as nat) {
                            Ok((ss2, rest2)) => {
                                assert(pre_stored + (seq![sv] + ss2) =~= stored.deep_view() + ss2);
                            },
                            Err(_) => (),
                        }
                    }
                },
                Err(e) => {
                    return Err(e);
                },
            }
            i += 1;
        }
        proof {
            assert(dec_sentence_seq(self@, 0) == Ok::<_, DecodeIssue>(
                (Seq::<Seq<Seq<char>>>::empty(), self@),
            ));
            assert(stored.deep_view() + Seq::<Seq<Seq<char>>>::empty() =~= stored.deep_view());
        }
        // The wire order is oldest first; in memory the newest comes first.
        let ghost stored_view = stored.deep_view();
        let mut newest_first: Vec<Sentence> = Vec::new();
        let total = stored.len();
        while stored.len() > 0
            invariant
                newest_first@.len() + stored@.len() == total == stored_view.len(),
                stored.deep_view() =~= stored_view.take(stored@.len() as int),
                forall|j: int|
                    0 <= j < newest_first@.len() ==> #[trigger] newest_first.deep_view()[j]
                        == stored_view[total - 1 - j],
            decreases stored.len(),
        {
            let ghost nf_pre = newest_first.deep_view();
            let ghost k = stored@.len() as int;
            proof {
                assert(stored.deep_view()[k - 1] == stored_view[k - 1]);
            }
            let s = stored.pop().unwrap();
            newest_first.push(s);
            proof {
                assert(s.deep_view() == stored_view[k - 1]);
                assert(newest_first.deep_view() =~= nf_pre.push(s.deep_view()));
                assert(stored.deep_view() =~= stored_view.take(stored@.len() as int));
            }
        }
        let r = Pool(newest_first);
        assert(r.deep_view() =~= stored_view.reverse());
        Ok(r)
    }
}

} // verus!
