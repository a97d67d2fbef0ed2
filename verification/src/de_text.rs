use vstd::prelude::*;

use crate::data::{Sentence, Word};
use crate::de_bytes::{data_issue_error, utf8_to_string, utf8_error_text};
use crate::error::Error;
use crate::format::DecodeIssue;
use vstd::slice::slice_subrange;
use vstd::utf8::{decode_utf8, valid_utf8};

verus! {

/// The two token delimiters of the text format: space within a line,
/// newline between lines.
pub open spec fn word_delims() -> Seq<u8> {
    seq![32u8, 10u8]
}

/// The length of the prefix of `b` before the first byte that `cs` holds;
/// `b.len()` when no such byte occurs.
pub open spec fn first_stop(b: Seq<u8>, cs: Seq<u8>) -> int
    decreases b.len(),
{
    if b.len() == 0 {
        0
    } else if cs.contains(b[0]) {
        0
    } else {
        1 + first_stop(b.drop_first(), cs)
    }
}

/// `first_stop` is exactly the first index holding a byte of `cs`.
pub proof fn lemma_first_stop(b: Seq<u8>, cs: Seq<u8>, k: int)
    requires
        0 <= k <= b.len(),
        forall|j: int| 0 <= j < k ==> !cs.contains(#[trigger] b[j]),
        k < b.len() ==> cs.contains(b[k]),
    ensures
        first_stop(b, cs) == k,
    decreases b.len(),
{
    if b.len() == 0 {
    } else if k == 0 {
    } else {
        assert(!cs.contains(b[0]));
        assert(forall|j: int| 0 <= j < k - 1 ==> !cs.contains(#[trigger] b.drop_first()[j]));
        assert(k - 1 < b.drop_first().len() ==> cs.contains(b.drop_first()[k - 1]));
        lemma_first_stop(b.drop_first(), cs, k - 1);
    }
}

/// One word of the text format: the bytes before the next delimiter,
/// which must be valid UTF-8.
pub open spec fn txt_word(b: Seq<u8>) -> Result<(Seq<char>, Seq<u8>), DecodeIssue> {
    let k = first_stop(b, word_delims());
    if !valid_utf8(b.take(k)) {
        Err(DecodeIssue::Utf8)
    } else {
        Ok((decode_utf8(b.take(k)), b.skip(k)))
    }
}

/// The words of a sentence after its first word: each is announced by a
/// single space; any other byte (in particular a newline) ends the
/// sentence and is consumed.
pub open spec fn txt_rest(b: Seq<u8>) -> Result<(Seq<Seq<char>>, Seq<u8>), DecodeIssue>
    decreases b.len(),
    via txt_rest_decreases
{
    if b.len() == 0 {
        Ok((Seq::empty(), b))
    } else if b[0] != 32u8 {
        Ok((Seq::empty(), b.skip(1)))
    } else {
        let b2 = b.skip(1);
        let k = first_stop(b2, word_delims());
        if !valid_utf8(b2.take(k)) {
            Err(DecodeIssue::Utf8)
        } else {
            match txt_rest(b2.skip(k)) {
                Err(e) => Err(e),
                Ok((ws, r)) => Ok((seq![decode_utf8(b2.take(k))] + ws, r)),
            }
        }
    }
}

#[via_fn]
proof fn txt_rest_decreases(b: Seq<u8>) {
    if b.len() > 0 && b[0] == 32u8 {
        lemma_first_stop_bound(b.skip(1), word_delims());
    }
}

/// One line of the text format: a first word, then space-led words, ended
/// by a newline (consumed) or the end of the input. Empty input holds no
/// sentence at all.
pub open spec fn txt_sentence(b: Seq<u8>) -> Result<(Seq<Seq<char>>, Seq<u8>), DecodeIssue> {
    if b.len() == 0 {
        Ok((Seq::empty(), b))
    } else {
        match txt_word(b) {
            Err(e) => Err(e),
            Ok((w, r)) => match txt_rest(r) {
                Err(e) => Err(e),
                Ok((ws, r2)) => Ok((seq![w] + ws, r2)),
            },
        }
    }
}

/// Prepends already-decoded words to a decode in progress.
pub open spec fn with_words(
    acc: Seq<Seq<char>>,
    r: Result<(Seq<Seq<char>>, Seq<u8>), DecodeIssue>,
) -> Result<(Seq<Seq<char>>, Seq<u8>), DecodeIssue> {
    match r {
        Ok((ws, rest)) => Ok((acc + ws, rest)),
        Err(e) => Err(e),
    }
}

/// A sentence of nonempty input consumes at least one byte.
pub proof fn lemma_txt_consumes(b: Seq<u8>)
    requires
        b.len() > 0,
    ensures
        txt_sentence(b) matches Ok((s, r)) ==> r.len() < b.len(),
{
    let k = first_stop(b, word_delims());
    lemma_first_stop_bound(b, word_delims());
    match txt_word(b) {
        Ok((w, r)) => {
            lemma_txt_rest_consumes(r);
        },
        Err(_) => (),
    }
}

/// `first_stop` never runs past the end.
pub proof fn lemma_first_stop_bound(b: Seq<u8>, cs: Seq<u8>)
    ensures
        0 <= first_stop(b, cs) <= b.len(),
    decreases b.len(),
{
    if b.len() > 0 && !cs.contains(b[0]) {
        lemma_first_stop_bound(b.drop_first(), cs);
    }
}

/// The trailing words of a sentence consume at least the delimiter.
pub proof fn lemma_txt_rest_consumes(b: Seq<u8>)
    ensures
        txt_rest(b) matches Ok((ws, r)) ==> r.len() <= b.len() && (b.len() > 0 ==> r.len()
            < b.len()),
    decreases b.len(),
{
    if b.len() > 0 && b[0] == 32u8 {
        let b2 = b.skip(1);
        let k = first_stop(b2, word_delims());
        lemma_first_stop_bound(b2, word_delims());
        lemma_txt_rest_consumes(b2.skip(k));
    }
}

/// Consumes the whole input: one sentence per line.
pub open spec fn txt_sentences_fueled(b: Seq<u8>, fuel: nat) -> Result<
    Seq<Seq<Seq<char>>>,
    DecodeIssue,
>
    decreases fuel,
{
    if b.len() == 0 {
        Ok(Seq::empty())
    } else if fuel == 0 {
        Err(DecodeIssue::Eof)
    } else {
        match txt_sentence(b) {
            Err(e) => Err(e),
            Ok((s, r)) => if r.len() < b.len() {
                match txt_sentences_fueled(r, (fuel - 1) as nat) {
                    Err(e) => Err(e),
                    Ok(ss) => Ok(seq![s] + ss),
                }
            } else {
                Err(DecodeIssue::Eof)
            },
        }
    }
}

/// Every sentence of the input, line by line, before any filtering.
pub open spec fn txt_sentences(b: Seq<u8>) -> Result<Seq<Seq<Seq<char>>>, DecodeIssue> {
    txt_sentences_fueled(b, b.len())
}

/// Any fuel of at least `b.len()` reads the same sentences.
pub proof fn lemma_txt_sentences_fuel(b: Seq<u8>, fuel: nat)
    requires
        fuel >= b.len(),
    ensures
        txt_sentences_fueled(b, fuel) == txt_sentences(b),
    decreases fuel,
{
    if b.len() > 0 {
        lemma_txt_consumes(b);
        match txt_sentence(b) {
            Ok((s, r)) => {
                if r.len() < b.len() {
                    lemma_txt_sentences_fuel(r, (fuel - 1) as nat);
                    lemma_txt_sentences_fuel(r, (b.len() - 1) as nat);
                }
            },
            Err(_) => (),
        }
    }
}

/// Text and binary coherence: a word whose UTF-8 bytes hold no delimiter
/// decodes to the same character sequence from its binary encoding (a length
/// prefix before those bytes) and from the plain-text format (those bytes up
/// to the end of the token).
pub proof fn lemma_text_binary_coherence(p: Seq<u8>, tail: Seq<u8>)
    requires
        valid_utf8(p),
        p.len() <= u32::MAX,
        forall|i: int| 0 <= i < p.len() ==> !word_delims().contains(#[trigger] p[i]),
    ensures
        txt_word(p) == Ok::<_, DecodeIssue>((decode_utf8(p), Seq::<u8>::empty())),
        crate::format::dec_word(crate::format::be32(p.len() as u32) + p + tail) == Ok::<
            _,
            DecodeIssue,
        >((decode_utf8(p), tail)),
{
    lemma_first_stop(p, word_delims(), p.len() as int);
    assert(p.take(p.len() as int) =~= p);
    assert(p.skip(p.len() as int) =~= Seq::<u8>::empty());
    let n = p.len() as u32;
    let b = crate::format::be32(n) + p + tail;
    assert(b =~= crate::format::be32(n) + (p + tail));
    assert(b[0] == crate::format::be32(n)[0] && b[1] == crate::format::be32(n)[1] && b[2]
        == crate::format::be32(n)[2] && b[3] == crate::format::be32(n)[3]);
    crate::format::lemma_be32_roundtrip(n);
    assert(b.skip(4) =~= p + tail);
    assert((p + tail).take(n as int) =~= p);
    assert((p + tail).skip(n as int) =~= tail);
}

/// A cursor over a plain-text history: lines are sentences, spaces
/// separate words within a line.
pub struct TextDeserializer<'a> {
    input: &'a [u8],
}

impl<'a> View for TextDeserializer<'a> {
    type V = Seq<u8>;

    closed spec fn view(&self) -> Seq<u8> {
        self.input@
    }
}

/// True when `cs` holds `x`.
fn contains_byte(cs: &[u8], x: u8) -> (r: bool)
    ensures
        r == cs@.contains(x),
{
    let mut i: usize = 0;
    while i < cs.len()
        invariant
            0 <= i <= cs@.len(),
            forall|j: int| 0 <= j < i ==> cs@[j] != x,
        decreases cs@.len() - i,
    {
        if cs[i] == x {
            return true;
        }
        i += 1;
    }
    false
}

impl<'a> TextDeserializer<'a> {
    pub fn new(input: &'a [u8]) -> (r: Self)
        ensures
            r@ == input@,
    {
        TextDeserializer { input }
    }

    /// True once every byte has been consumed.
    pub fn ended(&self) -> (r: bool)
        ensures
            r == (self@.len() == 0),
    {
        self.input.len() == 0
    }

    /// Returns the byte under cursor without consuming it
    pub fn peek_byte(&self) -> (r: Result<u8, Error>)
        ensures
            match r {
                Ok(v) => self@.len() > 0 && v == self@[0],
                Err(e) => self@.len() == 0 && e is EofError,
            },
    {
        if self.input.len() > 0 {
            Ok(self.input[0])
        } else {
            Err(Error::EofError)
        }
    }

    /// Consumes next `len` bytes from input and return it
    pub fn next_exact_bytes(&mut self, len: usize) -> (r: Result<&'a [u8], Error>)
        ensures
            match r {
                Ok(s) => len <= old(self)@.len() && s@ == old(self)@.take(len as int) && final(self)@ == old(self)@.skip(len as int),
                Err(e) => len > old(self)@.len() && e is EofError && final(self)@ == old(self)@,
            },
    {
        let cur: &'a [u8] = self.input;
        if len > cur.len() {
            Err(Error::EofError)
        } else {
            let slce = slice_subrange(cur, 0, len);
            self.input = slice_subrange(cur, len, cur.len());
            Ok(slce)
        }
    }

    /// Consumes until one of `candidate_chars` occurs in input and returns
    /// the visited bytes
    pub fn pop_until(&mut self, candidate_chars: &[u8]) -> (r: Result<&'a [u8], Error>)
        ensures
            r matches Ok(s) && s@ == old(self)@.take(first_stop(old(self)@, candidate_chars@))
                && final(self)@ == old(self)@.skip(first_stop(old(self)@, candidate_chars@)),
    {
        let cur: &'a [u8] = self.input;
        let mut len: usize = 0;
        while len < cur.len()
            invariant
                0 <= len <= cur@.len(),
                forall|j: int| 0 <= j < len ==> !candidate_chars@.contains(#[trigger] cur@[j]),
            ensures
                0 <= len <= cur@.len(),
                forall|j: int| 0 <= j < len ==> !candidate_chars@.contains(#[trigger] cur@[j]),
                len < cur@.len() ==> candidate_chars@.contains(cur@[len as int]),
            decreases cur@.len() - len,
        {
            if contains_byte(candidate_chars, cur[len]) {
                break;
            }
            len += 1;
        }
        proof {
            lemma_first_stop(cur@, candidate_chars@, len as int);
        }
        let slce = slice_subrange(cur, 0, len);
        self.input = slice_subrange(cur, len, cur.len());
        Ok(slce)
    }

    /// Load next word; words are delimited by space or newline characters
    pub fn next_word(&mut self) -> (r: Result<String, Error>)
        ensures
            match txt_word(old(self)@) {
                Ok((w, rest)) => r matches Ok(s) && s@ == w && final(self)@ == rest,
                Err(issue) => r matches Err(e) && data_issue_error(issue, e) && final(self)@
                    == old(self)@.skip(first_stop(old(self)@, word_delims())),
            },
    {
        let delims: [u8; 2] = [32u8, 10u8];
        proof {
            assert(delims@ =~= word_delims());
        }
        let token = match self.pop_until(delims.as_slice()) {
            Ok(t) => t,
            Err(e) => {
                return Err(e);
            },
        };
        match utf8_to_string(token) {
            Some(s) => Ok(s),
            None => Err(Error::Message("word bytes are not valid UTF-8".to_owned())),
        }
    }

    /// Load next sentence: a first word, then words each led by a single
    /// space; a newline or the end of input ends the sentence.
    pub fn next_sentence(&mut self) -> (r: Result<Sentence, Error>)
        ensures
            match txt_sentence(old(self)@) {
                Ok((s, rest)) => r matches Ok(sentence) && sentence.deep_view() == s && final(self)@ == rest,
                Err(issue) => r matches Err(e) && data_issue_error(issue, e),
            },
    {
        let mut words: Vec<Word> = Vec::new();
        if self.ended() {
            assert(words.deep_view() =~= Seq::<Seq<char>>::empty());
            return Ok(Sentence(words));
        }
        match self.next_word() {
            Ok(w) => {
                words.push(Word(w));
                proof {
                    let (w0, r0) = txt_word(old(self)@)->Ok_0;
                    assert(words.deep_view() =~= seq![w0]);
                    match txt_rest(r0) {
                        Ok((ws, r2)) => {
                            assert(seq![w0] + ws =~= words.deep_view() + ws);
                        },
                        Err(_) => (),
                    }
                }
            },
            Err(e) => {
                return Err(e);
            },
        }
        loop
            invariant
                with_words(words.deep_view(), txt_rest(self@)) == txt_sentence(old(self)@),
            decreases self@.len(),
        {
            if self.ended() {
                assert(words.deep_view() + Seq::<Seq<char>>::empty() =~= words.deep_view());
                return Ok(Sentence(words));
            }
            let ghost pre = self@;
            let c = match self.next_exact_bytes(1) {
                Ok(b) => b[0],
                Err(e) => {
                    return Err(e);
                },
            };
            assert(c == pre[0]) by {
                assert(pre.take(1)[0] == pre[0]);
            }
            if c != 32u8 {
                assert(self@ =~= pre.skip(1));
                assert(words.deep_view() + Seq::<Seq<char>>::empty() =~= words.deep_view());
                return Ok(Sentence(words));
            }
            assert(self@ =~= pre.skip(1));
            let ghost acc_pre = words.deep_view();
            let ghost b2 = pre.skip(1);
            match self.next_word() {
                Ok(w) => {
                    words.push(Word(w));
                    proof {
                        let (wv, r) = txt_word(b2)->Ok_0;
                        assert(words.deep_view() =~= acc_pre + seq![wv]);
                        match txt_rest(r) {
                            Ok((ws, r2)) => {
                                assert(acc_pre + (seq![wv] + ws) =~= words.deep_view() + ws);
                            },
                            Err(_) => (),
                        }
                        lemma_first_stop_bound(b2, word_delims());
                    }
                },
                Err(e) => {
                    return Err(e);
                },
            }
            proof {
                lemma_first_stop_bound(b2, word_delims());
            }
        }
    }
}

} // verus!
