use vstd::prelude::*;

use crate::data::{spec_sentence_is_empty, History, Pool, Sentence};
use crate::data_bytes::{FORMAT_VERSION_V2, MAGIC};
use crate::de_bytes::data_issue_error;
use crate::de_text::{
    lemma_txt_consumes, lemma_txt_sentences_fuel, txt_sentence, txt_sentences, TextDeserializer,
};
use crate::error::Error;
use crate::format::DecodeIssue;

verus! {

/// The sentences that survive loading: those with at least one nonempty word.
pub open spec fn spec_kept_sentences(ss: Seq<Seq<Seq<char>>>) -> Seq<Seq<Seq<char>>> {
    ss.filter(|s: Seq<Seq<char>>| !spec_sentence_is_empty(s))
}

impl History {
    /// Load a history object from a newline-separated text buffer. Each line
    /// should be a space-separated collection of words. Sentences whose
    /// words are all empty are dropped; the result is a single-pool history
    /// tagged with the currently supported write version.
    pub fn load_from_text(content: &[u8]) -> (r: Result<History, Error>)
        ensures
            match txt_sentences(content@) {
                Ok(ss) => r matches Ok(h) && h.magic == MAGIC && h.format_version
                    == FORMAT_VERSION_V2 && h.pools@.len() == 3 && h.pools@[0].deep_view()
                    == spec_kept_sentences(ss) && h.pools@[1].0@.len() == 0 && h.pools@[2].0@.len()
                    == 0,
                Err(issue) => r matches Err(e) && data_issue_error(issue, e),
            },
    {
        let mut de = TextDeserializer::new(content);
        let ghost b0 = de@;
        let mut sentences: Vec<Sentence> = Vec::new();
        while !de.ended()
            invariant
                b0 == content@,
                match txt_sentences(de@) {
                    Ok(ss) => txt_sentences(b0) == Ok::<_, DecodeIssue>(
                        sentences.deep_view() + ss,
                    ),
                    Err(e) => txt_sentences(b0) == Err::<Seq<Seq<Seq<char>>>, _>(e),
                },
            decreases de@.len(),
        {
            let ghost pre = de@;
            proof {
                lemma_txt_consumes(pre);
            }
            match de.next_sentence() {
                Ok(s) => {
                    proof {
                        let (sv, rest) = txt_sentence(pre)->Ok_0;
                        lemma_txt_sentences_fuel(rest, (pre.len() - 1) as nat);
                        match txt_sentences(rest) {
                            Ok(ss2) => {
                                assert(sentences.deep_view() + (seq![sv] + ss2)
                                    =~= sentences.deep_view() + seq![sv] + ss2);
                            },
                            Err(_) => (),
                        }
                    }
                    let ghost prev = sentences.deep_view();
                    sentences.push(s);
                    proof {
                        let (sv, rest) = txt_sentence(pre)->Ok_0;
                        assert(sentences.deep_view() =~= prev + seq![sv]);
                    }
                },
                Err(e) => {
                    return Err(e);
                },
            }
        }
        proof {
            assert(txt_sentences(de@) == Ok::<_, DecodeIssue>(Seq::<Seq<Seq<char>>>::empty()));
            assert(sentences.deep_view() + Seq::<Seq<Seq<char>>>::empty()
                =~= sentences.deep_view());
        }
        // Drop the sentences whose words are all empty.
        let ghost all = sentences.deep_view();
        let mut kept: Vec<Sentence> = Vec::new();
        proof {
            reveal(Seq::filter);
            assert(all.take(0) =~= Seq::<Seq<Seq<char>>>::empty());
        }
        let mut i: usize = 0;
        while i < sentences.len()
            invariant
                0 <= i <= sentences.len(),
                all == sentences.deep_view(),
                all.len() == sentences.len(),
                kept.deep_view() =~= spec_kept_sentences(all.take(i as int)),
            decreases sentences.len() - i,
        {
            let ghost prev_kept = kept.deep_view();
            assert(sentences[i as int].deep_view() == all[i as int]);
            if !sentences[i].is_empty() {
                kept.push(sentences[i].duplicate());
                proof {
                    assert(kept.deep_view() =~= prev_kept.push(all[i as int]));
                }
            }
            proof {
                reveal(Seq::filter);
                assert(all.take(i + 1).drop_last() =~= all.take(i as int));
                assert(all.take(i + 1).last() == all[i as int]);
            }
            i += 1;
        }
        assert(all.take(all.len() as int) =~= all);
        let mut pools: Vec<Pool> = Vec::new();
        pools.push(Pool(kept));
        pools.push(Pool(Vec::new()));
        pools.push(Pool(Vec::new()));
        Ok(History::new(pools))
    }

    /// Load a history from bytes that may hold either representation: the
    /// binary format is tried first, then the plain-text format; only when
    /// both fail is a combined error reported.
    pub fn load(content: &[u8]) -> (r: Result<History, Error>)
        ensures
            match crate::data_bytes::dec_history(content@) {
                Ok((m, v, ps)) => r matches Ok(h) && h.magic == m && h.format_version == v
                    && h.pools.deep_view() == ps,
                Err(_) => match txt_sentences(content@) {
                    Ok(ss) => r matches Ok(h) && h.magic == MAGIC && h.format_version
                        == FORMAT_VERSION_V2 && h.pools@.len() == 3 && h.pools@[0].deep_view()
                        == spec_kept_sentences(ss) && h.pools@[1].0@.len() == 0
                        && h.pools@[2].0@.len() == 0,
                    Err(_) => r matches Err(e) && (e matches Error::DeserializeError(m) && m@
                        == "Could not load history, tried binary and plain text"@),
                },
            },
    {
        match History::load_from_bytes(content) {
            Ok(h) => Ok(h),
            Err(_) => match History::load_from_text(content) {
                Ok(h) => Ok(h),
                Err(_) => Err(
                    Error::DeserializeError(
                        "Could not load history, tried binary and plain text".to_owned(),
                    ),
                ),
            },
        }
    }
}

} // verus!
