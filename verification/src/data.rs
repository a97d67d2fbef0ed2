use vstd::prelude::*;

use crate::data_bytes::{FORMAT_VERSION_V2, MAGIC};
use vstd::string::StringExecFns;

verus! {

/// A single typed token. The wire format stores it as UTF-8 bytes, so it is
/// held as a `String`.
#[derive(Clone, Debug, Default, PartialEq)]
pub struct Word(pub String);

impl View for Word {
    type V = Seq<char>;

    open spec fn view(&self) -> Seq<char> {
        self.0@
    }
}

impl DeepView for Word {
    type V = Seq<char>;

    open spec fn deep_view(&self) -> Seq<char> {
        self.0@
    }
}

impl Word {
    /// Checks if this word is an empty string
    pub fn is_empty(&self) -> (r: bool)
        ensures
            r == (self@.len() == 0),
    {
        self.0.as_str().is_empty()
    }

    /// A copy whose characters are the same.
    pub fn duplicate(&self) -> (r: Word)
        ensures
            r == *self,
    {
        Word(self.0.clone())
    }
}

/// An ordered sequence of words, in typed order.
#[derive(Clone, Debug, Default, PartialEq)]
pub struct Sentence(pub Vec<Word>);

/// True when every word of the sentence (viewed as a word sequence) is empty.
pub open spec fn spec_sentence_is_empty(s: Seq<Seq<char>>) -> bool {
    forall|i: int| 0 <= i < s.len() ==> s[i].len() == 0
}

impl DeepView for Sentence {
    type V = Seq<Seq<char>>;

    open spec fn deep_view(&self) -> Seq<Seq<char>> {
        self.0.deep_view()
    }
}

impl Sentence {
    /// Checks if all words inside this sentence are empty words
    pub fn is_empty(&self) -> (r: bool)
        ensures
            r == spec_sentence_is_empty(self.deep_view()),
    {
        let mut i: usize = 0;
        while i < self.0.len()
            invariant
                0 <= i <= self.0.len(),
                forall|j: int| 0 <= j < i ==> self.deep_view()[j].len() == 0,
            decreases self.0.len() - i,
        {
            assert(self.deep_view()[i as int] == self.0[i as int]@);
            if !self.0[i].is_empty() {
                return false;
            }
            i += 1;
        }
        true
    }

    /// A copy holding the same word values.
    pub fn duplicate(&self) -> (r: Sentence)
        ensures
            r.0@ == self.0@,
            r.deep_view() == self.deep_view(),
    {
        let mut ws: Vec<Word> = Vec::new();
        let mut i: usize = 0;
        while i < self.0.len()
            invariant
                0 <= i <= self.0.len(),
                ws@ =~= self.0@.take(i as int),
            decreases self.0.len() - i,
        {
            ws.push(self.0[i].duplicate());
            i += 1;
        }
        assert(ws@ =~= self.0@);
        let r = Sentence(ws);
        assert(r.deep_view() =~= self.deep_view());
        r
    }
}

/// An ordered sequence of sentences; in memory the newest sentence comes
/// first, while the wire format stores the oldest first.
#[derive(Clone, Debug, Default, PartialEq)]
pub struct Pool(pub Vec<Sentence>);

impl DeepView for Pool {
    type V = Seq<Seq<Seq<char>>>;

    open spec fn deep_view(&self) -> Seq<Seq<Seq<char>>> {
        self.0.deep_view()
    }
}

impl Pool {
    /// A copy holding, sentence for sentence, the same word values.
    pub fn duplicate(&self) -> (r: Pool)
        ensures
            r.0@.len() == self.0@.len(),
            forall|j: int| 0 <= j < self.0@.len() ==> #[trigger] r.0@[j].0@ == self.0@[j].0@,
            r.deep_view() == self.deep_view(),
    {
        let mut ss: Vec<Sentence> = Vec::new();
        let mut i: usize = 0;
        while i < self.0.len()
            invariant
                0 <= i <= self.0.len(),
                ss@.len() == i,
                forall|j: int| 0 <= j < i ==> #[trigger] ss@[j].0@ == self.0@[j].0@,
            decreases self.0.len() - i,
        {
            ss.push(self.0[i].duplicate());
            i += 1;
        }
        let r = Pool(ss);
        assert(r.deep_view() =~~= self.deep_view());
        r
    }
}

/// The full record: file magic, format version, and the retention pools.
#[derive(Clone, Debug, PartialEq)]
pub struct History {
    pub magic: u32,
    pub format_version: u32,
    pub pools: Vec<Pool>,
}

/// All sentences of a history: its pools' sentence sequences concatenated in
/// pool order, each pool's sentences kept in their newest-first order.
pub open spec fn spec_flat_sentences(pools: Seq<Pool>) -> Seq<Sentence>
    decreases pools.len(),
{
    if pools.len() == 0 {
        Seq::empty()
    } else {
        pools[0].0@ + spec_flat_sentences(pools.drop_first())
    }
}

impl History {
    /// A fresh history around the given pools, tagged with the magic constant
    /// and the currently supported write version.
    pub fn new(pools: Vec<Pool>) -> (r: History)
        ensures
            r.magic == MAGIC,
            r.format_version == FORMAT_VERSION_V2,
            r.pools == pools,
    {
        History { magic: MAGIC, format_version: FORMAT_VERSION_V2, pools }
    }

    /// Collects all sentences into one array.
    pub fn get_sentences(&self) -> (r: Vec<Sentence>)
        ensures
            r@.len() == spec_flat_sentences(self.pools@).len(),
            forall|i: int|
                0 <= i < r@.len() ==> #[trigger] r@[i].0@ == spec_flat_sentences(
                    self.pools@,
                )[i].0@,
    {
        let mut ret: Vec<Sentence> = Vec::new();
        let mut i: usize = 0;
        while i < self.pools.len()
            invariant
                0 <= i <= self.pools.len(),
                ret@.len() == spec_flat_sentences(self.pools@.take(i as int)).len(),
                forall|j: int|
                    0 <= j < ret@.len() ==> #[trigger] ret@[j].0@ == spec_flat_sentences(
                        self.pools@.take(i as int),
                    )[j].0@,
            decreases self.pools.len() - i,
        {
            let p = self.pools[i].duplicate();
            let mut ps = p.0;
            proof {
                lemma_flat_sentences_snoc(self.pools@, i as int);
            }
            ret.append(&mut ps);
            i += 1;
        }
        proof {
            assert(self.pools@.take(self.pools@.len() as int) =~= self.pools@);
        }
        ret
    }
}

/// Pieces joined by a single separator between neighbours.
pub open spec fn spec_join(parts: Seq<Seq<char>>, sep: char) -> Seq<char>
    decreases parts.len(),
{
    if parts.len() == 0 {
        Seq::empty()
    } else if parts.len() == 1 {
        parts[0]
    } else {
        parts[0] + seq![sep] + spec_join(parts.drop_first(), sep)
    }
}

/// Joining one piece more appends a separator (unless nothing came before)
/// and the piece.
pub proof fn lemma_spec_join_snoc(parts: Seq<Seq<char>>, x: Seq<char>, sep: char)
    ensures
        spec_join(parts.push(x), sep) == if parts.len() == 0 {
            x
        } else {
            spec_join(parts, sep) + seq![sep] + x
        },
    decreases parts.len(),
{
    if parts.len() == 0 {
        assert(parts.push(x)[0] == x);
    } else {
        lemma_spec_join_snoc(parts.drop_first(), x, sep);
        assert(parts.push(x).drop_first() =~= parts.drop_first().push(x));
        assert(parts.push(x)[0] == parts[0]);
        if parts.len() == 1 {
            assert(parts.drop_first() =~= Seq::<Seq<char>>::empty());
            assert(spec_join(parts.push(x), sep) =~= spec_join(parts, sep) + seq![sep] + x);
        } else {
            assert(spec_join(parts.push(x), sep) =~= spec_join(parts, sep) + seq![sep] + x);
        }
    }
}

/// A word sequence as text: the nonempty words, space separated.
pub open spec fn render_sentence(s: Seq<Seq<char>>) -> Seq<char> {
    spec_join(s.filter(|w: Seq<char>| w.len() > 0), ' ')
}

/// A sentence sequence as text: the nonempty sentence renderings, one line
/// each.
pub open spec fn render_pool(p: Seq<Seq<Seq<char>>>) -> Seq<char> {
    spec_join(
        p.map_values(|s: Seq<Seq<char>>| render_sentence(s)).filter(
            |t: Seq<char>| t.len() > 0,
        ),
        '\n',
    )
}

/// A whole history as text: the nonempty pool renderings, blank-line free.
pub open spec fn render_history(ps: Seq<Seq<Seq<Seq<char>>>>) -> Seq<char> {
    spec_join(
        ps.map_values(|p: Seq<Seq<Seq<char>>>| render_pool(p)).filter(
            |t: Seq<char>| t.len() > 0,
        ),
        '\n',
    )
}

impl Sentence {
    /// This sentence as text: its nonempty words, space separated.
    pub fn to_text(&self) -> (r: String)
        ensures
            r@ == render_sentence(self.deep_view()),
    {
        let ghost sv = self.deep_view();
        let mut r = String::new();
        let mut started = false;
        let mut i: usize = 0;
        while i < self.0.len()
            invariant
                0 <= i <= self.0.len(),
                sv == self.deep_view(),
                sv.len() == self.0.len(),
                r@ =~= spec_join(sv.take(i as int).filter(|w: Seq<char>| w.len() > 0), ' '),
                started == (sv.take(i as int).filter(|w: Seq<char>| w.len() > 0).len() > 0),
            decreases self.0.len() - i,
        {
            let ghost pre = sv.take(i as int).filter(|w: Seq<char>| w.len() > 0);
            assert(sv[i as int] == self.0[i as int]@);
            if !self.0[i].is_empty() {
                if started {
                    r.append(" ");
                    proof {
                        reveal_strlit(" ");
                        assert(" "@ =~= seq![' ']);
                    }
                }
                r.append(self.0[i].0.as_str());
                started = true;
                proof {
                    lemma_spec_join_snoc(pre, sv[i as int], ' ');
                }
            }
            proof {
                reveal(Seq::filter);
                assert(sv.take(i + 1).drop_last() =~= sv.take(i as int));
                assert(sv.take(i + 1).last() == sv[i as int]);
            }
            i += 1;
        }
        assert(sv.take(sv.len() as int) =~= sv);
        r
    }
}

impl Pool {
    /// This pool as text: its nonempty sentences, one line each.
    pub fn to_text(&self) -> (r: String)
        ensures
            r@ == render_pool(self.deep_view()),
    {
        let ghost pv = self.deep_view();
        let ghost rendered = pv.map_values(|s: Seq<Seq<char>>| render_sentence(s));
        let mut r = String::new();
        let mut started = false;
        let mut i: usize = 0;
        while i < self.0.len()
            invariant
                0 <= i <= self.0.len(),
                pv == self.deep_view(),
                rendered == pv.map_values(|s: Seq<Seq<char>>| render_sentence(s)),
                pv.len() == self.0.len(),
                rendered.len() == pv.len(),
                r@ =~= spec_join(
                    rendered.take(i as int).filter(|t: Seq<char>| t.len() > 0),
                    '\n',
                ),
                started == (rendered.take(i as int).filter(|t: Seq<char>| t.len() > 0).len()
                    > 0),
            decreases self.0.len() - i,
        {
            let ghost pre = rendered.take(i as int).filter(|t: Seq<char>| t.len() > 0);
            let line = self.0[i].to_text();
            assert(line@ == rendered[i as int]);
            if !line.as_str().is_empty() {
                if started {
                    r.append("\n");
                    proof {
                        reveal_strlit("\n");
                        assert("\n"@ =~= seq!['\n']);
                    }
                }
                r.append(line.as_str());
                started = true;
                proof {
                    lemma_spec_join_snoc(pre, rendered[i as int], '\n');
                }
            }
            proof {
                reveal(Seq::filter);
                assert(rendered.take(i + 1).drop_last() =~= rendered.take(i as int));
                assert(rendered.take(i + 1).last() == rendered[i as int]);
            }
            i += 1;
        }
        assert(rendered.take(rendered.len() as int) =~= rendered);
        r
    }
}

impl History {
    /// This history as text: its nonempty pools, newline separated.
    pub fn to_text(&self) -> (r: String)
        ensures
            r@ == render_history(self.pools.deep_view()),
    {
        let ghost hv = self.pools.deep_view();
        let ghost rendered = hv.map_values(|p: Seq<Seq<Seq<char>>>| render_pool(p));
        let mut r = String::new();
        let mut started = false;
        let mut i: usize = 0;
        while i < self.pools.len()
            invariant
                0 <= i <= self.pools.len(),
                hv == self.pools.deep_view(),
                rendered == hv.map_values(|p: Seq<Seq<Seq<char>>>| render_pool(p)),
                hv.len() == self.pools.len(),
                rendered.len() == hv.len(),
                r@ =~= spec_join(
                    rendered.take(i as int).filter(|t: Seq<char>| t.len() > 0),
                    '\n',
                ),
                started == (rendered.take(i as int).filter(|t: Seq<char>| t.len() > 0).len()
                    > 0),
            decreases self.pools.len() - i,
        {
            let ghost pre = rendered.take(i as int).filter(|t: Seq<char>| t.len() > 0);
            let block = self.pools[i].to_text();
            assert(block@ == rendered[i as int]);
            if !block.as_str().is_empty() {
                if started {
                    r.append("\n");
                    proof {
                        reveal_strlit("\n");
                        assert("\n"@ =~= seq!['\n']);
                    }
                }
                r.append(block.as_str());
                started = true;
                proof {
                    lemma_spec_join_snoc(pre, rendered[i as int], '\n');
                }
            }
            proof {
                reveal(Seq::filter);
                assert(rendered.take(i + 1).drop_last() =~= rendered.take(i as int));
                assert(rendered.take(i + 1).last() == rendered[i as int]);
            }
            i += 1;
        }
        assert(rendered.take(rendered.len() as int) =~= rendered);
        r
    }
}

/// Takes a history apart into its flattened sentence sequence, handing the
/// very sentence values over instead of copying them.
pub fn into_sentences(h: History) -> (r: Vec<Sentence>)
    ensures
        r@ == spec_flat_sentences(h.pools@),
{
    let ghost pv = h.pools@;
    let mut pools = h.pools;
    let mut ret: Vec<Sentence> = Vec::new();
    let mut i: usize = 0;
    let n0 = pools.len();
    proof {
        assert(pv.len() == n0);
        assert(pv.skip(0) =~= pv);
        assert(spec_flat_sentences(pv.take(0)) =~= Seq::<Sentence>::empty());
    }
    while pools.len() > 0
        invariant
            pv.len() <= usize::MAX,
            i + pools@.len() == pv.len(),
            pools@ =~= pv.skip(i as int),
            ret@ =~= spec_flat_sentences(pv.take(i as int)),
        decreases pools@.len(),
    {
        let p = pools.remove(0);
        assert(p == pv[i as int]);
        let mut ps = p.0;
        proof {
            lemma_flat_sentences_snoc(pv, i as int);
        }
        ret.append(&mut ps);
        proof {
            assert(pools@ =~= pv.skip(i + 1));
        }
        i += 1;
    }
    proof {
        assert(pv.take(pv.len() as int) =~= pv);
    }
    ret
}

/// Flattening one pool more appends that pool's sentences at the end.
pub proof fn lemma_flat_sentences_snoc(pools: Seq<Pool>, i: int)
    requires
        0 <= i < pools.len(),
    ensures
        spec_flat_sentences(pools.take(i + 1)) == spec_flat_sentences(pools.take(i)) + pools[i].0@,
    decreases i,
{
    if i == 0 {
        assert(pools.take(1).drop_first() =~= Seq::<Pool>::empty());
        assert(pools.take(1)[0] == pools[0]);
        assert(spec_flat_sentences(Seq::<Pool>::empty()) =~= Seq::<Sentence>::empty());
        assert(spec_flat_sentences(pools.take(1)) =~= pools[0].0@);
        assert(spec_flat_sentences(pools.take(0)) =~= Seq::<Sentence>::empty());
    } else {
        lemma_flat_sentences_snoc(pools.drop_first(), i - 1);
        assert(pools.take(i + 1).drop_first() =~= pools.drop_first().take(i));
        assert(pools.take(i).drop_first() =~= pools.drop_first().take(i - 1));
        assert(pools.drop_first()[i - 1] == pools[i]);
        assert(spec_flat_sentences(pools.take(i + 1)) == pools[0].0@ + spec_flat_sentences(
            pools.drop_first().take(i),
        ));
        assert(spec_flat_sentences(pools.take(i + 1)) =~= spec_flat_sentences(pools.take(i))
            + pools[i].0@);
    }
}

} // verus!
