use vstd::prelude::*;

use crate::data::{spec_flat_sentences, History, Pool, Sentence};
use crate::data_bytes::{FORMAT_VERSION_V2, MAGIC};
use crate::error::Error;
use crate::utils::{gcd, lemma_gcd_bound, lemma_gcd_divides, spec_gcd, spec_split_vec};
use vstd::math::min;

verus! {

/// One merge source: a flattened history and its relative weight.
pub struct WeightedHistory {
    pub sentences: Vec<Sentence>,
    pub weight: u8,
}

/// The mathematical content of a source: its weight and sentence sequence.
pub open spec fn wh_model(wh: WeightedHistory) -> (u8, Seq<Sentence>) {
    (wh.weight, wh.sentences@)
}

impl WeightedHistory {
    /// Draws up to `size` sentences off the front of this source.
    pub fn next_exact(&mut self, size: usize) -> (r: Vec<Sentence>)
        ensures
            r@ == old(self).sentences@.take(min(size as int, old(self).sentences@.len() as int)),
            final(self).sentences@ == old(self).sentences@.skip(
                min(size as int, old(self).sentences@.len() as int),
            ),
            final(self).weight == old(self).weight,
    {
        let ghost orig = self.sentences@;
        let n = if size <= self.sentences.len() {
            size
        } else {
            self.sentences.len()
        };
        let mut r: Vec<Sentence> = Vec::new();
        let mut i: usize = 0;
        while i < n
            invariant
                0 <= i <= n <= orig.len(),
                r@ =~= orig.take(i as int),
                self.sentences@ =~= orig.skip(i as int),
                self.weight == old(self).weight,
            decreases n - i,
        {
            let s = self.sentences.remove(0);
            assert(s == orig[i as int]);
            r.push(s);
            proof {
                assert(self.sentences@ =~= orig.skip(i + 1));
            }
            i += 1;
        }
        r
    }
}

// ------------------------------------------------------------------
// The mixing algorithm as a mathematical function
// ------------------------------------------------------------------
/// The moving state of the mix: what is left of each source, and the output
/// built so far.
pub struct MixState {
    pub srcs: Seq<Seq<Sentence>>,
    pub out: Seq<Sentence>,
}

/// How many sentences a draw takes: the requested amount, capped by what the
/// source still holds and by the room left under the target size.
pub open spec fn take_amount(k: nat, avail: nat, out_len: nat, target: nat) -> nat {
    let cap = if out_len >= target {
        0
    } else {
        (target - out_len) as nat
    };
    if k <= avail && k <= cap {
        k
    } else if avail <= cap {
        avail
    } else {
        cap
    }
}

/// Moves the drawn sentences from the front of source `i` to the output.
pub open spec fn draw(st: MixState, i: int, k: nat, target: nat) -> MixState {
    let t = take_amount(k, st.srcs[i].len(), st.out.len(), target) as int;
    MixState {
        srcs: st.srcs.update(i, st.srcs[i].skip(t)),
        out: st.out + st.srcs[i].take(t),
    }
}

/// What source `i` is asked for in a pass: its partition value's remainder
/// or quotient by the smallest partition value.
pub open spec fn pass_amount(parts: Seq<u8>, m: u8, quotient: bool, i: int) -> nat {
    if quotient {
        (parts[i] / m) as nat
    } else {
        (parts[i] % m) as nat
    }
}

/// One pass over the sources `0..i`, drawing from each in order.
pub open spec fn run_pass(
    st: MixState,
    parts: Seq<u8>,
    m: u8,
    quotient: bool,
    target: nat,
    i: int,
) -> MixState
    decreases i,
{
    if i <= 0 {
        st
    } else {
        draw(
            run_pass(st, parts, m, quotient, target, i - 1),
            i - 1,
            pass_amount(parts, m, quotient, i - 1),
            target,
        )
    }
}

/// `reps` quotient passes in a row.
pub open spec fn run_quotient(
    st: MixState,
    parts: Seq<u8>,
    m: u8,
    target: nat,
    reps: nat,
) -> MixState
    decreases reps,
{
    if reps == 0 {
        st
    } else {
        run_quotient(
            run_pass(st, parts, m, true, target, parts.len() as int),
            parts,
            m,
            target,
            (reps - 1) as nat,
        )
    }
}

/// One full cycle: a remainder pass, then the smallest partition value many
/// quotient passes. Over one full cycle each source contributes exactly its
/// partition value, while supplies and room last.
pub open spec fn run_cycle(st: MixState, parts: Seq<u8>, m: u8, target: nat) -> MixState {
    run_quotient(
        run_pass(st, parts, m, false, target, parts.len() as int),
        parts,
        m,
        target,
        m as nat,
    )
}

/// True once every source is used up.
pub open spec fn all_drained(srcs: Seq<Seq<Sentence>>) -> bool {
    forall|i: int| 0 <= i < srcs.len() ==> srcs[i].len() == 0
}

/// How many sentences are left over all sources together.
pub open spec fn src_total(srcs: Seq<Seq<Sentence>>) -> nat
    decreases srcs.len(),
{
    if srcs.len() == 0 {
        0
    } else {
        srcs[0].len() + src_total(srcs.drop_first())
    }
}

/// Cycles until the output reaches the target size or every source is used
/// up; `fuel` only bounds the recursion and is irrelevant once it is at
/// least the number of sentences left.
pub open spec fn mix_loop(st: MixState, parts: Seq<u8>, m: u8, target: nat, fuel: nat) -> Seq<
    Sentence,
>
    decreases fuel,
{
    if st.out.len() >= target || all_drained(st.srcs) {
        st.out
    } else if fuel == 0 {
        st.out
    } else {
        mix_loop(run_cycle(st, parts, m, target), parts, m, target, (fuel - 1) as nat)
    }
}

/// The gcd of the first `i` weights, folded left as the sources stand.
pub open spec fn fold_gcd_upto(ws: Seq<u8>, i: int) -> nat
    decreases i,
{
    if i <= 1 {
        ws[0] as nat
    } else {
        gcd2(fold_gcd_upto(ws, i - 1), ws[i - 1] as nat)
    }
}

/// The gcd of two weights, larger argument first.
pub open spec fn gcd2(a: nat, b: nat) -> nat {
    if a >= b {
        spec_gcd(a, b)
    } else {
        spec_gcd(b, a)
    }
}

/// The partition vector: every weight divided by the gcd of all of them,
/// the smallest integer vector with the weights' proportions.
pub open spec fn spec_partition(ws: Seq<u8>) -> Seq<u8> {
    Seq::new(ws.len(), |i: int| (((ws[i] as nat) / fold_gcd_upto(ws, ws.len() as int)) as u8))
}

/// The smallest of the first `i` partition values.
pub open spec fn min_part_upto(parts: Seq<u8>, i: int) -> u8
    decreases i,
{
    if i <= 1 {
        parts[0]
    } else {
        let p = min_part_upto(parts, i - 1);
        if parts[i - 1] < p {
            parts[i - 1]
        } else {
            p
        }
    }
}

/// What mixing returns: nothing for no sources; a plain truncation for a
/// single source; otherwise the two-phase weighted interleave.
pub open spec fn mix_sentences_spec(srcs: Seq<Seq<Sentence>>, ws: Seq<u8>, target: nat) -> Seq<
    Sentence,
>
    recommends
        srcs.len() == ws.len(),
{
    if srcs.len() == 0 {
        Seq::empty()
    } else if srcs.len() == 1 {
        srcs[0].take(min(target as int, srcs[0].len() as int))
    } else {
        let parts = spec_partition(ws);
        let m = min_part_upto(parts, parts.len() as int);
        mix_loop(
            MixState { srcs, out: Seq::empty() },
            parts,
            m,
            target,
            src_total(srcs) + 1,
        )
    }
}

// ------------------------------------------------------------------
// Facts about the mixing state machine
// ------------------------------------------------------------------
/// Replacing one source changes the total by that source's length change.
pub proof fn lemma_src_total_update(srcs: Seq<Seq<Sentence>>, i: int, s: Seq<Sentence>)
    requires
        0 <= i < srcs.len(),
    ensures
        src_total(srcs.update(i, s)) + srcs[i].len() == src_total(srcs) + s.len(),
    decreases srcs.len(),
{
    if i == 0 {
        assert(srcs.update(0, s).drop_first() =~= srcs.drop_first());
    } else {
        lemma_src_total_update(srcs.drop_first(), i - 1, s);
        assert(srcs.update(i, s).drop_first() =~= srcs.drop_first().update(i - 1, s));
    }
}

/// A drained set of sources has nothing left in total, and conversely.
pub proof fn lemma_src_total_drained(srcs: Seq<Seq<Sentence>>)
    ensures
        all_drained(srcs) <==> src_total(srcs) == 0,
    decreases srcs.len(),
{
    if srcs.len() > 0 {
        lemma_src_total_drained(srcs.drop_first());
        if src_total(srcs) == 0 {
            assert(forall|i: int|
                0 <= i < srcs.len() ==> srcs[i].len() == 0) by {
                assert(forall|i: int|
                    1 <= i < srcs.len() ==> srcs[i] == srcs.drop_first()[i - 1]);
            }
        }
        if all_drained(srcs) {
            assert(all_drained(srcs.drop_first())) by {
                assert(forall|i: int|
                    0 <= i < srcs.drop_first().len() ==> srcs.drop_first()[i] == srcs[i + 1]);
            }
        }
    }
}

/// Being a prefix is transitive.
pub proof fn lemma_prefix_trans(a: Seq<Sentence>, b: Seq<Sentence>, c: Seq<Sentence>)
    requires
        a.is_prefix_of(b),
        b.is_prefix_of(c),
    ensures
        a.is_prefix_of(c),
{
    assert(a =~= c.subrange(0, a.len() as int));
}

/// What one draw does: the output grows by what the source loses, within
/// the target bound; every other source stands untouched.
pub proof fn lemma_draw_props(st: MixState, i: int, k: nat, target: nat)
    requires
        0 <= i < st.srcs.len(),
        st.out.len() <= target,
    ensures
        ({
            let st2 = draw(st, i, k, target);
            &&& st2.srcs.len() == st.srcs.len()
            &&& st2.out.len() >= st.out.len()
            &&& st2.out.len() <= target
            &&& st2.out.len() + src_total(st2.srcs) == st.out.len() + src_total(st.srcs)
            &&& forall|j: int| 0 <= j < st.srcs.len() && j != i ==> st2.srcs[j] == st.srcs[j]
            &&& st2.srcs[i].len() <= st.srcs[i].len()
            &&& st.out.is_prefix_of(st2.out)
            &&& (st2.out.len() == st.out.len() ==> st2.srcs =~= st.srcs && st2.out =~= st.out)
        }),
{
    let t = take_amount(k, st.srcs[i].len(), st.out.len(), target) as int;
    let st2 = draw(st, i, k, target);
    assert(st2.srcs[i] =~= st.srcs[i].skip(t));
    lemma_src_total_update(st.srcs, i, st.srcs[i].skip(t));
    assert(st.out.is_prefix_of(st2.out)) by {
        assert(st2.out.take(st.out.len() as int) =~= st.out);
    }
    if st2.out.len() == st.out.len() {
        assert(t == 0);
        assert(st.srcs[i].skip(0) =~= st.srcs[i]);
        assert(st2.srcs =~= st.srcs);
        assert(st2.out =~= st.out);
    }
}

/// What one pass does, accumulated over the sources it visits.
pub proof fn lemma_pass_props(
    st: MixState,
    parts: Seq<u8>,
    m: u8,
    quotient: bool,
    target: nat,
    i: int,
)
    requires
        st.out.len() <= target,
        0 <= i <= st.srcs.len(),
    ensures
        ({
            let st2 = run_pass(st, parts, m, quotient, target, i);
            &&& st2.srcs.len() == st.srcs.len()
            &&& st2.out.len() >= st.out.len()
            &&& st2.out.len() <= target
            &&& st2.out.len() + src_total(st2.srcs) == st.out.len() + src_total(st.srcs)
            &&& forall|j: int| i <= j < st.srcs.len() ==> st2.srcs[j] == st.srcs[j]
            &&& forall|j: int| 0 <= j < st.srcs.len() ==> st2.srcs[j].len() <= st.srcs[j].len()
            &&& st.out.is_prefix_of(st2.out)
            &&& (st2.out.len() == st.out.len() ==> st2.srcs =~= st.srcs && st2.out =~= st.out)
        }),
    decreases i,
{
    if i > 0 {
        lemma_pass_props(st, parts, m, quotient, target, i - 1);
        let st1 = run_pass(st, parts, m, quotient, target, i - 1);
        lemma_draw_props(st1, i - 1, pass_amount(parts, m, quotient, i - 1), target);
        let st2 = run_pass(st, parts, m, quotient, target, i);
        lemma_prefix_trans(st.out, st1.out, st2.out);
        if st2.out.len() == st.out.len() {
            assert(st1.out.len() == st.out.len());
        }
    }
}

/// What a block of quotient passes does.
pub proof fn lemma_quotient_props(st: MixState, parts: Seq<u8>, m: u8, target: nat, reps: nat)
    requires
        st.out.len() <= target,
        parts.len() == st.srcs.len(),
    ensures
        ({
            let st2 = run_quotient(st, parts, m, target, reps);
            &&& st2.srcs.len() == st.srcs.len()
            &&& st2.out.len() >= st.out.len()
            &&& st2.out.len() <= target
            &&& st2.out.len() + src_total(st2.srcs) == st.out.len() + src_total(st.srcs)
            &&& st.out.is_prefix_of(st2.out)
        }),
    decreases reps,
{
    if reps > 0 {
        lemma_pass_props(st, parts, m, true, target, parts.len() as int);
        let st1 = run_pass(st, parts, m, true, target, parts.len() as int);
        lemma_quotient_props(st1, parts, m, target, (reps - 1) as nat);
        let st2 = run_quotient(st, parts, m, target, reps);
        lemma_prefix_trans(st.out, st1.out, st2.out);
    }
}

/// What one full cycle does.
pub proof fn lemma_cycle_props(st: MixState, parts: Seq<u8>, m: u8, target: nat)
    requires
        st.out.len() <= target,
        parts.len() == st.srcs.len(),
    ensures
        ({
            let st2 = run_cycle(st, parts, m, target);
            &&& st2.srcs.len() == st.srcs.len()
            &&& st2.out.len() >= st.out.len()
            &&& st2.out.len() <= target
            &&& st2.out.len() + src_total(st2.srcs) == st.out.len() + src_total(st.srcs)
            &&& st.out.is_prefix_of(st2.out)
        }),
{
    lemma_pass_props(st, parts, m, false, target, parts.len() as int);
    let st1 = run_pass(st, parts, m, false, target, parts.len() as int);
    lemma_quotient_props(st1, parts, m, target, m as nat);
    let st2 = run_cycle(st, parts, m, target);
    lemma_prefix_trans(st.out, st1.out, st2.out);
}

/// The first source that still holds a sentence.
pub open spec fn first_live(srcs: Seq<Seq<Sentence>>) -> int
    decreases srcs.len(),
{
    if srcs.len() == 0 {
        0
    } else if srcs[0].len() > 0 {
        0
    } else {
        1 + first_live(srcs.drop_first())
    }
}

pub proof fn lemma_first_live(srcs: Seq<Seq<Sentence>>)
    requires
        !all_drained(srcs),
    ensures
        0 <= first_live(srcs) < srcs.len(),
        srcs[first_live(srcs)].len() > 0,
        forall|j: int| 0 <= j < first_live(srcs) ==> srcs[j].len() == 0,
    decreases srcs.len(),
{
    if srcs.len() > 0 && srcs[0].len() == 0 {
        assert(!all_drained(srcs.drop_first())) by {
            let w = choose|i: int| 0 <= i < srcs.len() && srcs[i].len() > 0;
            assert(srcs.drop_first()[w - 1] == srcs[w]);
        }
        lemma_first_live(srcs.drop_first());
        assert(srcs[first_live(srcs)] == srcs.drop_first()[first_live(srcs.drop_first())]);
        assert(forall|j: int|
            1 <= j < first_live(srcs) ==> srcs[j] == srcs.drop_first()[j - 1]);
    }
}

/// A pass over drained sources alone moves nothing.
pub proof fn lemma_pass_noop_prefix(
    st: MixState,
    parts: Seq<u8>,
    m: u8,
    quotient: bool,
    target: nat,
    i: int,
)
    requires
        0 <= i <= st.srcs.len(),
        forall|j: int| 0 <= j < i ==> st.srcs[j].len() == 0,
    ensures
        run_pass(st, parts, m, quotient, target, i) == st,
    decreases i,
{
    if i > 0 {
        lemma_pass_noop_prefix(st, parts, m, quotient, target, i - 1);
        let st2 = draw(st, i - 1, pass_amount(parts, m, quotient, i - 1), target);
        assert(st.srcs[i - 1].skip(0) =~= st.srcs[i - 1]);
        assert(st2.srcs =~= st.srcs);
        assert(st2.out =~= st.out);
    }
}

/// A full quotient pass over live sources takes at least one sentence, as
/// long as there is room: each partition value is at least the smallest one,
/// so each live source is asked for at least one sentence.
pub proof fn lemma_quotient_pass_progress(
    st: MixState,
    parts: Seq<u8>,
    m: u8,
    target: nat,
)
    requires
        st.out.len() < target,
        !all_drained(st.srcs),
        parts.len() == st.srcs.len(),
        m >= 1,
        forall|j: int| 0 <= j < parts.len() ==> parts[j] >= m,
    ensures
        run_pass(st, parts, m, true, target, parts.len() as int).out.len() > st.out.len(),
{
    let n = parts.len() as int;
    let j = first_live(st.srcs);
    lemma_first_live(st.srcs);
    lemma_pass_noop_prefix(st, parts, m, true, target, j);
    let stj = run_pass(st, parts, m, true, target, j);
    assert(stj == st);
    let k = pass_amount(parts, m, true, j);
    assert(k >= 1) by {
        assert(parts[j] as int / m as int >= 1) by (nonlinear_arith)
            requires
                parts[j] >= m >= 1,
        {}
    }
    let stj1 = draw(stj, j, k, target);
    assert(stj1.out.len() > st.out.len()) by {
        let t = take_amount(k, st.srcs[j].len(), st.out.len(), target);
        assert(t >= 1);
        assert(stj1.out.len() == st.out.len() + t);
    }
    assert(run_pass(st, parts, m, true, target, j + 1) == stj1);
    lemma_pass_monotone_from(st, parts, m, true, target, j + 1, n);
}

/// Running a pass further only grows the output.
pub proof fn lemma_pass_monotone_from(
    st: MixState,
    parts: Seq<u8>,
    m: u8,
    quotient: bool,
    target: nat,
    i0: int,
    i: int,
)
    requires
        0 <= i0 <= i,
    ensures
        run_pass(st, parts, m, quotient, target, i).out.len() >= run_pass(
            st,
            parts,
            m,
            quotient,
            target,
            i0,
        ).out.len(),
    decreases i - i0,
{
    if i > i0 {
        lemma_pass_monotone_from(st, parts, m, quotient, target, i0, i - 1);
        let prev = run_pass(st, parts, m, quotient, target, i - 1);
        let st2 = draw(prev, i - 1, pass_amount(parts, m, quotient, i - 1), target);
        assert(st2.out.len() >= prev.out.len());
    }
}

/// A full cycle of a live state with room makes progress: the output grows.
pub proof fn lemma_cycle_progress(st: MixState, parts: Seq<u8>, m: u8, target: nat)
    requires
        st.out.len() < target,
        !all_drained(st.srcs),
        parts.len() == st.srcs.len(),
        m >= 1,
        forall|j: int| 0 <= j < parts.len() ==> parts[j] >= m,
    ensures
        run_cycle(st, parts, m, target).out.len() > st.out.len(),
{
    let n = parts.len() as int;
    lemma_pass_props(st, parts, m, false, target, n);
    let st1 = run_pass(st, parts, m, false, target, n);
    let st2 = run_cycle(st, parts, m, target);
    lemma_quotient_props(st1, parts, m, target, m as nat);
    if st1.out.len() > st.out.len() {
        // The remainder pass already made progress.
    } else {
        assert(st1 == st);
        // One quotient pass follows since m >= 1, and it makes progress.
        assert(run_quotient(st1, parts, m, target, m as nat) == run_quotient(
            run_pass(st1, parts, m, true, target, n),
            parts,
            m,
            target,
            (m - 1) as nat,
        ));
        lemma_quotient_pass_progress(st1, parts, m, target);
        let stq = run_pass(st1, parts, m, true, target, n);
        lemma_pass_props(st1, parts, m, true, target, n);
        lemma_quotient_props(stq, parts, m, target, (m - 1) as nat);
    }
}

/// Any fuel of at least the number of sentences left runs the mix to its
/// natural end.
pub proof fn lemma_mix_loop_fuel(st: MixState, parts: Seq<u8>, m: u8, target: nat, fuel: nat)
    requires
        fuel >= src_total(st.srcs) + 1,
        st.out.len() <= target,
        parts.len() == st.srcs.len(),
        m >= 1,
        forall|j: int| 0 <= j < parts.len() ==> parts[j] >= m,
    ensures
        mix_loop(st, parts, m, target, fuel) == mix_loop(
            st,
            parts,
            m,
            target,
            src_total(st.srcs) + 1,
        ),
    decreases fuel,
{
    if !(st.out.len() >= target || all_drained(st.srcs)) {
        let st2 = run_cycle(st, parts, m, target);
        lemma_cycle_props(st, parts, m, target);
        lemma_cycle_progress(st, parts, m, target);
        assert(src_total(st2.srcs) < src_total(st.srcs));
        lemma_mix_loop_fuel(st2, parts, m, target, (fuel - 1) as nat);
        lemma_mix_loop_fuel(st2, parts, m, target, src_total(st.srcs));
    }
}

/// The sentence sequences of a row of sources.
pub open spec fn srcs_of(s: Seq<WeightedHistory>) -> Seq<Seq<Sentence>> {
    s.map_values(|wh: WeightedHistory| wh.sentences@)
}

/// The weights of a row of sources.
pub open spec fn weights_of(s: Seq<WeightedHistory>) -> Seq<u8> {
    s.map_values(|wh: WeightedHistory| wh.weight)
}

/// True once every source is used up.
fn sources_drained(whs: &Vec<WeightedHistory>) -> (r: bool)
    ensures
        r == all_drained(srcs_of(whs@)),
{
    let mut i: usize = 0;
    while i < whs.len()
        invariant
            0 <= i <= whs@.len(),
            forall|j: int| 0 <= j < i ==> srcs_of(whs@)[j].len() == 0,
        decreases whs@.len() - i,
    {
        if whs[i].sentences.len() > 0 {
            assert(srcs_of(whs@)[i as int].len() > 0);
            return false;
        }
        i += 1;
    }
    true
}

/// Draws from source `i`: at most `k` sentences, and never past the target.
/// The state change is exactly one `draw` step of the mixing machine.
fn draw_from(
    whs: &mut Vec<WeightedHistory>,
    out: &mut Vec<Sentence>,
    i: usize,
    k: usize,
    target: usize,
)
    requires
        i < old(whs)@.len(),
        old(out)@.len() <= target,
    ensures
        ({
            let st2 = draw(
                MixState { srcs: srcs_of(old(whs)@), out: old(out)@ },
                i as int,
                k as nat,
                target as nat,
            );
            srcs_of(final(whs)@) == st2.srcs && final(out)@ == st2.out
        }),
        final(whs)@.len() == old(whs)@.len(),
        forall|j: int|
            0 <= j < old(whs)@.len() ==> final(whs)@[j].weight == old(whs)@[j].weight,
        final(out)@.len() >= old(out)@.len(),
        final(out)@.len() <= target,
{
    let ghost st = MixState { srcs: srcs_of(old(whs)@), out: old(out)@ };
    let cap = target - out.len();
    let next = if k <= cap {
        k
    } else {
        cap
    };
    let mut wh = whs.remove(i);
    let ghost avail = wh.sentences@.len();
    proof {
        assert(avail == st.srcs[i as int].len());
    }
    let mut drawn = wh.next_exact(next);
    proof {
        let t = take_amount(k as nat, st.srcs[i as int].len(), st.out.len(), target as nat);
        assert(min(next as int, avail as int) == t as int);
    }
    out.append(&mut drawn);
    let ghost whv = wh;
    whs.insert(i, wh);
    proof {
        let t = take_amount(k as nat, st.srcs[i as int].len(), st.out.len(), target as nat) as int;
        assert(whs@ =~= old(whs)@.update(i as int, whv));
        assert(whv.sentences@ == st.srcs[i as int].skip(t));
        assert(srcs_of(whs@) =~= st.srcs.update(i as int, st.srcs[i as int].skip(t)));
        lemma_draw_props(st, i as int, k as nat, target as nat);
    }
}

/// Mixes the sorted sources into one sequence: by repeated remainder and
/// quotient passes, each source contributes sentences in exactly its weight
/// ratio, until the target size is reached or every source is used up. The
/// output length is exactly the smaller of the target and the supply.
pub fn mix_sentences(target: usize, whs: &mut Vec<WeightedHistory>) -> (r: Vec<Sentence>)
    requires
        forall|j: int| 0 <= j < old(whs)@.len() ==> old(whs)@[j].weight >= 1,
    ensures
        r@ == mix_sentences_spec(srcs_of(old(whs)@), weights_of(old(whs)@), target as nat),
        r@.len() == min(target as int, src_total(srcs_of(old(whs)@)) as int),
{
    let ghost srcs0 = srcs_of(old(whs)@);
    let ghost ws0 = weights_of(old(whs)@);
    if whs.len() == 0 {
        let r: Vec<Sentence> = Vec::new();
        assert(r@ =~= mix_sentences_spec(srcs0, ws0, target as nat));
        return r;
    }
    if whs.len() == 1 {
        let mut wh = whs.remove(0);
        let r = wh.next_exact(target);
        assert(srcs0[0] == old(whs)@[0].sentences@);
        assert(src_total(srcs0) == srcs0[0].len()) by {
            assert(srcs0.drop_first() =~= Seq::<Seq<Sentence>>::empty());
            assert(src_total(Seq::<Seq<Sentence>>::empty()) == 0);
        }
        return r;
    }
    let n = whs.len();
    // The gcd of all weights.
    let mut g: u8 = whs[0].weight;
    let mut i: usize = 1;
    proof {
        assert(ws0[0] == old(whs)@[0].weight);
    }
    while i < n
        invariant
            1 <= i <= n,
            whs@ == old(whs)@,
            n == whs@.len(),
            ws0 == weights_of(old(whs)@),
            forall|j: int| 0 <= j < n ==> ws0[j] == old(whs)@[j].weight,
            forall|j: int| 0 <= j < n ==> old(whs)@[j].weight >= 1,
            g as nat == fold_gcd_upto(ws0, i as int),
            g >= 1,
            forall|j: int| 0 <= j < i ==> g <= #[trigger] ws0[j],
        decreases n - i,
    {
        let w = whs[i].weight;
        let prev = g;
        g = if prev >= w {
            gcd(prev, w)
        } else {
            gcd(w, prev)
        };
        proof {
            lemma_gcd_divides(
                if prev >= w {
                    prev as nat
                } else {
                    w as nat
                },
                if prev >= w {
                    w as nat
                } else {
                    prev as nat
                },
            );
            lemma_gcd_bound(
                if prev >= w {
                    prev as nat
                } else {
                    w as nat
                },
                if prev >= w {
                    w as nat
                } else {
                    prev as nat
                },
            );
        }
        i += 1;
    }
    // The partition vector: weights reduced by the gcd.
    let mut parts: Vec<u8> = Vec::new();
    let mut i2: usize = 0;
    while i2 < n
        invariant
            0 <= i2 <= n,
            whs@ == old(whs)@,
            n == whs@.len(),
            ws0 == weights_of(old(whs)@),
            forall|j: int| 0 <= j < n ==> ws0[j] == old(whs)@[j].weight,
            forall|j: int| 0 <= j < n ==> old(whs)@[j].weight >= 1,
            g as nat == fold_gcd_upto(ws0, n as int),
            g >= 1,
            forall|j: int| 0 <= j < n ==> g <= #[trigger] ws0[j],
            parts@.len() == i2,
            forall|j: int| 0 <= j < i2 ==> parts@[j] == spec_partition(ws0)[j],
            forall|j: int| 0 <= j < i2 ==> parts@[j] >= 1,
        decreases n - i2,
    {
        let p = whs[i2].weight / g;
        proof {
            assert((ws0[i2 as int] as nat) / (g as nat) >= 1) by (nonlinear_arith)
                requires
                    ws0[i2 as int] >= g >= 1,
            {}
        }
        parts.push(p);
        i2 += 1;
    }
    assert(parts@ =~= spec_partition(ws0));
    // The smallest partition value.
    let mut m: u8 = parts[0];
    let mut i3: usize = 1;
    while i3 < n
        invariant
            1 <= i3 <= n,
            parts@.len() == n,
            forall|j: int| 0 <= j < n ==> parts@[j] >= 1,
            m == min_part_upto(parts@, i3 as int),
            m >= 1,
            forall|j: int| 0 <= j < i3 ==> m <= #[trigger] parts@[j],
        decreases n - i3,
    {
        if parts[i3] < m {
            m = parts[i3];
        }
        i3 += 1;
    }
    // The two-phase mixing loop.
    let ghost parts_s = parts@;
    let ghost final_out = mix_loop(
        MixState { srcs: srcs0, out: Seq::empty() },
        parts_s,
        m,
        target as nat,
        src_total(srcs0) + 1,
    );
    let mut out: Vec<Sentence> = Vec::new();
    while out.len() < target && !sources_drained(whs)
        invariant
            whs@.len() == n,
            2 <= n,
            parts_s == spec_partition(ws0),
            parts@ == parts_s,
            parts_s.len() == n,
            forall|j: int| 0 <= j < n ==> parts_s[j] >= m,
            m >= 1,
            out@.len() <= target,
            mix_loop(
                MixState { srcs: srcs_of(whs@), out: out@ },
                parts_s,
                m,
                target as nat,
                src_total(srcs_of(whs@)) + 1,
            ) == final_out,
        decreases src_total(srcs_of(whs@)),
    {
        let ghost st_entry = MixState { srcs: srcs_of(whs@), out: out@ };
        // Remainder pass.
        let mut pi: usize = 0;
        while pi < n
            invariant
                0 <= pi <= n,
                whs@.len() == n,
                parts_s.len() == n,
                parts@ == parts_s,
                m >= 1,
                out@.len() <= target,
                st_entry.out.len() <= target,
                st_entry.srcs.len() == n,
                run_pass(st_entry, parts_s, m, false, target as nat, pi as int) == (MixState {
                    srcs: srcs_of(whs@),
                    out: out@,
                }),
            decreases n - pi,
        {
            let k = parts[pi] % m;
            draw_from(whs, &mut out, pi, k as usize, target);
            pi += 1;
        }
        // Quotient passes.
        let mut rep: u8 = 0;
        let ghost st_rem = MixState { srcs: srcs_of(whs@), out: out@ };
        while rep < m
            invariant
                rep <= m,
                whs@.len() == n,
                parts_s.len() == n,
                parts@ == parts_s,
                m >= 1,
                out@.len() <= target,
                run_quotient(
                    MixState { srcs: srcs_of(whs@), out: out@ },
                    parts_s,
                    m,
                    target as nat,
                    (m - rep) as nat,
                ) == run_quotient(st_rem, parts_s, m, target as nat, m as nat),
            decreases m - rep,
        {
            let ghost st_q = MixState { srcs: srcs_of(whs@), out: out@ };
            let mut pi: usize = 0;
            while pi < n
                invariant
                    0 <= pi <= n,
                    whs@.len() == n,
                    parts_s.len() == n,
                    parts@ == parts_s,
                    m >= 1,
                    out@.len() <= target,
                    st_q.out.len() <= target,
                    st_q.srcs.len() == n,
                    run_pass(st_q, parts_s, m, true, target as nat, pi as int) == (MixState {
                        srcs: srcs_of(whs@),
                        out: out@,
                    }),
                decreases n - pi,
            {
                let k = parts[pi] / m;
                draw_from(whs, &mut out, pi, k as usize, target);
                pi += 1;
            }
            rep += 1;
        }
        proof {
            let st_next = MixState { srcs: srcs_of(whs@), out: out@ };
            assert(st_next == run_cycle(st_entry, parts_s, m, target as nat));
            lemma_cycle_props(st_entry, parts_s, m, target as nat);
            lemma_cycle_progress(st_entry, parts_s, m, target as nat);
            lemma_mix_loop_fuel(
                st_next,
                parts_s,
                m,
                target as nat,
                src_total(st_entry.srcs),
            );
        }
    }
    proof {
        let st_end = MixState { srcs: srcs_of(whs@), out: out@ };
        assert(mix_loop(st_end, parts_s, m, target as nat, src_total(st_end.srcs) + 1)
            == st_end.out);
        lemma_mix_loop_len(
            MixState { srcs: srcs0, out: Seq::empty() },
            parts_s,
            m,
            target as nat,
            src_total(srcs0) + 1,
        );
    }
    out
}

/// The mix stops at exactly the target size, or exactly when the sources
/// run out, whichever comes first.
pub proof fn lemma_mix_loop_len(st: MixState, parts: Seq<u8>, m: u8, target: nat, fuel: nat)
    requires
        fuel >= src_total(st.srcs) + 1,
        st.out.len() <= target,
        parts.len() == st.srcs.len(),
        m >= 1,
        forall|j: int| 0 <= j < parts.len() ==> parts[j] >= m,
    ensures
        mix_loop(st, parts, m, target, fuel).len() == min(
            target as int,
            st.out.len() + src_total(st.srcs) as int,
        ),
    decreases fuel,
{
    if st.out.len() >= target {
        assert(st.out.len() == target);
    } else if all_drained(st.srcs) {
        lemma_src_total_drained(st.srcs);
    } else {
        let st2 = run_cycle(st, parts, m, target);
        lemma_cycle_props(st, parts, m, target);
        lemma_cycle_progress(st, parts, m, target);
        lemma_mix_loop_len(st2, parts, m, target, (fuel - 1) as nat);
    }
}

// ------------------------------------------------------------------
// Exact weight proportion over a full cycle
// ------------------------------------------------------------------
/// The sum of the first `i` pass amounts.
pub open spec fn amount_sum(parts: Seq<u8>, m: u8, quotient: bool, i: int) -> nat
    decreases i,
{
    if i <= 0 {
        0
    } else {
        amount_sum(parts, m, quotient, i - 1) + pass_amount(parts, m, quotient, i - 1)
    }
}

/// The sum of the first `i` partition values.
pub open spec fn parts_sum_upto(parts: Seq<u8>, i: int) -> nat
    decreases i,
{
    if i <= 0 {
        0
    } else {
        parts_sum_upto(parts, i - 1) + parts[i - 1] as nat
    }
}

/// The sum of all partition values.
pub open spec fn parts_sum(parts: Seq<u8>) -> nat {
    parts_sum_upto(parts, parts.len() as int)
}

/// Remainder and quotient amounts of one full cycle add up to the partition
/// values themselves.
pub proof fn lemma_amounts_split(parts: Seq<u8>, m: u8, i: int)
    requires
        m >= 1,
        0 <= i <= parts.len(),
    ensures
        amount_sum(parts, m, false, i) + (m as nat) * amount_sum(parts, m, true, i)
            == parts_sum_upto(parts, i),
    decreases i,
{
    if i > 0 {
        lemma_amounts_split(parts, m, i - 1);
        let p = parts[i - 1] as int;
        let mm = m as int;
        vstd::arithmetic::div_mod::lemma_fundamental_div_mod(p, mm);
        assert(pass_amount(parts, m, false, i - 1) == p % mm);
        assert(pass_amount(parts, m, true, i - 1) == p / mm);
        assert((m as int) * (amount_sum(parts, m, true, i - 1) + pass_amount(parts, m, true, i - 1))
            == (m as int) * amount_sum(parts, m, true, i - 1) + (m as int) * pass_amount(
            parts,
            m,
            true,
            i - 1,
        )) by (nonlinear_arith);
        assert((m as int) * pass_amount(parts, m, true, i - 1) == mm * (p / mm));
        assert(amount_sum(parts, m, false, i) == amount_sum(parts, m, false, i - 1) + p % mm);
        assert(amount_sum(parts, m, true, i) == amount_sum(parts, m, true, i - 1) + p / mm);
        assert(parts_sum_upto(parts, i) == parts_sum_upto(parts, i - 1) + p);
        assert((m as nat) * amount_sum(parts, m, true, i) == (m as int) * (amount_sum(
            parts,
            m,
            true,
            i - 1,
        ) + pass_amount(parts, m, true, i - 1)));
        assert(amount_sum(parts, m, false, i) + (m as nat) * amount_sum(parts, m, true, i)
            == parts_sum_upto(parts, i));
    } else {
        assert(amount_sum(parts, m, true, i) == 0);
        assert((m as nat) * amount_sum(parts, m, true, i) == 0) by (nonlinear_arith)
            requires
                amount_sum(parts, m, true, i) == 0,
        {}
    }
}

/// One pass in which no draw is cut short: every source holds what it is
/// asked for, and the target leaves room for the whole pass. Each source
/// then gives exactly its asked amount.
pub proof fn lemma_pass_exact(
    st: MixState,
    parts: Seq<u8>,
    m: u8,
    quotient: bool,
    target: nat,
    i: int,
)
    requires
        0 <= i <= st.srcs.len(),
        parts.len() == st.srcs.len(),
        st.out.len() + amount_sum(parts, m, quotient, st.srcs.len() as int) <= target,
        forall|j: int|
            0 <= j < st.srcs.len() ==> (#[trigger] st.srcs[j]).len() >= pass_amount(
                parts,
                m,
                quotient,
                j,
            ),
    ensures
        ({
            let st2 = run_pass(st, parts, m, quotient, target, i);
            &&& st2.srcs.len() == st.srcs.len()
            &&& st2.out.len() == st.out.len() + amount_sum(parts, m, quotient, i)
            &&& forall|j: int|
                0 <= j < i ==> (#[trigger] st2.srcs[j]).len() == st.srcs[j].len() - pass_amount(
                    parts,
                    m,
                    quotient,
                    j,
                )
            &&& forall|j: int| i <= j < st.srcs.len() ==> st2.srcs[j] == st.srcs[j]
        }),
    decreases i,
{
    if i > 0 {
        lemma_pass_exact(st, parts, m, quotient, target, i - 1);
        let st1 = run_pass(st, parts, m, quotient, target, i - 1);
        let k = pass_amount(parts, m, quotient, i - 1);
        lemma_amount_sum_monotone(parts, m, quotient, i, st.srcs.len() as int);
        assert(st1.out.len() + k <= target);
        let st2 = draw(st1, i - 1, k, target);
        assert(take_amount(k, st1.srcs[i - 1].len(), st1.out.len(), target) == k);
    }
}

/// Partial amount sums only grow.
pub proof fn lemma_amount_sum_monotone(parts: Seq<u8>, m: u8, quotient: bool, i: int, j: int)
    requires
        0 <= i <= j,
    ensures
        amount_sum(parts, m, quotient, i) <= amount_sum(parts, m, quotient, j),
    decreases j - i,
{
    if i < j {
        lemma_amount_sum_monotone(parts, m, quotient, i, j - 1);
    }
}

/// Over one full cycle with ample supplies and room, each source contributes
/// exactly its partition value: the sources are consumed in exactly the
/// proportion of the input weights.
pub proof fn lemma_cycle_exact_ratio(st: MixState, parts: Seq<u8>, m: u8, target: nat)
    requires
        parts.len() == st.srcs.len(),
        m >= 1,
        st.out.len() + parts_sum(parts) <= target,
        forall|j: int| 0 <= j < st.srcs.len() ==> (#[trigger] st.srcs[j]).len() >= parts[j],
    ensures
        ({
            let st2 = run_cycle(st, parts, m, target);
            &&& st2.srcs.len() == st.srcs.len()
            &&& st2.out.len() == st.out.len() + parts_sum(parts)
            &&& forall|j: int|
                0 <= j < st.srcs.len() ==> (#[trigger] st2.srcs[j]).len() == st.srcs[j].len()
                    - parts[j]
        }),
{
    let n = parts.len() as int;
    lemma_amounts_split(parts, m, n);
    let rem_sum = amount_sum(parts, m, false, n);
    let quot_sum = amount_sum(parts, m, true, n);
    // Every source covers remainder plus all quotient passes.
    assert(forall|j: int|
        0 <= j < n ==> pass_amount(parts, m, false, j) + (m as nat) * pass_amount(
            parts,
            m,
            true,
            j,
        ) == parts[j] as nat) by {
        assert forall|j: int| 0 <= j < n implies pass_amount(parts, m, false, j) + (m as nat)
            * pass_amount(parts, m, true, j) == parts[j] as nat by {
            vstd::arithmetic::div_mod::lemma_fundamental_div_mod(parts[j] as int, m as int);
            assert((m as int) * ((parts[j] / m) as int) == (m as nat) * pass_amount(
                parts,
                m,
                true,
                j,
            )) by (nonlinear_arith);
        }
    }
    assert(forall|j: int|
        0 <= j < n ==> (#[trigger] st.srcs[j]).len() >= pass_amount(parts, m, false, j));
    assert(amount_sum(parts, m, false, n) <= parts_sum(parts)) by {
        assert((m as nat) * amount_sum(parts, m, true, n) >= 0);
    }
    lemma_pass_exact(st, parts, m, false, target, n);
    let st1 = run_pass(st, parts, m, false, target, n);
    assert(((m - m as nat) as nat) == 0);
    assert(st1.out.len() == st.out.len() + amount_sum(parts, m, false, n) + ((m
        - m as nat) as nat) * amount_sum(parts, m, true, n));
    assert(forall|j: int|
        0 <= j < n ==> (#[trigger] st1.srcs[j]).len() == st.srcs[j].len() - pass_amount(
            parts,
            m,
            false,
            j,
        ) - ((m - m as nat) as nat) * pass_amount(parts, m, true, j));
    lemma_quot_exact(st1, st, parts, m, target, m as nat);
}

/// The quotient passes, counted down: after `m - reps` passes have already
/// run, the remaining `reps` each take exactly one quotient share from every
/// source.
proof fn lemma_quot_exact(
    st: MixState,
    orig: MixState,
    parts: Seq<u8>,
    m: u8,
    target: nat,
    reps: nat,
)
    requires
        parts.len() == st.srcs.len() == orig.srcs.len(),
        m >= 1,
        reps <= m,
        st.out.len() == orig.out.len() + amount_sum(parts, m, false, parts.len() as int) + ((
        m - reps) as nat) * amount_sum(parts, m, true, parts.len() as int),
        orig.out.len() + amount_sum(parts, m, false, parts.len() as int) + (m as nat) * amount_sum(
            parts,
            m,
            true,
            parts.len() as int,
        ) <= target,
        forall|j: int|
            0 <= j < st.srcs.len() ==> (#[trigger] st.srcs[j]).len() == orig.srcs[j].len()
                - pass_amount(parts, m, false, j) - ((m - reps) as nat) * pass_amount(
                parts,
                m,
                true,
                j,
            ),
        forall|j: int|
            0 <= j < orig.srcs.len() ==> (#[trigger] orig.srcs[j]).len() >= pass_amount(
                parts,
                m,
                false,
                j,
            ) + (m as nat) * pass_amount(parts, m, true, j),
    ensures
        ({
            let st2 = run_quotient(st, parts, m, target, reps);
            &&& st2.srcs.len() == st.srcs.len()
            &&& st2.out.len() == orig.out.len() + amount_sum(parts, m, false, parts.len() as int)
                + (m as nat) * amount_sum(parts, m, true, parts.len() as int)
            &&& forall|j: int|
                0 <= j < st.srcs.len() ==> (#[trigger] st2.srcs[j]).len() == orig.srcs[j].len()
                    - pass_amount(parts, m, false, j) - (m as nat) * pass_amount(parts, m, true, j)
        }),
    decreases reps,
{
    let n = parts.len() as int;
    if reps == 0 {
        assert(((m - 0) as nat) * amount_sum(parts, m, true, n) == (m as nat) * amount_sum(
            parts,
            m,
            true,
            n,
        ));
    } else {
        assert(forall|j: int|
            0 <= j < n ==> (#[trigger] st.srcs[j]).len() >= pass_amount(parts, m, true, j)) by {
            assert forall|j: int| 0 <= j < n implies (#[trigger] st.srcs[j]).len() >= pass_amount(
                parts,
                m,
                true,
                j,
            ) by {
                let q = pass_amount(parts, m, true, j) as int;
                assert(((m - reps) as int) * q + q <= (m as int) * q) by (nonlinear_arith)
                    requires
                        1 <= reps <= m,
                        q >= 0,
                {}
            }
        }
        assert(st.out.len() + amount_sum(parts, m, true, n) <= target) by {
            let s = amount_sum(parts, m, true, n) as int;
            assert(((m - reps) as int) * s + s <= (m as int) * s) by (nonlinear_arith)
                requires
                    1 <= reps <= m,
                    s >= 0,
            {}
        }
        lemma_pass_exact(st, parts, m, true, target, n);
        let st1 = run_pass(st, parts, m, true, target, n);
        assert(st1.out.len() == orig.out.len() + amount_sum(parts, m, false, n) + ((m - (reps
            - 1)) as nat) * amount_sum(parts, m, true, n)) by {
            let s = amount_sum(parts, m, true, n) as int;
            assert(((m - reps) as int) * s + s == ((m - (reps - 1)) as int) * s)
                by (nonlinear_arith)
                requires
                    1 <= reps <= m,
            {}
        }
        assert(forall|j: int|
            0 <= j < n ==> (#[trigger] st1.srcs[j]).len() == orig.srcs[j].len() - pass_amount(
                parts,
                m,
                false,
                j,
            ) - ((m - (reps - 1)) as nat) * pass_amount(parts, m, true, j)) by {
            assert forall|j: int| 0 <= j < n implies (#[trigger] st1.srcs[j]).len()
                == orig.srcs[j].len() - pass_amount(parts, m, false, j) - ((m - (reps
                - 1)) as nat) * pass_amount(parts, m, true, j) by {
                let q = pass_amount(parts, m, true, j) as int;
                assert(((m - reps) as int) * q + q == ((m - (reps - 1)) as int) * q)
                    by (nonlinear_arith)
                    requires
                        1 <= reps <= m,
                {}
            }
        }
        lemma_quot_exact(st1, orig, parts, m, target, (reps - 1) as nat);
    }
}

/// `c` full cycles in a row.
pub open spec fn run_cycles(st: MixState, parts: Seq<u8>, m: u8, target: nat, c: nat) -> MixState
    decreases c,
{
    if c == 0 {
        st
    } else {
        run_cycles(run_cycle(st, parts, m, target), parts, m, target, (c - 1) as nat)
    }
}

/// Over any number of full cycles with ample supplies and room, every source
/// contributes exactly that many times its partition value.
pub proof fn lemma_cycles_exact(st: MixState, parts: Seq<u8>, m: u8, target: nat, c: nat)
    requires
        parts.len() == st.srcs.len(),
        m >= 1,
        st.out.len() + c * parts_sum(parts) <= target,
        forall|j: int|
            0 <= j < st.srcs.len() ==> (#[trigger] st.srcs[j]).len() >= c * (parts[j] as nat),
    ensures
        ({
            let st2 = run_cycles(st, parts, m, target, c);
            &&& st2.srcs.len() == st.srcs.len()
            &&& st2.out.len() == st.out.len() + c * parts_sum(parts)
            &&& forall|j: int|
                0 <= j < st.srcs.len() ==> (#[trigger] st2.srcs[j]).len() == st.srcs[j].len() - c
                    * (parts[j] as nat)
        }),
    decreases c,
{
    if c == 0 {
        assert(0 * parts_sum(parts) == 0) by (nonlinear_arith);
        assert(forall|j: int|
            0 <= j < st.srcs.len() ==> 0 * ((#[trigger] parts[j]) as nat) == 0)
            by (nonlinear_arith);
    } else {
        assert(st.out.len() + parts_sum(parts) <= target) by {
            assert(c * parts_sum(parts) >= 1 * parts_sum(parts)) by (nonlinear_arith)
                requires
                    c >= 1,
            {}
        }
        assert(forall|j: int|
            0 <= j < st.srcs.len() ==> (#[trigger] st.srcs[j]).len() >= parts[j] as nat) by {
            assert forall|j: int| 0 <= j < st.srcs.len() implies (#[trigger] st.srcs[j]).len()
                >= parts[j] as nat by {
                assert(c * (parts[j] as nat) >= 1 * (parts[j] as nat)) by (nonlinear_arith)
                    requires
                        c >= 1,
                {}
            }
        }
        lemma_cycle_exact_ratio(st, parts, m, target);
        let st1 = run_cycle(st, parts, m, target);
        assert(st1.out.len() + (c - 1) * parts_sum(parts) <= target) by {
            assert(c * parts_sum(parts) == parts_sum(parts) + (c - 1) * parts_sum(parts))
                by (nonlinear_arith)
                requires
                    c >= 1,
            {}
        }
        assert(forall|j: int|
            0 <= j < st1.srcs.len() ==> (#[trigger] st1.srcs[j]).len() >= (c - 1) * (
            parts[j] as nat)) by {
            assert forall|j: int| 0 <= j < st1.srcs.len() implies (#[trigger] st1.srcs[j]).len()
                >= (c - 1) * (parts[j] as nat) by {
                assert(c * (parts[j] as nat) == parts[j] as nat + (c - 1) * (parts[j] as nat))
                    by (nonlinear_arith)
                    requires
                        c >= 1,
                {}
            }
        }
        lemma_cycles_exact(st1, parts, m, target, (c - 1) as nat);
        let st2 = run_cycles(st, parts, m, target, c);
        assert(st2.out.len() == st.out.len() + c * parts_sum(parts)) by {
            assert(parts_sum(parts) + (c - 1) * parts_sum(parts) == c * parts_sum(parts))
                by (nonlinear_arith)
                requires
                    c >= 1,
            {}
        }
        assert forall|j: int| 0 <= j < st.srcs.len() implies (#[trigger] st2.srcs[j]).len()
            == st.srcs[j].len() - c * (parts[j] as nat) by {
            assert(parts[j] as nat + (c - 1) * (parts[j] as nat) == c * (parts[j] as nat))
                by (nonlinear_arith)
                requires
                    c >= 1,
            {}
        }
    }
}

/// Divisibility carries through a chain.
proof fn lemma_mod_transitive(x: nat, z: nat, g: nat)
    requires
        z >= 1,
        g >= 1,
        x % z == 0,
        z % g == 0,
    ensures
        x % g == 0,
{
    vstd::arithmetic::div_mod::lemma_fundamental_div_mod(x as int, z as int);
    vstd::arithmetic::div_mod::lemma_fundamental_div_mod(z as int, g as int);
    let q = x as int / z as int;
    let k = z as int / g as int;
    assert(x as int == (k * q) * g as int) by (nonlinear_arith)
        requires
            x as int == z as int * q + 0,
            z as int == g as int * k + 0,
    {}
    vstd::arithmetic::div_mod::lemma_mod_multiples_basic(k * q, g as int);
}

/// The folded gcd of the weights is positive and divides every weight it
/// has seen.
pub proof fn lemma_fold_gcd_divides(ws: Seq<u8>, i: int)
    requires
        1 <= i <= ws.len(),
        forall|j: int| 0 <= j < ws.len() ==> #[trigger] ws[j] >= 1,
    ensures
        fold_gcd_upto(ws, i) >= 1,
        forall|j: int| 0 <= j < i ==> (ws[j] as nat) % fold_gcd_upto(ws, i) == 0,
    decreases i,
{
    if i == 1 {
        vstd::arithmetic::div_mod::lemma_mod_self_0(ws[0] as int);
    } else {
        lemma_fold_gcd_divides(ws, i - 1);
        let prev = fold_gcd_upto(ws, i - 1);
        let w = ws[i - 1] as nat;
        let g = fold_gcd_upto(ws, i);
        if prev >= w {
            lemma_gcd_divides(prev, w);
        } else {
            lemma_gcd_divides(w, prev);
        }
        assert(g >= 1 && prev % g == 0 && w % g == 0);
        assert forall|j: int| 0 <= j < i implies (ws[j] as nat) % g == 0 by {
            if j < i - 1 {
                lemma_mod_transitive(ws[j] as nat, prev, g);
            }
        }
    }
}

/// Dividing two multiples of `g` keeps a strict order.
proof fn lemma_div_strict(wa: nat, wb: nat, g: nat)
    requires
        g >= 1,
        wa % g == 0,
        wb % g == 0,
        wa > wb,
    ensures
        wa / g > wb / g,
{
    vstd::arithmetic::div_mod::lemma_fundamental_div_mod(wa as int, g as int);
    vstd::arithmetic::div_mod::lemma_fundamental_div_mod(wb as int, g as int);
    assert(wa as int / g as int > wb as int / g as int) by (nonlinear_arith)
        requires
            g >= 1,
            wa as int == g as int * (wa as int / g as int) + 0,
            wb as int == g as int * (wb as int / g as int) + 0,
            wa > wb,
    {}
}

/// A strictly heavier source has a strictly larger partition value: the
/// gcd reduction keeps the weights' strict order.
pub proof fn lemma_partition_monotone(ws: Seq<u8>, a: int, b: int)
    requires
        ws.len() >= 1,
        forall|j: int| 0 <= j < ws.len() ==> #[trigger] ws[j] >= 1,
        0 <= a < ws.len(),
        0 <= b < ws.len(),
        ws[a] > ws[b],
    ensures
        spec_partition(ws)[a] > spec_partition(ws)[b],
{
    let g = fold_gcd_upto(ws, ws.len() as int);
    lemma_fold_gcd_divides(ws, ws.len() as int);
    lemma_div_strict(ws[a] as nat, ws[b] as nat, g);
    vstd::arithmetic::div_mod::lemma_fundamental_div_mod(ws[a] as int, g as int);
    vstd::arithmetic::div_mod::lemma_mod_bound(ws[a] as int, g as int);
    assert((ws[a] as nat) / g <= ws[a] as nat) by (nonlinear_arith)
        requires
            g >= 1,
            ws[a] as int == g as int * (ws[a] as int / g as int) + (ws[a] as int % g as int),
            0 <= ws[a] as int % g as int,
    {}
}

/// Weight monotonicity over the cycle structure: as long as two sources can
/// both supply full cycles and the target leaves room for them, the source
/// with the larger partition value has contributed strictly more sentences,
/// in exactly the ratio of the partition values.
pub proof fn lemma_weight_monotonicity(
    st: MixState,
    parts: Seq<u8>,
    m: u8,
    target: nat,
    c: nat,
    a: int,
    b: int,
)
    requires
        parts.len() == st.srcs.len(),
        m >= 1,
        c >= 1,
        st.out.len() + c * parts_sum(parts) <= target,
        forall|j: int|
            0 <= j < st.srcs.len() ==> (#[trigger] st.srcs[j]).len() >= c * (parts[j] as nat),
        0 <= a < st.srcs.len(),
        0 <= b < st.srcs.len(),
        parts[a] > parts[b],
    ensures
        ({
            let st2 = run_cycles(st, parts, m, target, c);
            &&& st.srcs[a].len() - st2.srcs[a].len() == c * (parts[a] as nat)
            &&& st.srcs[b].len() - st2.srcs[b].len() == c * (parts[b] as nat)
            &&& st.srcs[a].len() - st2.srcs[a].len() > st.srcs[b].len() - st2.srcs[b].len()
        }),
{
    lemma_cycles_exact(st, parts, m, target, c);
    assert(c * (parts[a] as nat) > c * (parts[b] as nat)) by (nonlinear_arith)
        requires
            c >= 1,
            parts[a] > parts[b],
    {}
}

// ------------------------------------------------------------------
// Stable sorting of the sources, heaviest weight first
// ------------------------------------------------------------------
/// Inserts a source into a weight-descending row, after every source of
/// equal or greater weight, so that sorting is stable.
pub open spec fn insert_desc(
    s: Seq<(u8, Seq<Sentence>)>,
    x: (u8, Seq<Sentence>),
) -> Seq<(u8, Seq<Sentence>)>
    decreases s.len(),
{
    if s.len() == 0 {
        seq![x]
    } else if s[0].0 >= x.0 {
        seq![s[0]] + insert_desc(s.drop_first(), x)
    } else {
        seq![x] + s
    }
}

/// Sorts the sources by weight, descending, keeping the given order among
/// sources of equal weight.
pub open spec fn sort_desc(s: Seq<(u8, Seq<Sentence>)>) -> Seq<(u8, Seq<Sentence>)>
    decreases s.len(),
{
    if s.len() == 0 {
        s
    } else {
        insert_desc(sort_desc(s.drop_last()), s.last())
    }
}

/// Weights never increase along the row.
pub open spec fn sorted_desc(s: Seq<(u8, Seq<Sentence>)>) -> bool {
    forall|i: int, j: int| 0 <= i <= j < s.len() ==> s[i].0 >= s[j].0
}

pub proof fn lemma_insert_desc_sorted(s: Seq<(u8, Seq<Sentence>)>, x: (u8, Seq<Sentence>))
    requires
        sorted_desc(s),
    ensures
        insert_desc(s, x).len() == s.len() + 1,
        sorted_desc(insert_desc(s, x)),
    decreases s.len(),
{
    if s.len() > 0 && s[0].0 >= x.0 {
        assert(sorted_desc(s.drop_first())) by {
            assert(forall|i: int|
                0 <= i < s.drop_first().len() ==> s.drop_first()[i] == s[i + 1]);
        }
        lemma_insert_desc_sorted(s.drop_first(), x);
        let r = insert_desc(s, x);
        let rr = insert_desc(s.drop_first(), x);
        assert(forall|i: int| 1 <= i < r.len() ==> r[i] == rr[i - 1]);
        assert(forall|i: int| 0 <= i < rr.len() ==> s[0].0 >= (#[trigger] rr[i]).0) by {
            lemma_insert_desc_head(s.drop_first(), x);
            if s.drop_first().len() > 0 && s.drop_first()[0].0 >= x.0 {
                assert(s.drop_first()[0] == s[1]);
            }
        }
    }
}

/// The head of an insertion is the larger of the old head and the new item.
pub proof fn lemma_insert_desc_head(s: Seq<(u8, Seq<Sentence>)>, x: (u8, Seq<Sentence>))
    requires
        sorted_desc(s),
    ensures
        forall|i: int|
            0 <= i < insert_desc(s, x).len() ==> (#[trigger] insert_desc(s, x)[i].0) <= if s.len()
                > 0 && s[0].0 >= x.0 {
                s[0].0
            } else {
                x.0
            },
    decreases s.len(),
{
    if s.len() > 0 && s[0].0 >= x.0 {
        assert(sorted_desc(s.drop_first())) by {
            assert(forall|i: int|
                0 <= i < s.drop_first().len() ==> s.drop_first()[i] == s[i + 1]);
        }
        lemma_insert_desc_head(s.drop_first(), x);
        let r = insert_desc(s, x);
        let rr = insert_desc(s.drop_first(), x);
        assert(forall|i: int| 1 <= i < r.len() ==> r[i] == rr[i - 1]);
    }
}

pub proof fn lemma_sort_desc_sorted(s: Seq<(u8, Seq<Sentence>)>)
    ensures
        sort_desc(s).len() == s.len(),
        sorted_desc(sort_desc(s)),
    decreases s.len(),
{
    if s.len() > 0 {
        lemma_sort_desc_sorted(s.drop_last());
        lemma_insert_desc_sorted(sort_desc(s.drop_last()), s.last());
    }
}

/// Where the new item lands: right before the first strictly lighter source.
pub proof fn lemma_insert_desc_at(s: Seq<(u8, Seq<Sentence>)>, x: (u8, Seq<Sentence>), p: int)
    requires
        sorted_desc(s),
        0 <= p <= s.len(),
        forall|j: int| 0 <= j < p ==> (#[trigger] s[j]).0 >= x.0,
        p < s.len() ==> s[p].0 < x.0,
    ensures
        insert_desc(s, x) == s.take(p) + seq![x] + s.skip(p),
    decreases p,
{
    if p == 0 {
        if s.len() == 0 {
            assert(insert_desc(s, x) =~= s.take(0) + seq![x] + s.skip(0));
        } else {
            assert(s[0].0 < x.0);
            assert(insert_desc(s, x) =~= s.take(0) + seq![x] + s.skip(0));
        }
    } else {
        assert(sorted_desc(s.drop_first())) by {
            assert(forall|i: int|
                0 <= i < s.drop_first().len() ==> s.drop_first()[i] == s[i + 1]);
        }
        assert(forall|j: int| 0 <= j < p - 1 ==> (#[trigger] s.drop_first()[j]).0 >= x.0) by {
            assert(forall|j: int|
                0 <= j < s.drop_first().len() ==> s.drop_first()[j] == s[j + 1]);
        }
        lemma_insert_desc_at(s.drop_first(), x, p - 1);
        assert(insert_desc(s, x) =~= s.take(p) + seq![x] + s.skip(p)) by {
            assert(s.drop_first().take(p - 1) =~= s.take(p).drop_first());
            assert(s.drop_first().skip(p - 1) =~= s.skip(p));
        }
    }
}

/// The number of sentences a row of sources holds in total.
pub open spec fn pairs_total(s: Seq<(u8, Seq<Sentence>)>) -> nat {
    src_total(s.map_values(|p: (u8, Seq<Sentence>)| p.1))
}

pub proof fn lemma_src_total_head(srcs: Seq<Seq<Sentence>>, s: Seq<Sentence>)
    ensures
        src_total(seq![s] + srcs) == s.len() + src_total(srcs),
{
    assert((seq![s] + srcs).drop_first() =~= srcs);
    assert((seq![s] + srcs)[0] == s);
}

pub proof fn lemma_insert_desc_total(s: Seq<(u8, Seq<Sentence>)>, x: (u8, Seq<Sentence>))
    ensures
        pairs_total(insert_desc(s, x)) == pairs_total(s) + x.1.len(),
    decreases s.len(),
{
    let f = |p: (u8, Seq<Sentence>)| p.1;
    if s.len() == 0 {
        assert(seq![x].map_values(f) =~= seq![x.1]);
        lemma_src_total_head(Seq::empty(), x.1);
        assert(seq![x.1] =~= seq![x.1] + Seq::<Seq<Sentence>>::empty());
        assert(src_total(Seq::<Seq<Sentence>>::empty()) == 0);
    } else if s[0].0 >= x.0 {
        lemma_insert_desc_total(s.drop_first(), x);
        let r = insert_desc(s, x);
        let rr = insert_desc(s.drop_first(), x);
        assert(r.map_values(f) =~= seq![s[0].1] + rr.map_values(f));
        lemma_src_total_head(rr.map_values(f), s[0].1);
        assert(s.map_values(f) =~= seq![s[0].1] + s.drop_first().map_values(f));
        lemma_src_total_head(s.drop_first().map_values(f), s[0].1);
    } else {
        let r = insert_desc(s, x);
        assert(r.map_values(f) =~= seq![x.1] + s.map_values(f));
        lemma_src_total_head(s.map_values(f), x.1);
    }
}

pub proof fn lemma_sort_desc_total(s: Seq<(u8, Seq<Sentence>)>)
    ensures
        pairs_total(sort_desc(s)) == pairs_total(s),
    decreases s.len(),
{
    let f = |p: (u8, Seq<Sentence>)| p.1;
    if s.len() > 0 {
        lemma_sort_desc_total(s.drop_last());
        lemma_insert_desc_total(sort_desc(s.drop_last()), s.last());
        // pairs_total(s) == pairs_total(s.drop_last()) + s.last().1.len()
        lemma_src_total_snoc(s.map_values(f));
        assert(s.map_values(f).drop_last() =~= s.drop_last().map_values(f));
        assert(s.map_values(f).last() == s.last().1);
    }
}

/// The total over a row equals the total over all but the last source plus
/// that source's share.
pub proof fn lemma_src_total_snoc(srcs: Seq<Seq<Sentence>>)
    requires
        srcs.len() > 0,
    ensures
        src_total(srcs) == src_total(srcs.drop_last()) + srcs.last().len(),
    decreases srcs.len(),
{
    if srcs.len() == 1 {
        assert(srcs.drop_first() =~= Seq::<Seq<Sentence>>::empty());
        assert(src_total(Seq::<Seq<Sentence>>::empty()) == 0);
        assert(srcs.drop_last() =~= Seq::<Seq<Sentence>>::empty());
    } else {
        lemma_src_total_snoc(srcs.drop_first());
        assert(srcs.drop_first().drop_last() =~= srcs.drop_last().drop_first());
        assert(srcs.drop_first().last() == srcs.last());
        assert(srcs.drop_last()[0] == srcs[0]);
    }
}

// ------------------------------------------------------------------
// The merge itself
// ------------------------------------------------------------------
/// The merged history holds at most this many sentences: the sum of the
/// three fixed pool capacities.
pub const TARGET_SIZE: usize = 128 + 8192 + 65536;

/// The weights actually used: an empty weight list means an equal blend,
/// weight one for every history.
pub open spec fn merge_weights(hs_len: nat, ws: Seq<u8>) -> Seq<u8> {
    if ws.len() == 0 {
        Seq::new(hs_len, |i: int| 1u8)
    } else {
        ws
    }
}

/// Each history beside its weight, flattened to its sentence sequence.
pub open spec fn merge_pairs(hs: Seq<History>, ws: Seq<u8>) -> Seq<(u8, Seq<Sentence>)> {
    Seq::new(hs.len(), |i: int| (ws[i], spec_flat_sentences(hs[i].pools@)))
}

/// How many sentences the input histories hold together.
pub open spec fn spec_total_input(hs: Seq<History>) -> nat {
    src_total(Seq::new(hs.len(), |i: int| spec_flat_sentences(hs[i].pools@)))
}

/// What merging returns: the sources sorted by weight descending (stable),
/// then mixed in exact weight proportion up to the target size.
pub open spec fn merge_spec(hs: Seq<History>, ws: Seq<u8>, target: nat) -> Seq<Sentence> {
    let sorted = sort_desc(merge_pairs(hs, ws));
    mix_sentences_spec(
        sorted.map_values(|p: (u8, Seq<Sentence>)| p.1),
        sorted.map_values(|p: (u8, Seq<Sentence>)| p.0),
        target,
    )
}

/// True when some weight is zero.
fn holds_zero(ws: &Vec<u8>) -> (r: bool)
    ensures
        r == exists|i: int| 0 <= i < ws@.len() && ws@[i] == 0,
{
    let mut zi: usize = 0;
    while zi < ws.len()
        invariant
            0 <= zi <= ws@.len(),
            forall|j: int| 0 <= j < zi ==> #[trigger] ws@[j] > 0,
        decreases ws@.len() - zi,
    {
        if ws[zi] == 0 {
            assert(ws@[zi as int] == 0);
            return true;
        }
        zi += 1;
    }
    false
}

/// Merge given `histories` with corresponding weights. An empty weight list
/// blends the histories equally; otherwise there must be exactly one nonzero
/// weight per history. The result carries exactly the smaller of the target
/// size and the total supply, split into the three capacity pools.
#[verifier::rlimit(60)]
pub fn merge(histories: Vec<History>, weights: Vec<u8>) -> (r: Result<History, Error>)
    ensures
        ({
            let ws = merge_weights(histories@.len(), weights@);
            &&& (ws.len() != histories@.len() ==> (r matches Err(e) && e matches
                Error::LogicError(m) && m@
                == "Number of weights should match number of histories"@))
            &&& (ws.len() == histories@.len() && (exists|i: int|
                0 <= i < ws.len() && ws[i] == 0) ==> (r matches Err(e) && e matches
                Error::LogicError(m) && m@ == "Zero weight is not allowed"@))
            &&& (ws.len() == histories@.len() && (forall|i: int|
                0 <= i < ws.len() ==> #[trigger] ws[i] > 0) ==> (r matches Ok(h) && ({
                let merged = merge_spec(histories@, ws, TARGET_SIZE as nat);
                &&& h.magic == MAGIC
                &&& h.format_version == FORMAT_VERSION_V2
                &&& h.pools@.len() == 3
                &&& h.pools@.map_values(|p: Pool| p.0@) == spec_split_vec(
                    merged,
                    seq![128nat, 8192nat, 65536nat],
                )
                &&& spec_flat_sentences(h.pools@) == merged
                &&& merged.len() == min(TARGET_SIZE as int, spec_total_input(histories@) as int)
            })))
        }),
{
    let ghost hs0 = histories@;
    let ghost ws_in = weights@;
    let n = histories.len();
    let weights = if weights.len() == 0 {
        vec![1u8; n]
    } else {
        weights
    };
    let ghost ws_eff = merge_weights(hs0.len(), ws_in);
    proof {
        assert(weights@ =~= ws_eff);
    }
    if histories.len() != weights.len() {
        return Err(
            Error::LogicError("Number of weights should match number of histories".to_owned()),
        );
    }
    if holds_zero(&weights) {
        return Err(Error::LogicError("Zero weight is not allowed".to_owned()));
    }
    // Pair each flattened history with its weight.
    let ghost pairs0 = merge_pairs(hs0, ws_eff);
    let mut whs: Vec<WeightedHistory> = Vec::new();
    let mut hs = histories;
    let mut i: usize = 0;
    proof {
        assert(hs@ =~= hs0.skip(0));
    }
    while hs.len() > 0
        invariant
            weights@ == ws_eff,
            ws_eff.len() == n == hs0.len(),
            pairs0 == merge_pairs(hs0, ws_eff),
            forall|j: int| 0 <= j < n ==> #[trigger] ws_eff[j] > 0,
            i + hs@.len() == n,
            hs@ =~= hs0.skip(i as int),
            whs@.len() == i,
            whs@.map_values(|wh: WeightedHistory| wh_model(wh)) =~= pairs0.take(i as int),
            forall|j: int| 0 <= j < i ==> #[trigger] whs@[j].weight >= 1,
        decreases hs@.len(),
    {
        let h = hs.remove(0);
        assert(h == hs0[i as int]);
        let w = weights[i];
        let ghost prev = whs@.map_values(|wh: WeightedHistory| wh_model(wh));
        let wh = WeightedHistory { sentences: crate::data::into_sentences(h), weight: w };
        whs.push(wh);
        proof {
            assert(whs@.map_values(|wh: WeightedHistory| wh_model(wh)) =~= prev.push(
                pairs0[i as int],
            ));
            assert(hs@ =~= hs0.skip(i + 1));
        }
        i += 1;
    }
    proof {
        assert(pairs0.take(n as int) =~= pairs0);
    }
    // Stable insertion sort, heaviest weight first.
    let mut k: usize = 1;
    proof {
        if n >= 1 {
            assert(pairs0.take(1).drop_last() =~= Seq::<(u8, Seq<Sentence>)>::empty());
            assert(sort_desc(Seq::<(u8, Seq<Sentence>)>::empty())
                =~= Seq::<(u8, Seq<Sentence>)>::empty());
            assert(insert_desc(Seq::<(u8, Seq<Sentence>)>::empty(), pairs0.take(1).last())
                =~= seq![pairs0[0]]);
            assert(sort_desc(pairs0.take(1)) =~= pairs0.take(1));
            assert(sort_desc(pairs0.take(min(1, n as int))) + pairs0.skip(min(1, n as int))
                =~= pairs0);
        } else {
            assert(pairs0.take(0) =~= pairs0);
            assert(pairs0.skip(0) =~= Seq::<(u8, Seq<Sentence>)>::empty());
            assert(sort_desc(pairs0.take(min(1, n as int))) + pairs0.skip(min(1, n as int))
                =~= pairs0);
        }
    }
    while k < whs.len()
        invariant
            1 <= k,
            whs@.len() == n,
            pairs0.len() == n,
            whs@.map_values(|wh: WeightedHistory| wh_model(wh)) =~= sort_desc(
                pairs0.take(min(k as int, n as int)),
            ) + pairs0.skip(min(k as int, n as int)),
            forall|j: int| 0 <= j < n ==> #[trigger] whs@[j].weight >= 1,
        decreases n - k,
    {
        let ghost wm = |wh: WeightedHistory| wh_model(wh);
        let ghost mapped = whs@.map_values(|wh: WeightedHistory| wh_model(wh));
        let ghost sorted_pre = sort_desc(pairs0.take(k as int));
        proof {
            lemma_sort_desc_sorted(pairs0.take(k as int));
            assert(min(k as int, n as int) == k as int);
            assert(mapped =~= sorted_pre + pairs0.skip(k as int));
            assert(mapped[k as int] == pairs0.skip(k as int)[0]);
        }
        let ghost pre_whs = whs@;
        let x = whs.remove(k);
        proof {
            assert(wh_model(x) == mapped[k as int]);
            assert(wh_model(x) == pairs0[k as int]);
            assert(whs@ =~= pre_whs.remove(k as int));
            assert forall|j: int| 0 <= j < k implies wh_model(#[trigger] whs@[j])
                == sorted_pre[j] by {
                assert(whs@[j] == pre_whs[j]);
                assert(mapped[j] == wh_model(pre_whs[j]));
                assert(mapped[j] == (sorted_pre + pairs0.skip(k as int))[j]);
            }
            assert(whs@.map_values(|wh: WeightedHistory| wh_model(wh)) =~= sorted_pre
                + pairs0.skip(k + 1)) by {
                assert forall|j: int| k <= j < whs@.len() implies wh_model(
                    #[trigger] whs@[j],
                ) == pairs0.skip(k + 1)[j - k] by {
                    assert(whs@[j] == pre_whs[j + 1]);
                    assert(mapped[j + 1] == wh_model(pre_whs[j + 1]));
                    assert(mapped[j + 1] == (sorted_pre + pairs0.skip(k as int))[j + 1]);
                    assert(pairs0.skip(k as int)[j + 1 - k] == pairs0.skip(k + 1)[j - k]);
                }
            }
        }
        let mut p: usize = 0;
        while p < k
            invariant
                0 <= p <= k,
                k < n,
                whs@.len() == n - 1,
                sorted_pre.len() == k,
                forall|j: int| 0 <= j < k ==> wh_model(#[trigger] whs@[j]) == sorted_pre[j],
                forall|j: int| 0 <= j < p ==> (#[trigger] sorted_pre[j]).0 >= x.weight,
            ensures
                0 <= p <= k,
                forall|j: int| 0 <= j < p ==> (#[trigger] sorted_pre[j]).0 >= x.weight,
                p < k ==> sorted_pre[p as int].0 < x.weight,
            decreases k - p,
        {
            if whs[p].weight < x.weight {
                assert(wh_model(whs@[p as int]).0 == whs@[p as int].weight);
                break ;
            }
            p += 1;
        }
        let ghost xm = wh_model(x);
        let ghost rem_whs = whs@;
        whs.insert(p, x);
        proof {
            lemma_insert_desc_at(sorted_pre, xm, p as int);
            let mapped2 = whs@.map_values(|wh: WeightedHistory| wh_model(wh));
            assert(whs@ =~= rem_whs.insert(p as int, x));
            assert(mapped2 =~= sorted_pre.take(p as int) + seq![xm] + sorted_pre.skip(p as int)
                + pairs0.skip(k + 1)) by {
                assert(forall|j: int| 0 <= j < p ==> whs@[j] == rem_whs[j]);
                assert(whs@[p as int] == x);
                assert(forall|j: int|
                    p < j < whs@.len() ==> whs@[j] == rem_whs[j - 1]);
                assert(forall|j: int|
                    0 <= j < whs@.len() ==> mapped2[j] == wh_model(#[trigger] whs@[j]));
                assert(forall|j: int|
                    0 <= j < rem_whs.len() ==> wh_model(#[trigger] rem_whs[j]) == (sorted_pre
                        + pairs0.skip(k + 1))[j]);
            }
            assert(pairs0.take(k + 1).drop_last() =~= pairs0.take(k as int));
            assert(pairs0.take(k + 1).last() == pairs0[k as int]);
            assert(sort_desc(pairs0.take(k + 1)) == insert_desc(sorted_pre, xm));
            assert(mapped2 =~= sort_desc(pairs0.take(k + 1)) + pairs0.skip(k + 1));
            assert(min(k + 1, n as int) == k + 1);
        }
        k += 1;
    }
    proof {
        assert(pairs0.take(min(k as int, n as int)) =~= pairs0.take(n as int));
        assert(pairs0.take(n as int) =~= pairs0);
        assert(pairs0.skip(min(k as int, n as int)) =~= Seq::<(u8, Seq<Sentence>)>::empty());
        assert(whs@.map_values(|wh: WeightedHistory| wh_model(wh)) =~= sort_desc(pairs0));
    }
    // Mix the sorted sources into one sequence.
    let ghost sorted_whs = whs@;
    let ghost sorted = sort_desc(pairs0);
    let mixed = mix_sentences(TARGET_SIZE, &mut whs);
    let ghost merged = merge_spec(hs0, ws_eff, TARGET_SIZE as nat);
    proof {
        assert(srcs_of(sorted_whs) =~= sorted.map_values(|p: (u8, Seq<Sentence>)| p.1)) by {
            assert(forall|j: int|
                0 <= j < sorted_whs.len() ==> srcs_of(sorted_whs)[j] == (#[trigger] sorted_whs[j]).sentences@);
            assert(forall|j: int|
                0 <= j < sorted_whs.len() ==> wh_model(#[trigger] sorted_whs[j]) == sorted[j]);
        }
        assert(weights_of(sorted_whs) =~= sorted.map_values(|p: (u8, Seq<Sentence>)| p.0)) by {
            assert(forall|j: int|
                0 <= j < sorted_whs.len() ==> weights_of(sorted_whs)[j] == (#[trigger] sorted_whs[j]).weight);
            assert(forall|j: int|
                0 <= j < sorted_whs.len() ==> wh_model(#[trigger] sorted_whs[j]) == sorted[j]);
        }
        assert(mixed@ == merged);
        // The mixed length is the smaller of target and total supply.
        lemma_sort_desc_total(pairs0);
        assert(pairs_total(sorted) == src_total(srcs_of(sorted_whs)));
        assert(pairs0.map_values(|p: (u8, Seq<Sentence>)| p.1) =~= Seq::new(
            hs0.len(),
            |i: int| spec_flat_sentences(hs0[i].pools@),
        ));
        assert(merged.len() == min(TARGET_SIZE as int, spec_total_input(hs0) as int));
    }
    // Split into the three capacity pools.
    let sizes: [usize; 3] = [128, 8192, 65536];
    let mut pieces = crate::utils::split_vec(mixed, sizes.as_slice());
    let ghost sz = seq![128nat, 8192nat, 65536nat];
    proof {
        assert(sizes@.map_values(|s: usize| s as nat) =~= sz);
        assert(pieces@.map_values(|b: Vec<Sentence>| b@) == spec_split_vec(merged, sz));
        assert(pieces@.len() == 3);
    }
    let p2 = pieces.pop().unwrap();
    let p1 = pieces.pop().unwrap();
    let p0 = pieces.pop().unwrap();
    let mut pools: Vec<Pool> = Vec::new();
    pools.push(Pool(p0));
    pools.push(Pool(p1));
    pools.push(Pool(p2));
    proof {
        let pcs = spec_split_vec(merged, sz);
        assert(p0@ == pcs[0] && p1@ == pcs[1] && p2@ == pcs[2]);
        assert(pools@.map_values(|p: Pool| p.0@) =~= pcs);
        // The three buckets hold the whole merged sequence, in order.
        let k0 = if merged.len() <= 128 {
            merged.len() as int
        } else {
            128
        };
        let m1 = merged.skip(k0);
        let k1 = if m1.len() <= 8192 {
            m1.len() as int
        } else {
            8192
        };
        let m2 = m1.skip(k1);
        let k2 = if m2.len() <= 65536 {
            m2.len() as int
        } else {
            65536
        };
        assert(sz.drop_first() =~= seq![8192nat, 65536nat]);
        assert(seq![8192nat, 65536nat].drop_first() =~= seq![65536nat]);
        assert(seq![65536nat].drop_first() =~= Seq::<nat>::empty());
        assert(spec_split_vec(m2.skip(k2), Seq::<nat>::empty()) =~= Seq::<Seq<Sentence>>::empty());
        assert(sz[0] == 128nat && seq![8192nat, 65536nat][0] == 8192nat && seq![65536nat][0]
            == 65536nat);
        assert(pcs =~= seq![merged.take(k0)] + spec_split_vec(m1, seq![8192nat, 65536nat]));
        assert(spec_split_vec(m1, seq![8192nat, 65536nat]) =~= seq![m1.take(k1)]
            + spec_split_vec(m2, seq![65536nat]));
        assert(spec_split_vec(m2, seq![65536nat]) =~= seq![m2.take(k2)] + spec_split_vec(
            m2.skip(k2),
            Seq::<nat>::empty(),
        ));
        assert(pcs =~= seq![merged.take(k0), m1.take(k1), m2.take(k2)]);
        assert(k2 == m2.len()) by {
            assert(merged.len() <= 128 + 8192 + 65536);
        }
        let s2 = seq![Pool(p2)];
        let s12 = seq![Pool(p1), Pool(p2)];
        assert(s2.drop_first() =~= Seq::<Pool>::empty());
        assert(spec_flat_sentences(Seq::<Pool>::empty()) =~= Seq::<Sentence>::empty());
        assert(spec_flat_sentences(s2) =~= p2@);
        assert(s12.drop_first() =~= s2);
        assert(spec_flat_sentences(s12) =~= p1@ + p2@);
        assert(pools@.drop_first() =~= s12);
        assert(spec_flat_sentences(pools@) =~= p0@ + (p1@ + p2@));
        assert(p0@ + (p1@ + p2@) =~= merged);
        assert(spec_flat_sentences(pools@) == merged);
    }
    Ok(History::new(pools))
}

} // verus!
