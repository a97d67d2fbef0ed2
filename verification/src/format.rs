use vstd::prelude::*;
use vstd::utf8::{decode_utf8, encode_utf8, valid_utf8};

verus! {

// ------------------------------------------------------------------
// Big-endian 32-bit integers
// ------------------------------------------------------------------
/// The four big-endian bytes of `n`, most significant first.
pub open spec fn be32(n: u32) -> Seq<u8> {
    seq![
        ((n >> 24) & 0xff) as u8,
        ((n >> 16) & 0xff) as u8,
        ((n >> 8) & 0xff) as u8,
        (n & 0xff) as u8,
    ]
}

/// The value read back from four big-endian bytes.
pub open spec fn be32_value(b0: u8, b1: u8, b2: u8, b3: u8) -> u32 {
    ((b0 as u32) << 24) | ((b1 as u32) << 16) | ((b2 as u32) << 8) | (b3 as u32)
}

/// Reading the four bytes of `n` back gives `n`.
pub proof fn lemma_be32_roundtrip(n: u32)
    ensures
        be32_value(
            ((n >> 24) & 0xff) as u8,
            ((n >> 16) & 0xff) as u8,
            ((n >> 8) & 0xff) as u8,
            (n & 0xff) as u8,
        ) == n,
{
    assert((((((n >> 24) & 0xff) as u8) as u32) << 24) | (((((n >> 16) & 0xff) as u8) as u32)
        << 16) | (((((n >> 8) & 0xff) as u8) as u32) << 8) | (((n & 0xff) as u8) as u32) == n)
        by (bit_vector);
}

// ------------------------------------------------------------------
// Encoding: value trees to bytes
// ------------------------------------------------------------------
/// A word's UTF-8 bytes must be countable by the 4-byte length prefix.
pub open spec fn wf_word(w: Seq<char>) -> bool {
    encode_utf8(w).len() <= u32::MAX
}

pub open spec fn wf_sentence(s: Seq<Seq<char>>) -> bool {
    s.len() <= u32::MAX && forall|i: int| 0 <= i < s.len() ==> wf_word(#[trigger] s[i])
}

pub open spec fn wf_pool(p: Seq<Seq<Seq<char>>>) -> bool {
    p.len() <= u32::MAX && forall|i: int| 0 <= i < p.len() ==> wf_sentence(#[trigger] p[i])
}

pub open spec fn wf_pools(ps: Seq<Seq<Seq<Seq<char>>>>) -> bool {
    forall|i: int| 0 <= i < ps.len() ==> wf_pool(#[trigger] ps[i])
}

/// A word on the wire: its UTF-8 byte length, then its UTF-8 bytes.
pub open spec fn enc_word(w: Seq<char>) -> Seq<u8> {
    be32(encode_utf8(w).len() as u32) + encode_utf8(w)
}

/// Words back to back, no separators.
pub open spec fn enc_word_seq(ws: Seq<Seq<char>>) -> Seq<u8>
    decreases ws.len(),
{
    if ws.len() == 0 {
        Seq::empty()
    } else {
        enc_word(ws[0]) + enc_word_seq(ws.drop_first())
    }
}

/// A sentence on the wire: its word count, then its words.
pub open spec fn enc_sentence(s: Seq<Seq<char>>) -> Seq<u8> {
    be32(s.len() as u32) + enc_word_seq(s)
}

/// Sentences back to back, no separators.
pub open spec fn enc_sentence_seq(ss: Seq<Seq<Seq<char>>>) -> Seq<u8>
    decreases ss.len(),
{
    if ss.len() == 0 {
        Seq::empty()
    } else {
        enc_sentence(ss[0]) + enc_sentence_seq(ss.drop_first())
    }
}

/// A pool on the wire: its sentence count, then its sentences stored
/// oldest first, which is the reverse of the newest-first in-memory order.
pub open spec fn enc_pool(p: Seq<Seq<Seq<char>>>) -> Seq<u8> {
    be32(p.len() as u32) + enc_sentence_seq(p.reverse())
}

/// Pools back to back; the history record carries no pool count.
pub open spec fn enc_pool_seq(ps: Seq<Seq<Seq<Seq<char>>>>) -> Seq<u8>
    decreases ps.len(),
{
    if ps.len() == 0 {
        Seq::empty()
    } else {
        enc_pool(ps[0]) + enc_pool_seq(ps.drop_first())
    }
}

/// A history record: magic, format version, then its pools.
pub open spec fn enc_history(magic: u32, version: u32, ps: Seq<Seq<Seq<Seq<char>>>>) -> Seq<u8> {
    be32(magic) + be32(version) + enc_pool_seq(ps)
}

/// Encoding one word more appends that word's encoding at the end.
pub proof fn lemma_enc_word_seq_snoc(ws: Seq<Seq<char>>, i: int)
    requires
        0 <= i < ws.len(),
    ensures
        enc_word_seq(ws.take(i + 1)) == enc_word_seq(ws.take(i)) + enc_word(ws[i]),
    decreases i,
{
    if i == 0 {
        assert(ws.take(1).drop_first() =~= Seq::<Seq<char>>::empty());
        assert(ws.take(1)[0] == ws[0]);
        assert(enc_word_seq(Seq::<Seq<char>>::empty()) =~= Seq::<u8>::empty());
        assert(enc_word_seq(ws.take(1)) =~= enc_word(ws[0]));
        assert(enc_word_seq(ws.take(0)) =~= Seq::<u8>::empty());
        assert(enc_word_seq(ws.take(0)) + enc_word(ws[0]) =~= enc_word(ws[0]));
    } else {
        lemma_enc_word_seq_snoc(ws.drop_first(), i - 1);
        assert(ws.take(i + 1).drop_first() =~= ws.drop_first().take(i));
        assert(ws.take(i).drop_first() =~= ws.drop_first().take(i - 1));
        assert(ws.drop_first()[i - 1] == ws[i]);
        assert(enc_word_seq(ws.take(i + 1)) =~= enc_word_seq(ws.take(i)) + enc_word(ws[i]));
    }
}

/// Encoding one sentence more appends that sentence's encoding at the end.
pub proof fn lemma_enc_sentence_seq_snoc(ss: Seq<Seq<Seq<char>>>, i: int)
    requires
        0 <= i < ss.len(),
    ensures
        enc_sentence_seq(ss.take(i + 1)) == enc_sentence_seq(ss.take(i)) + enc_sentence(ss[i]),
    decreases i,
{
    if i == 0 {
        assert(ss.take(1).drop_first() =~= Seq::<Seq<Seq<char>>>::empty());
        assert(ss.take(1)[0] == ss[0]);
        assert(enc_sentence_seq(Seq::<Seq<Seq<char>>>::empty()) =~= Seq::<u8>::empty());
        assert(enc_sentence_seq(ss.take(1)) =~= enc_sentence(ss[0]));
        assert(enc_sentence_seq(ss.take(0)) =~= Seq::<u8>::empty());
        assert(enc_sentence_seq(ss.take(0)) + enc_sentence(ss[0]) =~= enc_sentence(ss[0]));
    } else {
        lemma_enc_sentence_seq_snoc(ss.drop_first(), i - 1);
        assert(ss.take(i + 1).drop_first() =~= ss.drop_first().take(i));
        assert(ss.take(i).drop_first() =~= ss.drop_first().take(i - 1));
        assert(ss.drop_first()[i - 1] == ss[i]);
        assert(enc_sentence_seq(ss.take(i + 1)) =~= enc_sentence_seq(ss.take(i)) + enc_sentence(
            ss[i],
        ));
    }
}

/// Encoding one pool more appends that pool's encoding at the end.
pub proof fn lemma_enc_pool_seq_snoc(ps: Seq<Seq<Seq<Seq<char>>>>, i: int)
    requires
        0 <= i < ps.len(),
    ensures
        enc_pool_seq(ps.take(i + 1)) == enc_pool_seq(ps.take(i)) + enc_pool(ps[i]),
    decreases i,
{
    if i == 0 {
        assert(ps.take(1).drop_first() =~= Seq::<Seq<Seq<Seq<char>>>>::empty());
        assert(ps.take(1)[0] == ps[0]);
        assert(enc_pool_seq(Seq::<Seq<Seq<Seq<char>>>>::empty()) =~= Seq::<u8>::empty());
        assert(enc_pool_seq(ps.take(1)) =~= enc_pool(ps[0]));
        assert(enc_pool_seq(ps.take(0)) =~= Seq::<u8>::empty());
        assert(enc_pool_seq(ps.take(0)) + enc_pool(ps[0]) =~= enc_pool(ps[0]));
    } else {
        lemma_enc_pool_seq_snoc(ps.drop_first(), i - 1);
        assert(ps.take(i + 1).drop_first() =~= ps.drop_first().take(i));
        assert(ps.take(i).drop_first() =~= ps.drop_first().take(i - 1));
        assert(ps.drop_first()[i - 1] == ps[i]);
        assert(enc_pool_seq(ps.take(i + 1)) =~= enc_pool_seq(ps.take(i)) + enc_pool(ps[i]));
    }
}

// ------------------------------------------------------------------
// Decoding: bytes to value trees
// ------------------------------------------------------------------
/// Why a decode fails: truncated input, invalid UTF-8 in a word, a wrong
/// file magic, an unrecognized version tag, or a bad compressed block.
pub enum DecodeIssue {
    Eof,
    Utf8,
    Magic(u32),
    Version(u32),
    Block,
}

/// Reads a big-endian u32 from the front.
pub open spec fn dec_u32(b: Seq<u8>) -> Result<(u32, Seq<u8>), DecodeIssue> {
    if b.len() < 4 {
        Err(DecodeIssue::Eof)
    } else {
        Ok((be32_value(b[0], b[1], b[2], b[3]), b.skip(4)))
    }
}

/// Reads one word: a byte length, then that many UTF-8 bytes.
pub open spec fn dec_word(b: Seq<u8>) -> Result<(Seq<char>, Seq<u8>), DecodeIssue> {
    match dec_u32(b) {
        Err(e) => Err(e),
        Ok((n, r)) => if r.len() < n {
            Err(DecodeIssue::Eof)
        } else if !valid_utf8(r.take(n as int)) {
            Err(DecodeIssue::Utf8)
        } else {
            Ok((decode_utf8(r.take(n as int)), r.skip(n as int)))
        },
    }
}

/// Reads `n` words back to back.
pub open spec fn dec_word_seq(b: Seq<u8>, n: nat) -> Result<
    (Seq<Seq<char>>, Seq<u8>),
    DecodeIssue,
>
    decreases n,
{
    if n == 0 {
        Ok((Seq::empty(), b))
    } else {
        match dec_word(b) {
            Err(e) => Err(e),
            Ok((w, r)) => match dec_word_seq(r, (n - 1) as nat) {
                Err(e) => Err(e),
                Ok((ws, r2)) => Ok((seq![w] + ws, r2)),
            },
        }
    }
}

/// Reads one sentence: a word count, then that many words.
pub open spec fn dec_sentence(b: Seq<u8>) -> Result<(Seq<Seq<char>>, Seq<u8>), DecodeIssue> {
    match dec_u32(b) {
        Err(e) => Err(e),
        Ok((n, r)) => dec_word_seq(r, n as nat),
    }
}

/// Reads `n` sentences back to back.
pub open spec fn dec_sentence_seq(b: Seq<u8>, n: nat) -> Result<
    (Seq<Seq<Seq<char>>>, Seq<u8>),
    DecodeIssue,
>
    decreases n,
{
    if n == 0 {
        Ok((Seq::empty(), b))
    } else {
        match dec_sentence(b) {
            Err(e) => Err(e),
            Ok((s, r)) => match dec_sentence_seq(r, (n - 1) as nat) {
                Err(e) => Err(e),
                Ok((ss, r2)) => Ok((seq![s] + ss, r2)),
            },
        }
    }
}

/// Reads one pool: a sentence count, then that many sentences, reversed
/// back from the stored oldest-first order to newest-first.
pub open spec fn dec_pool(b: Seq<u8>) -> Result<(Seq<Seq<Seq<char>>>, Seq<u8>), DecodeIssue> {
    match dec_u32(b) {
        Err(e) => Err(e),
        Ok((n, r)) => match dec_sentence_seq(r, n as nat) {
            Err(e) => Err(e),
            Ok((ss, r2)) => Ok((ss.reverse(), r2)),
        },
    }
}

/// Reads pools until the input is exhausted; `fuel` only bounds the
/// recursion and is irrelevant once it is at least `b.len()`.
pub open spec fn dec_pool_seq_fueled(b: Seq<u8>, fuel: nat) -> Result<
    Seq<Seq<Seq<Seq<char>>>>,
    DecodeIssue,
>
    decreases fuel,
{
    if b.len() == 0 {
        Ok(Seq::empty())
    } else if fuel == 0 {
        Err(DecodeIssue::Eof)
    } else {
        match dec_pool(b) {
            Err(e) => Err(e),
            Ok((p, r)) => if r.len() < b.len() {
                match dec_pool_seq_fueled(r, (fuel - 1) as nat) {
                    Err(e) => Err(e),
                    Ok(ps) => Ok(seq![p] + ps),
                }
            } else {
                Err(DecodeIssue::Eof)
            },
        }
    }
}

/// Reads pools until the input is exhausted.
pub open spec fn dec_pool_seq(b: Seq<u8>) -> Result<Seq<Seq<Seq<Seq<char>>>>, DecodeIssue> {
    dec_pool_seq_fueled(b, b.len())
}

// ------------------------------------------------------------------
// Consumption bounds
// ------------------------------------------------------------------
pub proof fn lemma_dec_word_consumes(b: Seq<u8>)
    ensures
        dec_word(b) matches Ok((w, r)) ==> r.len() + 4 <= b.len(),
{
}

pub proof fn lemma_dec_word_seq_consumes(b: Seq<u8>, n: nat)
    ensures
        dec_word_seq(b, n) matches Ok((ws, r)) ==> r.len() <= b.len() && ws.len() == n,
    decreases n,
{
    if n > 0 {
        match dec_word(b) {
            Ok((w, r)) => lemma_dec_word_seq_consumes(r, (n - 1) as nat),
            Err(_) => (),
        }
    }
}

pub proof fn lemma_dec_sentence_consumes(b: Seq<u8>)
    ensures
        dec_sentence(b) matches Ok((s, r)) ==> r.len() + 4 <= b.len(),
{
    match dec_u32(b) {
        Ok((n, r)) => lemma_dec_word_seq_consumes(r, n as nat),
        Err(_) => (),
    }
}

pub proof fn lemma_dec_sentence_seq_consumes(b: Seq<u8>, n: nat)
    ensures
        dec_sentence_seq(b, n) matches Ok((ss, r)) ==> r.len() <= b.len() && ss.len() == n,
    decreases n,
{
    if n > 0 {
        lemma_dec_sentence_consumes(b);
        match dec_sentence(b) {
            Ok((s, r)) => lemma_dec_sentence_seq_consumes(r, (n - 1) as nat),
            Err(_) => (),
        }
    }
}

pub proof fn lemma_dec_pool_consumes(b: Seq<u8>)
    ensures
        dec_pool(b) matches Ok((p, r)) ==> r.len() + 4 <= b.len(),
{
    match dec_u32(b) {
        Ok((n, r)) => lemma_dec_sentence_seq_consumes(r, n as nat),
        Err(_) => (),
    }
}

/// Any fuel of at least `b.len()` reads the same pools.
pub proof fn lemma_dec_pool_seq_fuel(b: Seq<u8>, fuel: nat)
    requires
        fuel >= b.len(),
    ensures
        dec_pool_seq_fueled(b, fuel) == dec_pool_seq(b),
    decreases fuel,
{
    if b.len() > 0 {
        lemma_dec_pool_consumes(b);
        match dec_pool(b) {
            Ok((p, r)) => {
                if r.len() < b.len() {
                    lemma_dec_pool_seq_fuel(r, (fuel - 1) as nat);
                    lemma_dec_pool_seq_fuel(r, (b.len() - 1) as nat);
                }
            },
            Err(_) => (),
        }
    }
}

// ------------------------------------------------------------------
// Round trips: decoding an encoding gives the value back (binary codec)
// ------------------------------------------------------------------
/// A word decodes from its own encoding, leaving any tail untouched.
pub proof fn lemma_word_roundtrip(w: Seq<char>, tail: Seq<u8>)
    requires
        wf_word(w),
    ensures
        dec_word(enc_word(w) + tail) == Ok::<_, DecodeIssue>((w, tail)),
{
    let wb = encode_utf8(w);
    let n = wb.len() as u32;
    let b = enc_word(w) + tail;
    assert(b =~= be32(n) + (wb + tail));
    assert(b[0] == be32(n)[0] && b[1] == be32(n)[1] && b[2] == be32(n)[2] && b[3] == be32(n)[3]);
    lemma_be32_roundtrip(n);
    assert(b.skip(4) =~= wb + tail);
    assert((wb + tail).take(n as int) =~= wb);
    assert((wb + tail).skip(n as int) =~= tail);
    broadcast use vstd::utf8::encode_utf8_valid_utf8, vstd::utf8::encode_utf8_decode_utf8;

    assert(valid_utf8(wb));
    assert(decode_utf8(wb) == w);
}

pub proof fn lemma_word_seq_roundtrip(ws: Seq<Seq<char>>, tail: Seq<u8>)
    requires
        forall|i: int| 0 <= i < ws.len() ==> wf_word(#[trigger] ws[i]),
    ensures
        dec_word_seq(enc_word_seq(ws) + tail, ws.len()) == Ok::<_, DecodeIssue>((ws, tail)),
    decreases ws.len(),
{
    if ws.len() == 0 {
        assert(enc_word_seq(ws) + tail =~= tail);
        assert(dec_word_seq(tail, 0) == Ok::<_, DecodeIssue>((Seq::<Seq<char>>::empty(), tail)));
        assert(ws =~= Seq::<Seq<char>>::empty());
    } else {
        let b = enc_word_seq(ws) + tail;
        assert(b =~= enc_word(ws[0]) + (enc_word_seq(ws.drop_first()) + tail));
        lemma_word_roundtrip(ws[0], enc_word_seq(ws.drop_first()) + tail);
        lemma_word_seq_roundtrip(ws.drop_first(), tail);
        assert(seq![ws[0]] + ws.drop_first() =~= ws);
    }
}

pub proof fn lemma_sentence_roundtrip(s: Seq<Seq<char>>, tail: Seq<u8>)
    requires
        wf_sentence(s),
    ensures
        dec_sentence(enc_sentence(s) + tail) == Ok::<_, DecodeIssue>((s, tail)),
{
    let n = s.len() as u32;
    let b = enc_sentence(s) + tail;
    assert(b =~= be32(n) + (enc_word_seq(s) + tail));
    assert(b[0] == be32(n)[0] && b[1] == be32(n)[1] && b[2] == be32(n)[2] && b[3] == be32(n)[3]);
    lemma_be32_roundtrip(n);
    assert(b.skip(4) =~= enc_word_seq(s) + tail);
    lemma_word_seq_roundtrip(s, tail);
}

pub proof fn lemma_sentence_seq_roundtrip(ss: Seq<Seq<Seq<char>>>, tail: Seq<u8>)
    requires
        forall|i: int| 0 <= i < ss.len() ==> wf_sentence(#[trigger] ss[i]),
    ensures
        dec_sentence_seq(enc_sentence_seq(ss) + tail, ss.len()) == Ok::<_, DecodeIssue>(
            (ss, tail),
        ),
    decreases ss.len(),
{
    if ss.len() == 0 {
        assert(enc_sentence_seq(ss) + tail =~= tail);
        assert(ss =~= Seq::<Seq<Seq<char>>>::empty());
    } else {
        let b = enc_sentence_seq(ss) + tail;
        assert(b =~= enc_sentence(ss[0]) + (enc_sentence_seq(ss.drop_first()) + tail));
        lemma_sentence_roundtrip(ss[0], enc_sentence_seq(ss.drop_first()) + tail);
        lemma_sentence_seq_roundtrip(ss.drop_first(), tail);
        assert(seq![ss[0]] + ss.drop_first() =~= ss);
    }
}

/// A pool decodes from its own encoding: the sentences are stored reversed
/// and reversed back, so the in-memory order is recovered exactly.
pub proof fn lemma_pool_roundtrip(p: Seq<Seq<Seq<char>>>, tail: Seq<u8>)
    requires
        wf_pool(p),
    ensures
        dec_pool(enc_pool(p) + tail) == Ok::<_, DecodeIssue>((p, tail)),
{
    let n = p.len() as u32;
    let b = enc_pool(p) + tail;
    assert(b =~= be32(n) + (enc_sentence_seq(p.reverse()) + tail));
    assert(b[0] == be32(n)[0] && b[1] == be32(n)[1] && b[2] == be32(n)[2] && b[3] == be32(n)[3]);
    lemma_be32_roundtrip(n);
    assert(b.skip(4) =~= enc_sentence_seq(p.reverse()) + tail);
    assert(forall|i: int| 0 <= i < p.reverse().len() ==> wf_sentence(#[trigger] p.reverse()[i]));
    lemma_sentence_seq_roundtrip(p.reverse(), tail);
    assert(p.reverse().reverse() =~= p);
}

/// Pool order inversion: a pool whose in-memory order is newest first is
/// written as the generic sequence encoding of its reverse, and decoding
/// reverses it back, so the in-memory order is recovered exactly.
pub proof fn lemma_pool_order_inversion(p: Seq<Seq<Seq<char>>>, tail: Seq<u8>)
    requires
        wf_pool(p),
    ensures
        enc_pool(p) == be32(p.len() as u32) + enc_sentence_seq(p.reverse()),
        dec_pool(enc_pool(p) + tail) == Ok::<_, DecodeIssue>((p, tail)),
{
    lemma_pool_roundtrip(p, tail);
}

/// Pools decode back from their back-to-back encodings once the input ends
/// where the encoding ends.
pub proof fn lemma_pool_seq_roundtrip(ps: Seq<Seq<Seq<Seq<char>>>>)
    requires
        wf_pools(ps),
    ensures
        dec_pool_seq(enc_pool_seq(ps)) == Ok::<_, DecodeIssue>(ps),
    decreases ps.len(),
{
    if ps.len() == 0 {
        assert(enc_pool_seq(ps).len() == 0);
        assert(ps =~= Seq::<Seq<Seq<Seq<char>>>>::empty());
    } else {
        let b = enc_pool_seq(ps);
        let rest = enc_pool_seq(ps.drop_first());
        assert(b =~= enc_pool(ps[0]) + rest);
        lemma_pool_roundtrip(ps[0], rest);
        lemma_pool_seq_roundtrip(ps.drop_first());
        assert(enc_pool(ps[0]).len() >= 4) by {
            assert(enc_pool(ps[0]) =~= be32(ps[0].len() as u32) + enc_sentence_seq(
                ps[0].reverse(),
            ));
        }
        assert(b.len() > 0);
        lemma_dec_pool_consumes(b);
        lemma_dec_pool_seq_fuel(rest, (b.len() - 1) as nat);
        assert(seq![ps[0]] + ps.drop_first() =~= ps);
    }
}

} // verus!
