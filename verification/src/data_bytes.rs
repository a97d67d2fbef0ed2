use vstd::prelude::*;

use crate::data::{History, Pool};
use crate::de_bytes::{data_issue_error, utf8_error_text, BytesDeserializer};
use crate::error::Error;
use crate::format::{
    be32, dec_pool, dec_pool_seq, dec_u32, enc_history, enc_pool_seq, lemma_be32_roundtrip,
    lemma_dec_pool_consumes, lemma_dec_pool_seq_fuel, lemma_pool_seq_roundtrip, wf_pools,
    DecodeIssue,
};
use vstd::string::{StrSliceExecFns, StringExecFns};

verus! {

/// The fixed 4-byte file magic of a history blob.
pub const MAGIC: u32 = 0x000FC315;

/// Version tag of the legacy format: the pools follow the header directly.
pub const FORMAT_VERSION_V2: u32 = 0x02;

/// Version tag of the compressed format: the bytes after the header are one
/// compressed block holding exactly three pool encodings.
pub const FORMAT_VERSION_V3: u32 = 0x03;

/// Ceiling on decompressed size: a compressed body that inflates past this
/// is rejected as fatal.
pub const DECOMPRESSION_CEILING: usize = 10485760;

// ------------------------------------------------------------------
// Hexadecimal rendering for the header error messages
// ------------------------------------------------------------------
/// The lower-case hex digit for a nibble.
pub open spec fn spec_hex_digit(d: u8) -> char {
    if d == 0 {
        '0'
    } else if d == 1 {
        '1'
    } else if d == 2 {
        '2'
    } else if d == 3 {
        '3'
    } else if d == 4 {
        '4'
    } else if d == 5 {
        '5'
    } else if d == 6 {
        '6'
    } else if d == 7 {
        '7'
    } else if d == 8 {
        '8'
    } else if d == 9 {
        '9'
    } else if d == 10 {
        'a'
    } else if d == 11 {
        'b'
    } else if d == 12 {
        'c'
    } else if d == 13 {
        'd'
    } else if d == 14 {
        'e'
    } else {
        'f'
    }
}

/// `n` written as exactly eight lower-case hex digits, most significant first.
pub open spec fn spec_hex8(n: u32) -> Seq<char> {
    Seq::new(8, |i: int| spec_hex_digit(((n >> ((28 - 4 * i) as u32)) & 0xf) as u8))
}

/// Renders `n` as eight lower-case hex digits.
pub fn hex8(n: u32) -> (s: String)
    ensures
        s@ == spec_hex8(n),
{
    let digits = "0123456789abcdef";
    proof {
        reveal_strlit("0123456789abcdef");
        assert(digits.is_ascii()) by {
            assert(forall|k: int|
                0 <= k < 16 ==> (#[trigger] digits@[k]) as u32 <= 0x7f) by {
                assert(digits@ =~= "0123456789abcdef"@);
            }
        }
    }
    let mut s = String::new();
    let mut i: u32 = 0;
    while i < 8
        invariant
            0 <= i <= 8,
            digits@ == "0123456789abcdef"@,
            digits.is_ascii(),
            digits@.len() == 16,
            s@ =~= spec_hex8(n).take(i as int),
        decreases 8 - i,
    {
        let shift: u32 = 28 - 4 * i;
        let x: u32 = (n >> shift) & 0xf;
        proof {
            assert(x < 16) by (bit_vector)
                requires
                    x == (n >> shift) & 0xf,
            ;
        }
        let d = x as usize;
        let piece = digits.substring_ascii(d, d + 1);
        s.append(piece);
        proof {
            reveal_strlit("0123456789abcdef");
            assert(piece@ =~= seq![digits@[d as int]]);
            assert(digits@[d as int] == spec_hex_digit(d as u8));
            assert(spec_hex8(n)[i as int] == spec_hex_digit(d as u8));
            assert(s@ =~= spec_hex8(n).take(i + 1));
        }
        i += 1;
    }
    assert(spec_hex8(n).take(8) =~= spec_hex8(n));
    s
}

// ------------------------------------------------------------------
// Header error messages: expected and actual values are both reported
// ------------------------------------------------------------------
/// Text reported for a wrong file magic.
pub open spec fn spec_magic_error_text(got: u32) -> Seq<char> {
    "Invalid history magic (expected 0x"@ + spec_hex8(MAGIC) + ", got 0x"@ + spec_hex8(got) + ")"@
}

/// Text reported for an unrecognized format version.
pub open spec fn spec_version_error_text(got: u32) -> Seq<char> {
    "Unsupported format version (expected 0x"@ + spec_hex8(FORMAT_VERSION_V2) + " or 0x"@
        + spec_hex8(FORMAT_VERSION_V3) + ", got 0x"@ + spec_hex8(got) + ")"@
}

fn magic_error_message(got: u32) -> (s: String)
    ensures
        s@ == spec_magic_error_text(got),
{
    let mut s = "Invalid history magic (expected 0x".to_owned();
    s.append(hex8(MAGIC).as_str());
    s.append(", got 0x");
    s.append(hex8(got).as_str());
    s.append(")");
    s
}

fn version_error_message(got: u32) -> (s: String)
    ensures
        s@ == spec_version_error_text(got),
{
    let mut s = "Unsupported format version (expected 0x".to_owned();
    s.append(hex8(FORMAT_VERSION_V2).as_str());
    s.append(" or 0x");
    s.append(hex8(FORMAT_VERSION_V3).as_str());
    s.append(", got 0x");
    s.append(hex8(got).as_str());
    s.append(")");
    s
}

// ------------------------------------------------------------------
// Decompression of the version-3 body
// ------------------------------------------------------------------
/// What a well-formed compressed block inflates to; a corrupt block has no
/// such content. Decompression is a pure function of the block's bytes.
pub uninterp spec fn zstd_inflate(b: Seq<u8>) -> Option<Seq<u8>>;

/// Relies on zstd::bulk::decompress: it returns the decompressed content of
/// the block, which depends on the block's bytes alone, and fails exactly
/// when the block is malformed or its content exceeds `capacity` bytes.
#[verifier::external_body]
fn zstd_decompress(b: &[u8], capacity: usize) -> (r: Result<Vec<u8>, Error>)
    ensures
        match r {
            Ok(v) => zstd_inflate(b@) == Some(v@) && v@.len() <= capacity,
            Err(e) => e is DeserializeError && match zstd_inflate(b@) {
                Some(d) => d.len() > capacity,
                None => true,
            },
        },
{
    match zstd::bulk::decompress(b, capacity) {
        Ok(v) => Ok(v),
        Err(e) => Err(Error::DeserializeError(format!("ZSTD decompression failed: {}", e))),
    }
}

// ------------------------------------------------------------------
// The versioned history decode
// ------------------------------------------------------------------
/// A version-3 body: exactly three pool encodings back to back, with no
/// wrapping sequence count; bytes past the third pool are ignored.
pub open spec fn dec_three_pools(d: Seq<u8>) -> Result<Seq<Seq<Seq<Seq<char>>>>, DecodeIssue> {
    match dec_pool(d) {
        Err(e) => Err(e),
        Ok((p0, r0)) => match dec_pool(r0) {
            Err(e) => Err(e),
            Ok((p1, r1)) => match dec_pool(r1) {
                Err(e) => Err(e),
                Ok((p2, _)) => Ok(seq![p0, p1, p2]),
            },
        },
    }
}

/// The whole blob: magic, version, then the version's own body. The legacy
/// body is pools until end of input; the compressed body is a block that
/// must inflate to at most the ceiling and hold exactly three pools.
pub open spec fn dec_history(b: Seq<u8>) -> Result<
    (u32, u32, Seq<Seq<Seq<Seq<char>>>>),
    DecodeIssue,
> {
    match dec_u32(b) {
        Err(e) => Err(e),
        Ok((magic, r)) => if magic != MAGIC {
            Err(DecodeIssue::Magic(magic))
        } else {
            match dec_u32(r) {
                Err(e) => Err(e),
                Ok((version, r2)) => if version == FORMAT_VERSION_V2 {
                    match dec_pool_seq(r2) {
                        Err(e) => Err(e),
                        Ok(ps) => Ok((magic, version, ps)),
                    }
                } else if version == FORMAT_VERSION_V3 {
                    match zstd_inflate(r2) {
                        None => Err(DecodeIssue::Block),
                        Some(d) => if d.len() > DECOMPRESSION_CEILING {
                            Err(DecodeIssue::Block)
                        } else {
                            match dec_three_pools(d) {
                                Err(e) => Err(e),
                                Ok(ps) => Ok((magic, version, ps)),
                            }
                        },
                    }
                } else {
                    Err(DecodeIssue::Version(version))
                },
            }
        },
    }
}

/// How `Error` renders each decode issue of a whole history blob.
pub open spec fn history_issue_error(issue: DecodeIssue, e: Error) -> bool {
    match issue {
        DecodeIssue::Eof => e is EofError,
        DecodeIssue::Utf8 => e matches Error::Message(m) && m@ == utf8_error_text(),
        DecodeIssue::Magic(got) => e matches Error::DeserializeError(m) && m@
            == spec_magic_error_text(got),
        DecodeIssue::Version(got) => e matches Error::DeserializeError(m) && m@
            == spec_version_error_text(got),
        DecodeIssue::Block => e is DeserializeError,
    }
}

impl History {
    /// Builds a history from a binary blob: a 4-byte magic, a 4-byte format
    /// version, then the pools, stored directly (legacy version) or inside
    /// one compressed block (compressed version). All integers big-endian.
    pub fn load_from_bytes(content: &[u8]) -> (r: Result<History, Error>)
        ensures
            match dec_history(content@) {
                Ok((m, v, ps)) => r matches Ok(h) && h.magic == m && h.format_version == v
                    && h.pools.deep_view() == ps,
                Err(issue) => r matches Err(e) && history_issue_error(issue, e),
            },
    {
        let mut de = BytesDeserializer::new(content);
        let magic = match de.parse_u32() {
            Ok(m) => m,
            Err(e) => {
                return Err(e);
            },
        };
        if magic != MAGIC {
            return Err(Error::DeserializeError(magic_error_message(magic)));
        }
        let version = match de.parse_u32() {
            Ok(v) => v,
            Err(e) => {
                return Err(e);
            },
        };
        if version == FORMAT_VERSION_V2 {
            let ghost b0 = de@;
            let mut pools: Vec<Pool> = Vec::new();
            while !de.ended()
                invariant
                    dec_u32(content@) matches Ok((m0, rest0)) && m0 == MAGIC && (dec_u32(rest0)
                        matches Ok((v0, rest1)) && v0 == FORMAT_VERSION_V2 && rest1 == b0),
                    magic == MAGIC && version == FORMAT_VERSION_V2,
                    match dec_pool_seq(de@) {
                        Ok(ps) => dec_pool_seq(b0) == Ok::<_, DecodeIssue>(
                            pools.deep_view() + ps,
                        ),
                        Err(e) => dec_pool_seq(b0) == Err::<Seq<Seq<Seq<Seq<char>>>>, _>(e),
                    },
                decreases de@.len(),
            {
                let ghost pre = de@;
                proof {
                    lemma_dec_pool_consumes(pre);
                }
                match de.decode_pool() {
                    Ok(p) => {
                        proof {
                            let (pv, rest) = dec_pool(pre)->Ok_0;
                            lemma_dec_pool_seq_fuel(rest, (pre.len() - 1) as nat);
                            match dec_pool_seq(de@) {
                                Ok(ps2) => {
                                    assert(pools.deep_view() + (seq![pv] + ps2) =~= pools.deep_view()
                                        + seq![pv] + ps2);
                                },
                                Err(_) => (),
                            }
                        }
                        let ghost prev_pools = pools.deep_view();
                        pools.push(p);
                        proof {
                            let (pv, rest) = dec_pool(pre)->Ok_0;
                            assert(pools.deep_view() =~= prev_pools + seq![pv]);
                        }
                    },
                    Err(e) => {
                        return Err(e);
                    },
                }
            }
            proof {
                assert(dec_pool_seq(de@) == Ok::<_, DecodeIssue>(
                    Seq::<Seq<Seq<Seq<char>>>>::empty(),
                ));
                assert(pools.deep_view() + Seq::<Seq<Seq<Seq<char>>>>::empty()
                    =~= pools.deep_view());
            }
            Ok(History { magic, format_version: version, pools })
        } else if version == FORMAT_VERSION_V3 {
            let rest = de.take_rest();
            let body = match zstd_decompress(rest, DECOMPRESSION_CEILING) {
                Ok(v) => v,
                Err(e) => {
                    return Err(e);
                },
            };
            let mut de2 = BytesDeserializer::new(body.as_slice());
            let p0 = match de2.decode_pool() {
                Ok(p) => p,
                Err(e) => {
                    return Err(e);
                },
            };
            let p1 = match de2.decode_pool() {
                Ok(p) => p,
                Err(e) => {
                    return Err(e);
                },
            };
            let p2 = match de2.decode_pool() {
                Ok(p) => p,
                Err(e) => {
                    return Err(e);
                },
            };
            let mut pools: Vec<Pool> = Vec::new();
            pools.push(p0);
            pools.push(p1);
            pools.push(p2);
            proof {
                assert(pools.deep_view() =~= dec_three_pools(body@)->Ok_0);
            }
            Ok(History { magic, format_version: version, pools })
        } else {
            Err(Error::DeserializeError(version_error_message(version)))
        }
    }
}

/// Decoding the encoding of any well-formed legacy history gives the very
/// pools, magic and version back: the binary codec round-trips.
#[verifier::rlimit(50)]
pub proof fn lemma_history_roundtrip(ps: Seq<Seq<Seq<Seq<char>>>>)
    requires
        wf_pools(ps),
    ensures
        dec_history(enc_history(MAGIC, FORMAT_VERSION_V2, ps)) == Ok::<_, DecodeIssue>(
            (MAGIC, FORMAT_VERSION_V2, ps),
        ),
{
    let b = enc_history(MAGIC, FORMAT_VERSION_V2, ps);
    assert(b =~= be32(MAGIC) + (be32(FORMAT_VERSION_V2) + enc_pool_seq(ps)));
    assert(b[0] == be32(MAGIC)[0] && b[1] == be32(MAGIC)[1] && b[2] == be32(MAGIC)[2] && b[3]
        == be32(MAGIC)[3]);
    lemma_be32_roundtrip(MAGIC);
    let r = b.skip(4);
    assert(r =~= be32(FORMAT_VERSION_V2) + enc_pool_seq(ps));
    assert(r[0] == be32(FORMAT_VERSION_V2)[0] && r[1] == be32(FORMAT_VERSION_V2)[1] && r[2]
        == be32(FORMAT_VERSION_V2)[2] && r[3] == be32(FORMAT_VERSION_V2)[3]);
    lemma_be32_roundtrip(FORMAT_VERSION_V2);
    assert(r.skip(4) =~= enc_pool_seq(ps));
    lemma_pool_seq_roundtrip(ps);
}

} // verus!
