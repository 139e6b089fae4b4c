//! HPACK header compression (RFC 7541): the variable-length integer codec,
//! the encoder primitives for the header-field representations, the bounded
//! dynamic table, and the decoder that turns a header block into a header list.
//!
//! This file holds the integer codec (RFC 7541 Section 5.1) and the free
//! functions that build encoded representations from scratch.

use vstd::prelude::*;

pub mod dyn_table;
pub mod hpack;
pub mod static_table;

verus! {

use vstd::arithmetic::power2::pow2;
use vstd::arithmetic::power2::lemma2_to64;
use vstd::arithmetic::power2::lemma_pow2_adds;
use vstd::arithmetic::power2::lemma_pow2_pos;
use vstd::arithmetic::power2::lemma_pow2_strictly_increases;
use vstd::arithmetic::div_mod::lemma_fundamental_div_mod;

/// The error kinds a codec operation can surface.
///
/// * `Truncated` — the input ended inside an integer, string or representation.
/// * `InvalidIndex` — a table index of zero where zero is not the new-name
///   sentinel, or one that refers to no existing table slot.
/// * `IntegerOverflow` — a decoded integer exceeds the 32-bit maximum this
///   codec accepts.
/// * `InvalidHuffman` — a string literal carries the Huffman flag; the Huffman
///   transform is an external collaborator this core does not embed, so such
///   payloads are rejected rather than misread.
/// * `CompressionError` — a semantic violation, such as a dynamic-table size
///   update after the start of the block body or one above the negotiated
///   maximum.
#[derive(Clone, Copy, Debug, PartialEq, Eq, Structural)]
pub enum HpackError {
    Truncated,
    InvalidIndex,
    IntegerOverflow,
    InvalidHuffman,
    CompressionError,
}

/// Base-128 continuation octets for the remainder of an integer that did not
/// fit its prefix: little-endian 7-bit groups, high bit set on every octet but
/// the last.
pub open spec fn cont_enc(r: nat) -> Seq<u8>
    decreases r,
{
    if r < 128 {
        seq![r as u8]
    } else {
        seq![((r % 128) + 128) as u8] + cont_enc(r / 128)
    }
}

/// Canonical encoding of integer `i` with an `n`-bit prefix, flag bits clear:
/// one octet when `i` fits below the all-ones prefix, otherwise the all-ones
/// prefix followed by base-128 continuation octets.
pub open spec fn int_enc(n: nat, i: nat) -> Seq<u8>
    recommends
        1 <= n <= 8,
{
    if i < pow2(n) - 1 {
        seq![i as u8]
    } else {
        seq![(pow2(n) - 1) as u8] + cont_enc((i - (pow2(n) - 1)) as nat)
    }
}

/// Adds flag bits to the first octet of an encoding. Meaningful when the flag
/// bits are disjoint from the bits already present, as they are for every
/// representation this codec emits.
pub open spec fn with_flag(s: Seq<u8>, flag: u8) -> Seq<u8>
    recommends
        s.len() > 0,
        s[0] + flag <= 255,
{
    s.update(0, (s[0] + flag) as u8)
}

/// Decoding of the continuation octets: `acc` is the value gathered so far and
/// `m` the current shift. Mirrors the executable loop octet for octet. The
/// shift is capped at 28 and the gathered value at `u32::MAX`, so every
/// accepted integer fits 32 bits.
pub open spec fn cont_dec(s: Seq<u8>, pos: int, acc: nat, m: nat) -> Result<(nat, int), HpackError>
    decreases s.len() - pos,
{
    if m > 28 {
        Err(HpackError::IntegerOverflow)
    } else if pos < 0 || pos >= s.len() {
        Err(HpackError::Truncated)
    } else {
        let b = s[pos];
        let acc2 = acc + (b as nat % 128) * pow2(m);
        if acc2 > u32::MAX as nat {
            Err(HpackError::IntegerOverflow)
        } else if b >= 128 {
            cont_dec(s, pos + 1, acc2, m + 7)
        } else {
            Ok((acc2, pos + 1))
        }
    }
}

/// Decoding of an integer with an `n`-bit prefix starting at `pos`: the value
/// and the position just past its last octet, or the error the executable
/// decoder reports on that input.
pub open spec fn int_dec(s: Seq<u8>, pos: int, n: nat) -> Result<(nat, int), HpackError>
    recommends
        1 <= n <= 8,
{
    if pos < 0 || pos >= s.len() {
        Err(HpackError::Truncated)
    } else {
        let p = (s[pos] as nat) % pow2(n);
        if p < pow2(n) - 1 {
            Ok((p, pos + 1))
        } else {
            cont_dec(s, pos + 1, (pow2(n) - 1) as nat, 0)
        }
    }
}

/// The all-ones value of an `n`-bit prefix, `2^n - 1`.
fn prefix_mask(n: u32) -> (r: u32)
    requires
        1 <= n <= 8,
    ensures
        r as nat == pow2(n as nat) - 1,
        1 <= r <= 255,
{
    proof {
        lemma2_to64();
    }
    match n {
        1 => 1,
        2 => 3,
        3 => 7,
        4 => 15,
        5 => 31,
        6 => 63,
        7 => 127,
        _ => 255,
    }
}

/// Encodes `number` with an `n`-bit prefix as per RFC 7541 Section 5.1,
/// appending the octets to `vec`. The flag bits of the first octet are left
/// clear for the caller to mask.
pub fn encode_int(n: u32, number: u32, vec: Vec<u8>) -> (r: Vec<u8>)
    requires
        1 <= n <= 8,
    ensures
        r@ == vec@ + int_enc(n as nat, number as nat),
{
    let ghost target = vec@ + int_enc(n as nat, number as nat);
    let mut v = vec;
    let max_prefix = prefix_mask(n);
    if number < max_prefix {
        v.push(number as u8);
        proof {
            assert(v@ =~= target);
        }
        v
    } else {
        v.push(max_prefix as u8);
        let mut i: u32 = number - max_prefix;
        proof {
            assert(v@ + cont_enc(i as nat) =~= target);
        }
        while i >= 128
            invariant
                v@ + cont_enc(i as nat) == target,
            decreases i,
        {
            let b: u8 = ((i % 128) + 128) as u8;
            proof {
                assert(cont_enc(i as nat) == seq![b] + cont_enc((i / 128) as nat));
                assert(v@.push(b) + cont_enc((i / 128) as nat) =~= v@ + cont_enc(i as nat));
            }
            v.push(b);
            i = i / 128;
        }
        proof {
            assert(v@.push(i as u8) =~= v@ + cont_enc(i as nat));
        }
        v.push(i as u8);
        v
    }
}

/// Decodes an integer with an `n`-bit prefix from `stream` starting at `pos`,
/// returning the value and the position just past its last octet. Rejects
/// values that do not fit 32 bits with `IntegerOverflow` and inputs that end
/// mid-integer with `Truncated`.
pub fn decode_int_at(stream: &Vec<u8>, pos: usize, n: u32) -> (r: Result<(u32, usize), HpackError>)
    requires
        1 <= n <= 8,
        pos <= stream@.len(),
    ensures
        match int_dec(stream@, pos as int, n as nat) {
            Ok(vp) => r matches Ok(e) && e.0 as nat == vp.0 && e.1 as int == vp.1 && pos < e.1
                <= stream@.len(),
            Err(e) => r == Err::<(u32, usize), HpackError>(e),
        },
{
    if pos >= stream.len() {
        return Err(HpackError::Truncated);
    }
    let b = stream[pos];
    let max_prefix = prefix_mask(n);
    let p: u32 = (b as u32) % (max_prefix + 1);
    proof {
        assert(p as nat == (stream@[pos as int] as nat) % pow2(n as nat));
    }
    if p < max_prefix {
        return Ok((p, pos + 1));
    }
    let mut acc: u64 = max_prefix as u64;
    let mut m: u32 = 0;
    let mut mult: u64 = 1;
    let mut i: usize = pos + 1;
    proof {
        lemma2_to64();
    }
    loop
        invariant
            pos < i <= stream@.len(),
            m <= 35,
            m % 7 == 0,
            mult as nat == pow2(m as nat),
            acc <= u32::MAX,
            int_dec(stream@, pos as int, n as nat) == cont_dec(
                stream@,
                i as int,
                acc as nat,
                m as nat,
            ),
        decreases stream@.len() - i,
    {
        if m > 28 {
            return Err(HpackError::IntegerOverflow);
        }
        if i >= stream.len() {
            return Err(HpackError::Truncated);
        }
        let b2 = stream[i];
        proof {
            lemma2_to64();
            assert(pow2(m as nat) <= pow2(28)) by {
                if m < 28 {
                    vstd::arithmetic::power2::lemma_pow2_strictly_increases(m as nat, 28);
                }
            }
            assert((b2 % 128) as nat * mult as nat <= 127 * pow2(28)) by (nonlinear_arith)
                requires
                    mult as nat == pow2(m as nat),
                    pow2(m as nat) <= pow2(28),
                    b2 % 128 <= 127,
            ;
        }
        let add_part: u64 = ((b2 % 128) as u64) * mult;
        i = i + 1;
        acc = acc + add_part;
        if acc > u32::MAX as u64 {
            return Err(HpackError::IntegerOverflow);
        }
        if b2 < 128 {
            return Ok((acc as u32, i));
        }
        proof {
            assert(pow2((m + 7) as nat) == pow2(m as nat) * 128) by {
                vstd::arithmetic::power2::lemma_pow2_adds(m as nat, 7);
            }
        }
        m = m + 7;
        mult = mult * 128;
    }
}

/// Decodes an integer with an `n`-bit prefix from the front of `vec`,
/// returning the value and the remaining octets.
pub fn decode_int(vec: Vec<u8>, n: u32) -> (r: Result<(u32, Vec<u8>), HpackError>)
    requires
        1 <= n <= 8,
    ensures
        match int_dec(vec@, 0, n as nat) {
            Ok(vp) => r matches Ok(p) && p.0 as nat == vp.0 && p.1@ == vec@.subrange(
                vp.1,
                vec@.len() as int,
            ),
            Err(e) => r == Err::<(u32, Vec<u8>), HpackError>(e),
        },
{
    match decode_int_at(&vec, 0, n) {
        Ok((value, p)) => {
            let mut rest: Vec<u8> = Vec::new();
            let mut j = p;
            while j < vec.len()
                invariant
                    p <= j <= vec@.len(),
                    rest@ == vec@.subrange(p as int, j as int),
                decreases vec@.len() - j,
            {
                rest.push(vec[j]);
                proof {
                    assert(vec@.subrange(p as int, j + 1) =~= vec@.subrange(p as int, j as int)
                        + seq![vec@[j as int]]);
                }
                j = j + 1;
            }
            Ok((value, rest))
        },
        Err(e) => Err(e),
    }
}

/// Sets the given flag bits on the first octet of `vec` with a bitwise or, as
/// the representation builders do after encoding a prefix integer.
pub fn mask_first_byte(vec: Vec<u8>, mask: u8) -> (r: Vec<u8>)
    requires
        vec@.len() > 0,
    ensures
        r@ == vec@.update(0, vec@[0] | mask),
{
    let ghost orig = vec@;
    let mut v = vec;
    let b = v.remove(0);
    v.insert(0, b | mask);
    proof {
        assert(v@ =~= orig.update(0, orig[0] | mask));
    }
    v
}

/// The wire form of an indexed header field (RFC 7541 Section 6.1): a prefix-7
/// integer with the `1xxxxxxx` flag bit set.
pub open spec fn spec_indexed_repr(i: nat) -> Seq<u8> {
    with_flag(int_enc(7, i), 128)
}

/// The wire form of a string literal (RFC 7541 Section 5.2): its octet length
/// as a prefix-7 integer whose top bit is the Huffman flag, then the octets.
pub open spec fn spec_string_enc(s: Seq<u8>, huffman: bool) -> Seq<u8> {
    if huffman {
        with_flag(int_enc(7, s.len()), 128) + s
    } else {
        int_enc(7, s.len()) + s
    }
}

/// The wire form of a literal header field with incremental indexing whose
/// name is a table reference (RFC 7541 Section 6.2.1): the index as a prefix-6
/// integer under the `01` flag, then the value string.
pub open spec fn spec_literal_indexed_name(index: nat, value: Seq<u8>, huffman: bool) -> Seq<u8> {
    with_flag(int_enc(6, index), 64) + spec_string_enc(value, huffman)
}

/// The wire form of a literal header field with incremental indexing that
/// carries a new name: the `01` flag octet with index zero, then the name and
/// value strings.
pub open spec fn spec_literal_new_name(name: Seq<u8>, value: Seq<u8>, huffman: bool) -> Seq<u8> {
    seq![64u8] + spec_string_enc(name, huffman) + spec_string_enc(value, huffman)
}

/// Appends the wire form of the string `s` to `vec`: the length under the
/// Huffman flag, then the octets. When the flag is set the octets are taken to
/// be the output of the external Huffman encoder.
fn encode_string_to(vec: Vec<u8>, s: &[u8], huffman: bool) -> (r: Vec<u8>)
    requires
        s@.len() <= u32::MAX,
    ensures
        r@ == vec@ + spec_string_enc(s@, huffman),
{
    proof {
        lemma2_to64();
    }
    let mut len_enc = encode_int(7, s.len() as u32, Vec::new());
    if huffman {
        proof {
            assert(int_enc(7, s@.len())[0] < 128);
        }
        len_enc = mask_first_byte(len_enc, 128);
        proof {
            let e = int_enc(7, s@.len());
            let b0: u8 = e[0];
            assert(b0 | 128 == b0 + 128) by (bit_vector)
                requires
                    b0 < 128,
            ;
            assert(len_enc@ =~= with_flag(e, 128));
        }
    }
    let mut v = vec;
    let ghost before = v@;
    v.append(&mut len_enc);
    let mut j: usize = 0;
    let ghost mid = v@;
    while j < s.len()
        invariant
            j <= s@.len(),
            v@ == mid + s@.subrange(0, j as int),
        decreases s@.len() - j,
    {
        v.push(s[j]);
        proof {
            assert(mid + s@.subrange(0, j + 1) =~= (mid + s@.subrange(0, j as int)).push(
                s@[j as int],
            ));
        }
        j = j + 1;
    }
    proof {
        assert(s@.subrange(0, s@.len() as int) =~= s@);
        assert(v@ =~= vec@ + spec_string_enc(s@, huffman));
    }
    v
}

/// Builds an indexed header field representation (RFC 7541 Section 6.1) for
/// the combined-table index `number`. Index zero is not a table reference and
/// yields `InvalidIndex`.
pub fn new_indexed(number: u32) -> (r: Result<Vec<u8>, HpackError>)
    ensures
        number == 0 ==> r == Err::<Vec<u8>, HpackError>(HpackError::InvalidIndex),
        number != 0 ==> (r matches Ok(v) && v@ == spec_indexed_repr(number as nat)),
{
    if number == 0 {
        Err(HpackError::InvalidIndex)
    } else {
        proof {
            lemma2_to64();
        }
        let enc = encode_int(7, number, Vec::new());
        proof {
            let e = int_enc(7, number as nat);
            assert(enc@ =~= e);
            let b0: u8 = e[0];
            assert(b0 | 128 == b0 + 128) by (bit_vector)
                requires
                    b0 < 128,
            ;
        }
        let masked = mask_first_byte(enc, 128);
        proof {
            assert(masked@ =~= spec_indexed_repr(number as nat));
        }
        Ok(masked)
    }
}

/// Builds a literal header field with incremental indexing (RFC 7541 Section
/// 6.2.1). With `name` given, the representation carries that new name;
/// otherwise `index` must reference a table entry and zero yields
/// `InvalidIndex`. The `huffman` flag is recorded on each string's length
/// octet; the octets themselves are emitted as given, so a caller setting the
/// flag hands in the output of the external Huffman encoder.
pub fn new_literal(value: &[u8], index: u32, name: Option<&[u8]>, huffman: bool) -> (r: Result<
    Vec<u8>,
    HpackError,
>)
    requires
        value@.len() <= u32::MAX,
        name matches Some(n) ==> n@.len() <= u32::MAX,
    ensures
        match name {
            Some(n) => r matches Ok(v) && v@ == spec_literal_new_name(n@, value@, huffman),
            None => if index == 0 {
                r == Err::<Vec<u8>, HpackError>(HpackError::InvalidIndex)
            } else {
                r matches Ok(v) && v@ == spec_literal_indexed_name(index as nat, value@, huffman)
            },
        },
{
    match name {
        Some(n) => {
            let mut payload: Vec<u8> = Vec::new();
            payload.push(64);
            proof {
                assert(payload@ =~= seq![64u8]);
            }
            let payload = encode_string_to(payload, n, huffman);
            let payload = encode_string_to(payload, value, huffman);
            proof {
                assert(payload@ =~= spec_literal_new_name(n@, value@, huffman));
            }
            Ok(payload)
        },
        None => {
            if index == 0 {
                Err(HpackError::InvalidIndex)
            } else {
                proof {
                    lemma2_to64();
                }
                let enc = encode_int(6, index, Vec::new());
                proof {
                    let e = int_enc(6, index as nat);
                    assert(enc@ =~= e);
                    let b0: u8 = e[0];
                    assert(b0 | 64 == b0 + 64) by (bit_vector)
                        requires
                            b0 < 64,
                    ;
                }
                let first = mask_first_byte(enc, 64);
                proof {
                    assert(first@ =~= with_flag(int_enc(6, index as nat), 64));
                }
                let payload = encode_string_to(first, value, huffman);
                Ok(payload)
            }
        },
    }
}

/// Rewrites a literal-with-incremental-indexing representation into a literal
/// without indexing (RFC 7541 Section 6.2.2): the prefix-6 name index is
/// re-encoded as a prefix-4 integer under the `0000` flag and the remainder is
/// kept. The input must start with a well-formed prefix-6 integer.
pub fn not_indexed(vec: Vec<u8>) -> (r: Vec<u8>)
    requires
        int_dec(vec@, 0, 6) is Ok,
    ensures
        (int_dec(vec@, 0, 6) matches Ok(vp) ==> r@ == int_enc(4, vp.0) + vec@.subrange(
            vp.1,
            vec@.len() as int,
        )),
{
    let ghost orig = vec@;
    let (index, rest) = match decode_int(vec, 6) {
        Ok(p) => p,
        Err(_) => {
            proof {
                assert(false);
            }
            (0, Vec::new())
        },
    };
    let mut re_encoded = encode_int(4, index, Vec::new());
    let mut rest = rest;
    re_encoded.append(&mut rest);
    proof {
        let vp = int_dec(orig, 0, 6)->Ok_0;
        assert(re_encoded@ =~= int_enc(4, vp.0) + orig.subrange(vp.1, orig.len() as int));
    }
    re_encoded
}

/// Rewrites a literal-with-incremental-indexing representation into a literal
/// never indexed (RFC 7541 Section 6.2.3): as `not_indexed`, but under the
/// `0001` flag.
pub fn never_indexed(vec: Vec<u8>) -> (r: Vec<u8>)
    requires
        int_dec(vec@, 0, 6) is Ok,
    ensures
        (int_dec(vec@, 0, 6) matches Ok(vp) ==> r@ == with_flag(int_enc(4, vp.0), 16)
            + vec@.subrange(vp.1, vec@.len() as int)),
{
    let ghost orig = vec@;
    let (index, rest) = match decode_int(vec, 6) {
        Ok(p) => p,
        Err(_) => {
            proof {
                assert(false);
            }
            (0, Vec::new())
        },
    };
    proof {
        lemma2_to64();
    }
    let enc = encode_int(4, index, Vec::new());
    proof {
        let e = int_enc(4, index as nat);
        assert(enc@ =~= e);
        let b0: u8 = e[0];
        assert(b0 | 16 == b0 + 16) by (bit_vector)
            requires
                b0 < 16,
        ;
    }
    let mut re_encoded = mask_first_byte(enc, 16);
    let mut rest = rest;
    re_encoded.append(&mut rest);
    proof {
        let vp = int_dec(orig, 0, 6)->Ok_0;
        assert(re_encoded@ =~= with_flag(int_enc(4, vp.0), 16) + orig.subrange(
            vp.1,
            orig.len() as int,
        ));
    }
    re_encoded
}

/// A continuation encoding placed at `pos` in `s` decodes back to the value it
/// encodes, advancing the cursor just past it.
proof fn lemma_cont_round_trip(s: Seq<u8>, pos: int, r: nat, acc: nat, m: nat)
    requires
        0 <= pos,
        pos + cont_enc(r).len() <= s.len(),
        s.subrange(pos, pos + cont_enc(r).len() as int) == cont_enc(r),
        m <= 28,
        m % 7 == 0,
        r < pow2((35 - m) as nat),
        acc + r * pow2(m) <= u32::MAX,
    ensures
        cont_dec(s, pos, acc, m) == Ok::<(nat, int), HpackError>(
            ((acc + r * pow2(m)) as nat, pos + cont_enc(r).len()),
        ),
    decreases r,
{
    let e = cont_enc(r);
    assert(s.subrange(pos, pos + e.len() as int)[0] == s[pos]);
    assert(s[pos] == e[0]);
    lemma2_to64();
    lemma_pow2_pos(m);
    if r < 128 {
        assert(e =~= seq![r as u8]);
        assert(s[pos] == r as u8);
        assert((s[pos] as nat % 128) * pow2(m) == r * pow2(m));
    } else {
        let b: u8 = ((r % 128) + 128) as u8;
        assert(e[0] == b);
        if m == 28 {
            assert(pow2((35 - m) as nat) == 128);
            assert(false);
        }
        assert(m + 7 <= 28);
        let r2 = r / 128;
        let rm = r % 128;
        lemma_fundamental_div_mod(r as int, 128);
        lemma_pow2_adds(m, 7);
        lemma_pow2_adds((28 - m) as nat, 7);
        assert(pow2((m + 7) as nat) == pow2(m) * 128);
        assert(pow2((35 - m) as nat) == pow2((28 - m) as nat) * 128);
        assert(r2 < pow2((28 - m) as nat)) by (nonlinear_arith)
            requires
                r < pow2((35 - m) as nat),
                pow2((35 - m) as nat) == pow2((28 - m) as nat) * 128,
                r2 == r / 128,
        ;
        let acc2 = acc + rm * pow2(m);
        assert(acc2 + r2 * pow2((m + 7) as nat) == acc + r * pow2(m)) by (nonlinear_arith)
            requires
                r == 128 * r2 + rm,
                pow2((m + 7) as nat) == pow2(m) * 128,
                acc2 == acc + rm * pow2(m),
        ;
        assert(r2 * pow2((m + 7) as nat) >= 0) by (nonlinear_arith)
            requires
                r2 >= 0,
                pow2((m + 7) as nat) >= 0,
        ;
        assert(acc2 <= u32::MAX);
        assert((s[pos] as nat % 128) == rm);
        assert(s[pos] >= 128);
        let e2 = cont_enc(r2);
        assert(e =~= seq![b] + e2);
        assert(s.subrange(pos + 1, pos + 1 + e2.len() as int) =~= e2) by {
            assert forall|k: int| 0 <= k < e2.len() implies s.subrange(
                pos + 1,
                pos + 1 + e2.len() as int,
            )[k] == e2[k] by {
                assert(s.subrange(pos, pos + e.len() as int)[k + 1] == s[pos + 1 + k]);
                assert(e[k + 1] == e2[k]);
            }
        }
        lemma_cont_round_trip(s, pos + 1, r2, acc2, (m + 7) as nat);
        assert(cont_dec(s, pos, acc, m) == cont_dec(s, pos + 1, acc2, (m + 7) as nat));
    }
}

/// A prefix-`n` integer encoding placed at `pos` in `s` decodes back to the
/// value it encodes, advancing the cursor just past it. The flag bits of the
/// octet at `pos` must be clear, as `int_enc` leaves them.
pub proof fn lemma_int_dec_of_enc(s: Seq<u8>, pos: int, n: nat, i: nat)
    requires
        1 <= n <= 8,
        0 <= pos,
        i <= u32::MAX,
        pos + int_enc(n, i).len() <= s.len(),
        s.subrange(pos, pos + int_enc(n, i).len() as int) == int_enc(n, i),
    ensures
        int_dec(s, pos, n) == Ok::<(nat, int), HpackError>((i, pos + int_enc(n, i).len())),
{
    lemma2_to64();
    let e = int_enc(n, i);
    assert(s.subrange(pos, pos + e.len() as int)[0] == s[pos]);
    assert(s[pos] == e[0]);
    assert(pow2(n) >= 2 && pow2(n) <= 256) by {
        lemma_pow2_pos(n);
        if n < 8 {
            lemma_pow2_strictly_increases(n, 8);
        }
        if 1 < n {
            lemma_pow2_strictly_increases(1, n);
        }
    }
    if i < pow2(n) - 1 {
        assert(e =~= seq![i as u8]);
        assert(s[pos] as nat == i);
        vstd::arithmetic::div_mod::lemma_small_mod(i, pow2(n));
        assert((s[pos] as nat) % pow2(n) == i);
    } else {
        assert(e[0] == (pow2(n) - 1) as u8);
        vstd::arithmetic::div_mod::lemma_small_mod((pow2(n) - 1) as nat, pow2(n));
        assert((s[pos] as nat) % pow2(n) == pow2(n) - 1);
        let r = (i - (pow2(n) - 1)) as nat;
        let acc = (pow2(n) - 1) as nat;
        assert(r < pow2(35)) by {
            lemma_pow2_strictly_increases(32, 35);
        }
        assert(pow2(0) == 1);
        assert(acc + r * pow2(0) == i);
        let e2 = cont_enc(r);
        assert(e =~= seq![e[0]] + e2);
        assert(s.subrange(pos + 1, pos + 1 + e2.len() as int) =~= e2) by {
            assert forall|k: int| 0 <= k < e2.len() implies s.subrange(
                pos + 1,
                pos + 1 + e2.len() as int,
            )[k] == e2[k] by {
                assert(s.subrange(pos, pos + e.len() as int)[k + 1] == s[pos + 1 + k]);
                assert(e[k + 1] == e2[k]);
            }
        }
        lemma_cont_round_trip(s, pos + 1, r, acc, 0);
    }
}

/// Law: for every integer up to the 32-bit maximum and every prefix width in
/// `1..=8`, decoding the encoding returns exactly the integer and consumes the
/// whole encoding, leaving no trailing octets.
pub proof fn lemma_int_codec_round_trip(n: nat, i: nat)
    requires
        1 <= n <= 8,
        i <= u32::MAX,
    ensures
        int_dec(int_enc(n, i), 0, n) == Ok::<(nat, int), HpackError>(
            (i, int_enc(n, i).len() as int),
        ),
{
    let e = int_enc(n, i);
    assert(e.subrange(0, e.len() as int) =~= e);
    lemma_int_dec_of_enc(e, 0, n, i);
}

/// Whatever the continuation decoder returns with success lies past the start
/// position, within the input, and within the 32-bit maximum.
pub proof fn lemma_cont_dec_bounds(s: Seq<u8>, pos: int, acc: nat, m: nat)
    ensures
        cont_dec(s, pos, acc, m) matches Ok(vp) ==> pos < vp.1 <= s.len() && vp.0 <= u32::MAX,
    decreases s.len() - pos,
{
    if m > 28 || pos < 0 || pos >= s.len() {
    } else {
        let b = s[pos];
        let acc2 = acc + (b as nat % 128) * pow2(m);
        if acc2 > u32::MAX as nat {
        } else if b >= 128 {
            lemma_cont_dec_bounds(s, pos + 1, acc2, m + 7);
        }
    }
}

/// Whatever the integer decoder returns with success lies past the start
/// position, within the input, and within the 32-bit maximum.
pub proof fn lemma_int_dec_bounds(s: Seq<u8>, pos: int, n: nat)
    requires
        1 <= n <= 8,
    ensures
        int_dec(s, pos, n) matches Ok(vp) ==> pos < vp.1 <= s.len() && vp.0 <= u32::MAX,
{
    if pos < 0 || pos >= s.len() {
    } else {
        let p = (s[pos] as nat) % pow2(n);
        if p < pow2(n) - 1 {
            assert(p <= 255) by {
                lemma2_to64();
                lemma_pow2_pos(n);
                if n < 8 {
                    lemma_pow2_strictly_increases(n, 8);
                }
            }
        } else {
            lemma_cont_dec_bounds(s, pos + 1, (pow2(n) - 1) as nat, 0);
        }
    }
}

} // verus!
