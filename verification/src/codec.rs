//! Canonical CBOR primitives.
//!
//! The engine's records are laid down in a deterministic CBOR subset:
//! unsigned integers, byte strings, UTF-8 text strings, arrays, maps with
//! text keys in a fixed order, and null. Every encoder is paired with a
//! parser whose contract says: wherever the buffer continues with the
//! encoding of a value, the parser yields exactly that value and stops
//! exactly behind it. Record round trips are proved from these contracts.

use vstd::prelude::*;
use vstd::utf8::{encode_utf8, decode_utf8, valid_utf8, encode_utf8_decode_utf8};

verus! {

/// 256 to the k-th power.
pub open spec fn pow256(k: nat) -> int
    decreases k,
{
    if k == 0 {
        1
    } else {
        256 * pow256((k - 1) as nat)
    }
}

/// Big-endian bytes of `n`, `k` bytes wide.
pub open spec fn be_bytes(n: int, k: nat) -> Seq<u8>
    decreases k,
{
    if k == 0 {
        Seq::empty()
    } else {
        be_bytes(n / 256, (k - 1) as nat).push((n % 256) as u8)
    }
}

/// The integer a big-endian byte sequence stands for.
pub open spec fn be_value(s: Seq<u8>) -> int
    decreases s.len(),
{
    if s.len() == 0 {
        0
    } else {
        be_value(s.drop_last()) * 256 + s.last()
    }
}

pub proof fn lemma_pow256_values()
    ensures
        pow256(0) == 1,
        pow256(1) == 0x100,
        pow256(2) == 0x10000,
        pow256(4) == 0x100000000,
        pow256(7) == 0x100000000000000,
        pow256(8) == 0x10000000000000000,
{
    assert(pow256(0) == 1);
    assert(pow256(1) == 0x100);
    assert(pow256(2) == 0x10000);
    assert(pow256(3) == 0x1000000);
    assert(pow256(4) == 0x100000000);
    assert(pow256(5) == 0x10000000000);
    assert(pow256(6) == 0x1000000000000);
    assert(pow256(7) == 0x100000000000000);
    assert(pow256(8) == 0x10000000000000000);
}

pub proof fn lemma_pow256_monotonic(j: nat, k: nat)
    requires
        j <= k,
    ensures
        pow256(j) <= pow256(k),
    decreases k,
{
    if j < k {
        lemma_pow256_monotonic(j, (k - 1) as nat);
        assert(pow256((k - 1) as nat) >= 1) by {
            lemma_pow256_positive((k - 1) as nat);
        }
    }
}

pub proof fn lemma_pow256_positive(k: nat)
    ensures
        pow256(k) >= 1,
    decreases k,
{
    if k > 0 {
        lemma_pow256_positive((k - 1) as nat);
    }
}

pub proof fn lemma_be_bytes_len(n: int, k: nat)
    ensures
        be_bytes(n, k).len() == k,
    decreases k,
{
    if k > 0 {
        lemma_be_bytes_len(n / 256, (k - 1) as nat);
    }
}

/// Reading back the big-endian bytes of `n` yields `n`.
pub proof fn lemma_be_value_of_be_bytes(n: int, k: nat)
    requires
        0 <= n < pow256(k),
    ensures
        be_value(be_bytes(n, k)) == n,
        be_bytes(n, k).len() == k,
    decreases k,
{
    lemma_be_bytes_len(n, k);
    if k == 0 {
    } else {
        assert(n / 256 < pow256((k - 1) as nat)) by {
            assert(pow256(k) == 256 * pow256((k - 1) as nat));
            assert(n < 256 * pow256((k - 1) as nat));
        };
        lemma_be_value_of_be_bytes(n / 256, (k - 1) as nat);
        let s = be_bytes(n, k);
        assert(s.drop_last() =~= be_bytes(n / 256, (k - 1) as nat));
        assert(s.last() == n % 256);
    }
}

/// The CBOR item header for major type `major` carrying the value or
/// length `v`, in the canonical minimal width.
pub open spec fn cbor_header(major: u8, v: u64) -> Seq<u8>
    recommends
        major < 8,
{
    if v < 24 {
        seq![(major * 32 + v) as u8]
    } else if v < 0x100 {
        seq![(major * 32 + 24) as u8] + be_bytes(v as int, 1)
    } else if v < 0x10000 {
        seq![(major * 32 + 25) as u8] + be_bytes(v as int, 2)
    } else if v < 0x100000000 {
        seq![(major * 32 + 26) as u8] + be_bytes(v as int, 4)
    } else {
        seq![(major * 32 + 27) as u8] + be_bytes(v as int, 8)
    }
}

/// Encoding of an unsigned integer item.
pub open spec fn enc_uint(v: u64) -> Seq<u8> {
    cbor_header(0, v)
}

/// Encoding of a byte-string item.
pub open spec fn enc_blob(b: Seq<u8>) -> Seq<u8>
    recommends
        b.len() < 0x10000000000000000,
{
    cbor_header(2, b.len() as u64) + b
}

/// Encoding of a text item: UTF-8 bytes behind a text header.
pub open spec fn enc_str(t: Seq<char>) -> Seq<u8>
    recommends
        encode_utf8(t).len() < 0x10000000000000000,
{
    cbor_header(3, encode_utf8(t).len() as u64) + encode_utf8(t)
}

/// Header of an array of `n` items.
pub open spec fn enc_arr(n: u64) -> Seq<u8> {
    cbor_header(4, n)
}

/// Header of a map of `n` pairs.
pub open spec fn enc_map(n: u64) -> Seq<u8> {
    cbor_header(5, n)
}

/// Encoding of null.
pub open spec fn enc_nil() -> Seq<u8> {
    seq![0xf6u8]
}

/// Splitting a concatenated prefix: each part is a prefix in turn.
pub proof fn lemma_prefix_split(s: Seq<u8>, a: Seq<u8>, b: Seq<u8>)
    requires
        (a + b).is_prefix_of(s),
    ensures
        a.is_prefix_of(s),
        b.is_prefix_of(s.skip(a.len() as int)),
{
    let al = a.len() as int;
    let bl = b.len() as int;
    assert(a =~= s.subrange(0, al));
    assert forall|t: int| 0 <= t < bl implies b[t] == s.skip(al)[t] by {
        assert((a + b)[al + t] == b[t]);
        assert((a + b)[al + t] == s.subrange(0, al + bl)[al + t]);
    };
    assert(b =~= s.skip(al).subrange(0, bl));
}

/// Concatenation reassociates.
pub proof fn lemma_concat_assoc(x: Seq<u8>, y: Seq<u8>, z: Seq<u8>)
    ensures
        (x + y) + z == x + (y + z),
{
    assert((x + y) + z =~= x + (y + z));
}

/// Skipping twice is skipping the sum.
pub proof fn lemma_skip_skip(s: Seq<u8>, i: int, j: int)
    requires
        0 <= i,
        0 <= j,
        i + j <= s.len(),
    ensures
        s.skip(i).skip(j) == s.skip(i + j),
{
    assert(s.skip(i).skip(j) =~= s.skip(i + j));
}

/// Appends the `k` big-endian bytes of `v`.
pub fn push_be_bytes(out: &mut Vec<u8>, v: u64, k: usize)
    requires
        k <= 8,
    ensures
        final(out)@ == old(out)@ + be_bytes(v as int, k as nat),
    decreases k,
{
    if k == 0 {
        proof {
            assert(out@ =~= old(out)@ + be_bytes(v as int, 0));
        }
    } else {
        push_be_bytes(out, v / 256, k - 1);
        out.push((v % 256) as u8);
        proof {
            assert(out@ =~= old(out)@ + be_bytes(v as int, k as nat));
        }
    }
}

/// Appends the canonical header for major type `major` and value `v`.
pub fn push_header(out: &mut Vec<u8>, major: u8, v: u64)
    requires
        major < 8,
    ensures
        final(out)@ == old(out)@ + cbor_header(major, v),
{
    if v < 24 {
        out.push(major * 32 + v as u8);
        proof {
            assert(out@ =~= old(out)@ + cbor_header(major, v));
        }
    } else if v < 0x100 {
        out.push(major * 32 + 24);
        push_be_bytes(out, v, 1);
        proof {
            assert(out@ =~= old(out)@ + cbor_header(major, v));
        }
    } else if v < 0x10000 {
        out.push(major * 32 + 25);
        push_be_bytes(out, v, 2);
        proof {
            assert(out@ =~= old(out)@ + cbor_header(major, v));
        }
    } else if v < 0x100000000 {
        out.push(major * 32 + 26);
        push_be_bytes(out, v, 4);
        proof {
            assert(out@ =~= old(out)@ + cbor_header(major, v));
        }
    } else {
        out.push(major * 32 + 27);
        push_be_bytes(out, v, 8);
        proof {
            assert(out@ =~= old(out)@ + cbor_header(major, v));
        }
    }
}

/// Appends an unsigned integer item.
pub fn push_uint(out: &mut Vec<u8>, v: u64)
    ensures
        final(out)@ == old(out)@ + enc_uint(v),
{
    push_header(out, 0, v);
}

/// Appends a byte-string item.
pub fn push_blob(out: &mut Vec<u8>, b: &Vec<u8>)
    ensures
        final(out)@ == old(out)@ + enc_blob(b@),
{
    push_header(out, 2, b.len() as u64);
    let mut i: usize = 0;
    while i < b.len()
        invariant
            0 <= i <= b@.len(),
            out@ == old(out)@ + cbor_header(2, b@.len() as u64) + b@.subrange(0, i as int),
        decreases b@.len() - i,
    {
        out.push(b[i]);
        i = i + 1;
        proof {
            assert(out@ =~= old(out)@ + cbor_header(2, b@.len() as u64) + b@.subrange(
                0,
                i as int,
            ));
        }
    }
    proof {
        assert(b@.subrange(0, b@.len() as int) =~= b@);
        assert(out@ =~= old(out)@ + enc_blob(b@));
    }
}

/// Appends a text item.
pub fn push_str(out: &mut Vec<u8>, t: &str)
    ensures
        final(out)@ == old(out)@ + enc_str(t@),
{
    let bytes = t.as_bytes();
    let v = vstd::slice::slice_to_vec(bytes);
    push_header(out, 3, v.len() as u64);
    let mut i: usize = 0;
    while i < v.len()
        invariant
            0 <= i <= v@.len(),
            v@ == encode_utf8(t@),
            out@ == old(out)@ + cbor_header(3, encode_utf8(t@).len() as u64) + v@.subrange(
                0,
                i as int,
            ),
        decreases v@.len() - i,
    {
        out.push(v[i]);
        i = i + 1;
        proof {
            assert(out@ =~= old(out)@ + cbor_header(3, encode_utf8(t@).len() as u64)
                + v@.subrange(0, i as int));
        }
    }
    proof {
        assert(v@.subrange(0, v@.len() as int) =~= v@);
        assert(out@ =~= old(out)@ + enc_str(t@));
    }
}

/// Appends a null item.
pub fn push_nil(out: &mut Vec<u8>)
    ensures
        final(out)@ == old(out)@ + enc_nil(),
{
    out.push(0xf6);
    proof {
        assert(out@ =~= old(out)@ + enc_nil());
    }
}

/// Copies `buf[a..b]` out into a fresh vector.
pub fn vec_slice(buf: &Vec<u8>, a: usize, b: usize) -> (r: Vec<u8>)
    requires
        a <= b <= buf@.len(),
    ensures
        r@ == buf@.subrange(a as int, b as int),
{
    let mut r: Vec<u8> = Vec::new();
    let mut i: usize = a;
    while i < b
        invariant
            a <= i <= b <= buf@.len(),
            r@ == buf@.subrange(a as int, i as int),
        decreases b - i,
    {
        r.push(buf[i]);
        i = i + 1;
        proof {
            assert(r@ =~= buf@.subrange(a as int, i as int));
        }
    }
    proof {
        assert(r@ =~= buf@.subrange(a as int, b as int));
    }
    r
}

/// Reads `k` big-endian bytes at `i` as an integer.
fn read_be_value(buf: &Vec<u8>, i: usize, k: usize) -> (r: u64)
    requires
        k <= 8,
        i + k <= buf@.len(),
    ensures
        r as int == be_value(buf@.subrange(i as int, i + k as int)),
        r < pow256(k as nat),
{
    let mut v: u64 = 0;
    let mut j: usize = 0;
    proof {
        lemma_pow256_values();
        vstd::std_specs::vec::axiom_spec_len(buf);
        assert(buf@.subrange(i as int, i as int) =~= Seq::<u8>::empty());
    }
    while j < k
        invariant
            0 <= j <= k <= 8,
            i + k <= buf@.len(),
            buf@.len() <= usize::MAX,
            v as int == be_value(buf@.subrange(i as int, i + j as int)),
            v < pow256(j as nat),
        decreases k - j,
    {
        proof {
            lemma_pow256_values();
            lemma_pow256_monotonic(j as nat, 7);
            assert(buf@.subrange(i as int, i + j + 1 as int).drop_last() =~= buf@.subrange(
                i as int,
                i + j as int,
            ));
        }
        v = v * 256 + buf[i + j] as u64;
        j = j + 1;
    }
    proof {
        lemma_pow256_monotonic(k as nat, 8);
        lemma_pow256_values();
    }
    v
}

/// Parses a CBOR item header at `i`: wherever the buffer continues with a
/// canonical header, the exact major type and value come back, together
/// with the position just behind the header.
pub fn parse_header(buf: &Vec<u8>, i: usize) -> (r: Option<(u8, u64, usize)>)
    requires
        i <= buf@.len(),
    ensures
        forall|m: u8, v: u64|
            m < 8 && (#[trigger] cbor_header(m, v)).is_prefix_of(buf@.skip(i as int)) ==> r
                == Some((m, v, (i + cbor_header(m, v).len()) as usize)),
        r matches Some(t) ==> i < t.2 <= buf@.len(),
{
    if i >= buf.len() {
        return None;
    }
    let b0 = buf[i];
    let major = b0 / 32;
    let info = b0 % 32;
    let remaining = buf.len() - i;
    proof {
        lemma_pow256_values();
    }
    if info < 24 {
        let r = Some((major, info as u64, i + 1));
        proof {
            lemma_header_first_byte(buf@, i as int, b0, r);
        }
        r
    } else if info == 24 {
        if remaining < 2 {
            proof {
                lemma_header_too_short(buf@, i as int, b0);
            }
            return None;
        }
        let v = read_be_value(buf, i + 1, 1);
        let r = Some((major, v, i + 2));
        proof {
            lemma_header_ext(buf@, i as int, b0, 1, v, r);
        }
        r
    } else if info == 25 {
        if remaining < 3 {
            proof {
                lemma_header_too_short(buf@, i as int, b0);
            }
            return None;
        }
        let v = read_be_value(buf, i + 1, 2);
        let r = Some((major, v, i + 3));
        proof {
            lemma_header_ext(buf@, i as int, b0, 2, v, r);
        }
        r
    } else if info == 26 {
        if remaining < 5 {
            proof {
                lemma_header_too_short(buf@, i as int, b0);
            }
            return None;
        }
        let v = read_be_value(buf, i + 1, 4);
        let r = Some((major, v, i + 5));
        proof {
            lemma_header_ext(buf@, i as int, b0, 4, v, r);
        }
        r
    } else if info == 27 {
        if remaining < 9 {
            proof {
                lemma_header_too_short(buf@, i as int, b0);
            }
            return None;
        }
        let v = read_be_value(buf, i + 1, 8);
        let r = Some((major, v, i + 9));
        proof {
            lemma_header_ext(buf@, i as int, b0, 8, v, r);
        }
        r
    } else {
        proof {
            assert forall|m: u8, v: u64|
                m < 8 && (#[trigger] cbor_header(m, v)).is_prefix_of(
                    buf@.skip(i as int),
                ) implies false by {
                assert(cbor_header(m, v)[0] == buf@[i as int]);
            };
        }
        None
    }
}

/// The ext-byte count that follows a header whose low bits are `info`.
pub open spec fn ext_len_of_info(info: u8) -> int {
    if info == 24 {
        1
    } else if info == 25 {
        2
    } else if info == 26 {
        4
    } else if info == 27 {
        8
    } else {
        0
    }
}

pub proof fn lemma_header_shape(m: u8, v: u64)
    requires
        m < 8,
    ensures
        1 <= cbor_header(m, v).len() <= 9,
        cbor_header(m, v)[0] / 32 == m,
        cbor_header(m, v)[0] % 32 == if v < 24 {
            v as u8
        } else if v < 0x100 {
            24u8
        } else if v < 0x10000 {
            25u8
        } else if v < 0x100000000 {
            26u8
        } else {
            27u8
        },
        cbor_header(m, v).len() == 1 + ext_len_of_info(cbor_header(m, v)[0] % 32),
{
    lemma_be_bytes_len(v as int, 1);
    lemma_be_bytes_len(v as int, 2);
    lemma_be_bytes_len(v as int, 4);
    lemma_be_bytes_len(v as int, 8);
    if v < 24 {
        assert(cbor_header(m, v)[0] == (m * 32 + v) as u8);
        assert((m * 32 + v) / 32 == m as int);
        assert((m * 32 + v) % 32 == v as int);
    } else if v < 0x100 {
        assert((m * 32 + 24) / 32 == m as int);
        assert((m * 32 + 24) % 32 == 24int);
    } else if v < 0x10000 {
        assert((m * 32 + 25) / 32 == m as int);
        assert((m * 32 + 25) % 32 == 25int);
    } else if v < 0x100000000 {
        assert((m * 32 + 26) / 32 == m as int);
        assert((m * 32 + 26) % 32 == 26int);
    } else {
        assert((m * 32 + 27) / 32 == m as int);
        assert((m * 32 + 27) % 32 == 27int);
    }
}

proof fn lemma_header_first_byte(s: Seq<u8>, i: int, b0: u8, r: Option<(u8, u64, usize)>)
    requires
        0 <= i < s.len(),
        s[i] == b0,
        b0 % 32 < 24,
        r == Some(((b0 / 32) as u8, (b0 % 32) as u64, (i + 1) as usize)),
        i + 1 <= usize::MAX,
    ensures
        forall|m: u8, v: u64|
            m < 8 && (#[trigger] cbor_header(m, v)).is_prefix_of(s.skip(i)) ==> r == Some(
                (m, v, (i + cbor_header(m, v).len()) as usize),
            ),
{
    assert forall|m: u8, v: u64|
        m < 8 && (#[trigger] cbor_header(m, v)).is_prefix_of(s.skip(i)) implies r == Some(
        (m, v, (i + cbor_header(m, v).len()) as usize),
    ) by {
        lemma_header_shape(m, v);
        assert(cbor_header(m, v)[0] == s.skip(i)[0]);
        assert(s.skip(i)[0] == b0);
        assert(cbor_header(m, v)[0] % 32 == b0 % 32);
        assert(v < 24);
        assert(cbor_header(m, v)[0] == (m * 32 + v) as u8);
        assert(m == b0 / 32 && v == b0 % 32);
        assert(cbor_header(m, v).len() == 1);
    };
}

proof fn lemma_header_too_short(s: Seq<u8>, i: int, b0: u8)
    requires
        0 <= i < s.len(),
        s[i] == b0,
        24 <= b0 % 32 <= 27,
        s.len() - i < 2 + ext_len_of_info(b0 % 32) - 1,
    ensures
        forall|m: u8, v: u64|
            m < 8 ==> !(#[trigger] cbor_header(m, v)).is_prefix_of(s.skip(i)),
{
    assert forall|m: u8, v: u64|
        m < 8 implies !(#[trigger] cbor_header(m, v)).is_prefix_of(s.skip(i)) by {
        lemma_header_shape(m, v);
        if cbor_header(m, v).is_prefix_of(s.skip(i)) {
            assert(cbor_header(m, v)[0] == s.skip(i)[0]);
            assert(cbor_header(m, v)[0] == b0);
            assert(cbor_header(m, v).len() == 1 + ext_len_of_info(b0 % 32));
            assert(cbor_header(m, v).len() <= s.skip(i).len());
        }
    };
}

proof fn lemma_header_ext(s: Seq<u8>, i: int, b0: u8, k: int, w: u64, r: Option<(u8, u64, usize)>)
    requires
        0 <= i < s.len(),
        s[i] == b0,
        24 <= b0 % 32 <= 27,
        k == ext_len_of_info(b0 % 32),
        i + 1 + k <= s.len(),
        i + 1 + k <= usize::MAX,
        w as int == be_value(s.subrange(i + 1, i + 1 + k)),
        r == Some(((b0 / 32) as u8, w, (i + 1 + k) as usize)),
    ensures
        forall|m: u8, v: u64|
            m < 8 && (#[trigger] cbor_header(m, v)).is_prefix_of(s.skip(i)) ==> r == Some(
                (m, v, (i + cbor_header(m, v).len()) as usize),
            ),
{
    assert forall|m: u8, v: u64|
        m < 8 && (#[trigger] cbor_header(m, v)).is_prefix_of(s.skip(i)) implies r == Some(
        (m, v, (i + cbor_header(m, v).len()) as usize),
    ) by {
        lemma_header_shape(m, v);
        lemma_pow256_values();
        let h = cbor_header(m, v);
        assert(h[0] == s.skip(i)[0]);
        assert(h[0] == b0);
        assert(m == b0 / 32);
        assert(h[0] % 32 == b0 % 32);
        assert(h.len() == 1 + k);
        // The ext bytes of the header equal the buffer's bytes there.
        let ext = h.subrange(1, 1 + k);
        assert(ext =~= s.subrange(i + 1, i + 1 + k)) by {
            assert forall|t: int| 0 <= t < k implies ext[t] == s.subrange(i + 1, i + 1 + k)[t] by {
                assert(h[1 + t] == s.skip(i)[1 + t]);
            };
        };
        // The header's ext bytes are the big-endian bytes of v.
        if b0 % 32 == 24 {
            assert(24 <= v < 0x100) by {
                lemma_header_shape(m, v);
            };
            assert(ext =~= be_bytes(v as int, 1));
            lemma_be_value_of_be_bytes(v as int, 1);
        } else if b0 % 32 == 25 {
            assert(ext =~= be_bytes(v as int, 2));
            assert(v < 0x10000);
            lemma_be_value_of_be_bytes(v as int, 2);
        } else if b0 % 32 == 26 {
            assert(ext =~= be_bytes(v as int, 4));
            assert(v < 0x100000000);
            lemma_be_value_of_be_bytes(v as int, 4);
        } else {
            assert(ext =~= be_bytes(v as int, 8));
            assert(v < 0x10000000000000000) by {
                lemma_pow256_values();
            };
            assert((v as int) < pow256(8)) by {
                lemma_pow256_values();
            };
            lemma_be_value_of_be_bytes(v as int, 8);
        }
        assert(w == v);
    };
}

/// Parses an unsigned integer item.
pub fn parse_uint(buf: &Vec<u8>, i: usize) -> (r: Option<(u64, usize)>)
    requires
        i <= buf@.len(),
    ensures
        forall|v: u64|
            (#[trigger] enc_uint(v)).is_prefix_of(buf@.skip(i as int)) ==> r == Some(
                (v, (i + enc_uint(v).len()) as usize),
            ),
        r matches Some(t) ==> i < t.1 <= buf@.len(),
{
    match parse_header(buf, i) {
        Some((m, v, j)) => {
            if m == 0 {
                Some((v, j))
            } else {
                None
            }
        },
        None => None,
    }
}

/// Parses a byte-string item.
pub fn parse_blob(buf: &Vec<u8>, i: usize) -> (r: Option<(Vec<u8>, usize)>)
    requires
        i <= buf@.len(),
    ensures
        forall|d: Seq<u8>|
            (#[trigger] enc_blob(d)).is_prefix_of(buf@.skip(i as int)) ==> (r matches Some(t)
                && t.0@ == d && t.1 == i + enc_blob(d).len()),
        r matches Some(t) ==> i < t.1 <= buf@.len(),
{
    match parse_header(buf, i) {
        Some((m, v, j)) => {
            if m != 2 {
                return None;
            }
            if v > (buf.len() - j) as u64 {
                proof {
                    vstd::std_specs::vec::axiom_spec_len(buf);
                    assert forall|d: Seq<u8>|
                        (#[trigger] enc_blob(d)).is_prefix_of(buf@.skip(i as int)) implies false by {
                        lemma_blob_parts(buf@, i as int, d);
                    };
                }
                return None;
            }
            let l = v as usize;
            let data = vec_slice(buf, j, j + l);
            let r = Some((data, j + l));
            proof {
                vstd::std_specs::vec::axiom_spec_len(buf);
                assert forall|d: Seq<u8>|
                    (#[trigger] enc_blob(d)).is_prefix_of(buf@.skip(i as int)) implies (r matches
                Some(t) && t.0@ == d && t.1 == i + enc_blob(d).len()) by {
                    lemma_blob_parts(buf@, i as int, d);
                };
            }
            r
        },
        None => None,
    }
}

/// From a blob prefix at `i`: the header is a prefix, and the data bytes
/// sit right behind the header.
proof fn lemma_blob_parts(s: Seq<u8>, i: int, d: Seq<u8>)
    requires
        0 <= i <= s.len(),
        s.len() < 0x10000000000000000,
        enc_blob(d).is_prefix_of(s.skip(i)),
    ensures
        cbor_header(2, d.len() as u64).is_prefix_of(s.skip(i)),
        d.len() < 0x10000000000000000,
        d =~= s.subrange(
            i + cbor_header(2, d.len() as u64).len(),
            i + cbor_header(2, d.len() as u64).len() + d.len(),
        ),
        i + enc_blob(d).len() <= s.len(),
{
    lemma_prefix_split(s.skip(i), cbor_header(2, d.len() as u64), d);
    let hl = cbor_header(2, d.len() as u64).len() as int;
    assert(d.is_prefix_of(s.skip(i).skip(hl)));
    lemma_skip_skip(s, i, hl);
    assert(d =~= s.skip(i + hl).subrange(0, d.len() as int));
    assert(d =~= s.subrange(i + hl, i + hl + d.len()));
}

/// Parses a text item into an owned string.
pub fn parse_str(buf: &Vec<u8>, i: usize) -> (r: Option<(String, usize)>)
    requires
        i <= buf@.len(),
    ensures
        forall|t: Seq<char>|
            (#[trigger] enc_str(t)).is_prefix_of(buf@.skip(i as int)) ==> (r matches Some(p)
                && p.0@ == t && p.1 == i + enc_str(t).len()),
        r matches Some(p) ==> i < p.1 <= buf@.len(),
{
    match parse_header(buf, i) {
        Some((m, v, j)) => {
            if m != 3 {
                return None;
            }
            if v > (buf.len() - j) as u64 {
                proof {
                    vstd::std_specs::vec::axiom_spec_len(buf);
                    assert forall|t: Seq<char>|
                        (#[trigger] enc_str(t)).is_prefix_of(buf@.skip(i as int)) implies false by {
                        lemma_str_parts(buf@, i as int, t);
                    };
                }
                return None;
            }
            let l = v as usize;
            let data = vec_slice(buf, j, j + l);
            match string_from_utf8(data) {
                Some(s) => {
                    let r = Some((s, j + l));
                    proof {
                        vstd::std_specs::vec::axiom_spec_len(buf);
                        assert forall|t: Seq<char>|
                            (#[trigger] enc_str(t)).is_prefix_of(
                                buf@.skip(i as int),
                            ) implies (r matches Some(p) && p.0@ == t && p.1 == i + enc_str(
                            t,
                        ).len()) by {
                            lemma_str_parts(buf@, i as int, t);
                            encode_utf8_decode_utf8(t);
                        };
                    }
                    r
                },
                None => {
                    proof {
                        vstd::std_specs::vec::axiom_spec_len(buf);
                        assert forall|t: Seq<char>|
                            (#[trigger] enc_str(t)).is_prefix_of(
                                buf@.skip(i as int),
                            ) implies false by {
                            lemma_str_parts(buf@, i as int, t);
                            vstd::utf8::encode_utf8_valid_utf8(t);
                        };
                    }
                    None
                },
            }
        },
        None => None,
    }
}

proof fn lemma_str_parts(s: Seq<u8>, i: int, t: Seq<char>)
    requires
        0 <= i <= s.len(),
        s.len() < 0x10000000000000000,
        enc_str(t).is_prefix_of(s.skip(i)),
    ensures
        cbor_header(3, encode_utf8(t).len() as u64).is_prefix_of(s.skip(i)),
        encode_utf8(t).len() < 0x10000000000000000,
        encode_utf8(t) =~= s.subrange(
            i + cbor_header(3, encode_utf8(t).len() as u64).len(),
            i + cbor_header(3, encode_utf8(t).len() as u64).len() + encode_utf8(t).len(),
        ),
        i + enc_str(t).len() <= s.len(),
{
    lemma_prefix_split(s.skip(i), cbor_header(3, encode_utf8(t).len() as u64), encode_utf8(t));
    let hl = cbor_header(3, encode_utf8(t).len() as u64).len() as int;
    lemma_skip_skip(s, i, hl);
    assert(encode_utf8(t) =~= s.skip(i + hl).subrange(0, encode_utf8(t).len() as int));
    assert(encode_utf8(t) =~= s.subrange(i + hl, i + hl + encode_utf8(t).len()));
}

/// Relies on `String::from_utf8`: yields the text whose UTF-8 encoding is
/// the given bytes, or nothing when the bytes are not valid UTF-8.
#[verifier::external_body]
fn string_from_utf8(v: Vec<u8>) -> (r: Option<String>)
    ensures
        r matches Some(s) ==> valid_utf8(v@) && s@ == decode_utf8(v@),
        r is None ==> !valid_utf8(v@),
{
    String::from_utf8(v).ok()
}

/// Parses an array header, yielding the item count.
pub fn parse_arr(buf: &Vec<u8>, i: usize) -> (r: Option<(u64, usize)>)
    requires
        i <= buf@.len(),
    ensures
        forall|n: u64|
            (#[trigger] enc_arr(n)).is_prefix_of(buf@.skip(i as int)) ==> r == Some(
                (n, (i + enc_arr(n).len()) as usize),
            ),
        r matches Some(t) ==> i < t.1 <= buf@.len(),
{
    match parse_header(buf, i) {
        Some((m, v, j)) => {
            if m == 4 {
                Some((v, j))
            } else {
                None
            }
        },
        None => None,
    }
}

/// Parses a map header, yielding the pair count.
pub fn parse_map(buf: &Vec<u8>, i: usize) -> (r: Option<(u64, usize)>)
    requires
        i <= buf@.len(),
    ensures
        forall|n: u64|
            (#[trigger] enc_map(n)).is_prefix_of(buf@.skip(i as int)) ==> r == Some(
                (n, (i + enc_map(n).len()) as usize),
            ),
        r matches Some(t) ==> i < t.1 <= buf@.len(),
{
    match parse_header(buf, i) {
        Some((m, v, j)) => {
            if m == 5 {
                Some((v, j))
            } else {
                None
            }
        },
        None => None,
    }
}

/// Parses a null item.
pub fn parse_nil(buf: &Vec<u8>, i: usize) -> (r: Option<usize>)
    requires
        i <= buf@.len(),
    ensures
        enc_nil().is_prefix_of(buf@.skip(i as int)) ==> r == Some((i + 1) as usize),
        r matches Some(j) ==> i < j <= buf@.len() && buf@[i as int] == 0xf6,
        r is None && i < buf@.len() ==> buf@[i as int] != 0xf6,
{
    if i < buf.len() && buf[i] == 0xf6 {
        Some(i + 1)
    } else {
        proof {
            if enc_nil().is_prefix_of(buf@.skip(i as int)) {
                assert(enc_nil()[0] == buf@.skip(i as int)[0]);
            }
        }
        None
    }
}

/// Parses a text key and accepts it only when it is exactly `key`.
pub fn expect_key(buf: &Vec<u8>, i: usize, key: &str) -> (r: Option<usize>)
    requires
        i <= buf@.len(),
    ensures
        enc_str(key@).is_prefix_of(buf@.skip(i as int)) ==> r == Some(
            (i + enc_str(key@).len()) as usize,
        ),
        r matches Some(j) ==> i < j <= buf@.len(),
{
    match parse_header(buf, i) {
        Some((m, v, j)) => {
            if m != 3 {
                proof {
                    vstd::std_specs::vec::axiom_spec_len(buf);
                    if enc_str(key@).is_prefix_of(buf@.skip(i as int)) {
                        lemma_str_parts(buf@, i as int, key@);
                    }
                }
                return None;
            }
            if v > (buf.len() - j) as u64 {
                proof {
                    vstd::std_specs::vec::axiom_spec_len(buf);
                    if enc_str(key@).is_prefix_of(buf@.skip(i as int)) {
                        lemma_str_parts(buf@, i as int, key@);
                    }
                }
                return None;
            }
            let l = v as usize;
            let data = vec_slice(buf, j, j + l);
            let expect = vstd::slice::slice_to_vec(key.as_bytes());
            if data == expect {
                let r = Some(j + l);
                proof {
                    vstd::std_specs::vec::axiom_spec_len(buf);
                    if enc_str(key@).is_prefix_of(buf@.skip(i as int)) {
                        lemma_str_parts(buf@, i as int, key@);
                    }
                }
                r
            } else {
                proof {
                    vstd::std_specs::vec::axiom_spec_len(buf);
                    if enc_str(key@).is_prefix_of(buf@.skip(i as int)) {
                        lemma_str_parts(buf@, i as int, key@);
                        assert(data@ =~= expect@);
                    }
                }
                None
            }
        },
        None => None,
    }
}

/// Compares two texts by their UTF-8 bytes; equal bytes mean equal texts.
pub fn str_eq(a: &str, b: &str) -> (r: bool)
    ensures
        r == (a@ == b@),
{
    let av = vstd::slice::slice_to_vec(a.as_bytes());
    let bv = vstd::slice::slice_to_vec(b.as_bytes());
    let r = av == bv;
    proof {
        if r {
            assert(encode_utf8(a@) =~= encode_utf8(b@));
            encode_utf8_decode_utf8(a@);
            encode_utf8_decode_utf8(b@);
        }
    }
    r
}

/// Two canonical headers of one major type starting at the same place
/// carry the same value.
pub proof fn lemma_header_unique(s: Seq<u8>, m: u8, v1: u64, v2: u64)
    requires
        m < 8,
        cbor_header(m, v1).is_prefix_of(s),
        cbor_header(m, v2).is_prefix_of(s),
    ensures
        v1 == v2,
{
    lemma_header_shape(m, v1);
    lemma_header_shape(m, v2);
    lemma_pow256_values();
    let h1 = cbor_header(m, v1);
    let h2 = cbor_header(m, v2);
    assert(h1[0] == s[0]);
    assert(h2[0] == s[0]);
    assert(h1[0] % 32 == h2[0] % 32);
    if v1 < 24 {
        assert(h1[0] == (m * 32 + v1) as u8);
        assert(h2[0] == (m * 32 + v2) as u8);
    } else {
        let k = ext_len_of_info(h1[0] % 32);
        let e1 = h1.subrange(1, 1 + k);
        let e2 = h2.subrange(1, 1 + k);
        assert(e1 =~= e2) by {
            assert forall|t: int| 0 <= t < k implies e1[t] == e2[t] by {
                assert(h1[1 + t] == s[1 + t]);
                assert(h2[1 + t] == s[1 + t]);
            };
        };
        if h1[0] % 32 == 24 {
            assert(e1 =~= be_bytes(v1 as int, 1));
            assert(e2 =~= be_bytes(v2 as int, 1));
            lemma_be_value_of_be_bytes(v1 as int, 1);
            lemma_be_value_of_be_bytes(v2 as int, 1);
        } else if h1[0] % 32 == 25 {
            assert(e1 =~= be_bytes(v1 as int, 2));
            assert(e2 =~= be_bytes(v2 as int, 2));
            lemma_be_value_of_be_bytes(v1 as int, 2);
            lemma_be_value_of_be_bytes(v2 as int, 2);
        } else if h1[0] % 32 == 26 {
            assert(e1 =~= be_bytes(v1 as int, 4));
            assert(e2 =~= be_bytes(v2 as int, 4));
            lemma_be_value_of_be_bytes(v1 as int, 4);
            lemma_be_value_of_be_bytes(v2 as int, 4);
        } else {
            assert(e1 =~= be_bytes(v1 as int, 8));
            assert(e2 =~= be_bytes(v2 as int, 8));
            lemma_be_value_of_be_bytes(v1 as int, 8);
            lemma_be_value_of_be_bytes(v2 as int, 8);
        }
    }
}

/// Two integer items starting at the same place agree.
pub proof fn lemma_enc_uint_unique(s: Seq<u8>, v1: u64, v2: u64)
    requires
        enc_uint(v1).is_prefix_of(s),
        enc_uint(v2).is_prefix_of(s),
    ensures
        v1 == v2,
{
    lemma_header_unique(s, 0, v1, v2);
}

/// Two byte-string items starting at the same place agree, byte for
/// byte and in length.
pub proof fn lemma_enc_blob_unique(s: Seq<u8>, d1: Seq<u8>, d2: Seq<u8>)
    requires
        s.len() < 0x10000000000000000,
        enc_blob(d1).is_prefix_of(s),
        enc_blob(d2).is_prefix_of(s),
    ensures
        d1 == d2,
        enc_blob(d1) == enc_blob(d2),
{
    lemma_blob_parts(s, 0, d1);
    lemma_blob_parts(s, 0, d2);
    lemma_header_unique(s, 2, d1.len() as u64, d2.len() as u64);
    assert(d1.len() == d2.len());
    let hl = cbor_header(2, d1.len() as u64).len() as int;
    assert(d1 =~= s.subrange(hl, hl + d1.len()));
    assert(d2 =~= s.subrange(hl, hl + d2.len()));
    assert(enc_blob(d1) =~= enc_blob(d2));
}

/// Two text items starting at the same place agree, character for
/// character.
pub proof fn lemma_enc_str_unique(s: Seq<u8>, t1: Seq<char>, t2: Seq<char>)
    requires
        s.len() < 0x10000000000000000,
        enc_str(t1).is_prefix_of(s),
        enc_str(t2).is_prefix_of(s),
    ensures
        t1 == t2,
        enc_str(t1) == enc_str(t2),
{
    lemma_str_parts(s, 0, t1);
    lemma_str_parts(s, 0, t2);
    lemma_header_unique(s, 3, encode_utf8(t1).len() as u64, encode_utf8(t2).len() as u64);
    assert(encode_utf8(t1).len() == encode_utf8(t2).len());
    let hl = cbor_header(3, encode_utf8(t1).len() as u64).len() as int;
    assert(encode_utf8(t1) =~= s.subrange(hl, hl + encode_utf8(t1).len()));
    assert(encode_utf8(t2) =~= s.subrange(hl, hl + encode_utf8(t2).len()));
    encode_utf8_decode_utf8(t1);
    encode_utf8_decode_utf8(t2);
    assert(enc_str(t1) =~= enc_str(t2));
}

} // verus!
