//! Domain-separated state digests over SHA-256, and the byte framing they use.

use crate::ids::StateDigest;
use sha2::Digest;
use vstd::prelude::*;
use vstd::string::*;

verus! {

/// The SHA-256 digest of a byte string, as computed by the `sha2` crate.
pub uninterp spec fn sha256_spec(data: Seq<u8>) -> Seq<u8>;

/// Calls `sha2::Sha256::digest`. Trusted: the result is the SHA-256 digest of
/// `data` (a function of `data` alone) and is 32 bytes long; nothing else about
/// the hash is stated.
#[verifier::external_body]
fn sha256(data: &[u8]) -> (out: Vec<u8>)
    ensures
        out@ == sha256_spec(data@),
        out@.len() == 32,
{
    sha2::Sha256::digest(data).to_vec()
}

/// Big-endian bytes of a `u64`.
pub open spec fn u64_be(n: u64) -> Seq<u8> {
    seq![
        (n >> 56u64) as u8,
        (n >> 48u64) as u8,
        (n >> 40u64) as u8,
        (n >> 32u64) as u8,
        (n >> 24u64) as u8,
        (n >> 16u64) as u8,
        (n >> 8u64) as u8,
        n as u8,
    ]
}

/// Big-endian bytes of a `u32`.
pub open spec fn u32_be(n: u32) -> Seq<u8> {
    seq![(n >> 24u32) as u8, (n >> 16u32) as u8, (n >> 8u32) as u8, n as u8]
}

/// The `u64` whose big-endian bytes start `b`.
pub open spec fn be_u64(b: Seq<u8>) -> u64 {
    ((b[0] as u64) << 56u64) | ((b[1] as u64) << 48u64) | ((b[2] as u64) << 40u64) | ((
    b[3] as u64) << 32u64) | ((b[4] as u64) << 24u64) | ((b[5] as u64) << 16u64) | ((
    b[6] as u64) << 8u64) | (b[7] as u64)
}

/// Appends the big-endian bytes of `n`.
pub fn push_u64_be(out: &mut Vec<u8>, n: u64)
    ensures
        final(out)@ == old(out)@ + u64_be(n),
{
    out.push((n >> 56u64) as u8);
    out.push((n >> 48u64) as u8);
    out.push((n >> 40u64) as u8);
    out.push((n >> 32u64) as u8);
    out.push((n >> 24u64) as u8);
    out.push((n >> 16u64) as u8);
    out.push((n >> 8u64) as u8);
    out.push(n as u8);
    assert(out@ =~= old(out)@ + u64_be(n));
}

/// Appends the big-endian bytes of `n`.
pub fn push_u32_be(out: &mut Vec<u8>, n: u32)
    ensures
        final(out)@ == old(out)@ + u32_be(n),
{
    out.push((n >> 24u32) as u8);
    out.push((n >> 16u32) as u8);
    out.push((n >> 8u32) as u8);
    out.push(n as u8);
    assert(out@ =~= old(out)@ + u32_be(n));
}

/// Appends every byte of `bytes`, in order.
pub fn push_bytes(out: &mut Vec<u8>, bytes: &[u8])
    ensures
        final(out)@ == old(out)@ + bytes@,
{
    let ghost start = out@;
    let mut i: usize = 0;
    while i < bytes.len()
        invariant
            i <= bytes@.len(),
            out@ == start + bytes@.subrange(0, i as int),
        decreases bytes@.len() - i,
    {
        out.push(bytes[i]);
        i = i + 1;
        assert(out@ =~= start + bytes@.subrange(0, i as int));
    }
    assert(bytes@.subrange(0, bytes@.len() as int) =~= bytes@);
}

/// The framing of one labelled domain inside digest material: the label's
/// length and bytes, then the data's length and bytes.
pub open spec fn domain_frame(label: Seq<u8>, data: Seq<u8>) -> Seq<u8> {
    u64_be(label.len() as u64) + label + u64_be(data.len() as u64) + data
}

/// The 128-bit digest of complete digest material: the first sixteen bytes of
/// its SHA-256 digest, read big-endian.
pub open spec fn digest_of(material: Seq<u8>) -> StateDigest {
    let h = sha256_spec(material);
    StateDigest { high: be_u64(h.subrange(0, 8)), low: be_u64(h.subrange(8, 16)) }
}

/// Accumulates labelled domains and produces a [`StateDigest`] over them.
#[derive(Debug)]
pub struct StateDigestBuilder {
    material: Vec<u8>,
}

impl View for StateDigestBuilder {
    type V = Seq<u8>;

    closed spec fn view(&self) -> Seq<u8> {
        self.material@
    }
}

impl StateDigestBuilder {
    pub fn new() -> (b: StateDigestBuilder)
        ensures
            b@ == Seq::<u8>::empty(),
    {
        StateDigestBuilder { material: Vec::new() }
    }

    /// Adds one labelled domain.
    pub fn add_domain(&mut self, label: &str, data: &[u8])
        ensures
            final(self)@ == old(self)@ + domain_frame(label.spec_bytes(), data@),
    {
        let label_bytes = label.as_bytes();
        push_u64_be(&mut self.material, label_bytes.len() as u64);
        push_bytes(&mut self.material, label_bytes);
        push_u64_be(&mut self.material, data.len() as u64);
        push_bytes(&mut self.material, data);
        assert(self@ =~= old(self)@ + domain_frame(label.spec_bytes(), data@));
    }

    /// The digest of everything added so far.
    pub fn finish(&self) -> (d: StateDigest)
        ensures
            d == digest_of(self@),
    {
        let h = sha256(self.material.as_slice());
        let high = ((h[0] as u64) << 56u64) | ((h[1] as u64) << 48u64) | ((h[2] as u64) << 40u64)
            | ((h[3] as u64) << 32u64) | ((h[4] as u64) << 24u64) | ((h[5] as u64) << 16u64) | ((
        h[6] as u64) << 8u64) | (h[7] as u64);
        let low = ((h[8] as u64) << 56u64) | ((h[9] as u64) << 48u64) | ((h[10] as u64) << 40u64)
            | ((h[11] as u64) << 32u64) | ((h[12] as u64) << 24u64) | ((h[13] as u64) << 16u64)
            | ((h[14] as u64) << 8u64) | (h[15] as u64);
        proof {
            let hs = sha256_spec(self@);
            assert(hs.subrange(0, 8)[0] == h@[0]);
        }
        StateDigest { high, low }
    }
}

/// The digest of a single labelled domain.
pub open spec fn single_domain_digest(label: Seq<u8>, data: Seq<u8>) -> StateDigest {
    digest_of(domain_frame(label, data))
}

/// Digest of one labelled domain, computed in one call.
pub fn digest_domain(label: &str, data: &[u8]) -> (d: StateDigest)
    ensures
        d == single_domain_digest(label.spec_bytes(), data@),
{
    let mut builder = StateDigestBuilder::new();
    builder.add_domain(label, data);
    assert(builder@ =~= domain_frame(label.spec_bytes(), data@));
    builder.finish()
}

/// The lowercase hexadecimal spelling of one nibble.
pub open spec fn hex_digit(n: u8) -> char {
    if n < 10 {
        (('0' as u8) + n) as char
    } else {
        (('a' as u8) + (n - 10)) as char
    }
}

/// Lowercase hexadecimal spelling of a byte string, two digits per byte.
pub open spec fn hex_of(bytes: Seq<u8>) -> Seq<char>
    decreases bytes.len(),
{
    if bytes.len() == 0 {
        Seq::empty()
    } else {
        hex_of(bytes.drop_last()) + seq![
            hex_digit(bytes.last() / 16),
            hex_digit(bytes.last() % 16),
        ]
    }
}

fn hex_digit_str(n: u8) -> (r: &'static str)
    requires
        n < 16,
    ensures
        r@ == seq![hex_digit(n)],
{
    proof {
        reveal_strlit("0123456789abcdef");
    }
    let digits = "0123456789abcdef";
    let i = n as usize;
    let r = digits.substring_char(i, i + 1);
    proof {
        let d = "0123456789abcdef"@;
        assert(r@ =~= seq![d[i as int]]);
        assert(d[i as int] == hex_digit(n)) by {
            assert(n == 0 || n == 1 || n == 2 || n == 3 || n == 4 || n == 5 || n == 6 || n == 7 || n == 8
                || n == 9 || n == 10 || n == 11 || n == 12 || n == 13 || n == 14 || n == 15);
        }
    }
    r
}

/// Lowercase hexadecimal spelling of a byte string.
pub fn hex_string(bytes: &[u8]) -> (r: String)
    ensures
        r@ == hex_of(bytes@),
        r@.len() == 2 * bytes@.len(),
{
    let mut out = String::from_str("");
    proof {
        reveal_strlit("");
    }
    let mut i: usize = 0;
    assert(bytes@.take(0) =~= Seq::<u8>::empty());
    while i < bytes.len()
        invariant
            i <= bytes@.len(),
            out@ == hex_of(bytes@.take(i as int)),
            out@.len() == 2 * i,
        decreases bytes@.len() - i,
    {
        let b = bytes[i];
        assert(bytes@.take(i + 1).drop_last() =~= bytes@.take(i as int));
        assert(bytes@.take(i + 1).last() == b);
        out.append(hex_digit_str(b / 16));
        out.append(hex_digit_str(b % 16));
        assert(out@ =~= hex_of(bytes@.take(i + 1)));
        i = i + 1;
    }
    assert(bytes@.take(i as int) =~= bytes@);
    out
}

/// The fingerprint that binds a node to its certificate: the lowercase
/// hexadecimal SHA-256 digest of the certificate's DER bytes, 64 characters.
pub fn certificate_sha256_der(der: &[u8]) -> (r: String)
    ensures
        r@ == hex_of(sha256_spec(der@)),
        r@.len() == 64,
{
    let digest = sha256(der);
    hex_string(digest.as_slice())
}

/// Big-endian spelling of a `u64` loses nothing.
pub proof fn lemma_u64_be_injective(a: u64, b: u64)
    requires
        u64_be(a) == u64_be(b),
    ensures
        a == b,
{
    assert(u64_be(a)[0] == u64_be(b)[0]);
    assert(u64_be(a)[1] == u64_be(b)[1]);
    assert(u64_be(a)[2] == u64_be(b)[2]);
    assert(u64_be(a)[3] == u64_be(b)[3]);
    assert(u64_be(a)[4] == u64_be(b)[4]);
    assert(u64_be(a)[5] == u64_be(b)[5]);
    assert(u64_be(a)[6] == u64_be(b)[6]);
    assert(u64_be(a)[7] == u64_be(b)[7]);
    assert(a == b) by (bit_vector)
        requires
            (a >> 56u64) as u8 == (b >> 56u64) as u8,
            (a >> 48u64) as u8 == (b >> 48u64) as u8,
            (a >> 40u64) as u8 == (b >> 40u64) as u8,
            (a >> 32u64) as u8 == (b >> 32u64) as u8,
            (a >> 24u64) as u8 == (b >> 24u64) as u8,
            (a >> 16u64) as u8 == (b >> 16u64) as u8,
            (a >> 8u64) as u8 == (b >> 8u64) as u8,
            a as u8 == b as u8,
    ;
}

/// Big-endian spelling of a `u32` loses nothing.
pub proof fn lemma_u32_be_injective(a: u32, b: u32)
    requires
        u32_be(a) == u32_be(b),
    ensures
        a == b,
{
    assert(u32_be(a)[0] == u32_be(b)[0]);
    assert(u32_be(a)[1] == u32_be(b)[1]);
    assert(u32_be(a)[2] == u32_be(b)[2]);
    assert(u32_be(a)[3] == u32_be(b)[3]);
    assert(a == b) by (bit_vector)
        requires
            (a >> 24u32) as u8 == (b >> 24u32) as u8,
            (a >> 16u32) as u8 == (b >> 16u32) as u8,
            (a >> 8u32) as u8 == (b >> 8u32) as u8,
            a as u8 == b as u8,
    ;
}

} // verus!
