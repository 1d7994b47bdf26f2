//! Canonical topological identity of byte strings.

use crate::digest::{hex_digit, hex_encode, hex_text, sha256, sha256_digest};
use vstd::bytes::{spec_u64_from_le_bytes, u64_from_le_bytes};
use vstd::prelude::*;
use vstd::slice::slice_subrange;
use vstd::string::StringSliceAdditionalSpecFns;
use vstd::utf8::{encode_scalar, encode_utf8};

verus! {

/// The digest of the empty leaf: SHA-256 of the single tag byte `0x00`.
pub open spec fn origin() -> Seq<u8> {
    sha256(seq![0u8])
}

/// Digest of the origin.
pub fn hash_origin() -> (out: [u8; 32])
    ensures
        out@ == origin(),
{
    let tag: [u8; 1] = [0u8];
    assert(tag@ =~= seq![0u8]);
    sha256_digest(tag.as_slice())
}

/// The digest binding two ordered children: SHA-256 of `0x01 || left || right`.
pub open spec fn dyad(left: Seq<u8>, right: Seq<u8>) -> Seq<u8> {
    sha256(seq![1u8] + left + right)
}

/// The node that stands for one bit: the origin for a clear bit, a dyad of
/// two origins for a set bit.
pub open spec fn bit_node(set: bool) -> Seq<u8> {
    if set {
        dyad(origin(), origin())
    } else {
        origin()
    }
}

/// Whether bit `index` of `byte` is set, counting from the least significant.
pub open spec fn bit_at(byte: u8, index: nat) -> bool {
    (byte >> index) & 1 == 1
}

/// The chain over the `count` lowest bits of `byte`. Each further bit wraps
/// the chain built so far, so the lowest bit lies deepest.
pub open spec fn bit_chain(byte: u8, count: nat) -> Seq<u8>
    decreases count,
{
    if count == 0 {
        origin()
    } else {
        dyad(bit_node(bit_at(byte, (count - 1) as nat)), bit_chain(byte, (count - 1) as nat))
    }
}

/// The tree of one byte: the chain over all eight of its bits.
pub open spec fn byte_tree(byte: u8) -> Seq<u8> {
    bit_chain(byte, 8)
}

/// The chain of a byte string: a right-nested list in which the first byte is
/// the outermost wrapping and the origin closes the list.
pub open spec fn string_chain(bytes: Seq<u8>) -> Seq<u8>
    decreases bytes.len(),
{
    if bytes.len() == 0 {
        origin()
    } else {
        dyad(byte_tree(bytes[0]), string_chain(bytes.drop_first()))
    }
}

/// Digest of the dyad of two child digests. The order of the children matters.
pub fn hash_dyad(left: &[u8; 32], right: &[u8; 32]) -> (out: [u8; 32])
    ensures
        out@ == dyad(left@, right@),
{
    let mut buffer: Vec<u8> = Vec::with_capacity(65);
    buffer.push(1u8);
    buffer.extend_from_slice(left.as_slice());
    buffer.extend_from_slice(right.as_slice());
    assert(buffer@ =~= seq![1u8] + left@ + right@);
    sha256_digest(buffer.as_slice())
}

/// Encodes one bit: zero gives the origin, anything else the dyad of two origins.
pub fn encode_bit(bit: u8) -> (out: [u8; 32])
    ensures
        out@ == bit_node(bit != 0),
{
    if bit == 0 {
        hash_origin()
    } else {
        hash_dyad(&hash_origin(), &hash_origin())
    }
}

/// Encodes a byte as the chain of its eight bit nodes, lowest bit first.
pub fn encode_byte(byte_val: u8) -> (out: [u8; 32])
    ensures
        out@ == byte_tree(byte_val),
{
    let mut chain = hash_origin();
    let mut i: u32 = 0;
    while i < 8
        invariant
            i <= 8,
            chain@ == bit_chain(byte_val, i as nat),
        decreases 8 - i,
    {
        let bit = (byte_val >> i) & 1;
        assert(bit == 0 || bit == 1) by (bit_vector)
            requires
                bit == (byte_val >> i) & 1,
        ;
        let node = encode_bit(bit);
        chain = hash_dyad(&node, &chain);
        i = i + 1;
    }
    chain
}

/// Encodes a byte string as the chain of its byte trees.
pub fn encode_string(s: &[u8]) -> (out: [u8; 32])
    ensures
        out@ == string_chain(s@),
{
    let mut chain = hash_origin();
    let mut i: usize = s.len();
    assert(s@.subrange(i as int, s@.len() as int) =~= Seq::<u8>::empty());
    while i > 0
        invariant
            i <= s.len(),
            chain@ == string_chain(s@.subrange(i as int, s@.len() as int)),
        decreases i,
    {
        i = i - 1;
        let tree = encode_byte(s[i]);
        chain = hash_dyad(&tree, &chain);
        proof {
            let rest = s@.subrange(i as int, s@.len() as int);
            assert(rest[0] == s@[i as int]);
            assert(rest.drop_first() =~= s@.subrange(i + 1, s@.len() as int));
        }
    }
    assert(s@.subrange(0, s@.len() as int) =~= s@);
    chain
}

/// The canonical digest text of a token: the hexadecimal text of the chain
/// of its bytes, 64 characters long.
pub open spec fn token_digest(bytes: Seq<u8>) -> Seq<char> {
    hex_text(string_chain(bytes))
}

/// The text a bond is hashed from: `u`, a colon, `rel`, a colon, `v`.
pub open spec fn bond_text(u: Seq<char>, v: Seq<char>, rel: Seq<char>) -> Seq<char> {
    u + seq![':'] + rel + seq![':'] + v
}

/// The digest text of a directed bond: the hexadecimal text of the first
/// eight bytes of the SHA-256 digest of the UTF-8 bytes of its text.
pub open spec fn bond_digest(u: Seq<char>, v: Seq<char>, rel: Seq<char>) -> Seq<char> {
    hex_text(sha256(encode_utf8(bond_text(u, v, rel))).subrange(0, 8))
}

/// The UTF-8 bytes of a concatenation are the bytes of its parts, in order.
pub proof fn lemma_encode_utf8_concat(a: Seq<char>, b: Seq<char>)
    ensures
        encode_utf8(a + b) == encode_utf8(a) + encode_utf8(b),
    decreases a.len(),
{
    if a.len() == 0 {
        assert(a + b =~= b);
        assert(encode_utf8(a) + encode_utf8(b) =~= encode_utf8(b));
    } else {
        lemma_encode_utf8_concat(a.drop_first(), b);
        assert((a + b).drop_first() =~= a.drop_first() + b);
        assert((a + b)[0] == a[0]);
        assert(encode_utf8(a + b) =~= encode_utf8(a) + encode_utf8(b));
    }
}

/// A colon is the single byte `0x3a` in UTF-8.
proof fn lemma_encode_colon()
    ensures
        encode_utf8(seq![':']) == seq![0x3au8],
{
    let colon = seq![':'];
    assert(colon.drop_first() =~= Seq::<char>::empty());
    assert(':' as u32 == 0x3au32);
    assert(encode_scalar(0x3au32) =~= seq![0x3au8]) by {
        assert(0x3au32 <= 0x7f && (0x3au32 & 0x7f) as u8 == 0x3au8) by (bit_vector);
    }
    assert(encode_utf8(colon) =~= encode_scalar(colon[0] as u32) + encode_utf8(
        colon.drop_first(),
    ));
}

/// The digest text of a token is a function of its bytes: two tokens with
/// the same bytes have the same digest, whenever and wherever it is computed.
pub proof fn lemma_token_digest_deterministic(first: Seq<u8>, second: Seq<u8>)
    requires
        first == second,
    ensures
        token_digest(first) == token_digest(second),
{
}

/// The digest text of a bond is a function of its three texts.
pub proof fn lemma_bond_digest_deterministic(
    u1: Seq<char>,
    v1: Seq<char>,
    rel1: Seq<char>,
    u2: Seq<char>,
    v2: Seq<char>,
    rel2: Seq<char>,
)
    requires
        u1 == u2,
        v1 == v2,
        rel1 == rel2,
    ensures
        bond_digest(u1, v1, rel1) == bond_digest(u2, v2, rel2),
{
}

/// A bond is hashed from a text in which the ends stand in order: when `u`
/// and `v` differ and have equal length, swapping them changes the text.
pub proof fn lemma_bond_text_is_directed(u: Seq<char>, v: Seq<char>, rel: Seq<char>)
    requires
        u.len() == v.len(),
        u != v,
    ensures
        bond_text(u, v, rel) != bond_text(v, u, rel),
{
    let forward = bond_text(u, v, rel);
    let backward = bond_text(v, u, rel);
    if forward == backward {
        assert forall|i: int| 0 <= i < u.len() implies u[i] == v[i] by {
            assert(forward[i] == u[i]);
            assert(backward[i] == v[i]);
        }
        assert(u =~= v);
    }
}

/// The hexadecimal text of `n` bytes has `2 * n` characters, and each is a
/// digit or a letter from `a` to `f`.
pub proof fn lemma_hex_text_shape(bytes: Seq<u8>, i: int)
    requires
        0 <= i < 2 * bytes.len(),
    ensures
        hex_text(bytes).len() == 2 * bytes.len(),
        ('0' <= hex_text(bytes)[i] <= '9') || ('a' <= hex_text(bytes)[i] <= 'f'),
{
    let byte = bytes[i / 2];
    let nibble: u8 = if i % 2 == 0 {
        byte / 16
    } else {
        byte % 16
    };
    assert(nibble < 16);
    assert(hex_text(bytes)[i] == hex_digit(nibble));
    assert('0' as u8 == 48 && '9' as u8 == 57 && 'a' as u8 == 97 && 'f' as u8 == 102);
}

/// The canonical identity of a token, as 64 hexadecimal characters.
pub fn get_token_hash_hex(s: &str) -> (digest: String)
    ensures
        digest@ == token_digest(s.spec_bytes()),
        digest@.len() == 64,
{
    let root = encode_string(s.as_bytes());
    hex_encode(root.as_slice())
}

/// The identity of the directed bond from `u` to `v` under relation `rel`,
/// as 16 hexadecimal characters.
pub fn bond_id(u: &str, v: &str, rel: &str) -> (digest: String)
    ensures
        digest@ == bond_digest(u@, v@, rel@),
        digest@.len() == 16,
{
    let mut raw: Vec<u8> = Vec::new();
    raw.extend_from_slice(u.as_bytes());
    raw.push(0x3au8);
    raw.extend_from_slice(rel.as_bytes());
    raw.push(0x3au8);
    raw.extend_from_slice(v.as_bytes());
    proof {
        lemma_encode_colon();
        lemma_encode_utf8_concat(u@, seq![':']);
        lemma_encode_utf8_concat(u@ + seq![':'], rel@);
        lemma_encode_utf8_concat(u@ + seq![':'] + rel@, seq![':']);
        lemma_encode_utf8_concat(u@ + seq![':'] + rel@ + seq![':'], v@);
        assert(raw@ =~= encode_utf8(u@) + seq![0x3au8] + encode_utf8(rel@) + seq![0x3au8]
            + encode_utf8(v@));
    }
    let result = sha256_digest(raw.as_slice());
    let head = slice_subrange(result.as_slice(), 0, 8);
    hex_encode(head)
}

/// The multiplier that spreads a length over the 64 bits of an atomic shape hash.
pub const SHAPE_MULTIPLIER: u64 = 0x517cc1b727220a95;

/// The shape hash of an atomic chain: its length times [`SHAPE_MULTIPLIER`],
/// reduced modulo 2^64. It depends on the length alone.
pub open spec fn atomic_shape(len: nat) -> u64 {
    ((len * SHAPE_MULTIPLIER as nat) % 0x1_0000_0000_0000_0000) as u64
}

/// The bytes `shape:` that prefix a string before its bit-level shape is hashed.
pub open spec fn shape_tag() -> Seq<u8> {
    seq![0x73u8, 0x68u8, 0x61u8, 0x70u8, 0x65u8, 0x3au8]
}

/// The shape hash of the bit-level tree: the first eight bytes of the SHA-256
/// digest of the tag followed by the string, read as a little-endian integer.
pub open spec fn bit_shape(bytes: Seq<u8>) -> u64 {
    spec_u64_from_le_bytes(sha256(shape_tag() + bytes).subrange(0, 8))
}

/// The weight of the tree of a string of `len` bytes: two per byte when each
/// byte is an atom, and the nominal seventeen per byte at bit level.
pub open spec fn tree_weight(len: nat, atomic: bool) -> nat {
    if atomic {
        2 * len
    } else {
        17 * len
    }
}

/// The depth of the tree: the length of the chain, and eight more at bit level.
pub open spec fn tree_depth(len: nat, atomic: bool) -> nat {
    if atomic {
        len
    } else {
        8 + len
    }
}

/// The number of leaves: one per atom, or nine per byte at bit level, and the
/// origin that closes the chain.
pub open spec fn tree_leaves(len: nat, atomic: bool) -> nat {
    if atomic {
        len + 1
    } else {
        9 * len + 1
    }
}

/// The shape hash of the tree under the given mode.
pub open spec fn tree_shape(bytes: Seq<u8>, atomic: bool) -> u64 {
    if atomic {
        atomic_shape(bytes.len())
    } else {
        bit_shape(bytes)
    }
}

/// Whether the metrics of `s` fit their 32-bit fields under the given mode,
/// which they do when the weight does.
pub fn metrics_fit(s: &str, atomic: bool) -> (fits: bool)
    ensures
        fits == (tree_weight(s.spec_bytes().len(), atomic) <= u32::MAX),
{
    let len: usize = s.as_bytes().len();
    if atomic {
        len <= 2147483647
    } else {
        len <= 252645135
    }
}

/// Weight, depth, leaf count and shape hash of the tree that encodes `s`,
/// computed without building it.
///
/// With `atomic` each byte counts as one atom; otherwise the tree is the
/// bit-level one of [`encode_string`]. The weight must fit in 32 bits.
pub fn get_invariant_metrics(s: &str, atomic: bool) -> (m: (u32, u32, u32, u64))
    requires
        tree_weight(s.spec_bytes().len(), atomic) <= u32::MAX,
    ensures
        m.0 == tree_weight(s.spec_bytes().len(), atomic),
        m.1 == tree_depth(s.spec_bytes().len(), atomic),
        m.2 == tree_leaves(s.spec_bytes().len(), atomic),
        m.3 == tree_shape(s.spec_bytes(), atomic),
{
    let bytes = s.as_bytes();
    let len: u32 = bytes.len() as u32;
    if atomic {
        let weight: u32 = 2 * len;
        let depth: u32 = len;
        let leaves: u32 = len + 1;
        let wide: u64 = len as u64;
        let shape_hash: u64 = wide.wrapping_mul(SHAPE_MULTIPLIER);
        (weight, depth, leaves, shape_hash)
    } else {
        let weight: u32 = 17 * len;
        let depth: u32 = 8 + len;
        let leaves: u32 = len * 9 + 1;
        let mut tagged: Vec<u8> = Vec::new();
        tagged.push(0x73u8);
        tagged.push(0x68u8);
        tagged.push(0x61u8);
        tagged.push(0x70u8);
        tagged.push(0x65u8);
        tagged.push(0x3au8);
        tagged.extend_from_slice(bytes);
        assert(tagged@ =~= shape_tag() + bytes@);
        let hash = sha256_digest(tagged.as_slice());
        let shape_hash: u64 = u64_from_le_bytes(slice_subrange(hash.as_slice(), 0, 8));
        (weight, depth, leaves, shape_hash)
    }
}

/// With each byte an atom, the metrics of a string depend on its length
/// alone: strings of one length share weight, depth, leaves and shape hash,
/// which are twice the length, the length, the length and one, and a fixed
/// mix of the length.
pub proof fn lemma_atomic_metrics_depend_on_length(first: Seq<u8>, second: Seq<u8>)
    requires
        first.len() == second.len(),
    ensures
        tree_weight(first.len(), true) == tree_weight(second.len(), true) == 2 * first.len(),
        tree_depth(first.len(), true) == tree_depth(second.len(), true) == first.len(),
        tree_leaves(first.len(), true) == tree_leaves(second.len(), true) == first.len() + 1,
        tree_shape(first, true) == tree_shape(second, true) == atomic_shape(first.len()),
{
}

} // verus!
