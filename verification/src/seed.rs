//! Run seeds and identifiers: the hash of a player's seed text, the
//! per-domain sub-seeds derived from the master seed, and the run id derived
//! from a run's start time.

use vstd::prelude::*;
use vstd::string::StringSliceAdditionalSpecFns;

verus! {

/// The 64-bit xxHash (XXH64) of `input` under `seed`.
pub uninterp spec fn xxh64_of(input: Seq<u8>, seed: u64) -> u64;

/// The 32-byte BLAKE3 digest of `input`.
pub uninterp spec fn blake3_of(input: Seq<u8>) -> Seq<u8>;


/// `xxhash_rust::xxh64::xxh64`: the XXH64 hash of the bytes under the seed.
#[verifier::external_body]
pub(crate) fn xxh64_hash(input: &[u8], seed: u64) -> (r: u64)
    ensures
        r == xxh64_of(input@, seed),
{
    xxhash_rust::xxh64::xxh64(input, seed)
}

/// `blake3::hash`: the digest of the bytes, returned as its 32 bytes
/// (`Hash::as_bytes`, `blake3::OUT_LEN` long).
#[verifier::external_body]
fn blake3_digest(input: &[u8]) -> (r: Vec<u8>)
    ensures
        r@ == blake3_of(input@),
        r@.len() == 32,
{
    blake3::hash(input).as_bytes().to_vec()
}

/// Whether `c` is a digit of the base58 (Bitcoin) alphabet: ASCII letters
/// and digits without `0`, `O`, `I` and `l`.
pub open spec fn is_base58_char(c: char) -> bool {
    &&& (('1' <= c && c <= '9') || ('A' <= c && c <= 'Z') || ('a' <= c && c <= 'z'))
    &&& c != 'O' && c != 'I' && c != 'l'
}

/// Digit `d` (below 58) of the base58 (Bitcoin) alphabet
/// `123456789ABCDEFGHJKLMNPQRSTUVWXYZabcdefghijkmnopqrstuvwxyz`.
pub open spec fn base58_digit(d: nat) -> char {
    if d < 9 {
        ('1' as u32 + d) as char
    } else if d < 17 {
        ('A' as u32 + (d - 9)) as char
    } else if d < 22 {
        ('J' as u32 + (d - 17)) as char
    } else if d < 33 {
        ('P' as u32 + (d - 22)) as char
    } else if d < 44 {
        ('a' as u32 + (d - 33)) as char
    } else {
        ('m' as u32 + (d - 44)) as char
    }
}

/// The value of `b` read as a big-endian number.
pub open spec fn be_value(b: Seq<u8>) -> nat
    decreases b.len(),
{
    if b.len() == 0 {
        0
    } else {
        be_value(b.drop_last()) * 256 + b.last() as nat
    }
}

/// The base-58 digits of `v`, most significant first; none for zero.
pub open spec fn digits58(v: nat) -> Seq<nat>
    decreases v,
{
    if v == 0 {
        Seq::empty()
    } else {
        digits58(v / 58).push(v % 58)
    }
}

/// How many zero bytes `b` starts with.
pub open spec fn leading_zero_bytes(b: Seq<u8>) -> nat
    decreases b.len(),
{
    if b.len() == 0 || b[0] != 0 {
        0
    } else {
        1 + leading_zero_bytes(b.drop_first())
    }
}

/// The base58 text of `bytes`: a `'1'` per leading zero byte, then the
/// alphabet's digits of the bytes' big-endian value.
pub open spec fn base58_of(bytes: Seq<u8>) -> Seq<char> {
    Seq::new(leading_zero_bytes(bytes), |i: int| '1') + digits58(be_value(bytes)).map_values(|d: nat| base58_digit(d))
}

/// `base58::ToBase58::to_base58` on a byte slice of at most 128 bytes (the
/// length the crate documents): its base58 text, which is made of the
/// alphabet's digits only and is never empty for a non-empty input.
#[verifier::external_body]
fn base58_text(bytes: &[u8]) -> (r: String)
    requires
        bytes@.len() <= 128,
    ensures
        r@ == base58_of(bytes@),
        forall|i: int| 0 <= i < r@.len() ==> is_base58_char(#[trigger] r@[i]),
        bytes@.len() > 0 ==> r@.len() > 0,
{
    base58::ToBase58::to_base58(bytes)
}

/// The eight little-endian bytes of `x`.
pub open spec fn le_bytes(x: u64) -> Seq<u8> {
    seq![
        (x & 0xff) as u8,
        ((x >> 8u64) & 0xff) as u8,
        ((x >> 16u64) & 0xff) as u8,
        ((x >> 24u64) & 0xff) as u8,
        ((x >> 32u64) & 0xff) as u8,
        ((x >> 40u64) & 0xff) as u8,
        ((x >> 48u64) & 0xff) as u8,
        ((x >> 56u64) & 0xff) as u8,
    ]
}

pub(crate) fn le_bytes_of(x: u64) -> (r: Vec<u8>)
    ensures
        r@ == le_bytes(x),
{
    let mut v: Vec<u8> = Vec::new();
    v.push((x & 0xff) as u8);
    v.push(((x >> 8u64) & 0xff) as u8);
    v.push(((x >> 16u64) & 0xff) as u8);
    v.push(((x >> 24u64) & 0xff) as u8);
    v.push(((x >> 32u64) & 0xff) as u8);
    v.push(((x >> 40u64) & 0xff) as u8);
    v.push(((x >> 48u64) & 0xff) as u8);
    v.push(((x >> 56u64) & 0xff) as u8);
    assert(v@ =~= le_bytes(x));
    v
}

/// The hash of a player-entered seed text: XXH64 of its UTF-8 bytes, seed 0.
pub fn hash_text(text: &str) -> (h: u64)
    ensures
        h == xxh64_of(text.spec_bytes(), 0),
{
    xxh64_hash(text.as_bytes(), 0)
}

/// The sub-seed of a domain: XXH64 (seed 0) of the master seed's
/// little-endian bytes followed by the domain name's bytes.
pub open spec fn derived(master: u64, domain: Seq<u8>) -> u64 {
    xxh64_of(le_bytes(master) + domain, 0)
}

/// The sub-seed of `domain` under `master`.
pub fn derive(master: u64, domain: &str) -> (h: u64)
    ensures
        h == derived(master, domain.spec_bytes()),
{
    let mut buf = le_bytes_of(master);
    let bytes = domain.as_bytes();
    let mut i: usize = 0;
    while i < bytes.len()
        invariant
            i <= bytes@.len(),
            bytes@ == domain.spec_bytes(),
            buf@ == le_bytes(master) + bytes@.subrange(0, i as int),
        decreases bytes@.len() - i,
    {
        buf.push(bytes[i]);
        assert(buf@ =~= le_bytes(master) + bytes@.subrange(0, i + 1));
        i += 1;
    }
    assert(bytes@.subrange(0, bytes@.len() as int) =~= bytes@);
    xxh64_hash(buf.as_slice(), 0)
}

/// The per-domain sub-seeds of a run.
pub struct DomainSeeds {
    pub world: u64,
    pub tech_tree: u64,
    pub recipes: u64,
    pub power: u64,
    pub reactivity: u64,
    pub biomes: u64,
}

impl DomainSeeds {
    /// Derives every domain's sub-seed from the master seed.
    pub fn from_master(master: u64) -> (s: Self)
        ensures
            s.world == derived(master, "world".spec_bytes()),
            s.tech_tree == derived(master, "tech_tree".spec_bytes()),
            s.recipes == derived(master, "recipes".spec_bytes()),
            s.power == derived(master, "power".spec_bytes()),
            s.reactivity == derived(master, "reactivity".spec_bytes()),
            s.biomes == derived(master, "biomes".spec_bytes()),
    {
        DomainSeeds {
            world: derive(master, "world"),
            tech_tree: derive(master, "tech_tree"),
            recipes: derive(master, "recipes"),
            power: derive(master, "power"),
            reactivity: derive(master, "reactivity"),
            biomes: derive(master, "biomes"),
        }
    }
}

/// The id of a run started at `start_time_secs`: the base58 text of the
/// first eight bytes of the BLAKE3 digest of the time's little-endian bytes.
/// It is never empty and uses only the base58 alphabet.
pub fn derive_run_id(start_time_secs: u64) -> (id: String)
    ensures
        id@ == base58_of(blake3_of(le_bytes(start_time_secs)).take(8)),
        id@.len() > 0,
        forall|i: int| 0 <= i < id@.len() ==> is_base58_char(#[trigger] id@[i]),
{
    let input = le_bytes_of(start_time_secs);
    let digest = blake3_digest(input.as_slice());
    let mut first: Vec<u8> = Vec::new();
    let mut i: usize = 0;
    while i < 8
        invariant
            i <= 8,
            digest@.len() == 32,
            first@ == digest@.take(i as int),
        decreases 8 - i,
    {
        first.push(digest[i]);
        assert(first@ =~= digest@.take(i + 1));
        i += 1;
    }
    base58_text(first.as_slice())
}

} // verus!
