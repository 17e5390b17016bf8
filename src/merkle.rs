//! A Merkle tree over strings: leaves are the hex SHA-256 digests of the data, and
//! each parent is the digest of its two children's hex strings joined.
use sha2::{Digest, Sha256};
use vstd::prelude::*;
use vstd::string::StringSliceAdditionalSpecFns;

verus! {

/// The SHA-256 digest of `b`.
pub uninterp spec fn sha256_of(b: Seq<u8>) -> Seq<u8>;

/// The lowercase hex digit of `n` (below 16).
pub open spec fn hex_digit(n: u8) -> char {
    if n < 10 {
        (('0' as u8) + n) as char
    } else {
        (('a' as u8) + n - 10) as char
    }
}

/// Each byte of `b` as two lowercase hex digits, high nibble first.
pub open spec fn hex_of(b: Seq<u8>) -> Seq<char> {
    Seq::new(
        2 * b.len(),
        |i: int|
            if i % 2 == 0 {
                hex_digit(b[i / 2] / 16)
            } else {
                hex_digit(b[i / 2] % 16)
            },
    )
}

/// The UTF-8 bytes of the characters `s`.
pub open spec fn utf8_of(s: Seq<char>) -> Seq<u8> {
    vstd::utf8::encode_utf8(s)
}

/// The hash of a string: the hex digest of its UTF-8 bytes.
pub open spec fn hash_of(s: Seq<char>) -> Seq<char> {
    hex_of(sha256_of(utf8_of(s)))
}

/// The parent of two nodes: the hash of their hex strings joined.
pub open spec fn parent_of(l: Seq<char>, r: Seq<char>) -> Seq<char> {
    hex_of(sha256_of(utf8_of(l) + utf8_of(r)))
}

/// The level above `level`: the parent of each pair.
pub open spec fn level_up(level: Seq<Seq<char>>) -> Seq<Seq<char>> {
    Seq::new(level.len() / 2, |i: int| parent_of(level[2 * i], level[2 * i + 1]))
}

/// `n` is a power of two.
pub open spec fn is_pow2(n: nat) -> bool
    decreases n,
{
    if n <= 1 {
        n == 1
    } else {
        n % 2 == 0 && is_pow2(n / 2)
    }
}

/// The root of the tree whose bottom level is `level`.
pub open spec fn root_of(level: Seq<Seq<char>>) -> Seq<char>
    decreases level.len(),
{
    if level.len() <= 1 {
        level[0]
    } else {
        root_of(level_up(level))
    }
}

/// The leaves for `data`: each item's hash, with the last repeated when their
/// number is odd.
pub open spec fn leaves_of(data: Seq<Seq<char>>) -> Seq<Seq<char>> {
    let h = data.map_values(|s: Seq<char>| hash_of(s));
    if h.len() % 2 == 1 {
        h.push(h.last())
    } else {
        h
    }
}

/// The number of leaves for `n` items: `n` rounded up to even.
pub open spec fn padded_len(n: nat) -> nat {
    if n % 2 == 1 {
        n + 1
    } else {
        n
    }
}

/// Relies on `sha2::Sha256::digest` (through `digest::Digest`): the 32-byte
/// SHA-256 digest of `data`.
#[verifier::external_body]
fn sha256(data: &[u8]) -> (r: Vec<u8>)
    ensures
        r@ == sha256_of(data@),
{
    Sha256::digest(data).to_vec()
}

/// Relies on `hex::encode`: two lowercase hex digits per byte, high nibble first.
#[verifier::external_body]
fn to_hex(b: &[u8]) -> (r: String)
    ensures
        r@ == hex_of(b@),
{
    hex::encode(b)
}

/// The hash of `data`: the hex SHA-256 digest of its UTF-8 bytes.
pub fn hash_data(data: &str) -> (r: String)
    ensures
        r@ == hash_of(data@),
{
    let digest = sha256(data.as_bytes());
    to_hex(digest.as_slice())
}

/// The bytes of `a` followed by those of `b`.
fn join_bytes(a: &[u8], b: &[u8]) -> (r: Vec<u8>)
    ensures
        r@ == a@ + b@,
{
    let mut r: Vec<u8> = Vec::new();
    for i in 0..a.len()
        invariant
            r@ == a@.take(i as int),
    {
        r.push(a[i]);
        assert(a@.take(i + 1) =~= r@);
    }
    for i in 0..b.len()
        invariant
            r@ == a@ + b@.take(i as int),
    {
        r.push(b[i]);
        assert(a@ + b@.take(i + 1) =~= r@);
    }
    assert(b@.take(b@.len() as int) =~= b@);
    r
}

/// The parent of two nodes.
fn hash_pair(l: &String, r: &String) -> (h: String)
    ensures
        h@ == parent_of(l@, r@),
{
    let joined = join_bytes(l.as_str().as_bytes(), r.as_str().as_bytes());
    let digest = sha256(joined.as_slice());
    to_hex(digest.as_slice())
}

pub struct MerkleTree {
    pub root: String,
    pub leaves: Vec<String>,
}

impl MerkleTree {
    /// Builds the tree over `data`: its leaves (see `leaves_of`) and their root.
    /// The number of leaves must be a power of two, so that each level pairs up.
    pub fn new(data: &[String]) -> (r: Self)
        requires
            is_pow2(padded_len(data@.len())),
            data@.len() < usize::MAX,
        ensures
            r.leaves@.map_values(|s: String| s@) == leaves_of(data@.map_values(|s: String| s@)),
            r.root@ == root_of(leaves_of(data@.map_values(|s: String| s@))),
    {
        let ghost ds = data@.map_values(|s: String| s@);
        let mut leaves: Vec<String> = Vec::new();
        for i in 0..data.len()
            invariant
                ds == data@.map_values(|s: String| s@),
                leaves@.len() == i,
                forall|k: int| 0 <= k < i ==> (#[trigger] leaves@[k])@ == hash_of(ds[k]),
        {
            let h = hash_data(data[i].as_str());
            assert(ds[i as int] == data@[i as int]@);
            assert(h@ == hash_of(ds[i as int]));
            leaves.push(h);
        }
        assert(leaves@.map_values(|s: String| s@) =~= ds.map_values(|s: Seq<char>| hash_of(s)));
        if leaves.len() % 2 == 1 {
            let last = leaves[leaves.len() - 1].clone();
            leaves.push(last);
            assert(leaves@.map_values(|s: String| s@) =~= leaves_of(ds));
        }
        let root = Self::build_tree(&leaves);
        MerkleTree { root, leaves }
    }

    /// The root of the tree whose bottom level is `leaves`.
    pub fn build_tree(leaves: &Vec<String>) -> (r: String)
        requires
            is_pow2(leaves@.len() as nat),
        ensures
            r@ == root_of(leaves@.map_values(|s: String| s@)),
        decreases leaves@.len(),
    {
        let ghost lv = leaves@.map_values(|s: String| s@);
        if leaves.len() == 1 {
            return leaves[0].clone();
        }
        let mut next_level: Vec<String> = Vec::new();
        let mut i: usize = 0;
        while i + 1 < leaves.len()
            invariant
                lv == leaves@.map_values(|s: String| s@),
                leaves@.len() % 2 == 0,
                i % 2 == 0,
                i <= leaves@.len(),
                next_level@.len() == i / 2,
                forall|k: int|
                    0 <= k < i / 2 ==> (#[trigger] next_level@[k])@ == parent_of(lv[2 * k], lv[2 * k + 1]),
            decreases leaves@.len() - i,
        {
            let combined = hash_pair(&leaves[i], &leaves[i + 1]);
            next_level.push(combined);
            i += 2;
        }
        assert(next_level@.map_values(|s: String| s@) =~= level_up(lv));
        Self::build_tree(&next_level)
    }

    pub fn get_root(&self) -> (r: &str)
        ensures
            r@ == self.root@,
    {
        self.root.as_str()
    }
}

} // verus!
