//! Content fingerprints and the streaming hasher that computes them.

use vstd::prelude::*;
use vstd::string::StringExecFns;
use crate::blake3_calls::{absorbed, blake3_digest, finalize_hasher, new_hasher, update_hasher};

verus! {

/// The digest algorithms a fingerprint can come from.
#[derive(Clone, Copy, Debug, PartialEq, Eq, Structural)]
pub enum HashAlgorithm {
    Blake3,
    Sha256,
}

/// A 32-byte digest tagged with the algorithm that produced it.
#[derive(Clone, Copy, Debug, Eq, Hash)]
pub enum ContentHash {
    Blake3([u8; 32]),
    Sha256([u8; 32]),
}

/// The fingerprint of `data` under the algorithm this library hashes with.
pub open spec fn content_hash_of(data: Seq<u8>) -> (HashAlgorithm, Seq<u8>) {
    (HashAlgorithm::Blake3, blake3_digest(data))
}

/// The name under which an algorithm is reported.
pub open spec fn algorithm_name(a: HashAlgorithm) -> Seq<char> {
    match a {
        HashAlgorithm::Blake3 => seq!['B', 'L', 'A', 'K', 'E', '3'],
        HashAlgorithm::Sha256 => seq!['S', 'H', 'A', '-', '2', '5', '6'],
    }
}

impl View for ContentHash {
    type V = (HashAlgorithm, Seq<u8>);

    open spec fn view(&self) -> (HashAlgorithm, Seq<u8>) {
        match self {
            ContentHash::Blake3(b) => (HashAlgorithm::Blake3, b@),
            ContentHash::Sha256(b) => (HashAlgorithm::Sha256, b@),
        }
    }
}

fn bytes_equal(a: &[u8; 32], b: &[u8; 32]) -> (r: bool)
    ensures
        r == (a@ == b@),
{
    let mut i: usize = 0;
    while i < 32
        invariant
            i <= 32,
            a@.len() == 32,
            b@.len() == 32,
            forall|k: int| 0 <= k < i ==> a@[k] == b@[k],
        decreases 32 - i,
    {
        if a[i] != b[i] {
            return false;
        }
        i = i + 1;
    }
    assert(a@ =~= b@);
    true
}

impl PartialEq for ContentHash {
    fn eq(&self, other: &ContentHash) -> (r: bool)
        ensures
            r == (self@ == other@),
    {
        match (self, other) {
            (ContentHash::Blake3(a), ContentHash::Blake3(b)) => bytes_equal(a, b),
            (ContentHash::Sha256(a), ContentHash::Sha256(b)) => bytes_equal(a, b),
            _ => false,
        }
    }
}

impl vstd::std_specs::cmp::PartialEqSpecImpl for ContentHash {
    open spec fn obeys_eq_spec() -> bool {
        true
    }

    open spec fn eq_spec(&self, other: &ContentHash) -> bool {
        self@ == other@
    }
}

/// The lowercase hexadecimal digit for `n < 16`.
pub open spec fn hex_digit(n: int) -> char {
    if n < 10 {
        (('0' as int) + n) as char
    } else {
        (('a' as int) + n - 10) as char
    }
}

/// Two lowercase hexadecimal digits per byte, most significant first.
pub open spec fn hex_of(bytes: Seq<u8>) -> Seq<char>
    decreases bytes.len(),
{
    if bytes.len() == 0 {
        Seq::empty()
    } else {
        hex_of(bytes.drop_last()) + seq![
            hex_digit(bytes.last() as int / 16),
            hex_digit(bytes.last() as int % 16),
        ]
    }
}

pub(crate) fn hex_digit_str(n: u8) -> (r: &'static str)
    requires
        n < 16,
    ensures
        r@ == seq![hex_digit(n as int)],
{
    match n {
        0 => { proof { reveal_strlit("0"); } "0" },
        1 => { proof { reveal_strlit("1"); } "1" },
        2 => { proof { reveal_strlit("2"); } "2" },
        3 => { proof { reveal_strlit("3"); } "3" },
        4 => { proof { reveal_strlit("4"); } "4" },
        5 => { proof { reveal_strlit("5"); } "5" },
        6 => { proof { reveal_strlit("6"); } "6" },
        7 => { proof { reveal_strlit("7"); } "7" },
        8 => { proof { reveal_strlit("8"); } "8" },
        9 => { proof { reveal_strlit("9"); } "9" },
        10 => { proof { reveal_strlit("a"); } "a" },
        11 => { proof { reveal_strlit("b"); } "b" },
        12 => { proof { reveal_strlit("c"); } "c" },
        13 => { proof { reveal_strlit("d"); } "d" },
        14 => { proof { reveal_strlit("e"); } "e" },
        _ => { proof { reveal_strlit("f"); } "f" },
    }
}

impl ContentHash {
    /// The digest as lowercase hexadecimal, two digits per byte.
    pub fn to_hex(&self) -> (r: String)
        ensures
            r@ == hex_of(self@.1),
            r@.len() == 64,
    {
        let bytes = self.as_bytes();
        let mut out = String::new();
        let mut i: usize = 0;
        while i < bytes.len()
            invariant
                i <= bytes@.len(),
                bytes@ == self@.1,
                out@ == hex_of(bytes@.take(i as int)),
                out@.len() == 2 * i,
            decreases bytes@.len() - i,
        {
            let b = bytes[i];
            out.append(hex_digit_str(b / 16));
            out.append(hex_digit_str(b % 16));
            proof {
                assert(bytes@.take(i + 1).drop_last() =~= bytes@.take(i as int));
            }
            i = i + 1;
        }
        assert(bytes@.take(i as int) =~= bytes@);
        out
    }

    /// The digest bytes.
    pub fn as_bytes(&self) -> (r: &[u8])
        ensures
            r@ == self@.1,
            r@.len() == 32,
    {
        match self {
            ContentHash::Blake3(b) => b.as_slice(),
            ContentHash::Sha256(b) => b.as_slice(),
        }
    }

    /// The name of the algorithm that produced the digest.
    pub fn algorithm(&self) -> (r: &'static str)
        ensures
            r@ == algorithm_name(self@.0),
    {
        match self {
            ContentHash::Blake3(_) => {
                proof {
                    reveal_strlit("BLAKE3");
                }
                "BLAKE3"
            },
            ContentHash::Sha256(_) => {
                proof {
                    reveal_strlit("SHA-256");
                }
                "SHA-256"
            },
        }
    }

    /// Whether two fingerprints are equal: same algorithm and same bytes.
    pub fn same_as(&self, other: &ContentHash) -> (r: bool)
        ensures
            r == (self@ == other@),
    {
        self.eq(other)
    }
}

/// A streaming hasher: its result depends only on the concatenation of
/// what it was fed, not on how the input was split.
pub struct StreamHasher {
    inner: blake3::Hasher,
}

impl View for StreamHasher {
    type V = Seq<u8>;

    /// The bytes fed so far.
    closed spec fn view(&self) -> Seq<u8> {
        absorbed(self.inner)
    }
}

impl StreamHasher {
    /// A hasher that has been fed nothing.
    pub fn new() -> (r: StreamHasher)
        ensures
            r@ == Seq::<u8>::empty(),
    {
        StreamHasher { inner: new_hasher() }
    }

    /// Feeds `data` to the hasher.
    pub fn update(&mut self, data: &[u8])
        ensures
            final(self)@ == old(self)@ + data@,
    {
        update_hasher(&mut self.inner, data);
    }

    /// The fingerprint of everything fed so far.
    pub fn finalize(self) -> (r: ContentHash)
        ensures
            r@ == content_hash_of(self@),
    {
        ContentHash::Blake3(finalize_hasher(&self.inner))
    }
}

impl Default for StreamHasher {
    fn default() -> (r: StreamHasher)
        ensures
            r@ == Seq::<u8>::empty(),
    {
        StreamHasher::new()
    }
}

/// The fingerprint of an in-memory byte sequence.
pub fn hash_bytes(data: &[u8]) -> (r: ContentHash)
    ensures
        r@ == content_hash_of(data@),
{
    let mut hasher = StreamHasher::new();
    hasher.update(data);
    assert(Seq::<u8>::empty() + data@ =~= data@);
    hasher.finalize()
}

/// Hashing is a function of the bytes: equal byte sequences give equal
/// fingerprints, and a hasher that starts empty and is fed `b1` and then
/// `b2` finalizes to the fingerprint of `b1 ++ b2`, whatever the split.
pub proof fn lemma_hash_deterministic(b: Seq<u8>, c: Seq<u8>, b1: Seq<u8>, b2: Seq<u8>)
    ensures
        b == c ==> content_hash_of(b) == content_hash_of(c),
        content_hash_of(Seq::<u8>::empty() + b1 + b2) == content_hash_of(b1 + b2),
{
    assert(Seq::<u8>::empty() + b1 + b2 =~= b1 + b2);
}

} // verus!
