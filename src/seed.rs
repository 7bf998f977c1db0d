use vstd::prelude::*;

verus! {

/// The SHA-256 digest of a byte string.
pub uninterp spec fn sha256_of(data: Seq<u8>) -> Seq<u8>;

/// Relies on `sha2::Sha256` through `digest::Digest::digest`: the SHA-256
/// digest of the bytes, which is 32 bytes long.
#[verifier::external_body]
fn sha256(data: &Vec<u8>) -> (r: Vec<u8>)
    ensures
        r@ == sha256_of(data@),
        r@.len() == 32,
{
    <sha2::Sha256 as sha2::Digest>::digest(data.as_slice()).to_vec()
}

/// Byte `j` (least significant first) of a word.
pub open spec fn word_byte(w: u64, j: u64) -> u8 {
    ((w >> (8 * j)) & 0xff) as u8
}

/// The little-endian bytes of a sequence of words, word after word.
pub open spec fn le_bytes(words: Seq<u64>) -> Seq<u8>
    decreases words.len(),
{
    if words.len() == 0 {
        Seq::empty()
    } else {
        le_bytes(words.drop_last()) + Seq::new(8, |j: int| word_byte(words.last(), j as u64))
    }
}

/// The little-endian bytes of the words, concatenated.
pub fn words_to_le_bytes(words: &Vec<u64>) -> (r: Vec<u8>)
    ensures
        r@ == le_bytes(words@),
{
    let mut out: Vec<u8> = Vec::new();
    let mut i: usize = 0;
    while i < words.len()
        invariant
            i <= words@.len(),
            out@ == le_bytes(words@.subrange(0, i as int)),
        decreases words@.len() - i,
    {
        let w = words[i];
        let ghost start = out@;
        let mut j: u64 = 0;
        while j < 8
            invariant
                j <= 8,
                out@ == start + Seq::new(j as nat, |t: int| word_byte(w, t as u64)),
            decreases 8 - j,
        {
            out.push(((w >> (8 * j)) & 0xff) as u8);
            j = j + 1;
            assert(out@ =~= start + Seq::new(j as nat, |t: int| word_byte(w, t as u64)));
        }
        assert(words@.subrange(0, i + 1).drop_last() == words@.subrange(0, i as int));
        assert(words@.subrange(0, i + 1).last() == w);
        i = i + 1;
    }
    assert(words@.subrange(0, words@.len() as int) == words@);
    out
}

/// The 32-byte seed of the deterministic generator: the SHA-256 digest of the
/// seed words' little-endian bytes.
pub fn seed_from_words(words: &Vec<u64>) -> (r: Vec<u8>)
    ensures
        r@ == sha256_of(le_bytes(words@)),
        r@.len() == 32,
{
    let bytes = words_to_le_bytes(words);
    sha256(&bytes)
}

/// The generator seed depends on the seed words alone: any two seeds that
/// `seed_from_words` may return for the same words, such as those of two
/// runs, are the same bytes, so runs with the same seed words draw the same
/// numbers.
pub proof fn lemma_seed_deterministic(words: Seq<u64>, s1: Seq<u8>, s2: Seq<u8>)
    requires
        s1 == sha256_of(le_bytes(words)),
        s2 == sha256_of(le_bytes(words)),
    ensures
        s1 == s2,
{
}

} // verus!
