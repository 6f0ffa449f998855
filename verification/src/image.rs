//! The binary image of a process: its snapshot as bytes, eight per word,
//! most significant byte first.

use crate::formats::{
    d, decode, encode, lemma_decode_encode, lemma_representable, s, DecodeError, Process,
    ProcessView,
};
use byteorder::{BigEndian, ByteOrder};
use vstd::prelude::*;

verus! {

/// The word that eight bytes spell, most significant byte first.
pub open spec fn word_of(bytes: Seq<u8>) -> u64 {
    (bytes[0] as u64) << 56 | (bytes[1] as u64) << 48 | (bytes[2] as u64) << 40 | (bytes[3] as u64)
        << 32 | (bytes[4] as u64) << 24 | (bytes[5] as u64) << 16 | (bytes[6] as u64) << 8 | (
    bytes[7] as u64)
}

/// Byte `j` of a word, counted from the most significant one.
pub open spec fn byte_of(word: u64, j: int) -> u8 {
    ((word >> ((8 * (7 - j)) as u64)) & 0xff) as u8
}

/// The words that a run of bytes spells, eight bytes to the word.
pub open spec fn words_of(bytes: Seq<u8>) -> Seq<u64> {
    Seq::new(bytes.len() / 8, |i: int| word_of(bytes.subrange(8 * i, 8 * i + 8)))
}

/// The bytes that spell a run of words.
pub open spec fn bytes_of(words: Seq<u64>) -> Seq<u8> {
    Seq::new(8 * words.len(), |k: int| byte_of(words[k / 8], k % 8))
}

/// `byteorder::BigEndian::read_u64_into`: fills `dst` with the words that
/// `src` spells in big-endian order. The crate panics unless `src` has eight
/// bytes for every word of `dst`.
#[verifier::external_body]
fn read_words(src: &Vec<u8>, dst: &mut Vec<u64>)
    requires
        src.len() == 8 * old(dst).len(),
    ensures
        final(dst)@ == words_of(src@),
{
    BigEndian::read_u64_into(src, dst);
}

/// `byteorder::BigEndian::write_u64_into`: fills `dst` with the bytes that
/// spell the words of `src` in big-endian order. The crate panics unless
/// `dst` has eight bytes for every word of `src`.
#[verifier::external_body]
fn write_words(src: &Vec<u64>, dst: &mut Vec<u8>)
    requires
        old(dst).len() == 8 * src.len(),
    ensures
        final(dst)@ == bytes_of(src@),
{
    BigEndian::write_u64_into(src, dst);
}

/// Reads bytes as words. There are none where the bytes do not come in
/// eights.
pub fn unpack(data: &Vec<u8>) -> (r: Option<Vec<u64>>)
    ensures
        match r {
            Some(words) => data.len() % 8 == 0 && words@ == words_of(data@),
            None => data.len() % 8 != 0,
        },
{
    if data.len() % 8 != 0 {
        return None;
    }
    let mut flat: Vec<u64> = vec![0; data.len() / 8];
    read_words(data, &mut flat);
    Some(flat)
}

/// Writes words as bytes.
pub fn pack(words: &Vec<u64>) -> (bytes: Vec<u8>)
    ensures
        bytes@ == bytes_of(words@),
{
    let mut bytes: Vec<u8> = Vec::new();
    let mut i: usize = 0;
    while i < words.len()
        invariant
            i <= words.len(),
            bytes.len() == 8 * i,
        decreases words.len() - i,
    {
        let mut j: usize = 0;
        while j < 8
            invariant
                j <= 8,
                bytes.len() == 8 * i + j,
            decreases 8 - j,
        {
            bytes.push(0);
            j = j + 1;
        }
        i = i + 1;
    }
    write_words(words, &mut bytes);
    bytes
}

/// The bytes of a word spell the word.
pub proof fn lemma_word_of_bytes(word: u64)
    ensures
        word_of(Seq::new(8, |j: int| byte_of(word, j))) == word,
{
    let b = Seq::new(8, |j: int| byte_of(word, j));
    assert(b[0] == ((word >> 56) & 0xff) as u8);
    assert(b[1] == ((word >> 48) & 0xff) as u8);
    assert(b[2] == ((word >> 40) & 0xff) as u8);
    assert(b[3] == ((word >> 32) & 0xff) as u8);
    assert(b[4] == ((word >> 24) & 0xff) as u8);
    assert(b[5] == ((word >> 16) & 0xff) as u8);
    assert(b[6] == ((word >> 8) & 0xff) as u8);
    assert(b[7] == ((word >> 0) & 0xff) as u8);
    assert((((word >> 56) & 0xff) as u8 as u64) << 56 | (((word >> 48) & 0xff) as u8 as u64) << 48
        | (((word >> 40) & 0xff) as u8 as u64) << 40 | (((word >> 32) & 0xff) as u8 as u64) << 32
        | (((word >> 24) & 0xff) as u8 as u64) << 24 | (((word >> 16) & 0xff) as u8 as u64) << 16
        | (((word >> 8) & 0xff) as u8 as u64) << 8 | (((word >> 0) & 0xff) as u8 as u64) == word)
        by (bit_vector);
}

/// Reading back the bytes of a run of words gives the words.
pub proof fn lemma_unpack_pack(words: Seq<u64>)
    ensures
        bytes_of(words).len() == 8 * words.len(),
        words_of(bytes_of(words)) == words,
{
    let bytes = bytes_of(words);
    assert forall|i: int| 0 <= i < words.len() implies words_of(bytes)[i] == words[i] by {
        let chunk = bytes.subrange(8 * i, 8 * i + 8);
        assert(chunk =~= Seq::new(8, |j: int| byte_of(words[i], j))) by {
            assert forall|j: int| 0 <= j < 8 implies chunk[j] == byte_of(words[i], j) by {
                assert(chunk[j] == bytes[8 * i + j]);
                assert((8 * i + j) / 8 == i);
                assert((8 * i + j) % 8 == j);
            }
        }
        lemma_word_of_bytes(words[i]);
    }
    assert(words_of(bytes) =~= words);
}

/// Why an image was rejected.
#[derive(Debug, Clone, Copy, PartialEq, Eq, Structural)]
pub enum LoadError {
    /// The bytes do not come in eights.
    Ragged,
    /// The words are not the snapshot of a process.
    Snapshot(DecodeError),
}

/// What loading bytes gives: the process whose image they are, or why they
/// are none.
pub open spec fn load_spec(data: Seq<u8>) -> Result<ProcessView, LoadError> {
    if data.len() % 8 != 0 {
        Err(LoadError::Ragged)
    } else {
        match decode(words_of(data)) {
            Ok(p) => Ok(p),
            Err(e) => Err(LoadError::Snapshot(e)),
        }
    }
}

/// Reads a process from its binary image.
pub fn load(data: &Vec<u8>) -> (r: Result<Process, LoadError>)
    ensures
        match r {
            Ok(p) => load_spec(data@) == Ok::<ProcessView, LoadError>(p@),
            Err(e) => load_spec(data@) == Err::<ProcessView, LoadError>(e),
        },
{
    match unpack(data) {
        None => Err(LoadError::Ragged),
        Some(flat) => match d(&flat) {
            Ok(p) => Ok(p),
            Err(e) => Err(LoadError::Snapshot(e)),
        },
    }
}

/// Writes the binary image of a process.
pub fn store(sharp: &Process) -> (bytes: Vec<u8>)
    ensures
        bytes@ == bytes_of(encode(sharp@)),
        load_spec(bytes@) == Ok::<ProcessView, LoadError>(sharp@),
{
    let flat = s(sharp);
    let bytes = pack(&flat);
    proof {
        lemma_representable(sharp);
        lemma_store_load(sharp@);
    }
    bytes
}

/// Round trip through bytes: loading the image of a process gives the
/// process back.
pub proof fn lemma_store_load(p: ProcessView)
    requires
        crate::formats::representable(p),
    ensures
        load_spec(bytes_of(encode(p))) == Ok::<ProcessView, LoadError>(p),
{
    lemma_unpack_pack(encode(p));
    lemma_decode_encode(p);
}

} // verus!
