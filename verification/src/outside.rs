//! The calls into other crates. What each of these items promises is taken on trust.
use base64::DecodeError;
use bincode::ErrorKind;
use rand_chacha::ChaCha12Rng;
use rand_core::{OsRng, RngCore, SeedableRng};
use rayon::iter::{IntoParallelIterator, ParallelIterator};
use vstd::arithmetic::power2::pow2;
use vstd::prelude::*;

verus! {

/// The error of `base64::decode`.
#[verifier::external_type_specification]
#[verifier::external_body]
pub struct ExDecodeError(base64::DecodeError);

/// The error of `bincode::serialize`, which comes in a box.
#[verifier::external_type_specification]
#[verifier::external_body]
pub struct ExErrorKind(bincode::ErrorKind);

/// The error of `serde_json::from_str`.
#[verifier::external_type_specification]
#[verifier::external_body]
pub struct ExJsonError(serde_json::Error);

/// The text that `base64::encode` makes of bytes: standard alphabet, padded.
pub uninterp spec fn base64_text(bytes: Seq<u8>) -> Seq<char>;

/// The bytes that `base64::decode` reads from a text, or `None` where it reports an error.
pub uninterp spec fn base64_bytes(text: Seq<char>) -> Option<Seq<u8>>;

/// The list of strings that `serde_json::from_str` reads from a JSON text, or `None` where it
/// reports an error.
pub uninterp spec fn json_strings(text: Seq<char>) -> Option<Seq<Seq<char>>>;

/// The first bytes of the key stream that ChaCha with 12 rounds gives for a seed.
pub uninterp spec fn chacha_stream(seed: Seq<u8>, len: nat) -> Seq<u8>;

/// Byte number `k` of an integer, the least significant byte first.
pub open spec fn le_byte(x: int, k: int) -> u8 {
    ((x / (pow2((8 * k) as nat) as int)) % 256) as u8
}

/// A length as eight bytes, the least significant first.
pub open spec fn length_prefix(n: int) -> Seq<u8> {
    Seq::new(8, |k: int| le_byte(n, k))
}

/// Words as four bytes each, the least significant first.
pub open spec fn word_bytes(words: Seq<u32>) -> Seq<u8> {
    Seq::new((4 * words.len()) as nat, |k: int| le_byte(words[k / 4] as int, k % 4))
}

/// `base64::encode`. The text is a function of the bytes, and `base64::decode` reads the same bytes
/// back from it. The call panics where the size of the text does not fit in `usize`.
#[verifier::external_body]
pub(crate) fn base64_encode(bytes: &[u8]) -> (text: String)
    requires
        4 * (bytes@.len() / 3) + 4 <= usize::MAX,
    ensures
        text@ == base64_text(bytes@),
        base64_bytes(text@) == Some(bytes@),
{
    base64::encode(bytes)
}

/// `base64::decode`. Whether the text decodes, and to which bytes, is a function of the text.
#[verifier::external_body]
pub(crate) fn base64_decode(text: &str) -> (res: Result<Vec<u8>, DecodeError>)
    ensures
        match res {
            Ok(bytes) => base64_bytes(text@) == Some(bytes@),
            Err(_) => base64_bytes(text@) is None,
        },
{
    base64::decode(text)
}

/// `serde_json::from_str` at the type `Vec<String>`. Whether the text is a JSON list of strings,
/// and which, is a function of the text.
#[verifier::external_body]
pub(crate) fn json_parse_strings(text: &str) -> (res: Result<Vec<String>, serde_json::Error>)
    ensures
        match res {
            Ok(list) => json_strings(text@) == Some(list@.map_values(|s: String| s@)),
            Err(_) => json_strings(text@) is None,
        },
{
    serde_json::from_str(text)
}

/// `bincode::serialize` at the type `Vec<u32>`: the number of words as eight bytes, then each word
/// as four bytes, all with the least significant byte first. There is no size limit, and writing to
/// memory does not fail.
#[verifier::external_body]
pub(crate) fn bincode_words(words: &Vec<u32>) -> (res: Result<Vec<u8>, Box<ErrorKind>>)
    ensures
        res is Ok,
        res->Ok_0@ == length_prefix(words@.len() as int) + word_bytes(words@),
{
    bincode::serialize(words)
}

/// `bincode::serialize` at the type `u64`: eight bytes, the least significant first.
#[verifier::external_body]
pub(crate) fn bincode_u64(n: u64) -> (res: Result<Vec<u8>, Box<ErrorKind>>)
    ensures
        res is Ok,
        res->Ok_0@ == length_prefix(n as int),
{
    bincode::serialize(&n)
}

/// `OsRng::fill_bytes` on 32 bytes: chance decides, so nothing is said of them. The call panics
/// where the operating system has no randomness to give.
#[verifier::external_body]
pub(crate) fn os_random_seed() -> (seed: [u8; 32]) {
    let mut seed = [0u8; 32];
    OsRng.fill_bytes(&mut seed);
    seed
}

/// `OsRng::next_u32`: chance decides, so nothing is said of the word. The call panics where the
/// operating system has no randomness to give.
#[verifier::external_body]
pub(crate) fn os_random_word() -> (word: u32) {
    OsRng.next_u32()
}

/// `ChaCha12Rng::from_seed`, then `fill_bytes` on a buffer of `len` bytes. The generator is
/// documented to give the same stream for the same seed on every platform.
#[verifier::external_body]
pub(crate) fn chacha_bytes(seed: [u8; 32], len: usize) -> (bytes: Vec<u8>)
    ensures
        bytes@ == chacha_stream(seed@, len as nat),
        bytes@.len() == len,
{
    let mut bytes = vec![0u8; len];
    ChaCha12Rng::from_seed(seed).fill_bytes(&mut bytes);
    bytes
}

/// Rayon's parallel iterator over `0..n`, mapped by `f` and collected: `f` is called once on each
/// index, and the results stand in the order of the indices.
#[verifier::external_body]
pub(crate) fn par_map<T: Send, F: Fn(usize) -> T + Sync + Send>(n: usize, f: F) -> (res: Vec<T>)
    requires
        forall|i: usize| i < n ==> call_requires(f, (i,)),
    ensures
        res@.len() == n,
        forall|i: int| 0 <= i < n ==> call_ensures(f, (i as usize,), #[trigger] res@[i]),
{
    (0..n).into_par_iter().map(f).collect()
}

} // verus!
