//! Seeds that are kept with a snapshot of the network, and numbers as big-endian bytes.

use vstd::prelude::*;
use vstd::arithmetic::power2::{lemma_pow2_adds, pow2};
use byteorder::ReadBytesExt;
use rand::Rng;
use crate::ids::{be_value, lemma_be_value_bound, lemma_be_value_injective};

verus! {

/// A number as `len` big-endian bytes.
pub open spec fn big_endian(n: nat, len: nat) -> Seq<u8>
    decreases len,
{
    if len == 0 {
        Seq::empty()
    } else {
        big_endian(n / 256, (len - 1) as nat).push((n % 256) as u8)
    }
}

/// A number as `len` big-endian bytes.
pub fn big_endian_bytes(n: u64, len: usize) -> (bytes: Vec<u8>)
    ensures
        bytes@ == big_endian(n as nat, len as nat),
    decreases len,
{
    if len == 0 {
        return Vec::new();
    }
    let mut bytes: Vec<u8> = big_endian_bytes(n / 256, len - 1);
    bytes.push((n % 256) as u8);
    bytes
}

/// The big-endian bytes of a number spell the number, if they are enough to hold it.
pub proof fn lemma_big_endian(n: nat, len: nat)
    requires
        n < pow2(8 * len),
    ensures
        big_endian(n, len).len() == len,
        be_value(big_endian(n, len)) == n,
    decreases len,
{
    vstd::arithmetic::power2::lemma2_to64();
    if len > 0 {
        let m = (len - 1) as nat;
        lemma_pow2_adds(8, 8 * m);
        assert(n / 256 < pow2(8 * m)) by (nonlinear_arith)
            requires
                n < 256 * pow2(8 * m),
        ;
        lemma_big_endian(n / 256, m);
        assert(big_endian(n, len).drop_last() =~= big_endian(n / 256, m));
    }
}

/// Reads a number from the front of bytes, from `byteorder::ReadBytesExt::read_u64` with
/// `byteorder::BigEndian` on a slice: it takes eight bytes as a big-endian number, and fails if
/// there are fewer.
#[verifier::external_body]
fn read_u64(bytes: &Vec<u8>) -> (number: Option<u64>)
    ensures
        number is Some == (bytes@.len() >= 8),
        number is Some ==> number->0 == be_value(bytes@.take(8)),
{
    bytes.as_slice().read_u64::<byteorder::BigEndian>().ok()
}

/// A random number, from the thread-local generator of `rand`. Which one is left to chance.
#[verifier::external_body]
fn random_u64() -> (number: u64) {
    rand::thread_rng().gen::<u64>()
}

/// Whether the file of a seed, if there is one, holds enough bytes.
pub open spec fn is_seed_file(file: Option<Vec<u8>>) -> bool {
    file matches Some(bytes) ==> bytes@.len() >= 8
}

/// The seed of a run: the one in the file, or else the one that was drawn.
pub open spec fn seed_of(file: Option<Vec<u8>>, drawn: u64) -> nat {
    match file {
        Some(bytes) => be_value(bytes@.take(8)),
        None => drawn as nat,
    }
}

/// The seed of a run: the one in the file, or else the one that was drawn.
pub fn choose_seed(file: &Option<Vec<u8>>, drawn: u64) -> (seed: u64)
    requires
        is_seed_file(*file),
    ensures
        seed == seed_of(*file, drawn),
{
    match file {
        Some(bytes) => match read_u64(bytes) {
            Some(seed) => seed,
            None => drawn,
        },
        None => drawn,
    }
}

/// The seed of a run: the one in the file, or else a random one.
pub fn load_seed(file: &Option<Vec<u8>>) -> (seed: u64)
    requires
        is_seed_file(*file),
    ensures
        *file is Some ==> seed == seed_of(*file, 0),
{
    let drawn: u64 = random_u64();
    choose_seed(file, drawn)
}

/// What is written to the file of a seed.
pub fn seed_bytes(seed: u64) -> (bytes: Vec<u8>)
    ensures
        bytes@ == big_endian(seed as nat, 8),
{
    big_endian_bytes(seed, 8)
}

/// A run that finds the seed of an earlier one uses the same seed, whatever else was drawn.
pub proof fn lemma_seed_is_kept(seed: u64, file: Vec<u8>, drawn: u64)
    requires
        file@ == big_endian(seed as nat, 8),
    ensures
        is_seed_file(Some(file)),
        seed_of(Some(file), drawn) == seed,
{
    vstd::arithmetic::power2::lemma2_to64();
    lemma_big_endian(seed as nat, 8);
    assert(file@.take(8) =~= file@);
}

/// A run that finds a seed leaves it in its file: what is written there are the eight bytes that
/// were read.
pub proof fn lemma_seed_file_stays(file: Vec<u8>, drawn: u64)
    requires
        is_seed_file(Some(file)),
    ensures
        big_endian(seed_of(Some(file), drawn), 8) == file@.take(8),
{
    let bytes = file@.take(8);
    lemma_be_value_bound(bytes);
    lemma_big_endian(be_value(bytes), 8);
    lemma_be_value_injective(big_endian(be_value(bytes), 8), bytes);
}

/// The seed of a run is the number that the first eight bytes of its file spell, and the one that
/// was drawn where there is no file. A file that is there has at least these bytes.
pub proof fn lemma_seed_of(file: Option<Vec<u8>>, drawn: u64)
    ensures
        file is None ==> seed_of(file, drawn) == drawn,
        file matches Some(bytes) ==> seed_of(file, drawn) == be_value(bytes@.take(8)),
        is_seed_file(file) <==> file is None || file->0@.len() >= 8,
{
}

} // verus!
