//! Password sampling: drawing characters uniformly from a pool.
//!
//! The random source is the thread-local generator of the `rand` crate.
//! Nothing can be promised of a random value beyond its range, so the
//! wrapper around the draw states only that the index is in bounds; every
//! property of the produced password (its length, its characters all
//! coming from the pool) is proved for every outcome of the draws.

use vstd::prelude::*;

use crate::pool::Pool;
use crate::UpwdError;

verus! {

#[verifier::external_type_specification]
#[verifier::external_body]
pub struct ExThreadRng(rand::rngs::ThreadRng);

/// Relies on rand::rng: a handle to the thread-local random generator.
#[verifier::external_body]
fn fresh_rng() -> rand::rngs::ThreadRng {
    rand::rng()
}

/// Relies on rand::RngExt::random_range: a uniformly distributed value in
/// the given non-empty range.  Only the range of the result is stated;
/// which value comes back is left open, as it must be for a random draw.
#[verifier::external_body]
fn random_below(rng: &mut rand::rngs::ThreadRng, bound: usize) -> (r: usize)
    requires
        bound > 0,
    ensures
        r < bound,
{
    rand::RngExt::random_range(rng, 0..bound)
}

/// Relies on String::from_iter over chars: builds the string of exactly
/// the given characters, in order.
#[verifier::external_body]
fn string_from_chars(v: Vec<char>) -> (s: String)
    ensures
        s@ == v@,
{
    v.into_iter().collect()
}

/// Draw one password of exactly `length` characters uniformly from
/// `pool`, each character independently and with replacement.
///
/// An empty pool admits no uniform choice: the call is rejected before
/// any randomness is consumed.  A length of zero is valid and yields the
/// empty string.
pub fn generate_password(pool: &Pool, length: usize) -> (r: Result<String, UpwdError>)
    ensures
        pool@.len() == 0 <==> r is Err,
        r is Err ==> r->Err_0 == UpwdError::EmptyPool,
        r matches Ok(s) ==> s@.len() == length && (forall|i: int|
            0 <= i < length ==> pool@.contains(#[trigger] s@[i])),
{
    if pool.is_empty() {
        return Err(UpwdError::EmptyPool);
    }
    let mut rng = fresh_rng();
    let mut chars: Vec<char> = Vec::new();
    let mut i: usize = 0;
    while i < length
        invariant
            i <= length,
            pool@.len() > 0,
            chars@.len() == i,
            forall|j: int| 0 <= j < i ==> pool@.contains(#[trigger] chars@[j]),
        decreases length - i,
    {
        let idx = random_below(&mut rng, pool.len());
        let c = pool.get(idx).unwrap();
        chars.push(c);
        proof {
            assert(pool@.contains(pool@[idx as int]));
        }
        i = i + 1;
    }
    Ok(string_from_chars(chars))
}

/// Draw `count` independent passwords of exactly `length` characters each
/// from `pool`.
///
/// The pool is checked before any password is drawn: with an empty pool
/// nothing at all is produced, never a partial batch.
pub fn generate_passwords(pool: &Pool, length: usize, count: usize) -> (r: Result<
    Vec<String>,
    UpwdError,
>)
    ensures
        pool@.len() == 0 <==> r is Err,
        r is Err ==> r->Err_0 == UpwdError::EmptyPool,
        r matches Ok(v) ==> v@.len() == count && (forall|p: int|
            0 <= p < count ==> (#[trigger] v@[p])@.len() == length && (forall|i: int|
                0 <= i < length ==> pool@.contains(#[trigger] v@[p]@[i]))),
{
    if pool.is_empty() {
        return Err(UpwdError::EmptyPool);
    }
    let mut out: Vec<String> = Vec::new();
    let mut n: usize = 0;
    while n < count
        invariant
            n <= count,
            pool@.len() > 0,
            out@.len() == n,
            forall|p: int|
                0 <= p < n ==> (#[trigger] out@[p])@.len() == length && (forall|i: int|
                    0 <= i < length ==> pool@.contains(#[trigger] out@[p]@[i])),
        decreases count - n,
    {
        let password = match generate_password(pool, length) {
            Ok(password) => password,
            Err(e) => {
                proof {
                    assert(false);
                }
                return Err(e);
            },
        };
        out.push(password);
        n = n + 1;
    }
    Ok(out)
}

} // verus!
