//! Keys, and how they are compared and hashed.
//!
//! A key is looked up by a borrowed form of it, with the caller's own `Borrow`, `Eq` and `Hash`. What
//! these promise in their documentation is stated here once, for key types and hash builders that keep
//! to the promises (`obeys_key_model`, `obeys_eq_spec`, `borrows_apart`, `builds_valid_hashers`).
use core::borrow::Borrow;
use core::hash::{BuildHasher, Hash};
use hashbrown::DefaultHashBuilder;
use vstd::prelude::*;
use vstd::std_specs::cmp::PartialEqSpec;
use vstd::std_specs::hash::{builds_valid_hashers, contains_borrowed_key, obeys_key_model};

verus! {

/// `borrowed` is a borrowed form of `key`: a map that holds `key` alone contains it.
///
/// Where both are of one type, this says that they are equal.
pub open spec fn key_is<K, Q: ?Sized>(key: K, borrowed: &Q) -> bool {
    contains_borrowed_key(Map::<K, ()>::empty().insert(key, ()), borrowed)
}

/// What is borrowed from keys tells them apart: nothing is a borrowed form of two keys.
///
/// Every type borrows itself apart. Of another borrowed type this has to be known before anything
/// follows of a lookup by it, because any type may implement `Borrow` for any other.
pub open spec fn borrows_apart<K, Q: ?Sized>() -> bool {
    forall|k: K, l: K, q: &Q| #[trigger] key_is(k, q) && #[trigger] key_is(l, q) ==> k == l
}

/// Keys are told apart by themselves.
pub proof fn lemma_borrows_itself_apart<K>()
    ensures
        borrows_apart::<K, K>(),
{
}

/// `digest` is a possible digest of a key.
pub closed spec fn may_hash_to<Q: Hash + ?Sized, S: BuildHasher>(
    hasher: &S,
    key: &Q,
    digest: u64,
) -> bool {
    call_ensures(hash_one::<Q, S>, (hasher, key), digest)
}

/// The hash builder is of a type whose hashers agree on equal input.
pub open spec fn valid_builder<S>(hasher: &S) -> bool {
    builds_valid_hashers::<S>()
}

/// hashbrown's default hash builder.
#[verifier::external_type_specification]
#[verifier::external_body]
pub struct ExDefaultHashBuilder(DefaultHashBuilder);

/// `Default::default` of hashbrown's hash builder, which is seeded once: the hashers that one builder
/// builds agree on equal input. Nothing is said of the seed.
#[verifier::external_body]
pub(crate) fn default_hash_builder() -> (hasher: DefaultHashBuilder)
    ensures
        valid_builder(&hasher),
{
    DefaultHashBuilder::default()
}

/// `Clone::clone` of hashbrown's hash builder, which copies the seed: the clone cannot be told from
/// what it was cloned from.
pub assume_specification[ <DefaultHashBuilder as Clone>::clone ](
    hasher: &DefaultHashBuilder,
) -> (copy: DefaultHashBuilder)
    ensures
        copy == *hasher,
;

/// `BuildHasher::hash_one` on a key that is to be filed. Nothing is promised of the digest: what it
/// may be is what `may_hash_to` says.
#[verifier::external_body]
pub(crate) fn hash_one<Q: Hash + ?Sized, S: BuildHasher>(hasher: &S, key: &Q) -> (digest: u64) {
    hasher.hash_one(key)
}

/// A digest for a key.
pub(crate) fn digest_of<Q: Hash + ?Sized, S: BuildHasher>(hasher: &S, key: &Q) -> (digest: u64)
    ensures
        may_hash_to(hasher, key, digest),
{
    let hash = hash_one::<Q, S>;
    hash(hasher, key)
}

/// `BuildHasher::hash_one` on a borrowed key that is to be looked for. `Borrow` and `Hash` promise that
/// a key and its borrowed forms have one digest, as long as the same builder makes it: it is the
/// only digest that the key may have been filed under. This is claimed where keys are borrowed apart,
/// and of nothing else.
#[verifier::external_body]
pub(crate) fn hash_key<K: Borrow<Q> + Hash, Q: Hash + ?Sized, S: BuildHasher>(
    hasher: &S,
    key: &Q,
) -> (digest: u64)
    ensures
        (obeys_key_model::<K>() && borrows_apart::<K, Q>() && builds_valid_hashers::<S>()
            ==> forall|k: K, d: u64|
            key_is(k, key) && #[trigger] may_hash_to(hasher, &k, d) ==> d == digest),
{
    hasher.hash_one(key)
}

/// `Borrow::borrow`. `Borrow` promises that a key and its borrowed forms are equal to the same things,
/// so what equals the borrowed form of a key is a borrowed form of it, and nothing else is. This is
/// claimed where keys are borrowed apart, and of nothing else.
#[verifier::external_body]
pub(crate) fn borrow_key<K: Borrow<Q>, Q: Eq + ?Sized>(key: &K) -> (borrowed: &Q)
    ensures
        (obeys_key_model::<K>() && Q::obeys_eq_spec() && borrows_apart::<K, Q>() ==> forall|q: &Q|
            #[trigger] borrowed.eq_spec(q) <==> key_is(*key, q)),
{
    key.borrow()
}

} // verus!
