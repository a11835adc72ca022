//! Finds the route of a fragmented datagram by its key.
use crate::packet::FragmentKey;
use crate::wire::IpAddress;
use ahash::AHashMap;
use vstd::prelude::*;

verus! {

/// A fragment key in integers: the families of both addresses, the addresses, the
/// protocol and the identification.
pub type KeyNumbers = (u8, u128, u128, u8, u32);

/// `ahash::AHashMap`: a hash map.
#[verifier::external_type_specification]
#[verifier::external_body]
#[verifier::reject_recursive_types(K)]
#[verifier::reject_recursive_types(V)]
#[verifier::reject_recursive_types(S)]
pub struct ExAHashMap<K, V, S>(ahash::AHashMap<K, V, S>);

/// `ahash::RandomState`: the hasher of such a map.
#[verifier::external_type_specification]
#[verifier::external_body]
pub struct ExRandomState(ahash::RandomState);

/// What the map holds.
pub uninterp spec fn mapping(index: AHashMap<KeyNumbers, usize>) -> Map<KeyNumbers, usize>;

/// `AHashMap::new`: an empty map.
#[verifier::external_body]
pub(crate) fn empty() -> (r: AHashMap<KeyNumbers, usize>)
    ensures
        mapping(r).dom() == Set::<KeyNumbers>::empty(),
{
    AHashMap::new()
}

/// `AHashMap::get`: the value under a key.
#[verifier::external_body]
pub(crate) fn get(index: &AHashMap<KeyNumbers, usize>, key: KeyNumbers) -> (r: Option<usize>)
    ensures
        r == (if mapping(*index).contains_key(key) {
            Some(mapping(*index)[key])
        } else {
            None
        }),
{
    index.get(&key).copied()
}

/// `AHashMap::insert`: the key has the value from now on.
#[verifier::external_body]
pub(crate) fn insert(index: &mut AHashMap<KeyNumbers, usize>, key: KeyNumbers, value: usize)
    ensures
        mapping(*final(index)) == mapping(*old(index)).insert(key, value),
{
    index.insert(key, value);
}

/// `AHashMap::remove`: the key has no value from now on.
#[verifier::external_body]
pub(crate) fn remove(index: &mut AHashMap<KeyNumbers, usize>, key: KeyNumbers)
    ensures
        mapping(*final(index)) == mapping(*old(index)).remove(key),
{
    index.remove(&key);
}

/// An address as a number of its family.
pub open spec fn address_number(address: IpAddress) -> u128 {
    match address {
        IpAddress::V4(a) => a as u128,
        IpAddress::V6(a) => a,
    }
}

/// The numbers of a key.
pub open spec fn spec_numbers(key: FragmentKey) -> KeyNumbers {
    (
        (if key.source is V4 {
            1u8
        } else {
            0u8
        } + if key.destination is V4 {
            2u8
        } else {
            0u8
        }) as u8,
        address_number(key.source),
        address_number(key.destination),
        key.protocol,
        key.id,
    )
}

/// Reads an address as a number of its family.
pub fn number_of(address: IpAddress) -> (r: u128)
    ensures
        r == address_number(address),
{
    match address {
        IpAddress::V4(a) => a as u128,
        IpAddress::V6(a) => a,
    }
}

/// Writes a key in integers.
pub fn numbers(key: &FragmentKey) -> (r: KeyNumbers)
    ensures
        r == spec_numbers(*key),
{
    let families: u8 = match (key.source.is_ipv4(), key.destination.is_ipv4()) {
        (true, true) => 3,
        (true, false) => 1,
        (false, true) => 2,
        (false, false) => 0,
    };
    (families, number_of(key.source), number_of(key.destination), key.protocol, key.id)
}

/// Different keys have different numbers.
pub broadcast proof fn lemma_numbers_differ(a: FragmentKey, b: FragmentKey)
    ensures
        #[trigger] spec_numbers(a) == #[trigger] spec_numbers(b) <==> a == b,
{
}

} // verus!
