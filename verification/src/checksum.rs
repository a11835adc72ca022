//! The Internet checksum over bytes, stated over mathematical sums.
use crate::wire::IpAddress;
use vstd::prelude::*;

verus! {

/// The big-endian 16-bit word that starts at position `i`.
pub open spec fn be16(s: Seq<u8>, i: int) -> int {
    s[i] * 256 + s[i + 1]
}

/// The big-endian 32-bit word that starts at position `i`.
pub open spec fn be32(s: Seq<u8>, i: int) -> int {
    be16(s, i) * 0x1_0000 + be16(s, i + 2)
}

/// The big-endian 128-bit word that starts at position `i`.
pub open spec fn be128(s: Seq<u8>, i: int) -> int {
    be32(s, i) * 0x1_0000_0000_0000_0000_0000_0000 + be32(s, i + 4) * 0x1_0000_0000_0000_0000
        + be32(s, i + 8) * 0x1_0000_0000 + be32(s, i + 12)
}

/// The sum of the big-endian words of `s`; an odd last byte is the high half of
/// a word.
pub open spec fn word_sum(s: Seq<u8>) -> int
    decreases s.len(),
{
    if s.len() == 0 {
        0
    } else if s.len() == 1 {
        s[0] * 256
    } else {
        be16(s, 0) + word_sum(s.skip(2))
    }
}

/// The 16-bit value to which a sum folds when every carry out of the top bit is
/// added back in: zero stands for zero alone.
pub open spec fn fold(sum: int) -> int {
    if sum == 0 {
        0
    } else {
        (sum - 1) % 65535 + 1
    }
}

/// The checksum field that makes a message with this sum of words valid.
pub open spec fn complement(sum: int) -> int {
    65535 - fold(sum)
}

/// Whether a message that carries its checksum has this sum of words.
pub open spec fn balanced(sum: int) -> bool {
    fold(sum) == 65535
}

/// The sum of a list of words.
pub open spec fn total(words: Seq<u16>) -> int
    decreases words.len(),
{
    if words.len() == 0 {
        0
    } else {
        total(words.drop_last()) + words.last()
    }
}

/// The sum of the four words of a 64-bit number.
pub open spec fn words_of(x: int) -> int {
    x / 0x1_0000_0000_0000 + x / 0x1_0000_0000 % 0x1_0000 + x / 0x1_0000 % 0x1_0000 + x % 0x1_0000
}

/// The sum of the words of an address.
pub open spec fn address_sum(address: IpAddress) -> int {
    match address {
        IpAddress::V4(a) => a as int / 0x1_0000 + a as int % 0x1_0000,
        IpAddress::V6(a) => words_of(a as int / 0x1_0000_0000_0000_0000) + words_of(
            a as int % 0x1_0000_0000_0000_0000,
        ),
    }
}

/// The sum of the words of the pseudo-header that a transport checksum covers.
pub open spec fn pseudo_sum(
    source: IpAddress,
    destination: IpAddress,
    protocol: int,
    length: int,
) -> int {
    address_sum(source) + address_sum(destination) + protocol + length
}

/// `smoltcp::wire::checksum::data`: the folded sum of the words of `bytes`. Its
/// 32-bit accumulator cannot overflow on 128 KiB.
#[verifier::external_body]
pub(crate) fn data(bytes: &[u8]) -> (sum: u16)
    requires
        bytes@.len() <= 0x2_0000,
    ensures
        sum == fold(word_sum(bytes@)),
{
    smoltcp::wire::checksum::data(bytes)
}

/// `smoltcp::wire::checksum::combine`: the folded sum of the words themselves.
/// Its 32-bit accumulator cannot overflow on 65536 words.
#[verifier::external_body]
pub(crate) fn combine(sums: &[u16]) -> (sum: u16)
    requires
        sums@.len() <= 0x1_0000,
    ensures
        sum == fold(total(sums@)),
{
    smoltcp::wire::checksum::combine(sums)
}

/// `smoltcp::wire::checksum::pseudo_header`: the folded sum of the words of both
/// addresses, the protocol number and the length. It has no pseudo-header for
/// two families, and writes the length into 16 bits.
#[verifier::external_body]
pub(crate) fn pseudo_header(
    source: IpAddress,
    destination: IpAddress,
    protocol: u8,
    length: u16,
) -> (sum: u16)
    requires
        source is V4 == destination is V4,
    ensures
        sum == fold(pseudo_sum(source, destination, protocol as int, length as int)),
{
    let source = match source {
        IpAddress::V4(a) => smoltcp::wire::IpAddress::Ipv4(a.into()),
        IpAddress::V6(a) => smoltcp::wire::IpAddress::Ipv6(a.into()),
    };
    let destination = match destination {
        IpAddress::V4(a) => smoltcp::wire::IpAddress::Ipv4(a.into()),
        IpAddress::V6(a) => smoltcp::wire::IpAddress::Ipv6(a.into()),
    };
    smoltcp::wire::checksum::pseudo_header(&source, &destination, protocol.into(), length.into())
}

/// Folding is additive: it may be done before or after a sum is completed.
pub proof fn lemma_fold_sum(a: int, b: int)
    requires
        a >= 0,
        b >= 0,
    ensures
        fold(fold(a) + b) == fold(a + b),
        fold(a + fold(b)) == fold(a + b),
        0 <= fold(a) <= 65535,
        fold(a) == 0 <==> a == 0,
{
}

/// A message is valid with the field that `complement` gives, and also with all
/// ones in place of a zero field.
pub proof fn lemma_complement_balances(sum: int)
    requires
        sum >= 0,
    ensures
        0 <= complement(sum) <= 65535,
        balanced(sum + complement(sum)),
        complement(sum) == 0 ==> balanced(sum + 65535),
{
}

/// The sum of words is never negative and grows with the message.
pub proof fn lemma_word_sum_bounds(s: Seq<u8>)
    ensures
        0 <= word_sum(s),
        word_sum(s) <= 65535 * ((s.len() + 1) / 2),
    decreases s.len(),
{
    if s.len() >= 2 {
        lemma_word_sum_bounds(s.skip(2));
    }
}

/// A message splits at an even position into two sums.
pub proof fn lemma_word_sum_concat(a: Seq<u8>, b: Seq<u8>)
    requires
        a.len() % 2 == 0,
    ensures
        word_sum(a + b) == word_sum(a) + word_sum(b),
    decreases a.len(),
{
    if a.len() == 0 {
        assert(a + b =~= b);
    } else {
        assert((a + b).skip(2) =~= a.skip(2) + b);
        lemma_word_sum_concat(a.skip(2), b);
    }
}

/// `lemma_word_sum_concat` for a cut at position `at`.
pub proof fn lemma_word_sum_split(s: Seq<u8>, at: int)
    requires
        0 <= at <= s.len(),
        at % 2 == 0,
    ensures
        word_sum(s) == word_sum(s.take(at)) + word_sum(s.skip(at)),
{
    assert(s =~= s.take(at) + s.skip(at));
    lemma_word_sum_concat(s.take(at), s.skip(at));
}

/// The sum of an address's words is never negative.
pub proof fn lemma_address_sum(address: IpAddress)
    ensures
        0 <= address_sum(address),
{
}

/// The sum of two words.
pub proof fn lemma_total_2(words: Seq<u16>)
    requires
        words.len() == 2,
    ensures
        total(words) == words[0] + words[1],
{
    reveal_with_fuel(total, 3);
}

/// The sum of three words.
pub proof fn lemma_total_3(words: Seq<u16>)
    requires
        words.len() == 3,
    ensures
        total(words) == words[0] + words[1] + words[2],
{
    reveal_with_fuel(total, 4);
}

/// A message with its checksum is valid exactly when its words add up to a multiple of all
/// ones, but not to nothing; and the checksum that is computed makes it so.
pub proof fn law_valid_sums_are_multiples(sum: int)
    requires
        sum >= 0,
    ensures
        balanced(sum) <==> sum > 0 && sum % 65535 == 0,
        0 <= complement(sum) <= 65535,
        (sum + complement(sum)) % 65535 == 0,
        fold(sum) % 65535 == sum % 65535,
        0 <= fold(sum) <= 65535,
        fold(sum) == 0 <==> sum == 0,
{
}

/// The pseudo-header of IPv4 is summed as its twelve bytes stand: both addresses, a zero, the
/// protocol and the length.
pub proof fn law_ipv4_pseudo_headers_are_summed(
    source: Seq<u8>,
    destination: Seq<u8>,
    protocol: u8,
    length: u16,
)
    requires
        source.len() == 4,
        destination.len() == 4,
    ensures
        pseudo_sum(
            IpAddress::V4(be32(source, 0) as u32),
            IpAddress::V4(be32(destination, 0) as u32),
            protocol as int,
            length as int,
        ) == word_sum(
            source + destination + seq![
                0u8,
                protocol,
                (length / 256) as u8,
                (length % 256) as u8,
            ],
        ),
{
    let bytes = source + destination + seq![
        0u8,
        protocol,
        (length / 256) as u8,
        (length % 256) as u8,
    ];
    reveal_with_fuel(word_sum, 7);
    assert(word_sum(bytes) == be16(bytes, 0) + be16(bytes, 2) + be16(bytes, 4) + be16(bytes, 6)
        + be16(bytes, 8) + be16(bytes, 10));
}

/// Four words make a number, and are found in it again.
proof fn lemma_words_of(a: int, b: int, c: int, d: int)
    requires
        0 <= a < 0x1_0000,
        0 <= b < 0x1_0000,
        0 <= c < 0x1_0000,
        0 <= d < 0x1_0000,
    ensures
        words_of(a * 0x1_0000_0000_0000 + b * 0x1_0000_0000 + c * 0x1_0000 + d) == a + b + c + d,
{
    let x = a * 0x1_0000_0000_0000 + b * 0x1_0000_0000 + c * 0x1_0000 + d;
    assert(x / 0x1_0000_0000_0000 == a);
    assert(x / 0x1_0000_0000 == a * 0x1_0000 + b);
    assert(x / 0x1_0000 == (a * 0x1_0000 + b) * 0x1_0000 + c);
}

/// Eight words of a message.
proof fn lemma_eight_words(a: Seq<u8>)
    requires
        a.len() == 16,
    ensures
        word_sum(a) == be16(a, 0) + be16(a, 2) + be16(a, 4) + be16(a, 6) + be16(a, 8) + be16(a, 10)
            + be16(a, 12) + be16(a, 14),
{
    reveal_with_fuel(word_sum, 9);
}

/// The words of an IPv6 address, two by two bytes, add up to what it is summed as.
pub proof fn law_ipv6_addresses_are_summed(a: Seq<u8>)
    requires
        a.len() == 16,
    ensures
        address_sum(IpAddress::V6(be128(a, 0) as u128)) == word_sum(a),
{
    lemma_eight_words(a);
    lemma_halves(
        be16(a, 0),
        be16(a, 2),
        be16(a, 4),
        be16(a, 6),
        be16(a, 8),
        be16(a, 10),
        be16(a, 12),
        be16(a, 14),
    );
}

/// The sum of the words of a number of eight words.
proof fn lemma_halves(a: int, b: int, c: int, d: int, e: int, f: int, g: int, h: int)
    requires
        0 <= a < 0x1_0000,
        0 <= b < 0x1_0000,
        0 <= c < 0x1_0000,
        0 <= d < 0x1_0000,
        0 <= e < 0x1_0000,
        0 <= f < 0x1_0000,
        0 <= g < 0x1_0000,
        0 <= h < 0x1_0000,
    ensures
        ({
            let x = (a * 0x1_0000 + b) * 0x1_0000_0000_0000_0000_0000_0000 + (c * 0x1_0000 + d)
                * 0x1_0000_0000_0000_0000 + (e * 0x1_0000 + f) * 0x1_0000_0000 + (g * 0x1_0000 + h);
            &&& 0 <= x <= u128::MAX
            &&& address_sum(IpAddress::V6(x as u128)) == a + b + c + d + e + f + g + h
        }),
{
    let high = a * 0x1_0000_0000_0000 + b * 0x1_0000_0000 + c * 0x1_0000 + d;
    let low = e * 0x1_0000_0000_0000 + f * 0x1_0000_0000 + g * 0x1_0000 + h;
    let x = high * 0x1_0000_0000_0000_0000 + low;
    assert(0 <= low < 0x1_0000_0000_0000_0000);
    assert(0 <= high < 0x1_0000_0000_0000_0000);
    assert(x / 0x1_0000_0000_0000_0000 == high);
    assert(x % 0x1_0000_0000_0000_0000 == low);
    lemma_words_of(a, b, c, d);
    lemma_words_of(e, f, g, h);
}

} // verus!
