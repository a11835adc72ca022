//! What a TUN interface may be asked for.
use crate::packet::{spec_unicast, unicast};
use crate::wire::IpAddress;
use vstd::prelude::*;

verus! {

/// An address of an interface and the length of its network's prefix.
#[derive(Clone, Copy, Debug, PartialEq, Eq, Structural)]
pub struct TunAddress {
    pub address: IpAddress,
    pub prefix: u8,
}

/// Why an interface is not made.
#[derive(Clone, Copy, Debug, PartialEq, Eq, Structural)]
pub enum BindError {
    Name,
    Mtu,
    IdleTimeout,
    NotUnicast,
    Duplicate,
    SecondIpv4,
    Ipv4Prefix,
    Ipv6Prefix,
}

impl BindError {
    pub open spec fn spec_message(self) -> Seq<char> {
        match self {
            BindError::Name => "invalid TUN interface name"@,
            BindError::Mtu => "TUN MTU must be between 1280 and 65535"@,
            BindError::IdleTimeout => "UDP idle timeout must be positive"@,
            BindError::NotUnicast => "TUN address must be unicast"@,
            BindError::Duplicate => "duplicate TUN address"@,
            BindError::SecondIpv4 => "TUN supports one IPv4 interface address"@,
            BindError::Ipv4Prefix => "invalid TUN IPv4 address or prefix"@,
            BindError::Ipv6Prefix => "invalid TUN IPv6 address or prefix"@,
        }
    }

    pub fn message(&self) -> (r: &'static str)
        ensures
            r@ == self.spec_message(),
    {
        match self {
            BindError::Name => "invalid TUN interface name",
            BindError::Mtu => "TUN MTU must be between 1280 and 65535",
            BindError::IdleTimeout => "UDP idle timeout must be positive",
            BindError::NotUnicast => "TUN address must be unicast",
            BindError::Duplicate => "duplicate TUN address",
            BindError::SecondIpv4 => "TUN supports one IPv4 interface address",
            BindError::Ipv4Prefix => "invalid TUN IPv4 address or prefix",
            BindError::Ipv6Prefix => "invalid TUN IPv6 address or prefix",
        }
    }
}

/// A byte that a name may hold: a letter, a digit, an underscore, a dot or a
/// hyphen.
pub open spec fn name_byte(c: u8) -> bool {
    ||| 48 <= c <= 57
    ||| 65 <= c <= 90
    ||| 97 <= c <= 122
    ||| c == 95
    ||| c == 46
    ||| c == 45
}

/// A name that Linux can give an interface, and that is no path: at most fifteen
/// bytes, of a few kinds, and more than one or two dots.
pub open spec fn valid_name(name: Seq<u8>) -> bool {
    &&& 0 < name.len() < 16
    &&& name != seq![46u8]
    &&& name != seq![46u8, 46u8]
    &&& forall|i: int| 0 <= i < name.len() ==> name_byte(#[trigger] name[i])
}

fn check_name(name: &[u8]) -> (r: bool)
    ensures
        r == valid_name(name@),
{
    let len: usize = name.len();
    if len == 0 || len >= 16 {
        return false;
    }
    if len == 1 && name[0] == 46 {
        assert(name@ =~= seq![46u8]);
        return false;
    }
    if len == 2 && name[0] == 46 && name[1] == 46 {
        assert(name@ =~= seq![46u8, 46u8]);
        return false;
    }
    let mut i: usize = 0;
    while i < len
        invariant
            i <= len == name@.len(),
            forall|j: int| 0 <= j < i ==> name_byte(#[trigger] name@[j]),
        decreases len - i,
    {
        let c: u8 = name[i];
        let fits: bool = (48 <= c && c <= 57) || (65 <= c && c <= 90) || (97 <= c && c <= 122) || c
            == 95 || c == 46 || c == 45;
        if !fits {
            assert(!name_byte(name@[i as int]));
            return false;
        }
        i = i + 1;
    }
    proof {
        if name@ == seq![46u8] {
            assert(name@[0] == 46);
        }
        if name@ == seq![46u8, 46u8] {
            assert(name@[0] == 46 && name@[1] == 46);
        }
    }
    true
}

/// What is wrong with what an interface is asked for, addresses aside.
pub open spec fn option_error(
    name: Seq<u8>,
    mtu: u16,
    idle_timeout_is_zero: bool,
) -> Option<BindError> {
    if !valid_name(name) {
        Some(BindError::Name)
    } else if mtu < 1280 {
        Some(BindError::Mtu)
    } else if idle_timeout_is_zero {
        Some(BindError::IdleTimeout)
    } else {
        None
    }
}

/// Checks what an interface is asked for before its name is looked up: the name,
/// the MTU, and that idle associations end at some time.
pub fn check_options(name: &[u8], mtu: u16, idle_timeout_is_zero: bool) -> (r: Result<(), BindError>)
    ensures
        r == match option_error(name@, mtu, idle_timeout_is_zero) {
            Some(error) => Err(error),
            None => Ok(()),
        },
{
    if !check_name(name) {
        return Err(BindError::Name);
    }
    if mtu < 1280 {
        return Err(BindError::Mtu);
    }
    if idle_timeout_is_zero {
        return Err(BindError::IdleTimeout);
    }
    Ok(())
}

/// What is wrong with one address, in view of those before it.
pub open spec fn address_error(addresses: Seq<TunAddress>, i: int) -> Option<BindError> {
    let asked = addresses[i];
    if !spec_unicast(asked.address) {
        Some(BindError::NotUnicast)
    } else if exists|j: int| 0 <= j < i && (#[trigger] addresses[j]).address == asked.address {
        Some(BindError::Duplicate)
    } else if asked.address is V4 {
        if exists|j: int| 0 <= j < i && (#[trigger] addresses[j]).address is V4 {
            Some(BindError::SecondIpv4)
        } else if asked.prefix > 32 {
            Some(BindError::Ipv4Prefix)
        } else {
            None
        }
    } else if asked.prefix > 128 {
        Some(BindError::Ipv6Prefix)
    } else {
        None
    }
}

/// What is wrong with the first bad one of some addresses.
pub open spec fn first_error(addresses: Seq<TunAddress>, n: int) -> Option<BindError>
    decreases n,
{
    if n <= 0 {
        None
    } else {
        match first_error(addresses, n - 1) {
            Some(error) => Some(error),
            None => address_error(addresses, n - 1),
        }
    }
}

fn find_address(addresses: &Vec<TunAddress>, n: usize, address: IpAddress) -> (r: bool)
    requires
        n <= addresses@.len(),
    ensures
        r == exists|j: int| 0 <= j < n && (#[trigger] addresses@[j]).address == address,
{
    let mut i: usize = 0;
    while i < n
        invariant
            i <= n <= addresses@.len(),
            forall|j: int| 0 <= j < i ==> (#[trigger] addresses@[j]).address != address,
        decreases n - i,
    {
        if addresses[i].address == address {
            return true;
        }
        i = i + 1;
    }
    false
}

/// Checks the addresses of an interface: all unicast, none twice, at most one of
/// IPv4, with prefixes that their families have.
pub fn check_addresses(addresses: &Vec<TunAddress>) -> (r: Result<(), BindError>)
    ensures
        r == match first_error(addresses@, addresses@.len() as int) {
            Some(error) => Err(error),
            None => Ok(()),
        },
{
    let mut ipv4: bool = false;
    let mut i: usize = 0;
    while i < addresses.len()
        invariant
            i <= addresses@.len(),
            first_error(addresses@, i as int) is None,
            ipv4 == exists|j: int| 0 <= j < i && (#[trigger] addresses@[j]).address is V4,
        decreases addresses@.len() - i,
    {
        let asked: TunAddress = addresses[i];
        let error: Option<BindError> = if !unicast(asked.address) {
            Some(BindError::NotUnicast)
        } else if find_address(addresses, i, asked.address) {
            Some(BindError::Duplicate)
        } else if asked.address.is_ipv4() {
            if ipv4 {
                Some(BindError::SecondIpv4)
            } else if asked.prefix > 32 {
                Some(BindError::Ipv4Prefix)
            } else {
                None
            }
        } else if asked.prefix > 128 {
            Some(BindError::Ipv6Prefix)
        } else {
            None
        };
        assert(error == address_error(addresses@, i as int));
        if let Some(error) = error {
            proof {
                lemma_first_error(addresses@, i as int + 1, addresses@.len() as int);
            }
            return Err(error);
        }
        if asked.address.is_ipv4() {
            ipv4 = true;
            assert(addresses@[i as int].address is V4);
        }
        i = i + 1;
    }
    Ok(())
}

/// The first error stays the first, whatever follows it.
proof fn lemma_first_error(addresses: Seq<TunAddress>, n: int, m: int)
    requires
        0 <= n <= m,
        first_error(addresses, n) is Some,
    ensures
        first_error(addresses, m) == first_error(addresses, n),
    decreases m,
{
    if n < m {
        lemma_first_error(addresses, n, m - 1);
    }
}

/// Addresses that pass are unicast, differ from each other, and hold at most one
/// of IPv4.
pub proof fn law_checked_addresses_are_usable(addresses: Seq<TunAddress>, n: int, i: int, j: int)
    requires
        first_error(addresses, n) is None,
        0 <= i < j < n <= addresses.len(),
    ensures
        spec_unicast(addresses[i].address),
        spec_unicast(addresses[j].address),
        addresses[i].address != addresses[j].address,
        !(addresses[i].address is V4 && addresses[j].address is V4),
    decreases n,
{
    if j < n - 1 {
        law_checked_addresses_are_usable(addresses, n - 1, i, j);
    } else {
        assert(address_error(addresses, j) is None);
        lemma_checked_at(addresses, n, i);
    }
}

proof fn lemma_checked_at(addresses: Seq<TunAddress>, n: int, i: int)
    requires
        first_error(addresses, n) is None,
        0 <= i < n <= addresses.len(),
    ensures
        address_error(addresses, i) is None,
    decreases n,
{
    if i < n - 1 {
        lemma_checked_at(addresses, n - 1, i);
    }
}

/// Addresses pass exactly when each is a host's, none is asked for twice, at most one is of
/// IPv4, and no prefix is longer than the addresses of its family.
pub proof fn law_usable_addresses_pass(addresses: Seq<TunAddress>, n: int)
    requires
        0 <= n <= addresses.len(),
    ensures
        first_error(addresses, n) is None <==> {
            &&& forall|i: int|
                0 <= i < n ==> spec_unicast((#[trigger] addresses[i]).address)
                    && addresses[i].prefix <= (if addresses[i].address is V4 {
                    32int
                } else {
                    128int
                })
            &&& forall|i: int, j: int|
                0 <= i < j < n ==> (#[trigger] addresses[i]).address != (
                #[trigger] addresses[j]).address && !(addresses[i].address is V4
                    && addresses[j].address is V4)
        },
    decreases n,
{
    if n > 0 {
        law_usable_addresses_pass(addresses, n - 1);
        let last = addresses[n - 1];
        if first_error(addresses, n) is None {
            assert forall|i: int, j: int| 0 <= i < j < n implies (#[trigger] addresses[i]).address
                != (#[trigger] addresses[j]).address && !(addresses[i].address is V4
                && addresses[j].address is V4) by {
                if j == n - 1 {
                    assert(addresses[i].address != last.address);
                }
            }
        }
    }
}

/// The error that is told is that of the first address which has one, in view of those
/// before it: what is no host is refused as such, what came before as a duplicate, a second
/// one of IPv4 as that, and else the prefix is at fault.
pub proof fn law_address_errors_say_what_is_wrong(addresses: Seq<TunAddress>, i: int)
    requires
        0 <= i < addresses.len(),
    ensures
        ({
            let asked = addresses[i];
            let error = address_error(addresses, i);
            let again = exists|j: int| 0 <= j < i && (#[trigger] addresses[j]).address
                == asked.address;
            let second = exists|j: int| 0 <= j < i && (#[trigger] addresses[j]).address is V4;
            &&& error is Some && error->0 is NotUnicast <==> !spec_unicast(asked.address)
            &&& error is Some && error->0 is Duplicate <==> spec_unicast(asked.address) && again
            &&& error is Some && error->0 is SecondIpv4 <==> spec_unicast(asked.address) && !again
                && asked.address is V4 && second
            &&& error is Some && error->0 is Ipv4Prefix ==> asked.address is V4 && asked.prefix > 32
            &&& error is Some && error->0 is Ipv6Prefix ==> asked.address is V6 && asked.prefix
                > 128
        }),
{
}

/// A name passes exactly when Linux can give it to an interface and it is no path.
pub proof fn law_names_are_safe(name: Seq<u8>)
    ensures
        valid_name(name) ==> 1 <= name.len() <= 15,
        valid_name(name) ==> !name.contains(47) && !name.contains(0) && !name.contains(32)
            && !name.contains(37),
        valid_name(name) ==> name != seq![46u8] && name != seq![46u8, 46u8],
        1 <= name.len() <= 15 && (forall|i: int|
            0 <= i < name.len() ==> (97 <= #[trigger] name[i] <= 122 || 65 <= name[i] <= 90 || 48
                <= name[i] <= 57 || name[i] == 45 || name[i] == 95)) ==> valid_name(name),
        3 <= name.len() <= 15 && (forall|i: int| 0 <= i < name.len() ==> #[trigger] name[i] == 46)
            ==> valid_name(name),
{
    if valid_name(name) {
        assert forall|c: u8| #[trigger] name.contains(c) implies name_byte(c) by {
            let i = choose|i: int| 0 <= i < name.len() && name[i] == c;
            assert(name_byte(name[i]));
        }
    }
    if name == seq![46u8] {
        assert(name[0] == 46);
    }
    if name == seq![46u8, 46u8] {
        assert(name[0] == 46);
    }
}

/// An interface is refused first for its name, then for an MTU below what IPv6 needs, then
/// for associations that would never be idle long enough.
pub proof fn law_options_are_checked_in_order(name: Seq<u8>, mtu: u16, idle_timeout_is_zero: bool)
    ensures
        ({
            let r = option_error(name, mtu, idle_timeout_is_zero);
            &&& r is None <==> valid_name(name) && mtu >= 1280 && !idle_timeout_is_zero
            &&& !valid_name(name) <==> r == Some(BindError::Name)
            &&& r == Some(BindError::Mtu) <==> valid_name(name) && mtu < 1280
            &&& r == Some(BindError::IdleTimeout) <==> valid_name(name) && mtu >= 1280
                && idle_timeout_is_zero
        }),
{
}

} // verus!
