//! Networks and account addresses: an account's public key in Bech32m, with a
//! prefix that names the network.

use vstd::prelude::*;

use crate::bytes;
use crate::bytes::same_str;

verus! {

/// Which network an address or a transaction belongs to.
#[derive(Clone, Copy, PartialEq, Eq, Debug, Structural)]
pub enum Network {
    Mainnet,
    Testnet,
}

/// What `bech32::encode::<Bech32m>` writes for a prefix and data, and `None` where
/// it refuses them.
pub uninterp spec fn bech32m_text(hrp: Seq<char>, data: Seq<u8>) -> Option<Seq<char>>;

/// The prefix and the data that `bech32::decode` reads, and `None` where the text
/// is no Bech32 or Bech32m.
pub uninterp spec fn bech32_parts(s: Seq<char>) -> Option<(Seq<char>, Seq<u8>)>;

/// Whether every character is a lower-case ASCII letter.
pub open spec fn lower_letters(s: Seq<char>) -> bool {
    forall|i: int| 0 <= i < s.len() ==> 97 <= #[trigger] s[i] as u32 <= 122
}

/// `bech32::encode::<Bech32m>`, the prefix parsed by `Hrp::parse`. The result is a
/// function of the prefix and the data. A prefix of one to 83 lower-case letters
/// with up to 512 bytes of data is within the limits of both, and `bech32::decode`
/// gives such a prefix and its data back.
#[verifier::external_body]
fn bech32m_encode(hrp: &str, data: &[u8]) -> (r: Option<String>)
    ensures
        match r {
            Some(s) => bech32m_text(hrp@, data@) == Some(s@),
            None => bech32m_text(hrp@, data@) is None,
        },
        1 <= hrp@.len() <= 83 && lower_letters(hrp@) && data@.len() <= 512 ==> r is Some
            && bech32_parts(r->0@) == Some((hrp@, data@)),
{
    bech32::encode::<bech32::Bech32m>(bech32::Hrp::parse(hrp).ok()?, data).ok()
}

/// `bech32::decode`: the prefix and the data, or `None` where the text is malformed
/// or neither checksum holds. The result is a function of the text.
#[verifier::external_body]
fn bech32_decode(s: &str) -> (r: Option<(String, Vec<u8>)>)
    ensures
        match r {
            Some((hrp, data)) => bech32_parts(s@) == Some((hrp@, data@)),
            None => bech32_parts(s@) is None,
        },
{
    let (hrp, data) = bech32::decode(s).ok()?;
    Some((hrp.as_str().to_owned(), data))
}

impl Network {
    /// The prefix of the network's addresses.
    pub open spec fn prefix(self) -> Seq<char> {
        match self {
            Network::Mainnet => "lat"@,
            Network::Testnet => "latt"@,
        }
    }

    /// The prefix of the network's addresses.
    pub fn hrp(self) -> (r: &'static str)
        ensures
            r@ == self.prefix(),
    {
        match self {
            Network::Mainnet => "lat",
            Network::Testnet => "latt",
        }
    }

    /// The network with a prefix.
    pub fn from_hrp(hrp: &str) -> (r: Option<Network>)
        ensures
            r == network_of(hrp@),
    {
        proof {
            lemma_prefixes();
        }
        if same_str(hrp, "lat") {
            return Some(Network::Mainnet);
        }
        if same_str(hrp, "latt") {
            return Some(Network::Testnet);
        }
        None
    }
}

/// The network with a prefix, if there is one.
pub open spec fn network_of(hrp: Seq<char>) -> Option<Network> {
    if hrp == Network::Mainnet.prefix() {
        Some(Network::Mainnet)
    } else if hrp == Network::Testnet.prefix() {
        Some(Network::Testnet)
    } else {
        None
    }
}

proof fn lemma_prefixes()
    ensures
        Network::Mainnet.prefix() != Network::Testnet.prefix(),
        forall|n: Network|
            1 <= #[trigger] n.prefix().len() <= 83 && lower_letters(n.prefix()) && network_of(
                n.prefix(),
            ) == Some(n),
{
    reveal_strlit("lat");
    reveal_strlit("latt");
    assert("lat"@.len() != "latt"@.len());
    assert forall|n: Network|
        1 <= #[trigger] n.prefix().len() <= 83 && lower_letters(n.prefix()) && network_of(
            n.prefix(),
        ) == Some(n) by {
        assert(n == Network::Mainnet || n == Network::Testnet);
    }
}

/// Why a text is no address.
#[derive(Clone, Copy, Debug, PartialEq, Eq)]
pub enum AddressError {
    /// It is no Bech32m.
    Bech32,
    /// Its prefix names no network.
    UnknownPrefix,
    /// It holds something else than 32 bytes.
    BadLength,
    /// The bytes are no public key.
    BadKey,
}

/// An account's address: a public key and the network it belongs to.
#[derive(Clone, Copy, Debug, PartialEq, Eq)]
pub struct Address {
    pub network: Network,
    pub key: [u8; 32],
}

/// What a text says as an address, its bytes not yet tested for being a key.
pub open spec fn read_address(s: Seq<char>) -> Result<(Network, Seq<u8>), AddressError> {
    match bech32_parts(s) {
        None => Err(AddressError::Bech32),
        Some((hrp, data)) => match network_of(hrp) {
            None => Err(AddressError::UnknownPrefix),
            Some(n) => if data.len() == 32 {
                Ok((n, data))
            } else {
                Err(AddressError::BadLength)
            },
        },
    }
}

impl Address {
    pub fn new(network: Network, key: [u8; 32]) -> (r: Self)
        ensures
            r.network == network,
            r.key == key,
    {
        Address { network, key }
    }

    /// The account id: the public key's bytes.
    pub fn id(&self) -> (r: [u8; 32])
        ensures
            r == self.key,
    {
        self.key
    }

    /// The address as text, `lat1...` or `latt1...`.
    pub fn encode(&self) -> (s: String)
        ensures
            bech32m_text(self.network.prefix(), self.key@) == Some(s@),
            read_address(s@) == Ok::<(Network, Seq<u8>), AddressError>((self.network, self.key@)),
    {
        proof {
            lemma_prefixes();
        }
        match bech32m_encode(self.network.hrp(), self.key.as_slice()) {
            Some(s) => s,
            None => {
                assert(false);
                String::new()
            },
        }
    }

    /// Read an address. `is_key` says whether the cryptography layer takes the bytes
    /// that [`key_in`](Self::key_in) finds for a public key.
    pub fn parse(s: &str, is_key: bool) -> (r: Result<Address, AddressError>)
        ensures
            from_parts(bech32_parts(s@), is_key, r),
    {
        match bech32_decode(s) {
            None => Err(AddressError::Bech32),
            Some((hrp, data)) => Address::from_decoded(hrp.as_str(), data.as_slice(), is_key),
        }
    }

    /// The bytes of the key in an address, if it reads as one.
    pub fn key_in(s: &str) -> (r: Option<[u8; 32]>)
        ensures
            match read_address(s@) {
                Ok((_, key)) => r matches Some(k) && k@ == key,
                Err(_) => r is None,
            },
    {
        match Address::parse(s, true) {
            Ok(a) => Some(a.key),
            Err(_) => None,
        }
    }

    /// The address with a prefix and data, if the data is a public key.
    pub fn from_decoded(hrp: &str, data: &[u8], is_key: bool) -> (r: Result<Address, AddressError>)
        ensures
            from_parts(Some((hrp@, data@)), is_key, r),
    {
        match Network::from_hrp(hrp) {
            None => Err(AddressError::UnknownPrefix),
            Some(network) => {
                if data.len() != 32 {
                    return Err(AddressError::BadLength);
                }
                let key: [u8; 32] = bytes::array_at::<32>(data, 0);
                assert(data@.subrange(0, 32) =~= data@);
                if !is_key {
                    return Err(AddressError::BadKey);
                }
                Ok(Address { network, key })
            },
        }
    }
}

/// Whether `r` is the address with a prefix and data, or why there is none.
pub open spec fn from_parts(
    parts: Option<(Seq<char>, Seq<u8>)>,
    is_key: bool,
    r: Result<Address, AddressError>,
) -> bool {
    match parts {
        None => r == Err::<Address, AddressError>(AddressError::Bech32),
        Some((hrp, data)) => match network_of(hrp) {
            None => r == Err::<Address, AddressError>(AddressError::UnknownPrefix),
            Some(n) => if data.len() != 32 {
                r == Err::<Address, AddressError>(AddressError::BadLength)
            } else if !is_key {
                r == Err::<Address, AddressError>(AddressError::BadKey)
            } else {
                r matches Ok(a) && a.network == n && a.key@ == data
            },
        },
    }
}

/// An address that was written reads back, its key being one.
pub proof fn law_address_reads_back(a: Address, s: Seq<char>, r: Result<Address, AddressError>)
    requires
        read_address(s) == Ok::<(Network, Seq<u8>), AddressError>((a.network, a.key@)),
        from_parts(bech32_parts(s), true, r),
    ensures
        r == Ok::<Address, AddressError>(a),
{
    let b = r->Ok_0;
    bytes::lemma_array_eq(a.key, b.key);
}

} // verus!
