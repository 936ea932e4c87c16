//! What a wallet decides: its address and backup, the transactions it builds, the
//! ring it hides in, and what a block brings it.
//!
//! Keys stay with the cryptography layer: here a wallet knows its account id, and
//! signatures, one-time keys and decrypted amounts come in as plain values.

use vstd::prelude::*;
use vstd::utf8::*;

use crate::address::{Address, Network};
use crate::bytes;
use crate::bytes::same_hash;
use crate::hashing;
use crate::numbers;
use crate::numbers::{hex_decode, hex_encode};
use crate::random::{random_draws, NoRandomness};
use crate::text;
use crate::text::trim_str;
use crate::transaction;
use crate::transaction::{htlc_id, AnonTransfer, SolventTransfer, Transaction};

verus! {

/// Default size of the ring an anonymous sender hides in.
pub const DEFAULT_RING_SIZE: usize = 8;

/// How many bits of a balance are searched when it is decrypted.
pub const BALANCE_BITS: u32 = 40;

/// Why a backup restores no wallet.
#[derive(Clone, Copy, Debug, PartialEq, Eq)]
pub enum WalletError {
    BadSeedHex,
}

/// A wallet: the seed that its key comes from, and the account it controls.
pub struct Wallet {
    pub network: Network,
    pub seed: [u8; 32],
    /// The account id: the bytes of the wallet's public key.
    pub account: [u8; 32],
}

/// The seed that a backup text says.
pub open spec fn backed_up(s: Seq<char>) -> Option<Seq<u8>> {
    match numbers::unhex(encode_utf8(text::trimmed(s))) {
        Some(b) => if b.len() == 32 {
            Some(b)
        } else {
            None
        },
        None => None,
    }
}

/// The seed in a backup.
pub fn seed_from_hex(seed_hex: &str) -> (r: Result<[u8; 32], WalletError>)
    ensures
        match r {
            Ok(seed) => backed_up(seed_hex@) == Some(seed@),
            Err(e) => e == WalletError::BadSeedHex && backed_up(seed_hex@) is None,
        },
{
    match hex_decode(trim_str(seed_hex)) {
        None => Err(WalletError::BadSeedHex),
        Some(b) => {
            if b.len() != 32 {
                return Err(WalletError::BadSeedHex);
            }
            let seed: [u8; 32] = bytes::array_at::<32>(b.as_slice(), 0);
            assert(b@.subrange(0, 32) =~= b@);
            Ok(seed)
        },
    }
}

/// A backup restores the seed it was made of.
pub proof fn law_backup_restores(seed: Seq<u8>)
    requires
        seed.len() == 32,
    ensures
        backed_up(numbers::hex_text(seed)) == Some(seed),
{
    numbers::law_hex_reads_back(seed);
    let t = numbers::hex_text(seed);
    assert forall|i: int| 0 <= i < t.len() implies !text::is_space(#[trigger] t[i]) by {
        let x = seed[i / 2] as int;
        assert(0 <= x / 16 < 16 && 0 <= x % 16 < 16);
        assert(t[i] as u32 == numbers::hex_of(seed)[i] as u32);
    }
    assert(!text::is_space(t[0]));
    assert(!text::is_space(t[t.len() - 1]));
    assert(text::trimmed(t) == t);
}

/// A signature that is not there yet.
pub open spec fn blank(sig: [u8; 64]) -> bool {
    sig@ == Seq::new(64, |i: int| 0u8)
}

fn blank_sig() -> (sig: [u8; 64])
    ensures
        blank(sig),
{
    let sig = [0u8; 64];
    assert(sig@ =~= Seq::new(64, |i: int| 0u8));
    sig
}

/// `tx` with its signature set, where it carries one.
pub open spec fn signed_as(tx: Transaction, s: [u8; 64]) -> Transaction {
    match tx {
        Transaction::CreateToken { ticker, creator, supply, sig: _ } => Transaction::CreateToken {
            ticker,
            creator,
            supply,
            sig: s,
        },
        Transaction::Rollover { account, nonce, sig: _ } => Transaction::Rollover {
            account,
            nonce,
            sig: s,
        },
        Transaction::DeployContract { deployer, code, sig: _ } => Transaction::DeployContract {
            deployer,
            code,
            sig: s,
        },
        Transaction::CallContract {
            contract,
            caller,
            input,
            nonce,
            sig: _,
        } => Transaction::CallContract {
            contract,
            caller,
            input,
            nonce,
            sig: s,
        },
        Transaction::PublicTransfer {
            token,
            from,
            to,
            amount,
            fee,
            nonce,
            sig: _,
        } => Transaction::PublicTransfer {
            token,
            from,
            to,
            amount,
            fee,
            nonce,
            sig: s,
        },
        Transaction::Shield { token, from, to, amount, fee, nonce, sig: _ } => Transaction::Shield {
            token,
            from,
            to,
            amount,
            fee,
            nonce,
            sig: s,
        },
        Transaction::Unshield { token, to, amount, xfer, sig: _ } => Transaction::Unshield {
            token,
            to,
            amount,
            xfer,
            sig: s,
        },
        Transaction::ShieldStealth {
            token,
            from,
            ephemeral,
            one_time,
            amount,
            fee,
            nonce,
            sig: _,
        } => Transaction::ShieldStealth {
            token,
            from,
            ephemeral,
            one_time,
            amount,
            fee,
            nonce,
            sig: s,
        },
        Transaction::Stake { validator, amount, nonce, sig: _ } => Transaction::Stake {
            validator,
            amount,
            nonce,
            sig: s,
        },
        Transaction::Unstake { validator, amount, nonce, sig: _ } => Transaction::Unstake {
            validator,
            amount,
            nonce,
            sig: s,
        },
        Transaction::AddLiquidity {
            token,
            provider,
            lat_amount,
            tok_amount,
            fee,
            nonce,
            sig: _,
        } => Transaction::AddLiquidity {
            token,
            provider,
            lat_amount,
            tok_amount,
            fee,
            nonce,
            sig: s,
        },
        Transaction::RemoveLiquidity {
            token,
            provider,
            lp_amount,
            fee,
            nonce,
            sig: _,
        } => Transaction::RemoveLiquidity {
            token,
            provider,
            lp_amount,
            fee,
            nonce,
            sig: s,
        },
        Transaction::Swap {
            token,
            trader,
            lat_in,
            amount_in,
            min_out,
            fee,
            nonce,
            sig: _,
        } => Transaction::Swap {
            token,
            trader,
            lat_in,
            amount_in,
            min_out,
            fee,
            nonce,
            sig: s,
        },
        Transaction::CurveTrade {
            token,
            trader,
            is_buy,
            amount,
            min_out,
            fee,
            nonce,
            sig: _,
        } => Transaction::CurveTrade {
            token,
            trader,
            is_buy,
            amount,
            min_out,
            fee,
            nonce,
            sig: s,
        },
        Transaction::HtlcLock {
            token,
            from,
            to,
            amount,
            hashlock,
            expiry,
            fee,
            nonce,
            sig: _,
        } => Transaction::HtlcLock {
            token,
            from,
            to,
            amount,
            hashlock,
            expiry,
            fee,
            nonce,
            sig: s,
        },
        _ => tx,
    }
}

/// Set a transaction's signature. Those that prove ownership otherwise pass
/// through unchanged.
pub fn with_signature(tx: Transaction, s: [u8; 64]) -> (r: Transaction)
    ensures
        r == signed_as(tx, s),
{
    match tx {
        Transaction::CreateToken { ticker, creator, supply, sig: _ } => Transaction::CreateToken {
            ticker,
            creator,
            supply,
            sig: s,
        },
        Transaction::Rollover { account, nonce, sig: _ } => Transaction::Rollover {
            account,
            nonce,
            sig: s,
        },
        Transaction::DeployContract { deployer, code, sig: _ } => Transaction::DeployContract {
            deployer,
            code,
            sig: s,
        },
        Transaction::CallContract {
            contract,
            caller,
            input,
            nonce,
            sig: _,
        } => Transaction::CallContract {
            contract,
            caller,
            input,
            nonce,
            sig: s,
        },
        Transaction::PublicTransfer {
            token,
            from,
            to,
            amount,
            fee,
            nonce,
            sig: _,
        } => Transaction::PublicTransfer {
            token,
            from,
            to,
            amount,
            fee,
            nonce,
            sig: s,
        },
        Transaction::Shield { token, from, to, amount, fee, nonce, sig: _ } => Transaction::Shield {
            token,
            from,
            to,
            amount,
            fee,
            nonce,
            sig: s,
        },
        Transaction::Unshield { token, to, amount, xfer, sig: _ } => Transaction::Unshield {
            token,
            to,
            amount,
            xfer,
            sig: s,
        },
        Transaction::ShieldStealth {
            token,
            from,
            ephemeral,
            one_time,
            amount,
            fee,
            nonce,
            sig: _,
        } => Transaction::ShieldStealth {
            token,
            from,
            ephemeral,
            one_time,
            amount,
            fee,
            nonce,
            sig: s,
        },
        Transaction::Stake { validator, amount, nonce, sig: _ } => Transaction::Stake {
            validator,
            amount,
            nonce,
            sig: s,
        },
        Transaction::Unstake { validator, amount, nonce, sig: _ } => Transaction::Unstake {
            validator,
            amount,
            nonce,
            sig: s,
        },
        Transaction::AddLiquidity {
            token,
            provider,
            lat_amount,
            tok_amount,
            fee,
            nonce,
            sig: _,
        } => Transaction::AddLiquidity {
            token,
            provider,
            lat_amount,
            tok_amount,
            fee,
            nonce,
            sig: s,
        },
        Transaction::RemoveLiquidity {
            token,
            provider,
            lp_amount,
            fee,
            nonce,
            sig: _,
        } => Transaction::RemoveLiquidity {
            token,
            provider,
            lp_amount,
            fee,
            nonce,
            sig: s,
        },
        Transaction::Swap {
            token,
            trader,
            lat_in,
            amount_in,
            min_out,
            fee,
            nonce,
            sig: _,
        } => Transaction::Swap {
            token,
            trader,
            lat_in,
            amount_in,
            min_out,
            fee,
            nonce,
            sig: s,
        },
        Transaction::CurveTrade {
            token,
            trader,
            is_buy,
            amount,
            min_out,
            fee,
            nonce,
            sig: _,
        } => Transaction::CurveTrade {
            token,
            trader,
            is_buy,
            amount,
            min_out,
            fee,
            nonce,
            sig: s,
        },
        Transaction::HtlcLock {
            token,
            from,
            to,
            amount,
            hashlock,
            expiry,
            fee,
            nonce,
            sig: _,
        } => Transaction::HtlcLock {
            token,
            from,
            to,
            amount,
            hashlock,
            expiry,
            fee,
            nonce,
            sig: s,
        },
        _ => tx,
    }
}

/// A signature does not change what it is made over, and is the one the
/// transaction then carries.
pub proof fn law_signing_keeps_the_body(tx: Transaction, s: [u8; 64])
    ensures
        signed_as(tx, s).body() == tx.body(),
        tx.signature() is Some ==> signed_as(tx, s).signature() == Some(s@),
        tx.signature() is None ==> signed_as(tx, s) == tx,
{
}

/// Whether a balance covers an amount and a fee.
pub open spec fn covers(balance: u64, amount: u64, fee: u64) -> bool {
    amount + fee <= balance
}

/// Whether a balance covers an amount and a fee.
pub fn affordable(balance: u64, amount: u64, fee: u64) -> (r: bool)
    ensures
        r == covers(balance, amount, fee),
{
    match amount.checked_add(fee) {
        Some(n) => balance >= n,
        None => false,
    }
}

impl Wallet {
    /// The wallet of a seed, whose key's account is `account`.
    pub fn from_seed(network: Network, seed: [u8; 32], account: [u8; 32]) -> (r: Wallet)
        ensures
            r.network == network,
            r.seed == seed,
            r.account == account,
    {
        Wallet { network, seed, account }
    }

    /// The wallet of a key that no seed generates, such as a one-time account's:
    /// its backup is meaningless.
    pub fn from_secret(network: Network, account: [u8; 32]) -> (r: Wallet)
        ensures
            r.network == network,
            r.seed@ == Seq::new(32, |i: int| 0u8),
            r.account == account,
    {
        let seed = [0u8; 32];
        assert(seed@ =~= Seq::new(32, |i: int| 0u8));
        Wallet { network, seed, account }
    }

    /// The backup: anyone who has it controls the wallet.
    pub fn seed_hex(&self) -> (r: String)
        ensures
            r@ == numbers::hex_text(self.seed@),
    {
        hex_encode(self.seed.as_slice())
    }

    /// The account id.
    pub fn id(&self) -> (r: [u8; 32])
        ensures
            r == self.account,
    {
        self.account
    }

    /// The wallet's address.
    pub fn address(&self) -> (r: Address)
        ensures
            r.network == self.network,
            r.key == self.account,
    {
        Address::new(self.network, self.account)
    }

    /// The wallet's address as text.
    pub fn address_string(&self) -> (r: String)
        ensures
            crate::address::bech32m_text(self.network.prefix(), self.account@) == Some(r@),
    {
        self.address().encode()
    }

    /// The registration of the account, `pow_nonce` being its proof of work.
    pub fn registration_tx(&self, pow_nonce: u64) -> (r: Transaction)
        ensures
            r == (Transaction::Register { pubkey: self.account, pow_nonce }),
    {
        Transaction::Register { pubkey: self.account, pow_nonce }
    }

    /// A confidential transfer, once it is proven.
    pub fn build_transfer(token: u32, xfer: SolventTransfer) -> (r: Transaction)
        ensures
            r == (Transaction::SolventTransfer { token, xfer }),
    {
        Transaction::SolventTransfer { token, xfer }
    }

    /// An anonymous transfer, once it is proven.
    pub fn build_anon_transfer(token: u32, xfer: AnonTransfer) -> (r: Transaction)
        ensures
            r == (Transaction::AnonTransfer { token, xfer }),
    {
        Transaction::AnonTransfer { token, xfer }
    }

    /// A deposit into a token's pool, to be signed.
    pub fn add_liquidity(
        &self,
        token: u32,
        lat_amount: u64,
        tok_amount: u64,
        fee: u64,
        nonce: u64,
    ) -> (r: Transaction)
        ensures
            r matches Transaction::AddLiquidity {
                token: t_token,
                provider: t_provider,
                lat_amount: t_lat_amount,
                tok_amount: t_tok_amount,
                fee: t_fee,
                nonce: t_nonce,
                sig,
            } && t_token == token && t_provider == self.account && t_lat_amount == lat_amount
                && t_tok_amount == tok_amount && t_fee == fee && t_nonce == nonce && blank(sig),
    {
        Transaction::AddLiquidity {
            token,
            provider: self.account,
            lat_amount,
            tok_amount,
            fee,
            nonce,
            sig: blank_sig(),
        }
    }

    /// A burn of pool shares, to be signed.
    pub fn remove_liquidity(
        &self,
        token: u32,
        lp_amount: u64,
        fee: u64,
        nonce: u64,
    ) -> (r: Transaction)
        ensures
            r matches Transaction::RemoveLiquidity {
                token: t_token,
                provider: t_provider,
                lp_amount: t_lp_amount,
                fee: t_fee,
                nonce: t_nonce,
                sig,
            } && t_token == token && t_provider == self.account && t_lp_amount == lp_amount
                && t_fee == fee && t_nonce == nonce && blank(sig),
    {
        Transaction::RemoveLiquidity {
            token,
            provider: self.account,
            lp_amount,
            fee,
            nonce,
            sig: blank_sig(),
        }
    }

    /// A swap against a token's pool, to be signed. `lat_in` picks the direction;
    /// `min_out` bounds the slippage.
    pub fn swap(
        &self,
        token: u32,
        lat_in: bool,
        amount_in: u64,
        min_out: u64,
        fee: u64,
        nonce: u64,
    ) -> (r: Transaction)
        ensures
            r matches Transaction::Swap {
                token: t_token,
                trader: t_trader,
                lat_in: t_lat_in,
                amount_in: t_amount_in,
                min_out: t_min_out,
                fee: t_fee,
                nonce: t_nonce,
                sig,
            } && t_token == token && t_trader == self.account && t_lat_in == lat_in
                && t_amount_in == amount_in && t_min_out == min_out && t_fee == fee
                && t_nonce == nonce && blank(sig),
    {
        Transaction::Swap {
            token,
            trader: self.account,
            lat_in,
            amount_in,
            min_out,
            fee,
            nonce,
            sig: blank_sig(),
        }
    }

    /// A trade against a token's bonding curve, to be signed.
    pub fn curve_trade(
        &self,
        token: u32,
        is_buy: bool,
        amount: u64,
        min_out: u64,
        fee: u64,
        nonce: u64,
    ) -> (r: Transaction)
        ensures
            r matches Transaction::CurveTrade {
                token: t_token,
                trader: t_trader,
                is_buy: t_is_buy,
                amount: t_amount,
                min_out: t_min_out,
                fee: t_fee,
                nonce: t_nonce,
                sig,
            } && t_token == token && t_trader == self.account && t_is_buy == is_buy
                && t_amount == amount && t_min_out == min_out && t_fee == fee && t_nonce == nonce
                && blank(sig),
    {
        Transaction::CurveTrade {
            token,
            trader: self.account,
            is_buy,
            amount,
            min_out,
            fee,
            nonce,
            sig: blank_sig(),
        }
    }

    /// A lock that escrows `amount` for `to` under a hashlock, to be signed, with the
    /// id that it is claimed or refunded by.
    pub fn htlc_lock(
        &self,
        token: u32,
        to: &Address,
        amount: u64,
        hashlock: [u8; 32],
        expiry: u64,
        fee: u64,
        nonce: u64,
    ) -> (r: (Transaction, [u8; 32]))
        ensures
            r.0 matches Transaction::HtlcLock {
                token: t_token,
                from: t_from,
                to: t_to,
                amount: t_amount,
                hashlock: t_hashlock,
                expiry: t_expiry,
                fee: t_fee,
                nonce: t_nonce,
                sig,
            } && t_token == token && t_from == self.account && t_to == to.key && t_amount == amount
                && t_hashlock == hashlock && t_expiry == expiry && t_fee == fee && t_nonce == nonce
                && blank(sig),
            r.1@ == hashing::digest(
                transaction::htlc_preimage(
                    token,
                    self.account@,
                    to.key@,
                    amount,
                    hashlock@,
                    expiry,
                    nonce,
                ),
            ),
    {
        let id = htlc_id(token, &self.account, &to.key, amount, &hashlock, expiry, nonce);
        let tx = Transaction::HtlcLock {
            token,
            from: self.account,
            to: to.key,
            amount,
            hashlock,
            expiry,
            fee,
            nonce,
            sig: blank_sig(),
        };
        (tx, id)
    }

    /// A claim of the lock `id` by its preimage. It needs no signature.
    pub fn htlc_claim(id: [u8; 32], preimage: [u8; 32]) -> (r: Transaction)
        ensures
            r == (Transaction::HtlcClaim { id, preimage }),
    {
        Transaction::HtlcClaim { id, preimage }
    }

    /// A refund of the expired lock `id`. Anyone may ask for it.
    pub fn htlc_refund(id: [u8; 32]) -> (r: Transaction)
        ensures
            r == (Transaction::HtlcRefund { id }),
    {
        Transaction::HtlcRefund { id }
    }

    /// A new token under `ticker` with the whole supply for this wallet, to be
    /// signed.
    pub fn create_token(&self, ticker: &str, supply: u64) -> (r: Transaction)
        ensures
            r matches Transaction::CreateToken { ticker: t, creator, supply: n, sig } && t@
                == ticker@ && creator == self.account && n == supply && blank(sig),
    {
        Transaction::CreateToken {
            ticker: ticker.to_owned(),
            creator: self.account,
            supply,
            sig: blank_sig(),
        }
    }

    /// A deployment of `code`, to be signed.
    pub fn deploy_contract(
        &self,
        code: Vec<u8>,
    ) -> (r: Transaction)
        ensures
            r matches Transaction::DeployContract {
                deployer: t_deployer,
                code: t_code,
                sig,
            } && t_deployer == self.account && t_code == code && blank(sig),
    {
        Transaction::DeployContract { deployer: self.account, code, sig: blank_sig() }
    }

    /// A call of a contract, to be signed.
    pub fn call_contract(
        &self,
        contract: [u8; 32],
        input: u64,
        nonce: u64,
    ) -> (r: Transaction)
        ensures
            r matches Transaction::CallContract {
                contract: t_contract,
                caller: t_caller,
                input: t_input,
                nonce: t_nonce,
                sig,
            } && t_contract == contract && t_caller == self.account && t_input == input
                && t_nonce == nonce && blank(sig),
    {
        Transaction::CallContract { contract, caller: self.account, input, nonce, sig: blank_sig() }
    }

    /// A public transfer, to be signed.
    pub fn build_public_transfer(
        &self,
        receiver: &Address,
        token: u32,
        amount: u64,
        fee: u64,
        nonce: u64,
    ) -> (r: Transaction)
        ensures
            r matches Transaction::PublicTransfer {
                token: t_token,
                from: t_from,
                to: t_to,
                amount: t_amount,
                fee: t_fee,
                nonce: t_nonce,
                sig,
            } && t_token == token && t_from == self.account && t_to == receiver.key
                && t_amount == amount && t_fee == fee && t_nonce == nonce && blank(sig),
    {
        Transaction::PublicTransfer {
            token,
            from: self.account,
            to: receiver.key,
            amount,
            fee,
            nonce,
            sig: blank_sig(),
        }
    }

    /// A move of public balance into `to`'s private one, to be signed.
    pub fn build_shield(
        &self,
        to: &Address,
        token: u32,
        amount: u64,
        fee: u64,
        nonce: u64,
    ) -> (r: Transaction)
        ensures
            r matches Transaction::Shield {
                token: t_token,
                from: t_from,
                to: t_to,
                amount: t_amount,
                fee: t_fee,
                nonce: t_nonce,
                sig,
            } && t_token == token && t_from == self.account && t_to == to.key && t_amount == amount
                && t_fee == fee && t_nonce == nonce && blank(sig),
    {
        Transaction::Shield {
            token,
            from: self.account,
            to: to.key,
            amount,
            fee,
            nonce,
            sig: blank_sig(),
        }
    }

    /// A move of public balance into a one-time account, to be signed. The two keys
    /// are what the cryptography layer made for the recipient.
    pub fn build_shield_stealth(
        &self,
        ephemeral: [u8; 32],
        one_time: [u8; 32],
        token: u32,
        amount: u64,
        fee: u64,
        nonce: u64,
    ) -> (r: Transaction)
        ensures
            r matches Transaction::ShieldStealth {
                token: t_token,
                from: t_from,
                ephemeral: t_ephemeral,
                one_time: t_one_time,
                amount: t_amount,
                fee: t_fee,
                nonce: t_nonce,
                sig,
            } && t_token == token && t_from == self.account && t_ephemeral == ephemeral
                && t_one_time == one_time && t_amount == amount && t_fee == fee && t_nonce == nonce
                && blank(sig),
    {
        Transaction::ShieldStealth {
            token,
            from: self.account,
            ephemeral,
            one_time,
            amount,
            fee,
            nonce,
            sig: blank_sig(),
        }
    }

    /// A move of private balance into `to`'s public one around a proven transfer, to be
    /// signed.
    pub fn build_unshield(
        &self,
        to: &Address,
        token: u32,
        amount: u64,
        xfer: SolventTransfer,
    ) -> (r: Transaction)
        ensures
            r matches Transaction::Unshield {
                token: t_token,
                to: t_to,
                amount: t_amount,
                xfer: t_xfer,
                sig,
            } && t_token == token && t_to == to.key && t_amount == amount && t_xfer == xfer
                && blank(sig),
    {
        Transaction::Unshield { token, to: to.key, amount, xfer, sig: blank_sig() }
    }

    /// A merge of received funds into the spendable balance, to be signed.
    pub fn rollover_tx(
        &self,
        nonce: u64,
    ) -> (r: Transaction)
        ensures
            r matches Transaction::Rollover {
                account: t_account,
                nonce: t_nonce,
                sig,
            } && t_account == self.account && t_nonce == nonce && blank(sig),
    {
        Transaction::Rollover { account: self.account, nonce, sig: blank_sig() }
    }

    /// A bond of public LAT into stake, to be signed. Amount 0 claims matured funds.
    pub fn stake_tx(
        &self,
        amount: u64,
        nonce: u64,
    ) -> (r: Transaction)
        ensures
            r matches Transaction::Stake {
                validator: t_validator,
                amount: t_amount,
                nonce: t_nonce,
                sig,
            } && t_validator == self.account && t_amount == amount && t_nonce == nonce
                && blank(sig),
    {
        Transaction::Stake { validator: self.account, amount, nonce, sig: blank_sig() }
    }

    /// The start of unbonding, to be signed.
    pub fn unstake_tx(
        &self,
        amount: u64,
        nonce: u64,
    ) -> (r: Transaction)
        ensures
            r matches Transaction::Unstake {
                validator: t_validator,
                amount: t_amount,
                nonce: t_nonce,
                sig,
            } && t_validator == self.account && t_amount == amount && t_nonce == nonce
                && blank(sig),
    {
        Transaction::Unstake { validator: self.account, amount, nonce, sig: blank_sig() }
    }

    /// A public transfer from what the chain says of the account, to be signed.
    /// `None`: it is not registered, or its public balance does not cover amount and
    /// fee.
    pub fn create_public_transfer(
        &self,
        nonce: Option<u64>,
        public_balance: Option<u64>,
        receiver: &Address,
        token: u32,
        amount: u64,
        fee: u64,
    ) -> (r: Option<Transaction>)
        ensures
            r is Some == (nonce is Some && public_balance is Some && covers(
                public_balance->0,
                amount,
                fee,
            )),
            r matches Some(tx) ==> (tx matches Transaction::PublicTransfer {
                token: t_token,
                from: t_from,
                to: t_to,
                amount: t_amount,
                fee: t_fee,
                nonce: t_nonce,
                sig,
            } && t_token == token && t_from == self.account && t_to == receiver.key && t_amount
                == amount && t_fee == fee && t_nonce == nonce->0 && blank(sig)),
    {
        match (nonce, public_balance) {
            (Some(nonce), Some(balance)) => {
                if !affordable(balance, amount, fee) {
                    return None;
                }
                Some(self.build_public_transfer(receiver, token, amount, fee, nonce))
            },
            _ => None,
        }
    }

    /// Like [`create_public_transfer`](Self::create_public_transfer), for a shield.
    pub fn create_shield(
        &self,
        nonce: Option<u64>,
        public_balance: Option<u64>,
        receiver: &Address,
        token: u32,
        amount: u64,
        fee: u64,
    ) -> (r: Option<Transaction>)
        ensures
            r is Some == (nonce is Some && public_balance is Some && covers(
                public_balance->0,
                amount,
                fee,
            )),
            r matches Some(tx) ==> (tx matches Transaction::Shield {
                token: t_token,
                from: t_from,
                to: t_to,
                amount: t_amount,
                fee: t_fee,
                nonce: t_nonce,
                sig,
            } && t_token == token && t_from == self.account && t_to == receiver.key && t_amount
                == amount && t_fee == fee && t_nonce == nonce->0 && blank(sig)),
    {
        match (nonce, public_balance) {
            (Some(nonce), Some(balance)) => {
                if !affordable(balance, amount, fee) {
                    return None;
                }
                Some(self.build_shield(receiver, token, amount, fee, nonce))
            },
            _ => None,
        }
    }

    /// Like [`create_public_transfer`](Self::create_public_transfer), for a stealth
    /// shield.
    pub fn create_shield_stealth(
        &self,
        nonce: Option<u64>,
        public_balance: Option<u64>,
        ephemeral: [u8; 32],
        one_time: [u8; 32],
        token: u32,
        amount: u64,
        fee: u64,
    ) -> (r: Option<Transaction>)
        ensures
            r is Some == (nonce is Some && public_balance is Some && covers(
                public_balance->0,
                amount,
                fee,
            )),
            r matches Some(tx) ==> (tx matches Transaction::ShieldStealth {
                token: t_token,
                from: t_from,
                ephemeral: t_ephemeral,
                one_time: t_one_time,
                amount: t_amount,
                fee: t_fee,
                nonce: t_nonce,
                sig,
            } && t_token == token && t_from == self.account && t_ephemeral == ephemeral
                && t_one_time == one_time && t_amount == amount && t_fee == fee && t_nonce
                == nonce->0 && blank(sig)),
    {
        match (nonce, public_balance) {
            (Some(nonce), Some(balance)) => {
                if !affordable(balance, amount, fee) {
                    return None;
                }
                Some(self.build_shield_stealth(ephemeral, one_time, token, amount, fee, nonce))
            },
            _ => None,
        }
    }

    /// What a block's transactions bring this wallet, as token and amount. Of each
    /// transaction, `opened` says what the wallet's key decrypts of a confidential
    /// transfer to it.
    pub fn scan_received(&self, txs: &[Transaction], opened: &[Option<u64>]) -> (r: Vec<(u32, u64)>)
        requires
            opened@.len() == txs@.len(),
        ensures
            r@ == received(self.account@, txs@, opened@, txs@.len()),
    {
        let mut r: Vec<(u32, u64)> = Vec::new();
        let mut i: usize = 0;
        while i < txs.len()
            invariant
                i <= txs@.len(),
                opened@.len() == txs@.len(),
                r@ == received(self.account@, txs@, opened@, i as nat),
            decreases txs@.len() - i,
        {
            match &txs[i] {
                Transaction::SolventTransfer { token, xfer } => {
                    if same_hash(&xfer.receiver, &self.account) {
                        if let Some(amount) = opened[i] {
                            r.push((*token, amount));
                        }
                    }
                },
                Transaction::PublicTransfer { token, to, amount, .. } => {
                    if same_hash(to, &self.account) {
                        r.push((*token, *amount));
                    }
                },
                Transaction::Shield { token, to, amount, .. } => {
                    if same_hash(to, &self.account) {
                        r.push((*token, *amount));
                    }
                },
                Transaction::Unshield { token, to, amount, .. } => {
                    if same_hash(to, &self.account) {
                        r.push((*token, *amount));
                    }
                },
                _ => {},
            }
            i += 1;
            assert(r@ =~= received(self.account@, txs@, opened@, i as nat));
        }
        r
    }
}

/// What one transaction brings the account `me`.
pub open spec fn receipt(me: Seq<u8>, tx: Transaction, opened: Option<u64>) -> Option<(u32, u64)> {
    match tx {
        Transaction::SolventTransfer { token, xfer } => if xfer.receiver@ == me && opened is Some {
            Some((token, opened->0))
        } else {
            None
        },
        Transaction::PublicTransfer { token, to, amount, .. } => if to@ == me {
            Some((token, amount))
        } else {
            None
        },
        Transaction::Shield { token, to, amount, .. } => if to@ == me {
            Some((token, amount))
        } else {
            None
        },
        Transaction::Unshield { token, to, amount, .. } => if to@ == me {
            Some((token, amount))
        } else {
            None
        },
        _ => None,
    }
}

/// What the first `n` transactions bring the account `me`.
pub open spec fn received(
    me: Seq<u8>,
    txs: Seq<Transaction>,
    opened: Seq<Option<u64>>,
    n: nat,
) -> Seq<(u32, u64)>
    decreases n,
{
    if n == 0 {
        Seq::empty()
    } else {
        let before = received(me, txs, opened, (n - 1) as nat);
        match receipt(me, txs[n - 1], opened[n - 1]) {
            Some(x) => before.push(x),
            None => before,
        }
    }
}

/// A payment into a one-time account that belongs to a wallet.
#[derive(Clone, Copy, Debug, PartialEq, Eq)]
pub struct StealthReceipt {
    /// Which transaction of the block it is in.
    pub index: usize,
    /// The one-time account.
    pub one_time: [u8; 32],
    pub token: u32,
    pub amount: u64,
}

/// The payment that transaction `i` makes into a one-time account, if `mine` says
/// that it is the wallet's. An anonymous transfer's amount is what the one-time key
/// decrypts, zero where it cannot.
pub open spec fn stealth(
    i: int,
    tx: Transaction,
    mine: bool,
    opened: Option<u64>,
) -> Option<StealthReceipt> {
    if !mine {
        None
    } else {
        match tx {
            Transaction::ShieldStealth { token, one_time, amount, .. } => Some(
                StealthReceipt { index: i as usize, one_time, token, amount },
            ),
            Transaction::AnonTransfer { token, xfer } => Some(
                StealthReceipt {
                    index: i as usize,
                    one_time: xfer.one_time,
                    token,
                    amount: match opened {
                        Some(a) => a,
                        None => 0,
                    },
                },
            ),
            _ => None,
        }
    }
}

/// The payments among the first `n` transactions.
pub open spec fn stealths(
    txs: Seq<Transaction>,
    mine: Seq<bool>,
    opened: Seq<Option<u64>>,
    n: nat,
) -> Seq<StealthReceipt>
    decreases n,
{
    if n == 0 {
        Seq::empty()
    } else {
        let before = stealths(txs, mine, opened, (n - 1) as nat);
        match stealth(n - 1, txs[n - 1], mine[n - 1], opened[n - 1]) {
            Some(x) => before.push(x),
            None => before,
        }
    }
}

/// A block's payments into one-time accounts that are the wallet's. Of each
/// transaction, `mine` says whether the wallet's key derives its one-time key, and
/// `opened` what that key decrypts.
pub fn scan_stealth(txs: &[Transaction], mine: &[bool], opened: &[Option<u64>]) -> (r: Vec<
    StealthReceipt,
>)
    requires
        mine@.len() == txs@.len(),
        opened@.len() == txs@.len(),
    ensures
        r@ == stealths(txs@, mine@, opened@, txs@.len()),
{
    let mut r: Vec<StealthReceipt> = Vec::new();
    let mut i: usize = 0;
    while i < txs.len()
        invariant
            i <= txs@.len(),
            mine@.len() == txs@.len(),
            opened@.len() == txs@.len(),
            r@ == stealths(txs@, mine@, opened@, i as nat),
        decreases txs@.len() - i,
    {
        if mine[i] {
            match &txs[i] {
                Transaction::ShieldStealth { token, one_time, amount, .. } => {
                    r.push(
                        StealthReceipt {
                            index: i,
                            one_time: *one_time,
                            token: *token,
                            amount: *amount,
                        },
                    );
                },
                Transaction::AnonTransfer { token, xfer } => {
                    let amount: u64 = match opened[i] {
                        Some(a) => a,
                        None => 0,
                    };
                    r.push(
                        StealthReceipt { index: i, one_time: xfer.one_time, token: *token, amount },
                    );
                },
                _ => {},
            }
        }
        i += 1;
        assert(r@ =~= stealths(txs@, mine@, opened@, i as nat));
    }
    r
}

// --- the ring of an anonymous transfer ------------------------------------------

/// The candidates other than `me`.
pub open spec fn others(c: Seq<([u8; 32], [u8; 64])>, me: Seq<u8>) -> Seq<([u8; 32], [u8; 64])> {
    c.filter(|x: ([u8; 32], [u8; 64])| x.0@ != me)
}

/// How many decoys a ring of the wished size takes out of `pool`: the ring has at
/// least two members and at most `max_ring`.
pub open spec fn decoys(ring_size: int, max_ring: int, pool: int) -> int {
    let ring = if ring_size < 2 {
        2
    } else if ring_size > max_ring {
        max_ring
    } else {
        ring_size
    };
    if ring - 1 < pool {
        ring - 1
    } else {
        pool
    }
}

/// Which of the candidates from `i` on a draw picks.
pub open spec fn picked(draw: u64, i: int, n: int) -> int {
    i + (draw as usize) as int % (n - i)
}

/// The candidates after each of the first `n` places got a drawn one.
pub open spec fn shuffled(
    pool: Seq<([u8; 32], [u8; 64])>,
    draws: Seq<u64>,
    n: nat,
) -> Seq<([u8; 32], [u8; 64])>
    decreases n,
{
    if n == 0 {
        pool
    } else {
        let s = shuffled(pool, draws, (n - 1) as nat);
        exchanged(s, n - 1, picked(draws[n - 1], n - 1, pool.len() as int))
    }
}

/// `s` with two places exchanged.
pub open spec fn exchanged(s: Seq<([u8; 32], [u8; 64])>, i: int, j: int) -> Seq<
    ([u8; 32], [u8; 64]),
> {
    s.update(i, s[j]).update(j, s[i])
}

/// The ring: so many drawn decoys, and the sender at a drawn place among them.
pub open spec fn ring_of(
    candidates: Seq<([u8; 32], [u8; 64])>,
    me: ([u8; 32], [u8; 64]),
    ring_size: int,
    max_ring: int,
    draws: Seq<u64>,
) -> Seq<([u8; 32], [u8; 64])> {
    let pool = others(candidates, me.0@);
    let take = decoys(ring_size, max_ring, pool.len() as int);
    shuffled(pool, draws, take as nat).take(take).insert(
        place_of(draws[take], take),
        me,
    )
}

/// The sender's place among so many decoys.
pub open spec fn place_of(draw: u64, take: int) -> int {
    (draw as usize) as int % (take + 1)
}

/// Choose the ring for an anonymous transfer: the members with their balances, and
/// the sender's place. `candidates` are accounts whose ids are public keys; `draws`
/// are random numbers, one for each member. `None`: nobody to hide among.
pub fn choose_ring(
    candidates: &[([u8; 32], [u8; 64])],
    me: ([u8; 32], [u8; 64]),
    ring_size: usize,
    max_ring: usize,
    draws: &[u64],
) -> (r: Option<(Vec<([u8; 32], [u8; 64])>, usize)>)
    requires
        max_ring >= 2,
        draws@.len() > decoys(
            ring_size as int,
            max_ring as int,
            others(candidates@, me.0@).len() as int,
        ),
    ensures
        ({
            let pool = others(candidates@, me.0@);
            let take = decoys(ring_size as int, max_ring as int, pool.len() as int);
            match r {
                None => pool.len() == 0,
                Some((ring, at)) => {
                    &&& pool.len() > 0
                    &&& ring@ == ring_of(
                        candidates@,
                        me,
                        ring_size as int,
                        max_ring as int,
                        draws@,
                    )
                    &&& at == place_of(draws@[take], take)
                    &&& at < ring@.len()
                    &&& ring@[at as int] == me
                },
            }
        }),
{
    let ghost pick = |x: ([u8; 32], [u8; 64])| x.0@ != me.0@;
    let mut pool: Vec<([u8; 32], [u8; 64])> = Vec::new();
    let mut i: usize = 0;
    proof {
        reveal(Seq::filter);
        assert(candidates@.take(0) =~= Seq::empty());
    }
    while i < candidates.len()
        invariant
            i <= candidates@.len(),
            pick == (|x: ([u8; 32], [u8; 64])| x.0@ != me.0@),
            pool@ == candidates@.take(i as int).filter(pick),
            pool@.len() <= i,
        decreases candidates@.len() - i,
    {
        let ghost now = candidates@.take(i + 1);
        proof {
            reveal(Seq::filter);
            assert(now.drop_last() =~= candidates@.take(i as int));
            assert(now.last() == candidates@[i as int]);
        }
        if !same_hash(&candidates[i].0, &me.0) {
            pool.push(candidates[i]);
        }
        i += 1;
    }
    assert(candidates@.take(candidates@.len() as int) =~= candidates@);
    let ghost all = others(candidates@, me.0@);
    assert(pool@ == all);
    let wish: usize = if ring_size < 2 {
        2
    } else if ring_size > max_ring {
        max_ring
    } else {
        ring_size
    };
    let take: usize = if wish - 1 < pool.len() {
        wish - 1
    } else {
        pool.len()
    };
    if take == 0 {
        return None;
    }
    let n: usize = pool.len();
    let mut k: usize = 0;
    while k < take
        invariant
            k <= take <= n,
            take < draws@.len(),
            n == all.len(),
            pool@ == shuffled(all, draws@, k as nat),
            pool@.len() == n,
        decreases take - k,
    {
        let j: usize = k + (draws[k] as usize) % (n - k);
        assert(j == picked(draws@[k as int], k as int, n as int));
        let a = pool[k];
        let b = pool[j];
        pool.set(k, b);
        pool.set(j, a);
        assert(pool@ =~= exchanged(shuffled(all, draws@, k as nat), k as int, j as int));
        k += 1;
    }
    pool.truncate(take);
    let at: usize = (draws[take] as usize) % (take + 1);
    pool.insert(at, me);
    assert(pool@[at as int] == me);
    Some((pool, at))
}

/// Whether no account is listed twice.
pub open spec fn distinct(s: Seq<([u8; 32], [u8; 64])>) -> bool {
    forall|i: int, j: int| 0 <= i < j < s.len() ==> (#[trigger] s[i]).0@ != (#[trigger] s[j]).0@
}

proof fn lemma_exchanged(s: Seq<([u8; 32], [u8; 64])>, i: int, j: int)
    requires
        0 <= i < s.len(),
        0 <= j < s.len(),
        distinct(s),
    ensures
        distinct(exchanged(s, i, j)),
        exchanged(s, i, j).len() == s.len(),
        forall|k: int|
            0 <= k < s.len() ==> s.contains(#[trigger] exchanged(s, i, j)[k]),
{
    let t = exchanged(s, i, j);
    assert forall|x: int, y: int| 0 <= x < y < t.len() implies (#[trigger] t[x]).0@ != (
    #[trigger] t[y]).0@ by {
        let p = if x == j {
            i
        } else if x == i {
            j
        } else {
            x
        };
        let q = if y == j {
            i
        } else if y == i {
            j
        } else {
            y
        };
        assert(t[x] == s[p] && t[y] == s[q] && p != q);
        if p < q {
            assert(s[p].0@ != s[q].0@);
        } else {
            assert(s[q].0@ != s[p].0@);
        }
    }
    assert forall|k: int| 0 <= k < s.len() implies s.contains(#[trigger] t[k]) by {
        let p = if k == j {
            i
        } else if k == i {
            j
        } else {
            k
        };
        assert(t[k] == s[p]);
    }
}

proof fn lemma_shuffled(pool: Seq<([u8; 32], [u8; 64])>, draws: Seq<u64>, n: nat)
    requires
        distinct(pool),
        n <= pool.len(),
    ensures
        distinct(shuffled(pool, draws, n)),
        shuffled(pool, draws, n).len() == pool.len(),
        forall|k: int|
            0 <= k < pool.len() ==> pool.contains(#[trigger] shuffled(pool, draws, n)[k]),
    decreases n,
{
    if n > 0 {
        lemma_shuffled(pool, draws, (n - 1) as nat);
        let s = shuffled(pool, draws, (n - 1) as nat);
        let i = n - 1;
        let j = picked(draws[i], i, pool.len() as int);
        assert(0 <= (draws[i] as usize) as int % (pool.len() - i) < pool.len() - i) by {
            vstd::arithmetic::div_mod::lemma_mod_bound((draws[i] as usize) as int, pool.len() - i);
        }
        lemma_exchanged(s, i, j);
        let t = shuffled(pool, draws, n);
        assert forall|k: int| 0 <= k < pool.len() implies pool.contains(#[trigger] t[k]) by {
            assert(s.contains(t[k]));
            let m = choose|m: int| 0 <= m < s.len() && s[m] == t[k];
            assert(pool.contains(s[m]));
        }
    }
}

proof fn lemma_others(c: Seq<([u8; 32], [u8; 64])>, me: Seq<u8>)
    requires
        distinct(c),
    ensures
        distinct(others(c, me)),
        forall|k: int|
            0 <= k < others(c, me).len() ==> c.contains(#[trigger] others(c, me)[k]) && others(
                c,
                me,
            )[k].0@ != me,
    decreases c.len(),
{
    reveal(Seq::filter);
    if c.len() > 0 {
        let front = c.drop_last();
        assert forall|i: int, j: int| 0 <= i < j < front.len() implies (#[trigger] front[i]).0@ != (
        #[trigger] front[j]).0@ by {
            assert(c[i].0@ != c[j].0@);
        }
        lemma_others(front, me);
        let p = others(front, me);
        let now = others(c, me);
        assert(now =~= if c.last().0@ != me {
            p.push(c.last())
        } else {
            p
        });
        assert forall|k: int| 0 <= k < now.len() implies c.contains(#[trigger] now[k])
            && now[k].0@ != me by {
            if k < p.len() {
                assert(front.contains(p[k]));
                let m = choose|m: int| 0 <= m < front.len() && front[m] == p[k];
                assert(c[m] == p[k]);
            } else {
                assert(c[c.len() - 1] == c.last());
            }
        }
        assert forall|i: int, j: int| 0 <= i < j < now.len() implies (#[trigger] now[i]).0@ != (
        #[trigger] now[j]).0@ by {
            if j < p.len() {
                assert(p[i].0@ != p[j].0@);
            } else {
                assert(front.contains(p[i]));
                let m = choose|m: int| 0 <= m < front.len() && front[m] == p[i];
                assert(c[m].0@ != c[c.len() - 1].0@);
            }
        }
    }
}

/// A ring holds no account twice, and nobody but the sender and candidates, however
/// the draws fall.
pub proof fn law_ring_hides_among_others(
    candidates: Seq<([u8; 32], [u8; 64])>,
    me: ([u8; 32], [u8; 64]),
    ring_size: int,
    max_ring: int,
    draws: Seq<u64>,
)
    requires
        max_ring >= 2,
        distinct(candidates),
    ensures
        ({
            let ring = ring_of(candidates, me, ring_size, max_ring, draws);
            let pool = others(candidates, me.0@);
            &&& distinct(ring)
            &&& ring.len() == decoys(ring_size, max_ring, pool.len() as int) + 1
            &&& ring.len() <= max_ring
            &&& pool.len() > 0 ==> ring.len() >= 2
            &&& forall|k: int|
                0 <= k < ring.len() ==> #[trigger] ring[k] == me || candidates.contains(ring[k])
        }),
{
    let pool = others(candidates, me.0@);
    let take = decoys(ring_size, max_ring, pool.len() as int);
    lemma_others(candidates, me.0@);
    lemma_shuffled(pool, draws, take as nat);
    let s = shuffled(pool, draws, take as nat);
    let d = s.take(take);
    let at = place_of(draws[take], take);
    assert(0 <= at < take + 1) by {
        vstd::arithmetic::div_mod::lemma_mod_bound((draws[take] as usize) as int, take + 1);
    }
    let ring = d.insert(at, me);
    assert forall|k: int| 0 <= k < take implies candidates.contains(#[trigger] s[k]) && s[k].0@
        != me.0@ by {
        assert(pool.contains(s[k]));
        let m = choose|m: int| 0 <= m < pool.len() && pool[m] == s[k];
        assert(candidates.contains(pool[m]));
    }
    assert forall|k: int| 0 <= k < ring.len() implies #[trigger] ring[k] == me
        || candidates.contains(ring[k]) by {
        if k < at {
            assert(ring[k] == s[k]);
        } else if k > at {
            assert(ring[k] == s[k - 1]);
        }
    }
    assert forall|i: int, j: int| 0 <= i < j < ring.len() implies (#[trigger] ring[i]).0@ != (
    #[trigger] ring[j]).0@ by {
        let p = if i < at {
            i
        } else {
            i - 1
        };
        let q = if j < at {
            j
        } else {
            j - 1
        };
        if i == at {
            assert(ring[j] == s[q]);
        } else if j == at {
            assert(ring[i] == s[p]);
        } else {
            assert(s[p].0@ != s[q].0@);
        }
    }
}

impl Wallet {
    /// The ring for an anonymous transfer out of the wallet's balance, whose encrypted
    /// form is `ct` and which decrypts to `balance`: the members with their balances,
    /// and the sender's place. `None`: the balance cannot be read or does not cover
    /// amount and fee, or there is nobody to hide among.
    pub fn anon_ring(
        &self,
        balance: Option<u64>,
        amount: u64,
        fee: u64,
        ct: [u8; 64],
        candidates: &[([u8; 32], [u8; 64])],
        ring_size: usize,
        max_ring: usize,
        draws: &[u64],
    ) -> (r: Option<(Vec<([u8; 32], [u8; 64])>, usize)>)
        requires
            max_ring >= 2,
            draws@.len() >= max_ring,
        ensures
            ({
                let me = (self.account, ct);
                let pool = others(candidates@, self.account@);
                let take = decoys(ring_size as int, max_ring as int, pool.len() as int);
                match r {
                    None => balance is None || !covers(balance->0, amount, fee) || pool.len() == 0,
                    Some((ring, at)) => {
                        &&& balance is Some && covers(balance->0, amount, fee) && pool.len() > 0
                        &&& ring@ == ring_of(
                            candidates@,
                            me,
                            ring_size as int,
                            max_ring as int,
                            draws@,
                        )
                        &&& at == place_of(draws@[take], take)
                        &&& at < ring@.len()
                        &&& ring@[at as int] == me
                    },
                }
            }),
    {
        match balance {
            None => None,
            Some(b) => {
                if !affordable(b, amount, fee) {
                    return None;
                }
                choose_ring(candidates, (self.account, ct), ring_size, max_ring, draws)
            },
        }
    }

    /// [`anon_ring`](Self::anon_ring) with numbers that the operating system draws. The
    /// ring is one that some draws give.
    pub fn draw_ring(
        &self,
        balance: Option<u64>,
        amount: u64,
        fee: u64,
        ct: [u8; 64],
        candidates: &[([u8; 32], [u8; 64])],
        ring_size: usize,
        max_ring: usize,
    ) -> (r: Result<Option<(Vec<([u8; 32], [u8; 64])>, usize)>, NoRandomness>)
        requires
            max_ring >= 2,
        ensures
            ({
                let pool = others(candidates@, self.account@);
                let affords = balance is Some && covers(balance->0, amount, fee);
                match r {
                    Err(_) => affords,
                    Ok(None) => !affords || pool.len() == 0,
                    Ok(Some((ring, at))) => affords && pool.len() > 0 && exists|draws: Seq<u64>|
                        #[trigger]
                        is_drawn(
                            ring@,
                            at as int,
                            candidates@,
                            (self.account, ct),
                            ring_size as int,
                            max_ring as int,
                            draws,
                        ),
                }
            }),
    {
        match balance {
            None => {
                return Ok(None);
            },
            Some(b) => {
                if !affordable(b, amount, fee) {
                    return Ok(None);
                }
            },
        }
        match random_draws(max_ring) {
            None => Err(NoRandomness),
            Some(draws) => {
                let r = self.anon_ring(
                    balance,
                    amount,
                    fee,
                    ct,
                    candidates,
                    ring_size,
                    max_ring,
                    &draws,
                );
                proof {
                    if r is Some {
                        assert(is_drawn(
                            (r->0).0@,
                            (r->0).1 as int,
                            candidates@,
                            (self.account, ct),
                            ring_size as int,
                            max_ring as int,
                            draws@,
                        ));
                    }
                }
                Ok(r)
            },
        }
    }
}

/// Whether the draws give this ring with the sender at this place.
pub open spec fn is_drawn(
    ring: Seq<([u8; 32], [u8; 64])>,
    at: int,
    candidates: Seq<([u8; 32], [u8; 64])>,
    me: ([u8; 32], [u8; 64]),
    ring_size: int,
    max_ring: int,
    draws: Seq<u64>,
) -> bool {
    let take = decoys(ring_size, max_ring, others(candidates, me.0@).len() as int);
    &&& ring == ring_of(candidates, me, ring_size, max_ring, draws)
    &&& at == place_of(draws[take], take)
    &&& 0 <= at < ring.len()
    &&& ring[at] == me
}

} // verus!
