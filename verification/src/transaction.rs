//! Transactions and their canonical wire form.
//!
//! The proofs inside the confidential transfers are made and read by the
//! cryptography layer. Here a transfer is the plain values its rules read,
//! together with the bytes it travels as.

use vstd::prelude::*;
use vstd::utf8::*;

use crate::bytes;
use crate::bytes::{
    array_at,
    copy_range,
    push_bytes,
    push_u16,
    push_u32,
    push_u64,
    same_bytes,
    u16_at,
    u32_at,
    u64_at,
};
use crate::hashing;
use crate::hashing::blake3_hash;
use crate::text;
use crate::text::utf8_string;

verus! {

/// A confidential balance or amount, as the 64 bytes the cryptography layer
/// gives it.
pub type Ciphertext = [u8; 64];

/// A confidential transfer whose proof shows value conservation and solvency.
#[derive(Clone, Debug)]
pub struct SolventTransfer {
    pub sender: [u8; 32],
    pub receiver: [u8; 32],
    pub fee: u64,
    /// The sender's spend nonce that the proof is bound to.
    pub nonce: u64,
    /// The amount under the sender's key.
    pub sender_ct: [u8; 64],
    /// The amount under the receiver's key.
    pub receiver_ct: [u8; 64],
    /// The transfer as it travels, proof included.
    pub bytes: Vec<u8>,
}

/// An anonymous transfer.
#[derive(Clone, Debug)]
pub struct AnonTransfer {
    /// The accounts the sender hides among.
    pub ring: Vec<[u8; 32]>,
    /// The balance of each ring member that the proof is bound to.
    pub balances: Vec<[u8; 64]>,
    /// What each ring member is debited.
    pub enc: Vec<[u8; 64]>,
    /// What the receiver is credited.
    pub credit: [u8; 64],
    /// The ephemeral key the receiver scans with.
    pub ephemeral: [u8; 32],
    /// The account credited.
    pub one_time: [u8; 32],
    pub nullifier: [u8; 32],
    /// The anonymity epoch the proof is bound to.
    pub epoch: u64,
    pub fee: u64,
    /// The transfer as it travels, proof included.
    pub bytes: Vec<u8>,
}

/// What the cryptography layer made of the transfer inside an encoding.
pub enum Opened {
    /// There is none, or it is malformed.
    Nothing,
    Solvent(SolventTransfer),
    Anon(AnonTransfer),
}

/// A Latebra transaction.
///
/// The confidential transfers prove account ownership inside their proof. The
/// transparent types carry a signature by the named account key over
/// [`Transaction::signing_bytes`], so nobody can spoof a creator or caller.
/// Tag `0x01` is retired and never decodes.
#[derive(Clone)]
pub enum Transaction {
    /// Add an account. Consensus gates it with a small proof of work against spam.
    Register {
        pubkey: [u8; 32],
        pow_nonce: u64,
    },
    /// Mint a new token under a globally unique ticker.
    CreateToken {
        ticker: String,
        creator: [u8; 32],
        supply: u64,
        sig: [u8; 64],
    },
    /// A confidential transfer: proves value conservation and that the sender is
    /// solvent, without showing the amount.
    SolventTransfer {
        token: u32,
        xfer: SolventTransfer,
    },
    /// Merge an account's received (pending) funds into its spendable balance.
    Rollover {
        account: [u8; 32],
        nonce: u64,
        sig: [u8; 64],
    },
    /// Deploy a bytecode program. Its address comes from the deployer and the code.
    DeployContract {
        deployer: [u8; 32],
        code: Vec<u8>,
        sig: [u8; 64],
    },
    /// Call a deployed contract with an input word.
    CallContract {
        contract: [u8; 32],
        caller: [u8; 32],
        input: u64,
        nonce: u64,
        sig: [u8; 64],
    },
    /// A transparent transfer of public balance.
    PublicTransfer {
        token: u32,
        from: [u8; 32],
        to: [u8; 32],
        amount: u64,
        fee: u64,
        nonce: u64,
        sig: [u8; 64],
    },
    /// Public to private: out of `from`'s public balance into `to`'s confidential
    /// one.
    Shield {
        token: u32,
        from: [u8; 32],
        to: [u8; 32],
        amount: u64,
        fee: u64,
        nonce: u64,
        sig: [u8; 64],
    },
    /// Private to public: a confidential transfer to the unshield view key, whose
    /// amount is shown as it enters `to`'s public balance.
    Unshield {
        token: u32,
        to: [u8; 32],
        amount: u64,
        xfer: SolventTransfer,
        sig: [u8; 64],
    },
    /// Public to private with the recipient hidden behind a one-time account.
    ShieldStealth {
        token: u32,
        from: [u8; 32],
        ephemeral: [u8; 32],
        one_time: [u8; 32],
        amount: u64,
        fee: u64,
        nonce: u64,
        sig: [u8; 64],
    },
    /// An anonymous transfer: sender hidden in a ring, receiver behind a one-time
    /// account. Replay is stopped by a nullifier, not by an account nonce.
    AnonTransfer {
        token: u32,
        xfer: AnonTransfer,
    },
    /// Bond public LAT into validator stake. Amount 0 only sweeps matured funds.
    Stake {
        validator: [u8; 32],
        amount: u64,
        nonce: u64,
        sig: [u8; 64],
    },
    /// Move bonded stake into an unbonding entry.
    Unstake {
        validator: [u8; 32],
        amount: u64,
        nonce: u64,
        sig: [u8; 64],
    },
    /// Proof that `validator` signed finality votes for two different blocks at
    /// one height. It authenticates itself; anyone may submit it.
    SlashEvidence {
        validator: [u8; 32],
        beneficiary: [u8; 32],
        height: u64,
        block_a: [u8; 32],
        sig_a: [u8; 64],
        block_b: [u8; 32],
        sig_b: [u8; 64],
    },
    /// Deposit LAT and `token` into the pool for `token`.
    AddLiquidity {
        token: u32,
        provider: [u8; 32],
        lat_amount: u64,
        tok_amount: u64,
        fee: u64,
        nonce: u64,
        sig: [u8; 64],
    },
    /// Burn pool shares for the proportional reserves.
    RemoveLiquidity {
        token: u32,
        provider: [u8; 32],
        lp_amount: u64,
        fee: u64,
        nonce: u64,
        sig: [u8; 64],
    },
    /// Swap against the pool for `token`; `lat_in` chooses the direction.
    Swap {
        token: u32,
        trader: [u8; 32],
        lat_in: bool,
        amount_in: u64,
        min_out: u64,
        fee: u64,
        nonce: u64,
        sig: [u8; 64],
    },
    /// Escrow `amount` under a SHA-256 hashlock: `to` may claim it with the
    /// preimage before block `expiry`, after which it can be refunded.
    HtlcLock {
        token: u32,
        from: [u8; 32],
        to: [u8; 32],
        amount: u64,
        hashlock: [u8; 32],
        expiry: u64,
        fee: u64,
        nonce: u64,
        sig: [u8; 64],
    },
    /// Reveal the preimage of an open lock.
    HtlcClaim {
        id: [u8; 32],
        preimage: [u8; 32],
    },
    /// Return an expired lock's funds to its sender.
    HtlcRefund {
        id: [u8; 32],
    },
    /// Buy or sell against a token's bonding curve.
    CurveTrade {
        token: u32,
        trader: [u8; 32],
        is_buy: bool,
        amount: u64,
        min_out: u64,
        fee: u64,
        nonce: u64,
        sig: [u8; 64],
    },
}

/// A truth value on the wire.
pub open spec fn flag(b: bool) -> Seq<u8> {
    seq![if b { 1u8 } else { 0u8 }]
}

/// The bytes that [`htlc_id`] hashes.
pub open spec fn htlc_preimage(
    token: u32,
    from: Seq<u8>,
    to: Seq<u8>,
    amount: u64,
    hashlock: Seq<u8>,
    expiry: u64,
    nonce: u64,
) -> Seq<u8> {
    seq![76u8, 65, 84, 45, 104, 116, 108, 99, 45, 118, 49] + bytes::le4(token) + from + to
        + bytes::le8(amount) + hashlock + bytes::le8(expiry) + bytes::le8(nonce)
}

/// The id of the lock that a [`Transaction::HtlcLock`] creates: a hash of a
/// domain tag and the lock's identifying fields. The nonce makes it unique even
/// for two otherwise identical locks by one sender.
pub fn htlc_id(
    token: u32,
    from: &[u8; 32],
    to: &[u8; 32],
    amount: u64,
    hashlock: &[u8; 32],
    expiry: u64,
    nonce: u64,
) -> (id: [u8; 32])
    ensures
        id@ == hashing::digest(
            htlc_preimage(token, from@, to@, amount, hashlock@, expiry, nonce),
        ),
{
    let mut v: Vec<u8> = vec![76u8, 65, 84, 45, 104, 116, 108, 99, 45, 118, 49];
    assert(v@ =~= seq![76u8, 65, 84, 45, 104, 116, 108, 99, 45, 118, 49]);
    push_u32(&mut v, token);
    push_bytes(&mut v, from.as_slice());
    push_bytes(&mut v, to.as_slice());
    push_u64(&mut v, amount);
    push_bytes(&mut v, hashlock.as_slice());
    push_u64(&mut v, expiry);
    push_u64(&mut v, nonce);
    blake3_hash(&v)
}

/// The bytes a finality vote signs: a domain tag, the block id and the height.
pub open spec fn vote_bytes(block_id: Seq<u8>, height: u64) -> Seq<u8> {
    seq![76u8, 65, 84, 45, 102, 105, 110, 97, 108, 105, 116, 121, 45, 118, 49, 0] + block_id
        + bytes::le8(height)
}

/// The bytes a finality vote signs: a domain tag, the block id and the height.
pub fn finality_vote_signing_bytes(block_id: &[u8; 32], height: u64) -> (v: Vec<u8>)
    ensures
        v@ == vote_bytes(block_id@, height),
{
    let mut v: Vec<u8> = vec![
        76u8,
        65,
        84,
        45,
        102,
        105,
        110,
        97,
        108,
        105,
        116,
        121,
        45,
        118,
        49,
        0,
    ];
    assert(v@ =~= seq![76u8, 65, 84, 45, 102, 105, 110, 97, 108, 105, 116, 121, 45, 118, 49, 0]);
    push_bytes(&mut v, block_id.as_slice());
    push_u64(&mut v, height);
    v
}

impl Transaction {
    /// The leading byte that tells the variants apart.
    pub open spec fn tag(&self) -> u8 {
        match self {
            Transaction::Register { .. } => 0x00,
            Transaction::CreateToken { .. } => 0x02,
            Transaction::SolventTransfer { .. } => 0x03,
            Transaction::Rollover { .. } => 0x04,
            Transaction::DeployContract { .. } => 0x05,
            Transaction::CallContract { .. } => 0x06,
            Transaction::PublicTransfer { .. } => 0x07,
            Transaction::Shield { .. } => 0x08,
            Transaction::Unshield { .. } => 0x09,
            Transaction::ShieldStealth { .. } => 0x0A,
            Transaction::AnonTransfer { .. } => 0x0B,
            Transaction::Stake { .. } => 0x0C,
            Transaction::Unstake { .. } => 0x0D,
            Transaction::SlashEvidence { .. } => 0x0E,
            Transaction::AddLiquidity { .. } => 0x0F,
            Transaction::RemoveLiquidity { .. } => 0x10,
            Transaction::Swap { .. } => 0x11,
            Transaction::HtlcLock { .. } => 0x12,
            Transaction::HtlcClaim { .. } => 0x13,
            Transaction::HtlcRefund { .. } => 0x14,
            Transaction::CurveTrade { .. } => 0x15,
        }
    }

    /// The signature a transparent transaction ends in.
    pub open spec fn signature(&self) -> Option<Seq<u8>> {
        match self {
            Transaction::CreateToken { sig, .. } => Some(sig@),
            Transaction::Rollover { sig, .. } => Some(sig@),
            Transaction::DeployContract { sig, .. } => Some(sig@),
            Transaction::CallContract { sig, .. } => Some(sig@),
            Transaction::PublicTransfer { sig, .. } => Some(sig@),
            Transaction::Shield { sig, .. } => Some(sig@),
            Transaction::Unshield { sig, .. } => Some(sig@),
            Transaction::ShieldStealth { sig, .. } => Some(sig@),
            Transaction::Stake { sig, .. } => Some(sig@),
            Transaction::Unstake { sig, .. } => Some(sig@),
            Transaction::AddLiquidity { sig, .. } => Some(sig@),
            Transaction::RemoveLiquidity { sig, .. } => Some(sig@),
            Transaction::Swap { sig, .. } => Some(sig@),
            Transaction::HtlcLock { sig, .. } => Some(sig@),
            Transaction::CurveTrade { sig, .. } => Some(sig@),
            _ => None,
        }
    }

    /// The canonical encoding up to the signature.
    pub open spec fn body(&self) -> Seq<u8> {
        match self {
            Transaction::Register { pubkey, pow_nonce } => {
                seq![0x00u8] + pubkey@ + bytes::le8(*pow_nonce)
            },
            Transaction::CreateToken { ticker, creator, supply, .. } => {
                seq![0x02u8] + bytes::le2(encode_utf8(ticker@).len() as u16) + encode_utf8(ticker@)
                    + creator@ + bytes::le8(*supply)
            },
            Transaction::SolventTransfer { token, xfer } => {
                seq![0x03u8] + bytes::le4(*token) + xfer.bytes@
            },
            Transaction::Rollover { account, nonce, .. } => {
                seq![0x04u8] + account@ + bytes::le8(*nonce)
            },
            Transaction::DeployContract { deployer, code, .. } => {
                seq![0x05u8] + deployer@ + bytes::le4(code@.len() as u32) + code@
            },
            Transaction::CallContract { contract, caller, input, nonce, .. } => {
                seq![0x06u8] + contract@ + caller@ + bytes::le8(*input) + bytes::le8(*nonce)
            },
            Transaction::PublicTransfer { token, from, to, amount, fee, nonce, .. } => {
                seq![0x07u8] + bytes::le4(*token) + from@ + to@ + bytes::le8(*amount)
                    + bytes::le8(*fee) + bytes::le8(*nonce)
            },
            Transaction::Shield { token, from, to, amount, fee, nonce, .. } => {
                seq![0x08u8] + bytes::le4(*token) + from@ + to@ + bytes::le8(*amount)
                    + bytes::le8(*fee) + bytes::le8(*nonce)
            },
            Transaction::Unshield { token, to, amount, xfer, .. } => {
                seq![0x09u8] + bytes::le4(*token) + to@ + bytes::le8(*amount)
                    + bytes::le4(xfer.bytes@.len() as u32) + xfer.bytes@
            },
            Transaction::ShieldStealth { token, from, ephemeral, one_time, amount, fee, nonce,
                .. } => {
                seq![0x0Au8] + bytes::le4(*token) + from@ + ephemeral@ + one_time@
                    + bytes::le8(*amount) + bytes::le8(*fee) + bytes::le8(*nonce)
            },
            Transaction::AnonTransfer { token, xfer } => {
                seq![0x0Bu8] + bytes::le4(*token) + bytes::le4(xfer.bytes@.len() as u32)
                    + xfer.bytes@
            },
            Transaction::Stake { validator, amount, nonce, .. } => {
                seq![0x0Cu8] + validator@ + bytes::le8(*amount) + bytes::le8(*nonce)
            },
            Transaction::Unstake { validator, amount, nonce, .. } => {
                seq![0x0Du8] + validator@ + bytes::le8(*amount) + bytes::le8(*nonce)
            },
            Transaction::SlashEvidence { validator, beneficiary, height, block_a, sig_a, block_b,
                sig_b } => {
                seq![0x0Eu8] + validator@ + beneficiary@ + bytes::le8(*height) + block_a@ + sig_a@
                    + block_b@ + sig_b@
            },
            Transaction::AddLiquidity { token, provider, lat_amount, tok_amount, fee, nonce, .. } =>
                {
                seq![0x0Fu8] + bytes::le4(*token) + provider@ + bytes::le8(*lat_amount)
                    + bytes::le8(*tok_amount) + bytes::le8(*fee) + bytes::le8(*nonce)
            },
            Transaction::RemoveLiquidity { token, provider, lp_amount, fee, nonce, .. } => {
                seq![0x10u8] + bytes::le4(*token) + provider@ + bytes::le8(*lp_amount)
                    + bytes::le8(*fee) + bytes::le8(*nonce)
            },
            Transaction::Swap { token, trader, lat_in, amount_in, min_out, fee, nonce, .. } => {
                seq![0x11u8] + bytes::le4(*token) + trader@ + flag(*lat_in) + bytes::le8(*amount_in)
                    + bytes::le8(*min_out) + bytes::le8(*fee) + bytes::le8(*nonce)
            },
            Transaction::HtlcLock { token, from, to, amount, hashlock, expiry, fee, nonce, .. } => {
                seq![0x12u8] + bytes::le4(*token) + from@ + to@ + bytes::le8(*amount) + hashlock@
                    + bytes::le8(*expiry) + bytes::le8(*fee) + bytes::le8(*nonce)
            },
            Transaction::HtlcClaim { id, preimage } => {
                seq![0x13u8] + id@ + preimage@
            },
            Transaction::HtlcRefund { id } => {
                seq![0x14u8] + id@
            },
            Transaction::CurveTrade { token, trader, is_buy, amount, min_out, fee, nonce, .. } => {
                seq![0x15u8] + bytes::le4(*token) + trader@ + flag(*is_buy) + bytes::le8(*amount)
                    + bytes::le8(*min_out) + bytes::le8(*fee) + bytes::le8(*nonce)
            },
        }
    }

    /// The canonical encoding.
    pub open spec fn wire(&self) -> Seq<u8> {
        match self.signature() {
            Some(sig) => self.body() + sig,
            None => self.body(),
        }
    }

    /// Whether every length fits the field that carries it.
    pub open spec fn fits(&self) -> bool {
        match self {
            Transaction::CreateToken { ticker, .. } => encode_utf8(ticker@).len() <= u16::MAX,
            Transaction::DeployContract { code, .. } => code@.len() <= u32::MAX,
            Transaction::Unshield { xfer, .. } => xfer.bytes@.len() <= u32::MAX,
            Transaction::AnonTransfer { xfer, .. } => xfer.bytes@.len() <= u32::MAX,
            _ => true,
        }
    }

    /// Whether the transfer inside, if there is one, is `opened`.
    pub open spec fn carries(&self, opened: Opened) -> bool {
        match self {
            Transaction::SolventTransfer { xfer, .. } => opened == Opened::Solvent(*xfer),
            Transaction::Unshield { xfer, .. } => opened == Opened::Solvent(*xfer),
            Transaction::AnonTransfer { xfer, .. } => opened == Opened::Anon(*xfer),
            _ => true,
        }
    }

    /// Whether the two carry the same values. Transfers are compared by the
    /// bytes they travel as.
    pub open spec fn same(&self, other: &Transaction) -> bool {
        match (self, other) {
            (
                Transaction::Register { pubkey, pow_nonce },
                Transaction::Register { pubkey: o_pubkey, pow_nonce: o_pow_nonce },
            ) => pubkey == o_pubkey && pow_nonce == o_pow_nonce,
            (
                Transaction::CreateToken { ticker, creator, supply, sig },
                Transaction::CreateToken { ticker: o_ticker, creator: o_creator, supply: o_supply,
                    sig: o_sig },
            ) => ticker@ == o_ticker@ && creator == o_creator && supply == o_supply && sig == o_sig,
            (
                Transaction::SolventTransfer { token, xfer },
                Transaction::SolventTransfer { token: o_token, xfer: o_xfer },
            ) => token == o_token && xfer.bytes@ == o_xfer.bytes@,
            (
                Transaction::Rollover { account, nonce, sig },
                Transaction::Rollover { account: o_account, nonce: o_nonce, sig: o_sig },
            ) => account == o_account && nonce == o_nonce && sig == o_sig,
            (
                Transaction::DeployContract { deployer, code, sig },
                Transaction::DeployContract { deployer: o_deployer, code: o_code, sig: o_sig },
            ) => deployer == o_deployer && code@ == o_code@ && sig == o_sig,
            (
                Transaction::CallContract { contract, caller, input, nonce, sig },
                Transaction::CallContract { contract: o_contract, caller: o_caller, input: o_input,
                    nonce: o_nonce, sig: o_sig },
            ) => contract == o_contract && caller == o_caller && input == o_input
                && nonce == o_nonce && sig == o_sig,
            (
                Transaction::PublicTransfer { token, from, to, amount, fee, nonce, sig },
                Transaction::PublicTransfer { token: o_token, from: o_from, to: o_to,
                    amount: o_amount, fee: o_fee, nonce: o_nonce, sig: o_sig },
            ) => token == o_token && from == o_from && to == o_to && amount == o_amount
                && fee == o_fee && nonce == o_nonce && sig == o_sig,
            (
                Transaction::Shield { token, from, to, amount, fee, nonce, sig },
                Transaction::Shield { token: o_token, from: o_from, to: o_to, amount: o_amount,
                    fee: o_fee, nonce: o_nonce, sig: o_sig },
            ) => token == o_token && from == o_from && to == o_to && amount == o_amount
                && fee == o_fee && nonce == o_nonce && sig == o_sig,
            (
                Transaction::Unshield { token, to, amount, xfer, sig },
                Transaction::Unshield { token: o_token, to: o_to, amount: o_amount, xfer: o_xfer,
                    sig: o_sig },
            ) => token == o_token && to == o_to && amount == o_amount
                && xfer.bytes@ == o_xfer.bytes@ && sig == o_sig,
            (
                Transaction::ShieldStealth { token, from, ephemeral, one_time, amount, fee, nonce,
                    sig },
                Transaction::ShieldStealth { token: o_token, from: o_from, ephemeral: o_ephemeral,
                    one_time: o_one_time, amount: o_amount, fee: o_fee, nonce: o_nonce,
                    sig: o_sig },
            ) => token == o_token && from == o_from && ephemeral == o_ephemeral
                && one_time == o_one_time && amount == o_amount && fee == o_fee && nonce == o_nonce
                && sig == o_sig,
            (
                Transaction::AnonTransfer { token, xfer },
                Transaction::AnonTransfer { token: o_token, xfer: o_xfer },
            ) => token == o_token && xfer.bytes@ == o_xfer.bytes@,
            (
                Transaction::Stake { validator, amount, nonce, sig },
                Transaction::Stake { validator: o_validator, amount: o_amount, nonce: o_nonce,
                    sig: o_sig },
            ) => validator == o_validator && amount == o_amount && nonce == o_nonce && sig == o_sig,
            (
                Transaction::Unstake { validator, amount, nonce, sig },
                Transaction::Unstake { validator: o_validator, amount: o_amount, nonce: o_nonce,
                    sig: o_sig },
            ) => validator == o_validator && amount == o_amount && nonce == o_nonce && sig == o_sig,
            (
                Transaction::SlashEvidence { validator, beneficiary, height, block_a, sig_a,
                    block_b, sig_b },
                Transaction::SlashEvidence { validator: o_validator, beneficiary: o_beneficiary,
                    height: o_height, block_a: o_block_a, sig_a: o_sig_a, block_b: o_block_b,
                    sig_b: o_sig_b },
            ) => validator == o_validator && beneficiary == o_beneficiary && height == o_height
                && block_a == o_block_a && sig_a == o_sig_a && block_b == o_block_b
                && sig_b == o_sig_b,
            (
                Transaction::AddLiquidity { token, provider, lat_amount, tok_amount, fee, nonce,
                    sig },
                Transaction::AddLiquidity { token: o_token, provider: o_provider,
                    lat_amount: o_lat_amount, tok_amount: o_tok_amount, fee: o_fee, nonce: o_nonce,
                    sig: o_sig },
            ) => token == o_token && provider == o_provider && lat_amount == o_lat_amount
                && tok_amount == o_tok_amount && fee == o_fee && nonce == o_nonce && sig == o_sig,
            (
                Transaction::RemoveLiquidity { token, provider, lp_amount, fee, nonce, sig },
                Transaction::RemoveLiquidity { token: o_token, provider: o_provider,
                    lp_amount: o_lp_amount, fee: o_fee, nonce: o_nonce, sig: o_sig },
            ) => token == o_token && provider == o_provider && lp_amount == o_lp_amount
                && fee == o_fee && nonce == o_nonce && sig == o_sig,
            (
                Transaction::Swap { token, trader, lat_in, amount_in, min_out, fee, nonce, sig },
                Transaction::Swap { token: o_token, trader: o_trader, lat_in: o_lat_in,
                    amount_in: o_amount_in, min_out: o_min_out, fee: o_fee, nonce: o_nonce,
                    sig: o_sig },
            ) => token == o_token && trader == o_trader && lat_in == o_lat_in
                && amount_in == o_amount_in && min_out == o_min_out && fee == o_fee
                && nonce == o_nonce && sig == o_sig,
            (
                Transaction::HtlcLock { token, from, to, amount, hashlock, expiry, fee, nonce,
                    sig },
                Transaction::HtlcLock { token: o_token, from: o_from, to: o_to, amount: o_amount,
                    hashlock: o_hashlock, expiry: o_expiry, fee: o_fee, nonce: o_nonce,
                    sig: o_sig },
            ) => token == o_token && from == o_from && to == o_to && amount == o_amount
                && hashlock == o_hashlock && expiry == o_expiry && fee == o_fee && nonce == o_nonce
                && sig == o_sig,
            (
                Transaction::HtlcClaim { id, preimage },
                Transaction::HtlcClaim { id: o_id, preimage: o_preimage },
            ) => id == o_id && preimage == o_preimage,
            (
                Transaction::HtlcRefund { id },
                Transaction::HtlcRefund { id: o_id },
            ) => id == o_id,
            (
                Transaction::CurveTrade { token, trader, is_buy, amount, min_out, fee, nonce, sig },
                Transaction::CurveTrade { token: o_token, trader: o_trader, is_buy: o_is_buy,
                    amount: o_amount, min_out: o_min_out, fee: o_fee, nonce: o_nonce, sig: o_sig },
            ) => token == o_token && trader == o_trader && is_buy == o_is_buy && amount == o_amount
                && min_out == o_min_out && fee == o_fee && nonce == o_nonce && sig == o_sig,
            _ => false,
        }
    }

    fn body_bytes(&self) -> (v: Vec<u8>)
        ensures
            v@ == self.body(),
    {
        let mut v: Vec<u8> = Vec::new();
        match self {
            Transaction::Register { pubkey, pow_nonce } => {
                v.push(0x00);
                assert(v@ =~= seq![0x00u8]);
                push_bytes(&mut v, pubkey.as_slice());
                push_u64(&mut v, *pow_nonce);
            },
            Transaction::CreateToken { ticker, creator, supply, .. } => {
                v.push(0x02);
                assert(v@ =~= seq![0x02u8]);
                push_u16(&mut v, ticker.as_str().as_bytes().len() as u16);
                push_bytes(&mut v, ticker.as_str().as_bytes());
                push_bytes(&mut v, creator.as_slice());
                push_u64(&mut v, *supply);
            },
            Transaction::SolventTransfer { token, xfer } => {
                v.push(0x03);
                assert(v@ =~= seq![0x03u8]);
                push_u32(&mut v, *token);
                push_bytes(&mut v, xfer.bytes.as_slice());
            },
            Transaction::Rollover { account, nonce, .. } => {
                v.push(0x04);
                assert(v@ =~= seq![0x04u8]);
                push_bytes(&mut v, account.as_slice());
                push_u64(&mut v, *nonce);
            },
            Transaction::DeployContract { deployer, code, .. } => {
                v.push(0x05);
                assert(v@ =~= seq![0x05u8]);
                push_bytes(&mut v, deployer.as_slice());
                push_u32(&mut v, code.len() as u32);
                push_bytes(&mut v, code.as_slice());
            },
            Transaction::CallContract { contract, caller, input, nonce, .. } => {
                v.push(0x06);
                assert(v@ =~= seq![0x06u8]);
                push_bytes(&mut v, contract.as_slice());
                push_bytes(&mut v, caller.as_slice());
                push_u64(&mut v, *input);
                push_u64(&mut v, *nonce);
            },
            Transaction::PublicTransfer { token, from, to, amount, fee, nonce, .. } => {
                v.push(0x07);
                assert(v@ =~= seq![0x07u8]);
                push_u32(&mut v, *token);
                push_bytes(&mut v, from.as_slice());
                push_bytes(&mut v, to.as_slice());
                push_u64(&mut v, *amount);
                push_u64(&mut v, *fee);
                push_u64(&mut v, *nonce);
            },
            Transaction::Shield { token, from, to, amount, fee, nonce, .. } => {
                v.push(0x08);
                assert(v@ =~= seq![0x08u8]);
                push_u32(&mut v, *token);
                push_bytes(&mut v, from.as_slice());
                push_bytes(&mut v, to.as_slice());
                push_u64(&mut v, *amount);
                push_u64(&mut v, *fee);
                push_u64(&mut v, *nonce);
            },
            Transaction::Unshield { token, to, amount, xfer, .. } => {
                v.push(0x09);
                assert(v@ =~= seq![0x09u8]);
                push_u32(&mut v, *token);
                push_bytes(&mut v, to.as_slice());
                push_u64(&mut v, *amount);
                push_u32(&mut v, xfer.bytes.len() as u32);
                push_bytes(&mut v, xfer.bytes.as_slice());
            },
            Transaction::ShieldStealth { token, from, ephemeral, one_time, amount, fee, nonce,
                .. } => {
                v.push(0x0A);
                assert(v@ =~= seq![0x0Au8]);
                push_u32(&mut v, *token);
                push_bytes(&mut v, from.as_slice());
                push_bytes(&mut v, ephemeral.as_slice());
                push_bytes(&mut v, one_time.as_slice());
                push_u64(&mut v, *amount);
                push_u64(&mut v, *fee);
                push_u64(&mut v, *nonce);
            },
            Transaction::AnonTransfer { token, xfer } => {
                v.push(0x0B);
                assert(v@ =~= seq![0x0Bu8]);
                push_u32(&mut v, *token);
                push_u32(&mut v, xfer.bytes.len() as u32);
                push_bytes(&mut v, xfer.bytes.as_slice());
            },
            Transaction::Stake { validator, amount, nonce, .. } => {
                v.push(0x0C);
                assert(v@ =~= seq![0x0Cu8]);
                push_bytes(&mut v, validator.as_slice());
                push_u64(&mut v, *amount);
                push_u64(&mut v, *nonce);
            },
            Transaction::Unstake { validator, amount, nonce, .. } => {
                v.push(0x0D);
                assert(v@ =~= seq![0x0Du8]);
                push_bytes(&mut v, validator.as_slice());
                push_u64(&mut v, *amount);
                push_u64(&mut v, *nonce);
            },
            Transaction::SlashEvidence { validator, beneficiary, height, block_a, sig_a, block_b,
                sig_b } => {
                v.push(0x0E);
                assert(v@ =~= seq![0x0Eu8]);
                push_bytes(&mut v, validator.as_slice());
                push_bytes(&mut v, beneficiary.as_slice());
                push_u64(&mut v, *height);
                push_bytes(&mut v, block_a.as_slice());
                push_bytes(&mut v, sig_a.as_slice());
                push_bytes(&mut v, block_b.as_slice());
                push_bytes(&mut v, sig_b.as_slice());
            },
            Transaction::AddLiquidity { token, provider, lat_amount, tok_amount, fee, nonce, .. } =>
                {
                v.push(0x0F);
                assert(v@ =~= seq![0x0Fu8]);
                push_u32(&mut v, *token);
                push_bytes(&mut v, provider.as_slice());
                push_u64(&mut v, *lat_amount);
                push_u64(&mut v, *tok_amount);
                push_u64(&mut v, *fee);
                push_u64(&mut v, *nonce);
            },
            Transaction::RemoveLiquidity { token, provider, lp_amount, fee, nonce, .. } => {
                v.push(0x10);
                assert(v@ =~= seq![0x10u8]);
                push_u32(&mut v, *token);
                push_bytes(&mut v, provider.as_slice());
                push_u64(&mut v, *lp_amount);
                push_u64(&mut v, *fee);
                push_u64(&mut v, *nonce);
            },
            Transaction::Swap { token, trader, lat_in, amount_in, min_out, fee, nonce, .. } => {
                v.push(0x11);
                assert(v@ =~= seq![0x11u8]);
                push_u32(&mut v, *token);
                push_bytes(&mut v, trader.as_slice());
                let ghost before = v@;
                v.push(if *lat_in { 1 } else { 0 });
                assert(v@ =~= before + flag(*lat_in));
                push_u64(&mut v, *amount_in);
                push_u64(&mut v, *min_out);
                push_u64(&mut v, *fee);
                push_u64(&mut v, *nonce);
            },
            Transaction::HtlcLock { token, from, to, amount, hashlock, expiry, fee, nonce, .. } => {
                v.push(0x12);
                assert(v@ =~= seq![0x12u8]);
                push_u32(&mut v, *token);
                push_bytes(&mut v, from.as_slice());
                push_bytes(&mut v, to.as_slice());
                push_u64(&mut v, *amount);
                push_bytes(&mut v, hashlock.as_slice());
                push_u64(&mut v, *expiry);
                push_u64(&mut v, *fee);
                push_u64(&mut v, *nonce);
            },
            Transaction::HtlcClaim { id, preimage } => {
                v.push(0x13);
                assert(v@ =~= seq![0x13u8]);
                push_bytes(&mut v, id.as_slice());
                push_bytes(&mut v, preimage.as_slice());
            },
            Transaction::HtlcRefund { id } => {
                v.push(0x14);
                assert(v@ =~= seq![0x14u8]);
                push_bytes(&mut v, id.as_slice());
            },
            Transaction::CurveTrade { token, trader, is_buy, amount, min_out, fee, nonce, .. } => {
                v.push(0x15);
                assert(v@ =~= seq![0x15u8]);
                push_u32(&mut v, *token);
                push_bytes(&mut v, trader.as_slice());
                let ghost before = v@;
                v.push(if *is_buy { 1 } else { 0 });
                assert(v@ =~= before + flag(*is_buy));
                push_u64(&mut v, *amount);
                push_u64(&mut v, *min_out);
                push_u64(&mut v, *fee);
                push_u64(&mut v, *nonce);
            },
        }
        v
    }

    /// Canonical byte encoding, used to derive transaction ids and block roots.
    /// A leading tag byte distinguishes the variants.
    pub fn encode(&self) -> (v: Vec<u8>)
        ensures
            v@ == self.wire(),
    {
        let mut v = self.body_bytes();
        match self {
            Transaction::CreateToken { sig, .. } => push_bytes(&mut v, sig.as_slice()),
            Transaction::Rollover { sig, .. } => push_bytes(&mut v, sig.as_slice()),
            Transaction::DeployContract { sig, .. } => push_bytes(&mut v, sig.as_slice()),
            Transaction::CallContract { sig, .. } => push_bytes(&mut v, sig.as_slice()),
            Transaction::PublicTransfer { sig, .. } => push_bytes(&mut v, sig.as_slice()),
            Transaction::Shield { sig, .. } => push_bytes(&mut v, sig.as_slice()),
            Transaction::Unshield { sig, .. } => push_bytes(&mut v, sig.as_slice()),
            Transaction::ShieldStealth { sig, .. } => push_bytes(&mut v, sig.as_slice()),
            Transaction::Stake { sig, .. } => push_bytes(&mut v, sig.as_slice()),
            Transaction::Unstake { sig, .. } => push_bytes(&mut v, sig.as_slice()),
            Transaction::AddLiquidity { sig, .. } => push_bytes(&mut v, sig.as_slice()),
            Transaction::RemoveLiquidity { sig, .. } => push_bytes(&mut v, sig.as_slice()),
            Transaction::Swap { sig, .. } => push_bytes(&mut v, sig.as_slice()),
            Transaction::HtlcLock { sig, .. } => push_bytes(&mut v, sig.as_slice()),
            Transaction::CurveTrade { sig, .. } => push_bytes(&mut v, sig.as_slice()),
            _ => {},
        }
        v
    }

    /// The bytes a signed transaction's signature covers: the canonical encoding
    /// without the trailing signature. (For the variants that carry none this is
    /// the full encoding.)
    pub fn signing_bytes(&self) -> (v: Vec<u8>)
        ensures
            v@ == self.body(),
    {
        self.body_bytes()
    }
}

/// Where a transfer's own bytes stand in an encoding.
pub open spec fn embedded_range(b: Seq<u8>) -> Option<(int, int)> {
    if b.len() == 0 {
        None
    } else if b[0] == 0x03 {
        if b.len() >= 5 {
            Some((5, b.len() as int))
        } else {
            None
        }
    } else if b[0] == 0x09 {
        if b.len() >= 49 && b.len() == 49 + bytes::of_le4(b.subrange(45, 49)) + 64 {
            Some((49, b.len() - 64))
        } else {
            None
        }
    } else if b[0] == 0x0B {
        if b.len() >= 9 && b.len() == 9 + bytes::of_le4(b.subrange(5, 9)) {
            Some((9, b.len() as int))
        } else {
            None
        }
    } else {
        None
    }
}

/// Whether `b` is an encoding whose embedded transfer, if it has one, is
/// `opened`.
pub open spec fn shaped(b: Seq<u8>, opened: Opened) -> bool {
    if b.len() == 0 {
        false
    } else if b[0] == 0x02 {
        b.len() >= 3 && ({
            let n = bytes::of_le2(b.subrange(1, 3)) as int;
            b.len() == 3 + n + 104 && valid_utf8(b.subrange(3, 3 + n))
        })
    } else if b[0] == 0x03 || b[0] == 0x09 {
        embedded_range(b) matches Some((i, j)) && opened matches Opened::Solvent(x) && x.bytes@
            == b.subrange(i, j)
    } else if b[0] == 0x0B {
        embedded_range(b) matches Some((i, j)) && opened matches Opened::Anon(x) && x.bytes@
            == b.subrange(i, j)
    } else if b[0] == 0x05 {
        b.len() >= 37 && b.len() == 37 + bytes::of_le4(b.subrange(33, 37)) + 64
    } else if b[0] == 0x11 || b[0] == 0x15 {
        b.len() == 134 && b[37] <= 1
    } else if b[0] == 0x00 {
        b.len() == 41
    } else if b[0] == 0x04 {
        b.len() == 105
    } else if b[0] == 0x06 {
        b.len() == 145
    } else if b[0] == 0x07 {
        b.len() == 157
    } else if b[0] == 0x08 {
        b.len() == 157
    } else if b[0] == 0x0A {
        b.len() == 189
    } else if b[0] == 0x0C {
        b.len() == 113
    } else if b[0] == 0x0D {
        b.len() == 113
    } else if b[0] == 0x0E {
        b.len() == 265
    } else if b[0] == 0x0F {
        b.len() == 133
    } else if b[0] == 0x10 {
        b.len() == 125
    } else if b[0] == 0x12 {
        b.len() == 197
    } else if b[0] == 0x13 {
        b.len() == 65
    } else if b[0] == 0x14 {
        b.len() == 33
    } else {
        false
    }
}

impl Transaction {
    /// The bytes of the transfer inside an encoding, for the cryptography layer
    /// to open. `None` where there is none or the frame is malformed.
    pub fn embedded(b: &[u8]) -> (r: Option<Vec<u8>>)
        ensures
            match r {
                Some(x) => embedded_range(b@) matches Some((i, j)) && x@ == b@.subrange(i, j),
                None => embedded_range(b@) is None,
            },
    {
        if b.len() == 0 {
            return None;
        }
        if b[0] == 0x03 {
            if b.len() < 5 {
                return None;
            }
            return Some(copy_range(b, 5, b.len()));
        }
        if b[0] == 0x09 {
            if b.len() < 113 {
                return None;
            }
            if u32_at(b, 45) as usize != b.len() - 113 {
                return None;
            }
            return Some(copy_range(b, 49, b.len() - 64));
        }
        if b[0] == 0x0B {
            if b.len() < 9 {
                return None;
            }
            if u32_at(b, 5) as usize != b.len() - 9 {
                return None;
            }
            return Some(copy_range(b, 9, b.len()));
        }
        None
    }

    /// Decode a transaction from its canonical encoding (inverse of
    /// [`Transaction::encode`]); `opened` is what the cryptography layer made of
    /// [`Transaction::embedded`]. `None` on malformed input: a wrong tag, a
    /// wrong length (trailing bytes included), text that is not UTF-8, a
    /// direction byte that is neither 0 nor 1, or a transfer that did not open.
    #[verifier::rlimit(60)]
    pub fn decode(b: &[u8], opened: Opened) -> (r: Option<Transaction>)
        ensures
            match r {
                Some(t) => {
                    &&& shaped(b@, opened)
                    &&& t.wire() == b@
                    &&& t.fits()
                    &&& t.carries(opened)
                },
                None => !shaped(b@, opened),
            },
    {
        broadcast use crate::bytes::lemma_adjacent;

        if b.len() == 0 {
            return None;
        }
        let tag = b[0];
        let ghost whole = b@;
        assert(b@.subrange(0, b@.len() as int) =~= b@);
        assert(seq![tag] =~= b@.subrange(0, 1));
        match tag {
            0x00 => {
                if b.len() != 41 {
                    return None;
                }
                let t = Transaction::Register {
                    pubkey: array_at::<32>(b, 1),
                    pow_nonce: u64_at(b, 33),
                };
                assert(t.wire() == whole);
                Some(t)
            },
            0x04 => {
                if b.len() != 105 {
                    return None;
                }
                let t = Transaction::Rollover {
                    account: array_at::<32>(b, 1),
                    nonce: u64_at(b, 33),
                    sig: array_at::<64>(b, 41),
                };
                assert(t.wire() == whole);
                Some(t)
            },
            0x06 => {
                if b.len() != 145 {
                    return None;
                }
                let t = Transaction::CallContract {
                    contract: array_at::<32>(b, 1),
                    caller: array_at::<32>(b, 33),
                    input: u64_at(b, 65),
                    nonce: u64_at(b, 73),
                    sig: array_at::<64>(b, 81),
                };
                assert(t.wire() == whole);
                Some(t)
            },
            0x07 => {
                if b.len() != 157 {
                    return None;
                }
                let t = Transaction::PublicTransfer {
                    token: u32_at(b, 1),
                    from: array_at::<32>(b, 5),
                    to: array_at::<32>(b, 37),
                    amount: u64_at(b, 69),
                    fee: u64_at(b, 77),
                    nonce: u64_at(b, 85),
                    sig: array_at::<64>(b, 93),
                };
                assert(t.wire() == whole);
                Some(t)
            },
            0x08 => {
                if b.len() != 157 {
                    return None;
                }
                let t = Transaction::Shield {
                    token: u32_at(b, 1),
                    from: array_at::<32>(b, 5),
                    to: array_at::<32>(b, 37),
                    amount: u64_at(b, 69),
                    fee: u64_at(b, 77),
                    nonce: u64_at(b, 85),
                    sig: array_at::<64>(b, 93),
                };
                assert(t.wire() == whole);
                Some(t)
            },
            0x0A => {
                if b.len() != 189 {
                    return None;
                }
                let t = Transaction::ShieldStealth {
                    token: u32_at(b, 1),
                    from: array_at::<32>(b, 5),
                    ephemeral: array_at::<32>(b, 37),
                    one_time: array_at::<32>(b, 69),
                    amount: u64_at(b, 101),
                    fee: u64_at(b, 109),
                    nonce: u64_at(b, 117),
                    sig: array_at::<64>(b, 125),
                };
                assert(t.wire() == whole);
                Some(t)
            },
            0x0C => {
                if b.len() != 113 {
                    return None;
                }
                let t = Transaction::Stake {
                    validator: array_at::<32>(b, 1),
                    amount: u64_at(b, 33),
                    nonce: u64_at(b, 41),
                    sig: array_at::<64>(b, 49),
                };
                assert(t.wire() == whole);
                Some(t)
            },
            0x0D => {
                if b.len() != 113 {
                    return None;
                }
                let t = Transaction::Unstake {
                    validator: array_at::<32>(b, 1),
                    amount: u64_at(b, 33),
                    nonce: u64_at(b, 41),
                    sig: array_at::<64>(b, 49),
                };
                assert(t.wire() == whole);
                Some(t)
            },
            0x0E => {
                if b.len() != 265 {
                    return None;
                }
                let t = Transaction::SlashEvidence {
                    validator: array_at::<32>(b, 1),
                    beneficiary: array_at::<32>(b, 33),
                    height: u64_at(b, 65),
                    block_a: array_at::<32>(b, 73),
                    sig_a: array_at::<64>(b, 105),
                    block_b: array_at::<32>(b, 169),
                    sig_b: array_at::<64>(b, 201),
                };
                assert(t.wire() == whole);
                Some(t)
            },
            0x0F => {
                if b.len() != 133 {
                    return None;
                }
                let t = Transaction::AddLiquidity {
                    token: u32_at(b, 1),
                    provider: array_at::<32>(b, 5),
                    lat_amount: u64_at(b, 37),
                    tok_amount: u64_at(b, 45),
                    fee: u64_at(b, 53),
                    nonce: u64_at(b, 61),
                    sig: array_at::<64>(b, 69),
                };
                assert(t.wire() == whole);
                Some(t)
            },
            0x10 => {
                if b.len() != 125 {
                    return None;
                }
                let t = Transaction::RemoveLiquidity {
                    token: u32_at(b, 1),
                    provider: array_at::<32>(b, 5),
                    lp_amount: u64_at(b, 37),
                    fee: u64_at(b, 45),
                    nonce: u64_at(b, 53),
                    sig: array_at::<64>(b, 61),
                };
                assert(t.wire() == whole);
                Some(t)
            },
            0x11 => {
                if b.len() != 134 {
                    return None;
                }
                if b[37] > 1 {
                    return None;
                }
                assert(flag(b@[37] == 1) =~= b@.subrange(37, 38));
                let t = Transaction::Swap {
                    token: u32_at(b, 1),
                    trader: array_at::<32>(b, 5),
                    lat_in: b[37] == 1,
                    amount_in: u64_at(b, 38),
                    min_out: u64_at(b, 46),
                    fee: u64_at(b, 54),
                    nonce: u64_at(b, 62),
                    sig: array_at::<64>(b, 70),
                };
                assert(t.wire() == whole);
                Some(t)
            },
            0x12 => {
                if b.len() != 197 {
                    return None;
                }
                let t = Transaction::HtlcLock {
                    token: u32_at(b, 1),
                    from: array_at::<32>(b, 5),
                    to: array_at::<32>(b, 37),
                    amount: u64_at(b, 69),
                    hashlock: array_at::<32>(b, 77),
                    expiry: u64_at(b, 109),
                    fee: u64_at(b, 117),
                    nonce: u64_at(b, 125),
                    sig: array_at::<64>(b, 133),
                };
                assert(t.wire() == whole);
                Some(t)
            },
            0x13 => {
                if b.len() != 65 {
                    return None;
                }
                let t = Transaction::HtlcClaim {
                    id: array_at::<32>(b, 1),
                    preimage: array_at::<32>(b, 33),
                };
                assert(t.wire() == whole);
                Some(t)
            },
            0x14 => {
                if b.len() != 33 {
                    return None;
                }
                let t = Transaction::HtlcRefund {
                    id: array_at::<32>(b, 1),
                };
                assert(t.wire() == whole);
                Some(t)
            },
            0x15 => {
                if b.len() != 134 {
                    return None;
                }
                if b[37] > 1 {
                    return None;
                }
                assert(flag(b@[37] == 1) =~= b@.subrange(37, 38));
                let t = Transaction::CurveTrade {
                    token: u32_at(b, 1),
                    trader: array_at::<32>(b, 5),
                    is_buy: b[37] == 1,
                    amount: u64_at(b, 38),
                    min_out: u64_at(b, 46),
                    fee: u64_at(b, 54),
                    nonce: u64_at(b, 62),
                    sig: array_at::<64>(b, 70),
                };
                assert(t.wire() == whole);
                Some(t)
            },
            0x02 => {
                if b.len() < 3 {
                    return None;
                }
                let n = u16_at(b, 1) as usize;
                if b.len() != 3 + n + 104 {
                    return None;
                }
                let ghost name = b@.subrange(3, 3 + n);
                match utf8_string(copy_range(b, 3, 3 + n)) {
                    None => None,
                    Some(ticker) => {
                        proof {
                            text::lemma_utf8_bytes(name);
                        }
                        let t = Transaction::CreateToken {
                            ticker,
                            creator: array_at::<32>(b, 3 + n),
                            supply: u64_at(b, 35 + n),
                            sig: array_at::<64>(b, 43 + n),
                        };
                        assert(t.wire() == whole);
                        Some(t)
                    },
                }
            },
            0x03 => {
                if b.len() < 5 {
                    return None;
                }
                match opened {
                    Opened::Solvent(xfer) => {
                        if !same_bytes(
                            xfer.bytes.as_slice(),
                            vstd::slice::slice_subrange(b, 5, b.len()),
                        ) {
                            return None;
                        }
                        let t = Transaction::SolventTransfer { token: u32_at(b, 1), xfer };
                        assert(t.wire() == whole);
                        Some(t)
                    },
                    _ => None,
                }
            },
            0x05 => {
                if b.len() < 101 {
                    return None;
                }
                if u32_at(b, 33) as usize != b.len() - 101 {
                    return None;
                }
                let end = b.len() - 64;
                let t = Transaction::DeployContract {
                    deployer: array_at::<32>(b, 1),
                    code: copy_range(b, 37, end),
                    sig: array_at::<64>(b, end),
                };
                assert(bytes::le4(bytes::of_le4(b@.subrange(33, 37))) == b@.subrange(33, 37)) by {
                    broadcast use crate::bytes::group_le;

                }
                assert(t.wire() == whole);
                Some(t)
            },
            0x09 => {
                if b.len() < 113 {
                    return None;
                }
                if u32_at(b, 45) as usize != b.len() - 113 {
                    return None;
                }
                let end = b.len() - 64;
                match opened {
                    Opened::Solvent(xfer) => {
                        if !same_bytes(
                            xfer.bytes.as_slice(),
                            vstd::slice::slice_subrange(b, 49, end),
                        ) {
                            return None;
                        }
                        let t = Transaction::Unshield {
                            token: u32_at(b, 1),
                            to: array_at::<32>(b, 5),
                            amount: u64_at(b, 37),
                            xfer,
                            sig: array_at::<64>(b, end),
                        };
                        assert(t.wire() == whole);
                        Some(t)
                    },
                    _ => None,
                }
            },
            0x0B => {
                if b.len() < 9 {
                    return None;
                }
                if u32_at(b, 5) as usize != b.len() - 9 {
                    return None;
                }
                match opened {
                    Opened::Anon(xfer) => {
                        if !same_bytes(
                            xfer.bytes.as_slice(),
                            vstd::slice::slice_subrange(b, 9, b.len()),
                        ) {
                            return None;
                        }
                        let t = Transaction::AnonTransfer { token: u32_at(b, 1), xfer };
                        assert(t.wire() == whole);
                        Some(t)
                    },
                    _ => None,
                }
            },
            _ => None,
        }
    }
}

/// What the cryptography layer makes of a transaction's own transfer.
pub open spec fn opening(t: Transaction) -> Opened {
    match t {
        Transaction::SolventTransfer { xfer, .. } => Opened::Solvent(xfer),
        Transaction::Unshield { xfer, .. } => Opened::Solvent(xfer),
        Transaction::AnonTransfer { xfer, .. } => Opened::Anon(xfer),
        _ => Opened::Nothing,
    }
}

/// Whatever is encoded decodes: the encoding of a transaction whose lengths fit
/// is accepted.
pub proof fn law_encoding_decodes(t: Transaction)
    requires
        t.fits(),
    ensures
        shaped(t.wire(), opening(t)),
{
    broadcast use crate::bytes::group_le;

    let w = t.wire();
    match t {
        Transaction::Swap { token, trader, lat_in, .. } => {
            assert(w[37] == flag(lat_in)[0]);
        },
        Transaction::CurveTrade { token, trader, is_buy, .. } => {
            assert(w[37] == flag(is_buy)[0]);
        },
        Transaction::CreateToken { ticker, .. } => {
            let n = encode_utf8(ticker@).len();
            assert(w.subrange(1, 3) =~= bytes::le2(n as u16));
            assert(w.subrange(3, 3 + n as int) =~= encode_utf8(ticker@));
            text::lemma_utf8_chars(ticker@);
        },
        Transaction::SolventTransfer { token, xfer } => {
            assert(w.subrange(5, w.len() as int) =~= xfer.bytes@);
        },
        Transaction::DeployContract { deployer, code, sig } => {
            assert(w.subrange(33, 37) =~= bytes::le4(code@.len() as u32));
        },
        Transaction::Unshield { token, to, amount, xfer, sig } => {
            assert(w.subrange(45, 49) =~= bytes::le4(xfer.bytes@.len() as u32));
            assert(w.subrange(49, w.len() - 64) =~= xfer.bytes@);
        },
        Transaction::AnonTransfer { token, xfer } => {
            assert(w.subrange(5, 9) =~= bytes::le4(xfer.bytes@.len() as u32));
            assert(w.subrange(9, w.len() as int) =~= xfer.bytes@);
        },
        _ => {},
    }
    assert(w[0] == t.tag());
}

proof fn lemma_cut(a: Seq<u8>, b: Seq<u8>, c: Seq<u8>, d: Seq<u8>)
    requires
        a + b == c + d,
        a.len() == c.len(),
    ensures
        a == c,
        b == d,
{
    bytes::lemma_concat_parts(a, b);
    bytes::lemma_concat_parts(c, d);
}

/// Two transactions with the same encoding are the same: an encoding can be read
/// in one way only.
#[verifier::rlimit(80)]
pub proof fn law_encoding_unique(t: Transaction, u: Transaction)
    requires
        t.fits(),
        u.fits(),
        t.wire() == u.wire(),
    ensures
        t.same(&u),
{
    broadcast use crate::bytes::group_le;

    assert(t.wire()[0] == t.tag());
    assert(u.wire()[0] == u.tag());
    match (t, u) {
        (
            Transaction::Register { pubkey, pow_nonce },
            Transaction::Register { pubkey: o_pubkey, pow_nonce: o_pow_nonce },
        ) => {
            let a0 = seq![0x00u8];
            let b0 = seq![0x00u8];
            let a1 = a0 + pubkey@;
            let b1 = b0 + o_pubkey@;
            let a2 = a1 + bytes::le8(pow_nonce);
            let b2 = b1 + bytes::le8(o_pow_nonce);
            lemma_cut(a1, bytes::le8(pow_nonce), b1, bytes::le8(o_pow_nonce));
            lemma_cut(a0, pubkey@, b0, o_pubkey@);
            bytes::lemma_array_eq(pubkey, o_pubkey);
        },
        (
            Transaction::CreateToken { ticker, creator, supply, sig },
            Transaction::CreateToken { ticker: o_ticker, creator: o_creator, supply: o_supply,
                sig: o_sig },
        ) => {
            let a0 = seq![0x02u8];
            let b0 = seq![0x02u8];
            let a1 = a0 + bytes::le2(encode_utf8(ticker@).len() as u16);
            let b1 = b0 + bytes::le2(encode_utf8(o_ticker@).len() as u16);
            let a2 = a1 + encode_utf8(ticker@);
            let b2 = b1 + encode_utf8(o_ticker@);
            let a3 = a2 + creator@;
            let b3 = b2 + o_creator@;
            let a4 = a3 + bytes::le8(supply);
            let b4 = b3 + bytes::le8(o_supply);
            let a5 = a4 + sig@;
            let b5 = b4 + o_sig@;
            assert(t.wire().subrange(1, 3) =~= bytes::le2(encode_utf8(ticker@).len() as u16));
            assert(u.wire().subrange(1, 3) =~= bytes::le2(encode_utf8(o_ticker@).len() as u16));
            text::lemma_utf8_chars(ticker@);
            text::lemma_utf8_chars(o_ticker@);
            lemma_cut(a4, sig@, b4, o_sig@);
            lemma_cut(a3, bytes::le8(supply), b3, bytes::le8(o_supply));
            lemma_cut(a2, creator@, b2, o_creator@);
            lemma_cut(a1, encode_utf8(ticker@), b1, encode_utf8(o_ticker@));
            lemma_cut(a0, bytes::le2(encode_utf8(ticker@).len() as u16), b0,
                bytes::le2(encode_utf8(o_ticker@).len() as u16));
            bytes::lemma_array_eq(creator, o_creator);
            bytes::lemma_array_eq(sig, o_sig);
        },
        (
            Transaction::SolventTransfer { token, xfer },
            Transaction::SolventTransfer { token: o_token, xfer: o_xfer },
        ) => {
            let a0 = seq![0x03u8];
            let b0 = seq![0x03u8];
            let a1 = a0 + bytes::le4(token);
            let b1 = b0 + bytes::le4(o_token);
            let a2 = a1 + xfer.bytes@;
            let b2 = b1 + o_xfer.bytes@;
            lemma_cut(a1, xfer.bytes@, b1, o_xfer.bytes@);
            lemma_cut(a0, bytes::le4(token), b0, bytes::le4(o_token));
        },
        (
            Transaction::Rollover { account, nonce, sig },
            Transaction::Rollover { account: o_account, nonce: o_nonce, sig: o_sig },
        ) => {
            let a0 = seq![0x04u8];
            let b0 = seq![0x04u8];
            let a1 = a0 + account@;
            let b1 = b0 + o_account@;
            let a2 = a1 + bytes::le8(nonce);
            let b2 = b1 + bytes::le8(o_nonce);
            let a3 = a2 + sig@;
            let b3 = b2 + o_sig@;
            lemma_cut(a2, sig@, b2, o_sig@);
            lemma_cut(a1, bytes::le8(nonce), b1, bytes::le8(o_nonce));
            lemma_cut(a0, account@, b0, o_account@);
            bytes::lemma_array_eq(account, o_account);
            bytes::lemma_array_eq(sig, o_sig);
        },
        (
            Transaction::DeployContract { deployer, code, sig },
            Transaction::DeployContract { deployer: o_deployer, code: o_code, sig: o_sig },
        ) => {
            let a0 = seq![0x05u8];
            let b0 = seq![0x05u8];
            let a1 = a0 + deployer@;
            let b1 = b0 + o_deployer@;
            let a2 = a1 + bytes::le4(code@.len() as u32);
            let b2 = b1 + bytes::le4(o_code@.len() as u32);
            let a3 = a2 + code@;
            let b3 = b2 + o_code@;
            let a4 = a3 + sig@;
            let b4 = b3 + o_sig@;
            assert(t.wire().subrange(33, 37) =~= bytes::le4(code@.len() as u32));
            assert(u.wire().subrange(33, 37) =~= bytes::le4(o_code@.len() as u32));
            lemma_cut(a3, sig@, b3, o_sig@);
            lemma_cut(a2, code@, b2, o_code@);
            lemma_cut(a1, bytes::le4(code@.len() as u32), b1, bytes::le4(o_code@.len() as u32));
            lemma_cut(a0, deployer@, b0, o_deployer@);
            bytes::lemma_array_eq(deployer, o_deployer);
            bytes::lemma_array_eq(sig, o_sig);
        },
        (
            Transaction::CallContract { contract, caller, input, nonce, sig },
            Transaction::CallContract { contract: o_contract, caller: o_caller, input: o_input,
                nonce: o_nonce, sig: o_sig },
        ) => {
            let a0 = seq![0x06u8];
            let b0 = seq![0x06u8];
            let a1 = a0 + contract@;
            let b1 = b0 + o_contract@;
            let a2 = a1 + caller@;
            let b2 = b1 + o_caller@;
            let a3 = a2 + bytes::le8(input);
            let b3 = b2 + bytes::le8(o_input);
            let a4 = a3 + bytes::le8(nonce);
            let b4 = b3 + bytes::le8(o_nonce);
            let a5 = a4 + sig@;
            let b5 = b4 + o_sig@;
            lemma_cut(a4, sig@, b4, o_sig@);
            lemma_cut(a3, bytes::le8(nonce), b3, bytes::le8(o_nonce));
            lemma_cut(a2, bytes::le8(input), b2, bytes::le8(o_input));
            lemma_cut(a1, caller@, b1, o_caller@);
            lemma_cut(a0, contract@, b0, o_contract@);
            bytes::lemma_array_eq(contract, o_contract);
            bytes::lemma_array_eq(caller, o_caller);
            bytes::lemma_array_eq(sig, o_sig);
        },
        (
            Transaction::PublicTransfer { token, from, to, amount, fee, nonce, sig },
            Transaction::PublicTransfer { token: o_token, from: o_from, to: o_to, amount: o_amount,
                fee: o_fee, nonce: o_nonce, sig: o_sig },
        ) => {
            let a0 = seq![0x07u8];
            let b0 = seq![0x07u8];
            let a1 = a0 + bytes::le4(token);
            let b1 = b0 + bytes::le4(o_token);
            let a2 = a1 + from@;
            let b2 = b1 + o_from@;
            let a3 = a2 + to@;
            let b3 = b2 + o_to@;
            let a4 = a3 + bytes::le8(amount);
            let b4 = b3 + bytes::le8(o_amount);
            let a5 = a4 + bytes::le8(fee);
            let b5 = b4 + bytes::le8(o_fee);
            let a6 = a5 + bytes::le8(nonce);
            let b6 = b5 + bytes::le8(o_nonce);
            let a7 = a6 + sig@;
            let b7 = b6 + o_sig@;
            lemma_cut(a6, sig@, b6, o_sig@);
            lemma_cut(a5, bytes::le8(nonce), b5, bytes::le8(o_nonce));
            lemma_cut(a4, bytes::le8(fee), b4, bytes::le8(o_fee));
            lemma_cut(a3, bytes::le8(amount), b3, bytes::le8(o_amount));
            lemma_cut(a2, to@, b2, o_to@);
            lemma_cut(a1, from@, b1, o_from@);
            lemma_cut(a0, bytes::le4(token), b0, bytes::le4(o_token));
            bytes::lemma_array_eq(from, o_from);
            bytes::lemma_array_eq(to, o_to);
            bytes::lemma_array_eq(sig, o_sig);
        },
        (
            Transaction::Shield { token, from, to, amount, fee, nonce, sig },
            Transaction::Shield { token: o_token, from: o_from, to: o_to, amount: o_amount,
                fee: o_fee, nonce: o_nonce, sig: o_sig },
        ) => {
            let a0 = seq![0x08u8];
            let b0 = seq![0x08u8];
            let a1 = a0 + bytes::le4(token);
            let b1 = b0 + bytes::le4(o_token);
            let a2 = a1 + from@;
            let b2 = b1 + o_from@;
            let a3 = a2 + to@;
            let b3 = b2 + o_to@;
            let a4 = a3 + bytes::le8(amount);
            let b4 = b3 + bytes::le8(o_amount);
            let a5 = a4 + bytes::le8(fee);
            let b5 = b4 + bytes::le8(o_fee);
            let a6 = a5 + bytes::le8(nonce);
            let b6 = b5 + bytes::le8(o_nonce);
            let a7 = a6 + sig@;
            let b7 = b6 + o_sig@;
            lemma_cut(a6, sig@, b6, o_sig@);
            lemma_cut(a5, bytes::le8(nonce), b5, bytes::le8(o_nonce));
            lemma_cut(a4, bytes::le8(fee), b4, bytes::le8(o_fee));
            lemma_cut(a3, bytes::le8(amount), b3, bytes::le8(o_amount));
            lemma_cut(a2, to@, b2, o_to@);
            lemma_cut(a1, from@, b1, o_from@);
            lemma_cut(a0, bytes::le4(token), b0, bytes::le4(o_token));
            bytes::lemma_array_eq(from, o_from);
            bytes::lemma_array_eq(to, o_to);
            bytes::lemma_array_eq(sig, o_sig);
        },
        (
            Transaction::Unshield { token, to, amount, xfer, sig },
            Transaction::Unshield { token: o_token, to: o_to, amount: o_amount, xfer: o_xfer,
                sig: o_sig },
        ) => {
            let a0 = seq![0x09u8];
            let b0 = seq![0x09u8];
            let a1 = a0 + bytes::le4(token);
            let b1 = b0 + bytes::le4(o_token);
            let a2 = a1 + to@;
            let b2 = b1 + o_to@;
            let a3 = a2 + bytes::le8(amount);
            let b3 = b2 + bytes::le8(o_amount);
            let a4 = a3 + bytes::le4(xfer.bytes@.len() as u32);
            let b4 = b3 + bytes::le4(o_xfer.bytes@.len() as u32);
            let a5 = a4 + xfer.bytes@;
            let b5 = b4 + o_xfer.bytes@;
            let a6 = a5 + sig@;
            let b6 = b5 + o_sig@;
            assert(t.wire().subrange(45, 49) =~= bytes::le4(xfer.bytes@.len() as u32));
            assert(u.wire().subrange(45, 49) =~= bytes::le4(o_xfer.bytes@.len() as u32));
            lemma_cut(a5, sig@, b5, o_sig@);
            lemma_cut(a4, xfer.bytes@, b4, o_xfer.bytes@);
            lemma_cut(a3, bytes::le4(xfer.bytes@.len() as u32), b3,
                bytes::le4(o_xfer.bytes@.len() as u32));
            lemma_cut(a2, bytes::le8(amount), b2, bytes::le8(o_amount));
            lemma_cut(a1, to@, b1, o_to@);
            lemma_cut(a0, bytes::le4(token), b0, bytes::le4(o_token));
            bytes::lemma_array_eq(to, o_to);
            bytes::lemma_array_eq(sig, o_sig);
        },
        (
            Transaction::ShieldStealth { token, from, ephemeral, one_time, amount, fee, nonce,
                sig },
            Transaction::ShieldStealth { token: o_token, from: o_from, ephemeral: o_ephemeral,
                one_time: o_one_time, amount: o_amount, fee: o_fee, nonce: o_nonce, sig: o_sig },
        ) => {
            let a0 = seq![0x0Au8];
            let b0 = seq![0x0Au8];
            let a1 = a0 + bytes::le4(token);
            let b1 = b0 + bytes::le4(o_token);
            let a2 = a1 + from@;
            let b2 = b1 + o_from@;
            let a3 = a2 + ephemeral@;
            let b3 = b2 + o_ephemeral@;
            let a4 = a3 + one_time@;
            let b4 = b3 + o_one_time@;
            let a5 = a4 + bytes::le8(amount);
            let b5 = b4 + bytes::le8(o_amount);
            let a6 = a5 + bytes::le8(fee);
            let b6 = b5 + bytes::le8(o_fee);
            let a7 = a6 + bytes::le8(nonce);
            let b7 = b6 + bytes::le8(o_nonce);
            let a8 = a7 + sig@;
            let b8 = b7 + o_sig@;
            lemma_cut(a7, sig@, b7, o_sig@);
            lemma_cut(a6, bytes::le8(nonce), b6, bytes::le8(o_nonce));
            lemma_cut(a5, bytes::le8(fee), b5, bytes::le8(o_fee));
            lemma_cut(a4, bytes::le8(amount), b4, bytes::le8(o_amount));
            lemma_cut(a3, one_time@, b3, o_one_time@);
            lemma_cut(a2, ephemeral@, b2, o_ephemeral@);
            lemma_cut(a1, from@, b1, o_from@);
            lemma_cut(a0, bytes::le4(token), b0, bytes::le4(o_token));
            bytes::lemma_array_eq(from, o_from);
            bytes::lemma_array_eq(ephemeral, o_ephemeral);
            bytes::lemma_array_eq(one_time, o_one_time);
            bytes::lemma_array_eq(sig, o_sig);
        },
        (
            Transaction::AnonTransfer { token, xfer },
            Transaction::AnonTransfer { token: o_token, xfer: o_xfer },
        ) => {
            let a0 = seq![0x0Bu8];
            let b0 = seq![0x0Bu8];
            let a1 = a0 + bytes::le4(token);
            let b1 = b0 + bytes::le4(o_token);
            let a2 = a1 + bytes::le4(xfer.bytes@.len() as u32);
            let b2 = b1 + bytes::le4(o_xfer.bytes@.len() as u32);
            let a3 = a2 + xfer.bytes@;
            let b3 = b2 + o_xfer.bytes@;
            lemma_cut(a2, xfer.bytes@, b2, o_xfer.bytes@);
            lemma_cut(a1, bytes::le4(xfer.bytes@.len() as u32), b1,
                bytes::le4(o_xfer.bytes@.len() as u32));
            lemma_cut(a0, bytes::le4(token), b0, bytes::le4(o_token));
        },
        (
            Transaction::Stake { validator, amount, nonce, sig },
            Transaction::Stake { validator: o_validator, amount: o_amount, nonce: o_nonce,
                sig: o_sig },
        ) => {
            let a0 = seq![0x0Cu8];
            let b0 = seq![0x0Cu8];
            let a1 = a0 + validator@;
            let b1 = b0 + o_validator@;
            let a2 = a1 + bytes::le8(amount);
            let b2 = b1 + bytes::le8(o_amount);
            let a3 = a2 + bytes::le8(nonce);
            let b3 = b2 + bytes::le8(o_nonce);
            let a4 = a3 + sig@;
            let b4 = b3 + o_sig@;
            lemma_cut(a3, sig@, b3, o_sig@);
            lemma_cut(a2, bytes::le8(nonce), b2, bytes::le8(o_nonce));
            lemma_cut(a1, bytes::le8(amount), b1, bytes::le8(o_amount));
            lemma_cut(a0, validator@, b0, o_validator@);
            bytes::lemma_array_eq(validator, o_validator);
            bytes::lemma_array_eq(sig, o_sig);
        },
        (
            Transaction::Unstake { validator, amount, nonce, sig },
            Transaction::Unstake { validator: o_validator, amount: o_amount, nonce: o_nonce,
                sig: o_sig },
        ) => {
            let a0 = seq![0x0Du8];
            let b0 = seq![0x0Du8];
            let a1 = a0 + validator@;
            let b1 = b0 + o_validator@;
            let a2 = a1 + bytes::le8(amount);
            let b2 = b1 + bytes::le8(o_amount);
            let a3 = a2 + bytes::le8(nonce);
            let b3 = b2 + bytes::le8(o_nonce);
            let a4 = a3 + sig@;
            let b4 = b3 + o_sig@;
            lemma_cut(a3, sig@, b3, o_sig@);
            lemma_cut(a2, bytes::le8(nonce), b2, bytes::le8(o_nonce));
            lemma_cut(a1, bytes::le8(amount), b1, bytes::le8(o_amount));
            lemma_cut(a0, validator@, b0, o_validator@);
            bytes::lemma_array_eq(validator, o_validator);
            bytes::lemma_array_eq(sig, o_sig);
        },
        (
            Transaction::SlashEvidence { validator, beneficiary, height, block_a, sig_a, block_b,
                sig_b },
            Transaction::SlashEvidence { validator: o_validator, beneficiary: o_beneficiary,
                height: o_height, block_a: o_block_a, sig_a: o_sig_a, block_b: o_block_b,
                sig_b: o_sig_b },
        ) => {
            let a0 = seq![0x0Eu8];
            let b0 = seq![0x0Eu8];
            let a1 = a0 + validator@;
            let b1 = b0 + o_validator@;
            let a2 = a1 + beneficiary@;
            let b2 = b1 + o_beneficiary@;
            let a3 = a2 + bytes::le8(height);
            let b3 = b2 + bytes::le8(o_height);
            let a4 = a3 + block_a@;
            let b4 = b3 + o_block_a@;
            let a5 = a4 + sig_a@;
            let b5 = b4 + o_sig_a@;
            let a6 = a5 + block_b@;
            let b6 = b5 + o_block_b@;
            let a7 = a6 + sig_b@;
            let b7 = b6 + o_sig_b@;
            lemma_cut(a6, sig_b@, b6, o_sig_b@);
            lemma_cut(a5, block_b@, b5, o_block_b@);
            lemma_cut(a4, sig_a@, b4, o_sig_a@);
            lemma_cut(a3, block_a@, b3, o_block_a@);
            lemma_cut(a2, bytes::le8(height), b2, bytes::le8(o_height));
            lemma_cut(a1, beneficiary@, b1, o_beneficiary@);
            lemma_cut(a0, validator@, b0, o_validator@);
            bytes::lemma_array_eq(validator, o_validator);
            bytes::lemma_array_eq(beneficiary, o_beneficiary);
            bytes::lemma_array_eq(block_a, o_block_a);
            bytes::lemma_array_eq(sig_a, o_sig_a);
            bytes::lemma_array_eq(block_b, o_block_b);
            bytes::lemma_array_eq(sig_b, o_sig_b);
        },
        (
            Transaction::AddLiquidity { token, provider, lat_amount, tok_amount, fee, nonce, sig },
            Transaction::AddLiquidity { token: o_token, provider: o_provider,
                lat_amount: o_lat_amount, tok_amount: o_tok_amount, fee: o_fee, nonce: o_nonce,
                sig: o_sig },
        ) => {
            let a0 = seq![0x0Fu8];
            let b0 = seq![0x0Fu8];
            let a1 = a0 + bytes::le4(token);
            let b1 = b0 + bytes::le4(o_token);
            let a2 = a1 + provider@;
            let b2 = b1 + o_provider@;
            let a3 = a2 + bytes::le8(lat_amount);
            let b3 = b2 + bytes::le8(o_lat_amount);
            let a4 = a3 + bytes::le8(tok_amount);
            let b4 = b3 + bytes::le8(o_tok_amount);
            let a5 = a4 + bytes::le8(fee);
            let b5 = b4 + bytes::le8(o_fee);
            let a6 = a5 + bytes::le8(nonce);
            let b6 = b5 + bytes::le8(o_nonce);
            let a7 = a6 + sig@;
            let b7 = b6 + o_sig@;
            lemma_cut(a6, sig@, b6, o_sig@);
            lemma_cut(a5, bytes::le8(nonce), b5, bytes::le8(o_nonce));
            lemma_cut(a4, bytes::le8(fee), b4, bytes::le8(o_fee));
            lemma_cut(a3, bytes::le8(tok_amount), b3, bytes::le8(o_tok_amount));
            lemma_cut(a2, bytes::le8(lat_amount), b2, bytes::le8(o_lat_amount));
            lemma_cut(a1, provider@, b1, o_provider@);
            lemma_cut(a0, bytes::le4(token), b0, bytes::le4(o_token));
            bytes::lemma_array_eq(provider, o_provider);
            bytes::lemma_array_eq(sig, o_sig);
        },
        (
            Transaction::RemoveLiquidity { token, provider, lp_amount, fee, nonce, sig },
            Transaction::RemoveLiquidity { token: o_token, provider: o_provider,
                lp_amount: o_lp_amount, fee: o_fee, nonce: o_nonce, sig: o_sig },
        ) => {
            let a0 = seq![0x10u8];
            let b0 = seq![0x10u8];
            let a1 = a0 + bytes::le4(token);
            let b1 = b0 + bytes::le4(o_token);
            let a2 = a1 + provider@;
            let b2 = b1 + o_provider@;
            let a3 = a2 + bytes::le8(lp_amount);
            let b3 = b2 + bytes::le8(o_lp_amount);
            let a4 = a3 + bytes::le8(fee);
            let b4 = b3 + bytes::le8(o_fee);
            let a5 = a4 + bytes::le8(nonce);
            let b5 = b4 + bytes::le8(o_nonce);
            let a6 = a5 + sig@;
            let b6 = b5 + o_sig@;
            lemma_cut(a5, sig@, b5, o_sig@);
            lemma_cut(a4, bytes::le8(nonce), b4, bytes::le8(o_nonce));
            lemma_cut(a3, bytes::le8(fee), b3, bytes::le8(o_fee));
            lemma_cut(a2, bytes::le8(lp_amount), b2, bytes::le8(o_lp_amount));
            lemma_cut(a1, provider@, b1, o_provider@);
            lemma_cut(a0, bytes::le4(token), b0, bytes::le4(o_token));
            bytes::lemma_array_eq(provider, o_provider);
            bytes::lemma_array_eq(sig, o_sig);
        },
        (
            Transaction::Swap { token, trader, lat_in, amount_in, min_out, fee, nonce, sig },
            Transaction::Swap { token: o_token, trader: o_trader, lat_in: o_lat_in,
                amount_in: o_amount_in, min_out: o_min_out, fee: o_fee, nonce: o_nonce,
                sig: o_sig },
        ) => {
            let a0 = seq![0x11u8];
            let b0 = seq![0x11u8];
            let a1 = a0 + bytes::le4(token);
            let b1 = b0 + bytes::le4(o_token);
            let a2 = a1 + trader@;
            let b2 = b1 + o_trader@;
            let a3 = a2 + flag(lat_in);
            let b3 = b2 + flag(o_lat_in);
            let a4 = a3 + bytes::le8(amount_in);
            let b4 = b3 + bytes::le8(o_amount_in);
            let a5 = a4 + bytes::le8(min_out);
            let b5 = b4 + bytes::le8(o_min_out);
            let a6 = a5 + bytes::le8(fee);
            let b6 = b5 + bytes::le8(o_fee);
            let a7 = a6 + bytes::le8(nonce);
            let b7 = b6 + bytes::le8(o_nonce);
            let a8 = a7 + sig@;
            let b8 = b7 + o_sig@;
            lemma_cut(a7, sig@, b7, o_sig@);
            lemma_cut(a6, bytes::le8(nonce), b6, bytes::le8(o_nonce));
            lemma_cut(a5, bytes::le8(fee), b5, bytes::le8(o_fee));
            lemma_cut(a4, bytes::le8(min_out), b4, bytes::le8(o_min_out));
            lemma_cut(a3, bytes::le8(amount_in), b3, bytes::le8(o_amount_in));
            lemma_cut(a2, flag(lat_in), b2, flag(o_lat_in));
            lemma_cut(a1, trader@, b1, o_trader@);
            lemma_cut(a0, bytes::le4(token), b0, bytes::le4(o_token));
            bytes::lemma_array_eq(trader, o_trader);
            assert(flag(lat_in)[0] == flag(o_lat_in)[0]);
            bytes::lemma_array_eq(sig, o_sig);
        },
        (
            Transaction::HtlcLock { token, from, to, amount, hashlock, expiry, fee, nonce, sig },
            Transaction::HtlcLock { token: o_token, from: o_from, to: o_to, amount: o_amount,
                hashlock: o_hashlock, expiry: o_expiry, fee: o_fee, nonce: o_nonce, sig: o_sig },
        ) => {
            let a0 = seq![0x12u8];
            let b0 = seq![0x12u8];
            let a1 = a0 + bytes::le4(token);
            let b1 = b0 + bytes::le4(o_token);
            let a2 = a1 + from@;
            let b2 = b1 + o_from@;
            let a3 = a2 + to@;
            let b3 = b2 + o_to@;
            let a4 = a3 + bytes::le8(amount);
            let b4 = b3 + bytes::le8(o_amount);
            let a5 = a4 + hashlock@;
            let b5 = b4 + o_hashlock@;
            let a6 = a5 + bytes::le8(expiry);
            let b6 = b5 + bytes::le8(o_expiry);
            let a7 = a6 + bytes::le8(fee);
            let b7 = b6 + bytes::le8(o_fee);
            let a8 = a7 + bytes::le8(nonce);
            let b8 = b7 + bytes::le8(o_nonce);
            let a9 = a8 + sig@;
            let b9 = b8 + o_sig@;
            lemma_cut(a8, sig@, b8, o_sig@);
            lemma_cut(a7, bytes::le8(nonce), b7, bytes::le8(o_nonce));
            lemma_cut(a6, bytes::le8(fee), b6, bytes::le8(o_fee));
            lemma_cut(a5, bytes::le8(expiry), b5, bytes::le8(o_expiry));
            lemma_cut(a4, hashlock@, b4, o_hashlock@);
            lemma_cut(a3, bytes::le8(amount), b3, bytes::le8(o_amount));
            lemma_cut(a2, to@, b2, o_to@);
            lemma_cut(a1, from@, b1, o_from@);
            lemma_cut(a0, bytes::le4(token), b0, bytes::le4(o_token));
            bytes::lemma_array_eq(from, o_from);
            bytes::lemma_array_eq(to, o_to);
            bytes::lemma_array_eq(hashlock, o_hashlock);
            bytes::lemma_array_eq(sig, o_sig);
        },
        (
            Transaction::HtlcClaim { id, preimage },
            Transaction::HtlcClaim { id: o_id, preimage: o_preimage },
        ) => {
            let a0 = seq![0x13u8];
            let b0 = seq![0x13u8];
            let a1 = a0 + id@;
            let b1 = b0 + o_id@;
            let a2 = a1 + preimage@;
            let b2 = b1 + o_preimage@;
            lemma_cut(a1, preimage@, b1, o_preimage@);
            lemma_cut(a0, id@, b0, o_id@);
            bytes::lemma_array_eq(id, o_id);
            bytes::lemma_array_eq(preimage, o_preimage);
        },
        (
            Transaction::HtlcRefund { id },
            Transaction::HtlcRefund { id: o_id },
        ) => {
            let a0 = seq![0x14u8];
            let b0 = seq![0x14u8];
            let a1 = a0 + id@;
            let b1 = b0 + o_id@;
            lemma_cut(a0, id@, b0, o_id@);
            bytes::lemma_array_eq(id, o_id);
        },
        (
            Transaction::CurveTrade { token, trader, is_buy, amount, min_out, fee, nonce, sig },
            Transaction::CurveTrade { token: o_token, trader: o_trader, is_buy: o_is_buy,
                amount: o_amount, min_out: o_min_out, fee: o_fee, nonce: o_nonce, sig: o_sig },
        ) => {
            let a0 = seq![0x15u8];
            let b0 = seq![0x15u8];
            let a1 = a0 + bytes::le4(token);
            let b1 = b0 + bytes::le4(o_token);
            let a2 = a1 + trader@;
            let b2 = b1 + o_trader@;
            let a3 = a2 + flag(is_buy);
            let b3 = b2 + flag(o_is_buy);
            let a4 = a3 + bytes::le8(amount);
            let b4 = b3 + bytes::le8(o_amount);
            let a5 = a4 + bytes::le8(min_out);
            let b5 = b4 + bytes::le8(o_min_out);
            let a6 = a5 + bytes::le8(fee);
            let b6 = b5 + bytes::le8(o_fee);
            let a7 = a6 + bytes::le8(nonce);
            let b7 = b6 + bytes::le8(o_nonce);
            let a8 = a7 + sig@;
            let b8 = b7 + o_sig@;
            lemma_cut(a7, sig@, b7, o_sig@);
            lemma_cut(a6, bytes::le8(nonce), b6, bytes::le8(o_nonce));
            lemma_cut(a5, bytes::le8(fee), b5, bytes::le8(o_fee));
            lemma_cut(a4, bytes::le8(min_out), b4, bytes::le8(o_min_out));
            lemma_cut(a3, bytes::le8(amount), b3, bytes::le8(o_amount));
            lemma_cut(a2, flag(is_buy), b2, flag(o_is_buy));
            lemma_cut(a1, trader@, b1, o_trader@);
            lemma_cut(a0, bytes::le4(token), b0, bytes::le4(o_token));
            bytes::lemma_array_eq(trader, o_trader);
            assert(flag(is_buy)[0] == flag(o_is_buy)[0]);
            bytes::lemma_array_eq(sig, o_sig);
        },
        _ => {},
    }
}

} // verus!
