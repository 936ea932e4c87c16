//! The names of the command line's commands, of the web wallet's routes, of the
//! directions in its list of what happened, and of the networks.

use vstd::prelude::*;

use crate::address::{self, Network};
use crate::chain_index::{self, Direction};
use crate::cli;
use crate::cli::Command;
use crate::web;
use crate::web::Route;

verus! {

/// A command's name on the command line. Help has no name of its own.
pub open spec fn command_name(c: Command) -> Seq<char> {
    match c {
        Command::New => "new"@,
        Command::Address => "address"@,
        Command::Balance => "balance"@,
        Command::Register => "register"@,
        Command::Send => "send"@,
        Command::AnonSend => "anon-send"@,
        Command::PublicSend => "public-send"@,
        Command::Shield => "shield"@,
        Command::ShieldStealth => "shield-stealth"@,
        Command::Unshield => "unshield"@,
        Command::ScanStealth => "scan-stealth"@,
        Command::Rollover => "rollover"@,
        Command::Stake => "stake"@,
        Command::Unstake => "unstake"@,
        Command::Staking => "staking"@,
        Command::CreateToken => "create-token"@,
        Command::Market => "market"@,
        Command::CurveBuy => "curve-buy"@,
        Command::CurveSell => "curve-sell"@,
        Command::Swap => "swap"@,
        Command::AddLiquidity => "add-liquidity"@,
        Command::RemoveLiquidity => "remove-liquidity"@,
        Command::HtlcLock => "htlc-lock"@,
        Command::HtlcClaim => "htlc-claim"@,
        Command::HtlcRefund => "htlc-refund"@,
        Command::DeployContract => "deploy-contract"@,
        Command::CallContract => "call-contract"@,
        Command::Help => Seq::empty(),
    }
}

/// A route's path. There is none for what is not found.
pub open spec fn route_path(r: Route) -> Seq<char> {
    match r {
        Route::Page => "/"@,
        Route::New => "/api/new"@,
        Route::Address => "/api/address"@,
        Route::Balance => "/api/balance"@,
        Route::Register => "/api/register"@,
        Route::Rollover => "/api/rollover"@,
        Route::Send => "/api/send"@,
        Route::PublicSend => "/api/public-send"@,
        Route::Shield => "/api/shield"@,
        Route::Unshield => "/api/unshield"@,
        Route::Faucet => "/api/faucet"@,
        Route::Market => "/api/market"@,
        Route::Activity => "/api/activity"@,
        Route::Swap => "/api/swap"@,
        Route::DexPool => "/api/dex/pool"@,
        Route::DexAdd => "/api/dex/add"@,
        Route::DexRemove => "/api/dex/remove"@,
        Route::DexSwap => "/api/dex/swap"@,
        Route::BridgeQuote => "/api/bridge/quote"@,
        Route::BridgeLock => "/api/bridge/lock"@,
        Route::BridgeClaim => "/api/bridge/claim"@,
        Route::BridgeRefund => "/api/bridge/refund"@,
        Route::BridgeList => "/api/bridge/list"@,
        Route::NotFound => Seq::empty(),
    }
}

/// Every command is reached by its name and by no other; whatever names none asks for
/// help.
pub proof fn law_commands_have_their_names(c: Command, s: Seq<char>)
    ensures
        !(c is Help) ==> cli::named(command_name(c)) == c,
        !(cli::named(s) is Help) ==> s == command_name(cli::named(s)),
{
    reveal_strlit("new");
    reveal_strlit("address");
    reveal_strlit("balance");
    reveal_strlit("register");
    reveal_strlit("send");
    reveal_strlit("anon-send");
    reveal_strlit("public-send");
    reveal_strlit("shield");
    reveal_strlit("shield-stealth");
    reveal_strlit("unshield");
    reveal_strlit("scan-stealth");
    reveal_strlit("rollover");
    reveal_strlit("stake");
    reveal_strlit("unstake");
    reveal_strlit("staking");
    reveal_strlit("create-token");
    reveal_strlit("market");
    reveal_strlit("curve-buy");
    reveal_strlit("curve-sell");
    reveal_strlit("swap");
    reveal_strlit("add-liquidity");
    reveal_strlit("remove-liquidity");
    reveal_strlit("htlc-lock");
    reveal_strlit("htlc-claim");
    reveal_strlit("htlc-refund");
    reveal_strlit("deploy-contract");
    reveal_strlit("call-contract");
    assert("new"@.len() == 3);
    assert("address"@.len() == 7);
    assert("balance"@.len() == 7);
    assert("register"@.len() == 8);
    assert("send"@.len() == 4);
    assert("anon-send"@.len() == 9);
    assert("public-send"@.len() == 11);
    assert("shield"@.len() == 6);
    assert("shield-stealth"@.len() == 14);
    assert("unshield"@.len() == 8);
    assert("scan-stealth"@.len() == 12);
    assert("rollover"@.len() == 8);
    assert("stake"@.len() == 5);
    assert("unstake"@.len() == 7);
    assert("staking"@.len() == 7);
    assert("create-token"@.len() == 12);
    assert("market"@.len() == 6);
    assert("curve-buy"@.len() == 9);
    assert("curve-sell"@.len() == 10);
    assert("swap"@.len() == 4);
    assert("add-liquidity"@.len() == 13);
    assert("remove-liquidity"@.len() == 16);
    assert("htlc-lock"@.len() == 9);
    assert("htlc-claim"@.len() == 10);
    assert("htlc-refund"@.len() == 11);
    assert("deploy-contract"@.len() == 15);
    assert("call-contract"@.len() == 13);
    assert("send"@[1] == 'e');
    assert("swap"@[1] == 'w');
    assert("shield"@[0] == 's');
    assert("market"@[0] == 'm');
    assert("address"@[0] == 'a');
    assert("balance"@[0] == 'b');
    assert("unstake"@[0] == 'u');
    assert("staking"@[0] == 's');
    assert("register"@[1] == 'e');
    assert("unshield"@[1] == 'n');
    assert("rollover"@[1] == 'o');
    assert("anon-send"@[0] == 'a');
    assert("curve-buy"@[0] == 'c');
    assert("htlc-lock"@[0] == 'h');
    assert("curve-sell"@[0] == 'c');
    assert("htlc-claim"@[0] == 'h');
    assert("public-send"@[0] == 'p');
    assert("htlc-refund"@[0] == 'h');
    assert("scan-stealth"@[0] == 's');
    assert("create-token"@[0] == 'c');
    assert("add-liquidity"@[0] == 'a');
    assert("call-contract"@[0] == 'c');
}

/// Every route is reached by its path and by no other; whatever is no path is not found.
pub proof fn law_routes_have_their_paths(r: Route, s: Seq<char>)
    ensures
        !(r is NotFound) ==> web::routed(route_path(r)) == r,
        !(web::routed(s) is NotFound) ==> s == route_path(web::routed(s)),
{
    reveal_strlit("/");
    reveal_strlit("/api/new");
    reveal_strlit("/api/address");
    reveal_strlit("/api/balance");
    reveal_strlit("/api/register");
    reveal_strlit("/api/rollover");
    reveal_strlit("/api/send");
    reveal_strlit("/api/public-send");
    reveal_strlit("/api/shield");
    reveal_strlit("/api/unshield");
    reveal_strlit("/api/faucet");
    reveal_strlit("/api/market");
    reveal_strlit("/api/activity");
    reveal_strlit("/api/swap");
    reveal_strlit("/api/dex/pool");
    reveal_strlit("/api/dex/add");
    reveal_strlit("/api/dex/remove");
    reveal_strlit("/api/dex/swap");
    reveal_strlit("/api/bridge/quote");
    reveal_strlit("/api/bridge/lock");
    reveal_strlit("/api/bridge/claim");
    reveal_strlit("/api/bridge/refund");
    reveal_strlit("/api/bridge/list");
    assert("/"@.len() == 1);
    assert("/api/new"@.len() == 8);
    assert("/api/address"@.len() == 12);
    assert("/api/balance"@.len() == 12);
    assert("/api/register"@.len() == 13);
    assert("/api/rollover"@.len() == 13);
    assert("/api/send"@.len() == 9);
    assert("/api/public-send"@.len() == 16);
    assert("/api/shield"@.len() == 11);
    assert("/api/unshield"@.len() == 13);
    assert("/api/faucet"@.len() == 11);
    assert("/api/market"@.len() == 11);
    assert("/api/activity"@.len() == 13);
    assert("/api/swap"@.len() == 9);
    assert("/api/dex/pool"@.len() == 13);
    assert("/api/dex/add"@.len() == 12);
    assert("/api/dex/remove"@.len() == 15);
    assert("/api/dex/swap"@.len() == 13);
    assert("/api/bridge/quote"@.len() == 17);
    assert("/api/bridge/lock"@.len() == 16);
    assert("/api/bridge/claim"@.len() == 17);
    assert("/api/bridge/refund"@.len() == 18);
    assert("/api/bridge/list"@.len() == 16);
    assert("/api/send"@[6] == 'e');
    assert("/api/swap"@[6] == 'w');
    assert("/api/shield"@[5] == 's');
    assert("/api/faucet"@[5] == 'f');
    assert("/api/market"@[5] == 'm');
    assert("/api/address"@[5] == 'a');
    assert("/api/balance"@[5] == 'b');
    assert("/api/dex/add"@[5] == 'd');
    assert("/api/register"@[10] == 't');
    assert("/api/rollover"@[10] == 'v');
    assert("/api/unshield"@[10] == 'e');
    assert("/api/activity"@[10] == 'i');
    assert("/api/dex/pool"@[10] == 'o');
    assert("/api/dex/swap"@[10] == 'w');
    assert("/api/public-send"@[13] == 'e');
    assert("/api/bridge/lock"@[13] == 'o');
    assert("/api/bridge/list"@[13] == 'i');
    assert("/api/bridge/quote"@[12] == 'q');
    assert("/api/bridge/claim"@[12] == 'c');
}

/// What came in is shown as `in`, what went out as `out`, and what stayed with the
/// account as `self`.
pub proof fn law_directions_have_their_names(d: Direction)
    ensures
        chain_index::direction_text(d) == "in"@ <==> d is Incoming,
        chain_index::direction_text(d) == "out"@ <==> d is Outgoing,
        chain_index::direction_text(d) == "self"@ <==> d is Own,
{
    reveal_strlit("in");
    reveal_strlit("out");
    reveal_strlit("self");
    assert("in"@.len() == 2);
    assert("out"@.len() == 3);
    assert("self"@.len() == 4);
}

/// An address of the main network begins with `lat`, one of the test network with
/// `latt`, and each is read as one of its own network.
pub proof fn law_networks_have_their_prefixes(n: Network, s: Seq<char>)
    ensures
        n.prefix() == "lat"@ <==> n is Mainnet,
        n.prefix() == "latt"@ <==> n is Testnet,
        address::network_of(n.prefix()) == Some(n),
        address::network_of(s) is None <==> s != "lat"@ && s != "latt"@,
{
    reveal_strlit("lat");
    reveal_strlit("latt");
    assert("lat"@.len() == 3);
    assert("latt"@.len() == 4);
}

} // verus!
