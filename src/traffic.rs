//! Observation of the game: which captured UDP datagrams belong to its
//! traffic and with which remote endpoint, and how a measured latency is shown.

use vstd::prelude::*;

verus! {

/// The lowest port of the game's UDP range.
pub const GAME_PORT_LOW: u16 = 7777;

/// The highest port of the game's UDP range.
pub const GAME_PORT_HIGH: u16 = 7820;

/// The port is in the game's UDP range.
pub open spec fn is_game_port(p: u16) -> bool {
    GAME_PORT_LOW <= p <= GAME_PORT_HIGH
}

/// The remote endpoint of a datagram that belongs to game traffic: its source
/// when the source port is a game port, else its destination when that port
/// is one; `None` when neither is.
pub fn game_traffic_endpoint(src_ip: u32, dst_ip: u32, src_port: u16, dst_port: u16) -> (r:
    Option<(u32, u16)>)
    ensures
        is_game_port(src_port) ==> r == Some((src_ip, src_port)),
        !is_game_port(src_port) && is_game_port(dst_port) ==> r == Some((dst_ip, dst_port)),
        !is_game_port(src_port) && !is_game_port(dst_port) ==> r is None,
{
    if GAME_PORT_LOW <= src_port && src_port <= GAME_PORT_HIGH {
        Some((src_ip, src_port))
    } else if GAME_PORT_LOW <= dst_port && dst_port <= GAME_PORT_HIGH {
        Some((dst_ip, dst_port))
    } else {
        None
    }
}

/// The colour that shows a measured latency: gray for no answer (negative),
/// then green, orange, crimson and purple from 80, 130 and 250 ms on.
pub open spec fn latency_color(ms: i64) -> Seq<char> {
    if ms < 0 {
        "gray"@
    } else if ms < 80 {
        "green"@
    } else if ms < 130 {
        "orange"@
    } else if ms < 250 {
        "crimson"@
    } else {
        "purple"@
    }
}

/// The colour that shows a measured latency.
pub fn get_color_for_latency(ms: i64) -> (r: &'static str)
    ensures
        r@ == latency_color(ms),
{
    if ms < 0 {
        return "gray";
    }
    if ms < 80 {
        return "green";
    }
    if ms < 130 {
        return "orange";
    }
    if ms < 250 {
        return "crimson";
    }
    "purple"
}

} // verus!
