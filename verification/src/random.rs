//! Random values, drawn from a generator of the `rand` crate.

use crate::bytes::{be64_value, read_be64};
use crate::config::{parse_addr, take_addr, NetAddr};
use rand::rngs::StdRng;
use rand::Rng;
use vstd::prelude::*;

verus! {

/// The standard generator of `rand`. Nothing is known of its state.
#[verifier::external_type_specification]
#[verifier::external_body]
pub struct ExStdRng(rand::rngs::StdRng);

/// Draws thirty-two bytes from `rng`, by `Rng::gen` of `rand` for an array of
/// thirty-two bytes. Of the bytes nothing is claimed but that there are
/// thirty-two: what they are depends on the state of the generator.
#[verifier::external_body]
fn draw_bytes(rng: &mut StdRng) -> (bytes: Vec<u8>)
    ensures
        bytes@.len() == 32,
{
    rng.gen::<[u8; 32]>().to_vec()
}

/// The number that a draw stands for: the one that its first eight bytes
/// spell, most significant first. A draw of fewer bytes stands for zero.
pub open spec fn number_in(draw: Seq<u8>) -> u64 {
    if draw.len() >= 8 {
        be64_value(draw.subrange(0, 8)) as u64
    } else {
        0
    }
}

/// The address that a draw stands for: its first sixteen bytes are the
/// internet address, the two bytes behind them the port, each most
/// significant byte first. A draw of fewer bytes stands for the address zero
/// with the port zero.
pub open spec fn addr_in(draw: Seq<u8>) -> NetAddr {
    match parse_addr(draw) {
        Some((addr, used)) => addr,
        None => NetAddr { ip: 0, port: 0 },
    }
}

/// The number that `draw` stands for.
pub fn number_of_draw(draw: &[u8]) -> (number: u64)
    ensures
        number == number_in(draw@),
{
    match read_be64(draw, 0) {
        Some(number) => number,
        None => 0,
    }
}

/// The address that `draw` stands for.
pub fn addr_of_draw(draw: &[u8]) -> (addr: NetAddr)
    ensures
        addr == addr_in(draw@),
{
    assert(draw@.skip(0) =~= draw@);
    match take_addr(draw, 0) {
        Some((addr, _)) => addr,
        None => NetAddr { ip: 0, port: 0 },
    }
}

/// A random key of thirty-two bytes.
pub fn draw_key(rng: &mut StdRng) -> (key: Vec<u8>)
    ensures
        key@.len() == 32,
{
    draw_bytes(rng)
}

/// A random number of 64 bits: the number that one draw of thirty-two bytes
/// stands for.
pub fn draw_u64(rng: &mut StdRng) -> (number: u64)
    ensures
        exists|draw: Seq<u8>| draw.len() == 32 && number == #[trigger] number_in(draw),
{
    let draw = draw_bytes(rng);
    number_of_draw(draw.as_slice())
}

/// A random address: the address that one draw of thirty-two bytes stands
/// for.
pub fn make_addr(rng: &mut StdRng) -> (addr: NetAddr)
    ensures
        exists|draw: Seq<u8>| draw.len() == 32 && addr == #[trigger] addr_in(draw),
{
    let draw = draw_bytes(rng);
    addr_of_draw(draw.as_slice())
}

} // verus!
