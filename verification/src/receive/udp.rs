//! Sizing of the socket that receives from the diode link.

use crate::receive::reblock::WINDOW_WIDTH;
use vstd::prelude::*;

verus! {

/// Size in bytes asked for the receive buffer of the socket: room for the
/// packets of every block of the window. Nothing where the size does not
/// fit the socket option.
pub fn receive_buffer_size(nb_packets: u32, mtu: u16) -> (size: Option<i32>)
    ensures
        size is Some <==> 128 * nb_packets * mtu <= i32::MAX,
        size is Some ==> size->0 == 128 * nb_packets * mtu,
{
    assert(nb_packets as int * mtu as int <= 0xffff_ffff * 0xffff) by (nonlinear_arith)
        requires
            0 <= nb_packets <= 0xffff_ffff,
            0 <= mtu <= 0xffff,
    ;
    let per_block: u64 = nb_packets as u64 * mtu as u64;
    let wanted: u64 = WINDOW_WIDTH as u64 * per_block;
    assert(wanted == 128 * nb_packets * mtu) by (nonlinear_arith)
        requires
            wanted == 128 * per_block,
            per_block == nb_packets * mtu,
    ;
    if wanted <= i32::MAX as u64 {
        Some(wanted as i32)
    } else {
        None
    }
}

/// Whether the buffer that the socket got is smaller than the one asked for.
pub fn buffer_is_short(granted: u32, wanted: i32) -> (short: bool)
    ensures
        short == (granted < wanted),
{
    (granted as i64) < (wanted as i64)
}

} // verus!
