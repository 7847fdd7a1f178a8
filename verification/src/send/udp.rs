//! Sizing of the socket that sends to the diode link.

use vstd::prelude::*;

verus! {

/// Size in bytes asked for the send buffer of the socket: room for the
/// packets of one block. Nothing where the size does not fit the socket
/// option.
pub fn send_buffer_size(nb_packets: u32, mtu: u16) -> (size: Option<i32>)
    ensures
        size is Some <==> nb_packets * mtu <= i32::MAX,
        size is Some ==> size->0 == nb_packets * mtu,
{
    assert(nb_packets as int * mtu as int <= 0xffff_ffff * 0xffff) by (nonlinear_arith)
        requires
            0 <= nb_packets <= 0xffff_ffff,
            0 <= mtu <= 0xffff,
    ;
    let wanted: u64 = nb_packets as u64 * mtu as u64;
    if wanted <= i32::MAX as u64 {
        Some(wanted as i32)
    } else {
        None
    }
}

} // verus!
