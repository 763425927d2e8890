//! The calibration metadata that the probe reports to the PPK2 host
//! application, and its split into USB packets.

use vstd::prelude::*;
use vstd::string::StringSliceAdditionalSpecFns;

verus! {

/// The metadata text, one `key: value` pair per line, closed by `END`.
pub const PPK2_META_DATA: &'static str = "Calibrated: 0\nR0: 0.535\nR1: 1.0\nR2: 1.0\nR3: 1.0\nR4: 1.0\nGS0: 0.00215\nGS1: 0.0\nGS2: 0.0\nGS3: 0.0\nGS4: 0.0\nGI0: 0.0215\nGI1: 1.0\nGI2: 1.0\nGI3: 1.0\nGI4: 1.0\nO0: 0.0\nO1: 0.0\nO2: 0.0\nO3: 0.0\nO4: 0.0\nVDD: 3300\nHW: 2663\nmode: 1\nS0: 0.0\nS1: 0.0\nS2: 0.0\nS3: 0.0\nS4: 0.0\nI0: -0.00023\nI1: 0.0\nI2: 0.0\nI3: 0.0\nI4: 0.0\nUG0: 1.0\nUG1: 1.0\nUG2: 1.0\nUG3: 1.0\nUG4: 1.0\nIA: 56\nEND\n";

/// Size of a USB packet of the metadata.
pub const METADATA_PACKET_SIZE: usize = 64;

/// The packets joined end to end.
pub open spec fn joined(packets: Seq<Vec<u8>>) -> Seq<u8> {
    packets.map_values(|p: Vec<u8>| p@).flatten()
}

/// Packets of exactly `size` bytes but the last, which holds the rest.
pub open spec fn well_split(packets: Seq<Vec<u8>>, size: nat) -> bool {
    forall|i: int|
        0 <= i < packets.len() ==> {
            &&& 1 <= #[trigger] packets[i]@.len() <= size
            &&& i + 1 < packets.len() ==> packets[i]@.len() == size
        }
}

/// Splits `data` into consecutive packets of `size` bytes, the last one
/// shorter when `size` does not divide the length.
pub fn split_packets(data: &[u8], size: usize) -> (r: Vec<Vec<u8>>)
    requires
        size > 0,
    ensures
        joined(r@) == data@,
        well_split(r@, size as nat),
{
    let mut packets: Vec<Vec<u8>> = Vec::new();
    let mut pos: usize = 0;
    while pos < data.len()
        invariant
            size > 0,
            pos <= data@.len(),
            joined(packets@) == data@.subrange(0, pos as int),
            well_split(packets@, size as nat),
            pos < data@.len() && packets@.len() > 0 ==> packets@.last()@.len() == size,
        decreases data@.len() - pos,
    {
        let end = if data.len() - pos <= size { data.len() } else { pos + size };
        let mut packet: Vec<u8> = Vec::new();
        let mut k = pos;
        while k < end
            invariant
                pos <= k <= end <= data@.len(),
                packet@ == data@.subrange(pos as int, k as int),
            decreases end - k,
        {
            packet.push(data[k]);
            k += 1;
        }
        let ghost before = packets@;
        packets.push(packet);
        proof {
            assert(packets@ =~= before.push(packet));
            assert(packets@.map_values(|p: Vec<u8>| p@) =~= before.map_values(|p: Vec<u8>| p@).push(
                packet@,
            ));
            before.map_values(|p: Vec<u8>| p@).lemma_flatten_push(packet@);
            assert(data@.subrange(0, end as int) =~= data@.subrange(0, pos as int)
                + data@.subrange(pos as int, end as int));
        }
        pos = end;
    }
    proof {
        assert(data@.subrange(0, pos as int) =~= data@);
    }
    packets
}

/// The metadata text in USB packets of 64 bytes.
pub fn metadata_packets() -> (r: Vec<Vec<u8>>)
    ensures
        joined(r@) == PPK2_META_DATA.spec_bytes(),
        well_split(r@, METADATA_PACKET_SIZE as nat),
{
    split_packets(PPK2_META_DATA.as_bytes(), METADATA_PACKET_SIZE)
}

} // verus!
