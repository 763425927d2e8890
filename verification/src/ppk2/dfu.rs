//! The DFU interface that makes the PPK2 host application accept the probe:
//! its functional descriptor and the answer to the version request.

use vstd::prelude::*;
use vstd::string::StringSliceAdditionalSpecFns;

verus! {

/// Interface class: application specific.
pub const USB_CLASS_APPN_SPEC: u8 = 0xFF;
/// Interface subclass: device firmware upgrade.
pub const APPN_SPEC_SUBCLASS_DFU: u8 = 0x01;
/// Interface protocol: DFU mode.
pub const DFU_PROTOCOL_DFU: u8 = 0x01;
/// Descriptor type of the DFU functional descriptor.
pub const DESC_DFU_FUNCTIONAL: u8 = 0x21;

/// The version string that the PPK2 firmware reports.
pub const DFU_VERSION_STR_REPLY: &'static str = "power_profiler_kit_2 1.2.4-db16a94";

/// The type of a USB control request.
#[derive(Clone, Copy, Debug, PartialEq, Eq, Structural)]
pub enum RequestType {
    Standard,
    Class,
    Vendor,
    Reserved,
}

/// The recipient of a USB control request.
#[derive(Clone, Copy, Debug, PartialEq, Eq, Structural)]
pub enum Recipient {
    Device,
    Interface,
    Endpoint,
    Other,
    Reserved,
}

/// The parts of a USB control request that the DFU handler looks at.
#[derive(Clone, Copy, Debug, PartialEq, Eq, Structural)]
pub struct ControlRequest {
    pub request_type: RequestType,
    pub recipient: Recipient,
    pub index: u16,
}

/// Whether a request is the class request to the device, index 0, that the
/// DFU handler answers.
pub open spec fn is_dfu_version_request(req: ControlRequest) -> bool {
    &&& req.request_type == RequestType::Class
    &&& req.recipient == Recipient::Device
    &&& req.index == 0
}

/// The body of the DFU functional descriptor (DFU 1.1) for interface
/// `comm_if`.
pub fn dfu_functional_descriptor(comm_if: u8) -> (r: [u8; 7])
    ensures
        r@ == seq![9u8, comm_if, comm_if, 0u8, 0u8, 0x10u8, 0x01u8],
{
    [9, comm_if, comm_if, 0, 0, 0x10, 0x01]
}

/// Answers a control IN request: the version request gets the version
/// string, written to the front of `buf`, and its length; every other
/// request is declined.
pub fn dfu_control_in(req: ControlRequest, buf: &mut [u8]) -> (r: Option<usize>)
    requires
        is_dfu_version_request(req) ==> old(buf)@.len() >= DFU_VERSION_STR_REPLY.spec_bytes().len(),
    ensures
        r is Some <==> is_dfu_version_request(req),
        final(buf)@.len() == old(buf)@.len(),
        r is None ==> final(buf)@ == old(buf)@,
        r matches Some(n) ==> {
            &&& n == DFU_VERSION_STR_REPLY.spec_bytes().len()
            &&& final(buf)@.subrange(0, n as int) == DFU_VERSION_STR_REPLY.spec_bytes()
            &&& final(buf)@.subrange(n as int, old(buf)@.len() as int)
                == old(buf)@.subrange(n as int, old(buf)@.len() as int)
        },
{
    let wanted = match (req.request_type, req.recipient) {
        (RequestType::Class, Recipient::Device) => req.index == 0,
        _ => false,
    };
    if !wanted {
        return None;
    }
    let reply = DFU_VERSION_STR_REPLY.as_bytes();
    let mut k: usize = 0;
    while k < reply.len()
        invariant
            k <= reply@.len(),
            reply@ == DFU_VERSION_STR_REPLY.spec_bytes(),
            reply@.len() <= buf@.len(),
            buf@.len() == old(buf)@.len(),
            forall|j: int| 0 <= j < k ==> buf@[j] == reply@[j],
            forall|j: int| k <= j < buf@.len() ==> buf@[j] == old(buf)@[j],
        decreases reply@.len() - k,
    {
        buf[k] = reply[k];
        k += 1;
    }
    assert(buf@.subrange(0, k as int) =~= reply@);
    assert(buf@.subrange(k as int, buf@.len() as int) =~= old(buf)@.subrange(k as int, old(buf)@.len() as int));
    Some(k)
}

} // verus!
