//! The vendor USB interface that reboots the chip into its ROM bootloader
//! (BOOTSEL) on request.

use vstd::prelude::*;

verus! {

/// The request code that asks for a reboot into the bootloader.
pub const RESET_REQUEST: u8 = 0x01;

/// Type of a USB control request.
#[derive(Clone, Copy, PartialEq, Eq, Debug, Structural)]
pub enum RequestType {
    Standard,
    Class,
    Vendor,
    Reserved,
}

/// Recipient of a USB control request.
#[derive(Clone, Copy, PartialEq, Eq, Debug, Structural)]
pub enum Recipient {
    Device,
    Interface,
    Endpoint,
    Other,
    Reserved,
}

/// The fields of a USB control OUT request that the interface looks at.
#[derive(Clone, Copy, PartialEq, Eq, Debug, Structural)]
pub struct ControlRequest {
    pub request_type: RequestType,
    pub recipient: Recipient,
    pub request: u8,
    pub index: u16,
}

/// Answer to a control OUT request.
#[derive(Clone, Copy, PartialEq, Eq, Debug, Structural)]
pub enum OutResponse {
    Accepted,
    Rejected,
}

/// The reset interface: its interface number and the index of its name
/// string.
pub struct KiwiUsbReset {
    iface: u8,
    desc: u8,
}

impl KiwiUsbReset {
    /// The interface number.
    pub closed spec fn iface_num(&self) -> u8 {
        self.iface
    }

    /// The index of the interface's name string.
    pub closed spec fn desc_index(&self) -> u8 {
        self.desc
    }

    /// The interface with the number and string index that the USB builder
    /// allocated for it.
    pub fn new(iface: u8, desc: u8) -> (r: Self)
        ensures
            r.iface_num() == iface,
            r.desc_index() == desc,
    {
        KiwiUsbReset { iface, desc }
    }

    /// The interface's name string, when `index` is its string index.
    pub fn get_string(&self, index: u8, lang_id: u16) -> (r: Option<&'static str>)
        ensures
            r is Some <==> index == self.desc_index(),
            r matches Some(s) ==> s@ == "rp2xxx-reset"@,
    {
        if index == self.desc {
            Some("rp2xxx-reset")
        } else {
            None
        }
    }

    /// Whether `req` is the class request, addressed to this interface, that
    /// asks for a reboot into the bootloader. `Some(Accepted)` means the
    /// device is to reboot; other requests are not handled here.
    pub fn control_out(&self, req: &ControlRequest) -> (r: Option<OutResponse>)
        ensures
            r == if req.request_type == RequestType::Class && req.recipient == Recipient::Interface
                && req.index == self.iface_num() as u16 && req.request == RESET_REQUEST {
                Some(OutResponse::Accepted)
            } else {
                None::<OutResponse>
            },
    {
        if req.request_type == RequestType::Class && req.recipient == Recipient::Interface
            && req.index == self.iface as u16 && req.request == RESET_REQUEST {
            Some(OutResponse::Accepted)
        } else {
            None
        }
    }
}

} // verus!
