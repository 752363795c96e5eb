//! Static printer model metadata, discovered devices, and status decoding.
use vstd::prelude::*;
use vstd::string::*;
use crate::text::{hex4, push_hex4};

verus! {

pub const EPSON_VENDOR_ID: u16 = 0x04b8;

/// Line width used when the printer model is unknown.
pub const DEFAULT_MAX_CHARS: u8 = 42;

/// Static metadata of a supported printer model.
#[derive(Debug, Clone, PartialEq, Eq)]
pub struct PrinterModel {
    pub name: &'static str,
    pub product_ids: Vec<u16>,
    pub max_chars_per_line: u8,
    pub supports_partial_cut: bool,
}

/// A printer seen on the bus.
#[derive(Debug, Clone)]
pub struct DiscoveredPrinter {
    pub vendor_id: u16,
    pub product_id: u16,
    pub model_name: String,
    pub serial: Option<String>,
}

pub open spec fn is_tm_t88vi(product_id: u16) -> bool {
    product_id == 0x0e15 || product_id == 0x0e28
}

pub open spec fn is_tm_m50(product_id: u16) -> bool {
    product_id == 0x0e36
}

pub fn is_epson_device(vendor_id: u16) -> (r: bool)
    ensures
        r == (vendor_id == EPSON_VENDOR_ID),
{
    vendor_id == EPSON_VENDOR_ID
}

/// The known model with this vendor and product id: TM-T88VI or TM-M50.
pub fn find_known_model(vendor_id: u16, product_id: u16) -> (r: Option<PrinterModel>)
    ensures
        r is Some <==> vendor_id == EPSON_VENDOR_ID && (is_tm_t88vi(product_id) || is_tm_m50(
            product_id,
        )),
        r matches Some(m) ==> m.max_chars_per_line == 48 && m.supports_partial_cut
            && m.product_ids@.contains(product_id) && (is_tm_t88vi(product_id) ==> m.name@
            == "TM-T88VI"@) && (is_tm_m50(product_id) ==> m.name@ == "TM-M50"@),
{
    if vendor_id != EPSON_VENDOR_ID {
        return None;
    }
    if product_id == 0x0e15 || product_id == 0x0e28 {
        let ids: Vec<u16> = vec![0x0e15, 0x0e28];
        assert(product_id == 0x0e15 ==> ids@[0] == product_id);
        assert(product_id == 0x0e28 ==> ids@[1] == product_id);
        Some(
            PrinterModel {
                name: "TM-T88VI",
                product_ids: ids,
                max_chars_per_line: 48,
                supports_partial_cut: true,
            },
        )
    } else if product_id == 0x0e36 {
        let ids: Vec<u16> = vec![0x0e36];
        assert(ids@[0] == product_id);
        Some(
            PrinterModel {
                name: "TM-M50",
                product_ids: ids,
                max_chars_per_line: 48,
                supports_partial_cut: true,
            },
        )
    } else {
        None
    }
}

/// The wrap width for a printer: its model's line width, 42 if unknown.
pub fn max_chars_for(vendor_id: u16, product_id: u16) -> (r: u8)
    ensures
        r == if vendor_id == EPSON_VENDOR_ID && (is_tm_t88vi(product_id) || is_tm_m50(
            product_id,
        )) {
            48u8
        } else {
            DEFAULT_MAX_CHARS
        },
{
    match find_known_model(vendor_id, product_id) {
        Some(m) => m.max_chars_per_line,
        None => DEFAULT_MAX_CHARS,
    }
}

/// Printer-reported status flags.
#[derive(Debug, Clone)]
pub struct PrinterStatus {
    pub online: bool,
    pub cover_open: bool,
    pub paper_near_end: bool,
    pub paper_out: bool,
    pub error: bool,
}

impl Default for PrinterStatus {
    fn default() -> (r: PrinterStatus)
        ensures
            !r.online && !r.cover_open && !r.paper_near_end && !r.paper_out && !r.error,
    {
        PrinterStatus {
            online: false,
            cover_open: false,
            paper_near_end: false,
            paper_out: false,
            error: false,
        }
    }
}

/// The summary line of a status, most serious condition first.
pub open spec fn summary_spec(s: PrinterStatus) -> Seq<char> {
    if !s.online {
        "Offline"@
    } else if s.paper_out {
        "Paper Out"@
    } else if s.cover_open {
        "Cover Open"@
    } else if s.error {
        "Error"@
    } else if s.paper_near_end {
        "Paper Low"@
    } else {
        "Ready"@
    }
}

impl PrinterStatus {
    /// Decodes the printer, offline-cause and paper-sensor status bytes.
    pub fn from_status_bytes(printer_byte: u8, offline_byte: u8, paper_byte: u8) -> (r: Self)
        ensures
            r.online == (printer_byte & 0x08 == 0),
            r.cover_open == (offline_byte & 0x04 != 0),
            r.error == (offline_byte & 0x20 != 0),
            r.paper_near_end == (paper_byte & 0x0c != 0),
            r.paper_out == (paper_byte & 0x60 != 0),
    {
        PrinterStatus {
            online: (printer_byte & 0x08) == 0,
            cover_open: (offline_byte & 0x04) != 0,
            error: (offline_byte & 0x20) != 0,
            paper_near_end: (paper_byte & 0x0c) != 0,
            paper_out: (paper_byte & 0x60) != 0,
        }
    }

    pub fn summary(&self) -> (r: &'static str)
        ensures
            r@ == summary_spec(*self),
    {
        if !self.online {
            return "Offline";
        }
        if self.paper_out {
            return "Paper Out";
        }
        if self.cover_open {
            return "Cover Open";
        }
        if self.error {
            return "Error";
        }
        if self.paper_near_end {
            return "Paper Low";
        }
        "Ready"
    }
}


/// The name a discovered printer is listed under: its known model's name, else
/// the product name the device reports, else "Epson" and the product id in hex.
pub open spec fn listed_name(product_id: u16, product_string: Option<String>) -> Seq<char> {
    if is_tm_t88vi(product_id) {
        "TM-T88VI"@
    } else if is_tm_m50(product_id) {
        "TM-M50"@
    } else {
        match product_string {
            Some(s) => s@,
            None => "Epson "@ + hex4(product_id),
        }
    }
}

/// The entry for a device found on the bus, if it is an Epson device.
pub fn discovered_printer(
    vendor_id: u16,
    product_id: u16,
    product_string: Option<String>,
    serial: Option<String>,
) -> (r: Option<DiscoveredPrinter>)
    ensures
        r is Some <==> vendor_id == EPSON_VENDOR_ID,
        r matches Some(p) ==> p.vendor_id == vendor_id && p.product_id == product_id && p.serial
            == serial && p.model_name@ == listed_name(product_id, product_string),
{
    if !is_epson_device(vendor_id) {
        return None;
    }
    let model_name = match find_known_model(vendor_id, product_id) {
        Some(m) => String::from_str(m.name),
        None => match product_string {
            Some(s) => s,
            None => {
                let mut n = String::from_str("Epson ");
                push_hex4(&mut n, product_id);
                n
            },
        },
    };
    Some(DiscoveredPrinter { vendor_id, product_id, model_name, serial })
}
} // verus!
