//! Identifier and category types for hardware.

use vstd::prelude::*;
use vstd::string::StrSliceExecFns;
use core::num::ParseIntError;
use core::ops::{Range, RangeInclusive};
use crate::error::Error;

verus! {

/// Category of a hardware setup.
#[derive(Clone, Copy, Debug, PartialEq, Eq, Structural, PartialOrd, Ord, Hash)]
pub enum HardwareKind {
    Graphics,
    Ethernet,
    Wireless,
    Audio,
}



impl Default for HardwareKind {
    fn default() -> (r: Self)
        ensures
            r == HardwareKind::Graphics,
    {
        HardwareKind::Graphics
    }
}

/// A PCI vendor:device pair.
#[derive(Clone, Copy, Debug, PartialEq, Eq, Structural, PartialOrd, Ord, Hash)]
pub struct PciId {
    pub vendor: u16,
    pub device: u16,
}

/// A USB vendor:device pair.
#[derive(Clone, Copy, Debug, PartialEq, Eq, Structural, PartialOrd, Ord, Hash)]
pub struct UsbId {
    pub vendor: u16,
    pub device: u16,
}

/// An identifier of a device present on a bus.
#[derive(Clone, Copy, Debug, PartialEq, Eq, Structural, PartialOrd, Ord, Hash)]
pub enum HardwareId {
    Pci(PciId),
    Usb(UsbId),
}

/// The 32-bit key `vendor << 16 | device` under which an identifier is indexed.
pub open spec fn pack_spec(vendor: u16, device: u16) -> u32 {
    (vendor as int * 65536 + device as int) as u32
}

/// Packs a vendor:device pair into one 32-bit key.
pub fn pack(vendor: u16, device: u16) -> (r: u32)
    ensures
        r == pack_spec(vendor, device),
        r as int == vendor as int * 65536 + device as int,
{
    (vendor as u32) * 65536 + (device as u32)
}

/// Two pairs share a key only when they are equal.
pub proof fn lemma_pack_injective(v1: u16, d1: u16, v2: u16, d2: u16)
    ensures
        pack_spec(v1, d1) == pack_spec(v2, d2) <==> (v1 == v2 && d1 == d2),
{
}

/// Whether the two strings hold the same characters.
pub fn str_equal(a: &str, b: &str) -> (r: bool)
    ensures
        r == (a@ == b@),
{
    let n = a.unicode_len();
    if n != b.unicode_len() {
        return false;
    }
    let mut i: usize = 0;
    while i < n
        invariant
            n == a@.len(),
            n == b@.len(),
            i <= n,
            forall|j: int| 0 <= j < i ==> a@[j] == b@[j],
        decreases n - i,
    {
        if a.get_char(i) != b.get_char(i) {
            return false;
        }
        i = i + 1;
    }
    assert(a@ =~= b@);
    true
}

/// The lower-case name of a kind.
pub open spec fn kind_name(k: HardwareKind) -> Seq<char> {
    match k {
        HardwareKind::Graphics => "graphics"@,
        HardwareKind::Ethernet => "ethernet"@,
        HardwareKind::Wireless => "wireless"@,
        HardwareKind::Audio => "audio"@,
    }
}

/// The kind that a lower-case name or alias stands for.
pub open spec fn kind_named(name: Seq<char>) -> Option<HardwareKind> {
    if name == "graphics"@ || name == "gpu"@ {
        Some(HardwareKind::Graphics)
    } else if name == "ethernet"@ || name == "lan"@ {
        Some(HardwareKind::Ethernet)
    } else if name == "wireless"@ || name == "wifi"@ {
        Some(HardwareKind::Wireless)
    } else if name == "sound"@ || name == "audio"@ {
        Some(HardwareKind::Audio)
    } else {
        None
    }
}

/// The spellings reported as accepted when a name is not a kind.
pub open spec fn kind_aliases() -> Seq<Seq<char>> {
    seq![
        "graphics"@,
        "Graphics"@,
        "GRAPHICS"@,
        "gpu"@,
        "Gpu"@,
        "GPU"@,
        "ethernet"@,
        "Ethernet"@,
        "ETHERNET"@,
        "lan"@,
        "Lan"@,
        "LAN"@,
        "wireless"@,
        "Wireless"@,
        "WIRELESS"@,
        "wifi"@,
        "Wifi"@,
        "WiFi"@,
        "WIFI"@,
        "sound"@,
        "Sound"@,
        "SOUND"@,
        "audio"@,
        "Audio"@,
        "AUDIO"@,
    ]
}

/// The lower-case form of a string, as Unicode defines it.
pub uninterp spec fn lowercase_of(s: Seq<char>) -> Seq<char>;

/// Relies on `str::to_lowercase`: the result depends on the characters of
/// `s` alone.
#[verifier::external_body]
fn lowercase(s: &str) -> (r: String)
    ensures
        r@ == lowercase_of(s@),
{
    s.to_lowercase()
}

impl HardwareKind {
    /// The lower-case name of the kind.
    pub fn name(&self) -> (r: String)
        ensures
            r@ == kind_name(*self),
    {
        proof {
            reveal_strlit("graphics");
            reveal_strlit("ethernet");
            reveal_strlit("wireless");
            reveal_strlit("audio");
        }
        match self {
            HardwareKind::Graphics => "graphics".to_owned(),
            HardwareKind::Ethernet => "ethernet".to_owned(),
            HardwareKind::Wireless => "wireless".to_owned(),
            HardwareKind::Audio => "audio".to_owned(),
        }
    }

    /// The names offered for the kinds, in the order Graphics, Ethernet,
    /// Wireless, Audio; the audio kind is offered as `sound`.
    pub fn all_to_strings() -> (r: Vec<String>)
        ensures
            r@.len() == 4,
            r@[0]@ == kind_name(HardwareKind::Graphics),
            r@[1]@ == kind_name(HardwareKind::Ethernet),
            r@[2]@ == kind_name(HardwareKind::Wireless),
            r@[3]@ == "sound"@,
    {
        proof {
            reveal_strlit("sound");
        }
        vec![
            HardwareKind::Graphics.name(),
            HardwareKind::Ethernet.name(),
            HardwareKind::Wireless.name(),
            "sound".to_owned(),
        ]
    }

    /// The kind that a lower-case name or alias stands for.
    pub fn from_lowercase_name(name: &str) -> (r: Option<HardwareKind>)
        ensures
            r == kind_named(name@),
    {
        if str_equal(name, "graphics") || str_equal(name, "gpu") {
            Some(HardwareKind::Graphics)
        } else if str_equal(name, "ethernet") || str_equal(name, "lan") {
            Some(HardwareKind::Ethernet)
        } else if str_equal(name, "wireless") || str_equal(name, "wifi") {
            Some(HardwareKind::Wireless)
        } else if str_equal(name, "sound") || str_equal(name, "audio") {
            Some(HardwareKind::Audio)
        } else {
            None
        }
    }

    /// Reads a kind from its name or an alias, in any letter case.
    pub fn from_str(s: &str) -> (r: Result<HardwareKind, Error>)
        ensures
            match kind_named(lowercase_of(s@)) {
                Some(k) => r == Ok::<HardwareKind, Error>(k),
                None => r matches Err(Error::EnumValue { value, enum_name, allowed_values })
                    && value@ == s@ && enum_name@ == "HardwareKind"@
                    && allowed_values@.map_values(|a: String| a@) == kind_aliases(),
            },
    {
        let lowered = lowercase(s);
        match HardwareKind::from_lowercase_name(lowered.as_str()) {
            Some(k) => Ok(k),
            None => {
                proof {
                    reveal_strlit("HardwareKind");
                    reveal_strlit("graphics");
                    reveal_strlit("Graphics");
                    reveal_strlit("GRAPHICS");
                    reveal_strlit("gpu");
                    reveal_strlit("Gpu");
                    reveal_strlit("GPU");
                    reveal_strlit("ethernet");
                    reveal_strlit("Ethernet");
                    reveal_strlit("ETHERNET");
                    reveal_strlit("lan");
                    reveal_strlit("Lan");
                    reveal_strlit("LAN");
                    reveal_strlit("wireless");
                    reveal_strlit("Wireless");
                    reveal_strlit("WIRELESS");
                    reveal_strlit("wifi");
                    reveal_strlit("Wifi");
                    reveal_strlit("WiFi");
                    reveal_strlit("WIFI");
                    reveal_strlit("sound");
                    reveal_strlit("Sound");
                    reveal_strlit("SOUND");
                    reveal_strlit("audio");
                    reveal_strlit("Audio");
                    reveal_strlit("AUDIO");
                }
                let allowed_values = vec![
                    "graphics".to_owned(),
                    "Graphics".to_owned(),
                    "GRAPHICS".to_owned(),
                    "gpu".to_owned(),
                    "Gpu".to_owned(),
                    "GPU".to_owned(),
                    "ethernet".to_owned(),
                    "Ethernet".to_owned(),
                    "ETHERNET".to_owned(),
                    "lan".to_owned(),
                    "Lan".to_owned(),
                    "LAN".to_owned(),
                    "wireless".to_owned(),
                    "Wireless".to_owned(),
                    "WIRELESS".to_owned(),
                    "wifi".to_owned(),
                    "Wifi".to_owned(),
                    "WiFi".to_owned(),
                    "WIFI".to_owned(),
                    "sound".to_owned(),
                    "Sound".to_owned(),
                    "SOUND".to_owned(),
                    "audio".to_owned(),
                    "Audio".to_owned(),
                    "AUDIO".to_owned(),
                ];
                assert(allowed_values@.map_values(|a: String| a@) =~= kind_aliases());
                Err(Error::EnumValue {
                    value: s.to_owned(),
                    enum_name: "HardwareKind".to_owned(),
                    allowed_values,
                })
            },
        }
    }
}

/// Declares `core::num::ParseIntError`, the error of `u16::from_str_radix`,
/// which is carried through unread.
#[verifier::external_type_specification]
#[verifier::external_body]
pub struct ExParseIntError(ParseIntError);

/// Whether `c` is a hexadecimal digit of either case.
pub open spec fn is_hex_digit(c: char) -> bool {
    ('0' <= c <= '9') || ('a' <= c <= 'f') || ('A' <= c <= 'F')
}

/// The value of a hexadecimal digit.
pub open spec fn hex_digit_value(c: char) -> int {
    if '0' <= c <= '9' {
        c as int - '0' as int
    } else if 'a' <= c <= 'f' {
        c as int - 'a' as int + 10
    } else {
        c as int - 'A' as int + 10
    }
}

/// The value of a sequence of hexadecimal digits, most significant first.
pub open spec fn hex_value(s: Seq<char>) -> int
    decreases s.len(),
{
    if s.len() == 0 {
        0
    } else {
        hex_value(s.drop_last()) * 16 + hex_digit_value(s.last())
    }
}

/// The digits of a number text: the text without one leading `+`.
pub open spec fn hex_digits(s: Seq<char>) -> Seq<char> {
    if s.len() > 0 && s[0] == '+' {
        s.drop_first()
    } else {
        s
    }
}

/// Whether the text is a hexadecimal number that fits in 16 bits: an optional
/// `+`, then one or more hexadecimal digits.
pub open spec fn is_hex_u16(s: Seq<char>) -> bool {
    let d = hex_digits(s);
    &&& d.len() > 0
    &&& forall|i: int| 0 <= i < d.len() ==> is_hex_digit(#[trigger] d[i])
    &&& hex_value(d) <= 0xffff
}

/// Relies on `u16::from_str_radix` with radix 16: it accepts an optional `+`
/// followed by one or more digits of either case whose value fits in 16 bits,
/// and returns that value.
#[verifier::external_body]
fn parse_hex_u16(s: &str) -> (r: Result<u16, ParseIntError>)
    ensures
        r is Ok <==> is_hex_u16(s@),
        r matches Ok(v) ==> v as int == hex_value(hex_digits(s@)),
{
    u16::from_str_radix(s, 16)
}

/// Reads a 16-bit number written in hexadecimal, with an optional leading `+`.
pub fn hex_u16(s: &str) -> (r: Option<u16>)
    ensures
        r is Some <==> is_hex_u16(s@),
        r matches Some(v) ==> v as int == hex_value(hex_digits(s@)),
{
    match parse_hex_u16(s) {
        Ok(v) => Some(v),
        Err(_) => None,
    }
}

/// Why a `vendor:device` text is not a PCI identifier.
#[derive(Debug)]
pub enum ParsePciIdError {
    InvalidVendorId(ParseIntError),
    InvalidDeviceId(ParseIntError),
    MissingColon,
}

/// Whether `e` is the error that reading the text `s` reports: no colon, a
/// bad vendor part, or a good vendor part and a bad device part.
pub open spec fn parse_error_for(s: Seq<char>, e: ParsePciIdError) -> bool {
    match e {
        ParsePciIdError::MissingColon => first_colon(s) is None,
        ParsePciIdError::InvalidVendorId(_) => first_colon(s) matches Some(i) && !is_hex_u16(s.take(i)),
        ParsePciIdError::InvalidDeviceId(_) => first_colon(s) matches Some(i) && is_hex_u16(s.take(i))
            && !is_hex_u16(s.skip(i + 1)),
    }
}

/// Position of the first `:` in `s`, if any.
pub open spec fn first_colon(s: Seq<char>) -> Option<int>
    decreases s.len(),
{
    if s.len() == 0 {
        None
    } else if s.last() != ':' {
        first_colon(s.drop_last())
    } else {
        match first_colon(s.drop_last()) {
            Some(i) => Some(i),
            None => Some(s.len() - 1),
        }
    }
}

/// The identifier that a `vendor:device` text in hexadecimal stands for.
pub open spec fn pci_id_parsed(s: Seq<char>) -> Option<PciId> {
    match first_colon(s) {
        None => None,
        Some(i) => {
            let v = s.take(i);
            let d = s.skip(i + 1);
            if is_hex_u16(v) && is_hex_u16(d) {
                Some(PciId { vendor: hex_value(hex_digits(v)) as u16, device: hex_value(hex_digits(d)) as u16 })
            } else {
                None
            }
        }
    }
}

/// Scanning a prefix with no colon finds none there.
proof fn lemma_first_colon_prefix(s: Seq<char>, n: int)
    requires
        0 <= n <= s.len(),
        forall|j: int| 0 <= j < n ==> s[j] != ':',
    ensures
        first_colon(s.take(n)) is None,
    decreases n,
{
    if n > 0 {
        lemma_first_colon_prefix(s, n - 1);
        assert(s.take(n).drop_last() =~= s.take(n - 1));
    }
}

/// The first colon of a text is where a left-to-right scan stops.
proof fn lemma_first_colon_at(s: Seq<char>, i: int, n: int)
    requires
        0 <= i < n <= s.len(),
        s[i] == ':',
        forall|j: int| 0 <= j < i ==> s[j] != ':',
    ensures
        first_colon(s.take(n)) == Some(i),
    decreases n,
{
    if n == i + 1 {
        lemma_first_colon_prefix(s, i);
        assert(s.take(n).drop_last() =~= s.take(i));
    } else {
        lemma_first_colon_at(s, i, n - 1);
        assert(s.take(n).drop_last() =~= s.take(n - 1));
    }
}

impl PciId {
    /// The identifier of a vendor and device pair.
    pub fn new(vendor_id: u16, device_id: u16) -> (r: Self)
        ensures
            r.vendor == vendor_id,
            r.device == device_id,
    {
        PciId { vendor: vendor_id, device: device_id }
    }

    /// The vendor code.
    pub fn vendor_id(&self) -> (r: u16)
        ensures
            r == self.vendor,
    {
        self.vendor
    }

    /// The device code.
    pub fn device_id(&self) -> (r: u16)
        ensures
            r == self.device,
    {
        self.device
    }

    /// The 32-bit key `vendor << 16 | device`.
    pub fn packed(&self) -> (r: u32)
        ensures
            r == pack_spec(self.vendor, self.device),
    {
        pack(self.vendor, self.device)
    }

    /// Reads a `vendor:device` text with both parts in hexadecimal.
    pub fn parse(s: &str) -> (r: Result<PciId, ParsePciIdError>)
        ensures
            first_colon(s@) is None <==> r matches Err(ParsePciIdError::MissingColon),
            first_colon(s@) matches Some(i) && !is_hex_u16(s@.take(i)) <==> r matches Err(
                ParsePciIdError::InvalidVendorId(_),
            ),
            first_colon(s@) matches Some(i) && is_hex_u16(s@.take(i)) && !is_hex_u16(s@.skip(i + 1))
                <==> r matches Err(ParsePciIdError::InvalidDeviceId(_)),
            r is Ok <==> pci_id_parsed(s@) is Some,
            r matches Ok(p) ==> pci_id_parsed(s@) == Some(p),
            r matches Err(e) ==> parse_error_for(s@, e),
    {
        let n = s.unicode_len();
        let mut i: usize = 0;
        while i < n && s.get_char(i) != ':'
            invariant
                n == s@.len(),
                i <= n,
                forall|j: int| 0 <= j < i ==> s@[j] != ':',
            decreases n - i,
        {
            i = i + 1;
        }
        if i == n {
            proof {
                lemma_first_colon_prefix(s@, n as int);
                assert(s@.take(n as int) =~= s@);
            }
            return Err(ParsePciIdError::MissingColon);
        }
        proof {
            lemma_first_colon_at(s@, i as int, n as int);
            assert(s@.take(n as int) =~= s@);
        }
        let vendor_text = s.substring_char(0, i);
        let device_text = s.substring_char(i + 1, n);
        assert(vendor_text@ =~= s@.take(i as int));
        assert(device_text@ =~= s@.skip(i as int + 1));
        let vendor = match parse_hex_u16(vendor_text) {
            Ok(v) => v,
            Err(e) => {
                return Err(ParsePciIdError::InvalidVendorId(e));
            },
        };
        let device = match parse_hex_u16(device_text) {
            Ok(d) => d,
            Err(e) => {
                return Err(ParsePciIdError::InvalidDeviceId(e));
            },
        };
        Ok(PciId::new(vendor, device))
    }

    /// The half-open range between two `vendor:device` texts.
    pub fn range(start: &str, end: &str) -> (r: Result<Range<PciId>, ParsePciIdError>)
        ensures
            r is Ok <==> (pci_id_parsed(start@) is Some && pci_id_parsed(end@) is Some),
            r matches Ok(range) ==> Some(range.start) == pci_id_parsed(start@) && Some(range.end)
                == pci_id_parsed(end@),
            pci_id_parsed(start@) is None ==> (r matches Err(e) && parse_error_for(start@, e)),
            pci_id_parsed(start@) is Some && pci_id_parsed(end@) is None ==> (r matches Err(e)
                && parse_error_for(end@, e)),
    {
        let first = match PciId::parse(start) {
            Ok(p) => p,
            Err(e) => {
                return Err(e);
            },
        };
        let last = match PciId::parse(end) {
            Ok(p) => p,
            Err(e) => {
                return Err(e);
            },
        };
        Ok(Range { start: first, end: last })
    }

    /// The closed range between two `vendor:device` texts.
    pub fn range_inclusive(start: &str, end: &str) -> (r: Result<RangeInclusive<PciId>, ParsePciIdError>)
        ensures
            r is Ok <==> (pci_id_parsed(start@) is Some && pci_id_parsed(end@) is Some),
            r matches Ok(range) ==> Some(range@.start) == pci_id_parsed(start@) && Some(range@.end)
                == pci_id_parsed(end@) && !range@.exhausted,
            pci_id_parsed(start@) is None ==> (r matches Err(e) && parse_error_for(start@, e)),
            pci_id_parsed(start@) is Some && pci_id_parsed(end@) is None ==> (r matches Err(e)
                && parse_error_for(end@, e)),
    {
        let first = match PciId::parse(start) {
            Ok(p) => p,
            Err(e) => {
                return Err(e);
            },
        };
        let last = match PciId::parse(end) {
            Ok(p) => p,
            Err(e) => {
                return Err(e);
            },
        };
        Ok(RangeInclusive::new(first, last))
    }
}

/// The four bytes of a key, most significant first.
pub open spec fn key_bytes_spec(key: u32) -> Seq<u8> {
    seq![
        (key / 16777216) as u8,
        ((key / 65536) % 256) as u8,
        ((key / 256) % 256) as u8,
        (key % 256) as u8,
    ]
}

/// The stored form of an identifier key: four bytes, big-endian.
pub fn key_bytes(key: u32) -> (r: Vec<u8>)
    ensures
        r@ == key_bytes_spec(key),
{
    vec![
        (key / 16777216) as u8,
        ((key / 65536) % 256) as u8,
        ((key / 256) % 256) as u8,
        (key % 256) as u8,
    ]
}

/// Reads a stored identifier key: exactly four bytes, big-endian.
pub fn key_from_bytes(bytes: &[u8]) -> (r: Option<u32>)
    ensures
        r is Some <==> bytes@.len() == 4,
        r matches Some(k) ==> k as int == bytes@[0] as int * 16777216 + bytes@[1] as int * 65536
            + bytes@[2] as int * 256 + bytes@[3] as int,
{
    if bytes.len() != 4 {
        return None;
    }
    let b0 = bytes[0] as u32;
    let b1 = bytes[1] as u32;
    let b2 = bytes[2] as u32;
    let b3 = bytes[3] as u32;
    Some(b0 * 16777216 + b1 * 65536 + b2 * 256 + b3)
}

/// Reading the stored form of a key gives the key back.
pub proof fn lemma_key_bytes_round_trip(key: u32)
    ensures
        ({
            let b = key_bytes_spec(key);
            b[0] as int * 16777216 + b[1] as int * 65536 + b[2] as int * 256 + b[3] as int == key as int
        }),
{
    let k = key as int;
    assert(k / 16777216 < 256);
    assert(k == (k / 16777216) * 16777216 + ((k / 65536) % 256) * 65536 + ((k / 256) % 256) * 256 + k % 256)
        by (nonlinear_arith)
        requires 0 <= k < 4294967296;
}

} // verus!
