//! What a TPM can do with NV counters: the packets that ask it, the answers, and
//! the report on them. Nothing here changes the state of a TPM.
use crate::bytes;
use crate::bytes::{be_u32, push_u16_be, push_u32_be};
use crate::node;
use crate::text;
use crate::text::{concat2, concat3, push_dec, push_hex, text, with_number};
use vstd::prelude::*;

verus! {

pub const TPM_ST_NO_SESSIONS: u16 = 0x8001;

pub const TPM_CC_GET_CAPABILITY: u32 = 0x0000_017A;

pub const TPM_CAP_HANDLES: u32 = 0x0000_0001;

pub const TPM_CAP_COMMANDS: u32 = 0x0000_0002;

pub const TPM_CAP_TPM_PROPERTIES: u32 = 0x0000_0006;

pub const TPM_PT_FIXED: u32 = 0x0000_0100;

pub const TPM_PT_VAR: u32 = 0x0000_0200;

pub const TPM_NV_INDEX_FIRST: u32 = 0x0100_0000;

pub const TPM_CC_FIRST: u32 = 0x0000_011F;

pub const TPM_VERSION_20: u32 = 2;

pub const TPM_PT_MANUFACTURER: u32 = 0x0000_0105;

pub const TPM_PT_VENDOR_STRING_1: u32 = 0x0000_0106;

pub const TPM_PT_VENDOR_STRING_2: u32 = 0x0000_0107;

pub const TPM_PT_VENDOR_STRING_3: u32 = 0x0000_0108;

pub const TPM_PT_VENDOR_STRING_4: u32 = 0x0000_0109;

pub const TPM_PT_FIRMWARE_VERSION_1: u32 = 0x0000_010B;

pub const TPM_PT_FIRMWARE_VERSION_2: u32 = 0x0000_010C;

pub const TPM_PT_NV_COUNTERS_MAX: u32 = 0x0000_0116;

pub const TPM_PT_NV_INDEX_MAX: u32 = 0x0000_0117;

pub const TPM_PT_ORDERLY_COUNT: u32 = 0x0000_011D;

pub const TPM_PT_NV_BUFFER_MAX: u32 = 0x0000_012C;

pub const TPM_PT_HR_NV_INDEX: u32 = 0x0000_0202;

pub const TPM_PT_NV_COUNTERS: u32 = 0x0000_020A;

pub const TPM_PT_NV_COUNTERS_AVAIL: u32 = 0x0000_020B;

pub const TPM_PT_NV_WRITE_RECOVERY: u32 = 0x0000_0212;

pub const TPM_CC_NV_UNDEFINE_SPACE: u16 = 0x0122;

pub const TPM_CC_NV_DEFINE_SPACE: u16 = 0x012A;

pub const TPM_CC_NV_INCREMENT: u16 = 0x0134;

pub const TPM_CC_NV_EXTEND: u16 = 0x0136;

pub const TPM_CC_NV_READ: u16 = 0x014E;

pub const TPM_CC_NV_READ_PUBLIC: u16 = 0x0169;

pub const TPM_CC_NV_CERTIFY: u16 = 0x0184;

// ---------------------------------------------------------------------------
// Packets.
// ---------------------------------------------------------------------------

/// The packet that asks for a capability.
pub open spec fn getcap_bytes(capability: u32, property: u32, count: u32) -> Seq<u8> {
    bytes::be16(TPM_ST_NO_SESSIONS) + bytes::be32(22) + bytes::be32(TPM_CC_GET_CAPABILITY) + bytes::be32(capability) + bytes::be32(
        property,
    ) + bytes::be32(count)
}

pub fn getcap_command(capability: u32, property: u32, count: u32) -> (r: Vec<u8>)
    ensures
        r@ == getcap_bytes(capability, property, count),
        r@.len() == 22,
{
    let mut out: Vec<u8> = Vec::new();
    push_u16_be(&mut out, TPM_ST_NO_SESSIONS);
    push_u32_be(&mut out, 22);
    push_u32_be(&mut out, TPM_CC_GET_CAPABILITY);
    push_u32_be(&mut out, capability);
    push_u32_be(&mut out, property);
    push_u32_be(&mut out, count);
    assert(out@ =~= getcap_bytes(capability, property, count));
    out
}

/// The size that a response declares.
pub open spec fn declared_size(b: Seq<u8>) -> u32 {
    bytes::from_be32(b.subrange(2, 6))
}

/// The code that a response carries.
pub open spec fn response_code(b: Seq<u8>) -> u32 {
    bytes::from_be32(b.subrange(6, 10))
}

/// The words on a response whose size is not what it declares.
pub open spec fn bad_size(b: Seq<u8>) -> Seq<char> {
    "TPM response size invalid: declared="@ + text::dec(declared_size(b) as nat) + " actual="@ + text::dec(
        b.len(),
    )
}

/// The verdict on a response.
pub open spec fn response_verdict(b: Seq<u8>) -> Result<(), Seq<char>> {
    if b.len() < 10 {
        Err("TPM response shorter than 10-byte header"@)
    } else if declared_size(b) > b.len() || declared_size(b) < 10 {
        Err(bad_size(b))
    } else if response_code(b) != 0 {
        Err("TPM returned error code 0x"@ + text::hex(response_code(b) as nat, 8))
    } else {
        Ok(())
    }
}

/// The words on a response whose size is not what it declares.
pub fn bad_size_message(buf: &[u8], declared: u32) -> (r: String)
    requires
        buf@.len() >= 10,
        declared == declared_size(buf@),
    ensures
        r@ == bad_size(buf@),
{
    let mut refusal: String = text("TPM response size invalid: declared=");
    push_dec(&mut refusal, declared as u64);
    refusal.append(" actual=");
    push_dec(&mut refusal, buf.len() as u64);
    refusal
}

/// The words `head` and a number as eight hexadecimal digits.
pub fn with_code(head: &str, code: u32) -> (r: String)
    ensures
        r@ == head@ + text::hex(code as nat, 8),
{
    let mut r: String = text(head);
    push_hex(&mut r, code as u64, 8);
    r
}

pub fn validate_tpm_response(buf: &[u8]) -> (r: Result<(), String>)
    ensures
        text::shown(r) == response_verdict(buf@),
{
    if buf.len() < 10 {
        return Err(text("TPM response shorter than 10-byte header"));
    }
    let declared: u32 = be_u32(&buf[2..6]);
    if declared as u64 > buf.len() as u64 || declared < 10 {
        return Err(bad_size_message(buf, declared));
    }
    let rc: u32 = be_u32(&buf[6..10]);
    if rc != 0 {
        return Err(with_code("TPM returned error code 0x", rc));
    }
    Ok(())
}

/// What the head of a capability list says: whether there is more, and how many
/// items follow.
pub open spec fn list_head(b: Seq<u8>, expected_cap: u32) -> Result<(bool, u32), Seq<char>> {
    match response_verdict(b) {
        Err(e) => Err(e),
        Ok(_) => if b.len() < 19 {
            Err("GetCapability response too short"@)
        } else if bytes::from_be32(b.subrange(11, 15)) != expected_cap {
            Err(
                "unexpected capability in response: 0x"@ + text::hex(
                    bytes::from_be32(b.subrange(11, 15)) as nat,
                    8,
                ),
            )
        } else {
            Ok((b[10] != 0, bytes::from_be32(b.subrange(15, 19))))
        },
    }
}

/// Reads the head of a capability list; the items start at the third number.
pub fn parse_cap_list_prefix(buf: &[u8], expected_cap: u32) -> (r: Result<
    (bool, usize, usize),
    String,
>)
    ensures
        match list_head(buf@, expected_cap) {
            Err(e) => r is Err && r->Err_0@ == e,
            Ok((more, count)) => r == Ok::<(bool, usize, usize), String>(
                (more, count as usize, 19),
            ) && buf@.len() >= 19,
        },
{
    validate_tpm_response(buf)?;
    if buf.len() < 19 {
        return Err(text("GetCapability response too short"));
    }
    let more: bool = buf[10] != 0;
    let cap: u32 = be_u32(&buf[11..15]);
    if cap != expected_cap {
        return Err(with_code("unexpected capability in response: 0x", cap));
    }
    let count: u32 = be_u32(&buf[15..19]);
    Ok((more, count as usize, 19))
}

/// The numbers in a list of four-byte items.
pub open spec fn words(b: Seq<u8>, n: nat) -> Seq<u32> {
    Seq::new(n, |i: int| bytes::from_be32(b.subrange(19 + 4 * i, 23 + 4 * i)))
}

/// The list that a response holds, or why the response is refused.
pub open spec fn word_list(b: Seq<u8>, expected_cap: u32) -> Result<(bool, Seq<u32>), Seq<char>> {
    match list_head(b, expected_cap) {
        Err(e) => Err(e),
        Ok((more, count)) => if b.len() < 19 + count * 4 {
            Err("truncated capability u32 list"@)
        } else {
            Ok((more, words(b, count as nat)))
        },
    }
}

/// Reads the first `count` four-byte items of a list.
pub fn read_words(buf: &[u8], count: usize) -> (r: Vec<u32>)
    requires
        19 + 4 * count <= buf@.len(),
    ensures
        r@ == words(buf@, count as nat),
{
    let size: usize = buf.len();
    let mut out: Vec<u32> = Vec::new();
    let mut i: usize = 0;
    while i < count
        invariant
            i <= count,
            19 + 4 * count <= size,
            size == buf@.len(),
            out@ == words(buf@, i as nat),
        decreases count - i,
    {
        let off: usize = 19 + 4 * i;
        out.push(be_u32(&buf[off..off + 4]));
        i = i + 1;
        assert(out@ =~= words(buf@, i as nat));
    }
    out
}

pub fn parse_u32_list(buf: &[u8], expected_cap: u32) -> (r: Result<(bool, Vec<u32>), String>)
    ensures
        match word_list(buf@, expected_cap) {
            Err(e) => r is Err && r->Err_0@ == e,
            Ok((more, list)) => r is Ok && r->Ok_0.0 == more && r->Ok_0.1@ == list,
        },
{
    let (more, count, off): (bool, usize, usize) = parse_cap_list_prefix(buf, expected_cap)?;
    if (buf.len() - off) / 4 < count {
        return Err(text("truncated capability u32 list"));
    }
    Ok((more, read_words(buf, count)))
}

/// The pairs in a list of eight-byte items.
pub open spec fn pairs(b: Seq<u8>, n: nat) -> Seq<(u32, u32)> {
    Seq::new(
        n,
        |i: int|
            (
                bytes::from_be32(b.subrange(19 + 8 * i, 23 + 8 * i)),
                bytes::from_be32(b.subrange(23 + 8 * i, 27 + 8 * i)),
            ),
    )
}

/// The properties that a response holds, or why the response is refused.
pub open spec fn property_list(b: Seq<u8>) -> Result<(bool, Seq<(u32, u32)>), Seq<char>> {
    match list_head(b, TPM_CAP_TPM_PROPERTIES) {
        Err(e) => Err(e),
        Ok((more, count)) => if b.len() < 19 + count * 8 {
            Err("truncated TPM property list"@)
        } else {
            Ok((more, pairs(b, count as nat)))
        },
    }
}

pub fn parse_properties(buf: &[u8]) -> (r: Result<(bool, Vec<(u32, u32)>), String>)
    ensures
        match property_list(buf@) {
            Err(e) => r is Err && r->Err_0@ == e,
            Ok((more, list)) => r is Ok && r->Ok_0.0 == more && r->Ok_0.1@ == list,
        },
{
    let (more, count, start): (bool, usize, usize) = parse_cap_list_prefix(
        buf,
        TPM_CAP_TPM_PROPERTIES,
    )?;
    if (buf.len() - start) / 8 < count {
        return Err(text("truncated TPM property list"));
    }
    let size: usize = buf.len();
    let mut out: Vec<(u32, u32)> = Vec::new();
    let mut i: usize = 0;
    while i < count
        invariant
            i <= count,
            19 + 8 * count <= size,
            size == buf@.len(),
            out@ == pairs(buf@, i as nat),
        decreases count - i,
    {
        let off: usize = 19 + 8 * i;
        out.push((be_u32(&buf[off..off + 4]), be_u32(&buf[off + 4..off + 8])));
        i = i + 1;
        assert(out@ =~= pairs(buf@, i as nat));
    }
    Ok((more, out))
}

// ---------------------------------------------------------------------------
// Reading the answers.
// ---------------------------------------------------------------------------

/// The value of the first property with this number from number `i` on.
pub open spec fn property_from(props: Seq<(u32, u32)>, id: u32, i: int) -> Option<u32>
    decreases props.len() - i,
{
    if i < 0 || i >= props.len() {
        None
    } else if props[i].0 == id {
        Some(props[i].1)
    } else {
        property_from(props, id, i + 1)
    }
}

pub fn property(props: &Vec<(u32, u32)>, id: u32) -> (r: Option<u32>)
    ensures
        r == property_from(props@, id, 0),
{
    let mut i: usize = 0;
    while i < props.len()
        invariant
            i <= props@.len(),
            property_from(props@, id, 0) == property_from(props@, id, i as int),
        decreases props@.len() - i,
    {
        if props[i].0 == id {
            return Some(props[i].1);
        }
        i = i + 1;
    }
    None
}

/// A byte as it is shown: nothing for zero, itself if it can be printed, and a dot
/// otherwise.
pub open spec fn shown_byte(b: u8) -> Seq<char> {
    if b == 0 {
        Seq::empty()
    } else if 0x20 <= b <= 0x7e {
        seq![b as char]
    } else {
        seq!['.']
    }
}

/// A property as four characters.
pub open spec fn property_text(v: u32) -> Seq<char> {
    shown_byte(bytes::be32(v)[0]) + shown_byte(bytes::be32(v)[1]) + shown_byte(bytes::be32(v)[2]) + shown_byte(
        bytes::be32(v)[3],
    )
}

fn push_shown(s: &mut String, b: u8)
    ensures
        final(s)@ == old(s)@ + shown_byte(b),
{
    let ghost before = s@;
    if b != 0 {
        if 0x20 <= b && b <= 0x7e {
            s.push(b as char);
        } else {
            s.push('.');
        }
    }
    assert(s@ =~= before + shown_byte(b));
}

pub fn ascii_property(v: u32) -> (r: String)
    ensures
        r@ == property_text(v),
{
    let mut r: String = text("");
    proof {
        reveal_strlit("");
    }
    push_shown(&mut r, (v / 16777216 % 256) as u8);
    push_shown(&mut r, (v / 65536 % 256) as u8);
    push_shown(&mut r, (v / 256 % 256) as u8);
    push_shown(&mut r, (v % 256) as u8);
    assert(r@ =~= property_text(v));
    r
}

/// The name of a TPM interface.
pub open spec fn interface_text(v: u32) -> Seq<char> {
    if v == 1 {
        "TPM 1.2 I/O/MMIO"@
    } else if v == 2 {
        "TrustZone"@
    } else if v == 3 {
        "Hardware TPM"@
    } else if v == 4 {
        "Software emulator"@
    } else if v == 5 {
        "SPB-attached"@
    } else {
        "Unknown/reserved"@
    }
}

pub fn interface_name(v: u32) -> (r: &'static str)
    ensures
        r@ == interface_text(v),
{
    match v {
        1 => "TPM 1.2 I/O/MMIO",
        2 => "TrustZone",
        3 => "Hardware TPM",
        4 => "Software emulator",
        5 => "SPB-attached",
        _ => "Unknown/reserved",
    }
}

/// Some attributes are of this command: its number is in their low sixteen bits.
pub open spec fn supports(attrs: Seq<u32>, command_index: u16) -> bool {
    exists|i: int| 0 <= i < attrs.len() && (#[trigger] attrs[i]) % 65536 == command_index
}

pub fn command_supported(attrs: &Vec<u32>, command_index: u16) -> (r: bool)
    ensures
        r == supports(attrs@, command_index),
{
    let mut i: usize = 0;
    while i < attrs.len()
        invariant
            i <= attrs@.len(),
            forall|k: int| 0 <= k < i ==> (#[trigger] attrs@[k]) % 65536 != command_index,
        decreases attrs@.len() - i,
    {
        if attrs[i] % 65536 == command_index as u32 {
            assert(attrs@[i as int] % 65536 == command_index);
            return true;
        }
        i = i + 1;
    }
    false
}

// ---------------------------------------------------------------------------
// The report.
// ---------------------------------------------------------------------------

/// The line on a property.
pub open spec fn property_line(props: Seq<(u32, u32)>, id: u32, name: Seq<char>) -> Seq<char> {
    match property_from(props, id, 0) {
        Some(v) => name + ": "@ + text::dec(v as nat) + " (0x"@ + text::hex(v as nat, 8) + ")"@,
        None => name + ": NOT REPORTED"@,
    }
}

pub fn print_prop(props: &Vec<(u32, u32)>, id: u32, name: &str) -> (r: String)
    ensures
        r@ == property_line(props@, id, name@),
{
    match property(props, id) {
        Some(v) => {
            let mut r: String = concat2(name, ": ");
            push_dec(&mut r, v as u64);
            r.append(" (0x");
            push_hex(&mut r, v as u64, 8);
            r.append(")");
            r
        },
        None => concat2(name, ": NOT REPORTED"),
    }
}

/// The lines on the device that the operating system reports.
pub open spec fn device_lines(version: u32, interface: u32, revision: u32) -> Seq<Seq<char>> {
    seq![
        "=== WINDOWS TBS DEVICE INFO ==="@,
        "TPM version code: "@ + text::dec(version as nat) + if version == TPM_VERSION_20 {
            " (TPM 2.0)"@
        } else {
            ""@
        },
        "TPM interface type: "@ + text::dec(interface as nat) + " ("@ + interface_text(interface) + ")"@,
        "TPM implementation revision: "@ + text::dec(revision as nat) + ""@,
    ]
}

pub fn device_report(version: u32, interface: u32, revision: u32) -> (r: Vec<String>)
    ensures
        node::texts(r@) == device_lines(version, interface, revision),
{
    let mut lines: Vec<String> = Vec::new();
    lines.push(text("=== WINDOWS TBS DEVICE INFO ==="));
    lines.push(
        with_number(
            "TPM version code: ",
            version as u64,
            if version == TPM_VERSION_20 {
                " (TPM 2.0)"
            } else {
                ""
            },
        ),
    );
    let mut kind: String = with_number("TPM interface type: ", interface as u64, " (");
    kind.append(interface_name(interface));
    kind.append(")");
    lines.push(kind);
    lines.push(with_number("TPM implementation revision: ", revision as u64, ""));
    assert(node::texts(lines@) =~= device_lines(version, interface, revision));
    lines
}

/// A reported vendor string, or nothing.
pub open spec fn vendor_part(fixed: Seq<(u32, u32)>, id: u32) -> Seq<char> {
    match property_from(fixed, id, 0) {
        Some(v) => property_text(v),
        None => Seq::empty(),
    }
}

/// The vendor string.
pub open spec fn vendor_text(fixed: Seq<(u32, u32)>) -> Seq<char> {
    vendor_part(fixed, TPM_PT_VENDOR_STRING_1) + vendor_part(fixed, TPM_PT_VENDOR_STRING_2)
        + vendor_part(fixed, TPM_PT_VENDOR_STRING_3) + vendor_part(fixed, TPM_PT_VENDOR_STRING_4)
}

/// The line on the manufacturer, if there is one.
pub open spec fn manufacturer_lines(fixed: Seq<(u32, u32)>) -> Seq<Seq<char>> {
    match property_from(fixed, TPM_PT_MANUFACTURER, 0) {
        Some(v) => seq![
            "MANUFACTURER: "@ + property_text(v) + " (0x"@ + text::hex(v as nat, 8) + ")"@,
        ],
        None => Seq::empty(),
    }
}

/// The lines on the fixed properties.
pub open spec fn fixed_lines(fixed: Seq<(u32, u32)>) -> Seq<Seq<char>> {
    seq![""@, "=== TPM FIXED PROPERTIES ==="@] + manufacturer_lines(fixed) + seq![
        "VENDOR STRING: "@ + if vendor_text(fixed).len() == 0 {
            "NOT REPORTED"@
        } else {
            vendor_text(fixed)
        },
        property_line(fixed, TPM_PT_FIRMWARE_VERSION_1, "FIRMWARE_VERSION_1"@),
        property_line(fixed, TPM_PT_FIRMWARE_VERSION_2, "FIRMWARE_VERSION_2"@),
        property_line(fixed, TPM_PT_NV_COUNTERS_MAX, "NV_COUNTERS_MAX"@),
        property_line(fixed, TPM_PT_NV_INDEX_MAX, "NV_INDEX_MAX"@),
        property_line(fixed, TPM_PT_ORDERLY_COUNT, "ORDERLY_COUNT"@),
        property_line(fixed, TPM_PT_NV_BUFFER_MAX, "NV_BUFFER_MAX"@),
    ]
}

fn push_vendor(s: &mut String, fixed: &Vec<(u32, u32)>, id: u32)
    ensures
        final(s)@ == old(s)@ + vendor_part(fixed@, id),
{
    let ghost before = s@;
    if let Some(v) = property(fixed, id) {
        let part: String = ascii_property(v);
        s.append(part.as_str());
    }
    assert(s@ =~= before + vendor_part(fixed@, id));
}

fn vendor_string(fixed: &Vec<(u32, u32)>) -> (r: String)
    ensures
        r@ == vendor_text(fixed@),
{
    let mut vendor: String = text("");
    proof {
        reveal_strlit("");
    }
    push_vendor(&mut vendor, fixed, TPM_PT_VENDOR_STRING_1);
    push_vendor(&mut vendor, fixed, TPM_PT_VENDOR_STRING_2);
    push_vendor(&mut vendor, fixed, TPM_PT_VENDOR_STRING_3);
    push_vendor(&mut vendor, fixed, TPM_PT_VENDOR_STRING_4);
    assert(vendor@ =~= vendor_text(fixed@));
    vendor
}

fn fixed_report(fixed: &Vec<(u32, u32)>) -> (r: Vec<String>)
    ensures
        node::texts(r@) == fixed_lines(fixed@),
{
    let mut lines: Vec<String> = Vec::new();
    lines.push(text(""));
    lines.push(text("=== TPM FIXED PROPERTIES ==="));
    if let Some(v) = property(fixed, TPM_PT_MANUFACTURER) {
        let name: String = ascii_property(v);
        let mut line: String = concat3("MANUFACTURER: ", name.as_str(), " (0x");
        push_hex(&mut line, v as u64, 8);
        line.append(")");
        lines.push(line);
    }
    let vendor: String = vendor_string(fixed);
    if vendor.as_str().unicode_len() == 0 {
        lines.push(concat2("VENDOR STRING: ", "NOT REPORTED"));
    } else {
        lines.push(concat2("VENDOR STRING: ", vendor.as_str()));
    }
    lines.push(print_prop(fixed, TPM_PT_FIRMWARE_VERSION_1, "FIRMWARE_VERSION_1"));
    lines.push(print_prop(fixed, TPM_PT_FIRMWARE_VERSION_2, "FIRMWARE_VERSION_2"));
    lines.push(print_prop(fixed, TPM_PT_NV_COUNTERS_MAX, "NV_COUNTERS_MAX"));
    lines.push(print_prop(fixed, TPM_PT_NV_INDEX_MAX, "NV_INDEX_MAX"));
    lines.push(print_prop(fixed, TPM_PT_ORDERLY_COUNT, "ORDERLY_COUNT"));
    lines.push(print_prop(fixed, TPM_PT_NV_BUFFER_MAX, "NV_BUFFER_MAX"));
    assert(node::texts(lines@) =~= fixed_lines(fixed@));
    lines
}

/// The lines on the variable properties.
pub open spec fn variable_lines(variable: Seq<(u32, u32)>) -> Seq<Seq<char>> {
    seq![
        ""@,
        "=== TPM VARIABLE NV PROPERTIES ==="@,
        property_line(variable, TPM_PT_HR_NV_INDEX, "DEFINED_NV_INDEXES"@),
        property_line(variable, TPM_PT_NV_COUNTERS, "DEFINED_NV_COUNTERS"@),
        property_line(variable, TPM_PT_NV_COUNTERS_AVAIL, "NV_COUNTERS_AVAILABLE_ESTIMATE"@),
        property_line(variable, TPM_PT_NV_WRITE_RECOVERY, "NV_WRITE_RECOVERY_MS"@),
    ]
}

fn variable_report(variable: &Vec<(u32, u32)>) -> (r: Vec<String>)
    ensures
        node::texts(r@) == variable_lines(variable@),
{
    let mut lines: Vec<String> = Vec::new();
    lines.push(text(""));
    lines.push(text("=== TPM VARIABLE NV PROPERTIES ==="));
    lines.push(print_prop(variable, TPM_PT_HR_NV_INDEX, "DEFINED_NV_INDEXES"));
    lines.push(print_prop(variable, TPM_PT_NV_COUNTERS, "DEFINED_NV_COUNTERS"));
    lines.push(
        print_prop(variable, TPM_PT_NV_COUNTERS_AVAIL, "NV_COUNTERS_AVAILABLE_ESTIMATE"),
    );
    lines.push(print_prop(variable, TPM_PT_NV_WRITE_RECOVERY, "NV_WRITE_RECOVERY_MS"));
    assert(node::texts(lines@) =~= variable_lines(variable@));
    lines
}

/// The line on a command.
pub open spec fn command_line(attrs: Seq<u32>, command: u16, name: Seq<char>) -> Seq<char> {
    name + ": "@ + if supports(attrs, command) {
        "SUPPORTED"@
    } else {
        "NOT REPORTED"@
    }
}

fn command_text(attrs: &Vec<u32>, command: u16, name: &str) -> (r: String)
    ensures
        r@ == command_line(attrs@, command, name@),
{
    concat3(
        name,
        ": ",
        if command_supported(attrs, command) {
            "SUPPORTED"
        } else {
            "NOT REPORTED"
        },
    )
}

/// The lines on the commands.
pub open spec fn command_lines(attrs: Seq<u32>) -> Seq<Seq<char>> {
    seq![
        ""@,
        "=== REQUIRED TPM NV COMMANDS ==="@,
        command_line(attrs, TPM_CC_NV_UNDEFINE_SPACE, "NV_UndefineSpace"@),
        command_line(attrs, TPM_CC_NV_DEFINE_SPACE, "NV_DefineSpace"@),
        command_line(attrs, TPM_CC_NV_INCREMENT, "NV_Increment"@),
        command_line(attrs, TPM_CC_NV_EXTEND, "NV_Extend"@),
        command_line(attrs, TPM_CC_NV_READ, "NV_Read"@),
        command_line(attrs, TPM_CC_NV_READ_PUBLIC, "NV_ReadPublic"@),
        command_line(attrs, TPM_CC_NV_CERTIFY, "NV_Certify"@),
    ]
}

fn command_report(attrs: &Vec<u32>) -> (r: Vec<String>)
    ensures
        node::texts(r@) == command_lines(attrs@),
{
    let mut lines: Vec<String> = Vec::new();
    lines.push(text(""));
    lines.push(text("=== REQUIRED TPM NV COMMANDS ==="));
    lines.push(command_text(attrs, TPM_CC_NV_UNDEFINE_SPACE, "NV_UndefineSpace"));
    lines.push(command_text(attrs, TPM_CC_NV_DEFINE_SPACE, "NV_DefineSpace"));
    lines.push(command_text(attrs, TPM_CC_NV_INCREMENT, "NV_Increment"));
    lines.push(command_text(attrs, TPM_CC_NV_EXTEND, "NV_Extend"));
    lines.push(command_text(attrs, TPM_CC_NV_READ, "NV_Read"));
    lines.push(command_text(attrs, TPM_CC_NV_READ_PUBLIC, "NV_ReadPublic"));
    lines.push(command_text(attrs, TPM_CC_NV_CERTIFY, "NV_Certify"));
    assert(node::texts(lines@) =~= command_lines(attrs@));
    lines
}

/// The lines on the handles in use.
pub open spec fn handle_lines(handles: Seq<u32>) -> Seq<Seq<char>> {
    seq![
        ""@,
        "=== EXISTING NV INDEX HANDLES (READ-ONLY ENUMERATION) ==="@,
        "Count: "@ + text::dec(handles.len()) + ""@,
    ] + Seq::new(handles.len(), |i: int| "0x"@ + text::hex(handles[i] as nat, 8))
}

fn handle_report(handles: &Vec<u32>) -> (r: Vec<String>)
    ensures
        node::texts(r@) == handle_lines(handles@),
{
    let mut lines: Vec<String> = Vec::new();
    lines.push(text(""));
    lines.push(text("=== EXISTING NV INDEX HANDLES (READ-ONLY ENUMERATION) ==="));
    lines.push(with_number("Count: ", handles.len() as u64, ""));
    let ghost head = node::texts(lines@);
    let mut i: usize = 0;
    assert(node::texts(lines@) =~= handle_lines(handles@).take(3));
    while i < handles.len()
        invariant
            i <= handles@.len(),
            node::texts(lines@) == handle_lines(handles@).take(3 + i),
        decreases handles@.len() - i,
    {
        let ghost before = node::texts(lines@);
        lines.push(with_code("0x", handles[i]));
        assert(node::texts(lines@) =~= before.push("0x"@ + text::hex(handles@[i as int] as nat, 8)));
        assert(handle_lines(handles@).take(4 + i) =~= before.push(
            handle_lines(handles@)[3 + i],
        ));
        i = i + 1;
    }
    assert(handle_lines(handles@).take(3 + i) =~= handle_lines(handles@));
    lines
}

/// Every command that a counter needs is supported.
pub open spec fn counter_commands(attrs: Seq<u32>) -> bool {
    &&& supports(attrs, TPM_CC_NV_UNDEFINE_SPACE)
    &&& supports(attrs, TPM_CC_NV_DEFINE_SPACE)
    &&& supports(attrs, TPM_CC_NV_INCREMENT)
    &&& supports(attrs, TPM_CC_NV_READ)
    &&& supports(attrs, TPM_CC_NV_READ_PUBLIC)
}

/// How many counters there is room for: the estimate of those available, or else
/// the limit.
pub open spec fn counter_capacity(fixed: Seq<(u32, u32)>, variable: Seq<(u32, u32)>) -> Option<
    u32,
> {
    match property_from(variable, TPM_PT_NV_COUNTERS_AVAIL, 0) {
        Some(v) => Some(v),
        None => property_from(fixed, TPM_PT_NV_COUNTERS_MAX, 0),
    }
}

/// There is room for a counter.
pub open spec fn has_capacity(fixed: Seq<(u32, u32)>, variable: Seq<(u32, u32)>) -> bool {
    counter_capacity(fixed, variable) is Some && counter_capacity(fixed, variable)->Some_0 > 0
}

/// The lines on the decision.
pub open spec fn decision_lines(commands_ok: bool, capacity_ok: bool) -> Seq<Seq<char>> {
    seq![
        ""@,
        "=== SEC-005 READ-ONLY DECISION ==="@,
        "TPM 2.0 TBS ACCESS: PASS"@,
        "REQUIRED NV COUNTER COMMAND SET: "@ + if commands_ok {
            "PASS"@
        } else {
            "NOT CONFIRMED"@
        },
        "REPORTED AVAILABLE COUNTER CAPACITY > 0: "@ + if capacity_ok {
            "PASS"@
        } else {
            "NOT CONFIRMED / VALUE MAY REQUIRE INTERPRETATION"@
        },
        "REAL NV COUNTER CREATE/INCREMENT TEST: NOT RUN"@,
        "TPM STATE MODIFIED BY SEC-005: NO"@,
        "SAFE NEXT STEP IF COMMANDS/CAPACITY PASS: DEFINE ONE TEMPORARY CALIBRE NV COUNTER, INCREMENT, READ, RESTART-CHECK, THEN UNDEFINE"@,
    ]
}

fn decision_report(commands_ok: bool, capacity_ok: bool) -> (r: Vec<String>)
    ensures
        node::texts(r@) == decision_lines(commands_ok, capacity_ok),
{
    let mut lines: Vec<String> = Vec::new();
    lines.push(text(""));
    lines.push(text("=== SEC-005 READ-ONLY DECISION ==="));
    lines.push(text("TPM 2.0 TBS ACCESS: PASS"));
    lines.push(
        concat2(
            "REQUIRED NV COUNTER COMMAND SET: ",
            if commands_ok {
                "PASS"
            } else {
                "NOT CONFIRMED"
            },
        ),
    );
    lines.push(
        concat2(
            "REPORTED AVAILABLE COUNTER CAPACITY > 0: ",
            if capacity_ok {
                "PASS"
            } else {
                "NOT CONFIRMED / VALUE MAY REQUIRE INTERPRETATION"
            },
        ),
    );
    lines.push(text("REAL NV COUNTER CREATE/INCREMENT TEST: NOT RUN"));
    lines.push(text("TPM STATE MODIFIED BY SEC-005: NO"));
    lines.push(
        text(
            "SAFE NEXT STEP IF COMMANDS/CAPACITY PASS: DEFINE ONE TEMPORARY CALIBRE NV COUNTER, INCREMENT, READ, RESTART-CHECK, THEN UNDEFINE",
        ),
    );
    assert(node::texts(lines@) =~= decision_lines(commands_ok, capacity_ok));
    lines
}

/// Whether every command that a counter needs is supported.
pub fn counter_commands_supported(attrs: &Vec<u32>) -> (r: bool)
    ensures
        r == counter_commands(attrs@),
{
    command_supported(attrs, TPM_CC_NV_UNDEFINE_SPACE) && command_supported(
        attrs,
        TPM_CC_NV_DEFINE_SPACE,
    ) && command_supported(attrs, TPM_CC_NV_INCREMENT) && command_supported(
        attrs,
        TPM_CC_NV_READ,
    ) && command_supported(attrs, TPM_CC_NV_READ_PUBLIC)
}

/// Whether there is room for a counter.
pub fn counter_capacity_reported(fixed: &Vec<(u32, u32)>, variable: &Vec<(u32, u32)>) -> (r: bool)
    ensures
        r == has_capacity(fixed@, variable@),
{
    match property(variable, TPM_PT_NV_COUNTERS_AVAIL) {
        Some(v) => v > 0,
        None => match property(fixed, TPM_PT_NV_COUNTERS_MAX) {
            Some(v) => v > 0,
            None => false,
        },
    }
}

/// The report on the four answers.
pub open spec fn probe_lines(
    fixed: Seq<(u32, u32)>,
    variable: Seq<(u32, u32)>,
    handles: Seq<u32>,
    attrs: Seq<u32>,
) -> Seq<Seq<char>> {
    fixed_lines(fixed) + variable_lines(variable) + command_lines(attrs) + handle_lines(handles)
        + decision_lines(counter_commands(attrs), has_capacity(fixed, variable))
}

/// The report on the four responses, or why one is refused.
pub open spec fn probe_result(
    fixed: Seq<u8>,
    variable: Seq<u8>,
    handles: Seq<u8>,
    commands: Seq<u8>,
) -> Result<Seq<Seq<char>>, Seq<char>> {
    match property_list(fixed) {
        Err(e) => Err(e),
        Ok(f) => match property_list(variable) {
            Err(e) => Err(e),
            Ok(v) => match word_list(handles, TPM_CAP_HANDLES) {
                Err(e) => Err(e),
                Ok(h) => match word_list(commands, TPM_CAP_COMMANDS) {
                    Err(e) => Err(e),
                    Ok(c) => Ok(probe_lines(f.1, v.1, h.1, c.1)),
                },
            },
        },
    }
}

/// Appends some lines to a report.
pub fn append_lines(lines: &mut Vec<String>, more: Vec<String>)
    ensures
        node::texts(final(lines)@) == node::texts(old(lines)@) + node::texts(more@),
{
    let mut more: Vec<String> = more;
    let ghost before = node::texts(lines@);
    let ghost after = node::texts(more@);
    lines.append(&mut more);
    assert(node::texts(lines@) =~= before + after);
}

/// The report on the four responses that the probe asked for.
pub fn probe_report(
    fixed_buf: &[u8],
    variable_buf: &[u8],
    handles_buf: &[u8],
    commands_buf: &[u8],
) -> (r: Result<Vec<String>, String>)
    ensures
        match probe_result(fixed_buf@, variable_buf@, handles_buf@, commands_buf@) {
            Err(e) => r is Err && r->Err_0@ == e,
            Ok(lines) => r is Ok && node::texts(r->Ok_0@) == lines,
        },
{
    let (_, fixed): (bool, Vec<(u32, u32)>) = parse_properties(fixed_buf)?;
    let (_, variable): (bool, Vec<(u32, u32)>) = parse_properties(variable_buf)?;
    let (_, handles): (bool, Vec<u32>) = parse_u32_list(handles_buf, TPM_CAP_HANDLES)?;
    let (_, attrs): (bool, Vec<u32>) = parse_u32_list(commands_buf, TPM_CAP_COMMANDS)?;
    let mut lines: Vec<String> = fixed_report(&fixed);
    append_lines(&mut lines, variable_report(&variable));
    append_lines(&mut lines, command_report(&attrs));
    append_lines(&mut lines, handle_report(&handles));
    let commands_ok: bool = counter_commands_supported(&attrs);
    let capacity_ok: bool = counter_capacity_reported(&fixed, &variable);
    append_lines(&mut lines, decision_report(commands_ok, capacity_ok));
    Ok(lines)
}

// ---------------------------------------------------------------------------
// Laws.
// ---------------------------------------------------------------------------

/// The packet that asks for a capability is exactly as long as it declares, and
/// each field can be read back from its place.
pub proof fn law_getcap_packet(capability: u32, property: u32, count: u32)
    ensures
        ({
            let p = getcap_bytes(capability, property, count);
            &&& p.len() == 22
            &&& bytes::from_be16(p.subrange(0, 2)) == TPM_ST_NO_SESSIONS
            &&& bytes::from_be32(p.subrange(2, 6)) == p.len()
            &&& bytes::from_be32(p.subrange(6, 10)) == TPM_CC_GET_CAPABILITY
            &&& bytes::from_be32(p.subrange(10, 14)) == capability
            &&& bytes::from_be32(p.subrange(14, 18)) == property
            &&& bytes::from_be32(p.subrange(18, 22)) == count
        }),
{
    broadcast use {bytes::lemma_be16, bytes::lemma_be32};

    let p = getcap_bytes(capability, property, count);
    assert(p.subrange(0, 2) =~= bytes::be16(TPM_ST_NO_SESSIONS));
    assert(p.subrange(2, 6) =~= bytes::be32(22));
    assert(p.subrange(6, 10) =~= bytes::be32(TPM_CC_GET_CAPABILITY));
    assert(p.subrange(10, 14) =~= bytes::be32(capability));
    assert(p.subrange(14, 18) =~= bytes::be32(property));
    assert(p.subrange(18, 22) =~= bytes::be32(count));
}

/// A command is matched by the low sixteen bits of its attributes alone.
pub proof fn law_command_is_matched_by_its_number(attrs: Seq<u32>, i: int, flags: u32)
    requires
        0 <= i < attrs.len(),
        flags % 65536 == attrs[i] % 65536,
    ensures
        forall|c: u16| #[trigger] supports(attrs.update(i, flags), c) == supports(attrs, c),
{
    assert forall|c: u16| #[trigger] supports(attrs.update(i, flags), c) == supports(attrs, c) by {
        if supports(attrs, c) {
            let k = choose|k: int| 0 <= k < attrs.len() && (#[trigger] attrs[k]) % 65536 == c;
            assert(attrs.update(i, flags)[k] % 65536 == c);
        }
        if supports(attrs.update(i, flags), c) {
            let changed = attrs.update(i, flags);
            let k = choose|k: int|
                0 <= k < changed.len() && (#[trigger] changed[k]) % 65536 == c;
            assert(attrs[k] % 65536 == c);
        }
    }
}

/// A response is taken exactly if it has a header of ten bytes, states a size that holds the
/// header and is there, and the code in it is zero.
pub proof fn law_response_is_taken_if(b: Seq<u8>)
    ensures
        response_verdict(b) is Ok <==> {
            &&& b.len() >= 10
            &&& 10 <= bytes::from_be32(b.subrange(2, 6)) <= b.len()
            &&& bytes::from_be32(b.subrange(6, 10)) == 0
        },
{
}

/// A list is read exactly if the response is taken, is about what was asked for, and holds
/// as many entries as it states. The entries are those, in their order, and the mark for
/// more stands before them.
pub proof fn law_list_is_read_if(b: Seq<u8>, expected_cap: u32, i: int)
    ensures
        ({
            let count = bytes::from_be32(b.subrange(15, 19));
            let r = word_list(b, expected_cap);
            &&& r is Ok <==> {
                &&& response_verdict(b) is Ok
                &&& b.len() >= 19
                &&& bytes::from_be32(b.subrange(11, 15)) == expected_cap
                &&& b.len() >= 19 + 4 * count
            }
            &&& r matches Ok((more, list)) ==> {
                &&& more <==> b[10] != 0
                &&& list.len() == count
                &&& 0 <= i < count ==> list[i] == bytes::from_be32(
                    b.subrange(19 + 4 * i, 23 + 4 * i),
                )
            }
        }),
{
}

/// Properties are read exactly if the response is taken, is about properties, and holds as
/// many pairs as it states. The pairs are those, in their order: name, then value.
pub proof fn law_properties_are_read_if(b: Seq<u8>, i: int)
    ensures
        ({
            let count = bytes::from_be32(b.subrange(15, 19));
            let r = property_list(b);
            &&& r is Ok <==> {
                &&& response_verdict(b) is Ok
                &&& b.len() >= 19
                &&& bytes::from_be32(b.subrange(11, 15)) == 6
                &&& b.len() >= 19 + 8 * count
            }
            &&& r matches Ok((more, list)) ==> {
                &&& more <==> b[10] != 0
                &&& list.len() == count
                &&& 0 <= i < count ==> list[i].0 == bytes::from_be32(
                    b.subrange(19 + 8 * i, 23 + 8 * i),
                )
                &&& 0 <= i < count ==> list[i].1 == bytes::from_be32(
                    b.subrange(23 + 8 * i, 27 + 8 * i),
                )
            }
        }),
{
}

proof fn lemma_property_from(props: Seq<(u32, u32)>, id: u32, i: int)
    requires
        0 <= i <= props.len(),
    ensures
        property_from(props, id, i) is None <==> forall|k: int|
            i <= k < props.len() ==> (#[trigger] props[k]).0 != id,
        forall|k: int|
            i <= k < props.len() && (#[trigger] props[k]).0 == id && (forall|j: int|
                i <= j < k ==> (#[trigger] props[j]).0 != id) ==> property_from(props, id, i)
                == Some(props[k].1),
    decreases props.len() - i,
{
    if i < props.len() && props[i].0 != id {
        lemma_property_from(props, id, i + 1);
        let next = i + 1;
        assert forall|k: int|
            i <= k < props.len() && (#[trigger] props[k]).0 == id && (forall|j: int|
                i <= j < k ==> (#[trigger] props[j]).0 != id) implies property_from(props, id, i)
            == Some(props[k].1) by {
            assert(next <= k);
            assert(forall|j: int| next <= j < k ==> (#[trigger] props[j]).0 != id);
        }
    }
}

/// A property that is listed has the value of its first entry, and one that is not listed
/// has none.
pub proof fn law_property_is_the_first_entry(props: Seq<(u32, u32)>, id: u32, k: int)
    requires
        0 <= k < props.len(),
        props[k].0 == id,
        forall|j: int| 0 <= j < k ==> (#[trigger] props[j]).0 != id,
    ensures
        property_from(props, id, 0) == Some(props[k].1),
        forall|other: u32|
            (forall|j: int| 0 <= j < props.len() ==> (#[trigger] props[j]).0 != other)
                ==> #[trigger] property_from(props, other, 0) is None,
{
    lemma_property_from(props, id, 0);
    assert forall|other: u32|
        (forall|j: int| 0 <= j < props.len() ==> (#[trigger] props[j]).0 != other) implies
        #[trigger] property_from(props, other, 0) is None by {
        lemma_property_from(props, other, 0);
    }
}

/// The decision: the commands are confirmed exactly if each of the five that a counter
/// needs is listed by its number, and the capacity exactly if the counters available, or
/// where they are not reported the most there can be, are more than none.
pub proof fn law_probe_decision(
    attrs: Seq<u32>,
    fixed: Seq<(u32, u32)>,
    variable: Seq<(u32, u32)>,
)
    ensures
        counter_commands(attrs) <==> {
            &&& exists|i: int| 0 <= i < attrs.len() && (#[trigger] attrs[i]) % 65536 == 0x122
            &&& exists|i: int| 0 <= i < attrs.len() && (#[trigger] attrs[i]) % 65536 == 0x12A
            &&& exists|i: int| 0 <= i < attrs.len() && (#[trigger] attrs[i]) % 65536 == 0x134
            &&& exists|i: int| 0 <= i < attrs.len() && (#[trigger] attrs[i]) % 65536 == 0x14E
            &&& exists|i: int| 0 <= i < attrs.len() && (#[trigger] attrs[i]) % 65536 == 0x169
        },
        has_capacity(fixed, variable) <==> match property_from(variable, 0x20B, 0) {
            Some(v) => v > 0,
            None => match property_from(fixed, 0x116, 0) {
                Some(v) => v > 0,
                None => false,
            },
        },
{
}

/// A probe reports exactly if all four responses can be read.
pub proof fn law_probe_reports_if(
    fixed: Seq<u8>,
    variable: Seq<u8>,
    handles: Seq<u8>,
    commands: Seq<u8>,
)
    ensures
        probe_result(fixed, variable, handles, commands) is Ok <==> {
            &&& property_list(fixed) is Ok
            &&& property_list(variable) is Ok
            &&& word_list(handles, 1) is Ok
            &&& word_list(commands, 2) is Ok
        },
{
}

} // verus!
