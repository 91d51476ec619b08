//! A temporary NV counter in a TPM: the packets, the answers, and the course of a
//! live test that defines a counter, advances it once and removes it again.
use crate::bytes;
use crate::bytes::{be_u16, be_u32, be_u64, push_u16_be, push_u32_be, put_bytes};
use crate::node;
use crate::sec005;
use crate::sec005::{bad_size_message, read_words, with_code};
use crate::text;
use crate::text::{
    chars_of, concat2, fault_text, parse_number, text, text_is, trim, with_number, with_numbers,
    NumberFault,
};
use vstd::prelude::*;

verus! {

pub const TPM_ST_NO_SESSIONS: u16 = 0x8001;

pub const TPM_ST_SESSIONS: u16 = 0x8002;

pub const TPM_CC_GET_CAPABILITY: u32 = 0x0000_017A;

pub const TPM_CC_NV_UNDEFINE_SPACE: u32 = 0x0000_0122;

pub const TPM_CC_NV_DEFINE_SPACE: u32 = 0x0000_012A;

pub const TPM_CC_NV_INCREMENT: u32 = 0x0000_0134;

pub const TPM_CC_NV_READ: u32 = 0x0000_014E;

pub const TPM_CAP_HANDLES: u32 = 0x0000_0001;

pub const TPM_NV_INDEX_FIRST: u32 = 0x0100_0000;

pub const TPM_RH_OWNER: u32 = 0x4000_0001;

pub const TPM_RS_PW: u32 = 0x4000_0009;

pub const TPM_ALG_SHA256: u16 = 0x000B;

/// The owner reads and writes; the index is a counter; no dictionary-attack
/// protection.
pub const CALIBRE_NV_ATTRS: u32 = 0x0202_0012;

pub const COUNTER_SIZE: u16 = 8;

pub const CANDIDATE_FIRST: u32 = 0x0150_4341;

pub const CANDIDATE_LAST: u32 = 0x0150_4360;

// ---------------------------------------------------------------------------
// Packets.
// ---------------------------------------------------------------------------

/// A command without a session.
pub open spec fn plain_packet(cc: u32, params: Seq<u8>) -> Seq<u8> {
    bytes::be16(TPM_ST_NO_SESSIONS) + bytes::be32((10 + params.len()) as u32) + bytes::be32(cc) + params
}

pub fn no_session_command(cc: u32, handles_and_params: &[u8]) -> (r: Vec<u8>)
    requires
        10 + handles_and_params@.len() <= usize::MAX,
    ensures
        r@ == plain_packet(cc, handles_and_params@),
{
    let mut out: Vec<u8> = Vec::new();
    push_u16_be(&mut out, TPM_ST_NO_SESSIONS);
    push_u32_be(&mut out, (10 + handles_and_params.len()) as u32);
    push_u32_be(&mut out, cc);
    put_bytes(&mut out, handles_and_params);
    assert(out@ =~= plain_packet(cc, handles_and_params@));
    out
}

/// A session that shows a password.
pub open spec fn password_bytes(owner: Seq<u8>) -> Seq<u8> {
    bytes::be32(TPM_RS_PW) + bytes::be16(0) + seq![0u8] + bytes::be16(owner.len() as u16) + owner
}

pub fn password_session(owner: &[u8]) -> (r: Vec<u8>)
    ensures
        r@ == password_bytes(owner@),
{
    let mut out: Vec<u8> = Vec::new();
    push_u32_be(&mut out, TPM_RS_PW);
    push_u16_be(&mut out, 0);
    out.push(0);
    push_u16_be(&mut out, owner.len() as u16);
    put_bytes(&mut out, owner);
    assert(out@ =~= password_bytes(owner@));
    out
}

/// How a handle enters a packet.
pub open spec fn handle_bytes() -> spec_fn(u32) -> Seq<u8> {
    |h: u32| bytes::be32(h)
}

/// The length of a command with a session.
pub open spec fn session_length(handles: Seq<u32>, params: Seq<u8>, owner: Seq<u8>) -> nat {
    10 + handles.len() * 4 + 4 + (9 + owner.len()) + params.len()
}

/// A command with a session.
pub open spec fn session_packet(cc: u32, handles: Seq<u32>, params: Seq<u8>, owner: Seq<u8>) -> Seq<
    u8,
> {
    bytes::be16(TPM_ST_SESSIONS) + bytes::be32(session_length(handles, params, owner) as u32) + bytes::be32(cc) + bytes::flat(
        handles,
        handle_bytes(),
    ) + bytes::be32((9 + owner.len()) as u32) + password_bytes(owner) + params
}

pub fn session_command(cc: u32, handles: &[u32], params: &[u8], owner: &[u8]) -> (r: Vec<u8>)
    requires
        session_length(handles@, params@, owner@) <= usize::MAX,
    ensures
        r@ == session_packet(cc, handles@, params@, owner@),
{
    let auth: Vec<u8> = password_session(owner);
    assert(auth@.len() == 9 + owner@.len());
    let total: usize = 10 + handles.len() * 4 + 4 + auth.len() + params.len();
    let mut out: Vec<u8> = Vec::new();
    push_u16_be(&mut out, TPM_ST_SESSIONS);
    push_u32_be(&mut out, total as u32);
    push_u32_be(&mut out, cc);
    let ghost head = out@;
    let mut i: usize = 0;
    proof {
        bytes::lemma_flat_ends(handles@, handle_bytes());
        assert(out@ =~= head + bytes::flat(handles@.subrange(0, 0), handle_bytes()));
    }
    while i < handles.len()
        invariant
            i <= handles@.len(),
            out@ == head + bytes::flat(handles@.subrange(0, i as int), handle_bytes()),
        decreases handles@.len() - i,
    {
        push_u32_be(&mut out, handles[i]);
        proof {
            bytes::lemma_flat_step(handles@, handle_bytes(), i as int);
            assert(out@ =~= head + (bytes::flat(handles@.subrange(0, i as int), handle_bytes())
                + handle_bytes()(handles@[i as int])));
        }
        i = i + 1;
    }
    push_u32_be(&mut out, auth.len() as u32);
    put_bytes(&mut out, &auth);
    put_bytes(&mut out, params);
    proof {
        bytes::lemma_flat_ends(handles@, handle_bytes());
        assert(out@ =~= session_packet(cc, handles@, params@, owner@));
    }
    out
}

/// The packet that asks for the NV indexes in use.
pub open spec fn handles_packet() -> Seq<u8> {
    plain_packet(
        TPM_CC_GET_CAPABILITY,
        bytes::be32(TPM_CAP_HANDLES) + bytes::be32(TPM_NV_INDEX_FIRST) + bytes::be32(256),
    )
}

pub fn getcap_handles_command() -> (r: Vec<u8>)
    ensures
        r@ == handles_packet(),
{
    let mut params: Vec<u8> = Vec::new();
    push_u32_be(&mut params, TPM_CAP_HANDLES);
    push_u32_be(&mut params, TPM_NV_INDEX_FIRST);
    push_u32_be(&mut params, 256);
    assert(params@ =~= bytes::be32(TPM_CAP_HANDLES) + bytes::be32(TPM_NV_INDEX_FIRST) + bytes::be32(256));
    no_session_command(TPM_CC_GET_CAPABILITY, &params)
}

/// The public area of a counter.
pub open spec fn counter_public(handle: u32) -> Seq<u8> {
    bytes::be32(handle) + bytes::be16(TPM_ALG_SHA256) + bytes::be32(CALIBRE_NV_ATTRS) + bytes::be16(0) + bytes::be16(COUNTER_SIZE)
}

/// The packet that defines a counter.
pub open spec fn define_packet(handle: u32, owner: Seq<u8>) -> Seq<u8> {
    session_packet(
        TPM_CC_NV_DEFINE_SPACE,
        seq![TPM_RH_OWNER],
        bytes::be16(0) + bytes::be16(14) + counter_public(handle),
        owner,
    )
}

/// An owner authorization is short enough for a packet.
pub open spec fn owner_fits(owner: Seq<u8>) -> bool {
    owner.len() + 64 <= usize::MAX
}

pub fn define_counter_command(handle: u32, owner: &[u8]) -> (r: Vec<u8>)
    requires
        owner_fits(owner@),
    ensures
        r@ == define_packet(handle, owner@),
{
    let mut public: Vec<u8> = Vec::new();
    push_u32_be(&mut public, handle);
    push_u16_be(&mut public, TPM_ALG_SHA256);
    push_u32_be(&mut public, CALIBRE_NV_ATTRS);
    push_u16_be(&mut public, 0);
    push_u16_be(&mut public, COUNTER_SIZE);
    assert(public@ =~= counter_public(handle));
    let mut params: Vec<u8> = Vec::new();
    push_u16_be(&mut params, 0);
    push_u16_be(&mut params, public.len() as u16);
    put_bytes(&mut params, &public);
    assert(params@ =~= bytes::be16(0) + bytes::be16(14) + counter_public(handle));
    let handles: [u32; 1] = [TPM_RH_OWNER];
    assert(handles@ =~= seq![TPM_RH_OWNER]);
    session_command(TPM_CC_NV_DEFINE_SPACE, &handles, &params, owner)
}

/// A packet on a counter that the owner authorizes.
pub open spec fn counter_packet(cc: u32, handle: u32, params: Seq<u8>, owner: Seq<u8>) -> Seq<u8> {
    session_packet(cc, seq![TPM_RH_OWNER, handle], params, owner)
}

fn counter_command(cc: u32, handle: u32, params: &[u8], owner: &[u8]) -> (r: Vec<u8>)
    requires
        owner_fits(owner@),
        params@.len() <= 4,
    ensures
        r@ == counter_packet(cc, handle, params@, owner@),
{
    let handles: [u32; 2] = [TPM_RH_OWNER, handle];
    assert(handles@ =~= seq![TPM_RH_OWNER, handle]);
    session_command(cc, &handles, params, owner)
}

/// The packet that advances a counter.
pub open spec fn increment_packet(handle: u32, owner: Seq<u8>) -> Seq<u8> {
    counter_packet(TPM_CC_NV_INCREMENT, handle, Seq::empty(), owner)
}

pub fn increment_counter_command(handle: u32, owner: &[u8]) -> (r: Vec<u8>)
    requires
        owner_fits(owner@),
    ensures
        r@ == increment_packet(handle, owner@),
{
    let none: Vec<u8> = Vec::new();
    assert(none@ =~= Seq::empty());
    counter_command(TPM_CC_NV_INCREMENT, handle, &none, owner)
}

/// The packet that reads a counter.
pub open spec fn read_packet(handle: u32, owner: Seq<u8>) -> Seq<u8> {
    counter_packet(TPM_CC_NV_READ, handle, bytes::be16(COUNTER_SIZE) + bytes::be16(0), owner)
}

pub fn read_counter_command(handle: u32, owner: &[u8]) -> (r: Vec<u8>)
    requires
        owner_fits(owner@),
    ensures
        r@ == read_packet(handle, owner@),
{
    let mut params: Vec<u8> = Vec::new();
    push_u16_be(&mut params, COUNTER_SIZE);
    push_u16_be(&mut params, 0);
    assert(params@ =~= bytes::be16(COUNTER_SIZE) + bytes::be16(0));
    counter_command(TPM_CC_NV_READ, handle, &params, owner)
}

/// The packet that removes a counter.
pub open spec fn undefine_packet(handle: u32, owner: Seq<u8>) -> Seq<u8> {
    counter_packet(TPM_CC_NV_UNDEFINE_SPACE, handle, Seq::empty(), owner)
}

pub fn undefine_counter_command(handle: u32, owner: &[u8]) -> (r: Vec<u8>)
    requires
        owner_fits(owner@),
    ensures
        r@ == undefine_packet(handle, owner@),
{
    let none: Vec<u8> = Vec::new();
    assert(none@ =~= Seq::empty());
    counter_command(TPM_CC_NV_UNDEFINE_SPACE, handle, &none, owner)
}

// ---------------------------------------------------------------------------
// Answers.
// ---------------------------------------------------------------------------

/// The verdict on the header of a response.
pub open spec fn header_verdict(b: Seq<u8>) -> Result<(), Seq<char>> {
    if b.len() < 10 {
        Err("TPM response shorter than header"@)
    } else if sec005::declared_size(b) < 10 || sec005::declared_size(b) > b.len() {
        Err(sec005::bad_size(b))
    } else {
        Ok(())
    }
}

pub fn check_header(response: &[u8]) -> (r: Result<(), String>)
    ensures
        text::shown(r) == header_verdict(response@),
{
    if response.len() < 10 {
        return Err(text("TPM response shorter than header"));
    }
    let declared: u32 = be_u32(&response[2..6]);
    if declared < 10 || declared as u64 > response.len() as u64 {
        return Err(bad_size_message(response, declared));
    }
    Ok(())
}

pub fn tpm_rc(response: &[u8]) -> (r: u32)
    requires
        response@.len() >= 10,
    ensures
        r == sec005::response_code(response@),
{
    be_u32(&response[6..10])
}

/// The verdict on the code of a response.
pub open spec fn success_verdict(b: Seq<u8>, operation: Seq<char>) -> Result<(), Seq<char>> {
    if sec005::response_code(b) != 0 {
        Err(operation + ": TPM returned 0x"@ + text::hex(sec005::response_code(b) as nat, 8))
    } else {
        Ok(())
    }
}

pub fn require_success(response: &[u8], operation: &str) -> (r: Result<(), String>)
    requires
        response@.len() >= 10,
    ensures
        text::shown(r) == success_verdict(response@, operation@),
{
    let rc: u32 = tpm_rc(response);
    if rc != 0 {
        let head: String = concat2(operation, ": TPM returned 0x");
        return Err(with_code(head.as_str(), rc));
    }
    Ok(())
}

/// The verdict on a response to an operation.
pub open spec fn reply_verdict(b: Seq<u8>, operation: Seq<char>) -> Result<(), Seq<char>> {
    match header_verdict(b) {
        Err(e) => Err(e),
        Ok(_) => success_verdict(b, operation),
    }
}

/// Checks the response to an operation.
pub fn check_reply(response: &[u8], operation: &str) -> (r: Result<(), String>)
    ensures
        text::shown(r) == reply_verdict(response@, operation@),
{
    check_header(response)?;
    require_success(response, operation)
}

/// The NV indexes that a response lists, or why the response is refused.
pub open spec fn listed_handles(b: Seq<u8>) -> Result<Seq<u32>, Seq<char>> {
    match reply_verdict(b, "GetCapability handles"@) {
        Err(e) => Err(e),
        Ok(_) => if b.len() < 19 {
            Err("GetCapability handles response too short"@)
        } else if bytes::from_be32(b.subrange(11, 15)) != TPM_CAP_HANDLES {
            Err(
                "GetCapability returned unexpected capability 0x"@ + text::hex(
                    bytes::from_be32(b.subrange(11, 15)) as nat,
                    8,
                ),
            )
        } else if b.len() < 19 + bytes::from_be32(b.subrange(15, 19)) * 4 {
            Err("GetCapability handle list truncated"@)
        } else {
            Ok(sec005::words(b, bytes::from_be32(b.subrange(15, 19)) as nat))
        },
    }
}

pub fn existing_nv_handles(response: &[u8]) -> (r: Result<Vec<u32>, String>)
    ensures
        text::shown_view(r) == listed_handles(response@),
{
    check_reply(response, "GetCapability handles")?;
    if response.len() < 19 {
        return Err(text("GetCapability handles response too short"));
    }
    let cap: u32 = be_u32(&response[11..15]);
    if cap != TPM_CAP_HANDLES {
        return Err(with_code("GetCapability returned unexpected capability 0x", cap));
    }
    let count: u32 = be_u32(&response[15..19]);
    if (response.len() - 19) / 4 < count as usize {
        return Err(text("GetCapability handle list truncated"));
    }
    Ok(read_words(response, count as usize))
}

/// The first candidate from `h` on that is not in use.
pub open spec fn unused_from(existing: Seq<u32>, h: u32) -> Option<u32>
    decreases CANDIDATE_LAST + 1 - h,
{
    if h > CANDIDATE_LAST {
        None
    } else if !existing.contains(h) {
        Some(h)
    } else {
        unused_from(existing, (h + 1) as u32)
    }
}

fn in_use(existing: &Vec<u32>, h: u32) -> (r: bool)
    ensures
        r == existing@.contains(h),
{
    let mut i: usize = 0;
    while i < existing.len()
        invariant
            i <= existing@.len(),
            forall|k: int| 0 <= k < i ==> #[trigger] existing@[k] != h,
        decreases existing@.len() - i,
    {
        if existing[i] == h {
            assert(existing@[i as int] == h);
            return true;
        }
        i = i + 1;
    }
    false
}

/// Picks an index that is not in use.
pub fn select_handle(existing: &Vec<u32>) -> (r: Result<u32, String>)
    ensures
        match unused_from(existing@, CANDIDATE_FIRST) {
            Some(h) => r == Ok::<u32, String>(h),
            None => r is Err && r->Err_0@ == "no unused CALIBRE candidate NV handle found"@,
        },
{
    let mut h: u32 = CANDIDATE_FIRST;
    while h <= CANDIDATE_LAST
        invariant
            CANDIDATE_FIRST <= h <= CANDIDATE_LAST + 1,
            unused_from(existing@, CANDIDATE_FIRST) == unused_from(existing@, h),
        decreases CANDIDATE_LAST + 1 - h,
    {
        if !in_use(existing, h) {
            return Ok(h);
        }
        h = h + 1;
    }
    Err(text("no unused CALIBRE candidate NV handle found"))
}

/// Where the parameters of a response to a read start.
pub open spec fn params_start(b: Seq<u8>) -> int {
    if bytes::from_be16(b.subrange(0, 2)) == TPM_ST_SESSIONS {
        14
    } else {
        10
    }
}

/// The value of the counter that a response holds, or why the response is
/// refused.
pub open spec fn counter_result(b: Seq<u8>) -> Result<u64, Seq<char>> {
    match reply_verdict(b, "NV_Read"@) {
        Err(e) => Err(e),
        Ok(_) => {
            let start = params_start(b);
            if start == 14 && b.len() < 14 {
                Err("NV_Read session response too short"@)
            } else if b.len() < start + 2 {
                Err("NV_Read missing TPM2B size"@)
            } else {
                let size = bytes::from_be16(b.subrange(start, start + 2));
                if size != COUNTER_SIZE || b.len() < start + 2 + size {
                    Err("NV_Read counter data size invalid: "@ + text::dec(size as nat) + ""@)
                } else {
                    Ok(bytes::from_be64(b.subrange(start + 2, start + 10)))
                }
            }
        },
    }
}

pub fn counter_value(response: &[u8]) -> (r: Result<u64, String>)
    ensures
        text::shown(r) == counter_result(response@),
{
    check_reply(response, "NV_Read")?;
    let start: usize = if be_u16(&response[0..2]) == TPM_ST_SESSIONS {
        if response.len() < 14 {
            return Err(text("NV_Read session response too short"));
        }
        14
    } else {
        10
    };
    if response.len() < start + 2 {
        return Err(text("NV_Read missing TPM2B size"));
    }
    let size: u16 = be_u16(&response[start..start + 2]);
    if size != COUNTER_SIZE || response.len() < start + 2 + size as usize {
        return Err(with_number("NV_Read counter data size invalid: ", size as u64, ""));
    }
    Ok(be_u64(&response[start + 2..start + 10]))
}

// ---------------------------------------------------------------------------
// Arguments.
// ---------------------------------------------------------------------------

/// The handle that a text names.
pub open spec fn handle_result(s: Seq<char>) -> Result<u32, Seq<char>> {
    let t = text::trimmed(s);
    let parsed = if t.len() >= 2 && t[0] == '0' && (t[1] == 'x' || t[1] == 'X') {
        text::parsed_number(t.skip(2), 16, u32::MAX as nat)
    } else {
        text::parsed_number(t, 10, u32::MAX as nat)
    };
    match parsed {
        Ok(n) => Ok(n as u32),
        Err(fault) => Err("invalid handle: "@ + text::fault_words(fault)),
    }
}

pub fn parse_handle(s: &str) -> (r: Result<u32, String>)
    ensures
        text::shown(r) == handle_result(s@),
{
    let chars: Vec<char> = chars_of(s);
    let t: Vec<char> = trim(&chars);
    let parsed: Result<u64, NumberFault> = if t.len() >= 2 && t[0] == '0' && (t[1] == 'x' || t[1]
        == 'X') {
        let rest: &[char] = &t.as_slice()[2..t.len()];
        assert(rest@ =~= t@.skip(2));
        parse_number(rest, 16, u32::MAX as u64)
    } else {
        parse_number(&t, 10, u32::MAX as u64)
    };
    match parsed {
        Ok(n) => Ok(n as u32),
        Err(fault) => Err(concat2("invalid handle: ", fault_text(fault))),
    }
}

/// What the program is asked to do.
#[derive(Clone, Copy, Debug, PartialEq, Eq, Structural)]
pub enum Mode {
    Probe,
    LiveCounterTest,
    ChildReadCounter(u32),
}

/// What the arguments, the program's name among them, ask for.
pub open spec fn mode_result(args: Seq<Seq<char>>) -> Result<Mode, Seq<char>> {
    if args.len() < 2 {
        Ok(Mode::Probe)
    } else if args[1] == "--live-counter-test"@ {
        Ok(Mode::LiveCounterTest)
    } else if args[1] == "--child-read-counter"@ {
        if args.len() < 3 {
            Err("missing child handle"@)
        } else {
            match handle_result(args[2]) {
                Ok(handle) => Ok(Mode::ChildReadCounter(handle)),
                Err(e) => Err(e),
            }
        }
    } else {
        Err("unknown argument: "@ + args[1])
    }
}

pub fn parse_mode(args: &Vec<String>) -> (r: Result<Mode, String>)
    ensures
        text::shown(r) == mode_result(node::texts(args@)),
{
    if args.len() < 2 {
        return Ok(Mode::Probe);
    }
    assert(node::texts(args@)[1] == args@[1]@);
    if text_is(args[1].as_str(), "--live-counter-test") {
        return Ok(Mode::LiveCounterTest);
    }
    proof {
        reveal_strlit("--live-counter-test");
        reveal_strlit("--child-read-counter");
        assert("--live-counter-test"@.len() != "--child-read-counter"@.len());
    }
    if text_is(args[1].as_str(), "--child-read-counter") {
        if args.len() < 3 {
            return Err(text("missing child handle"));
        }
        let handle: u32 = parse_handle(args[2].as_str())?;
        return Ok(Mode::ChildReadCounter(handle));
    }
    Err(concat2("unknown argument: ", args[1].as_str()))
}

/// Whether a live test was agreed to.
pub open spec fn ack_given(ack: Option<Seq<char>>) -> bool {
    ack == Some("ADVANCE_TPM_COUNTER"@)
}

pub fn live_test_allowed(ack: &Option<String>) -> (r: Result<(), String>)
    ensures
        text::shown(r) == if ack is Some && ack_given(Some(ack->Some_0@)) {
            Ok::<(), Seq<char>>(())
        } else {
            Err(
                "live test refused. Set CALIBRE_TPM_ACK=ADVANCE_TPM_COUNTER only after accepting that the TPM lifetime counter high-water mark may permanently advance"@,
            )
        },
{
    if let Some(word) = ack {
        if text_is(word.as_str(), "ADVANCE_TPM_COUNTER") {
            return Ok(());
        }
    }
    Err(
        text(
            "live test refused. Set CALIBRE_TPM_ACK=ADVANCE_TPM_COUNTER only after accepting that the TPM lifetime counter high-water mark may permanently advance",
        ),
    )
}

// ---------------------------------------------------------------------------
// What another process printed.
// ---------------------------------------------------------------------------

/// Where the line that starts at `i` ends.
pub open spec fn line_end(s: Seq<char>, i: int) -> int
    decreases s.len() - i,
{
    if i < 0 || i >= s.len() {
        s.len() as int
    } else if s[i] == '\n' {
        i
    } else {
        line_end(s, i + 1)
    }
}

/// What follows the tag in the first line from `i` on that starts with it.
pub open spec fn tagged_line(s: Seq<char>, tag: Seq<char>, i: int) -> Option<Seq<char>>
    decreases s.len() - i,
    when 0 <= i
    via tagged_line_decreases
{
    if i >= s.len() {
        None
    } else {
        let line = s.subrange(i, line_end(s, i));
        if tag.is_prefix_of(line) {
            Some(line.skip(tag.len() as int))
        } else if line_end(s, i) >= s.len() {
            None
        } else {
            tagged_line(s, tag, line_end(s, i) + 1)
        }
    }
}

#[via_fn]
proof fn tagged_line_decreases(s: Seq<char>, tag: Seq<char>, i: int) {
    if i < s.len() {
        lemma_line_end(s, i);
    }
}

proof fn lemma_line_end(s: Seq<char>, i: int)
    requires
        0 <= i <= s.len(),
    ensures
        i <= line_end(s, i) <= s.len(),
    decreases s.len() - i,
{
    if i < s.len() && s[i] != '\n' {
        lemma_line_end(s, i + 1);
    }
}

/// The counter that another process printed.
pub open spec fn printed_counter(stdout: Seq<char>) -> Result<u64, Seq<char>> {
    match tagged_line(stdout, "COUNTER="@, 0) {
        None => Err("child output missing counter: "@ + stdout),
        Some(rest) => match text::parsed_number(text::trimmed(rest), 10, u64::MAX as nat) {
            Ok(n) => Ok(n as u64),
            Err(fault) => Err("parse child counter: "@ + text::fault_words(fault)),
        },
    }
}

fn find_line_end(s: &Vec<char>, i: usize) -> (r: usize)
    requires
        i <= s@.len(),
    ensures
        r == line_end(s@, i as int),
        i <= r <= s@.len(),
{
    let mut k: usize = i;
    while k < s.len() && s[k] != '\n'
        invariant
            i <= k <= s@.len(),
            line_end(s@, i as int) == line_end(s@, k as int),
        decreases s@.len() - k,
    {
        k = k + 1;
    }
    k
}

fn starts_with(s: &Vec<char>, start: usize, end: usize, tag: &Vec<char>) -> (r: bool)
    requires
        start <= end <= s@.len(),
    ensures
        r == tag@.is_prefix_of(s@.subrange(start as int, end as int)),
{
    let ghost line = s@.subrange(start as int, end as int);
    if tag.len() > end - start {
        return false;
    }
    let mut k: usize = 0;
    while k < tag.len()
        invariant
            k <= tag@.len() <= end - start,
            start <= end <= s@.len(),
            line == s@.subrange(start as int, end as int),
            forall|j: int| 0 <= j < k ==> tag@[j] == line[j],
        decreases tag@.len() - k,
    {
        if s[start + k] != tag[k] {
            proof {
                assert(line[k as int] != tag@[k as int]);
                if tag@.is_prefix_of(line) {
                    assert(tag@[k as int] == line.subrange(0, tag@.len() as int)[k as int]);
                }
            }
            return false;
        }
        k = k + 1;
    }
    assert(tag@ =~= line.subrange(0, tag@.len() as int));
    true
}

/// Finds what follows the tag in the first line that starts with it.
fn find_tagged(s: &Vec<char>, tag: &Vec<char>) -> (r: Option<Vec<char>>)
    ensures
        match tagged_line(s@, tag@, 0) {
            None => r is None,
            Some(rest) => r is Some && r->Some_0@ == rest,
        },
{
    let size: usize = s.len();
    let mut i: usize = 0;
    while i < size
        invariant
            size == s@.len(),
            0 <= i <= size,
            tagged_line(s@, tag@, 0) == tagged_line(s@, tag@, i as int),
        decreases size - i,
    {
        let end: usize = find_line_end(s, i);
        if starts_with(s, i, end, tag) {
            let rest: Vec<char> = crate::bytes::copy_slice(&s.as_slice()[i + tag.len()..end]);
            assert(rest@ =~= s@.subrange(i as int, end as int).skip(tag@.len() as int));
            return Some(rest);
        }
        if end == size {
            return None;
        }
        i = end + 1;
    }
    None
}

/// Reads the counter that another process printed.
pub fn child_counter(stdout: &str) -> (r: Result<u64, String>)
    ensures
        text::shown(r) == printed_counter(stdout@),
{
    let chars: Vec<char> = chars_of(stdout);
    let tag: Vec<char> = chars_of("COUNTER=");
    match find_tagged(&chars, &tag) {
        None => Err(concat2("child output missing counter: ", stdout)),
        Some(rest) => {
            let value: Vec<char> = trim(&rest);
            match parse_number(&value, 10, u64::MAX) {
                Ok(n) => Ok(n),
                Err(fault) => Err(concat2("parse child counter: ", fault_text(fault))),
            }
        },
    }
}

// ---------------------------------------------------------------------------
// The live test.
// ---------------------------------------------------------------------------

/// Where a live test stands: what is awaited next.
#[derive(Clone, Copy, Debug, PartialEq, Eq, Structural)]
pub enum LiveStage {
    Define,
    ReadInitial,
    Increment,
    ReadAdvanced,
    ReadChild,
    Undefine,
    ListHandles,
    Done,
    Failed,
}

/// A live test on one temporary counter.
#[derive(Debug)]
pub struct LiveRun {
    handle: u32,
    stage: LiveStage,
    created: bool,
    initial: u64,
    advanced: u64,
    failure: String,
    lines: Vec<String>,
}

/// The mathematical content of a [`LiveRun`].
#[verifier::ext_equal]
pub struct LiveModel {
    pub handle: u32,
    pub stage: LiveStage,
    /// The temporary counter exists and has to be removed.
    pub created: bool,
    pub initial: u64,
    pub advanced: u64,
    pub failure: Seq<char>,
    pub lines: Seq<Seq<char>>,
}

impl View for LiveRun {
    type V = LiveModel;

    closed spec fn view(&self) -> LiveModel {
        LiveModel {
            handle: self.handle,
            stage: self.stage,
            created: self.created,
            initial: self.initial,
            advanced: self.advanced,
            failure: self.failure@,
            lines: node::texts(self.lines@),
        }
    }
}

/// The test at its start.
pub open spec fn live_start(handle: u32) -> LiveModel {
    LiveModel {
        handle,
        stage: LiveStage::Define,
        created: false,
        initial: 0,
        advanced: 0,
        failure: ""@,
        lines: Seq::empty(),
    }
}

/// What a test in order knows: past the second read, the counter has advanced, and
/// the counter is there exactly from its definition to its removal.
pub open spec fn live_ok(m: LiveModel) -> bool {
    &&& m.stage is ReadChild || m.stage is Undefine || m.stage is ListHandles || m.stage is Done
        ==> m.advanced > m.initial
    &&& m.stage is Define || m.stage is ListHandles || m.stage is Done ==> !m.created
    &&& m.stage is ReadInitial || m.stage is Increment || m.stage is ReadAdvanced
        || m.stage is ReadChild || m.stage is Undefine ==> m.created
}

/// The test failed.
pub open spec fn live_failed(m: LiveModel, failure: Seq<char>) -> LiveModel {
    LiveModel { stage: LiveStage::Failed, failure, ..m }
}

/// The packet that the test sends next, if it sends one.
pub open spec fn live_packet(m: LiveModel, owner: Seq<u8>) -> Option<Seq<u8>> {
    match m.stage {
        LiveStage::Define => Some(define_packet(m.handle, owner)),
        LiveStage::ReadInitial => Some(read_packet(m.handle, owner)),
        LiveStage::Increment => Some(increment_packet(m.handle, owner)),
        LiveStage::ReadAdvanced => Some(read_packet(m.handle, owner)),
        LiveStage::ReadChild => None,
        LiveStage::Undefine => Some(undefine_packet(m.handle, owner)),
        LiveStage::ListHandles => Some(handles_packet()),
        LiveStage::Done => None,
        LiveStage::Failed => None,
    }
}

/// The test after the second read.
pub open spec fn after_advance(m: LiveModel, advanced: u64) -> LiveModel {
    let told = LiveModel {
        advanced,
        lines: m.lines.push("COUNTER AFTER ONE INCREMENT: "@ + text::dec(advanced as nat) + ""@),
        ..m
    };
    if advanced <= m.initial {
        live_failed(
            told,
            "monotonicity failure: initial="@ + text::dec(m.initial as nat) + " advanced="@ + text::dec(
                advanced as nat,
            ),
        )
    } else {
        LiveModel {
            stage: LiveStage::ReadChild,
            lines: told.lines.push("REAL TPM COUNTER MONOTONIC ADVANCE: PASS"@),
            ..told
        }
    }
}

/// The test after the answer to a packet.
pub open spec fn live_next(m: LiveModel, b: Seq<u8>) -> LiveModel {
    match m.stage {
        LiveStage::Define => match reply_verdict(b, "NV_DefineSpace"@) {
            Err(e) => live_failed(m, e),
            Ok(_) => LiveModel {
                stage: LiveStage::ReadInitial,
                created: true,
                lines: m.lines.push("TEMPORARY NV COUNTER DEFINE: PASS"@),
                ..m
            },
        },
        LiveStage::ReadInitial => match counter_result(b) {
            Err(e) => live_failed(m, e),
            Ok(initial) => LiveModel {
                stage: LiveStage::Increment,
                initial,
                lines: m.lines.push(
                    "COUNTER BEFORE INCREMENT: "@ + text::dec(initial as nat) + ""@,
                ),
                ..m
            },
        },
        LiveStage::Increment => match reply_verdict(b, "NV_Increment"@) {
            Err(e) => live_failed(m, e),
            Ok(_) => LiveModel { stage: LiveStage::ReadAdvanced, ..m },
        },
        LiveStage::ReadAdvanced => match counter_result(b) {
            Err(e) => live_failed(m, e),
            Ok(advanced) => after_advance(m, advanced),
        },
        LiveStage::Undefine => match reply_verdict(b, "NV_UndefineSpace"@) {
            Err(e) => live_failed(m, e),
            Ok(_) => LiveModel { stage: LiveStage::ListHandles, created: false, ..m },
        },
        LiveStage::ListHandles => match listed_handles(b) {
            Err(e) => live_failed(m, e),
            Ok(handles) => if handles.contains(m.handle) {
                live_failed(m, "temporary NV handle still appears after undefine"@)
            } else {
                LiveModel {
                    stage: LiveStage::Done,
                    lines: m.lines.push("TEMPORARY NV COUNTER UNDEFINE/CLEANUP: PASS"@),
                    ..m
                }
            },
        },
        _ => m,
    }
}

/// The test after another process read the counter.
pub open spec fn live_child(m: LiveModel, stdout: Seq<char>) -> LiveModel {
    match printed_counter(stdout) {
        Err(e) => live_failed(m, e),
        Ok(value) => if value != m.advanced {
            live_failed(
                m,
                "process-restart persistence mismatch: parent="@ + text::dec(m.advanced as nat)
                    + " child="@ + text::dec(value as nat),
            )
        } else {
            LiveModel {
                stage: LiveStage::Undefine,
                lines: m.lines.push(
                    "SEPARATE PROCESS REOPEN/READ SAME TPM COUNTER: PASS ("@ + text::dec(value as nat)
                        + ")"@,
                ).push(
                    "SOFTWARE SNAPSHOT ROLLBACK DETECTION: PASS (snapshot="@ + text::dec(
                        m.initial as nat,
                    ) + ", TPM="@ + text::dec(m.advanced as nat) + ")"@,
                ),
                ..m
            }
        },
    }
}

impl LiveRun {
    /// A test on the counter with this handle.
    pub fn begin(handle: u32) -> (r: Self)
        ensures
            r@ == live_start(handle),
            live_ok(r@),
    {
        let run: LiveRun = LiveRun {
            handle,
            stage: LiveStage::Define,
            created: false,
            initial: 0,
            advanced: 0,
            failure: text(""),
            lines: Vec::new(),
        };
        assert(node::texts(run.lines@) =~= Seq::empty());
        run
    }

    pub fn stage(&self) -> (r: LiveStage)
        ensures
            r == self@.stage,
    {
        self.stage
    }

    /// Whether the temporary counter exists, so that a test that failed has to
    /// remove it.
    pub fn created(&self) -> (r: bool)
        ensures
            r == self@.created,
    {
        self.created
    }

    /// Why the test failed.
    pub fn failure(&self) -> (r: String)
        ensures
            r@ == self@.failure,
    {
        text(self.failure.as_str())
    }

    /// What the test has to tell so far.
    pub fn lines(&self) -> (r: &Vec<String>)
        ensures
            node::texts(r@) == self@.lines,
    {
        &self.lines
    }

    /// The packet to send next, if there is one.
    pub fn command(&self, owner: &[u8]) -> (r: Option<Vec<u8>>)
        requires
            owner_fits(owner@),
        ensures
            match live_packet(self@, owner@) {
                None => r is None,
                Some(p) => r is Some && r->Some_0@ == p,
            },
    {
        match self.stage {
            LiveStage::Define => Some(define_counter_command(self.handle, owner)),
            LiveStage::ReadInitial => Some(read_counter_command(self.handle, owner)),
            LiveStage::Increment => Some(increment_counter_command(self.handle, owner)),
            LiveStage::ReadAdvanced => Some(read_counter_command(self.handle, owner)),
            LiveStage::Undefine => Some(undefine_counter_command(self.handle, owner)),
            LiveStage::ListHandles => Some(getcap_handles_command()),
            LiveStage::ReadChild => None,
            LiveStage::Done => None,
            LiveStage::Failed => None,
        }
    }

    /// Notes that a packet could not be sent, or the other process not run.
    pub fn fail(&mut self, failure: String)
        requires
            live_ok(old(self)@),
        ensures
            final(self)@ == live_failed(old(self)@, failure@),
            live_ok(final(self)@),
    {
        self.stage = LiveStage::Failed;
        self.failure = failure;
    }

    fn tell(&mut self, line: String)
        ensures
            final(self)@ == (LiveModel { lines: old(self)@.lines.push(line@), ..old(self)@ }),
    {
        let ghost before = node::texts(self.lines@);
        self.lines.push(line);
        assert(node::texts(self.lines@) =~= before.push(line@));
    }

    fn take_advance(&mut self, advanced: u64)
        requires
            live_ok(old(self)@),
            old(self)@.stage is ReadAdvanced,
        ensures
            final(self)@ == after_advance(old(self)@, advanced),
            live_ok(final(self)@),
    {
        self.advanced = advanced;
        self.tell(with_number("COUNTER AFTER ONE INCREMENT: ", advanced, ""));
        if advanced <= self.initial {
            let failure: String = with_numbers(
                "monotonicity failure: initial=",
                self.initial,
                " advanced=",
                advanced,
            );
            self.fail(failure);
            return;
        }
        self.tell(text("REAL TPM COUNTER MONOTONIC ADVANCE: PASS"));
        self.stage = LiveStage::ReadChild;
    }

    fn take_handles(&mut self, response: &[u8]) -> (r: Result<(), String>)
        requires
            live_ok(old(self)@),
            old(self)@.stage is ListHandles,
        ensures
            match r {
                Err(e) => final(self)@ == old(self)@ && live_next(old(self)@, response@)
                    == live_failed(old(self)@, e@),
                Ok(_) => final(self)@ == live_next(old(self)@, response@) && live_ok(
                    final(self)@,
                ),
            },
    {
        let handles: Vec<u32> = existing_nv_handles(response)?;
        if in_use(&handles, self.handle) {
            return Err(text("temporary NV handle still appears after undefine"));
        }
        self.tell(text("TEMPORARY NV COUNTER UNDEFINE/CLEANUP: PASS"));
        self.stage = LiveStage::Done;
        Ok(())
    }

    fn take_success(&mut self, response: &[u8]) -> (r: Result<(), String>)
        requires
            live_ok(old(self)@),
            live_packet(old(self)@, Seq::empty()) is Some,
        ensures
            match r {
                Err(e) => final(self)@ == old(self)@ && live_next(old(self)@, response@)
                    == live_failed(old(self)@, e@),
                Ok(_) => final(self)@ == live_next(old(self)@, response@) && live_ok(
                    final(self)@,
                ),
            },
    {
        match self.stage {
            LiveStage::Define => {
                check_reply(response, "NV_DefineSpace")?;
                self.created = true;
                self.tell(text("TEMPORARY NV COUNTER DEFINE: PASS"));
                self.stage = LiveStage::ReadInitial;
            },
            LiveStage::ReadInitial => {
                let initial: u64 = counter_value(response)?;
                self.initial = initial;
                self.tell(with_number("COUNTER BEFORE INCREMENT: ", initial, ""));
                self.stage = LiveStage::Increment;
            },
            LiveStage::Increment => {
                check_reply(response, "NV_Increment")?;
                self.stage = LiveStage::ReadAdvanced;
            },
            LiveStage::ReadAdvanced => {
                let advanced: u64 = counter_value(response)?;
                self.take_advance(advanced);
            },
            LiveStage::Undefine => {
                check_reply(response, "NV_UndefineSpace")?;
                self.created = false;
                self.stage = LiveStage::ListHandles;
            },
            LiveStage::ListHandles => {
                self.take_handles(response)?;
            },
            LiveStage::ReadChild => {},
            LiveStage::Done => {},
            LiveStage::Failed => {},
        }
        Ok(())
    }

    /// Takes the answer to the packet.
    pub fn take(&mut self, response: &[u8])
        requires
            live_ok(old(self)@),
            live_packet(old(self)@, Seq::empty()) is Some,
        ensures
            final(self)@ == live_next(old(self)@, response@),
            live_ok(final(self)@),
    {
        match self.take_success(response) {
            Ok(_) => {},
            Err(e) => {
                self.fail(e);
            },
        }
    }

    /// Takes what another process printed when it read the counter.
    pub fn take_child(&mut self, stdout: &str)
        requires
            live_ok(old(self)@),
            old(self)@.stage is ReadChild,
        ensures
            final(self)@ == live_child(old(self)@, stdout@),
            live_ok(final(self)@),
    {
        match child_counter(stdout) {
            Err(e) => {
                self.fail(e);
            },
            Ok(value) => {
                if value != self.advanced {
                    let failure: String = with_numbers(
                        "process-restart persistence mismatch: parent=",
                        self.advanced,
                        " child=",
                        value,
                    );
                    self.fail(failure);
                } else {
                    self.tell(
                        with_number(
                            "SEPARATE PROCESS REOPEN/READ SAME TPM COUNTER: PASS (",
                            value,
                            ")",
                        ),
                    );
                    let mut line: String = with_numbers(
                        "SOFTWARE SNAPSHOT ROLLBACK DETECTION: PASS (snapshot=",
                        self.initial,
                        ", TPM=",
                        self.advanced,
                    );
                    line.append(")");
                    self.tell(line);
                    self.stage = LiveStage::Undefine;
                }
            },
        }
    }
}

// ---------------------------------------------------------------------------
// Laws.
// ---------------------------------------------------------------------------

proof fn lemma_handles_length(handles: Seq<u32>)
    ensures
        bytes::flat(handles, handle_bytes()).len() == 4 * handles.len(),
    decreases handles.len(),
{
    broadcast use bytes::lemma_be32;

    if handles.len() > 0 {
        lemma_handles_length(handles.drop_last());
    }
}

/// A command with a session is as long as it declares, carries the session tag and
/// the command, and starts its handles with the owner.
pub proof fn law_session_packet(cc: u32, handles: Seq<u32>, params: Seq<u8>, owner: Seq<u8>)
    requires
        session_length(handles, params, owner) <= u32::MAX,
    ensures
        ({
            let p = session_packet(cc, handles, params, owner);
            &&& p.len() == session_length(handles, params, owner)
            &&& bytes::from_be16(p.subrange(0, 2)) == TPM_ST_SESSIONS
            &&& bytes::from_be32(p.subrange(2, 6)) == p.len()
            &&& bytes::from_be32(p.subrange(6, 10)) == cc
            &&& handles.len() > 0 ==> bytes::from_be32(p.subrange(10, 14)) == handles[0]
        }),
{
    broadcast use {bytes::lemma_be16, bytes::lemma_be32};

    lemma_handles_length(handles);
    let p = session_packet(cc, handles, params, owner);
    assert(password_bytes(owner).len() == 9 + owner.len());
    assert(p.subrange(0, 2) =~= bytes::be16(TPM_ST_SESSIONS));
    assert(p.subrange(2, 6) =~= bytes::be32(session_length(handles, params, owner) as u32));
    assert(p.subrange(6, 10) =~= bytes::be32(cc));
    if handles.len() > 0 {
        bytes::lemma_flat_first(handles, handle_bytes());
        assert(p.subrange(10, 14) =~= bytes::be32(handles[0]));
    }
}

/// A session shows the authorization as it is.
pub proof fn law_password_session(owner: Seq<u8>)
    requires
        owner.len() <= u16::MAX,
    ensures
        ({
            let s = password_bytes(owner);
            &&& bytes::from_be32(s.subrange(0, 4)) == TPM_RS_PW
            &&& bytes::from_be16(s.subrange(4, 6)) == 0
            &&& s[6] == 0
            &&& bytes::from_be16(s.subrange(7, 9)) == owner.len()
            &&& s.skip(9) == owner
        }),
{
    broadcast use {bytes::lemma_be16, bytes::lemma_be32};

    let s = password_bytes(owner);
    assert(s.subrange(0, 4) =~= bytes::be32(TPM_RS_PW));
    assert(s.subrange(4, 6) =~= bytes::be16(0));
    assert(s.subrange(7, 9) =~= bytes::be16(owner.len() as u16));
    assert(s.skip(9) =~= owner);
}

proof fn lemma_unused(existing: Seq<u32>, h: u32)
    requires
        unused_from(existing, h) is Some,
    ensures
        h <= unused_from(existing, h)->Some_0 <= CANDIDATE_LAST,
        !existing.contains(unused_from(existing, h)->Some_0),
    decreases CANDIDATE_LAST + 1 - h,
{
    if existing.contains(h) {
        lemma_unused(existing, (h + 1) as u32);
    }
}

/// The index that a test picks is a candidate that nobody uses.
pub proof fn law_selected_handle_is_unused(existing: Seq<u32>)
    requires
        unused_from(existing, CANDIDATE_FIRST) is Some,
    ensures
        ({
            let h = unused_from(existing, CANDIDATE_FIRST)->Some_0;
            &&& CANDIDATE_FIRST <= h <= CANDIDATE_LAST
            &&& !existing.contains(h)
        }),
{
    lemma_unused(existing, CANDIDATE_FIRST);
}

/// A test keeps its handle, and a test that ended stays as it is.
pub proof fn law_live_test_keeps_its_handle(m: LiveModel, b: Seq<u8>)
    ensures
        live_next(m, b).handle == m.handle,
        m.stage is Done || m.stage is Failed ==> live_next(m, b) == m,
{
}

/// A test that is done saw the counter advance, and removed it.
pub proof fn law_done_test_advanced_and_cleaned_up(m: LiveModel)
    requires
        live_ok(m),
        m.stage is Done,
    ensures
        m.advanced > m.initial,
        !m.created,
{
}

/// A test that fails leaves the counter behind exactly if it was there before, so
/// that whoever runs the test knows whether to remove it.
pub proof fn law_failed_test_knows_what_it_left(m: LiveModel, b: Seq<u8>)
    requires
        live_ok(m),
        !(m.stage is Failed),
        live_next(m, b).stage is Failed,
    ensures
        live_next(m, b).created == m.created,
{
}

proof fn lemma_lowest_unused(existing: Seq<u32>, h: u32)
    requires
        CANDIDATE_FIRST <= h <= CANDIDATE_LAST + 1,
    ensures
        match unused_from(existing, h) {
            Some(u) => h <= u <= CANDIDATE_LAST && !existing.contains(u) && forall|o: u32|
                h <= o < u ==> #[trigger] existing.contains(o),
            None => forall|o: u32| h <= o <= CANDIDATE_LAST ==> #[trigger] existing.contains(o),
        },
    decreases CANDIDATE_LAST + 1 - h,
{
    if h <= CANDIDATE_LAST && existing.contains(h) {
        lemma_lowest_unused(existing, (h + 1) as u32);
    }
}

/// The handle that is chosen is the lowest candidate that is not in use, and there is none
/// exactly if all thirty-two of them are.
pub proof fn law_lowest_unused_handle_is_chosen(existing: Seq<u32>)
    ensures
        match unused_from(existing, CANDIDATE_FIRST) {
            Some(h) => {
                &&& 0x0150_4341 <= h <= 0x0150_4360
                &&& !existing.contains(h)
                &&& forall|o: u32| 0x0150_4341 <= o < h ==> #[trigger] existing.contains(o)
            },
            None => forall|o: u32|
                0x0150_4341 <= o <= 0x0150_4360 ==> #[trigger] existing.contains(o),
        },
{
    lemma_lowest_unused(existing, CANDIDATE_FIRST);
}

/// A reply passes exactly if its header is there, the size it states holds the header and is
/// there, and the code in it is zero.
pub proof fn law_reply_passes_if(b: Seq<u8>, operation: Seq<char>)
    ensures
        reply_verdict(b, operation) is Ok <==> {
            &&& b.len() >= 10
            &&& 10 <= bytes::from_be32(b.subrange(2, 6)) <= b.len()
            &&& bytes::from_be32(b.subrange(6, 10)) == 0
        },
{
}

/// The handles in use are read exactly if the reply passes, is about handles, and holds as
/// many as it states. They are those, in their order.
pub proof fn law_handles_are_read_if(b: Seq<u8>, i: int)
    ensures
        ({
            let count = bytes::from_be32(b.subrange(15, 19));
            let r = listed_handles(b);
            &&& r is Ok <==> {
                &&& reply_verdict(b, "GetCapability handles"@) is Ok
                &&& b.len() >= 19
                &&& bytes::from_be32(b.subrange(11, 15)) == 1
                &&& b.len() >= 19 + 4 * count
            }
            &&& r matches Ok(list) ==> list.len() == count && (0 <= i < count ==> list[i]
                == bytes::from_be32(b.subrange(19 + 4 * i, 23 + 4 * i)))
        }),
{
}

/// The counter is read exactly if the reply passes and holds eight bytes of data behind
/// their size: after the header, or with sessions after the four bytes that follow it.
pub proof fn law_counter_is_read_if(b: Seq<u8>)
    ensures
        ({
            let start: int = if bytes::from_be16(b.subrange(0, 2)) == 0x8002 {
                14
            } else {
                10
            };
            let r = counter_result(b);
            &&& r is Ok <==> {
                &&& reply_verdict(b, "NV_Read"@) is Ok
                &&& b.len() >= start + 10
                &&& bytes::from_be16(b.subrange(start, start + 2)) == 8
            }
            &&& r matches Ok(value) ==> value == bytes::from_be64(
                b.subrange(start + 2, start + 10),
            )
        }),
{
}

/// A counter that a TPM sends in a session is read back.
pub proof fn law_sent_counter_is_read_back(data: Seq<u8>, tail: Seq<u8>)
    requires
        data.len() == 8,
        24 + tail.len() <= u32::MAX,
    ensures
        ({
            let b = bytes::be16(0x8002) + bytes::be32((24 + tail.len()) as u32) + bytes::be32(0)
                + bytes::be32((10 + tail.len()) as u32) + bytes::be16(8) + data + tail;
            counter_result(b) == Ok::<u64, Seq<char>>(bytes::from_be64(data))
        }),
{
    let b = bytes::be16(0x8002) + bytes::be32((24 + tail.len()) as u32) + bytes::be32(0)
        + bytes::be32((10 + tail.len()) as u32) + bytes::be16(8) + data + tail;
    bytes::lemma_be16(0x8002);
    bytes::lemma_be32((24 + tail.len()) as u32);
    bytes::lemma_be32(0);
    bytes::lemma_be32((10 + tail.len()) as u32);
    bytes::lemma_be16(8);
    assert(b.subrange(0, 2) =~= bytes::be16(0x8002));
    assert(b.subrange(2, 6) =~= bytes::be32((24 + tail.len()) as u32));
    assert(b.subrange(6, 10) =~= bytes::be32(0));
    assert(b.subrange(14, 16) =~= bytes::be16(8));
    assert(b.subrange(16, 24) =~= data);
    law_counter_is_read_if(b);
}

/// The live test goes on step by step: a counter that was defined is read, advanced, read
/// again, read by another process, removed and looked for. It goes on exactly if the reply
/// passes, and beyond the second reading exactly if the counter is above what it was.
pub proof fn law_live_test_goes_on(m: LiveModel, b: Seq<u8>)
    requires
        live_packet(m, Seq::empty()) is Some,
    ensures
        ({
            let next = live_next(m, b);
            &&& next.stage is Failed || next.stage == (match m.stage {
                LiveStage::Define => LiveStage::ReadInitial,
                LiveStage::ReadInitial => LiveStage::Increment,
                LiveStage::Increment => LiveStage::ReadAdvanced,
                LiveStage::ReadAdvanced => LiveStage::ReadChild,
                LiveStage::Undefine => LiveStage::ListHandles,
                _ => LiveStage::Done,
            })
            &&& m.stage is Define || m.stage is Increment || m.stage is Undefine ==> (
            next.stage is Failed <==> reply_verdict(b, Seq::empty()) is Err)
            &&& m.stage is ReadInitial ==> (next.stage is Failed <==> counter_result(b) is Err) && (
            !(next.stage is Failed) ==> counter_result(b) == Ok::<u64, Seq<char>>(next.initial))
            &&& m.stage is ReadAdvanced ==> (next.stage is Failed <==> counter_result(b) is Err
                || counter_result(b)->Ok_0 <= m.initial) && (!(next.stage is Failed)
                ==> counter_result(b) == Ok::<u64, Seq<char>>(next.advanced))
            &&& m.stage is ListHandles ==> (next.stage is Failed <==> listed_handles(b) is Err
                || listed_handles(b)->Ok_0.contains(m.handle))
            &&& !(next.stage is Failed) ==> (next.created <==> m.stage is Define || m.created
                && !(m.stage is Undefine))
        }),
{
    law_reply_passes_if(b, Seq::empty());
    law_reply_passes_if(b, "NV_DefineSpace"@);
    law_reply_passes_if(b, "NV_Increment"@);
    law_reply_passes_if(b, "NV_UndefineSpace"@);
}

/// The test goes on to remove the counter exactly if the other process read the same value.
pub proof fn law_child_must_agree(m: LiveModel, stdout: Seq<char>)
    ensures
        ({
            let next = live_child(m, stdout);
            &&& next.stage is Undefine || next.stage is Failed
            &&& next.stage is Undefine <==> printed_counter(stdout) == Ok::<u64, Seq<char>>(
                m.advanced,
            )
            &&& next.created == m.created
        }),
{
}

/// What a counter is: an index of eight bytes that only counts up, defined by and for the
/// owner. Every command on it names the owner and the handle.
pub proof fn law_counter_commands(handle: u32, owner: Seq<u8>)
    ensures
        define_packet(handle, owner) == session_packet(
            0x12A,
            seq![0x4000_0001u32],
            bytes::be16(0) + bytes::be16(14) + (bytes::be32(handle) + bytes::be16(0x000B)
                + bytes::be32(0x0202_0012) + bytes::be16(0) + bytes::be16(8)),
            owner,
        ),
        increment_packet(handle, owner) == session_packet(
            0x134,
            seq![0x4000_0001u32, handle],
            Seq::empty(),
            owner,
        ),
        read_packet(handle, owner) == session_packet(
            0x14E,
            seq![0x4000_0001u32, handle],
            bytes::be16(8) + bytes::be16(0),
            owner,
        ),
        undefine_packet(handle, owner) == session_packet(
            0x122,
            seq![0x4000_0001u32, handle],
            Seq::empty(),
            owner,
        ),
{
}

/// A handle is a number of four bytes at most, decimal, or hexadecimal behind a `0x` of
/// either case; the spaces around it do not count.
pub proof fn law_handle_is_read_if(s: Seq<char>)
    ensures
        ({
            let t = text::trimmed(s);
            let marked = t.len() >= 2 && t[0] == '0' && (t[1] == 'x' || t[1] == 'X');
            let parsed = if marked {
                text::parsed_number(t.skip(2), 16, 0xffff_ffff)
            } else {
                text::parsed_number(t, 10, 0xffff_ffff)
            };
            let r = handle_result(s);
            &&& r is Ok <==> parsed is Ok
            &&& r matches Ok(h) ==> h == parsed->Ok_0 as u32
        }),
{
}

/// What is asked for: nothing is a probe, and each of the two flags is what it says, the
/// second with a handle behind it. Everything else is refused.
pub proof fn law_mode_is_read_if(args: Seq<Seq<char>>)
    ensures
        ({
            let r = mode_result(args);
            &&& args.len() < 2 ==> r == Ok::<Mode, Seq<char>>(Mode::Probe)
            &&& args.len() >= 2 && args[1] == "--live-counter-test"@ ==> r == Ok::<
                Mode,
                Seq<char>,
            >(Mode::LiveCounterTest)
            &&& r matches Ok(Mode::ChildReadCounter(h)) ==> args.len() >= 3 && args[1]
                == "--child-read-counter"@ && handle_result(args[2]) == Ok::<u32, Seq<char>>(h)
            &&& args.len() >= 3 && args[1] == "--child-read-counter"@ && handle_result(args[2])
                is Ok ==> r == Ok::<Mode, Seq<char>>(
                Mode::ChildReadCounter(handle_result(args[2])->Ok_0),
            )
            &&& args.len() >= 2 && args[1] != "--live-counter-test"@ && args[1]
                != "--child-read-counter"@ ==> r is Err
        }),
{
    reveal_strlit("--live-counter-test");
    reveal_strlit("--child-read-counter");
    assert("--live-counter-test"@.len() != "--child-read-counter"@.len());
}

/// What is asked for is asked for without a session: the first 256 handles of counters.
pub proof fn law_handles_command()
    ensures
        handles_packet() == bytes::be16(0x8001) + bytes::be32(22) + bytes::be32(0x17A) + (
        bytes::be32(1) + bytes::be32(0x0100_0000) + bytes::be32(256)),
{
    bytes::lemma_be32(1);
    bytes::lemma_be32(0x0100_0000);
    bytes::lemma_be32(256);
}

proof fn lemma_line_ends_at(s: Seq<char>, i: int, end: int)
    requires
        0 <= i <= end <= s.len(),
        forall|k: int| i <= k < end ==> s[k] != '\n',
        end == s.len() || s[end] == '\n',
    ensures
        line_end(s, i) == end,
    decreases end - i,
{
    if i < end {
        lemma_line_ends_at(s, i + 1, end);
    }
}

/// The counter that a process prints on a line of its own is found: on the first line, or
/// behind a line that is about something else.
pub proof fn law_tagged_line_is_found(tag: Seq<char>, line: Seq<char>, rest: Seq<char>)
    requires
        !line.contains('\n'),
        line.len() > 0,
    ensures
        tag.is_prefix_of(line) ==> tagged_line(line + seq!['\n'] + rest, tag, 0) == Some(
            line.skip(tag.len() as int),
        ),
        tag.is_prefix_of(line) ==> tagged_line(line, tag, 0) == Some(line.skip(tag.len() as int)),
        !tag.is_prefix_of(line) ==> tagged_line(line, tag, 0) is None,
        !tag.is_prefix_of(line) ==> tagged_line(line + seq!['\n'] + rest, tag, 0) == tagged_line(
            line + seq!['\n'] + rest,
            tag,
            line.len() as int + 1,
        ),
{
    assert forall|k: int| 0 <= k < line.len() implies line[k] != '\n' by {
        assert(line.contains(line[k]));
    }
    let s = line + seq!['\n'] + rest;
    lemma_line_ends_at(line, 0, line.len() as int);
    lemma_line_ends_at(s, 0, line.len() as int);
    assert(s.subrange(0, line.len() as int) =~= line);
    assert(line.subrange(0, line.len() as int) =~= line);
    if line.len() as int + 1 >= s.len() {
        assert(tagged_line(s, tag, line.len() as int + 1) is None);
    }
}

} // verus!
