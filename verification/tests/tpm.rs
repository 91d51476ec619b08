use calibre::bytes::{be_u16, be_u32, push_u16_be, push_u32_be};
use calibre::sec005;
use calibre::sec006::{
    check_header, child_counter, counter_value, define_counter_command, existing_nv_handles,
    live_test_allowed, parse_handle, parse_mode, password_session, read_counter_command,
    select_handle, session_command, tpm_rc, LiveRun, LiveStage, Mode, CALIBRE_NV_ATTRS,
    CANDIDATE_FIRST, CANDIDATE_LAST, COUNTER_SIZE, TPM_ALG_SHA256, TPM_CC_NV_DEFINE_SPACE,
    TPM_RH_OWNER, TPM_RS_PW, TPM_ST_SESSIONS,
};

fn push_u16(out: &mut Vec<u8>, value: u16) {
    push_u16_be(out, value);
}

fn push_u32(out: &mut Vec<u8>, value: u32) {
    push_u32_be(out, value);
}

#[test]
fn getcap_packet_is_exactly_22_bytes_and_big_endian() {
    let p = sec005::getcap_command(sec005::TPM_CAP_TPM_PROPERTIES, sec005::TPM_PT_FIXED, 64);
    assert_eq!(p.len(), 22);
    assert_eq!(be_u16(&p[0..2]), sec005::TPM_ST_NO_SESSIONS);
    assert_eq!(be_u32(&p[2..6]), 22);
    assert_eq!(be_u32(&p[6..10]), sec005::TPM_CC_GET_CAPABILITY);
    assert_eq!(be_u32(&p[10..14]), sec005::TPM_CAP_TPM_PROPERTIES);
    assert_eq!(be_u32(&p[14..18]), sec005::TPM_PT_FIXED);
    assert_eq!(be_u32(&p[18..22]), 64);
}

#[test]
fn command_attribute_matching_uses_command_index_low_16_bits() {
    let attrs = vec![0x2000_012A, 0x4000_0134, 0x0000_0169];
    assert!(sec005::command_supported(&attrs, sec005::TPM_CC_NV_DEFINE_SPACE));
    assert!(sec005::command_supported(&attrs, sec005::TPM_CC_NV_INCREMENT));
    assert!(sec005::command_supported(&attrs, sec005::TPM_CC_NV_READ_PUBLIC));
    assert!(!sec005::command_supported(&attrs, sec005::TPM_CC_NV_CERTIFY));
}

#[test]
fn define_public_is_counter_owner_rw_no_da() {
    assert_eq!(CALIBRE_NV_ATTRS & 0xF0, 0x10);
    assert_ne!(CALIBRE_NV_ATTRS & 0x0000_0002, 0);
    assert_ne!(CALIBRE_NV_ATTRS & 0x0002_0000, 0);
    assert_ne!(CALIBRE_NV_ATTRS & 0x0200_0000, 0);
}

#[test]
fn password_session_encodes_auth_without_display_or_transform() {
    let auth = [1u8, 2, 3, 4];
    let s = password_session(&auth);
    assert_eq!(be_u32(&s[0..4]), TPM_RS_PW);
    assert_eq!(be_u16(&s[4..6]), 0);
    assert_eq!(s[6], 0);
    assert_eq!(be_u16(&s[7..9]), 4);
    assert_eq!(&s[9..13], &auth);
}

#[test]
fn define_packet_has_sessions_and_owner_handle() {
    let owner = [0xAAu8; 32];
    let handle = CANDIDATE_FIRST;
    let mut public = Vec::new();
    push_u32(&mut public, handle);
    push_u16(&mut public, TPM_ALG_SHA256);
    push_u32(&mut public, CALIBRE_NV_ATTRS);
    push_u16(&mut public, 0);
    push_u16(&mut public, COUNTER_SIZE);
    let mut params = Vec::new();
    push_u16(&mut params, 0);
    push_u16(&mut params, public.len() as u16);
    params.extend_from_slice(&public);
    let p = session_command(TPM_CC_NV_DEFINE_SPACE, &[TPM_RH_OWNER], &params, &owner);
    assert_eq!(be_u16(&p[0..2]), TPM_ST_SESSIONS);
    assert_eq!(be_u32(&p[6..10]), TPM_CC_NV_DEFINE_SPACE);
    assert_eq!(be_u32(&p[10..14]), TPM_RH_OWNER);
    assert_eq!(be_u32(&p[2..6]) as usize, p.len());
    assert_eq!(p, define_counter_command(handle, &owner));
}

fn reply(tag: u16, code: u32, body: &[u8]) -> Vec<u8> {
    let mut out = Vec::new();
    push_u16(&mut out, tag);
    push_u32(&mut out, 10 + body.len() as u32);
    push_u32(&mut out, code);
    out.extend_from_slice(body);
    out
}

fn capability(kind: u32, words: &[u32], count: u32) -> Vec<u8> {
    let mut body = vec![0u8];
    push_u32(&mut body, kind);
    push_u32(&mut body, count);
    for word in words {
        push_u32(&mut body, *word);
    }
    reply(0x8001, 0, &body)
}

#[test]
fn capability_lists_are_read_and_checked() {
    let good = capability(sec005::TPM_CAP_HANDLES, &[7, 9], 2);
    assert_eq!(
        sec005::parse_u32_list(&good, sec005::TPM_CAP_HANDLES).unwrap(),
        (false, vec![7, 9])
    );
    assert!(sec005::parse_u32_list(&good, sec005::TPM_CAP_COMMANDS).is_err());
    assert!(sec005::parse_u32_list(&good[..good.len() - 1], sec005::TPM_CAP_HANDLES).is_err());
    let short = capability(sec005::TPM_CAP_HANDLES, &[7], 2);
    assert!(sec005::parse_u32_list(&short, sec005::TPM_CAP_HANDLES).is_err());
    let failed = reply(0x8001, 0x101, &[]);
    assert!(sec005::validate_tpm_response(&failed).is_err());

    let properties = capability(sec005::TPM_CAP_TPM_PROPERTIES, &[0x105, 0x41424300, 0x10b, 3], 2);
    let (_, props) = sec005::parse_properties(&properties).unwrap();
    assert_eq!(sec005::property(&props, 0x105), Some(0x41424300));
    assert_eq!(sec005::property(&props, 0x106), None);
    assert_eq!(sec005::ascii_property(0x41424300), "ABC");
}

#[test]
fn the_probe_report_is_made_of_four_replies() {
    let fixed = capability(sec005::TPM_CAP_TPM_PROPERTIES, &[sec005::TPM_PT_NV_COUNTERS_MAX, 8], 1);
    let variable =
        capability(sec005::TPM_CAP_TPM_PROPERTIES, &[sec005::TPM_PT_NV_COUNTERS_AVAIL, 5], 1);
    let handles = capability(sec005::TPM_CAP_HANDLES, &[sec005::TPM_NV_INDEX_FIRST], 1);
    let commands = capability(sec005::TPM_CAP_COMMANDS, &[0x12A, 0x134, 0x14E, 0x169], 4);
    let lines = sec005::probe_report(&fixed, &variable, &handles, &commands).unwrap();
    assert!(!lines.is_empty());
    assert!(sec005::probe_report(&fixed, &variable, &commands, &commands).is_err());
}

#[test]
fn handles_are_chosen_among_those_unused() {
    assert_eq!(select_handle(&vec![]).unwrap(), CANDIDATE_FIRST);
    assert_eq!(select_handle(&vec![CANDIDATE_FIRST]).unwrap(), CANDIDATE_FIRST + 1);
    let all: Vec<u32> = (CANDIDATE_FIRST..=CANDIDATE_LAST).collect();
    assert!(select_handle(&all).is_err());
    let listed = capability(1, &[CANDIDATE_FIRST], 1);
    assert_eq!(existing_nv_handles(&listed).unwrap(), [CANDIDATE_FIRST]);
}

#[test]
fn arguments_choose_a_mode() {
    let args = |values: &[&str]| -> Vec<String> { values.iter().map(|v| v.to_string()).collect() };
    assert_eq!(parse_handle("0x01504341").unwrap(), CANDIDATE_FIRST);
    assert!(parse_handle("zz").is_err());
    assert!(matches!(parse_mode(&args(&["sec006"])).unwrap(), Mode::Probe));
    assert!(live_test_allowed(&None).is_err());
    assert_eq!(child_counter("ready\nCOUNTER= 12\n").ok(), Some(12));
    assert!(child_counter("nothing").is_err());
}

fn counter_reply(value: u64) -> Vec<u8> {
    let mut body = Vec::new();
    push_u32(&mut body, 10);
    push_u16(&mut body, 8);
    body.extend_from_slice(&value.to_be_bytes());
    reply(0x8002, 0, &body)
}

#[test]
fn counters_are_read_from_replies() {
    assert_eq!(counter_value(&counter_reply(41)).unwrap(), 41);
    let failed = reply(0x8001, 0x922, &[]);
    check_header(&failed).unwrap();
    assert_eq!(tpm_rc(&failed), 0x922);
    assert!(check_header(&[0, 1, 2]).is_err());
}

#[test]
fn a_live_test_goes_through_its_stages() {
    let done = reply(0x8002, 0, &[0, 0, 0, 0, 0, 0, 1, 0, 0]);
    let mut run = LiveRun::begin(CANDIDATE_FIRST);
    assert_eq!(run.stage(), LiveStage::Define);
    assert_eq!(run.command(b"pw").unwrap(), define_counter_command(CANDIDATE_FIRST, b"pw"));
    run.take(&done);
    assert!(run.created());
    assert_eq!(run.stage(), LiveStage::ReadInitial);
    assert_eq!(run.command(b"pw").unwrap(), read_counter_command(CANDIDATE_FIRST, b"pw"));
    run.take(&counter_reply(5));
    assert_eq!(run.stage(), LiveStage::Increment);
    run.take(&done);
    assert_eq!(run.stage(), LiveStage::ReadAdvanced);
    run.take(&counter_reply(6));
    assert_eq!(run.stage(), LiveStage::ReadChild);
}

#[test]
fn a_live_test_that_fails_says_what_it_left() {
    let mut run = LiveRun::begin(CANDIDATE_FIRST);
    run.take(&reply(0x8001, 0x922, &[]));
    assert!(!run.created());
    assert!(matches!(run.stage(), LiveStage::Failed));
    assert!(!run.failure().is_empty());
}
