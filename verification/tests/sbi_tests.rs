use lib::sbi::{
    debug_write_char, get_spec_version, get_spec_version_call, hart_start, hart_start_call, hart_status,
    hart_status_call, hart_stop_call, hart_suspend, hart_suspend_call, reboot_call, shutdown_call, HartState,
    SbiCall, SbiError, SbiReply, SbiResult, WakeFrame,
};

fn reply(error: i64, value: i64) -> SbiReply {
    SbiReply { error, value }
}

#[test]
fn error_codes_are_read_by_magnitude() {
    assert_eq!(SbiError::from_code(0), SbiError::Success);
    assert_eq!(SbiError::from_code(-2), SbiError::NotSupported);
    assert_eq!(SbiError::from_code(2), SbiError::NotSupported);
    assert_eq!(SbiError::from_code(-7), SbiError::AlreadyStarted);
    assert_eq!(SbiError::from_code(-14), SbiError::DeniedLocked);
    assert_eq!(SbiError::from_code(-1), SbiError::Failed);
    assert_eq!(SbiError::from_code(-15), SbiError::Failed);
    assert_eq!(SbiError::from_code(i64::MIN), SbiError::Failed);
}

#[test]
fn error_code_round_trip() {
    let all = [
        SbiError::Success, SbiError::Failed, SbiError::NotSupported, SbiError::InvalidParam,
        SbiError::Denied, SbiError::InvalidAddress, SbiError::AlreadyAvailable, SbiError::AlreadyStarted,
        SbiError::AlreadyStopped, SbiError::NoShMem, SbiError::InvalidState, SbiError::BadRange,
        SbiError::Timeout, SbiError::Io, SbiError::DeniedLocked,
    ];
    for (i, e) in all.iter().enumerate() {
        assert_eq!(e.to_code(), -(i as i64));
        assert_eq!(SbiError::from_code(e.to_code()), *e);
    }
}

#[test]
fn error_status_and_messages() {
    assert!(SbiError::Success.is_ok());
    assert!(!SbiError::Success.is_err());
    assert!(SbiError::Denied.is_err());
    assert_eq!(SbiError::Success.message(), "success");
    assert_eq!(SbiError::InvalidParam.message(), "invalid parameter");
    assert_eq!(SbiError::NoShMem.message(), "no shared memory");
    assert_eq!(SbiError::Io.message(), "IO error");
}

#[test]
fn results_unwrap_to_their_value_or_fallback() {
    let ok: SbiResult<u32> = SbiResult::Value(5);
    let err: SbiResult<u32> = SbiResult::Error(SbiError::Timeout);
    assert!(ok.is_ok() && !ok.is_err());
    assert!(err.is_err() && !err.is_ok());
    assert_eq!(ok.clone().unwrap(), 5);
    assert_eq!(ok.clone().unwrap_or(9), 5);
    assert_eq!(err.clone().unwrap_or(9), 9);
    assert_eq!(err.unwrap_or_else(|e| (e.to_code() + 100) as u32), 88);
}

#[test]
fn version_fields_come_from_the_reply_value() {
    assert_eq!(get_spec_version_call(), SbiCall { extension_id: 0x10, function_id: 0, a0: 0, a1: 0, a2: 0, a3: 0, a4: 0, a5: 0 });
    assert_eq!(get_spec_version(reply(0, 0x0200_0001)), (2, 1));
    assert_eq!(get_spec_version(reply(0, 0x7f12_3456)), (0x7f, 0x12_3456));
    assert_eq!(get_spec_version(reply(0, -1)), (0x7f, 0xff_ffff));
}

#[test]
fn hart_state_management_requests() {
    let s = hart_start_call(1, 0x8020_0000, 0x8030_0000);
    assert_eq!((s.extension_id, s.function_id, s.a0, s.a1, s.a2), (0x48534d, 0, 1, 0x8020_0000, 0x8030_0000));
    assert_eq!(hart_stop_call().function_id, 1);
    let q = hart_status_call(3);
    assert_eq!((q.function_id, q.a0), (2, 3));
    let p = hart_suspend_call(0x8000_0000, 0x8040_0000, 7);
    assert_eq!((p.function_id, p.a0, p.a1, p.a2), (3, 0x8000_0000, 0x8040_0000, 7));
}

#[test]
fn hart_replies_are_decoded() {
    assert!(matches!(hart_start(reply(0, 0)), SbiResult::Value(())));
    assert!(matches!(hart_start(reply(-7, 0)), SbiResult::Error(SbiError::AlreadyStarted)));
    assert!(matches!(hart_suspend(reply(-3, 0)), SbiResult::Error(SbiError::InvalidParam)));
    assert!(matches!(hart_status(reply(0, 1)), SbiResult::Value(HartState::Stopped)));
    assert!(matches!(hart_status(reply(0, 6)), SbiResult::Value(HartState::ResumePending)));
    assert!(matches!(hart_status(reply(0, 7)), SbiResult::Error(SbiError::InvalidState)));
    assert!(matches!(hart_status(reply(-3, 0)), SbiResult::Error(SbiError::InvalidParam)));
    assert!(matches!(HartState::from_u64(4), SbiResult::Value(HartState::Suspended)));
}

#[test]
fn console_and_system_reset_requests() {
    let c = debug_write_char(b'A');
    assert_eq!((c.extension_id, c.function_id, c.a0), (0x4442_434E, 2, 0x41));
    let r = reboot_call();
    assert_eq!((r.extension_id, r.function_id, r.a0, r.a1), (0x5352_5354, 0, 2, 0));
    let d = shutdown_call();
    assert_eq!((d.extension_id, d.function_id, d.a0), (0x5352_5354, 0, 0));
}

#[test]
fn wake_frame_starts_zeroed() {
    let w = WakeFrame::default();
    assert_eq!(w.sepc, 0);
    assert_eq!(w.page, 0);
}

#[test]
fn conversions_between_codes_and_errors() {
    assert_eq!(SbiError::from(-3i64), SbiError::InvalidParam);
    assert_eq!(SbiError::from(99i64), SbiError::Failed);
    assert_eq!(i64::from(SbiError::Denied), -4);
    assert_eq!(i64::from(SbiError::Success), 0);
}
