//! Supervisor Binary Interface: the requests the kernel makes of the SBI
//! firmware and the decoding of the firmware's replies. The `ecall` that
//! carries a request to the firmware is made by the caller.
use vstd::prelude::*;

verus! {

/// Extension ID of the legacy-free debug console.
pub const SBI_EXT_DEBUG_CONSOLE: u64 = 0x4442_434E;
/// Extension ID of the base extension.
pub const SBI_EXT_BASE: u64 = 0x10;
/// Extension ID of hart state management.
pub const SBI_EXT_HSM: u64 = 0x48_534D;
/// Extension ID of system reset.
pub const SBI_EXT_SYSTEM_RESET: u64 = 0x5352_5354;

/// One SBI request: the extension ID (`a7`), the function ID (`a6`) and
/// the argument registers `a0` to `a5`.
#[derive(Clone, Copy, Debug, PartialEq, Eq, Structural)]
pub struct SbiCall {
    pub extension_id: u64,
    pub function_id: u64,
    pub a0: u64,
    pub a1: u64,
    pub a2: u64,
    pub a3: u64,
    pub a4: u64,
    pub a5: u64,
}

/// The firmware's reply: the error code (`a0`) and the value (`a1`).
#[derive(Clone, Copy, Debug, PartialEq, Eq, Structural)]
pub struct SbiReply {
    pub error: i64,
    pub value: i64,
}

/// A request with the given IDs and arguments.
pub open spec fn call_of(ext: u64, func: u64, a0: u64, a1: u64, a2: u64) -> SbiCall {
    SbiCall { extension_id: ext, function_id: func, a0, a1, a2, a3: 0, a4: 0, a5: 0 }
}

/// The request that writes the byte `c` to the debug console.
pub fn debug_write_char(c: u8) -> (r: SbiCall)
    ensures
        r == call_of(SBI_EXT_DEBUG_CONSOLE, 2, c as u64, 0, 0),
{
    SbiCall { extension_id: SBI_EXT_DEBUG_CONSOLE, function_id: 2, a0: c as u64, a1: 0, a2: 0, a3: 0, a4: 0, a5: 0 }
}

/// SBI error codes, by their magnitude: `Success` is 0, `Failed` 1, and so
/// on up to `DeniedLocked`, 14.
#[derive(Clone, Copy, Debug, PartialEq, Eq, Structural)]
pub enum SbiError {
    Success,
    Failed,
    NotSupported,
    InvalidParam,
    Denied,
    InvalidAddress,
    AlreadyAvailable,
    AlreadyStarted,
    AlreadyStopped,
    NoShMem,
    InvalidState,
    BadRange,
    Timeout,
    Io,
    DeniedLocked,
}

/// The magnitude of an error code.
pub open spec fn code_magnitude(value: i64) -> int {
    if value < 0 { -value } else { value as int }
}

/// The error named by the code `value`: by its magnitude, any code other
/// than 0 and 2 to 14 being `Failed`.
pub open spec fn error_of(value: i64) -> SbiError {
    let m = code_magnitude(value);
    if m == 0 { SbiError::Success }
    else if m == 2 { SbiError::NotSupported }
    else if m == 3 { SbiError::InvalidParam }
    else if m == 4 { SbiError::Denied }
    else if m == 5 { SbiError::InvalidAddress }
    else if m == 6 { SbiError::AlreadyAvailable }
    else if m == 7 { SbiError::AlreadyStarted }
    else if m == 8 { SbiError::AlreadyStopped }
    else if m == 9 { SbiError::NoShMem }
    else if m == 10 { SbiError::InvalidState }
    else if m == 11 { SbiError::BadRange }
    else if m == 12 { SbiError::Timeout }
    else if m == 13 { SbiError::Io }
    else if m == 14 { SbiError::DeniedLocked }
    else { SbiError::Failed }
}

/// The number of an error: its position in the list, `Success` being 0.
pub open spec fn error_number(e: SbiError) -> i64 {
    match e {
        SbiError::Success => 0,
        SbiError::Failed => 1,
        SbiError::NotSupported => 2,
        SbiError::InvalidParam => 3,
        SbiError::Denied => 4,
        SbiError::InvalidAddress => 5,
        SbiError::AlreadyAvailable => 6,
        SbiError::AlreadyStarted => 7,
        SbiError::AlreadyStopped => 8,
        SbiError::NoShMem => 9,
        SbiError::InvalidState => 10,
        SbiError::BadRange => 11,
        SbiError::Timeout => 12,
        SbiError::Io => 13,
        SbiError::DeniedLocked => 14,
    }
}

impl SbiError {
    /// The error named by a firmware code, read by its magnitude.
    pub fn from_code(value: i64) -> (r: Self)
        ensures
            r == error_of(value),
    {
        let m: i64 = if value == i64::MIN { 1 } else if value < 0 { -value } else { value };
        if value == i64::MIN {
            SbiError::Failed
        } else if m == 0 {
            SbiError::Success
        } else if m == 2 {
            SbiError::NotSupported
        } else if m == 3 {
            SbiError::InvalidParam
        } else if m == 4 {
            SbiError::Denied
        } else if m == 5 {
            SbiError::InvalidAddress
        } else if m == 6 {
            SbiError::AlreadyAvailable
        } else if m == 7 {
            SbiError::AlreadyStarted
        } else if m == 8 {
            SbiError::AlreadyStopped
        } else if m == 9 {
            SbiError::NoShMem
        } else if m == 10 {
            SbiError::InvalidState
        } else if m == 11 {
            SbiError::BadRange
        } else if m == 12 {
            SbiError::Timeout
        } else if m == 13 {
            SbiError::Io
        } else if m == 14 {
            SbiError::DeniedLocked
        } else {
            SbiError::Failed
        }
    }

    /// The firmware code of this error: its number, negated.
    pub fn to_code(&self) -> (r: i64)
        ensures
            r == -error_number(*self),
    {
        match self {
            SbiError::Success => 0,
            SbiError::Failed => -1,
            SbiError::NotSupported => -2,
            SbiError::InvalidParam => -3,
            SbiError::Denied => -4,
            SbiError::InvalidAddress => -5,
            SbiError::AlreadyAvailable => -6,
            SbiError::AlreadyStarted => -7,
            SbiError::AlreadyStopped => -8,
            SbiError::NoShMem => -9,
            SbiError::InvalidState => -10,
            SbiError::BadRange => -11,
            SbiError::Timeout => -12,
            SbiError::Io => -13,
            SbiError::DeniedLocked => -14,
        }
    }

    /// Whether this is an error, anything but `Success`.
    pub fn is_err(&self) -> (r: bool)
        ensures
            r == (*self != SbiError::Success),
    {
        match self {
            SbiError::Success => false,
            _ => true,
        }
    }

    /// Whether this is `Success`.
    pub fn is_ok(&self) -> (r: bool)
        ensures
            r == (*self == SbiError::Success),
    {
        match self {
            SbiError::Success => true,
            _ => false,
        }
    }

    /// A short description of the error.
    pub fn message(&self) -> (r: &'static str)
        ensures
            r@ == error_message(*self)@,
    {
        match self {
            SbiError::Success => "success",
            SbiError::Failed => "failed",
            SbiError::NotSupported => "not supported",
            SbiError::InvalidParam => "invalid parameter",
            SbiError::Denied => "denied",
            SbiError::InvalidAddress => "invalid address",
            SbiError::AlreadyAvailable => "already available",
            SbiError::AlreadyStarted => "already started",
            SbiError::AlreadyStopped => "already stopped",
            SbiError::NoShMem => "no shared memory",
            SbiError::InvalidState => "invalid state",
            SbiError::BadRange => "bad range",
            SbiError::Timeout => "timeout",
            SbiError::Io => "IO error",
            SbiError::DeniedLocked => "denied locked",
        }
    }
}

impl From<i64> for SbiError {
    /// The error named by a firmware code, read by its magnitude.
    fn from(value: i64) -> (r: Self) {
        SbiError::from_code(value)
    }
}

impl vstd::std_specs::convert::FromSpecImpl<i64> for SbiError {
    open spec fn obeys_from_spec() -> bool {
        true
    }

    open spec fn from_spec(v: i64) -> Self {
        error_of(v)
    }
}

impl From<SbiError> for i64 {
    /// The firmware code of an error: its number, negated.
    fn from(value: SbiError) -> (r: Self) {
        value.to_code()
    }
}

impl vstd::std_specs::convert::FromSpecImpl<SbiError> for i64 {
    open spec fn obeys_from_spec() -> bool {
        true
    }

    open spec fn from_spec(v: SbiError) -> Self {
        (-error_number(v)) as i64
    }
}

/// The description of each error.
pub open spec fn error_message(e: SbiError) -> &'static str {
    match e {
        SbiError::Success => "success",
        SbiError::Failed => "failed",
        SbiError::NotSupported => "not supported",
        SbiError::InvalidParam => "invalid parameter",
        SbiError::Denied => "denied",
        SbiError::InvalidAddress => "invalid address",
        SbiError::AlreadyAvailable => "already available",
        SbiError::AlreadyStarted => "already started",
        SbiError::AlreadyStopped => "already stopped",
        SbiError::NoShMem => "no shared memory",
        SbiError::InvalidState => "invalid state",
        SbiError::BadRange => "bad range",
        SbiError::Timeout => "timeout",
        SbiError::Io => "IO error",
        SbiError::DeniedLocked => "denied locked",
    }
}

/// Reading the code of an error gives the error back.
pub proof fn lemma_code_round_trip(e: SbiError)
    ensures
        error_of((-error_number(e)) as i64) == e,
{
}

/// The outcome of an SBI call: a value or an error.
#[derive(Clone, Debug)]
pub enum SbiResult<T> {
    Value(T),
    Error(SbiError),
}

impl<T> SbiResult<T> {
    /// Whether this is a value.
    pub fn is_ok(&self) -> (r: bool)
        ensures
            r == (*self is Value),
    {
        match self {
            SbiResult::Value(_) => true,
            _ => false,
        }
    }

    /// Whether this is an error.
    pub fn is_err(&self) -> (r: bool)
        ensures
            r == (*self is Error),
    {
        !self.is_ok()
    }

    /// The value; only for a result that holds one.
    pub fn unwrap(self) -> (r: T)
        requires
            self is Value,
        ensures
            r == self->Value_0,
    {
        match self {
            SbiResult::Value(x) => x,
            SbiResult::Error(_) => vstd::pervasive::unreached(),
        }
    }

    /// The value, or `orelse` for an error.
    pub fn unwrap_or(self, orelse: T) -> (r: T)
        ensures
            r == match self {
                SbiResult::Value(x) => x,
                SbiResult::Error(_) => orelse,
            },
    {
        match self {
            SbiResult::Value(x) => x,
            _ => orelse,
        }
    }

    /// The value, or what `orelse` makes of the error.
    pub fn unwrap_or_else<F: FnOnce(SbiError) -> T>(self, orelse: F) -> (r: T)
        requires
            self matches SbiResult::Error(e) ==> orelse.requires((e,)),
        ensures
            match self {
                SbiResult::Value(x) => r == x,
                SbiResult::Error(e) => orelse.ensures((e,), r),
            },
    {
        match self {
            SbiResult::Value(x) => x,
            SbiResult::Error(e) => orelse(e),
        }
    }
}

/// The request for the SBI specification version.
pub fn get_spec_version_call() -> (r: SbiCall)
    ensures
        r == call_of(SBI_EXT_BASE, 0, 0, 0, 0),
{
    SbiCall { extension_id: SBI_EXT_BASE, function_id: 0, a0: 0, a1: 0, a2: 0, a3: 0, a4: 0, a5: 0 }
}

/// The major and minor version in the reply to the version request:
/// bits 24 to 30 and bits 0 to 23 of the value.
pub fn get_spec_version(reply: SbiReply) -> (r: (u32, u32))
    ensures
        r.0 == ((reply.value as u64 >> 24u64) & 0x7f),
        r.1 == (reply.value as u64 & 0xff_ffff),
{
    let v = reply.value as u64;
    let major = (v >> 24u64) & 0x7f;
    let minor = v & 0xff_ffff;
    proof {
        assert(major <= 0x7f) by (bit_vector)
            requires major == (v >> 24u64) & 0x7f;
        assert(minor <= 0xff_ffff) by (bit_vector)
            requires minor == v & 0xff_ffff;
    }
    (major as u32, minor as u32)
}

/// Start-up values for a secondary hart, whose address the caller can
/// hand to `hart_start` as the opaque value.
#[derive(Debug, Copy, Clone, Default)]
pub struct WakeFrame {
    pub sepc: u64,
    pub sstatus: u64,
    pub sie: u64,
    pub satp: u64,
    pub sscratch: u64,
    pub stvec: u64,
    pub stack: u64,
    /// Address of the page that holds the frame.
    pub page: u64,
}

/// The unit outcome of a reply: a value where its error code reads as
/// `Success`, else that error.
pub open spec fn unit_outcome(reply: SbiReply) -> SbiResult<()> {
    if error_of(reply.error) == SbiError::Success {
        SbiResult::Value(())
    } else {
        SbiResult::Error(error_of(reply.error))
    }
}

/// The request that starts hart `hart_id` at `physical_start_address`
/// with `wake_frame_address` as its opaque value.
pub fn hart_start_call(hart_id: u64, physical_start_address: u64, wake_frame_address: u64) -> (r: SbiCall)
    ensures
        r == call_of(SBI_EXT_HSM, 0, hart_id, physical_start_address, wake_frame_address),
{
    SbiCall {
        extension_id: SBI_EXT_HSM,
        function_id: 0,
        a0: hart_id, a1: physical_start_address, a2: wake_frame_address, a3: 0, a4: 0, a5: 0,
    }
}

/// The outcome of a hart-start request.
pub fn hart_start(reply: SbiReply) -> (r: SbiResult<()>)
    ensures
        r == unit_outcome(reply),
{
    let error = SbiError::from_code(reply.error);
    if error.is_err() {
        SbiResult::Error(error)
    } else {
        SbiResult::Value(())
    }
}

/// The request that stops the calling hart.
pub fn hart_stop_call() -> (r: SbiCall)
    ensures
        r == call_of(SBI_EXT_HSM, 1, 0, 0, 0),
{
    SbiCall { extension_id: SBI_EXT_HSM, function_id: 1, a0: 0, a1: 0, a2: 0, a3: 0, a4: 0, a5: 0 }
}

/// The state of a hart, numbered from 0 (`Started`) to 6
/// (`ResumePending`).
#[derive(Debug, Copy, Clone, PartialEq, Eq, Structural)]
pub enum HartState {
    Started,
    Stopped,
    StartPending,
    StopPending,
    Suspended,
    SuspendPending,
    ResumePending,
}

/// The hart state numbered `value`, or `InvalidState` for a number past 6.
pub open spec fn hart_state_of(value: u64) -> SbiResult<HartState> {
    if value == 0 { SbiResult::Value(HartState::Started) }
    else if value == 1 { SbiResult::Value(HartState::Stopped) }
    else if value == 2 { SbiResult::Value(HartState::StartPending) }
    else if value == 3 { SbiResult::Value(HartState::StopPending) }
    else if value == 4 { SbiResult::Value(HartState::Suspended) }
    else if value == 5 { SbiResult::Value(HartState::SuspendPending) }
    else if value == 6 { SbiResult::Value(HartState::ResumePending) }
    else { SbiResult::Error(SbiError::InvalidState) }
}

/// The number the SBI Hart State Management extension gives each state
/// (SBI specification, table "HSM Hart States"): STARTED 0, STOPPED 1,
/// START_PENDING 2, STOP_PENDING 3, SUSPENDED 4, SUSPEND_PENDING 5,
/// RESUME_PENDING 6.
pub open spec fn hart_state_number(s: HartState) -> u64 {
    match s {
        HartState::Started => 0,
        HartState::Stopped => 1,
        HartState::StartPending => 2,
        HartState::StopPending => 3,
        HartState::Suspended => 4,
        HartState::SuspendPending => 5,
        HartState::ResumePending => 6,
    }
}

/// Decoding a state number gives the state the SBI numbers so, and
/// numbering a state then decoding the number gives the state back; a
/// number past 6 names no state.
pub proof fn lemma_hart_state_numbering(v: u64, s: HartState)
    ensures
        v <= 6 ==> (hart_state_of(v) matches SbiResult::Value(t) && hart_state_number(t) == v),
        v > 6 ==> hart_state_of(v) == SbiResult::<HartState>::Error(SbiError::InvalidState),
        hart_state_of(hart_state_number(s)) == SbiResult::<HartState>::Value(s),
{
}

impl HartState {
    /// The hart state numbered `value`; `InvalidState` past 6.
    pub fn from_u64(value: u64) -> (r: SbiResult<HartState>)
        ensures
            r == hart_state_of(value),
            value <= 6 ==> (r matches SbiResult::Value(t) && hart_state_number(t) == value),
            value > 6 ==> r == SbiResult::<HartState>::Error(SbiError::InvalidState),
    {
        match value {
            0 => SbiResult::Value(HartState::Started),
            1 => SbiResult::Value(HartState::Stopped),
            2 => SbiResult::Value(HartState::StartPending),
            3 => SbiResult::Value(HartState::StopPending),
            4 => SbiResult::Value(HartState::Suspended),
            5 => SbiResult::Value(HartState::SuspendPending),
            6 => SbiResult::Value(HartState::ResumePending),
            _ => SbiResult::Error(SbiError::InvalidState),
        }
    }
}

/// The request for the state of hart `hart_id`.
pub fn hart_status_call(hart_id: u64) -> (r: SbiCall)
    ensures
        r == call_of(SBI_EXT_HSM, 2, hart_id, 0, 0),
{
    SbiCall { extension_id: SBI_EXT_HSM, function_id: 2, a0: hart_id, a1: 0, a2: 0, a3: 0, a4: 0, a5: 0 }
}

/// The outcome of a hart-status request: the error, or the state numbered
/// by the reply's value.
pub fn hart_status(reply: SbiReply) -> (r: SbiResult<HartState>)
    ensures
        r == if error_of(reply.error) != SbiError::Success {
            SbiResult::Error(error_of(reply.error))
        } else {
            hart_state_of(reply.value as u64)
        },
        error_of(reply.error) == SbiError::Success && reply.value as u64 <= 6
            ==> (r matches SbiResult::Value(t) && hart_state_number(t) == reply.value as u64),
{
    let error = SbiError::from_code(reply.error);
    if error.is_err() {
        return SbiResult::Error(error);
    }
    HartState::from_u64(reply.value as u64)
}

/// The request that suspends the calling hart.
pub fn hart_suspend_call(suspend_type: u32, resume_addr: u64, opaque: u64) -> (r: SbiCall)
    ensures
        r == call_of(SBI_EXT_HSM, 3, suspend_type as u64, resume_addr, opaque),
{
    SbiCall {
        extension_id: SBI_EXT_HSM,
        function_id: 3,
        a0: suspend_type as u64, a1: resume_addr, a2: opaque, a3: 0, a4: 0, a5: 0,
    }
}

/// The outcome of a hart-suspend request.
pub fn hart_suspend(reply: SbiReply) -> (r: SbiResult<()>)
    ensures
        r == unit_outcome(reply),
{
    let error = SbiError::from_code(reply.error);
    if error.is_err() {
        SbiResult::Error(error)
    } else {
        SbiResult::Value(())
    }
}

/// The request that reboots the system (a cold reboot).
pub fn reboot_call() -> (r: SbiCall)
    ensures
        r == call_of(SBI_EXT_SYSTEM_RESET, 0, 2, 0, 0),
{
    SbiCall { extension_id: SBI_EXT_SYSTEM_RESET, function_id: 0, a0: 2, a1: 0, a2: 0, a3: 0, a4: 0, a5: 0 }
}

/// The request that powers the system off.
pub fn shutdown_call() -> (r: SbiCall)
    ensures
        r == call_of(SBI_EXT_SYSTEM_RESET, 0, 0, 0, 0),
{
    SbiCall { extension_id: SBI_EXT_SYSTEM_RESET, function_id: 0, a0: 0, a1: 0, a2: 0, a3: 0, a4: 0, a5: 0 }
}

} // verus!
