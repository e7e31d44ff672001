//! Single-instance bookkeeping for the two apps: their names, the window
//! they are found by, and the decisions of the hand-over between a second
//! launch and the running instance. The operating-system calls themselves
//! are made by the programs.

use vstd::prelude::*;
use crate::text::{chars_of, eq_ignore_ascii_case, equal_ignoring_ascii_case, string_of};

verus! {

/// The two programs of the suite.
#[derive(Clone, Copy, Debug, PartialEq, Eq, Structural)]
pub enum App {
    Portfolio,
    Calculator,
}

impl App {
    /// The OS window title; also used to find the running instance.
    pub fn title(self) -> (r: &'static str)
        ensures
            r@ == (match self {
                App::Portfolio => "Stock Portfolio"@,
                App::Calculator => "Stock Calculator"@,
            }),
    {
        match self {
            App::Portfolio => "Stock Portfolio",
            App::Calculator => "Stock Calculator",
        }
    }

    /// The file name of the program.
    pub fn exe(self) -> (r: &'static str)
        ensures
            r@ == program_file(self),
    {
        match self {
            App::Portfolio => "portfolio.exe",
            App::Calculator => "stockcalc.exe",
        }
    }

    /// The name of the lock that a running instance holds.
    pub fn mutex_name(self) -> (r: &'static str)
        ensures
            r@ == (match self {
                App::Portfolio => "Local\\StockCalc.Portfolio.SingleInstance"@,
                App::Calculator => "Local\\StockCalc.Calculator.SingleInstance"@,
            }),
    {
        match self {
            App::Portfolio => "Local\\StockCalc.Portfolio.SingleInstance",
            App::Calculator => "Local\\StockCalc.Calculator.SingleInstance",
        }
    }
}

/// The file name of the program of `app`.
pub open spec fn program_file(app: App) -> Seq<char> {
    match app {
        App::Portfolio => "portfolio.exe"@,
        App::Calculator => "stockcalc.exe"@,
    }
}

/// How many times a second launch tries to bring the running instance to
/// the front, and how long it waits after each failed try.
pub const HAND_OVER_ATTEMPTS: u32 = 30;

/// Milliseconds waited after each failed try of a hand-over.
pub const HAND_OVER_WAIT_MS: u64 = 100;

/// What a second launch does after a try to bring the running instance to
/// the front.
#[derive(Clone, Copy, Debug, PartialEq, Eq, Structural)]
pub enum HandOver {
    /// The running instance is in front: the second launch is done.
    Done,
    /// Wait `HAND_OVER_WAIT_MS`, then try again.
    Retry,
    /// Wait `HAND_OVER_WAIT_MS`, then give up.
    GiveUp,
}

/// The next step of a hand-over after `tries` tries (this one included),
/// the last of which brought the instance to the front or not. Every failed
/// try is followed by a wait, and there are at most `HAND_OVER_ATTEMPTS`
/// tries.
pub fn hand_over_step(tries: u32, activated: bool) -> (r: HandOver)
    ensures
        activated ==> r == HandOver::Done,
        !activated && tries < HAND_OVER_ATTEMPTS ==> r == HandOver::Retry,
        !activated && tries >= HAND_OVER_ATTEMPTS ==> r == HandOver::GiveUp,
{
    if activated {
        HandOver::Done
    } else if tries < HAND_OVER_ATTEMPTS {
        HandOver::Retry
    } else {
        HandOver::GiveUp
    }
}

/// The error shown when `app` is to be started but its program is not in
/// the program folder.
pub fn missing_program_message(app: App) -> (r: String)
    ensures
        r@ == program_file(app) + " was not found in the program folder"@,
{
    let mut v = chars_of(app.exe());
    let mut tail = chars_of(" was not found in the program folder");
    v.append(&mut tail);
    string_of(&v)
}

/// The error shown when starting the program of `app` failed for `reason`.
pub fn start_failed_message(app: App, reason: &str) -> (r: String)
    ensures
        r@ == "Could not start "@ + program_file(app) + ": "@ + reason@,
{
    let mut v = chars_of("Could not start ");
    let mut exe = chars_of(app.exe());
    let mut colon = chars_of(": ");
    let mut why = chars_of(reason);
    v.append(&mut exe);
    v.append(&mut colon);
    v.append(&mut why);
    string_of(&v)
}

/// What creating the named single-instance lock reported.
#[derive(Clone, Copy, Debug, PartialEq, Eq, Structural)]
pub enum LockOutcome {
    /// The lock could not be created at all.
    Failed,
    /// The lock already existed: another instance holds it.
    AlreadyExists,
    /// The lock was created and is now held by this process.
    Created,
}

/// Whether this process may run as the single instance, given what
/// creating the lock reported. Only an existing lock refuses; when the lock
/// cannot be created the app is not kept from starting. On a refusal the
/// caller releases the handle it got.
pub fn claim(outcome: LockOutcome) -> (r: bool)
    ensures
        r == (outcome != LockOutcome::AlreadyExists),
{
    match outcome {
        LockOutcome::Failed => true,
        LockOutcome::AlreadyExists => false,
        LockOutcome::Created => true,
    }
}

/// The state of the running instance's window, as the platform found it.
#[derive(Clone, Copy, Debug, PartialEq, Eq, Structural)]
pub enum WindowState {
    /// No window of the app was found: it isn't running.
    NotFound,
    /// The window exists but is minimized.
    Minimized,
    /// The window exists and is not minimized.
    Shown,
}

/// The steps that bring a running instance to the front.
#[derive(Clone, Copy, Debug, PartialEq, Eq, Structural)]
pub struct Activation {
    /// Whether the app is running (and so was activated).
    pub running: bool,
    /// Whether its window is restored from the minimized state first.
    pub restore: bool,
}

/// How to bring the running instance to the front: nothing when it isn't
/// running; otherwise restore a minimized window, then put it in front.
pub fn activate(window: WindowState) -> (r: Activation)
    ensures
        r.running == (window != WindowState::NotFound),
        r.restore == (window == WindowState::Minimized),
{
    match window {
        WindowState::NotFound => Activation { running: false, restore: false },
        WindowState::Minimized => Activation { running: true, restore: true },
        WindowState::Shown => Activation { running: true, restore: false },
    }
}

/// A path separator on the platforms the apps run on.
pub open spec fn is_path_separator(c: char) -> bool {
    c == '\\' || c == '/'
}

/// The last component of a path: what follows its last `\` or `/` (the
/// whole path when it has none).
pub open spec fn file_name(path: Seq<char>) -> Seq<char>
    decreases path.len(),
{
    if path.len() == 0 {
        path
    } else if is_path_separator(path.last()) {
        Seq::empty()
    } else {
        file_name(path.drop_last()).push(path.last())
    }
}

/// The last component of `path`, after its last `\` or `/`.
pub fn exe_file_name(path: &str) -> (r: String)
    ensures
        r@ == file_name(path@),
{
    let v = chars_of(path);
    let mut out: Vec<char> = Vec::new();
    let mut i: usize = 0;
    while i < v.len()
        invariant
            i <= v.len(),
            out@ == file_name(v@.take(i as int)),
        decreases v.len() - i,
    {
        assert(v@.take(i + 1).drop_last() =~= v@.take(i as int));
        let c = v[i];
        if c == '\\' || c == '/' {
            out = Vec::new();
        } else {
            out.push(c);
        }
        i += 1;
    }
    assert(v@.take(v.len() as int) =~= v@);
    string_of(&out)
}

/// Whether a window whose process runs the program at `image_path`
/// belongs to `app`: the program's file name matches, ignoring ASCII case.
/// A window of another program with the same title does not count.
pub fn is_instance_of(app: App, image_path: &str) -> (r: bool)
    ensures
        r == equal_ignoring_ascii_case(file_name(image_path@), program_file(app)),
{
    let name = chars_of(exe_file_name(image_path).as_str());
    let exe = chars_of(app.exe());
    eq_ignore_ascii_case(&name, &exe)
}

/// The UTF-16 code units of one char.
pub open spec fn utf16_units(c: char) -> Seq<u16> {
    let n = c as u32;
    if n < 0x10000 {
        seq![n as u16]
    } else {
        let m = n - 0x10000;
        seq![(0xD800 + m / 0x400) as u16, (0xDC00 + m % 0x400) as u16]
    }
}

/// The UTF-16 encoding of a char sequence.
pub open spec fn utf16(s: Seq<char>) -> Seq<u16>
    decreases s.len(),
{
    if s.len() == 0 {
        Seq::empty()
    } else {
        utf16(s.drop_last()) + utf16_units(s.last())
    }
}

/// `s` as UTF-16 with a terminating zero, the form the Windows API takes.
pub fn wide(s: &str) -> (r: Vec<u16>)
    ensures
        r@ == utf16(s@).push(0u16),
{
    let v = chars_of(s);
    let mut out: Vec<u16> = Vec::new();
    let mut i: usize = 0;
    while i < v.len()
        invariant
            i <= v.len(),
            out@ == utf16(v@.take(i as int)),
        decreases v.len() - i,
    {
        assert(v@.take(i + 1).drop_last() =~= v@.take(i as int));
        let n = v[i] as u32;
        proof {
            vstd::utf8::char_is_scalar(v@[i as int]);
        }
        if n < 0x10000 {
            out.push(n as u16);
        } else {
            let m = n - 0x10000;
            out.push((0xD800 + m / 0x400) as u16);
            out.push((0xDC00 + m % 0x400) as u16);
        }
        assert(out@ =~= utf16(v@.take(i as int)) + utf16_units(v@[i as int]));
        i += 1;
    }
    assert(v@.take(v.len() as int) =~= v@);
    out.push(0);
    out
}

} // verus!
