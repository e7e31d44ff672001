use stock_calc::instance::{
    activate, claim, exe_file_name, hand_over_step, is_instance_of, missing_program_message,
    start_failed_message, wide, App, HandOver, LockOutcome, WindowState, HAND_OVER_ATTEMPTS,
};

#[test]
fn app_names() {
    assert_eq!(App::Portfolio.title(), "Stock Portfolio");
    assert_eq!(App::Calculator.title(), "Stock Calculator");
    assert_eq!(App::Portfolio.exe(), "portfolio.exe");
    assert_eq!(App::Calculator.exe(), "stockcalc.exe");
    assert_eq!(App::Portfolio.mutex_name(), r"Local\StockCalc.Portfolio.SingleInstance");
    assert_eq!(App::Calculator.mutex_name(), r"Local\StockCalc.Calculator.SingleInstance");
}

#[test]
fn only_an_existing_lock_refuses() {
    assert!(claim(LockOutcome::Created));
    assert!(claim(LockOutcome::Failed));
    assert!(!claim(LockOutcome::AlreadyExists));
}

#[test]
fn activation_steps() {
    let a = activate(WindowState::NotFound);
    assert!(!a.running && !a.restore);
    let a = activate(WindowState::Minimized);
    assert!(a.running && a.restore);
    let a = activate(WindowState::Shown);
    assert!(a.running && !a.restore);
}

#[test]
fn file_name_of_image_path() {
    assert_eq!(exe_file_name(r"C:\Program Files\StockCalc\portfolio.exe"), "portfolio.exe");
    assert_eq!(exe_file_name("/usr/bin/stockcalc.exe"), "stockcalc.exe");
    assert_eq!(exe_file_name(r"C:\mixed/dir\x.exe"), "x.exe");
    assert_eq!(exe_file_name("plain.exe"), "plain.exe");
    assert_eq!(exe_file_name(r"C:\dir\"), "");
}

#[test]
fn instance_is_recognized_by_program_file() {
    assert!(is_instance_of(App::Portfolio, r"C:\Apps\PORTFOLIO.EXE"));
    assert!(is_instance_of(App::Calculator, r"D:\x\StockCalc.exe"));
    assert!(!is_instance_of(App::Portfolio, r"C:\Browser\firefox.exe"));
    assert!(!is_instance_of(App::Calculator, r"C:\Apps\portfolio.exe"));
}

#[test]
fn wide_is_utf16_with_terminator() {
    for s in ["", "Stock Portfolio", r"Local\StockCalc.Portfolio.SingleInstance", "ä€𝄞x"] {
        let expected: Vec<u16> = s.encode_utf16().chain(Some(0)).collect();
        assert_eq!(wide(s), expected);
    }
}

#[test]
fn hand_over_tries_at_most_thirty_times() {
    assert_eq!(HAND_OVER_ATTEMPTS, 30);
    assert_eq!(hand_over_step(1, true), HandOver::Done);
    assert_eq!(hand_over_step(1, false), HandOver::Retry);
    assert_eq!(hand_over_step(29, false), HandOver::Retry);
    assert_eq!(hand_over_step(30, false), HandOver::GiveUp);
    assert_eq!(hand_over_step(30, true), HandOver::Done);
}

#[test]
fn start_error_messages() {
    assert_eq!(missing_program_message(App::Calculator), "stockcalc.exe was not found in the program folder");
    assert_eq!(start_failed_message(App::Portfolio, "access denied"), "Could not start portfolio.exe: access denied");
}
