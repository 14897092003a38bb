use shut_me_down::checkpoint::{default_thresholds, plan, staged_checkpoints};
use shut_me_down::duration::format_duration;
use shut_me_down::reference::{parse_absolute, parse_relative, resolve, Mode, ParseError};
use shut_me_down::registration::{lock_file_name, registration_outcome, RegistrationError};
use shut_me_down::schedule::{alarms_for, schedule, staged_message, terminal_message};

const TEN_AM: u32 = 10 * 3600;

#[test]
fn format_zero_is_empty() {
    assert_eq!(format_duration(0), "");
}

#[test]
fn format_all_units() {
    assert_eq!(format_duration(86400 + 3600 + 60 + 1), "1d 1h 1m 1s");
    assert_eq!(format_duration(2 * 86400 + 5 * 3600 + 7 * 60 + 42), "2d 5h 7m 42s");
}

#[test]
fn format_skips_zero_units() {
    assert_eq!(format_duration(3600), "1h");
    assert_eq!(format_duration(5400), "1h 30m");
    assert_eq!(format_duration(86400 + 5), "1d 5s");
    assert_eq!(format_duration(59), "59s");
    assert_eq!(format_duration(600), "10m");
    assert_eq!(format_duration(10 * 86400), "10d");
}

#[test]
fn format_has_no_outer_spaces() {
    for secs in [1u64, 61, 3601, 90061, 86400, 3660, 120] {
        let text = format_duration(secs);
        assert!(!text.starts_with(' ') && !text.ends_with(' '), "{:?}", text);
    }
}

#[test]
fn default_thresholds_descend() {
    assert_eq!(default_thresholds(), vec![600, 300, 60, 10]);
}

#[test]
fn plan_fifteen_minutes_has_five_checkpoints() {
    let t = default_thresholds();
    assert_eq!(plan(900, &t), vec![600, 300, 60, 10, 0]);
}

#[test]
fn plan_five_seconds_has_only_expiry() {
    let t = default_thresholds();
    assert_eq!(plan(5, &t), vec![0]);
    assert_eq!(plan(10, &t), vec![0]);
    assert_eq!(plan(0, &t), vec![0]);
}

#[test]
fn plan_leaves_out_threshold_equal_to_total() {
    let t = default_thresholds();
    assert_eq!(plan(600, &t), vec![300, 60, 10, 0]);
    assert_eq!(plan(601, &t), vec![600, 300, 60, 10, 0]);
    assert_eq!(plan(61, &t), vec![60, 10, 0]);
}

#[test]
fn alarm_messages() {
    assert_eq!(terminal_message(), "Time's up!");
    assert_eq!(staged_message(60), "Will end in 1m");
    assert_eq!(staged_message(600), "Will end in 10m");
    assert_eq!(staged_message(10), "Will end in 10s");
    assert_eq!(staged_message(3725), "Will end in 1h 2m 5s");
}

#[test]
fn fifteen_minutes_fires_five_alarms() {
    let alarms = alarms_for(900, &default_thresholds());
    assert_eq!(alarms.len(), 5);
    let after: Vec<u64> = alarms.iter().map(|a| a.after).collect();
    assert_eq!(after, vec![300, 600, 840, 890, 900]);
    let checkpoints: Vec<u64> = alarms.iter().map(|a| a.checkpoint).collect();
    assert_eq!(checkpoints, vec![600, 300, 60, 10, 0]);
    assert_eq!(alarms[4].body, "Time's up!");
}

#[test]
fn five_seconds_fires_one_alarm() {
    let alarms = alarms_for(5, &default_thresholds());
    assert_eq!(alarms.len(), 1);
    assert_eq!(alarms[0].after, 5);
    assert_eq!(alarms[0].body, "Time's up!");
}

#[test]
fn schedule_counts_from_start() {
    let alarms = schedule(100, &[60]);
    assert_eq!(alarms.len(), 2);
    assert_eq!(alarms[0].after, 40);
    assert_eq!(alarms[0].body, "Will end in 1m");
    assert_eq!(alarms[1].after, 100);
    assert_eq!(alarms[1].body, "Time's up!");
}

#[test]
fn zero_threshold_does_not_say_time_is_up() {
    let alarms = alarms_for(100, &[10, 0]);
    let checkpoints: Vec<u64> = alarms.iter().map(|a| a.checkpoint).collect();
    assert_eq!(checkpoints, vec![10, 0, 0]);
    assert_eq!(plan(100, &[10, 0]), vec![10, 0, 0]);
    let ups = alarms.iter().filter(|a| a.body == "Time's up!").count();
    assert_eq!(ups, 1);
    assert_eq!(alarms[2].body, "Time's up!");
    assert_ne!(alarms[1].body, "Time's up!");
}

#[test]
fn staged_checkpoints_leave_out_expiry() {
    assert_eq!(staged_checkpoints(900, &default_thresholds()), vec![600, 300, 60, 10]);
    assert_eq!(staged_checkpoints(5, &default_thresholds()), Vec::<u64>::new());
}

#[test]
fn relative_sums_fields() {
    assert_eq!(parse_relative("1h 30m"), Ok(5400));
    assert_eq!(parse_relative("1h 2m 3s"), Ok(3723));
    assert_eq!(parse_relative("1h2m3s"), Ok(3723));
    assert_eq!(parse_relative("5m"), Ok(300));
    assert_eq!(parse_relative("45s"), Ok(45));
    assert_eq!(parse_relative("2h 10s"), Ok(7210));
    assert_eq!(parse_relative("2h  10s"), Ok(7210));
    assert_eq!(parse_relative("90m"), Ok(5400));
}

#[test]
fn relative_empty_is_zero() {
    assert_eq!(parse_relative(""), Ok(0));
    assert_eq!(parse_relative(" "), Ok(0));
    assert_eq!(parse_relative("1h 5m "), Ok(3900));
}

#[test]
fn relative_rejects_other_text() {
    assert_eq!(parse_relative("abc"), Err(ParseError::InvalidReference));
    assert_eq!(parse_relative("5"), Err(ParseError::InvalidReference));
    assert_eq!(parse_relative("5x"), Err(ParseError::InvalidReference));
    assert_eq!(parse_relative("3m 1h"), Err(ParseError::InvalidReference));
    assert_eq!(parse_relative("1h   5m"), Err(ParseError::InvalidReference));
    assert_eq!(parse_relative("1h 5m  "), Err(ParseError::InvalidReference));
    assert_eq!(parse_relative("1h 5m 3s "), Err(ParseError::InvalidReference));
}

#[test]
fn relative_rejects_large_numbers() {
    assert_eq!(parse_relative("99999999999999999999h"), Err(ParseError::InvalidNumber));
    assert_eq!(parse_relative("9223372036854775808s"), Err(ParseError::InvalidNumber));
    assert_eq!(parse_relative("9223372036854775807s"), Ok(9223372036854775807));
    assert_eq!(parse_relative("2562047788015216h"), Err(ParseError::InvalidNumber));
}

#[test]
fn absolute_bare_hour() {
    assert_eq!(parse_absolute("16", TEN_AM), Ok(6 * 3600));
    assert_eq!(parse_absolute("10", TEN_AM), Ok(0));
    assert_eq!(parse_absolute("4", TEN_AM), Ok(18 * 3600));
    assert_eq!(parse_absolute("0", TEN_AM), Ok(14 * 3600));
}

#[test]
fn absolute_bare_hour_rejects() {
    assert_eq!(parse_absolute("24", TEN_AM), Err(ParseError::InvalidReference));
    assert_eq!(parse_absolute("", TEN_AM), Err(ParseError::InvalidReference));
    assert_eq!(parse_absolute("x", TEN_AM), Err(ParseError::InvalidReference));
    assert_eq!(parse_absolute("99999999999999999999", TEN_AM), Err(ParseError::InvalidReference));
}

#[test]
fn absolute_clock_time() {
    assert_eq!(parse_absolute("16:30", TEN_AM), Ok(6 * 3600 + 1800));
    assert_eq!(parse_absolute("10:00:30", TEN_AM), Ok(30));
    assert_eq!(parse_absolute("10:00:00", TEN_AM), Ok(0));
}

#[test]
fn absolute_passed_time_is_tomorrow() {
    assert_eq!(parse_absolute("09:00:00", TEN_AM), Ok(23 * 3600));
    assert_eq!(parse_absolute("09:59:59", TEN_AM), Ok(86399));
    assert_eq!(parse_absolute("4:00", TEN_AM), Ok(18 * 3600));
}

#[test]
fn absolute_rejects() {
    assert_eq!(parse_absolute("ab:cd", TEN_AM), Err(ParseError::InvalidReference));
    assert_eq!(parse_absolute("25:00", TEN_AM), Err(ParseError::InvalidReference));
    assert_eq!(parse_absolute("1:2:3:4", TEN_AM), Err(ParseError::Unsupported));
}

#[test]
fn resolve_by_mode() {
    assert_eq!(resolve(Mode::In, "10m", TEN_AM), Ok(600));
    assert_eq!(resolve(Mode::At, "11", TEN_AM), Ok(3600));
}

#[test]
fn in_one_and_a_half_hours_end_to_end() {
    let total = resolve(Mode::In, "1h 30m", TEN_AM).unwrap();
    assert_eq!(total, 5400);
    let t = default_thresholds();
    assert_eq!(plan(total, &t), vec![600, 300, 60, 10, 0]);
    let alarms = alarms_for(total, &t);
    assert_eq!(alarms[0].after, 4800);
    assert!(alarms[0].body.contains("10m"));
    let last = alarms.last().unwrap();
    assert_eq!(last.after, 5400);
    assert_eq!(last.body, "Time's up!");
}

#[test]
fn lock_file_is_named_after_id() {
    assert_eq!(lock_file_name("work"), "work.lock");
    assert_eq!(lock_file_name(""), ".lock");
}

#[test]
fn registration_outcomes() {
    assert_eq!(registration_outcome(Some(true)), Ok(()));
    assert_eq!(registration_outcome(Some(false)), Err(RegistrationError::AlreadyRegistered));
    assert_eq!(registration_outcome(None), Err(RegistrationError::IoError));
}

use shut_me_down::session::{apply, next_action, start_session, Action, Event};

#[test]
fn session_waits_then_unlocks_then_runs_command() {
    let mut s = start_session(2, true, true);
    assert_eq!(next_action(&s), Action::AwaitWaiter);
    s = apply(s, Event::WaiterFinished { ok: true });
    assert_eq!(next_action(&s), Action::AwaitWaiter);
    s = apply(s, Event::WaiterFinished { ok: true });
    assert_eq!(next_action(&s), Action::Unlock);
    s = apply(s, Event::Unlocked { ok: true });
    assert_eq!(next_action(&s), Action::RunCommand);
    s = apply(s, Event::CommandFinished { ok: true });
    assert_eq!(next_action(&s), Action::Exit { failed: false });
}

#[test]
fn session_unlocks_after_failed_waiter_and_skips_command() {
    let mut s = start_session(1, true, true);
    s = apply(s, Event::WaiterFinished { ok: false });
    assert_eq!(next_action(&s), Action::Unlock);
    s = apply(s, Event::Unlocked { ok: true });
    assert_eq!(next_action(&s), Action::Exit { failed: true });
}

#[test]
fn session_failed_unlock_skips_command() {
    let mut s = start_session(0, true, true);
    assert_eq!(next_action(&s), Action::Unlock);
    s = apply(s, Event::Unlocked { ok: false });
    assert_eq!(next_action(&s), Action::Exit { failed: true });
}

#[test]
fn session_failed_command_fails() {
    let mut s = start_session(1, false, true);
    s = apply(s, Event::WaiterFinished { ok: true });
    assert_eq!(next_action(&s), Action::RunCommand);
    s = apply(s, Event::CommandFinished { ok: false });
    assert_eq!(next_action(&s), Action::Exit { failed: true });
}

#[test]
fn session_without_lock_or_command_exits_after_waiters() {
    let mut s = start_session(1, false, false);
    s = apply(s, Event::WaiterFinished { ok: true });
    assert_eq!(next_action(&s), Action::Exit { failed: false });
}

use shut_me_down::reference::{clock_time_wait, seconds_until};

#[test]
fn clock_time_wait_from_parsed_time() {
    assert_eq!(clock_time_wait(Some(16 * 3600), TEN_AM), Ok(6 * 3600));
    assert_eq!(clock_time_wait(Some(9 * 3600), TEN_AM), Ok(23 * 3600));
    assert_eq!(clock_time_wait(None, TEN_AM), Err(ParseError::InvalidReference));
}

#[test]
fn seconds_until_wraps_to_tomorrow() {
    assert_eq!(seconds_until(0, 86399), 1);
    assert_eq!(seconds_until(86399, 0), 86399);
    assert_eq!(seconds_until(500, 500), 0);
}

#[test]
fn formatted_span_reads_back() {
    for secs in [1u64, 59, 60, 61, 3600, 3661, 5400, 86399] {
        assert_eq!(parse_relative(&format_duration(secs)), Ok(secs));
    }
}
