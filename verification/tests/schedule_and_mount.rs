use r_archiver::config::ServerConfig;
use r_archiver::mounter::{
    finish_mount, listing_mentions, mount_command, plan_mount, unmount_report, MountAction,
};
use r_archiver::scheduler::{
    is_scheduled_day, num_to_weekday, plan_after_mount, seconds_until_run, weekdays_from_numbers,
    next_run_step, AfterMount, RunAction, RunEvent, RunState, Weekday,
};

#[test]
fn week_days_are_numbered_from_monday() {
    let expected = [
        None,
        Some(Weekday::Mon),
        Some(Weekday::Tue),
        Some(Weekday::Wed),
        Some(Weekday::Thu),
        Some(Weekday::Fri),
        Some(Weekday::Sat),
        Some(Weekday::Sun),
        None,
    ];
    for (n, w) in expected.iter().enumerate() {
        assert_eq!(num_to_weekday(n as u8), *w);
    }
    assert_eq!(num_to_weekday(255), None);
}

#[test]
fn listed_numbers_become_week_days() {
    let days = weekdays_from_numbers(&vec![1, 9, 7, 0, 3]);
    assert_eq!(days, vec![Weekday::Mon, Weekday::Sun, Weekday::Wed]);
    assert!(is_scheduled_day(&days, Weekday::Sun));
    assert!(!is_scheduled_day(&days, Weekday::Tue));
    assert!(!is_scheduled_day(&Vec::new(), Weekday::Mon));
}

#[test]
fn sleep_until_the_run_later_today() {
    assert_eq!(seconds_until_run(1000, 0, 1060), 60);
    assert_eq!(seconds_until_run(1000, 5, 1060), 59);
    assert_eq!(seconds_until_run(1059, 999_999_999, 1060), 0);
}

#[test]
fn sleep_until_the_run_tomorrow() {
    assert_eq!(seconds_until_run(1060, 0, 1060), 86400);
    assert_eq!(seconds_until_run(1070, 500, 1060), 86389);
}

#[test]
fn sleep_wraps_like_an_as_cast_more_than_a_day_late() {
    assert_eq!(seconds_until_run(1060 + 86405, 0, 1060), (-5i64) as u64);
    assert_eq!(seconds_until_run(1060 + 86405, 1, 1060), (-5i64) as u64);
}

fn server() -> ServerConfig {
    ServerConfig {
        server_ip: "172.16.2.01".to_string(),
        username: "user".to_string(),
        password: "password".to_string(),
        remote_dir: "/backup/dir_for_backup".to_string(),
        local_dir: "/mnt/backups".to_string(),
    }
}

#[test]
fn mount_command_uses_sshfs() {
    assert_eq!(
        mount_command(&server()),
        "echo password | sshfs user@172.16.2.01:/backup/dir_for_backup /mnt/backups -o password_stdin"
    );
}

#[test]
fn mount_point_is_found_in_the_listing() {
    let listing = "proc on /proc type proc\nuser@h:/x on /mnt/backups type fuse.sshfs\n";
    assert!(listing_mentions(listing, "/mnt/backups"));
    assert!(!listing_mentions(listing, "/mnt/other"));
    assert!(listing_mentions(listing, ""));
    assert!(!listing_mentions("", "/mnt"));
}

#[test]
fn mount_steps() {
    let config = server();
    assert_eq!(plan_mount(&config, Ok(true)), MountAction::AlreadyMounted);
    assert_eq!(plan_mount(&config, Ok(false)), MountAction::Mount { command: mount_command(&config) });
    assert_eq!(
        plan_mount(&config, Err("The path doesn't exist".to_string())),
        MountAction::Fail {
            message: "Failed to check if /mnt/backups is mount point: The path doesn't exist".to_string()
        }
    );
    assert_eq!(finish_mount(true, "ignored"), Ok(()));
    assert_eq!(
        finish_mount(false, "connection refused"),
        Err("Failed to mount directory: connection refused".to_string())
    );
}

#[test]
fn unmount_reports() {
    assert_eq!(unmount_report("/mnt/b", None), Ok("Successfully unmounted /mnt/b".to_string()));
    assert_eq!(
        unmount_report("/mnt/b", Some("busy".to_string())),
        Err("Failed to unmount /mnt/b: busy".to_string())
    );
}

#[test]
fn run_continues_after_the_mount() {
    assert_eq!(plan_after_mount(&Ok(())), AfterMount::MakeTarball);
    assert_eq!(
        plan_after_mount(&Err("no route".to_string())),
        AfterMount::ReportFailure { message: "Failed to mount directory: no route".to_string() }
    );
}

#[test]
fn a_scheduled_day_runs_its_steps_in_order() {
    let weekdays = vec![Weekday::Mon];
    let clock = RunEvent::ClockRead { now_secs: 1000, now_nanos: 0, target_secs: 1060, today: Weekday::Mon };
    let (s, a) = next_run_step(&weekdays, RunState::ReadingClock, clock);
    assert_eq!((s, a), (RunState::Sleeping { run_today: true }, RunAction::Sleep { seconds: 60 }));
    let (s, a) = next_run_step(&weekdays, s, RunEvent::Slept);
    assert_eq!((s, a), (RunState::Pausing, RunAction::Pause));
    let (s, a) = next_run_step(&weekdays, s, RunEvent::Slept);
    assert_eq!((s, a), (RunState::Mounting, RunAction::Mount));
    let (s, a) = next_run_step(&weekdays, s, RunEvent::MountDone { outcome: Err("down".to_string()) });
    assert_eq!(
        (s, a),
        (RunState::Finishing, RunAction::ReportMountFailure { message: "Failed to mount directory: down".to_string() })
    );
    let (s, a) = next_run_step(&weekdays, s, RunEvent::StepDone);
    assert_eq!((s, a), (RunState::Unmounting, RunAction::Unmount));
    let (s, a) = next_run_step(&weekdays, s, RunEvent::StepDone);
    assert_eq!((s, a), (RunState::ReadingClock, RunAction::ReadClock));
}

#[test]
fn other_days_only_sleep() {
    let weekdays = vec![Weekday::Mon];
    let clock = RunEvent::ClockRead { now_secs: 1060, now_nanos: 0, target_secs: 1060, today: Weekday::Tue };
    let (s, a) = next_run_step(&weekdays, RunState::ReadingClock, clock);
    assert_eq!((s, a), (RunState::Sleeping { run_today: false }, RunAction::Sleep { seconds: 86400 }));
    let (s, a) = next_run_step(&weekdays, s, RunEvent::Slept);
    assert_eq!((s, a), (RunState::ReadingClock, RunAction::ReadClock));
    let (s, a) = next_run_step(&weekdays, RunState::Mounting, RunEvent::MountDone { outcome: Ok(()) });
    assert_eq!((s, a), (RunState::Finishing, RunAction::MakeTarball));
    let (s, a) = next_run_step(&weekdays, RunState::Pausing, RunEvent::StepDone);
    assert_eq!((s, a), (RunState::ReadingClock, RunAction::ReadClock));
}
