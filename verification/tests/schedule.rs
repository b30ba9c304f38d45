use panelmc::backups::{
    auto_backup_allowed, backup_every_min, backup_is_due, due_backup, BackupClock, BusySet,
    DueBackup, Moment,
};
use panelmc::console::save_finished;
use panelmc::listing::{count_scale, format_uptime, size_scale, Scale};

fn after(t: Moment, secs: i64) -> Moment {
    Moment { secs: t.secs + secs, nanos: t.nanos }
}

#[test]
fn uptime_formats_hours() {
    assert_eq!(format_uptime(0), "0s");
    assert_eq!(format_uptime(61), "1m 01s");
    assert_eq!(format_uptime(3661), "1h 01m");
}

#[test]
fn uptime_of_long_runs() {
    assert_eq!(format_uptime(59), "59s");
    assert_eq!(format_uptime(60), "1m 00s");
    assert_eq!(format_uptime(3599), "59m 59s");
    assert_eq!(format_uptime(3600), "1h 00m");
    assert_eq!(format_uptime(360_000 + 12 * 60), "100h 12m");
}

#[test]
fn backup_schedule_rules() {
    let t0 = Moment { secs: 1_000_000, nanos: 0 };
    assert!(!backup_is_due(None, 30, t0));
    assert!(!backup_is_due(Some(t0), 0, after(t0, 3600)));
    assert!(!backup_is_due(Some(t0), 30, after(t0, 29 * 60)));
    assert!(backup_is_due(Some(t0), 30, after(t0, 30 * 60)));
    assert_eq!(backup_every_min(15), 0);
    assert_eq!(backup_every_min(60), 60);
    assert!(!auto_backup_allowed(Some(1024)));
    assert!(auto_backup_allowed(Some(3 * 1024 * 1024 * 1024)));
    assert!(auto_backup_allowed(None));
    assert!(save_finished("... Saved the game\n"));
    assert!(!save_finished("Saving the game"));
}

#[test]
fn a_backup_is_due_in_whole_seconds() {
    let t0 = Moment { secs: 100, nanos: 500_000_000 };
    let almost = Moment { secs: 100 + 1800, nanos: 499_999_999 };
    let just = Moment { secs: 100 + 1800, nanos: 500_000_000 };
    assert!(!backup_is_due(Some(t0), 30, almost));
    assert!(backup_is_due(Some(t0), 30, just));
    assert!(backup_is_due(Some(t0), 360, Moment { secs: 99, nanos: 0 }));
    assert_eq!(backup_every_min(30), 30);
    assert_eq!(backup_every_min(360), 360);
    assert_eq!(backup_every_min(0), 0);
    assert!(auto_backup_allowed(Some(2_147_483_648)));
    assert!(!auto_backup_allowed(Some(2_147_483_647)));
}

#[test]
fn the_clock_waits_one_interval() {
    let t0 = Moment { secs: 1_000, nanos: 0 };
    let mut clock = BackupClock::new();
    assert!(!clock.tick("a", 30, t0));
    assert_eq!(clock.last("a"), Some(t0));
    assert!(!clock.tick("a", 30, after(t0, 1799)));
    assert!(clock.tick("a", 30, after(t0, 1800)));
    assert_eq!(clock.last("a"), Some(t0));
    clock.mark("a", after(t0, 1810));
    clock.mark("b", t0);
    assert!(!clock.tick("a", 30, after(t0, 1811)));
    assert!(!clock.tick("a", 7, after(t0, 9000)));
    assert_eq!(clock.last("a"), None);
    assert_eq!(clock.last("b"), Some(t0));
    clock.forget("b");
    clock.forget("b");
    assert_eq!(clock.last("b"), None);
}

#[test]
fn one_backup_at_a_time() {
    let mut busy = BusySet::new();
    assert!(busy.insert("a"));
    assert!(!busy.insert("a"));
    assert!(busy.insert("b"));
    assert!(busy.contains("a"));
    busy.remove("a");
    assert!(!busy.contains("a"));
    assert!(busy.contains("b"));
    assert!(busy.insert("a"));
}

#[test]
fn what_becomes_of_a_due_backup() {
    assert_eq!(due_backup(true, true, None, true), DueBackup::Wait);
    assert_eq!(due_backup(false, false, None, true), DueBackup::Wait);
    assert_eq!(due_backup(false, true, Some(5), true), DueBackup::DiskLow);
    assert_eq!(due_backup(false, true, None, false), DueBackup::NotOurs);
    assert_eq!(due_backup(false, true, None, true), DueBackup::Take);
}

#[test]
fn scales() {
    assert_eq!(size_scale(1024), Scale::One);
    assert_eq!(size_scale(1025), Scale::Thousands);
    assert_eq!(size_scale(1_048_576), Scale::Thousands);
    assert_eq!(size_scale(1_048_577), Scale::Millions);
    assert_eq!(count_scale(999), Scale::One);
    assert_eq!(count_scale(1000), Scale::Thousands);
    assert_eq!(count_scale(1_000_000), Scale::Millions);
}

#[test]
fn an_interval_is_chosen() {
    let mut clock = BackupClock::new();
    let t = Moment { secs: 1_000_000, nanos: 5 };
    assert_eq!(clock.choose_interval("a", 60, t), 60);
    assert_eq!(clock.last("a"), Some(t));
    assert_eq!(clock.choose_interval("b", 30, t), 30);
    assert_eq!(clock.choose_interval("a", 15, t), 0);
    assert_eq!(clock.last("a"), None);
    assert_eq!(clock.choose_interval("b", -30, t), 0);
    assert_eq!(clock.last("b"), None);
}
