use monocore::monitor::{
    dec_string, log_file_name, purge_candidates, should_purge, FilesystemTable, LogFileInfo,
    MicroVmMonitor, NfsServerMonitor, SandboxRow, SandboxTable, Terminal, RAW_TERMINAL_MODE,
};

#[test]
fn decimal_rendering() {
    assert_eq!(dec_string(0), "0");
    assert_eq!(dec_string(7), "7");
    assert_eq!(dec_string(1234567890), "1234567890");
    assert_eq!(dec_string(u64::MAX), "18446744073709551615");
}

#[test]
fn log_file_name_format() {
    assert_eq!(log_file_name("mcrun", "web", 1700000000, 4242), "mcrun-web-1700000000-4242.log");
    assert_eq!(log_file_name("mfsrun", "fs", 5, 1), "mfsrun-fs-5-1.log");
}

#[test]
fn purge_rule() {
    // prefix, suffix and age must all hold
    assert!(should_purge("mcrun-web-1-2.log", "mcrun", 100, 5000, 1000));
    assert!(!should_purge("other-web-1-2.log", "mcrun", 100, 5000, 1000));
    assert!(!should_purge("mcrun-web-1-2.txt", "mcrun", 100, 5000, 1000));
    // exactly at the retention boundary nothing is purged
    assert!(!should_purge("mcrun-web-1-2.log", "mcrun", 100, 1100, 1000));
    assert!(should_purge("mcrun-web-1-2.log", "mcrun", 100, 1101, 1000));
    // a file modified in the future is kept
    assert!(!should_purge("mcrun-web-1-2.log", "mcrun", 9999, 100, 0));
}

#[test]
fn purge_candidates_selects_in_order() {
    let entries = vec![
        LogFileInfo { name: "mcrun-a-1-1.log".to_string(), modified_secs: 0 },
        LogFileInfo { name: "fresh.log".to_string(), modified_secs: 4990 },
        LogFileInfo { name: "mcrun-b-1-1.log".to_string(), modified_secs: 10 },
    ];
    let picked = purge_candidates(&entries, "mcrun", 5000, 100);
    assert_eq!(picked, vec!["mcrun-a-1-1.log".to_string(), "mcrun-b-1-1.log".to_string()]);
}

fn row(name: &str, sup: u32, vm: u32) -> SandboxRow {
    SandboxRow {
        name: name.to_string(),
        supervisor_pid: sup,
        microvm_pid: vm,
        status: "STARTING".to_string(),
        root_path: "/rootfs".to_string(),
        assigned_ip: None,
        group_ip: None,
    }
}

#[test]
fn sandbox_table_primary_key() {
    let mut t = SandboxTable::new();
    assert!(t.insert(row("web", 10, 11)).is_ok());
    assert!(t.insert(row("db", 20, 21)).is_ok());
    // the name is a primary key: a duplicate insert fails and changes nothing
    assert!(t.insert(row("web", 30, 31)).is_err());
    assert_eq!(t.rows.len(), 2);
    assert!(t.contains_name("web"));
    t.delete_by_supervisor_pid(10);
    assert!(!t.contains_name("web"));
    assert!(t.contains_name("db"));
    t.clear();
    assert_eq!(t.rows.len(), 0);
}

#[test]
fn microvm_monitor_start_stop_cycle() {
    let mut table = SandboxTable::new();
    let mut term = Terminal { mode: 777 };
    let mut mon =
        MicroVmMonitor::new(100, "/log".to_string(), "/rootfs/web".to_string(), 3600, false);
    mon.start(&mut table, &mut term, 555, "web".to_string(), true).unwrap();
    // the row is live with status STARTING, and the terminal went raw
    assert_eq!(table.rows.len(), 1);
    assert_eq!(table.rows[0].name, "web");
    assert_eq!(table.rows[0].supervisor_pid, 100);
    assert_eq!(table.rows[0].microvm_pid, 555);
    assert_eq!(table.rows[0].status, "STARTING");
    assert_eq!(table.rows[0].root_path, "/rootfs/web");
    assert_eq!(term.mode, RAW_TERMINAL_MODE);
    let log_path = mon.log_path.clone().unwrap();
    assert!(log_path.starts_with("/log/mcrun-web-"));
    assert!(log_path.ends_with(".log"));
    // a second service with the same name is refused
    let mut mon2 =
        MicroVmMonitor::new(101, "/log".to_string(), "/rootfs/web2".to_string(), 3600, false);
    assert!(mon2.start(&mut table, &mut term, 556, "web".to_string(), false).is_err());
    assert_eq!(table.rows.len(), 1);
    // stop removes the row and restores the terminal settings exactly
    let entries = vec![LogFileInfo { name: "mcrun-old-1-1.log".to_string(), modified_secs: 0 }];
    let purge = mon.stop(&mut table, &mut term, &entries);
    assert_eq!(table.rows.len(), 0);
    assert_eq!(term.mode, 777);
    assert!(mon.log_path.is_none());
    // the ancient log file is named for purging
    assert_eq!(purge, vec!["mcrun-old-1-1.log".to_string()]);
}

#[test]
fn terminal_restore_is_idempotent() {
    let mut table = SandboxTable::new();
    let mut term = Terminal { mode: 42 };
    let mut mon = MicroVmMonitor::new(1, "/log".to_string(), "/r".to_string(), 60, true);
    mon.start(&mut table, &mut term, 2, "svc".to_string(), true).unwrap();
    assert_eq!(term.mode, RAW_TERMINAL_MODE);
    mon.restore_terminal_settings(&mut term);
    assert_eq!(term.mode, 42);
    // restoring again changes nothing
    term.mode = 99;
    mon.restore_terminal_settings(&mut term);
    assert_eq!(term.mode, 99);
}

#[test]
fn nfs_monitor_start_stop_cycle() {
    let mut table = FilesystemTable::new();
    let mut mon = NfsServerMonitor::new(300, "/mnt/fs".to_string(), "/log".to_string());
    mon.start(&mut table, 400, "share".to_string()).unwrap();
    assert_eq!(table.rows.len(), 1);
    assert_eq!(table.rows[0].name, "share");
    assert_eq!(table.rows[0].mount_dir, "/mnt/fs");
    assert_eq!(table.rows[0].supervisor_pid, 300);
    assert_eq!(table.rows[0].nfsserver_pid, 400);
    let log_path = mon.log_path.clone().unwrap();
    assert!(log_path.starts_with("/log/mfsrun-share-"));
    assert!(log_path.ends_with(".log"));
    let removed = mon.stop(&mut table);
    assert_eq!(table.rows.len(), 0);
    assert_eq!(removed.unwrap(), log_path);
    assert!(mon.log_path.is_none());
}
