use monocore::monitor::{SandboxRow, SandboxTable};
use monocore::orchestrator::allocate_ip;
use monocore::state::Subnet;
use monocore::orchestrator::{
    topological_order, validate_config, DownFilter, MonocoreConfig, OrchAction, Orchestrator,
};
use monocore::state::{Group, Service};

fn svc(name: &str, deps: &[&str]) -> Service {
    Service {
        name: name.to_string(),
        base: "library/alpine:latest".to_string(),
        group: "main".to_string(),
        command: "/bin/sleep".to_string(),
        args: vec!["30".to_string()],
        envs: Vec::new(),
        cpus: 1,
        ram_mib: 128,
        ports: Vec::new(),
        volumes: Vec::new(),
        rlimits: Vec::new(),
        depends_on: deps.iter().map(|d| d.to_string()).collect(),
    }
}

fn cfg(services: Vec<Service>) -> MonocoreConfig {
    MonocoreConfig {
        services,
        groups: vec![Group { name: "main".to_string(), subnet: None }],
    }
}

fn names(orch: &Orchestrator) -> Vec<String> {
    let mut v: Vec<String> = orch.status().into_iter().map(|(n, _)| n).collect();
    v.sort();
    v
}

#[test]
fn validate_rejects_duplicates_groups_and_cycles() {
    let dup = cfg(vec![svc("a", &[]), svc("a", &[])]);
    assert!(validate_config(&dup).is_err());
    let mut missing = cfg(vec![svc("a", &[])]);
    missing.groups = Vec::new();
    assert!(validate_config(&missing).is_err());
    let cyc = cfg(vec![svc("a", &["b"]), svc("b", &["a"])]);
    assert!(validate_config(&cyc).is_err());
    let ok = cfg(vec![svc("a", &["b"]), svc("b", &[])]);
    assert!(validate_config(&ok).is_ok());
}

#[test]
fn topological_order_puts_dependencies_first() {
    let services = vec![svc("tail", &["sleep"]), svc("sleep", &[])];
    let order = topological_order(&services).unwrap();
    // sleep (index 1) must come before tail (index 0)
    assert_eq!(order, vec![1, 0]);
}

#[test]
fn up_then_down_two_services() {
    let config = cfg(vec![svc("tail", &["sleep"]), svc("sleep", &[])]);
    let mut orch = Orchestrator::new("/home".to_string(), "/bin/mcrun".to_string(), 3600);
    let actions = orch.up(&config, &vec![1001, 1002]).unwrap();
    // two spawns, the dependency first
    assert_eq!(actions.len(), 2);
    match (&actions[0], &actions[1]) {
        (
            OrchAction::Spawn { name: n0, .. },
            OrchAction::Spawn { name: n1, .. },
        ) => {
            assert_eq!(n0, "sleep");
            assert_eq!(n1, "tail");
        },
        _ => panic!("expected two spawns"),
    }
    assert_eq!(names(&orch), vec!["sleep".to_string(), "tail".to_string()]);
    // down with no filter stops everything, dependents first
    let stops = orch.down(&DownFilter::All);
    assert_eq!(orch.status().len(), 0);
    assert_eq!(stops.len(), 2);
    match (&stops[0], &stops[1]) {
        (OrchAction::Stop { name: n0, .. }, OrchAction::Stop { name: n1, .. }) => {
            assert_eq!(n0, "tail");
            assert_eq!(n1, "sleep");
        },
        _ => panic!("expected two stops"),
    }
}

#[test]
fn up_is_idempotent_on_supervisor_pids() {
    let config = cfg(vec![svc("tail", &["sleep"]), svc("sleep", &[])]);
    let mut orch = Orchestrator::new("/home".to_string(), "/bin/mcrun".to_string(), 3600);
    orch.up(&config, &vec![1001, 1002]).unwrap();
    let mut pids: Vec<u32> = orch.status().into_iter().map(|(_, p)| p).collect();
    pids.sort();
    let actions = orch.up(&config, &vec![2001, 2002]).unwrap();
    assert_eq!(actions.len(), 0);
    let mut pids2: Vec<u32> = orch.status().into_iter().map(|(_, p)| p).collect();
    pids2.sort();
    assert_eq!(pids, pids2);
}

#[test]
fn update_in_place_replaces_only_the_changed_service() {
    let initial = cfg(vec![svc("tail", &["sleep"]), svc("sleep", &[])]);
    let mut orch = Orchestrator::new("/home".to_string(), "/bin/mcrun".to_string(), 3600);
    orch.up(&initial, &vec![1001, 1002]).unwrap();
    let sleep_pid =
        orch.status().into_iter().find(|(n, _)| n == "sleep").map(|(_, p)| p).unwrap();
    let tail_pid = orch.status().into_iter().find(|(n, _)| n == "tail").map(|(_, p)| p).unwrap();
    // the updated config changes tail's args and adds echo
    let mut tail2 = svc("tail", &["sleep"]);
    tail2.args = vec!["60".to_string()];
    let updated = cfg(vec![tail2, svc("sleep", &[]), svc("echo", &[])]);
    let actions = orch.up(&updated, &vec![2001, 2002, 2003]).unwrap();
    // one stop (old tail), two spawns (new tail and echo)
    let stops: Vec<&OrchAction> =
        actions.iter().filter(|a| matches!(a, OrchAction::Stop { .. })).collect();
    let spawns: Vec<&OrchAction> =
        actions.iter().filter(|a| matches!(a, OrchAction::Spawn { .. })).collect();
    assert_eq!(stops.len(), 1);
    assert_eq!(spawns.len(), 2);
    assert_eq!(
        names(&orch),
        vec!["echo".to_string(), "sleep".to_string(), "tail".to_string()]
    );
    let sleep_pid2 =
        orch.status().into_iter().find(|(n, _)| n == "sleep").map(|(_, p)| p).unwrap();
    let tail_pid2 =
        orch.status().into_iter().find(|(n, _)| n == "tail").map(|(_, p)| p).unwrap();
    // update means remove-and-add: tail's supervisor changed, sleep's did not
    assert_eq!(sleep_pid, sleep_pid2);
    assert_ne!(tail_pid, tail_pid2);
}

#[test]
fn load_adopts_live_rows_and_drops_stale_ones() {
    let mut table = SandboxTable::new();
    for (name, sup, vm) in [("a", 10u32, 11u32), ("b", 20, 21), ("c", 30, 31)] {
        table
            .insert(SandboxRow {
                name: name.to_string(),
                supervisor_pid: sup,
                microvm_pid: vm,
                status: "STARTED".to_string(),
                root_path: "/r".to_string(),
                assigned_ip: None,
                group_ip: None,
            })
            .unwrap();
    }
    // only supervisors 10 and 30 still exist
    let orch = Orchestrator::load(
        "/home".to_string(),
        "/bin/mcrun".to_string(),
        3600,
        &table,
        &vec![10, 30],
    );
    let mut seen: Vec<(String, u32)> = orch.status();
    seen.sort();
    assert_eq!(seen, vec![("a".to_string(), 10), ("c".to_string(), 30)]);
    // the adopted set tears down like any other
    let mut orch = orch;
    let stops = orch.down(&DownFilter::All);
    assert_eq!(stops.len(), 2);
    assert_eq!(orch.status().len(), 0);
}

#[test]
fn down_filters_by_name_and_group() {
    let config = cfg(vec![svc("a", &[]), svc("b", &[])]);
    let mut orch = Orchestrator::new("/home".to_string(), "/bin/mcrun".to_string(), 3600);
    orch.up(&config, &vec![1, 2]).unwrap();
    let stops = orch.down(&DownFilter::ByName("a".to_string()));
    assert_eq!(stops.len(), 1);
    assert_eq!(names(&orch), vec!["b".to_string()]);
    // everything left is in group "main"
    let stops = orch.down(&DownFilter::ByGroup("main".to_string()));
    assert_eq!(stops.len(), 1);
    assert_eq!(orch.status().len(), 0);
}

#[test]
fn ip_allocation_picks_lowest_free() {
    // 10.0.0.0/30: assignable addresses are .1 and .2 only
    let subnet = Subnet { network: 0x0A000000, prefix: 30 };
    assert_eq!(allocate_ip(subnet, &vec![]), Some(0x0A000001));
    assert_eq!(allocate_ip(subnet, &vec![0x0A000001]), Some(0x0A000002));
    // the network and broadcast addresses are never assigned
    assert_eq!(allocate_ip(subnet, &vec![0x0A000001, 0x0A000002]), None);
    // a /24 skips used addresses and picks the lowest hole
    let subnet = Subnet { network: 0xC0A80100, prefix: 24 };
    assert_eq!(
        allocate_ip(subnet, &vec![0xC0A80101, 0xC0A80103]),
        Some(0xC0A80102)
    );
}
