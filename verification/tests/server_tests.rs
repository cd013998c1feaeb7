use monocore::error::{ok_result, MonoutilsError};
use monocore::oci::{merged_dir, ref_name};
use monocore::server::MonofsServer;
use monocore::state::{MicroVmState, MicroVmStatus, Service};

#[test]
fn test_monofsserver_creation() {
    let server = MonofsServer::new(
        "/tmp/monofs-store".to_string(),
        "127.0.0.1".to_string(),
        0, // Use port 0 for testing
    );

    assert_eq!(server.store_dir, "/tmp/monofs-store");
    assert_eq!(server.host, "127.0.0.1");
    assert_eq!(server.port, 0);
}

#[test]
fn server_bind_address() {
    let server = MonofsServer::new("/s".to_string(), "0.0.0.0".to_string(), 2049);
    assert_eq!(server.bind_addr(), "0.0.0.0:2049");
    assert_eq!(server.get_host(), "0.0.0.0");
    assert_eq!(server.get_port(), 2049);
    assert_eq!(server.get_store_dir(), "/s");
}

#[test]
fn oci_reference_names() {
    assert_eq!(ref_name("library/alpine", "latest"), "library_alpine__latest");
    assert_eq!(ref_name("library/nginx", "alpine"), "library_nginx__alpine");
    assert_eq!(ref_name("plain", "v1"), "plain__v1");
    assert_eq!(
        merged_dir("/home/rootfs/reference", "library_alpine__latest"),
        "/home/rootfs/reference/library_alpine__latest/merged"
    );
}

#[test]
fn ok_result_wraps() {
    assert_eq!(ok_result(7u32), Ok(7u32));
    let e: Result<u32, MonoutilsError> = ok_result(3);
    assert!(e.is_ok());
}

#[test]
fn microvm_state_starts_unstarted() {
    let service = Service {
        name: "web".to_string(),
        base: "library/alpine:latest".to_string(),
        group: "main".to_string(),
        command: "/bin/true".to_string(),
        args: Vec::new(),
        envs: Vec::new(),
        cpus: 1,
        ram_mib: 512,
        ports: Vec::new(),
        volumes: Vec::new(),
        rlimits: Vec::new(),
        depends_on: Vec::new(),
    };
    let group = monocore::state::Group { name: "main".to_string(), subnet: None };
    let state = MicroVmState::new(service, group, "/rootfs/web".to_string());
    assert!(state.get_pid().is_none());
    assert_eq!(*state.get_status(), MicroVmStatus::Unstarted);
    assert_eq!(state.created_at, state.modified_at);
    assert_eq!(state.rootfs_path, "/rootfs/web");
    assert_eq!(state.metrics.cpu_usage, 0);
    assert_eq!(state.metrics.memory_usage, 0);
    let mut state = state;
    state.set_status(MicroVmStatus::Started);
    assert_eq!(*state.get_status(), MicroVmStatus::Started);
    state.set_status(MicroVmStatus::Stopped { exit_code: 0 });
    assert!(matches!(*state.get_status(), MicroVmStatus::Stopped { exit_code: 0 }));
    state.set_status(MicroVmStatus::Failed { error: "boom".to_string() });
    assert!(matches!(*state.get_status(), MicroVmStatus::Failed { .. }));
}

#[test]
fn service_equality_detects_changes() {
    let a = Service {
        name: "web".to_string(),
        base: "library/alpine:latest".to_string(),
        group: "main".to_string(),
        command: "/bin/tail".to_string(),
        args: vec!["-f".to_string(), "/dev/null".to_string()],
        envs: Vec::new(),
        cpus: 1,
        ram_mib: 512,
        ports: Vec::new(),
        volumes: Vec::new(),
        rlimits: Vec::new(),
        depends_on: vec!["db".to_string()],
    };
    let b = a.duplicate();
    assert!(a.same_as(&b));
    let mut c = a.duplicate();
    c.args = vec!["-n".to_string()];
    assert!(!a.same_as(&c));
    let mut d = a.duplicate();
    d.ram_mib = 513;
    assert!(!a.same_as(&d));
}
