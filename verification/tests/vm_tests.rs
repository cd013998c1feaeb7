use monocore::error::{InvalidMicroVMConfigError, MonocoreError};
use monocore::vm::{
    parse_env_pair, parse_path_pair, parse_port_pair, parse_rlimit, FfiCall, LogLevel,
    MicroVMConfig, PortProto,
};

#[test]
fn log_level_codes() {
    assert_eq!(LogLevel::Off.to_code(), 0);
    assert_eq!(LogLevel::Error.to_code(), 1);
    assert_eq!(LogLevel::Warn.to_code(), 2);
    assert_eq!(LogLevel::Info.to_code(), 3);
    assert_eq!(LogLevel::Debug.to_code(), 4);
    assert_eq!(LogLevel::Trace.to_code(), 5);
}

#[test]
fn port_pair_parsing() {
    let p = parse_port_pair("8080:80").unwrap();
    assert_eq!((p.host, p.guest, p.proto), (8080, 80, PortProto::Tcp));
    let p = parse_port_pair("53:53/udp").unwrap();
    assert_eq!((p.host, p.guest, p.proto), (53, 53, PortProto::Udp));
    let p = parse_port_pair("1:2/tcp").unwrap();
    assert_eq!((p.host, p.guest, p.proto), (1, 2, PortProto::Tcp));
    assert_eq!(p.to_display_string(), "1:2/tcp");
    assert!(parse_port_pair("8080").is_err());
    assert!(parse_port_pair("8080:").is_err());
    assert!(parse_port_pair("a:80").is_err());
    assert!(parse_port_pair("65536:80").is_err());
    assert!(parse_port_pair("80:80/sctp").is_err());
    // 65535 is the largest port
    assert_eq!(parse_port_pair("65535:1").unwrap().host, 65535);
}

#[test]
fn env_pair_parsing() {
    let e = parse_env_pair("PATH=/usr/bin:/bin").unwrap();
    assert_eq!(e.name, "PATH");
    assert_eq!(e.value, "/usr/bin:/bin");
    assert_eq!(e.to_display_string(), "PATH=/usr/bin:/bin");
    // the value may hold '='; the split is at the first one
    let e = parse_env_pair("A=b=c").unwrap();
    assert_eq!((e.name.as_str(), e.value.as_str()), ("A", "b=c"));
    let e = parse_env_pair("_X1=").unwrap();
    assert_eq!((e.name.as_str(), e.value.as_str()), ("_X1", ""));
    assert!(parse_env_pair("novalue").is_err());
    assert!(parse_env_pair("=v").is_err());
    assert!(parse_env_pair("1AB=v").is_err());
    assert!(parse_env_pair("A-B=v").is_err());
}

#[test]
fn rlimit_parsing() {
    let r = parse_rlimit("RLIMIT_NOFILE=1024:2048").unwrap();
    assert_eq!((r.name.as_str(), r.soft, r.hard), ("RLIMIT_NOFILE", 1024, 2048));
    assert_eq!(r.to_display_string(), "RLIMIT_NOFILE=1024:2048");
    assert!(parse_rlimit("NOFILE=1:2").is_err());
    assert!(parse_rlimit("RLIMIT_=1:2").is_err());
    assert!(parse_rlimit("RLIMIT_NOFILE=1").is_err());
    assert!(parse_rlimit("RLIMIT_NOFILE=a:2").is_err());
    // the largest representable limit parses; one more does not
    assert_eq!(
        parse_rlimit("RLIMIT_CPU=18446744073709551615:0").unwrap().soft,
        u64::MAX
    );
    assert!(parse_rlimit("RLIMIT_CPU=18446744073709551616:0").is_err());
}

#[test]
fn path_pair_parsing() {
    let p = parse_path_pair("/host/data:/guest/data").unwrap();
    assert_eq!((p.host.as_str(), p.guest.as_str()), ("/host/data", "/guest/data"));
    // both sides are normalized
    let p = parse_path_pair("/host//a/./b:/guest/x/../y").unwrap();
    assert_eq!((p.host.as_str(), p.guest.as_str()), ("/host/a/b", "/guest/y"));
    assert!(parse_path_pair("/host/data").is_err());
    assert!(parse_path_pair("relative:/guest").is_err());
    assert!(parse_path_pair("/host:/guest/../../escape").is_err());
}

fn base_config() -> MicroVMConfig {
    MicroVMConfig {
        log_level: LogLevel::Info,
        root_path: "/rootfs".to_string(),
        num_vcpus: 1,
        ram_mib: 1024,
        virtiofs: Vec::new(),
        port_map: Vec::new(),
        rlimits: Vec::new(),
        workdir_path: None,
        exec_path: Some("/bin/true".to_string()),
        argv: Vec::new(),
        env: Vec::new(),
        console_output: None,
    }
}

#[test]
fn config_validation_errors() {
    let c = base_config();
    assert!(c.validate(true).is_ok());
    assert!(matches!(
        c.validate(false),
        Err(MonocoreError::InvalidMicroVMConfig(
            InvalidMicroVMConfigError::RootPathDoesNotExist(_)
        ))
    ));
    let mut c = base_config();
    c.num_vcpus = 0;
    assert_eq!(
        c.validate(true),
        Err(MonocoreError::InvalidMicroVMConfig(InvalidMicroVMConfigError::NumVCPUsIsZero))
    );
    let mut c = base_config();
    c.ram_mib = 0;
    assert_eq!(
        c.validate(true),
        Err(MonocoreError::InvalidMicroVMConfig(InvalidMicroVMConfigError::RamIsZero))
    );
}

#[test]
fn plan_applies_configuration_in_order() {
    let mut c = base_config();
    c.port_map = vec![parse_port_pair("8080:80").unwrap()];
    c.workdir_path = Some("/work".to_string());
    c.console_output = Some("/log/console".to_string());
    let plan = c.plan();
    assert!(matches!(plan[0], FfiCall::SetLogLevel(3)));
    assert!(matches!(plan[1], FfiCall::SetVmConfig { vcpus: 1, ram_mib: 1024 }));
    match &plan[2] {
        FfiCall::SetRoot(p) => assert_eq!(p, "/rootfs"),
        other => panic!("unexpected call {:?}", other),
    }
    match &plan[3] {
        FfiCall::SetPortMap(ports) => assert_eq!(ports, &vec!["8080:80/tcp".to_string()]),
        other => panic!("unexpected call {:?}", other),
    }
    match &plan[4] {
        FfiCall::SetWorkdir(w) => assert_eq!(w, "/work"),
        other => panic!("unexpected call {:?}", other),
    }
    match &plan[5] {
        FfiCall::SetExec { path, argv, env } => {
            assert_eq!(path, "/bin/true");
            assert!(argv.is_empty());
            assert!(env.is_empty());
        },
        other => panic!("unexpected call {:?}", other),
    }
    match &plan[6] {
        FfiCall::SetConsoleOutput(p) => assert_eq!(p, "/log/console"),
        other => panic!("unexpected call {:?}", other),
    }
    assert_eq!(plan.len(), 7);
    // with no executable, the environment is set on its own
    let mut c = base_config();
    c.exec_path = None;
    let plan = c.plan();
    assert!(matches!(plan[3], FfiCall::SetPortMap(_)));
    assert!(matches!(plan[4], FfiCall::SetEnv(_)));
}
