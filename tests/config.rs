use delayed_proxy::config::{Configuration, EngineConfig, ProxyMode, TargetConfig, Timeouts};
use delayed_proxy::setup::{port_tasks, KniTimer, PortTasks};
use delayed_proxy::tcp::{isn_from, ServerId};
use delayed_proxy::timer_wheel::{millis_to_cycles, MILLIS_TO_CYCLES};

fn engine(timeouts: Option<Timeouts>, mode: Option<ProxyMode>) -> EngineConfig {
    EngineConfig { timeouts, port: 3000, detailed_records: None, mode }
}

#[test]
fn established_timeout_defaults_to_200_ms() {
    assert_eq!(engine(None, None).established_timeout_ms(), 200);
    assert_eq!(engine(Some(Timeouts { established: None }), None).established_timeout_ms(), 200);
    assert_eq!(engine(Some(Timeouts { established: Some(750) }), None).established_timeout_ms(), 750);
}

#[test]
fn mode_and_records() {
    assert!(engine(None, None).selects_on_payload());
    assert!(engine(None, Some(ProxyMode::Delayed)).selects_on_payload());
    assert!(!engine(None, Some(ProxyMode::DelayedV0)).selects_on_payload());
    assert!(!engine(None, None).records_enabled());
    let mut e = engine(None, None);
    e.detailed_records = Some(true);
    assert!(e.records_enabled());
}

#[test]
fn backend_table_from_targets() {
    let target = |id: &str, ip: u32, port: u16| TargetConfig {
        id: id.to_string(),
        ip,
        mac: None,
        linux_if: None,
        port,
    };
    let c = Configuration {
        targets: vec![target("t0", 0x0A00_0105, 80), target("t1", 0x0A00_0106, 8080)],
        engine: engine(None, None),
        test_size: None,
    };
    assert_eq!(
        c.servers(),
        vec![
            ServerId { index: 0, ip: 0x0A00_0105, port: 80 },
            ServerId { index: 1, ip: 0x0A00_0106, port: 8080 },
        ]
    );
}

#[test]
fn millis_in_cycles() {
    assert_eq!(millis_to_cycles(200), 200 * MILLIS_TO_CYCLES);
    assert_eq!(millis_to_cycles(0), 0);
    assert_eq!(millis_to_cycles(u64::MAX / 1000), u64::MAX);
}

#[test]
fn isn_mixes_clock_bits() {
    assert_eq!(isn_from(0xFFFF_0000, 0x1_0000_00FF), 0xFFFF_00FF);
    assert_eq!(isn_from(0x1234_5678, 0), 0x1234_5678);
}

#[test]
fn tasks_per_port() {
    let t = port_tasks(true, true, true, 0);
    assert_eq!(t, PortTasks { kni_handler: true, proxy_pipeline: true });
    let t = port_tasks(true, true, true, 3);
    assert_eq!(t, PortTasks { kni_handler: false, proxy_pipeline: true });
    let t = port_tasks(true, true, false, 0);
    assert_eq!(t, PortTasks { kni_handler: false, proxy_pipeline: true });
    let t = port_tasks(true, false, true, 0);
    assert_eq!(t, PortTasks { kni_handler: false, proxy_pipeline: false });
}

#[test]
fn kni_task_pacing() {
    let mut k = KniTimer::new(100, 1000);
    assert!(!k.due(1050));
    assert!(k.due(1100));
    assert_eq!(k.last_tick, 1100);
    assert!(!k.due(1199));
    assert!(!k.due(900));
    assert!(k.due(1200));
}
