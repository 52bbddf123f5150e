use simpletaskmgr::{CpuPercent, Process};

fn pct(p: &CpuPercent) -> f64 {
    p.numer as f64 / p.denom as f64
}

#[test]
fn test_process_struct_creation() {
    let p = Process::new("test".to_string(), 123, 456, "user".to_string(), CpuPercent::zero());
    assert_eq!(p.name, "test");
    assert_eq!(p.pid, 123);
    assert_eq!(p.ruid, 456);
    assert_eq!(p.username, "user");
    assert_eq!(pct(&p.cpu_percent), 0.0);
}

#[test]
fn test_process_struct_clone() {
    let p1 = Process::new("test".to_string(), 123, 456, "user".to_string(), CpuPercent::zero());
    let p2 = p1.clone();
    assert_eq!(p1, p2);
    assert!(p1 == p2);
}

#[test]
fn test_process_struct_partial_eq() {
    let p1 = Process::new("test".to_string(), 123, 456, "user".to_string(), CpuPercent::zero());
    let p2 = Process::new("test".to_string(), 123, 456, "user".to_string(), CpuPercent::zero());
    let p3 = Process::new("different".to_string(), 123, 456, "user".to_string(), CpuPercent::zero());

    assert_eq!(p1, p2);
    assert_ne!(p1, p3);
}

#[test]
fn test_process_struct_debug() {
    let p = Process::new("test".to_string(), 123, 456, "user".to_string(), CpuPercent::zero());
    let debug_string = format!("{:?}", p);
    assert!(debug_string.contains("Process"));
}

#[test]
fn test_process_fields_have_valid_values() {
    let p = Process::new("test".to_string(), 123, 456, "user".to_string(), CpuPercent::zero());
    assert!(!p.name.is_empty());
    assert!(p.pid > 0);
    assert!(p.ruid >= 0);
    assert!(!p.username.is_empty());
    assert_eq!(pct(&p.cpu_percent), 0.0);
}

#[test]
fn test_process_view_with_different_values() {
    let test_cases = vec![
        Process::new("bash".to_string(), 1, 0, "root".to_string(), CpuPercent::zero()),
        Process::new("firefox".to_string(), 1234, 1000, "paul".to_string(), CpuPercent::zero()),
        Process::new("systemd".to_string(), 1, 0, "root".to_string(), CpuPercent::zero()),
    ];

    for p in test_cases {
        // Each process should be able to be created with valid fields
        assert!(!p.name.is_empty());
        assert!(p.pid > 0);
        assert!(p.ruid >= 0);
        assert!(!p.username.is_empty());
        assert_eq!(pct(&p.cpu_percent), 0.0);
    }
}

#[test]
fn test_process_struct_hash() {
    let p1 = Process::new("test".to_string(), 123, 456, "user".to_string(), CpuPercent::zero());
    let p2 = Process::new("test".to_string(), 123, 456, "user".to_string(), CpuPercent::zero());
    let p3 = Process::new("different".to_string(), 456, 123, "other".to_string(), CpuPercent::zero());

    assert_eq!(p1, p2);
    assert_ne!(p1, p3);
}
