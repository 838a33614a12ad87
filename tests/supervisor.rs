use beegfs_exporter::{
    bind_address, on_interrupt, spawn_args, InterruptAction, RestartPolicy, SpawnError, Verdict,
};

#[test]
fn ceiling_zero_gives_up_after_first_crash() {
    let mut p = RestartPolicy::new(0);
    assert_eq!(p.record_termination(), Verdict::GiveUp(0));
    assert_eq!(p.crash_count(), 1);
    assert!(p.has_given_up());
}

#[test]
fn ceiling_three_gives_up_after_fourth_crash() {
    let mut p = RestartPolicy::new(3);
    for i in 1..4u64 {
        assert_eq!(p.record_termination(), Verdict::Restart);
        assert_eq!(p.crash_count(), i);
    }
    assert_eq!(p.record_termination(), Verdict::GiveUp(3));
    assert_eq!(p.crash_count(), 4);
}

#[test]
fn negative_ceiling_gives_up_after_first_crash() {
    let mut p = RestartPolicy::new(-2);
    assert_eq!(p.record_termination(), Verdict::GiveUp(-2));
    assert_eq!(p.crash_count(), 1);
}

#[test]
fn given_up_policy_stays_given_up() {
    let mut p = RestartPolicy::new(1);
    assert_eq!(p.record_termination(), Verdict::Restart);
    assert_eq!(p.record_termination(), Verdict::GiveUp(1));
    assert_eq!(p.record_termination(), Verdict::GiveUp(1));
    assert_eq!(p.crash_count(), 2);
    assert_eq!(p.restart_limit(), 1);
}

#[test]
fn spawn_args_without_config() {
    let a = spawn_args(None, false).unwrap();
    assert_eq!(
        a,
        vec![
            "beegfs-ctl",
            "--serverstats",
            "--nodetype=storage",
            "--history=1",
            "--logEnabled"
        ]
    );
}

#[test]
fn spawn_args_with_config() {
    let a = spawn_args(Some("/etc/beegfs/client.conf"), true).unwrap();
    assert_eq!(a.len(), 6);
    assert_eq!(a[0], "beegfs-ctl");
    assert_eq!(a[5], "--cfgFile=/etc/beegfs/client.conf");
}

#[test]
fn spawn_args_missing_config() {
    assert_eq!(
        spawn_args(Some("/nonexistent.conf"), false),
        Err(SpawnError::ConfigNotFound("/nonexistent.conf".to_string()))
    );
}

#[test]
fn missing_config_consumes_ceiling() {
    let mut p = RestartPolicy::new(3);
    let mut attempts = 0u32;
    let last = loop {
        attempts += 1;
        assert!(spawn_args(Some("/nonexistent.conf"), false).is_err());
        let v = p.record_termination();
        if v != Verdict::Restart {
            break v;
        }
    };
    assert_eq!(last, Verdict::GiveUp(3));
    assert_eq!(attempts, 4);
}

#[test]
fn bind_address_default_and_given() {
    assert_eq!(bind_address(None), "127.0.0.1:13337");
    assert_eq!(bind_address(Some("0.0.0.0:9100".to_string())), "0.0.0.0:9100");
}

#[test]
fn interrupt_terminates_running_child() {
    assert_eq!(on_interrupt(Some(4242)), InterruptAction::TerminateChild(4242));
    assert_eq!(on_interrupt(None), InterruptAction::Ignore);
}
