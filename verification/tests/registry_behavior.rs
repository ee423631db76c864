//! Session lifecycle behaviour: creation, lookup, runs, background
//! processes, killing, and TTL reaping.

use opensandbox::env_map::EnvMap;
use opensandbox::errors::ApiError;
use opensandbox::registry::{AppState, RouteOutcome};
use opensandbox::run::{
    default_cwd, default_fsize, default_mem, default_nofile, default_port, default_time,
    run_oneshot, BackgroundRunRequest, RunRequest,
};
use opensandbox::registry::{kill_report, pair_liveness};

fn env_of(pairs: &[(&str, &str)]) -> EnvMap {
    let mut m = EnvMap::new();
    for (k, v) in pairs {
        m.insert(k.to_string(), v.to_string());
    }
    m
}

fn run_request(command: Vec<String>, env: EnvMap, cwd: &str) -> RunRequest {
    RunRequest {
        command,
        time: default_time(),
        mem: default_mem(),
        fsize: default_fsize(),
        nofile: default_nofile(),
        env,
        cwd: cwd.to_string(),
    }
}

#[test]
fn defaults_match_the_documented_values() {
    assert_eq!(default_time(), 300000);
    assert_eq!(default_mem(), 2097152);
    assert_eq!(default_nofile(), 256);
    assert_eq!(default_fsize(), 1048576);
    assert_eq!(default_cwd(), "/");
    assert_eq!(default_port(), 5173);
}

#[test]
fn error_status_codes() {
    assert_eq!(ApiError::NotFound.status_code(), 404);
    assert_eq!(ApiError::BadRequest.status_code(), 400);
    assert_eq!(ApiError::Internal.status_code(), 500);
    assert_eq!(ApiError::BadGateway.status_code(), 502);
}

#[test]
fn create_run_delete() {
    let mut state = AppState::new();
    let resp = state
        .create_session_with_id(
            "s1".to_string(),
            "/tmp/sandboxes/s1".to_string(),
            env_of(&[("X", "1")]),
            100,
        )
        .unwrap();
    assert_eq!(resp.session_id, "s1");
    assert!(resp.preview_url.is_none());

    let id = "s1".to_string();
    let task = state
        .run_in_session(
            &id,
            run_request(
                vec!["/bin/echo".to_string(), "$X".to_string()],
                EnvMap::new(),
                "/",
            ),
            101,
        )
        .unwrap();
    assert_eq!(task.sandbox_root, "/tmp/sandboxes/s1");
    assert_eq!(task.config.command, vec!["/bin/echo".to_string(), "$X".to_string()]);
    assert_eq!(task.config.time_ms, 300000);
    assert_eq!(task.config.env.get(&"X".to_string()).unwrap().as_str(), "1");
    assert_eq!(task.config.cwd, "/");

    let cleanup = state.delete_session(&id).unwrap();
    assert_eq!(cleanup.sandbox_root, "/tmp/sandboxes/s1");
    assert!(cleanup.background_pids.is_empty());
    assert!(matches!(state.get_session(&id, 102), Err(ApiError::NotFound)));
    assert!(matches!(state.delete_session(&id), Err(ApiError::NotFound)));
    assert!(matches!(
        state.set_cwd(&id, "/w".to_string(), 103),
        Err(ApiError::NotFound)
    ));
    assert!(matches!(state.kill_background(&id, 104), Err(ApiError::NotFound)));
}

#[test]
fn session_ids_are_unique_and_never_reused() {
    let mut state = AppState::new();
    let r1 = state.create_session("/tmp/sandboxes", EnvMap::new(), 1).unwrap();
    let r2 = state.create_session("/tmp/sandboxes", EnvMap::new(), 2).unwrap();
    assert_ne!(r1.session_id, r2.session_id);
    assert_eq!(r1.session_id.len(), 36);

    // A deleted identifier cannot come back.
    let mut s2 = AppState::new();
    s2.create_session_with_id("dup".to_string(), "/tmp/a".to_string(), EnvMap::new(), 1)
        .unwrap();
    s2.delete_session(&"dup".to_string()).unwrap();
    assert!(matches!(
        s2.create_session_with_id("dup".to_string(), "/tmp/b".to_string(), EnvMap::new(), 2),
        Err(ApiError::Internal)
    ));
}

#[test]
fn duplicate_sandbox_root_is_refused() {
    let mut state = AppState::new();
    state
        .create_session_with_id("a".to_string(), "/tmp/shared".to_string(), EnvMap::new(), 1)
        .unwrap();
    assert!(matches!(
        state.create_session_with_id("b".to_string(), "/tmp/shared".to_string(), EnvMap::new(), 2),
        Err(ApiError::Internal)
    ));
}

#[test]
fn preview_url_is_derived_from_the_domain() {
    let mut state = AppState::with_preview_domain(Some("preview.test".to_string()));
    let resp = state
        .create_session_with_id("abc".to_string(), "/tmp/abc".to_string(), EnvMap::new(), 1)
        .unwrap();
    assert_eq!(resp.preview_url.as_deref(), Some("https://abc.preview.test"));
    let info = state.get_session(&"abc".to_string(), 2).unwrap();
    assert_eq!(info.preview_url.as_deref(), Some("https://abc.preview.test"));
    assert_eq!(info.status, "running");
    assert_eq!(info.age_secs, 1);
}

#[test]
fn env_and_cwd_merge_rules() {
    let mut state = AppState::new();
    let id = "m".to_string();
    state
        .create_session_with_id(id.clone(), "/tmp/m".to_string(), env_of(&[("A", "1"), ("B", "2")]), 1)
        .unwrap();
    state.set_env(&id, &env_of(&[("B", "3"), ("C", "4")]), 2).unwrap();
    state.set_cwd(&id, "/work".to_string(), 3).unwrap();

    // Request env overrides the session env per key; cwd "/" inherits.
    let task = state
        .run_in_session(
            &id,
            run_request(vec!["ls".to_string()], env_of(&[("C", "9")]), "/"),
            4,
        )
        .unwrap();
    assert_eq!(task.config.env.get(&"A".to_string()).unwrap().as_str(), "1");
    assert_eq!(task.config.env.get(&"B".to_string()).unwrap().as_str(), "3");
    assert_eq!(task.config.env.get(&"C".to_string()).unwrap().as_str(), "9");
    assert_eq!(task.config.cwd, "/work");

    // A request cwd other than "/" wins.
    let task2 = state
        .run_in_session(&id, run_request(vec!["ls".to_string()], EnvMap::new(), "/elsewhere"), 5)
        .unwrap();
    assert_eq!(task2.config.cwd, "/elsewhere");
}

#[test]
fn oneshot_config_copies_the_request() {
    let req = run_request(vec!["/bin/sh".to_string(), "-c".to_string(), "yes > /tmp/x".to_string()], EnvMap::new(), "/");
    let mut req = req;
    req.fsize = 1;
    let config = run_oneshot(req);
    assert_eq!(config.fsize_kb, 1);
    assert_eq!(config.time_ms, 300000);
    assert_eq!(config.cwd, "/");
}

#[test]
fn background_auto_ports_increase() {
    let mut state = AppState::new();
    let id = "bg".to_string();
    state
        .create_session_with_id(id.clone(), "/tmp/bg".to_string(), EnvMap::new(), 1)
        .unwrap();

    let t1 = state
        .run_background(
            &id,
            BackgroundRunRequest {
                command: vec!["/bin/sleep".to_string(), "60".to_string()],
                port: 0,
                env: EnvMap::new(),
                cwd: "/".to_string(),
            },
            2,
        )
        .unwrap();
    assert_eq!(t1.port, 10000);
    assert_eq!(t1.config.time_ms, 0);
    assert_eq!(t1.config.mem_kb, 0);
    assert_eq!(t1.config.env.get(&"PORT".to_string()).unwrap().as_str(), "10000");
    assert_eq!(t1.config.env.get(&"VITE_PORT".to_string()).unwrap().as_str(), "10000");
    state.track_background(&id, 4001, t1.port).unwrap();

    let t2 = state
        .run_background(
            &id,
            BackgroundRunRequest {
                command: vec!["/bin/sleep".to_string(), "60".to_string()],
                port: 0,
                env: EnvMap::new(),
                cwd: "/".to_string(),
            },
            3,
        )
        .unwrap();
    assert_eq!(t2.port, 10001);
    state.track_background(&id, 4002, t2.port).unwrap();

    let info = state.get_session(&id, 4).unwrap();
    assert_eq!(info.ports, vec![10000, 10001]);

    // A caller-supplied port is used as is, and not re-registered twice.
    let t3 = state
        .run_background(
            &id,
            BackgroundRunRequest {
                command: vec!["server".to_string()],
                port: 10000,
                env: EnvMap::new(),
                cwd: "/".to_string(),
            },
            5,
        )
        .unwrap();
    assert_eq!(t3.port, 10000);
    state.track_background(&id, 4003, t3.port).unwrap();
    let info = state.get_session(&id, 6).unwrap();
    assert_eq!(info.ports, vec![10000, 10001]);
}

#[test]
fn kill_background_clears_pids_and_ports() {
    let mut state = AppState::new();
    let id = "k".to_string();
    state
        .create_session_with_id(id.clone(), "/tmp/k".to_string(), EnvMap::new(), 1)
        .unwrap();
    state.track_background(&id, 111, 10000).unwrap();
    state.track_background(&id, 222, 10001).unwrap();

    let status = state.background_status(&id).unwrap();
    assert_eq!(status.pids, vec![111, 222]);
    let paired = pair_liveness(&status.pids, &vec![true, false]);
    assert_eq!(paired.len(), 2);
    assert_eq!(paired[0].pid, 111);
    assert!(paired[0].alive);
    assert!(!paired[1].alive);

    let task = state.kill_background(&id, 2).unwrap();
    assert_eq!(task.pids, vec![111, 222]);
    let report = kill_report(&task.pids, &vec![true, false]);
    assert_eq!(report.killed, vec![111]);
    assert_eq!(report.total, 2);

    let info = state.get_session(&id, 3).unwrap();
    assert!(info.ports.is_empty());
    let status = state.background_status(&id).unwrap();
    assert!(status.pids.is_empty());
}

#[test]
fn track_background_on_a_deleted_session_is_not_found() {
    let mut state = AppState::new();
    let id = "gone".to_string();
    state
        .create_session_with_id(id.clone(), "/tmp/gone".to_string(), EnvMap::new(), 1)
        .unwrap();
    // The session vanishes between the spawn and the write-back.
    state.delete_session(&id).unwrap();
    assert!(matches!(state.track_background(&id, 321, 10000), Err(ApiError::NotFound)));
}

#[test]
fn ttl_reap_removes_idle_sessions() {
    let mut state = AppState::new();
    state
        .create_session_with_id("old".to_string(), "/tmp/old".to_string(), EnvMap::new(), 0)
        .unwrap();
    state
        .create_session_with_id("fresh".to_string(), "/tmp/fresh".to_string(), EnvMap::new(), 200)
        .unwrap();
    state.track_background(&"old".to_string(), 999, 10000).unwrap();

    // Exactly at the TTL nothing is reaped.
    assert!(state.cleanup_expired_sessions(300).is_empty());

    let tasks = state.cleanup_expired_sessions(301);
    assert_eq!(tasks.len(), 1);
    assert_eq!(tasks[0].id, "old");
    assert_eq!(tasks[0].sandbox_root, "/tmp/old");
    assert_eq!(tasks[0].background_pids, vec![999]);
    assert!(matches!(
        state.get_session(&"old".to_string(), 302),
        Err(ApiError::NotFound)
    ));
    assert!(state.get_session(&"fresh".to_string(), 302).is_ok());
    assert_eq!(state.list_sessions(302).len(), 1);
}

#[test]
fn activity_defers_the_reaper() {
    let mut state = AppState::new();
    let id = "busy".to_string();
    state
        .create_session_with_id(id.clone(), "/tmp/busy".to_string(), EnvMap::new(), 0)
        .unwrap();
    state.set_env(&id, &env_of(&[("A", "1")]), 250).unwrap();
    assert!(state.cleanup_expired_sessions(400).is_empty());
    assert_eq!(state.cleanup_expired_sessions(551).len(), 1);
}

#[test]
fn route_preview_needs_ports_or_falls_back() {
    let mut state = AppState::with_preview_domain(Some("preview.test".to_string()));
    state
        .create_session_with_id("abc".to_string(), "/tmp/abc".to_string(), EnvMap::new(), 1)
        .unwrap();

    // No registered port: the documented fallback.
    match state.route_preview(&"abc.preview.test".to_string(), 2) {
        RouteOutcome::Proxy { port } => assert_eq!(port, 5173),
        other => panic!("expected a proxy decision, got {:?}", discriminant_name(&other)),
    }

    state.track_background(&"abc".to_string(), 7, 10000).unwrap();
    match state.route_preview(&"abc.preview.test".to_string(), 3) {
        RouteOutcome::Proxy { port } => assert_eq!(port, 10000),
        other => panic!("expected a proxy decision, got {:?}", discriminant_name(&other)),
    }

    assert!(matches!(
        state.route_preview(&"other.preview.test".to_string(), 4),
        RouteOutcome::UnknownSession { .. }
    ));
    assert!(matches!(
        state.route_preview(&"abc.elsewhere.test".to_string(), 5),
        RouteOutcome::NotRouted
    ));
    assert!(matches!(
        state.route_preview(&"preview.test".to_string(), 6),
        RouteOutcome::NotRouted
    ));

    let mut bare = AppState::new();
    assert!(matches!(
        bare.route_preview(&"abc.preview.test".to_string(), 7),
        RouteOutcome::NotRouted
    ));
}

fn discriminant_name(r: &RouteOutcome) -> &'static str {
    match r {
        RouteOutcome::NotRouted => "NotRouted",
        RouteOutcome::UnknownSession { .. } => "UnknownSession",
        RouteOutcome::Proxy { .. } => "Proxy",
    }
}
