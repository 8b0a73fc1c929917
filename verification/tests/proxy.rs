use tcp_proxy::proxy::command::{
    dispatch_step, generate_mutexes, generate_proxies, port_to_index, proxy_map, transfer_summary,
    u16_to_dec, DispatchAction, DispatchEvent, DispatcherState,
};
use tcp_proxy::proxy::config::{App, Config};
use tcp_proxy::proxy::load_balancer::round_robin;

fn app(name: &str, ports: &[u16], targets: &[&str]) -> App {
    App {
        name: name.to_string(),
        ports: ports.to_vec(),
        targets: targets.iter().map(|t| t.to_string()).collect(),
    }
}

#[test]
fn round_robin_full_cycle_from_fresh_counter() {
    // One full cyclic traversal: each target exactly once, in order,
    // starting from targets[1 % 3].
    let targets = vec!["a".to_string(), "b".to_string(), "c".to_string()];
    let mut counter: usize = 0;
    let first = round_robin(&targets, &mut counter);
    let second = round_robin(&targets, &mut counter);
    let third = round_robin(&targets, &mut counter);
    assert_eq!(first, "b");
    assert_eq!(second, "c");
    assert_eq!(third, "a");
    assert_eq!(counter, 3);
    // The next window repeats the cycle.
    assert_eq!(round_robin(&targets, &mut counter), "b");
}

#[test]
fn any_window_of_pool_size_covers_every_target() {
    // Wherever the cursor stands, the next N selections hand out each of
    // the N targets exactly once.
    let targets = vec!["a".to_string(), "b".to_string(), "c".to_string()];
    let mut counter: usize = 5;
    let mut window = vec![
        round_robin(&targets, &mut counter),
        round_robin(&targets, &mut counter),
        round_robin(&targets, &mut counter),
    ];
    window.sort();
    assert_eq!(window, targets);
}

#[test]
fn interleaved_callers_draw_one_shared_cycle() {
    // Two callers sharing one counter: however their calls interleave,
    // the targets handed out over the window are the sequential cyclic
    // ones, and the counter ends at the total number of calls.
    let targets = vec!["a".to_string(), "b".to_string()];
    let mut counter: usize = 0;
    let mut drawn = Vec::new();
    for _round in 0..2 {
        // Caller A then caller B, alternating each round.
        drawn.push(round_robin(&targets, &mut counter));
        drawn.push(round_robin(&targets, &mut counter));
    }
    assert_eq!(drawn, vec!["b", "a", "b", "a"]);
    assert_eq!(drawn.iter().filter(|t| **t == "a").count(), 2);
    assert_eq!(drawn.iter().filter(|t| **t == "b").count(), 2);
    assert_eq!(counter, 4);
}

#[test]
fn round_robin_counter_counts_calls() {
    let targets = vec!["x".to_string(), "y".to_string()];
    let mut counter: usize = 0;
    for _ in 0..7 {
        round_robin(&targets, &mut counter);
    }
    assert_eq!(counter, 7);
}

#[test]
fn round_robin_single_target_pool() {
    let targets = vec!["only".to_string()];
    let mut counter: usize = 0;
    assert_eq!(round_robin(&targets, &mut counter), "only");
    assert_eq!(round_robin(&targets, &mut counter), "only");
}

#[test]
fn round_robin_wraps_at_machine_limit() {
    let targets = vec!["a".to_string(), "b".to_string(), "c".to_string()];
    let mut counter: usize = usize::MAX;
    let picked = round_robin(&targets, &mut counter);
    assert_eq!(counter, 0);
    assert_eq!(picked, "a");
}

#[test]
fn proxy_map_binds_each_port_to_its_pool() {
    let config = Config {
        apps: vec![
            app("alpha", &[9000, 9001], &["127.0.0.1:7001"]),
            app("beta", &[9100], &["127.0.0.1:7100", "127.0.0.1:7101"]),
        ],
    };
    let m = proxy_map(&config);
    assert_eq!(m.len(), 3);
    assert_eq!(m.get(&9000).unwrap(), &vec!["127.0.0.1:7001".to_string()]);
    assert_eq!(m.get(&9001).unwrap(), &vec!["127.0.0.1:7001".to_string()]);
    assert_eq!(
        m.get(&9100).unwrap(),
        &vec!["127.0.0.1:7100".to_string(), "127.0.0.1:7101".to_string()]
    );
    assert!(m.get(&9200).is_none());
}

#[test]
fn proxy_map_last_claimant_wins_a_shared_port() {
    let config = Config {
        apps: vec![
            app("alpha", &[9000], &["127.0.0.1:7001"]),
            app("beta", &[9000], &["127.0.0.1:7100"]),
        ],
    };
    let m = proxy_map(&config);
    assert_eq!(m.len(), 1);
    assert_eq!(m.get(&9000).unwrap(), &vec!["127.0.0.1:7100".to_string()]);
}

#[test]
fn generate_proxies_one_listener_per_port() {
    let config = Config {
        apps: vec![
            app("alpha", &[9000, 9001], &["127.0.0.1:7001"]),
            app("beta", &[9100], &["127.0.0.1:7100"]),
        ],
    };
    let proxies = generate_proxies(&config);
    assert_eq!(proxies.len(), 3);
    assert_eq!(proxies[0].app_name, "alpha");
    assert_eq!(proxies[0].port, 9000);
    assert_eq!(proxies[0].targets, vec!["127.0.0.1:7001".to_string()]);
    assert_eq!(proxies[1].app_name, "alpha");
    assert_eq!(proxies[1].port, 9001);
    assert_eq!(proxies[2].app_name, "beta");
    assert_eq!(proxies[2].port, 9100);
    assert_eq!(proxies[2].targets, vec!["127.0.0.1:7100".to_string()]);
}

#[test]
fn generate_proxies_disjoint_apps_keep_their_pools() {
    // Traffic routed to one application's listener can only select from
    // that application's pool: each planned listener carries its own
    // application's targets.
    let config = Config {
        apps: vec![
            app("alpha", &[9000], &["127.0.0.1:7001", "127.0.0.1:7002"]),
            app("beta", &[9100], &["127.0.0.1:7100", "127.0.0.1:7101"]),
        ],
    };
    let proxies = generate_proxies(&config);
    assert_eq!(proxies.len(), 2);
    for proxy in &proxies {
        let owner = config
            .apps
            .iter()
            .find(|a| a.ports.contains(&proxy.port))
            .unwrap();
        assert_eq!(proxy.app_name, owner.name);
        assert_eq!(proxy.targets, owner.targets);
        // Every selection the balancer can make stays inside the pool.
        let mut counter: usize = 0;
        for _ in 0..proxy.targets.len() {
            let picked = round_robin(&proxy.targets, &mut counter);
            assert!(owner.targets.contains(&picked));
        }
    }
}

#[test]
fn generate_proxies_shared_port_gets_one_listener() {
    // Two applications claim 9000: exactly one listener is planned for it
    // (no duplicate bind), held by the first claimant, with the pool of
    // the last claimant, which won the port map.
    let config = Config {
        apps: vec![
            app("alpha", &[9000], &["127.0.0.1:7001"]),
            app("beta", &[9000, 9100], &["127.0.0.1:7100"]),
        ],
    };
    let proxies = generate_proxies(&config);
    assert_eq!(proxies.len(), 2);
    let on_9000: Vec<_> = proxies.iter().filter(|p| p.port == 9000).collect();
    assert_eq!(on_9000.len(), 1);
    assert_eq!(on_9000[0].app_name, "alpha");
    assert_eq!(on_9000[0].targets, vec!["127.0.0.1:7100".to_string()]);
    assert_eq!(proxies[1].port, 9100);
    assert_eq!(proxies[1].app_name, "beta");
}

#[test]
fn generate_mutexes_one_zeroed_counter_per_app() {
    let counters = generate_mutexes(3);
    assert_eq!(counters, vec![0, 0, 0]);
}

#[test]
fn port_to_index_finds_each_app() {
    let config = Config {
        apps: vec![
            app("alpha", &[9000], &["127.0.0.1:7001"]),
            app("beta", &[9100], &["127.0.0.1:7100"]),
        ],
    };
    assert_eq!(port_to_index(&config, &"alpha".to_string()), Some(0));
    assert_eq!(port_to_index(&config, &"beta".to_string()), Some(1));
    assert_eq!(port_to_index(&config, &"gamma".to_string()), None);
}

#[test]
fn port_to_index_last_duplicate_name_wins() {
    let config = Config {
        apps: vec![
            app("alpha", &[9000], &["127.0.0.1:7001"]),
            app("alpha", &[9100], &["127.0.0.1:7100"]),
        ],
    };
    assert_eq!(port_to_index(&config, &"alpha".to_string()), Some(1));
}

#[test]
fn sequential_clients_follow_the_cyclic_order() {
    // One application on port 9000 with two targets; three clients in a
    // row are routed to 7002, then 7001, then 7002.
    let config = Config {
        apps: vec![app(
            "echo",
            &[9000],
            &["127.0.0.1:7001", "127.0.0.1:7002"],
        )],
    };
    let proxies = generate_proxies(&config);
    assert_eq!(proxies.len(), 1);
    assert_eq!(proxies[0].port, 9000);
    let mut counters = generate_mutexes(config.apps.len());
    let idx = port_to_index(&config, &proxies[0].app_name).unwrap();
    let counter = &mut counters[idx];

    let mut state = DispatcherState::Accepting;
    let mut routed = Vec::new();
    for _ in 0..3 {
        let (next, action) = dispatch_step(state, DispatchEvent::Accepted, &proxies[0].targets, counter);
        assert_eq!(next, DispatcherState::Connecting);
        let target = match action {
            DispatchAction::Connect(t) => t,
            other => panic!("expected a connect action, got {:?}", other),
        };
        routed.push(target);
        let (next, action) =
            dispatch_step(next, DispatchEvent::ConnectSucceeded, &proxies[0].targets, counter);
        assert_eq!(next, DispatcherState::Accepting);
        assert!(matches!(action, DispatchAction::SpawnRelay));
        state = next;
    }
    assert_eq!(
        routed,
        vec![
            "127.0.0.1:7002".to_string(),
            "127.0.0.1:7001".to_string(),
            "127.0.0.1:7002".to_string(),
        ]
    );
}

#[test]
fn dispatcher_retries_next_target_on_connect_failure() {
    // The backend at targets[0] is down, targets[1] is up: after a failed
    // connect the dispatcher asks for the next round-robin target and the
    // client is served by targets[1], with no error surfaced.
    let targets = vec!["127.0.0.1:7001".to_string(), "127.0.0.1:7002".to_string()];
    // A cursor standing at 1 makes the next selection targets[0].
    let mut counter: usize = 1;
    let (state, action) =
        dispatch_step(DispatcherState::Accepting, DispatchEvent::Accepted, &targets, &mut counter);
    assert_eq!(state, DispatcherState::Connecting);
    assert!(matches!(action, DispatchAction::Connect(t) if t == "127.0.0.1:7001"));
    // That backend is down: the connect fails and the dispatcher retries.
    let (state, action) =
        dispatch_step(state, DispatchEvent::ConnectFailed, &targets, &mut counter);
    assert_eq!(state, DispatcherState::Connecting);
    assert!(matches!(action, DispatchAction::Connect(t) if t == "127.0.0.1:7002"));
    // targets[1] is up: the relay is spawned and the loop accepts again.
    let (state, action) =
        dispatch_step(state, DispatchEvent::ConnectSucceeded, &targets, &mut counter);
    assert_eq!(state, DispatcherState::Accepting);
    assert!(matches!(action, DispatchAction::SpawnRelay));
}

#[test]
fn dispatcher_stops_for_good_on_listener_error() {
    let targets = vec!["127.0.0.1:7001".to_string()];
    let mut counter: usize = 0;
    let (state, action) = dispatch_step(
        DispatcherState::Accepting,
        DispatchEvent::AcceptFailed,
        &targets,
        &mut counter,
    );
    assert_eq!(state, DispatcherState::Stopped);
    assert!(matches!(action, DispatchAction::Stop));
    // The cursor is untouched: no selection happened.
    assert_eq!(counter, 0);
}

#[test]
fn u16_to_dec_writes_decimal() {
    assert_eq!(u16_to_dec(0), "0");
    assert_eq!(u16_to_dec(7), "7");
    assert_eq!(u16_to_dec(10), "10");
    assert_eq!(u16_to_dec(9000), "9000");
    assert_eq!(u16_to_dec(65535), "65535");
}

#[test]
fn transfer_summary_names_port_and_backend() {
    let target = "127.0.0.1:7001".to_string();
    assert_eq!(
        transfer_summary(9000, &target),
        "Proxying :9000 to 127.0.0.1:7001"
    );
}
