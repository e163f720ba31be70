use load_balancer::backend::{decimal_text, loopback_host, probe_succeeded};
use load_balancer::forward::{backend_uri, error_status};
use load_balancer::{Algo, LbError, LoadBalancer, ProxyRequest};

fn balancer(algo: &str, count: u8) -> LoadBalancer {
    LoadBalancer::new(String::from(algo), count).unwrap()
}

#[test]
fn new() {
    let lb = LoadBalancer::new(String::from("round_robin"), 1).unwrap();

    assert_eq!(lb.backends.len(), 1);
    assert!(matches!(lb.algo, Algo::RoundRobin(_)));
}

#[test]
fn select_none() {
    let mut lb = LoadBalancer::new(String::from("least_connection"), 2).unwrap();
    let backend = lb.select();
    assert!(matches!(backend, None));
}

#[test]
fn select_least_connection() {
    let mut lb = LoadBalancer::new(String::from("least_connection"), 2).unwrap();

    {
        let backend = &mut lb.backends[0];
        backend.healthy = true;

        let backend = &mut lb.backends[1];
        backend.inflights = 1;
        backend.healthy = true;
        assert_eq!(backend.host, "127.0.0.1:8081");
    }

    let i = lb.select().unwrap();
    let backend = &lb.backends[i];
    assert_eq!(backend.inflights, 0);
    assert_eq!(backend.host, "127.0.0.1:8080");
}

#[test]
fn select_round_robin() {
    let mut lb = LoadBalancer::new(String::from("round_robin"), 2).unwrap();
    for backend in &mut lb.backends {
        backend.healthy = true;
    }

    let i = lb.select().unwrap();
    assert_eq!(lb.backends[i].host, "127.0.0.1:8080");
    let i = lb.select().unwrap();
    assert_eq!(lb.backends[i].host, "127.0.0.1:8081");
    let i = lb.select().unwrap();
    assert_eq!(lb.backends[i].host, "127.0.0.1:8080");
}

#[test]
fn new_rejects_unknown_algorithm() {
    assert!(matches!(
        LoadBalancer::new(String::from("weighted"), 2),
        Err(LbError::UnsupportedAlgorithm)
    ));
    assert!(matches!(
        LoadBalancer::new(String::from(""), 1),
        Err(LbError::UnsupportedAlgorithm)
    ));
}

#[test]
fn new_synthesizes_sequential_addresses() {
    let lb = balancer("least_connection", 12);
    assert_eq!(lb.algo, Algo::LeastConnection);
    assert_eq!(lb.backends.len(), 12);
    assert_eq!(lb.backends[0].host, "127.0.0.1:8080");
    assert_eq!(lb.backends[9].host, "127.0.0.1:8089");
    assert_eq!(lb.backends[11].host, "127.0.0.1:8091");
    for b in &lb.backends {
        assert_eq!(b.inflights, 0);
        assert!(!b.healthy);
    }
}

#[test]
fn round_robin_starts_at_cursor_zero() {
    let lb = balancer("round_robin", 3);
    assert_eq!(lb.algo, Algo::RoundRobin(0));
}

#[test]
fn round_robin_rotates_evenly() {
    let mut lb = balancer("round_robin", 3);
    for b in &mut lb.backends {
        b.healthy = true;
    }
    let mut hits = [0usize; 3];
    let mut order = Vec::new();
    for _ in 0..7 {
        let i = lb.select().unwrap();
        hits[i] += 1;
        order.push(i);
    }
    assert_eq!(order, vec![0, 1, 2, 0, 1, 2, 0]);
    assert_eq!(hits, [3, 2, 2]);
    assert_eq!(lb.algo, Algo::RoundRobin(1));
}

#[test]
fn round_robin_skips_unhealthy() {
    let mut lb = balancer("round_robin", 3);
    lb.backends[0].healthy = true;
    lb.backends[2].healthy = true;
    let picks: Vec<usize> = (0..4).map(|_| lb.select().unwrap()).collect();
    assert_eq!(picks, vec![0, 2, 0, 2]);
}

#[test]
fn round_robin_large_cursor_wraps() {
    let mut lb = balancer("round_robin", 2);
    lb.backends[0].healthy = true;
    lb.backends[1].healthy = true;
    lb.algo = Algo::RoundRobin(usize::MAX);
    // usize::MAX is odd, so it points at the second backend.
    assert_eq!(lb.select(), Some(1));
    assert_eq!(lb.algo, Algo::RoundRobin(0));
}

#[test]
fn least_connection_prefers_idle_backend() {
    let mut lb = balancer("least_connection", 3);
    for (i, b) in lb.backends.iter_mut().enumerate() {
        b.healthy = true;
        b.inflights = i;
    }
    for _ in 0..50 {
        assert_eq!(lb.select(), Some(0));
    }
}

#[test]
fn least_connection_breaks_ties_among_least_loaded() {
    let mut lb = balancer("least_connection", 3);
    let counts = [1usize, 1, 2];
    for (b, c) in lb.backends.iter_mut().zip(counts) {
        b.healthy = true;
        b.inflights = c;
    }
    let mut seen = [false; 3];
    for _ in 0..400 {
        let i = lb.select().unwrap();
        assert_ne!(i, 2);
        seen[i] = true;
    }
    assert!(seen[0] && seen[1]);
    assert_eq!(lb.least_loaded(), vec![0, 1]);
}

#[test]
fn select_is_none_only_when_all_unhealthy() {
    let mut lb = balancer("round_robin", 2);
    assert_eq!(lb.select(), None);
    assert_eq!(lb.algo, Algo::RoundRobin(0));
    lb.backends[1].healthy = true;
    assert_eq!(lb.select(), Some(1));
}

#[test]
fn least_connection_single_healthy_backend() {
    let mut lb = balancer("least_connection", 2);
    lb.backends[1].healthy = true;
    for load in [0usize, 5, 1000] {
        lb.backends[1].inflights = load;
        assert_eq!(lb.select(), Some(1));
    }
}

#[test]
fn dispatch_without_healthy_backend_fails() {
    let mut lb = balancer("least_connection", 2);
    for _ in 0..3 {
        assert_eq!(lb.begin_dispatch(), Err(LbError::NoHealthyBackend));
    }
    assert!(lb.backends.iter().all(|b| b.inflights == 0));
}

#[test]
fn dispatch_counts_request_while_in_flight() {
    let mut lb = balancer("round_robin", 2);
    lb.backends[0].healthy = true;
    lb.backends[1].healthy = true;
    let a = lb.begin_dispatch().unwrap();
    let b = lb.begin_dispatch().unwrap();
    assert_eq!((a, b), (0, 1));
    assert_eq!(lb.backends[0].inflights, 1);
    assert_eq!(lb.backends[1].inflights, 1);
    assert_eq!(lb.finish_dispatch(a, Some(7u16)), Ok(7));
    assert_eq!(lb.finish_dispatch(b, None::<u16>), Err(LbError::UpstreamUnavailable));
    assert_eq!(lb.backends[0].inflights, 0);
    assert_eq!(lb.backends[1].inflights, 0);
}

#[test]
fn many_requests_return_counter_to_baseline() {
    let mut lb = balancer("least_connection", 1);
    lb.backends[0].healthy = true;
    lb.backends[0].inflights = 3;
    let started: Vec<usize> = (0..20).map(|_| lb.begin_dispatch().unwrap()).collect();
    assert_eq!(lb.backends[0].inflights, 23);
    for (n, i) in started.into_iter().enumerate() {
        let outcome = if n % 2 == 0 { Some(()) } else { None };
        let _ = lb.finish_dispatch(i, outcome);
    }
    assert_eq!(lb.backends[0].inflights, 3);
}

#[test]
fn acquire_and_release_pair_up() {
    let mut lb = balancer("least_connection", 2);
    lb.acquire(1);
    lb.acquire(1);
    assert_eq!(lb.backends[1].inflights, 2);
    assert_eq!(lb.backends[0].inflights, 0);
    lb.release(1);
    lb.release(1);
    assert_eq!(lb.backends[1].inflights, 0);
}

#[test]
fn least_connection_follows_in_flight_requests() {
    let mut lb = balancer("least_connection", 2);
    lb.backends[0].healthy = true;
    lb.backends[1].healthy = true;
    lb.backends[0].inflights = 2;
    assert_eq!(lb.begin_dispatch(), Ok(1));
    assert_eq!(lb.begin_dispatch(), Ok(1));
    assert_eq!(lb.backends[1].inflights, 2);
    let next = lb.begin_dispatch().unwrap();
    assert!(next == 0 || next == 1);
    assert_eq!(lb.backends[0].inflights + lb.backends[1].inflights, 5);
}

#[test]
fn probe_outcome_sets_health() {
    let mut lb = balancer("round_robin", 3);
    lb.record_probe(0, Some(200));
    lb.record_probe(1, Some(503));
    lb.record_probe(2, None);
    assert!(lb.backends[0].healthy);
    assert!(!lb.backends[1].healthy);
    assert!(!lb.backends[2].healthy);
    assert!(probe_succeeded(Some(200)));
    assert!(!probe_succeeded(Some(204)));
    assert!(!probe_succeeded(None));
}

#[test]
fn healthy_positions_in_order() {
    let mut lb = balancer("round_robin", 4);
    lb.backends[1].healthy = true;
    lb.backends[3].healthy = true;
    assert_eq!(lb.healthy_positions(), vec![1, 3]);
}

#[test]
fn address_text() {
    assert_eq!(decimal_text(0), "0");
    assert_eq!(decimal_text(8080), "8080");
    assert_eq!(decimal_text(65535), "65535");
    assert_eq!(loopback_host(8334), "127.0.0.1:8334");
}

#[test]
fn forward_request_rewrites_only_the_target() {
    let mut lb = balancer("round_robin", 2);
    lb.backends[1].healthy = true;
    let i = lb.select().unwrap();
    let req = ProxyRequest {
        method: String::from("POST"),
        target: String::from("/api/items?x=1"),
        headers: vec![(String::from("content-type"), b"text/plain".to_vec())],
        body: b"hello".to_vec(),
    };
    let out = lb.forward_request(i, req);
    assert_eq!(out.target, "http://127.0.0.1:8081/api/items?x=1");
    assert_eq!(out.method, "POST");
    assert_eq!(out.headers, vec![(String::from("content-type"), b"text/plain".to_vec())]);
    assert_eq!(out.body, b"hello".to_vec());
    assert_eq!(backend_uri(&String::from("h:1"), &String::from("/")), "http://h:1/");
}

#[test]
fn error_statuses() {
    assert_eq!(error_status(LbError::NoHealthyBackend), 503);
    assert_eq!(error_status(LbError::UpstreamUnavailable), 502);
    assert_eq!(error_status(LbError::UnsupportedAlgorithm), 500);
}
