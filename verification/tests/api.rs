use lattice::api::ApiServer;
use lattice::config::{Config, RaftPeer};
use lattice::storage::StorageStats;

fn stats() -> StorageStats {
    StorageStats { series: 3, segments: 2, memtable_points: 15 }
}

#[test]
fn health_endpoint() {
    let resp = ApiServer::new(1).handle(b"GET /health HTTP/1.1\r\nHost: x\r\n\r\n", 0, &stats());
    assert!(resp.contains("\"status\":\"healthy\""), "unexpected: {resp}");
}

#[test]
fn health_response() {
    let resp = ApiServer::new(12).handle(b"GET /health HTTP/1.1\r\n\r\n", 345, &stats());
    assert_eq!(
        resp,
        "HTTP/1.1 200 OK\r\nContent-Type: application/json\r\nContent-Length: 48\r\nConnection: \
         close\r\n\r\n{\"status\":\"healthy\",\"node\":12,\"uptime_secs\":345}"
    );
}

#[test]
fn stats_response() {
    let resp = ApiServer::new(1).handle(b"GET /stats HTTP/1.1\r\n\r\n", 0, &stats());
    let body = "{\"node\":1,\"series\":3,\"segments\":2,\"memtable_points\":15}";
    assert_eq!(
        resp,
        format!(
            "HTTP/1.1 200 OK\r\nContent-Type: application/json\r\nContent-Length: {}\r\n\
             Connection: close\r\n\r\n{body}",
            body.len()
        )
    );
}

#[test]
fn metrics_response() {
    let resp = ApiServer::new(1).handle(b"GET /metrics HTTP/1.1\r\n\r\n", 60, &stats());
    let body = "# TYPE lattice_uptime_seconds counter\nlattice_uptime_seconds 60\n\
                # TYPE lattice_series gauge\nlattice_series 3\n\
                # TYPE lattice_segments gauge\nlattice_segments 2\n\
                # TYPE lattice_memtable_points gauge\nlattice_memtable_points 15\n";
    assert_eq!(
        resp,
        format!(
            "HTTP/1.1 200 OK\r\nContent-Type: text/plain; version=0.0.4\r\nContent-Length: {}\r\n\
             Connection: close\r\n\r\n{body}",
            body.len()
        )
    );
}

#[test]
fn other_paths_are_not_found() {
    let not_found = "HTTP/1.1 404 Not Found\r\nContent-Type: text/plain\r\nContent-Length: 9\r\n\
                     Connection: close\r\n\r\nnot found";
    let api = ApiServer::new(1);
    let requests: [&[u8]; 7] =
        [b"", b"   ", b"GET", b"GET /", b"GET /health/", b"/health", b"GET /HEALTH HTTP/1.1"];
    for r in requests {
        assert_eq!(api.handle(r, 0, &stats()), not_found);
    }
}

#[test]
fn any_white_space_parts_words() {
    let api = ApiServer::new(1);
    let plain = api.handle(b"GET /stats HTTP/1.1", 0, &stats());
    assert_eq!(api.handle(b"\r\n GET\t\n/stats", 0, &stats()), plain);
    assert_eq!(api.respond("x\u{2003}/stats\u{3000}y", 0, &stats()), plain);
}

#[test]
fn bytes_that_are_no_text_are_replaced() {
    let api = ApiServer::new(1);
    // the first word is not looked at, whatever it holds
    let ok = api.handle(b"\xff\xfe /stats", 0, &stats());
    assert!(ok.starts_with("HTTP/1.1 200 OK"));
    let no = api.handle(b"GET /stats\xff", 0, &stats());
    assert!(no.starts_with("HTTP/1.1 404 Not Found"));
}

#[test]
fn default_config() {
    let c = Config::default();
    assert_eq!(c.node_id, 1);
    assert_eq!(c.data_dir, "./data");
    assert_eq!(c.listen_addr, "0.0.0.0:7700");
    assert_eq!(c.api_addr, "0.0.0.0:7800");
    assert_eq!(c.memtable_max_points, 100_000);
    assert!(c.peers.is_empty());
    assert!(c.is_single());
    assert!(c.voters().is_empty());
}

#[test]
fn peers_of_a_config() {
    let peer = |id: u64| RaftPeer { id, addr: format!("127.0.0.1:{id}") };
    let c = Config { node_id: 2, peers: vec![peer(1), peer(2), peer(3)], ..Default::default() };
    assert!(!c.is_single());
    assert_eq!(c.voters(), vec![1, 2, 3]);
    let remote: Vec<u64> = c.peers.iter().filter(|p| c.is_remote(p)).map(|p| p.id).collect();
    assert_eq!(remote, vec![1, 3]);
}

#[test]
fn counts_matter_to_two_paths_only() {
    let api = ApiServer::new(1);
    let none = StorageStats { series: 0, segments: 0, memtable_points: 0 };
    for (request, wanted) in [
        (&b"GET /stats HTTP/1.1"[..], true),
        (b"GET /metrics", true),
        (b"GET /health", false),
        (b"GET /", false),
        (b"/stats", false),
        (b"", false),
    ] {
        assert_eq!(api.wants_stats(request), wanted);
        assert_eq!(api.handle(request, 5, &none) != api.handle(request, 5, &stats()), wanted);
    }
}
