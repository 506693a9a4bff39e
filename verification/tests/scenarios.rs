//! The acceptance scenarios of corpus-introspect, run against the library:
//! each facet reply is the fixture JSON that the original's shim scripts
//! print, or a missing binary.

use corpus_introspect::facets::{
    collect_arbiter, collect_attest, collect_converge, collect_roster, collect_tether, CliError,
    FacetReply,
};
use corpus_introspect::json::{JsonNumber, JsonValue};
use corpus_introspect::model::{FacetStatus, FloatReading, WholeSelf};
use corpus_introspect::render::{render_selfreview, render_text};

fn json_value(value: serde_json::Value) -> JsonValue {
    match value {
        serde_json::Value::Null => JsonValue::Null,
        serde_json::Value::Bool(b) => JsonValue::Bool(b),
        serde_json::Value::Number(n) => {
            let f = n.as_f64().unwrap();
            JsonValue::Number(JsonNumber {
                unsigned: n.as_u64(),
                reading: FloatReading { bits: f.to_bits(), one_decimal: format!("{f:.1}") },
            })
        }
        serde_json::Value::String(s) => JsonValue::String(s),
        serde_json::Value::Array(items) => {
            JsonValue::Array(items.into_iter().map(json_value).collect())
        }
        serde_json::Value::Object(members) => {
            JsonValue::Object(members.into_iter().map(|(k, v)| (k, json_value(v))).collect())
        }
    }
}

fn reply(fixture: Option<&str>) -> FacetReply {
    match fixture {
        None => Err(CliError::NotFound),
        Some(text) => Ok(serde_json::from_str::<serde_json::Value>(text)
            .map(json_value)
            .map_err(|e| e.to_string())),
    }
}

fn whole_self(
    attest: Option<&str>,
    roster: Option<&str>,
    converge: Option<&str>,
    arbiter: Option<&str>,
    tether: Option<&str>,
) -> WholeSelf {
    let mut status = Vec::new();
    let (a, _) = collect_attest(reply(attest), &mut status);
    let (r, _) = collect_roster(reply(roster), &mut status);
    let (c, _) = collect_converge(reply(converge), &mut status);
    let (l, _) = collect_arbiter(reply(arbiter), &mut status);
    let (t, _) = collect_tether(reply(tether), &mut status);
    WholeSelf::from_facets(
        a,
        r,
        c,
        l,
        t,
        status,
        "testhost".to_owned(),
        "2026-06-18T00:00:00Z".to_owned(),
    )
}

fn status_of(w: &WholeSelf, facet: &str) -> Option<FacetStatus> {
    w.facet_status.iter().find(|(name, _)| name == facet).map(|(_, s)| *s)
}

#[test]
fn ac1_whole_self_golden() {
    let w = whole_self(
        Some(r#"{"this_node":"laptop","attested_nodes":["laptop","server"]}"#),
        Some(r#"{"nodes":[{"node":"laptop","sessions":2},{"node":"server","sessions":1}]}"#),
        Some(r#"{"converged":true,"nodes":[{"node":"laptop","lag":0},{"node":"server","lag":0}]}"#),
        Some(r#"{"leases":[{"key":"lock/build","holder":"laptop","expires":"2026-06-17T01:00:00Z"}]}"#),
        Some(r#"{"links":[{"node":"server","up":true,"rtt_ms":8.2}]}"#),
    );
    assert_eq!(w.nodes.len(), 2, "expected 2 nodes");
    assert_eq!(w.converged, true, "converged field");
    assert_eq!(w.leases.len(), 1);
    assert_eq!(w.leases[0].key, "lock/build");
    assert!(!w.generated_ts.is_empty(), "generated_ts must be a string");
    let laptop = w.nodes.iter().find(|n| n.node == "laptop").expect("laptop node");
    assert_eq!(laptop.attested, true, "laptop must be attested");
    let server = w.nodes.iter().find(|n| n.node == "server").expect("server node");
    assert_eq!(server.attested, true, "server must be attested");
}

#[test]
fn ac2_text_view_multi_node() {
    let w = whole_self(
        Some(r#"{"this_node":"alpha","attested_nodes":["alpha","beta"]}"#),
        Some(r#"{"nodes":[{"node":"alpha","sessions":3},{"node":"beta","sessions":0}]}"#),
        Some(r#"{"converged":false,"nodes":[{"node":"alpha","lag":0},{"node":"beta","lag":5}]}"#),
        Some(r#"{"leases":[]}"#),
        Some(r#"{"links":[{"node":"beta","up":true,"rtt_ms":3.1}]}"#),
    );
    let lines = render_text(&w);
    let stdout = lines.join("\n");
    assert!(lines.len() <= 25, "text view should fit in 25 lines, got {}: {}", lines.len(), stdout);
    assert!(stdout.contains("alpha"), "must name alpha");
    assert!(stdout.contains("beta"), "must name beta");
    assert!(stdout.contains("attested"), "must show attested");
    assert!(stdout.contains("sessions"), "must show sessions");
    assert!(
        stdout.contains("converged") || stdout.contains("behind"),
        "must show convergence verdict"
    );
    assert!(stdout.contains("behind"), "beta lag should show 'behind'");
}

#[test]
fn ac3_missing_tether_degrades_gracefully() {
    let w = whole_self(
        Some(r#"{"this_node":"laptop","attested_nodes":["laptop"]}"#),
        Some(r#"{"nodes":[{"node":"laptop","sessions":1}]}"#),
        Some(r#"{"converged":true,"nodes":[{"node":"laptop","lag":0}]}"#),
        Some(r#"{"leases":[]}"#),
        None,
    );
    // The text view renders.
    assert!(!render_text(&w).is_empty());
    let tether_status = status_of(&w, "tether").expect("facet_status.tether must be present");
    assert_ne!(tether_status, FacetStatus::Collected, "tether facet must be degraded/error, not ok");
    assert!(
        tether_status == FacetStatus::Degraded || tether_status == FacetStatus::Error,
        "tether facet_status should be 'degraded' or 'error', got '{tether_status:?}'"
    );
}

#[test]
fn ac3_missing_facet_not_silently_dropped_in_text() {
    let w = whole_self(
        Some(r#"{"this_node":"laptop","attested_nodes":["laptop"]}"#),
        None,
        None,
        None,
        None,
    );
    let stdout = render_text(&w).join("\n");
    assert!(stdout.contains("Degraded"), "text output must mention degraded facets\n{stdout}");
}

#[test]
fn ac4_lone_laptop_case() {
    let w = whole_self(None, None, None, None, None);
    assert!(!w.nodes.is_empty(), "must report at least one node");
    assert_eq!(w.nodes[0].attested, false, "lone node must be unattested");
    for (facet, status) in &w.facet_status {
        assert_ne!(*status, FacetStatus::Collected, "facet {facet} should not be ok in lone-laptop mode");
    }
}

#[test]
fn ac4_lone_laptop_text_view() {
    let w = whole_self(None, None, None, None, None);
    let stdout = render_text(&w).join("\n");
    assert!(stdout.contains("unattested"), "text view must say 'unattested' for lone laptop\n{stdout}");
}

#[test]
fn ac5_selfreview_format_structural() {
    let w = whole_self(
        Some(r#"{"this_node":"laptop","attested_nodes":["laptop","server"]}"#),
        Some(r#"{"nodes":[{"node":"laptop","sessions":2},{"node":"server","sessions":1}]}"#),
        Some(r#"{"converged":true,"nodes":[{"node":"laptop","lag":0},{"node":"server","lag":0}]}"#),
        Some(r#"{"leases":[{"key":"lock/build","holder":"laptop"}]}"#),
        Some(r#"{"links":[]}"#),
    );
    let lines = render_selfreview(&w);
    let stdout = lines.join("\n");
    assert!(stdout.contains("node_count:"), "selfreview block must contain node_count:\n{stdout}");
    let node_count_line = lines.iter().find(|l| l.starts_with("node_count:")).expect("node_count line");
    let count_val = node_count_line.split(':').nth(1).map(str::trim).expect("count value");
    assert_eq!(count_val, "2", "node_count should be 2");
    assert!(stdout.contains("converged:"), "selfreview block must contain converged:\n{stdout}");
    let converged_line = lines.iter().find(|l| l.starts_with("converged:")).expect("converged line");
    assert!(
        converged_line.contains("yes") || converged_line.contains("no"),
        "converged must be 'yes' or 'no': {converged_line}"
    );
    assert!(stdout.contains("lease_count:"), "selfreview block must contain lease_count:\n{stdout}");
    let lease_line = lines.iter().find(|l| l.starts_with("lease_count:")).expect("lease_count line");
    let lease_val = lease_line.split(':').nth(1).map(str::trim).expect("lease count value");
    assert_eq!(lease_val, "1", "lease_count should be 1");
}

#[test]
fn ac6_mock_two_node_fleet_shape() {
    let w = whole_self(
        Some(r#"{"this_node":"node-a","attested_nodes":["node-a","node-b"]}"#),
        Some(r#"{"nodes":[{"node":"node-a","sessions":5},{"node":"node-b","sessions":3}]}"#),
        Some(r#"{"converged":true,"nodes":[{"node":"node-a","lag":0},{"node":"node-b","lag":0}]}"#),
        Some(r#"{"leases":[]}"#),
        Some(r#"{"links":[{"node":"node-b","up":true,"rtt_ms":14.7}]}"#),
    );
    assert_eq!(w.nodes.len(), 2, "two-node fleet: expect 2 nodes");
    let names: Vec<&str> = w.nodes.iter().map(|n| n.node.as_str()).collect();
    assert!(names.contains(&"node-a"), "node-a present");
    assert!(names.contains(&"node-b"), "node-b present");
    let node_b = w.nodes.iter().find(|n| n.node == "node-b").expect("node-b");
    let rtt = node_b
        .link
        .as_ref()
        .and_then(|l| l.rtt_ms.as_ref())
        .map(|r| f64::from_bits(r.bits))
        .expect("rtt_ms present");
    assert!(rtt > 0.0, "rtt_ms should be positive");
    for node in &w.nodes {
        assert!(node.sessions.is_some(), "node {} should have session count", node.node);
    }
}

#[test]
fn invariant_at_least_one_node() {
    let w = whole_self(None, None, None, None, None);
    assert!(!w.nodes.is_empty(), "invariant: at least one node always");
}

#[test]
fn invariant_generated_ts_always_present() {
    let w = whole_self(None, None, None, None, None);
    assert!(!w.generated_ts.is_empty(), "generated_ts must be non-empty");
}

#[test]
fn golden_text_view_of_two_node_fleet() {
    let w = whole_self(
        Some(r#"{"this_node":"laptop","attested_nodes":["laptop","server"]}"#),
        Some(r#"{"nodes":[{"node":"laptop","sessions":2},{"node":"server","sessions":1}]}"#),
        Some(r#"{"converged":false,"nodes":[{"node":"laptop","lag":0},{"node":"server","lag":3}]}"#),
        Some(r#"{"leases":[{"key":"lock/build","holder":"laptop","expires":"2026-06-17T01:00:00Z"},{"key":"lock/x"}]}"#),
        None,
    );
    let lines = render_text(&w);
    let expected = vec![
        "=== Wintermute Self-Portrait (2026-06-18T00:00:00Z) ===",
        "Nodes: 2 | Memory: NOT converged | Leases: 2",
        "",
        "  laptop: [attested] link=link-unknown 2 sessions mem=current",
        "  server: [attested] link=link-unknown 1 sessions mem=3 commits behind",
        "",
        "Leases:",
        "  lock/build held by laptop (expires: 2026-06-17T01:00:00Z)",
        "  lock/x held by unknown (expires: no-expiry)",
        "",
        "Degraded facets:",
        "  tether: not installed",
    ];
    assert_eq!(lines, expected);
    let review = render_selfreview(&w);
    let expected_review = vec![
        "## corpus-introspect selfreview",
        "generated_ts: 2026-06-18T00:00:00Z",
        "node_count: 2",
        "converged: no",
        "lease_count: 2",
        "node: laptop status=attested",
        "node: server status=attested",
        "lease: lock/build holder=laptop",
        "lease: lock/x holder=unknown",
        "degraded_facets: 1",
    ];
    assert_eq!(review, expected_review);
}

#[test]
fn golden_link_labels() {
    let w = whole_self(
        Some(r#"{"this_node":"a","attested_nodes":[]}"#),
        None,
        None,
        None,
        Some(r#"{"links":[{"node":"b","up":true,"rtt_ms":8.24},{"node":"c","up":false},{"node":"d","up":true}]}"#),
    );
    let lines = render_text(&w);
    assert_eq!(lines[3], "  a: [unattested] link=link-unknown sessions-unknown mem=version-unknown");
    assert_eq!(lines[4], "  b: [unattested] link=up (8.2ms) sessions-unknown mem=version-unknown");
    assert_eq!(lines[5], "  c: [unattested] link=down sessions-unknown mem=version-unknown");
    assert_eq!(lines[6], "  d: [unattested] link=up sessions-unknown mem=version-unknown");
}

#[test]
fn lone_host_is_the_single_node() {
    let w = whole_self(None, None, None, None, None);
    assert_eq!(w.nodes.len(), 1);
    assert_eq!(w.nodes[0].node, "testhost");
    assert!(!w.nodes[0].attested);
    assert!(w.nodes[0].link.is_none());
    assert!(w.nodes[0].sessions.is_none());
    assert!(w.nodes[0].version_lag.is_none());
    let names: Vec<&str> = w.facet_status.iter().map(|(n, _)| n.as_str()).collect();
    assert_eq!(names, vec!["attest", "roster", "converge", "arbiter", "tether"]);
    assert!(w.facet_status.iter().all(|(_, s)| *s == FacetStatus::Degraded));
}
