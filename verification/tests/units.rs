//! Unit tests of the facet readers, the merge, the status table and the
//! text helpers.

use corpus_introspect::facets::{
    collect_attest, collect_converge, collect_roster, collect_tether, parse_arbiter_json,
    parse_attest_json, parse_converge_json, parse_roster_json, parse_tether_json, AttestData,
    ArbiterData, CliError, ConvergeData, RosterData, TetherData,
};
use corpus_introspect::json::{JsonNumber, JsonValue};
use corpus_introspect::model::{insert_status, FacetStatus, FloatReading, LinkInfo, WholeSelf};
use corpus_introspect::render::render_node_line;
use corpus_introspect::text::{decimal_string, str_eq, str_lt};

fn s(text: &str) -> JsonValue {
    JsonValue::String(text.to_owned())
}

fn num(n: u64) -> JsonValue {
    let f = n as f64;
    JsonValue::Number(JsonNumber {
        unsigned: Some(n),
        reading: FloatReading { bits: f.to_bits(), one_decimal: format!("{f:.1}") },
    })
}

fn float(f: f64) -> JsonValue {
    JsonValue::Number(JsonNumber {
        unsigned: None,
        reading: FloatReading { bits: f.to_bits(), one_decimal: format!("{f:.1}") },
    })
}

fn obj(members: Vec<(&str, JsonValue)>) -> JsonValue {
    JsonValue::Object(members.into_iter().map(|(k, v)| (k.to_owned(), v)).collect())
}

fn arr(items: Vec<JsonValue>) -> JsonValue {
    JsonValue::Array(items)
}

fn names(pairs: &[(String, bool)]) -> Vec<(&str, bool)> {
    pairs.iter().map(|(n, b)| (n.as_str(), *b)).collect()
}

#[test]
fn attest_lists_this_node_first() {
    let doc = obj(vec![
        ("this_node", s("laptop")),
        ("attested_nodes", arr(vec![s("server"), num(3), s("laptop"), s("edge")])),
    ]);
    let data = parse_attest_json(&doc);
    assert_eq!(names(&data.nodes), vec![("laptop", true), ("server", true), ("edge", true)]);
}

#[test]
fn attest_this_node_not_listed_is_unattested() {
    let doc = obj(vec![("this_node", s("laptop")), ("attested_nodes", arr(vec![s("server")]))]);
    let data = parse_attest_json(&doc);
    assert_eq!(names(&data.nodes), vec![("laptop", false), ("server", true)]);
}

#[test]
fn attest_without_this_node_names_nothing() {
    let doc = obj(vec![("attested_nodes", arr(vec![s("server")]))]);
    assert!(parse_attest_json(&doc).nodes.is_empty());
    let doc = obj(vec![("this_node", num(1))]);
    assert!(parse_attest_json(&doc).nodes.is_empty());
}

#[test]
fn attest_without_list_is_this_node_unattested() {
    let doc = obj(vec![("this_node", s("box"))]);
    assert_eq!(names(&parse_attest_json(&doc).nodes), vec![("box", false)]);
}

#[test]
fn roster_counts_are_capped_and_defaulted() {
    let doc = obj(vec![(
        "nodes",
        arr(vec![
            obj(vec![("node", s("a")), ("sessions", num(5_000_000_000))]),
            obj(vec![("node", s("b"))]),
            obj(vec![("node", s("c")), ("sessions", float(2.5))]),
            obj(vec![("node", s("d")), ("sessions", num(7))]),
        ]),
    )]);
    let data = parse_roster_json(&doc).expect("roster parses");
    let got: Vec<(&str, u32)> = data.sessions.iter().map(|(n, c)| (n.as_str(), *c)).collect();
    assert_eq!(got, vec![("a", u32::MAX), ("b", 0), ("c", 0), ("d", 7)]);
}

#[test]
fn roster_node_without_name_is_an_error() {
    let doc = obj(vec![("nodes", arr(vec![obj(vec![("node", s("a"))]), obj(vec![("sessions", num(1))])]))]);
    match parse_roster_json(&doc) {
        Err(e) => assert_eq!(e, "missing node.node"),
        Ok(_) => panic!("expected an error"),
    }
}

#[test]
fn roster_without_nodes_is_empty() {
    let data = parse_roster_json(&obj(vec![])).expect("roster parses");
    assert!(data.sessions.is_empty());
    let data = parse_roster_json(&obj(vec![("nodes", s("x"))])).expect("roster parses");
    assert!(data.sessions.is_empty());
}

#[test]
fn converge_reads_flag_and_lags() {
    let doc = obj(vec![
        ("converged", JsonValue::Bool(true)),
        ("nodes", arr(vec![obj(vec![("node", s("a")), ("lag", num(4))])])),
    ]);
    let data = parse_converge_json(&doc).expect("converge parses");
    assert!(data.converged);
    assert_eq!(data.version_lags[0].0, "a");
    assert_eq!(data.version_lags[0].1, 4);
    let data = parse_converge_json(&obj(vec![("converged", s("yes"))])).expect("converge parses");
    assert!(!data.converged);
}

#[test]
fn arbiter_defaults_holder_and_requires_key() {
    let doc = obj(vec![(
        "leases",
        arr(vec![obj(vec![("key", s("k1")), ("expires", s("t"))]), obj(vec![("key", s("k2")), ("holder", s("h"))])]),
    )]);
    let data = parse_arbiter_json(&doc).expect("arbiter parses");
    assert_eq!(data.leases[0].key, "k1");
    assert_eq!(data.leases[0].holder, "unknown");
    assert_eq!(data.leases[0].expires.as_deref(), Some("t"));
    assert_eq!(data.leases[1].holder, "h");
    assert_eq!(data.leases[1].expires, None);
    let bad = obj(vec![("leases", arr(vec![obj(vec![("holder", s("h"))])]))]);
    match parse_arbiter_json(&bad) {
        Err(e) => assert_eq!(e, "missing lease.key"),
        Ok(_) => panic!("expected an error"),
    }
}

#[test]
fn tether_reads_links() {
    let doc = obj(vec![(
        "links",
        arr(vec![
            obj(vec![("node", s("a")), ("up", JsonValue::Bool(true)), ("rtt_ms", float(12.4))]),
            obj(vec![("node", s("b"))]),
        ]),
    )]);
    let data = parse_tether_json(&doc).expect("tether parses");
    assert!(data.links[0].1.up);
    let rtt = data.links[0].1.rtt_ms.as_ref().expect("rtt present");
    assert_eq!(f64::from_bits(rtt.bits), 12.4);
    assert_eq!(rtt.one_decimal, "12.4");
    assert!(!data.links[1].1.up);
    assert!(data.links[1].1.rtt_ms.is_none());
    let bad = obj(vec![("links", arr(vec![obj(vec![("up", JsonValue::Bool(true))])]))]);
    match parse_tether_json(&bad) {
        Err(e) => assert_eq!(e, "missing link.node"),
        Ok(_) => panic!("expected an error"),
    }
}

#[test]
fn json_lookup_finds_first_member() {
    let doc = obj(vec![("k", s("first")), ("k", s("second"))]);
    match doc.get("k") {
        Some(JsonValue::String(v)) => assert_eq!(v, "first"),
        _ => panic!("expected a string"),
    }
    assert!(doc.get("other").is_none());
    assert!(s("x").get("k").is_none());
}

#[test]
fn cli_failures_map_to_statuses() {
    assert_eq!(CliError::NotFound.to_facet_status(), FacetStatus::Degraded);
    assert_eq!(CliError::IoError("e".to_owned()).to_facet_status(), FacetStatus::Error);
    assert_eq!(CliError::ExitError(2, "boom".to_owned()).to_facet_status(), FacetStatus::Error);
    assert_eq!(CliError::ParseError("utf8".to_owned()).to_facet_status(), FacetStatus::Error);
}

#[test]
fn collect_records_each_outcome() {
    let mut status = Vec::new();
    let (data, msg) = collect_attest(Err(CliError::ExitError(1, String::new())), &mut status);
    assert!(data.nodes.is_empty());
    assert!(msg.is_none());
    let (data, msg) = collect_roster(Ok(Err("expected value".to_owned())), &mut status);
    assert!(data.sessions.is_empty());
    assert_eq!(msg.as_deref(), Some("expected value"));
    let bad = obj(vec![("nodes", arr(vec![obj(vec![])]))]);
    let (data, msg) = collect_converge(Ok(Ok(bad)), &mut status);
    assert!(!data.converged);
    assert_eq!(msg.as_deref(), Some("missing node.node"));
    let (data, msg) = collect_tether(Ok(Ok(obj(vec![]))), &mut status);
    assert!(data.links.is_empty());
    assert!(msg.is_none());
    let got: Vec<(&str, FacetStatus)> = status.iter().map(|(n, s)| (n.as_str(), *s)).collect();
    assert_eq!(
        got,
        vec![
            ("attest", FacetStatus::Error),
            ("roster", FacetStatus::Error),
            ("converge", FacetStatus::Error),
            ("tether", FacetStatus::Collected),
        ]
    );
}

#[test]
fn status_table_replaces_in_place() {
    let mut table = Vec::new();
    insert_status(&mut table, "attest", FacetStatus::Degraded);
    insert_status(&mut table, "roster", FacetStatus::Collected);
    insert_status(&mut table, "attest", FacetStatus::Unknown);
    let got: Vec<(&str, FacetStatus)> = table.iter().map(|(n, s)| (n.as_str(), *s)).collect();
    assert_eq!(got, vec![("attest", FacetStatus::Unknown), ("roster", FacetStatus::Collected)]);
}

fn link(up: bool) -> LinkInfo {
    LinkInfo { up, rtt_ms: None }
}

#[test]
fn merge_sorts_and_takes_last_entries() {
    let attest = AttestData {
        nodes: vec![("zeta".to_owned(), true), ("alpha".to_owned(), true), ("zeta".to_owned(), false)],
    };
    let roster = RosterData { sessions: vec![("alpha".to_owned(), 1), ("alpha".to_owned(), 2), ("émile".to_owned(), 9)] };
    let converge = ConvergeData { converged: true, version_lags: vec![("beta".to_owned(), 0)] };
    let arbiter = ArbiterData { leases: vec![] };
    let tether = TetherData { links: vec![("beta".to_owned(), link(false)), ("beta".to_owned(), link(true))] };
    let w = WholeSelf::from_facets(
        attest,
        roster,
        converge,
        arbiter,
        tether,
        vec![],
        "host".to_owned(),
        "ts".to_owned(),
    );
    let order: Vec<&str> = w.nodes.iter().map(|n| n.node.as_str()).collect();
    assert_eq!(order, vec!["alpha", "beta", "zeta", "émile"]);
    assert!(w.nodes[0].attested);
    assert_eq!(w.nodes[0].sessions, Some(2));
    assert!(!w.nodes[1].attested);
    assert!(w.nodes[1].link.as_ref().expect("beta link").up);
    assert_eq!(w.nodes[1].version_lag, Some(0));
    assert!(!w.nodes[2].attested, "last attest entry for zeta says false");
    assert_eq!(w.nodes[3].sessions, Some(9));
    assert!(w.converged);
}

#[test]
fn merge_without_attest_adds_host() {
    let w = WholeSelf::from_facets(
        AttestData { nodes: vec![] },
        RosterData { sessions: vec![("peer".to_owned(), 1)] },
        ConvergeData { converged: false, version_lags: vec![] },
        ArbiterData { leases: vec![] },
        TetherData { links: vec![] },
        vec![],
        "host".to_owned(),
        "ts".to_owned(),
    );
    let order: Vec<&str> = w.nodes.iter().map(|n| n.node.as_str()).collect();
    assert_eq!(order, vec!["host", "peer"]);
    assert!(!w.nodes[0].attested);
}

#[test]
fn node_line_labels() {
    let w = WholeSelf::from_facets(
        AttestData { nodes: vec![("n".to_owned(), true)] },
        RosterData { sessions: vec![("n".to_owned(), 12)] },
        ConvergeData { converged: false, version_lags: vec![("n".to_owned(), 0)] },
        ArbiterData { leases: vec![] },
        TetherData { links: vec![] },
        vec![],
        "host".to_owned(),
        "ts".to_owned(),
    );
    assert_eq!(render_node_line(&w.nodes[0]), "  n: [attested] link=link-unknown 12 sessions mem=current");
}

#[test]
fn text_helpers() {
    assert!(str_lt("abc", "abd"));
    assert!(str_lt("ab", "abc"));
    assert!(!str_lt("abc", "abc"));
    assert!(!str_lt("b", "abc"));
    assert!(str_lt("z", "é"));
    assert!(str_eq("héllo", "héllo"));
    assert!(!str_eq("hello", "hellO"));
    assert_eq!(decimal_string(0), "0");
    assert_eq!(decimal_string(7), "7");
    assert_eq!(decimal_string(1234567890123), "1234567890123");
    assert_eq!(decimal_string(u64::MAX), u64::MAX.to_string());
}
