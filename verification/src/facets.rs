//! Facet readers: each turns the reply of one upstream CLI into structured
//! data and records the facet's status. A missing binary means a
//! `FacetStatus::Degraded` entry and empty data, never a failure.

use vstd::prelude::*;

use crate::json::{field_array, field_bool, field_float, field_str, field_u64, str_of, JsonValue};
use crate::model::{insert_status, status_insert, FacetStatus, FloatReading, LeaseInfo, LeaseView, LinkInfo, LinkView};
use crate::text::str_eq;

verus! {

// ---------------------------------------------------------------------------
// Data returned by each facet
// ---------------------------------------------------------------------------

/// Data returned by the attest facet.
pub struct AttestData {
    /// `(node_name, is_attested)` pairs.
    pub nodes: Vec<(String, bool)>,
}

/// Data returned by the roster facet.
pub struct RosterData {
    /// `(node_name, active_session_count)` pairs.
    pub sessions: Vec<(String, u32)>,
}

/// Data returned by the converge facet.
pub struct ConvergeData {
    /// Is the fleet fully converged?
    pub converged: bool,
    /// `(node_name, version_lag_commits)` pairs. 0 = up to date.
    pub version_lags: Vec<(String, u32)>,
}

/// Data returned by the arbiter facet.
pub struct ArbiterData {
    /// Currently held leases.
    pub leases: Vec<LeaseInfo>,
}

/// Data returned by the tether facet.
pub struct TetherData {
    /// `(node_name, link_info)` pairs.
    pub links: Vec<(String, LinkInfo)>,
}

// ---------------------------------------------------------------------------
// Running a facet CLI
// ---------------------------------------------------------------------------

/// Why a facet CLI gave no output to read.
pub enum CliError {
    /// The binary is not installed.
    NotFound,
    /// Starting or waiting for the process failed.
    IoError(String),
    /// The process exited unsuccessfully, with its exit code (-1 when killed
    /// by a signal) and its standard error.
    ExitError(i32, String),
    /// The output was not UTF-8.
    ParseError(String),
}

/// The status that a CLI failure gives its facet.
pub open spec fn cli_status(e: CliError) -> FacetStatus {
    match e {
        CliError::NotFound => FacetStatus::Degraded,
        _ => FacetStatus::Error,
    }
}

/// A missing binary degrades a facet; every other CLI failure is an error.
pub proof fn lemma_cli_status(e: CliError)
    ensures
        (e is NotFound) ==> cli_status(e) == FacetStatus::Degraded,
        !(e is NotFound) ==> cli_status(e) == FacetStatus::Error,
{
}

impl CliError {
    /// A missing binary degrades the facet; any other failure is an error.
    pub fn to_facet_status(&self) -> (s: FacetStatus)
        ensures
            s == cli_status(*self),
            (*self is NotFound) ==> s == FacetStatus::Degraded,
            !(*self is NotFound) ==> s == FacetStatus::Error,
    {
        match self {
            CliError::NotFound => FacetStatus::Degraded,
            _ => FacetStatus::Error,
        }
    }
}

/// What a facet query gave back: the CLI failed, or its output was read as
/// JSON, which either failed with a message or gave a document.
pub type FacetReply = Result<Result<JsonValue, String>, CliError>;

// ---------------------------------------------------------------------------
// Member accessors
// ---------------------------------------------------------------------------

fn member_str<'a>(v: &'a JsonValue, key: &str) -> (r: Option<&'a String>)
    ensures
        match r {
            Some(s) => field_str(*v, key@) == Some(s@),
            None => field_str(*v, key@) is None,
        },
{
    match v.get(key) {
        Some(x) => x.as_str(),
        None => None,
    }
}

fn member_bool(v: &JsonValue, key: &str) -> (r: Option<bool>)
    ensures
        r == field_bool(*v, key@),
{
    match v.get(key) {
        Some(x) => x.as_bool(),
        None => None,
    }
}

fn member_u64(v: &JsonValue, key: &str) -> (r: Option<u64>)
    ensures
        r == field_u64(*v, key@),
{
    match v.get(key) {
        Some(x) => x.as_u64(),
        None => None,
    }
}

fn member_float<'a>(v: &'a JsonValue, key: &str) -> (r: Option<&'a FloatReading>)
    ensures
        match r {
            Some(f) => field_float(*v, key@) == Some(f@),
            None => field_float(*v, key@) is None,
        },
{
    match v.get(key) {
        Some(x) => x.as_float(),
        None => None,
    }
}

fn member_array<'a>(v: &'a JsonValue, key: &str) -> (r: Option<&'a Vec<JsonValue>>)
    ensures
        match r {
            Some(items) => field_array(*v, key@) == Some(items@),
            None => field_array(*v, key@) is None,
        },
{
    match v.get(key) {
        Some(x) => x.as_array(),
        None => None,
    }
}

// ---------------------------------------------------------------------------
// Facet: attest
// ---------------------------------------------------------------------------

/// The strings among the items of an array, in order.
pub open spec fn str_items(items: Seq<JsonValue>) -> Seq<Seq<char>>
    decreases items.len(),
{
    if items.len() == 0 {
        seq![]
    } else {
        let rest = str_items(items.drop_last());
        match str_of(items.last()) {
            Some(s) => rest.push(s),
            None => rest,
        }
    }
}

/// The listed nodes other than `this`, each marked attested.
pub open spec fn others_attested(listed: Seq<Seq<char>>, this: Seq<char>) -> Seq<(Seq<char>, bool)>
    decreases listed.len(),
{
    if listed.len() == 0 {
        seq![]
    } else {
        let rest = others_attested(listed.drop_last(), this);
        if listed.last() == this {
            rest
        } else {
            rest.push((listed.last(), true))
        }
    }
}

/// The attest facet's nodes: nothing without a string `this_node`; else
/// this node first, attested exactly when `attested_nodes` lists it, then
/// every other listed node, attested.
pub open spec fn attest_nodes(doc: JsonValue) -> Seq<(Seq<char>, bool)> {
    match field_str(doc, "this_node"@) {
        None => seq![],
        Some(this) => {
            let listed = match field_array(doc, "attested_nodes"@) {
                Some(items) => str_items(items),
                None => seq![],
            };
            seq![(this, listed.contains(this))] + others_attested(listed, this)
        },
    }
}

/// A string is among the string items of an array exactly when some item
/// is that string.
pub proof fn lemma_str_items_contains(items: Seq<JsonValue>, s: Seq<char>)
    ensures
        str_items(items).contains(s) <==> exists|k: int| 0 <= k < items.len() && str_of(items[k]) == Some(s),
    decreases items.len(),
{
    if items.len() > 0 {
        let d = items.drop_last();
        lemma_str_items_contains(d, s);
        let rest = str_items(d);
        let all = str_items(items);
        if all.contains(s) {
            let m = choose|m: int| 0 <= m < all.len() && all[m] == s;
            if m < rest.len() {
                assert(all[m] == rest[m]);
                assert(rest.contains(s));
                let k = choose|k: int| 0 <= k < d.len() && str_of(d[k]) == Some(s);
                assert(items[k] == d[k]);
            } else {
                assert(str_of(items.last()) == Some(s));
                assert(str_of(items[items.len() - 1]) == Some(s));
            }
        }
        if exists|k: int| 0 <= k < items.len() && str_of(items[k]) == Some(s) {
            let k = choose|k: int| 0 <= k < items.len() && str_of(items[k]) == Some(s);
            if k < d.len() {
                assert(d[k] == items[k]);
                assert(rest.contains(s));
                let m = choose|m: int| 0 <= m < rest.len() && rest[m] == s;
                assert(all[m] == s);
            } else {
                assert(all[all.len() - 1] == s);
            }
        }
    }
}

/// Every node that `others_attested` gives is listed, is not `this`, and
/// is attested; every listed node other than `this` is among them.
pub proof fn lemma_others_attested(listed: Seq<Seq<char>>, this: Seq<char>)
    ensures
        forall|j: int|
            0 <= j < others_attested(listed, this).len() ==> (#[trigger] others_attested(
                listed,
                this,
            )[j]).1 && others_attested(listed, this)[j].0 != this && listed.contains(
                others_attested(listed, this)[j].0,
            ),
        forall|n: Seq<char>|
            listed.contains(n) && n != this ==> exists|j: int|
                0 <= j < others_attested(listed, this).len() && others_attested(listed, this)[j].0
                    == n,
    decreases listed.len(),
{
    if listed.len() > 0 {
        let d = listed.drop_last();
        lemma_others_attested(d, this);
        let rest = others_attested(d, this);
        let o = others_attested(listed, this);
        assert forall|j: int| 0 <= j < o.len() implies o[j].1 && o[j].0 != this && listed.contains(
            o[j].0,
        ) by {
            if j < rest.len() {
                assert(o[j] == rest[j]);
                let m = choose|m: int| 0 <= m < d.len() && d[m] == rest[j].0;
                assert(listed[m] == d[m]);
            } else {
                assert(listed[listed.len() - 1] == o[j].0);
            }
        }
        assert forall|n: Seq<char>| listed.contains(n) && n != this implies exists|j: int|
            0 <= j < o.len() && o[j].0 == n by {
            let m = choose|m: int| 0 <= m < listed.len() && listed[m] == n;
            if m < d.len() {
                assert(d[m] == n);
                assert(d.contains(n));
                let j = choose|j: int| 0 <= j < rest.len() && rest[j].0 == n;
                assert(o[j] == rest[j]);
            } else {
                assert(o[o.len() - 1].0 == n);
            }
        }
    }
}

/// What the attest facet reports, stated over the document: nothing
/// without a string `this_node`; otherwise this node comes first, attested
/// exactly when some item of `attested_nodes` is its name, and every other
/// entry is a listed node other than this one, attested, with every such
/// listed node present.
pub proof fn lemma_attest_facts(doc: JsonValue)
    ensures
        field_str(doc, "this_node"@) is None ==> attest_nodes(doc).len() == 0,
        field_str(doc, "this_node"@) matches Some(this) ==> {
            &&& attest_nodes(doc).len() >= 1
            &&& attest_nodes(doc)[0].0 == this
            &&& field_array(doc, "attested_nodes"@) is None ==> attest_nodes(doc).len() == 1 && !attest_nodes(doc)[0].1
            &&& field_array(doc, "attested_nodes"@) matches Some(items) ==> {
                &&& attest_nodes(doc)[0].1 == (exists|k: int| 0 <= k < items.len() && #[trigger] str_of(items[k]) == Some(this))
                &&& forall|j: int|
                    1 <= j < attest_nodes(doc).len() ==> (#[trigger] attest_nodes(doc)[j]).1 && attest_nodes(doc)[j].0 != this && exists|k: int|
                        0 <= k < items.len() && #[trigger] str_of(items[k]) == Some(attest_nodes(doc)[j].0)
                &&& forall|k: int|
                    0 <= k < items.len() && (#[trigger] str_of(items[k])) is Some && str_of(items[k])->0 != this
                        ==> exists|j: int| 1 <= j < attest_nodes(doc).len() && attest_nodes(doc)[j].0 == str_of(items[k])->0
            }
        },
{
    if let Some(this) = field_str(doc, "this_node"@) {
        let out = attest_nodes(doc);
        match field_array(doc, "attested_nodes"@) {
            None => {
                assert(out =~= seq![(this, false)]);
            },
            Some(items) => {
                let lv = str_items(items);
                let others = others_attested(lv, this);
                lemma_others_attested(lv, this);
                assert(out == seq![(this, lv.contains(this))] + others);
                lemma_str_items_contains(items, this);
                assert forall|j: int| 1 <= j < out.len() implies (#[trigger] out[j]).1 && out[j].0 != this
                    && exists|k: int| 0 <= k < items.len() && #[trigger] str_of(items[k]) == Some(out[j].0) by {
                    assert(out[j] == others[j - 1]);
                    lemma_str_items_contains(items, out[j].0);
                }
                assert forall|k: int|
                    0 <= k < items.len() && (#[trigger] str_of(items[k])) is Some && str_of(items[k])->0 != this
                    implies exists|j: int| 1 <= j < out.len() && out[j].0 == str_of(items[k])->0 by {
                    let n = str_of(items[k])->0;
                    lemma_str_items_contains(items, n);
                    assert(lv.contains(n));
                    let j = choose|j: int| 0 <= j < others.len() && others[j].0 == n;
                    assert(out[j + 1] == others[j]);
                }
            },
        }
    }
}

fn string_items(items: &Vec<JsonValue>) -> (r: Vec<String>)
    ensures
        r.deep_view() == str_items(items@),
{
    let mut r: Vec<String> = Vec::new();
    let mut i: usize = 0;
    while i < items.len()
        invariant
            i <= items.len(),
            r.deep_view() == str_items(items@.take(i as int)),
        decreases items.len() - i,
    {
        assert(items@.take(i + 1).drop_last() =~= items@.take(i as int));
        match items[i].as_str() {
            Some(s) => {
                r.push(s.clone());
            },
            None => {},
        }
        assert(r.deep_view() =~= str_items(items@.take(i + 1)));
        i += 1;
    }
    assert(items@.take(items.len() as int) =~= items@);
    r
}

fn read_attest(doc: &JsonValue) -> (data: AttestData)
    ensures
        data.nodes.deep_view() == attest_nodes(*doc),
{
    let mut nodes: Vec<(String, bool)> = Vec::new();
    match member_str(doc, "this_node") {
        None => {},
        Some(this) => {
            let listed = match member_array(doc, "attested_nodes") {
                Some(items) => string_items(items),
                None => Vec::new(),
            };
            let ghost lv = listed.deep_view();
            assert(lv == match field_array(*doc, "attested_nodes"@) {
                Some(items) => str_items(items),
                None => seq![],
            });
            let mut this_attested = false;
            let mut j: usize = 0;
            while j < listed.len()
                invariant
                    j <= listed.len(),
                    lv == listed.deep_view(),
                    this_attested == (exists|k: int| 0 <= k < j && lv[k] == this@),
                decreases listed.len() - j,
            {
                assert(lv[j as int] == listed[j as int]@);
                if str_eq(listed[j].as_str(), this.as_str()) {
                    this_attested = true;
                    assert(lv[j as int] == this@);
                } else {
                    assert(lv[j as int] != this@);
                }
                j += 1;
            }
            assert(this_attested == lv.contains(this@));
            nodes.push((this.clone(), this_attested));
            let ghost head = seq![(this@, this_attested)];
            assert(nodes.deep_view() =~= head + others_attested(lv.take(0), this@));
            let mut k: usize = 0;
            while k < listed.len()
                invariant
                    k <= listed.len(),
                    lv == listed.deep_view(),
                    nodes.deep_view() == head + others_attested(lv.take(k as int), this@),
                decreases listed.len() - k,
            {
                assert(lv.take(k + 1).drop_last() =~= lv.take(k as int));
                assert(lv.take(k + 1).last() == listed[k as int]@);
                let ghost prev = nodes.deep_view();
                let ghost rest = others_attested(lv.take(k as int), this@);
                assert(prev == head + rest);
                if !str_eq(listed[k].as_str(), this.as_str()) {
                    nodes.push((listed[k].clone(), true));
                    assert(nodes.deep_view() =~= prev.push((lv[k as int], true)));
                    assert(others_attested(lv.take(k + 1), this@) == rest.push((lv[k as int], true)));
                } else {
                    assert(others_attested(lv.take(k + 1), this@) == rest);
                }
                assert(nodes.deep_view() =~= head + others_attested(lv.take(k + 1), this@));
                k += 1;
            }
            assert(lv.take(listed.len() as int) =~= lv);
        },
    }
    AttestData { nodes }
}

/// Reads the attest facet's document
/// (`{ "this_node": "laptop", "attested_nodes": ["laptop", "server"] }`).
pub fn parse_attest_json(doc: &JsonValue) -> (data: AttestData)
    ensures
        data.nodes.deep_view() == attest_nodes(*doc),
        field_str(*doc, "this_node"@) is None ==> data.nodes.deep_view().len() == 0,
        field_str(*doc, "this_node"@) matches Some(this) ==> {
            &&& data.nodes.deep_view().len() >= 1
            &&& data.nodes.deep_view()[0].0 == this
            &&& field_array(*doc, "attested_nodes"@) is None ==> data.nodes.deep_view().len() == 1 && !data.nodes.deep_view()[0].1
            &&& field_array(*doc, "attested_nodes"@) matches Some(items) ==> {
                &&& data.nodes.deep_view()[0].1 == (exists|k: int| 0 <= k < items.len() && #[trigger] str_of(items[k]) == Some(this))
                &&& forall|j: int|
                    1 <= j < data.nodes.deep_view().len() ==> (#[trigger] data.nodes.deep_view()[j]).1 && data.nodes.deep_view()[j].0 != this && exists|k: int|
                        0 <= k < items.len() && #[trigger] str_of(items[k]) == Some(data.nodes.deep_view()[j].0)
                &&& forall|k: int|
                    0 <= k < items.len() && (#[trigger] str_of(items[k])) is Some && str_of(items[k])->0 != this
                        ==> exists|j: int| 1 <= j < data.nodes.deep_view().len() && data.nodes.deep_view()[j].0 == str_of(items[k])->0
            }
        },
{
    let data = read_attest(doc);
    proof {
        lemma_attest_facts(*doc);
    }
    data
}

// ---------------------------------------------------------------------------
// Facets: roster and converge
// ---------------------------------------------------------------------------

/// A count from JSON, capped at `u32::MAX`.
pub open spec fn capped(n: u64) -> u32 {
    if n > u32::MAX as u64 {
        u32::MAX
    } else {
        n as u32
    }
}

/// For each item, its string `node` and its `field` read as a count
/// (0 when absent or not a non-negative integer, capped at `u32::MAX`);
/// nothing if some item has no string `node`.
pub open spec fn named_counts(items: Seq<JsonValue>, field: Seq<char>) -> Option<
    Seq<(Seq<char>, u32)>,
>
    decreases items.len(),
{
    if items.len() == 0 {
        Some(seq![])
    } else {
        match named_counts(items.drop_last(), field) {
            None => None,
            Some(rest) => match field_str(items.last(), "node"@) {
                None => None,
                Some(name) => Some(
                    rest.push(
                        (
                            name,
                            capped(
                                match field_u64(items.last(), field) {
                                    Some(c) => c,
                                    None => 0,
                                },
                            ),
                        ),
                    ),
                ),
            },
        }
    }
}

/// What `named_counts` gives, item by item: nothing exactly when some item
/// has no string `node`; otherwise an entry per item, in order, with the
/// item's `node` and its count (0 when absent, capped at `u32::MAX`).
pub proof fn lemma_named_counts_items(items: Seq<JsonValue>, field: Seq<char>)
    ensures
        named_counts(items, field) is None <==> exists|k: int|
            0 <= k < items.len() && (#[trigger] field_str(items[k], "node"@)) is None,
        named_counts(items, field) matches Some(out) ==> {
            &&& out.len() == items.len()
            &&& forall|k: int|
                0 <= k < items.len() ==> field_str(items[k], "node"@) == Some((#[trigger] out[k]).0)
                    && out[k].1 == (match field_u64(items[k], field) {
                Some(c) => if c > 0xffff_ffffu64 {
                    0xffff_ffffu32
                } else {
                    c as u32
                },
                None => 0u32,
            })
        },
    decreases items.len(),
{
    if items.len() > 0 {
        let d = items.drop_last();
        lemma_named_counts_items(d, field);
        assert forall|k: int| 0 <= k < d.len() implies d[k] == items[k] by {}
        if exists|k: int| 0 <= k < d.len() && (#[trigger] field_str(d[k], "node"@)) is None {
            let k = choose|k: int| 0 <= k < d.len() && (#[trigger] field_str(d[k], "node"@)) is None;
            assert(field_str(items[k], "node"@) is None);
        }
        if exists|k: int| 0 <= k < items.len() && (#[trigger] field_str(items[k], "node"@)) is None {
            let k = choose|k: int| 0 <= k < items.len() && (#[trigger] field_str(items[k], "node"@)) is None;
            if k < d.len() {
                assert(field_str(d[k], "node"@) is None);
            } else {
                assert(items[k] == items.last());
            }
        }
        if named_counts(items, field) is Some {
            let out = named_counts(items, field)->0;
            let rest = named_counts(d, field)->0;
            assert forall|k: int| 0 <= k < items.len() implies field_str(items[k], "node"@) == Some(
                (#[trigger] out[k]).0,
            ) && out[k].1 == (match field_u64(items[k], field) {
                Some(c) => if c > 0xffff_ffffu64 {
                    0xffff_ffffu32
                } else {
                    c as u32
                },
                None => 0u32,
            }) by {
                if k < d.len() {
                    assert(out[k] == rest[k]);
                    assert(d[k] == items[k]);
                } else {
                    assert(items[k] == items.last());
                }
            }
        }
    }
}

proof fn lemma_named_counts_prefix(items: Seq<JsonValue>, field: Seq<char>, k: int)
    requires
        0 <= k <= items.len(),
        named_counts(items.take(k), field) is None,
    ensures
        named_counts(items, field) is None,
    decreases items.len(),
{
    if items.len() == k {
        assert(items.take(k) =~= items);
    } else {
        assert(items.drop_last().take(k) =~= items.take(k));
        lemma_named_counts_prefix(items.drop_last(), field, k);
    }
}

fn read_named_counts(items: &Vec<JsonValue>, field: &str) -> (r: Result<Vec<(String, u32)>, String>)
    ensures
        match r {
            Ok(v) => named_counts(items@, field@) == Some(v.deep_view()),
            Err(e) => named_counts(items@, field@) is None && e@ == "missing node.node"@,
        },
{
    let mut out: Vec<(String, u32)> = Vec::new();
    let mut i: usize = 0;
    while i < items.len()
        invariant
            i <= items.len(),
            named_counts(items@.take(i as int), field@) == Some(out.deep_view()),
        decreases items.len() - i,
    {
        let item = &items[i];
        assert(items@.take(i + 1).drop_last() =~= items@.take(i as int));
        assert(items@.take(i + 1).last() == *item);
        let name = match member_str(item, "node") {
            Some(s) => s,
            None => {
                proof {
                    lemma_named_counts_prefix(items@, field@, i + 1);
                }
                return Err("missing node.node".to_owned());
            },
        };
        let raw = match member_u64(item, field) {
            Some(c) => c,
            None => 0,
        };
        let count: u32 = if raw > u32::MAX as u64 {
            u32::MAX
        } else {
            raw as u32
        };
        out.push((name.clone(), count));
        assert(out.deep_view() =~= named_counts(items@.take(i + 1), field@).unwrap());
        i += 1;
    }
    assert(items@.take(items.len() as int) =~= items@);
    Ok(out)
}

/// The roster facet's session counts: those of the `nodes` array (none
/// without one); nothing if a node has no string `node`.
pub open spec fn roster_sessions(doc: JsonValue) -> Option<Seq<(Seq<char>, u32)>> {
    match field_array(doc, "nodes"@) {
        None => Some(seq![]),
        Some(items) => named_counts(items, "sessions"@),
    }
}

/// Reads the roster facet's document
/// (`{ "nodes": [{ "node": "laptop", "sessions": 3 }] }`).
pub fn parse_roster_json(doc: &JsonValue) -> (r: Result<RosterData, String>)
    ensures
        match r {
            Ok(data) => roster_sessions(*doc) == Some(data.sessions.deep_view()),
            Err(e) => roster_sessions(*doc) is None && e@ == "missing node.node"@,
        },
        match r {
            Ok(data) => match field_array(*doc, "nodes"@) {
                None => data.sessions.deep_view().len() == 0,
                Some(items) => data.sessions.deep_view().len() == items.len() && forall|k: int|
                    0 <= k < items.len() ==> field_str(items[k], "node"@) == Some(
                        (#[trigger] data.sessions.deep_view()[k]).0,
                    ) && data.sessions.deep_view()[k].1 == (match field_u64(items[k], "sessions"@) {
                Some(c) => if c > 0xffff_ffffu64 {
                    0xffff_ffffu32
                } else {
                    c as u32
                },
                None => 0u32,
            }),
            },
            Err(_) => field_array(*doc, "nodes"@) matches Some(items) && exists|k: int|
                0 <= k < items.len() && (#[trigger] field_str(items[k], "node"@)) is None,
        },
{
    proof {
        if let Some(items) = field_array(*doc, "nodes"@) {
            lemma_named_counts_items(items, "sessions"@);
        }
    }
    match member_array(doc, "nodes") {
        None => Ok(RosterData { sessions: Vec::new() }),
        Some(items) => match read_named_counts(items, "sessions") {
            Ok(sessions) => Ok(RosterData { sessions }),
            Err(e) => Err(e),
        },
    }
}

/// Whether the converge facet reports the fleet converged (false unless
/// `converged` is the boolean true).
pub open spec fn converge_flag(doc: JsonValue) -> bool {
    match field_bool(doc, "converged"@) {
        Some(b) => b,
        None => false,
    }
}

/// The converge facet's version lags: those of the `nodes` array (none
/// without one); nothing if a node has no string `node`.
pub open spec fn converge_lags(doc: JsonValue) -> Option<Seq<(Seq<char>, u32)>> {
    match field_array(doc, "nodes"@) {
        None => Some(seq![]),
        Some(items) => named_counts(items, "lag"@),
    }
}

/// The converge facet reports the fleet converged exactly when its
/// `converged` member is the boolean true.
pub proof fn lemma_converge_flag(doc: JsonValue)
    ensures
        converge_flag(doc) == (field_bool(doc, "converged"@) == Some(true)),
{
}

/// Reads the converge facet's document
/// (`{ "converged": true, "nodes": [{ "node": "laptop", "lag": 0 }] }`).
pub fn parse_converge_json(doc: &JsonValue) -> (r: Result<ConvergeData, String>)
    ensures
        match r {
            Ok(data) => data.converged == converge_flag(*doc) && converge_lags(*doc) == Some(
                data.version_lags.deep_view(),
            ),
            Err(e) => converge_lags(*doc) is None && e@ == "missing node.node"@,
        },
        r matches Ok(data) ==> data.converged == (field_bool(*doc, "converged"@) == Some(true)),
        match r {
            Ok(data) => match field_array(*doc, "nodes"@) {
                None => data.version_lags.deep_view().len() == 0,
                Some(items) => data.version_lags.deep_view().len() == items.len() && forall|k: int|
                    0 <= k < items.len() ==> field_str(items[k], "node"@) == Some(
                        (#[trigger] data.version_lags.deep_view()[k]).0,
                    ) && data.version_lags.deep_view()[k].1 == (match field_u64(items[k], "lag"@) {
                Some(c) => if c > 0xffff_ffffu64 {
                    0xffff_ffffu32
                } else {
                    c as u32
                },
                None => 0u32,
            }),
            },
            Err(_) => field_array(*doc, "nodes"@) matches Some(items) && exists|k: int|
                0 <= k < items.len() && (#[trigger] field_str(items[k], "node"@)) is None,
        },
{
    proof {
        if let Some(items) = field_array(*doc, "nodes"@) {
            lemma_named_counts_items(items, "lag"@);
        }
    }
    let converged = match member_bool(doc, "converged") {
        Some(b) => b,
        None => false,
    };
    match member_array(doc, "nodes") {
        None => Ok(ConvergeData { converged, version_lags: Vec::new() }),
        Some(items) => match read_named_counts(items, "lag") {
            Ok(version_lags) => Ok(ConvergeData { converged, version_lags }),
            Err(e) => Err(e),
        },
    }
}

// ---------------------------------------------------------------------------
// Facet: arbiter
// ---------------------------------------------------------------------------

/// The leases of the items: each with its string `key`, its string
/// `holder` (`unknown` when absent) and its string `expires`, if any;
/// nothing if some item has no string `key`.
pub open spec fn lease_entries(items: Seq<JsonValue>) -> Option<Seq<LeaseView>>
    decreases items.len(),
{
    if items.len() == 0 {
        Some(seq![])
    } else {
        match lease_entries(items.drop_last()) {
            None => None,
            Some(rest) => match field_str(items.last(), "key"@) {
                None => None,
                Some(key) => Some(
                    rest.push(
                        LeaseView {
                            key,
                            holder: match field_str(items.last(), "holder"@) {
                                Some(h) => h,
                                None => "unknown"@,
                            },
                            expires: field_str(items.last(), "expires"@),
                        },
                    ),
                ),
            },
        }
    }
}

/// What `lease_entries` gives, item by item: nothing exactly when some item
/// has no string `key`; otherwise a lease per item, in order, with its key,
/// its holder (`unknown` when absent) and its expiry, if a string.
pub proof fn lemma_lease_entries_items(items: Seq<JsonValue>)
    ensures
        lease_entries(items) is None <==> exists|k: int|
            0 <= k < items.len() && (#[trigger] field_str(items[k], "key"@)) is None,
        lease_entries(items) matches Some(out) ==> {
            &&& out.len() == items.len()
            &&& forall|k: int| 0 <= k < items.len() ==> field_str(items[k], "key"@) == Some((#[trigger] out[k]).key) && out[k].holder == (match field_str(items[k], "holder"@) {
                Some(h) => h,
                None => "unknown"@,
            }) && out[k].expires == field_str(items[k], "expires"@)
        },
    decreases items.len(),
{
    if items.len() > 0 {
        let d = items.drop_last();
        lemma_lease_entries_items(d);
        assert forall|k: int| 0 <= k < d.len() implies d[k] == items[k] by {}
        if exists|k: int| 0 <= k < d.len() && (#[trigger] field_str(d[k], "key"@)) is None {
            let k = choose|k: int| 0 <= k < d.len() && (#[trigger] field_str(d[k], "key"@)) is None;
            assert(field_str(items[k], "key"@) is None);
        }
        if exists|k: int| 0 <= k < items.len() && (#[trigger] field_str(items[k], "key"@)) is None {
            let k = choose|k: int| 0 <= k < items.len() && (#[trigger] field_str(items[k], "key"@)) is None;
            if k < d.len() {
                assert(field_str(d[k], "key"@) is None);
            } else {
                assert(items[k] == items.last());
            }
        }
        if lease_entries(items) is Some {
            let out = lease_entries(items)->0;
            let rest = lease_entries(d)->0;
            assert forall|k: int| 0 <= k < items.len() implies field_str(items[k], "key"@) == Some((#[trigger] out[k]).key) && out[k].holder == (match field_str(items[k], "holder"@) {
                Some(h) => h,
                None => "unknown"@,
            }) && out[k].expires == field_str(items[k], "expires"@) by {
                if k < d.len() {
                    assert(out[k] == rest[k]);
                    assert(d[k] == items[k]);
                } else {
                    assert(items[k] == items.last());
                }
            }
        }
    }
}

proof fn lemma_lease_entries_prefix(items: Seq<JsonValue>, k: int)
    requires
        0 <= k <= items.len(),
        lease_entries(items.take(k)) is None,
    ensures
        lease_entries(items) is None,
    decreases items.len(),
{
    if items.len() == k {
        assert(items.take(k) =~= items);
    } else {
        assert(items.drop_last().take(k) =~= items.take(k));
        lemma_lease_entries_prefix(items.drop_last(), k);
    }
}

/// The arbiter facet's leases: those of the `leases` array (none without
/// one); nothing if a lease has no string `key`.
pub open spec fn arbiter_leases(doc: JsonValue) -> Option<Seq<LeaseView>> {
    match field_array(doc, "leases"@) {
        None => Some(seq![]),
        Some(items) => lease_entries(items),
    }
}

/// Reads the arbiter facet's document
/// (`{ "leases": [{ "key": "lock/build", "holder": "laptop", "expires": "..." }] }`).
pub fn parse_arbiter_json(doc: &JsonValue) -> (r: Result<ArbiterData, String>)
    ensures
        match r {
            Ok(data) => arbiter_leases(*doc) == Some(data.leases.deep_view()),
            Err(e) => arbiter_leases(*doc) is None && e@ == "missing lease.key"@,
        },
        match r {
            Ok(data) => match field_array(*doc, "leases"@) {
                None => data.leases.deep_view().len() == 0,
                Some(items) => data.leases.deep_view().len() == items.len() && forall|k: int|
                    0 <= k < items.len() ==> field_str(items[k], "key"@) == Some((#[trigger] data.leases.deep_view()[k]).key) && data.leases.deep_view()[k].holder == (match field_str(items[k], "holder"@) {
                Some(h) => h,
                None => "unknown"@,
            }) && data.leases.deep_view()[k].expires == field_str(items[k], "expires"@),
            },
            Err(_) => field_array(*doc, "leases"@) matches Some(items) && exists|k: int|
                0 <= k < items.len() && (#[trigger] field_str(items[k], "key"@)) is None,
        },
{
    proof {
        if let Some(items) = field_array(*doc, "leases"@) {
            lemma_lease_entries_items(items);
        }
    }
    let mut leases: Vec<LeaseInfo> = Vec::new();
    match member_array(doc, "leases") {
        None => {},
        Some(items) => {
            let mut i: usize = 0;
            while i < items.len()
                invariant
                    i <= items.len(),
                    field_array(*doc, "leases"@) == Some(items@),
                    lease_entries(items@.take(i as int)) == Some(leases.deep_view()),
                decreases items.len() - i,
            {
                let item = &items[i];
                assert(items@.take(i + 1).drop_last() =~= items@.take(i as int));
                assert(items@.take(i + 1).last() == *item);
                let key = match member_str(item, "key") {
                    Some(s) => s.clone(),
                    None => {
                        proof {
                            lemma_lease_entries_prefix(items@, i + 1);
                        }
                        return Err("missing lease.key".to_owned());
                    },
                };
                let holder = match member_str(item, "holder") {
                    Some(s) => s.clone(),
                    None => "unknown".to_owned(),
                };
                let expires = match member_str(item, "expires") {
                    Some(s) => Some(s.clone()),
                    None => None,
                };
                leases.push(LeaseInfo { key, holder, expires });
                assert(leases.deep_view() =~= lease_entries(items@.take(i + 1)).unwrap());
                i += 1;
            }
            assert(items@.take(items.len() as int) =~= items@);
        },
    }
    Ok(ArbiterData { leases })
}

// ---------------------------------------------------------------------------
// Facet: tether
// ---------------------------------------------------------------------------

/// The links of the items: each with its string `node`, `up` (false unless
/// the boolean true) and `rtt_ms`, if a number; nothing if some item has no
/// string `node`.
pub open spec fn link_entries(items: Seq<JsonValue>) -> Option<Seq<(Seq<char>, LinkView)>>
    decreases items.len(),
{
    if items.len() == 0 {
        Some(seq![])
    } else {
        match link_entries(items.drop_last()) {
            None => None,
            Some(rest) => match field_str(items.last(), "node"@) {
                None => None,
                Some(node) => Some(
                    rest.push(
                        (
                            node,
                            LinkView {
                                up: match field_bool(items.last(), "up"@) {
                                    Some(b) => b,
                                    None => false,
                                },
                                rtt_ms: field_float(items.last(), "rtt_ms"@),
                            },
                        ),
                    ),
                ),
            },
        }
    }
}

/// What `link_entries` gives, item by item: nothing exactly when some item
/// has no string `node`; otherwise a link per item, in order, with its node,
/// `up` exactly when the member is the boolean true, and `rtt_ms` when a number.
pub proof fn lemma_link_entries_items(items: Seq<JsonValue>)
    ensures
        link_entries(items) is None <==> exists|k: int|
            0 <= k < items.len() && (#[trigger] field_str(items[k], "node"@)) is None,
        link_entries(items) matches Some(out) ==> {
            &&& out.len() == items.len()
            &&& forall|k: int| 0 <= k < items.len() ==> field_str(items[k], "node"@) == Some((#[trigger] out[k]).0) && out[k].1.up == (field_bool(items[k], "up"@) == Some(true)) && out[k].1.rtt_ms == field_float(items[k], "rtt_ms"@)
        },
    decreases items.len(),
{
    if items.len() > 0 {
        let d = items.drop_last();
        lemma_link_entries_items(d);
        assert forall|k: int| 0 <= k < d.len() implies d[k] == items[k] by {}
        if exists|k: int| 0 <= k < d.len() && (#[trigger] field_str(d[k], "node"@)) is None {
            let k = choose|k: int| 0 <= k < d.len() && (#[trigger] field_str(d[k], "node"@)) is None;
            assert(field_str(items[k], "node"@) is None);
        }
        if exists|k: int| 0 <= k < items.len() && (#[trigger] field_str(items[k], "node"@)) is None {
            let k = choose|k: int| 0 <= k < items.len() && (#[trigger] field_str(items[k], "node"@)) is None;
            if k < d.len() {
                assert(field_str(d[k], "node"@) is None);
            } else {
                assert(items[k] == items.last());
            }
        }
        if link_entries(items) is Some {
            let out = link_entries(items)->0;
            let rest = link_entries(d)->0;
            assert forall|k: int| 0 <= k < items.len() implies field_str(items[k], "node"@) == Some((#[trigger] out[k]).0) && out[k].1.up == (field_bool(items[k], "up"@) == Some(true)) && out[k].1.rtt_ms == field_float(items[k], "rtt_ms"@) by {
                if k < d.len() {
                    assert(out[k] == rest[k]);
                    assert(d[k] == items[k]);
                } else {
                    assert(items[k] == items.last());
                }
            }
        }
    }
}

proof fn lemma_link_entries_prefix(items: Seq<JsonValue>, k: int)
    requires
        0 <= k <= items.len(),
        link_entries(items.take(k)) is None,
    ensures
        link_entries(items) is None,
    decreases items.len(),
{
    if items.len() == k {
        assert(items.take(k) =~= items);
    } else {
        assert(items.drop_last().take(k) =~= items.take(k));
        lemma_link_entries_prefix(items.drop_last(), k);
    }
}

/// The tether facet's links: those of the `links` array (none without one);
/// nothing if a link has no string `node`.
pub open spec fn tether_links(doc: JsonValue) -> Option<Seq<(Seq<char>, LinkView)>> {
    match field_array(doc, "links"@) {
        None => Some(seq![]),
        Some(items) => link_entries(items),
    }
}

/// Reads the tether facet's document
/// (`{ "links": [{ "node": "server", "up": true, "rtt_ms": 12.4 }] }`).
pub fn parse_tether_json(doc: &JsonValue) -> (r: Result<TetherData, String>)
    ensures
        match r {
            Ok(data) => tether_links(*doc) == Some(data.links.deep_view()),
            Err(e) => tether_links(*doc) is None && e@ == "missing link.node"@,
        },
        match r {
            Ok(data) => match field_array(*doc, "links"@) {
                None => data.links.deep_view().len() == 0,
                Some(items) => data.links.deep_view().len() == items.len() && forall|k: int|
                    0 <= k < items.len() ==> field_str(items[k], "node"@) == Some((#[trigger] data.links.deep_view()[k]).0) && data.links.deep_view()[k].1.up == (field_bool(items[k], "up"@) == Some(true)) && data.links.deep_view()[k].1.rtt_ms == field_float(items[k], "rtt_ms"@),
            },
            Err(_) => field_array(*doc, "links"@) matches Some(items) && exists|k: int|
                0 <= k < items.len() && (#[trigger] field_str(items[k], "node"@)) is None,
        },
{
    proof {
        if let Some(items) = field_array(*doc, "links"@) {
            lemma_link_entries_items(items);
        }
    }
    let mut links: Vec<(String, LinkInfo)> = Vec::new();
    match member_array(doc, "links") {
        None => {},
        Some(items) => {
            let mut i: usize = 0;
            while i < items.len()
                invariant
                    i <= items.len(),
                    field_array(*doc, "links"@) == Some(items@),
                    link_entries(items@.take(i as int)) == Some(links.deep_view()),
                decreases items.len() - i,
            {
                let item = &items[i];
                assert(items@.take(i + 1).drop_last() =~= items@.take(i as int));
                assert(items@.take(i + 1).last() == *item);
                let node = match member_str(item, "node") {
                    Some(s) => s.clone(),
                    None => {
                        proof {
                            lemma_link_entries_prefix(items@, i + 1);
                        }
                        return Err("missing link.node".to_owned());
                    },
                };
                let up = match member_bool(item, "up") {
                    Some(b) => b,
                    None => false,
                };
                let rtt_ms = match member_float(item, "rtt_ms") {
                    Some(f) => Some(f.duplicate()),
                    None => None,
                };
                links.push((node, LinkInfo { up, rtt_ms }));
                assert(links.deep_view() =~= link_entries(items@.take(i + 1)).unwrap());
                i += 1;
            }
            assert(items@.take(items.len() as int) =~= items@);
        },
    }
    Ok(TetherData { links })
}

// ---------------------------------------------------------------------------
// Collecting each facet
// ---------------------------------------------------------------------------

/// Reads the attest facet's reply and records the facet's status: `ok` with
/// the document's nodes; `error` with no nodes and the message when the
/// output was not JSON; the CLI failure's status with no nodes otherwise.
/// The second result is the message to report, if any.
pub fn collect_attest(reply: FacetReply, status: &mut Vec<(String, FacetStatus)>) -> (r: (
    AttestData,
    Option<String>,
))
    ensures
        match reply {
            Err(e) => r.0.nodes@.len() == 0 && r.1 is None && final(status).deep_view()
                == status_insert(old(status).deep_view(), "attest"@, cli_status(e)),
            Ok(Err(m)) => r.0.nodes@.len() == 0 && r.1.deep_view() == Some(m@)
                && final(status).deep_view() == status_insert(
                old(status).deep_view(),
                "attest"@,
                FacetStatus::Error,
            ),
            Ok(Ok(doc)) => r.0.nodes.deep_view() == attest_nodes(doc) && r.1 is None
                && final(status).deep_view() == status_insert(
                old(status).deep_view(),
                "attest"@,
                FacetStatus::Collected,
            ),
        },
{
    match reply {
        Ok(Ok(doc)) => {
            let data = parse_attest_json(&doc);
            insert_status(status, "attest", FacetStatus::Collected);
            (data, None)
        },
        Ok(Err(m)) => {
            insert_status(status, "attest", FacetStatus::Error);
            (AttestData { nodes: Vec::new() }, Some(m))
        },
        Err(e) => {
            insert_status(status, "attest", e.to_facet_status());
            (AttestData { nodes: Vec::new() }, None)
        },
    }
}

/// Reads the roster facet's reply and records the facet's status: `ok` with
/// the document's session counts; `error` with none and the message when the
/// output was not JSON or a node has no name; the CLI failure's status with
/// none otherwise. The second result is the message to report, if any.
pub fn collect_roster(reply: FacetReply, status: &mut Vec<(String, FacetStatus)>) -> (r: (
    RosterData,
    Option<String>,
))
    ensures
        match reply {
            Err(e) => r.0.sessions@.len() == 0 && r.1 is None && final(status).deep_view()
                == status_insert(old(status).deep_view(), "roster"@, cli_status(e)),
            Ok(Err(m)) => r.0.sessions@.len() == 0 && r.1.deep_view() == Some(m@)
                && final(status).deep_view() == status_insert(
                old(status).deep_view(),
                "roster"@,
                FacetStatus::Error,
            ),
            Ok(Ok(doc)) => match roster_sessions(doc) {
                Some(s) => r.0.sessions.deep_view() == s && r.1 is None
                    && final(status).deep_view() == status_insert(
                    old(status).deep_view(),
                    "roster"@,
                    FacetStatus::Collected,
                ),
                None => r.0.sessions@.len() == 0 && r.1.deep_view() == Some(
                    "missing node.node"@,
                ) && final(status).deep_view() == status_insert(
                    old(status).deep_view(),
                    "roster"@,
                    FacetStatus::Error,
                ),
            },
        },
{
    match reply {
        Ok(Ok(doc)) => match parse_roster_json(&doc) {
            Ok(data) => {
                insert_status(status, "roster", FacetStatus::Collected);
                (data, None)
            },
            Err(m) => {
                insert_status(status, "roster", FacetStatus::Error);
                (RosterData { sessions: Vec::new() }, Some(m))
            },
        },
        Ok(Err(m)) => {
            insert_status(status, "roster", FacetStatus::Error);
            (RosterData { sessions: Vec::new() }, Some(m))
        },
        Err(e) => {
            insert_status(status, "roster", e.to_facet_status());
            (RosterData { sessions: Vec::new() }, None)
        },
    }
}

/// Reads the converge facet's reply and records the facet's status: `ok`
/// with the document's verdict and lags; `error`, not converged, no lags and
/// the message when the output was not JSON or a node has no name; the CLI
/// failure's status, not converged and no lags otherwise. The second result
/// is the message to report, if any.
pub fn collect_converge(reply: FacetReply, status: &mut Vec<(String, FacetStatus)>) -> (r: (
    ConvergeData,
    Option<String>,
))
    ensures
        match reply {
            Err(e) => !r.0.converged && r.0.version_lags@.len() == 0 && r.1 is None
                && final(status).deep_view() == status_insert(
                old(status).deep_view(),
                "converge"@,
                cli_status(e),
            ),
            Ok(Err(m)) => !r.0.converged && r.0.version_lags@.len() == 0 && r.1.deep_view()
                == Some(m@) && final(status).deep_view() == status_insert(
                old(status).deep_view(),
                "converge"@,
                FacetStatus::Error,
            ),
            Ok(Ok(doc)) => match converge_lags(doc) {
                Some(lags) => r.0.converged == converge_flag(doc) && r.0.version_lags.deep_view()
                    == lags && r.1 is None && final(status).deep_view() == status_insert(
                    old(status).deep_view(),
                    "converge"@,
                    FacetStatus::Collected,
                ),
                None => !r.0.converged && r.0.version_lags@.len() == 0 && r.1.deep_view()
                    == Some("missing node.node"@) && final(status).deep_view() == status_insert(
                    old(status).deep_view(),
                    "converge"@,
                    FacetStatus::Error,
                ),
            },
        },        r.1 is Some ==> !r.0.converged,
        reply matches Ok(Ok(doc)) ==> (r.1 is None ==> r.0.converged == (field_bool(
            doc,
            "converged"@,
        ) == Some(true))),
{
    match reply {
        Ok(Ok(doc)) => match parse_converge_json(&doc) {
            Ok(data) => {
                insert_status(status, "converge", FacetStatus::Collected);
                (data, None)
            },
            Err(m) => {
                insert_status(status, "converge", FacetStatus::Error);
                (ConvergeData { converged: false, version_lags: Vec::new() }, Some(m))
            },
        },
        Ok(Err(m)) => {
            insert_status(status, "converge", FacetStatus::Error);
            (ConvergeData { converged: false, version_lags: Vec::new() }, Some(m))
        },
        Err(e) => {
            insert_status(status, "converge", e.to_facet_status());
            (ConvergeData { converged: false, version_lags: Vec::new() }, None)
        },
    }
}

/// Reads the arbiter facet's reply and records the facet's status: `ok`
/// with the document's leases; `error` with none and the message when the
/// output was not JSON or a lease has no key; the CLI failure's status with
/// none otherwise. The second result is the message to report, if any.
pub fn collect_arbiter(reply: FacetReply, status: &mut Vec<(String, FacetStatus)>) -> (r: (
    ArbiterData,
    Option<String>,
))
    ensures
        match reply {
            Err(e) => r.0.leases@.len() == 0 && r.1 is None && final(status).deep_view()
                == status_insert(old(status).deep_view(), "arbiter"@, cli_status(e)),
            Ok(Err(m)) => r.0.leases@.len() == 0 && r.1.deep_view() == Some(m@)
                && final(status).deep_view() == status_insert(
                old(status).deep_view(),
                "arbiter"@,
                FacetStatus::Error,
            ),
            Ok(Ok(doc)) => match arbiter_leases(doc) {
                Some(l) => r.0.leases.deep_view() == l && r.1 is None
                    && final(status).deep_view() == status_insert(
                    old(status).deep_view(),
                    "arbiter"@,
                    FacetStatus::Collected,
                ),
                None => r.0.leases@.len() == 0 && r.1.deep_view() == Some("missing lease.key"@)
                    && final(status).deep_view() == status_insert(
                    old(status).deep_view(),
                    "arbiter"@,
                    FacetStatus::Error,
                ),
            },
        },
{
    match reply {
        Ok(Ok(doc)) => match parse_arbiter_json(&doc) {
            Ok(data) => {
                insert_status(status, "arbiter", FacetStatus::Collected);
                (data, None)
            },
            Err(m) => {
                insert_status(status, "arbiter", FacetStatus::Error);
                (ArbiterData { leases: Vec::new() }, Some(m))
            },
        },
        Ok(Err(m)) => {
            insert_status(status, "arbiter", FacetStatus::Error);
            (ArbiterData { leases: Vec::new() }, Some(m))
        },
        Err(e) => {
            insert_status(status, "arbiter", e.to_facet_status());
            (ArbiterData { leases: Vec::new() }, None)
        },
    }
}

/// Reads the tether facet's reply and records the facet's status: `ok`
/// with the document's links; `error` with none and the message when the
/// output was not JSON or a link has no node; the CLI failure's status with
/// none otherwise. The second result is the message to report, if any.
pub fn collect_tether(reply: FacetReply, status: &mut Vec<(String, FacetStatus)>) -> (r: (
    TetherData,
    Option<String>,
))
    ensures
        match reply {
            Err(e) => r.0.links@.len() == 0 && r.1 is None && final(status).deep_view()
                == status_insert(old(status).deep_view(), "tether"@, cli_status(e)),
            Ok(Err(m)) => r.0.links@.len() == 0 && r.1.deep_view() == Some(m@)
                && final(status).deep_view() == status_insert(
                old(status).deep_view(),
                "tether"@,
                FacetStatus::Error,
            ),
            Ok(Ok(doc)) => match tether_links(doc) {
                Some(l) => r.0.links.deep_view() == l && r.1 is None
                    && final(status).deep_view() == status_insert(
                    old(status).deep_view(),
                    "tether"@,
                    FacetStatus::Collected,
                ),
                None => r.0.links@.len() == 0 && r.1.deep_view() == Some("missing link.node"@)
                    && final(status).deep_view() == status_insert(
                    old(status).deep_view(),
                    "tether"@,
                    FacetStatus::Error,
                ),
            },
        },
{
    match reply {
        Ok(Ok(doc)) => match parse_tether_json(&doc) {
            Ok(data) => {
                insert_status(status, "tether", FacetStatus::Collected);
                (data, None)
            },
            Err(m) => {
                insert_status(status, "tether", FacetStatus::Error);
                (TetherData { links: Vec::new() }, Some(m))
            },
        },
        Ok(Err(m)) => {
            insert_status(status, "tether", FacetStatus::Error);
            (TetherData { links: Vec::new() }, Some(m))
        },
        Err(e) => {
            insert_status(status, "tether", e.to_facet_status());
            (TetherData { links: Vec::new() }, None)
        },
    }
}

} // verus!
