//! Laying the `WholeSelf` out as the human-readable self-portrait and as the
//! self-review block, line by line.

use vstd::prelude::*;

use crate::model::{
    FacetStatus, LeaseInfo, LeaseView, LinkInfo, LinkView, NodeInfo, NodeView, WholeSelf,
    WholeSelfView,
};
use crate::text::{decimal, push_decimal};

verus! {

/// `attested` or `unattested`.
pub open spec fn attest_text(attested: bool) -> Seq<char> {
    if attested {
        "attested"@
    } else {
        "unattested"@
    }
}

/// The link part of a node line: `up (<rtt>ms)`, `up`, `down` or `link-unknown`.
pub open spec fn link_text(link: Option<LinkView>) -> Seq<char> {
    match link {
        Some(l) => if l.up {
            match l.rtt_ms {
                Some(r) => "up ("@ + r.one_decimal + "ms)"@,
                None => "up"@,
            }
        } else {
            "down"@
        },
        None => "link-unknown"@,
    }
}

/// The session part of a node line: `<n> sessions` or `sessions-unknown`.
pub open spec fn sessions_text(sessions: Option<u32>) -> Seq<char> {
    match sessions {
        Some(n) => decimal(n as nat) + " sessions"@,
        None => "sessions-unknown"@,
    }
}

/// The memory part of a node line: `current`, `<n> commits behind` or
/// `version-unknown`.
pub open spec fn lag_text(lag: Option<u32>) -> Seq<char> {
    match lag {
        Some(n) => if n == 0 {
            "current"@
        } else {
            decimal(n as nat) + " commits behind"@
        },
        None => "version-unknown"@,
    }
}

/// The text line of a node.
pub open spec fn node_line(n: NodeView) -> Seq<char> {
    "  "@ + n.node + ": ["@ + attest_text(n.attested) + "] link="@ + link_text(n.link) + " "@
        + sessions_text(n.sessions) + " mem="@ + lag_text(n.version_lag)
}

/// The text line of a lease.
pub open spec fn lease_line(l: LeaseView) -> Seq<char> {
    "  "@ + l.key + " held by "@ + l.holder + " (expires: "@ + match l.expires {
        Some(e) => e,
        None => "no-expiry"@,
    } + ")"@
}

/// Why a facet is listed among the degraded ones.
pub open spec fn reason_text(s: FacetStatus) -> Seq<char> {
    match s {
        FacetStatus::Degraded => "not installed"@,
        FacetStatus::Error => "error querying"@,
        FacetStatus::Unknown => "unknown"@,
        FacetStatus::Collected => "ok"@,
    }
}

/// A line for each facet whose status is not `ok`, in table order.
pub open spec fn degraded_lines(table: Seq<(Seq<char>, FacetStatus)>) -> Seq<Seq<char>>
    decreases table.len(),
{
    if table.len() == 0 {
        seq![]
    } else {
        let rest = degraded_lines(table.drop_last());
        if table.last().1 != FacetStatus::Collected {
            rest.push("  "@ + table.last().0 + ": "@ + reason_text(table.last().1))
        } else {
            rest
        }
    }
}

/// The number of facets whose status is not `ok`.
pub open spec fn not_ok_count(table: Seq<(Seq<char>, FacetStatus)>) -> nat
    decreases table.len(),
{
    if table.len() == 0 {
        0
    } else {
        not_ok_count(table.drop_last()) + if table.last().1 != FacetStatus::Collected {
            1nat
        } else {
            0nat
        }
    }
}

/// The header lines of the self-portrait.
pub open spec fn text_header(w: WholeSelfView) -> Seq<Seq<char>> {
    seq![
        "=== Wintermute Self-Portrait ("@ + w.generated_ts + ") ==="@,
        "Nodes: "@ + decimal(w.nodes.len()) + " | Memory: "@ + (if w.converged {
            "converged"@
        } else {
            "NOT converged"@
        }) + " | Leases: "@ + decimal(w.leases.len()),
        Seq::<char>::empty(),
    ]
}

/// The lease section: a blank line, `Leases:` and a line per lease, when
/// there are leases.
pub open spec fn lease_section(w: WholeSelfView) -> Seq<Seq<char>> {
    if w.leases.len() > 0 {
        seq![Seq::<char>::empty(), "Leases:"@] + w.leases.map_values(|l: LeaseView| lease_line(l))
    } else {
        seq![]
    }
}

/// The degraded section: a blank line, `Degraded facets:` and a line per
/// facet that is not `ok`, when there is one.
pub open spec fn degraded_section(w: WholeSelfView) -> Seq<Seq<char>> {
    if degraded_lines(w.facet_status).len() > 0 {
        seq![Seq::<char>::empty(), "Degraded facets:"@] + degraded_lines(w.facet_status)
    } else {
        seq![]
    }
}

/// The lines of the human-readable self-portrait.
pub open spec fn text_lines(w: WholeSelfView) -> Seq<Seq<char>> {
    text_header(w) + w.nodes.map_values(|n: NodeView| node_line(n)) + lease_section(w)
        + degraded_section(w)
}

/// The self-review line of a node.
pub open spec fn review_node_line(n: NodeView) -> Seq<char> {
    "node: "@ + n.node + " status="@ + attest_text(n.attested)
}

/// The self-review line of a lease.
pub open spec fn review_lease_line(l: LeaseView) -> Seq<char> {
    "lease: "@ + l.key + " holder="@ + l.holder
}

/// The lines of the self-review block.
pub open spec fn selfreview_lines(w: WholeSelfView) -> Seq<Seq<char>> {
    seq![
        "## corpus-introspect selfreview"@,
        "generated_ts: "@ + w.generated_ts,
        "node_count: "@ + decimal(w.nodes.len()),
        "converged: "@ + (if w.converged {
            "yes"@
        } else {
            "no"@
        }),
        "lease_count: "@ + decimal(w.leases.len()),
    ] + w.nodes.map_values(|n: NodeView| review_node_line(n)) + w.leases.map_values(
        |l: LeaseView|
            review_lease_line(l),
    ) + (if not_ok_count(w.facet_status) > 0 {
        seq!["degraded_facets: "@ + decimal(not_ok_count(w.facet_status))]
    } else {
        seq![]
    })
}

// ---------------------------------------------------------------------------
// Building the lines
// ---------------------------------------------------------------------------

fn attest_str(attested: bool) -> (s: &'static str)
    ensures
        s@ == attest_text(attested),
{
    if attested {
        "attested"
    } else {
        "unattested"
    }
}

fn append_link(line: &mut String, link: &Option<LinkInfo>)
    ensures
        final(line)@ == old(line)@ + link_text(link.deep_view()),
{
    match link {
        Some(l) => {
            if l.up {
                match &l.rtt_ms {
                    Some(r) => {
                        line.append("up (");
                        line.append(r.one_decimal.as_str());
                        line.append("ms)");
                    },
                    None => {
                        line.append("up");
                    },
                }
            } else {
                line.append("down");
            }
        },
        None => {
            line.append("link-unknown");
        },
    }
    assert(final(line)@ =~= old(line)@ + link_text(link.deep_view()));
}

fn append_sessions(line: &mut String, sessions: Option<u32>)
    ensures
        final(line)@ == old(line)@ + sessions_text(sessions),
{
    match sessions {
        Some(n) => {
            push_decimal(line, n as u64);
            line.append(" sessions");
        },
        None => {
            line.append("sessions-unknown");
        },
    }
    assert(final(line)@ =~= old(line)@ + sessions_text(sessions));
}

fn append_lag(line: &mut String, lag: Option<u32>)
    ensures
        final(line)@ == old(line)@ + lag_text(lag),
{
    match lag {
        Some(n) => {
            if n == 0 {
                line.append("current");
            } else {
                push_decimal(line, n as u64);
                line.append(" commits behind");
            }
        },
        None => {
            line.append("version-unknown");
        },
    }
    assert(final(line)@ =~= old(line)@ + lag_text(lag));
}

/// The text line of a node.
pub fn render_node_line(node: &NodeInfo) -> (line: String)
    ensures
        line@ == node_line(node@),
{
    let mut line = "  ".to_owned();
    line.append(node.node.as_str());
    line.append(": [");
    line.append(attest_str(node.attested));
    line.append("] link=");
    append_link(&mut line, &node.link);
    line.append(" ");
    append_sessions(&mut line, node.sessions);
    line.append(" mem=");
    append_lag(&mut line, node.version_lag);
    line
}

/// The text line of a lease.
pub fn render_lease_line(lease: &LeaseInfo) -> (line: String)
    ensures
        line@ == lease_line(lease@),
{
    let mut line = "  ".to_owned();
    line.append(lease.key.as_str());
    line.append(" held by ");
    line.append(lease.holder.as_str());
    line.append(" (expires: ");
    match &lease.expires {
        Some(e) => line.append(e.as_str()),
        None => line.append("no-expiry"),
    }
    line.append(")");
    line
}

fn reason_str(s: FacetStatus) -> (r: &'static str)
    ensures
        r@ == reason_text(s),
{
    match s {
        FacetStatus::Degraded => "not installed",
        FacetStatus::Error => "error querying",
        FacetStatus::Unknown => "unknown",
        FacetStatus::Collected => "ok",
    }
}

fn push_degraded_lines(lines: &mut Vec<String>, table: &Vec<(String, FacetStatus)>)
    ensures
        final(lines).deep_view() == old(lines).deep_view() + degraded_lines(table.deep_view()),
{
    let ghost start = lines.deep_view();
    let ghost tv = table.deep_view();
    let mut i: usize = 0;
    while i < table.len()
        invariant
            i <= table.len(),
            tv == table.deep_view(),
            lines.deep_view() == start + degraded_lines(tv.take(i as int)),
        decreases table.len() - i,
    {
        let ghost prev = lines.deep_view();
        assert(tv.take(i + 1).drop_last() =~= tv.take(i as int));
        assert(tv.take(i + 1).last() == tv[i as int]);
        assert(tv[i as int].0 == table@[i as int].0@);
        let status = table[i].1;
        if status != FacetStatus::Collected {
            let mut line = "  ".to_owned();
            line.append(table[i].0.as_str());
            line.append(": ");
            line.append(reason_str(status));
            lines.push(line);
            assert(lines.deep_view() =~= prev.push(line@));
        }
        assert(lines.deep_view() =~= start + degraded_lines(tv.take(i + 1)));
        i += 1;
    }
    assert(tv.take(table.len() as int) =~= tv);
}

fn count_not_ok(table: &Vec<(String, FacetStatus)>) -> (n: u64)
    ensures
        n == not_ok_count(table.deep_view()),
{
    let ghost tv = table.deep_view();
    let mut n: u64 = 0;
    let mut i: usize = 0;
    while i < table.len()
        invariant
            i <= table.len(),
            tv == table.deep_view(),
            n == not_ok_count(tv.take(i as int)),
            n <= i,
        decreases table.len() - i,
    {
        assert(tv.take(i + 1).drop_last() =~= tv.take(i as int));
        assert(tv.take(i + 1).last() == tv[i as int]);
        if table[i].1 != FacetStatus::Collected {
            n += 1;
        }
        i += 1;
    }
    assert(tv.take(table.len() as int) =~= tv);
    n
}

/// Every facet that is not `ok` has its line among the degraded lines.
pub proof fn lemma_degraded_lines_cover(table: Seq<(Seq<char>, FacetStatus)>)
    ensures
        forall|k: int|
            0 <= k < table.len() && (#[trigger] table[k]).1 != FacetStatus::Collected
                ==> degraded_lines(table).contains(
                "  "@ + table[k].0 + ": "@ + reason_text(table[k].1),
            ),
    decreases table.len(),
{
    if table.len() > 0 {
        let d = table.drop_last();
        lemma_degraded_lines_cover(d);
        let rest = degraded_lines(d);
        let all = degraded_lines(table);
        let last_line = "  "@ + table.last().0 + ": "@ + reason_text(table.last().1);
        assert(all == if table.last().1 != FacetStatus::Collected {
            rest.push(last_line)
        } else {
            rest
        });
        assert forall|k: int|
            0 <= k < table.len() && (#[trigger] table[k]).1 != FacetStatus::Collected implies all.contains(
                "  "@ + table[k].0 + ": "@ + reason_text(table[k].1),
            ) by {
            let line = "  "@ + table[k].0 + ": "@ + reason_text(table[k].1);
            if k < d.len() {
                assert(d[k] == table[k]);
                assert(rest.contains(line));
                let m = choose|m: int| 0 <= m < rest.len() && rest[m] == line;
                assert(all[m] == line);
            } else {
                assert(table[k] == table.last());
                assert(all[all.len() - 1] == line);
            }
        }
    }
}

/// Every degraded line is the line of a facet that is not `ok`.
pub proof fn lemma_degraded_line_source(table: Seq<(Seq<char>, FacetStatus)>, l: int)
    requires
        0 <= l < degraded_lines(table).len(),
    ensures
        exists|k: int|
            0 <= k < table.len() && (#[trigger] table[k]).1 != FacetStatus::Collected
                && degraded_lines(table)[l] == "  "@ + table[k].0 + ": "@ + reason_text(table[k].1),
    decreases table.len(),
{
    let d = table.drop_last();
    let rest = degraded_lines(d);
    let all = degraded_lines(table);
    let last_line = "  "@ + table.last().0 + ": "@ + reason_text(table.last().1);
    assert(all == if table.last().1 != FacetStatus::Collected {
        rest.push(last_line)
    } else {
        rest
    });
    if l < rest.len() {
        lemma_degraded_line_source(d, l);
        let k = choose|k: int|
            0 <= k < d.len() && (#[trigger] d[k]).1 != FacetStatus::Collected && rest[l] == "  "@
                + d[k].0 + ": "@ + reason_text(d[k].1);
        assert(table[k] == d[k]);
        assert(all[l] == rest[l]);
    } else {
        let k = table.len() - 1;
        assert(table[k] == table.last());
        assert(all[l] == last_line);
    }
}

/// The text view's leading lines: the title, the summary (node count,
/// `converged` exactly when the record is, whatever the facets' statuses,
/// lease count) and a blank line; a line per node with its name,
/// attestation, link, sessions and memory; then the lease section, when there
/// are leases, with a line per lease.
pub proof fn lemma_text_lines_head(w: WholeSelfView)
    ensures
        text_lines(w).len() >= 3 + w.nodes.len(),
        text_lines(w)[0] == "=== Wintermute Self-Portrait ("@ + w.generated_ts + ") ==="@,
        text_lines(w)[1] == "Nodes: "@ + decimal(w.nodes.len()) + " | Memory: "@ + (if w.converged {
            "converged"@
        } else {
            "NOT converged"@
        }) + " | Leases: "@ + decimal(w.leases.len()),
        text_lines(w)[2] == Seq::<char>::empty(),
        forall|i: int|
            0 <= i < w.nodes.len() ==> text_lines(w)[3 + i] == "  "@ + (#[trigger] w.nodes[i]).node + ": ["@ + (if w.nodes[i].attested {
                "attested"@
            } else {
                "unattested"@
            }) + "] link="@ + (match w.nodes[i].link {
                Some(l) => if l.up {
                    match l.rtt_ms {
                        Some(r) => "up ("@ + r.one_decimal + "ms)"@,
                        None => "up"@,
                    }
                } else {
                    "down"@
                },
                None => "link-unknown"@,
            }) + " "@ + (match w.nodes[i].sessions {
                Some(c) => decimal(c as nat) + " sessions"@,
                None => "sessions-unknown"@,
            }) + " mem="@ + (match w.nodes[i].version_lag {
                Some(v) => if v == 0 {
                    "current"@
                } else {
                    decimal(v as nat) + " commits behind"@
                },
                None => "version-unknown"@,
            }),
        w.leases.len() > 0 ==> text_lines(w)[3 + w.nodes.len() as int] == Seq::<char>::empty()
            && text_lines(w)[4 + w.nodes.len() as int] == "Leases:"@,
        forall|j: int|
            0 <= j < w.leases.len() ==> text_lines(w)[5 + w.nodes.len() as int + j] == "  "@
                + (#[trigger] w.leases[j]).key + " held by "@ + w.leases[j].holder
                + " (expires: "@ + (match w.leases[j].expires {
                Some(e) => e,
                None => "no-expiry"@,
            }) + ")"@,
{
        let lv = text_lines(w);
        assert(lv[0] == text_header(w)[0]);
        assert(lv[1] == text_header(w)[1]);
        assert(lv[2] == text_header(w)[2]);
        assert forall|i: int| 0 <= i < w.nodes.len() implies lv[3 + i] == node_line(w.nodes[i]) by {
            let pre = text_header(w) + w.nodes.map_values(|n: NodeView| node_line(n));
            assert(lv[3 + i] == pre[3 + i]);
        }
        let nl = w.nodes.map_values(|n: NodeView| node_line(n));
        let head = text_header(w) + nl;
        let ls = lease_section(w);
        let ds = degraded_section(w);
        assert(lv == head + ls + ds);
        let ll = w.leases.map_values(|l: LeaseView| lease_line(l));
        if w.leases.len() > 0 {
            assert(ls == seq![Seq::<char>::empty(), "Leases:"@] + ll);
            assert(lv[3 + w.nodes.len() as int] == ls[0]);
            assert(lv[4 + w.nodes.len() as int] == ls[1]);
            assert forall|j: int| 0 <= j < w.leases.len() implies lv[5 + w.nodes.len() as int + j]
                == lease_line(w.leases[j]) by {
                assert(lv[5 + w.nodes.len() as int + j] == ls[2 + j]);
            }
        }
}

/// The text view's closing lines: nothing more when every facet is `ok`;
/// otherwise a blank line, `Degraded facets:` and exactly a line per facet
/// that is not `ok`, giving its name and why.
#[verifier::rlimit(40)]
pub proof fn lemma_text_lines_degraded(w: WholeSelfView)
    ensures
        ({
            let t = w.facet_status;
            let base: int = 3int + w.nodes.len() + (if w.leases.len() > 0 {
                w.leases.len() + 2
            } else {
                0
            });
            &&& (forall|k: int| 0 <= k < t.len() ==> (#[trigger] t[k]).1 == FacetStatus::Collected)
                ==> text_lines(w).len() == base
            &&& (exists|k: int| 0 <= k < t.len() && (#[trigger] t[k]).1 != FacetStatus::Collected)
                ==> text_lines(w).len() > base + 1 && text_lines(w)[base] == Seq::<char>::empty() && text_lines(w)[base
                + 1] == "Degraded facets:"@
            &&& forall|k: int|
                0 <= k < t.len() && (#[trigger] t[k]).1 != FacetStatus::Collected ==> exists|l: int|
                    base + 2 <= l < text_lines(w).len() && text_lines(w)[l] == "  "@ + t[k].0 + ": "@ + (match t[k].1 {
                    FacetStatus::Degraded => "not installed"@,
                    FacetStatus::Error => "error querying"@,
                    FacetStatus::Unknown => "unknown"@,
                    FacetStatus::Collected => "ok"@,
                })
            &&& forall|l: int|
                base + 2 <= l < text_lines(w).len() ==> exists|k: int|
                    0 <= k < t.len() && t[k].1 != FacetStatus::Collected && (#[trigger] text_lines(w)[l])
                        == "  "@ + t[k].0 + ": "@ + (match t[k].1 {
                    FacetStatus::Degraded => "not installed"@,
                    FacetStatus::Error => "error querying"@,
                    FacetStatus::Unknown => "unknown"@,
                    FacetStatus::Collected => "ok"@,
                })
        }),
{
        let lv = text_lines(w);
        let nl = w.nodes.map_values(|n: NodeView| node_line(n));
        let head = text_header(w) + nl;
        let ls = lease_section(w);
        let ds = degraded_section(w);
        assert(lv == head + ls + ds);
        if w.leases.len() > 0 {
            let ll = w.leases.map_values(|l: LeaseView| lease_line(l));
            assert(ls == seq![Seq::<char>::empty(), "Leases:"@] + ll);
        }
        let base: int = 3int + w.nodes.len() + (if w.leases.len() > 0 {
            w.leases.len() + 2
        } else {
            0
        });
        assert((head + ls).len() == base);
        let t = w.facet_status;
        lemma_not_ok_count_positive(t);
        lemma_degraded_lines_counted(t);
        lemma_degraded_lines_cover(t);
        let dl = degraded_lines(t);
        if exists|k: int| 0 <= k < t.len() && (#[trigger] t[k]).1 != FacetStatus::Collected {
            assert(ds == seq![Seq::<char>::empty(), "Degraded facets:"@] + dl);
            assert(lv[base] == ds[0]);
            assert(lv[base + 1] == ds[1]);
            assert forall|k: int|
                0 <= k < t.len() && (#[trigger] t[k]).1 != FacetStatus::Collected implies exists|l: int|
                    base + 2 <= l < lv.len() && lv[l] == "  "@ + t[k].0 + ": "@ + reason_text(t[k].1) by {
                let m = choose|m: int| 0 <= m < dl.len() && dl[m] == "  "@ + t[k].0 + ": "@ + reason_text(t[k].1);
                assert(lv[base + 2 + m] == dl[m]);
            }
            assert forall|l: int| base + 2 <= l < lv.len() implies exists|k: int|
                0 <= k < t.len() && t[k].1 != FacetStatus::Collected && #[trigger] lv[l] == "  "@ + t[k].0 + ": "@
                    + reason_text(t[k].1) by {
                assert(lv[l] == dl[l - base - 2]);
                lemma_degraded_line_source(t, l - base - 2);
            }
        } else {
            assert(ds.len() == 0);
        }}

fn build_text(whole: &WholeSelf) -> (lines: Vec<String>)
    ensures
        lines.deep_view() == text_lines(whole@),
{
    let ghost w = whole@;
    let mut lines: Vec<String> = Vec::new();

    let mut title = "=== Wintermute Self-Portrait (".to_owned();
    title.append(whole.generated_ts.as_str());
    title.append(") ===");
    lines.push(title);

    let mut summary = "Nodes: ".to_owned();
    push_decimal(&mut summary, whole.nodes.len() as u64);
    summary.append(" | Memory: ");
    if whole.converged {
        summary.append("converged");
    } else {
        summary.append("NOT converged");
    }
    summary.append(" | Leases: ");
    push_decimal(&mut summary, whole.leases.len() as u64);
    lines.push(summary);
    lines.push(String::new());
    assert(lines.deep_view() =~= text_header(w));

    let ghost header = lines.deep_view();
    let mut i: usize = 0;
    while i < whole.nodes.len()
        invariant
            i <= whole.nodes.len(),
            w == whole@,
            lines.deep_view() == header + w.nodes.take(i as int).map_values(
                |n: NodeView| node_line(n),
            ),
        decreases whole.nodes.len() - i,
    {
        let line = render_node_line(&whole.nodes[i]);
        let ghost prev = lines.deep_view();
        lines.push(line);
        assert(w.nodes[i as int] == whole.nodes@[i as int]@);
        assert(w.nodes.take(i + 1).map_values(|n: NodeView| node_line(n)) =~= w.nodes.take(
            i as int,
        ).map_values(|n: NodeView| node_line(n)).push(node_line(w.nodes[i as int])));
        assert(lines.deep_view() =~= prev.push(line@));
        i += 1;
    }
    assert(w.nodes.take(whole.nodes.len() as int) =~= w.nodes);
    let ghost with_nodes = lines.deep_view();

    if whole.leases.len() > 0 {
        lines.push(String::new());
        lines.push("Leases:".to_owned());
        let ghost lead = lines.deep_view();
        assert(lead =~= with_nodes + seq![Seq::<char>::empty(), "Leases:"@]);
        let mut j: usize = 0;
        while j < whole.leases.len()
            invariant
                j <= whole.leases.len(),
                w == whole@,
                lines.deep_view() == lead + w.leases.take(j as int).map_values(
                    |l: LeaseView| lease_line(l),
                ),
            decreases whole.leases.len() - j,
        {
            let line = render_lease_line(&whole.leases[j]);
            let ghost prev = lines.deep_view();
            lines.push(line);
            assert(w.leases[j as int] == whole.leases@[j as int]@);
            assert(w.leases.take(j + 1).map_values(|l: LeaseView| lease_line(l)) =~= w.leases.take(
                j as int,
            ).map_values(|l: LeaseView| lease_line(l)).push(lease_line(w.leases[j as int])));
            assert(lines.deep_view() =~= prev.push(line@));
            j += 1;
        }
        assert(w.leases.take(whole.leases.len() as int) =~= w.leases);
    }
    assert(lines.deep_view() =~= with_nodes + lease_section(w));
    let ghost with_leases = lines.deep_view();

    let mut degraded: Vec<String> = Vec::new();
    push_degraded_lines(&mut degraded, &whole.facet_status);
    assert(degraded.deep_view() =~= degraded_lines(w.facet_status));
    if degraded.len() > 0 {
        lines.push(String::new());
        lines.push("Degraded facets:".to_owned());
        let ghost lead = lines.deep_view();
        let ghost dv = degraded.deep_view();
        let mut k: usize = 0;
        while k < degraded.len()
            invariant
                k <= degraded.len(),
                dv == degraded.deep_view(),
                lines.deep_view() == lead + dv.take(k as int),
            decreases degraded.len() - k,
        {
            let ghost prev = lines.deep_view();
            let line = degraded[k].clone();
            assert(line@ == dv[k as int]);
            lines.push(line);
            assert(lines.deep_view() =~= prev.push(dv[k as int]));
            assert(dv.take(k + 1) =~= dv.take(k as int).push(dv[k as int]));
            assert(lines.deep_view() =~= lead + dv.take(k + 1));
            k += 1;
        }
        assert(dv.take(degraded.len() as int) =~= dv);
        assert(lines.deep_view() =~= with_leases + degraded_section(w));
    } else {
        assert(lines.deep_view() =~= with_leases + degraded_section(w));
    }
    lines
}

/// The lines of the human-readable self-portrait, each to be printed as a
/// line of its own.
pub fn render_text(whole: &WholeSelf) -> (lines: Vec<String>)
    ensures
        lines.deep_view() == text_lines(whole@),
        lines.deep_view().len() >= 3 + whole@.nodes.len(),
        lines.deep_view()[0] == "=== Wintermute Self-Portrait ("@ + whole.generated_ts@ + ") ==="@,
        lines.deep_view()[1] == "Nodes: "@ + decimal(whole@.nodes.len()) + " | Memory: "@ + (if whole.converged {
            "converged"@
        } else {
            "NOT converged"@
        }) + " | Leases: "@ + decimal(whole@.leases.len()),
        lines.deep_view()[2] == Seq::<char>::empty(),
        forall|i: int|
            0 <= i < whole@.nodes.len() ==> lines.deep_view()[3 + i] == "  "@ + (#[trigger] whole@.nodes[i]).node + ": ["@ + (if whole@.nodes[i].attested {
                "attested"@
            } else {
                "unattested"@
            }) + "] link="@ + (match whole@.nodes[i].link {
                Some(l) => if l.up {
                    match l.rtt_ms {
                        Some(r) => "up ("@ + r.one_decimal + "ms)"@,
                        None => "up"@,
                    }
                } else {
                    "down"@
                },
                None => "link-unknown"@,
            }) + " "@ + (match whole@.nodes[i].sessions {
                Some(c) => decimal(c as nat) + " sessions"@,
                None => "sessions-unknown"@,
            }) + " mem="@ + (match whole@.nodes[i].version_lag {
                Some(v) => if v == 0 {
                    "current"@
                } else {
                    decimal(v as nat) + " commits behind"@
                },
                None => "version-unknown"@,
            }),
        whole@.leases.len() > 0 ==> lines.deep_view()[3 + whole@.nodes.len() as int] == Seq::<char>::empty()
            && lines.deep_view()[4 + whole@.nodes.len() as int] == "Leases:"@,
        forall|j: int|
            0 <= j < whole@.leases.len() ==> lines.deep_view()[5 + whole@.nodes.len() as int + j] == "  "@
                + (#[trigger] whole@.leases[j]).key + " held by "@ + whole@.leases[j].holder
                + " (expires: "@ + (match whole@.leases[j].expires {
                Some(e) => e,
                None => "no-expiry"@,
            }) + ")"@,
        ({
            let t = whole@.facet_status;
            let base: int = 3int + whole@.nodes.len() + (if whole@.leases.len() > 0 {
                whole@.leases.len() + 2
            } else {
                0
            });
            &&& (forall|k: int| 0 <= k < t.len() ==> (#[trigger] t[k]).1 == FacetStatus::Collected)
                ==> lines.deep_view().len() == base
            &&& (exists|k: int| 0 <= k < t.len() && (#[trigger] t[k]).1 != FacetStatus::Collected)
                ==> lines.deep_view().len() > base + 1 && lines.deep_view()[base] == Seq::<char>::empty() && lines.deep_view()[base
                + 1] == "Degraded facets:"@
            &&& forall|k: int|
                0 <= k < t.len() && (#[trigger] t[k]).1 != FacetStatus::Collected ==> exists|l: int|
                    base + 2 <= l < lines.deep_view().len() && lines.deep_view()[l] == "  "@ + t[k].0 + ": "@ + (match t[k].1 {
                    FacetStatus::Degraded => "not installed"@,
                    FacetStatus::Error => "error querying"@,
                    FacetStatus::Unknown => "unknown"@,
                    FacetStatus::Collected => "ok"@,
                })
            &&& forall|l: int|
                base + 2 <= l < lines.deep_view().len() ==> exists|k: int|
                    0 <= k < t.len() && t[k].1 != FacetStatus::Collected && (#[trigger] lines.deep_view()[l])
                        == "  "@ + t[k].0 + ": "@ + (match t[k].1 {
                    FacetStatus::Degraded => "not installed"@,
                    FacetStatus::Error => "error querying"@,
                    FacetStatus::Unknown => "unknown"@,
                    FacetStatus::Collected => "ok"@,
                })
        }),
{
    let lines = build_text(whole);
    proof {
        lemma_text_lines_head(whole@);
        lemma_text_lines_degraded(whole@);
    }
    lines
}

/// The lines of the self-review block, each to be printed as a line of its
/// own.
pub fn render_selfreview(whole: &WholeSelf) -> (lines: Vec<String>)
    ensures
        lines.deep_view() == selfreview_lines(whole@),
        lines@.len() >= 5 + whole@.nodes.len() + whole@.leases.len(),
        lines@[0]@ == "## corpus-introspect selfreview"@,
        lines@[1]@ == "generated_ts: "@ + whole.generated_ts@,
        lines@[2]@ == "node_count: "@ + decimal(whole@.nodes.len()),
        lines@[3]@ == "converged: "@ + (if whole.converged {
            "yes"@
        } else {
            "no"@
        }),
        lines@[4]@ == "lease_count: "@ + decimal(whole@.leases.len()),
        forall|i: int|
            0 <= i < whole@.nodes.len() ==> lines@[5 + i]@ == "node: "@ + (#[trigger] whole@.nodes[i]).node
                + " status="@ + (if whole@.nodes[i].attested {
                "attested"@
            } else {
                "unattested"@
            }),
        forall|j: int|
            0 <= j < whole@.leases.len() ==> lines@[5 + whole@.nodes.len() + j]@ == "lease: "@
                + (#[trigger] whole@.leases[j]).key + " holder="@ + whole@.leases[j].holder,
        (forall|k: int|
            0 <= k < whole@.facet_status.len() ==> (#[trigger] whole@.facet_status[k]).1
                == FacetStatus::Collected) ==> lines@.len() == 5 + whole@.nodes.len()
            + whole@.leases.len(),
        (exists|k: int|
            0 <= k < whole@.facet_status.len() && (#[trigger] whole@.facet_status[k]).1
                != FacetStatus::Collected) ==> lines@.len() == 6 + whole@.nodes.len()
            + whole@.leases.len() && lines@[lines@.len() - 1]@ == "degraded_facets: "@ + decimal(
            not_ok_count(whole@.facet_status),
        ),
{
    let ghost w = whole@;
    let mut lines: Vec<String> = Vec::new();
    lines.push("## corpus-introspect selfreview".to_owned());
    let mut ts = "generated_ts: ".to_owned();
    ts.append(whole.generated_ts.as_str());
    lines.push(ts);
    let mut count = "node_count: ".to_owned();
    push_decimal(&mut count, whole.nodes.len() as u64);
    lines.push(count);
    let mut conv = "converged: ".to_owned();
    if whole.converged {
        conv.append("yes");
    } else {
        conv.append("no");
    }
    lines.push(conv);
    let mut leases = "lease_count: ".to_owned();
    push_decimal(&mut leases, whole.leases.len() as u64);
    lines.push(leases);
    let ghost header = lines.deep_view();
    assert(header =~= seq![
        "## corpus-introspect selfreview"@,
        "generated_ts: "@ + w.generated_ts,
        "node_count: "@ + decimal(w.nodes.len()),
        "converged: "@ + (if w.converged {
            "yes"@
        } else {
            "no"@
        }),
        "lease_count: "@ + decimal(w.leases.len()),
    ]);

    let mut i: usize = 0;
    while i < whole.nodes.len()
        invariant
            i <= whole.nodes.len(),
            w == whole@,
            lines.deep_view() == header + w.nodes.take(i as int).map_values(
                |n: NodeView| review_node_line(n),
            ),
        decreases whole.nodes.len() - i,
    {
        let node = &whole.nodes[i];
        let mut line = "node: ".to_owned();
        line.append(node.node.as_str());
        line.append(" status=");
        line.append(attest_str(node.attested));
        let ghost prev = lines.deep_view();
        lines.push(line);
        assert(w.nodes[i as int] == node@);
        assert(w.nodes.take(i + 1).map_values(|n: NodeView| review_node_line(n)) =~= w.nodes.take(
            i as int,
        ).map_values(|n: NodeView| review_node_line(n)).push(review_node_line(w.nodes[i as int])));
        assert(lines.deep_view() =~= prev.push(line@));
        i += 1;
    }
    assert(w.nodes.take(whole.nodes.len() as int) =~= w.nodes);
    let ghost with_nodes = lines.deep_view();

    let mut j: usize = 0;
    while j < whole.leases.len()
        invariant
            j <= whole.leases.len(),
            w == whole@,
            lines.deep_view() == with_nodes + w.leases.take(j as int).map_values(
                |l: LeaseView| review_lease_line(l),
            ),
        decreases whole.leases.len() - j,
    {
        let lease = &whole.leases[j];
        let mut line = "lease: ".to_owned();
        line.append(lease.key.as_str());
        line.append(" holder=");
        line.append(lease.holder.as_str());
        let ghost prev = lines.deep_view();
        lines.push(line);
        assert(w.leases[j as int] == lease@);
        assert(w.leases.take(j + 1).map_values(|l: LeaseView| review_lease_line(l))
            =~= w.leases.take(j as int).map_values(|l: LeaseView| review_lease_line(l)).push(
            review_lease_line(w.leases[j as int]),
        ));
        assert(lines.deep_view() =~= prev.push(line@));
        j += 1;
    }
    assert(w.leases.take(whole.leases.len() as int) =~= w.leases);
    let ghost with_leases = lines.deep_view();

    let degraded = count_not_ok(&whole.facet_status);
    if degraded > 0 {
        let mut line = "degraded_facets: ".to_owned();
        push_decimal(&mut line, degraded);
        lines.push(line);
        assert(lines.deep_view() =~= with_leases + seq![
            "degraded_facets: "@ + decimal(not_ok_count(w.facet_status)),
        ]);
    } else {
        assert(lines.deep_view() =~= with_leases);
    }
    assert(lines.deep_view() =~= selfreview_lines(w));
    proof {
        let lv = lines.deep_view();
        assert forall|i: int| 0 <= i < lines@.len() implies lines@[i]@ == lv[i] by {}
        let head = seq![
            "## corpus-introspect selfreview"@,
            "generated_ts: "@ + w.generated_ts,
            "node_count: "@ + decimal(w.nodes.len()),
            "converged: "@ + (if w.converged {
                "yes"@
            } else {
                "no"@
            }),
            "lease_count: "@ + decimal(w.leases.len()),
        ];
        let nl = w.nodes.map_values(|n: NodeView| review_node_line(n));
        let ll = w.leases.map_values(|l: LeaseView| review_lease_line(l));
        assert(lv == head + nl + ll + (if not_ok_count(w.facet_status) > 0 {
            seq!["degraded_facets: "@ + decimal(not_ok_count(w.facet_status))]
        } else {
            seq![]
        }));
        assert forall|i: int| 0 <= i < 5 implies lv[i] == head[i] by {}
        assert forall|i: int| 0 <= i < w.nodes.len() implies lv[5 + i] == review_node_line(w.nodes[i]) by {
            assert((head + nl)[5 + i] == nl[i]);
        }
        assert forall|j: int| 0 <= j < w.leases.len() implies lv[5 + w.nodes.len() + j]
            == review_lease_line(w.leases[j]) by {
            assert((head + nl + ll)[5 + w.nodes.len() + j] == ll[j]);
        }
        lemma_not_ok_count_positive(w.facet_status);
    }
    lines
}

// ---------------------------------------------------------------------------
// Laws of the layouts
// ---------------------------------------------------------------------------

/// The text view lists exactly as many degraded facets as the self-review
/// block counts.
pub proof fn lemma_degraded_lines_counted(table: Seq<(Seq<char>, FacetStatus)>)
    ensures
        degraded_lines(table).len() == not_ok_count(table),
    decreases table.len(),
{
    if table.len() > 0 {
        lemma_degraded_lines_counted(table.drop_last());
    }
}

/// Some facet is not `ok` exactly when the count of such facets is positive.
pub proof fn lemma_not_ok_count_positive(table: Seq<(Seq<char>, FacetStatus)>)
    ensures
        (exists|i: int| 0 <= i < table.len() && table[i].1 != FacetStatus::Collected) <==> (
        not_ok_count(table) > 0),
    decreases table.len(),
{
    if table.len() > 0 {
        let rest = table.drop_last();
        lemma_not_ok_count_positive(rest);
        if exists|i: int| 0 <= i < rest.len() && rest[i].1 != FacetStatus::Collected {
            let i = choose|i: int| 0 <= i < rest.len() && rest[i].1 != FacetStatus::Collected;
            assert(table[i] == rest[i]);
        }
        if exists|i: int| 0 <= i < table.len() && table[i].1 != FacetStatus::Collected {
            let i = choose|i: int| 0 <= i < table.len() && table[i].1 != FacetStatus::Collected;
            if i < rest.len() {
                assert(rest[i] == table[i]);
            }
        }
        if table.last().1 != FacetStatus::Collected {
            assert(table[table.len() - 1].1 != FacetStatus::Collected);
        }
    }
}

/// A facet that is not `ok` is never silently dropped: the text view then
/// holds a `Degraded facets:` line, and the self-review block ends with the
/// count of such facets.
pub proof fn lemma_degraded_facet_reported(w: WholeSelfView)
    requires
        exists|i: int|
            0 <= i < w.facet_status.len() && w.facet_status[i].1 != FacetStatus::Collected,
    ensures
        text_lines(w).contains("Degraded facets:"@),
        selfreview_lines(w).last() == "degraded_facets: "@ + decimal(not_ok_count(w.facet_status)),
{
    lemma_not_ok_count_positive(w.facet_status);
    lemma_degraded_lines_counted(w.facet_status);
    let lines = text_lines(w);
    let before = text_header(w) + w.nodes.map_values(|n: NodeView| node_line(n)) + lease_section(w);
    assert(lines == before + degraded_section(w));
    assert(lines[before.len() + 1int] == "Degraded facets:"@);
}

/// How many lines the text view has: three header lines, a line per node,
/// two more and a line per lease when there are leases, and two more and a
/// line per degraded facet when there is one.
pub proof fn lemma_text_line_count(w: WholeSelfView)
    ensures
        text_lines(w).len() == 3 + w.nodes.len() + (if w.leases.len() > 0 {
            w.leases.len() + 2
        } else {
            0
        }) + (if not_ok_count(w.facet_status) > 0 {
            not_ok_count(w.facet_status) + 2
        } else {
            0
        }),
{
    lemma_degraded_lines_counted(w.facet_status);
}

/// The text view names every node, on a line of its own that follows the
/// three header lines in node order, and says there whether it is attested.
pub proof fn lemma_text_names_each_node(w: WholeSelfView, i: int)
    requires
        0 <= i < w.nodes.len(),
    ensures
        text_lines(w)[3 + i] == node_line(w.nodes[i]),
        node_line(w.nodes[i]).subrange(2, 2 + w.nodes[i].node.len() as int) == w.nodes[i].node,
{
    reveal_strlit("  ");
    let n = w.nodes[i];
    let line = node_line(n);
    assert(line.subrange(2, 2 + n.node.len() as int) =~= n.node);
}

/// The summary line of the text view gives the node count, says
/// `converged` exactly when the record is converged (whatever the facets'
/// statuses), and gives the lease count.
pub proof fn lemma_text_summary_line(w: WholeSelfView)
    ensures
        text_lines(w)[1] == "Nodes: "@ + decimal(w.nodes.len()) + " | Memory: "@ + (if w.converged {
            "converged"@
        } else {
            "NOT converged"@
        }) + " | Leases: "@ + decimal(w.leases.len()),
{
}

/// The self-review line of each node names it and gives its status from
/// its attestation alone.
pub proof fn lemma_review_node_status(w: WholeSelfView, i: int)
    requires
        0 <= i < w.nodes.len(),
    ensures
        selfreview_lines(w)[5 + i] == "node: "@ + w.nodes[i].node + " status="@ + (if w.nodes[i].attested {
            "attested"@
        } else {
            "unattested"@
        }),
{
    let head = seq![
        "## corpus-introspect selfreview"@,
        "generated_ts: "@ + w.generated_ts,
        "node_count: "@ + decimal(w.nodes.len()),
        "converged: "@ + (if w.converged {
            "yes"@
        } else {
            "no"@
        }),
        "lease_count: "@ + decimal(w.leases.len()),
    ];
    let nl = w.nodes.map_values(|n: NodeView| review_node_line(n));
    assert((head + nl)[5 + i] == nl[i]);
}

} // verus!
