//! Merging the facets into the node list of a `WholeSelf`: every node named
//! by any facet appears once, in ascending order of name, with what the
//! facets say of it.

use vstd::prelude::*;

use crate::facets::{ArbiterData, AttestData, ConvergeData, RosterData, TetherData};
use crate::model::{FacetStatus, LinkInfo, LinkView, NodeInfo, NodeView, WholeSelf};
use crate::text::{
    lemma_lex_asymmetric, lemma_lex_irreflexive, lemma_lex_total, lemma_lex_transitive, lex_lt,
    str_eq, str_lt,
};

verus! {

/// What the facets say of the fleet, by their views: the attest pairs, this
/// host's name, the roster's session counts, the tether's links and the
/// converge facet's version lags.
pub struct FleetFacts {
    pub attest: Seq<(Seq<char>, bool)>,
    pub host: Seq<char>,
    pub roster: Seq<(Seq<char>, u32)>,
    pub tether: Seq<(Seq<char>, LinkView)>,
    pub converge: Seq<(Seq<char>, u32)>,
}

/// The names of a sequence of named entries.
pub open spec fn names_of<V>(pairs: Seq<(Seq<char>, V)>) -> Seq<Seq<char>> {
    pairs.map_values(|p: (Seq<char>, V)| p.0)
}

/// The value of the last entry named `name`, if any.
pub open spec fn last_value<V>(pairs: Seq<(Seq<char>, V)>, name: Seq<char>) -> Option<V>
    decreases pairs.len(),
{
    if pairs.len() == 0 {
        None
    } else if pairs.last().0 == name {
        Some(pairs.last().1)
    } else {
        last_value(pairs.drop_last(), name)
    }
}

impl FleetFacts {
    /// Every node name that the facets mention, with repetitions: the attest
    /// names, this host when attest names none, then the roster, tether and
    /// converge names.
    pub open spec fn all_names(self) -> Seq<Seq<char>> {
        names_of(self.attest) + (if self.attest.len() == 0 {
            seq![self.host]
        } else {
            seq![]
        }) + names_of(self.roster) + names_of(self.tether) + names_of(self.converge)
    }

    /// The record of node `name`: attested as its last attest entry says
    /// (false without one), and its link, session count and version lag
    /// from its last entry in those facets, if any.
    pub open spec fn node_for(self, name: Seq<char>) -> NodeView {
        NodeView {
            node: name,
            attested: match last_value(self.attest, name) {
                Some(b) => b,
                None => false,
            },
            link: last_value(self.tether, name),
            sessions: last_value(self.roster, name),
            version_lag: last_value(self.converge, name),
        }
    }

    /// `nodes` is the merge of these facts: names strictly ascending, each
    /// node one that the facts name and with the record the facts give it,
    /// and every named node present.
    pub open spec fn is_merge(self, nodes: Seq<NodeView>) -> bool {
        &&& names_ascending(nodes)
        &&& forall|i: int|
            0 <= i < nodes.len() ==> self.all_names().contains(#[trigger] nodes[i].node) && nodes[i]
                == self.node_for(nodes[i].node)
        &&& forall|n: Seq<char>| #[trigger]
            self.all_names().contains(n) ==> exists|i: int| 0 <= i < nodes.len() && nodes[i].node == n
    }
}

/// The names of the nodes strictly ascend.
pub open spec fn names_ascending(nodes: Seq<NodeView>) -> bool {
    forall|i: int, j: int| 0 <= i < j < nodes.len() ==> lex_lt(nodes[i].node, nodes[j].node)
}

/// The sequence strictly ascends.
pub open spec fn strictly_ascending(s: Seq<Seq<char>>) -> bool {
    forall|i: int, j: int| 0 <= i < j < s.len() ==> lex_lt(s[i], s[j])
}

/// The facts that `from_facets` is given, by their views.
pub open spec fn facts_of(
    attest: &AttestData,
    roster: &RosterData,
    converge: &ConvergeData,
    tether: &TetherData,
    hostname: &String,
) -> FleetFacts {
    FleetFacts {
        attest: attest.nodes.deep_view(),
        host: hostname@,
        roster: roster.sessions.deep_view(),
        tether: tether.links.deep_view(),
        converge: converge.version_lags.deep_view(),
    }
}

fn push_names<V: DeepView>(all: &mut Vec<String>, pairs: &Vec<(String, V)>)
    ensures
        final(all).deep_view() == old(all).deep_view() + names_of(pairs.deep_view()),
{
    let ghost start = all.deep_view();
    let ghost pv = pairs.deep_view();
    let mut i: usize = 0;
    while i < pairs.len()
        invariant
            i <= pairs.len(),
            pv == pairs.deep_view(),
            all.deep_view() == start + names_of(pv.take(i as int)),
        decreases pairs.len() - i,
    {
        let ghost prev = all.deep_view();
        assert(pv[i as int].0 == pairs@[i as int].0@);
        all.push(pairs[i].0.clone());
        assert(all.deep_view() =~= prev.push(pv[i as int].0));
        assert(names_of(pv.take(i + 1)) =~= names_of(pv.take(i as int)).push(pv[i as int].0));
        assert(all.deep_view() =~= start + names_of(pv.take(i + 1)));
        i += 1;
    }
    assert(pv.take(pairs.len() as int) =~= pv);
}

fn last_index<V: DeepView>(pairs: &Vec<(String, V)>, name: &str) -> (r: Option<usize>)
    ensures
        match r {
            Some(k) => k < pairs.len() && last_value(pairs.deep_view(), name@) == Some(
                pairs.deep_view()[k as int].1,
            ),
            None => last_value(pairs.deep_view(), name@) is None,
        },
{
    let ghost pv = pairs.deep_view();
    let mut i: usize = pairs.len();
    assert(pv.take(i as int) =~= pv);
    while i > 0
        invariant
            i <= pairs.len(),
            pv == pairs.deep_view(),
            last_value(pv, name@) == last_value(pv.take(i as int), name@),
        decreases i,
    {
        let k = i - 1;
        assert(pv.take(i as int).last() == pv[k as int]);
        assert(pv.take(i as int).drop_last() =~= pv.take(k as int));
        if str_eq(pairs[k].0.as_str(), name) {
            return Some(k);
        }
        i = k;
    }
    None
}

proof fn lemma_insert_ascending(s: Seq<Seq<char>>, p: int, n: Seq<char>)
    requires
        strictly_ascending(s),
        0 <= p <= s.len(),
        forall|j: int| 0 <= j < p ==> lex_lt(s[j], n),
        p < s.len() ==> !lex_lt(s[p], n) && s[p] != n,
    ensures
        strictly_ascending(s.insert(p, n)),
{
    let t = s.insert(p, n);
    if p < s.len() {
        lemma_lex_total(s[p], n);
    }
    assert forall|i: int, j: int| 0 <= i < j < t.len() implies lex_lt(t[i], t[j]) by {
        if j < p {
        } else if j == p {
        } else if i < p {
            // t[i] = s[i] < n < s[p] <= s[j - 1] = t[j]
            if j - 1 > p {
                lemma_lex_transitive(n, s[p], s[j - 1]);
            }
            lemma_lex_transitive(s[i], n, s[j - 1]);
        } else if i == p {
            if j - 1 > p {
                lemma_lex_transitive(n, s[p], s[j - 1]);
            }
        } else {
        }
    }
}

fn insert_name(names: &mut Vec<String>, n: &String)
    requires
        strictly_ascending(old(names).deep_view()),
    ensures
        strictly_ascending(final(names).deep_view()),
        forall|x: Seq<char>| #[trigger]
            final(names).deep_view().contains(x) <==> (old(names).deep_view().contains(x) || x
                == n@),
{
    let ghost s = names.deep_view();
    let mut p: usize = 0;
    while p < names.len() && str_lt(names[p].as_str(), n.as_str())
        invariant
            p <= names.len(),
            s == names.deep_view(),
            s == old(names).deep_view(),
            forall|j: int| 0 <= j < p ==> lex_lt(s[j], n@),
        decreases names.len() - p,
    {
        p += 1;
    }
    if p < names.len() && str_eq(names[p].as_str(), n.as_str()) {
        assert(s[p as int] == n@);
        return;
    }
    proof {
        lemma_insert_ascending(s, p as int, n@);
    }
    names.insert(p, n.clone());
    let ghost t = s.insert(p as int, n@);
    assert(names.deep_view() =~= t);
    assert forall|x: Seq<char>| #[trigger] t.contains(x) <==> (s.contains(x) || x == n@) by {
        if s.contains(x) {
            let k = choose|k: int| 0 <= k < s.len() && s[k] == x;
            if k < p {
                assert(t[k] == x);
            } else {
                assert(t[k + 1] == x);
            }
        }
        if x == n@ {
            assert(t[p as int] == x);
        }
        if t.contains(x) {
            let k = choose|k: int| 0 <= k < t.len() && t[k] == x;
            if k < p {
                assert(s[k] == x);
            } else if k > p {
                assert(s[k - 1] == x);
            }
        }
    }
}

fn sorted_unique(all: &Vec<String>) -> (names: Vec<String>)
    ensures
        strictly_ascending(names.deep_view()),
        forall|x: Seq<char>| #[trigger]
            names.deep_view().contains(x) <==> all.deep_view().contains(x),
{
    let ghost av = all.deep_view();
    let mut names: Vec<String> = Vec::new();
    let mut i: usize = 0;
    while i < all.len()
        invariant
            i <= all.len(),
            av == all.deep_view(),
            strictly_ascending(names.deep_view()),
            forall|x: Seq<char>| #[trigger]
                names.deep_view().contains(x) <==> av.take(i as int).contains(x),
        decreases all.len() - i,
    {
        insert_name(&mut names, &all[i]);
        let ghost pre = av.take(i as int);
        let ghost post = av.take(i + 1);
        assert(post =~= pre.push(av[i as int]));
        assert forall|x: Seq<char>| #[trigger] post.contains(x) <==> (pre.contains(x) || x
            == av[i as int]) by {
            if pre.contains(x) {
                let k = choose|k: int| 0 <= k < pre.len() && pre[k] == x;
                assert(post[k] == x);
            }
            if x == av[i as int] {
                assert(post[i as int] == x);
            }
            if post.contains(x) {
                let k = choose|k: int| 0 <= k < post.len() && post[k] == x;
                if k < i {
                    assert(pre[k] == x);
                }
            }
        }
        i += 1;
    }
    assert(av.take(all.len() as int) =~= av);
    names
}

fn node_for(
    name: &String,
    attest: &AttestData,
    roster: &RosterData,
    converge: &ConvergeData,
    tether: &TetherData,
    hostname: &String,
) -> (node: NodeInfo)
    ensures
        node@ == facts_of(attest, roster, converge, tether, hostname).node_for(name@),
{
    let attested = match last_index(&attest.nodes, name.as_str()) {
        Some(k) => attest.nodes[k].1,
        None => false,
    };
    let link: Option<LinkInfo> = match last_index(&tether.links, name.as_str()) {
        Some(k) => Some(tether.links[k].1.duplicate()),
        None => None,
    };
    let sessions = match last_index(&roster.sessions, name.as_str()) {
        Some(k) => Some(roster.sessions[k].1),
        None => None,
    };
    let version_lag = match last_index(&converge.version_lags, name.as_str()) {
        Some(k) => Some(converge.version_lags[k].1),
        None => None,
    };
    NodeInfo { node: name.clone(), attested, link, sessions, version_lag }
}

impl WholeSelf {
    /// Synthesises a `WholeSelf` record from the collected facets: the
    /// nodes are the merge of the facets' node data (this host, unattested,
    /// stands for the fleet when attest names no node), in ascending order of
    /// name; leases, convergence verdict, timestamp and facet statuses are
    /// taken as given.
    pub fn from_facets(
        attest: AttestData,
        roster: RosterData,
        converge: ConvergeData,
        arbiter: ArbiterData,
        tether: TetherData,
        facet_status: Vec<(String, FacetStatus)>,
        hostname: String,
        generated_ts: String,
    ) -> (w: WholeSelf)
        ensures
            facts_of(&attest, &roster, &converge, &tether, &hostname).is_merge(w@.nodes),
            w.nodes.len() >= 1,
            w@.leases == arbiter.leases.deep_view(),
            w.converged == converge.converged,
            w@.generated_ts == generated_ts@,
            w@.facet_status == facet_status.deep_view(),
            forall|i: int, j: int|
                0 <= i < j < w@.nodes.len() ==> lex_lt(w@.nodes[i].node, w@.nodes[j].node),
            forall|k: int| 0 <= k < attest.nodes.deep_view().len() ==> exists|i: int|
            0 <= i < w@.nodes.len() && w@.nodes[i].node == (#[trigger] attest.nodes.deep_view()[k]).0,
            forall|k: int| 0 <= k < roster.sessions.deep_view().len() ==> exists|i: int|
            0 <= i < w@.nodes.len() && w@.nodes[i].node == (#[trigger] roster.sessions.deep_view()[k]).0,
            forall|k: int| 0 <= k < tether.links.deep_view().len() ==> exists|i: int|
            0 <= i < w@.nodes.len() && w@.nodes[i].node == (#[trigger] tether.links.deep_view()[k]).0,
            forall|k: int| 0 <= k < converge.version_lags.deep_view().len() ==> exists|i: int|
            0 <= i < w@.nodes.len() && w@.nodes[i].node == (#[trigger] converge.version_lags.deep_view()[k]).0,
            attest.nodes.deep_view().len() == 0 ==> exists|i: int| 0 <= i < w@.nodes.len() && w@.nodes[i].node == hostname@,
            forall|i: int| 0 <= i < w@.nodes.len() ==> ((exists|k: int| 0 <= k < attest.nodes.deep_view().len() && attest.nodes.deep_view()[k].0 == w@.nodes[i].node) || (exists|k: int| 0 <= k < roster.sessions.deep_view().len() && roster.sessions.deep_view()[k].0 == w@.nodes[i].node) || (exists|k: int| 0 <= k < tether.links.deep_view().len() && tether.links.deep_view()[k].0 == w@.nodes[i].node) || (exists|k: int| 0 <= k < converge.version_lags.deep_view().len() && converge.version_lags.deep_view()[k].0 == w@.nodes[i].node) || (attest.nodes.deep_view().len() == 0 && (#[trigger] w@.nodes[i]).node == hostname@)),
            forall|i: int, k: int|
            0 <= i < w@.nodes.len() && 0 <= k < attest.nodes.deep_view().len() && (#[trigger] w@.nodes[i]).node == (#[trigger] attest.nodes.deep_view()[k]).0
                && (forall|m: int| k < m < attest.nodes.deep_view().len() ==> (#[trigger] attest.nodes.deep_view()[m]).0 != w@.nodes[i].node)
                ==> w@.nodes[i].attested == attest.nodes.deep_view()[k].1,
            forall|i: int|
            0 <= i < w@.nodes.len() && (forall|k: int| 0 <= k < attest.nodes.deep_view().len() ==> (#[trigger] attest.nodes.deep_view()[k]).0 != w@.nodes[i].node)
                ==> (#[trigger] w@.nodes[i]).attested == false,
            forall|i: int, k: int|
            0 <= i < w@.nodes.len() && 0 <= k < roster.sessions.deep_view().len() && (#[trigger] w@.nodes[i]).node == (#[trigger] roster.sessions.deep_view()[k]).0
                && (forall|m: int| k < m < roster.sessions.deep_view().len() ==> (#[trigger] roster.sessions.deep_view()[m]).0 != w@.nodes[i].node)
                ==> w@.nodes[i].sessions == Some(roster.sessions.deep_view()[k].1),
            forall|i: int|
            0 <= i < w@.nodes.len() && (forall|k: int| 0 <= k < roster.sessions.deep_view().len() ==> (#[trigger] roster.sessions.deep_view()[k]).0 != w@.nodes[i].node)
                ==> (#[trigger] w@.nodes[i]).sessions is None,
            forall|i: int, k: int|
            0 <= i < w@.nodes.len() && 0 <= k < tether.links.deep_view().len() && (#[trigger] w@.nodes[i]).node == (#[trigger] tether.links.deep_view()[k]).0
                && (forall|m: int| k < m < tether.links.deep_view().len() ==> (#[trigger] tether.links.deep_view()[m]).0 != w@.nodes[i].node)
                ==> w@.nodes[i].link == Some(tether.links.deep_view()[k].1),
            forall|i: int|
            0 <= i < w@.nodes.len() && (forall|k: int| 0 <= k < tether.links.deep_view().len() ==> (#[trigger] tether.links.deep_view()[k]).0 != w@.nodes[i].node)
                ==> (#[trigger] w@.nodes[i]).link is None,
            forall|i: int, k: int|
            0 <= i < w@.nodes.len() && 0 <= k < converge.version_lags.deep_view().len() && (#[trigger] w@.nodes[i]).node == (#[trigger] converge.version_lags.deep_view()[k]).0
                && (forall|m: int| k < m < converge.version_lags.deep_view().len() ==> (#[trigger] converge.version_lags.deep_view()[m]).0 != w@.nodes[i].node)
                ==> w@.nodes[i].version_lag == Some(converge.version_lags.deep_view()[k].1),
            forall|i: int|
            0 <= i < w@.nodes.len() && (forall|k: int| 0 <= k < converge.version_lags.deep_view().len() ==> (#[trigger] converge.version_lags.deep_view()[k]).0 != w@.nodes[i].node)
                ==> (#[trigger] w@.nodes[i]).version_lag is None,
    {
        let ghost facts = facts_of(&attest, &roster, &converge, &tether, &hostname);
        let mut all: Vec<String> = Vec::new();
        push_names(&mut all, &attest.nodes);
        if attest.nodes.len() == 0 {
            all.push(hostname.clone());
        }
        push_names(&mut all, &roster.sessions);
        push_names(&mut all, &tether.links);
        push_names(&mut all, &converge.version_lags);
        assert(all.deep_view() =~= facts.all_names());
        let names = sorted_unique(&all);
        let ghost nv = names.deep_view();
        let mut nodes: Vec<NodeInfo> = Vec::new();
        let mut i: usize = 0;
        while i < names.len()
            invariant
                i <= names.len(),
                nv == names.deep_view(),
                facts == facts_of(&attest, &roster, &converge, &tether, &hostname),
                nodes.len() == i,
                forall|j: int| 0 <= j < i ==> #[trigger] nodes@[j]@ == facts.node_for(nv[j]),
            decreases names.len() - i,
        {
            nodes.push(node_for(&names[i], &attest, &roster, &converge, &tether, &hostname));
            i += 1;
        }
        let ghost ns = nodes.deep_view();
        assert forall|j: int| 0 <= j < ns.len() implies ns[j].node == nv[j] by {
            assert(ns[j] == nodes@[j]@);
        }
        assert(facts.all_names().len() >= 1);
        assert(facts.all_names().contains(facts.all_names()[0]));
        assert(nv.contains(facts.all_names()[0]));
        assert forall|n: Seq<char>| #[trigger]
            facts.all_names().contains(n) implies exists|j: int| 0 <= j < ns.len() && ns[j].node == n by {
            assert(nv.contains(n));
            let k = choose|k: int| 0 <= k < nv.len() && nv[k] == n;
            assert(ns[k].node == n);
        }
        assert forall|j: int| 0 <= j < ns.len() implies facts.all_names().contains(#[trigger] ns[j].node)
            && ns[j] == facts.node_for(ns[j].node) by {
            assert(ns[j] == nodes@[j]@);
            assert(nv.contains(nv[j]));
        }
        let w = WholeSelf {
            nodes,
            leases: arbiter.leases,
            converged: converge.converged,
            generated_ts,
            facet_status,
        };
        proof {
            lemma_merge_names(facts, w@.nodes);
            lemma_merge_attested(facts, w@.nodes);
            lemma_merge_sessions(facts, w@.nodes);
            lemma_merge_link(facts, w@.nodes);
            lemma_merge_version_lag(facts, w@.nodes);
        }
        w
    }
}

// ---------------------------------------------------------------------------
// Laws of the merge
// ---------------------------------------------------------------------------

/// Two strictly ascending sequences with the same members are equal.
pub proof fn lemma_ascending_same_members(a: Seq<Seq<char>>, b: Seq<Seq<char>>)
    requires
        strictly_ascending(a),
        strictly_ascending(b),
        forall|x: Seq<char>| #[trigger] a.contains(x) <==> b.contains(x),
    ensures
        a == b,
    decreases a.len(),
{
    if a.len() == 0 {
        if b.len() > 0 {
            assert(b.contains(b[0]));
            assert(a.contains(b[0]));
        }
        assert(a =~= b);
    } else {
        assert(a.contains(a[0]));
        let j = choose|j: int| 0 <= j < b.len() && b[j] == a[0];
        assert(b.contains(b[0]));
        assert(a.contains(b[0]));
        let k = choose|k: int| 0 <= k < a.len() && a[k] == b[0];
        if j > 0 && k > 0 {
            assert(lex_lt(b[0], b[j]));
            assert(lex_lt(a[0], a[k]));
            lemma_lex_asymmetric(b[0], a[0]);
        }
        assert(a[0] == b[0]);
        let ta = a.drop_first();
        let tb = b.drop_first();
        assert forall|x: Seq<char>| #[trigger] ta.contains(x) <==> (a.contains(x) && x != a[0]) by {
            if ta.contains(x) {
                let m = choose|m: int| 0 <= m < ta.len() && ta[m] == x;
                assert(a[m + 1] == x);
                assert(lex_lt(a[0], a[m + 1]));
                if x == a[0] {
                    lemma_lex_irreflexive(x);
                }
            }
            if a.contains(x) && x != a[0] {
                let m = choose|m: int| 0 <= m < a.len() && a[m] == x;
                assert(ta[m - 1] == x);
            }
        }
        assert forall|x: Seq<char>| #[trigger] tb.contains(x) <==> (b.contains(x) && x != b[0]) by {
            if tb.contains(x) {
                let m = choose|m: int| 0 <= m < tb.len() && tb[m] == x;
                assert(b[m + 1] == x);
                assert(lex_lt(b[0], b[m + 1]));
                if x == b[0] {
                    lemma_lex_irreflexive(x);
                }
            }
            if b.contains(x) && x != b[0] {
                let m = choose|m: int| 0 <= m < b.len() && b[m] == x;
                assert(tb[m - 1] == x);
            }
        }
        assert forall|x: Seq<char>| #[trigger] ta.contains(x) <==> tb.contains(x) by {
            assert(ta.contains(x) <==> (a.contains(x) && x != a[0]));
            assert(tb.contains(x) <==> (b.contains(x) && x != b[0]));
        }
        lemma_ascending_same_members(ta, tb);
        assert(a =~= seq![a[0]] + ta);
        assert(b =~= seq![b[0]] + tb);
    }
}

/// No entry has the name exactly when `last_value` gives nothing.
pub proof fn lemma_last_value_none<V>(pairs: Seq<(Seq<char>, V)>, name: Seq<char>)
    ensures
        last_value(pairs, name) is None <==> forall|k: int|
            0 <= k < pairs.len() ==> (#[trigger] pairs[k]).0 != name,
    decreases pairs.len(),
{
    if pairs.len() > 0 {
        let d = pairs.drop_last();
        lemma_last_value_none(d, name);
        assert(pairs[pairs.len() - 1] == pairs.last());
        if last_value(pairs, name) is None {
            assert forall|k: int| 0 <= k < pairs.len() implies (#[trigger] pairs[k]).0 != name by {
                if k < d.len() {
                    assert(d[k] == pairs[k]);
                }
            }
        }
        if forall|k: int| 0 <= k < pairs.len() ==> (#[trigger] pairs[k]).0 != name {
            assert forall|k: int| 0 <= k < d.len() implies (#[trigger] d[k]).0 != name by {
                assert(d[k] == pairs[k]);
            }
        }
    }
}

/// `last_value` gives the value of an entry with the name that no later
/// entry shares.
pub proof fn lemma_last_value_at<V>(pairs: Seq<(Seq<char>, V)>, name: Seq<char>, k: int)
    requires
        0 <= k < pairs.len(),
        pairs[k].0 == name,
        forall|m: int| k < m < pairs.len() ==> (#[trigger] pairs[m]).0 != name,
    ensures
        last_value(pairs, name) == Some(pairs[k].1),
    decreases pairs.len(),
{
    let l = pairs.len() - 1;
    assert(pairs[l] == pairs.last());
    if k < l {
        let d = pairs.drop_last();
        assert(pairs[l].0 != name);
        assert(d[k] == pairs[k]);
        assert forall|m: int| k < m < d.len() implies (#[trigger] d[m]).0 != name by {
            assert(d[m] == pairs[m]);
        }
        lemma_last_value_at(d, name, k);
    }
}

/// A name is among the names of some entries exactly when an entry has it.
pub proof fn lemma_names_of_contains<V>(pairs: Seq<(Seq<char>, V)>, name: Seq<char>)
    ensures
        names_of(pairs).contains(name) <==> exists|k: int|
            0 <= k < pairs.len() && (#[trigger] pairs[k]).0 == name,
{
    if names_of(pairs).contains(name) {
        let m = choose|m: int| 0 <= m < names_of(pairs).len() && names_of(pairs)[m] == name;
        assert(pairs[m].0 == name);
    }
    if exists|k: int| 0 <= k < pairs.len() && (#[trigger] pairs[k]).0 == name {
        let k = choose|k: int| 0 <= k < pairs.len() && (#[trigger] pairs[k]).0 == name;
        assert(names_of(pairs)[k] == name);
    }
}

proof fn lemma_concat_contains(a: Seq<Seq<char>>, b: Seq<Seq<char>>, x: Seq<char>)
    ensures
        (a + b).contains(x) <==> (a.contains(x) || b.contains(x)),
{
    if (a + b).contains(x) {
        let m = choose|m: int| 0 <= m < (a + b).len() && (a + b)[m] == x;
        if m < a.len() {
            assert(a[m] == x);
        } else {
            assert(b[m - a.len()] == x);
        }
    }
    if a.contains(x) {
        let m = choose|m: int| 0 <= m < a.len() && a[m] == x;
        assert((a + b)[m] == x);
    }
    if b.contains(x) {
        let m = choose|m: int| 0 <= m < b.len() && b[m] == x;
        assert((a + b)[m + a.len()] == x);
    }
}

/// The names that the facts mention, facet by facet.
proof fn lemma_all_names_contains(facts: FleetFacts, x: Seq<char>)
    ensures
        facts.all_names().contains(x) <==> (
            (exists|k: int| 0 <= k < facts.attest.len() && (#[trigger] facts.attest[k]).0 == x)
            || (facts.attest.len() == 0 && x == facts.host)
            || (exists|k: int| 0 <= k < facts.roster.len() && (#[trigger] facts.roster[k]).0 == x)
            || (exists|k: int| 0 <= k < facts.tether.len() && (#[trigger] facts.tether[k]).0 == x)
            || (exists|k: int| 0 <= k < facts.converge.len() && (#[trigger] facts.converge[k]).0 == x)
        ),
{
    let a = names_of(facts.attest);
    let h: Seq<Seq<char>> = if facts.attest.len() == 0 {
        seq![facts.host]
    } else {
        seq![]
    };
    let r = names_of(facts.roster);
    let t = names_of(facts.tether);
    let c = names_of(facts.converge);
    lemma_concat_contains(a + h + r + t, c, x);
    lemma_concat_contains(a + h + r, t, x);
    lemma_concat_contains(a + h, r, x);
    lemma_concat_contains(a, h, x);
    lemma_names_of_contains(facts.attest, x);
    lemma_names_of_contains(facts.roster, x);
    lemma_names_of_contains(facts.tether, x);
    lemma_names_of_contains(facts.converge, x);
    if facts.attest.len() == 0 && x == facts.host {
        assert(h[0] == x);
    }
    if h.contains(x) {
        assert(facts.attest.len() == 0 && x == facts.host);
    }
}

/// Every node that any facet names is in a merge (this host too when
/// attest names none), and every node of a merge is named by some facet or
/// is this host.
pub proof fn lemma_merge_names(facts: FleetFacts, nodes: Seq<NodeView>)
    requires
        facts.is_merge(nodes),
    ensures
        forall|k: int| 0 <= k < facts.attest.len() ==> exists|i: int|
            0 <= i < nodes.len() && nodes[i].node == (#[trigger] facts.attest[k]).0,
        forall|k: int| 0 <= k < facts.roster.len() ==> exists|i: int|
            0 <= i < nodes.len() && nodes[i].node == (#[trigger] facts.roster[k]).0,
        forall|k: int| 0 <= k < facts.tether.len() ==> exists|i: int|
            0 <= i < nodes.len() && nodes[i].node == (#[trigger] facts.tether[k]).0,
        forall|k: int| 0 <= k < facts.converge.len() ==> exists|i: int|
            0 <= i < nodes.len() && nodes[i].node == (#[trigger] facts.converge[k]).0,
        facts.attest.len() == 0 ==> exists|i: int| 0 <= i < nodes.len() && nodes[i].node == facts.host,
        forall|i: int| 0 <= i < nodes.len() ==> ((exists|k: int| 0 <= k < facts.attest.len() && facts.attest[k].0 == nodes[i].node) || (exists|k: int| 0 <= k < facts.roster.len() && facts.roster[k].0 == nodes[i].node) || (exists|k: int| 0 <= k < facts.tether.len() && facts.tether[k].0 == nodes[i].node) || (exists|k: int| 0 <= k < facts.converge.len() && facts.converge[k].0 == nodes[i].node) || (facts.attest.len() == 0 && (#[trigger] nodes[i]).node == facts.host)),
{
    assert forall|x: Seq<char>| #[trigger] facts.all_names().contains(x) == (
        (exists|k: int| 0 <= k < facts.attest.len() && (#[trigger] facts.attest[k]).0 == x)
        || (facts.attest.len() == 0 && x == facts.host)
        || (exists|k: int| 0 <= k < facts.roster.len() && (#[trigger] facts.roster[k]).0 == x)
        || (exists|k: int| 0 <= k < facts.tether.len() && (#[trigger] facts.tether[k]).0 == x)
        || (exists|k: int| 0 <= k < facts.converge.len() && (#[trigger] facts.converge[k]).0 == x)
    ) by {
        lemma_all_names_contains(facts, x);
    }
    assert forall|k: int| 0 <= k < facts.attest.len() implies exists|i: int|
        0 <= i < nodes.len() && nodes[i].node == (#[trigger] facts.attest[k]).0 by {
        assert(facts.all_names().contains(facts.attest[k].0));
    }
    assert forall|k: int| 0 <= k < facts.roster.len() implies exists|i: int|
        0 <= i < nodes.len() && nodes[i].node == (#[trigger] facts.roster[k]).0 by {
        assert(facts.all_names().contains(facts.roster[k].0));
    }
    assert forall|k: int| 0 <= k < facts.tether.len() implies exists|i: int|
        0 <= i < nodes.len() && nodes[i].node == (#[trigger] facts.tether[k]).0 by {
        assert(facts.all_names().contains(facts.tether[k].0));
    }
    assert forall|k: int| 0 <= k < facts.converge.len() implies exists|i: int|
        0 <= i < nodes.len() && nodes[i].node == (#[trigger] facts.converge[k]).0 by {
        assert(facts.all_names().contains(facts.converge[k].0));
    }
    if facts.attest.len() == 0 {
        assert(facts.all_names().contains(facts.host));
    }
    assert forall|i: int| 0 <= i < nodes.len() implies facts.all_names().contains(
        (#[trigger] nodes[i]).node,
    ) by {}
}

/// Each node of a merge is attested as the last attest entry
/// for it says, and false without one.
pub proof fn lemma_merge_attested(facts: FleetFacts, nodes: Seq<NodeView>)
    requires
        facts.is_merge(nodes),
    ensures
        forall|i: int, k: int|
            0 <= i < nodes.len() && 0 <= k < facts.attest.len() && (#[trigger] nodes[i]).node == (#[trigger] facts.attest[k]).0
                && (forall|m: int| k < m < facts.attest.len() ==> (#[trigger] facts.attest[m]).0 != nodes[i].node)
                ==> nodes[i].attested == facts.attest[k].1,
        forall|i: int|
            0 <= i < nodes.len() && (forall|k: int| 0 <= k < facts.attest.len() ==> (#[trigger] facts.attest[k]).0 != nodes[i].node)
                ==> (#[trigger] nodes[i]).attested == false,
{
    assert forall|i: int, k: int|
            0 <= i < nodes.len() && 0 <= k < facts.attest.len() && (#[trigger] nodes[i]).node == (#[trigger] facts.attest[k]).0
                && (forall|m: int| k < m < facts.attest.len() ==> (#[trigger] facts.attest[m]).0 != nodes[i].node)
                implies nodes[i].attested == facts.attest[k].1 by {
        lemma_last_value_at(facts.attest, nodes[i].node, k);
        assert(nodes[i] == facts.node_for(nodes[i].node));
    }
    assert forall|i: int|
            0 <= i < nodes.len() && (forall|k: int| 0 <= k < facts.attest.len() ==> (#[trigger] facts.attest[k]).0 != nodes[i].node)
                implies (#[trigger] nodes[i]).attested == false by {
        lemma_last_value_none(facts.attest, nodes[i].node);
        assert(nodes[i] == facts.node_for(nodes[i].node));
    }
}

/// Each node of a merge has, for its sessions, what the last roster entry
/// for it says, and nothing without one.
pub proof fn lemma_merge_sessions(facts: FleetFacts, nodes: Seq<NodeView>)
    requires
        facts.is_merge(nodes),
    ensures
        forall|i: int, k: int|
            0 <= i < nodes.len() && 0 <= k < facts.roster.len() && (#[trigger] nodes[i]).node == (#[trigger] facts.roster[k]).0
                && (forall|m: int| k < m < facts.roster.len() ==> (#[trigger] facts.roster[m]).0 != nodes[i].node)
                ==> nodes[i].sessions == Some(facts.roster[k].1),
        forall|i: int|
            0 <= i < nodes.len() && (forall|k: int| 0 <= k < facts.roster.len() ==> (#[trigger] facts.roster[k]).0 != nodes[i].node)
                ==> (#[trigger] nodes[i]).sessions is None,
{
    assert forall|i: int, k: int|
            0 <= i < nodes.len() && 0 <= k < facts.roster.len() && (#[trigger] nodes[i]).node == (#[trigger] facts.roster[k]).0
                && (forall|m: int| k < m < facts.roster.len() ==> (#[trigger] facts.roster[m]).0 != nodes[i].node)
                implies nodes[i].sessions == Some(facts.roster[k].1) by {
        lemma_last_value_at(facts.roster, nodes[i].node, k);
        assert(nodes[i] == facts.node_for(nodes[i].node));
    }
    assert forall|i: int|
            0 <= i < nodes.len() && (forall|k: int| 0 <= k < facts.roster.len() ==> (#[trigger] facts.roster[k]).0 != nodes[i].node)
                implies (#[trigger] nodes[i]).sessions is None by {
        lemma_last_value_none(facts.roster, nodes[i].node);
        assert(nodes[i] == facts.node_for(nodes[i].node));
    }
}

/// Each node of a merge has, for its link, what the last tether entry
/// for it says, and nothing without one.
pub proof fn lemma_merge_link(facts: FleetFacts, nodes: Seq<NodeView>)
    requires
        facts.is_merge(nodes),
    ensures
        forall|i: int, k: int|
            0 <= i < nodes.len() && 0 <= k < facts.tether.len() && (#[trigger] nodes[i]).node == (#[trigger] facts.tether[k]).0
                && (forall|m: int| k < m < facts.tether.len() ==> (#[trigger] facts.tether[m]).0 != nodes[i].node)
                ==> nodes[i].link == Some(facts.tether[k].1),
        forall|i: int|
            0 <= i < nodes.len() && (forall|k: int| 0 <= k < facts.tether.len() ==> (#[trigger] facts.tether[k]).0 != nodes[i].node)
                ==> (#[trigger] nodes[i]).link is None,
{
    assert forall|i: int, k: int|
            0 <= i < nodes.len() && 0 <= k < facts.tether.len() && (#[trigger] nodes[i]).node == (#[trigger] facts.tether[k]).0
                && (forall|m: int| k < m < facts.tether.len() ==> (#[trigger] facts.tether[m]).0 != nodes[i].node)
                implies nodes[i].link == Some(facts.tether[k].1) by {
        lemma_last_value_at(facts.tether, nodes[i].node, k);
        assert(nodes[i] == facts.node_for(nodes[i].node));
    }
    assert forall|i: int|
            0 <= i < nodes.len() && (forall|k: int| 0 <= k < facts.tether.len() ==> (#[trigger] facts.tether[k]).0 != nodes[i].node)
                implies (#[trigger] nodes[i]).link is None by {
        lemma_last_value_none(facts.tether, nodes[i].node);
        assert(nodes[i] == facts.node_for(nodes[i].node));
    }
}

/// Each node of a merge has, for its version lag, what the last converge entry
/// for it says, and nothing without one.
pub proof fn lemma_merge_version_lag(facts: FleetFacts, nodes: Seq<NodeView>)
    requires
        facts.is_merge(nodes),
    ensures
        forall|i: int, k: int|
            0 <= i < nodes.len() && 0 <= k < facts.converge.len() && (#[trigger] nodes[i]).node == (#[trigger] facts.converge[k]).0
                && (forall|m: int| k < m < facts.converge.len() ==> (#[trigger] facts.converge[m]).0 != nodes[i].node)
                ==> nodes[i].version_lag == Some(facts.converge[k].1),
        forall|i: int|
            0 <= i < nodes.len() && (forall|k: int| 0 <= k < facts.converge.len() ==> (#[trigger] facts.converge[k]).0 != nodes[i].node)
                ==> (#[trigger] nodes[i]).version_lag is None,
{
    assert forall|i: int, k: int|
            0 <= i < nodes.len() && 0 <= k < facts.converge.len() && (#[trigger] nodes[i]).node == (#[trigger] facts.converge[k]).0
                && (forall|m: int| k < m < facts.converge.len() ==> (#[trigger] facts.converge[m]).0 != nodes[i].node)
                implies nodes[i].version_lag == Some(facts.converge[k].1) by {
        lemma_last_value_at(facts.converge, nodes[i].node, k);
        assert(nodes[i] == facts.node_for(nodes[i].node));
    }
    assert forall|i: int|
            0 <= i < nodes.len() && (forall|k: int| 0 <= k < facts.converge.len() ==> (#[trigger] facts.converge[k]).0 != nodes[i].node)
                implies (#[trigger] nodes[i]).version_lag is None by {
        lemma_last_value_none(facts.converge, nodes[i].node);
        assert(nodes[i] == facts.node_for(nodes[i].node));
    }
}

/// The merged node list depends on the facets' data alone: any two lists
/// that are the merge of the same facts are the same list.
pub proof fn lemma_merge_is_determined(facts: FleetFacts, s1: Seq<NodeView>, s2: Seq<NodeView>)
    requires
        facts.is_merge(s1),
        facts.is_merge(s2),
    ensures
        s1 == s2,
{
    let n1 = s1.map_values(|n: NodeView| n.node);
    let n2 = s2.map_values(|n: NodeView| n.node);
    assert forall|x: Seq<char>| #[trigger] n1.contains(x) <==> facts.all_names().contains(x) by {
        if n1.contains(x) {
            let i = choose|i: int| 0 <= i < n1.len() && n1[i] == x;
            assert(s1[i].node == x);
        }
        if facts.all_names().contains(x) {
            let i = choose|i: int| 0 <= i < s1.len() && s1[i].node == x;
            assert(n1[i] == x);
        }
    }
    assert forall|x: Seq<char>| #[trigger] n2.contains(x) <==> facts.all_names().contains(x) by {
        if n2.contains(x) {
            let i = choose|i: int| 0 <= i < n2.len() && n2[i] == x;
            assert(s2[i].node == x);
        }
        if facts.all_names().contains(x) {
            let i = choose|i: int| 0 <= i < s2.len() && s2[i].node == x;
            assert(n2[i] == x);
        }
    }
    assert forall|x: Seq<char>| #[trigger] n1.contains(x) <==> n2.contains(x) by {
        assert(n1.contains(x) <==> facts.all_names().contains(x));
        assert(n2.contains(x) <==> facts.all_names().contains(x));
    }
    assert(strictly_ascending(n1));
    assert(strictly_ascending(n2));
    lemma_ascending_same_members(n1, n2);
    assert forall|i: int| 0 <= i < s1.len() implies s1[i] == s2[i] by {
        assert(n1[i] == n2[i]);
        assert(s1[i] == facts.node_for(s1[i].node));
        assert(s2[i] == facts.node_for(s2[i].node));
    }
    assert(s1 =~= s2);
}

/// With no facet data at all, the merge is this host alone: unattested,
/// with no link, session count or version lag known.
pub proof fn lemma_lone_host(facts: FleetFacts, nodes: Seq<NodeView>)
    requires
        facts.attest.len() == 0,
        facts.roster.len() == 0,
        facts.tether.len() == 0,
        facts.converge.len() == 0,
        facts.is_merge(nodes),
    ensures
        nodes == seq![
            NodeView {
                node: facts.host,
                attested: false,
                link: None,
                sessions: None,
                version_lag: None,
            },
        ],
{
    assert(facts.all_names() =~= seq![facts.host]);
    assert(facts.all_names()[0] == facts.host);
    assert(facts.all_names().contains(facts.host));
    let i = choose|i: int| 0 <= i < nodes.len() && nodes[i].node == facts.host;
    assert forall|j: int| 0 <= j < nodes.len() implies nodes[j].node == facts.host by {
        assert(facts.all_names().contains(nodes[j].node));
    }
    if nodes.len() > 1 {
        assert(lex_lt(nodes[0].node, nodes[1].node));
        lemma_lex_irreflexive(facts.host);
    }
    assert(nodes[0] == facts.node_for(facts.host));
    assert(nodes =~= seq![facts.node_for(facts.host)]);
}

/// A node is reported attested only if the last attest entry for it says
/// so, and a node that attest names is reported with what attest says.
pub proof fn lemma_attested_as_attest_says(facts: FleetFacts, nodes: Seq<NodeView>, i: int)
    requires
        facts.is_merge(nodes),
        0 <= i < nodes.len(),
    ensures
        nodes[i].attested <==> last_value(facts.attest, nodes[i].node) == Some(true),
{
    assert(nodes[i] == facts.node_for(nodes[i].node));
}

} // verus!
