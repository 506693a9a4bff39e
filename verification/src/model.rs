//! The `WholeSelf` record and its parts, with the mathematical views that
//! the contracts speak of, and the table of facet statuses.

use vstd::prelude::*;

verus! {

/// Status of a single corpus facet query.
#[derive(Clone, Copy, Debug, PartialEq, Eq, Structural)]
pub enum FacetStatus {
    /// Data collected successfully (`ok` in the JSON record).
    Collected,
    /// Facet CLI is not installed.
    Degraded,
    /// Facet CLI ran but returned an error.
    Error,
    /// Facet data is absent for an unknown reason.
    Unknown,
}

impl View for FacetStatus {
    type V = FacetStatus;

    open spec fn view(&self) -> FacetStatus {
        *self
    }
}

impl DeepView for FacetStatus {
    type V = FacetStatus;

    open spec fn deep_view(&self) -> FacetStatus {
        *self
    }
}

/// A floating-point reading, held as what stands for it here: the bit
/// pattern of the IEEE-754 double, which identifies the value exactly, and
/// its rendering with one digit after the decimal point. Both are produced
/// where the value is read as a float.
pub struct FloatReading {
    /// `f64::to_bits` of the value.
    pub bits: u64,
    /// The value formatted as `{:.1}` formats it.
    pub one_decimal: String,
}

/// The mathematical view of a [`FloatReading`].
pub struct FloatReadingView {
    pub bits: u64,
    pub one_decimal: Seq<char>,
}

impl View for FloatReading {
    type V = FloatReadingView;

    open spec fn view(&self) -> FloatReadingView {
        FloatReadingView { bits: self.bits, one_decimal: self.one_decimal@ }
    }
}

impl DeepView for FloatReading {
    type V = FloatReadingView;

    open spec fn deep_view(&self) -> FloatReadingView {
        self@
    }
}

impl FloatReading {
    /// A copy of this reading.
    pub fn duplicate(&self) -> (r: FloatReading)
        ensures
            r@ == self@,
    {
        FloatReading { bits: self.bits, one_decimal: self.one_decimal.clone() }
    }
}

/// Link health information from `wm-tether`.
pub struct LinkInfo {
    /// Is the link currently up?
    pub up: bool,
    /// Round-trip time in milliseconds, if measured.
    pub rtt_ms: Option<FloatReading>,
}

/// The mathematical view of a [`LinkInfo`].
pub struct LinkView {
    pub up: bool,
    pub rtt_ms: Option<FloatReadingView>,
}

impl View for LinkInfo {
    type V = LinkView;

    open spec fn view(&self) -> LinkView {
        LinkView { up: self.up, rtt_ms: self.rtt_ms.deep_view() }
    }
}

impl DeepView for LinkInfo {
    type V = LinkView;

    open spec fn deep_view(&self) -> LinkView {
        self@
    }
}

impl LinkInfo {
    /// A copy of this link record.
    pub fn duplicate(&self) -> (r: LinkInfo)
        ensures
            r@ == self@,
    {
        let rtt_ms = match &self.rtt_ms {
            Some(reading) => Some(reading.duplicate()),
            None => None,
        };
        LinkInfo { up: self.up, rtt_ms }
    }
}

/// Per-node information assembled from all facets.
pub struct NodeInfo {
    /// Node identifier (hostname or NATS subject prefix).
    pub node: String,
    /// Whether this node has a valid corpus attestation.
    pub attested: bool,
    /// Link health from `wm-tether` (None if tether unavailable).
    pub link: Option<LinkInfo>,
    /// Active session count from `muster` (None if roster unavailable).
    pub sessions: Option<u32>,
    /// Version lag in commits behind the converged state (None if converge unavailable).
    pub version_lag: Option<u32>,
}

/// The mathematical view of a [`NodeInfo`].
pub struct NodeView {
    pub node: Seq<char>,
    pub attested: bool,
    pub link: Option<LinkView>,
    pub sessions: Option<u32>,
    pub version_lag: Option<u32>,
}

impl View for NodeInfo {
    type V = NodeView;

    open spec fn view(&self) -> NodeView {
        NodeView {
            node: self.node@,
            attested: self.attested,
            link: self.link.deep_view(),
            sessions: self.sessions,
            version_lag: self.version_lag,
        }
    }
}

impl DeepView for NodeInfo {
    type V = NodeView;

    open spec fn deep_view(&self) -> NodeView {
        self@
    }
}

/// A held lease from `corpus-arbiter`.
pub struct LeaseInfo {
    /// Lease key / name.
    pub key: String,
    /// Which node holds this lease.
    pub holder: String,
    /// When the lease expires (ISO 8601), if known.
    pub expires: Option<String>,
}

/// The mathematical view of a [`LeaseInfo`].
pub struct LeaseView {
    pub key: Seq<char>,
    pub holder: Seq<char>,
    pub expires: Option<Seq<char>>,
}

impl View for LeaseInfo {
    type V = LeaseView;

    open spec fn view(&self) -> LeaseView {
        LeaseView { key: self.key@, holder: self.holder@, expires: self.expires.deep_view() }
    }
}

impl DeepView for LeaseInfo {
    type V = LeaseView;

    open spec fn deep_view(&self) -> LeaseView {
        self@
    }
}

/// The complete self-portrait: all nodes, leases, and whether memory is converged.
pub struct WholeSelf {
    /// All known nodes that constitute the entity, in ascending order of name.
    pub nodes: Vec<NodeInfo>,
    /// Currently held leases across the fleet.
    pub leases: Vec<LeaseInfo>,
    /// Is the entire fleet converged on the same memory state?
    pub converged: bool,
    /// Timestamp when this record was generated (ISO 8601).
    pub generated_ts: String,
    /// Facet collection status, one entry per facet name, in the order in
    /// which the facets were queried — degraded facets are named here.
    pub facet_status: Vec<(String, FacetStatus)>,
}

/// The mathematical view of a [`WholeSelf`].
pub struct WholeSelfView {
    pub nodes: Seq<NodeView>,
    pub leases: Seq<LeaseView>,
    pub converged: bool,
    pub generated_ts: Seq<char>,
    pub facet_status: Seq<(Seq<char>, FacetStatus)>,
}

impl View for WholeSelf {
    type V = WholeSelfView;

    open spec fn view(&self) -> WholeSelfView {
        WholeSelfView {
            nodes: self.nodes.deep_view(),
            leases: self.leases.deep_view(),
            converged: self.converged,
            generated_ts: self.generated_ts@,
            facet_status: self.facet_status.deep_view(),
        }
    }
}

// ---------------------------------------------------------------------------
// The facet-status table
// ---------------------------------------------------------------------------

/// The first index at or after `i` whose entry is named `name`, or -1.
pub open spec fn find_name<V>(table: Seq<(Seq<char>, V)>, name: Seq<char>, i: int) -> int
    decreases table.len() - i,
{
    if 0 <= i < table.len() {
        if table[i].0 == name {
            i
        } else {
            find_name(table, name, i + 1)
        }
    } else {
        -1
    }
}

/// The status recorded for `name`, if any: that of its first entry.
pub open spec fn status_of(table: Seq<(Seq<char>, FacetStatus)>, name: Seq<char>) -> Option<
    FacetStatus,
> {
    let i = find_name(table, name, 0);
    if i >= 0 {
        Some(table[i].1)
    } else {
        None
    }
}

/// The table after recording `status` for `name`, as a map's `insert` does:
/// the entry named `name` is replaced in place, or a new entry is added at
/// the end.
pub open spec fn status_insert(
    table: Seq<(Seq<char>, FacetStatus)>,
    name: Seq<char>,
    status: FacetStatus,
) -> Seq<(Seq<char>, FacetStatus)> {
    let i = find_name(table, name, 0);
    if i >= 0 {
        table.update(i, (name, status))
    } else {
        table.push((name, status))
    }
}

/// No two entries of the table have the same name.
pub open spec fn names_unique<V>(table: Seq<(Seq<char>, V)>) -> bool {
    forall|i: int, j: int|
        0 <= i < table.len() && 0 <= j < table.len() && i != j ==> table[i].0 != table[j].0
}

/// Records `status` for the facet `name`, replacing an earlier entry of that
/// name or adding one at the end.
pub fn insert_status(table: &mut Vec<(String, FacetStatus)>, name: &str, status: FacetStatus)
    ensures
        final(table).deep_view() == status_insert(old(table).deep_view(), name@, status),
        exists|i: int|
            0 <= i < final(table)@.len() && final(table).deep_view()[i] == (name@, status),
        forall|i: int|
            0 <= i < old(table)@.len() && (#[trigger] old(table).deep_view()[i]).0 != name@
                ==> final(table).deep_view()[i] == old(table).deep_view()[i],
        (exists|i: int| 0 <= i < old(table)@.len() && (#[trigger] old(table).deep_view()[i]).0
            == name@) ==> final(table)@.len() == old(table)@.len(),
        !(exists|i: int| 0 <= i < old(table)@.len() && (#[trigger] old(table).deep_view()[i]).0
            == name@) ==> final(table)@.len() == old(table)@.len() + 1,
{
    proof {
        lemma_find_name(old(table).deep_view(), name@, 0);
    }
    let ghost t0 = table.deep_view();
    let mut i: usize = 0;
    while i < table.len()
        invariant
            i <= table.len(),
            table.deep_view() == t0,
            old(table).deep_view() == t0,
            find_name(t0, name@, 0) == find_name(t0, name@, i as int),
        decreases table.len() - i,
    {
        if crate::text::str_eq(table[i].0.as_str(), name) {
            assert(t0[i as int].0 == name@);
            assert(find_name(t0, name@, 0) == i);
            table.set(i, (name.to_owned(), status));
            assert(table.deep_view() =~= status_insert(t0, name@, status));
            assert(table.deep_view()[i as int] == (name@, status));
            return;
        }
        i += 1;
    }
    table.push((name.to_owned(), status));
    assert(table.deep_view() =~= status_insert(t0, name@, status));
    assert(table.deep_view()[t0.len() as int] == (name@, status));
}

// ---------------------------------------------------------------------------
// Laws of the facet-status table
// ---------------------------------------------------------------------------

/// What `find_name` finds: the first entry named `name` at or after `j`,
/// or -1 when there is none.
pub proof fn lemma_find_name<V>(table: Seq<(Seq<char>, V)>, name: Seq<char>, j: int)
    requires
        0 <= j,
    ensures
        find_name(table, name, j) == -1 ==> forall|m: int|
            j <= m < table.len() ==> table[m].0 != name,
        find_name(table, name, j) != -1 ==> {
            let r = find_name(table, name, j);
            &&& j <= r < table.len()
            &&& table[r].0 == name
            &&& forall|m: int| j <= m < r ==> table[m].0 != name
        },
    decreases table.len() - j,
{
    if j < table.len() && table[j].0 != name {
        lemma_find_name(table, name, j + 1);
    }
}

/// After recording a status for a facet, the table gives back that status
/// for that facet.
pub proof fn lemma_status_read_after_write(
    table: Seq<(Seq<char>, FacetStatus)>,
    name: Seq<char>,
    status: FacetStatus,
)
    ensures
        status_of(status_insert(table, name, status), name) == Some(status),
{
    let t2 = status_insert(table, name, status);
    lemma_find_name(table, name, 0);
    lemma_find_name(t2, name, 0);
    let i = find_name(table, name, 0);
    let r = find_name(t2, name, 0);
    if i >= 0 {
        assert(t2[i].0 == name);
        if r == -1 {
            assert(false);
        }
        if r < i {
            assert(t2[r] == table[r]);
        }
    } else {
        assert(t2[table.len() as int].0 == name);
        if r == -1 {
            assert(false);
        }
        if r < table.len() {
            assert(t2[r] == table[r]);
        }
    }
}

/// Recording a status for one facet leaves the status of every other facet
/// as it was.
pub proof fn lemma_status_other_names(
    table: Seq<(Seq<char>, FacetStatus)>,
    name: Seq<char>,
    status: FacetStatus,
    other: Seq<char>,
)
    requires
        other != name,
    ensures
        status_of(status_insert(table, name, status), other) == status_of(table, other),
{
    let t2 = status_insert(table, name, status);
    lemma_find_name(table, other, 0);
    lemma_find_name(t2, other, 0);
    lemma_find_name(table, name, 0);
    let a = find_name(table, other, 0);
    let b = find_name(t2, other, 0);
    assert forall|m: int| 0 <= m < table.len() implies t2[m].0 == other <==> table[m].0 == other by {
        if t2[m] != table[m] {
            assert(t2[m].0 == name);
        }
    }
    if a >= 0 {
        if b == -1 {
            assert(t2[a].0 == other);
        } else if b < a {
            assert(table[b].0 == other);
        } else if a < b {
            assert(t2[a].0 == other);
        }
        assert(a == b);
        if t2[a] != table[a] {
            assert(t2[a].0 == name);
        }
    } else {
        if b >= 0 {
            if b < table.len() {
                assert(table[b].0 == other);
            } else {
                assert(t2[b].0 == name);
            }
        }
    }
}

/// Recording a status keeps the facet names of the table distinct.
pub proof fn lemma_status_insert_names_unique(
    table: Seq<(Seq<char>, FacetStatus)>,
    name: Seq<char>,
    status: FacetStatus,
)
    requires
        names_unique(table),
    ensures
        names_unique(status_insert(table, name, status)),
{
    lemma_find_name(table, name, 0);
}

/// Collecting the five facets, in the order in which the original queries
/// them, into an empty table records a status for every one of them: none
/// is dropped, and each keeps the status it was given.
pub proof fn lemma_every_facet_recorded(
    attest: FacetStatus,
    roster: FacetStatus,
    converge: FacetStatus,
    arbiter: FacetStatus,
    tether: FacetStatus,
)
    ensures
        ({
            let t = status_insert(
                status_insert(
                    status_insert(
                        status_insert(
                            status_insert(Seq::empty(), "attest"@, attest),
                            "roster"@,
                            roster,
                        ),
                        "converge"@,
                        converge,
                    ),
                    "arbiter"@,
                    arbiter,
                ),
                "tether"@,
                tether,
            );
            &&& t.len() == 5
            &&& names_unique(t)
            &&& status_of(t, "attest"@) == Some(attest)
            &&& status_of(t, "roster"@) == Some(roster)
            &&& status_of(t, "converge"@) == Some(converge)
            &&& status_of(t, "arbiter"@) == Some(arbiter)
            &&& status_of(t, "tether"@) == Some(tether)
        }),
{
    reveal_strlit("attest");
    reveal_strlit("roster");
    reveal_strlit("converge");
    reveal_strlit("arbiter");
    reveal_strlit("tether");
    let t0: Seq<(Seq<char>, FacetStatus)> = Seq::empty();
    let t1 = status_insert(t0, "attest"@, attest);
    let t2 = status_insert(t1, "roster"@, roster);
    let t3 = status_insert(t2, "converge"@, converge);
    let t4 = status_insert(t3, "arbiter"@, arbiter);
    let t5 = status_insert(t4, "tether"@, tether);
    assert("attest"@ != "roster"@) by {
        assert("attest"@[0] != "roster"@[0]);
    }
    assert("attest"@ != "converge"@) by {
        assert("attest"@[0] != "converge"@[0]);
    }
    assert("attest"@ != "arbiter"@) by {
        assert("attest"@.len() != "arbiter"@.len());
    }
    assert("attest"@ != "tether"@) by {
        assert("attest"@[0] != "tether"@[0]);
    }
    assert("roster"@ != "converge"@) by {
        assert("roster"@[0] != "converge"@[0]);
    }
    assert("roster"@ != "arbiter"@) by {
        assert("roster"@[0] != "arbiter"@[0]);
    }
    assert("roster"@ != "tether"@) by {
        assert("roster"@[0] != "tether"@[0]);
    }
    assert("converge"@ != "arbiter"@) by {
        assert("converge"@[0] != "arbiter"@[0]);
    }
    assert("converge"@ != "tether"@) by {
        assert("converge"@[0] != "tether"@[0]);
    }
    assert("arbiter"@ != "tether"@) by {
        assert("arbiter"@[0] != "tether"@[0]);
    }
    lemma_find_name(t0, "attest"@, 0);
    lemma_find_name(t1, "roster"@, 0);
    lemma_find_name(t2, "converge"@, 0);
    lemma_find_name(t3, "arbiter"@, 0);
    lemma_find_name(t4, "tether"@, 0);
    lemma_status_insert_names_unique(t0, "attest"@, attest);
    lemma_status_insert_names_unique(t1, "roster"@, roster);
    lemma_status_insert_names_unique(t2, "converge"@, converge);
    lemma_status_insert_names_unique(t3, "arbiter"@, arbiter);
    lemma_status_insert_names_unique(t4, "tether"@, tether);

    lemma_status_read_after_write(t4, "tether"@, tether);
    lemma_status_read_after_write(t3, "arbiter"@, arbiter);
    lemma_status_other_names(t4, "tether"@, tether, "arbiter"@);
    lemma_status_read_after_write(t2, "converge"@, converge);
    lemma_status_other_names(t3, "arbiter"@, arbiter, "converge"@);
    lemma_status_other_names(t4, "tether"@, tether, "converge"@);
    lemma_status_read_after_write(t1, "roster"@, roster);
    lemma_status_other_names(t2, "converge"@, converge, "roster"@);
    lemma_status_other_names(t3, "arbiter"@, arbiter, "roster"@);
    lemma_status_other_names(t4, "tether"@, tether, "roster"@);
    lemma_status_read_after_write(t0, "attest"@, attest);
    lemma_status_other_names(t1, "roster"@, roster, "attest"@);
    lemma_status_other_names(t2, "converge"@, converge, "attest"@);
    lemma_status_other_names(t3, "arbiter"@, arbiter, "attest"@);
    lemma_status_other_names(t4, "tether"@, tether, "attest"@);
}

} // verus!
