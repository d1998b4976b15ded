//! Node and transposition-table hit counters per search depth.
use vstd::prelude::*;

verus! {

pub const MAX_DEPTH: usize = 20;

/// Counters for depths 0 to `MAX_DEPTH`.
pub struct DepthStats {
    pub nodes: Vec<u64>,
    pub hits: Vec<u64>,
}

fn zeros(n: usize) -> (v: Vec<u64>)
    ensures
        v@ == Seq::new(n as nat, |i: int| 0u64),
{
    let mut v: Vec<u64> = Vec::new();
    let mut i: usize = 0;
    while i < n
        invariant
            i <= n,
            v@ == Seq::new(i as nat, |j: int| 0u64),
        decreases n - i,
    {
        v.push(0);
        i += 1;
        assert(v@ =~= Seq::new(i as nat, |j: int| 0u64));
    }
    v
}

impl DepthStats {
    pub open spec fn wf(&self) -> bool {
        self.nodes.len() == MAX_DEPTH + 1 && self.hits.len() == MAX_DEPTH + 1
    }

    /// All counters at zero.
    pub fn new() -> (s: Self)
        ensures
            s.wf(),
            forall|d: int| 0 <= d <= MAX_DEPTH ==> s.nodes@[d] == 0 && s.hits@[d] == 0,
    {
        DepthStats { nodes: zeros(MAX_DEPTH + 1), hits: zeros(MAX_DEPTH + 1) }
    }

    /// Counts a node at `depth` (depths past `MAX_DEPTH` are not counted).
    pub fn inc_nodes(&mut self, depth: usize)
        requires
            old(self).wf(),
        ensures
            final(self).wf(),
            final(self).hits@ == old(self).hits@,
            depth <= MAX_DEPTH ==> final(self).nodes@ == old(self).nodes@.update(
                depth as int,
                old(self).nodes@[depth as int].wrapping_add(1),
            ),
            depth > MAX_DEPTH ==> final(self).nodes@ == old(self).nodes@,
    {
        if depth <= MAX_DEPTH {
            let n = self.nodes[depth].wrapping_add(1);
            self.nodes.set(depth, n);
        }
    }

    /// Counts a transposition-table hit at `depth` (depths past `MAX_DEPTH`
    /// are not counted).
    pub fn inc_tt_hits(&mut self, depth: usize)
        requires
            old(self).wf(),
        ensures
            final(self).wf(),
            final(self).nodes@ == old(self).nodes@,
            depth <= MAX_DEPTH ==> final(self).hits@ == old(self).hits@.update(
                depth as int,
                old(self).hits@[depth as int].wrapping_add(1),
            ),
            depth > MAX_DEPTH ==> final(self).hits@ == old(self).hits@,
    {
        if depth <= MAX_DEPTH {
            let n = self.hits[depth].wrapping_add(1);
            self.hits.set(depth, n);
        }
    }

    /// Sets every counter to zero.
    pub fn reset_stats(&mut self)
        requires
            old(self).wf(),
        ensures
            final(self).wf(),
            forall|d: int| 0 <= d <= MAX_DEPTH ==> final(self).nodes@[d] == 0 && final(self).hits@[d] == 0,
    {
        let mut i: usize = 0;
        while i <= MAX_DEPTH
            invariant
                self.wf(),
                i <= MAX_DEPTH + 1,
                forall|d: int| 0 <= d < i ==> self.nodes@[d] == 0 && self.hits@[d] == 0,
            decreases MAX_DEPTH + 1 - i,
        {
            self.nodes.set(i, 0);
            self.hits.set(i, 0);
            i += 1;
        }
    }
}

/// The depths below `n` that saw nodes, each with its node and hit counts.
pub open spec fn busy_depths(nodes: Seq<u64>, hits: Seq<u64>, n: int) -> Seq<(usize, u64, u64)>
    decreases n,
{
    if n <= 0 {
        seq![]
    } else if nodes[n - 1] > 0 {
        busy_depths(nodes, hits, n - 1).push(((n - 1) as usize, nodes[n - 1], hits[n - 1]))
    } else {
        busy_depths(nodes, hits, n - 1)
    }
}

/// Nodes counted at the depths below `n`.
pub open spec fn node_total(nodes: Seq<u64>, n: int) -> int
    decreases n,
{
    if n <= 0 {
        0
    } else {
        node_total(nodes, n - 1) + nodes[n - 1]
    }
}

/// Hits counted at the depths below `n` that saw nodes.
pub open spec fn hit_total(nodes: Seq<u64>, hits: Seq<u64>, n: int) -> int
    decreases n,
{
    if n <= 0 {
        0
    } else if nodes[n - 1] > 0 {
        hit_total(nodes, hits, n - 1) + hits[n - 1]
    } else {
        hit_total(nodes, hits, n - 1)
    }
}

/// What the statistics report shows: each depth that saw nodes, and the
/// totals over them.
pub struct StatsSummary {
    pub rows: Vec<(usize, u64, u64)>,
    pub total_nodes: u64,
    pub total_hits: u64,
}

impl DepthStats {
    /// The rows and totals of the statistics report.
    pub fn summary(&self) -> (r: StatsSummary)
        requires
            self.wf(),
            node_total(self.nodes@, MAX_DEPTH + 1) <= u64::MAX,
            hit_total(self.nodes@, self.hits@, MAX_DEPTH + 1) <= u64::MAX,
        ensures
            r.rows@ == busy_depths(self.nodes@, self.hits@, MAX_DEPTH + 1),
            r.total_nodes == node_total(self.nodes@, MAX_DEPTH + 1),
            r.total_hits == hit_total(self.nodes@, self.hits@, MAX_DEPTH + 1),
    {
        let mut rows: Vec<(usize, u64, u64)> = Vec::new();
        let mut total_nodes: u64 = 0;
        let mut total_hits: u64 = 0;
        let mut d: usize = 0;
        while d <= MAX_DEPTH
            invariant
                self.wf(),
                d <= MAX_DEPTH + 1,
                node_total(self.nodes@, MAX_DEPTH + 1) <= u64::MAX,
                hit_total(self.nodes@, self.hits@, MAX_DEPTH + 1) <= u64::MAX,
                rows@ == busy_depths(self.nodes@, self.hits@, d as int),
                total_nodes == node_total(self.nodes@, d as int),
                total_hits == hit_total(self.nodes@, self.hits@, d as int),
            decreases MAX_DEPTH + 1 - d,
        {
            proof {
                lemma_totals_grow(self.nodes@, self.hits@, d as int + 1, MAX_DEPTH + 1);
            }
            let nodes = self.nodes[d];
            let hits = self.hits[d];
            if nodes > 0 {
                total_nodes = total_nodes + nodes;
                total_hits = total_hits + hits;
                rows.push((d, nodes, hits));
            }
            d += 1;
        }
        StatsSummary { rows, total_nodes, total_hits }
    }
}

/// The totals only grow with the number of depths.
proof fn lemma_totals_grow(nodes: Seq<u64>, hits: Seq<u64>, m: int, n: int)
    requires
        0 <= m <= n,
    ensures
        node_total(nodes, m) <= node_total(nodes, n),
        hit_total(nodes, hits, m) <= hit_total(nodes, hits, n),
    decreases n - m,
{
    if m < n {
        lemma_totals_grow(nodes, hits, m, n - 1);
    }
}

/// A line of the search log: `depth` tabs, the message, a line feed.
pub open spec fn log_line_text(depth: nat, message: Seq<char>) -> Seq<char> {
    Seq::new(depth, |i: int| '\t') + message + seq!['\n']
}

/// The line that the search log records for `message` at `depth`.
pub fn log_line(depth: usize, message: &str) -> (r: String)
    ensures
        r@ == log_line_text(depth as nat, message@),
{
    let mut out: Vec<char> = Vec::new();
    let mut i: usize = 0;
    while i < depth
        invariant
            i <= depth,
            out@ == Seq::new(i as nat, |j: int| '\t'),
        decreases depth - i,
    {
        out.push('\t');
        i += 1;
        assert(out@ =~= Seq::new(i as nat, |j: int| '\t'));
    }
    let chars = crate::text::text_chars(message);
    let mut k: usize = 0;
    while k < chars.len()
        invariant
            k <= chars.len(),
            out@ == Seq::new(depth as nat, |j: int| '\t') + chars@.subrange(0, k as int),
        decreases chars.len() - k,
    {
        out.push(chars[k]);
        k += 1;
        assert(out@ =~= Seq::new(depth as nat, |j: int| '\t') + chars@.subrange(0, k as int));
    }
    out.push('\n');
    assert(chars@.subrange(0, chars@.len() as int) =~= chars@);
    assert(out@ =~= log_line_text(depth as nat, message@));
    crate::text::chars_to_string(&out)
}

} // verus!
