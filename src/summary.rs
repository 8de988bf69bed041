use vstd::prelude::*;

verus! {

/// Member lists, each with the length of its files.
pub type Lists = Seq<(u64, Seq<Vec<u8>>)>;

/// The number of files over all lists.
pub open spec fn total_files(g: Lists) -> int
    decreases g.len(),
{
    if g.len() == 0 {
        0
    } else {
        total_files(g.drop_last()) + g.last().1.len()
    }
}

/// The number of files beyond the first of each list.
pub open spec fn total_candidates(g: Lists) -> int
    decreases g.len(),
{
    if g.len() == 0 {
        0
    } else {
        total_candidates(g.drop_last()) + (g.last().1.len() - 1)
    }
}

/// The bytes that removing all but the first file of each list would free.
pub open spec fn total_bytes(g: Lists) -> int
    decreases g.len(),
{
    if g.len() == 0 {
        0
    } else {
        total_bytes(g.drop_last()) + g.last().0 * (g.last().1.len() - 1)
    }
}

/// No list is empty.
pub open spec fn lists_nonempty(g: Lists) -> bool {
    forall|k: int| 0 <= k < g.len() ==> (#[trigger] g[k]).1.len() > 0
}

/// Totals over a prefix do not exceed those over the whole.
pub proof fn lemma_totals_monotone(g: Lists, k: int)
    requires
        lists_nonempty(g),
        0 <= k <= g.len(),
    ensures
        total_files(g.take(k)) <= total_files(g),
        total_candidates(g.take(k)) <= total_candidates(g),
        total_bytes(g.take(k)) <= total_bytes(g),
    decreases g.len(),
{
    if k == g.len() {
        assert(g.take(k) =~= g);
    } else {
        assert(g.take(k) =~= g.drop_last().take(k));
        assert(g.last().1.len() > 0);
        lemma_totals_monotone(g.drop_last(), k);
        assert(g.last().0 * (g.last().1.len() - 1) >= 0) by (nonlinear_arith)
            requires
                g.last().1.len() >= 1,
        ;
    }
}

/// Each list holds one file that is not a candidate.
pub proof fn lemma_candidates_files(g: Lists)
    ensures
        total_candidates(g) + g.len() == total_files(g),
    decreases g.len(),
{
    if g.len() > 0 {
        lemma_candidates_files(g.drop_last());
    }
}

/// Aggregate counts of a run.
pub struct Summary {
    pub files: u64,
    pub candidates: u64,
    pub bytes: u64,
}

impl Summary {
    /// The files that are kept: the first of each list.
    pub fn unique(&self) -> (r: u64)
        requires
            self.candidates <= self.files,
        ensures
            r == self.files - self.candidates,
    {
        self.files - self.candidates
    }
}

/// Adds one list of `n` files of length `size` to the counts, or `None`
/// where a count would leave `u64`.
pub fn tally(s: Summary, size: u64, n: usize) -> (r: Option<Summary>)
    requires
        n >= 1,
    ensures
        match r {
            Some(t) => t.files == s.files + n && t.candidates == s.candidates + (n - 1) && t.bytes
                == s.bytes + size * (n - 1),
            None => s.files + n > u64::MAX || s.candidates + (n - 1) > u64::MAX || s.bytes + size
                * (n - 1) > u64::MAX,
        },
{
    let m = n as u64;
    let files = match s.files.checked_add(m) {
        Some(f) => f,
        None => return None,
    };
    let candidates = match s.candidates.checked_add(m - 1) {
        Some(c) => c,
        None => return None,
    };
    let wasted = match size.checked_mul(m - 1) {
        Some(w) => w,
        None => {
            assert(s.bytes + size * (n - 1) > u64::MAX) by (nonlinear_arith)
                requires
                    size * (n - 1) > u64::MAX,
                    s.bytes >= 0,
            ;
            return None;
        },
    };
    let bytes = match s.bytes.checked_add(wasted) {
        Some(b) => b,
        None => return None,
    };
    Some(Summary { files, candidates, bytes })
}

} // verus!
