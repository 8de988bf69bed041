use std::collections::HashMap;
use vstd::prelude::*;

use crate::summary::{
    lemma_candidates_files, lemma_totals_monotone, lists_nonempty, tally, total_bytes,
    total_candidates, total_files, Lists, Summary,
};
use crate::order::{lists_of, present, sorted_by_least};
use crate::walker::Entry;

verus! {

broadcast use vstd::std_specs::hash::group_hash_axioms;

/// The paths of one length bucket whose contents have one digest, in
/// discovery order.
pub struct HashGroup {
    pub digest: [u8; 32],
    pub paths: Vec<Vec<u8>>,
}

/// The paths that share one length: either the plain length bucket, or that
/// bucket refined into groups by content digest.
pub enum Same {
    SameSize(Vec<Vec<u8>>),
    Checksums(Vec<HashGroup>),
}

impl Same {
    /// The member lists this value stands for: the bucket itself, or one list
    /// per digest.
    pub open spec fn lists(self) -> Seq<Seq<Vec<u8>>> {
        match self {
            Same::SameSize(ps) => seq![ps@],
            Same::Checksums(gs) => Seq::new(gs@.len(), |j: int| gs@[j].paths@),
        }
    }

    /// No member list is empty, and the digests of a refined bucket differ.
    pub open spec fn wf(self) -> bool {
        match self {
            Same::SameSize(ps) => ps@.len() > 0,
            Same::Checksums(gs) => hash_groups_wf(gs@),
        }
    }
}

/// No digest group is empty and the digests differ.
pub open spec fn hash_groups_wf(gs: Seq<HashGroup>) -> bool {
    &&& forall|j: int| 0 <= j < gs.len() ==> (#[trigger] gs[j]).paths@.len() > 0
    &&& forall|j: int, l: int|
        0 <= j < l < gs.len() ==> (#[trigger] gs[j]).digest@ != (#[trigger] gs[l]).digest@
}

/// Whether `o` is the digest `h`.
pub open spec fn has_digest(o: Option<[u8; 32]>, h: Seq<u8>) -> bool {
    o matches Some(d) && d@ == h
}

/// The paths of `ps` whose digest in `ds` (same positions) is `h`, in order.
/// A path without a digest (its contents could not be read) is in no group.
pub open spec fn select(ps: Seq<Vec<u8>>, ds: Seq<Option<[u8; 32]>>, h: Seq<u8>) -> Seq<Vec<u8>>
    decreases ps.len(),
{
    if ps.len() == 0 {
        seq![]
    } else {
        let n = ps.len() - 1;
        select(ps.drop_last(), ds.take(n), h) + if has_digest(ds[n], h) {
            seq![ps[n]]
        } else {
            seq![]
        }
    }
}

/// `gs` groups exactly the paths of `ps` that have a digest, by digest.
pub open spec fn refines(ps: Seq<Vec<u8>>, ds: Seq<Option<[u8; 32]>>, gs: Seq<HashGroup>) -> bool {
    &&& forall|j: int|
        0 <= j < gs.len() ==> (#[trigger] gs[j]).paths@ == select(ps, ds, gs[j].digest@)
    &&& forall|n: int|
        0 <= n < ps.len() && (#[trigger] ds[n]) is Some ==> exists|j: int|
            0 <= j < gs.len() && gs[j].digest@ == ds[n]->Some_0@
}

/// Whether a value is a bucket that content digests must split.
pub open spec fn needs_digests(same: Same) -> bool {
    same matches Same::SameSize(ps) && ps@.len() > 1
}

/// The number of digests a bucket needs: one per path of a multi-member bucket.
pub open spec fn digests_needed(same: Same) -> nat {
    match same {
        Same::SameSize(ps) => if ps@.len() > 1 {
            ps@.len()
        } else {
            0
        },
        Same::Checksums(_) => 0,
    }
}

/// `new` is `old` with a multi-member length bucket split by the digests
/// `ds`; anything else passes through unchanged.
pub open spec fn refines_entry(old: (u64, Same), ds: Seq<Option<[u8; 32]>>, new: (u64, Same)) -> bool {
    &&& new.0 == old.0
    &&& match old.1 {
        Same::SameSize(ps) => if ps@.len() > 1 {
            new.1 matches Same::Checksums(gs) && refines(ps@, ds, gs@)
        } else {
            new.1 == old.1
        },
        Same::Checksums(_) => new.1 == old.1,
    }
}

/// The sizes are pairwise distinct and each entry is well formed.
pub open spec fn groups_wf(s: Seq<(u64, Same)>) -> bool {
    &&& forall|i: int, j: int| 0 <= i < j < s.len() ==> (#[trigger] s[i]).0 != (#[trigger] s[j]).0
    &&& forall|i: int| 0 <= i < s.len() ==> (#[trigger] s[i]).1.wf()
}

/// Every entry is still a plain length bucket.
pub open spec fn by_size(s: Seq<(u64, Same)>) -> bool {
    forall|i: int| 0 <= i < s.len() ==> (#[trigger] s[i]).1 is SameSize
}

/// The length bucket for `k` (empty where there is none).
pub open spec fn bucket(s: Seq<(u64, Same)>, k: u64) -> Seq<Vec<u8>> {
    if exists|i: int| 0 <= i < s.len() && s[i].0 == k {
        let i = choose|i: int| 0 <= i < s.len() && s[i].0 == k;
        match s[i].1 {
            Same::SameSize(ps) => ps@,
            Same::Checksums(_) => seq![],
        }
    } else {
        seq![]
    }
}

/// What an entry contributes to the bucket for `k`.
pub open spec fn added<E>(e: Entry<E>, k: u64) -> Seq<Vec<u8>> {
    match e {
        Entry::File { path, len } => if len == k {
            seq![path]
        } else {
            seq![]
        },
        Entry::Error { .. } => seq![],
    }
}

proof fn lemma_bucket_at(s: Seq<(u64, Same)>, i: int)
    requires
        groups_wf(s),
        0 <= i < s.len(),
    ensures
        bucket(s, s[i].0) == match s[i].1 {
            Same::SameSize(ps) => ps@,
            Same::Checksums(_) => seq![],
        },
{
    let k = s[i].0;
    assert(exists|j: int| 0 <= j < s.len() && s[j].0 == k);
    let j = choose|j: int| 0 <= j < s.len() && s[j].0 == k;
    if j < i {
        assert(s[j].0 != s[i].0);
    } else if i < j {
        assert(s[i].0 != s[j].0);
    }
}

/// The result of a run: for each length seen, its bucket or its refinement.
/// The entries keep the order in which their lengths were first seen; an
/// index from length to position finds an entry in constant expected time.
pub struct Duplicates {
    groups: Vec<(u64, Same)>,
    index: HashMap<u64, usize>,
}

impl View for Duplicates {
    type V = Seq<(u64, Same)>;

    closed spec fn view(&self) -> Seq<(u64, Same)> {
        self.groups@
    }
}

impl Duplicates {
    /// The entries are well formed and the index maps each size to the
    /// position of its entry.
    pub closed spec fn wf(&self) -> bool {
        &&& groups_wf(self.groups@)
        &&& forall|i: int|
            0 <= i < self.groups@.len() ==> self.index@.contains_key((#[trigger] self.groups@[i]).0)
                && self.index@[self.groups@[i].0] == i
        &&& forall|k: u64| #[trigger]
            self.index@.contains_key(k) ==> self.index@[k] < self.groups@.len()
                && self.groups@[self.index@[k] as int].0 == k
    }

    /// A result with no entries.
    pub fn new() -> (r: Duplicates)
        ensures
            r.wf(),
            r@.len() == 0,
    {
        Duplicates { groups: Vec::new(), index: HashMap::new() }
    }

    /// The number of entries, one per distinct length.
    pub fn len(&self) -> (r: usize)
        ensures
            r == self@.len(),
    {
        self.groups.len()
    }
}

/// Adds one walk entry to the buckets: a file is appended to the bucket of
/// its length, which is created on first use; an error changes nothing.
pub fn group_by_len<E>(map: Duplicates, entry: Entry<E>) -> (r: Duplicates)
    requires
        map.wf(),
        by_size(map@),
    ensures
        r.wf(),
        by_size(r@),
        forall|k: u64| #[trigger] bucket(r@, k) == bucket(map@, k) + added(entry, k),
{
    let mut map = map;
    let ghost old_groups = map.groups@;
    match entry {
        Entry::File { path, len } => {
            match map.index.get(&len) {
                Some(i) => {
                    let i = *i;
                    let slot = &mut map.groups[i];
                    match &mut slot.1 {
                        Same::SameSize(b) => b.push(path),
                        Same::Checksums(_) => {},
                    }
                    proof {
                        let s = map.groups@;
                        assert(s[i as int].0 == len);
                        assert forall|j: int| 0 <= j < s.len() && j != i implies s[j] == old_groups[j] by {}
                        assert(groups_wf(s));
                        assert forall|k: u64| #[trigger]
                            bucket(s, k) == bucket(old_groups, k) + added(entry, k) by {
                            if k == len {
                                lemma_bucket_at(s, i as int);
                                lemma_bucket_at(old_groups, i as int);
                            } else if exists|j: int| 0 <= j < s.len() && s[j].0 == k {
                                let j = choose|j: int| 0 <= j < s.len() && s[j].0 == k;
                                lemma_bucket_at(s, j);
                                lemma_bucket_at(old_groups, j);
                                assert(added(entry, k) =~= seq![]);
                            } else {
                                assert(added(entry, k) =~= seq![]);
                                assert(!exists|j: int| 0 <= j < old_groups.len() && old_groups[j].0 == k);
                            }
                        }
                    }
                    map
                },
                None => {
                    let mut b = Vec::new();
                    b.push(path);
                    let n = map.groups.len();
                    map.groups.push((len, Same::SameSize(b)));
                    map.index.insert(len, n);
                    proof {
                        let s = map.groups@;
                        assert forall|j: int| 0 <= j < old_groups.len() implies old_groups[j].0 != len by {
                            assert(map.index@.contains_key(old_groups[j].0));
                        }
                        assert(groups_wf(s));
                        assert forall|k: u64| #[trigger]
                            bucket(s, k) == bucket(old_groups, k) + added(entry, k) by {
                            if k == len {
                                lemma_bucket_at(s, n as int);
                                assert(!exists|j: int| 0 <= j < old_groups.len() && old_groups[j].0 == k);
                            } else if exists|j: int| 0 <= j < old_groups.len() && old_groups[j].0 == k {
                                let j = choose|j: int| 0 <= j < old_groups.len() && old_groups[j].0 == k;
                                lemma_bucket_at(s, j);
                                lemma_bucket_at(old_groups, j);
                                assert(added(entry, k) =~= seq![]);
                            } else {
                                assert(added(entry, k) =~= seq![]);
                                assert(!exists|j: int| 0 <= j < s.len() && s[j].0 == k);
                            }
                        }
                    }
                    map
                },
            }
        },
        Entry::Error { .. } => {
            assert forall|k: u64| #[trigger] bucket(map@, k) == bucket(map@, k) + added(entry, k) by {
                assert(added(entry, k) =~= seq![]);
            }
            map
        },
    }
}

/// Splits the paths `ps` into groups by their digests `ds` (same
/// positions); paths without a digest are left out.
fn group_by_digest(ps: Vec<Vec<u8>>, ds: &Vec<Option<[u8; 32]>>) -> (gs: Vec<HashGroup>)
    requires
        ds@.len() == ps@.len(),
    ensures
        hash_groups_wf(gs@),
        refines(ps@, ds@, gs@),
{
    let mut ps = ps;
    let ghost orig = ps@;
    let mut gs: Vec<HashGroup> = Vec::new();
    let mut n: usize = 0;
    while n < ps.len()
        invariant
            ps@.len() == orig.len(),
            ds@.len() == orig.len(),
            n <= orig.len(),
            forall|m: int| n <= m < orig.len() ==> ps@[m] == orig[m],
            hash_groups_wf(gs@),
            refines(orig.take(n as int), ds@.take(n as int), gs@),
        decreases orig.len() - n,
    {
        let mut p = Vec::new();
        std::mem::swap(&mut p, &mut ps[n]);
        assert(p == orig[n as int]);
        let ghost pre = gs@;
        let ghost tk = orig.take(n + 1);
        let ghost dk = ds@.take(n + 1);
        assert(tk.drop_last() =~= orig.take(n as int));
        assert(dk.take(n as int) =~= ds@.take(n as int));
        match ds[n] {
            Some(d) => {
                let mut j: usize = 0;
                while j < gs.len() && !crate::checksum::same_digest(&gs[j].digest, &d)
                    invariant
                        j <= gs@.len(),
                        forall|l: int| 0 <= l < j ==> gs@[l].digest@ != d@,
                    decreases gs@.len() - j,
                {
                    j = j + 1;
                }
                if j < gs.len() {
                    gs[j].paths.push(p);
                    assert forall|l: int| 0 <= l < gs@.len() implies (#[trigger] gs@[l]).paths@
                        == select(tk, dk, gs@[l].digest@) by {
                        if l != j {
                            assert(gs@[l] == pre[l]);
                        }
                    }
                } else {
                    let mut v = Vec::new();
                    v.push(p);
                    gs.push(HashGroup { digest: d, paths: v });
                    assert forall|l: int| 0 <= l < gs@.len() implies (#[trigger] gs@[l]).paths@
                        == select(tk, dk, gs@[l].digest@) by {
                        if l < pre.len() {
                            assert(gs@[l] == pre[l]);
                        } else {
                            assert(select(orig.take(n as int), ds@.take(n as int), d@) =~= seq![]) by {
                                if select(orig.take(n as int), ds@.take(n as int), d@).len() > 0 {
                                    lemma_select_witness(orig.take(n as int), ds@.take(n as int), d@);
                                }
                            }
                        }
                    }
                }
                assert forall|m: int| 0 <= m < tk.len() && (#[trigger] dk[m]) is Some implies exists|l: int|
                    0 <= l < gs@.len() && gs@[l].digest@ == dk[m]->Some_0@ by {
                    if m < n {
                        assert(ds@.take(n as int)[m] == dk[m]);
                        let l = choose|l: int| 0 <= l < pre.len() && pre[l].digest@ == ds@.take(n as int)[m]->Some_0@;
                        assert(gs@[l].digest@ == pre[l].digest@);
                    } else {
                        assert(gs@[j as int].digest@ == d@);
                    }
                }
            },
            None => {
                assert forall|l: int| 0 <= l < gs@.len() implies (#[trigger] gs@[l]).paths@
                    == select(tk, dk, gs@[l].digest@) by {}
                assert forall|m: int| 0 <= m < tk.len() && (#[trigger] dk[m]) is Some implies exists|l: int|
                    0 <= l < gs@.len() && gs@[l].digest@ == dk[m]->Some_0@ by {
                    assert(ds@.take(n as int)[m] == dk[m]);
                }
            },
        }
        n = n + 1;
    }
    assert(orig.take(n as int) =~= orig);
    assert(ds@.take(n as int) =~= ds@);
    gs
}

/// A non-empty selection has a member whose digest is the one selected.
proof fn lemma_select_witness(ps: Seq<Vec<u8>>, ds: Seq<Option<[u8; 32]>>, h: Seq<u8>)
    requires
        ds.len() == ps.len(),
        select(ps, ds, h).len() > 0,
    ensures
        exists|n: int| 0 <= n < ps.len() && has_digest(#[trigger] ds[n], h),
    decreases ps.len(),
{
    let n = ps.len() - 1;
    if has_digest(ds[n], h) {
    } else {
        lemma_select_witness(ps.drop_last(), ds.take(n), h);
        let m = choose|m: int| 0 <= m < n && has_digest(#[trigger] ds.take(n)[m], h);
        assert(ds[m] == ds.take(n)[m]);
    }
}

/// Refines one entry: a length bucket with two or more paths is split by
/// the content digests `digests` of its paths (same positions); a path whose
/// contents could not be read (no digest) is dropped. Anything else is
/// passed through unchanged.
pub fn same_size_to_checksums(entry: (u64, Same), digests: &Vec<Option<[u8; 32]>>) -> (r: (
    u64,
    Same,
))
    requires
        entry.1.wf(),
        digests@.len() == digests_needed(entry.1),
    ensures
        r.1.wf(),
        refines_entry(entry, digests@, r),
{
    let (size, same) = entry;
    match same {
        Same::SameSize(ps) => {
            if ps.len() > 1 {
                let gs = group_by_digest(ps, digests);
                (size, Same::Checksums(gs))
            } else {
                (size, Same::SameSize(ps))
            }
        },
        Same::Checksums(gs) => (size, Same::Checksums(gs)),
    }
}

/// Second pass of a run: refines every entry of `pass1` with the digests
/// given for it (`digests[i]` for entry `i`, one per path of a multi-member
/// length bucket, none otherwise), keeping sizes and positions.
pub fn mode1(pass1: Duplicates, digests: Vec<Vec<Option<[u8; 32]>>>) -> (r: Duplicates)
    requires
        pass1.wf(),
        digests@.len() == pass1@.len(),
        forall|i: int|
            0 <= i < pass1@.len() ==> (#[trigger] digests@[i])@.len() == digests_needed(
                pass1@[i].1,
            ),
    ensures
        r.wf(),
        r@.len() == pass1@.len(),
        forall|i: int|
            0 <= i < pass1@.len() ==> refines_entry(pass1@[i], digests@[i]@, #[trigger] r@[i]),
{
    let Duplicates { groups, index } = pass1;
    let mut groups = groups;
    let ghost orig = groups@;
    let mut out: Vec<(u64, Same)> = Vec::new();
    let mut i: usize = 0;
    while i < groups.len()
        invariant
            groups@.len() == orig.len(),
            digests@.len() == orig.len(),
            groups_wf(orig),
            forall|m: int|
                0 <= m < orig.len() ==> (#[trigger] digests@[m])@.len() == digests_needed(orig[m].1),
            i <= orig.len(),
            forall|m: int| i <= m < orig.len() ==> groups@[m] == orig[m],
            out@.len() == i,
            forall|m: int|
                0 <= m < i ==> refines_entry(orig[m], digests@[m]@, #[trigger] out@[m]) && out@[m].1.wf(),
        decreases orig.len() - i,
    {
        let mut e = (0u64, Same::SameSize(Vec::new()));
        std::mem::swap(&mut e, &mut groups[i]);
        let r = same_size_to_checksums(e, &digests[i]);
        out.push(r);
        i = i + 1;
    }
    let r = Duplicates { groups: out, index };
    assert forall|m: int| 0 <= m < orig.len() implies (#[trigger] r.groups@[m]).0 == orig[m].0 by {
        assert(refines_entry(orig[m], digests@[m]@, out@[m]));
    }
    assert(groups_wf(r.groups@));
    r
}

impl Duplicates {
    /// The entry at position `i`, to find which paths need a digest.
    pub fn entry_at(&self, i: usize) -> (r: &(u64, Same))
        requires
            i < self@.len(),
        ensures
            *r == self@[i as int],
    {
        &self.groups[i]
    }
}

/// The member lists of a result, each with its length, entry by entry.
pub open spec fn member_lists(s: Seq<(u64, Same)>) -> Lists
    decreases s.len(),
{
    if s.len() == 0 {
        seq![]
    } else {
        member_lists(s.drop_last()) + with_size(s.last().0, s.last().1.lists())
    }
}

/// Pairs each list with `size`.
pub open spec fn with_size(size: u64, ls: Seq<Seq<Vec<u8>>>) -> Lists {
    Seq::new(ls.len(), |j: int| (size, ls[j]))
}

/// The lists of the first `i` entries come first among all the lists.
proof fn lemma_member_lists_prefix(s: Seq<(u64, Same)>, i: int)
    requires
        0 <= i <= s.len(),
    ensures
        member_lists(s.take(i)).len() <= member_lists(s).len(),
        member_lists(s).take(member_lists(s.take(i)).len() as int) == member_lists(s.take(i)),
    decreases s.len(),
{
    if i == s.len() {
        assert(s.take(i) =~= s);
        assert(member_lists(s).take(member_lists(s).len() as int) =~= member_lists(s));
    } else {
        assert(s.take(i) =~= s.drop_last().take(i));
        lemma_member_lists_prefix(s.drop_last(), i);
        let a = member_lists(s.drop_last());
        let b = with_size(s.last().0, s.last().1.lists());
        let k = member_lists(s.take(i)).len() as int;
        assert((a + b).take(k) =~= a.take(k));
    }
}

/// Well-formed entries give non-empty lists.
proof fn lemma_member_lists_nonempty(s: Seq<(u64, Same)>)
    requires
        forall|i: int| 0 <= i < s.len() ==> (#[trigger] s[i]).1.wf(),
    ensures
        lists_nonempty(member_lists(s)),
    decreases s.len(),
{
    if s.len() > 0 {
        lemma_member_lists_nonempty(s.drop_last());
        let a = member_lists(s.drop_last());
        let b = with_size(s.last().0, s.last().1.lists());
        assert(s.last().1.wf());
        assert forall|k: int| 0 <= k < (a + b).len() implies (#[trigger] (a + b)[k]).1.len() > 0 by {
            if k >= a.len() {
                assert((a + b)[k] == b[k - a.len()]);
            }
        }
    }
}

impl Duplicates {
    /// Counts over all member lists: every file, the files beyond the first
    /// of each list, and the bytes those take. `None` exactly where a count
    /// does not fit in `u64`.
    pub fn summarize(&self) -> (r: Option<Summary>)
        requires
            self.wf(),
        ensures
            match r {
                Some(s) => s.files == total_files(member_lists(self@)) && s.candidates
                    == total_candidates(member_lists(self@)) && s.bytes == total_bytes(
                    member_lists(self@),
                ) && s.candidates <= s.files,
                None => total_files(member_lists(self@)) > u64::MAX || total_candidates(
                    member_lists(self@),
                ) > u64::MAX || total_bytes(member_lists(self@)) > u64::MAX,
            },
    {
        let ghost full = member_lists(self.groups@);
        proof {
            lemma_member_lists_nonempty(self.groups@);
        }
        let mut s = Summary { files: 0, candidates: 0, bytes: 0 };
        let ghost mut acc: Lists = seq![];
        let mut i: usize = 0;
        while i < self.groups.len()
            invariant
                i <= self.groups@.len(),
                full == member_lists(self.groups@),
                lists_nonempty(full),
                acc == member_lists(self.groups@.take(i as int)),
                s.files == total_files(acc),
                s.candidates == total_candidates(acc),
                s.bytes == total_bytes(acc),
            decreases self.groups@.len() - i,
        {
            let size = self.groups[i].0;
            let same = &self.groups[i].1;
            let ghost ls = same.lists();
            let ghost cur = member_lists(self.groups@.take(i + 1));
            let ghost base = acc.len();
            proof {
                assert(self.groups@.take(i + 1).drop_last() =~= self.groups@.take(i as int));
                assert(cur == acc + with_size(size, ls));
                assert(acc =~= cur.take(base as int));
                lemma_member_lists_prefix(self.groups@, i + 1);
            }
            let n_lists: usize = match same {
                Same::SameSize(_) => 1,
                Same::Checksums(gs) => gs.len(),
            };
            let mut j: usize = 0;
            while j < n_lists
                invariant
                    n_lists == ls.len(),
                    ls == same.lists(),
                    j <= n_lists,
                    cur.len() <= full.len(),
                    full == member_lists(self.groups@),
                    lists_nonempty(full),
                    cur == member_lists(self.groups@.take(i + 1)),
                    cur == member_lists(self.groups@.take(i as int)) + with_size(size, ls),
                    full.take(cur.len() as int) == cur,
                    base == member_lists(self.groups@.take(i as int)).len(),
                    acc == cur.take(base + j),
                    s.files == total_files(acc),
                    s.candidates == total_candidates(acc),
                    s.bytes == total_bytes(acc),
                decreases n_lists - j,
            {
                let n: usize = match same {
                    Same::SameSize(ps) => ps.len(),
                    Same::Checksums(gs) => gs[j].paths.len(),
                };
                assert(cur[base + j] == (size, ls[j as int]));
                assert(n == ls[j as int].len());
                assert(full[base + j] == cur[base + j]);
                let ghost next = acc.push((size, ls[j as int]));
                proof {
                    assert(next =~= cur.take(base + j + 1));
                    assert(next =~= full.take(base + j + 1));
                    assert(next.drop_last() =~= acc);
                }
                match tally(s, size, n) {
                    Some(t) => {
                        s = t;
                        proof {
                            acc = next;
                        }
                    },
                    None => {
                        proof {
                            lemma_totals_monotone(full, base + j + 1);
                        }
                        return None;
                    },
                }
                j = j + 1;
            }
            proof {
                assert(acc =~= cur);
            }
            i = i + 1;
        }
        proof {
            assert(self.groups@.take(i as int) =~= self.groups@);
            lemma_candidates_files(full);
        }
        Some(s)
    }
}

/// The files of a walk that have length `k`, in walk order.
pub open spec fn files_with_len<E>(es: Seq<Entry<E>>, k: u64) -> Seq<Vec<u8>>
    decreases es.len(),
{
    if es.len() == 0 {
        seq![]
    } else {
        files_with_len(es.drop_last(), k) + added(es.last(), k)
    }
}

/// Grouping by length: folding `group_by_len` over the entries `es` of a
/// walk, from an empty result (`states[i + 1]` is the result after entry
/// `i`), leaves in the bucket of each length exactly the walk's files of
/// that length, in walk order. So two files share a bucket if and only if
/// their lengths are equal.
pub proof fn lemma_fold_by_len<E>(states: Seq<Seq<(u64, Same)>>, es: Seq<Entry<E>>)
    requires
        states.len() == es.len() + 1,
        states[0].len() == 0,
        forall|i: int, k: u64|
            0 <= i < es.len() ==> #[trigger] bucket(states[i + 1], k) == bucket(states[i], k)
                + added(es[i], k),
    ensures
        forall|k: u64| #[trigger] bucket(states.last(), k) == files_with_len(es, k),
    decreases es.len(),
{
    if es.len() == 0 {
        assert forall|k: u64| #[trigger] bucket(states.last(), k) == files_with_len(es, k) by {
            assert(!exists|i: int| 0 <= i < states[0].len() && states[0][i].0 == k);
        }
    } else {
        let n = es.len() - 1;
        let st = states.drop_last();
        let e = es.drop_last();
        assert forall|i: int, k: u64| 0 <= i < e.len() implies #[trigger] bucket(st[i + 1], k)
            == bucket(st[i], k) + added(e[i], k) by {
            assert(bucket(states[i + 1], k) == bucket(states[i], k) + added(es[i], k));
        }
        lemma_fold_by_len(st, e);
        assert forall|k: u64| #[trigger] bucket(states.last(), k) == files_with_len(es, k) by {
            assert(bucket(states[n + 1], k) == bucket(states[n], k) + added(es[n], k));
            assert(bucket(st.last(), k) == files_with_len(e, k));
        }
    }
}

/// Every selected path is one of the paths.
proof fn lemma_select_subset(ps: Seq<Vec<u8>>, ds: Seq<Option<[u8; 32]>>, h: Seq<u8>)
    requires
        ds.len() == ps.len(),
    ensures
        forall|x: Vec<u8>| select(ps, ds, h).contains(x) ==> ps.contains(x),
    decreases ps.len(),
{
    if ps.len() > 0 {
        let n = ps.len() - 1;
        lemma_select_subset(ps.drop_last(), ds.take(n), h);
        assert forall|x: Vec<u8>| select(ps, ds, h).contains(x) implies ps.contains(x) by {
            let a = select(ps.drop_last(), ds.take(n), h);
            let t = select(ps, ds, h);
            let i = choose|i: int| 0 <= i < t.len() && t[i] == x;
            if i < a.len() {
                assert(a[i] == x);
                assert(a.contains(x));
                assert(ps.drop_last().contains(x));
                let j = choose|j: int|
                    0 <= j < ps.drop_last().len() && ps.drop_last()[j] == x;
                assert(ps[j] == x);
            } else {
                assert(ps[n] == x);
            }
        }
    }
}

/// With distinct paths, the path at `n` is selected for `h` exactly when its
/// digest is `h`.
proof fn lemma_select_contains(ps: Seq<Vec<u8>>, ds: Seq<Option<[u8; 32]>>, h: Seq<u8>, n: int)
    requires
        ds.len() == ps.len(),
        ps.no_duplicates(),
        0 <= n < ps.len(),
    ensures
        select(ps, ds, h).contains(ps[n]) == has_digest(ds[n], h),
    decreases ps.len(),
{
    let last = ps.len() - 1;
    let a = select(ps.drop_last(), ds.take(last), h);
    let tail = if has_digest(ds[last], h) {
        seq![ps[last]]
    } else {
        seq![]
    };
    let t = select(ps, ds, h);
    assert(t == a + tail);
    if n == last {
        lemma_select_subset(ps.drop_last(), ds.take(last), h);
        if a.contains(ps[n]) {
            assert(ps.drop_last().contains(ps[n]));
            let j = choose|j: int|
                0 <= j < ps.drop_last().len() && ps.drop_last()[j] == ps[n];
            assert(ps[j] == ps[n]);
            assert(false);
        }
        if has_digest(ds[n], h) {
            assert(t[a.len() as int] == ps[n]);
        } else {
            if t.contains(ps[n]) {
                let i = choose|i: int| 0 <= i < t.len() && t[i] == ps[n];
                assert(a[i] == ps[n]);
            }
        }
    } else {
        assert(ps.drop_last().no_duplicates());
        lemma_select_contains(ps.drop_last(), ds.take(last), h, n);
        assert(ds.take(last)[n] == ds[n]);
        assert(ps.drop_last()[n] == ps[n]);
        if a.contains(ps[n]) {
            let i = choose|i: int| 0 <= i < a.len() && a[i] == ps[n];
            assert(t[i] == ps[n]);
        }
        if t.contains(ps[n]) {
            let i = choose|i: int| 0 <= i < t.len() && t[i] == ps[n];
            if i >= a.len() {
                assert(ps[last] == ps[n]);
            } else {
                assert(a[i] == ps[n]);
            }
        }
    }
}

/// Grouping by content: in a length bucket `ps` of distinct paths refined
/// into `gs` by the digests `ds`, the paths at `n` and `m` lie in one group
/// if and only if both were read and their digests are equal.
pub proof fn lemma_same_digest_group(
    ps: Seq<Vec<u8>>,
    ds: Seq<Option<[u8; 32]>>,
    gs: Seq<HashGroup>,
    n: int,
    m: int,
)
    requires
        ds.len() == ps.len(),
        ps.no_duplicates(),
        refines(ps, ds, gs),
        0 <= n < ps.len(),
        0 <= m < ps.len(),
    ensures
        (exists|j: int|
            0 <= j < gs.len() && (#[trigger] gs[j]).paths@.contains(ps[n]) && gs[j].paths@.contains(
                ps[m],
            )) <==> (ds[n] is Some && ds[m] is Some && ds[n]->Some_0@ == ds[m]->Some_0@),
{
    if ds[n] is Some && ds[m] is Some && ds[n]->Some_0@ == ds[m]->Some_0@ {
        let j = choose|j: int| 0 <= j < gs.len() && gs[j].digest@ == ds[n]->Some_0@;
        lemma_select_contains(ps, ds, gs[j].digest@, n);
        lemma_select_contains(ps, ds, gs[j].digest@, m);
        assert(gs[j].paths@.contains(ps[n]) && gs[j].paths@.contains(ps[m]));
    }
    if exists|j: int|
        0 <= j < gs.len() && (#[trigger] gs[j]).paths@.contains(ps[n]) && gs[j].paths@.contains(
            ps[m],
        ) {
        let j = choose|j: int|
            0 <= j < gs.len() && (#[trigger] gs[j]).paths@.contains(ps[n]) && gs[j].paths@.contains(
                ps[m],
            );
        lemma_select_contains(ps, ds, gs[j].digest@, n);
        lemma_select_contains(ps, ds, gs[j].digest@, m);
    }
}

/// The member lists of a result, in entry order.
pub open spec fn all_lists(s: Seq<(u64, Same)>) -> Seq<Seq<Vec<u8>>> {
    member_lists(s).map_values(|x: (u64, Seq<Vec<u8>>)| x.1)
}

/// Whether `p` and `q` lie in one member list of `s`.
pub open spec fn together(s: Seq<(u64, Same)>, p: Vec<u8>, q: Vec<u8>) -> bool {
    exists|l: int|
        0 <= l < all_lists(s).len() && (#[trigger] all_lists(s)[l]).contains(p) && all_lists(
            s,
        )[l].contains(q)
}

/// The paths of a plain length bucket (none for a refined one).
pub open spec fn bucket_paths(same: Same) -> Seq<Vec<u8>> {
    match same {
        Same::SameSize(ps) => ps@,
        Same::Checksums(_) => seq![],
    }
}

/// Each member list of a result is a list of one of its entries.
proof fn lemma_list_origin(s: Seq<(u64, Same)>, l: int)
    requires
        0 <= l < all_lists(s).len(),
    ensures
        exists|i: int, j: int|
            0 <= i < s.len() && 0 <= j < s[i].1.lists().len() && all_lists(s)[l] == s[i].1.lists()[j],
    decreases s.len(),
{
    let a = member_lists(s.drop_last());
    let b = with_size(s.last().0, s.last().1.lists());
    assert(member_lists(s) == a + b);
    if l < a.len() {
        lemma_list_origin(s.drop_last(), l);
        let (i, j) = choose|i: int, j: int|
            0 <= i < s.drop_last().len() && 0 <= j < s.drop_last()[i].1.lists().len() && all_lists(
                s.drop_last(),
            )[l] == s.drop_last()[i].1.lists()[j];
        assert(all_lists(s)[l] == (a + b)[l].1);
        assert(s.drop_last()[i] == s[i]);
    } else {
        assert(all_lists(s)[l] == b[l - a.len()].1);
    }
}

/// Each list of each entry is a member list of the result.
proof fn lemma_list_position(s: Seq<(u64, Same)>, i: int, j: int)
    requires
        0 <= i < s.len(),
        0 <= j < s[i].1.lists().len(),
    ensures
        exists|l: int| 0 <= l < all_lists(s).len() && all_lists(s)[l] == s[i].1.lists()[j],
    decreases s.len(),
{
    let a = member_lists(s.drop_last());
    let b = with_size(s.last().0, s.last().1.lists());
    assert(member_lists(s) == a + b);
    if i < s.len() - 1 {
        assert(s.drop_last()[i] == s[i]);
        lemma_list_position(s.drop_last(), i, j);
        let l = choose|l: int|
            0 <= l < all_lists(s.drop_last()).len() && all_lists(s.drop_last())[l] == s[i].1.lists()[j];
        assert(all_lists(s)[l] == (a + b)[l].1);
    } else {
        let l = a.len() + j;
        assert(all_lists(s)[l] == b[j].1);
    }
}

/// Two distinct files end up in one final group if and only if their
/// lengths are equal and both have the same content digest. Here `s1` is
/// the result of grouping a walk by length (each file lies in the bucket of
/// its length `len_of`, and no bucket holds a path twice), and `s2` is `s1`
/// refined entry by entry with the digests `ds`, which are the digests
/// `dig_of` of the paths (none where the contents could not be read).
pub proof fn lemma_same_final_group(
    s1: Seq<(u64, Same)>,
    ds: Seq<Seq<Option<[u8; 32]>>>,
    s2: Seq<(u64, Same)>,
    len_of: spec_fn(Vec<u8>) -> u64,
    dig_of: spec_fn(Vec<u8>) -> Option<[u8; 32]>,
    p: Vec<u8>,
    q: Vec<u8>,
)
    requires
        groups_wf(s1),
        by_size(s1),
        forall|i: int, x: Vec<u8>|
            0 <= i < s1.len() && #[trigger] bucket_paths(s1[i].1).contains(x) ==> len_of(x)
                == s1[i].0,
        forall|i: int| 0 <= i < s1.len() ==> (#[trigger] bucket_paths(s1[i].1)).no_duplicates(),
        bucket(s1, len_of(p)).contains(p),
        bucket(s1, len_of(q)).contains(q),
        ds.len() == s1.len(),
        s2.len() == s1.len(),
        forall|i: int| 0 <= i < s1.len() ==> refines_entry(s1[i], #[trigger] ds[i], s2[i]),
        forall|i: int|
            0 <= i < s1.len() && needs_digests(s1[i].1) ==> (#[trigger] ds[i]).len()
                == bucket_paths(s1[i].1).len() && forall|n: int|
                0 <= n < ds[i].len() ==> ds[i][n] == dig_of(bucket_paths(s1[i].1)[n]),
        p != q,
    ensures
        together(s2, p, q) <==> (len_of(p) == len_of(q) && dig_of(p) is Some && dig_of(q) is Some
            && dig_of(p)->Some_0@ == dig_of(q)->Some_0@),
{
    if together(s2, p, q) {
        let l = choose|l: int|
            0 <= l < all_lists(s2).len() && (#[trigger] all_lists(s2)[l]).contains(p) && all_lists(
                s2,
            )[l].contains(q);
        lemma_list_origin(s2, l);
        let (i, j) = choose|i: int, j: int|
            0 <= i < s2.len() && 0 <= j < s2[i].1.lists().len() && all_lists(s2)[l]
                == s2[i].1.lists()[j];
        assert(refines_entry(s1[i], ds[i], s2[i]));
        assert(s1[i].1 is SameSize);
        let ps = bucket_paths(s1[i].1);
        if ps.len() > 1 {
            let gs = s2[i].1->Checksums_0@;
            let h = gs[j].digest@;
            assert(all_lists(s2)[l] == select(ps, ds[i], h));
            lemma_select_subset(ps, ds[i], h);
            assert(select(ps, ds[i], h).contains(p));
            assert(ps.contains(p));
            assert(ps.contains(q));
            let n = choose|n: int| 0 <= n < ps.len() && ps[n] == p;
            let m = choose|m: int| 0 <= m < ps.len() && ps[m] == q;
            lemma_select_contains(ps, ds[i], h, n);
            lemma_select_contains(ps, ds[i], h, m);
            assert(bucket_paths(s1[i].1).contains(p));
            assert(bucket_paths(s1[i].1).contains(q));
        } else {
            assert(all_lists(s2)[l] == ps);
            let n = choose|n: int| 0 <= n < ps.len() && ps[n] == p;
            let m = choose|m: int| 0 <= m < ps.len() && ps[m] == q;
            assert(false);
        }
    }
    if len_of(p) == len_of(q) && dig_of(p) is Some && dig_of(q) is Some && dig_of(p)->Some_0@
        == dig_of(q)->Some_0@ {
        let k = len_of(p);
        assert(exists|i: int| 0 <= i < s1.len() && s1[i].0 == k);
        let i = choose|i: int| 0 <= i < s1.len() && s1[i].0 == k;
        lemma_bucket_at(s1, i);
        let ps = bucket_paths(s1[i].1);
        assert(ps == bucket(s1, k));
        let n = choose|n: int| 0 <= n < ps.len() && ps[n] == p;
        let m = choose|m: int| 0 <= m < ps.len() && ps[m] == q;
        assert(n != m);
        assert(ps.len() > 1);
        assert(refines_entry(s1[i], ds[i], s2[i]));
        let gs = s2[i].1->Checksums_0@;
        lemma_same_digest_group(ps, ds[i], gs, n, m);
        let j = choose|j: int|
            0 <= j < gs.len() && (#[trigger] gs[j]).paths@.contains(ps[n]) && gs[j].paths@.contains(
                ps[m],
            );
        assert(s2[i].1.lists()[j] == gs[j].paths@);
        lemma_list_position(s2, i, j);
        let l = choose|l: int| 0 <= l < all_lists(s2).len() && all_lists(s2)[l] == s2[i].1.lists()[j];
        assert(all_lists(s2)[l].contains(p) && all_lists(s2)[l].contains(q));
    }
}

/// The member lists of one entry: the bucket itself, or one list per digest.
pub fn as_path_iterator(item: Same) -> (r: Vec<Vec<Vec<u8>>>)
    ensures
        lists_of(r@) == item.lists(),
{
    match item {
        Same::SameSize(ps) => {
            let mut r = Vec::new();
            r.push(ps);
            assert(lists_of(r@) =~= seq![ps@]);
            r
        },
        Same::Checksums(gs) => {
            let mut gs = gs;
            let ghost orig = gs@;
            let mut r: Vec<Vec<Vec<u8>>> = Vec::new();
            let mut j: usize = 0;
            while j < gs.len()
                invariant
                    gs@.len() == orig.len(),
                    j <= orig.len(),
                    forall|m: int| j <= m < orig.len() ==> gs@[m] == orig[m],
                    lists_of(r@) =~= Seq::new(j as nat, |m: int| orig[m].paths@),
                decreases orig.len() - j,
            {
                let mut p = Vec::new();
                std::mem::swap(&mut p, &mut gs[j].paths);
                assert(p == orig[j as int].paths);
                let ghost pre = r@;
                r.push(p);
                assert(lists_of(r@) =~= lists_of(pre).push(p@));
                j = j + 1;
            }
            r
        },
    }
}

impl Duplicates {
    /// All member lists of the result in presentation order: by their least
    /// path. Within a list the discovery order stays, so its first path is
    /// the one to keep.
    pub fn into_presentation(self) -> (r: Vec<Vec<Vec<u8>>>)
        ensures
            lists_of(r@).to_multiset() == all_lists(self@).to_multiset(),
            sorted_by_least(lists_of(r@)),
    {
        let Duplicates { groups, index: _ } = self;
        let mut groups = groups;
        let ghost orig = groups@;
        let mut flat: Vec<Vec<Vec<u8>>> = Vec::new();
        let mut i: usize = 0;
        while i < groups.len()
            invariant
                groups@.len() == orig.len(),
                i <= orig.len(),
                forall|m: int| i <= m < orig.len() ==> groups@[m] == orig[m],
                lists_of(flat@) == all_lists(orig.take(i as int)),
            decreases orig.len() - i,
        {
            let mut e = (0u64, Same::SameSize(Vec::new()));
            std::mem::swap(&mut e, &mut groups[i]);
            let (size, same) = e;
            let mut part = as_path_iterator(same);
            let ghost pre = flat@;
            flat.append(&mut part);
            proof {
                assert(orig.take(i + 1).drop_last() =~= orig.take(i as int));
                let a = member_lists(orig.take(i as int));
                let b = with_size(orig[i as int].0, orig[i as int].1.lists());
                assert(member_lists(orig.take(i + 1)) == a + b);
                assert((a + b).map_values(|x: (u64, Seq<Vec<u8>>)| x.1) =~= a.map_values(
                    |x: (u64, Seq<Vec<u8>>)| x.1,
                ) + orig[i as int].1.lists());
                assert(lists_of(flat@) =~= lists_of(pre) + orig[i as int].1.lists());
            }
            i = i + 1;
        }
        assert(orig.take(i as int) =~= orig);
        present(flat)
    }
}

} // verus!
