use std::cmp::Ordering;
use vstd::prelude::*;

verus! {

/// Lexicographic order on byte strings: `a` sorts no later than `b`.
pub open spec fn lex_le(a: Seq<u8>, b: Seq<u8>) -> bool
    decreases a.len(),
{
    if a.len() == 0 {
        true
    } else if b.len() == 0 {
        false
    } else if a[0] != b[0] {
        a[0] < b[0]
    } else {
        lex_le(a.drop_first(), b.drop_first())
    }
}

/// Every byte string sorts no later than itself.
pub proof fn lemma_lex_reflexive(a: Seq<u8>)
    ensures
        lex_le(a, a),
    decreases a.len(),
{
    if a.len() > 0 {
        lemma_lex_reflexive(a.drop_first());
    }
}

/// Two byte strings that sort no later than each other are equal.
pub proof fn lemma_lex_antisymmetric(a: Seq<u8>, b: Seq<u8>)
    requires
        lex_le(a, b),
        lex_le(b, a),
    ensures
        a == b,
    decreases a.len(),
{
    if a.len() > 0 {
        lemma_lex_antisymmetric(a.drop_first(), b.drop_first());
        assert(a =~= seq![a[0]] + a.drop_first());
        assert(b =~= seq![b[0]] + b.drop_first());
    } else {
        assert(b.len() == 0);
        assert(a =~= b);
    }
}

/// The least path of a list (the empty string for an empty list); of two
/// equal candidates the later one stands, and they are equal anyway.
pub open spec fn least(l: Seq<Vec<u8>>) -> Seq<u8>
    decreases l.len(),
{
    if l.len() == 0 {
        seq![]
    } else if l.len() == 1 {
        l[0]@
    } else {
        let m = least(l.drop_last());
        if lex_le(l.last()@, m) {
            l.last()@
        } else {
            m
        }
    }
}

/// Lists in presentation order: by least path.
pub open spec fn sorted_by_least(v: Seq<Seq<Vec<u8>>>) -> bool {
    forall|i: int, j: int| 0 <= i < j < v.len() ==> lex_le(least(v[i]), least(v[j]))
}

/// The member lists that a vector of path lists holds.
pub open spec fn lists_of(v: Seq<Vec<Vec<u8>>>) -> Seq<Seq<Vec<u8>>> {
    v.map_values(|l: Vec<Vec<u8>>| l@)
}

/// The least path of a non-empty list is one of its paths.
pub proof fn lemma_least_member(l: Seq<Vec<u8>>)
    requires
        l.len() > 0,
    ensures
        exists|k: int| 0 <= k < l.len() && l[k]@ == least(l),
    decreases l.len(),
{
    if l.len() > 1 {
        lemma_least_member(l.drop_last());
        let k = choose|k: int| 0 <= k < l.len() - 1 && l.drop_last()[k]@ == least(l.drop_last());
        assert(l[k] == l.drop_last()[k]);
        assert(l[l.len() - 1] == l.last());
    } else {
        assert(l[0]@ == least(l));
    }
}

/// Presentation order is a function of the member lists alone: two
/// sequences that hold the same non-empty lists, no path in two of them,
/// both ordered by least path, are the same sequence.
pub proof fn lemma_presentation_unique(a: Seq<Seq<Vec<u8>>>, b: Seq<Seq<Vec<u8>>>)
    requires
        a.to_multiset() == b.to_multiset(),
        sorted_by_least(a),
        sorted_by_least(b),
        forall|i: int| 0 <= i < a.len() ==> (#[trigger] a[i]).len() > 0,
        forall|i: int, j: int, x: int, y: int|
            0 <= i < j < a.len() && 0 <= x < a[i].len() && 0 <= y < a[j].len() ==> (
            #[trigger] a[i][x])@ != (#[trigger] a[j][y])@,
    ensures
        a == b,
    decreases a.len(),
{
    broadcast use vstd::seq_lib::group_to_multiset_ensures;

    assert forall|i: int, j: int| 0 <= i < j < a.len() implies least(a[i]) != least(a[j]) by {
        lemma_least_member(a[i]);
        lemma_least_member(a[j]);
    }

    assert(a.len() == a.to_multiset().len());
    assert(b.len() == b.to_multiset().len());
    if a.len() == 0 {
        assert(a =~= b);
    } else {
        assert(a.contains(a[0]));
        assert(b.to_multiset().count(a[0]) > 0);
        assert(b.contains(a[0]));
        let k = choose|k: int| 0 <= k < b.len() && b[k] == a[0];
        assert(b.contains(b[0]));
        assert(a.to_multiset().count(b[0]) > 0);
        assert(a.contains(b[0]));
        let m = choose|m: int| 0 <= m < a.len() && a[m] == b[0];
        if m != 0 {
            assert(lex_le(least(a[0]), least(a[m])));
            if k != 0 {
                assert(lex_le(least(b[0]), least(b[k])));
            } else {
                lemma_lex_reflexive(least(b[0]));
            }
            lemma_lex_antisymmetric(least(a[0]), least(a[m]));
            assert(false);
        }
        assert(a[0] == b[0]);
        let ra = a.drop_first();
        let rb = b.drop_first();
        assert(a.remove(0) =~= ra);
        assert(b.remove(0) =~= rb);
        assert(ra.to_multiset() =~= rb.to_multiset());
        assert forall|i: int, j: int| 0 <= i < j < ra.len() implies lex_le(
            least(ra[i]),
            least(ra[j]),
        ) by {
            assert(ra[i] == a[i + 1] && ra[j] == a[j + 1]);
        }
        assert forall|i: int, j: int| 0 <= i < j < rb.len() implies lex_le(
            least(rb[i]),
            least(rb[j]),
        ) by {
            assert(rb[i] == b[i + 1] && rb[j] == b[j + 1]);
        }
        assert forall|i: int| 0 <= i < ra.len() implies (#[trigger] ra[i]).len() > 0 by {
            assert(ra[i] == a[i + 1]);
        }
        assert forall|i: int, j: int, x: int, y: int|
            0 <= i < j < ra.len() && 0 <= x < ra[i].len() && 0 <= y < ra[j].len() implies (
            #[trigger] ra[i][x])@ != (#[trigger] ra[j][y])@ by {
            assert(ra[i] == a[i + 1] && ra[j] == a[j + 1]);
            assert(a[i + 1][x] == ra[i][x] && a[j + 1][y] == ra[j][y]);
        }
        lemma_presentation_unique(ra, rb);
        assert(a =~= seq![a[0]] + ra);
        assert(b =~= seq![b[0]] + rb);
    }
}

/// Whether `a` sorts no later than `b`.
pub fn path_le(a: &[u8], b: &[u8]) -> (r: bool)
    ensures
        r == lex_le(a@, b@),
{
    let mut i: usize = 0;
    assert(a@.skip(0) =~= a@);
    assert(b@.skip(0) =~= b@);
    while i < a.len() && i < b.len() && a[i] == b[i]
        invariant
            i <= a@.len(),
            i <= b@.len(),
            lex_le(a@, b@) == lex_le(a@.skip(i as int), b@.skip(i as int)),
        decreases a@.len() - i,
    {
        assert(a@.skip(i as int).drop_first() =~= a@.skip(i + 1));
        assert(b@.skip(i as int).drop_first() =~= b@.skip(i + 1));
        i = i + 1;
    }
    i == a.len() || (i < b.len() && a[i] < b[i])
}

/// The position of the least path of a non-empty list.
pub fn least_index(l: &Vec<Vec<u8>>) -> (r: usize)
    requires
        l@.len() > 0,
    ensures
        r < l@.len(),
        l@[r as int]@ == least(l@),
{
    let mut m: usize = 0;
    let mut k: usize = 1;
    assert(l@.take(1).len() == 1);
    while k < l.len()
        invariant
            1 <= k <= l@.len(),
            m < k,
            l@[m as int]@ == least(l@.take(k as int)),
        decreases l@.len() - k,
    {
        assert(l@.take(k + 1).drop_last() =~= l@.take(k as int));
        if path_le(l[k].as_slice(), l[m].as_slice()) {
            m = k;
        }
        k = k + 1;
    }
    assert(l@.take(k as int) =~= l@);
    m
}

/// Compares two lists by their least paths (an empty list sorts first).
pub fn compare_least(a: &Vec<Vec<u8>>, b: &Vec<Vec<u8>>) -> (r: Ordering)
    ensures
        (r == Ordering::Greater) == !lex_le(least(a@), least(b@)),
        (r == Ordering::Equal) == (least(a@) == least(b@)),
{
    let ka: &[u8] = if a.len() == 0 {
        &[]
    } else {
        a[least_index(a)].as_slice()
    };
    let kb: &[u8] = if b.len() == 0 {
        &[]
    } else {
        b[least_index(b)].as_slice()
    };
    assert(a@.len() == 0 ==> ka@ =~= least(a@));
    assert(b@.len() == 0 ==> kb@ =~= least(b@));
    proof {
        lemma_lex_reflexive(ka@);
    }
    if path_le(ka, kb) {
        if path_le(kb, ka) {
            proof {
                lemma_lex_antisymmetric(ka@, kb@);
            }
            Ordering::Equal
        } else {
            Ordering::Less
        }
    } else {
        Ordering::Greater
    }
}

/// Relies on `slice::sort_by`: afterwards the slice holds the same elements,
/// ordered so that the comparison does not return `Greater` for any earlier
/// element against a later one. `compare_least` orders by a total order.
#[verifier::external_body]
fn sort_by_least(v: &mut Vec<Vec<Vec<u8>>>)
    ensures
        lists_of(final(v)@).to_multiset() == lists_of(old(v)@).to_multiset(),
        sorted_by_least(lists_of(final(v)@)),
{
    v.sort_by(|a, b| compare_least(a, b));
}

/// Puts member lists in presentation order.
pub fn present(v: Vec<Vec<Vec<u8>>>) -> (r: Vec<Vec<Vec<u8>>>)
    ensures
        lists_of(r@).to_multiset() == lists_of(v@).to_multiset(),
        sorted_by_least(lists_of(r@)),
{
    let mut v = v;
    sort_by_least(&mut v);
    v
}

} // verus!
