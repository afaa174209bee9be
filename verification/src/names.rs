//! Named entries of a node, kept in increasing order of their names.
use crate::irep::{entry_views, irep_view, lemma_entry_views, Irept};
use vstd::prelude::*;
use vstd::utf8::{encode_utf8, encode_utf8_decode_utf8};

verus! {

/// Lexicographic order of byte strings: `x` comes before `y` when at the
/// first position where they differ `x` has the smaller byte, or when `x` is
/// a proper prefix of `y`.
pub open spec fn bytes_less(x: Seq<u8>, y: Seq<u8>) -> bool
    decreases x.len(),
{
    if x.len() == 0 {
        y.len() > 0
    } else if y.len() == 0 {
        false
    } else if x[0] != y[0] {
        x[0] < y[0]
    } else {
        bytes_less(x.drop_first(), y.drop_first())
    }
}

/// The order of names: the order of their UTF-8 bytes.
pub open spec fn name_less(a: Seq<char>, b: Seq<char>) -> bool {
    bytes_less(encode_utf8(a), encode_utf8(b))
}

/// The names of `m` increase strictly from each entry to the next.
pub open spec fn names_sorted<V>(m: Seq<(Seq<char>, V)>) -> bool {
    forall|i: int, j: int| 0 <= i < j < m.len() ==> name_less(m[i].0, m[j].0)
}

/// The position of the first entry of `m` whose name does not come before `k`.
pub open spec fn insert_position<V>(m: Seq<(Seq<char>, V)>, k: Seq<char>) -> int
    decreases m.len(),
{
    if m.len() == 0 {
        0
    } else if !name_less(m[0].0, k) {
        0
    } else {
        1 + insert_position(m.drop_first(), k)
    }
}

/// `m` after setting the entry named `k` to `v`: an entry already named `k`
/// at the insert position gets the new value in its place; otherwise the
/// entry is inserted there.
pub open spec fn entry_insert<V>(m: Seq<(Seq<char>, V)>, k: Seq<char>, v: V) -> Seq<(Seq<char>, V)> {
    let p = insert_position(m, k);
    if p < m.len() && m[p].0 == k {
        m.update(p, (k, v))
    } else {
        m.insert(p, (k, v))
    }
}

pub proof fn lemma_bytes_less_irreflexive(x: Seq<u8>)
    ensures
        !bytes_less(x, x),
    decreases x.len(),
{
    if x.len() > 0 {
        lemma_bytes_less_irreflexive(x.drop_first());
    }
}

pub proof fn lemma_bytes_less_transitive(x: Seq<u8>, y: Seq<u8>, z: Seq<u8>)
    requires
        bytes_less(x, y),
        bytes_less(y, z),
    ensures
        bytes_less(x, z),
    decreases x.len(),
{
    if x.len() > 0 && y.len() > 0 && z.len() > 0 && x[0] == y[0] && y[0] == z[0] {
        lemma_bytes_less_transitive(x.drop_first(), y.drop_first(), z.drop_first());
    }
}

pub proof fn lemma_bytes_less_total(x: Seq<u8>, y: Seq<u8>)
    requires
        x != y,
    ensures
        bytes_less(x, y) || bytes_less(y, x),
    decreases x.len(),
{
    if x.len() == 0 {
        assert(y.len() > 0) by {
            if y.len() == 0 {
                assert(x =~= y);
            }
        }
    } else if y.len() > 0 && x[0] == y[0] {
        if x.drop_first() == y.drop_first() {
            assert(x =~= seq![x[0]] + x.drop_first());
            assert(y =~= seq![y[0]] + y.drop_first());
        }
        lemma_bytes_less_total(x.drop_first(), y.drop_first());
    }
}

pub proof fn lemma_bytes_less_asymmetric(x: Seq<u8>, y: Seq<u8>)
    requires
        bytes_less(x, y),
    ensures
        !bytes_less(y, x),
{
    if bytes_less(y, x) {
        lemma_bytes_less_transitive(x, y, x);
        lemma_bytes_less_irreflexive(x);
    }
}

/// Distinct names are ordered one way or the other.
pub proof fn lemma_name_less_total(a: Seq<char>, b: Seq<char>)
    requires
        a != b,
    ensures
        name_less(a, b) || name_less(b, a),
{
    encode_utf8_decode_utf8(a);
    encode_utf8_decode_utf8(b);
    lemma_bytes_less_total(encode_utf8(a), encode_utf8(b));
}

pub proof fn lemma_insert_position<V>(m: Seq<(Seq<char>, V)>, k: Seq<char>)
    ensures
        0 <= insert_position(m, k) <= m.len(),
        forall|j: int| 0 <= j < insert_position(m, k) ==> name_less(#[trigger] m[j].0, k),
        insert_position(m, k) < m.len() ==> !name_less(m[insert_position(m, k)].0, k),
    decreases m.len(),
{
    if m.len() > 0 && name_less(m[0].0, k) {
        lemma_insert_position(m.drop_first(), k);
        assert forall|j: int| 0 <= j < insert_position(m, k) implies name_less(#[trigger] m[j].0, k) by {
            if j > 0 {
                assert(m[j] == m.drop_first()[j - 1]);
            }
        }
        if insert_position(m, k) < m.len() {
            assert(m[insert_position(m, k)] == m.drop_first()[insert_position(m.drop_first(), k)]);
        }
    }
}

/// Setting a name whose name comes after every name of `m` appends it.
pub proof fn lemma_entry_insert_after_all<V>(m: Seq<(Seq<char>, V)>, k: Seq<char>, v: V)
    requires
        forall|i: int| 0 <= i < m.len() ==> name_less(#[trigger] m[i].0, k),
    ensures
        entry_insert(m, k, v) == m.push((k, v)),
{
    lemma_insert_position(m, k);
    if insert_position(m, k) < m.len() {
        assert(name_less(m[insert_position(m, k)].0, k));
    }
    assert(m.insert(m.len() as int, (k, v)) =~= m.push((k, v)));
}

/// Setting a name keeps a sorted list sorted.
pub proof fn lemma_entry_insert_sorted<V>(m: Seq<(Seq<char>, V)>, k: Seq<char>, v: V)
    requires
        names_sorted(m),
    ensures
        names_sorted(entry_insert(m, k, v)),
{
    lemma_insert_position(m, k);
    let p = insert_position(m, k);
    let r = entry_insert(m, k, v);
    if p < m.len() && m[p].0 == k {
        assert forall|i: int, j: int| 0 <= i < j < r.len() implies name_less(r[i].0, r[j].0) by {
            assert(r[i].0 == m[i].0);
            assert(r[j].0 == m[j].0);
        }
    } else {
        if p < m.len() {
            lemma_name_less_total(m[p].0, k);
        }
        assert forall|i: int, j: int| 0 <= i < j < r.len() implies name_less(r[i].0, r[j].0) by {
            if i < p && j < p {
                assert(r[i] == m[i] && r[j] == m[j]);
            } else if i < p && j == p {
                assert(r[i] == m[i]);
            } else if i < p {
                assert(r[i] == m[i] && r[j] == m[j - 1]);
                lemma_bytes_less_transitive(encode_utf8(m[i].0), encode_utf8(k), encode_utf8(m[p].0));
                if j - 1 > p {
                    assert(name_less(m[p].0, m[j - 1].0));
                    lemma_bytes_less_transitive(encode_utf8(m[i].0), encode_utf8(m[p].0), encode_utf8(m[j - 1].0));
                }
            } else if i == p {
                assert(r[j] == m[j - 1]);
                if j - 1 > p {
                    assert(name_less(m[p].0, m[j - 1].0));
                    lemma_bytes_less_transitive(encode_utf8(k), encode_utf8(m[p].0), encode_utf8(m[j - 1].0));
                }
            } else {
                assert(r[i] == m[i - 1] && r[j] == m[j - 1]);
            }
        }
    }
}

/// Two sorted lists that hold the same entries are equal: for sorted lists,
/// equality is equality of what they map each name to.
pub proof fn lemma_sorted_lists_equal<V>(m1: Seq<(Seq<char>, V)>, m2: Seq<(Seq<char>, V)>)
    requires
        names_sorted(m1),
        names_sorted(m2),
        forall|e: (Seq<char>, V)| m1.contains(e) <==> m2.contains(e),
    ensures
        m1 == m2,
    decreases m1.len() + m2.len(),
{
    if m1.len() == 0 || m2.len() == 0 {
        if m1.len() > 0 {
            assert(m1.contains(m1[0]));
        }
        if m2.len() > 0 {
            assert(m2.contains(m2[0]));
        }
        assert(m1 =~= m2);
    } else {
        // The first entries are the least of each list, so they agree.
        assert(m1.contains(m1[0]));
        assert(m2.contains(m2[0]));
        let i2 = choose|i: int| 0 <= i < m2.len() && m2[i] == m1[0];
        let i1 = choose|i: int| 0 <= i < m1.len() && m1[i] == m2[0];
        if i2 > 0 && i1 > 0 {
            assert(name_less(m2[0].0, m2[i2].0));
            assert(name_less(m1[0].0, m1[i1].0));
            lemma_bytes_less_asymmetric(encode_utf8(m1[0].0), encode_utf8(m2[0].0));
        }
        if i2 == 0 {
            assert(m1[0] == m2[0]);
        } else {
            assert(i1 == 0);
            assert(m1[0] == m2[0]);
        }
        let t1 = m1.drop_first();
        let t2 = m2.drop_first();
        assert forall|e: (Seq<char>, V)| t1.contains(e) <==> t2.contains(e) by {
            if t1.contains(e) {
                let a = choose|i: int| 0 <= i < t1.len() && t1[i] == e;
                assert(m1[a + 1] == e);
                assert(m1.contains(e));
                let b = choose|i: int| 0 <= i < m2.len() && m2[i] == e;
                if b == 0 {
                    assert(name_less(m1[0].0, m1[a + 1].0));
                    lemma_bytes_less_irreflexive(encode_utf8(e.0));
                }
                assert(t2[b - 1] == e);
            }
            if t2.contains(e) {
                let a = choose|i: int| 0 <= i < t2.len() && t2[i] == e;
                assert(m2[a + 1] == e);
                assert(m2.contains(e));
                let b = choose|i: int| 0 <= i < m1.len() && m1[i] == e;
                if b == 0 {
                    assert(name_less(m2[0].0, m2[a + 1].0));
                    lemma_bytes_less_irreflexive(encode_utf8(e.0));
                }
                assert(t1[b - 1] == e);
            }
        }
        lemma_sorted_lists_equal(t1, t2);
        assert(m1 =~= seq![m1[0]] + t1);
        assert(m2 =~= seq![m2[0]] + t2);
    }
}

/// After setting `k` to `v` in a sorted list, the list holds `(k, v)` and
/// every entry it held under another name, and nothing else.
pub proof fn lemma_entry_insert_contains<V>(m: Seq<(Seq<char>, V)>, k: Seq<char>, v: V)
    requires
        names_sorted(m),
    ensures
        forall|e: (Seq<char>, V)| #[trigger] entry_insert(m, k, v).contains(e)
            <==> (e == (k, v) || (m.contains(e) && e.0 != k)),
{
    lemma_insert_position(m, k);
    lemma_bytes_less_irreflexive(encode_utf8(k));
    let p = insert_position(m, k);
    let r = entry_insert(m, k, v);
    if p < m.len() && m[p].0 == k {
        assert forall|e: (Seq<char>, V)| r.contains(e) <==> (e == (k, v) || (m.contains(e) && e.0 != k)) by {
            if r.contains(e) {
                let i = choose|i: int| 0 <= i < r.len() && r[i] == e;
                if i != p {
                    assert(r[i] == m[i]);
                    if e.0 == k {
                        if i < p {
                            assert(name_less(m[i].0, m[p].0));
                        } else {
                            assert(name_less(m[p].0, m[i].0));
                        }
                    }
                    assert(m.contains(e));
                }
            }
            if e == (k, v) {
                assert(r[p] == e);
            }
            if m.contains(e) && e.0 != k {
                let i = choose|i: int| 0 <= i < m.len() && m[i] == e;
                assert(i != p);
                assert(r[i] == e);
            }
        }
    } else {
        assert forall|j: int| 0 <= j < m.len() implies (#[trigger] m[j]).0 != k by {
            if j > p {
                assert(name_less(m[p].0, m[j].0));
                if m[j].0 == k {
                    assert(!name_less(m[p].0, k));
                }
            }
        }
        assert forall|e: (Seq<char>, V)| r.contains(e) <==> (e == (k, v) || (m.contains(e) && e.0 != k)) by {
            if r.contains(e) {
                let i = choose|i: int| 0 <= i < r.len() && r[i] == e;
                if i < p {
                    assert(r[i] == m[i]);
                } else if i > p {
                    assert(r[i] == m[i - 1]);
                }
            }
            if e == (k, v) {
                assert(r[p] == e);
            }
            if m.contains(e) && e.0 != k {
                let i = choose|i: int| 0 <= i < m.len() && m[i] == e;
                if i < p {
                    assert(r[i] == e);
                } else {
                    assert(r[i + 1] == e);
                }
            }
        }
    }
}

/// Setting two different names gives the same entries in either order: the
/// entries of a node behave as a map from names to values.
pub proof fn lemma_entry_insert_commutes<V>(
    m: Seq<(Seq<char>, V)>,
    k1: Seq<char>,
    v1: V,
    k2: Seq<char>,
    v2: V,
)
    requires
        names_sorted(m),
        k1 != k2,
    ensures
        entry_insert(entry_insert(m, k1, v1), k2, v2) == entry_insert(entry_insert(m, k2, v2), k1, v1),
{
    let a = entry_insert(m, k1, v1);
    let b = entry_insert(m, k2, v2);
    lemma_entry_insert_sorted(m, k1, v1);
    lemma_entry_insert_sorted(m, k2, v2);
    lemma_entry_insert_sorted(a, k2, v2);
    lemma_entry_insert_sorted(b, k1, v1);
    lemma_entry_insert_contains(m, k1, v1);
    lemma_entry_insert_contains(m, k2, v2);
    lemma_entry_insert_contains(a, k2, v2);
    lemma_entry_insert_contains(b, k1, v1);
    let ab = entry_insert(a, k2, v2);
    let ba = entry_insert(b, k1, v1);
    assert forall|e: (Seq<char>, V)| ab.contains(e) <==> ba.contains(e) by {
        assert(ab.contains(e) <==> (e == (k2, v2) || (a.contains(e) && e.0 != k2)));
        assert(a.contains(e) <==> (e == (k1, v1) || (m.contains(e) && e.0 != k1)));
        assert(ba.contains(e) <==> (e == (k1, v1) || (b.contains(e) && e.0 != k1)));
        assert(b.contains(e) <==> (e == (k2, v2) || (m.contains(e) && e.0 != k2)));
    }
    lemma_sorted_lists_equal(ab, ba);
}

/// Setting a name twice keeps only the second value.
pub proof fn lemma_entry_insert_overwrites<V>(m: Seq<(Seq<char>, V)>, k: Seq<char>, v1: V, v2: V)
    requires
        names_sorted(m),
    ensures
        entry_insert(entry_insert(m, k, v1), k, v2) == entry_insert(m, k, v2),
{
    let a = entry_insert(m, k, v1);
    lemma_entry_insert_sorted(m, k, v1);
    lemma_entry_insert_sorted(m, k, v2);
    lemma_entry_insert_sorted(a, k, v2);
    lemma_entry_insert_contains(m, k, v1);
    lemma_entry_insert_contains(m, k, v2);
    lemma_entry_insert_contains(a, k, v2);
    let aa = entry_insert(a, k, v2);
    let b = entry_insert(m, k, v2);
    assert forall|e: (Seq<char>, V)| aa.contains(e) <==> b.contains(e) by {
        assert(aa.contains(e) <==> (e == (k, v2) || (a.contains(e) && e.0 != k)));
        assert(a.contains(e) <==> (e == (k, v1) || (m.contains(e) && e.0 != k)));
    }
    lemma_sorted_lists_equal(aa, b);
}

/// Whether `a` comes before `b` (see [`name_less`]).
pub fn name_before(a: &str, b: &str) -> (r: bool)
    ensures
        r == name_less(a@, b@),
{
    let x = a.as_bytes();
    let y = b.as_bytes();
    let mut i: usize = 0;
    proof {
        assert(x@.skip(0) =~= x@);
        assert(y@.skip(0) =~= y@);
    }
    while i < x.len() && i < y.len()
        invariant
            i <= x@.len(),
            i <= y@.len(),
            x@ == encode_utf8(a@),
            y@ == encode_utf8(b@),
            bytes_less(x@, y@) == bytes_less(x@.skip(i as int), y@.skip(i as int)),
        decreases x@.len() - i,
    {
        let ghost xs = x@.skip(i as int);
        let ghost ys = y@.skip(i as int);
        assert(xs[0] == x@[i as int]);
        assert(ys[0] == y@[i as int]);
        if x[i] != y[i] {
            return x[i] < y[i];
        }
        assert(xs.drop_first() =~= x@.skip(i + 1));
        assert(ys.drop_first() =~= y@.skip(i + 1));
        i = i + 1;
    }
    i == x.len() && i < y.len()
}

/// The position of the first entry whose name does not come before `key`
/// (see [`insert_position`]).
fn find_insert_position(m: &Vec<(String, Irept)>, key: &str) -> (r: usize)
    ensures
        r == insert_position(entry_views(m@), key@),
{
    let ghost views = entry_views(m@);
    proof {
        lemma_entry_views(m@);
        lemma_insert_position(views, key@);
    }
    let n = m.len();
    let mut i: usize = 0;
    while i < n && name_before(m[i].0.as_str(), key)
        invariant
            n == m.len(),
            i <= n,
            views == entry_views(m@),
            views.len() == n,
            forall|j: int| 0 <= j < n ==> #[trigger] views[j] == (m@[j].0@, irep_view(m@[j].1)),
            forall|j: int| 0 <= j < i ==> name_less(#[trigger] views[j].0, key@),
        decreases n - i,
    {
        assert(name_less(views[i as int].0, key@));
        i = i + 1;
    }
    proof {
        let p = insert_position(views, key@);
        if i < n {
            assert(!name_less(views[i as int].0, key@));
        }
        if p < i {
            assert(name_less(views[p].0, key@));
        }
        if i < p {
            assert(name_less(views[i as int].0, key@));
        }
    }
    i
}

/// Sets the entry named `key` to `value` (see [`entry_insert`]); a sorted
/// list stays sorted.
pub fn insert_entry(m: &mut Vec<(String, Irept)>, key: String, value: Irept)
    ensures
        entry_views(final(m)@) == entry_insert(entry_views(old(m)@), key@, value@),
        names_sorted(entry_views(old(m)@)) ==> names_sorted(entry_views(final(m)@)),
{
    let ghost old_views = entry_views(m@);
    proof {
        lemma_entry_views(m@);
        if names_sorted(old_views) {
            lemma_entry_insert_sorted(old_views, key@, value@);
        }
        lemma_insert_position(old_views, key@);
    }
    let i = find_insert_position(m, key.as_str());
    if i < m.len() && m[i].0 == key {
        assert(old_views[i as int].0 == key@);
        m.set(i, (key, value));
        proof {
            lemma_entry_views(m@);
            assert(entry_views(m@) =~= old_views.update(i as int, (key@, value@)));
        }
    } else {
        proof {
            if i < old_views.len() {
                assert(old_views[i as int].0 == m@[i as int].0@);
            }
        }
        m.insert(i, (key, value));
        proof {
            lemma_entry_views(m@);
            assert(entry_views(m@) =~= old_views.insert(i as int, (key@, value@)));
        }
    }
}

} // verus!
