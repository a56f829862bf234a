use vstd::prelude::*;

verus! {

/// `a` comes before `b`: at the first place where they differ `a` has the
/// smaller character, or `a` ends there while `b` goes on.
pub open spec fn name_lt(a: Seq<char>, b: Seq<char>) -> bool {
    exists|k: int| is_first_difference(a, b, k) && name_lt_at(a, b, k)
}

pub open spec fn is_first_difference(a: Seq<char>, b: Seq<char>, k: int) -> bool {
    &&& 0 <= k <= a.len()
    &&& k <= b.len()
    &&& forall|j: int| 0 <= j < k ==> a[j] == b[j]
    &&& (k == a.len() || k == b.len() || a[k] != b[k])
}

pub open spec fn name_lt_at(a: Seq<char>, b: Seq<char>, k: int) -> bool {
    (k == a.len() && k < b.len()) || (k < a.len() && k < b.len() && (a[k] as int) < (b[k] as int))
}

proof fn lemma_first_difference_unique(a: Seq<char>, b: Seq<char>, k1: int, k2: int)
    requires
        is_first_difference(a, b, k1),
        is_first_difference(a, b, k2),
    ensures
        k1 == k2,
{
    if k1 < k2 {
        assert(a[k1] == b[k1]);
    } else if k2 < k1 {
        assert(a[k2] == b[k2]);
    }
}

proof fn lemma_first_difference_exists(a: Seq<char>, b: Seq<char>) -> (k: int)
    ensures
        is_first_difference(a, b, k),
    decreases a.len(),
{
    if a.len() == 0 || b.len() == 0 {
        0
    } else if a[0] != b[0] {
        0
    } else {
        let k = lemma_first_difference_exists(a.skip(1), b.skip(1));
        assert forall|j: int| 0 <= j < k + 1 implies a[j] == b[j] by {
            if j > 0 {
                assert(a.skip(1)[j - 1] == b.skip(1)[j - 1]);
            }
        }
        k + 1
    }
}

/// Distinct names are ordered one way or the other.
pub proof fn lemma_name_lt_total(a: Seq<char>, b: Seq<char>)
    requires
        a != b,
    ensures
        name_lt(a, b) || name_lt(b, a),
{
    let k = lemma_first_difference_exists(a, b);
    assert(is_first_difference(b, a, k));
    if k == a.len() && k == b.len() {
        assert(a =~= b);
    } else if k == a.len() {
        assert(name_lt_at(a, b, k));
    } else if k == b.len() {
        assert(name_lt_at(b, a, k));
    } else {
        assert(a[k] != b[k]);
        assert((a[k] as int) != (b[k] as int));
        assert(name_lt_at(a, b, k) || name_lt_at(b, a, k));
    }
}

pub proof fn lemma_name_lt_transitive(a: Seq<char>, b: Seq<char>, c: Seq<char>)
    requires
        name_lt(a, b),
        name_lt(b, c),
    ensures
        name_lt(a, c),
{
    let k1 = choose|k: int| is_first_difference(a, b, k) && name_lt_at(a, b, k);
    let k2 = choose|k: int| is_first_difference(b, c, k) && name_lt_at(b, c, k);
    let k = if k1 < k2 { k1 } else { k2 };
    assert forall|j: int| 0 <= j < k implies a[j] == c[j] by {
        assert(a[j] == b[j]);
        assert(b[j] == c[j]);
    }
    assert(is_first_difference(a, c, k) && name_lt_at(a, c, k));
}

/// Whether `a` comes before `b`.
pub fn name_less(a: &str, b: &str) -> (r: bool)
    ensures
        r == name_lt(a@, b@),
{
    let n = a.unicode_len();
    let m = b.unicode_len();
    let mut k: usize = 0;
    while k < n && k < m && a.get_char(k) == b.get_char(k)
        invariant
            k <= n,
            k <= m,
            n == a@.len(),
            m == b@.len(),
            forall|j: int| 0 <= j < k ==> a@[j] == b@[j],
        decreases n - k,
    {
        k = k + 1;
    }
    let r = if k < n && k < m {
        (a.get_char(k) as u32) < (b.get_char(k) as u32)
    } else {
        k == n && k < m
    };
    proof {
        assert(is_first_difference(a@, b@, k as int));
        if !r && name_lt(a@, b@) {
            let k2 = choose|k2: int| is_first_difference(a@, b@, k2) && name_lt_at(a@, b@, k2);
            lemma_first_difference_unique(a@, b@, k as int, k2);
        }
    }
    r
}

/// The text of each string of `v`.
pub open spec fn texts(v: Seq<String>) -> Seq<Seq<char>> {
    v.map_values(|s: String| s@)
}

/// `r` lists each of the positions `0..names.len()` once, ordered by name.
pub open spec fn is_name_order(names: Seq<Seq<char>>, r: Seq<usize>) -> bool {
    &&& r.len() == names.len()
    &&& r.no_duplicates()
    &&& forall|i: int| 0 <= i < r.len() ==> r[i] < names.len()
    &&& forall|i: int, j: int| 0 <= i < j < r.len() ==> name_lt(names[r[i] as int], names[r[j] as int])
}

/// The positions of `names` in the order of the names, which must be
/// distinct.
pub fn name_order(names: &Vec<String>) -> (r: Vec<usize>)
    requires
        texts(names@).no_duplicates(),
    ensures
        is_name_order(texts(names@), r@),
{
    let ghost ns = texts(names@);
    let mut r: Vec<usize> = Vec::new();
    let mut i: usize = 0;
    while i < names.len()
        invariant
            i <= names.len(),
            ns == texts(names@),
            ns.no_duplicates(),
            r@.len() == i,
            r@.no_duplicates(),
            forall|x: int| 0 <= x < r@.len() ==> r@[x] < i,
            forall|x: int, y: int| 0 <= x < y < r@.len() ==> name_lt(ns[r@[x] as int], ns[r@[y] as int]),
        decreases names.len() - i,
    {
        let mut p: usize = 0;
        while p < r.len() && !name_less(names[i].as_str(), names[r[p]].as_str())
            invariant
                p <= r@.len(),
                i < names.len(),
                ns == texts(names@),
                forall|x: int| 0 <= x < r@.len() ==> r@[x] < i,
                forall|x: int| 0 <= x < p ==> !name_lt(ns[i as int], ns[r@[x] as int]),
            decreases r@.len() - p,
        {
            p = p + 1;
        }
        let ghost old_r = r@;
        proof {
            assert forall|x: int| 0 <= x < p implies name_lt(ns[old_r[x] as int], ns[i as int]) by {
                assert(ns[old_r[x] as int] != ns[i as int]);
                lemma_name_lt_total(ns[old_r[x] as int], ns[i as int]);
            }
            if p < old_r.len() {
                assert forall|y: int| p <= y < old_r.len() implies name_lt(ns[i as int], ns[old_r[y] as int]) by {
                    if y > p {
                        lemma_name_lt_transitive(ns[i as int], ns[old_r[p as int] as int], ns[old_r[y] as int]);
                    }
                }
            }
        }
        r.insert(p, i);
        proof {
            assert forall|x: int, y: int| 0 <= x < y < r@.len() implies name_lt(ns[r@[x] as int], ns[r@[y] as int]) by {
                if x < p as int && y == p as int {
                } else if x == p as int {
                    assert(r@[y] == old_r[y - 1]);
                } else if x < p as int && y > p as int {
                    assert(r@[y] == old_r[y - 1]);
                    assert(r@[x] == old_r[x]);
                } else if y < p as int {
                    assert(r@[y] == old_r[y]);
                    assert(r@[x] == old_r[x]);
                } else {
                    assert(r@[y] == old_r[y - 1]);
                    assert(r@[x] == old_r[x - 1]);
                }
            }
            assert forall|x: int, y: int| 0 <= x < y < r@.len() implies r@[x] != r@[y] by {
                if x < p as int && y == p as int {
                } else if x == p as int {
                    assert(r@[y] == old_r[y - 1]);
                } else if x < p as int && y > p as int {
                    assert(r@[y] == old_r[y - 1]);
                    assert(r@[x] == old_r[x]);
                } else if y < p as int {
                    assert(r@[y] == old_r[y]);
                    assert(r@[x] == old_r[x]);
                } else {
                    assert(r@[y] == old_r[y - 1]);
                    assert(r@[x] == old_r[x - 1]);
                }
            }
            assert forall|x: int| 0 <= x < r@.len() implies r@[x] < i + 1 by {
                if x < p as int {
                    assert(r@[x] == old_r[x]);
                } else if x > p as int {
                    assert(r@[x] == old_r[x - 1]);
                }
            }
        }
        i = i + 1;
    }
    r
}

} // verus!
