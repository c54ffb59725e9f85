//! Code-point order on strings; the component-wise order on file paths that
//! it induces; sorting of path lists by it.

use vstd::prelude::*;
use vstd::relations::{sorted_by, total_ordering};
use vstd::seq_lib::lemma_sorted_unique;

use crate::model::{part_view, views, FilePath, PathPart};

verus! {

broadcast use vstd::seq_lib::group_to_multiset_ensures;

/// `a` sorts before or equal to `b`: lexicographic by character code point,
/// a proper prefix sorting first.
pub open spec fn chars_le(a: Seq<char>, b: Seq<char>) -> bool
    decreases a.len(),
{
    if a.len() == 0 {
        true
    } else if b.len() == 0 {
        false
    } else if a[0] != b[0] {
        a[0] < b[0]
    } else {
        chars_le(a.drop_first(), b.drop_first())
    }
}

/// `a` sorts strictly before `b`.
pub open spec fn chars_lt(a: Seq<char>, b: Seq<char>) -> bool {
    chars_le(a, b) && a != b
}

/// Path `a` sorts before or equal to path `b`: lexicographic by component,
/// components compared by kind and then by text, a proper prefix sorting
/// first. This is how filesystem paths compare.
pub open spec fn path_le(a: Seq<Seq<char>>, b: Seq<Seq<char>>) -> bool
    decreases a.len(),
{
    if a.len() == 0 {
        true
    } else if b.len() == 0 {
        false
    } else if a[0] != b[0] {
        chars_le(a[0], b[0])
    } else {
        path_le(a.drop_first(), b.drop_first())
    }
}

/// Path `a` sorts strictly before path `b`.
pub open spec fn path_lt(a: Seq<Seq<char>>, b: Seq<Seq<char>>) -> bool {
    path_le(a, b) && a != b
}

/// The path order as a relation value, for `sort_by` and `sorted_by`.
pub open spec fn path_order() -> spec_fn(Seq<Seq<char>>, Seq<Seq<char>>) -> bool {
    |a: Seq<Seq<char>>, b: Seq<Seq<char>>| path_le(a, b)
}

/// `s` is strictly increasing, hence free of repeats.
pub open spec fn strictly_sorted(s: Seq<Seq<Seq<char>>>) -> bool {
    forall|i: int, j: int| 0 <= i < j < s.len() ==> path_lt(#[trigger] s[i], #[trigger] s[j])
}

proof fn lemma_chars_le_reflexive(a: Seq<char>)
    ensures
        chars_le(a, a),
    decreases a.len(),
{
    if a.len() > 0 {
        lemma_chars_le_reflexive(a.drop_first());
    }
}

proof fn lemma_chars_le_antisymmetric(a: Seq<char>, b: Seq<char>)
    requires
        chars_le(a, b),
        chars_le(b, a),
    ensures
        a == b,
    decreases a.len(),
{
    if a.len() > 0 && b.len() > 0 {
        if a[0] == b[0] {
            lemma_chars_le_antisymmetric(a.drop_first(), b.drop_first());
            assert(a =~= seq![a[0]] + a.drop_first());
            assert(b =~= seq![b[0]] + b.drop_first());
        }
    }
}

proof fn lemma_chars_le_transitive(a: Seq<char>, b: Seq<char>, c: Seq<char>)
    requires
        chars_le(a, b),
        chars_le(b, c),
    ensures
        chars_le(a, c),
    decreases a.len(),
{
    if a.len() > 0 && b.len() > 0 && c.len() > 0 {
        if a[0] == b[0] && b[0] == c[0] {
            lemma_chars_le_transitive(a.drop_first(), b.drop_first(), c.drop_first());
        }
    }
}

proof fn lemma_chars_le_total(a: Seq<char>, b: Seq<char>)
    ensures
        chars_le(a, b) || chars_le(b, a),
    decreases a.len(),
{
    if a.len() > 0 && b.len() > 0 {
        if a[0] == b[0] {
            lemma_chars_le_total(a.drop_first(), b.drop_first());
        }
    }
}

proof fn lemma_path_le_reflexive(a: Seq<Seq<char>>)
    ensures
        path_le(a, a),
    decreases a.len(),
{
    if a.len() > 0 {
        lemma_path_le_reflexive(a.drop_first());
    }
}

proof fn lemma_path_le_antisymmetric(a: Seq<Seq<char>>, b: Seq<Seq<char>>)
    requires
        path_le(a, b),
        path_le(b, a),
    ensures
        a == b,
    decreases a.len(),
{
    if a.len() > 0 && b.len() > 0 {
        if a[0] == b[0] {
            lemma_path_le_antisymmetric(a.drop_first(), b.drop_first());
            assert(a =~= seq![a[0]] + a.drop_first());
            assert(b =~= seq![b[0]] + b.drop_first());
        } else {
            lemma_chars_le_antisymmetric(a[0], b[0]);
        }
    }
}

proof fn lemma_path_le_transitive(a: Seq<Seq<char>>, b: Seq<Seq<char>>, c: Seq<Seq<char>>)
    requires
        path_le(a, b),
        path_le(b, c),
    ensures
        path_le(a, c),
    decreases a.len(),
{
    if a.len() > 0 && b.len() > 0 && c.len() > 0 {
        if a[0] == b[0] && b[0] == c[0] {
            lemma_path_le_transitive(a.drop_first(), b.drop_first(), c.drop_first());
        } else if a[0] != b[0] && b[0] != c[0] {
            lemma_chars_le_transitive(a[0], b[0], c[0]);
            if a[0] == c[0] {
                lemma_chars_le_antisymmetric(a[0], b[0]);
            }
        }
    }
}

proof fn lemma_path_le_total(a: Seq<Seq<char>>, b: Seq<Seq<char>>)
    ensures
        path_le(a, b) || path_le(b, a),
    decreases a.len(),
{
    if a.len() > 0 && b.len() > 0 {
        if a[0] == b[0] {
            lemma_path_le_total(a.drop_first(), b.drop_first());
        } else {
            lemma_chars_le_total(a[0], b[0]);
        }
    }
}

/// The path order is a total order.
pub proof fn lemma_path_order_total()
    ensures
        total_ordering(path_order()),
{
    assert forall|a: Seq<Seq<char>>| #[trigger] path_order()(a, a) by {
        lemma_path_le_reflexive(a);
    }
    assert forall|a: Seq<Seq<char>>, b: Seq<Seq<char>>| #[trigger] path_order()(a, b) && #[trigger] path_order()(b, a) implies a == b by {
        lemma_path_le_antisymmetric(a, b);
    }
    assert forall|a: Seq<Seq<char>>, b: Seq<Seq<char>>, c: Seq<Seq<char>>| #[trigger] path_order()(a, b) && #[trigger] path_order()(b, c) implies path_order()(a, c) by {
        lemma_path_le_transitive(a, b, c);
    }
    assert forall|a: Seq<Seq<char>>, b: Seq<Seq<char>>| #[trigger] path_order()(a, b) || #[trigger] path_order()(b, a) by {
        lemma_path_le_total(a, b);
    }
}

/// Whether `a` sorts before or equal to `b` in code-point order.
pub fn str_le(a: &str, b: &str) -> (r: bool)
    ensures
        r == chars_le(a@, b@),
{
    let na = a.unicode_len();
    let nb = b.unicode_len();
    let mut i: usize = 0;
    proof {
        assert(a@.skip(0) =~= a@);
        assert(b@.skip(0) =~= b@);
    }
    while i < na && i < nb
        invariant
            na == a@.len(),
            nb == b@.len(),
            i <= na,
            i <= nb,
            chars_le(a@, b@) == chars_le(a@.skip(i as int), b@.skip(i as int)),
        decreases na - i,
    {
        let ca = a.get_char(i);
        let cb = b.get_char(i);
        if ca != cb {
            proof {
                assert(a@.skip(i as int)[0] == ca);
                assert(b@.skip(i as int)[0] == cb);
            }
            return ca < cb;
        }
        proof {
            assert(a@.skip(i as int).drop_first() =~= a@.skip(i + 1));
            assert(b@.skip(i as int).drop_first() =~= b@.skip(i + 1));
        }
        i += 1;
    }
    i == na
}

/// Rank of a component kind, in the order filesystem paths compare them.
fn part_rank(p: &PathPart) -> (r: char)
    ensures
        part_view(*p)[0] == r,
        '0' <= r <= '4',
{
    match p {
        PathPart::Prefix(_) => '0',
        PathPart::RootDir => '1',
        PathPart::CurDir => '2',
        PathPart::ParentDir => '3',
        PathPart::Normal(_) => '4',
    }
}

/// Whether component `a` sorts before or equal to component `b`.
fn part_le(a: &PathPart, b: &PathPart) -> (r: bool)
    ensures
        r == chars_le(part_view(*a), part_view(*b)),
{
    let ra = part_rank(a);
    let rb = part_rank(b);
    let ghost va = part_view(*a);
    let ghost vb = part_view(*b);
    assert(va[0] == ra && vb[0] == rb);
    assert(va.len() > 0 && vb.len() > 0);
    if ra != rb {
        return ra < rb;
    }
    assert(chars_le(va, vb) == chars_le(va.drop_first(), vb.drop_first()));
    match (a, b) {
        (PathPart::Prefix(x), PathPart::Prefix(y)) => {
            assert(va.drop_first() =~= x@ && vb.drop_first() =~= y@);
            str_le(x.as_str(), y.as_str())
        },
        (PathPart::Normal(x), PathPart::Normal(y)) => {
            assert(va.drop_first() =~= x@ && vb.drop_first() =~= y@);
            str_le(x.as_str(), y.as_str())
        },
        _ => {
            assert(va.drop_first() =~= Seq::<char>::empty());
            assert(vb.drop_first() =~= Seq::<char>::empty());
            true
        },
    }
}

/// Whether two components are equal.
fn part_eq(a: &PathPart, b: &PathPart) -> (r: bool)
    ensures
        r == (part_view(*a) == part_view(*b)),
{
    let ra = part_rank(a);
    let rb = part_rank(b);
    let ghost va = part_view(*a);
    let ghost vb = part_view(*b);
    if ra != rb {
        return false;
    }
    match (a, b) {
        (PathPart::Prefix(x), PathPart::Prefix(y)) => {
            assert(va =~= seq!['0'] + x@ && vb =~= seq!['0'] + y@);
            assert(va == vb ==> va.drop_first() =~= x@ && vb.drop_first() =~= y@);
            let r = crate::text::str_eq(x.as_str(), y.as_str());
            proof {
                if r {
                    assert(va =~= vb);
                }
            }
            r
        },
        (PathPart::Normal(x), PathPart::Normal(y)) => {
            assert(va =~= seq!['4'] + x@ && vb =~= seq!['4'] + y@);
            assert(va == vb ==> va.drop_first() =~= x@ && vb.drop_first() =~= y@);
            let r = crate::text::str_eq(x.as_str(), y.as_str());
            proof {
                if r {
                    assert(va =~= vb);
                }
            }
            r
        },
        _ => {
            assert(va =~= vb);
            true
        },
    }
}

/// Whether path `a` sorts before or equal to path `b`.
pub fn file_path_le(a: &FilePath, b: &FilePath) -> (r: bool)
    ensures
        r == path_le(a@, b@),
{
    let na = a.parts.len();
    let nb = b.parts.len();
    let mut i: usize = 0;
    proof {
        assert(a@.skip(0) =~= a@);
        assert(b@.skip(0) =~= b@);
    }
    while i < na && i < nb
        invariant
            na == a@.len(),
            nb == b@.len(),
            a@ == a.parts@.map_values(|p: PathPart| part_view(p)),
            b@ == b.parts@.map_values(|p: PathPart| part_view(p)),
            i <= na,
            i <= nb,
            path_le(a@, b@) == path_le(a@.skip(i as int), b@.skip(i as int)),
        decreases na - i,
    {
        proof {
            assert(a@.skip(i as int)[0] == part_view(a.parts@[i as int]));
            assert(b@.skip(i as int)[0] == part_view(b.parts@[i as int]));
            assert(a@.skip(i as int).drop_first() =~= a@.skip(i + 1));
            assert(b@.skip(i as int).drop_first() =~= b@.skip(i + 1));
        }
        if !part_eq(&a.parts[i], &b.parts[i]) {
            return part_le(&a.parts[i], &b.parts[i]);
        }
        i += 1;
    }
    i == na
}

/// Whether two paths are equal, component by component.
pub fn file_path_eq(a: &FilePath, b: &FilePath) -> (r: bool)
    ensures
        r == (a@ == b@),
{
    let n = a.parts.len();
    assert(a@.len() == a.parts@.len() && b@.len() == b.parts@.len());
    if n != b.parts.len() {
        return false;
    }
    let mut i: usize = 0;
    while i < n
        invariant
            n == a@.len(),
            n == b@.len(),
            a@ == a.parts@.map_values(|p: PathPart| part_view(p)),
            b@ == b.parts@.map_values(|p: PathPart| part_view(p)),
            i <= n,
            forall|j: int| 0 <= j < i ==> a@[j] == b@[j],
        decreases n - i,
    {
        if !part_eq(&a.parts[i], &b.parts[i]) {
            proof {
                assert(a@[i as int] == part_view(a.parts@[i as int]));
                assert(b@[i as int] == part_view(b.parts@[i as int]));
            }
            return false;
        }
        i += 1;
    }
    assert(a@ =~= b@);
    true
}

/// `v` sorted by path order.
pub fn sort_paths(v: Vec<FilePath>) -> (r: Vec<FilePath>)
    ensures
        views(r@) == views(v@).sort_by(path_order()),
{
    proof {
        lemma_path_order_total();
    }
    let ghost order = path_order();
    let n = v.len();
    let mut r: Vec<FilePath> = Vec::new();
    let mut i: usize = 0;
    while i < n
        invariant
            n == v@.len(),
            i <= n,
            order == path_order(),
            total_ordering(order),
            sorted_by(views(r@), order),
            views(r@).to_multiset() == views(v@).take(i as int).to_multiset(),
        decreases n - i,
    {
        let x = v[i].copy();
        let m = r.len();
        let mut j: usize = 0;
        while j < m && file_path_le(&r[j], &x)
            invariant
                m == r@.len(),
                j <= m,
                forall|k: int| 0 <= k < j ==> path_le((#[trigger] r@[k])@, x@),
            decreases m - j,
        {
            j += 1;
        }
        let ghost before = views(r@);
        r.insert(j, x);
        proof {
            let after = views(r@);
            assert(after =~= before.insert(j as int, x@));
            assert forall|a: int, b: int| 0 <= a < b < after.len() implies order(#[trigger] after[a], #[trigger] after[b]) by {
                if b < j {
                    assert(after[a] == before[a] && after[b] == before[b]);
                } else if a > j {
                    assert(after[a] == before[a - 1] && after[b] == before[b - 1]);
                } else if a == j {
                    // x sorts before r[j], which sorts before everything after it
                    assert(!path_le(before[j as int], x@));
                    lemma_path_le_total(before[j as int], x@);
                    assert(order(x@, before[j as int]));
                    if b - 1 > j {
                        assert(order(before[j as int], before[b - 1]));
                    }
                    assert(after[b] == before[b - 1]);
                } else {
                    // a < j == b or a < j < b
                    assert(after[a] == before[a]);
                    assert(order(before[a], x@));
                    if b > j {
                        assert(!path_le(before[j as int], x@));
                        lemma_path_le_total(before[j as int], x@);
                        assert(order(x@, before[j as int]));
                        assert(after[b] == before[b - 1]);
                        if b - 1 > j {
                            assert(order(before[j as int], before[b - 1]));
                        }
                    }
                }
            }
            assert(views(v@).take(i + 1) =~= views(v@).take(i as int).push(x@));
            vstd::seq_lib::to_multiset_insert(before, j as int, x@);
        }
        i += 1;
    }
    proof {
        assert(views(v@).take(n as int) =~= views(v@));
        views(v@).lemma_sort_by_ensures(order);
        lemma_sorted_unique(views(r@), views(v@).sort_by(order), order);
    }
    r
}

/// `v`, sorted, with equal paths kept once.
pub fn sort_dedup_paths(v: Vec<FilePath>) -> (r: Vec<FilePath>)
    ensures
        strictly_sorted(views(r@)),
        forall|p: Seq<Seq<char>>| views(r@).contains(p) <==> views(v@).contains(p),
{
    let s = sort_paths(v);
    let ghost sorted = views(s@);
    proof {
        lemma_path_order_total();
        views(v@).lemma_sort_by_ensures(path_order());
        assert forall|p: Seq<Seq<char>>| sorted.contains(p) <==> views(v@).contains(p) by {
            assert(sorted.to_multiset().count(p) == views(v@).to_multiset().count(p));
        }
    }
    let n = s.len();
    let mut r: Vec<FilePath> = Vec::new();
    let mut i: usize = 0;
    while i < n
        invariant
            n == s@.len(),
            sorted == views(s@),
            sorted_by(sorted, path_order()),
            total_ordering(path_order()),
            i <= n,
            strictly_sorted(views(r@)),
            forall|p: Seq<Seq<char>>| views(r@).contains(p) <==> sorted.take(i as int).contains(p),
            r@.len() <= i,
            i > 0 ==> r@.len() > 0 && views(r@).last() == sorted[i - 1],
        decreases n - i,
    {
        let keep = if r.len() == 0 {
            true
        } else {
            let last = r.len() - 1;
            !file_path_eq(&r[last], &s[i])
        };
        let ghost before = views(r@);
        if keep {
            r.push(s[i].copy());
            proof {
                let after = views(r@);
                assert(after =~= before.push(sorted[i as int]));
                assert forall|a: int, b: int| 0 <= a < b < after.len() implies path_lt(#[trigger] after[a], #[trigger] after[b]) by {
                    if b == after.len() - 1 && before.len() > 0 {
                        assert(path_order()(sorted[i - 1], sorted[i as int]));
                        if a < before.len() - 1 {
                            assert(path_lt(before[a], before[before.len() - 1]));
                            assert(path_le(before[a], before[before.len() - 1]));
                            lemma_path_le_transitive(before[a], sorted[i - 1], sorted[i as int]);
                            if before[a] == sorted[i as int] {
                                lemma_path_le_antisymmetric(before[a], sorted[i - 1]);
                            }
                        }
                    }
                }
            }
        }
        proof {
            let after = views(r@);
            assert(sorted.take(i + 1) =~= sorted.take(i as int).push(sorted[i as int]));
            assert forall|p: Seq<Seq<char>>| after.contains(p) <==> sorted.take(i + 1).contains(p) by {
                let t0 = sorted.take(i as int);
                let t1 = sorted.take(i + 1);
                if after.contains(p) {
                    let k = choose|k: int| 0 <= k < after.len() && #[trigger] after[k] == p;
                    if keep && k == after.len() - 1 {
                        assert(t1[i as int] == p);
                    } else {
                        assert(before[k] == p);
                        assert(before.contains(p));
                        assert(t0.contains(p));
                        let m = choose|m: int| 0 <= m < t0.len() && #[trigger] t0[m] == p;
                        assert(t1[m] == p);
                    }
                }
                if t1.contains(p) {
                    let k = choose|k: int| 0 <= k < t1.len() && #[trigger] t1[k] == p;
                    if k == i {
                        if keep {
                            assert(after[after.len() - 1] == p);
                        } else {
                            assert(before[before.len() - 1] == p);
                            assert(after[before.len() - 1] == p);
                        }
                    } else {
                        assert(t0[k] == p);
                        assert(t0.contains(p));
                        assert(before.contains(p));
                        let m = choose|m: int| 0 <= m < before.len() && #[trigger] before[m] == p;
                        assert(after[m] == p);
                    }
                }
            }
        }
        i += 1;
    }
    proof {
        assert(sorted.take(n as int) =~= sorted);
    }
    r
}

} // verus!
