//! Orders and sorting: page numbers by value, names by their UTF-8 bytes.

use vstd::prelude::*;
use vstd::relations::sorted_by;
use vstd::relations::total_ordering;
use vstd::seq_lib::group_to_multiset_ensures;
use vstd::seq_lib::lemma_multiset_commutative;
use vstd::seq_lib::lemma_sorted_unique;
use vstd::slice::slice_subrange;
use vstd::slice::slice_to_vec;
use vstd::utf8::encode_utf8;
use vstd::utf8::encode_utf8_decode_utf8;

verus! {

/// The order of page numbers.
pub open spec fn pgno_le() -> spec_fn(u32, u32) -> bool {
    |a: u32, b: u32| a <= b
}

/// `pages` in ascending order.
pub open spec fn ascending(pages: Seq<u32>) -> Seq<u32> {
    pages.sort_by(pgno_le())
}

/// What is ascending and holds the same pages is the ascending order of them.
pub proof fn ascending_unique(pages: Seq<u32>, r: Seq<u32>)
    requires
        sorted_by(r, pgno_le()),
        r.to_multiset() == pages.to_multiset(),
    ensures
        r == ascending(pages),
{
    assert(total_ordering(pgno_le()));
    pages.lemma_sort_by_ensures(pgno_le());
    lemma_sorted_unique(r, ascending(pages), pgno_le());
}

/// The ascending order of pages holds the same pages, each as often, and is ascending.
pub proof fn ascending_facts(pages: Seq<u32>)
    ensures
        ascending(pages).to_multiset() == pages.to_multiset(),
        ascending(pages).len() == pages.len(),
        forall|i: int, j: int|
            0 <= i <= j < pages.len() ==> #[trigger] ascending(pages)[i]
                <= #[trigger] ascending(pages)[j],
        forall|p: u32| #[trigger] ascending(pages).contains(p) <==> pages.contains(p),
        pages.no_duplicates() ==> ascending(pages).no_duplicates(),
{
    broadcast use group_to_multiset_ensures;

    assert(total_ordering(pgno_le()));
    pages.lemma_sort_by_ensures(pgno_le());
    let r = ascending(pages);
    assert(r.len() == r.to_multiset().len() == pages.to_multiset().len() == pages.len());
    assert forall|i: int, j: int| 0 <= i <= j < pages.len() implies #[trigger] r[i]
        <= #[trigger] r[j] by {
        if i < j {
            assert(pgno_le()(r[i], r[j]));
        }
    }
    assert forall|p: u32| #[trigger] r.contains(p) <==> pages.contains(p) by {
        assert(r.to_multiset().count(p) == pages.to_multiset().count(p));
    }
    if pages.no_duplicates() {
        pages.lemma_multiset_has_no_duplicates();
        assert(r.to_multiset() == pages.to_multiset());
        r.lemma_multiset_has_no_duplicates_conv();
    }
}

fn merge_pages(a: &Vec<u32>, b: &Vec<u32>) -> (out: Vec<u32>)
    requires
        sorted_by(a@, pgno_le()),
        sorted_by(b@, pgno_le()),
    ensures
        sorted_by(out@, pgno_le()),
        out@.to_multiset() == (a@ + b@).to_multiset(),
{
    broadcast use group_to_multiset_ensures;

    let mut out: Vec<u32> = Vec::new();
    let mut i: usize = 0;
    let mut j: usize = 0;
    proof {
        assert(a@.take(0) =~= Seq::<u32>::empty());
        assert(b@.take(0) =~= Seq::<u32>::empty());
        assert(out@ + Seq::<u32>::empty() =~= out@);
        lemma_multiset_commutative(out@, Seq::<u32>::empty());
    }
    while i < a.len() || j < b.len()
        invariant
            i <= a@.len(),
            j <= b@.len(),
            sorted_by(a@, pgno_le()),
            sorted_by(b@, pgno_le()),
            sorted_by(out@, pgno_le()),
            forall|k: int, l: int| 0 <= k < out@.len() && i <= l < a@.len() ==> out@[k] <= a@[l],
            forall|k: int, l: int| 0 <= k < out@.len() && j <= l < b@.len() ==> out@[k] <= b@[l],
            out@.to_multiset() == a@.take(i as int).to_multiset().add(
                b@.take(j as int).to_multiset(),
            ),
        decreases a@.len() - i + b@.len() - j,
    {
        broadcast use group_to_multiset_ensures;

        let ghost before = out@;
        let from_a = if i >= a.len() {
            false
        } else if j >= b.len() {
            true
        } else {
            a[i] <= b[j]
        };
        if from_a {
            out.push(a[i]);
            proof {
                assert(a@.take(i + 1) =~= a@.take(i as int).push(a@[i as int]));
                assert(out@.to_multiset() =~= a@.take(i + 1).to_multiset().add(
                    b@.take(j as int).to_multiset(),
                ));
                assert forall|l: int| i < l < a@.len() implies a@[i as int] <= a@[l] by {
                    assert(pgno_le()(a@[i as int], a@[l]));
                }
                assert forall|l: int| j <= l < b@.len() implies a@[i as int] <= b@[l] by {
                    if j < l {
                        assert(pgno_le()(b@[j as int], b@[l]));
                    }
                }
            }
            i = i + 1;
        } else {
            out.push(b[j]);
            proof {
                assert(b@.take(j + 1) =~= b@.take(j as int).push(b@[j as int]));
                assert(out@.to_multiset() =~= a@.take(i as int).to_multiset().add(
                    b@.take(j + 1).to_multiset(),
                ));
                assert forall|l: int| j < l < b@.len() implies b@[j as int] <= b@[l] by {
                    assert(pgno_le()(b@[j as int], b@[l]));
                }
                assert forall|l: int| i <= l < a@.len() implies b@[j as int] <= a@[l] by {
                    if i < l {
                        assert(pgno_le()(a@[i as int], a@[l]));
                    }
                }
            }
            j = j + 1;
        }
    }
    proof {
        assert(a@.take(a@.len() as int) =~= a@);
        assert(b@.take(b@.len() as int) =~= b@);
        lemma_multiset_commutative(a@, b@);
    }
    out
}

/// Sorts page numbers.
pub fn sort_pages(pages: Vec<u32>) -> (r: Vec<u32>)
    ensures
        r@ == ascending(pages@),
    decreases pages@.len(),
{
    if pages.len() <= 1 {
        proof {
            ascending_unique(pages@, pages@);
        }
        return pages;
    }
    let mid: usize = pages.len() / 2;
    let left = slice_to_vec(slice_subrange(pages.as_slice(), 0, mid));
    let right = slice_to_vec(slice_subrange(pages.as_slice(), mid, pages.len()));
    let ghost (l, r) = (left@, right@);
    let left = sort_pages(left);
    let right = sort_pages(right);
    proof {
        assert(total_ordering(pgno_le()));
        l.lemma_sort_by_ensures(pgno_le());
        r.lemma_sort_by_ensures(pgno_le());
        lemma_multiset_commutative(l, r);
        lemma_multiset_commutative(left@, right@);
        assert(l + r =~= pages@);
    }
    let out = merge_pages(&left, &right);
    proof {
        ascending_unique(pages@, out@);
    }
    out
}

// ---------------------------------------------------------------------------------------
// Stable sorting
// ---------------------------------------------------------------------------------------
/// `s` with `x` put before the first item that it does not come after.
pub open spec fn place<A>(x: A, s: Seq<A>, le: spec_fn(A, A) -> bool) -> Seq<A>
    decreases s.len(),
{
    if s.len() == 0 || le(x, s.first()) {
        seq![x] + s
    } else {
        seq![s.first()] + place(x, s.drop_first(), le)
    }
}

/// `s` in the order `le`; items that are equal in it keep their order.
pub open spec fn stable_sort<A>(s: Seq<A>, le: spec_fn(A, A) -> bool) -> Seq<A>
    decreases s.len(),
{
    if s.len() == 0 {
        s
    } else {
        place(s.first(), stable_sort(s.drop_first(), le), le)
    }
}

/// Where `x` is placed: after the items that it comes after, and before all others.
pub proof fn place_at<A>(x: A, s: Seq<A>, le: spec_fn(A, A) -> bool, k: int)
    requires
        0 <= k <= s.len(),
        forall|j: int| 0 <= j < k ==> !le(x, #[trigger] s[j]),
        k < s.len() ==> le(x, s[k]),
    ensures
        place(x, s, le) == s.insert(k, x),
    decreases s.len(),
{
    if s.len() > 0 && !le(x, s.first()) {
        let t = s.drop_first();
        place_at(x, t, le, k - 1);
        assert(seq![s.first()] + t.insert(k - 1, x) =~= s.insert(k, x));
    } else {
        if k > 0 {
            assert(!le(x, s[0]));
        }
        assert(seq![x] + s =~= s.insert(0, x));
    }
}

/// A total preorder: everything is comparable, and the order carries over.
pub open spec fn preorder<A>(le: spec_fn(A, A) -> bool) -> bool {
    &&& forall|a: A, b: A| #[trigger] le(a, b) || #[trigger] le(b, a)
    &&& forall|a: A, b: A, c: A| #[trigger] le(a, b) && #[trigger] le(b, c) ==> le(a, c)
}

proof fn place_facts<A>(x: A, s: Seq<A>, le: spec_fn(A, A) -> bool)
    requires
        preorder(le),
        sorted_by(s, le),
    ensures
        sorted_by(place(x, s, le), le),
        place(x, s, le).to_multiset() == s.to_multiset().insert(x),
        place(x, s, le).len() == s.len() + 1,
    decreases s.len(),
{
    broadcast use group_to_multiset_ensures;

    let r = place(x, s, le);
    if s.len() == 0 || le(x, s.first()) {
        assert(r =~= s.insert(0, x));
        assert forall|i: int, j: int| 0 <= i < j < r.len() implies #[trigger] le(r[i], r[j]) by {
            if i > 0 {
                assert(le(s[i - 1], s[j - 1]));
            } else if j > 1 {
                assert(le(s[0], s[j - 1]));
            }
        }
    } else {
        let t = s.drop_first();
        assert(sorted_by(t, le)) by {
            assert forall|i: int, j: int| 0 <= i < j < t.len() implies #[trigger] le(
                t[i],
                t[j],
            ) by {
                assert(le(s[i + 1], s[j + 1]));
            }
        }
        place_facts(x, t, le);
        let u = place(x, t, le);
        assert(r =~= u.insert(0, s.first()));
        assert(s =~= t.insert(0, s.first()));
        assert(r.to_multiset() =~= s.to_multiset().insert(x));
        assert forall|i: int, j: int| 0 <= i < j < r.len() implies #[trigger] le(r[i], r[j]) by {
            if i > 0 {
                assert(le(u[i - 1], u[j - 1]));
            } else {
                assert(u.contains(u[j - 1]));
                assert(u.to_multiset().count(u[j - 1]) > 0);
                if u[j - 1] != x {
                    assert(t.to_multiset().count(u[j - 1]) > 0);
                    assert(t.contains(u[j - 1]));
                    let k = choose|k: int| 0 <= k < t.len() && t[k] == u[j - 1];
                    assert(le(s[0], s[k + 1]));
                } else {
                    assert(le(s.first(), x));
                }
            }
        }
    }
}

/// A stable sort holds the same items, each as often, and is in order.
pub proof fn stable_sort_facts<A>(s: Seq<A>, le: spec_fn(A, A) -> bool)
    requires
        preorder(le),
    ensures
        sorted_by(stable_sort(s, le), le),
        stable_sort(s, le).to_multiset() == s.to_multiset(),
        stable_sort(s, le).len() == s.len(),
    decreases s.len(),
{
    broadcast use group_to_multiset_ensures;

    if s.len() > 0 {
        let t = s.drop_first();
        stable_sort_facts(t, le);
        place_facts(s.first(), stable_sort(t, le), le);
        assert(s =~= t.insert(0, s.first()));
    }
}

// ---------------------------------------------------------------------------------------
// Names
// ---------------------------------------------------------------------------------------
/// The lexicographic order of byte strings.
pub open spec fn bytes_le(a: Seq<u8>, b: Seq<u8>) -> bool
    decreases a.len(),
{
    if a.len() == 0 {
        true
    } else if b.len() == 0 {
        false
    } else if a.first() != b.first() {
        a.first() < b.first()
    } else {
        bytes_le(a.drop_first(), b.drop_first())
    }
}

/// The order of names: that of their UTF-8 bytes.
pub open spec fn name_le(a: Seq<char>, b: Seq<char>) -> bool {
    bytes_le(encode_utf8(a), encode_utf8(b))
}

/// The order of byte strings is total, and only equal strings come both ways.
pub proof fn bytes_le_total(a: Seq<u8>, b: Seq<u8>)
    ensures
        bytes_le(a, b) || bytes_le(b, a),
        bytes_le(a, b) && bytes_le(b, a) ==> a == b,
    decreases a.len(),
{
    if a.len() > 0 && b.len() > 0 && a.first() == b.first() {
        bytes_le_total(a.drop_first(), b.drop_first());
        if bytes_le(a, b) && bytes_le(b, a) {
            assert(a =~= seq![a.first()] + a.drop_first());
            assert(b =~= seq![b.first()] + b.drop_first());
        }
    } else if a.len() == 0 && b.len() == 0 {
        assert(a =~= b);
    }
}

/// The order of byte strings carries over.
pub proof fn bytes_le_transitive(a: Seq<u8>, b: Seq<u8>, c: Seq<u8>)
    requires
        bytes_le(a, b),
        bytes_le(b, c),
    ensures
        bytes_le(a, c),
    decreases a.len(),
{
    if a.len() > 0 && a.first() == b.first() && b.first() == c.first() {
        bytes_le_transitive(a.drop_first(), b.drop_first(), c.drop_first());
    }
}

/// The order of names is total, and only equal names come both ways.
pub proof fn name_le_total(a: Seq<char>, b: Seq<char>)
    ensures
        name_le(a, b) || name_le(b, a),
        name_le(a, b) && name_le(b, a) ==> a == b,
{
    bytes_le_total(encode_utf8(a), encode_utf8(b));
    encode_utf8_decode_utf8(a);
    encode_utf8_decode_utf8(b);
}

/// The order of names carries over.
pub proof fn name_le_transitive(a: Seq<char>, b: Seq<char>, c: Seq<char>)
    requires
        name_le(a, b),
        name_le(b, c),
    ensures
        name_le(a, c),
{
    bytes_le_transitive(encode_utf8(a), encode_utf8(b), encode_utf8(c));
}

/// Does name `a` come before name `b`, or equal it?
pub fn name_not_after(a: &str, b: &str) -> (r: bool)
    ensures
        r == name_le(a@, b@),
{
    let x = a.as_bytes();
    let y = b.as_bytes();
    let mut i: usize = 0;
    assert(x@.skip(0) =~= x@);
    assert(y@.skip(0) =~= y@);
    while i < x.len() && i < y.len() && x[i] == y[i]
        invariant
            i <= x@.len(),
            i <= y@.len(),
            bytes_le(x@, y@) == bytes_le(x@.skip(i as int), y@.skip(i as int)),
        decreases x@.len() - i,
    {
        assert(x@.skip(i as int).drop_first() =~= x@.skip(i + 1));
        assert(y@.skip(i as int).drop_first() =~= y@.skip(i + 1));
        i = i + 1;
    }
    if i >= x.len() {
        true
    } else if i >= y.len() {
        false
    } else {
        x[i] < y[i]
    }
}

// ---------------------------------------------------------------------------------------
// Lists without repetition
// ---------------------------------------------------------------------------------------
/// `s` is in the order `le`, nothing occurring twice.
pub open spec fn strictly<A>(s: Seq<A>, le: spec_fn(A, A) -> bool) -> bool {
    forall|i: int, j: int|
        0 <= i < j < s.len() ==> le(#[trigger] s[i], #[trigger] s[j]) && s[i] != s[j]
}

/// Only equal items come both ways in the order `le`.
pub open spec fn antisymmetric_order<A>(le: spec_fn(A, A) -> bool) -> bool {
    forall|a: A, b: A| #[trigger] le(a, b) && #[trigger] le(b, a) ==> a == b
}

proof fn strictly_unique_at<A>(a: Seq<A>, b: Seq<A>, le: spec_fn(A, A) -> bool, n: int)
    requires
        antisymmetric_order(le),
        strictly(a, le),
        strictly(b, le),
        forall|k: A| #[trigger] a.contains(k) <==> b.contains(k),
        0 <= n <= a.len(),
        n <= b.len(),
    ensures
        a.take(n) == b.take(n),
    decreases n,
{
    if n > 0 {
        let m = n - 1;
        strictly_unique_at(a, b, le, m);
        // Each is the least of what is left on its side, and occurs on the other.
        assert(a.contains(a[m]));
        assert(b.contains(a[m]));
        assert(b.contains(b[m]));
        assert(a.contains(b[m]));
        let i = choose|i: int| 0 <= i < b.len() && b[i] == a[m];
        let j = choose|j: int| 0 <= j < a.len() && a[j] == b[m];
        if i < m {
            assert(a.take(m)[i] == b.take(m)[i]);
            assert(a[i] != a[m]);
        }
        if j < m {
            assert(a.take(m)[j] == b.take(m)[j]);
            assert(b[j] != b[m]);
        }
        if i != m && j != m {
            assert(le(b[m], b[i]));
            assert(le(a[m], a[j]));
        }
        assert(a[m] == b[m]);
        assert(a.take(n) =~= a.take(m).push(a[m]));
        assert(b.take(n) =~= b.take(m).push(b[m]));
    } else {
        assert(a.take(n) =~= b.take(n));
    }
}

/// There is only one way to list the same items in order, nothing occurring twice.
pub proof fn strictly_unique<A>(a: Seq<A>, b: Seq<A>, le: spec_fn(A, A) -> bool)
    requires
        antisymmetric_order(le),
        strictly(a, le),
        strictly(b, le),
        forall|k: A| #[trigger] a.contains(k) <==> b.contains(k),
    ensures
        a == b,
{
    let n = if a.len() < b.len() {
        a.len() as int
    } else {
        b.len() as int
    };
    strictly_unique_at(a, b, le, n);
    if a.len() > n {
        assert(a.contains(a[n]));
        assert(b.contains(a[n]));
        let i = choose|i: int| 0 <= i < b.len() && b[i] == a[n];
        assert(a.take(n)[i] == b.take(n)[i]);
        assert(a[i] != a[n]);
    }
    if b.len() > n {
        assert(b.contains(b[n]));
        assert(a.contains(b[n]));
        let i = choose|i: int| 0 <= i < a.len() && a[i] == b[n];
        assert(a.take(n)[i] == b.take(n)[i]);
        assert(b[i] != b[n]);
    }
    assert(a.take(n) =~= a);
    assert(b.take(n) =~= b);
}

/// The order of names, as a relation.
pub open spec fn by_name() -> spec_fn(Seq<char>, Seq<char>) -> bool {
    |a: Seq<char>, b: Seq<char>| name_le(a, b)
}

/// Only equal names come both ways.
pub proof fn by_name_antisymmetric()
    ensures
        antisymmetric_order(by_name()),
{
    assert forall|a: Seq<char>, b: Seq<char>| #[trigger]
        by_name()(a, b) && #[trigger] by_name()(b, a) implies a == b by {
        name_le_total(a, b);
    }
}

} // verus!
