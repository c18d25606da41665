//! The order of names, and sorting by it.

use vstd::prelude::*;

use crate::text;
use crate::text::same_chars;

verus! {

/// Whether a text comes before another: at the first place where they differ it has the
/// smaller character, or it ends there.
pub open spec fn before(a: Seq<char>, b: Seq<char>) -> bool
    decreases a.len(),
{
    if b.len() == 0 {
        false
    } else if a.len() == 0 {
        true
    } else if a[0] != b[0] {
        a[0] < b[0]
    } else {
        before(a.skip(1), b.skip(1))
    }
}

/// Whether a text comes before another.
pub fn is_before(a: &[char], b: &[char]) -> (r: bool)
    ensures
        r == before(a@, b@),
{
    let n: usize = a.len();
    let m: usize = b.len();
    let mut i: usize = 0;
    assert(a@.skip(0) =~= a@);
    assert(b@.skip(0) =~= b@);
    while i < n && i < m
        invariant
            i <= n,
            i <= m,
            n == a@.len(),
            m == b@.len(),
            before(a@, b@) == before(a@.skip(i as int), b@.skip(i as int)),
        decreases n - i,
    {
        proof {
            assert(a@.skip(i as int)[0] == a@[i as int]);
            assert(b@.skip(i as int)[0] == b@[i as int]);
            assert(a@.skip(i as int).skip(1) =~= a@.skip(i + 1));
            assert(b@.skip(i as int).skip(1) =~= b@.skip(i + 1));
        }
        if a[i] != b[i] {
            return a[i] < b[i];
        }
        i += 1;
    }
    i < m
}

/// Of two different texts exactly one comes before the other, and none before itself.
pub proof fn lemma_before_total(a: Seq<char>, b: Seq<char>)
    ensures
        before(a, b) ==> !before(b, a),
        a != b <==> before(a, b) || before(b, a),
    decreases a.len(),
{
    if a.len() == 0 {
        if b.len() == 0 {
            assert(a =~= b);
        }
    } else if b.len() > 0 && a[0] == b[0] {
        lemma_before_total(a.skip(1), b.skip(1));
        if a.skip(1) == b.skip(1) {
            assert(a =~= seq![a[0]] + a.skip(1));
            assert(b =~= seq![b[0]] + b.skip(1));
        }
    }
}

/// What comes before a text comes before all that come after it.
pub proof fn lemma_before_trans(a: Seq<char>, b: Seq<char>, c: Seq<char>)
    requires
        before(a, b),
        before(b, c),
    ensures
        before(a, c),
    decreases a.len(),
{
    if a.len() > 0 && b.len() > 0 && c.len() > 0 && a[0] == b[0] && b[0] == c[0] {
        lemma_before_trans(a.skip(1), b.skip(1), c.skip(1));
    }
}

/// Whether a position comes before another: by the names that they stand for, and between
/// equal names by the positions themselves.
pub open spec fn ranks(names: Seq<Seq<char>>, a: usize, b: usize) -> bool {
    before(names[a as int], names[b as int]) || (names[a as int] == names[b as int] && a < b)
}

/// Of two different positions exactly one comes before the other.
pub proof fn lemma_ranks_total(names: Seq<Seq<char>>, a: usize, b: usize)
    ensures
        ranks(names, a, b) ==> !ranks(names, b, a),
        a != b <==> ranks(names, a, b) || ranks(names, b, a),
{
    lemma_before_total(names[a as int], names[b as int]);
}

/// Not being behind carries over.
proof fn lemma_not_behind_trans(names: Seq<Seq<char>>, a: usize, b: usize, c: usize)
    requires
        !ranks(names, b, a),
        !ranks(names, c, b),
    ensures
        !ranks(names, c, a),
{
    let (x, y, z) = (names[a as int], names[b as int], names[c as int]);
    lemma_before_total(x, y);
    lemma_before_total(y, z);
    lemma_before_total(x, z);
    if before(x, y) && before(y, z) {
        lemma_before_trans(x, y, z);
    }
}

/// Whether positions are in the order of the names that they stand for; equal names stay
/// in the order of their positions.
pub open spec fn ordered(order: Seq<usize>, names: Seq<Seq<char>>) -> bool {
    forall|j: int, k: int|
        0 <= j < k < order.len() ==> !ranks(names, #[trigger] order[k], #[trigger] order[j])
}

/// Whether positions stand for names.
pub open spec fn within_names(order: Seq<usize>, names: Seq<Seq<char>>) -> bool {
    forall|k: int| 0 <= k < order.len() ==> (#[trigger] order[k]) < names.len()
}

fn merge(names: &Vec<Vec<char>>, a: &Vec<usize>, b: &Vec<usize>) -> (r: Vec<usize>)
    requires
        ordered(a@, text::rows(names@)),
        ordered(b@, text::rows(names@)),
        within_names(a@, text::rows(names@)),
        within_names(b@, text::rows(names@)),
    ensures
        ordered(r@, text::rows(names@)),
        within_names(r@, text::rows(names@)),
        r@.to_multiset() == a@.to_multiset().add(b@.to_multiset()),
{
    let ghost ns = text::rows(names@);
    let n: usize = a.len();
    let m: usize = b.len();
    let mut r: Vec<usize> = Vec::new();
    let mut i: usize = 0;
    let mut j: usize = 0;
    proof {
        broadcast use vstd::seq_lib::group_to_multiset_ensures;

        assert(a@.take(0) =~= Seq::<usize>::empty());
        assert(b@.take(0) =~= Seq::<usize>::empty());
        assert(r@ =~= Seq::<usize>::empty());
        assert(r@.to_multiset() =~= a@.take(0).to_multiset().add(b@.take(0).to_multiset()));
    }
    while i < n || j < m
        invariant
            i <= n,
            j <= m,
            n == a@.len(),
            m == b@.len(),
            ns == text::rows(names@),
            ordered(a@, ns),
            ordered(b@, ns),
            within_names(a@, ns),
            within_names(b@, ns),
            ordered(r@, ns),
            within_names(r@, ns),
            r@.to_multiset() == a@.take(i as int).to_multiset().add(b@.take(j as int).to_multiset()),
            forall|x: int, k: int|
                0 <= x < r@.len() && i <= k < n ==> !ranks(ns, #[trigger] a@[k], #[trigger] r@[x]),
            forall|x: int, k: int|
                0 <= x < r@.len() && j <= k < m ==> !ranks(ns, #[trigger] b@[k], #[trigger] r@[x]),
        decreases (n - i) + (m - j),
    {
        let from_a = if i >= n {
            false
        } else if j >= m {
            true
        } else {
            let x: usize = a[i];
            let y: usize = b[j];
            assert(within_names(a@, ns));
            assert(a@[i as int] < ns.len());
            assert(b@[j as int] < ns.len());
            assert(ns[x as int] == names@[x as int]@);
            assert(ns[y as int] == names@[y as int]@);
            !is_before(names[y].as_slice(), names[x].as_slice()) && !(same_chars(
                names[y].as_slice(),
                names[x].as_slice(),
            ) && y < x)
        };
        let ghost old_r = r@;
        if from_a {
            let x: usize = a[i];
            r.push(x);
            proof {
                broadcast use vstd::seq_lib::group_to_multiset_ensures;

                assert(a@.take(i + 1) =~= a@.take(i as int).push(x));
                assert(r@.to_multiset() =~= a@.take(i + 1).to_multiset().add(
                    b@.take(j as int).to_multiset(),
                ));
                assert forall|p: int, k: int| 0 <= p < r@.len() && i + 1 <= k < n implies !ranks(ns, #[trigger] a@[k], #[trigger] r@[p]) by {
                    if p < old_r.len() {
                        assert(r@[p] == old_r[p]);
                    } else {
                        assert(a@[i as int] == x);
                    }
                }
                assert forall|p: int, k: int| 0 <= p < r@.len() && j <= k < m implies !ranks(ns, #[trigger] b@[k], #[trigger] r@[p]) by {
                    if p < old_r.len() {
                        assert(r@[p] == old_r[p]);
                    } else if k > j {
                        assert(!ranks(ns, b@[k], b@[j as int]));
                        lemma_not_behind_trans(ns, x, b@[j as int], b@[k]);
                    }
                }
            }
            i += 1;
        } else {
            let y: usize = b[j];
            r.push(y);
            proof {
                broadcast use vstd::seq_lib::group_to_multiset_ensures;

                assert(b@.take(j + 1) =~= b@.take(j as int).push(y));
                assert(r@.to_multiset() =~= a@.take(i as int).to_multiset().add(
                    b@.take(j + 1).to_multiset(),
                ));
                assert forall|p: int, k: int| 0 <= p < r@.len() && j + 1 <= k < m implies !ranks(ns, #[trigger] b@[k], #[trigger] r@[p]) by {
                    if p < old_r.len() {
                        assert(r@[p] == old_r[p]);
                    } else {
                        assert(b@[j as int] == y);
                    }
                }
                assert forall|p: int, k: int| 0 <= p < r@.len() && i <= k < n implies !ranks(ns, #[trigger] a@[k], #[trigger] r@[p]) by {
                    if p < old_r.len() {
                        assert(r@[p] == old_r[p]);
                    } else {
                        lemma_ranks_total(ns, y, a@[i as int]);
                        if k > i {
                            assert(!ranks(ns, a@[k], a@[i as int]));
                            lemma_not_behind_trans(ns, y, a@[i as int], a@[k]);
                        }
                    }
                }
            }
            j += 1;
        }
        assert(ordered(r@, ns)) by {
            assert forall|p: int, q: int| 0 <= p < q < r@.len() implies !ranks(ns, #[trigger] r@[q], #[trigger] r@[p]) by {
                if q < old_r.len() {
                    assert(!ranks(ns, old_r[q], old_r[p]));
                } else {
                    assert(r@[p] == old_r[p]);
                }
            }
        }
    }
    assert(a@.take(n as int) =~= a@);
    assert(b@.take(m as int) =~= b@);
    r
}

/// Sorts positions by the names that they stand for. Equal names stay in the order of
/// their positions.
pub fn sort_by_name(names: &Vec<Vec<char>>, order: &Vec<usize>) -> (r: Vec<usize>)
    requires
        within_names(order@, text::rows(names@)),
    ensures
        ordered(r@, text::rows(names@)),
        within_names(r@, text::rows(names@)),
        r@.to_multiset() == order@.to_multiset(),
    decreases order@.len(),
{
    let n: usize = order.len();
    let half: usize = n / 2;
    let mut left: Vec<usize> = Vec::new();
    let mut right: Vec<usize> = Vec::new();
    let mut i: usize = 0;
    while i < n
        invariant
            i <= n,
            n == order@.len(),
            half == n / 2,
            i <= half ==> left@ == order@.take(i as int) && right@.len() == 0,
            i > half ==> left@ == order@.take(half as int) && right@ == order@.subrange(
                half as int,
                i as int,
            ),
        decreases n - i,
    {
        if i < half {
            left.push(order[i]);
            assert(left@ =~= order@.take(i + 1));
        } else {
            right.push(order[i]);
            assert(right@ =~= order@.subrange(half as int, i + 1));
        }
        i += 1;
    }
    if n <= 1 {
        assert(right@ =~= order@);
        return right;
    }
    assert(right@ =~= order@.skip(half as int));
    assert(order@ =~= left@ + right@);
    let a = sort_by_name(names, &left);
    let b = sort_by_name(names, &right);
    proof {
        vstd::seq_lib::lemma_multiset_commutative(left@, right@);
    }
    merge(names, &a, &b)
}

/// Of two texts with the same beginning the one that ends there comes first, and otherwise
/// the one whose next character is the smaller.
pub proof fn law_order_goes_by_the_first_difference(
    same: Seq<char>,
    x: char,
    y: char,
    a: Seq<char>,
    b: Seq<char>,
)
    ensures
        before(same, same + seq![x] + a),
        !before(same + seq![x] + a, same),
        x < y ==> before(same + seq![x] + a, same + seq![y] + b),
        x > y ==> !before(same + seq![x] + a, same + seq![y] + b),
        !before(same, same),
    decreases same.len(),
{
    let p = same + seq![x] + a;
    let q = same + seq![y] + b;
    if same.len() == 0 {
        assert(p[0] == x);
        assert(q[0] == y);
    } else {
        let rest = same.skip(1);
        law_order_goes_by_the_first_difference(rest, x, y, a, b);
        assert(p[0] == same[0] && q[0] == same[0]);
        assert(p.skip(1) =~= rest + seq![x] + a);
        assert(q.skip(1) =~= rest + seq![y] + b);
    }
}

/// Positions are in order when the names never fall along them, and positions of the same
/// name rise.
pub proof fn law_positions_are_in_the_order_of_their_names(
    names: Seq<Seq<char>>,
    order: Seq<usize>,
    i: int,
    j: int,
)
    requires
        ordered(order, names),
        order.no_duplicates(),
        within_names(order, names),
        0 <= i < j < order.len(),
    ensures
        before(names[order[i] as int], names[order[j] as int]) || (names[order[i] as int]
            == names[order[j] as int] && order[i] < order[j]),
        order[i] < names.len(),
        order[j] < names.len(),
{
    assert(order[i] < names.len());
    assert(order[j] < names.len());
    assert(order[i] != order[j]);
    assert(!ranks(names, order[j], order[i]));
    lemma_ranks_total(names, order[i], order[j]);
}

} // verus!
