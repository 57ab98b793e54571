//! Ordered selections of distinct digits, and the iterator that walks them.

use itertools::Itertools;
use itertools::Permutations;
use std::ops::Range;
use vstd::prelude::*;

verus! {

/// `p` selects `k` pairwise distinct numbers below `n`, in some order.
pub open spec fn is_arrangement(p: Seq<u32>, n: nat, k: nat) -> bool {
    &&& p.len() == k
    &&& forall|i: int| 0 <= i < p.len() ==> #[trigger] p[i] < n
    &&& forall|i: int, j: int| 0 <= i < j < p.len() ==> p[i] != p[j]
}

/// `a` comes before `b` in dictionary order: at the first place where they
/// differ, `a` holds the smaller number.
pub open spec fn lex_less(a: Seq<u32>, b: Seq<u32>) -> bool {
    exists|i: int|
        0 <= i < a.len() && i < b.len() && a[i] < b[i] && a.take(i) == b.take(i)
}

/// `all` lists every arrangement of `k` numbers below `n` exactly once, in
/// dictionary order.
pub open spec fn lists_arrangements(all: Seq<Seq<u32>>, n: nat, k: nat) -> bool {
    &&& forall|i: int| 0 <= i < all.len() ==> is_arrangement(#[trigger] all[i], n, k)
    &&& forall|i: int, j: int| 0 <= i < j < all.len() ==> lex_less(all[i], all[j])
    &&& forall|p: Seq<u32>| is_arrangement(p, n, k) ==> all.contains(p)
}

/// Two sequences never come before each other.
pub proof fn lemma_lex_less_asymmetric(a: Seq<u32>, b: Seq<u32>)
    ensures
        !(lex_less(a, b) && lex_less(b, a)),
{
    if lex_less(a, b) && lex_less(b, a) {
        let i = choose|i: int|
            0 <= i < a.len() && i < b.len() && a[i] < b[i] && a.take(i) == b.take(i);
        let j = choose|j: int|
            0 <= j < b.len() && j < a.len() && b[j] < a[j] && b.take(j) == a.take(j);
        if i < j {
            assert(a.take(j)[i] == a[i]);
            assert(b.take(j)[i] == b[i]);
        } else if j < i {
            assert(a.take(i)[j] == a[j]);
            assert(b.take(i)[j] == b[j]);
        }
    }
}

/// Two different sequences of one length that agree on their first `i`
/// places differ at a first place, which orders them.
proof fn lemma_first_difference(a: Seq<u32>, b: Seq<u32>, i: int)
    requires
        a.len() == b.len(),
        a != b,
        0 <= i <= a.len(),
        a.take(i) == b.take(i),
    ensures
        lex_less(a, b) || lex_less(b, a),
    decreases a.len() - i,
{
    if i == a.len() {
        assert(a.take(i) =~= a);
        assert(b.take(i) =~= b);
    } else if a[i] == b[i] {
        assert(a.take(i + 1) =~= a.take(i).push(a[i]));
        assert(b.take(i + 1) =~= b.take(i).push(b[i]));
        lemma_first_difference(a, b, i + 1);
    }
}

/// Of two different sequences of one length, one comes before the other.
pub proof fn lemma_lex_less_total(a: Seq<u32>, b: Seq<u32>)
    requires
        a.len() == b.len(),
        a != b,
    ensures
        lex_less(a, b) || lex_less(b, a),
{
    assert(a.take(0) =~= b.take(0));
    lemma_first_difference(a, b, 0);
}

/// No more than `n` pairwise distinct numbers lie below `n`.
pub proof fn lemma_arrangement_length(p: Seq<u32>, n: nat, k: nat)
    requires
        is_arrangement(p, n, k),
    ensures
        k <= n,
    decreases n,
{
    if k > 0 {
        assert(p[0] < n);
        let below = (n - 1) as nat;
        if exists|j: int| 0 <= j < p.len() && p[j] == below {
            let j = choose|j: int| 0 <= j < p.len() && p[j] == below;
            let rest = p.remove(j);
            assert forall|i: int| 0 <= i < rest.len() implies #[trigger] rest[i] < below by {
                if i < j {
                    assert(rest[i] == p[i]);
                } else {
                    assert(rest[i] == p[i + 1]);
                }
            }
            assert forall|i: int, l: int| 0 <= i < l < rest.len() implies rest[i] != rest[l] by {
                let pi = if i < j { i } else { i + 1 };
                let pl = if l < j { l } else { l + 1 };
                assert(rest[i] == p[pi]);
                assert(rest[l] == p[pl]);
            }
            lemma_arrangement_length(rest, below, (k - 1) as nat);
        } else {
            assert forall|i: int| 0 <= i < p.len() implies #[trigger] p[i] < below by {
                assert(p[i] < n);
            }
            lemma_arrangement_length(p, below, k);
        }
    }
}

/// `itertools::Permutations`, the iterator that `Itertools::permutations`
/// returns. Nothing inside it is visible here: what it holds is spoken of
/// through `pending` alone.
#[verifier::external_type_specification]
#[verifier::external_body]
#[verifier::reject_recursive_types(I)]
pub struct ExPermutations<I: Iterator>(Permutations<I>);

/// The selections that `perms` has yet to yield, in the order in which it
/// will yield them.
pub uninterp spec fn pending(perms: Permutations<Range<u32>>) -> Seq<Seq<u32>>;

/// Calls `Itertools::permutations` on the range `0..n`, for selections of
/// `k` numbers.
///
/// Not proved, but taken from the way `itertools` builds its selections: the
/// new iterator has every selection of `k` pairwise distinct numbers below
/// `n` pending, each once, and in dictionary order. For `k == 0` that is the
/// empty selection alone, and for `k > n` nothing at all.
#[verifier::external_body]
pub(crate) fn permutations_below(n: u32, k: usize) -> (perms: Permutations<Range<u32>>)
    ensures
        lists_arrangements(pending(perms), n as nat, k as nat),
{
    (0..n).permutations(k)
}

/// Calls `Iterator::next` on an `itertools::Permutations`.
///
/// Not proved, but taken from `itertools`: the call hands out the first
/// pending selection and leaves the others pending, in their order; when
/// none is pending it returns `None` and changes nothing.
#[verifier::external_body]
pub(crate) fn next_permutation(perms: &mut Permutations<Range<u32>>) -> (next: Option<Vec<u32>>)
    ensures
        match next {
            Some(digits) => pending(*old(perms)).len() > 0 && digits@ == pending(*old(perms))[0]
                && pending(*final(perms)) == pending(*old(perms)).drop_first(),
            None => pending(*old(perms)).len() == 0 && pending(*final(perms)) == pending(
                *old(perms),
            ),
        },
{
    perms.next()
}

} // verus!
