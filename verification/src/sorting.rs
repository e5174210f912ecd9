//! Sorting positions under a total order.
//!
//! A build sorts the *positions* of its entries rather than the entries
//! themselves, so what is sorted here is a list of positions and the order is
//! whatever the caller's [`Ranking`] says of two of them.

use vstd::prelude::*;

verus! {

broadcast use vstd::seq_lib::group_to_multiset_ensures;

/// A strict total order on the positions a set of entries has.
pub trait Ranking<P: Copy> {
    /// Whether the order says anything about this position.
    spec fn ranks(&self, position: P) -> bool;

    /// Whether one position comes before another.
    spec fn precedes(&self, left: P, right: P) -> bool;

    /// Nothing precedes itself.
    proof fn irreflexive(&self, position: P)
        requires
            self.ranks(position),
        ensures
            !self.precedes(position, position),
    ;

    /// What precedes a position's predecessor precedes the position.
    proof fn transitive(&self, left: P, middle: P, right: P)
        requires
            self.ranks(left),
            self.ranks(middle),
            self.ranks(right),
            self.precedes(left, middle),
            self.precedes(middle, right),
        ensures
            self.precedes(left, right),
    ;

    /// Of two different positions one precedes the other.
    proof fn total(&self, left: P, right: P)
        requires
            self.ranks(left),
            self.ranks(right),
            left != right,
        ensures
            self.precedes(left, right) || self.precedes(right, left),
    ;

    /// Reports whether one position comes before another.
    fn before(&self, left: P, right: P) -> (answer: bool)
        requires
            self.ranks(left),
            self.ranks(right),
        ensures
            answer == self.precedes(left, right),
    ;
}

/// Whether every position stands before all that follow it.
pub open spec fn ascending<P: Copy, R: Ranking<P>>(ranking: &R, positions: Seq<P>) -> bool {
    forall|i: int, j: int|
        0 <= i < j < positions.len() ==> ranking.precedes(
            #[trigger] positions[i],
            #[trigger] positions[j],
        )
}

/// Whether the order speaks of every position in the list.
pub open spec fn all_ranked<P: Copy, R: Ranking<P>>(ranking: &R, positions: Seq<P>) -> bool {
    forall|i: int| 0 <= i < positions.len() ==> ranking.ranks(#[trigger] positions[i])
}

/// The first `n` positions of a list and the one after them make `n + 1`.
proof fn taking_one_more<T>(s: Seq<T>, n: int)
    requires
        0 <= n < s.len(),
    ensures
        s.take(n + 1).to_multiset() == s.take(n).to_multiset().insert(s[n]),
{
    assert(s.take(n + 1) =~= s.take(n).push(s[n]));
}

/// Two lists holding the same things hold each of them in common.
pub proof fn same_holdings<T>(left: Seq<T>, right: Seq<T>, i: int)
    requires
        left.to_multiset() == right.to_multiset(),
        0 <= i < left.len(),
    ensures
        right.contains(left[i]),
        left.len() == right.len(),
{
    left.to_multiset_ensures();
    right.to_multiset_ensures();
    assert(left.contains(left[i]));
    assert(left.to_multiset().count(left[i]) > 0);
    assert(right.to_multiset().len() == right.len());
    assert(left.to_multiset().len() == left.len());
}

/// Joins two sorted lists into one.
fn merge<P: Copy, R: Ranking<P>>(ranking: &R, left: &Vec<P>, right: &Vec<P>) -> (joined: Vec<P>)
    requires
        all_ranked(ranking, left@),
        all_ranked(ranking, right@),
        ascending(ranking, left@),
        ascending(ranking, right@),
        forall|i: int, j: int|
            0 <= i < left@.len() && 0 <= j < right@.len() ==> left@[i] != right@[j],
        left@.len() + right@.len() <= usize::MAX,
    ensures
        all_ranked(ranking, joined@),
        ascending(ranking, joined@),
        joined@.to_multiset() == left@.to_multiset().add(right@.to_multiset()),
{
    let mut joined: Vec<P> = Vec::with_capacity(left.len() + right.len());
    let mut i: usize = 0;
    let mut j: usize = 0;
    assert(left@.take(0) =~= Seq::<P>::empty());
    assert(right@.take(0) =~= Seq::<P>::empty());
    assert(joined@.to_multiset() =~= left@.take(0).to_multiset().add(right@.take(0).to_multiset()));
    while i < left.len() || j < right.len()
        invariant
            i <= left.len(),
            j <= right.len(),
            all_ranked(ranking, left@),
            all_ranked(ranking, right@),
            ascending(ranking, left@),
            ascending(ranking, right@),
            forall|a: int, b: int|
                0 <= a < left@.len() && 0 <= b < right@.len() ==> left@[a] != right@[b],
            all_ranked(ranking, joined@),
            ascending(ranking, joined@),
            joined@.to_multiset() == left@.take(i as int).to_multiset().add(
                right@.take(j as int).to_multiset(),
            ),
            forall|k: int, a: int|
                0 <= k < joined@.len() && i <= a < left@.len() ==> ranking.precedes(
                    #[trigger] joined@[k],
                    #[trigger] left@[a],
                ),
            forall|k: int, b: int|
                0 <= k < joined@.len() && j <= b < right@.len() ==> ranking.precedes(
                    #[trigger] joined@[k],
                    #[trigger] right@[b],
                ),
        decreases left.len() - i + right.len() - j,
    {
        let from_left: bool = if i >= left.len() {
            false
        } else if j >= right.len() {
            true
        } else {
            proof {
                ranking.total(left@[i as int], right@[j as int]);
            }
            ranking.before(left[i], right[j])
        };
        let ghost before = joined@;
        if from_left {
            proof {
                taking_one_more(left@, i as int);
                assert forall|b: int| j <= b < right@.len() implies ranking.precedes(
                    left@[i as int],
                    #[trigger] right@[b],
                ) by {
                    if b > j {
                        ranking.transitive(left@[i as int], right@[j as int], right@[b]);
                    }
                }
                assert(joined@.push(left@[i as int]).to_multiset() =~= left@.take(
                    i + 1,
                ).to_multiset().add(right@.take(j as int).to_multiset()));
            }
            joined.push(left[i]);
            i += 1;
        } else {
            proof {
                taking_one_more(right@, j as int);
                assert forall|a: int| i <= a < left@.len() implies ranking.precedes(
                    right@[j as int],
                    #[trigger] left@[a],
                ) by {
                    if a > i {
                        ranking.transitive(right@[j as int], left@[i as int], left@[a]);
                    }
                }
                assert(joined@.push(right@[j as int]).to_multiset() =~= left@.take(
                    i as int,
                ).to_multiset().add(right@.take(j + 1).to_multiset()));
            }
            joined.push(right[j]);
            j += 1;
        }
    }
    assert(left@.take(i as int) =~= left@);
    assert(right@.take(j as int) =~= right@);
    joined
}

/// Returns the positions in the ranking's order.
pub fn sorted<P: Copy, R: Ranking<P>>(ranking: &R, positions: &Vec<P>) -> (placed: Vec<P>)
    requires
        all_ranked(ranking, positions@),
        positions@.no_duplicates(),
    ensures
        placed@.to_multiset() == positions@.to_multiset(),
        all_ranked(ranking, placed@),
        ascending(ranking, placed@),
        placed@.len() == positions@.len(),
    decreases positions@.len(),
{
    let count: usize = positions.len();
    if count < 2 {
        let mut placed: Vec<P> = Vec::with_capacity(count);
        if count == 1 {
            placed.push(positions[0]);
        }
        assert(placed@ =~= positions@);
        return placed;
    }
    let middle: usize = count / 2;
    let mut low: Vec<P> = Vec::with_capacity(middle);
    let mut high: Vec<P> = Vec::with_capacity(count - middle);
    for at in 0..middle
        invariant
            middle <= count == positions@.len(),
            low@ == positions@.take(at as int),
    {
        low.push(positions[at]);
        assert(positions@.take(at + 1) =~= positions@.take(at as int).push(positions@[at as int]));
    }
    for at in middle..count
        invariant
            middle <= count == positions@.len(),
            high@ == positions@.subrange(middle as int, at as int),
    {
        high.push(positions[at]);
        assert(positions@.subrange(middle as int, at + 1) =~= positions@.subrange(
            middle as int,
            at as int,
        ).push(positions@[at as int]));
    }
    let first = sorted(ranking, &low);
    let second = sorted(ranking, &high);
    proof {
        assert(low@ + high@ =~= positions@);
        vstd::seq_lib::lemma_multiset_commutative(low@, high@);
        assert forall|i: int, j: int|
            0 <= i < first@.len() && 0 <= j < second@.len() implies first@[i] != second@[j] by {
            same_holdings(first@, low@, i);
            same_holdings(second@, high@, j);
            let a = choose|a: int| 0 <= a < low@.len() && low@[a] == first@[i];
            let b = choose|b: int| 0 <= b < high@.len() && high@[b] == second@[j];
            assert(positions@[a] == first@[i]);
            assert(positions@[middle + b] == second@[j]);
        }
        first@.to_multiset_ensures();
        low@.to_multiset_ensures();
        second@.to_multiset_ensures();
        high@.to_multiset_ensures();
    }
    let placed = merge(ranking, &first, &second);
    proof {
        placed@.to_multiset_ensures();
        positions@.to_multiset_ensures();
    }
    placed
}

/// Whether places put weights in ascending order, those that weigh the same in
/// the order they came in.
pub open spec fn weighed(weights: Seq<usize>, places: Seq<usize>) -> bool {
    &&& places.len() == weights.len()
    &&& places.no_duplicates()
    &&& forall|i: int| 0 <= i < places.len() ==> #[trigger] places[i] < weights.len()
    &&& forall|i: int, j: int|
        0 <= i < j < places.len() ==> {
            let one = weights[#[trigger] places[i] as int];
            let two = weights[#[trigger] places[j] as int];
            one < two || (one == two && places[i] < places[j])
        }
}

/// Some weights, and the order they put their positions in.
struct Weights<'a> {
    weights: &'a [usize],
}

impl<'a> Ranking<usize> for Weights<'a> {
    closed spec fn ranks(&self, position: usize) -> bool {
        position < self.weights@.len()
    }

    closed spec fn precedes(&self, left: usize, right: usize) -> bool {
        self.weights@[left as int] < self.weights@[right as int] || (self.weights@[left as int]
            == self.weights@[right as int] && left < right)
    }

    proof fn irreflexive(&self, position: usize) {
    }

    proof fn transitive(&self, left: usize, middle: usize, right: usize) {
    }

    proof fn total(&self, left: usize, right: usize) {
    }

    fn before(&self, left: usize, right: usize) -> (answer: bool) {
        self.weights[left] < self.weights[right] || (self.weights[left] == self.weights[right]
            && left < right)
    }
}

/// Returns the places that put weights in ascending order.
pub fn by_weight(weights: &[usize]) -> (places: Vec<usize>)
    ensures
        weighed(weights@, places@),
        places@.len() == weights@.len(),
        places@.no_duplicates(),
        forall|i: int| 0 <= i < places@.len() ==> #[trigger] places@[i] < weights@.len(),
        forall|i: int, j: int|
            0 <= i < j < places@.len() ==> weights@[#[trigger] places@[i] as int]
                <= weights@[#[trigger] places@[j] as int] && (weights@[places@[i] as int]
                == weights@[places@[j] as int] ==> places@[i] < places@[j]),
{
    let ranking = Weights { weights };
    let mut positions: Vec<usize> = Vec::with_capacity(weights.len());
    for at in 0..weights.len()
        invariant
            positions@.len() == at,
            forall|i: int| 0 <= i < at ==> #[trigger] positions@[i] == i,
    {
        positions.push(at);
    }
    let places = sorted(&ranking, &positions);
    proof {
        assert forall|i: int| 0 <= i < places@.len() implies #[trigger] places@[i]
            < weights@.len() by {
            assert(ranking.ranks(places@[i]));
        }
        assert forall|i: int, j: int| 0 <= i < j < places@.len() implies {
            let one = weights@[#[trigger] places@[i] as int];
            let two = weights@[#[trigger] places@[j] as int];
            one < two || (one == two && places@[i] < places@[j])
        } by {
            assert(ranking.precedes(places@[i], places@[j]));
        }
        assert forall|i: int, j: int|
            0 <= i < places@.len() && 0 <= j < places@.len() && i != j implies places@[i]
            != places@[j] by {
            if i < j {
                assert(ranking.precedes(places@[i], places@[j]));
            } else {
                assert(ranking.precedes(places@[j], places@[i]));
            }
        }
    }
    places
}

} // verus!
