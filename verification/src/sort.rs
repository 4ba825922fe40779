//! Stable sorting by index.
use vstd::prelude::*;
use vstd::string::*;

use crate::text::{
    chars_of, law_texts_in_order, lemma_lex_total, lemma_lex_transitive, lex_at_most, lex_le,
};

verus! {

/// A list whose places can be compared: a total preorder on its indices.
pub trait Ranked {
    /// How many places there are.
    spec fn size(&self) -> nat;

    /// Whether place `i` may stand before place `j`.
    spec fn ranks(&self, i: int, j: int) -> bool;

    /// The comparison orders all places.
    proof fn ranks_all(&self, i: int, j: int, k: int)
        requires
            0 <= i < self.size(),
            0 <= j < self.size(),
            0 <= k < self.size(),
        ensures
            self.ranks(i, j) || self.ranks(j, i),
            self.ranks(i, j) && self.ranks(j, k) ==> self.ranks(i, k),
    ;

    /// Whether place `i` may stand before place `j`.
    fn may_precede(&self, i: usize, j: usize) -> (r: bool)
        requires
            i < self.size(),
            j < self.size(),
        ensures
            r == self.ranks(i as int, j as int),
    ;
}

/// Whether places stand in order.
pub open spec fn in_order<R: Ranked>(list: R, order: Seq<usize>) -> bool {
    forall|a: int, b: int|
        #![trigger order[a], order[b]]
        0 <= a <= b < order.len() ==> list.ranks(order[a] as int, order[b] as int)
}

/// Whether `order` holds every index below `n` exactly once.
pub open spec fn is_arrangement(order: Seq<usize>, n: nat) -> bool {
    &&& order.len() == n
    &&& forall|a: int| #![trigger order[a]] 0 <= a < n ==> order[a] < n
    &&& forall|a: int, b: int|
        #![trigger order[a], order[b]]
        0 <= a < b < n ==> order[a] != order[b]
}

/// Merges two runs that are in order into one.
fn merge<R: Ranked>(list: &R, left: &Vec<usize>, right: &Vec<usize>) -> (out: Vec<usize>)
    requires
        in_order(*list, left@),
        in_order(*list, right@),
        forall|a: int| #![trigger left@[a]] 0 <= a < left@.len() ==> left@[a] < list.size(),
        forall|a: int| #![trigger right@[a]] 0 <= a < right@.len() ==> right@[a] < list.size(),
        left@.len() + right@.len() <= usize::MAX,
    ensures
        in_order(*list, out@),
        out@.len() == left@.len() + right@.len(),
        out@.to_multiset() == left@.to_multiset().add(right@.to_multiset()),
        forall|a: int| #![trigger out@[a]] 0 <= a < out@.len() ==> out@[a] < list.size(),
{
    broadcast use vstd::seq_lib::group_to_multiset_ensures;

    let mut out: Vec<usize> = Vec::with_capacity(left.len() + right.len());
    let mut i: usize = 0;
    let mut j: usize = 0;
    proof {
        assert(left@.take(0) =~= Seq::<usize>::empty());
        assert(right@.take(0) =~= Seq::<usize>::empty());
        assert(out@.to_multiset() =~= left@.take(0).to_multiset().add(
            right@.take(0).to_multiset(),
        ));
    }
    while i < left.len() || j < right.len()
        invariant
            i <= left@.len(),
            j <= right@.len(),
            in_order(*list, left@),
            in_order(*list, right@),
            forall|a: int| #![trigger left@[a]] 0 <= a < left@.len() ==> left@[a] < list.size(),
            forall|a: int|
                #![trigger right@[a]]
                0 <= a < right@.len() ==> right@[a] < list.size(),
            out@.len() == i + j,
            left@.len() + right@.len() <= usize::MAX,
            in_order(*list, out@),
            forall|a: int| #![trigger out@[a]] 0 <= a < out@.len() ==> out@[a] < list.size(),
            forall|a: int|
                #![trigger out@[a]]
                0 <= a < out@.len() && i < left@.len() ==> list.ranks(
                    out@[a] as int,
                    left@[i as int] as int,
                ),
            forall|a: int|
                #![trigger out@[a]]
                0 <= a < out@.len() && j < right@.len() ==> list.ranks(
                    out@[a] as int,
                    right@[j as int] as int,
                ),
            out@.to_multiset() == left@.take(i as int).to_multiset().add(
                right@.take(j as int).to_multiset(),
            ),
        decreases left@.len() + right@.len() - i - j,
    {
        let take_left: bool = if i >= left.len() {
            false
        } else if j >= right.len() {
            true
        } else {
            list.may_precede(left[i], right[j])
        };
        let ghost before = out@;
        let x: usize = if take_left {
            left[i]
        } else {
            right[j]
        };
        out.push(x);
        let ghost (i0, j0) = (i as int, j as int);
        if take_left {
            i = i + 1;
        } else {
            j = j + 1;
        }
        proof {
            lemma_take_one(before, left@, right@, i0, j0, take_left);
            list.ranks_all(x as int, x as int, x as int);
            assert forall|a: int, b: int|
                #![trigger out@[a], out@[b]]
                0 <= a <= b < out@.len() implies list.ranks(out@[a] as int, out@[b] as int) by {
                if b < before.len() {
                    assert(out@[a] == before[a] && out@[b] == before[b]);
                } else if a < before.len() {
                    assert(out@[a] == before[a]);
                }
            }
            let last = out@.len() - 1;
            if i < left@.len() {
                let y = left@[i as int];
                if take_left {
                    assert(left@[i0] == x);
                } else {
                    list.ranks_all(x as int, y as int, x as int);
                }
                assert(list.ranks(x as int, y as int));
                assert forall|a: int| #![trigger out@[a]] 0 <= a < out@.len() implies list.ranks(
                    out@[a] as int,
                    y as int,
                ) by {
                    assert(list.ranks(out@[a] as int, out@[last] as int));
                    list.ranks_all(out@[a] as int, x as int, y as int);
                }
            }
            if j < right@.len() {
                let y = right@[j as int];
                if !take_left {
                    assert(right@[j0] == x);
                }
                assert(list.ranks(x as int, y as int));
                assert forall|a: int| #![trigger out@[a]] 0 <= a < out@.len() implies list.ranks(
                    out@[a] as int,
                    y as int,
                ) by {
                    assert(list.ranks(out@[a] as int, out@[last] as int));
                    list.ranks_all(out@[a] as int, x as int, y as int);
                }
            }
        }
    }
    proof {
        assert(left@.take(i as int) =~= left@);
        assert(right@.take(j as int) =~= right@);
    }
    out
}

/// Taking one more place from either run keeps what is in the output.
proof fn lemma_take_one(
    out: Seq<usize>,
    left: Seq<usize>,
    right: Seq<usize>,
    i: int,
    j: int,
    from_left: bool,
)
    requires
        0 <= i <= left.len(),
        0 <= j <= right.len(),
        from_left ==> i < left.len(),
        !from_left ==> j < right.len(),
        out.to_multiset() == left.take(i).to_multiset().add(right.take(j).to_multiset()),
    ensures
        from_left ==> out.push(left[i]).to_multiset() == left.take(i + 1).to_multiset().add(
            right.take(j).to_multiset(),
        ),
        !from_left ==> out.push(right[j]).to_multiset() == left.take(i).to_multiset().add(
            right.take(j + 1).to_multiset(),
        ),
{
    broadcast use vstd::seq_lib::group_to_multiset_ensures;

    if from_left {
        assert(left.take(i + 1) =~= left.take(i).push(left[i]));
        assert(out.push(left[i]).to_multiset() =~= left.take(i + 1).to_multiset().add(
            right.take(j).to_multiset(),
        ));
    } else {
        assert(right.take(j + 1) =~= right.take(j).push(right[j]));
        assert(out.push(right[j]).to_multiset() =~= left.take(i).to_multiset().add(
            right.take(j + 1).to_multiset(),
        ));
    }
}

/// The indices from `from` to `to`, as a sequence.
pub open spec fn index_run(from: int, to: int) -> Seq<usize> {
    Seq::new((to - from) as nat, |i: int| (from + i) as usize)
}

fn sort_range<R: Ranked>(list: &R, from: usize, to: usize) -> (out: Vec<usize>)
    requires
        from <= to <= list.size(),
    ensures
        in_order(*list, out@),
        out@.len() == to - from,
        out@.to_multiset() == index_run(from as int, to as int).to_multiset(),
        forall|a: int| #![trigger out@[a]] 0 <= a < out@.len() ==> out@[a] < list.size(),
    decreases to - from,
{
    if to - from <= 1 {
        let mut out: Vec<usize> = Vec::new();
        if from < to {
            out.push(from);
            proof {
                list.ranks_all(from as int, from as int, from as int);
            }
        }
        proof {
            assert(out@ =~= index_run(from as int, to as int));
        }
        return out;
    }
    let mid: usize = from + (to - from) / 2;
    let left: Vec<usize> = sort_range(list, from, mid);
    let right: Vec<usize> = sort_range(list, mid, to);
    proof {
        let a = index_run(from as int, mid as int);
        let b = index_run(mid as int, to as int);
        assert(a + b =~= index_run(from as int, to as int));
        vstd::seq_lib::lemma_multiset_commutative(a, b);
    }
    merge(list, &left, &right)
}

/// The places of a list in order.
pub fn sorted_places<R: Ranked>(list: &R, n: usize) -> (order: Vec<usize>)
    requires
        n == list.size(),
    ensures
        in_order(*list, order@),
        is_arrangement(order@, n as nat),
        order@.to_multiset() == index_run(0, n as int).to_multiset(),
{
    let order: Vec<usize> = sort_range(list, 0, n);
    proof {
        lemma_distinct(order@, n as int);
    }
    order
}

proof fn lemma_distinct(order: Seq<usize>, n: int)
    requires
        0 <= n <= usize::MAX,
        order.to_multiset() == index_run(0, n).to_multiset(),
        order.len() == n,
    ensures
        forall|a: int, b: int|
            #![trigger order[a], order[b]]
            0 <= a < b < n ==> order[a] != order[b],
{
    broadcast use vstd::seq_lib::group_to_multiset_ensures;

    let run = index_run(0, n);
    assert(run.no_duplicates());
    run.lemma_multiset_has_no_duplicates();
    assert forall|x: usize| #[trigger] order.to_multiset().contains(x) implies
        order.to_multiset().count(x) == 1 by {
        assert(run.to_multiset().contains(x));
    }
    order.lemma_multiset_has_no_duplicates_conv();
    assert(order.no_duplicates());
}

/// The characters of texts.
struct Texts {
    texts: Vec<Vec<char>>,
}

impl Ranked for Texts {
    closed spec fn size(&self) -> nat {
        self.texts@.len()
    }

    closed spec fn ranks(&self, i: int, j: int) -> bool {
        lex_le(self.texts@[i]@, self.texts@[j]@)
    }

    proof fn ranks_all(&self, i: int, j: int, k: int) {
        let (a, b, c) = (self.texts@[i]@, self.texts@[j]@, self.texts@[k]@);
        lemma_lex_total(a, b);
        if lex_le(a, b) && lex_le(b, c) {
            lemma_lex_transitive(a, b, c);
        }
    }

    fn may_precede(&self, i: usize, j: usize) -> (r: bool) {
        lex_at_most(&self.texts[i], &self.texts[j])
    }
}

/// Whether `order` arranges texts character by character.
pub open spec fn by_text(order: Seq<usize>, texts: Seq<Seq<char>>) -> bool {
    &&& is_arrangement(order, texts.len())
    &&& forall|a: int, b: int|
        #![trigger order[a], order[b]]
        0 <= a <= b < order.len() ==> lex_le(texts[order[a] as int], texts[order[b] as int])
}

/// The places of texts in the order of their characters.
#[must_use]
pub fn text_order(texts: &Vec<String>) -> (order: Vec<usize>)
    ensures
        by_text(order@, Seq::new(texts@.len(), |i: int| texts@[i]@)),
{
    let mut list: Vec<Vec<char>> = Vec::with_capacity(texts.len());
    let mut i: usize = 0;
    while i < texts.len()
        invariant
            i <= texts@.len(),
            list@.len() == i,
            forall|k: int| #![trigger list@[k]] 0 <= k < i ==> list@[k]@ == texts@[k]@,
        decreases texts@.len() - i,
    {
        list.push(chars_of(texts[i].as_str()));
        i = i + 1;
    }
    let ranked: Texts = Texts { texts: list };
    let order: Vec<usize> = sorted_places(&ranked, texts.len());
    proof {
        let views = Seq::new(texts@.len(), |i: int| texts@[i]@);
        assert forall|a: int, b: int|
            #![trigger order@[a], order@[b]]
            0 <= a <= b < order@.len() implies lex_le(
            views[order@[a] as int],
            views[order@[b] as int],
        ) by {
            assert(ranked.ranks(order@[a] as int, order@[b] as int));
            assert(ranked.texts@[order@[a] as int]@ == views[order@[a] as int]);
            assert(ranked.texts@[order@[b] as int]@ == views[order@[b] as int]);
        }
    }
    order
}

/// An arrangement leaves no place out and holds none twice.
pub proof fn law_arrangement_is_complete(order: Seq<usize>, n: nat)
    requires
        is_arrangement(order, n),
    ensures
        order.len() == n,
        order.no_duplicates(),
        forall|i: usize| order.contains(i) <==> i < n,
{
    assert(order.no_duplicates());
    let ints = Seq::new(order.len(), |k: int| order[k] as int);
    assert(ints.no_duplicates());
    ints.unique_seq_to_set();
    let all = vstd::set_lib::set_int_range(0, n as int);
    vstd::set_lib::lemma_int_range(0, n as int);
    assert forall|x: int| #[trigger] ints.to_set().contains(x) implies all.contains(x) by {
        let k = choose|k: int| 0 <= k < ints.len() && ints[k] == x;
        assert(order[k] < n);
    }
    vstd::set_lib::lemma_subset_equality(ints.to_set(), all);
    assert forall|i: usize| order.contains(i) <==> i < n by {
        if i < n {
            assert(all.contains(i as int));
            assert(ints.to_set().contains(i as int));
            let k = choose|k: int| 0 <= k < ints.len() && ints[k] == i as int;
            assert(order[k] == i);
        }
        if order.contains(i) {
            let k = choose|k: int| 0 <= k < order.len() && order[k] == i;
            assert(order[k] < n);
        }
    }
}

/// Texts arranged come one after the other: of two neighbours, the second
/// starts with the first, or has the larger character where they first differ.
pub proof fn law_texts_are_arranged(order: Seq<usize>, texts: Seq<Seq<char>>, at: int)
    requires
        by_text(order, texts),
        0 <= at < order.len() - 1,
    ensures
        ({
            let (a, b) = (texts[order[at] as int], texts[order[at + 1] as int]);
            ||| a.len() <= b.len() && b.take(a.len() as int) == a
            ||| exists|k: int|
                0 <= k < a.len() && k < b.len() && #[trigger] a.take(k) == b.take(k) && a[k] < b[k]
        }),
        order.no_duplicates(),
        forall|i: usize| order.contains(i) <==> i < texts.len(),
{
    law_arrangement_is_complete(order, texts.len());
    law_texts_in_order(texts[order[at] as int], texts[order[at + 1] as int]);
}

} // verus!
