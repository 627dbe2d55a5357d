//! Ordering of named items: a rank first, then the name, character by
//! character. Holds the order on strings, the sort that the listings use,
//! and the proofs that the sort rests on.

use vstd::prelude::*;
use vstd::seq_lib::*;

verus! {

/// Whether `a` comes strictly before `b` in the order of strings: at the
/// first position where they differ `a` has the smaller character, or `a` is
/// a proper prefix of `b`.
pub open spec fn lex_less(a: Seq<char>, b: Seq<char>) -> bool
    decreases a.len(),
{
    if b.len() == 0 {
        false
    } else if a.len() == 0 {
        true
    } else if a[0] != b[0] {
        (a[0] as int) < (b[0] as int)
    } else {
        lex_less(a.drop_first(), b.drop_first())
    }
}

/// The order of strings is transitive.
pub proof fn lemma_lex_less_transitive(a: Seq<char>, b: Seq<char>, c: Seq<char>)
    requires
        lex_less(a, b),
        lex_less(b, c),
    ensures
        lex_less(a, c),
    decreases a.len(),
{
    if a.len() > 0 && a[0] == b[0] && b[0] == c[0] {
        lemma_lex_less_transitive(a.drop_first(), b.drop_first(), c.drop_first());
    }
}

/// No string comes before itself.
pub proof fn lemma_lex_less_irreflexive(a: Seq<char>)
    ensures
        !lex_less(a, a),
    decreases a.len(),
{
    if a.len() > 0 {
        lemma_lex_less_irreflexive(a.drop_first());
    }
}

/// Of two different strings one comes before the other.
pub proof fn lemma_lex_less_total(a: Seq<char>, b: Seq<char>)
    ensures
        lex_less(a, b) || lex_less(b, a) || a == b,
    decreases a.len(),
{
    if a.len() == 0 || b.len() == 0 {
        if a.len() == 0 && b.len() == 0 {
            assert(a =~= b);
        }
    } else if a[0] == b[0] {
        lemma_lex_less_total(a.drop_first(), b.drop_first());
        if a.drop_first() == b.drop_first() {
            assert(a =~= seq![a[0]] + a.drop_first());
            assert(b =~= seq![b[0]] + b.drop_first());
        }
    }
}

/// The operator `<` of `str`, which the standard library documents as the
/// lexicographic order of the bytes, and so of the code points: whether `a`
/// comes strictly before `b`.
#[verifier::external_body]
pub(crate) fn str_less(a: &str, b: &str) -> (less: bool)
    ensures
        less == lex_less(a@, b@),
{
    a < b
}

/// An item that is listed in order: by rank, and by name within a rank.
pub trait Ranked: DeepView + Sized {
    /// The rank of the item; a smaller rank is listed first.
    spec fn spec_rank(&self) -> nat;

    /// The name of the item, which orders the items of one rank.
    spec fn spec_name(&self) -> Seq<char>;

    /// Whether this item is listed strictly before `other`.
    fn before(&self, other: &Self) -> (less: bool)
        ensures
            less == (self.spec_rank() < other.spec_rank() || (self.spec_rank()
                == other.spec_rank() && lex_less(self.spec_name(), other.spec_name()))),
    ;
}

/// Whether `a` is listed strictly before `b`: it has the smaller rank, or
/// the same rank and the name that comes first.
pub open spec fn spec_before<T: Ranked>(a: &T, b: &T) -> bool {
    a.spec_rank() < b.spec_rank() || (a.spec_rank() == b.spec_rank() && lex_less(
        a.spec_name(),
        b.spec_name(),
    ))
}

/// Whether no item of `items` is listed strictly before an earlier one.
pub open spec fn spec_sorted<T: Ranked>(items: Seq<T>) -> bool {
    forall|i: int, j: int| 0 <= i < j < items.len() ==> !spec_before(&items[j], &items[i])
}

/// The mathematical values of a list of items.
pub open spec fn spec_models<T: Ranked>(items: Seq<T>) -> Seq<T::V> {
    items.map_values(|item: T| item.deep_view())
}

/// Listing order is transitive.
pub proof fn lemma_before_transitive<T: Ranked>(a: &T, b: &T, c: &T)
    requires
        spec_before(a, b),
        spec_before(b, c),
    ensures
        spec_before(a, c),
{
    if a.spec_rank() == b.spec_rank() && b.spec_rank() == c.spec_rank() {
        lemma_lex_less_transitive(a.spec_name(), b.spec_name(), c.spec_name());
    }
}

/// Whether an item has the rank `rank` and the name `name`.
pub open spec fn spec_key_is<T: Ranked>(rank: nat, name: Seq<char>) -> spec_fn(T) -> bool {
    |item: T| item.spec_rank() == rank && item.spec_name() == name
}

/// The items of a list that have the rank `rank` and the name `name`, in
/// their order.
pub open spec fn spec_ties<T: Ranked>(items: Seq<T>, rank: nat, name: Seq<char>) -> Seq<T> {
    items.filter(spec_key_is::<T>(rank, name))
}

/// The items of a rank and a name are the same, in the same order, whether
/// an item still waits at the end of the rest or stands in the sorted list
/// behind the items that come strictly before it.
proof fn lemma_insert_keeps_ties<T: Ranked>(
    rest: Seq<T>,
    sorted: Seq<T>,
    item: T,
    at: int,
    rank: nat,
    name: Seq<char>,
)
    requires
        0 <= at <= sorted.len(),
        forall|k: int| 0 <= k < at ==> spec_before(&sorted[k], &item),
    ensures
        spec_ties(rest, rank, name) + spec_ties(sorted.insert(at, item), rank, name) == spec_ties(
            rest.push(item),
            rank,
            name,
        ) + spec_ties(sorted, rank, name),
{
    let wanted = spec_key_is::<T>(rank, name);
    let front = sorted.take(at);
    let back = sorted.skip(at);
    let one = Seq::<T>::empty().push(item);
    assert(sorted =~= front + back);
    assert(sorted.insert(at, item) =~= front + one + back);
    Seq::filter_distributes_over_add(front, back, wanted);
    Seq::filter_distributes_over_add(front, one, wanted);
    Seq::filter_distributes_over_add(front + one, back, wanted);
    rest.lemma_filter_push(item, wanted);
    Seq::<T>::empty().lemma_filter_push(item, wanted);
    assert(Seq::<T>::empty().filter(wanted) =~= Seq::<T>::empty()) by {
        reveal(Seq::filter);
    }
    if wanted(item) {
        assert forall|k: int| 0 <= k < front.len() implies !wanted(front[k]) by {
            assert(spec_before(&sorted[k], &item));
            lemma_lex_less_irreflexive(name);
        }
        front.lemma_all_neg_filter_empty(wanted);
        assert(front.filter(wanted) =~= Seq::<T>::empty());
    }
    assert(spec_ties(rest, rank, name) + spec_ties(sorted.insert(at, item), rank, name)
        =~= spec_ties(rest.push(item), rank, name) + spec_ties(sorted, rank, name));
}

/// Sorts `items` by rank and name. The result holds the same items, each as
/// often as before, and none of them is listed before an earlier one. Items
/// that are equal in rank and name keep their order.
pub fn sort<T: Ranked>(items: Vec<T>) -> (sorted: Vec<T>)
    ensures
        spec_sorted(sorted@),
        sorted.len() == items.len(),
        spec_models(sorted@).to_multiset() == spec_models(items@).to_multiset(),
        forall|rank: nat, name: Seq<char>| #[trigger]
            spec_ties(sorted@, rank, name) == spec_ties(items@, rank, name),
{
    let mut rest = items;
    let mut sorted: Vec<T> = Vec::new();
    let ghost all = spec_models(items@);
    proof {
        assert(spec_models(sorted@) =~= Seq::<T::V>::empty());
        assert(all.to_multiset().add(Seq::<T::V>::empty().to_multiset()) =~= all.to_multiset())
            by {
            broadcast use group_to_multiset_ensures;

        }
        assert forall|rank: nat, name: Seq<char>|
            spec_ties(rest@, rank, name) + #[trigger] spec_ties(sorted@, rank, name) == spec_ties(
                items@,
                rank,
                name,
            ) by {
            reveal(Seq::filter);
            assert(spec_ties(sorted@, rank, name) =~= Seq::<T>::empty());
            assert(spec_ties(rest@, rank, name) + Seq::<T>::empty() =~= spec_ties(
                rest@,
                rank,
                name,
            ));
        }
    }
    while rest.len() > 0
        invariant
            spec_sorted(sorted@),
            sorted.len() + rest.len() == items.len(),
            forall|rank: nat, name: Seq<char>|
                spec_ties(rest@, rank, name) + #[trigger] spec_ties(sorted@, rank, name)
                    == spec_ties(items@, rank, name),
            spec_models(rest@).to_multiset().add(spec_models(sorted@).to_multiset())
                == all.to_multiset(),
        decreases rest.len(),
    {
        let ghost rest_before = rest@;
        let ghost sorted_before = sorted@;
        let item = rest.pop().unwrap();
        let mut at: usize = 0;
        while at < sorted.len() && sorted[at].before(&item)
            invariant
                at <= sorted.len(),
                forall|k: int| 0 <= k < at ==> spec_before(&sorted[k], &item),
            decreases sorted.len() - at,
        {
            at += 1;
        }
        sorted.insert(at, item);
        proof {
            assert forall|i: int, j: int| 0 <= i < j < sorted.len() implies !spec_before(
                &sorted[j],
                &sorted[i],
            ) by {
                if i == at {
                    // the item against a later one: the later one is not before it
                    if j > at + 1 && spec_before(&sorted[j], &sorted[i]) {
                        // sorted[j] < item, and item is not after sorted_before[at]
                        assert(!spec_before(&sorted_before[j - 1], &sorted_before[at as int]));
                        lemma_not_before_chain(
                            &sorted_before[j - 1],
                            &item,
                            &sorted_before[at as int],
                        );
                    }
                } else if j == at {
                    // an earlier one against the item: it is before the item
                    lemma_before_asymmetric(&sorted_before[i], &item);
                } else {
                    let bi = if i < at {
                        i
                    } else {
                        i - 1
                    };
                    let bj = if j < at {
                        j
                    } else {
                        j - 1
                    };
                    assert(!spec_before(&sorted_before[bj], &sorted_before[bi]));
                }
            }
            assert(rest_before =~= rest@.push(item));
            assert(sorted@ =~= sorted_before.insert(at as int, item));
            assert forall|rank: nat, name: Seq<char>|
                spec_ties(rest@, rank, name) + #[trigger] spec_ties(sorted@, rank, name)
                    == spec_ties(items@, rank, name) by {
                lemma_insert_keeps_ties(rest@, sorted_before, item, at as int, rank, name);
                assert(spec_ties(rest_before, rank, name) + spec_ties(sorted_before, rank, name)
                    == spec_ties(items@, rank, name));
            }
            assert(spec_models(rest_before) =~= spec_models(rest@).push(item.deep_view()));
            assert(spec_models(sorted@) =~= spec_models(sorted_before).insert(
                at as int,
                item.deep_view(),
            ));
            broadcast use group_to_multiset_ensures;

            to_multiset_insert(spec_models(sorted_before), at as int, item.deep_view());
            assert(spec_models(rest@).to_multiset().add(spec_models(sorted@).to_multiset())
                =~= spec_models(rest_before).to_multiset().add(
                spec_models(sorted_before).to_multiset(),
            ));
        }
    }
    proof {
        assert(spec_models(rest@) =~= Seq::<T::V>::empty());
        broadcast use group_to_multiset_ensures;

        assert(spec_models(sorted@).to_multiset() =~= all.to_multiset());
    }
    sorted
}

/// An item is not listed before one that is listed before it.
pub proof fn lemma_before_asymmetric<T: Ranked>(a: &T, b: &T)
    requires
        spec_before(a, b),
    ensures
        !spec_before(b, a),
{
    if spec_before(b, a) {
        lemma_lex_less_transitive(a.spec_name(), b.spec_name(), a.spec_name());
        lemma_lex_less_irreflexive(a.spec_name());
    }
}

/// Where `later` is listed before `item`, and `item` is not listed after
/// `next`, `later` is listed before `next`.
proof fn lemma_not_before_chain<T: Ranked>(later: &T, item: &T, next: &T)
    requires
        spec_before(later, item),
        !spec_before(next, item),
    ensures
        spec_before(later, next),
{
    lemma_lex_less_total(item.spec_name(), next.spec_name());
    if item.spec_rank() == next.spec_rank() && later.spec_rank() == item.spec_rank() {
        if item.spec_name() != next.spec_name() {
            lemma_lex_less_transitive(later.spec_name(), item.spec_name(), next.spec_name());
        }
    }
}

/// Two lists that hold the same items, each as often, still do so after the
/// same function is applied to each item.
pub proof fn lemma_map_keeps_multiset<A, B>(a: Seq<A>, b: Seq<A>, f: spec_fn(A) -> B)
    requires
        a.to_multiset() == b.to_multiset(),
    ensures
        a.map_values(f).to_multiset() == b.map_values(f).to_multiset(),
    decreases a.len(),
{
    broadcast use group_to_multiset_ensures;

    a.to_multiset_ensures();
    b.to_multiset_ensures();
    if a.len() == 0 {
        assert(b.len() == 0);
        assert(a.map_values(f) =~= b.map_values(f));
    } else {
        let x = a.last();
        let init = a.drop_last();
        assert(a =~= init.push(x));
        assert(a.to_multiset().count(x) > 0);
        assert(b.contains(x));
        let k = choose|k: int| 0 <= k < b.len() && b[k] == x;
        let rest = b.remove(k);
        to_multiset_remove(b, k);
        assert(init.to_multiset() =~= a.to_multiset().remove(x));
        lemma_map_keeps_multiset(init, rest, f);
        assert(a.map_values(f) =~= init.map_values(f).push(f(x)));
        assert(b.map_values(f) =~= rest.map_values(f).insert(k, f(x)));
        to_multiset_insert(rest.map_values(f), k, f(x));
    }
}

} // verus!
