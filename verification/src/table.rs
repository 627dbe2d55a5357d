//! A table of items filed under a key of text: no key twice, the items held
//! in the strict order of their keys. The reference table keeps its branches
//! in one, and a tree its entries.

use vstd::prelude::*;
use crate::order::{
    lemma_lex_less_irreflexive, lemma_lex_less_total, lemma_lex_less_transitive, lex_less,
    str_less,
};

verus! {

/// An item that is filed under a key of text.
pub trait Keyed: DeepView + Sized {
    /// The key of an item, read off its mathematical value.
    spec fn spec_key(view: Self::V) -> Seq<char>;

    /// The key of the item.
    fn key(&self) -> (key: &String)
        ensures
            key@ == Self::spec_key(self.deep_view()),
    ;
}

/// The items of a list by key: a later item replaces an earlier one of the
/// same key.
pub open spec fn spec_filed<T: Keyed>(items: Seq<T::V>) -> Map<Seq<char>, T::V>
    decreases items.len(),
{
    if items.len() == 0 {
        Map::empty()
    } else {
        spec_filed::<T>(items.drop_last()).insert(T::spec_key(items.last()), items.last())
    }
}

/// Whether the items of a list stand in the strict order of their keys.
pub open spec fn spec_in_order<T: Keyed>(items: Seq<T::V>) -> bool {
    forall|i: int, j: int|
        0 <= i < j < items.len() ==> lex_less(
            T::spec_key(#[trigger] items[i]),
            T::spec_key(#[trigger] items[j]),
        )
}

/// Whether `list` holds the items that are filed in `filed`, each once, in
/// the strict order of their keys.
pub open spec fn spec_lists<T: Keyed>(filed: Map<Seq<char>, T::V>, list: Seq<T::V>) -> bool {
    &&& spec_in_order::<T>(list)
    &&& forall|i: int|
        0 <= i < list.len() ==> filed.contains_key(T::spec_key(#[trigger] list[i]))
            && filed[T::spec_key(list[i])] == list[i]
    &&& forall|key: Seq<char>| #[trigger]
        filed.contains_key(key) ==> exists|i: int|
            0 <= i < list.len() && T::spec_key(#[trigger] list[i]) == key
}

/// Whether every item that is filed in `filed` is filed under its own key.
pub open spec fn spec_filed_by_key<T: Keyed>(filed: Map<Seq<char>, T::V>) -> bool {
    forall|key: Seq<char>| #[trigger] filed.contains_key(key) ==> T::spec_key(filed[key]) == key
}

/// Items in the strict order of their keys have different keys.
proof fn lemma_in_order_unique<T: Keyed>(items: Seq<T::V>)
    requires
        spec_in_order::<T>(items),
    ensures
        forall|i: int, j: int|
            0 <= i < j < items.len() ==> T::spec_key(#[trigger] items[i]) != T::spec_key(
                #[trigger] items[j],
            ),
{
    assert forall|i: int, j: int| 0 <= i < j < items.len() implies T::spec_key(
        #[trigger] items[i],
    ) != T::spec_key(#[trigger] items[j]) by {
        lemma_lex_less_irreflexive(T::spec_key(items[i]));
    }
}

/// A key is filed exactly when an item of the list has it, and every filed
/// item is filed under its own key.
proof fn lemma_filed_domain<T: Keyed>(items: Seq<T::V>)
    ensures
        spec_filed::<T>(items).dom().finite(),
        spec_filed_by_key::<T>(spec_filed::<T>(items)),
        forall|key: Seq<char>| #[trigger]
            spec_filed::<T>(items).contains_key(key) <==> exists|i: int|
                0 <= i < items.len() && T::spec_key(#[trigger] items[i]) == key,
    decreases items.len(),
{
    if items.len() > 0 {
        let init = items.drop_last();
        lemma_filed_domain::<T>(init);
        assert forall|key: Seq<char>| #[trigger]
            spec_filed::<T>(items).contains_key(key) implies exists|i: int|
            0 <= i < items.len() && T::spec_key(#[trigger] items[i]) == key by {
            if key == T::spec_key(items.last()) {
                assert(T::spec_key(items[items.len() - 1]) == key);
            } else {
                let i = choose|i: int| 0 <= i < init.len() && T::spec_key(#[trigger] init[i]) == key;
                assert(T::spec_key(items[i]) == key);
            }
        }
        assert forall|key: Seq<char>|
            (exists|i: int| 0 <= i < items.len() && T::spec_key(#[trigger] items[i]) == key)
            implies #[trigger] spec_filed::<T>(items).contains_key(key) by {
            let i = choose|i: int| 0 <= i < items.len() && T::spec_key(#[trigger] items[i]) == key;
            if i < init.len() {
                assert(T::spec_key(init[i]) == key);
            }
        }
    }
}

/// In a list in order, each item is the one filed under its key.
proof fn lemma_filed_entry<T: Keyed>(items: Seq<T::V>, i: int)
    requires
        spec_in_order::<T>(items),
        0 <= i < items.len(),
    ensures
        spec_filed::<T>(items).contains_key(T::spec_key(items[i])),
        spec_filed::<T>(items)[T::spec_key(items[i])] == items[i],
    decreases items.len(),
{
    lemma_in_order_unique::<T>(items);
    if i < items.len() - 1 {
        let init = items.drop_last();
        assert(init[i] == items[i]);
        assert(T::spec_key(items[i]) != T::spec_key(items[items.len() - 1]));
        lemma_filed_entry::<T>(init, i);
    }
}

/// A list in order lists what it files.
proof fn lemma_filed_lists<T: Keyed>(items: Seq<T::V>)
    requires
        spec_in_order::<T>(items),
    ensures
        spec_lists::<T>(spec_filed::<T>(items), items),
        spec_filed::<T>(items).dom().finite(),
        spec_filed::<T>(items).dom().len() == items.len(),
        spec_filed_by_key::<T>(spec_filed::<T>(items)),
    decreases items.len(),
{
    lemma_filed_domain::<T>(items);
    lemma_in_order_unique::<T>(items);
    assert forall|i: int| 0 <= i < items.len() implies spec_filed::<T>(items).contains_key(
        T::spec_key(#[trigger] items[i]),
    ) && spec_filed::<T>(items)[T::spec_key(items[i])] == items[i] by {
        lemma_filed_entry::<T>(items, i);
    }
    if items.len() > 0 {
        let init = items.drop_last();
        lemma_filed_lists::<T>(init);
        lemma_filed_domain::<T>(init);
        if spec_filed::<T>(init).contains_key(T::spec_key(items.last())) {
            let k = choose|k: int|
                0 <= k < init.len() && T::spec_key(#[trigger] init[k]) == T::spec_key(
                    items.last(),
                );
            assert(T::spec_key(items[k]) == T::spec_key(items[items.len() - 1]));
        }
    }
}

/// Taking an item out of a list in order takes its key out of the filing and
/// leaves the rest as it was.
proof fn lemma_filed_remove<T: Keyed>(items: Seq<T::V>, i: int)
    requires
        spec_in_order::<T>(items),
        0 <= i < items.len(),
    ensures
        spec_filed::<T>(items.remove(i)) == spec_filed::<T>(items).remove(T::spec_key(items[i])),
    decreases items.len(),
{
    let init = items.drop_last();
    let last = items.last();
    lemma_in_order_unique::<T>(items);
    if i == items.len() - 1 {
        assert(items.remove(i) =~= init);
        lemma_filed_domain::<T>(init);
        if spec_filed::<T>(init).contains_key(T::spec_key(last)) {
            let k = choose|k: int|
                0 <= k < init.len() && T::spec_key(#[trigger] init[k]) == T::spec_key(last);
            assert(T::spec_key(items[k]) == T::spec_key(items[items.len() - 1]));
        }
        assert(spec_filed::<T>(init) =~= spec_filed::<T>(items).remove(T::spec_key(last)));
    } else {
        assert(init[i] == items[i]);
        assert(T::spec_key(items[i]) != T::spec_key(items[items.len() - 1]));
        lemma_filed_remove::<T>(init, i);
        assert(items.remove(i).drop_last() =~= init.remove(i));
        assert(items.remove(i).last() == last);
        assert(spec_filed::<T>(items.remove(i)) =~= spec_filed::<T>(items).remove(
            T::spec_key(items[i]),
        ));
    }
}

/// Putting an item with a new key into a list files it under its key and
/// leaves the rest as it was.
proof fn lemma_filed_insert<T: Keyed>(items: Seq<T::V>, at: int, item: T::V)
    requires
        0 <= at <= items.len(),
        forall|i: int|
            0 <= i < items.len() ==> T::spec_key(#[trigger] items[i]) != T::spec_key(item),
    ensures
        spec_filed::<T>(items.insert(at, item)) == spec_filed::<T>(items).insert(
            T::spec_key(item),
            item,
        ),
    decreases items.len(),
{
    let longer = items.insert(at, item);
    if at == items.len() {
        assert(longer.drop_last() =~= items);
    } else {
        let init = items.drop_last();
        let last = items.last();
        assert(last == items[items.len() - 1]);
        assert forall|i: int| 0 <= i < init.len() implies T::spec_key(#[trigger] init[i])
            != T::spec_key(item) by {
            assert(init[i] == items[i]);
        }
        lemma_filed_insert::<T>(init, at, item);
        assert(longer.drop_last() =~= init.insert(at, item));
        assert(longer.last() == last);
        assert(spec_filed::<T>(longer) =~= spec_filed::<T>(items).insert(
            T::spec_key(item),
            item,
        ));
    }
}

/// Replacing an item of a list in order by one of the same key files the new
/// one in its place.
proof fn lemma_filed_update<T: Keyed>(items: Seq<T::V>, i: int, item: T::V)
    requires
        spec_in_order::<T>(items),
        0 <= i < items.len(),
        T::spec_key(item) == T::spec_key(items[i]),
    ensures
        spec_in_order::<T>(items.update(i, item)),
        spec_filed::<T>(items.update(i, item)) == spec_filed::<T>(items).insert(
            T::spec_key(item),
            item,
        ),
    decreases items.len(),
{
    let changed = items.update(i, item);
    assert forall|a: int, b: int| 0 <= a < b < changed.len() implies lex_less(
        T::spec_key(#[trigger] changed[a]),
        T::spec_key(#[trigger] changed[b]),
    ) by {
        assert(lex_less(T::spec_key(items[a]), T::spec_key(items[b])));
    }
    lemma_in_order_unique::<T>(items);
    if i == items.len() - 1 {
        assert(changed.drop_last() =~= items.drop_last());
        assert(spec_filed::<T>(changed) =~= spec_filed::<T>(items).insert(
            T::spec_key(item),
            item,
        ));
    } else {
        let init = items.drop_last();
        assert(init[i] == items[i]);
        assert(T::spec_key(items[i]) != T::spec_key(items[items.len() - 1]));
        lemma_filed_update::<T>(init, i, item);
        assert(changed.drop_last() =~= init.update(i, item));
        assert(changed.last() == items.last());
        assert(spec_filed::<T>(changed) =~= spec_filed::<T>(items).insert(
            T::spec_key(item),
            item,
        ));
    }
}

/// A table of items by key.
#[derive(Debug)]
pub struct Table<T: Keyed> {
    items: Vec<T>,
}

impl<T: Keyed> View for Table<T> {
    type V = Map<Seq<char>, T::V>;

    closed spec fn view(&self) -> Map<Seq<char>, T::V> {
        spec_filed::<T>(self.items.deep_view())
    }
}

impl<T: Keyed> Table<T> {
    /// Whether the items of the table stand in the strict order of their
    /// keys. Every table that this module hands out is well formed.
    pub closed spec fn wf(&self) -> bool {
        spec_in_order::<T>(self.items.deep_view())
    }

    /// A well-formed table files finitely many items, each under its own
    /// key.
    pub proof fn lemma_view(&self)
        requires
            self.wf(),
        ensures
            self@.dom().finite(),
            spec_filed_by_key::<T>(self@),
    {
        lemma_filed_domain::<T>(self.items.deep_view());
    }

    /// An empty table.
    pub fn new() -> (table: Self)
        ensures
            table.wf(),
            table@ == Map::<Seq<char>, T::V>::empty(),
    {
        let table = Table { items: Vec::new() };
        assert(table.items.deep_view() =~= Seq::<T::V>::empty());
        table
    }

    /// How many items the table holds.
    pub fn len(&self) -> (count: usize)
        requires
            self.wf(),
        ensures
            count == self@.dom().len(),
    {
        proof {
            lemma_filed_lists::<T>(self.items.deep_view());
        }
        self.items.len()
    }

    /// The items of the table, in the order of their keys.
    pub fn items(&self) -> (list: &Vec<T>)
        requires
            self.wf(),
        ensures
            spec_lists::<T>(self@, list.deep_view()),
            list.len() == self@.dom().len(),
    {
        proof {
            lemma_filed_lists::<T>(self.items.deep_view());
        }
        &self.items
    }

    /// The first position whose item does not come before `key`.
    fn slot(&self, key: &String) -> (at: usize)
        ensures
            at <= self.items.len(),
            forall|k: int|
                0 <= k < at ==> lex_less(T::spec_key(#[trigger] self.items.deep_view()[k]), key@),
            at < self.items.len() ==> !lex_less(
                T::spec_key(self.items.deep_view()[at as int]),
                key@,
            ),
    {
        let mut at: usize = 0;
        while at < self.items.len() && str_less(self.items[at].key().as_str(), key.as_str())
            invariant
                at <= self.items.len(),
                forall|k: int|
                    0 <= k < at ==> lex_less(
                        T::spec_key(#[trigger] self.items.deep_view()[k]),
                        key@,
                    ),
            decreases self.items.len() - at,
        {
            at += 1;
        }
        at
    }

    /// The position of the item under `key`, if there is one.
    fn position(&self, key: &String) -> (at: Option<usize>)
        requires
            self.wf(),
        ensures
            match at {
                Some(i) => i < self.items.len() && T::spec_key(self.items.deep_view()[i as int])
                    == key@,
                None => forall|i: int|
                    0 <= i < self.items.len() ==> T::spec_key(
                        #[trigger] self.items.deep_view()[i],
                    ) != key@,
            },
    {
        let at = self.slot(key);
        if at < self.items.len() && *self.items[at].key() == *key {
            Some(at)
        } else {
            proof {
                let views = self.items.deep_view();
                assert forall|i: int| 0 <= i < views.len() implies T::spec_key(
                    #[trigger] views[i],
                ) != key@ by {
                    if i < at {
                        lemma_lex_less_irreflexive(key@);
                    } else {
                        lemma_lex_less_total(T::spec_key(views[at as int]), key@);
                        if i > at {
                            lemma_lex_less_transitive(
                                key@,
                                T::spec_key(views[at as int]),
                                T::spec_key(views[i]),
                            );
                        }
                        lemma_lex_less_irreflexive(key@);
                    }
                }
            }
            None
        }
    }

    /// The item under `key`, if the table holds one.
    pub fn find(&self, key: &String) -> (found: Option<&T>)
        requires
            self.wf(),
        ensures
            match found {
                Some(item) => self@.contains_key(key@) && item.deep_view() == self@[key@],
                None => !self@.contains_key(key@),
            },
    {
        proof {
            lemma_filed_domain::<T>(self.items.deep_view());
        }
        match self.position(key) {
            Some(i) => {
                proof {
                    lemma_filed_entry::<T>(self.items.deep_view(), i as int);
                }
                Some(&self.items[i])
            },
            None => None,
        }
    }

    /// Whether the table holds an item under `key`.
    pub fn contains(&self, key: &String) -> (held: bool)
        requires
            self.wf(),
        ensures
            held == self@.contains_key(key@),
    {
        self.find(key).is_some()
    }

    /// Files `item` under its key, in place of the item that was filed there
    /// before, if there was one.
    pub fn put(&mut self, item: T)
        requires
            old(self).wf(),
        ensures
            final(self).wf(),
            final(self)@ == old(self)@.insert(T::spec_key(item.deep_view()), item.deep_view()),
    {
        let ghost before = self.items.deep_view();
        let ghost new = item.deep_view();
        let at = self.slot(item.key());
        if at < self.items.len() && *self.items[at].key() == *item.key() {
            proof {
                lemma_filed_update::<T>(before, at as int, new);
            }
            self.items.set(at, item);
            assert(self.items.deep_view() =~= before.update(at as int, new));
        } else {
            proof {
                let key = T::spec_key(new);
                assert forall|i: int| 0 <= i < before.len() implies T::spec_key(
                    #[trigger] before[i],
                ) != key by {
                    if i < at {
                        lemma_lex_less_irreflexive(key);
                    } else {
                        lemma_lex_less_total(T::spec_key(before[at as int]), key);
                        if i > at {
                            lemma_lex_less_transitive(
                                key,
                                T::spec_key(before[at as int]),
                                T::spec_key(before[i]),
                            );
                        }
                        lemma_lex_less_irreflexive(key);
                    }
                }
                lemma_filed_insert::<T>(before, at as int, new);
                let longer = before.insert(at as int, new);
                assert forall|i: int, j: int| 0 <= i < j < longer.len() implies lex_less(
                    T::spec_key(#[trigger] longer[i]),
                    T::spec_key(#[trigger] longer[j]),
                ) by {
                    if i == at {
                        lemma_lex_less_total(T::spec_key(before[at as int]), key);
                        if j > at + 1 {
                            lemma_lex_less_transitive(
                                key,
                                T::spec_key(before[at as int]),
                                T::spec_key(before[j - 1]),
                            );
                        }
                    } else if j == at {
                    } else {
                        let bi = if i < at {
                            i
                        } else {
                            i - 1
                        };
                        let bj = if j < at {
                            j
                        } else {
                            j - 1
                        };
                        assert(lex_less(T::spec_key(before[bi]), T::spec_key(before[bj])));
                    }
                }
            }
            self.items.insert(at, item);
            assert(self.items.deep_view() =~= before.insert(at as int, new));
        }
    }

    /// Takes the item under `key` out of the table and returns it, if there
    /// is one.
    pub fn take(&mut self, key: &String) -> (taken: Option<T>)
        requires
            old(self).wf(),
        ensures
            final(self).wf(),
            final(self)@ == old(self)@.remove(key@),
            match taken {
                Some(item) => old(self)@.contains_key(key@) && item.deep_view() == old(
                    self,
                )@[key@],
                None => !old(self)@.contains_key(key@),
            },
    {
        let ghost before = self.items.deep_view();
        proof {
            lemma_filed_domain::<T>(before);
        }
        match self.position(key) {
            None => {
                assert(self@.remove(key@) =~= self@);
                None
            },
            Some(i) => {
                proof {
                    lemma_filed_entry::<T>(before, i as int);
                    lemma_filed_remove::<T>(before, i as int);
                }
                let item = self.items.remove(i);
                proof {
                    let shorter = before.remove(i as int);
                    assert(self.items.deep_view() =~= shorter);
                    assert forall|a: int, b: int| 0 <= a < b < shorter.len() implies lex_less(
                        T::spec_key(#[trigger] shorter[a]),
                        T::spec_key(#[trigger] shorter[b]),
                    ) by {
                        let ba = if a < i {
                            a
                        } else {
                            a + 1
                        };
                        let bb = if b < i {
                            b
                        } else {
                            b + 1
                        };
                        assert(lex_less(T::spec_key(before[ba]), T::spec_key(before[bb])));
                    }
                }
                Some(item)
            },
        }
    }
}

} // verus!
