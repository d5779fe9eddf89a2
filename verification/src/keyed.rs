//! Maps from names to values that are walked in the order of the names.

use crate::text::{
    lemma_precedes_irreflexive, lemma_precedes_total, lemma_precedes_transitive, precedes,
    same_text, str_precedes,
};
use vstd::prelude::*;

verus! {

/// Whether each name precedes all that follow it.
pub open spec fn increasing(names: Seq<Seq<char>>) -> bool {
    forall|i: int, j: int| 0 <= i < j < names.len() ==> precedes(names[i], names[j])
}

/// Whether `names` lists the names of `set`, each once, in the order of texts.
pub open spec fn lists_in_order(names: Seq<Seq<char>>, set: Set<Seq<char>>) -> bool {
    &&& increasing(names)
    &&& names.to_set() == set
}

/// The names of a finite set in the order of texts.
pub open spec fn in_order(set: Set<Seq<char>>) -> Seq<Seq<char>> {
    choose|names: Seq<Seq<char>>| lists_in_order(names, set)
}

/// The values of a map in the order of its keys.
pub open spec fn values_in_order<V>(map: Map<Seq<char>, V>) -> Seq<V> {
    Seq::new(in_order(map.dom()).len(), |i: int| map[in_order(map.dom())[i]])
}

/// A set of names is listed in order in one way only.
pub proof fn lemma_order_unique(a: Seq<Seq<char>>, b: Seq<Seq<char>>)
    requires
        increasing(a),
        increasing(b),
        a.to_set() == b.to_set(),
    ensures
        a == b,
    decreases a.len(),
{
    if a.len() == 0 {
        if b.len() > 0 {
            assert(b.to_set().contains(b[0]));
            assert(a.to_set().contains(b[0]));
        }
        assert(a =~= b);
    } else {
        assert(a.to_set().contains(a.last()));
        assert(b.to_set().contains(a.last()));
        let i = choose|i: int| 0 <= i < b.len() && b[i] == a.last();
        assert(b.to_set().contains(b.last()));
        assert(a.to_set().contains(b.last()));
        let j = choose|j: int| 0 <= j < a.len() && a[j] == b.last();
        if i < b.len() - 1 {
            assert(precedes(a.last(), b.last()));
            if j < a.len() - 1 {
                assert(precedes(b.last(), a.last()));
                lemma_precedes_transitive(a.last(), b.last(), a.last());
            }
            lemma_precedes_irreflexive(a.last());
            assert(false);
        }
        let x = a.drop_last();
        let y = b.drop_last();
        assert forall|k: Seq<char>| x.to_set().contains(k) <==> y.to_set().contains(k) by {
            lemma_drop_last_set(a, k);
            lemma_drop_last_set(b, k);
        }
        assert(x.to_set() =~= y.to_set());
        lemma_order_unique(x, y);
        assert(a =~= x.push(a.last()));
        assert(b =~= y.push(b.last()));
    }
}

proof fn lemma_drop_last_set(a: Seq<Seq<char>>, k: Seq<char>)
    requires
        increasing(a),
        a.len() > 0,
    ensures
        a.drop_last().to_set().contains(k) <==> a.to_set().contains(k) && k != a.last(),
{
    if a.drop_last().to_set().contains(k) {
        let i = choose|i: int| 0 <= i < a.drop_last().len() && a.drop_last()[i] == k;
        assert(a[i] == k);
        assert(precedes(a[i], a.last()));
        lemma_precedes_irreflexive(k);
        assert(a.to_set().contains(a[i]));
    }
    if a.to_set().contains(k) && k != a.last() {
        let i = choose|i: int| 0 <= i < a.len() && a[i] == k;
        assert(a.drop_last()[i] == k);
    }
}

/// What lists a set in order is what `in_order` names.
pub proof fn lemma_in_order(names: Seq<Seq<char>>, set: Set<Seq<char>>)
    requires
        lists_in_order(names, set),
    ensures
        in_order(set) == names,
        set.finite(),
        names.len() == set.len(),
        names.no_duplicates(),
        forall|i: int| 0 <= i < names.len() ==> set.contains(#[trigger] names[i]),
{
    lemma_order_unique(in_order(set), names);
    lemma_increasing_distinct(names);
    names.unique_seq_to_set();
    vstd::seq_lib::seq_to_set_is_finite(names);
    assert forall|i: int| 0 <= i < names.len() implies set.contains(#[trigger] names[i]) by {
        assert(names.to_set().contains(names[i]));
    }
}

/// No name occurs twice where each precedes all that follow it.
pub proof fn lemma_increasing_distinct(names: Seq<Seq<char>>)
    requires
        increasing(names),
    ensures
        names.no_duplicates(),
{
    assert forall|i: int, j: int|
        0 <= i < names.len() && 0 <= j < names.len() && i != j implies names[i] != names[j] by {
        if i < j {
            assert(precedes(names[i], names[j]));
        } else {
            assert(precedes(names[j], names[i]));
        }
        lemma_precedes_irreflexive(names[i]);
    }
}

spec fn with_name(names: Seq<Seq<char>>, name: Seq<char>) -> Seq<Seq<char>>
    decreases names.len(),
{
    if names.len() == 0 || precedes(names.last(), name) {
        names.push(name)
    } else {
        with_name(names.drop_last(), name).push(names.last())
    }
}

proof fn lemma_with_name(names: Seq<Seq<char>>, name: Seq<char>)
    requires
        increasing(names),
        !names.contains(name),
    ensures
        increasing(with_name(names, name)),
        with_name(names, name).to_set() == names.to_set().insert(name),
    decreases names.len(),
{
    let r = with_name(names, name);
    if names.len() == 0 || precedes(names.last(), name) {
        assert forall|i: int, j: int| 0 <= i < j < r.len() implies precedes(r[i], r[j]) by {
            if j == names.len() && i < names.len() - 1 {
                lemma_precedes_transitive(names[i], names.last(), name);
            }
        }
        lemma_push_set(names, name);
    } else {
        let rest = names.drop_last();
        assert(!rest.contains(name)) by {
            if rest.contains(name) {
                let i = choose|i: int| 0 <= i < rest.len() && rest[i] == name;
                assert(names[i] == name);
            }
        }
        lemma_with_name(rest, name);
        assert(names[names.len() - 1] == names.last());
        lemma_precedes_total(names.last(), name);
        let w = with_name(rest, name);
        assert forall|i: int, j: int| 0 <= i < j < r.len() implies precedes(r[i], r[j]) by {
            if j < w.len() {
                assert(precedes(w[i], w[j]));
            } else {
                assert(w.to_set().contains(w[i]));
                if w[i] != name {
                    assert(rest.to_set().contains(w[i]));
                    let k = choose|k: int| 0 <= k < rest.len() && rest[k] == w[i];
                    assert(precedes(names[k], names.last()));
                }
            }
        }
        lemma_push_set(w, names.last());
        lemma_push_set(rest, names.last());
        assert(names =~= rest.push(names.last()));
        assert(r.to_set() =~= names.to_set().insert(name));
    }
}

proof fn lemma_push_set(names: Seq<Seq<char>>, name: Seq<char>)
    ensures
        names.push(name).to_set() == names.to_set().insert(name),
{
    let r = names.push(name);
    assert forall|k: Seq<char>| r.to_set().contains(k) <==> names.to_set().insert(name).contains(
        k,
    ) by {
        if names.contains(k) {
            let i = choose|i: int| 0 <= i < names.len() && names[i] == k;
            assert(r[i] == k);
        }
        assert(r[names.len() as int] == name);
    }
    assert(r.to_set() =~= names.to_set().insert(name));
}

/// Every finite set of names can be listed in order.
pub proof fn lemma_finite_in_order(set: Set<Seq<char>>)
    requires
        set.finite(),
    ensures
        lists_in_order(in_order(set), set),
    decreases set.len(),
{
    if set.len() == 0 {
        let none = Seq::<Seq<char>>::empty();
        assert(none.to_set() =~= set);
        assert(lists_in_order(none, set));
    } else {
        let name = set.choose();
        let rest = set.remove(name);
        lemma_finite_in_order(rest);
        let names = in_order(rest);
        assert(!names.to_set().contains(name));
        lemma_with_name(names, name);
        assert(rest.insert(name) =~= set);
        assert(lists_in_order(with_name(names, name), set));
    }
}

/// The names for which `pick` holds, in their order.
pub open spec fn filtered(names: Seq<Seq<char>>, pick: spec_fn(Seq<char>) -> bool) -> Seq<Seq<char>>
    decreases names.len(),
{
    if names.len() == 0 {
        Seq::empty()
    } else {
        let before = filtered(names.drop_last(), pick);
        if pick(names.last()) {
            before.push(names.last())
        } else {
            before
        }
    }
}

/// What is filtered are the names for which `pick` holds.
pub proof fn lemma_filtered(names: Seq<Seq<char>>, pick: spec_fn(Seq<char>) -> bool, k: Seq<char>)
    ensures
        filtered(names, pick).contains(k) <==> names.contains(k) && pick(k),
    decreases names.len(),
{
    if names.len() > 0 {
        let rest = names.drop_last();
        lemma_filtered(rest, pick, k);
        let before = filtered(rest, pick);
        let after = filtered(names, pick);
        if before.contains(k) {
            let j = choose|j: int| 0 <= j < before.len() && before[j] == k;
            assert(after[j] == k);
        }
        if rest.contains(k) {
            let j = choose|j: int| 0 <= j < rest.len() && rest[j] == k;
            assert(names[j] == k);
        }
        if names.contains(k) && k != names.last() {
            let j = choose|j: int| 0 <= j < names.len() && names[j] == k;
            assert(rest[j] == k);
        }
        if after.contains(k) && !before.contains(k) {
            let j = choose|j: int| 0 <= j < after.len() && after[j] == k;
            if j < before.len() {
                assert(before[j] == k);
            }
            assert(names[names.len() - 1] == k);
        }
        if k == names.last() && pick(k) {
            assert(after[before.len() as int] == k);
        }
        assert(names[names.len() - 1] == names.last());
    }
}

/// What is filtered keeps the order of the names.
pub proof fn lemma_filtered_increasing(names: Seq<Seq<char>>, pick: spec_fn(Seq<char>) -> bool)
    requires
        increasing(names),
    ensures
        increasing(filtered(names, pick)),
    decreases names.len(),
{
    if names.len() > 0 {
        let rest = names.drop_last();
        assert forall|i: int, j: int| 0 <= i < j < rest.len() implies precedes(rest[i], rest[j]) by {
            assert(precedes(names[i], names[j]));
        }
        lemma_filtered_increasing(rest, pick);
        let before = filtered(rest, pick);
        let all = filtered(names, pick);
        assert forall|i: int, j: int| 0 <= i < j < all.len() implies precedes(all[i], all[j]) by {
            if j < before.len() {
                assert(precedes(before[i], before[j]));
            } else {
                lemma_filtered(rest, pick, before[i]);
                assert(before.contains(before[i]));
                let k = choose|k: int| 0 <= k < rest.len() && rest[k] == before[i];
                assert(precedes(names[k], names[names.len() - 1]));
            }
        }
    }
}

/// A map from names to values. Walking it visits the names in the order of texts.
pub struct ModMap<T> {
    entries: Vec<(String, T)>,
}

impl<T> ModMap<T> {
    #[verifier::type_invariant]
    spec fn ordered(self) -> bool {
        increasing(names_of(self.entries@))
    }
}

spec fn names_of<T>(entries: Seq<(String, T)>) -> Seq<Seq<char>> {
    Seq::new(entries.len(), |i: int| entries[i].0@)
}

spec fn has_name<T>(entries: Seq<(String, T)>, name: Seq<char>) -> bool {
    exists|i: int| 0 <= i < entries.len() && #[trigger] entries[i].0@ == name
}

spec fn place_of<T>(entries: Seq<(String, T)>, name: Seq<char>) -> int {
    choose|i: int| 0 <= i < entries.len() && #[trigger] entries[i].0@ == name
}

spec fn dictionary<T: DeepView>(entries: Seq<(String, T)>) -> Map<Seq<char>, T::V> {
    Map::new(
        |name: Seq<char>| has_name(entries, name),
        |name: Seq<char>| entries[place_of(entries, name)].1.deep_view(),
    )
}

impl<T: DeepView> View for ModMap<T> {
    type V = Map<Seq<char>, T::V>;

    closed spec fn view(&self) -> Map<Seq<char>, T::V> {
        dictionary(self.entries@)
    }
}

impl<T: DeepView> DeepView for ModMap<T> {
    type V = Map<Seq<char>, T::V>;

    open spec fn deep_view(&self) -> Map<Seq<char>, T::V> {
        self.view()
    }
}

proof fn lemma_place<T>(entries: Seq<(String, T)>, i: int)
    requires
        increasing(names_of(entries)),
        0 <= i < entries.len(),
    ensures
        has_name(entries, entries[i].0@),
        place_of(entries, entries[i].0@) == i,
{
    let name = entries[i].0@;
    assert(has_name(entries, name));
    let j = place_of(entries, name);
    lemma_increasing_distinct(names_of(entries));
    assert(names_of(entries)[i] == names_of(entries)[j]);
}

proof fn lemma_listed<T: DeepView>(entries: Seq<(String, T)>)
    requires
        increasing(names_of(entries)),
    ensures
        lists_in_order(names_of(entries), dictionary(entries).dom()),
        in_order(dictionary(entries).dom()) == names_of(entries),
        dictionary(entries).dom().finite(),
        dictionary(entries).dom().len() == entries.len(),
{
    let names = names_of(entries);
    assert forall|k: Seq<char>| names.to_set().contains(k) <==> has_name(entries, k) by {
        if names.to_set().contains(k) {
            let i = choose|i: int| 0 <= i < names.len() && names[i] == k;
            assert(entries[i].0@ == k);
        }
        if has_name(entries, k) {
            let i = place_of(entries, k);
            assert(names[i] == k);
        }
    }
    assert(names.to_set() =~= dictionary(entries).dom());
    lemma_in_order(names, dictionary(entries).dom());
}

impl<T: DeepView> ModMap<T> {
    /// A map without names.
    pub fn new() -> (r: Self)
        ensures
            r@ == Map::<Seq<char>, T::V>::empty(),
    {
        let r = ModMap { entries: Vec::new() };
        assert(r@ =~= Map::<Seq<char>, T::V>::empty());
        r
    }

    /// How many names the map has.
    pub fn len(&self) -> (n: usize)
        ensures
            n == self@.dom().len(),
            n == in_order(self@.dom()).len(),
            self@.dom().finite(),
            lists_in_order(in_order(self@.dom()), self@.dom()),
    {
        proof {
            use_type_invariant(self);
            lemma_listed(self.entries@);
        }
        self.entries.len()
    }

    /// Whether the map has no names.
    pub fn is_empty(&self) -> (r: bool)
        ensures
            r == (self@ == Map::<Seq<char>, T::V>::empty()),
    {
        proof {
            use_type_invariant(self);
            lemma_listed(self.entries@);
            if self.entries@.len() > 0 {
                lemma_place(self.entries@, 0);
                assert(self@.contains_key(self.entries@[0].0@));
            } else {
                assert(self@ =~= Map::<Seq<char>, T::V>::empty());
            }
        }
        self.entries.len() == 0
    }

    /// The name at position `i` of the walk.
    pub(crate) fn name_at(&self, i: usize) -> (r: &String)
        requires
            i < self@.dom().len(),
        ensures
            r@ == in_order(self@.dom())[i as int],
            self@.contains_key(r@),
    {
        proof {
            use_type_invariant(self);
            lemma_listed(self.entries@);
            lemma_place(self.entries@, i as int);
        }
        &self.entries[i].0
    }

    /// The value at position `i` of the walk.
    pub(crate) fn value_at(&self, i: usize) -> (r: &T)
        requires
            i < self@.dom().len(),
        ensures
            self@.contains_key(in_order(self@.dom())[i as int]),
            r.deep_view() == self@[in_order(self@.dom())[i as int]],
    {
        proof {
            use_type_invariant(self);
            lemma_listed(self.entries@);
            lemma_place(self.entries@, i as int);
        }
        &self.entries[i].1
    }

    /// The names, in the order of texts.
    pub fn names(&self) -> (r: Vec<String>)
        ensures
            r.deep_view() == in_order(self@.dom()),
    {
        let n = self.len();
        let mut r: Vec<String> = Vec::new();
        let mut i: usize = 0;
        while i < n
            invariant
                i <= n,
                n == self@.dom().len(),
                n == in_order(self@.dom()).len(),
                r.deep_view() == in_order(self@.dom()).take(i as int),
            decreases n - i,
        {
            let ghost before = r.deep_view();
            let name = self.name_at(i).clone();
            r.push(name);
            assert(r.deep_view() =~= before.push(name@));
            i = i + 1;
            assert(r.deep_view() =~= in_order(self@.dom()).take(i as int));
        }
        assert(in_order(self@.dom()).take(n as int) =~= in_order(self@.dom()));
        r
    }

    /// The names, in the order of texts, if there are any: what is to be looked up, where there is
    /// anything to look up.
    pub fn names_if_any(&self) -> (r: Option<Vec<String>>)
        ensures
            r.deep_view() == (if self@ == Map::<Seq<char>, T::V>::empty() {
                None
            } else {
                Some(in_order(self@.dom()))
            }),
    {
        if self.is_empty() {
            None
        } else {
            Some(self.names())
        }
    }

    /// The first position whose name does not precede `name`.
    fn position(&self, name: &str) -> (p: usize)
        ensures
            p <= self.entries@.len(),
            forall|i: int| 0 <= i < p ==> precedes(#[trigger] self.entries@[i].0@, name@),
            p < self.entries@.len() ==> !precedes(self.entries@[p as int].0@, name@),
    {
        let mut p: usize = 0;
        while p < self.entries.len() && str_precedes(self.entries[p].0.as_str(), name)
            invariant
                p <= self.entries@.len(),
                forall|i: int| 0 <= i < p ==> precedes(#[trigger] self.entries@[i].0@, name@),
            decreases self.entries@.len() - p,
        {
            p = p + 1;
        }
        p
    }

    proof fn lemma_position(self, name: Seq<char>, p: int)
        requires
            increasing(names_of(self.entries@)),
            0 <= p <= self.entries@.len(),
            forall|i: int| 0 <= i < p ==> precedes(#[trigger] self.entries@[i].0@, name),
            p < self.entries@.len() ==> !precedes(self.entries@[p].0@, name),
        ensures
            self@.contains_key(name) <==> p < self.entries@.len() && self.entries@[p].0@ == name,
            forall|i: int| p < i < self.entries@.len() ==> precedes(name, #[trigger] self.entries@[i].0@),
            p < self.entries@.len() && self.entries@[p].0@ != name ==> precedes(name, self.entries@[p].0@),
    {
        let names = names_of(self.entries@);
        if p < self.entries@.len() {
            lemma_precedes_total(self.entries@[p].0@, name);
        }
        assert forall|i: int| p < i < self.entries@.len() implies precedes(
            name,
            #[trigger] self.entries@[i].0@,
        ) by {
            assert(precedes(names[p], names[i]));
            if names[p] != name {
                lemma_precedes_transitive(name, names[p], names[i]);
            }
        }
        if self@.contains_key(name) {
            let i = place_of(self.entries@, name);
            lemma_precedes_irreflexive(name);
            assert(self.entries@[i].0@ == name);
            assert(!(i < p));
        }
    }

    /// The value of `name`, if the map has it.
    pub fn get(&self, name: &str) -> (r: Option<&T>)
        ensures
            match r {
                Some(v) => self@.contains_key(name@) && v.deep_view() == self@[name@],
                None => !self@.contains_key(name@),
            },
    {
        proof {
            use_type_invariant(self);
        }
        let p = self.position(name);
        proof {
            self.lemma_position(name@, p as int);
        }
        if p < self.entries.len() && same_text(self.entries[p].0.as_str(), name) {
            proof {
                lemma_place(self.entries@, p as int);
            }
            Some(&self.entries[p].1)
        } else {
            None
        }
    }

    /// Whether the map has `name`.
    pub fn contains_key(&self, name: &str) -> (r: bool)
        ensures
            r == self@.contains_key(name@),
    {
        self.get(name).is_some()
    }

    /// Gives `name` the value `value`, in place of any that it had.
    pub fn insert(&mut self, name: String, value: T)
        ensures
            final(self)@ == old(self)@.insert(name@, value.deep_view()),
    {
        proof {
            use_type_invariant(&*self);
        }
        let p = self.position(name.as_str());
        proof {
            self.lemma_position(name@, p as int);
        }
        let present = p < self.entries.len() && same_text(
            self.entries[p].0.as_str(),
            name.as_str(),
        );
        let ghost before = self.entries@;
        let ghost added = (name, value);
        let mut entries = Vec::new();
        std::mem::swap(&mut entries, &mut self.entries);
        if present {
            entries.set(p, (name, value));
        } else {
            entries.insert(p, (name, value));
        }
        proof {
            let after = entries@;
            let names = names_of(after);
            if present {
                assert(names =~= names_of(before));
            } else {
                assert forall|i: int, j: int| 0 <= i < j < names.len() implies precedes(
                    names[i],
                    names[j],
                ) by {
                    if j < p {
                        assert(precedes(names_of(before)[i], names_of(before)[j]));
                    } else if j == p {
                        assert(precedes(before[i].0@, added.0@));
                    } else if i < p {
                        assert(precedes(names_of(before)[i], names_of(before)[j - 1]));
                    } else if i == p {
                        assert(precedes(added.0@, before[j - 1].0@));
                    } else {
                        assert(precedes(names_of(before)[i - 1], names_of(before)[j - 1]));
                    }
                }
            }
            assert forall|k: Seq<char>|
                dictionary(after).contains_key(k) <==> dictionary(before).insert(
                    added.0@,
                    added.1.deep_view(),
                ).contains_key(k) by {
                if has_name(before, k) {
                    let i = place_of(before, k);
                    if present || i < p {
                        assert(after[i].0@ == k);
                    } else {
                        assert(after[i + 1].0@ == k);
                    }
                }
                if k == added.0@ {
                    assert(after[p as int].0@ == k);
                }
                if has_name(after, k) && k != added.0@ {
                    let i = place_of(after, k);
                    if present || i < p {
                        assert(before[i].0@ == k);
                    } else {
                        assert(before[i - 1].0@ == k);
                    }
                }
            }
            assert forall|k: Seq<char>| dictionary(after).contains_key(k) implies dictionary(
                after,
            )[k] == dictionary(before).insert(added.0@, added.1.deep_view())[k] by {
                let i = place_of(after, k);
                if i == p {
                    assert(k == added.0@);
                } else if present || i < p {
                    lemma_place(before, i);
                    lemma_place(after, i);
                    lemma_place(after, p as int);
                } else {
                    lemma_place(before, i - 1);
                    lemma_place(after, i);
                    lemma_place(after, p as int);
                }
            }
            assert(dictionary(after) =~= dictionary(before).insert(
                added.0@,
                added.1.deep_view(),
            ));
        }
        self.entries = entries;
    }

    /// Takes `name` out of the map and hands back the value that it had.
    pub fn remove(&mut self, name: &str) -> (r: Option<T>)
        ensures
            final(self)@ == old(self)@.remove(name@),
            match r {
                Some(v) => old(self)@.contains_key(name@) && v.deep_view() == old(self)@[name@],
                None => !old(self)@.contains_key(name@),
            },
    {
        proof {
            use_type_invariant(&*self);
        }
        let p = self.position(name);
        proof {
            self.lemma_position(name@, p as int);
        }
        if p < self.entries.len() && same_text(self.entries[p].0.as_str(), name) {
            let ghost before = self.entries@;
            let mut entries = Vec::new();
            std::mem::swap(&mut entries, &mut self.entries);
            let (_, value) = entries.remove(p);
            proof {
                let after = entries@;
                let names = names_of(after);
                lemma_place(before, p as int);
                assert forall|i: int, j: int| 0 <= i < j < names.len() implies precedes(
                    names[i],
                    names[j],
                ) by {
                    let x = if i < p { i } else { i + 1 };
                    let y = if j < p { j } else { j + 1 };
                    assert(precedes(names_of(before)[x], names_of(before)[y]));
                }
                assert forall|k: Seq<char>|
                    dictionary(after).contains_key(k) <==> dictionary(before).remove(
                        name@,
                    ).contains_key(k) by {
                    if has_name(after, k) {
                        let i = place_of(after, k);
                        let x = if i < p { i } else { i + 1 };
                        assert(before[x].0@ == k);
                        lemma_place(before, x);
                    }
                    if has_name(before, k) && k != name@ {
                        let x = place_of(before, k);
                        let i = if x < p { x } else { x - 1 };
                        assert(after[i].0@ == k);
                    }
                }
                assert forall|k: Seq<char>| dictionary(after).contains_key(k) implies dictionary(
                    after,
                )[k] == dictionary(before).remove(name@)[k] by {
                    let i = place_of(after, k);
                    let x = if i < p { i } else { i + 1 };
                    lemma_place(before, x);
                }
                assert(dictionary(after) =~= dictionary(before).remove(name@));
            }
            self.entries = entries;
            Some(value)
        } else {
            assert(self@ =~= old(self)@.remove(name@));
            None
        }
    }
}

} // verus!
