//! How a configuration file takes up options that it does not have yet.

use crate::keyed::{in_order, increasing, lemma_finite_in_order, lemma_in_order};
use crate::text::{precedes, same_text};
use crate::toml_tree::{
    as_table, as_table_mut, copy_value, entries, node, table_get, table_get_mut, table_insert,
    table_keys, Node,
};
use vstd::prelude::*;

verus! {

/// The section that is counted and merged as one key: its columns are the user's to choose, and
/// one that they deleted is not put back.
pub const MERGE_OPAQUE_KEY: &'static str = "table";

/// Whether the table under `key` is looked into.
pub open spec fn looked_into(key: Seq<char>) -> bool {
    key != MERGE_OPAQUE_KEY@
}

/// How many keys a table has, those of its sections included where they are looked into.
pub open spec fn key_count(table: Map<Seq<char>, Node>) -> nat
    decreases Node::Section(table), in_order(table.dom()).len() + 1,
{
    key_count_at(table, in_order(table.dom()))
}

/// The part of `key_count` that the listed keys make up.
pub open spec fn key_count_at(table: Map<Seq<char>, Node>, keys: Seq<Seq<char>>) -> nat
    decreases Node::Section(table), keys.len(),
{
    if keys.len() == 0 {
        0
    } else {
        let key = keys.last();
        proof {
            assert(table.contains_key(key) ==> decreases_to!(
                Node::Section(table) => Node::Section(table)->Section_0[key]
            ));
        }
        key_count_at(table, keys.drop_last()) + 1 + if table.contains_key(key) && looked_into(key) {
            inner_key_count(table[key])
        } else {
            0
        }
    }
}

/// How many keys stand inside what a key has.
pub open spec fn inner_key_count(node: Node) -> nat
    decreases node, in_order(node->Section_0.dom()).len() + 2,
{
    match node {
        Node::Section(section) => key_count(section),
        Node::Leaf(_) => 0,
    }
}

/// What `existing` becomes: what it has stays, what only `defaults` has is taken over, and two
/// sections under one key are merged likewise.
pub open spec fn merged(
    existing: Map<Seq<char>, Node>,
    defaults: Map<Seq<char>, Node>,
) -> Map<Seq<char>, Node> {
    merged_nodes(Node::Section(existing), Node::Section(defaults))->Section_0
}

/// What a key becomes that both have: the sections merged, or what it was.
pub open spec fn merged_nodes(existing: Node, default: Node) -> Node
    decreases default,
{
    match (existing, default) {
        (Node::Section(a), Node::Section(b)) => Node::Section(
            Map::new(
                |key: Seq<char>| a.contains_key(key) || b.contains_key(key),
                |key: Seq<char>|
                    if !a.contains_key(key) {
                        b[key]
                    } else if b.contains_key(key) && looked_into(key) {
                        merged_nodes(a[key], b[key])
                    } else {
                        a[key]
                    },
            ),
        ),
        _ => existing,
    }
}

/// The dotted path of `key` below `prefix`.
pub open spec fn path_below(prefix: Seq<char>, key: Seq<char>) -> Seq<char> {
    if prefix.len() == 0 {
        key
    } else {
        prefix + "."@ + key
    }
}

/// The dotted paths of what `existing` takes over from `defaults`, in the order of the keys.
pub open spec fn added_paths(
    existing: Map<Seq<char>, Node>,
    defaults: Map<Seq<char>, Node>,
    prefix: Seq<char>,
) -> Seq<Seq<char>>
    decreases Node::Section(defaults), in_order(defaults.dom()).len() + 1,
{
    added_paths_at(existing, defaults, prefix, in_order(defaults.dom()))
}

/// The part of `added_paths` that the listed keys make up.
pub open spec fn added_paths_at(
    existing: Map<Seq<char>, Node>,
    defaults: Map<Seq<char>, Node>,
    prefix: Seq<char>,
    keys: Seq<Seq<char>>,
) -> Seq<Seq<char>>
    decreases Node::Section(defaults), keys.len(),
{
    if keys.len() == 0 {
        Seq::empty()
    } else {
        let key = keys.last();
        let path = path_below(prefix, key);
        proof {
            assert(defaults.contains_key(key) ==> decreases_to!(
                Node::Section(defaults) => Node::Section(defaults)->Section_0[key]
            ));
        }
        added_paths_at(existing, defaults, prefix, keys.drop_last()) + if !existing.contains_key(
            key,
        ) {
            seq![path]
        } else if defaults.contains_key(key) && looked_into(key) {
            added_paths_inside(existing[key], defaults[key], path)
        } else {
            Seq::empty()
        }
    }
}

/// The dotted paths of what is taken over inside a key that both have.
pub open spec fn added_paths_inside(existing: Node, default: Node, path: Seq<char>) -> Seq<
    Seq<char>,
>
    decreases default, in_order(default->Section_0.dom()).len() + 2,
{
    match (existing, default) {
        (Node::Section(a), Node::Section(b)) => added_paths(a, b, path),
        _ => Seq::empty(),
    }
}

/// Counts the keys of a table, those of its sections included where they are looked into. There
/// is no count where it exceeds what a `usize` can hold. Of a file without unknown keys the count
/// tells whether there is something to merge.
pub fn count_keys(table: &toml::Table) -> (r: Option<usize>)
    ensures
        match r {
            Some(n) => n == key_count(entries(*table)),
            None => key_count(entries(*table)) > usize::MAX,
        },
    decreases Node::Section(entries(*table)),
{
    let keys = table_keys(table);
    let ghost m = entries(*table);
    proof {
        lemma_in_order(keys.deep_view(), m.dom());
    }
    let mut n: usize = 0;
    let mut i: usize = 0;
    assert(keys.deep_view().take(0) =~= Seq::<Seq<char>>::empty());
    while i < keys.len()
        invariant
            i <= keys.len(),
            m == entries(*table),
            keys.deep_view() == in_order(m.dom()),
            forall|j: int| 0 <= j < keys.len() ==> m.contains_key(#[trigger] keys.deep_view()[j]),
            n == key_count_at(m, keys.deep_view().take(i as int)),
        decreases keys.len() - i,
    {
        let key = keys[i].as_str();
        let ghost after = keys.deep_view().take(i + 1);
        proof {
            reveal_with_fuel(key_count, 2);
            reveal_with_fuel(key_count_at, 2);
            reveal_with_fuel(inner_key_count, 2);
            assert(keys.deep_view()[i as int] == key@);
            assert(after.drop_last() =~= keys.deep_view().take(i as int));
            assert(after.last() == key@);
            assert(decreases_to!(Node::Section(m) => Node::Section(m)->Section_0[key@]));
        }
        let mut inner: usize = 0;
        if !same_text(key, MERGE_OPAQUE_KEY) {
            if let Some(value) = table_get(table, key) {
                if let Some(section) = as_table(value) {
                    match count_keys(section) {
                        Some(count) => {
                            inner = count;
                        },
                        None => {
                            proof {
                                lemma_key_count_part(m, keys.deep_view(), i + 1);
                            }
                            return None;
                        },
                    }
                }
            }
        }
        proof {
            lemma_key_count_part(m, keys.deep_view(), i + 1);
        }
        if n >= usize::MAX - inner {
            return None;
        }
        n = n + 1 + inner;
        i = i + 1;
    }
    assert(keys.deep_view().take(keys.len() as int) =~= keys.deep_view());
    Some(n)
}

proof fn lemma_key_count_part(table: Map<Seq<char>, Node>, keys: Seq<Seq<char>>, i: int)
    requires
        0 <= i <= keys.len(),
    ensures
        key_count_at(table, keys.take(i)) <= key_count_at(table, keys),
    decreases keys.len(),
{
    if i == keys.len() {
        assert(keys.take(i) =~= keys);
    } else {
        lemma_key_count_part(table, keys.drop_last(), i);
        assert(keys.drop_last().take(i) =~= keys.take(i));
    }
}

fn below(prefix: &str, key: &str) -> (r: String)
    ensures
        r@ == path_below(prefix@, key@),
{
    if prefix.is_empty() {
        key.to_owned()
    } else {
        let mut r = prefix.to_owned();
        r.append(".");
        r.append(key);
        r
    }
}

/// Whether the tables that a merge walks over have finitely many keys, as all tables have.
pub open spec fn finite_to_merge(existing: Node, defaults: Node) -> bool
    decreases defaults,
{
    match (existing, defaults) {
        (Node::Section(e), Node::Section(d)) => {
            &&& d.dom().finite()
            &&& forall|key: Seq<char>| #[trigger]
                d.contains_key(key) && e.contains_key(key) && looked_into(key) ==> finite_to_merge(
                    e[key],
                    d[key],
                )
        },
        _ => true,
    }
}

/// Copies what `defaults` has and `existing` does not, and appends the dotted path of each to
/// `added`. Never changes or removes a key that is already there. Arrays are all or nothing.
pub fn merge_new_keys(
    existing: &mut toml::Table,
    defaults: &toml::Table,
    prefix: &str,
    added: &mut Vec<String>,
)
    ensures
        entries(*final(existing)) == merged(entries(*old(existing)), entries(*defaults)),
        final(added).deep_view() == old(added).deep_view() + added_paths(
            entries(*old(existing)),
            entries(*defaults),
            prefix@,
        ),
        finite_to_merge(Node::Section(entries(*old(existing))), Node::Section(entries(*defaults))),
        final(added).len() == old(added).len() <==> entries(*final(existing)) == entries(
            *old(existing),
        ),
    decreases Node::Section(entries(*defaults)),
{
    let keys = table_keys(defaults);
    let ghost e = entries(*existing);
    let ghost d = entries(*defaults);
    let ghost first = added.deep_view();
    let ghost names = keys.deep_view();
    proof {
        lemma_in_order(names, d.dom());
        assert(names.take(0) =~= Seq::<Seq<char>>::empty());
        assert(added.deep_view() =~= first + added_paths_at(e, d, prefix@, names.take(0)));
    }
    let mut i: usize = 0;
    while i < keys.len()
        invariant
            i <= keys.len(),
            d == entries(*defaults),
            names == keys.deep_view(),
            names == in_order(d.dom()),
            names.to_set() == d.dom(),
            names.no_duplicates(),
            forall|j: int| 0 <= j < names.len() ==> d.contains_key(#[trigger] names[j]),
            added.deep_view() == first + added_paths_at(e, d, prefix@, names.take(i as int)),
            entries(*existing).dom() == e.dom().union(names.take(i as int).to_set()),
            forall|k: Seq<char>|
                names.take(i as int).contains(k) ==> entries(*existing)[k] == merged(e, d)[k],
            forall|k: Seq<char>|
                e.contains_key(k) && !names.take(i as int).contains(k) ==> entries(*existing)[k]
                    == e[k],
            forall|j: int|
                0 <= j < i && e.contains_key(#[trigger] names[j]) && looked_into(names[j])
                    ==> finite_to_merge(e[names[j]], d[names[j]]),
        decreases keys.len() - i,
    {
        let key = keys[i].as_str();
        let ghost now = entries(*existing);
        let ghost before = names.take(i as int);
        let ghost after = names.take(i + 1);
        proof {
            reveal_with_fuel(added_paths, 2);
            reveal_with_fuel(added_paths_at, 2);
            reveal_with_fuel(added_paths_inside, 2);
            reveal_with_fuel(merged_nodes, 2);
            assert(names[i as int] == key@);
            assert(after.drop_last() =~= before);
            assert(after =~= before.push(key@));
            assert(after.last() == key@);
            assert(!before.contains(key@));
            assert(before.to_set().insert(key@) =~= after.to_set()) by {
                assert forall|k: Seq<char>| after.contains(k) <==> before.contains(k) || k
                    == key@ by {
                    if before.contains(k) {
                        let j = choose|j: int| 0 <= j < before.len() && before[j] == k;
                        assert(after[j] == k);
                    }
                    assert(after[i as int] == key@);
                }
            }
            assert(now.contains_key(key@) == e.contains_key(key@)) by {
                assert(!before.to_set().contains(key@));
            }
            assert(decreases_to!(Node::Section(d) => Node::Section(d)->Section_0[key@]));
        }
        let path = below(prefix, key);
        let ghost so_far = added.deep_view();
        match table_get(defaults, key) {
            None => {
                assert(false);
            },
            Some(default_value) => {
                match table_get(existing, key) {
                    None => {
                        table_insert(existing, key.to_owned(), copy_value(default_value));
                        added.push(path);
                        assert(added.deep_view() =~= so_far + seq![path_below(prefix@, key@)]);
                    },
                    Some(_) => {
                        if !same_text(key, MERGE_OPAQUE_KEY) {
                            if let Some(sub_defaults) = as_table(default_value) {
                                if let Some(value) = table_get_mut(existing, key) {
                                    if let Some(sub_existing) = as_table_mut(value) {
                                        merge_new_keys(
                                            sub_existing,
                                            sub_defaults,
                                            path.as_str(),
                                            added,
                                        );
                                    }
                                }
                            }
                        }
                    },
                }
            },
        }
        proof {
            assert(e.contains_key(key@) && looked_into(key@) ==> finite_to_merge(e[key@], d[key@]));
            assert(added.deep_view() =~= first + added_paths_at(e, d, prefix@, after));
            assert(entries(*existing).dom() =~= now.dom().insert(key@));
            assert(entries(*existing).dom() =~= e.dom().union(after.to_set()));
            assert(entries(*existing)[key@] == merged(e, d)[key@]);
            assert forall|k: Seq<char>| k != key@ && now.contains_key(k) implies entries(
                *existing,
            )[k] == now[k] by {}
            assert forall|k: Seq<char>| after.contains(k) implies entries(*existing)[k] == merged(
                e,
                d,
            )[k] by {
                if k != key@ {
                    assert(after.to_set().contains(k));
                    assert(before.to_set().contains(k));
                    assert(now.contains_key(k));
                }
            }
            assert forall|k: Seq<char>| e.contains_key(k) && !after.contains(k) implies entries(
                *existing,
            )[k] == e[k] by {
                assert(!after.to_set().contains(k));
                assert(!before.to_set().contains(k));
                assert(now.contains_key(k));
            }
        }
        i = i + 1;
    }
    proof {
        assert(names.take(keys.len() as int) =~= names);
        assert forall|k: Seq<char>| #[trigger] entries(*existing).contains_key(k) implies entries(
            *existing,
        )[k] == merged(e, d)[k] by {
            if names.contains(k) {
                assert(names.to_set().contains(k));
            } else {
                assert(!names.to_set().contains(k));
                assert(!d.contains_key(k));
            }
        }
        assert(entries(*existing) =~= merged(e, d));
        assert forall|k: Seq<char>| #[trigger] d.contains_key(k) && e.contains_key(k)
            && looked_into(k) implies finite_to_merge(e[k], d[k]) by {
            assert(names.to_set().contains(k));
            let j = choose|j: int| 0 <= j < names.len() && names[j] == k;
            assert(e.contains_key(names[j]));
        }
        lemma_nothing_added(e, d, prefix@);
    }
}

/// Whether every table within a node has finitely many keys, as every table has.
pub open spec fn finite_node(node: Node) -> bool
    decreases node,
{
    match node {
        Node::Section(m) => {
            &&& m.dom().finite()
            &&& forall|key: Seq<char>| #[trigger] m.contains_key(key) ==> finite_node(m[key])
        },
        Node::Leaf(_) => true,
    }
}

/// Whether all that `before` has stands unchanged in `after`: every key is there, every value is
/// the same, and so on down the sections.
pub open spec fn kept(before: Node, after: Node) -> bool
    decreases before,
{
    match (before, after) {
        (Node::Section(a), Node::Section(b)) => forall|key: Seq<char>| #[trigger]
            a.contains_key(key) ==> b.contains_key(key) && kept(a[key], b[key]),
        _ => before == after,
    }
}

/// Whether every key of `defaults` is there in `after`, and so on down the sections that are
/// looked into.
pub open spec fn supplied(defaults: Node, after: Node) -> bool
    decreases defaults,
{
    match (defaults, after) {
        (Node::Section(d), Node::Section(b)) => forall|key: Seq<char>| #[trigger]
            d.contains_key(key) ==> b.contains_key(key) && (looked_into(key) ==> supplied(
                d[key],
                b[key],
            )),
        _ => true,
    }
}

/// Whether `existing` has no key that `defaults` lacks, and the two have sections under the same
/// keys, as far as these are looked into.
pub open spec fn no_unknown_keys(existing: Node, defaults: Node) -> bool
    decreases existing,
{
    match (existing, defaults) {
        (Node::Section(e), Node::Section(d)) => forall|key: Seq<char>| #[trigger]
            e.contains_key(key) ==> d.contains_key(key) && (looked_into(key) ==> no_unknown_keys(
                e[key],
                d[key],
            )),
        (Node::Leaf(_), Node::Leaf(_)) => true,
        _ => false,
    }
}

proof fn lemma_kept_itself(n: Node)
    ensures
        kept(n, n),
    decreases n,
{
    if let Node::Section(m) = n {
        assert forall|key: Seq<char>| #[trigger] m.contains_key(key) implies kept(
            m[key],
            m[key],
        ) by {
            assert(decreases_to!(n => n->Section_0[key]));
            lemma_kept_itself(m[key]);
        }
    }
}

proof fn lemma_supplied_itself(n: Node)
    ensures
        supplied(n, n),
    decreases n,
{
    if let Node::Section(m) = n {
        assert forall|key: Seq<char>| #[trigger] m.contains_key(key) implies supplied(
            m[key],
            m[key],
        ) by {
            assert(decreases_to!(n => n->Section_0[key]));
            lemma_supplied_itself(m[key]);
        }
    }
}

proof fn lemma_user_values_win(existing: Node, defaults: Node)
    ensures
        kept(existing, merged_nodes(existing, defaults)),
    decreases defaults,
{
    match (existing, defaults) {
        (Node::Section(e), Node::Section(d)) => {
            let m = merged_nodes(existing, defaults)->Section_0;
            assert forall|key: Seq<char>| #[trigger] e.contains_key(key) implies m.contains_key(key)
                && kept(e[key], m[key]) by {
                if d.contains_key(key) && looked_into(key) {
                    assert(decreases_to!(defaults => defaults->Section_0[key]));
                    lemma_user_values_win(e[key], d[key]);
                } else {
                    lemma_kept_itself(e[key]);
                }
            }
        },
        _ => {
            lemma_kept_itself(existing);
        },
    }
}

/// A key already in the file keeps whatever the user set it to: all that a table has before the
/// merge stands unchanged after it.
pub proof fn law_user_values_win(
    existing: Map<Seq<char>, Node>,
    defaults: Map<Seq<char>, Node>,
)
    ensures
        kept(Node::Section(existing), Node::Section(merged(existing, defaults))),
{
    lemma_user_values_win(Node::Section(existing), Node::Section(defaults));
}

proof fn lemma_all_keys_supplied(existing: Node, defaults: Node)
    ensures
        supplied(defaults, merged_nodes(existing, defaults)),
    decreases defaults,
{
    if let (Node::Section(e), Node::Section(d)) = (existing, defaults) {
        let m = merged_nodes(existing, defaults)->Section_0;
        assert forall|key: Seq<char>| #[trigger] d.contains_key(key) implies m.contains_key(key)
            && (looked_into(key) ==> supplied(d[key], m[key])) by {
            if e.contains_key(key) && looked_into(key) {
                assert(decreases_to!(defaults => defaults->Section_0[key]));
                lemma_all_keys_supplied(e[key], d[key]);
            } else {
                lemma_supplied_itself(d[key]);
            }
        }
    }
}

/// After the merge no key of the full set is missing, the sections that are looked into
/// included.
pub proof fn law_all_keys_supplied(
    existing: Map<Seq<char>, Node>,
    defaults: Map<Seq<char>, Node>,
)
    ensures
        supplied(Node::Section(defaults), Node::Section(merged(existing, defaults))),
{
    lemma_all_keys_supplied(Node::Section(existing), Node::Section(defaults));
}

/// The merge adds nothing of its own: every key of the outcome is one of the two tables' keys,
/// and a key that only the full set has gets exactly what it has there.
pub proof fn law_nothing_invented(
    existing: Map<Seq<char>, Node>,
    defaults: Map<Seq<char>, Node>,
)
    ensures
        merged(existing, defaults).dom() == existing.dom().union(defaults.dom()),
        forall|key: Seq<char>|
            #![trigger merged(existing, defaults)[key]]
            defaults.contains_key(key) && !existing.contains_key(key) ==> merged(
                existing,
                defaults,
            )[key] == defaults[key],
{
    assert(merged(existing, defaults).dom() =~= existing.dom().union(defaults.dom()));
}

/// The user's table section is opaque to the merge: where the file has it, it stays exactly as
/// it is.
pub proof fn law_opaque_section_untouched(
    existing: Map<Seq<char>, Node>,
    defaults: Map<Seq<char>, Node>,
)
    requires
        existing.contains_key(MERGE_OPAQUE_KEY@),
    ensures
        merged(existing, defaults)[MERGE_OPAQUE_KEY@] == existing[MERGE_OPAQUE_KEY@],
{
}

spec fn stays(
    existing: Map<Seq<char>, Node>,
    defaults: Map<Seq<char>, Node>,
    key: Seq<char>,
) -> bool {
    existing.contains_key(key) && merged(existing, defaults)[key] == existing[key]
}

proof fn lemma_nothing_added(
    existing: Map<Seq<char>, Node>,
    defaults: Map<Seq<char>, Node>,
    prefix: Seq<char>,
)
    requires
        finite_to_merge(Node::Section(existing), Node::Section(defaults)),
    ensures
        added_paths(existing, defaults, prefix).len() == 0 <==> merged(existing, defaults)
            == existing,
    decreases Node::Section(defaults),
{
    reveal_with_fuel(finite_to_merge, 2);
    let keys = in_order(defaults.dom());
    lemma_finite_in_order(defaults.dom());
    lemma_in_order(keys, defaults.dom());
    lemma_nothing_added_at(existing, defaults, prefix, keys);
    let m = merged(existing, defaults);
    reveal_with_fuel(added_paths, 2);
    if added_paths(existing, defaults, prefix).len() == 0 {
        assert forall|key: Seq<char>| m.contains_key(key) <==> existing.contains_key(key) by {
            if defaults.contains_key(key) {
                assert(keys.to_set().contains(key));
                assert(keys.contains(key));
            }
        }
        assert forall|key: Seq<char>| m.contains_key(key) implies m[key] == existing[key] by {
            if defaults.contains_key(key) {
                assert(keys.to_set().contains(key));
                assert(keys.contains(key));
            }
        }
        assert(m =~= existing);
    }
    if m == existing {
        assert forall|key: Seq<char>| #[trigger] keys.contains(key) implies stays(
            existing,
            defaults,
            key,
        ) by {
            assert(keys.to_set().contains(key));
            assert(m.contains_key(key));
        }
    }
}

proof fn lemma_nothing_added_at(
    existing: Map<Seq<char>, Node>,
    defaults: Map<Seq<char>, Node>,
    prefix: Seq<char>,
    keys: Seq<Seq<char>>,
)
    requires
        finite_to_merge(Node::Section(existing), Node::Section(defaults)),
        forall|i: int| 0 <= i < keys.len() ==> defaults.contains_key(#[trigger] keys[i]),
    ensures
        added_paths_at(existing, defaults, prefix, keys).len() == 0 <==> forall|key: Seq<char>|
            #[trigger] keys.contains(key) ==> stays(existing, defaults, key),
    decreases Node::Section(defaults), keys.len(),
{
    reveal_with_fuel(added_paths_at, 2);
    reveal_with_fuel(added_paths_inside, 2);
    reveal_with_fuel(merged_nodes, 2);
    reveal_with_fuel(finite_to_merge, 2);
    if keys.len() > 0 {
        let last = keys.last();
        let rest = keys.drop_last();
        assert(defaults.contains_key(keys[keys.len() - 1]));
        assert(decreases_to!(Node::Section(defaults) => Node::Section(defaults)->Section_0[last]));
        lemma_nothing_added_at(existing, defaults, prefix, rest);
        if existing.contains_key(last) && looked_into(last) {
            if let (Node::Section(a), Node::Section(b)) = (existing[last], defaults[last]) {
                assert(defaults.contains_key(last) && existing.contains_key(last) && looked_into(
                    last,
                ));
                lemma_nothing_added(a, b, path_below(prefix, last));
            }
        }
        assert forall|key: Seq<char>| #[trigger] keys.contains(key) <==> rest.contains(key) || key
            == last by {
            if rest.contains(key) {
                let i = choose|i: int| 0 <= i < rest.len() && rest[i] == key;
                assert(keys[i] == key);
            }
            if keys.contains(key) && key != last {
                let i = choose|i: int| 0 <= i < keys.len() && keys[i] == key;
                assert(rest[i] == key);
            }
            assert(keys[keys.len() - 1] == last);
        }
        if added_paths_at(existing, defaults, prefix, keys).len() == 0 {
            assert(stays(existing, defaults, last));
        }
        if forall|key: Seq<char>| #[trigger] keys.contains(key) ==> stays(existing, defaults, key) {
            assert forall|key: Seq<char>| #[trigger] rest.contains(key) implies stays(
                existing,
                defaults,
                key,
            ) by {
                assert(keys.contains(key));
            }
            assert(keys.contains(last));
            assert(stays(existing, defaults, last));
        }
    }
}

proof fn lemma_finite_to_merge(existing: Node, defaults: Node)
    requires
        finite_node(defaults),
    ensures
        finite_to_merge(existing, defaults),
    decreases defaults,
{
    if let (Node::Section(e), Node::Section(d)) = (existing, defaults) {
        assert forall|key: Seq<char>| #[trigger] d.contains_key(key) && e.contains_key(key)
            && looked_into(key) implies finite_to_merge(e[key], d[key]) by {
            assert(decreases_to!(defaults => defaults->Section_0[key]));
            lemma_finite_to_merge(e[key], d[key]);
        }
    }
}

/// The paths reported as added are empty exactly where the merge changes nothing.
pub proof fn law_reported_iff_changed(
    existing: Map<Seq<char>, Node>,
    defaults: Map<Seq<char>, Node>,
    prefix: Seq<char>,
)
    requires
        finite_node(Node::Section(defaults)),
    ensures
        added_paths(existing, defaults, prefix).len() == 0 <==> merged(existing, defaults)
            == existing,
{
    lemma_finite_to_merge(Node::Section(existing), Node::Section(defaults));
    lemma_nothing_added(existing, defaults, prefix);
}

proof fn lemma_merge_settles(existing: Node, defaults: Node)
    ensures
        merged_nodes(merged_nodes(existing, defaults), defaults) == merged_nodes(
            existing,
            defaults,
        ),
    decreases defaults,
{
    if let (Node::Section(e), Node::Section(d)) = (existing, defaults) {
        let once = merged_nodes(existing, defaults)->Section_0;
        let twice = merged_nodes(Node::Section(once), defaults)->Section_0;
        assert forall|key: Seq<char>| once.contains_key(key) implies twice[key] == once[key] by {
            if d.contains_key(key) && looked_into(key) {
                assert(decreases_to!(defaults => defaults->Section_0[key]));
                if e.contains_key(key) {
                    lemma_merge_settles(e[key], d[key]);
                } else {
                    lemma_merge_with_itself(d[key]);
                }
            }
        }
        assert(twice =~= once);
    }
}

proof fn lemma_merge_with_itself(n: Node)
    ensures
        merged_nodes(n, n) == n,
    decreases n,
{
    if let Node::Section(m) = n {
        let r = merged_nodes(n, n)->Section_0;
        assert forall|key: Seq<char>| m.contains_key(key) implies r[key] == m[key] by {
            assert(decreases_to!(n => n->Section_0[key]));
            lemma_merge_with_itself(m[key]);
        }
        assert(r =~= m);
    }
}

/// A table that is merged with itself stays as it is.
pub proof fn law_merging_with_itself(table: Map<Seq<char>, Node>)
    ensures
        merged(table, table) == table,
{
    lemma_merge_with_itself(Node::Section(table));
}

/// Merging a second time changes nothing.
pub proof fn law_merge_settles(existing: Map<Seq<char>, Node>, defaults: Map<Seq<char>, Node>)
    ensures
        merged(merged(existing, defaults), defaults) == merged(existing, defaults),
{
    lemma_merge_settles(Node::Section(existing), Node::Section(defaults));
}

spec fn listed_in(existing: Map<Seq<char>, Node>, keys: Seq<Seq<char>>) -> Seq<Seq<char>>
    decreases keys.len(),
{
    if keys.len() == 0 {
        Seq::empty()
    } else if existing.contains_key(keys.last()) {
        listed_in(existing, keys.drop_last()).push(keys.last())
    } else {
        listed_in(existing, keys.drop_last())
    }
}

proof fn lemma_listed_in(existing: Map<Seq<char>, Node>, keys: Seq<Seq<char>>)
    requires
        increasing(keys),
    ensures
        increasing(listed_in(existing, keys)),
        forall|key: Seq<char>| #[trigger]
            listed_in(existing, keys).contains(key) <==> keys.contains(key)
                && existing.contains_key(key),
    decreases keys.len(),
{
    if keys.len() > 0 {
        let last = keys.last();
        let rest = keys.drop_last();
        lemma_listed_in(existing, rest);
        let l = listed_in(existing, rest);
        let r = listed_in(existing, keys);
        assert forall|key: Seq<char>| keys.contains(key) <==> rest.contains(key) || key
            == last by {
            if rest.contains(key) {
                let i = choose|i: int| 0 <= i < rest.len() && rest[i] == key;
                assert(keys[i] == key);
            }
            if keys.contains(key) && key != last {
                let i = choose|i: int| 0 <= i < keys.len() && keys[i] == key;
                assert(rest[i] == key);
            }
            assert(keys[keys.len() - 1] == last);
        }
        assert forall|key: Seq<char>| #[trigger] r.contains(key) <==> keys.contains(key)
            && existing.contains_key(key) by {
            if l.contains(key) {
                let i = choose|i: int| 0 <= i < l.len() && l[i] == key;
                assert(r[i] == key);
            }
            if existing.contains_key(last) {
                assert(r[l.len() as int] == last);
                if r.contains(key) && key != last {
                    let i = choose|i: int| 0 <= i < r.len() && r[i] == key;
                    assert(l[i] == key);
                }
            }
        }
        assert forall|i: int, j: int| 0 <= i < j < r.len() implies precedes(r[i], r[j]) by {
            if j == l.len() {
                assert(l.contains(l[i]));
                let k = choose|k: int| 0 <= k < rest.len() && rest[k] == l[i];
                assert(precedes(keys[k], keys[keys.len() - 1]));
            }
        }
    }
}

proof fn lemma_count_at_most(
    existing: Map<Seq<char>, Node>,
    defaults: Map<Seq<char>, Node>,
    keys: Seq<Seq<char>>,
)
    requires
        finite_node(Node::Section(existing)),
        finite_node(Node::Section(defaults)),
        no_unknown_keys(Node::Section(existing), Node::Section(defaults)),
        increasing(keys),
        forall|i: int| 0 <= i < keys.len() ==> defaults.contains_key(#[trigger] keys[i]),
    ensures
        key_count_at(existing, listed_in(existing, keys)) <= key_count_at(defaults, keys),
        key_count_at(existing, listed_in(existing, keys)) == key_count_at(defaults, keys)
            ==> forall|i: int|
            0 <= i < keys.len() ==> existing.contains_key(#[trigger] keys[i]) && merged(
                existing,
                defaults,
            )[keys[i]] == existing[keys[i]],
    decreases Node::Section(defaults), keys.len(),
{
    reveal_with_fuel(key_count_at, 2);
    reveal_with_fuel(inner_key_count, 2);
    reveal_with_fuel(merged_nodes, 2);
    reveal_with_fuel(no_unknown_keys, 2);
    if keys.len() > 0 {
        let last = keys.last();
        let rest = keys.drop_last();
        assert(defaults.contains_key(keys[keys.len() - 1]));
        assert(decreases_to!(Node::Section(defaults) => Node::Section(defaults)->Section_0[last]));
        lemma_count_at_most(existing, defaults, rest);
        let l = listed_in(existing, rest);
        if existing.contains_key(last) {
            assert(l.push(last).drop_last() =~= l);
            if looked_into(last) {
                if let (Node::Section(a), Node::Section(b)) = (existing[last], defaults[last]) {
                    assert(finite_node(defaults[last]));
                    assert(finite_node(existing[last]));
                    assert(no_unknown_keys(existing[last], defaults[last]));
                    lemma_equal_counts(a, b);
                }
            }
        }
        if key_count_at(existing, listed_in(existing, keys)) == key_count_at(defaults, keys) {
            assert forall|i: int| 0 <= i < keys.len() implies existing.contains_key(
                #[trigger] keys[i],
            ) && merged(existing, defaults)[keys[i]] == existing[keys[i]] by {
                if i < rest.len() {
                    assert(rest[i] == keys[i]);
                }
            }
        }
    }
}

proof fn lemma_equal_counts(existing: Map<Seq<char>, Node>, defaults: Map<Seq<char>, Node>)
    requires
        finite_node(Node::Section(existing)),
        finite_node(Node::Section(defaults)),
        no_unknown_keys(Node::Section(existing), Node::Section(defaults)),
    ensures
        key_count(existing) <= key_count(defaults),
        key_count(existing) == key_count(defaults) ==> merged(existing, defaults) == existing,
    decreases Node::Section(defaults), in_order(defaults.dom()).len() + 1,
{
    reveal_with_fuel(key_count, 2);
    let keys = in_order(defaults.dom());
    lemma_finite_in_order(defaults.dom());
    lemma_in_order(keys, defaults.dom());
    lemma_finite_in_order(existing.dom());
    lemma_listed_in(existing, keys);
    let l = listed_in(existing, keys);
    assert forall|key: Seq<char>| l.to_set().contains(key) <==> existing.contains_key(key) by {
        if existing.contains_key(key) {
            assert(defaults.contains_key(key));
            assert(keys.to_set().contains(key));
        }
        assert(l.to_set().contains(key) == l.contains(key));
    }
    assert(l.to_set() =~= existing.dom());
    lemma_in_order(l, existing.dom());
    lemma_count_at_most(existing, defaults, keys);
    if key_count(existing) == key_count(defaults) {
        let m = merged(existing, defaults);
        assert forall|key: Seq<char>| m.contains_key(key) implies existing.contains_key(key)
            && m[key] == existing[key] by {
            if defaults.contains_key(key) {
                assert(keys.to_set().contains(key));
                let i = choose|i: int| 0 <= i < keys.len() && keys[i] == key;
                assert(existing.contains_key(keys[i]));
            }
        }
        assert(m =~= existing);
    }
}

/// Where the key counts line up there is nothing to merge, provided that the file has no key
/// that the full set lacks.
pub proof fn law_equal_counts_mean_nothing_new(
    existing: Map<Seq<char>, Node>,
    defaults: Map<Seq<char>, Node>,
    prefix: Seq<char>,
)
    requires
        finite_node(Node::Section(existing)),
        finite_node(Node::Section(defaults)),
        no_unknown_keys(Node::Section(existing), Node::Section(defaults)),
        key_count(existing) == key_count(defaults),
    ensures
        merged(existing, defaults) == existing,
        added_paths(existing, defaults, prefix).len() == 0,
{
    lemma_equal_counts(existing, defaults);
    lemma_finite_to_merge(Node::Section(existing), Node::Section(defaults));
    lemma_nothing_added(existing, defaults, prefix);
}

/// Under every key that both tables have, sections are merged likewise, but for the one named
/// `table`. That one, and whatever is no section in one of the tables, stays as it is.
pub proof fn law_sections_merge_likewise(
    existing: Map<Seq<char>, Node>,
    defaults: Map<Seq<char>, Node>,
    key: Seq<char>,
)
    requires
        existing.contains_key(key),
    ensures
        merged(existing, defaults).contains_key(key),
        merged(existing, defaults)[key] == (if key != "table"@ && defaults.contains_key(key)
            && existing[key] is Section && defaults[key] is Section {
            Node::Section(merged(existing[key]->Section_0, defaults[key]->Section_0))
        } else {
            existing[key]
        }),
{
    reveal_with_fuel(merged_nodes, 2);
    if existing[key] is Section && defaults.contains_key(key) && defaults[key] is Section {
        assert(Node::Section(existing[key]->Section_0) == existing[key]);
        assert(Node::Section(defaults[key]->Section_0) == defaults[key]);
    }
}

/// The place of a path among those of the keys of a table: it is that of a key which only the full
/// set has, or stands below a key that both have, other than `table`.
pub open spec fn leads_to_new_key(
    existing: Map<Seq<char>, Node>,
    defaults: Map<Seq<char>, Node>,
    prefix: Seq<char>,
    path: Seq<char>,
    key: Seq<char>,
) -> bool {
    let own = if prefix.len() == 0 {
        key
    } else {
        prefix + "."@ + key
    };
    &&& defaults.contains_key(key)
    &&& !existing.contains_key(key) ==> path == own
    &&& existing.contains_key(key) ==> key != "table"@ && existing[key] is Section
        && defaults[key] is Section && added_paths(
        existing[key]->Section_0,
        defaults[key]->Section_0,
        own,
    ).contains(path)
}

proof fn lemma_added_paths_at(
    existing: Map<Seq<char>, Node>,
    defaults: Map<Seq<char>, Node>,
    prefix: Seq<char>,
    keys: Seq<Seq<char>>,
    path: Seq<char>,
)
    requires
        forall|i: int| 0 <= i < keys.len() ==> defaults.contains_key(#[trigger] keys[i]),
    ensures
        added_paths_at(existing, defaults, prefix, keys).contains(path) <==> exists|i: int|
            0 <= i < keys.len() && leads_to_new_key(
                existing,
                defaults,
                prefix,
                path,
                #[trigger] keys[i],
            ),
    decreases keys.len(),
{
    let all = added_paths_at(existing, defaults, prefix, keys);
    if keys.len() > 0 {
        let n = keys.len() - 1;
        let key = keys[n];
        let rest = keys.drop_last();
        assert forall|i: int| 0 <= i < rest.len() implies defaults.contains_key(
            #[trigger] rest[i],
        ) by {
            assert(rest[i] == keys[i]);
        }
        lemma_added_paths_at(existing, defaults, prefix, rest, path);
        let before = added_paths_at(existing, defaults, prefix, rest);
        let here = if !existing.contains_key(key) {
            seq![path_below(prefix, key)]
        } else if defaults.contains_key(key) && looked_into(key) {
            added_paths_inside(existing[key], defaults[key], path_below(prefix, key))
        } else {
            Seq::empty()
        };
        assert(keys.last() == key);
        assert(all == before + here);
        assert(here.contains(path) <==> leads_to_new_key(existing, defaults, prefix, path, key)) by {
            if !existing.contains_key(key) {
                assert(here[0] == path_below(prefix, key));
            }
        }
        if all.contains(path) {
            let k = choose|k: int| 0 <= k < all.len() && all[k] == path;
            if k < before.len() {
                assert(before[k] == path);
                let i = choose|i: int|
                    0 <= i < rest.len() && leads_to_new_key(
                        existing,
                        defaults,
                        prefix,
                        path,
                        #[trigger] rest[i],
                    );
                assert(keys[i] == rest[i]);
            } else {
                assert(here[k - before.len()] == path);
                assert(leads_to_new_key(existing, defaults, prefix, path, keys[n]));
            }
        }
        if exists|i: int|
            0 <= i < keys.len() && leads_to_new_key(
                existing,
                defaults,
                prefix,
                path,
                #[trigger] keys[i],
            ) {
            let i = choose|i: int|
                0 <= i < keys.len() && leads_to_new_key(
                    existing,
                    defaults,
                    prefix,
                    path,
                    #[trigger] keys[i],
                );
            if i < n {
                assert(rest[i] == keys[i]);
                let k = choose|k: int| 0 <= k < before.len() && before[k] == path;
                assert(all[k] == path);
            } else {
                let k = choose|k: int| 0 <= k < here.len() && here[k] == path;
                assert(all[before.len() + k] == path);
            }
        }
    }
}

/// Just the new keys are reported: a path is reported exactly where it is that of a key which only
/// the full set has, or is reported below a section that both have, other than `table`. A path is
/// the key itself, or the key behind the path of its section and a dot.
pub proof fn law_new_keys_are_reported(
    existing: Map<Seq<char>, Node>,
    defaults: Map<Seq<char>, Node>,
    prefix: Seq<char>,
    path: Seq<char>,
)
    requires
        defaults.dom().finite(),
    ensures
        added_paths(existing, defaults, prefix).contains(path) <==> exists|key: Seq<char>|
            #[trigger] leads_to_new_key(existing, defaults, prefix, path, key),
{
    let keys = in_order(defaults.dom());
    lemma_finite_in_order(defaults.dom());
    assert forall|i: int| 0 <= i < keys.len() implies defaults.contains_key(#[trigger] keys[i]) by {
        assert(keys.to_set().contains(keys[i]));
    }
    lemma_added_paths_at(existing, defaults, prefix, keys, path);
    if exists|key: Seq<char>| #[trigger] leads_to_new_key(existing, defaults, prefix, path, key) {
        let key = choose|key: Seq<char>| #[trigger]
            leads_to_new_key(existing, defaults, prefix, path, key);
        assert(keys.to_set().contains(key));
        let i = choose|i: int| 0 <= i < keys.len() && keys[i] == key;
        assert(leads_to_new_key(existing, defaults, prefix, path, keys[i]));
    }
}

proof fn lemma_count_at_adds(
    table: Map<Seq<char>, Node>,
    a: Seq<Seq<char>>,
    b: Seq<Seq<char>>,
)
    ensures
        key_count_at(table, a + b) == key_count_at(table, a) + key_count_at(table, b),
    decreases b.len(),
{
    if b.len() == 0 {
        assert(a + b =~= a);
    } else {
        assert((a + b).drop_last() =~= a + b.drop_last());
        assert((a + b).last() == b.last());
        lemma_count_at_adds(table, a, b.drop_last());
    }
}

proof fn lemma_count_at_without(
    table: Map<Seq<char>, Node>,
    key: Seq<char>,
    keys: Seq<Seq<char>>,
)
    requires
        !keys.contains(key),
    ensures
        key_count_at(table.remove(key), keys) == key_count_at(table, keys),
    decreases keys.len(),
{
    if keys.len() > 0 {
        assert(keys.last() != key) by {
            assert(keys[keys.len() - 1] == keys.last());
        }
        assert(!keys.drop_last().contains(key)) by {
            if keys.drop_last().contains(key) {
                let i = choose|i: int| 0 <= i < keys.len() - 1 && keys.drop_last()[i] == key;
                assert(keys[i] == key);
            }
        }
        lemma_count_at_without(table, key, keys.drop_last());
    }
}

/// Every key counts once, and the keys of the section under it count as well, unless it is named
/// `table`. An empty table has no keys.
pub proof fn law_every_key_counts(table: Map<Seq<char>, Node>, key: Seq<char>)
    requires
        table.dom().finite(),
    ensures
        table.dom().len() == 0 ==> key_count(table) == 0,
        table.contains_key(key) ==> key_count(table) == key_count(table.remove(key)) + 1 + (
        match table[key] {
            Node::Section(section) => if key != "table"@ {
                key_count(section)
            } else {
                0
            },
            Node::Leaf(_) => 0,
        }),
{
    let keys = in_order(table.dom());
    lemma_finite_in_order(table.dom());
    lemma_in_order(keys, table.dom());
    if table.contains_key(key) {
        assert(keys.to_set().contains(key));
        let p = choose|p: int| 0 <= p < keys.len() && keys[p] == key;
        let a = keys.take(p);
        let b = keys.skip(p + 1);
        let one = seq![key];
        let rest = a + b;
        assert(keys =~= a + one + b);
        lemma_count_at_adds(table, a + one, b);
        lemma_count_at_adds(table, a, one);
        lemma_count_at_adds(table, a, b);
        assert(one.drop_last() =~= Seq::empty());
        assert(one.last() == key);
        assert(key_count_at(table, one.drop_last()) == 0);
        assert(key_count_at(table, one) == 1 + if looked_into(key) {
            inner_key_count(table[key])
        } else {
            0
        });
        assert forall|i: int, j: int| 0 <= i < j < rest.len() implies precedes(rest[i], rest[j]) by {
            let x = if i < p { i } else { i + 1 };
            let y = if j < p { j } else { j + 1 };
            assert(precedes(keys[x], keys[y]));
        }
        assert(!rest.contains(key)) by {
            if rest.contains(key) {
                let i = choose|i: int| 0 <= i < rest.len() && rest[i] == key;
                let x = if i < p { i } else { i + 1 };
                assert(keys[x] == keys[p]);
            }
        }
        assert forall|k: Seq<char>| rest.to_set().contains(k) <==> table.remove(key).dom().contains(
            k,
        ) by {
            if rest.contains(k) {
                let i = choose|i: int| 0 <= i < rest.len() && rest[i] == k;
                let x = if i < p { i } else { i + 1 };
                assert(keys[x] == k);
                assert(keys.to_set().contains(k));
            }
            if table.contains_key(k) && k != key {
                assert(keys.to_set().contains(k));
                let x = choose|x: int| 0 <= x < keys.len() && keys[x] == k;
                let i = if x < p { x } else { x - 1 };
                assert(rest[i] == k);
            }
        }
        assert(rest.to_set() =~= table.remove(key).dom());
        lemma_in_order(rest, table.remove(key).dom());
        lemma_count_at_without(table, key, rest);
    }
}

} // verus!
