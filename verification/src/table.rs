//! Lists of named entries, read as mappings from name to entry.

use vstd::prelude::*;

verus! {

/// A program name, as a sequence of characters.
pub type Name = Seq<char>;

/// Whether no name occurs twice.
pub open spec fn names_distinct<T>(entries: Seq<(Name, T)>) -> bool {
    forall|i: int, j: int|
        0 <= i < j < entries.len() ==> (#[trigger] entries[i]).0 != (#[trigger] entries[j]).0
}

/// Whether some entry bears `name`.
pub open spec fn has_name<T>(entries: Seq<(Name, T)>, name: Name) -> bool {
    exists|i: int| 0 <= i < entries.len() && (#[trigger] entries[i]).0 == name
}

/// The position of an entry that bears `name`.
pub open spec fn position_of<T>(entries: Seq<(Name, T)>, name: Name) -> int {
    choose|i: int| 0 <= i < entries.len() && (#[trigger] entries[i]).0 == name
}

/// What `name` maps to, if anything.
pub open spec fn lookup<T>(entries: Seq<(Name, T)>, name: Name) -> Option<T> {
    if has_name(entries, name) {
        Some(entries[position_of(entries, name)].1)
    } else {
        None
    }
}

/// In a list without repeated names, the entry at a position is what its
/// name maps to.
pub proof fn lemma_lookup_at<T>(entries: Seq<(Name, T)>, i: int)
    requires
        names_distinct(entries),
        0 <= i < entries.len(),
    ensures
        has_name(entries, entries[i].0),
        position_of(entries, entries[i].0) == i,
        lookup(entries, entries[i].0) == Some(entries[i].1),
{
    let name = entries[i].0;
    assert(has_name(entries, name));
    let p = position_of(entries, name);
    assert(0 <= p < entries.len() && entries[p].0 == name);
    if p < i {
        assert(entries[p].0 != entries[i].0);
    } else if i < p {
        assert(entries[i].0 != entries[p].0);
    }
}

/// A name maps to the same thing in two lists that agree on it: each list
/// holds at a position what the other holds there whenever either entry
/// bears the name.
pub proof fn lemma_lookup_agrees<T>(a: Seq<(Name, T)>, b: Seq<(Name, T)>, name: Name)
    requires
        names_distinct(a),
        names_distinct(b),
        a.len() == b.len(),
        forall|i: int| 0 <= i < a.len() && ((#[trigger] a[i]).0 == name || b[i].0 == name) ==> a[i] == b[i],
    ensures
        lookup(a, name) == lookup(b, name),
{
    if has_name(a, name) {
        let p = position_of(a, name);
        assert(a[p] == b[p]);
        lemma_lookup_at(b, p);
    } else if has_name(b, name) {
        let p = position_of(b, name);
        assert(a[p] == b[p]);
    }
}

/// Replacing the entry at a position, under the same name, changes what
/// that name maps to and nothing else.
pub proof fn lemma_lookup_update<T>(entries: Seq<(Name, T)>, i: int, value: T)
    requires
        names_distinct(entries),
        0 <= i < entries.len(),
    ensures
        names_distinct(entries.update(i, (entries[i].0, value))),
        lookup(entries.update(i, (entries[i].0, value)), entries[i].0) == Some(value),
        forall|other: Name|
            other != entries[i].0 ==> #[trigger] lookup(
                entries.update(i, (entries[i].0, value)),
                other,
            ) == lookup(entries, other),
{
    let name = entries[i].0;
    let updated = entries.update(i, (name, value));
    assert(names_distinct(updated)) by {
        assert forall|x: int, y: int| 0 <= x < y < updated.len() implies (#[trigger] updated[x]).0 != (
        #[trigger] updated[y]).0 by {
            assert(updated[x].0 == entries[x].0);
            assert(updated[y].0 == entries[y].0);
        }
    }
    lemma_lookup_at(updated, i);
    assert forall|other: Name| other != name implies #[trigger] lookup(updated, other) == lookup(
        entries,
        other,
    ) by {
        lemma_lookup_agrees(entries, updated, other);
    }
}

/// Appending an entry under a new name adds that name and changes nothing
/// else.
pub proof fn lemma_lookup_push<T>(entries: Seq<(Name, T)>, name: Name, value: T)
    requires
        names_distinct(entries),
        !has_name(entries, name),
    ensures
        names_distinct(entries.push((name, value))),
        lookup(entries.push((name, value)), name) == Some(value),
        forall|other: Name|
            other != name ==> #[trigger] lookup(entries.push((name, value)), other) == lookup(
                entries,
                other,
            ),
{
    let pushed = entries.push((name, value));
    assert(names_distinct(pushed)) by {
        assert forall|x: int, y: int| 0 <= x < y < pushed.len() implies (#[trigger] pushed[x]).0 != (
        #[trigger] pushed[y]).0 by {
            assert(pushed[x] == entries[x]);
            if y < entries.len() {
                assert(pushed[y] == entries[y]);
            }
        }
    }
    lemma_lookup_at(pushed, entries.len() as int);
    assert forall|other: Name| other != name implies #[trigger] lookup(pushed, other) == lookup(
        entries,
        other,
    ) by {
        if has_name(entries, other) {
            let p = position_of(entries, other);
            assert(pushed[p] == entries[p]);
            lemma_lookup_at(pushed, p);
        } else if has_name(pushed, other) {
            let p = position_of(pushed, other);
            assert(p < entries.len());
            assert(entries[p] == pushed[p]);
        }
    }
}

} // verus!
