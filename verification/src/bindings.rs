//! Names bound to values, held as a list in which a later entry of a name
//! stands before an earlier one.
use crate::ast::same_text;
use vstd::prelude::*;

verus! {

/// The map that a list of entries stands for.
pub open spec fn map_of<T: View>(entries: Seq<(String, T)>) -> Map<Seq<char>, T::V>
    decreases entries.len(),
{
    if entries.len() == 0 {
        Map::empty()
    } else {
        map_of(entries.drop_last()).insert(entries.last().0@, entries.last().1@)
    }
}

/// The last entry of a name is what the map holds for it.
pub proof fn lemma_map_of_found<T: View>(entries: Seq<(String, T)>, j: int, key: Seq<char>)
    requires
        0 <= j < entries.len(),
        entries[j].0@ == key,
        forall|k: int| j < k < entries.len() ==> (#[trigger] entries[k]).0@ != key,
    ensures
        map_of(entries).contains_key(key),
        map_of(entries)[key] == entries[j].1@,
    decreases entries.len(),
{
    if j < entries.len() - 1 {
        let rest = entries.drop_last();
        assert(entries.last().0@ != key);
        assert forall|k: int| j < k < rest.len() implies (#[trigger] rest[k]).0@ != key by {
            assert(rest[k] == entries[k]);
        }
        lemma_map_of_found(rest, j, key);
    }
}

/// A name with no entry is not in the map.
pub proof fn lemma_map_of_absent<T: View>(entries: Seq<(String, T)>, key: Seq<char>)
    requires
        forall|k: int| 0 <= k < entries.len() ==> (#[trigger] entries[k]).0@ != key,
    ensures
        !map_of(entries).contains_key(key),
    decreases entries.len(),
{
    if entries.len() > 0 {
        let rest = entries.drop_last();
        assert(entries.last().0@ != key);
        assert forall|k: int| 0 <= k < rest.len() implies (#[trigger] rest[k]).0@ != key by {
            assert(rest[k] == entries[k]);
        }
        lemma_map_of_absent(rest, key);
    }
}

/// Replacing the last entry of a name is an insertion into the map.
pub proof fn lemma_map_of_replaced<T: View>(
    entries: Seq<(String, T)>,
    j: int,
    entry: (String, T),
)
    requires
        0 <= j < entries.len(),
        entries[j].0@ == entry.0@,
        forall|k: int| j < k < entries.len() ==> (#[trigger] entries[k]).0@ != entry.0@,
    ensures
        map_of(entries.update(j, entry)) == map_of(entries).insert(entry.0@, entry.1@),
    decreases entries.len(),
{
    let changed = entries.update(j, entry);
    let rest = entries.drop_last();
    if j == entries.len() - 1 {
        assert(changed.drop_last() =~= rest);
        assert(map_of(changed) =~= map_of(entries).insert(entry.0@, entry.1@));
    } else {
        assert(entries.last().0@ != entry.0@);
        assert forall|k: int| j < k < rest.len() implies (#[trigger] rest[k]).0@ != entry.0@ by {
            assert(rest[k] == entries[k]);
        }
        lemma_map_of_replaced(rest, j, entry);
        assert(changed.drop_last() =~= rest.update(j, entry));
        assert(changed.last() == entries.last());
        assert(map_of(changed) =~= map_of(entries).insert(entry.0@, entry.1@));
    }
}

/// Where the last entry of a name stands, if the name has one.
pub fn position<T: View>(entries: &Vec<(String, T)>, key: &str) -> (r: Option<usize>)
    ensures
        match r {
            Some(j) => j < entries.len() && entries@[j as int].0@ == key@ && map_of(
                entries@,
            ).contains_key(key@) && map_of(entries@)[key@] == entries@[j as int].1@ && forall|
                k: int,
            |
                j < k < entries.len() ==> (#[trigger] entries@[k]).0@ != key@,
            None => !map_of(entries@).contains_key(key@),
        },
{
    let mut i: usize = entries.len();
    while i > 0
        invariant
            i <= entries.len(),
            forall|k: int| i <= k < entries.len() ==> (#[trigger] entries@[k]).0@ != key@,
        decreases i,
    {
        i -= 1;
        if same_text(entries[i].0.as_str(), key) {
            proof {
                lemma_map_of_found(entries@, i as int, key@);
            }
            return Some(i);
        }
    }
    proof {
        lemma_map_of_absent(entries@, key@);
    }
    None
}

/// The value bound to a name, if one is.
pub fn find<'a, T: View>(entries: &'a Vec<(String, T)>, key: &str) -> (r: Option<&'a T>)
    ensures
        match r {
            Some(v) => map_of(entries@).contains_key(key@) && map_of(entries@)[key@] == v@,
            None => !map_of(entries@).contains_key(key@),
        },
{
    match position(entries, key) {
        Some(j) => Some(&entries[j].1),
        None => None,
    }
}

/// Binds a name to a value, in place of what it was bound to.
pub fn put<T: View>(entries: &mut Vec<(String, T)>, key: String, value: T)
    ensures
        map_of(final(entries)@) == map_of(old(entries)@).insert(key@, value@),
{
    match position(entries, key.as_str()) {
        Some(j) => {
            proof {
                lemma_map_of_replaced(entries@, j as int, (key, value));
            }
            entries.set(j, (key, value));
        },
        None => {
            entries.push((key, value));
            assert(entries@.drop_last() =~= old(entries)@);
        },
    }
}

} // verus!
