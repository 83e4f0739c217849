//! Structured metadata: the values that a note's leading block can hold.

use vstd::prelude::*;

verus! {

/// A value of a metadata block. A number is kept as its decimal text. The
/// entries of an object have distinct keys, and their order carries no
/// meaning.
#[derive(Debug, PartialEq, Eq)]
pub enum StructuredValue {
    Null,
    Bool(bool),
    Number(String),
    Text(String),
    Array(Vec<StructuredValue>),
    Object(Vec<(String, StructuredValue)>),
}

/// A structured value as a mathematical value.
pub enum ValueView {
    Null,
    Bool(bool),
    Number(Seq<char>),
    Text(Seq<char>),
    Array(Seq<ValueView>),
    Object(Seq<(Seq<char>, ValueView)>),
}

/// The items of an array, each by its view.
pub open spec fn items_view(items: Seq<StructuredValue>) -> Seq<ValueView>
    decreases items,
{
    if items.len() == 0 {
        Seq::empty()
    } else {
        items_view(items.drop_last()).push(items.last().view())
    }
}

/// The entries of an object, each value by its view.
pub open spec fn entries_view(entries: Seq<(String, StructuredValue)>) -> Seq<(Seq<char>, ValueView)>
    decreases entries,
{
    if entries.len() == 0 {
        Seq::empty()
    } else {
        entries_view(entries.drop_last()).push((entries.last().0@, entries.last().1.view()))
    }
}

impl View for StructuredValue {
    type V = ValueView;

    open spec fn view(&self) -> ValueView
        decreases self,
    {
        match self {
            StructuredValue::Null => ValueView::Null,
            StructuredValue::Bool(b) => ValueView::Bool(*b),
            StructuredValue::Number(t) => ValueView::Number(t@),
            StructuredValue::Text(t) => ValueView::Text(t@),
            StructuredValue::Array(items) => ValueView::Array(items_view(items@)),
            StructuredValue::Object(entries) => ValueView::Object(entries_view(entries@)),
        }
    }
}

/// `items_view` goes item by item.
pub proof fn lemma_items_view(items: Seq<StructuredValue>)
    ensures
        items_view(items).len() == items.len(),
        forall|i: int| 0 <= i < items.len() ==> #[trigger] items_view(items)[i] == items[i]@,
    decreases items.len(),
{
    if items.len() > 0 {
        lemma_items_view(items.drop_last());
        assert(items_view(items) == items_view(items.drop_last()).push(items.last()@));
    } else {
        assert(items_view(items) == Seq::<ValueView>::empty());
    }
}

/// `entries_view` goes entry by entry.
pub proof fn lemma_entries_view(entries: Seq<(String, StructuredValue)>)
    ensures
        entries_view(entries).len() == entries.len(),
        forall|i: int|
            0 <= i < entries.len() ==> #[trigger] entries_view(entries)[i] == (
                entries[i].0@,
                entries[i].1@,
            ),
    decreases entries.len(),
{
    if entries.len() > 0 {
        lemma_entries_view(entries.drop_last());
        assert(entries_view(entries) == entries_view(entries.drop_last()).push(
            (entries.last().0@, entries.last().1@),
        ));
    } else {
        assert(entries_view(entries) == Seq::<(Seq<char>, ValueView)>::empty());
    }
}

/// No two entries have the same key.
pub open spec fn distinct_keys(entries: Seq<(Seq<char>, ValueView)>) -> bool {
    forall|i: int, j: int|
        0 <= i < j < entries.len() ==> (#[trigger] entries[i]).0 != (#[trigger] entries[j]).0
}

/// The invariant of a structured value: in every object, at any depth, the
/// keys are distinct.
pub open spec fn well_formed(v: ValueView) -> bool
    decreases v,
{
    match v {
        ValueView::Array(items) => forall|i: int|
            0 <= i < items.len() ==> well_formed(#[trigger] items[i]),
        ValueView::Object(entries) => distinct_keys(entries) && forall|i: int|
            0 <= i < entries.len() ==> well_formed((#[trigger] entries[i]).1),
        _ => true,
    }
}

/// Whether `i` is the place of the entry with this key.
pub open spec fn is_key_at(entries: Seq<(Seq<char>, ValueView)>, key: Seq<char>, i: int) -> bool {
    0 <= i < entries.len() && entries[i].0 == key && forall|j: int|
        0 <= j < i ==> (#[trigger] entries[j]).0 != key
}

/// The place of the first entry with this key, if there is one.
pub open spec fn key_index(entries: Seq<(Seq<char>, ValueView)>, key: Seq<char>) -> Option<int> {
    if exists|i: int| is_key_at(entries, key, i) {
        Some(choose|i: int| is_key_at(entries, key, i))
    } else {
        None
    }
}

/// The value that an object holds under a key, if it holds one.
pub open spec fn lookup(entries: Seq<(Seq<char>, ValueView)>, key: Seq<char>) -> Option<ValueView> {
    match key_index(entries, key) {
        Some(i) => Some(entries[i].1),
        None => None,
    }
}

/// The entries with `value` under `key`: in the place of the entry that had
/// the key, or at the end where none had it.
pub open spec fn set_entry(
    entries: Seq<(Seq<char>, ValueView)>,
    key: Seq<char>,
    value: ValueView,
) -> Seq<(Seq<char>, ValueView)> {
    match key_index(entries, key) {
        Some(i) => entries.update(i, (key, value)),
        None => entries.push((key, value)),
    }
}

/// There is one first place at most.
pub proof fn lemma_key_index_found(entries: Seq<(Seq<char>, ValueView)>, key: Seq<char>, i: int)
    requires
        is_key_at(entries, key, i),
    ensures
        key_index(entries, key) == Some(i),
{
    let c = choose|c: int| is_key_at(entries, key, c);
    assert(is_key_at(entries, key, c));
    if c < i {
        assert(entries[c].0 != key);
    } else if i < c {
        assert(entries[i].0 != key);
    }
}

/// After `set_entry` the key holds the value, every other key holds what it
/// held, and distinct keys stay distinct.
pub proof fn lemma_set_entry(
    entries: Seq<(Seq<char>, ValueView)>,
    key: Seq<char>,
    value: ValueView,
    other: Seq<char>,
)
    ensures
        lookup(set_entry(entries, key, value), key) == Some(value),
        other != key ==> lookup(set_entry(entries, key, value), other) == lookup(entries, other),
        distinct_keys(entries) ==> distinct_keys(set_entry(entries, key, value)),
{
    let after = set_entry(entries, key, value);
    match key_index(entries, key) {
        Some(i) => {
            assert(is_key_at(entries, key, i));
            assert forall|j: int| 0 <= j < i implies (#[trigger] after[j]).0 != key by {
                assert(after[j] == entries[j]);
            }
            lemma_key_index_found(after, key, i);
        },
        None => {
            assert forall|j: int| 0 <= j < entries.len() implies (#[trigger] after[j]).0 != key by {
                assert(after[j] == entries[j]);
                if entries[j].0 == key {
                    lemma_first_key(entries, key, j);
                }
            }
            lemma_key_index_found(after, key, entries.len() as int);
        },
    }
    if other != key {
        assert forall|j: int| 0 <= j < entries.len() implies ((#[trigger] after[j]).0 == other
            <==> entries[j].0 == other) && (entries[j].0 == other ==> after[j].1 == entries[j].1) by {
            if key_index(entries, key) == Some(j) {
            } else {
                assert(after[j] == entries[j]);
            }
        }
        match key_index(entries, other) {
            Some(k) => {
                assert(is_key_at(entries, other, k));
                assert forall|j: int| 0 <= j < k implies (#[trigger] after[j]).0 != other by {
                    assert(entries[j].0 != other);
                }
                assert(after[k].0 == other);
                lemma_key_index_found(after, other, k);
            },
            None => {
                if key_index(after, other) is Some {
                    let k = key_index(after, other)->0;
                    assert(is_key_at(after, other, k));
                    assert(k < entries.len());
                    assert(entries[k].0 == other);
                    lemma_first_key(entries, other, k);
                }
            },
        }
    }
    if distinct_keys(entries) {
        assert forall|a: int, b: int| 0 <= a < b < after.len() implies (#[trigger] after[a]).0 != (
        #[trigger] after[b]).0 by {
            match key_index(entries, key) {
                Some(i) => {
                    assert(entries[a].0 != entries[b].0);
                    assert(after[a].0 == entries[a].0);
                    assert(after[b].0 == entries[b].0);
                },
                None => {
                    if b < entries.len() {
                        assert(entries[a].0 != entries[b].0);
                    } else {
                        assert(after[a] == entries[a]);
                        if entries[a].0 == key {
                            lemma_first_key(entries, key, a);
                        }
                    }
                },
            }
        }
    }
}

/// Where some entry has the key, there is a first one.
pub proof fn lemma_first_key(entries: Seq<(Seq<char>, ValueView)>, key: Seq<char>, at: int)
    requires
        0 <= at < entries.len(),
        entries[at].0 == key,
    ensures
        key_index(entries, key) is Some,
    decreases at,
{
    if forall|j: int| 0 <= j < at ==> (#[trigger] entries[j]).0 != key {
        assert(is_key_at(entries, key, at));
    } else {
        let j = choose|j: int| 0 <= j < at && (#[trigger] entries[j]).0 == key;
        lemma_first_key(entries, key, j);
    }
}

impl StructuredValue {
    /// An object without entries.
    pub fn empty_object() -> (r: StructuredValue)
        ensures
            r@ == ValueView::Object(Seq::empty()),
            well_formed(r@),
    {
        let entries: Vec<(String, StructuredValue)> = Vec::new();
        proof {
            lemma_entries_view(entries@);
            assert(entries_view(entries@) =~= Seq::empty());
        }
        StructuredValue::Object(entries)
    }
}

/// Finds the first entry with this key.
pub fn find_key(entries: &Vec<(String, StructuredValue)>, key: &String) -> (r: Option<usize>)
    ensures
        match r {
            Some(i) => key_index(entries_view(entries@), key@) == Some(i as int) && i < entries.len(),
            None => key_index(entries_view(entries@), key@) is None,
        },
{
    let ghost all = entries_view(entries@);
    proof {
        lemma_entries_view(entries@);
    }
    let mut i: usize = 0;
    while i < entries.len()
        invariant
            i <= entries.len(),
            all == entries_view(entries@),
            all.len() == entries@.len(),
            forall|j: int| 0 <= j < entries@.len() ==> (#[trigger] all[j]).0 == entries@[j].0@,
            forall|j: int| 0 <= j < i ==> (#[trigger] all[j]).0 != key@,
        decreases entries.len() - i,
    {
        if entries[i].0 == *key {
            proof {
                lemma_key_index_found(all, key@, i as int);
            }
            return Some(i);
        }
        i += 1;
    }
    proof {
        if key_index(all, key@) is Some {
            let k = key_index(all, key@)->0;
            assert(is_key_at(all, key@, k));
        }
    }
    None
}

/// Puts a value under a key of an object: in the place of the entry that had
/// the key, or at the end where none had it.
pub fn put_entry(entries: &mut Vec<(String, StructuredValue)>, key: String, value: StructuredValue)
    ensures
        entries_view(final(entries)@) == set_entry(entries_view(old(entries)@), key@, value@),
{
    let ghost before = entries@;
    let found = find_key(entries, &key);
    proof {
        lemma_entries_view(before);
    }
    match found {
        Some(i) => {
            entries.set(i, (key, value));
            proof {
                lemma_entries_view(entries@);
                assert(entries_view(entries@) =~= entries_view(before).update(i as int, (key@, value@)));
            }
        },
        None => {
            entries.push((key, value));
            proof {
                lemma_entries_view(entries@);
                assert(entries_view(entries@) =~= entries_view(before).push((key@, value@)));
            }
        },
    }
}

} // verus!
