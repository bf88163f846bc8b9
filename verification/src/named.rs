//! Lists of values that each stand under a name. A name is looked up from
//! the front: where a name stands twice, the first entry counts.

use vstd::prelude::*;

verus! {

/// The position of the first entry of `list` under `name`, or the length
/// of `list` where there is none.
pub open spec fn position_of<V>(list: Seq<(Seq<char>, V)>, name: Seq<char>) -> int
    decreases list.len(),
{
    if list.len() == 0 || list[0].0 == name {
        0
    } else {
        1 + position_of(list.drop_first(), name)
    }
}

/// The value that `list` holds under `name`, if it holds one.
pub open spec fn value_of<V>(list: Seq<(Seq<char>, V)>, name: Seq<char>) -> Option<V> {
    let p = position_of(list, name);
    if p < list.len() {
        Some(list[p].1)
    } else {
        None
    }
}

/// `list` with `value` under `name`: in place of the first entry of that
/// name, or at the end where there is none.
pub open spec fn with_value<V>(list: Seq<(Seq<char>, V)>, name: Seq<char>, value: V) -> Seq<
    (Seq<char>, V),
> {
    let p = position_of(list, name);
    if p < list.len() {
        list.update(p, (name, value))
    } else {
        list.push((name, value))
    }
}

/// The entries of a list of strings and values, as plain values.
pub open spec fn named<V>(list: Seq<(String, V)>) -> Seq<(Seq<char>, V)> {
    Seq::new(list.len(), |i: int| (list[i].0@, list[i].1))
}

/// The position of a name is within the list or at its end; no entry
/// before it has the name, and the entry at it has.
pub proof fn lemma_position_of<V>(list: Seq<(Seq<char>, V)>, name: Seq<char>)
    ensures
        0 <= position_of(list, name) <= list.len(),
        forall|j: int| 0 <= j < position_of(list, name) ==> (#[trigger] list[j]).0 != name,
        position_of(list, name) < list.len() ==> list[position_of(list, name)].0 == name,
    decreases list.len(),
{
    if list.len() == 0 || list[0].0 == name {
    } else {
        let rest = list.drop_first();
        lemma_position_of(rest, name);
        let p = position_of(rest, name);
        assert forall|j: int| 0 <= j < p + 1 implies (#[trigger] list[j]).0 != name by {
            if j > 0 {
                assert(list[j] == rest[j - 1]);
            }
        }
        if p < rest.len() {
            assert(list[p + 1] == rest[p]);
        }
    }
}

/// The first place at which a name stands is its position.
pub proof fn lemma_position_is<V>(list: Seq<(Seq<char>, V)>, name: Seq<char>, i: int)
    requires
        0 <= i <= list.len(),
        forall|j: int| 0 <= j < i ==> (#[trigger] list[j]).0 != name,
        i < list.len() ==> list[i].0 == name,
    ensures
        position_of(list, name) == i,
{
    lemma_position_of(list, name);
    let p = position_of(list, name);
    if p < i {
        assert(list[p].0 != name);
    } else if i < p {
        assert(list[i].0 != name);
    }
}

/// Where a name stands depends on the names alone.
pub proof fn lemma_same_positions<V, W>(
    a: Seq<(Seq<char>, V)>,
    b: Seq<(Seq<char>, W)>,
    name: Seq<char>,
)
    requires
        a.len() == b.len(),
        forall|i: int| 0 <= i < a.len() ==> (#[trigger] a[i]).0 == b[i].0,
    ensures
        position_of(a, name) == position_of(b, name),
{
    lemma_position_of(a, name);
    let p = position_of(a, name);
    assert forall|j: int| 0 <= j < p implies (#[trigger] b[j]).0 != name by {
        assert(a[j].0 != name);
    }
    if p < a.len() {
        assert(a[p].0 == b[p].0);
    }
    lemma_position_is(b, name, p);
}

/// After `value` was put under `name`, `name` holds `value` and every
/// other name holds what it held.
pub proof fn lemma_with_value<V>(
    list: Seq<(Seq<char>, V)>,
    name: Seq<char>,
    value: V,
    other: Seq<char>,
)
    ensures
        value_of(with_value(list, name, value), other) == if other == name {
            Some(value)
        } else {
            value_of(list, other)
        },
{
    lemma_position_of(list, name);
    lemma_position_of(list, other);
    let p = position_of(list, name);
    let q = position_of(list, other);
    let after = with_value(list, name, value);
    if other == name {
        assert forall|j: int| 0 <= j < p implies (#[trigger] after[j]).0 != name by {
            assert(after[j] == list[j]);
        }
        lemma_position_is(after, name, p);
    } else {
        assert forall|j: int| 0 <= j < q && j < after.len() implies (#[trigger] after[j]).0
            != other by {
            if j != p {
                assert(after[j] == list[j]);
            }
        }
        if q < list.len() {
            assert(after[q] == list[q]);
            lemma_position_is(after, other, q);
        } else {
            lemma_position_is(after, other, after.len() as int);
        }
    }
}

/// The position of `name` in `list`.
pub fn find<V>(list: &Vec<(String, V)>, name: &str) -> (position: usize)
    ensures
        position == position_of(named(list@), name@),
        position <= list@.len(),
{
    let ghost all = named(list@);
    let mut i: usize = 0;
    while i < list.len()
        invariant
            all == named(list@),
            i <= list@.len(),
            forall|j: int| 0 <= j < i ==> (#[trigger] all[j]).0 != name@,
        decreases list@.len() - i,
    {
        proof {
            assert(all[i as int].0 == list@[i as int].0@);
        }
        if list[i].0.as_str().eq(name) {
            proof {
                lemma_position_is(all, name@, i as int);
            }
            return i;
        }
        i += 1;
    }
    proof {
        lemma_position_is(all, name@, i as int);
    }
    i
}

} // verus!
