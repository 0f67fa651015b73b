use crate::order::{lemma_name_before_total, lemma_name_before_transitive, name_before};
use vstd::prelude::*;

verus! {

/// The fields of a header table as plain values: each a name with its
/// values, in the order in which the table holds them.
pub type Fields = Seq<(Seq<char>, Seq<Seq<char>>)>;

/// The texts of a sequence of strings.
pub open spec fn texts(strings: Seq<String>) -> Seq<Seq<char>> {
    Seq::new(strings.len(), |i: int| strings[i]@)
}

/// Whether the names of the fields ascend strictly.
pub open spec fn sorted(fields: Fields) -> bool {
    forall|i: int, j: int|
        0 <= i < j < fields.len() ==> name_before(#[trigger] fields[i].0, #[trigger] fields[j].0)
}

/// Whether the fields are those of a header table: names ascend strictly,
/// no name is empty, and every name has at least one value.
pub open spec fn well_formed(fields: Fields) -> bool {
    &&& sorted(fields)
    &&& forall|i: int| 0 <= i < fields.len() ==> (#[trigger] fields[i]).0.len() > 0
    &&& forall|i: int| 0 <= i < fields.len() ==> (#[trigger] fields[i]).1.len() > 0
}

/// The number of leading fields whose names are sorted before `name`: the
/// place of `name` among sorted fields.
pub open spec fn rank(fields: Fields, name: Seq<char>) -> nat
    decreases fields.len(),
{
    if fields.len() == 0 || !name_before(fields[0].0, name) {
        0
    } else {
        1 + rank(fields.drop_first(), name)
    }
}

/// Whether sorted fields hold the name.
pub open spec fn holds(fields: Fields, name: Seq<char>) -> bool {
    rank(fields, name) < fields.len() && fields[rank(fields, name) as int].0 == name
}

/// The values that sorted fields have under the name, if they hold it.
pub open spec fn values_of(fields: Fields, name: Seq<char>) -> Option<Seq<Seq<char>>> {
    if holds(fields, name) {
        Some(fields[rank(fields, name) as int].1)
    } else {
        None
    }
}

/// Sorted fields after one value was appended to those of `name`, which is
/// put in at its place if the fields did not hold it.
pub open spec fn added(fields: Fields, name: Seq<char>, value: Seq<char>) -> Fields {
    let at = rank(fields, name) as int;
    if holds(fields, name) {
        fields.update(at, (name, fields[at].1.push(value)))
    } else {
        fields.insert(at, (name, seq![value]))
    }
}

/// Sorted fields after the values of `name` were replaced, or `name` was put
/// in at its place with these values.
pub open spec fn replaced(fields: Fields, name: Seq<char>, values: Seq<Seq<char>>) -> Fields {
    let at = rank(fields, name) as int;
    if holds(fields, name) {
        fields.update(at, (name, values))
    } else {
        fields.insert(at, (name, values))
    }
}

/// Sorted fields without `name`.
pub open spec fn removed(fields: Fields, name: Seq<char>) -> Fields {
    if holds(fields, name) {
        fields.remove(rank(fields, name) as int)
    } else {
        fields
    }
}

/// An index up to which every name is sorted before `name`, and which is
/// the end of the fields or holds a name that is not, is the rank.
pub proof fn lemma_rank_is(fields: Fields, name: Seq<char>, k: nat)
    requires
        k <= fields.len(),
        forall|i: int| 0 <= i < k ==> name_before(#[trigger] fields[i].0, name),
        k == fields.len() || !name_before(fields[k as int].0, name),
    ensures
        rank(fields, name) == k,
    decreases fields.len(),
{
    if k > 0 {
        let rest = fields.drop_first();
        assert(name_before(fields[0].0, name));
        assert forall|i: int| 0 <= i < k - 1 implies name_before(#[trigger] rest[i].0, name) by {
            assert(rest[i] == fields[i + 1]);
        }
        lemma_rank_is(rest, name, (k - 1) as nat);
    }
}

/// The rank lies within the fields, and every name before it is sorted
/// before `name`.
pub proof fn lemma_rank_bounds(fields: Fields, name: Seq<char>)
    ensures
        rank(fields, name) <= fields.len(),
        forall|i: int| 0 <= i < rank(fields, name) ==> name_before(#[trigger] fields[i].0, name),
        rank(fields, name) < fields.len() ==> !name_before(
            fields[rank(fields, name) as int].0,
            name,
        ),
    decreases fields.len(),
{
    if fields.len() == 0 || !name_before(fields[0].0, name) {
    } else {
        let rest = fields.drop_first();
        lemma_rank_bounds(rest, name);
        assert forall|i: int| 0 <= i < rank(fields, name) implies name_before(
            #[trigger] fields[i].0,
            name,
        ) by {
            if i > 0 {
                assert(fields[i] == rest[i - 1]);
            }
        }
    }
}

/// In sorted fields the rank of `name` parts the names sorted before it
/// from the rest: from it on every name is `name` itself, which only the
/// field at the rank can be, or is sorted after `name`.
pub proof fn lemma_rank_parts(fields: Fields, name: Seq<char>)
    requires
        sorted(fields),
    ensures
        rank(fields, name) <= fields.len(),
        forall|i: int| 0 <= i < rank(fields, name) ==> name_before(#[trigger] fields[i].0, name),
        forall|i: int|
            rank(fields, name) <= i < fields.len() ==> (#[trigger] fields[i]).0 == name
                || name_before(fields[i].0, name) == false && name_before(name, fields[i].0),
        forall|i: int|
            0 <= i < fields.len() && (#[trigger] fields[i]).0 == name ==> i == rank(fields, name),
{
    lemma_rank_bounds(fields, name);
    let at = rank(fields, name) as int;
    assert forall|i: int| at <= i < fields.len() implies (#[trigger] fields[i]).0 == name || (
    name_before(fields[i].0, name) == false && name_before(name, fields[i].0)) by {
        lemma_name_before_total(fields[at].0, name);
        lemma_name_before_total(fields[i].0, name);
        if i > at {
            assert(name_before(fields[at].0, fields[i].0));
            if fields[at].0 != name {
                lemma_name_before_transitive(name, fields[at].0, fields[i].0);
            }
            lemma_name_before_total(name, fields[i].0);
        }
    }
    assert forall|i: int| 0 <= i < fields.len() && (#[trigger] fields[i]).0 == name implies i
        == at by {
        lemma_name_before_total(name, name);
        if i > at {
            lemma_name_before_total(fields[at].0, name);
            assert(name_before(fields[at].0, fields[i].0));
        }
    }
}

/// Appending a value keeps fields sorted, and well formed if they were and
/// the name is not empty.
pub proof fn lemma_added_sorted(fields: Fields, name: Seq<char>, value: Seq<char>)
    requires
        sorted(fields),
    ensures
        sorted(added(fields, name, value)),
        well_formed(fields) && name.len() > 0 ==> well_formed(added(fields, name, value)),
{
    lemma_replaced_sorted(
        fields,
        name,
        if holds(fields, name) {
            fields[rank(fields, name) as int].1.push(value)
        } else {
            seq![value]
        },
    );
}

/// Replacing the values of a name keeps fields sorted, and well formed if
/// they were, the name is not empty and there is one value or more.
pub proof fn lemma_replaced_sorted(fields: Fields, name: Seq<char>, values: Seq<Seq<char>>)
    requires
        sorted(fields),
    ensures
        sorted(replaced(fields, name, values)),
        well_formed(fields) && name.len() > 0 && values.len() > 0 ==> well_formed(
            replaced(fields, name, values),
        ),
{
    lemma_rank_parts(fields, name);
    let at = rank(fields, name) as int;
    let after = replaced(fields, name, values);
    if holds(fields, name) {
        assert forall|i: int, j: int| 0 <= i < j < after.len() implies name_before(
            #[trigger] after[i].0,
            #[trigger] after[j].0,
        ) by {
            assert(after[i].0 == fields[i].0);
            assert(after[j].0 == fields[j].0);
        }
    } else {
        assert forall|i: int, j: int| 0 <= i < j < after.len() implies name_before(
            #[trigger] after[i].0,
            #[trigger] after[j].0,
        ) by {
            if j < at {
                assert(after[i] == fields[i] && after[j] == fields[j]);
            } else if j == at {
                assert(after[i] == fields[i]);
            } else if i < at {
                assert(after[i] == fields[i] && after[j] == fields[j - 1]);
            } else if i == at {
                assert(after[j] == fields[j - 1]);
            } else {
                assert(after[i] == fields[i - 1] && after[j] == fields[j - 1]);
            }
        }
    }
    if well_formed(fields) && name.len() > 0 && values.len() > 0 {
        assert forall|i: int| 0 <= i < after.len() implies (#[trigger] after[i]).0.len() > 0
            && after[i].1.len() > 0 by {
            if holds(fields, name) {
                if i != at {
                    assert(after[i] == fields[i]);
                }
            } else if i < at {
                assert(after[i] == fields[i]);
            } else if i > at {
                assert(after[i] == fields[i - 1]);
            }
        }
    }
}

/// Taking a name out keeps fields sorted, and well formed if they were.
pub proof fn lemma_removed_sorted(fields: Fields, name: Seq<char>)
    requires
        sorted(fields),
    ensures
        sorted(removed(fields, name)),
        well_formed(fields) ==> well_formed(removed(fields, name)),
{
    let at = rank(fields, name) as int;
    let after = removed(fields, name);
    if holds(fields, name) {
        assert forall|i: int| 0 <= i < after.len() implies #[trigger] after[i] == fields[if i
            < at {
            i
        } else {
            i + 1
        }] by {}
        assert forall|i: int, j: int| 0 <= i < j < after.len() implies name_before(
            #[trigger] after[i].0,
            #[trigger] after[j].0,
        ) by {
            let fi = if i < at { i } else { i + 1 };
            let fj = if j < at { j } else { j + 1 };
            assert(after[i] == fields[fi] && after[j] == fields[fj]);
        }
    }
}

/// In sorted fields the values under the name of a field are the values
/// of that field.
pub proof fn lemma_values_of_field(fields: Fields, i: int)
    requires
        sorted(fields),
        0 <= i < fields.len(),
    ensures
        rank(fields, fields[i].0) == i,
        values_of(fields, fields[i].0) == Some(fields[i].1),
{
    lemma_rank_parts(fields, fields[i].0);
}

/// Sorted fields have values under a name only if a field has the name.
pub proof fn lemma_values_of_none(fields: Fields, name: Seq<char>)
    requires
        forall|i: int| 0 <= i < fields.len() ==> (#[trigger] fields[i]).0 != name,
    ensures
        values_of(fields, name) is None,
{
    lemma_rank_bounds(fields, name);
}

/// After a value was appended under a name, the name has the values it had
/// and the new one behind them, and every other name has the values it
/// had.
pub proof fn lemma_values_of_added(
    fields: Fields,
    name: Seq<char>,
    value: Seq<char>,
    other: Seq<char>,
)
    requires
        sorted(fields),
    ensures
        values_of(added(fields, name, value), name) == Some(
            match values_of(fields, name) {
                Some(values) => values.push(value),
                None => seq![value],
            },
        ),
        other != name ==> values_of(added(fields, name, value), other) == values_of(
            fields,
            other,
        ),
{
    let values = match values_of(fields, name) {
        Some(values) => values.push(value),
        None => seq![value],
    };
    lemma_values_of_replaced(fields, name, values, other);
}

/// After the values of a name were replaced, the name has the new values,
/// and every other name has the values it had.
pub proof fn lemma_values_of_replaced(
    fields: Fields,
    name: Seq<char>,
    values: Seq<Seq<char>>,
    other: Seq<char>,
)
    requires
        sorted(fields),
    ensures
        values_of(replaced(fields, name, values), name) == Some(values),
        other != name ==> values_of(replaced(fields, name, values), other) == values_of(
            fields,
            other,
        ),
{
    let after = replaced(fields, name, values);
    let at = rank(fields, name) as int;
    lemma_rank_bounds(fields, name);
    lemma_replaced_sorted(fields, name, values);
    assert(after[at] == (name, values));
    lemma_values_of_field(after, at);
    if other != name {
        if exists|j: int| 0 <= j < fields.len() && (#[trigger] fields[j]).0 == other {
            let j = choose|j: int| 0 <= j < fields.len() && (#[trigger] fields[j]).0 == other;
            lemma_values_of_field(fields, j);
            let k = if holds(fields, name) || j < at {
                j
            } else {
                j + 1
            };
            assert(after[k] == fields[j]);
            lemma_values_of_field(after, k);
        } else {
            lemma_values_of_none(fields, other);
            assert forall|k: int| 0 <= k < after.len() implies (#[trigger] after[k]).0
                != other by {
                if k != at {
                    let j = if holds(fields, name) || k < at {
                        k
                    } else {
                        k - 1
                    };
                    assert(after[k] == fields[j]);
                }
            }
            lemma_values_of_none(after, other);
        }
    }
}

/// After a name was taken out, it has no values, and every other name has
/// the values it had.
pub proof fn lemma_values_of_removed(fields: Fields, name: Seq<char>, other: Seq<char>)
    requires
        sorted(fields),
    ensures
        values_of(removed(fields, name), name) is None,
        other != name ==> values_of(removed(fields, name), other) == values_of(fields, other),
{
    let after = removed(fields, name);
    let at = rank(fields, name) as int;
    lemma_rank_parts(fields, name);
    lemma_removed_sorted(fields, name);
    assert forall|k: int| 0 <= k < after.len() implies (#[trigger] after[k]).0 != name by {
        if holds(fields, name) {
            let j = if k < at {
                k
            } else {
                k + 1
            };
            assert(after[k] == fields[j]);
        }
    }
    lemma_values_of_none(after, name);
    if other != name && holds(fields, name) {
        if exists|j: int| 0 <= j < fields.len() && (#[trigger] fields[j]).0 == other {
            let j = choose|j: int| 0 <= j < fields.len() && (#[trigger] fields[j]).0 == other;
            lemma_values_of_field(fields, j);
            let k = if j < at {
                j
            } else {
                j - 1
            };
            assert(after[k] == fields[j]);
            lemma_values_of_field(after, k);
        } else {
            lemma_values_of_none(fields, other);
            assert forall|k: int| 0 <= k < after.len() implies (#[trigger] after[k]).0
                != other by {
                let j = if k < at {
                    k
                } else {
                    k + 1
                };
                assert(after[k] == fields[j]);
            }
            lemma_values_of_none(after, other);
        }
    }
}

} // verus!
