//! What adding and replacing header fields does to the values under each name.

use vstd::prelude::*;

use crate::header::{
    fields_of, group_fields, group_index, groups_wf, lemma_group_index, values_of, with_added,
    with_replaced,
};
use crate::text::same_ignoring_case;

verus! {

/// The first group with the name is the one that is found.
proof fn lemma_group_index_is(
    groups: Seq<(Seq<char>, Seq<Seq<char>>)>,
    name: Seq<char>,
    i: int,
)
    requires
        0 <= i < groups.len(),
        same_ignoring_case(groups[i].0, name),
        forall|j: int| 0 <= j < i ==> !same_ignoring_case((#[trigger] groups[j]).0, name),
    ensures
        group_index(groups, name) == Some(i),
{
    lemma_group_index(groups, name);
    match group_index(groups, name) {
        None => assert(!same_ignoring_case(groups[i].0, name)),
        Some(k) => assert(!(k < i) && !(i < k)) by {
            assert(same_ignoring_case(groups[k].0, name));
            assert(same_ignoring_case(groups[i].0, name));
        },
    }
}

/// Where no group has the name, none is found.
proof fn lemma_group_index_is_none(groups: Seq<(Seq<char>, Seq<Seq<char>>)>, name: Seq<char>)
    requires
        forall|j: int| 0 <= j < groups.len() ==> !same_ignoring_case((#[trigger] groups[j]).0, name),
    ensures
        group_index(groups, name) is None,
{
    lemma_group_index(groups, name);
}

/// To be the same without regard to case goes both ways, and on to a third text.
proof fn lemma_same(a: Seq<char>, b: Seq<char>, c: Seq<char>)
    ensures
        same_ignoring_case(a, a),
        same_ignoring_case(a, b) ==> same_ignoring_case(b, a),
        same_ignoring_case(a, b) && same_ignoring_case(b, c) ==> same_ignoring_case(a, c),
{
}

/// A change that keeps every name, or appends a group with a new one, finds the
/// same groups as before.
proof fn lemma_index_after(
    groups: Seq<(Seq<char>, Seq<Seq<char>>)>,
    after: Seq<(Seq<char>, Seq<Seq<char>>)>,
    added: Seq<char>,
    name: Seq<char>,
)
    requires
        forall|j: int| 0 <= j < groups.len() ==> (#[trigger] after[j]).0 == groups[j].0,
        group_index(groups, added) is Some ==> after.len() == groups.len(),
        group_index(groups, added) is None ==> after.len() == groups.len() + 1
            && after.last().0 == added,
    ensures
        group_index(after, name) == (match group_index(groups, name) {
            Some(i) => Some(i),
            None => if group_index(groups, added) is None && same_ignoring_case(added, name) {
                Some(groups.len() as int)
            } else {
                None
            },
        }),
{
    lemma_group_index(groups, name);
    lemma_group_index(groups, added);
    match group_index(groups, name) {
        Some(i) => {
            assert forall|j: int| 0 <= j < i implies !same_ignoring_case(
                (#[trigger] after[j]).0,
                name,
            ) by {
                assert(!same_ignoring_case(groups[j].0, name));
            }
            lemma_group_index_is(after, name, i);
        },
        None => {
            if group_index(groups, added) is None && same_ignoring_case(added, name) {
                assert forall|j: int| 0 <= j < groups.len() implies !same_ignoring_case(
                    (#[trigger] after[j]).0,
                    name,
                ) by {
                    assert(!same_ignoring_case(groups[j].0, name));
                }
                lemma_group_index_is(after, name, groups.len() as int);
            } else {
                assert forall|j: int| 0 <= j < after.len() implies !same_ignoring_case(
                    (#[trigger] after[j]).0,
                    name,
                ) by {
                    if j < groups.len() {
                        assert(!same_ignoring_case(groups[j].0, name));
                    }
                }
                lemma_group_index_is_none(after, name);
            }
        },
    }
}

/// Names that are the same without regard to case find the same group.
proof fn lemma_same_index(
    groups: Seq<(Seq<char>, Seq<Seq<char>>)>,
    a: Seq<char>,
    b: Seq<char>,
)
    requires
        same_ignoring_case(a, b),
    ensures
        group_index(groups, a) == group_index(groups, b),
{
    lemma_group_index(groups, a);
    assert forall|j: int| 0 <= j < groups.len() implies same_ignoring_case(
        (#[trigger] groups[j]).0,
        a,
    ) == same_ignoring_case(groups[j].0, b) by {
        lemma_same(groups[j].0, a, b);
        lemma_same(a, b, a);
        lemma_same(groups[j].0, b, a);
    }
    match group_index(groups, a) {
        Some(i) => {
            assert(same_ignoring_case(groups[i].0, b));
            lemma_group_index_is(groups, b, i);
        },
        None => lemma_group_index_is_none(groups, b),
    }
}

/// Adding a field appends its value to those under its name, and leaves the values
/// under every other name as they are.
pub proof fn law_added_values(
    groups: Seq<(Seq<char>, Seq<Seq<char>>)>,
    field: (Seq<char>, Seq<char>),
    name: Seq<char>,
)
    ensures
        values_of(with_added(groups, field), name) == if same_ignoring_case(field.0, name) {
            values_of(groups, name).push(field.1)
        } else {
            values_of(groups, name)
        },
{
    let after = with_added(groups, field);
    lemma_group_index(groups, field.0);
    lemma_group_index(groups, name);
    lemma_index_after(groups, after, field.0, name);
    if same_ignoring_case(field.0, name) {
        lemma_same_index(groups, field.0, name);
        if group_index(groups, name) is None {
            assert(seq![field.1] =~= Seq::<Seq<char>>::empty().push(field.1));
        }
    } else if let Some(i) = group_index(groups, name) {
        if group_index(groups, field.0) == Some(i) {
            lemma_same(groups[i].0, field.0, name);
            lemma_same(field.0, groups[i].0, name);
        }
    }
}

/// Replacing a field leaves its value alone under its name, and the values under
/// every other name as they are.
pub proof fn law_replaced_values(
    groups: Seq<(Seq<char>, Seq<Seq<char>>)>,
    field: (Seq<char>, Seq<char>),
    name: Seq<char>,
)
    ensures
        values_of(with_replaced(groups, field), name) == if same_ignoring_case(field.0, name) {
            seq![field.1]
        } else {
            values_of(groups, name)
        },
{
    let after = with_replaced(groups, field);
    lemma_group_index(groups, field.0);
    lemma_group_index(groups, name);
    lemma_index_after(groups, after, field.0, name);
    if same_ignoring_case(field.0, name) {
        lemma_same_index(groups, field.0, name);
    } else if let Some(i) = group_index(groups, name) {
        if group_index(groups, field.0) == Some(i) {
            lemma_same(groups[i].0, field.0, name);
            lemma_same(field.0, groups[i].0, name);
        }
    }
}

/// The groups after all the fields were added, one after the other.
pub open spec fn with_all_added(
    groups: Seq<(Seq<char>, Seq<Seq<char>>)>,
    fields: Seq<(Seq<char>, Seq<char>)>,
) -> Seq<(Seq<char>, Seq<Seq<char>>)>
    decreases fields.len(),
{
    if fields.len() == 0 {
        groups
    } else {
        with_added(with_all_added(groups, fields.drop_last()), fields.last())
    }
}

/// Fields that are added in two goes are added as in one.
pub proof fn lemma_all_added_concat(
    groups: Seq<(Seq<char>, Seq<Seq<char>>)>,
    first: Seq<(Seq<char>, Seq<char>)>,
    then: Seq<(Seq<char>, Seq<char>)>,
)
    ensures
        with_all_added(groups, first + then) == with_all_added(with_all_added(groups, first), then),
    decreases then.len(),
{
    if then.len() == 0 {
        assert(first + then =~= first);
    } else {
        lemma_all_added_concat(groups, first, then.drop_last());
        assert((first + then).drop_last() =~= first + then.drop_last());
        assert((first + then).last() == then.last());
    }
}

/// Adding the fields of one group appends the group.
proof fn lemma_group_added(
    groups: Seq<(Seq<char>, Seq<Seq<char>>)>,
    group: (Seq<char>, Seq<Seq<char>>),
)
    requires
        group.1.len() > 0,
        forall|j: int|
            0 <= j < groups.len() ==> !same_ignoring_case((#[trigger] groups[j]).0, group.0),
    ensures
        with_all_added(groups, group_fields(group)) == groups.push(group),
    decreases group.1.len(),
{
    let fields = group_fields(group);
    let fewer = (group.0, group.1.drop_last());
    assert(fields.drop_last() =~= group_fields(fewer));
    if group.1.len() == 1 {
        assert(group_fields(fewer) =~= Seq::empty());
        assert(with_all_added(groups, fields.drop_last()) == groups);
        lemma_group_index_is_none(groups, group.0);
        assert(seq![group.1.last()] =~= group.1);
    } else {
        lemma_group_added(groups, fewer);
        let before = groups.push(fewer);
        lemma_same(group.0, group.0, group.0);
        assert forall|j: int| 0 <= j < groups.len() implies !same_ignoring_case(
            (#[trigger] before[j]).0,
            group.0,
        ) by {
            assert(before[j] == groups[j]);
        }
        lemma_group_index_is(before, group.0, groups.len() as int);
        assert(fewer.1.push(group.1.last()) =~= group.1);
        assert(before.update(groups.len() as int, group) =~= groups.push(group));
    }
}

/// A header map is what comes of adding its fields one after the other.
pub proof fn law_fields_make_the_map(groups: Seq<(Seq<char>, Seq<Seq<char>>)>)
    requires
        groups_wf(groups),
    ensures
        with_all_added(Seq::empty(), fields_of(groups)) == groups,
    decreases groups.len(),
{
    if groups.len() == 0 {
        assert(groups =~= Seq::empty());
    } else {
        let front = groups.drop_last();
        assert forall|i: int| 0 <= i < front.len() implies (#[trigger] front[i]).1.len() > 0 by {
            assert(groups[i].1.len() > 0);
        }
        assert forall|i: int, j: int| 0 <= i < j < front.len() implies !same_ignoring_case(
            (#[trigger] front[i]).0,
            (#[trigger] front[j]).0,
        ) by {
            assert(!same_ignoring_case(groups[i].0, groups[j].0));
        }
        law_fields_make_the_map(front);
        lemma_all_added_concat(Seq::empty(), fields_of(front), group_fields(groups.last()));
        assert forall|j: int| 0 <= j < front.len() implies !same_ignoring_case(
            (#[trigger] front[j]).0,
            groups.last().0,
        ) by {
            assert(!same_ignoring_case(groups[j].0, groups[groups.len() - 1].0));
        }
        lemma_group_added(front, groups.last());
        assert(front.push(groups.last()) =~= groups);
    }
}

} // verus!
