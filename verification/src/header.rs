//! Header fields, and the header map of Rocket that holds those of one section.

use rocket::http::HeaderMap;
use vstd::prelude::*;

use crate::text::same_ignoring_case;

verus! {

/// A header field: a name and a value.
#[derive(Debug, Clone)]
pub struct Header {
    /// The name of the field.
    pub name: String,
    /// The value of the field.
    pub value: String,
}

impl View for Header {
    type V = (Seq<char>, Seq<char>);

    open spec fn view(&self) -> (Seq<char>, Seq<char>) {
        (self.name@, self.value@)
    }
}

impl Header {
    /// A field with this name and this value.
    pub fn new(name: String, value: String) -> (header: Header)
        ensures
            header@ == (name@, value@),
    {
        Header { name, value }
    }
}

/// `HeaderMap` of Rocket: names, without regard to case, each with its values.
#[verifier::external_type_specification]
#[verifier::external_body]
pub struct ExHeaderMap<'h>(rocket::http::HeaderMap<'h>);

/// What a `HeaderMap` holds: the names in the order in which they came, each as
/// it was first spelled, with its values in the order in which they came.
pub uninterp spec fn header_groups(headers: HeaderMap<'static>) -> Seq<(Seq<char>, Seq<Seq<char>>)>;

/// The place of the first group with this name, without regard to case.
pub open spec fn group_index(groups: Seq<(Seq<char>, Seq<Seq<char>>)>, name: Seq<char>) -> Option<
    int,
>
    decreases groups.len(),
{
    if groups.len() == 0 {
        None
    } else {
        match group_index(groups.drop_last(), name) {
            Some(i) => Some(i),
            None => if same_ignoring_case(groups.last().0, name) {
                Some(groups.len() - 1)
            } else {
                None
            },
        }
    }
}

/// The values under this name, without regard to case, in order.
pub open spec fn values_of(groups: Seq<(Seq<char>, Seq<Seq<char>>)>, name: Seq<char>) -> Seq<
    Seq<char>,
> {
    match group_index(groups, name) {
        Some(i) => groups[i].1,
        None => Seq::empty(),
    }
}

/// The groups with one more value under the name.
pub open spec fn with_added(
    groups: Seq<(Seq<char>, Seq<Seq<char>>)>,
    field: (Seq<char>, Seq<char>),
) -> Seq<(Seq<char>, Seq<Seq<char>>)> {
    match group_index(groups, field.0) {
        Some(i) => groups.update(i, (groups[i].0, groups[i].1.push(field.1))),
        None => groups.push((field.0, seq![field.1])),
    }
}

/// The groups with this value alone under the name.
pub open spec fn with_replaced(
    groups: Seq<(Seq<char>, Seq<Seq<char>>)>,
    field: (Seq<char>, Seq<char>),
) -> Seq<(Seq<char>, Seq<Seq<char>>)> {
    match group_index(groups, field.0) {
        Some(i) => groups.update(i, (groups[i].0, seq![field.1])),
        None => groups.push((field.0, seq![field.1])),
    }
}

/// The fields of one group: its name with each of its values.
pub open spec fn group_fields(group: (Seq<char>, Seq<Seq<char>>)) -> Seq<(Seq<char>, Seq<char>)> {
    Seq::new(group.1.len(), |i: int| (group.0, group.1[i]))
}

/// The fields of all groups, in order.
pub open spec fn fields_of(groups: Seq<(Seq<char>, Seq<Seq<char>>)>) -> Seq<
    (Seq<char>, Seq<char>),
>
    decreases groups.len(),
{
    if groups.len() == 0 {
        Seq::empty()
    } else {
        fields_of(groups.drop_last()) + group_fields(groups.last())
    }
}

/// No two groups have the same name, and each has a value.
pub open spec fn groups_wf(groups: Seq<(Seq<char>, Seq<Seq<char>>)>) -> bool {
    &&& forall|i: int| 0 <= i < groups.len() ==> (#[trigger] groups[i]).1.len() > 0
    &&& forall|i: int, j: int|
        0 <= i < j < groups.len() ==> !same_ignoring_case(
            (#[trigger] groups[i]).0,
            (#[trigger] groups[j]).0,
        )
}

/// `HeaderMap::new` makes a map without fields.
pub assume_specification<'h>[ HeaderMap::<'h>::new ]() -> (headers: HeaderMap<'h>)
    ensures
        header_groups(headers).len() == 0,
;

/// `HeaderMap::is_empty` tells whether there is no name in the map.
pub assume_specification<'h>[ HeaderMap::<'h>::is_empty ](headers: &HeaderMap<'h>) -> (empty: bool)
    ensures
        empty == (header_groups(*headers).len() == 0),
;

/// `HeaderMap::get_one` returns the first value under the name, without regard to
/// case, and `None` where there is none.
pub assume_specification<'h, 'a>[ HeaderMap::<'h>::get_one ](
    headers: &'a HeaderMap<'h>,
    name: &str,
) -> (value: Option<&'a str>)
    ensures
        match value {
            Some(v) => values_of(header_groups(*headers), name@).len() > 0 && v@ == values_of(
                header_groups(*headers),
                name@,
            )[0],
            None => values_of(header_groups(*headers), name@).len() == 0,
        },
;

/// `HeaderMap::add` appends the value to those under the name, or appends the
/// name with this value where the map does not have it.
#[verifier::external_body]
pub(crate) fn add_field(headers: &mut HeaderMap<'static>, field: Header)
    ensures
        header_groups(*final(headers)) == with_added(header_groups(*old(headers)), field@),
{
    headers.add(rocket::http::Header::new(field.name, field.value));
}

/// `HeaderMap::replace` puts the value in the place of all those under the name,
/// or appends the name with this value where the map does not have it.
#[verifier::external_body]
pub(crate) fn replace_field(headers: &mut HeaderMap<'static>, field: Header)
    ensures
        header_groups(*final(headers)) == with_replaced(header_groups(*old(headers)), field@),
{
    headers.replace(rocket::http::Header::new(field.name, field.value));
}

/// `HeaderMap::iter` goes through the names in order and through the values of
/// each in order.
#[verifier::external_body]
pub(crate) fn list_fields(headers: &HeaderMap<'static>) -> (fields: Vec<Header>)
    ensures
        fields@.map_values(|field: Header| field@) == fields_of(header_groups(*headers)),
{
    headers.iter().map(|h| Header { name: h.name.to_string(), value: h.value.to_string() }).collect()
}

/// The group that is found has the name, and no earlier one does. Where none is
/// found, no group has the name.
pub proof fn lemma_group_index(groups: Seq<(Seq<char>, Seq<Seq<char>>)>, name: Seq<char>)
    ensures
        match group_index(groups, name) {
            Some(i) => 0 <= i < groups.len() && same_ignoring_case(groups[i].0, name) && forall|j: int|
                0 <= j < i ==> !same_ignoring_case((#[trigger] groups[j]).0, name),
            None => forall|j: int|
                0 <= j < groups.len() ==> !same_ignoring_case((#[trigger] groups[j]).0, name),
        },
    decreases groups.len(),
{
    if groups.len() > 0 {
        let front = groups.drop_last();
        lemma_group_index(front, name);
        assert forall|j: int| 0 <= j < front.len() implies #[trigger] front[j] == groups[j] by {}
        if group_index(groups, name) is None {
            assert forall|j: int| 0 <= j < groups.len() implies !same_ignoring_case(
                (#[trigger] groups[j]).0,
                name,
            ) by {
                if j < front.len() {
                    assert(front[j] == groups[j]);
                }
            }
        } else {
            let i = group_index(groups, name)->Some_0;
            assert forall|j: int| 0 <= j < i implies !same_ignoring_case(
                (#[trigger] groups[j]).0,
                name,
            ) by {
                assert(front[j] == groups[j]);
            }
        }
    }
}

/// A header map with one more value is still one with a value under each name.
pub proof fn lemma_added_wf(
    groups: Seq<(Seq<char>, Seq<Seq<char>>)>,
    field: (Seq<char>, Seq<char>),
)
    requires
        groups_wf(groups),
    ensures
        groups_wf(with_added(groups, field)),
{
    lemma_group_index(groups, field.0);
    let after = with_added(groups, field);
    assert forall|i: int, j: int| 0 <= i < j < after.len() implies !same_ignoring_case(
        (#[trigger] after[i]).0,
        (#[trigger] after[j]).0,
    ) by {
        assert(after[i].0 == groups[i].0);
        if j < groups.len() {
            assert(after[j].0 == groups[j].0);
        }
    }
}

/// A header map with a value replaced is still one with a value under each name.
pub proof fn lemma_replaced_wf(
    groups: Seq<(Seq<char>, Seq<Seq<char>>)>,
    field: (Seq<char>, Seq<char>),
)
    requires
        groups_wf(groups),
    ensures
        groups_wf(with_replaced(groups, field)),
{
    lemma_group_index(groups, field.0);
    let after = with_replaced(groups, field);
    assert forall|i: int, j: int| 0 <= i < j < after.len() implies !same_ignoring_case(
        (#[trigger] after[i]).0,
        (#[trigger] after[j]).0,
    ) by {
        assert(after[i].0 == groups[i].0);
        if j < groups.len() {
            assert(after[j].0 == groups[j].0);
        }
    }
}

} // verus!
