//! The records of a calendar as its parser hands them over: events made
//! of properties, a property made of a name, parameters and a value.

use crate::text::same_text;
use vstd::prelude::*;

verus! {

/// A parameter of a property: its name and its values.
pub type Parameter = (String, Vec<String>);

/// A parameter as mathematics sees it.
pub type ParameterView = (Seq<char>, Seq<Seq<char>>);

/// One property of a record.
#[derive(Clone, Debug, PartialEq, Eq)]
pub struct Property {
    pub name: String,
    pub params: Option<Vec<Parameter>>,
    pub value: Option<String>,
}

/// A property as mathematics sees it.
pub struct PropertyView {
    pub name: Seq<char>,
    pub params: Option<Seq<ParameterView>>,
    pub value: Option<Seq<char>>,
}

impl View for Property {
    type V = PropertyView;

    open spec fn view(&self) -> PropertyView {
        PropertyView {
            name: self.name@,
            params: self.params.deep_view(),
            value: self.value.deep_view(),
        }
    }
}

impl DeepView for Property {
    type V = PropertyView;

    open spec fn deep_view(&self) -> PropertyView {
        self@
    }
}

/// One event of a calendar, before anything is read from it.
#[derive(Clone, Debug, PartialEq, Eq)]
pub struct RawEvent {
    pub properties: Vec<Property>,
}

/// A raw event as mathematics sees it.
pub struct RawEventView {
    pub properties: Seq<PropertyView>,
}

impl View for RawEvent {
    type V = RawEventView;

    open spec fn view(&self) -> RawEventView {
        RawEventView { properties: self.properties.deep_view() }
    }
}

impl DeepView for RawEvent {
    type V = RawEventView;

    open spec fn deep_view(&self) -> RawEventView {
        self@
    }
}

/// Whether `at` is the place of the first of `names` that equals `name`.
pub open spec fn is_first(names: Seq<Seq<char>>, name: Seq<char>, at: int) -> bool {
    &&& 0 <= at < names.len()
    &&& names[at] == name
    &&& forall|before: int| 0 <= before < at ==> #[trigger] names[before] != name
}

/// The place of the first of `names` that equals `name`, if any does.
pub open spec fn first_index(names: Seq<Seq<char>>, name: Seq<char>) -> Option<int> {
    if exists|at: int| is_first(names, name, at) {
        Some(choose|at: int| is_first(names, name, at))
    } else {
        None
    }
}

/// The names of `properties`, in their order.
pub open spec fn property_names(properties: Seq<PropertyView>) -> Seq<Seq<char>> {
    properties.map_values(|property: PropertyView| property.name)
}

/// The first of `properties` with the name `name`: where a name occurs
/// twice, the later property is never looked at.
pub open spec fn first_named(properties: Seq<PropertyView>, name: Seq<char>) -> Option<
    PropertyView,
> {
    match first_index(property_names(properties), name) {
        Some(at) => Some(properties[at]),
        None => None,
    }
}

/// The names of `params`, in their order.
pub open spec fn parameter_names(params: Seq<ParameterView>) -> Seq<Seq<char>> {
    params.map_values(|param: ParameterView| param.0)
}

/// The values of the first of `params` with the name `name`.
pub open spec fn first_parameter(params: Seq<ParameterView>, name: Seq<char>) -> Option<
    Seq<Seq<char>>,
> {
    match first_index(parameter_names(params), name) {
        Some(at) => Some(params[at].1),
        None => None,
    }
}

/// The zone that the parameters name: the first value of the first
/// parameter `TZID`.
pub open spec fn zone_name(params: Option<Seq<ParameterView>>) -> Option<Seq<char>> {
    match params {
        Some(params) => match first_parameter(params, "TZID"@) {
            Some(values) => if values.len() > 0 {
                Some(values[0])
            } else {
                None
            },
            None => None,
        },
        None => None,
    }
}

/// A place that holds the name, with no earlier one that does, is the
/// first index.
pub proof fn lemma_first_index_found(names: Seq<Seq<char>>, name: Seq<char>, at: int)
    requires
        is_first(names, name, at),
    ensures
        first_index(names, name) == Some(at),
{
    let chosen = choose|at: int| is_first(names, name, at);
    assert(is_first(names, name, chosen));
    if chosen < at {
        assert(names[chosen] != name);
    } else if at < chosen {
        assert(names[at] != name);
    }
}

/// Where no place holds the name there is no first index.
pub proof fn lemma_first_index_none(names: Seq<Seq<char>>, name: Seq<char>)
    requires
        forall|at: int| 0 <= at < names.len() ==> #[trigger] names[at] != name,
    ensures
        first_index(names, name) is None,
{
}

/// The first index, where there is one, is a place that holds the name.
pub proof fn lemma_first_index_is_first(names: Seq<Seq<char>>, name: Seq<char>)
    ensures
        match first_index(names, name) {
            Some(at) => is_first(names, name, at),
            None => forall|at: int| 0 <= at < names.len() ==> #[trigger] names[at] != name,
        },
{
    if first_index(names, name) is None {
        assert forall|at: int| 0 <= at < names.len() implies #[trigger] names[at] != name by {
            if names[at] == name {
                lemma_some_is_first(names, name, at);
            }
        }
    }
}

/// Where some place holds the name, one of them is the first.
proof fn lemma_some_is_first(names: Seq<Seq<char>>, name: Seq<char>, at: int)
    requires
        0 <= at < names.len(),
        names[at] == name,
    ensures
        exists|first: int| is_first(names, name, first),
    decreases at,
{
    if exists|before: int| 0 <= before < at && names[before] == name {
        let before = choose|before: int| 0 <= before < at && names[before] == name;
        lemma_some_is_first(names, name, before);
    } else {
        assert(is_first(names, name, at));
    }
}

/// The first of `properties` with the name `name`.
pub fn find_property<'a>(properties: &'a Vec<Property>, name: &str) -> (found: Option<
    &'a Property,
>)
    ensures
        found.deep_view() == first_named(properties.deep_view(), name@),
{
    let ghost names = property_names(properties.deep_view());
    let mut at: usize = 0;
    while at < properties.len()
        invariant
            at <= properties.len(),
            names == property_names(properties.deep_view()),
            forall|before: int| 0 <= before < at ==> #[trigger] names[before] != name@,
        decreases properties.len() - at,
    {
        if same_text(properties[at].name.as_str(), name) {
            proof {
                assert(names[at as int] == name@);
                lemma_first_index_found(names, name@, at as int);
            }
            return Some(&properties[at]);
        }
        at += 1;
    }
    proof {
        lemma_first_index_none(names, name@);
    }
    None
}

/// The zone that the parameters name: the first value of the first
/// parameter `TZID`.
pub fn find_zone_name<'a>(params: Option<&'a Vec<Parameter>>) -> (zone: Option<&'a str>)
    ensures
        zone.deep_view() == zone_name(params.deep_view()),
{
    let list = match params {
        Some(list) => list,
        None => {
            return None;
        },
    };
    assert(params.deep_view() == Some(list.deep_view()));
    let ghost names = parameter_names(list.deep_view());
    let mut at: usize = 0;
    while at < list.len()
        invariant
            at <= list.len(),
            params.deep_view() == Some(list.deep_view()),
            names == parameter_names(list.deep_view()),
            forall|before: int| 0 <= before < at ==> #[trigger] names[before] != "TZID"@,
        decreases list.len() - at,
    {
        if same_text(list[at].0.as_str(), "TZID") {
            let values = &list[at].1;
            proof {
                assert(names[at as int] == "TZID"@);
                lemma_first_index_found(names, "TZID"@, at as int);
                assert(list.deep_view()[at as int].1 == values.deep_view());
                assert(first_parameter(list.deep_view(), "TZID"@) == Some(values.deep_view()));
            }
            if values.len() > 0 {
                assert(values.deep_view()[0] == values@[0]@);
                return Some(values[0].as_str());
            } else {
                return None;
            }
        }
        at += 1;
    }
    proof {
        lemma_first_index_none(names, "TZID"@);
    }
    None
}

} // verus!
