//! An optional value with a third state for fields that are left out of the
//! serialised form altogether.

use vstd::prelude::*;

verus! {

#[derive(Clone, Debug, PartialEq, Eq)]
pub enum OptionSerializer<T> {
    /// A value that is present.
    Value(T),
    /// An absent value, serialised as such.
    Null,
    /// An absent value whose field is left out.
    Skip,
}

impl<T> OptionSerializer<T> {
    pub fn none() -> (r: Self)
        ensures
            r is Null,
    {
        OptionSerializer::Null
    }

    pub fn skip() -> (r: Self)
        ensures
            r is Skip,
    {
        OptionSerializer::Skip
    }

    pub fn should_skip(&self) -> (r: bool)
        ensures
            r == (*self is Skip),
    {
        match self {
            OptionSerializer::Skip => true,
            _ => false,
        }
    }

    /// A present value is kept; an absent one is skipped.
    pub fn or_skip(option: Option<T>) -> (r: Self)
        ensures
            option matches Option::Some(item) ==> r == OptionSerializer::Value(item),
            option is None ==> r is Skip,
    {
        match option {
            Option::Some(item) => OptionSerializer::Value(item),
            Option::None => OptionSerializer::Skip,
        }
    }

    pub fn as_ref(&self) -> (r: OptionSerializer<&T>)
        ensures
            *self matches OptionSerializer::Value(item) ==> r == OptionSerializer::Value(&item),
            *self is Null ==> r is Null,
            *self is Skip ==> r is Skip,
    {
        match self {
            OptionSerializer::Value(item) => OptionSerializer::Value(item),
            OptionSerializer::Null => OptionSerializer::Null,
            OptionSerializer::Skip => OptionSerializer::Skip,
        }
    }
}

/// An absent value becomes `Null`, not `Skip`.
pub open spec fn option_serializer_from_option<T>(option: Option<T>) -> OptionSerializer<T> {
    match option {
        Option::Some(item) => OptionSerializer::Value(item),
        Option::None => OptionSerializer::Null,
    }
}

/// `Null` and `Skip` both become an absent value.
pub open spec fn option_from_option_serializer<T>(option: OptionSerializer<T>) -> Option<T> {
    match option {
        OptionSerializer::Value(item) => Option::Some(item),
        _ => Option::None,
    }
}

impl<T> From<Option<T>> for OptionSerializer<T> {
    fn from(option: Option<T>) -> (r: Self) {
        match option {
            Option::Some(item) => OptionSerializer::Value(item),
            Option::None => OptionSerializer::Null,
        }
    }
}

impl<T> vstd::std_specs::convert::FromSpecImpl<Option<T>> for OptionSerializer<T> {
    open spec fn obeys_from_spec() -> bool {
        true
    }

    open spec fn from_spec(option: Option<T>) -> Self {
        option_serializer_from_option(option)
    }
}

impl<T> From<OptionSerializer<T>> for Option<T> {
    fn from(option: OptionSerializer<T>) -> (r: Self) {
        match option {
            OptionSerializer::Value(item) => Option::Some(item),
            _ => Option::None,
        }
    }
}

impl<T> vstd::std_specs::convert::FromSpecImpl<OptionSerializer<T>> for Option<T> {
    open spec fn obeys_from_spec() -> bool {
        true
    }

    open spec fn from_spec(option: OptionSerializer<T>) -> Self {
        option_from_option_serializer(option)
    }
}

} // verus!
