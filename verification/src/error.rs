use vstd::prelude::*;

verus! {

/// Chalkydri's error type.
#[derive(Clone, Debug)]
pub enum Error {
    InvalidConfig,
    FailedToReadConfig,
    FailedToMapBuffer,
    FailedToPullSample,
    NoFieldLayouts,
    FieldLayoutNotSelected,
    FieldLayoutDoesNotExist { id: String },
    InvalidTag { id: String },
}

/// Whether `names` holds `name`, compared as strings; the position of its first occurrence.
fn find_name(names: &[String], name: &String) -> (r: Option<usize>)
    ensures
        r is None <==> !names.deep_view().contains(name@),
        r matches Some(p) ==> p < names.len() && names.deep_view()[p as int] == name@,
{
    let mut i: usize = 0;
    while i < names.len()
        invariant
            i <= names.len(),
            forall|j: int| 0 <= j < i ==> names.deep_view()[j] != name@,
        decreases names.len() - i,
    {
        if names[i] == *name {
            proof {
                assert(names.deep_view()[i as int] == name@);
            }
            return Some(i);
        }
        i = i + 1;
    }
    proof {
        if names.deep_view().contains(name@) {
            let j = choose|j: int| 0 <= j < names.deep_view().len() && names.deep_view()[j] == name@;
            assert(names.deep_view()[j] != name@);
        }
    }
    None
}

/// Pick the selected field layout among the configured ones, given their names (`None`
/// when the configuration has no layouts at all) and the name of the selected one: its
/// position among `layout_names`, or why it cannot be loaded.
pub fn select_field_layout(layout_names: Option<&[String]>, selected: Option<&String>) -> (r: Result<
    usize,
    Error,
>)
    ensures
        match (layout_names, selected) {
            (None, _) => r matches Err(Error::NoFieldLayouts),
            (Some(_), None) => r matches Err(Error::FieldLayoutNotSelected),
            (Some(names), Some(name)) => if names.deep_view().contains(name@) {
                r matches Ok(p) && p < names.len() && names.deep_view()[p as int] == name@
            } else {
                r matches Err(Error::FieldLayoutDoesNotExist { id }) && id@ == name@
            },
        },
{
    match layout_names {
        None => Err(Error::NoFieldLayouts),
        Some(names) => match selected {
            None => Err(Error::FieldLayoutNotSelected),
            Some(name) => match find_name(names, name) {
                Some(p) => Ok(p),
                None => Err(Error::FieldLayoutDoesNotExist { id: name.clone() }),
            },
        },
    }
}

} // verus!
