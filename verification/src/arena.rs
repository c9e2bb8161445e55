//! Lists of names that live in an arena.
use vstd::prelude::*;

verus! {

/// The arena of `bumpalo`, carried through and never looked into.
#[verifier::external_type_specification]
#[verifier::external_body]
pub struct ExBump<const MIN_ALIGN: usize>(bumpalo::Bump<MIN_ALIGN>);

/// The growable list of `bumpalo`, known by what `names_in` says that it holds.
#[verifier::external_type_specification]
#[verifier::external_body]
#[verifier::reject_recursive_types(T)]
pub struct ExBumpVec<'bump, T>(bumpalo::collections::Vec<'bump, T>);

/// The texts of a list of strings.
pub open spec fn texts(names: Seq<&str>) -> Seq<Seq<char>> {
    names.map_values(|name: &str| name@)
}

/// The texts of the names that a list holds, in order.
pub uninterp spec fn names_in(list: bumpalo::collections::Vec<'_, &str>) -> Seq<Seq<char>>;

/// Calls `bumpalo::collections::Vec::with_capacity_in`, which makes a list that holds nothing
/// yet.
#[verifier::external_body]
pub(crate) fn new_list<'a>(arena: &'a bumpalo::Bump) -> (list: bumpalo::collections::Vec<
    'a,
    &'a str,
>)
    ensures
        names_in(list) == Seq::<Seq<char>>::empty(),
{
    bumpalo::collections::Vec::with_capacity_in(4, arena)
}

/// Calls `bumpalo::collections::Vec::push`, which puts one item behind the others. The number of
/// items has to fit `usize`. Like every allocation it panics where no memory is left for them,
/// which nothing here rules out.
#[verifier::external_body]
pub(crate) fn push_name<'a>(list: &mut bumpalo::collections::Vec<'a, &'a str>, name: &'a str)
    requires
        names_in(*old(list)).len() < usize::MAX,
    ensures
        names_in(*final(list)) == names_in(*old(list)).push(name@),
{
    list.push(name)
}

/// Calls `bumpalo::collections::Vec::is_empty`, which is true of a list that holds nothing.
#[verifier::external_body]
pub(crate) fn list_is_empty<'a>(list: &bumpalo::collections::Vec<'a, &'a str>) -> (yes: bool)
    ensures
        yes == (names_in(*list).len() == 0),
{
    list.is_empty()
}

/// Calls `bumpalo::collections::Vec::into_bump_slice`, which hands out the items of a list in
/// their order.
#[verifier::external_body]
pub(crate) fn into_slice<'a>(list: bumpalo::collections::Vec<'a, &'a str>) -> (names: &'a [&'a str])
    ensures
        texts(names@) == names_in(list),
{
    list.into_bump_slice()
}

/// Calls `bumpalo::Bump::alloc`, which moves a value into the arena: here, an array of one
/// name.
#[verifier::external_body]
pub(crate) fn alloc_name<'a>(arena: &'a bumpalo::Bump, name: &'a str) -> (names: &'a [&'a str])
    ensures
        names@ == seq![name],
{
    arena.alloc([name])
}

} // verus!
