//! The mods that the user has pinned.

use crate::questions::{
    law_exact_pin_is_that_of_the_first_package, law_pin_is_that_of_the_first_package,
    pinned_exactly, pinned_to,
};
use crate::text::{eq_ignore_ascii_case, same_ignoring_ascii_case, same_text};
use vstd::prelude::*;

verus! {

/// A mod, and the condition that the user has put on its version, if any.
#[derive(Debug, Clone, Default)]
pub struct Package {
    pub mod_id: String,
    pub pinned_version: Option<String>,
}

/// What a package says.
#[verifier::ext_equal]
pub struct PackageModel {
    pub mod_id: Seq<char>,
    pub pinned_version: Option<Seq<char>>,
}

impl DeepView for Package {
    type V = PackageModel;

    open spec fn deep_view(&self) -> PackageModel {
        PackageModel {
            mod_id: self.mod_id@,
            pinned_version: self.pinned_version.deep_view(),
        }
    }
}

/// The pin of the first package whose id is `mod_id` but for the case of ASCII letters.
pub open spec fn pin_ignoring_case(packages: Seq<PackageModel>, mod_id: Seq<char>) -> Option<
    Seq<char>,
>
    decreases packages.len(),
{
    if packages.len() == 0 {
        None
    } else if same_ignoring_ascii_case(packages[0].mod_id, mod_id) {
        packages[0].pinned_version
    } else {
        pin_ignoring_case(packages.drop_first(), mod_id)
    }
}

/// The pin of the first package whose id is `mod_id` exactly.
pub open spec fn pin_exact(packages: Seq<PackageModel>, mod_id: Seq<char>) -> Option<Seq<char>>
    decreases packages.len(),
{
    if packages.len() == 0 {
        None
    } else if packages[0].mod_id == mod_id {
        packages[0].pinned_version
    } else {
        pin_exact(packages.drop_first(), mod_id)
    }
}

/// Finds the pin of a mod, whatever the case of the id's ASCII letters.
pub fn find_pin_ignoring_case(packages: &Vec<Package>, mod_id: &str) -> (r: Option<String>)
    ensures
        r.deep_view() == pin_ignoring_case(packages.deep_view(), mod_id@),
        pinned_to(packages.deep_view(), mod_id@, r.deep_view()),
{
    proof {
        law_pin_is_that_of_the_first_package(
            packages.deep_view(),
            mod_id@,
            pin_ignoring_case(packages.deep_view(), mod_id@),
        );
    }
    let mut i: usize = 0;
    assert(packages.deep_view().skip(0) =~= packages.deep_view());
    while i < packages.len()
        invariant
            i <= packages.len(),
            pin_ignoring_case(packages.deep_view(), mod_id@) == pin_ignoring_case(
                packages.deep_view().skip(i as int),
                mod_id@,
            ),
            pinned_to(
                packages.deep_view(),
                mod_id@,
                pin_ignoring_case(packages.deep_view(), mod_id@),
            ),
        decreases packages.len() - i,
    {
        let ghost left = packages.deep_view().skip(i as int);
        assert(left[0] == packages[i as int].deep_view());
        assert(left.drop_first() =~= packages.deep_view().skip(i + 1));
        if eq_ignore_ascii_case(packages[i].mod_id.as_str(), mod_id) {
            return packages[i].pinned_version.clone();
        }
        i = i + 1;
    }
    None
}

/// Finds the pin of the mod with exactly this id.
pub fn find_pin(packages: &Vec<Package>, mod_id: &str) -> (r: Option<String>)
    ensures
        r.deep_view() == pin_exact(packages.deep_view(), mod_id@),
        pinned_exactly(packages.deep_view(), mod_id@, r.deep_view()),
{
    proof {
        law_exact_pin_is_that_of_the_first_package(packages.deep_view(), mod_id@);
    }
    let mut i: usize = 0;
    assert(packages.deep_view().skip(0) =~= packages.deep_view());
    while i < packages.len()
        invariant
            i <= packages.len(),
            pin_exact(packages.deep_view(), mod_id@) == pin_exact(
                packages.deep_view().skip(i as int),
                mod_id@,
            ),
            pinned_exactly(packages.deep_view(), mod_id@, pin_exact(packages.deep_view(), mod_id@)),
        decreases packages.len() - i,
    {
        let ghost left = packages.deep_view().skip(i as int);
        assert(left[0] == packages[i as int].deep_view());
        assert(left.drop_first() =~= packages.deep_view().skip(i + 1));
        if same_text(packages[i].mod_id.as_str(), mod_id) {
            return packages[i].pinned_version.clone();
        }
        i = i + 1;
    }
    None
}

} // verus!
