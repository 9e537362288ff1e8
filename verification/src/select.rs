//! Choosing packages by name: the roots from which the graph is walked, and
//! the packages that are left out.

use crate::error::{outcome, GraphError, GraphErrorView};
use crate::index_set::IndexSet;
use crate::package::{Package, PackageView};
use vstd::prelude::*;

verus! {

/// The positions of the packages with the given name.
pub open spec fn with_name(packages: Seq<PackageView>, name: Seq<char>) -> Set<int> {
    Set::new(|i: int| 0 <= i < packages.len() && packages[i].name == name)
}

/// The positions of the packages whose name is one of `names`.
pub open spec fn named(packages: Seq<PackageView>, names: Seq<Seq<char>>) -> Set<int> {
    Set::new(|i: int| 0 <= i < packages.len() && names.contains(packages[i].name))
}

/// The positions of the packages that belong to the workspace.
pub open spec fn members(packages: Seq<PackageView>) -> Set<int> {
    Set::new(|i: int| 0 <= i < packages.len() && packages[i].is_member)
}

/// Whether some package has the given name.
pub open spec fn is_package_name(packages: Seq<PackageView>, name: Seq<char>) -> bool {
    exists|i: int| 0 <= i < packages.len() && (#[trigger] packages[i]).name == name
}

/// The first of `names` that no package has, if there is one.
pub open spec fn first_unknown(packages: Seq<PackageView>, names: Seq<Seq<char>>) -> Option<
    Seq<char>,
>
    decreases names.len(),
{
    if names.len() == 0 {
        None
    } else if !is_package_name(packages, names.first()) {
        Some(names.first())
    } else {
        first_unknown(packages, names.drop_first())
    }
}

/// The roots: the packages named, every one of a name that several share;
/// the members of the workspace where no name is given. A name that no
/// package has adds nothing.
pub open spec fn root_set(packages: Seq<PackageView>, names: Seq<Seq<char>>) -> Set<int> {
    if names.len() == 0 {
        members(packages)
    } else {
        named(packages, names)
    }
}

/// The packages to leave out: those named, every one of a name that several
/// share. Fails with the first name that no package has.
pub open spec fn ignore_set(packages: Seq<PackageView>, names: Seq<Seq<char>>) -> Result<
    Set<int>,
    GraphErrorView,
> {
    match first_unknown(packages, names) {
        Some(name) => Err(GraphErrorView::ExcludeNotFound(name)),
        None => Ok(named(packages, names)),
    }
}

/// Adds the positions of the packages with the given name to `set`, and
/// says whether there is such a package.
fn insert_named(packages: &Vec<Package>, name: &String, set: &mut IndexSet) -> (found: bool)
    requires
        old(set).capacity() == packages.len(),
    ensures
        final(set).capacity() == old(set).capacity(),
        final(set)@ == old(set)@.union(with_name(packages.deep_view(), name@)),
        found == is_package_name(packages.deep_view(), name@),
{
    let ghost list = packages.deep_view();
    let mut found = false;
    let mut i: usize = 0;
    while i < packages.len()
        invariant
            0 <= i <= packages.len(),
            list == packages.deep_view(),
            set.capacity() == packages.len(),
            forall|k: int|
                set@.contains(k) <==> old(set)@.contains(k) || (0 <= k < i && list[k].name
                    == name@),
            found <==> exists|k: int| 0 <= k < i && (#[trigger] list[k]).name == name@,
        decreases packages.len() - i,
    {
        if packages[i].name == *name {
            set.insert(i);
            assert(list[i as int].name == name@);
            found = true;
        }
        i += 1;
    }
    found
}

/// The positions of the workspace members among the packages.
fn select_members(packages: &Vec<Package>) -> (set: IndexSet)
    ensures
        set.capacity() == packages.len(),
        set@ == members(packages.deep_view()),
{
    let ghost list = packages.deep_view();
    let mut set = IndexSet::new(packages.len());
    let mut i: usize = 0;
    while i < packages.len()
        invariant
            0 <= i <= packages.len(),
            list == packages.deep_view(),
            set.capacity() == packages.len(),
            forall|k: int| set@.contains(k) <==> 0 <= k < i && list[k].is_member,
        decreases packages.len() - i,
    {
        if packages[i].is_member {
            set.insert(i);
        }
        i += 1;
    }
    set
}

/// The roots from which the graph is walked.
///
/// With names given these are all packages of those names, be they none or
/// several for a name; with none given, the members of the workspace.
pub fn select_roots(packages: &Vec<Package>, names: &Vec<String>) -> (roots: IndexSet)
    ensures
        roots.capacity() == packages.len(),
        roots@ == root_set(packages.deep_view(), names.deep_view()),
{
    if names.len() == 0 {
        return select_members(packages);
    }
    let ghost list = packages.deep_view();
    let ghost all = names.deep_view();
    let mut set = IndexSet::new(packages.len());
    let mut k: usize = 0;
    while k < names.len()
        invariant
            0 <= k <= names.len(),
            list == packages.deep_view(),
            all == names.deep_view(),
            set.capacity() == packages.len(),
            set@ == named(list, all.take(k as int)),
        decreases names.len() - k,
    {
        insert_named(packages, &names[k], &mut set);
        proof {
            lemma_named_push(list, all.take(k as int), all[k as int]);
            assert(all.take(k as int).push(all[k as int]) =~= all.take(k + 1));
        }
        k += 1;
    }
    assert(all.take(k as int) =~= all);
    set
}

/// The packages to leave out of the graph.
///
/// These are all packages of the given names. Each name must be that of a
/// package: fails with the first one that is not.
pub fn select_ignored(packages: &Vec<Package>, names: &Vec<String>) -> (r: Result<
    IndexSet,
    GraphError,
>)
    ensures
        outcome(r) == ignore_set(packages.deep_view(), names.deep_view()),
        r matches Ok(set) ==> set.capacity() == packages.len(),
{
    let ghost list = packages.deep_view();
    let ghost all = names.deep_view();
    let mut set = IndexSet::new(packages.len());
    let mut k: usize = 0;
    assert(all.skip(0) =~= all);
    while k < names.len()
        invariant
            0 <= k <= names.len(),
            list == packages.deep_view(),
            all == names.deep_view(),
            set.capacity() == packages.len(),
            set@ == named(list, all.take(k as int)),
            first_unknown(list, all) == first_unknown(list, all.skip(k as int)),
        decreases names.len() - k,
    {
        assert(all.skip(k as int).drop_first() =~= all.skip(k + 1));
        let found = insert_named(packages, &names[k], &mut set);
        if !found {
            return Err(GraphError::ExcludeNotFound(names[k].clone()));
        }
        proof {
            lemma_named_push(list, all.take(k as int), all[k as int]);
            assert(all.take(k as int).push(all[k as int]) =~= all.take(k + 1));
        }
        k += 1;
    }
    Ok(set)
}

/// One more name adds the packages of that name.
pub proof fn lemma_named_push(packages: Seq<PackageView>, names: Seq<Seq<char>>, name: Seq<char>)
    ensures
        named(packages, names.push(name)) == named(packages, names).union(
            with_name(packages, name),
        ),
{
    let longer = names.push(name);
    assert forall|i: int| 0 <= i < packages.len() implies (longer.contains(packages[i].name)
        <==> names.contains(packages[i].name) || packages[i].name == name) by {
        if names.contains(packages[i].name) {
            let k = choose|k: int| 0 <= k < names.len() && names[k] == packages[i].name;
            assert(longer[k] == packages[i].name);
        }
        if packages[i].name == name {
            assert(longer[names.len() as int] == name);
        }
    }
}

} // verus!
