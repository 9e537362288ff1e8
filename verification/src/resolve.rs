//! Resolving declared dependencies to positions in the package list.
//!
//! The provider reports the resolved edges apart from the packages: one
//! entry for each package id, listing the ids of the packages it depends on.
//! An id has the form `name version source`, and an edge belongs to the
//! declared dependency whose name is the id's text before the first space.

use crate::error::{outcome, GraphError, GraphErrorView};
use crate::package::{links_valid, Dependency, DependencyView, Package, PackageView};
use crate::resolve_lemmas::lemma_resolved_links;
use vstd::prelude::*;
use vstd::string::{StrSliceExecFns, StringExecFns};

verus! {

/// The resolved edges of one package: its id and a descriptor for each
/// edge, which is the id of the package depended on.
#[derive(Debug)]
pub struct ResolveNode {
    pub id: String,
    pub dependencies: Vec<String>,
}

/// The mathematical value of a [`ResolveNode`].
pub struct ResolveNodeView {
    pub id: Seq<char>,
    pub dependencies: Seq<Seq<char>>,
}

impl DeepView for ResolveNode {
    type V = ResolveNodeView;

    open spec fn deep_view(&self) -> ResolveNodeView {
        ResolveNodeView { id: self.id@, dependencies: self.dependencies.deep_view() }
    }
}

/// The name in a descriptor: its text before the first space, or all of it
/// where it holds no space.
pub open spec fn descriptor_name(descriptor: Seq<char>) -> Seq<char> {
    match descriptor.index_of_first(' ') {
        Some(end) => descriptor.take(end),
        None => descriptor,
    }
}

/// The ids of the packages, in order.
pub open spec fn ids(packages: Seq<PackageView>) -> Seq<Seq<char>> {
    packages.map_values(|p: PackageView| p.id)
}

/// No two packages share an id.
pub open spec fn ids_distinct(packages: Seq<PackageView>) -> bool {
    forall|i: int, j: int|
        0 <= i < j < packages.len() ==> (#[trigger] packages[i]).id != (#[trigger] packages[j]).id
}

/// The position of the package with the given id: the first, should there
/// be several.
pub open spec fn position_of(packages: Seq<PackageView>, id: Seq<char>) -> Option<int> {
    ids(packages).index_of_first(id)
}

/// `Ok` where no two packages share an id; else the error for the first
/// package whose id an earlier one has.
pub open spec fn checked_ids(packages: Seq<PackageView>) -> Result<(), GraphErrorView>
    decreases packages.len(),
{
    if packages.len() == 0 {
        Ok(())
    } else {
        match checked_ids(packages.drop_last()) {
            Err(error) => Err(error),
            Ok(()) => if ids(packages.drop_last()).contains(packages.last().id) {
                Err(GraphErrorView::DuplicateId(packages.last().id))
            } else {
                Ok(())
            },
        }
    }
}

/// The dependency with its target set.
pub open spec fn with_index(dep: DependencyView, index: Option<usize>) -> DependencyView {
    DependencyView {
        index,
        name: dep.name,
        source: dep.source,
        req: dep.req,
        kind: dep.kind,
        optional: dep.optional,
    }
}

/// The package with other dependencies.
pub open spec fn with_dependencies(
    package: PackageView,
    dependencies: Seq<DependencyView>,
) -> PackageView {
    PackageView {
        name: package.name,
        version: package.version,
        source: package.source,
        id: package.id,
        is_member: package.is_member,
        included: package.included,
        dependencies,
    }
}

/// What one descriptor does to one dependency.
///
/// A descriptor with another name leaves the dependency as it is. One with
/// the dependency's name gives it its target, the package whose id the
/// descriptor is. That fails where the dependency has a target already, and
/// where no package has that id.
pub open spec fn apply_descriptor(
    packages: Seq<PackageView>,
    dep: DependencyView,
    descriptor: Seq<char>,
) -> Result<DependencyView, GraphErrorView> {
    if descriptor_name(descriptor) != dep.name {
        Ok(dep)
    } else if dep.index is Some {
        Err(GraphErrorView::AlreadyResolved(descriptor))
    } else {
        match position_of(packages, descriptor) {
            None => Err(GraphErrorView::DepIdNotFound(descriptor)),
            Some(target) => Ok(with_index(dep, Some(target as usize))),
        }
    }
}

/// What a list of descriptors does to one dependency, taken in order up to
/// the first failure.
pub open spec fn apply_descriptors(
    packages: Seq<PackageView>,
    dep: DependencyView,
    descriptors: Seq<Seq<char>>,
) -> Result<DependencyView, GraphErrorView>
    decreases descriptors.len(),
{
    if descriptors.len() == 0 {
        Ok(dep)
    } else {
        match apply_descriptor(packages, dep, descriptors.first()) {
            Err(error) => Err(error),
            Ok(next) => apply_descriptors(packages, next, descriptors.drop_first()),
        }
    }
}

/// What a list of descriptors does to a list of dependencies: each
/// dependency on its own, or the error of the first dependency that has one.
pub open spec fn resolved_dependencies(
    packages: Seq<PackageView>,
    deps: Seq<DependencyView>,
    descriptors: Seq<Seq<char>>,
) -> Result<Seq<DependencyView>, GraphErrorView>
    decreases deps.len(),
{
    if deps.len() == 0 {
        Ok(Seq::empty())
    } else {
        match resolved_dependencies(packages, deps.drop_last(), descriptors) {
            Err(error) => Err(error),
            Ok(done) => match apply_descriptors(packages, deps.last(), descriptors) {
                Err(error) => Err(error),
                Ok(dep) => Ok(done.push(dep)),
            },
        }
    }
}

/// What one entry of the resolved edges does to the package list: the
/// package with the entry's id gets its dependencies resolved. Fails where
/// no package has that id.
pub open spec fn apply_node(packages: Seq<PackageView>, node: ResolveNodeView) -> Result<
    Seq<PackageView>,
    GraphErrorView,
> {
    match position_of(packages, node.id) {
        None => Err(GraphErrorView::ResolveIdNotFound(node.id)),
        Some(owner) => match resolved_dependencies(
            packages,
            packages[owner].dependencies,
            node.dependencies,
        ) {
            Err(error) => Err(error),
            Ok(deps) => Ok(packages.update(owner, with_dependencies(packages[owner], deps))),
        },
    }
}

/// What the entries of the resolved edges do to the package list, taken in
/// order up to the first failure.
pub open spec fn apply_nodes(packages: Seq<PackageView>, nodes: Seq<ResolveNodeView>) -> Result<
    Seq<PackageView>,
    GraphErrorView,
>
    decreases nodes.len(),
{
    if nodes.len() == 0 {
        Ok(packages)
    } else {
        match apply_node(packages, nodes.first()) {
            Err(error) => Err(error),
            Ok(next) => apply_nodes(next, nodes.drop_first()),
        }
    }
}

/// The package list with its dependencies resolved: the ids are checked
/// first, then the entries of the resolved edges are applied.
pub open spec fn resolved(packages: Seq<PackageView>, nodes: Seq<ResolveNodeView>) -> Result<
    Seq<PackageView>,
    GraphErrorView,
> {
    match checked_ids(packages) {
        Err(error) => Err(error),
        Ok(()) => apply_nodes(packages, nodes),
    }
}

/// The position of the first of `packages[..end]` with the given id.
fn find_id_before(packages: &Vec<Package>, end: usize, id: &String) -> (r: Option<usize>)
    requires
        end <= packages.len(),
    ensures
        match r {
            Some(i) => i < end && position_of(packages.deep_view().take(end as int), id@) == Some(
                i as int,
            ),
            None => position_of(packages.deep_view().take(end as int), id@) is None,
        },
{
    let ghost all = ids(packages.deep_view().take(end as int));
    let mut i: usize = 0;
    while i < end
        invariant
            0 <= i <= end <= packages.len(),
            all == ids(packages.deep_view().take(end as int)),
            forall|j: int| 0 <= j < i ==> all[j] != id@,
        decreases end - i,
    {
        assert(all[i as int] == packages[i as int].id@);
        if packages[i].id == *id {
            proof {
                all.index_of_first_ensures(id@);
            }
            return Some(i);
        }
        i += 1;
    }
    proof {
        all.index_of_first_ensures(id@);
    }
    None
}

/// The position of the package with the given id: the first, should there
/// be several.
pub fn find_id(packages: &Vec<Package>, id: &String) -> (r: Option<usize>)
    ensures
        match r {
            Some(i) => i < packages.len() && position_of(packages.deep_view(), id@) == Some(
                i as int,
            ),
            None => position_of(packages.deep_view(), id@) is None,
        },
{
    assert(packages.deep_view().take(packages.len() as int) =~= packages.deep_view());
    find_id_before(packages, packages.len(), id)
}

/// Checks that no two packages share an id.
///
/// Fails with the id of the first package that repeats an earlier one.
pub fn check_ids(packages: &Vec<Package>) -> (r: Result<(), GraphError>)
    ensures
        outcome(r) == checked_ids(packages.deep_view()),
{
    let mut i: usize = 0;
    while i < packages.len()
        invariant
            0 <= i <= packages.len(),
            checked_ids(packages.deep_view().take(i as int)) == Ok::<(), GraphErrorView>(()),
        decreases packages.len() - i,
    {
        let ghost done = packages.deep_view().take(i as int);
        let ghost next = packages.deep_view().take(i + 1);
        assert(next.drop_last() =~= done);
        proof {
            ids(done).index_of_first_ensures(packages[i as int].id@);
        }
        match find_id_before(packages, i, &packages[i].id) {
            Some(_) => {
                proof {
                    lemma_duplicate_stays(packages.deep_view(), i + 1);
                }
                return Err(GraphError::DuplicateId(packages[i].id.clone()));
            },
            None => {},
        }
        i += 1;
    }
    assert(packages.deep_view().take(i as int) =~= packages.deep_view());
    Ok(())
}

/// Once a prefix of the packages holds a repeated id, the whole list fails
/// with the same error.
pub proof fn lemma_duplicate_stays(packages: Seq<PackageView>, n: int)
    requires
        0 <= n <= packages.len(),
        checked_ids(packages.take(n)) is Err,
    ensures
        checked_ids(packages) == checked_ids(packages.take(n)),
    decreases packages.len(),
{
    if n < packages.len() {
        assert(packages.drop_last().take(n) =~= packages.take(n));
        lemma_duplicate_stays(packages.drop_last(), n);
    } else {
        assert(packages.take(n) =~= packages);
    }
}

/// The name in a descriptor, as a text of its own.
pub fn read_descriptor_name(descriptor: &str) -> (name: String)
    ensures
        name@ == descriptor_name(descriptor@),
{
    let length = descriptor.unicode_len();
    let mut end: usize = 0;
    let mut found = false;
    for c in it: descriptor.chars()
        invariant
            it.seq() == descriptor@,
            length == descriptor@.len(),
            end <= it.index(),
            !found ==> end == it.index(),
            found ==> end < descriptor@.len() && descriptor@[end as int] == ' ',
            forall|j: int| 0 <= j < end ==> descriptor@[j] != ' ',
    {
        if !found {
            if c == ' ' {
                found = true;
            } else {
                end += 1;
            }
        }
    }
    proof {
        descriptor@.index_of_first_ensures(' ');
        if !found {
            assert(descriptor@.take(end as int) =~= descriptor@);
        }
    }
    String::from_str(descriptor.substring_char(0, end))
}

/// The names in a list of descriptors, in the same order.
fn read_descriptor_names(descriptors: &Vec<String>) -> (names: Vec<String>)
    ensures
        names.len() == descriptors.len(),
        forall|k: int|
            0 <= k < names.len() ==> (#[trigger] names[k])@ == descriptor_name(descriptors[k]@),
{
    let mut names: Vec<String> = Vec::new();
    let mut k: usize = 0;
    while k < descriptors.len()
        invariant
            0 <= k <= descriptors.len(),
            names.len() == k,
            forall|i: int|
                0 <= i < k ==> (#[trigger] names[i])@ == descriptor_name(descriptors[i]@),
        decreases descriptors.len() - k,
    {
        names.push(read_descriptor_name(descriptors[k].as_str()));
        k += 1;
    }
    names
}

/// The target that a list of descriptors gives to one dependency.
///
/// `names` holds the name in each descriptor.
fn resolve_dependency(
    packages: &Vec<Package>,
    dep: &Dependency,
    descriptors: &Vec<String>,
    names: &Vec<String>,
) -> (r: Result<Option<usize>, GraphError>)
    requires
        names.len() == descriptors.len(),
        forall|k: int|
            0 <= k < names.len() ==> (#[trigger] names[k])@ == descriptor_name(descriptors[k]@),
    ensures
        match r {
            Ok(index) => apply_descriptors(
                packages.deep_view(),
                dep.deep_view(),
                descriptors.deep_view(),
            ) == Ok::<DependencyView, GraphErrorView>(with_index(dep.deep_view(), index)),
            Err(error) => apply_descriptors(
                packages.deep_view(),
                dep.deep_view(),
                descriptors.deep_view(),
            ) == Err::<DependencyView, GraphErrorView>(error.deep_view()),
        },
{
    let ghost list = packages.deep_view();
    let ghost all = descriptors.deep_view();
    let mut index = dep.index;
    let mut k: usize = 0;
    assert(all.skip(0) =~= all);
    while k < descriptors.len()
        invariant
            0 <= k <= descriptors.len(),
            names.len() == descriptors.len(),
            list == packages.deep_view(),
            all == descriptors.deep_view(),
            forall|i: int|
                0 <= i < names.len() ==> (#[trigger] names[i])@ == descriptor_name(descriptors[i]@),
            apply_descriptors(list, dep.deep_view(), all) == apply_descriptors(
                list,
                with_index(dep.deep_view(), index),
                all.skip(k as int),
            ),
        decreases descriptors.len() - k,
    {
        assert(all.skip(k as int).drop_first() =~= all.skip(k + 1));
        if names[k] == dep.name {
            if index.is_some() {
                return Err(GraphError::AlreadyResolved(descriptors[k].clone()));
            }
            match find_id(packages, &descriptors[k]) {
                None => {
                    return Err(GraphError::DepIdNotFound(descriptors[k].clone()));
                },
                Some(target) => {
                    index = Some(target);
                },
            }
        }
        k += 1;
    }
    Ok(index)
}

/// Once the dependencies before `n` fail, the whole list fails alike.
pub proof fn lemma_dependency_error_stays(
    packages: Seq<PackageView>,
    deps: Seq<DependencyView>,
    descriptors: Seq<Seq<char>>,
    n: int,
)
    requires
        0 <= n <= deps.len(),
        resolved_dependencies(packages, deps.take(n), descriptors) is Err,
    ensures
        resolved_dependencies(packages, deps, descriptors) == resolved_dependencies(
            packages,
            deps.take(n),
            descriptors,
        ),
    decreases deps.len(),
{
    if n < deps.len() {
        assert(deps.drop_last().take(n) =~= deps.take(n));
        lemma_dependency_error_stays(packages, deps.drop_last(), descriptors, n);
    } else {
        assert(deps.take(n) =~= deps);
    }
}

/// Applies one entry of the resolved edges: the dependencies of the package
/// with the entry's id get their targets.
///
/// On failure the package list is left as it was.
pub fn resolve_node(packages: &mut Vec<Package>, node: &ResolveNode) -> (r: Result<(), GraphError>)
    ensures
        match r {
            Ok(()) => apply_node(old(packages).deep_view(), node.deep_view()) == Ok::<
                Seq<PackageView>,
                GraphErrorView,
            >(final(packages).deep_view()),
            Err(error) => apply_node(old(packages).deep_view(), node.deep_view()) == Err::<
                Seq<PackageView>,
                GraphErrorView,
            >(error.deep_view()) && final(packages).deep_view() == old(packages).deep_view(),
        },
{
    let ghost before = packages.deep_view();
    let owner = match find_id(packages, &node.id) {
        None => {
            return Err(GraphError::ResolveIdNotFound(node.id.clone()));
        },
        Some(owner) => owner,
    };
    let ghost declared = before[owner as int].dependencies;
    let ghost descriptors = node.deep_view().dependencies;
    let names = read_descriptor_names(&node.dependencies);
    let count = packages[owner].dependencies.len();
    let mut targets: Vec<Option<usize>> = Vec::new();
    let mut j: usize = 0;
    assert(declared.take(0) =~= Seq::<DependencyView>::empty());
    assert(Seq::new(0, |i: int| with_index(declared[i], targets[i])) =~= Seq::<
        DependencyView,
    >::empty());
    while j < count
        invariant
            0 <= j <= count,
            owner < packages.len(),
            before == packages.deep_view(),
            position_of(before, node.id@) == Some(owner as int),
            declared == before[owner as int].dependencies,
            descriptors == node.dependencies.deep_view(),
            count == packages[owner as int].dependencies.len(),
            count == declared.len(),
            names.len() == node.dependencies.len(),
            forall|k: int|
                0 <= k < names.len() ==> (#[trigger] names[k])@ == descriptor_name(
                    node.dependencies[k]@,
                ),
            targets.len() == j,
            resolved_dependencies(before, declared.take(j as int), descriptors) == Ok::<
                Seq<DependencyView>,
                GraphErrorView,
            >(Seq::new(j as nat, |i: int| with_index(declared[i], targets[i]))),
        decreases count - j,
    {
        let ghost done = declared.take(j as int);
        let ghost next = declared.take(j + 1);
        assert(next.drop_last() =~= done);
        match resolve_dependency(
            packages,
            &packages[owner].dependencies[j],
            &node.dependencies,
            &names,
        ) {
            Err(error) => {
                proof {
                    lemma_dependency_error_stays(before, declared, descriptors, j + 1);
                }
                return Err(error);
            },
            Ok(index) => {
                let ghost earlier = targets@;
                targets.push(index);
                assert(Seq::new((j + 1) as nat, |i: int| with_index(declared[i], targets[i]))
                    =~= Seq::new(j as nat, |i: int| with_index(declared[i], earlier[i])).push(
                    with_index(declared[j as int], index),
                ));
            },
        }
        j += 1;
    }
    assert(declared.take(j as int) =~= declared);
    let ghost resolved = Seq::new(count as nat, |i: int| with_index(declared[i], targets[i]));
    let mut j: usize = 0;
    while j < count
        invariant
            0 <= j <= count,
            owner < packages.len(),
            targets.len() == count,
            declared == before[owner as int].dependencies,
            count == declared.len(),
            packages.len() == before.len(),
            forall|k: int|
                0 <= k < packages.len() && k != owner ==> (#[trigger] packages[k]).deep_view()
                    == before[k],
            with_dependencies(
                packages[owner as int].deep_view(),
                before[owner as int].dependencies,
            ) == before[owner as int],
            packages[owner as int].dependencies.len() == count,
            forall|i: int|
                0 <= i < j ==> (#[trigger] packages[owner as int].dependencies[i]).deep_view()
                    == with_index(declared[i], targets[i]),
            forall|i: int|
                j <= i < count ==> (#[trigger] packages[owner as int].dependencies[i]).deep_view()
                    == declared[i],
        decreases count - j,
    {
        packages[owner].dependencies[j].index = targets[j];
        j += 1;
    }
    assert(packages[owner as int].dependencies.deep_view() =~= resolved);
    assert(packages.deep_view() =~= before.update(
        owner as int,
        with_dependencies(before[owner as int], resolved),
    ));
    Ok(())
}

/// Resolves the dependencies of a package list from the resolved edges.
///
/// Fails where two packages share an id, where an entry of the resolved
/// edges names no package, where an edge that names a dependency leads to no
/// package, and where two edges name one dependency. The entries are taken
/// in order, for each the dependencies of its package in order, for each of
/// them the edges in order; the first failure is the one reported. A
/// dependency that no edge names stays without a target.
pub fn resolve(packages: Vec<Package>, nodes: &Vec<ResolveNode>) -> (r: Result<
    Vec<Package>,
    GraphError,
>)
    ensures
        outcome(r) == resolved(packages.deep_view(), nodes.deep_view()),
        r matches Ok(list) ==> (links_valid(packages.deep_view()) ==> links_valid(
            list.deep_view(),
        )),
{
    let ghost start = packages.deep_view();
    let ghost all = nodes.deep_view();
    let mut list = packages;
    assert(start.len() == list.len());
    match check_ids(&list) {
        Err(error) => {
            return Err(error);
        },
        Ok(()) => {},
    }
    let mut k: usize = 0;
    assert(all.skip(0) =~= all);
    while k < nodes.len()
        invariant
            0 <= k <= nodes.len(),
            all == nodes.deep_view(),
            start == packages.deep_view(),
            start.len() <= usize::MAX,
            checked_ids(start) is Ok,
            apply_nodes(start, all) == apply_nodes(list.deep_view(), all.skip(k as int)),
        decreases nodes.len() - k,
    {
        assert(all.skip(k as int).drop_first() =~= all.skip(k + 1));
        match resolve_node(&mut list, &nodes[k]) {
            Err(error) => {
                return Err(error);
            },
            Ok(()) => {},
        }
        k += 1;
    }
    proof {
        if links_valid(start) {
            lemma_resolved_links(start, all);
        }
    }
    Ok(list)
}

} // verus!
