//! What a successful resolution has done to each dependency.

use crate::error::GraphErrorView;
use crate::package::{links_valid, DependencyView, PackageView};
use crate::resolve::{
    apply_descriptor, apply_descriptors, apply_node, apply_nodes, checked_ids, descriptor_name,
    ids, ids_distinct, position_of, resolved, resolved_dependencies, with_dependencies,
    with_index, ResolveNodeView,
};
use vstd::prelude::*;

verus! {

/// Whether some descriptor of the list names `name`.
pub open spec fn names_in(descriptors: Seq<Seq<char>>, name: Seq<char>) -> bool {
    exists|k: int|
        0 <= k < descriptors.len() && descriptor_name(#[trigger] descriptors[k]) == name
}

/// Whether the target is the given position.
pub open spec fn is_target(index: Option<usize>, position: Option<int>) -> bool {
    match index {
        Some(target) => position == Some(target as int),
        None => false,
    }
}

/// Whether descriptor `k` of entry `n` is an edge for the dependency `name`
/// of the package at `owner`: the entry's id is found at `owner`, and the
/// descriptor names the dependency.
spec fn is_edge_for(
    packages: Seq<PackageView>,
    nodes: Seq<ResolveNodeView>,
    owner: int,
    name: Seq<char>,
    n: int,
    k: int,
) -> bool {
    &&& 0 <= n < nodes.len()
    &&& 0 <= k < nodes[n].dependencies.len()
    &&& position_of(packages, nodes[n].id) == Some(owner)
    &&& descriptor_name(nodes[n].dependencies[k]) == name
}

/// Whether the resolved edges hold an edge for the dependency `name` of the
/// package at `owner`.
spec fn has_edge_for(
    packages: Seq<PackageView>,
    nodes: Seq<ResolveNodeView>,
    owner: int,
    name: Seq<char>,
) -> bool {
    exists|n: int, k: int| #[trigger] is_edge_for(packages, nodes, owner, name, n, k)
}

/// The second list holds the packages of the first, each with the same
/// dependencies, alike in all but their targets.
pub open spec fn same_but_targets(before: Seq<PackageView>, after: Seq<PackageView>) -> bool {
    &&& after.len() == before.len()
    &&& forall|i: int|
        0 <= i < before.len() ==> {
            &&& (#[trigger] after[i]) == with_dependencies(before[i], after[i].dependencies)
            &&& after[i].dependencies.len() == before[i].dependencies.len()
        }
    &&& forall|i: int, j: int|
        0 <= i < before.len() && 0 <= j < before[i].dependencies.len() ==> (
        #[trigger] after[i].dependencies[j]) == with_index(
            before[i].dependencies[j],
            after[i].dependencies[j].index,
        )
}

/// Where the package with an id stands, if there is one.
pub proof fn lemma_position(packages: Seq<PackageView>, id: Seq<char>)
    ensures
        match position_of(packages, id) {
            Some(at) => 0 <= at < packages.len() && packages[at].id == id && forall|i: int|
                0 <= i < at ==> (#[trigger] packages[i]).id != id,
            None => forall|i: int| 0 <= i < packages.len() ==> (#[trigger] packages[i]).id != id,
        },
{
    let all = ids(packages);
    all.index_of_first_ensures(id);
    match position_of(packages, id) {
        Some(at) => {
            assert forall|i: int| 0 <= i < at implies (#[trigger] packages[i]).id != id by {
                assert(all[i] != id);
            }
        },
        None => {
            assert forall|i: int| 0 <= i < packages.len() implies (#[trigger] packages[i]).id
                != id by {
                if packages[i].id == id {
                    assert(all[i] == id);
                }
            }
        },
    }
}

/// With distinct ids, a package is found by its id at its own position.
pub proof fn lemma_position_of_own_id(packages: Seq<PackageView>, at: int)
    requires
        ids_distinct(packages),
        0 <= at < packages.len(),
    ensures
        position_of(packages, packages[at].id) == Some(at),
{
    lemma_position(packages, packages[at].id);
}

/// The ids are distinct exactly where the check passes.
pub proof fn lemma_checked_ids(packages: Seq<PackageView>)
    ensures
        checked_ids(packages) is Ok <==> ids_distinct(packages),
    decreases packages.len(),
{
    if packages.len() > 0 {
        let front = packages.drop_last();
        let last = packages.last();
        lemma_checked_ids(front);
        if checked_ids(packages) is Ok {
            assert forall|i: int, j: int| 0 <= i < j < packages.len() implies (
            #[trigger] packages[i]).id != (#[trigger] packages[j]).id by {
                if j < packages.len() - 1 {
                    assert(front[i].id != front[j].id);
                } else {
                    if packages[i].id == last.id {
                        assert(ids(front)[i] == last.id);
                    }
                }
            }
        }
        if ids_distinct(packages) {
            assert forall|i: int, j: int| 0 <= i < j < front.len() implies (#[trigger] front[i]).id
                != (#[trigger] front[j]).id by {
                assert(packages[i].id != packages[j].id);
            }
            if ids(front).contains(last.id) {
                let i = choose|i: int| 0 <= i < ids(front).len() && ids(front)[i] == last.id;
                assert(packages[i].id == packages[packages.len() - 1].id);
            }
        }
    }
}

/// What a successful pass over the descriptors has done to a dependency.
///
/// Only the target has changed. Where no descriptor names the dependency
/// the target is as before. Where one does, no other does, the dependency
/// had no target, and now has the position of the package whose id that
/// descriptor is.
pub proof fn lemma_applied_descriptors(
    packages: Seq<PackageView>,
    dep: DependencyView,
    descriptors: Seq<Seq<char>>,
)
    requires
        packages.len() <= usize::MAX,
        apply_descriptors(packages, dep, descriptors) is Ok,
    ensures
        ({
            let out = apply_descriptors(packages, dep, descriptors)->Ok_0;
            &&& out == with_index(dep, out.index)
            &&& !names_in(descriptors, dep.name) ==> out.index == dep.index
            &&& names_in(descriptors, dep.name) ==> dep.index is None && exists|k: int|
                0 <= k < descriptors.len() && descriptor_name(#[trigger] descriptors[k])
                    == dep.name && is_target(out.index, position_of(packages, descriptors[k]))
            &&& forall|k: int, l: int|
                0 <= k < descriptors.len() && 0 <= l < descriptors.len() && descriptor_name(
                    #[trigger] descriptors[k],
                ) == dep.name && descriptor_name(#[trigger] descriptors[l]) == dep.name ==> k
                    == l
        }),
    decreases descriptors.len(),
{
    if descriptors.len() > 0 {
        let first = descriptors.first();
        let rest = descriptors.drop_first();
        let next = apply_descriptor(packages, dep, first)->Ok_0;
        let out = apply_descriptors(packages, dep, descriptors)->Ok_0;
        lemma_applied_descriptors(packages, next, rest);
        if descriptor_name(first) == dep.name {
            lemma_position(packages, first);
            assert(names_in(descriptors, dep.name)) by {
                assert(descriptor_name(descriptors[0]) == dep.name);
            }
        } else {
            if names_in(rest, dep.name) {
                let k = choose|k: int|
                    0 <= k < rest.len() && descriptor_name(#[trigger] rest[k]) == dep.name
                        && is_target(out.index, position_of(packages, rest[k]));
                assert(descriptor_name(descriptors[k + 1]) == dep.name && is_target(
                    out.index,
                    position_of(packages, descriptors[k + 1]),
                ));
            }
            if names_in(descriptors, dep.name) {
                let k = choose|k: int|
                    0 <= k < descriptors.len() && descriptor_name(#[trigger] descriptors[k])
                        == dep.name;
                assert(descriptor_name(rest[k - 1]) == dep.name);
            }
        }
        assert forall|k: int, l: int|
            0 <= k < descriptors.len() && 0 <= l < descriptors.len() && descriptor_name(
                #[trigger] descriptors[k],
            ) == dep.name && descriptor_name(#[trigger] descriptors[l]) == dep.name implies k
            == l by {
            if k > 0 {
                assert(descriptor_name(rest[k - 1]) == dep.name);
            }
            if l > 0 {
                assert(descriptor_name(rest[l - 1]) == dep.name);
            }
        }
    }
}

/// A successful pass over a list of dependencies has passed over each.
pub proof fn lemma_resolved_dependencies(
    packages: Seq<PackageView>,
    deps: Seq<DependencyView>,
    descriptors: Seq<Seq<char>>,
)
    requires
        resolved_dependencies(packages, deps, descriptors) is Ok,
    ensures
        ({
            let out = resolved_dependencies(packages, deps, descriptors)->Ok_0;
            &&& out.len() == deps.len()
            &&& forall|j: int|
                0 <= j < deps.len() ==> apply_descriptors(packages, deps[j], descriptors) == Ok::<
                    DependencyView,
                    GraphErrorView,
                >(#[trigger] out[j])
        }),
    decreases deps.len(),
{
    if deps.len() > 0 {
        lemma_resolved_dependencies(packages, deps.drop_last(), descriptors);
    }
}

/// A successful resolution step keeps the packages and their dependencies,
/// alike in all but targets.
pub proof fn lemma_applied_node_same(packages: Seq<PackageView>, node: ResolveNodeView)
    requires
        packages.len() <= usize::MAX,
        apply_node(packages, node) is Ok,
    ensures
        same_but_targets(packages, apply_node(packages, node)->Ok_0),
        ids(apply_node(packages, node)->Ok_0) == ids(packages),
{
    let after = apply_node(packages, node)->Ok_0;
    let owner = position_of(packages, node.id)->Some_0;
    lemma_position(packages, node.id);
    let declared = packages[owner].dependencies;
    lemma_resolved_dependencies(packages, declared, node.dependencies);
    assert forall|i: int, j: int|
        0 <= i < packages.len() && 0 <= j < packages[i].dependencies.len() implies (
    #[trigger] after[i].dependencies[j]) == with_index(
        packages[i].dependencies[j],
        after[i].dependencies[j].index,
    ) by {
        if i == owner {
            lemma_applied_descriptors(packages, declared[j], node.dependencies);
        }
    }
}

/// A successful resolution keeps the packages and their dependencies, alike
/// in all but targets.
pub proof fn lemma_applied_nodes_same(packages: Seq<PackageView>, nodes: Seq<ResolveNodeView>)
    requires
        packages.len() <= usize::MAX,
        apply_nodes(packages, nodes) is Ok,
    ensures
        same_but_targets(packages, apply_nodes(packages, nodes)->Ok_0),
        ids(apply_nodes(packages, nodes)->Ok_0) == ids(packages),
    decreases nodes.len(),
{
    if nodes.len() > 0 {
        let next = apply_node(packages, nodes.first())->Ok_0;
        let after = apply_nodes(packages, nodes)->Ok_0;
        lemma_applied_node_same(packages, nodes.first());
        lemma_applied_nodes_same(next, nodes.drop_first());
        assert forall|i: int, j: int|
            0 <= i < packages.len() && 0 <= j < packages[i].dependencies.len() implies (
        #[trigger] after[i].dependencies[j]) == with_index(
            packages[i].dependencies[j],
            after[i].dependencies[j].index,
        ) by {
            assert(next[i].dependencies[j] == with_index(
                packages[i].dependencies[j],
                next[i].dependencies[j].index,
            ));
        }
        assert forall|i: int| 0 <= i < packages.len() implies {
            &&& (#[trigger] after[i]) == with_dependencies(packages[i], after[i].dependencies)
            &&& after[i].dependencies.len() == packages[i].dependencies.len()
        } by {
            assert(next[i] == with_dependencies(packages[i], next[i].dependencies));
        }
    }
}

/// What a successful run over the resolved edges has done to the
/// dependency `j` of the package at `i`.
///
/// Where no edge is for the dependency, its target is as before. Where one
/// is, the dependency had no target, and now has the position of the
/// package whose id the edge's descriptor is.
proof fn lemma_applied_nodes(
    packages: Seq<PackageView>,
    nodes: Seq<ResolveNodeView>,
    i: int,
    j: int,
)
    requires
        packages.len() <= usize::MAX,
        apply_nodes(packages, nodes) is Ok,
        0 <= i < packages.len(),
        0 <= j < packages[i].dependencies.len(),
    ensures
        ({
            let after = apply_nodes(packages, nodes)->Ok_0;
            let before = packages[i].dependencies[j];
            let now = after[i].dependencies[j];
            &&& !has_edge_for(packages, nodes, i, before.name) ==> now.index == before.index
            &&& has_edge_for(packages, nodes, i, before.name) ==> before.index is None
                && exists|n: int, k: int|
                #[trigger] is_edge_for(packages, nodes, i, before.name, n, k)
                    && is_target(now.index, position_of(packages, nodes[n].dependencies[k]))
        }),
    decreases nodes.len(),
{
    let name = packages[i].dependencies[j].name;
    if nodes.len() == 0 {
        assert forall|n: int, k: int| !#[trigger] is_edge_for(packages, nodes, i, name, n, k) by {}
    } else {
        let first = nodes.first();
        let rest = nodes.drop_first();
        let next = apply_node(packages, first)->Ok_0;
        let after = apply_nodes(packages, nodes)->Ok_0;
        let before = packages[i].dependencies[j];
        let mid = next[i].dependencies[j];
        let now = after[i].dependencies[j];
        let owner = position_of(packages, first.id)->Some_0;
        lemma_position(packages, first.id);
        lemma_applied_node_same(packages, first);
        lemma_applied_nodes(next, rest, i, j);
        assert forall|n: int, k: int| 0 <= n implies (#[trigger] is_edge_for(
            next,
            rest,
            i,
            name,
            n,
            k,
        ) <==> is_edge_for(packages, nodes, i, name, n + 1, k)) by {
            if n < rest.len() {
                assert(rest[n] == nodes[n + 1]);
            }
        }
        let here = owner == i && names_in(first.dependencies, name);
        if owner == i {
            lemma_resolved_dependencies(packages, packages[i].dependencies, first.dependencies);
            lemma_applied_descriptors(packages, before, first.dependencies);
        }
        if here {
            let k = choose|k: int|
                0 <= k < first.dependencies.len() && descriptor_name(
                    #[trigger] first.dependencies[k],
                ) == name && is_target(mid.index, position_of(packages, first.dependencies[k]));
            assert(is_edge_for(packages, nodes, i, name, 0, k));
        } else {
            if has_edge_for(next, rest, i, name) {
                let (n, k) = choose|n: int, k: int|
                    #[trigger] is_edge_for(next, rest, i, name, n, k) && is_target(
                        now.index,
                        position_of(next, rest[n].dependencies[k]),
                    );
                assert(is_edge_for(packages, nodes, i, name, n + 1, k) && is_target(
                    now.index,
                    position_of(packages, nodes[n + 1].dependencies[k]),
                ));
            } else {
                assert forall|n: int, k: int| !#[trigger] is_edge_for(
                    packages,
                    nodes,
                    i,
                    name,
                    n,
                    k,
                ) by {
                    if is_edge_for(packages, nodes, i, name, n, k) {
                        if n == 0 {
                            assert(descriptor_name(first.dependencies[k]) == name);
                        } else {
                            assert(is_edge_for(next, rest, i, name, n - 1, k));
                        }
                    }
                }
            }
        }
    }
}

/// Whether descriptor `k` of entry `n` is an edge for the dependency `name`
/// of the package at `owner`: the entry bears that package's id, and the
/// descriptor names the dependency.
pub open spec fn is_edge_of(
    packages: Seq<PackageView>,
    nodes: Seq<ResolveNodeView>,
    owner: int,
    name: Seq<char>,
    n: int,
    k: int,
) -> bool {
    &&& 0 <= n < nodes.len()
    &&& 0 <= k < nodes[n].dependencies.len()
    &&& nodes[n].id == packages[owner].id
    &&& descriptor_name(nodes[n].dependencies[k]) == name
}

/// Whether the resolved edges hold an edge for the dependency `name` of the
/// package at `owner`.
pub open spec fn has_edge_of(
    packages: Seq<PackageView>,
    nodes: Seq<ResolveNodeView>,
    owner: int,
    name: Seq<char>,
) -> bool {
    exists|n: int, k: int| #[trigger] is_edge_of(packages, nodes, owner, name, n, k)
}

/// Whether the target is a position in the list, that of a package with
/// the given id.
pub open spec fn leads_to(packages: Seq<PackageView>, index: Option<usize>, id: Seq<char>) -> bool {
    match index {
        Some(target) => target < packages.len() && packages[target as int].id == id,
        None => false,
    }
}

/// With distinct ids, an entry is a package's own where it bears its id.
proof fn lemma_edge_of_is_edge_for(
    packages: Seq<PackageView>,
    nodes: Seq<ResolveNodeView>,
    owner: int,
    name: Seq<char>,
)
    requires
        ids_distinct(packages),
        0 <= owner < packages.len(),
    ensures
        forall|n: int, k: int|
            #[trigger] is_edge_of(packages, nodes, owner, name, n, k) <==> is_edge_for(
                packages,
                nodes,
                owner,
                name,
                n,
                k,
            ),
        has_edge_of(packages, nodes, owner, name) <==> has_edge_for(packages, nodes, owner, name),
{
    assert forall|n: int, k: int|
        #[trigger] is_edge_of(packages, nodes, owner, name, n, k) <==> is_edge_for(
            packages,
            nodes,
            owner,
            name,
            n,
            k,
        ) by {
        if 0 <= n < nodes.len() {
            lemma_position(packages, nodes[n].id);
            lemma_position_of_own_id(packages, owner);
        }
    }
    if has_edge_of(packages, nodes, owner, name) {
        let (n, k) = choose|n: int, k: int|
            #[trigger] is_edge_of(packages, nodes, owner, name, n, k);
        assert(is_edge_for(packages, nodes, owner, name, n, k));
    }
    if has_edge_for(packages, nodes, owner, name) {
        let (n, k) = choose|n: int, k: int|
            #[trigger] is_edge_for(packages, nodes, owner, name, n, k);
        assert(is_edge_of(packages, nodes, owner, name, n, k));
    }
}

/// What a successful resolution has done to the dependency `j` of the
/// package at `i`.
///
/// The ids are distinct, and the list holds the same packages with the
/// same dependencies, alike in all but targets. A dependency for which the
/// resolved edges hold no edge is as it was: where it had no target, it has
/// none. One for which they hold an edge had no target, and now has one:
/// a position in the list, that of the package whose id the edge's
/// descriptor is.
pub proof fn lemma_resolved(
    packages: Seq<PackageView>,
    nodes: Seq<ResolveNodeView>,
    i: int,
    j: int,
)
    requires
        packages.len() <= usize::MAX,
        resolved(packages, nodes) is Ok,
        0 <= i < packages.len(),
        0 <= j < packages[i].dependencies.len(),
    ensures
        ids_distinct(packages),
        same_but_targets(packages, resolved(packages, nodes)->Ok_0),
        ({
            let after = resolved(packages, nodes)->Ok_0;
            let before = packages[i].dependencies[j];
            let now = after[i].dependencies[j];
            &&& !has_edge_of(packages, nodes, i, before.name) ==> now.index == before.index
            &&& has_edge_of(packages, nodes, i, before.name) ==> before.index is None
                && exists|n: int, k: int|
                #[trigger] is_edge_of(packages, nodes, i, before.name, n, k) && leads_to(
                    packages,
                    now.index,
                    nodes[n].dependencies[k],
                )
        }),
{
    let name = packages[i].dependencies[j].name;
    let after = resolved(packages, nodes)->Ok_0;
    let now = after[i].dependencies[j];
    lemma_checked_ids(packages);
    lemma_applied_nodes_same(packages, nodes);
    lemma_applied_nodes(packages, nodes, i, j);
    lemma_edge_of_is_edge_for(packages, nodes, i, name);
    if has_edge_of(packages, nodes, i, name) {
        let (n, k) = choose|n: int, k: int|
            #[trigger] is_edge_for(packages, nodes, i, name, n, k) && is_target(
                now.index,
                position_of(packages, nodes[n].dependencies[k]),
            );
        lemma_position(packages, nodes[n].dependencies[k]);
        assert(is_edge_of(packages, nodes, i, name, n, k) && leads_to(
            packages,
            now.index,
            nodes[n].dependencies[k],
        ));
    }
}

/// A successful resolution gives no target outside the list.
pub proof fn lemma_resolved_links(packages: Seq<PackageView>, nodes: Seq<ResolveNodeView>)
    requires
        packages.len() <= usize::MAX,
        links_valid(packages),
        resolved(packages, nodes) is Ok,
    ensures
        links_valid(resolved(packages, nodes)->Ok_0),
{
    let after = resolved(packages, nodes)->Ok_0;
    lemma_applied_nodes_same(packages, nodes);
    assert forall|i: int, j: int|
        0 <= i < after.len() && 0 <= j < after[i].dependencies.len() implies (
    #[trigger] after[i].dependencies[j].index matches Some(target) ==> target
        < after.len()) by {
        lemma_resolved(packages, nodes, i, j);
    }
}

/// Where two packages share an id, resolution fails, and with the error
/// for a shared id.
pub proof fn lemma_shared_id_fails(
    packages: Seq<PackageView>,
    nodes: Seq<ResolveNodeView>,
    a: int,
    b: int,
)
    requires
        0 <= a < b < packages.len(),
        packages[a].id == packages[b].id,
    ensures
        resolved(packages, nodes) matches Err(GraphErrorView::DuplicateId(_)),
{
    lemma_checked_ids(packages);
    lemma_checked_ids_error(packages);
}

/// The check of the ids fails with no other error than that for a shared
/// id, and names an id that two packages have.
pub proof fn lemma_checked_ids_error(packages: Seq<PackageView>)
    ensures
        checked_ids(packages) matches Err(error) ==> exists|a: int, b: int|
            0 <= a < b < packages.len() && (#[trigger] packages[a]).id == (
            #[trigger] packages[b]).id && error == GraphErrorView::DuplicateId(packages[b].id),
    decreases packages.len(),
{
    if packages.len() > 0 {
        let front = packages.drop_last();
        lemma_checked_ids_error(front);
        match checked_ids(front) {
            Err(error) => {
                let (a, b) = choose|a: int, b: int|
                    0 <= a < b < front.len() && (#[trigger] front[a]).id == (#[trigger] front[b]).id
                        && error == GraphErrorView::DuplicateId(front[b].id);
                assert(packages[a].id == packages[b].id);
            },
            Ok(()) => {
                if ids(front).contains(packages.last().id) {
                    let a = choose|a: int|
                        0 <= a < ids(front).len() && ids(front)[a] == packages.last().id;
                    assert(packages[a].id == packages[packages.len() - 1].id);
                }
            },
        }
    }
}

/// Whether some package has the given id.
pub open spec fn is_id(packages: Seq<PackageView>, id: Seq<char>) -> bool {
    exists|i: int| 0 <= i < packages.len() && (#[trigger] packages[i]).id == id
}

/// Whether descriptor `k` of entry `n` is an edge for the dependency `j`
/// of the package at `i`.
pub open spec fn is_edge_at(
    packages: Seq<PackageView>,
    nodes: Seq<ResolveNodeView>,
    i: int,
    j: int,
    n: int,
    k: int,
) -> bool {
    &&& 0 <= i < packages.len()
    &&& 0 <= j < packages[i].dependencies.len()
    &&& is_edge_of(packages, nodes, i, packages[i].dependencies[j].name, n, k)
}

/// Whether the resolved edges fit the packages: every entry bears the id
/// of a package; every edge for a dependency finds it without a target and
/// has the id of a package for its descriptor; and no dependency has two
/// edges.
pub open spec fn edges_fit(packages: Seq<PackageView>, nodes: Seq<ResolveNodeView>) -> bool {
    &&& forall|n: int| 0 <= n < nodes.len() ==> is_id(packages, (#[trigger] nodes[n]).id)
    &&& forall|i: int, j: int, n: int, k: int| #[trigger]
        is_edge_at(packages, nodes, i, j, n, k) ==> packages[i].dependencies[j].index is None
            && is_id(packages, nodes[n].dependencies[k])
    &&& forall|i: int, j: int, n: int, k: int, m: int, l: int|
        #![trigger is_edge_at(packages, nodes, i, j, n, k), is_edge_at(packages, nodes, i, j, m, l)]
        is_edge_at(packages, nodes, i, j, n, k) && is_edge_at(packages, nodes, i, j, m, l) ==> n
            == m && k == l
}

/// Descriptors that do not name a dependency leave it as it is.
proof fn lemma_descriptors_pass(
    packages: Seq<PackageView>,
    dep: DependencyView,
    descriptors: Seq<Seq<char>>,
)
    requires
        !names_in(descriptors, dep.name),
    ensures
        apply_descriptors(packages, dep, descriptors) == Ok::<DependencyView, GraphErrorView>(dep),
    decreases descriptors.len(),
{
    if descriptors.len() > 0 {
        let rest = descriptors.drop_first();
        assert(descriptor_name(descriptors[0]) != dep.name);
        assert(!names_in(rest, dep.name)) by {
            if names_in(rest, dep.name) {
                let k = choose|k: int|
                    0 <= k < rest.len() && descriptor_name(#[trigger] rest[k]) == dep.name;
                assert(descriptor_name(descriptors[k + 1]) == dep.name);
            }
        }
        lemma_descriptors_pass(packages, dep, rest);
    }
}

/// A pass over the descriptors succeeds where at most one names the
/// dependency, and that one finds it without a target and is the id of a
/// package.
proof fn lemma_descriptors_succeed(
    packages: Seq<PackageView>,
    dep: DependencyView,
    descriptors: Seq<Seq<char>>,
)
    requires
        names_in(descriptors, dep.name) ==> dep.index is None,
        forall|k: int|
            0 <= k < descriptors.len() && descriptor_name(#[trigger] descriptors[k]) == dep.name
                ==> position_of(packages, descriptors[k]) is Some,
        forall|k: int, l: int|
            0 <= k < descriptors.len() && 0 <= l < descriptors.len() && descriptor_name(
                #[trigger] descriptors[k],
            ) == dep.name && descriptor_name(#[trigger] descriptors[l]) == dep.name ==> k == l,
    ensures
        apply_descriptors(packages, dep, descriptors) is Ok,
    decreases descriptors.len(),
{
    if descriptors.len() > 0 {
        let first = descriptors.first();
        let rest = descriptors.drop_first();
        assert(forall|k: int| 0 <= k < rest.len() ==> rest[k] == descriptors[k + 1]);
        if descriptor_name(first) == dep.name {
            let next = apply_descriptor(packages, dep, first)->Ok_0;
            assert(!names_in(rest, dep.name)) by {
                if names_in(rest, dep.name) {
                    let k = choose|k: int|
                        0 <= k < rest.len() && descriptor_name(#[trigger] rest[k]) == dep.name;
                    assert(descriptor_name(descriptors[k + 1]) == dep.name);
                }
            }
            lemma_descriptors_pass(packages, next, rest);
        } else {
            if names_in(rest, dep.name) {
                let k = choose|k: int|
                    0 <= k < rest.len() && descriptor_name(#[trigger] rest[k]) == dep.name;
                assert(descriptor_name(descriptors[k + 1]) == dep.name);
            }
            assert forall|k: int, l: int|
                0 <= k < rest.len() && 0 <= l < rest.len() && descriptor_name(#[trigger] rest[k])
                    == dep.name && descriptor_name(#[trigger] rest[l]) == dep.name implies k
                == l by {
                assert(descriptor_name(descriptors[l + 1]) == dep.name);
            }
            lemma_descriptors_succeed(packages, dep, rest);
        }
    }
}

/// A pass over a list of dependencies succeeds where it does for each.
proof fn lemma_dependencies_succeed(
    packages: Seq<PackageView>,
    deps: Seq<DependencyView>,
    descriptors: Seq<Seq<char>>,
)
    requires
        forall|j: int|
            0 <= j < deps.len() ==> apply_descriptors(packages, #[trigger] deps[j], descriptors)
                is Ok,
    ensures
        resolved_dependencies(packages, deps, descriptors) is Ok,
    decreases deps.len(),
{
    if deps.len() > 0 {
        let front = deps.drop_last();
        assert forall|j: int| 0 <= j < front.len() implies apply_descriptors(
            packages,
            #[trigger] front[j],
            descriptors,
        ) is Ok by {
            assert(front[j] == deps[j]);
        }
        lemma_dependencies_succeed(packages, front, descriptors);
    }
}

/// The run over the resolved edges succeeds where they fit the packages.
proof fn lemma_nodes_succeed(packages: Seq<PackageView>, nodes: Seq<ResolveNodeView>)
    requires
        packages.len() <= usize::MAX,
        ids_distinct(packages),
        edges_fit(packages, nodes),
    ensures
        apply_nodes(packages, nodes) is Ok,
    decreases nodes.len(),
{
    if nodes.len() > 0 {
        let first = nodes.first();
        let rest = nodes.drop_first();
        assert(is_id(packages, nodes[0].id));
        lemma_position(packages, first.id);
        let owner = position_of(packages, first.id)->Some_0;
        let declared = packages[owner].dependencies;
        assert forall|j: int| 0 <= j < declared.len() implies apply_descriptors(
            packages,
            #[trigger] declared[j],
            first.dependencies,
        ) is Ok by {
            let dep = declared[j];
            assert forall|k: int|
                0 <= k < first.dependencies.len() && descriptor_name(
                    #[trigger] first.dependencies[k],
                ) == dep.name implies position_of(packages, first.dependencies[k]) is Some
                && dep.index is None by {
                assert(is_edge_at(packages, nodes, owner, j, 0, k));
                lemma_position(packages, first.dependencies[k]);
            }
            assert forall|k: int, l: int|
                0 <= k < first.dependencies.len() && 0 <= l < first.dependencies.len()
                    && descriptor_name(#[trigger] first.dependencies[k]) == dep.name
                    && descriptor_name(#[trigger] first.dependencies[l]) == dep.name implies k
                == l by {
                assert(is_edge_at(packages, nodes, owner, j, 0, k));
                assert(is_edge_at(packages, nodes, owner, j, 0, l));
            }
            lemma_descriptors_succeed(packages, dep, first.dependencies);
        }
        lemma_dependencies_succeed(packages, declared, first.dependencies);
        let next = apply_node(packages, first)->Ok_0;
        lemma_applied_node_same(packages, first);
        lemma_resolved_dependencies(packages, declared, first.dependencies);
        assert forall|i: int| 0 <= i < packages.len() implies (#[trigger] next[i]).id
            == packages[i].id by {
            assert(ids(next)[i] == ids(packages)[i]);
        }
        assert forall|i: int, j: int, n: int, k: int| 0 <= n implies (#[trigger] is_edge_at(
            next,
            rest,
            i,
            j,
            n,
            k,
        ) <==> is_edge_at(packages, nodes, i, j, n + 1, k)) by {
            if n < rest.len() {
                assert(rest[n] == nodes[n + 1]);
            }
            if 0 <= i < packages.len() && 0 <= j < packages[i].dependencies.len() {
                assert(next[i].dependencies[j].name == packages[i].dependencies[j].name);
            }
        }
        assert forall|id: Seq<char>| is_id(packages, id) implies is_id(next, id) by {
            let i = choose|i: int| 0 <= i < packages.len() && (#[trigger] packages[i]).id == id;
            assert(next[i].id == id);
        }
        assert forall|n: int| 0 <= n < rest.len() implies is_id(next, (#[trigger] rest[n]).id) by {
            assert(is_id(packages, nodes[n + 1].id));
        }
        assert forall|i: int, j: int, n: int, k: int| #[trigger]
            is_edge_at(next, rest, i, j, n, k) implies next[i].dependencies[j].index is None
            && is_id(next, rest[n].dependencies[k]) by {
            let dep = packages[i].dependencies[j];
            if i == owner {
                lemma_applied_descriptors(packages, dep, first.dependencies);
                if names_in(first.dependencies, dep.name) {
                    let l = choose|l: int|
                        0 <= l < first.dependencies.len() && descriptor_name(
                            #[trigger] first.dependencies[l],
                        ) == dep.name;
                    assert(is_edge_at(packages, nodes, i, j, 0, l));
                }
            }
        }
        assert forall|i: int, j: int, n: int, k: int, m: int, l: int|
            #![trigger is_edge_at(next, rest, i, j, n, k), is_edge_at(next, rest, i, j, m, l)]
            is_edge_at(next, rest, i, j, n, k) && is_edge_at(next, rest, i, j, m, l) implies n
            == m && k == l by {
            assert(is_edge_at(packages, nodes, i, j, m + 1, l));
        }
        lemma_nodes_succeed(next, rest);
    }
}

/// A successful run over the resolved edges shows that they fit the
/// packages.
proof fn lemma_nodes_fit(packages: Seq<PackageView>, nodes: Seq<ResolveNodeView>)
    requires
        packages.len() <= usize::MAX,
        ids_distinct(packages),
        apply_nodes(packages, nodes) is Ok,
    ensures
        edges_fit(packages, nodes),
    decreases nodes.len(),
{
    if nodes.len() == 0 {
        assert forall|i: int, j: int, n: int, k: int| !#[trigger] is_edge_at(
            packages,
            nodes,
            i,
            j,
            n,
            k,
        ) by {}
    } else {
        let first = nodes.first();
        let rest = nodes.drop_first();
        let next = apply_node(packages, first)->Ok_0;
        lemma_position(packages, first.id);
        let owner = position_of(packages, first.id)->Some_0;
        let declared = packages[owner].dependencies;
        lemma_applied_node_same(packages, first);
        lemma_resolved_dependencies(packages, declared, first.dependencies);
        assert forall|i: int| 0 <= i < packages.len() implies (#[trigger] next[i]).id
            == packages[i].id by {
            assert(ids(next)[i] == ids(packages)[i]);
        }
        lemma_nodes_fit(next, rest);
        assert forall|i: int, j: int, n: int, k: int| 0 <= n implies (#[trigger] is_edge_at(
            next,
            rest,
            i,
            j,
            n,
            k,
        ) <==> is_edge_at(packages, nodes, i, j, n + 1, k)) by {
            if n < rest.len() {
                assert(rest[n] == nodes[n + 1]);
            }
            if 0 <= i < packages.len() && 0 <= j < packages[i].dependencies.len() {
                assert(next[i].dependencies[j].name == packages[i].dependencies[j].name);
            }
        }
        assert forall|id: Seq<char>| is_id(next, id) implies is_id(packages, id) by {
            let i = choose|i: int| 0 <= i < next.len() && (#[trigger] next[i]).id == id;
            assert(packages[i].id == id);
        }
        assert forall|n: int| 0 <= n < nodes.len() implies is_id(
            packages,
            (#[trigger] nodes[n]).id,
        ) by {
            if n > 0 {
                assert(is_id(next, rest[n - 1].id));
            }
        }
        // What the first entry does to the dependency `j` of the package
        // at `i`: an edge of that entry gives it its target.
        assert forall|i: int, j: int, k: int| #[trigger]
            is_edge_at(packages, nodes, i, j, 0, k) implies i == owner
            && packages[i].dependencies[j].index is None && next[i].dependencies[j].index is Some
            && is_id(packages, first.dependencies[k]) && forall|l: int|
            is_edge_at(packages, nodes, i, j, 0, l) ==> l == k by {
            let dep = packages[i].dependencies[j];
            lemma_applied_descriptors(packages, dep, first.dependencies);
            let found = choose|l: int|
                0 <= l < first.dependencies.len() && descriptor_name(
                    #[trigger] first.dependencies[l],
                ) == dep.name && is_target(
                    next[i].dependencies[j].index,
                    position_of(packages, first.dependencies[l]),
                );
            assert(descriptor_name(first.dependencies[k]) == dep.name);
            assert(found == k);
            lemma_position(packages, first.dependencies[k]);
            assert forall|l: int| is_edge_at(packages, nodes, i, j, 0, l) implies l == k by {
                assert(descriptor_name(first.dependencies[l]) == dep.name);
            }
        }
        assert forall|i: int, j: int, n: int, k: int| #[trigger]
            is_edge_at(packages, nodes, i, j, n, k) implies packages[i].dependencies[j].index
            is None && is_id(packages, nodes[n].dependencies[k]) by {
            if n > 0 {
                assert(is_edge_at(next, rest, i, j, n - 1, k));
                if i == owner {
                    lemma_applied_descriptors(
                        packages,
                        packages[i].dependencies[j],
                        first.dependencies,
                    );
                }
            }
        }
        assert forall|i: int, j: int, n: int, k: int, m: int, l: int|
            #![trigger
                is_edge_at(packages, nodes, i, j, n, k),
                is_edge_at(packages, nodes, i, j, m, l)
            ]
            is_edge_at(packages, nodes, i, j, n, k) && is_edge_at(
                packages,
                nodes,
                i,
                j,
                m,
                l,
            ) implies n == m && k == l by {
            if n > 0 {
                assert(is_edge_at(next, rest, i, j, n - 1, k));
            }
            if m > 0 {
                assert(is_edge_at(next, rest, i, j, m - 1, l));
            }
        }
    }
}

/// Resolution succeeds exactly where the ids are distinct and the
/// resolved edges fit the packages. A dependency for which there is no
/// edge stands in the way of nothing.
pub proof fn lemma_resolution_succeeds(packages: Seq<PackageView>, nodes: Seq<ResolveNodeView>)
    requires
        packages.len() <= usize::MAX,
    ensures
        resolved(packages, nodes) is Ok <==> ids_distinct(packages) && edges_fit(packages, nodes),
{
    lemma_checked_ids(packages);
    if ids_distinct(packages) {
        if edges_fit(packages, nodes) {
            lemma_nodes_succeed(packages, nodes);
        }
        if apply_nodes(packages, nodes) is Ok {
            lemma_nodes_fit(packages, nodes);
        }
    }
}

} // verus!
