//! From the provider's records to the text of the graph, in one step.

use crate::error::{outcome, GraphError, GraphErrorView};
use crate::package::{
    build_packages, built_package, built_packages, lemma_built_packages, Member, MemberView,
    PackageRecord, PackageRecordView,
};
use crate::reach::{mark_reachable, marked, reachable};
use crate::render::{render, rendering};
use crate::resolve::{resolve, resolved, ResolveNode, ResolveNodeView};
use crate::resolve_lemmas::lemma_shared_id_fails;
use crate::select::{ignore_set, root_set, select_ignored, select_roots};
use vstd::prelude::*;

verus! {

/// The text of the graph for the provider's records, or the error that
/// ends the run.
///
/// The packages are built, their dependencies resolved, the packages of the
/// excluded names set aside, and the roots chosen. What can be reached from
/// the roots is marked, and the marked packages are drawn.
pub open spec fn graph_text(
    records: Seq<PackageRecordView>,
    members: Seq<MemberView>,
    nodes: Seq<ResolveNodeView>,
    roots: Seq<Seq<char>>,
    excluded: Seq<Seq<char>>,
) -> Result<Seq<char>, GraphErrorView> {
    match built_packages(records, members) {
        Err(error) => Err(error),
        Ok(built) => match resolved(built, nodes) {
            Err(error) => Err(error),
            Ok(packages) => match ignore_set(packages, excluded) {
                Err(error) => Err(error),
                Ok(ignored) => {
                    let found = reachable(packages, root_set(packages, roots), ignored);
                    Ok(rendering(marked(packages, found), ignored))
                },
            },
        },
    }
}

/// Draws the dependency graph of a workspace.
///
/// `records` and `members` are the provider's packages and workspace
/// members, `nodes` its resolved edges. `roots` names the packages to start
/// from; where it is empty, the members are the roots. `excluded` names the
/// packages to leave out, with all that only they lead to.
///
/// Fails, in this order, where a version is not a semantic version, where
/// two packages share an id, where the resolved edges do not fit the
/// packages, and where an excluded name is no package's. Nothing is drawn
/// then.
pub fn dependency_graph(
    records: &Vec<PackageRecord>,
    members: &Vec<Member>,
    nodes: &Vec<ResolveNode>,
    roots: &Vec<String>,
    excluded: &Vec<String>,
) -> (r: Result<String, GraphError>)
    ensures
        outcome(r) == graph_text(
            records.deep_view(),
            members.deep_view(),
            nodes.deep_view(),
            roots.deep_view(),
            excluded.deep_view(),
        ),
{
    let built = match build_packages(records, members) {
        Err(error) => {
            return Err(error);
        },
        Ok(built) => built,
    };
    let mut packages = match resolve(built, nodes) {
        Err(error) => {
            return Err(error);
        },
        Ok(packages) => packages,
    };
    let ignore_set = match select_ignored(&packages, excluded) {
        Err(error) => {
            return Err(error);
        },
        Ok(set) => set,
    };
    let root_set = select_roots(&packages, roots);
    proof {
        root_set.lemma_bounded();
    }
    mark_reachable(&mut packages, &root_set, &ignore_set);
    Ok(render(&packages, &ignore_set))
}

/// Two records with one id are fatal, whatever else the input holds.
/// Where every version is a semantic version, the error is that for a
/// shared id.
pub proof fn lemma_shared_id_fatal(
    records: Seq<PackageRecordView>,
    members: Seq<MemberView>,
    nodes: Seq<ResolveNodeView>,
    roots: Seq<Seq<char>>,
    excluded: Seq<Seq<char>>,
    a: int,
    b: int,
)
    requires
        0 <= a < b < records.len(),
        records[a].id == records[b].id,
    ensures
        graph_text(records, members, nodes, roots, excluded) is Err,
        built_packages(records, members) is Ok ==> (graph_text(
            records,
            members,
            nodes,
            roots,
            excluded,
        ) matches Err(GraphErrorView::DuplicateId(_))),
{
    if built_packages(records, members) is Ok {
        let built = built_packages(records, members)->Ok_0;
        lemma_built_packages(records, members);
        lemma_shared_id_fails(built, nodes, a, b);
    }
}

} // verus!
