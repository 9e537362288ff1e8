//! Packages and their declared dependencies, and how they are made out of
//! the records of a metadata provider.

use crate::error::{outcome, GraphError, GraphErrorView};
use crate::version::{semver_parse, Version, VersionView};
use vstd::prelude::*;

verus! {

/// What a dependency is needed for.
#[derive(Clone, Copy, Debug, PartialEq, Eq, Structural)]
pub enum DependencyKind {
    Normal,
    Development,
    Build,
}

/// A dependency as a package declares it.
#[derive(Debug)]
pub struct DependencyRecord {
    pub name: String,
    pub source: Option<String>,
    /// The version requirement, as written.
    pub req: String,
    pub kind: DependencyKind,
    pub optional: bool,
}

/// The mathematical value of a [`DependencyRecord`].
pub struct DependencyRecordView {
    pub name: Seq<char>,
    pub source: Option<Seq<char>>,
    pub req: Seq<char>,
    pub kind: DependencyKind,
    pub optional: bool,
}

impl DeepView for DependencyRecord {
    type V = DependencyRecordView;

    open spec fn deep_view(&self) -> DependencyRecordView {
        DependencyRecordView {
            name: self.name@,
            source: self.source.deep_view(),
            req: self.req@,
            kind: self.kind,
            optional: self.optional,
        }
    }
}

/// A package as the metadata provider reports it.
#[derive(Debug)]
pub struct PackageRecord {
    pub name: String,
    /// The version, as text.
    pub version: String,
    /// The provider's key for the package.
    pub id: String,
    pub source: Option<String>,
    pub dependencies: Vec<DependencyRecord>,
}

/// The mathematical value of a [`PackageRecord`].
pub struct PackageRecordView {
    pub name: Seq<char>,
    pub version: Seq<char>,
    pub id: Seq<char>,
    pub source: Option<Seq<char>>,
    pub dependencies: Seq<DependencyRecordView>,
}

impl DeepView for PackageRecord {
    type V = PackageRecordView;

    open spec fn deep_view(&self) -> PackageRecordView {
        PackageRecordView {
            name: self.name@,
            version: self.version@,
            id: self.id@,
            source: self.source.deep_view(),
            dependencies: self.dependencies.deep_view(),
        }
    }
}

/// A first-party package of the workspace, by name and version.
#[derive(Debug)]
pub struct Member {
    pub name: String,
    pub version: Version,
}

/// The mathematical value of a [`Member`].
pub struct MemberView {
    pub name: Seq<char>,
    pub version: VersionView,
}

impl DeepView for Member {
    type V = MemberView;

    open spec fn deep_view(&self) -> MemberView {
        MemberView { name: self.name@, version: self.version.deep_view() }
    }
}

/// An edge of the graph: a dependency of the package that holds it.
#[derive(Debug)]
pub struct Dependency {
    /// The position of the package depended on, once it is known.
    pub index: Option<usize>,
    pub name: String,
    pub source: Option<String>,
    pub req: String,
    pub kind: DependencyKind,
    pub optional: bool,
}

/// The mathematical value of a [`Dependency`].
pub struct DependencyView {
    pub index: Option<usize>,
    pub name: Seq<char>,
    pub source: Option<Seq<char>>,
    pub req: Seq<char>,
    pub kind: DependencyKind,
    pub optional: bool,
}

impl DeepView for Dependency {
    type V = DependencyView;

    open spec fn deep_view(&self) -> DependencyView {
        DependencyView {
            index: self.index,
            name: self.name@,
            source: self.source.deep_view(),
            req: self.req@,
            kind: self.kind,
            optional: self.optional,
        }
    }
}

/// A node of the graph. Its position in the package list is its identity.
#[derive(Debug)]
pub struct Package {
    pub name: String,
    /// The version, as text. It is a semantic version.
    pub version: String,
    pub source: Option<String>,
    /// The provider's key, by which resolved edges refer to the package.
    pub id: String,
    /// Whether the package belongs to the workspace.
    pub is_member: bool,
    /// Whether the package was found reachable and is to be drawn.
    pub included: bool,
    pub dependencies: Vec<Dependency>,
}

/// The mathematical value of a [`Package`].
pub struct PackageView {
    pub name: Seq<char>,
    pub version: Seq<char>,
    pub source: Option<Seq<char>>,
    pub id: Seq<char>,
    pub is_member: bool,
    pub included: bool,
    pub dependencies: Seq<DependencyView>,
}

impl DeepView for Package {
    type V = PackageView;

    open spec fn deep_view(&self) -> PackageView {
        PackageView {
            name: self.name@,
            version: self.version@,
            source: self.source.deep_view(),
            id: self.id@,
            is_member: self.is_member,
            included: self.included,
            dependencies: self.dependencies.deep_view(),
        }
    }
}

/// Every resolved dependency leads to a position in the list.
pub open spec fn links_valid(packages: Seq<PackageView>) -> bool {
    forall|i: int, j: int|
        0 <= i < packages.len() && 0 <= j < packages[i].dependencies.len() ==> (
        #[trigger] packages[i].dependencies[j].index matches Some(target) ==> target
            < packages.len())
}

/// No dependency is resolved.
pub open spec fn links_open(packages: Seq<PackageView>) -> bool {
    forall|i: int, j: int|
        0 <= i < packages.len() && 0 <= j < packages[i].dependencies.len() ==> (
        #[trigger] packages[i].dependencies[j].index) is None
}

/// Whether some member has the given name and is the same release as the
/// given version. Sources are not compared.
pub open spec fn is_member(
    name: Seq<char>,
    version: VersionView,
    members: Seq<MemberView>,
) -> bool {
    exists|k: int|
        0 <= k < members.len() && (#[trigger] members[k]).name == name
            && members[k].version.same_release(version)
}

/// A declared dependency as an edge whose target is not known yet.
pub open spec fn unresolved(record: DependencyRecordView) -> DependencyView {
    DependencyView {
        index: None,
        name: record.name,
        source: record.source,
        req: record.req,
        kind: record.kind,
        optional: record.optional,
    }
}

/// The package that a record stands for, or the error where the record's
/// version is not a semantic version.
pub open spec fn built_package(
    record: PackageRecordView,
    members: Seq<MemberView>,
) -> Result<PackageView, GraphErrorView> {
    match semver_parse(record.version) {
        None => Err(GraphErrorView::InvalidVersion(record.version)),
        Some(version) => Ok(
            PackageView {
                name: record.name,
                version: record.version,
                source: record.source,
                id: record.id,
                is_member: is_member(record.name, version, members),
                included: false,
                dependencies: record.dependencies.map_values(
                    |d: DependencyRecordView| unresolved(d),
                ),
            },
        ),
    }
}

/// The packages that a list of records stands for, in the same order, or the
/// error of the first record that has one.
pub open spec fn built_packages(
    records: Seq<PackageRecordView>,
    members: Seq<MemberView>,
) -> Result<Seq<PackageView>, GraphErrorView>
    decreases records.len(),
{
    if records.len() == 0 {
        Ok(Seq::empty())
    } else {
        match built_packages(records.drop_last(), members) {
            Err(error) => Err(error),
            Ok(packages) => match built_package(records.last(), members) {
                Err(error) => Err(error),
                Ok(package) => Ok(packages.push(package)),
            },
        }
    }
}

/// A copy of an optional text.
pub fn clone_text(text: &Option<String>) -> (copy: Option<String>)
    ensures
        copy.deep_view() == text.deep_view(),
{
    match text {
        Some(s) => Some(s.clone()),
        None => None,
    }
}

impl Dependency {
    /// The edge for a declared dependency, with its target not known yet.
    pub fn from_record(record: &DependencyRecord) -> (dep: Dependency)
        ensures
            dep.deep_view() == unresolved(record.deep_view()),
    {
        Dependency {
            index: None,
            name: record.name.clone(),
            source: clone_text(&record.source),
            req: record.req.clone(),
            kind: record.kind,
            optional: record.optional,
        }
    }
}

impl Package {
    /// Makes the package for one record.
    ///
    /// Fails where the record's version is not a semantic version. The
    /// package is a member when a member entry has its name and is the same
    /// release. It starts out not included, with no dependency resolved.
    pub fn from_metadata(record: &PackageRecord, members: &Vec<Member>) -> (r: Result<
        Package,
        GraphError,
    >)
        ensures
            outcome(r) == built_package(record.deep_view(), members.deep_view()),
    {
        let version = match Version::parse(record.version.as_str()) {
            Some(version) => version,
            None => {
                return Err(GraphError::InvalidVersion(record.version.clone()));
            },
        };
        let ghost wanted = version.deep_view();
        let ghost entries = members.deep_view();
        let mut is_member = false;
        let mut k: usize = 0;
        while k < members.len() && !is_member
            invariant
                0 <= k <= members.len(),
                wanted == version.deep_view(),
                entries == members.deep_view(),
                is_member ==> self::is_member(record.name@, wanted, entries),
                !is_member ==> forall|j: int|
                    0 <= j < k ==> !((#[trigger] entries[j]).name == record.name@
                        && entries[j].version.same_release(wanted)),
            decreases members.len() - k + if is_member { 0int } else { 1int },
        {
            if members[k].name == record.name && members[k].version.same_release(&version) {
                assert(entries[k as int].name == record.name@);
                is_member = true;
            } else {
                k += 1;
            }
        }
        let mut dependencies: Vec<Dependency> = Vec::new();
        let mut j: usize = 0;
        while j < record.dependencies.len()
            invariant
                0 <= j <= record.dependencies.len(),
                dependencies.len() == j,
                forall|i: int|
                    0 <= i < j ==> (#[trigger] dependencies[i]).deep_view() == unresolved(
                        record.dependencies[i].deep_view(),
                    ),
            decreases record.dependencies.len() - j,
        {
            dependencies.push(Dependency::from_record(&record.dependencies[j]));
            j += 1;
        }
        assert(dependencies.deep_view() =~= record.deep_view().dependencies.map_values(
            |d: DependencyRecordView| unresolved(d),
        ));
        Ok(
            Package {
                name: record.name.clone(),
                version: record.version.clone(),
                source: clone_text(&record.source),
                id: record.id.clone(),
                is_member,
                included: false,
                dependencies,
            },
        )
    }
}

/// Makes the package list for a list of records, in the same order.
///
/// All or nothing: fails with the error of the first record whose version
/// is not a semantic version.
pub fn build_packages(records: &Vec<PackageRecord>, members: &Vec<Member>) -> (r: Result<
    Vec<Package>,
    GraphError,
>)
    ensures
        outcome(r) == built_packages(records.deep_view(), members.deep_view()),
        r matches Ok(packages) ==> links_open(packages.deep_view()),
{
    let mut packages: Vec<Package> = Vec::new();
    let mut i: usize = 0;
    assert(packages.deep_view() =~= Seq::<PackageView>::empty());
    while i < records.len()
        invariant
            0 <= i <= records.len(),
            built_packages(records.deep_view().take(i as int), members.deep_view()) == Ok::<
                Seq<PackageView>,
                GraphErrorView,
            >(packages.deep_view()),
        decreases records.len() - i,
    {
        let ghost done = records.deep_view().take(i as int);
        let ghost next = records.deep_view().take(i + 1);
        assert(next.drop_last() =~= done);
        match Package::from_metadata(&records[i], members) {
            Err(error) => {
                proof {
                    lemma_error_stays(records.deep_view(), members.deep_view(), i + 1);
                }
                return Err(error);
            },
            Ok(package) => {
                let ghost before = packages.deep_view();
                packages.push(package);
                assert(packages.deep_view() =~= before.push(package.deep_view()));
            },
        }
        i += 1;
    }
    assert(records.deep_view().take(i as int) =~= records.deep_view());
    proof {
        lemma_built_packages(records.deep_view(), members.deep_view());
    }
    Ok(packages)
}

/// Once a prefix of the records fails, every longer prefix fails alike.
pub proof fn lemma_error_stays(records: Seq<PackageRecordView>, members: Seq<MemberView>, n: int)
    requires
        0 <= n <= records.len(),
        built_packages(records.take(n), members) is Err,
    ensures
        built_packages(records, members) == built_packages(records.take(n), members),
    decreases records.len(),
{
    if n < records.len() {
        assert(records.drop_last().take(n) =~= records.take(n));
        lemma_error_stays(records.drop_last(), members, n);
    } else {
        assert(records.take(n) =~= records);
    }
}

/// The packages of a successful build stand for the records one for one.
pub proof fn lemma_built_packages(records: Seq<PackageRecordView>, members: Seq<MemberView>)
    requires
        built_packages(records, members) is Ok,
    ensures
        ({
            let packages = built_packages(records, members)->Ok_0;
            &&& packages.len() == records.len()
            &&& forall|i: int|
                0 <= i < records.len() ==> built_package(#[trigger] records[i], members) == Ok::<
                    PackageView,
                    GraphErrorView,
                >(packages[i])
            &&& links_open(packages)
        }),
    decreases records.len(),
{
    if records.len() > 0 {
        let front = records.drop_last();
        let packages = built_packages(records, members)->Ok_0;
        lemma_built_packages(front, members);
        assert forall|i: int| 0 <= i < records.len() implies built_package(
            #[trigger] records[i],
            members,
        ) == Ok::<PackageView, GraphErrorView>(packages[i]) by {
            if i < front.len() {
                assert(front[i] == records[i]);
            }
        }
        assert forall|i: int, j: int|
            0 <= i < packages.len() && 0 <= j < packages[i].dependencies.len() implies (
        #[trigger] packages[i].dependencies[j].index) is None by {
            assert(built_package(records[i], members) is Ok);
        }
    } else {
        assert(links_open(built_packages(records, members)->Ok_0));
    }
}

} // verus!
