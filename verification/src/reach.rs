//! Which packages can be reached from the roots.
//!
//! The walk follows resolved dependencies and never enters a package that is
//! to be ignored: such a package is neither marked nor walked through.

use crate::index_set::IndexSet;
use crate::package::{links_valid, Package, PackageView};
use vstd::prelude::*;

verus! {

/// Whether the package at `from` has a resolved dependency on the one at
/// `to`.
pub open spec fn edge(packages: Seq<PackageView>, from: int, to: int) -> bool {
    &&& 0 <= from < packages.len()
    &&& 0 <= to <= usize::MAX
    &&& exists|j: int|
        0 <= j < packages[from].dependencies.len()
            && #[trigger] packages[from].dependencies[j].index == Some(to as usize)
}

/// Whether `path[k]` has a resolved dependency on `path[k + 1]`.
pub open spec fn is_step(packages: Seq<PackageView>, path: Seq<int>, k: int) -> bool {
    edge(packages, path[k], path[k + 1])
}

/// Whether `path` is a walk along resolved dependencies, over positions of
/// the list, that stays clear of `blocked`.
pub open spec fn is_path(packages: Seq<PackageView>, blocked: Set<int>, path: Seq<int>) -> bool {
    &&& path.len() > 0
    &&& forall|k: int|
        0 <= k < path.len() ==> 0 <= #[trigger] path[k] < packages.len() && !blocked.contains(
            path[k],
        )
    &&& forall|k: int| 0 <= k < path.len() - 1 ==> #[trigger] is_step(packages, path, k)
}

/// Whether a path clear of `blocked` leads from `from` to `to`. Both ends
/// are on the path, so neither is blocked.
pub open spec fn reaches(
    packages: Seq<PackageView>,
    blocked: Set<int>,
    from: int,
    to: int,
) -> bool {
    exists|path: Seq<int>|
        #[trigger] is_path(packages, blocked, path) && path.first() == from && path.last() == to
}

/// The positions that a path clear of `blocked` leads to from `from`.
pub open spec fn reached_from(packages: Seq<PackageView>, blocked: Set<int>, from: int) -> Set<
    int,
> {
    Set::new(|to: int| reaches(packages, blocked, from, to))
}

/// The positions reachable from some root once the ignored packages and
/// the edges out of them are taken away.
pub open spec fn reachable(packages: Seq<PackageView>, roots: Set<int>, ignored: Set<int>) -> Set<
    int,
> {
    Set::new(
        |to: int|
            exists|root: int|
                roots.contains(root) && #[trigger] reaches(packages, ignored, root, to),
    )
}

/// The set holds, with each of its members, every package that the member
/// depends on and that is not ignored.
pub open spec fn is_closed(packages: Seq<PackageView>, ignored: Set<int>, set: Set<int>) -> bool {
    forall|from: int, to: int|
        set.contains(from) && #[trigger] edge(packages, from, to) && !ignored.contains(to)
            ==> set.contains(to)
}

/// The package list with the flag of each position in `set` raised. A flag
/// that is up stays up.
pub open spec fn marked(packages: Seq<PackageView>, set: Set<int>) -> Seq<PackageView> {
    Seq::new(
        packages.len(),
        |i: int|
            PackageView {
                name: packages[i].name,
                version: packages[i].version,
                source: packages[i].source,
                id: packages[i].id,
                is_member: packages[i].is_member,
                included: packages[i].included || set.contains(i),
                dependencies: packages[i].dependencies,
            },
    )
}

/// A path of one position.
proof fn lemma_path_of_one(packages: Seq<PackageView>, blocked: Set<int>, at: int)
    requires
        0 <= at < packages.len(),
        !blocked.contains(at),
    ensures
        reaches(packages, blocked, at, at),
{
    let path = seq![at];
    assert(is_path(packages, blocked, path));
}

/// A path that goes on over one more edge.
proof fn lemma_path_extended(
    packages: Seq<PackageView>,
    blocked: Set<int>,
    from: int,
    via: int,
    to: int,
)
    requires
        reaches(packages, blocked, from, via),
        edge(packages, via, to),
        0 <= to < packages.len(),
        !blocked.contains(to),
    ensures
        reaches(packages, blocked, from, to),
{
    let path = choose|path: Seq<int>|
        #[trigger] is_path(packages, blocked, path) && path.first() == from && path.last() == via;
    let longer = path.push(to);
    assert forall|k: int| 0 <= k < longer.len() - 1 implies #[trigger] is_step(
        packages,
        longer,
        k,
    ) by {
        if k < path.len() - 1 {
            assert(is_step(packages, path, k));
        }
    }
    assert(is_path(packages, blocked, longer));
}

/// A path that starts one edge earlier, and is clear of fewer positions.
proof fn lemma_path_preceded(
    packages: Seq<PackageView>,
    blocked: Set<int>,
    wider: Set<int>,
    from: int,
    via: int,
    to: int,
)
    requires
        0 <= from < packages.len(),
        !blocked.contains(from),
        edge(packages, from, via),
        reaches(packages, wider, via, to),
        blocked.subset_of(wider),
    ensures
        reaches(packages, blocked, from, to),
{
    let path = choose|path: Seq<int>|
        #[trigger] is_path(packages, wider, path) && path.first() == via && path.last() == to;
    let longer = seq![from] + path;
    assert forall|k: int| 0 <= k < longer.len() - 1 implies #[trigger] is_step(
        packages,
        longer,
        k,
    ) by {
        if k > 0 {
            assert(is_step(packages, path, k - 1));
        }
    }
    assert forall|k: int| 0 <= k < longer.len() implies 0 <= #[trigger] longer[k] < packages.len()
        && !blocked.contains(longer[k]) by {
        if k > 0 {
            assert(longer[k] == path[k - 1]);
        }
    }
    assert(is_path(packages, blocked, longer));
}

/// Along a path that starts in `grown` and is clear of `base`, every position
/// is in `grown`, where `grown` holds the unignored dependencies of each of
/// its members that is not in `base`.
proof fn lemma_path_stays(
    packages: Seq<PackageView>,
    ignored: Set<int>,
    base: Set<int>,
    grown: Set<int>,
    path: Seq<int>,
    k: int,
)
    requires
        is_path(packages, ignored.union(base), path),
        grown.contains(path.first()),
        0 <= k < path.len(),
        forall|from: int, to: int|
            grown.contains(from) && !base.contains(from) && #[trigger] edge(packages, from, to)
                && !ignored.contains(to) ==> grown.contains(to),
    ensures
        grown.contains(path[k]),
    decreases k,
{
    if k > 0 {
        lemma_path_stays(packages, ignored, base, grown, path, k - 1);
        assert(is_step(packages, path, k - 1));
    }
}

/// Along a path, once a position is in a closed set, every later one is.
proof fn lemma_path_caught(
    packages: Seq<PackageView>,
    ignored: Set<int>,
    set: Set<int>,
    path: Seq<int>,
    start: int,
    k: int,
)
    requires
        is_path(packages, ignored, path),
        is_closed(packages, ignored, set),
        0 <= start <= k < path.len(),
        set.contains(path[start]),
    ensures
        set.contains(path[k]),
    decreases k,
{
    if k > start {
        lemma_path_caught(packages, ignored, set, path, start, k - 1);
        assert(is_step(packages, path, k - 1));
    }
}

/// What can be reached from a set of roots is closed.
pub proof fn lemma_reachable_closed(packages: Seq<PackageView>, roots: Set<int>, ignored: Set<int>)
    requires
        links_valid(packages),
    ensures
        is_closed(packages, ignored, reachable(packages, roots, ignored)),
{
    let set = reachable(packages, roots, ignored);
    assert forall|from: int, to: int|
        set.contains(from) && #[trigger] edge(packages, from, to) && !ignored.contains(
            to,
        ) implies set.contains(to) by {
        let root = choose|root: int|
            roots.contains(root) && #[trigger] reaches(packages, ignored, root, from);
        lemma_path_extended(packages, ignored, root, from, to);
    }
}

/// From a root, what lies beyond a closed set is reached without entering
/// it: the paths clear of the set reach all that the paths through it
/// reach, but for the set itself.
proof fn lemma_reach_past_closed(
    packages: Seq<PackageView>,
    ignored: Set<int>,
    set: Set<int>,
    root: int,
)
    requires
        is_closed(packages, ignored, set),
    ensures
        set.union(reached_from(packages, ignored.union(set), root)) == set.union(
            reached_from(packages, ignored, root),
        ),
{
    let narrow = reached_from(packages, ignored.union(set), root);
    let wide = reached_from(packages, ignored, root);
    assert forall|to: int| narrow.contains(to) implies wide.contains(to) by {
        let path = choose|path: Seq<int>|
            #[trigger] is_path(packages, ignored.union(set), path) && path.first() == root
                && path.last() == to;
        assert(is_path(packages, ignored, path));
    }
    assert forall|to: int| wide.contains(to) && !set.contains(to) implies narrow.contains(to) by {
        let path = choose|path: Seq<int>|
            #[trigger] is_path(packages, ignored, path) && path.first() == root && path.last()
                == to;
        assert forall|k: int| 0 <= k < path.len() implies !set.contains(#[trigger] path[k]) by {
            if set.contains(path[k]) {
                lemma_path_caught(packages, ignored, set, path, k, path.len() - 1);
            }
        }
        assert(is_path(packages, ignored.union(set), path));
    }
}

/// One more root adds what can be reached from it.
proof fn lemma_reachable_insert(
    packages: Seq<PackageView>,
    roots: Set<int>,
    ignored: Set<int>,
    root: int,
)
    ensures
        reachable(packages, roots.insert(root), ignored) == reachable(
            packages,
            roots,
            ignored,
        ).union(reached_from(packages, ignored, root)),
{
    let more = reachable(packages, roots.insert(root), ignored);
    let less = reachable(packages, roots, ignored);
    let from_root = reached_from(packages, ignored, root);
    assert forall|to: int| more.contains(to) implies less.contains(to) || from_root.contains(
        to,
    ) by {
        let r = choose|r: int|
            roots.insert(root).contains(r) && #[trigger] reaches(packages, ignored, r, to);
        if r != root {
            assert(roots.contains(r));
        }
    }
    assert forall|to: int| less.contains(to) || from_root.contains(to) implies more.contains(
        to,
    ) by {
        if less.contains(to) {
            let r = choose|r: int|
                roots.contains(r) && #[trigger] reaches(packages, ignored, r, to);
            assert(roots.insert(root).contains(r));
        } else {
            assert(reaches(packages, ignored, root, to));
        }
    }
}

/// Marks what can be reached from `index` and is not marked yet.
///
/// Says of the walk what holds step by step: nothing is unmarked; the
/// start is marked unless ignored; what is newly marked is reached from the
/// start clear of the ignored and of what was marked before; and for each
/// newly marked package the unignored packages it depends on are marked.
fn visit(index: usize, packages: &Vec<Package>, include_set: &mut IndexSet, ignore_set: &IndexSet)
    requires
        index < packages.len(),
        links_valid(packages.deep_view()),
        old(include_set).capacity() == packages.len(),
    ensures
        final(include_set).capacity() == old(include_set).capacity(),
        old(include_set)@.subset_of(final(include_set)@),
        !ignore_set@.contains(index as int) ==> final(include_set)@.contains(index as int),
        forall|to: int|
            final(include_set)@.contains(to) && !old(include_set)@.contains(to) ==> reaches(
                packages.deep_view(),
                ignore_set@.union(old(include_set)@),
                index as int,
                to,
            ),
        forall|from: int, to: int|
            final(include_set)@.contains(from) && !old(include_set)@.contains(from)
                && #[trigger] edge(packages.deep_view(), from, to) && !ignore_set@.contains(to)
                ==> final(include_set)@.contains(to),
    decreases packages.len() - old(include_set)@.len(),
{
    if ignore_set.contains(index) || include_set.contains(index) {
        return;
    }
    let ghost list = packages.deep_view();
    let ghost ignored = ignore_set@;
    let ghost before = include_set@;
    let ghost blocked = ignored.union(before);
    include_set.insert(index);
    let ghost started = include_set@;
    proof {
        old(include_set).lemma_bounded();
        lemma_path_of_one(list, blocked, index as int);
    }
    let count = packages[index].dependencies.len();
    let mut j: usize = 0;
    while j < count
        invariant
            0 <= j <= count,
            index < packages.len(),
            links_valid(list),
            list == packages.deep_view(),
            ignored == ignore_set@,
            blocked == ignored.union(before),
            started == before.insert(index as int),
            before == old(include_set)@,
            before.finite(),
            !before.contains(index as int),
            !ignored.contains(index as int),
            count == packages[index as int].dependencies.len(),
            include_set.capacity() == packages.len(),
            started.subset_of(include_set@),
            forall|to: int|
                include_set@.contains(to) && !before.contains(to) ==> reaches(
                    list,
                    blocked,
                    index as int,
                    to,
                ),
            forall|from: int, to: int|
                include_set@.contains(from) && !started.contains(from) && #[trigger] edge(
                    list,
                    from,
                    to,
                ) && !ignored.contains(to) ==> include_set@.contains(to),
            forall|i: int|
                0 <= i < j ==> (#[trigger] list[index as int].dependencies[i].index matches Some(
                    target,
                ) ==> ignored.contains(target as int) || include_set@.contains(target as int)),
        decreases count - j,
    {
        assert(list[index as int].dependencies[j as int].index
            == packages[index as int].dependencies[j as int].index);
        if let Some(target) = packages[index].dependencies[j].index {
            let ghost marked = include_set@;
            proof {
                include_set.lemma_bounded();
                vstd::set_lib::lemma_len_subset(started, marked);
            }
            visit(target, packages, include_set, ignore_set);
            proof {
                assert forall|to: int|
                    include_set@.contains(to) && !before.contains(to) implies reaches(
                    list,
                    blocked,
                    index as int,
                    to,
                ) by {
                    if !marked.contains(to) {
                        lemma_path_preceded(
                            list,
                            blocked,
                            ignored.union(marked),
                            index as int,
                            target as int,
                            to,
                        );
                    }
                }
            }
        }
        j += 1;
    }
    proof {
        assert forall|from: int, to: int|
            include_set@.contains(from) && !before.contains(from) && #[trigger] edge(
                list,
                from,
                to,
            ) && !ignored.contains(to) implies include_set@.contains(to) by {
            if from == index {
                let i = choose|i: int|
                    0 <= i < list[from].dependencies.len()
                        && #[trigger] list[from].dependencies[i].index == Some(to as usize);
                assert(list[index as int].dependencies[i].index matches Some(target) && target
                    == to);
            }
        }
    }
}

/// Marks everything that can be reached from `index` without entering a
/// package that is ignored or already marked.
///
/// What was marked stays marked. A start that is ignored or already marked
/// adds nothing.
pub fn mark_deps(
    index: usize,
    packages: &Vec<Package>,
    include_set: &mut IndexSet,
    ignore_set: &IndexSet,
)
    requires
        index < packages.len(),
        links_valid(packages.deep_view()),
        old(include_set).capacity() == packages.len(),
    ensures
        final(include_set).capacity() == old(include_set).capacity(),
        final(include_set)@ == old(include_set)@.union(
            reached_from(
                packages.deep_view(),
                ignore_set@.union(old(include_set)@),
                index as int,
            ),
        ),
{
    let ghost list = packages.deep_view();
    let ghost before = include_set@;
    let ghost blocked = ignore_set@.union(before);
    visit(index, packages, include_set, ignore_set);
    proof {
        let grown = include_set@;
        assert forall|to: int| reaches(list, blocked, index as int, to) implies grown.contains(
            to,
        ) by {
            let path = choose|path: Seq<int>|
                #[trigger] is_path(list, blocked, path) && path.first() == index as int
                    && path.last() == to;
            assert(!blocked.contains(path[0]));
            lemma_path_stays(list, ignore_set@, before, grown, path, path.len() - 1);
        }
    }
}

/// Finds the packages to draw and raises their flags.
///
/// Returns the set of packages that can be reached from a root along
/// resolved dependencies without entering an ignored package. An ignored
/// root is not in it. The flag of each package in the set is raised; no flag
/// is lowered and nothing else changes.
pub fn mark_reachable(
    packages: &mut Vec<Package>,
    roots: &IndexSet,
    ignore_set: &IndexSet,
) -> (include_set: IndexSet)
    requires
        links_valid(old(packages).deep_view()),
        forall|root: int| roots@.contains(root) ==> root < old(packages).len(),
    ensures
        include_set.capacity() == old(packages).len(),
        include_set@ == reachable(old(packages).deep_view(), roots@, ignore_set@),
        final(packages).deep_view() == marked(old(packages).deep_view(), include_set@),
{
    let ghost list = packages.deep_view();
    let ghost ignored = ignore_set@;
    let root_list = roots.indices();
    let mut include_set = IndexSet::new(packages.len());
    let mut k: usize = 0;
    assert(include_set@ =~= reachable(list, positions(root_list@.take(0)), ignored));
    while k < root_list.len()
        invariant
            0 <= k <= root_list.len(),
            list == packages.deep_view(),
            links_valid(list),
            ignored == ignore_set@,
            include_set.capacity() == packages.len(),
            forall|i: int| 0 <= i < root_list.len() ==> #[trigger] root_list[i] < packages.len(),
            include_set@ == reachable(list, positions(root_list@.take(k as int)), ignored),
        decreases root_list.len() - k,
    {
        let ghost done = positions(root_list@.take(k as int));
        let root = root_list[k];
        mark_deps(root, packages, &mut include_set, ignore_set);
        proof {
            assert(root_list@.take(k + 1) =~= root_list@.take(k as int).push(root));
            lemma_positions_push(root_list@.take(k as int), root);
            lemma_reachable_closed(list, done, ignored);
            lemma_reach_past_closed(list, ignored, reachable(list, done, ignored), root as int);
            lemma_reachable_insert(list, done, ignored, root as int);
        }
        k += 1;
    }
    proof {
        let all = positions(root_list@);
        assert(root_list@.take(k as int) =~= root_list@);
        assert forall|x: int| all.contains(x) <==> roots@.contains(x) by {
            if all.contains(x) {
                let i = choose|i: int| 0 <= i < root_list@.len() && root_list@[i] as int == x;
                assert(roots@.contains(root_list@[i] as int));
            }
        }
    }
    let mut i: usize = 0;
    while i < packages.len()
        invariant
            0 <= i <= packages.len(),
            packages.len() == list.len(),
            include_set.capacity() == packages.len(),
            forall|m: int|
                0 <= m < i ==> (#[trigger] packages[m]).deep_view() == marked(
                    list,
                    include_set@,
                )[m],
            forall|m: int|
                i <= m < packages.len() ==> (#[trigger] packages[m]).deep_view() == list[m],
        decreases packages.len() - i,
    {
        if include_set.contains(i) {
            packages[i].included = true;
        }
        i += 1;
    }
    include_set
}

/// The positions that a list holds.
pub open spec fn positions(list: Seq<usize>) -> Set<int> {
    Set::new(|x: int| exists|i: int| 0 <= i < list.len() && #[trigger] list[i] as int == x)
}

/// One more position in the list is one more in the set.
proof fn lemma_positions_push(list: Seq<usize>, last: usize)
    ensures
        positions(list.push(last)) == positions(list).insert(last as int),
{
    let longer = list.push(last);
    assert forall|x: int| positions(longer).contains(x) <==> positions(list).contains(x) || x
        == last by {
        if positions(longer).contains(x) {
            let i = choose|i: int| 0 <= i < longer.len() && #[trigger] longer[i] as int == x;
            if i < list.len() {
                assert(list[i] as int == x);
            }
        }
        if positions(list).contains(x) {
            let i = choose|i: int| 0 <= i < list.len() && #[trigger] list[i] as int == x;
            assert(longer[i] as int == x);
        }
        if x == last {
            assert(longer[list.len() as int] as int == x);
        }
    }
}

/// Raising flags changes nothing of what can be reached, so marking a
/// second time from the same roots, with the same packages ignored, finds
/// the same set and leaves the list as the first marking left it.
pub proof fn lemma_marking_idempotent(
    packages: Seq<PackageView>,
    roots: Set<int>,
    ignored: Set<int>,
)
    ensures
        ({
            let found = reachable(packages, roots, ignored);
            let after = marked(packages, found);
            &&& reachable(after, roots, ignored) == found
            &&& marked(after, reachable(after, roots, ignored)) == after
        }),
{
    let found = reachable(packages, roots, ignored);
    let after = marked(packages, found);
    lemma_marked_reachable(packages, found, roots, ignored);
}

/// Raising flags changes nothing of what can be reached.
pub proof fn lemma_marked_reachable(
    packages: Seq<PackageView>,
    set: Set<int>,
    roots: Set<int>,
    ignored: Set<int>,
)
    ensures
        reachable(marked(packages, set), roots, ignored) == reachable(packages, roots, ignored),
{
    let after = marked(packages, set);
    assert forall|from: int, to: int| edge(after, from, to) == edge(packages, from, to) by {
        if 0 <= from < packages.len() {
            assert(after[from].dependencies == packages[from].dependencies);
        }
    }
    assert forall|path: Seq<int>| is_path(after, ignored, path) == is_path(
        packages,
        ignored,
        path,
    ) by {
        assert forall|k: int| is_step(after, path, k) == is_step(packages, path, k) by {}
    }
    assert forall|from: int, to: int| reaches(after, ignored, from, to) == reaches(
        packages,
        ignored,
        from,
        to,
    ) by {
        if reaches(after, ignored, from, to) {
            let path = choose|path: Seq<int>|
                #[trigger] is_path(after, ignored, path) && path.first() == from && path.last()
                    == to;
            assert(is_path(packages, ignored, path));
        }
        if reaches(packages, ignored, from, to) {
            let path = choose|path: Seq<int>|
                #[trigger] is_path(packages, ignored, path) && path.first() == from
                    && path.last() == to;
            assert(is_path(after, ignored, path));
        }
    }
}

} // verus!
