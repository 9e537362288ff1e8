//! Drawing the graph as text.
//!
//! The text is a `digraph`: a cluster with the workspace members that are
//! drawn, then the other packages that are drawn, then the edges. A package
//! is drawn when its flag is up and it is not ignored. Packages and edges
//! come in the order of the package list, so the text depends on nothing
//! but the list and the ignored positions.

use crate::index_set::IndexSet;
use crate::package::{Package, PackageView};
use vstd::prelude::*;
use vstd::string::StringExecFns;

verus! {

/// The decimal digit `d`, for `d` below ten.
pub open spec fn digit(d: nat) -> Seq<char> {
    if d == 0 {
        "0"@
    } else if d == 1 {
        "1"@
    } else if d == 2 {
        "2"@
    } else if d == 3 {
        "3"@
    } else if d == 4 {
        "4"@
    } else if d == 5 {
        "5"@
    } else if d == 6 {
        "6"@
    } else if d == 7 {
        "7"@
    } else if d == 8 {
        "8"@
    } else {
        "9"@
    }
}

/// The number in decimal, without leading zeros.
pub open spec fn decimal(n: nat) -> Seq<char>
    decreases n,
{
    if n < 10 {
        digit(n)
    } else {
        decimal(n / 10) + digit(n % 10)
    }
}

/// The name of the node for the package at position `i`. It is made of the
/// position, so two packages never share it.
pub open spec fn node_id(i: nat) -> Seq<char> {
    "N"@ + decimal(i)
}

/// Whether the package at position `i` is drawn.
pub open spec fn is_drawn(packages: Seq<PackageView>, ignored: Set<int>, i: int) -> bool {
    packages[i].included && !ignored.contains(i)
}

/// The line that declares the node of `package`, at position `i`, after
/// `indent`. The label is the package's name and version.
pub open spec fn node_line(indent: Seq<char>, i: nat, package: PackageView) -> Seq<char> {
    indent + node_id(i) + " [label=\""@ + package.name + " "@ + package.version + "\"];\n"@
}

/// The line for an edge between two positions.
pub open spec fn edge_line(from: nat, to: nat) -> Seq<char> {
    "  "@ + node_id(from) + " -> "@ + node_id(to) + ";\n"@
}

/// The node lines, each after `indent`, of those among the first `n`
/// packages that are drawn and whose membership is `members`.
pub open spec fn node_lines(
    packages: Seq<PackageView>,
    ignored: Set<int>,
    members: bool,
    indent: Seq<char>,
    n: nat,
) -> Seq<char>
    decreases n,
{
    if n == 0 {
        Seq::empty()
    } else {
        let i = (n - 1) as nat;
        node_lines(packages, ignored, members, indent, i) + if packages[i as int].is_member
            == members && is_drawn(packages, ignored, i as int) {
            node_line(indent, i, packages[i as int])
        } else {
            Seq::empty()
        }
    }
}

/// The edge lines for the first `n` dependencies of `package`, at position
/// `from`: one for each that is resolved.
pub open spec fn edges_of(package: PackageView, from: nat, n: nat) -> Seq<char>
    decreases n,
{
    if n == 0 {
        Seq::empty()
    } else {
        let j = (n - 1) as nat;
        edges_of(package, from, j) + match package.dependencies[j as int].index {
            Some(to) => edge_line(from, to as nat),
            None => Seq::empty(),
        }
    }
}

/// The edge lines of the drawn packages among the first `n`. Whether the
/// package at the far end is drawn plays no part.
pub open spec fn edge_lines(packages: Seq<PackageView>, ignored: Set<int>, n: nat) -> Seq<char>
    decreases n,
{
    if n == 0 {
        Seq::empty()
    } else {
        let i = (n - 1) as nat;
        edge_lines(packages, ignored, i) + if is_drawn(packages, ignored, i as int) {
            edges_of(packages[i as int], i, packages[i as int].dependencies.len())
        } else {
            Seq::empty()
        }
    }
}

/// The text of the graph: the opening, the cluster of the members, the
/// other packages, the edges, the closing.
pub open spec fn rendering(packages: Seq<PackageView>, ignored: Set<int>) -> Seq<char> {
    "digraph dependencies {\n"@ + "  subgraph cluster0 {\n"@
        + "  label = \"Workspace Members\";\n"@ + node_lines(
        packages,
        ignored,
        true,
        "    "@,
        packages.len(),
    ) + "  }\n"@ + node_lines(packages, ignored, false, "  "@, packages.len()) + edge_lines(
        packages,
        ignored,
        packages.len(),
    ) + "}\n"@
}

/// The text of a digit.
fn digit_text(d: usize) -> (text: &'static str)
    requires
        d < 10,
    ensures
        text@ == digit(d as nat),
{
    if d == 0 {
        "0"
    } else if d == 1 {
        "1"
    } else if d == 2 {
        "2"
    } else if d == 3 {
        "3"
    } else if d == 4 {
        "4"
    } else if d == 5 {
        "5"
    } else if d == 6 {
        "6"
    } else if d == 7 {
        "7"
    } else if d == 8 {
        "8"
    } else {
        "9"
    }
}

/// Writes a number in decimal at the end of `out`.
pub fn push_decimal(out: &mut String, n: usize)
    ensures
        final(out)@ == old(out)@ + decimal(n as nat),
    decreases n,
{
    if n < 10 {
        out.append(digit_text(n));
    } else {
        push_decimal(out, n / 10);
        out.append(digit_text(n % 10));
    }
}

/// Writes the name of a node at the end of `out`.
fn push_node_id(out: &mut String, i: usize)
    ensures
        final(out)@ == old(out)@ + node_id(i as nat),
{
    out.append("N");
    push_decimal(out, i);
}

/// Writes the line that declares a node at the end of `out`.
fn push_node_line(out: &mut String, indent: &str, i: usize, package: &Package)
    ensures
        final(out)@ == old(out)@ + node_line(indent@, i as nat, package.deep_view()),
{
    out.append(indent);
    push_node_id(out, i);
    out.append(" [label=\"");
    out.append(package.name.as_str());
    out.append(" ");
    out.append(package.version.as_str());
    out.append("\"];\n");
}

/// Writes the line for an edge at the end of `out`.
fn push_edge_line(out: &mut String, from: usize, to: usize)
    ensures
        final(out)@ == old(out)@ + edge_line(from as nat, to as nat),
{
    out.append("  ");
    push_node_id(out, from);
    out.append(" -> ");
    push_node_id(out, to);
    out.append(";\n");
}

/// Writes at the end of `out` the node lines, each after `indent`, of the
/// drawn packages whose membership is `members`.
fn push_node_lines(
    out: &mut String,
    packages: &Vec<Package>,
    ignore_set: &IndexSet,
    members: bool,
    indent: &str,
)
    ensures
        final(out)@ == old(out)@ + node_lines(
            packages.deep_view(),
            ignore_set@,
            members,
            indent@,
            packages.len() as nat,
        ),
{
    let ghost list = packages.deep_view();
    let ghost ignored = ignore_set@;
    let mut i: usize = 0;
    assert(out@ =~= old(out)@ + Seq::<char>::empty());
    while i < packages.len()
        invariant
            0 <= i <= packages.len(),
            list == packages.deep_view(),
            ignored == ignore_set@,
            out@ == old(out)@ + node_lines(list, ignored, members, indent@, i as nat),
        decreases packages.len() - i,
    {
        let package = &packages[i];
        assert(list[i as int] == package.deep_view());
        if package.is_member == members && package.included && !ignore_set.contains(i) {
            push_node_line(out, indent, i, package);
        }
        i += 1;
    }
}

/// Writes the edge lines of one package at the end of `out`.
fn push_edges_of(out: &mut String, from: usize, package: &Package)
    ensures
        final(out)@ == old(out)@ + edges_of(
            package.deep_view(),
            from as nat,
            package.dependencies.len() as nat,
        ),
{
    let ghost view = package.deep_view();
    let mut j: usize = 0;
    assert(out@ =~= old(out)@ + Seq::<char>::empty());
    while j < package.dependencies.len()
        invariant
            0 <= j <= package.dependencies.len(),
            view == package.deep_view(),
            out@ == old(out)@ + edges_of(view, from as nat, j as nat),
        decreases package.dependencies.len() - j,
    {
        assert(view.dependencies[j as int].index == package.dependencies[j as int].index);
        if let Some(to) = package.dependencies[j].index {
            push_edge_line(out, from, to);
        }
        j += 1;
    }
}

/// Writes the edge lines of the drawn packages at the end of `out`.
fn push_edge_lines(out: &mut String, packages: &Vec<Package>, ignore_set: &IndexSet)
    ensures
        final(out)@ == old(out)@ + edge_lines(
            packages.deep_view(),
            ignore_set@,
            packages.len() as nat,
        ),
{
    let ghost list = packages.deep_view();
    let ghost ignored = ignore_set@;
    let mut i: usize = 0;
    assert(out@ =~= old(out)@ + Seq::<char>::empty());
    while i < packages.len()
        invariant
            0 <= i <= packages.len(),
            list == packages.deep_view(),
            ignored == ignore_set@,
            out@ == old(out)@ + edge_lines(list, ignored, i as nat),
        decreases packages.len() - i,
    {
        let package = &packages[i];
        assert(list[i as int] == package.deep_view());
        if package.included && !ignore_set.contains(i) {
            push_edges_of(out, i, package);
        }
        i += 1;
    }
}

/// Draws the graph.
///
/// The text holds a node for each package whose flag is up and which is not
/// ignored, the members inside the cluster and the others after it, and an
/// edge for each resolved dependency of such a package. It is the same text
/// whenever the packages and the ignored positions are the same.
pub fn render(packages: &Vec<Package>, ignore_set: &IndexSet) -> (text: String)
    ensures
        text@ == rendering(packages.deep_view(), ignore_set@),
{
    let mut text = String::from_str("digraph dependencies {\n");
    text.append("  subgraph cluster0 {\n");
    text.append("  label = \"Workspace Members\";\n");
    push_node_lines(&mut text, packages, ignore_set, true, "    ");
    text.append("  }\n");
    push_node_lines(&mut text, packages, ignore_set, false, "  ");
    push_edge_lines(&mut text, packages, ignore_set);
    text.append("}\n");
    text
}

/// A digit is one character, and different digits are different characters.
proof fn lemma_digits_differ(d: nat, e: nat)
    requires
        d < 10,
        e < 10,
    ensures
        digit(d).len() == 1,
        d != e ==> digit(d)[0] != digit(e)[0],
{
    reveal_strlit("0");
    reveal_strlit("1");
    reveal_strlit("2");
    reveal_strlit("3");
    reveal_strlit("4");
    reveal_strlit("5");
    reveal_strlit("6");
    reveal_strlit("7");
    reveal_strlit("8");
    reveal_strlit("9");
}

/// A number in decimal ends in its last digit, after the digits of its
/// tenth.
proof fn lemma_decimal_ends(n: nat)
    ensures
        decimal(n).len() >= 1,
        decimal(n).last() == digit(n % 10)[0],
        n >= 10 ==> decimal(n).drop_last() == decimal(n / 10),
    decreases n,
{
    lemma_digits_differ(n % 10, 0);
    if n >= 10 {
        lemma_decimal_ends(n / 10);
        assert(decimal(n).drop_last() =~= decimal(n / 10));
    }
}

/// Different numbers are written differently.
pub proof fn lemma_decimals_differ(a: nat, b: nat)
    requires
        a != b,
    ensures
        decimal(a) != decimal(b),
    decreases a,
{
    lemma_decimal_ends(a);
    lemma_decimal_ends(b);
    lemma_digits_differ(a % 10, b % 10);
    if a % 10 == b % 10 {
        if a >= 10 && b >= 10 {
            lemma_decimals_differ(a / 10, b / 10);
        } else if a >= 10 {
            lemma_decimal_ends(a / 10);
        } else {
            lemma_decimal_ends(b / 10);
        }
    }
}

/// Packages at different positions have nodes of different names, whatever
/// the packages are called.
pub proof fn lemma_node_ids_differ(i: nat, j: nat)
    requires
        i != j,
    ensures
        node_id(i) != node_id(j),
{
    lemma_decimals_differ(i, j);
    let head = "N"@;
    assert(node_id(i).skip(head.len() as int) =~= decimal(i));
    assert(node_id(j).skip(head.len() as int) =~= decimal(j));
}

/// Equal package lists and equal ignored positions give the same text.
pub proof fn lemma_render_deterministic(
    first: Vec<Package>,
    first_ignored: IndexSet,
    second: Vec<Package>,
    second_ignored: IndexSet,
)
    requires
        first.deep_view() == second.deep_view(),
        first_ignored@ == second_ignored@,
    ensures
        rendering(first.deep_view(), first_ignored@) == rendering(
            second.deep_view(),
            second_ignored@,
        ),
{
}

} // verus!
