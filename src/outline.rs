use vstd::prelude::*;
use vstd::string::*;

verus! {

/// Number of leading space characters of a line.
pub open spec fn leading_spaces(s: Seq<char>) -> nat
    decreases s.len(),
{
    if s.len() > 0 && s[0] == ' ' {
        1 + leading_spaces(s.drop_first())
    } else {
        0
    }
}

/// Indentation depth: two spaces per level, odd counts rounding down.
pub open spec fn depth(s: Seq<char>) -> nat {
    leading_spaces(s) / 2
}

/// The table of contents as a mathematical tree.
pub enum Tree {
    Leaf(Seq<char>),
    Group(Seq<Tree>),
}

/// An entry of the table of contents: a link line, or a group of entries one
/// indentation level deeper than the group that holds it.
pub enum Node {
    Leaf(String),
    Group(Vec<Node>),
}

/// The mathematical tree that a node stands for.
pub open spec fn node_view(n: Node) -> Tree
    decreases n, 0nat,
{
    match n {
        Node::Leaf(s) => Tree::Leaf(s@),
        Node::Group(v) => Tree::Group(nodes_view(v@, v@.len())),
    }
}

/// The models of the first `k` nodes of `ns`.
pub open spec fn nodes_view(ns: Seq<Node>, k: nat) -> Seq<Tree>
    decreases ns, k,
{
    if k == 0 || k > ns.len() {
        Seq::empty()
    } else {
        nodes_view(ns, (k - 1) as nat).push(node_view(ns[k - 1]))
    }
}

/// The trees that a list of nodes stands for.
pub open spec fn forest_view(v: Vec<Node>) -> Seq<Tree> {
    nodes_view(v@, v@.len())
}

/// The characters of each line.
pub open spec fn lines_view(v: Vec<String>) -> Seq<Seq<char>> {
    v@.map_values(|s: String| s@)
}

/// The groups and leaves read from `lines`, starting at `pos`, at indentation
/// level `level`, appended to `acc`; and the position of the first line left
/// unread (a line shallower than `level`, or the end).
pub open spec fn parse_from(lines: Seq<Seq<char>>, pos: nat, level: nat, acc: Seq<Tree>) -> (Seq<Tree>, nat)
    decreases lines.len() - pos, if pos < lines.len() && depth(lines[pos as int]) > level { 1nat } else { 0nat },
{
    if pos >= lines.len() {
        (acc, pos)
    } else {
        let d = depth(lines[pos as int]);
        if d == level {
            parse_from(lines, pos + 1, level, acc.push(Tree::Leaf(lines[pos as int])))
        } else if d < level {
            (acc, pos)
        } else {
            let (sub, next) = parse_from(lines, pos, d, Seq::empty());
            if pos < next <= lines.len() {
                parse_from(lines, next, level, acc.push(Tree::Group(sub)))
            } else {
                (acc, pos)
            }
        }
    }
}

/// The hierarchy that the table-of-contents lines describe: the children of
/// the root group.
pub open spec fn parse(lines: Seq<Seq<char>>) -> Seq<Tree> {
    parse_from(lines, 0, 0, Seq::empty()).0
}

/// Counts the leading space characters of `s`.
pub fn leading_space_count(s: &str) -> (r: usize)
    ensures
        r == leading_spaces(s@),
{
    let n = s.unicode_len();
    let mut i: usize = 0;
    while i < n && s.get_char(i) == ' '
        invariant
            n == s@.len(),
            i <= n,
            forall|j: int| 0 <= j < i ==> s@[j] == ' ',
        decreases n - i,
    {
        i = i + 1;
    }
    proof {
        lemma_leading_spaces_at(s@, i as nat);
    }
    i
}

proof fn lemma_leading_spaces_at(s: Seq<char>, i: nat)
    requires
        i <= s.len(),
        forall|j: int| 0 <= j < i ==> s[j] == ' ',
        i == s.len() || s[i as int] != ' ',
    ensures
        leading_spaces(s) == i,
    decreases i,
{
    if i > 0 {
        let t = s.drop_first();
        assert forall|j: int| 0 <= j < i - 1 implies t[j] == ' ' by {
            assert(t[j] == s[j + 1]);
        }
        if i < s.len() {
            assert(t[i - 1] == s[i as int]);
        }
        lemma_leading_spaces_at(t, (i - 1) as nat);
    }
}

/// Indentation depth of a line.
pub fn indent_depth(s: &str) -> (r: usize)
    ensures
        r == depth(s@),
{
    leading_space_count(s) / 2
}

proof fn lemma_nodes_view_push(ns: Seq<Node>, x: Node, k: nat)
    requires
        k <= ns.len(),
    ensures
        nodes_view(ns.push(x), k) == nodes_view(ns, k),
    decreases k,
{
    if k > 0 {
        assert(ns.push(x)[k - 1] == ns[k - 1]);
        lemma_nodes_view_push(ns, x, (k - 1) as nat);
    }
}

proof fn lemma_forest_view_push(v: Vec<Node>, x: Node, w: Vec<Node>)
    requires
        w@ == v@.push(x),
    ensures
        forest_view(w) == forest_view(v).push(node_view(x)),
{
    lemma_nodes_view_push(v@, x, v@.len());
    assert(w@[v@.len() as int] == x);
}

/// Reading never goes backwards, and stops at the end at the latest.
proof fn lemma_parse_bounds(lines: Seq<Seq<char>>, pos: nat, level: nat, acc: Seq<Tree>)
    requires
        pos <= lines.len(),
    ensures
        pos <= parse_from(lines, pos, level, acc).1 <= lines.len(),
        pos < lines.len() && depth(lines[pos as int]) == level ==> pos < parse_from(lines, pos, level, acc).1,
    decreases lines.len() - pos, if pos < lines.len() && depth(lines[pos as int]) > level { 1nat } else { 0nat },
{
    if pos < lines.len() {
        let d = depth(lines[pos as int]);
        if d == level {
            lemma_parse_bounds(lines, pos + 1, level, acc.push(Tree::Leaf(lines[pos as int])));
        } else if d > level {
            lemma_parse_bounds(lines, pos, d, Seq::empty());
            let (sub, next) = parse_from(lines, pos, d, Seq::empty());
            if pos < next <= lines.len() {
                lemma_parse_bounds(lines, next, level, acc.push(Tree::Group(sub)));
            }
        }
    }
}

fn parse_level(lines: &Vec<String>, pos: usize, level: usize) -> (r: (Vec<Node>, usize))
    requires
        pos <= lines.len(),
    ensures
        (forest_view(r.0), r.1 as nat) == parse_from(lines_view(*lines), pos as nat, level as nat, Seq::empty()),
    decreases lines.len() - pos, if pos < lines.len() && depth(lines@[pos as int]@) > level { 1nat } else { 0nat },
{
    let ghost ls = lines_view(*lines);
    let mut acc: Vec<Node> = Vec::new();
    let mut cur: usize = pos;
    proof {
        assert(forest_view(acc) =~= Seq::<Tree>::empty());
    }
    while cur < lines.len()
        invariant
            ls == lines_view(*lines),
            pos <= cur <= lines.len(),
            cur == pos ==> acc@.len() == 0,
            parse_from(ls, cur as nat, level as nat, forest_view(acc)) == parse_from(ls, pos as nat, level as nat, Seq::empty()),
        decreases lines.len() - cur,
    {
        let d = indent_depth(lines[cur].as_str());
        assert(ls[cur as int] == lines@[cur as int]@);
        if d == level {
            let leaf = Node::Leaf(lines[cur].clone());
            let ghost old_acc = acc;
            acc.push(leaf);
            proof {
                lemma_forest_view_push(old_acc, leaf, acc);
            }
            cur = cur + 1;
        } else if d < level {
            return (acc, cur);
        } else {
            let (sub, next) = parse_level(lines, cur, d);
            proof {
                lemma_parse_bounds(ls, cur as nat, d as nat, Seq::empty());
            }
            let group = Node::Group(sub);
            assert(node_view(group) == Tree::Group(forest_view(sub)));
            let ghost old_acc = acc;
            acc.push(group);
            proof {
                lemma_forest_view_push(old_acc, group, acc);
            }
            cur = next;
        }
    }
    (acc, cur)
}

/// Builds the hierarchy of the table of contents from its link lines: a line
/// as deep as the current group joins it, a deeper one opens a nested group,
/// a shallower one closes the current group.
pub fn parse_outline(lines: &Vec<String>) -> (r: Vec<Node>)
    ensures
        forest_view(r) == parse(lines_view(*lines)),
{
    let (tree, _) = parse_level(lines, 0, 0);
    tree
}

/// The lines of the leaves of the first `k` trees of `ts`, in pre-order.
pub open spec fn forest_leaves(ts: Seq<Tree>, k: nat) -> Seq<Seq<char>>
    decreases ts, k,
{
    if k == 0 || k > ts.len() {
        Seq::empty()
    } else {
        forest_leaves(ts, (k - 1) as nat) + tree_leaves(ts[k - 1])
    }
}

pub open spec fn tree_leaves(t: Tree) -> Seq<Seq<char>>
    decreases t, 0nat,
{
    match t {
        Tree::Leaf(s) => seq![s],
        Tree::Group(g) => forest_leaves(g, g.len()),
    }
}

/// The leaves of a hierarchy in document order.
pub open spec fn leaves(ts: Seq<Tree>) -> Seq<Seq<char>> {
    forest_leaves(ts, ts.len())
}

/// For each leaf of the first `k` trees of `ts`, in pre-order, how many groups
/// below the group at nesting `nest` it stands.
pub open spec fn forest_nesting(ts: Seq<Tree>, k: nat, nest: nat) -> Seq<nat>
    decreases ts, k,
{
    if k == 0 || k > ts.len() {
        Seq::empty()
    } else {
        forest_nesting(ts, (k - 1) as nat, nest) + tree_nesting(ts[k - 1], nest)
    }
}

pub open spec fn tree_nesting(t: Tree, nest: nat) -> Seq<nat>
    decreases t, 0nat,
{
    match t {
        Tree::Leaf(s) => seq![nest],
        Tree::Group(g) => forest_nesting(g, g.len(), nest + 1),
    }
}

/// Each line is at most one level deeper than the line before it, the first
/// at most one level below the root.
pub open spec fn steps_one_level(lines: Seq<Seq<char>>) -> bool {
    &&& lines.len() > 0 ==> depth(lines[0]) <= 1
    &&& forall|i: int| 0 < i < lines.len() ==> depth(#[trigger] lines[i]) <= depth(lines[i - 1]) + 1
}

proof fn lemma_nodes_view_index(ns: Seq<Node>, k: nat)
    requires
        k <= ns.len(),
    ensures
        nodes_view(ns, k).len() == k,
        forall|j: int| 0 <= j < k ==> #[trigger] nodes_view(ns, k)[j] == node_view(ns[j]),
    decreases k,
{
    if k > 0 {
        lemma_nodes_view_index(ns, (k - 1) as nat);
    }
}

proof fn lemma_forest_leaves_push(ts: Seq<Tree>, x: Tree, k: nat)
    requires
        k <= ts.len(),
    ensures
        forest_leaves(ts.push(x), k) == forest_leaves(ts, k),
    decreases k,
{
    if k > 0 {
        assert(ts.push(x)[k - 1] == ts[k - 1]);
        lemma_forest_leaves_push(ts, x, (k - 1) as nat);
    }
}

proof fn lemma_forest_nesting_push(ts: Seq<Tree>, x: Tree, k: nat, nest: nat)
    requires
        k <= ts.len(),
    ensures
        forest_nesting(ts.push(x), k, nest) == forest_nesting(ts, k, nest),
    decreases k,
{
    if k > 0 {
        assert(ts.push(x)[k - 1] == ts[k - 1]);
        lemma_forest_nesting_push(ts, x, (k - 1) as nat, nest);
    }
}

/// Where reading stops early, it stops at a line shallower than the level.
proof fn lemma_parse_stop(lines: Seq<Seq<char>>, pos: nat, level: nat, acc: Seq<Tree>)
    requires
        pos <= lines.len(),
    ensures
        parse_from(lines, pos, level, acc).1 < lines.len() ==> depth(lines[parse_from(lines, pos, level, acc).1 as int]) < level,
    decreases lines.len() - pos, if pos < lines.len() && depth(lines[pos as int]) > level { 1nat } else { 0nat },
{
    if pos < lines.len() {
        let d = depth(lines[pos as int]);
        if d == level {
            lemma_parse_stop(lines, pos + 1, level, acc.push(Tree::Leaf(lines[pos as int])));
        } else if d > level {
            lemma_parse_bounds(lines, pos, d, Seq::empty());
            let (sub, next) = parse_from(lines, pos, d, Seq::empty());
            lemma_parse_stop(lines, next, level, acc.push(Tree::Group(sub)));
        }
    }
}

proof fn lemma_parse_leaves(lines: Seq<Seq<char>>, pos: nat, level: nat, acc: Seq<Tree>)
    requires
        pos <= lines.len(),
    ensures
        leaves(parse_from(lines, pos, level, acc).0) == leaves(acc) + lines.subrange(pos as int, parse_from(lines, pos, level, acc).1 as int),
    decreases lines.len() - pos, if pos < lines.len() && depth(lines[pos as int]) > level { 1nat } else { 0nat },
{
    lemma_parse_bounds(lines, pos, level, acc);
    if pos >= lines.len() {
        assert(lines.subrange(pos as int, pos as int) =~= Seq::<Seq<char>>::empty());
        assert(leaves(acc) + Seq::<Seq<char>>::empty() =~= leaves(acc));
    } else {
        let d = depth(lines[pos as int]);
        let end = parse_from(lines, pos, level, acc).1;
        if d == level {
            let acc2 = acc.push(Tree::Leaf(lines[pos as int]));
            lemma_forest_leaves_push(acc, Tree::Leaf(lines[pos as int]), acc.len());
            lemma_parse_leaves(lines, pos + 1, level, acc2);
            lemma_parse_bounds(lines, pos + 1, level, acc2);
            assert(lines.subrange(pos as int, end as int) =~= seq![lines[pos as int]] + lines.subrange(pos + 1 as int, end as int));
            assert(acc2[acc.len() as int] == Tree::Leaf(lines[pos as int]));
            assert(forest_leaves(acc2, acc2.len()) == forest_leaves(acc2, acc.len()) + tree_leaves(acc2[acc.len() as int]));
            assert(leaves(acc2) == leaves(acc) + seq![lines[pos as int]]);
        } else if d < level {
            assert(lines.subrange(pos as int, pos as int) =~= Seq::<Seq<char>>::empty());
            assert(leaves(acc) + Seq::<Seq<char>>::empty() =~= leaves(acc));
        } else {
            lemma_parse_bounds(lines, pos, d, Seq::empty());
            lemma_parse_leaves(lines, pos, d, Seq::empty());
            let (sub, next) = parse_from(lines, pos, d, Seq::empty());
            let acc2 = acc.push(Tree::Group(sub));
            assert(leaves(Seq::<Tree>::empty()) =~= Seq::<Seq<char>>::empty());
            assert(Seq::<Seq<char>>::empty() + lines.subrange(pos as int, next as int) =~= lines.subrange(pos as int, next as int));
            lemma_forest_leaves_push(acc, Tree::Group(sub), acc.len());
            assert(acc2[acc.len() as int] == Tree::Group(sub));
            assert(forest_leaves(acc2, acc2.len()) == forest_leaves(acc2, acc.len()) + tree_leaves(acc2[acc.len() as int]));
            assert(leaves(acc2) == leaves(acc) + leaves(sub));
            lemma_parse_leaves(lines, next, level, acc2);
            lemma_parse_bounds(lines, next, level, acc2);
            assert(lines.subrange(pos as int, end as int) =~= lines.subrange(pos as int, next as int) + lines.subrange(next as int, end as int));
        }
    }
}

proof fn lemma_parse_nesting(lines: Seq<Seq<char>>, pos: nat, level: nat, acc: Seq<Tree>)
    requires
        pos <= lines.len(),
        steps_one_level(lines),
        pos < lines.len() ==> depth(lines[pos as int]) <= level + 1,
    ensures
        forest_nesting(parse_from(lines, pos, level, acc).0, parse_from(lines, pos, level, acc).0.len(), level)
            == forest_nesting(acc, acc.len(), level) + lines.subrange(pos as int, parse_from(lines, pos, level, acc).1 as int).map_values(|l: Seq<char>| depth(l)),
    decreases lines.len() - pos, if pos < lines.len() && depth(lines[pos as int]) > level { 1nat } else { 0nat },
{
    lemma_parse_bounds(lines, pos, level, acc);
    let end = parse_from(lines, pos, level, acc).1;
    if pos >= lines.len() || depth(lines[pos as int]) < level {
        assert(lines.subrange(pos as int, pos as int).map_values(|l: Seq<char>| depth(l)) =~= Seq::<nat>::empty());
        assert(forest_nesting(acc, acc.len(), level) + Seq::<nat>::empty() =~= forest_nesting(acc, acc.len(), level));
    } else {
        let d = depth(lines[pos as int]);
        if d == level {
            let acc2 = acc.push(Tree::Leaf(lines[pos as int]));
            lemma_forest_nesting_push(acc, Tree::Leaf(lines[pos as int]), acc.len(), level);
            assert(acc2[acc.len() as int] == Tree::Leaf(lines[pos as int]));
            assert(forest_nesting(acc2, acc2.len(), level) == forest_nesting(acc2, acc.len(), level) + tree_nesting(acc2[acc.len() as int], level));
            if pos + 1 < lines.len() {
                assert(depth(lines[pos + 1 as int]) <= depth(lines[pos as int]) + 1);
            }
            lemma_parse_nesting(lines, pos + 1, level, acc2);
            lemma_parse_bounds(lines, pos + 1, level, acc2);
            assert(lines.subrange(pos as int, end as int).map_values(|l: Seq<char>| depth(l)) =~= seq![level] + lines.subrange(pos + 1 as int, end as int).map_values(|l: Seq<char>| depth(l)));
        } else {
            lemma_parse_bounds(lines, pos, d, Seq::empty());
            lemma_parse_nesting(lines, pos, d, Seq::empty());
            let (sub, next) = parse_from(lines, pos, d, Seq::empty());
            lemma_parse_stop(lines, pos, d, Seq::empty());
            let acc2 = acc.push(Tree::Group(sub));
            assert(forest_nesting(Seq::<Tree>::empty(), 0, d) =~= Seq::<nat>::empty());
            assert(Seq::<nat>::empty() + lines.subrange(pos as int, next as int).map_values(|l: Seq<char>| depth(l))
                =~= lines.subrange(pos as int, next as int).map_values(|l: Seq<char>| depth(l)));
            lemma_forest_nesting_push(acc, Tree::Group(sub), acc.len(), level);
            lemma_parse_nesting(lines, next, level, acc2);
            lemma_parse_bounds(lines, next, level, acc2);
            assert(acc2[acc.len() as int] == Tree::Group(sub));
            assert(forest_nesting(acc2, acc2.len(), level) == forest_nesting(acc2, acc.len(), level) + tree_nesting(acc2[acc.len() as int], level));
            assert(forest_nesting(acc2, acc2.len(), level) == forest_nesting(acc, acc.len(), level) + forest_nesting(sub, sub.len(), d));
            assert(lines.subrange(pos as int, end as int).map_values(|l: Seq<char>| depth(l))
                =~= lines.subrange(pos as int, next as int).map_values(|l: Seq<char>| depth(l))
                + lines.subrange(next as int, end as int).map_values(|l: Seq<char>| depth(l)));
        }
    }
}

/// At the root level nothing is shallower, so every line is read.
proof fn lemma_parse_reads_all(lines: Seq<Seq<char>>, pos: nat, acc: Seq<Tree>)
    requires
        pos <= lines.len(),
    ensures
        parse_from(lines, pos, 0, acc).1 == lines.len(),
{
    lemma_parse_bounds(lines, pos, 0, acc);
    lemma_parse_stop(lines, pos, 0, acc);
}

/// The leaves of the parsed hierarchy, in pre-order, are the input lines in
/// document order: parsing neither drops, duplicates nor reorders.
pub proof fn law_parse_keeps_order(lines: Seq<Seq<char>>)
    ensures
        leaves(parse(lines)) == lines,
{
    lemma_parse_reads_all(lines, 0, Seq::empty());
    lemma_parse_leaves(lines, 0, 0, Seq::empty());
    assert(leaves(Seq::<Tree>::empty()) =~= Seq::<Seq<char>>::empty());
    assert(Seq::<Seq<char>>::empty() + lines.subrange(0, lines.len() as int) =~= lines);
}

/// Where no line is more than one level deeper than the one before it, the
/// line with N leading spaces lands in a group nested N/2 levels below the
/// root.
pub proof fn law_parse_depth(lines: Seq<Seq<char>>)
    requires
        steps_one_level(lines),
    ensures
        forest_nesting(parse(lines), parse(lines).len(), 0) == lines.map_values(|l: Seq<char>| depth(l)),
        forall|i: int| 0 <= i < lines.len() ==> #[trigger] forest_nesting(parse(lines), parse(lines).len(), 0)[i]
            == leading_spaces(lines[i]) / 2,
{
    lemma_parse_reads_all(lines, 0, Seq::empty());
    lemma_parse_nesting(lines, 0, 0, Seq::empty());
    assert(forest_nesting(Seq::<Tree>::empty(), 0, 0) =~= Seq::<nat>::empty());
    assert(Seq::<nat>::empty() + lines.subrange(0, lines.len() as int).map_values(|l: Seq<char>| depth(l))
        =~= lines.map_values(|l: Seq<char>| depth(l)));
}

/// The first `k` trees of `ts` sit in a group of level `level`: each leaf
/// there has depth `level`, and each nested group opens with a leaf deeper
/// than `level` whose depth is the level of that group.
pub open spec fn forest_leveled(ts: Seq<Tree>, k: nat, level: nat) -> bool
    decreases ts, k,
{
    if k == 0 || k > ts.len() {
        true
    } else {
        forest_leveled(ts, (k - 1) as nat, level) && tree_leveled(ts[k - 1], level)
    }
}

pub open spec fn tree_leveled(t: Tree, level: nat) -> bool
    decreases t, 0nat,
{
    match t {
        Tree::Leaf(s) => depth(s) == level,
        Tree::Group(g) => g.len() > 0 && match g[0] {
            Tree::Leaf(first) => depth(first) > level && forest_leveled(g, g.len(), depth(first)),
            Tree::Group(_) => false,
        },
    }
}

proof fn lemma_forest_leveled_push(ts: Seq<Tree>, x: Tree, k: nat, level: nat)
    requires
        k <= ts.len(),
    ensures
        forest_leveled(ts.push(x), k, level) == forest_leveled(ts, k, level),
    decreases k,
{
    if k > 0 {
        assert(ts.push(x)[k - 1] == ts[k - 1]);
        lemma_forest_leveled_push(ts, x, (k - 1) as nat, level);
    }
}

/// Reading only appends to what was read before.
proof fn lemma_parse_extends(lines: Seq<Seq<char>>, pos: nat, level: nat, acc: Seq<Tree>)
    requires
        pos <= lines.len(),
    ensures
        acc.len() <= parse_from(lines, pos, level, acc).0.len(),
        forall|j: int| 0 <= j < acc.len() ==> #[trigger] parse_from(lines, pos, level, acc).0[j] == acc[j],
    decreases lines.len() - pos, if pos < lines.len() && depth(lines[pos as int]) > level { 1nat } else { 0nat },
{
    if pos < lines.len() {
        let d = depth(lines[pos as int]);
        if d == level {
            lemma_parse_extends(lines, pos + 1, level, acc.push(Tree::Leaf(lines[pos as int])));
        } else if d > level {
            lemma_parse_bounds(lines, pos, d, Seq::empty());
            let (sub, next) = parse_from(lines, pos, d, Seq::empty());
            lemma_parse_extends(lines, next, level, acc.push(Tree::Group(sub)));
        }
    }
}

proof fn lemma_parse_leveled(lines: Seq<Seq<char>>, pos: nat, level: nat, acc: Seq<Tree>)
    requires
        pos <= lines.len(),
        forest_leveled(acc, acc.len(), level),
    ensures
        forest_leveled(parse_from(lines, pos, level, acc).0, parse_from(lines, pos, level, acc).0.len(), level),
    decreases lines.len() - pos, if pos < lines.len() && depth(lines[pos as int]) > level { 1nat } else { 0nat },
{
    if pos < lines.len() {
        let d = depth(lines[pos as int]);
        if d == level {
            let x = Tree::Leaf(lines[pos as int]);
            let acc2 = acc.push(x);
            lemma_forest_leveled_push(acc, x, acc.len(), level);
            assert(acc2[acc.len() as int] == x);
            assert(tree_leveled(x, level));
            assert(forest_leveled(acc2, acc2.len(), level) == (forest_leveled(acc2, acc.len(), level) && tree_leveled(acc2[acc.len() as int], level)));
            assert(forest_leveled(acc2, acc2.len(), level));
            lemma_parse_leveled(lines, pos + 1, level, acc2);
        } else if d > level {
            lemma_parse_bounds(lines, pos, d, Seq::empty());
            let first = Tree::Leaf(lines[pos as int]);
            let start = Seq::<Tree>::empty().push(first);
            lemma_forest_leveled_push(Seq::<Tree>::empty(), first, 0, d);
            assert(start[0] == first);
            assert(tree_leveled(first, d));
            assert(forest_leveled(start, 1, d) == (forest_leveled(start, 0, d) && tree_leveled(start[0], d)));
            assert(forest_leveled(start, 1, d));
            lemma_parse_leveled(lines, pos + 1, d, start);
            lemma_parse_extends(lines, pos + 1, d, start);
            let (sub, next) = parse_from(lines, pos, d, Seq::empty());
            assert(sub == parse_from(lines, pos + 1, d, start).0);
            assert(sub[0] == first);
            assert(tree_leveled(Tree::Group(sub), level));
            let x = Tree::Group(sub);
            let acc2 = acc.push(x);
            lemma_forest_leveled_push(acc, x, acc.len(), level);
            assert(acc2[acc.len() as int] == x);
            assert(tree_leveled(x, level));
            assert(forest_leveled(acc2, acc2.len(), level) == (forest_leveled(acc2, acc.len(), level) && tree_leveled(acc2[acc.len() as int], level)));
            assert(forest_leveled(acc2, acc2.len(), level));
            lemma_parse_leveled(lines, next, level, acc2);
        }
    }
}

/// For every input, indentation odd or not, jumps or not: each leaf of the
/// root has depth 0, each leaf of a nested group has the depth of that
/// group's level, and a nested group's level is deeper than its parent's.
pub proof fn law_parse_levels(lines: Seq<Seq<char>>)
    ensures
        forest_leveled(parse(lines), parse(lines).len(), 0),
{
    lemma_parse_leveled(lines, 0, 0, Seq::empty());
}

fn collect_leaves(ts: &Vec<Node>, out: &mut Vec<String>)
    ensures
        lines_view(*final(out)) == lines_view(*old(out)) + leaves(forest_view(*ts)),
    decreases ts,
{
    proof {
        lemma_nodes_view_index(ts@, ts@.len());
    }
    let ghost start = lines_view(*out);
    let ghost f = forest_view(*ts);
    let mut i: usize = 0;
    proof {
        assert(start + Seq::<Seq<char>>::empty() =~= start);
    }
    while i < ts.len()
        invariant
            f == forest_view(*ts),
            f.len() == ts@.len(),
            forall|j: int| 0 <= j < ts@.len() ==> #[trigger] f[j] == node_view(ts@[j]),
            i <= ts.len(),
            lines_view(*out) == start + forest_leaves(f, i as nat),
        decreases ts.len() - i,
    {
        let ghost before = lines_view(*out);
        match &ts[i] {
            Node::Leaf(s) => {
                out.push(s.clone());
                assert(lines_view(*out) =~= before + seq![s@]);
            },
            Node::Group(v) => {
                assert(decreases_to!(ts => ts@[i as int]));
                collect_leaves(v, out);
            },
        }
        assert(forest_leaves(f, (i + 1) as nat) == forest_leaves(f, i as nat) + tree_leaves(f[i as int]));
        i = i + 1;
    }
}

/// The link lines of a hierarchy in document order (pre-order).
pub fn leaf_lines(tree: &Vec<Node>) -> (r: Vec<String>)
    ensures
        lines_view(r) == leaves(forest_view(*tree)),
{
    let mut out: Vec<String> = Vec::new();
    collect_leaves(tree, &mut out);
    proof {
        assert(lines_view(out) =~= leaves(forest_view(*tree)));
    }
    out
}

} // verus!
