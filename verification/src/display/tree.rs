//! Tree rendering: a depth-first walk over a snapshot of the directory
//! tree, drawing branch and terminal connectors, propagating continuation
//! prefixes, filtering and sorting each directory's children, and cutting
//! recursion at a depth budget with an absolute ceiling.

use vstd::prelude::*;

use crate::ansi::{esc_free, lemma_esc_free_veiled_self, lemma_veiled_concat, styled, veiled};
use crate::config::Config;
use crate::display::{join_path, lex_lt, name_lt, name_visible};
use crate::file_info::EntryMeta;

verus! {

/// The absolute recursion ceiling, independent of the configured depth.
pub const MAX_DEPTH: usize = 20;

/// One node of the directory-tree snapshot: the entry's name, its plain
/// metadata when readable, and its children when it is a readable
/// directory. An unreadable directory carries no children and its subtree
/// is silently omitted.
pub struct TreeNode {
    pub name: String,
    pub meta: Option<EntryMeta>,
    pub children: Option<Vec<TreeNode>>,
}

/// Whether a node is a directory to recurse into.
pub open spec fn node_is_dir(node: TreeNode) -> bool {
    node.meta is Some && node.meta.unwrap().is_dir
}

/// The connector glyphs: the last child of a directory takes the terminal
/// connector, every other child the branch connector.
pub open spec fn connector(is_last: bool) -> Seq<char> {
    if is_last {
        "└── "@
    } else {
        "├── "@
    }
}

/// The continuation segment a child passes to its own descendants: blank
/// under a terminal child, a vertical bar under a branch child.
pub open spec fn continuation(is_last: bool) -> Seq<char> {
    if is_last {
        "    "@
    } else {
        "│   "@
    }
}

/// The children that survive the hidden-name policy, in their given
/// order.
pub open spec fn visible_nodes(s: Seq<TreeNode>, show_hidden: bool) -> Seq<TreeNode>
    decreases s.len(),
{
    if s.len() == 0 {
        Seq::<TreeNode>::empty()
    } else {
        visible_nodes(s.drop_last(), show_hidden) + (if show_hidden || !crate::colors::spec_is_hidden_name(
            s.last().name@,
        ) {
            seq![s.last()]
        } else {
            Seq::<TreeNode>::empty()
        })
    }
}

/// Where one more node lands in an already sorted run, by name.
pub open spec fn spec_insert_node(e: TreeNode, s: Seq<TreeNode>) -> Seq<TreeNode>
    decreases s.len(),
{
    if s.len() > 0 && lex_lt(s[0].name@, e.name@) {
        seq![s[0]] + spec_insert_node(e, s.skip(1))
    } else {
        seq![e] + s
    }
}

/// Children sorted by name, stably.
pub open spec fn spec_sort_nodes(s: Seq<TreeNode>) -> Seq<TreeNode>
    decreases s.len(),
{
    if s.len() == 0 {
        Seq::<TreeNode>::empty()
    } else {
        spec_insert_node(s[0], spec_sort_nodes(s.skip(1)))
    }
}

/// The plain skeleton of the tree output below the root: for each node of
/// an already filtered and sorted run, one line of accumulated prefix,
/// connector and name, followed by the node's own children (filtered,
/// sorted, one level less budget) under its continuation prefix. A spent
/// budget prints nothing.
pub open spec fn spec_tree_lines(
    nodes: Seq<TreeNode>,
    prefix: Seq<char>,
    budget: nat,
    show_hidden: bool,
) -> Seq<Seq<char>>
    decreases budget, nodes.len(),
{
    if budget == 0 || nodes.len() == 0 {
        Seq::<Seq<char>>::empty()
    } else {
        let node = nodes[0];
        let is_last = nodes.len() == 1;
        let line = prefix + connector(is_last) + node.name@;
        let sub: Seq<Seq<char>> = if node_is_dir(node) && node.children is Some {
            spec_tree_lines(
                spec_sort_nodes(visible_nodes(node.children.unwrap()@, show_hidden)),
                prefix + continuation(is_last),
                (budget - 1) as nat,
                show_hidden,
            )
        } else {
            Seq::<Seq<char>>::empty()
        };
        seq![line] + sub + spec_tree_lines(nodes.skip(1), prefix, budget, show_hidden)
    }
}

/// Every name that the walk can reach within the budget is escape-free.
pub open spec fn tree_esc_free(nodes: Seq<TreeNode>, budget: nat, show_hidden: bool) -> bool
    decreases budget, nodes.len(),
{
    budget == 0 || nodes.len() == 0 || {
        let node = nodes[0];
        &&& esc_free(node.name@)
        &&& (node_is_dir(node) && node.children is Some ==> tree_esc_free(
            spec_sort_nodes(visible_nodes(node.children.unwrap()@, show_hidden)),
            (budget - 1) as nat,
            show_hidden,
        ))
        &&& tree_esc_free(nodes.skip(1), budget, show_hidden)
    }
}

/// Keeps the children that survive the hidden-name policy.
fn filter_visible_nodes(nodes: Vec<TreeNode>, show_hidden: bool) -> (r: Vec<TreeNode>)
    ensures
        r@ == visible_nodes(nodes@, show_hidden),
    decreases nodes@.len(),
{
    let ghost orig = nodes@;
    let total = nodes.len();
    let mut v = nodes;
    let mut out: Vec<TreeNode> = Vec::new();
    let mut i: usize = 0;
    proof {
        assert(visible_nodes(orig.subrange(0, 0), show_hidden) =~= Seq::<TreeNode>::empty());
        assert(orig.subrange(0, orig.len() as int) =~= orig);
    }
    while v.len() > 0
        invariant
            0 <= i,
            total == orig.len(),
            i + v@.len() == orig.len(),
            v@ == orig.skip(i as int),
            out@ == visible_nodes(orig.subrange(0, i as int), show_hidden),
        decreases v@.len(),
    {
        let ghost vpre = v@;
        let e = v.remove(0);
        proof {
            assert(e == vpre[0] && vpre[0] == orig[i as int]);
            assert(v@ =~= orig.skip(i + 1));
            assert(orig.subrange(0, i + 1).drop_last() =~= orig.subrange(0, i as int));
            assert(orig.subrange(0, i + 1).last() == orig[i as int]);
        }
        if name_visible(&e.name, show_hidden) {
            out.push(e);
        }
        proof {
            assert(out@ =~= visible_nodes(orig.subrange(0, i + 1), show_hidden));
        }
        i += 1;
    }
    proof {
        assert(orig.subrange(0, i as int) =~= orig);
    }
    out
}

fn insert_node(mut out: Vec<TreeNode>, e: TreeNode) -> (r: Vec<TreeNode>)
    ensures
        r@ == spec_insert_node(e, out@),
{
    let mut j: usize = 0;
    while j < out.len() && name_lt(&out[j].name, &e.name)
        invariant
            0 <= j <= out@.len(),
            forall|k: int| 0 <= k < j ==> lex_lt(#[trigger] out@[k].name@, e.name@),
        decreases out@.len() - j,
    {
        j += 1;
    }
    proof {
        lemma_insert_node_at(e, out@, j as int);
    }
    out.insert(j, e);
    out
}

proof fn lemma_insert_node_at(e: TreeNode, s: Seq<TreeNode>, j: int)
    requires
        0 <= j <= s.len(),
        forall|k: int| 0 <= k < j ==> lex_lt(#[trigger] s[k].name@, e.name@),
        j < s.len() ==> !lex_lt(s[j].name@, e.name@),
    ensures
        spec_insert_node(e, s) == s.subrange(0, j) + seq![e] + s.skip(j),
    decreases j,
{
    if j == 0 {
        if s.len() > 0 && lex_lt(s[0].name@, e.name@) {
            assert(false);
        }
        assert(s.subrange(0, 0) + seq![e] + s.skip(0) =~= seq![e] + s);
    } else {
        assert(lex_lt(s[0].name@, e.name@));
        lemma_insert_node_at(e, s.skip(1), j - 1);
        assert(s.skip(1).subrange(0, j - 1) =~= s.subrange(1, j));
        assert(s.skip(1).skip(j - 1) =~= s.skip(j));
        assert(seq![s[0]] + (s.subrange(1, j) + seq![e] + s.skip(j)) =~= s.subrange(0, j)
            + seq![e] + s.skip(j));
    }
}

/// Sorts children by name, stably.
fn sort_nodes(nodes: Vec<TreeNode>) -> (r: Vec<TreeNode>)
    ensures
        r@ == spec_sort_nodes(nodes@),
{
    let ghost orig = nodes@;
    let mut v = nodes;
    let mut out: Vec<TreeNode> = Vec::new();
    proof {
        assert(orig.skip(orig.len() as int) =~= Seq::<TreeNode>::empty());
        assert(orig.subrange(0, orig.len() as int) =~= orig);
    }
    while v.len() > 0
        invariant
            v@.len() <= orig.len(),
            v@ == orig.subrange(0, v@.len() as int),
            out@ == spec_sort_nodes(orig.skip(v@.len() as int)),
        decreases v@.len(),
    {
        let ghost i = v@.len() as int;
        let ghost vpre = v@;
        let e = v.pop().unwrap();
        proof {
            assert(e == vpre.last());
            assert(vpre[i - 1] == orig.subrange(0, i)[i - 1]);
            assert(e == orig[i - 1]);
            assert(orig.skip(i - 1)[0] == orig[i - 1]);
            assert(orig.skip(i - 1).skip(1) =~= orig.skip(i));
            assert(v@ =~= orig.subrange(0, i - 1));
        }
        out = insert_node(out, e);
    }
    proof {
        assert(orig.skip(0) =~= orig);
    }
    out
}

/// The listing order on tree nodes: not strictly above by name.
pub open spec fn node_le(a: TreeNode, b: TreeNode) -> bool {
    !lex_lt(b.name@, a.name@)
}

/// A run of nodes in the listing order.
pub open spec fn nodes_sorted(s: Seq<TreeNode>) -> bool {
    forall|i: int, j: int| 0 <= i < j < s.len() ==> node_le(#[trigger] s[i], #[trigger] s[j])
}

/// The listing order on nodes is transitive.
pub proof fn lemma_node_le_transitive(a: TreeNode, b: TreeNode, c: TreeNode)
    requires
        node_le(a, b),
        node_le(b, c),
    ensures
        node_le(a, c),
{
    if lex_lt(c.name@, a.name@) {
        crate::display::lemma_lex_lt_connected(c.name@, b.name@);
        if lex_lt(b.name@, c.name@) {
            crate::display::lemma_lex_lt_transitive(b.name@, c.name@, a.name@);
        }
    }
}

proof fn lemma_insert_node_keeps_sorted(e: TreeNode, s: Seq<TreeNode>)
    requires
        nodes_sorted(s),
    ensures
        nodes_sorted(spec_insert_node(e, s)),
        spec_insert_node(e, s).len() == s.len() + 1,
        forall|k: int|
            0 <= k < spec_insert_node(e, s).len() ==> spec_insert_node(e, s)[k] == e || s.contains(
                #[trigger] spec_insert_node(e, s)[k],
            ),
    decreases s.len(),
{
    let r = spec_insert_node(e, s);
    if s.len() > 0 && lex_lt(s[0].name@, e.name@) {
        assert(nodes_sorted(s.skip(1))) by {
            assert forall|i: int, j: int| 0 <= i < j < s.skip(1).len() implies node_le(
                #[trigger] s.skip(1)[i],
                #[trigger] s.skip(1)[j],
            ) by {
                assert(s.skip(1)[i] == s[i + 1] && s.skip(1)[j] == s[j + 1]);
                assert(node_le(s[i + 1], s[j + 1]));
            }
        };
        lemma_insert_node_keeps_sorted(e, s.skip(1));
        let t = spec_insert_node(e, s.skip(1));
        assert(r =~= seq![s[0]] + t);
        assert forall|i: int, j: int| 0 <= i < j < r.len() implies node_le(
            #[trigger] r[i],
            #[trigger] r[j],
        ) by {
            if i == 0 {
                assert(r[j] == t[j - 1]);
                if t[j - 1] == e {
                    crate::display::lemma_lex_lt_asymmetric(s[0].name@, e.name@);
                } else {
                    let x = t[j - 1];
                    assert(s.skip(1).contains(x));
                    let m = choose|m: int| 0 <= m < s.skip(1).len() && s.skip(1)[m] == x;
                    assert(s[m + 1] == x);
                    assert(node_le(s[0], s[m + 1]));
                }
            } else {
                assert(r[i] == t[i - 1] && r[j] == t[j - 1]);
            }
        }
        assert forall|k: int| 0 <= k < r.len() implies r[k] == e || s.contains(#[trigger] r[k]) by {
            if k == 0 {
                assert(s.contains(s[0]));
            } else if !(r[k] == e) {
                assert(r[k] == t[k - 1]);
                assert(s.skip(1).contains(t[k - 1]));
                let m = choose|m: int| 0 <= m < s.skip(1).len() && s.skip(1)[m] == t[k - 1];
                assert(s[m + 1] == r[k]);
            }
        }
    } else {
        assert(r =~= seq![e] + s);
        assert forall|i: int, j: int| 0 <= i < j < r.len() implies node_le(
            #[trigger] r[i],
            #[trigger] r[j],
        ) by {
            if i == 0 {
                assert(r[j] == s[j - 1]);
                if s.len() > 0 {
                    assert(node_le(e, s[0]));
                    if j > 1 {
                        assert(node_le(s[0], s[j - 1]));
                        lemma_node_le_transitive(e, s[0], s[j - 1]);
                    }
                }
            } else {
                assert(r[i] == s[i - 1] && r[j] == s[j - 1]);
            }
        }
        assert forall|k: int| 0 <= k < r.len() implies r[k] == e || s.contains(#[trigger] r[k]) by {
            if k > 0 {
                assert(r[k] == s[k - 1]);
            }
        }
    }
}

/// Each directory's children really come out in the listing order.
pub proof fn lemma_sort_nodes_sorted(s: Seq<TreeNode>)
    ensures
        nodes_sorted(spec_sort_nodes(s)),
    decreases s.len(),
{
    if s.len() > 0 {
        lemma_sort_nodes_sorted(s.skip(1));
        lemma_insert_node_keeps_sorted(s[0], spec_sort_nodes(s.skip(1)));
    }
}

proof fn lemma_insert_node_multiset(e: TreeNode, s: Seq<TreeNode>)
    ensures
        spec_insert_node(e, s).to_multiset() == s.to_multiset().insert(e),
    decreases s.len(),
{
    broadcast use vstd::seq_lib::group_to_multiset_ensures;
    broadcast use vstd::seq_lib::lemma_multiset_commutative;

    let r = spec_insert_node(e, s);
    if s.len() > 0 && lex_lt(s[0].name@, e.name@) {
        lemma_insert_node_multiset(e, s.skip(1));
        assert(r == seq![s[0]] + spec_insert_node(e, s.skip(1)));
        assert(seq![s[0]].to_multiset() =~= vstd::multiset::Multiset::<TreeNode>::empty().insert(
            s[0],
        )) by {
            assert(seq![s[0]] =~= Seq::<TreeNode>::empty().push(s[0]));
            assert(Seq::<TreeNode>::empty().to_multiset() =~= vstd::multiset::Multiset::<
                TreeNode,
            >::empty());
        };
        assert(s =~= seq![s[0]] + s.skip(1));
        assert(r.to_multiset() =~= s.to_multiset().insert(e));
    } else {
        assert(r == seq![e] + s);
        assert(seq![e].to_multiset() =~= vstd::multiset::Multiset::<TreeNode>::empty().insert(e))
            by {
            assert(seq![e] =~= Seq::<TreeNode>::empty().push(e));
            assert(Seq::<TreeNode>::empty().to_multiset() =~= vstd::multiset::Multiset::<
                TreeNode,
            >::empty());
        };
        assert(r.to_multiset() =~= s.to_multiset().insert(e));
    }
}

/// Sorting a directory's children keeps exactly those children.
pub proof fn lemma_sort_nodes_permutes(s: Seq<TreeNode>)
    ensures
        spec_sort_nodes(s).to_multiset() == s.to_multiset(),
    decreases s.len(),
{
    broadcast use vstd::seq_lib::group_to_multiset_ensures;
    broadcast use vstd::seq_lib::lemma_multiset_commutative;

    if s.len() == 0 {
        assert(spec_sort_nodes(s).to_multiset() =~= s.to_multiset());
    } else {
        lemma_sort_nodes_permutes(s.skip(1));
        lemma_insert_node_multiset(s[0], spec_sort_nodes(s.skip(1)));
        assert(s =~= Seq::<TreeNode>::empty().push(s[0]) + s.skip(1));
        assert(Seq::<TreeNode>::empty().to_multiset() =~= vstd::multiset::Multiset::<
            TreeNode,
        >::empty());
        assert((Seq::<TreeNode>::empty().push(s[0])).to_multiset() =~= vstd::multiset::Multiset::<
            TreeNode,
        >::empty().insert(s[0]));
        assert(s.to_multiset() =~= s.skip(1).to_multiset().insert(s[0]));
        assert(spec_sort_nodes(s).to_multiset() =~= s.to_multiset());
    }
}

/// The connector and continuation glyph runs hold no escape character.
proof fn lemma_glyphs_esc_free()
    ensures
        esc_free(connector(true)),
        esc_free(connector(false)),
        esc_free(continuation(true)),
        esc_free(continuation(false)),
{
    reveal_strlit("└── ");
    reveal_strlit("├── ");
    reveal_strlit("    ");
    reveal_strlit("│   ");
}

/// Walks an already filtered and sorted run of siblings, emitting one
/// decorated line per node and recursing into directories while the
/// budget lasts. Whenever every reachable name and the prefix are
/// escape-free, each emitted line shows exactly its skeleton line.
pub fn display_tree_recursive(
    nodes: Vec<TreeNode>,
    prefix: &str,
    config: &Config,
    remaining: usize,
    abs_path: &str,
) -> (lines: Vec<String>)
    ensures
        lines@.len() == spec_tree_lines(
            nodes@,
            prefix@,
            remaining as nat,
            config.show_hidden,
        ).len(),
        tree_esc_free(nodes@, remaining as nat, config.show_hidden) && esc_free(prefix@)
            ==> forall|i: int|
            0 <= i < lines@.len() ==> veiled(
                #[trigger] lines.deep_view()[i],
                spec_tree_lines(nodes@, prefix@, remaining as nat, config.show_hidden)[i],
            ),
    decreases remaining,
{
    let ghost orig = nodes@;
    let ghost budget = remaining as nat;
    let ghost sh = config.show_hidden;
    let mut lines: Vec<String> = Vec::new();
    if remaining == 0 {
        return lines;
    }
    let mut v = nodes;
    let ghost mut plain: Seq<Seq<char>> = Seq::<Seq<char>>::empty();
    proof {
        assert(plain + spec_tree_lines(orig, prefix@, budget, sh) =~= spec_tree_lines(
            orig,
            prefix@,
            budget,
            sh,
        ));
    }
    while v.len() > 0
        invariant
            remaining >= 1,
            budget == remaining as nat,
            sh == config.show_hidden,
            spec_tree_lines(orig, prefix@, budget, sh) == plain + spec_tree_lines(
                v@,
                prefix@,
                budget,
                sh,
            ),
            lines@.len() == plain.len(),
            tree_esc_free(orig, budget, sh) ==> tree_esc_free(v@, budget, sh),
            tree_esc_free(orig, budget, sh) && esc_free(prefix@) ==> forall|i: int|
                0 <= i < lines@.len() ==> veiled(#[trigger] lines.deep_view()[i], plain[i]),
        decreases v@.len(),
    {
        let ghost vpre = v@;
        let node = v.remove(0);
        let is_last = v.len() == 0;
        proof {
            assert(node == vpre[0]);
            assert(v@ =~= vpre.skip(1));
            assert(is_last == (vpre.len() == 1));
        }
        let meta = match &node.meta {
            Some(m) => *m,
            None => EntryMeta {
                mode: 0,
                size: 0,
                is_dir: false,
                is_symlink: false,
                uid: 0,
                gid: 0,
                modified: None,
            },
        };
        let child_abs = join_path(abs_path, node.name.as_str());
        let decorated = crate::colors::format_file_name(
            node.name.as_str(),
            &meta,
            config.interactive,
            child_abs.as_str(),
        );
        let mut line = String::from_str(prefix);
        if is_last {
            line.append("└── ");
        } else {
            line.append("├── ");
        }
        line.append(decorated.as_str());
        let ghost plain_line = prefix@ + connector(is_last) + node.name@;
        proof {
            assert(line@ =~= prefix@ + connector(is_last) + decorated@);
            if tree_esc_free(orig, budget, sh) && esc_free(prefix@) {
                assert(tree_esc_free(vpre, budget, sh));
                assert(esc_free(node.name@));
                lemma_glyphs_esc_free();
                lemma_esc_free_veiled_self(prefix@);
                lemma_esc_free_veiled_self(connector(is_last));
                lemma_veiled_concat(prefix@, prefix@, connector(is_last), connector(is_last));
                lemma_veiled_concat(
                    prefix@ + connector(is_last),
                    prefix@ + connector(is_last),
                    decorated@,
                    node.name@,
                );
                assert(veiled(line@, plain_line));
            }
        }
        let ghost old_dv = lines.deep_view();
        let ghost old_plain = plain;
        lines.push(line);
        proof {
            plain = plain + seq![plain_line];
            assert(lines.deep_view() =~= old_dv.push(line@));
        }
        let is_dir = match &node.meta {
            Some(m) => m.is_dir,
            None => false,
        };
        let ghost sub_spec: Seq<Seq<char>> = if node_is_dir(vpre[0]) && vpre[0].children is Some {
            spec_tree_lines(
                spec_sort_nodes(visible_nodes(vpre[0].children.unwrap()@, sh)),
                prefix@ + continuation(is_last),
                (budget - 1) as nat,
                sh,
            )
        } else {
            Seq::<Seq<char>>::empty()
        };
        if is_dir {
            if let Some(kids) = node.children {
                let filtered = filter_visible_nodes(kids, config.show_hidden);
                let sorted = sort_nodes(filtered);
                let mut new_prefix = String::from_str(prefix);
                if is_last {
                    new_prefix.append("    ");
                } else {
                    new_prefix.append("│   ");
                }
                proof {
                    assert(new_prefix@ == prefix@ + continuation(is_last));
                }
                let mut sub = display_tree_recursive(
                    sorted,
                    new_prefix.as_str(),
                    config,
                    remaining - 1,
                    child_abs.as_str(),
                );
                proof {
                    assert(sub@.len() == sub_spec.len());
                    if tree_esc_free(orig, budget, sh) && esc_free(prefix@) {
                        lemma_glyphs_esc_free();
                        assert forall|i: int|
                            0 <= i < (prefix@ + continuation(is_last)).len() implies (prefix@
                            + continuation(is_last))[i] != crate::ansi::esc() by {
                            if i < prefix@.len() {
                                assert((prefix@ + continuation(is_last))[i] == prefix@[i]);
                            } else {
                                assert((prefix@ + continuation(is_last))[i] == continuation(
                                    is_last,
                                )[i - prefix@.len()]);
                            }
                        }
                        assert(tree_esc_free(vpre, budget, sh));
                    }
                }
                let ghost sub_dv = sub.deep_view();
                let ghost pre_append_dv = lines.deep_view();
                lines.append(&mut sub);
                proof {
                    assert(lines.deep_view() =~= pre_append_dv + sub_dv);
                    plain = plain + sub_spec;
                }
            } else {
                proof {
                    assert(sub_spec =~= Seq::<Seq<char>>::empty());
                }
            }
        } else {
            proof {
                assert(!node_is_dir(vpre[0]));
            }
        }
        proof {
            assert(spec_tree_lines(vpre, prefix@, budget, sh) == seq![plain_line] + sub_spec
                + spec_tree_lines(v@, prefix@, budget, sh));
            assert(plain =~= old_plain + seq![plain_line] + sub_spec);
            assert(old_plain + (seq![plain_line] + sub_spec + spec_tree_lines(
                v@,
                prefix@,
                budget,
                sh,
            )) =~= plain + spec_tree_lines(v@, prefix@, budget, sh));
            if tree_esc_free(orig, budget, sh) {
                assert(tree_esc_free(vpre, budget, sh));
                assert(tree_esc_free(v@, budget, sh));
            }
        }
    }
    proof {
        assert(spec_tree_lines(v@, prefix@, budget, sh) =~= Seq::<Seq<char>>::empty());
        assert(plain + Seq::<Seq<char>>::empty() =~= plain);
    }
    lines
}

/// The effective recursion budget: the lesser of the configured depth and
/// the absolute ceiling; the ceiling is also the default.
pub open spec fn spec_budget(config: Config) -> nat {
    let m: nat = match config.tree_depth {
        Some(d) => d as nat,
        None => MAX_DEPTH as nat,
    };
    if m > MAX_DEPTH as nat {
        MAX_DEPTH as nat
    } else {
        m
    }
}

/// What the rendered tree shows: the styled root label, then exactly the
/// skeleton lines of the walk over the filtered and sorted children, each
/// shown unchanged under its decoration.
pub open spec fn tree_output_ok(lines: Seq<Seq<char>>, nodes: Seq<TreeNode>, config: Config) -> bool {
    let body = spec_tree_lines(
        spec_sort_nodes(visible_nodes(nodes, config.show_hidden)),
        Seq::<char>::empty(),
        spec_budget(config),
        config.show_hidden,
    );
    &&& lines.len() == 1 + body.len()
    &&& (esc_free(config.path@) ==> crate::ansi::styled_as(
        lines[0],
        config.path@,
        crate::colors::root_params(),
    ))
    &&& (esc_free(config.path@) ==> styled(lines[0], config.path@))
    &&& (tree_esc_free(
        spec_sort_nodes(visible_nodes(nodes, config.show_hidden)),
        spec_budget(config),
        config.show_hidden,
    ) ==> forall|i: int| 0 <= i < body.len() ==> veiled(#[trigger] lines[i + 1], body[i]))
}

/// Renders the tree: the styled root label first, then the walk over the
/// root's children, filtered, sorted and depth-limited.
pub fn display(nodes: Vec<TreeNode>, config: &Config, abs_root: &str) -> (lines: Vec<String>)
    ensures
        tree_output_ok(lines.deep_view(), nodes@, *config),
{
    let root_line = crate::colors::get_colored_root(config.path.as_str());
    let filtered = filter_visible_nodes(nodes, config.show_hidden);
    let sorted = sort_nodes(filtered);
    let max_allowed = match config.tree_depth {
        Some(d) => d,
        None => MAX_DEPTH,
    };
    let budget = if max_allowed > MAX_DEPTH {
        MAX_DEPTH
    } else {
        max_allowed
    };
    proof {
        assert(budget as nat == spec_budget(*config));
        reveal_strlit("");
        assert(""@ =~= Seq::<char>::empty());
    }
    let mut rec = display_tree_recursive(sorted, "", config, budget, abs_root);
    let mut lines: Vec<String> = Vec::new();
    lines.push(root_line);
    let ghost rec_dv = rec.deep_view();
    let ghost one_dv = lines.deep_view();
    lines.append(&mut rec);
    proof {
        assert(lines.deep_view() =~= one_dv + rec_dv);
        assert(lines.deep_view()[0] == root_line@);
        assert(forall|i: int| 0 <= i < rec_dv.len() ==> lines.deep_view()[i + 1] == rec_dv[i]);
        assert(lines@.len() == lines.deep_view().len());
    }
    lines
}

/// A directory's only surviving child takes the terminal connector, and
/// its own children are rendered under the blank continuation prefix.
pub proof fn lemma_single_child_terminal(
    nodes: Seq<TreeNode>,
    prefix: Seq<char>,
    budget: nat,
    show_hidden: bool,
)
    requires
        budget > 0,
        nodes.len() == 1,
    ensures
        spec_tree_lines(nodes, prefix, budget, show_hidden) == seq![
            prefix + "└── "@ + nodes[0].name@,
        ] + (if node_is_dir(nodes[0]) && nodes[0].children is Some {
            spec_tree_lines(
                spec_sort_nodes(visible_nodes(nodes[0].children.unwrap()@, show_hidden)),
                prefix + "    "@,
                (budget - 1) as nat,
                show_hidden,
            )
        } else {
            Seq::<Seq<char>>::empty()
        }),
{
    let sub: Seq<Seq<char>> = if node_is_dir(nodes[0]) && nodes[0].children is Some {
        spec_tree_lines(
            spec_sort_nodes(visible_nodes(nodes[0].children.unwrap()@, show_hidden)),
            prefix + continuation(true),
            (budget - 1) as nat,
            show_hidden,
        )
    } else {
        Seq::<Seq<char>>::empty()
    };
    assert(spec_tree_lines(nodes.skip(1), prefix, budget, show_hidden) =~= Seq::<
        Seq<char>,
    >::empty());
    assert(seq![prefix + connector(true) + nodes[0].name@] + sub + Seq::<Seq<char>>::empty() =~=
    seq![prefix + connector(true) + nodes[0].name@] + sub);
}

/// With a depth budget of one, the walk prints exactly one line for each
/// immediate child and none of their descendants.
pub proof fn lemma_depth_one_children_only(
    nodes: Seq<TreeNode>,
    prefix: Seq<char>,
    show_hidden: bool,
)
    ensures
        spec_tree_lines(nodes, prefix, 1, show_hidden).len() == nodes.len(),
        forall|i: int|
            0 <= i < nodes.len() ==> #[trigger] spec_tree_lines(nodes, prefix, 1, show_hidden)[i]
                == prefix + connector(i == nodes.len() - 1) + nodes[i].name@,
    decreases nodes.len(),
{
    if nodes.len() > 0 {
        lemma_depth_one_children_only(nodes.skip(1), prefix, show_hidden);
        let line = prefix + connector(nodes.len() == 1) + nodes[0].name@;
        let rest = spec_tree_lines(nodes.skip(1), prefix, 1, show_hidden);
        let sub: Seq<Seq<char>> = if node_is_dir(nodes[0]) && nodes[0].children is Some {
            spec_tree_lines(
                spec_sort_nodes(visible_nodes(nodes[0].children.unwrap()@, show_hidden)),
                prefix + continuation(nodes.len() == 1),
                0,
                show_hidden,
            )
        } else {
            Seq::<Seq<char>>::empty()
        };
        assert(sub =~= Seq::<Seq<char>>::empty());
        assert(spec_tree_lines(nodes, prefix, 1, show_hidden) =~= seq![line] + rest);
        assert forall|i: int| 0 <= i < nodes.len() implies #[trigger] spec_tree_lines(
            nodes,
            prefix,
            1,
            show_hidden,
        )[i] == prefix + connector(i == nodes.len() - 1) + nodes[i].name@ by {
            if i > 0 {
                assert(spec_tree_lines(nodes, prefix, 1, show_hidden)[i] == rest[i - 1]);
                assert(nodes.skip(1)[i - 1] == nodes[i]);
            }
        }
    }
}

} // verus!
