//! Rendering a static tree as text, one line per node and per leaf line.
use crate::config::{is_default_config, same_options, RenderConfig};
use crate::level::LevelPath;
use crate::stats::{line_count_of, node_count_of};
use crate::prefix::{compute_prefix, compute_second_line_prefix, continuation_text, prefix_text};
use crate::text::{trim_end, trimmed_end};
use crate::tree::{lemma_values_of, texts, values_of, Tree, TreeValue};
use vstd::prelude::*;

verus! {

/// Line `i` of a leaf at `path`: the first follows the leaf's prefix, the
/// others start with the continuation prefix and a space; each ends with the
/// line ending without its trailing white space, then a newline.
pub open spec fn leaf_line_text(
    lines: Seq<Seq<char>>,
    path: Seq<bool>,
    config: RenderConfig,
    i: int,
) -> Seq<char> {
    (if i == 0 {
        Seq::empty()
    } else {
        continuation_text(path, config.style) + " "@
    }) + lines[i] + trimmed_end(config.line_ending@) + "\n"@
}

/// The first `k` lines of a leaf at `path`.
pub open spec fn leaf_text(
    lines: Seq<Seq<char>>,
    path: Seq<bool>,
    config: RenderConfig,
    k: int,
) -> Seq<char>
    decreases k,
{
    if k <= 0 || k > lines.len() {
        Seq::empty()
    } else {
        leaf_text(lines, path, config, k - 1) + leaf_line_text(lines, path, config, k - 1)
    }
}

/// The text of a tree whose top stands at `path`.
pub open spec fn render_text(t: TreeValue, path: Seq<bool>, config: RenderConfig) -> Seq<char>
    decreases t, 0int,
{
    match t {
        TreeValue::Node(label, children) => prefix_text(path, config.style) + label
            + config.line_ending@ + children_text(children, path, config, children.len() as int),
        TreeValue::Leaf(lines) => prefix_text(path, config.style) + leaf_text(
            lines,
            path,
            config,
            lines.len() as int,
        ),
    }
}

/// The text of the first `k` of the children `ch` of a node at `path`; the
/// last of all the children is drawn as the last one.
pub open spec fn children_text(
    ch: Seq<TreeValue>,
    path: Seq<bool>,
    config: RenderConfig,
    k: int,
) -> Seq<char>
    decreases ch, k,
{
    if k <= 0 || k > ch.len() {
        Seq::empty()
    } else {
        children_text(ch, path, config, k - 1) + render_text(
            ch[k - 1],
            path.push(k == ch.len()),
            config,
        )
    }
}

/// The text of a whole tree.
pub open spec fn rendered(t: TreeValue, config: RenderConfig) -> Seq<char> {
    render_text(t, Seq::empty(), config)
}

/// Prefixes depend on the glyphs' texts alone.
proof fn lemma_prefix_same(path: Seq<bool>, a: RenderConfig, b: RenderConfig)
    requires
        same_options(a, b),
    ensures
        continuation_text(path, a.style) == continuation_text(path, b.style),
        prefix_text(path, a.style) == prefix_text(path, b.style),
    decreases path.len(),
{
    if path.len() > 0 {
        lemma_prefix_same(path.drop_last(), a, b);
    }
}

/// Leaf lines depend on the options' texts alone.
proof fn lemma_leaf_same(lines: Seq<Seq<char>>, path: Seq<bool>, a: RenderConfig, b: RenderConfig, k: int)
    requires
        same_options(a, b),
    ensures
        leaf_text(lines, path, a, k) == leaf_text(lines, path, b, k),
    decreases k,
{
    lemma_prefix_same(path, a, b);
    if k > 0 && k <= lines.len() {
        lemma_leaf_same(lines, path, a, b, k - 1);
    }
}

/// The text of a tree depends on the options' texts alone.
proof fn lemma_render_same(t: TreeValue, path: Seq<bool>, a: RenderConfig, b: RenderConfig)
    requires
        same_options(a, b),
    ensures
        render_text(t, path, a) == render_text(t, path, b),
    decreases t, 0int,
{
    lemma_prefix_same(path, a, b);
    match t {
        TreeValue::Node(_, children) => {
            lemma_children_same(children, path, a, b, children.len() as int);
        },
        TreeValue::Leaf(lines) => {
            lemma_leaf_same(lines, path, a, b, lines.len() as int);
        },
    }
}

/// The text of children depends on the options' texts alone.
proof fn lemma_children_same(ch: Seq<TreeValue>, path: Seq<bool>, a: RenderConfig, b: RenderConfig, k: int)
    requires
        same_options(a, b),
    ensures
        children_text(ch, path, a, k) == children_text(ch, path, b, k),
    decreases ch, k,
{
    if k > 0 && k <= ch.len() {
        lemma_children_same(ch, path, a, b, k - 1);
        lemma_render_same(ch[k - 1], path.push(k == ch.len()), a, b);
    }
}

/// Appends the text of `tree`, whose top stands at `level`, to `out`.
fn write_tree_element(out: &mut String, tree: &Tree, level: &LevelPath, config: &RenderConfig)
    ensures
        final(out)@ == old(out)@ + render_text(tree@, level@, *config),
    decreases tree,
{
    let ghost start = out@;
    let prefix = compute_prefix(level, &config.style);
    out.append(prefix.as_str());
    match tree {
        Tree::Node(label, children) => {
            out.append(label.as_str());
            out.append(config.line_ending.as_str());
            let ghost ch = values_of(children@);
            proof {
                lemma_values_of(children@);
            }
            let n = children.len();
            let mut i: usize = 0;
            while i < n
                invariant
                    n == children@.len(),
                    i <= n,
                    *tree is Node,
                    (*tree)->Node_1 == *children,
                    ch == values_of(children@),
                    ch.len() == n,
                    forall|j: int| 0 <= j < n ==> #[trigger] ch[j] == children@[j]@,
                    out@ == start + prefix_text(level@, config.style) + label@
                        + config.line_ending@ + children_text(ch, level@, *config, i as int),
                decreases n - i,
            {
                proof {
                    assert(decreases_to!(*tree => (*tree)->Node_1));
                }
                let next = level.with_child(i + 1 == n);
                write_tree_element(out, &children[i], &next, config);
                i = i + 1;
            }
            assert(tree@ == TreeValue::Node(label@, ch));
        },
        Tree::Leaf(lines) => {
            let second = compute_second_line_prefix(level, &config.style);
            let ending = trim_end(config.line_ending.as_str());
            let ghost tl = texts(lines@);
            let n = lines.len();
            let mut i: usize = 0;
            while i < n
                invariant
                    n == lines@.len(),
                    i <= n,
                    tl == texts(lines@),
                    second@ == continuation_text(level@, config.style),
                    ending@ == trimmed_end(config.line_ending@),
                    out@ == start + prefix_text(level@, config.style) + leaf_text(
                        tl,
                        level@,
                        *config,
                        i as int,
                    ),
                decreases n - i,
            {
                if i > 0 {
                    out.append(second.as_str());
                    out.append(" ");
                }
                out.append(lines[i].as_str());
                out.append(ending);
                out.append("\n");
                proof {
                    assert(tl[i as int] == lines@[i as int]@);
                }
                i = i + 1;
            }
            assert(tree@ == TreeValue::Leaf(tl));
        },
    }
}

/// Appends the text of `tree`, drawn with the default options, to `f`.
pub fn write_tree(f: &mut String, tree: &Tree) -> (r: Result<(), ()>)
    ensures
        r is Ok,
        forall|c: RenderConfig| is_default_config(c) ==> final(f)@ == old(f)@ + rendered(tree@, c),
{
    let config = RenderConfig::default();
    let r = write_tree_with_config(f, tree, &config);
    proof {
        assert forall|c: RenderConfig| is_default_config(c) implies rendered(tree@, c) == rendered(
            tree@,
            config,
        ) by {
            lemma_render_same(tree@, Seq::empty(), c, config);
        }
    }
    r
}

/// Appends the text of `tree`, drawn with `config`, to `f`.
pub fn write_tree_with_config(f: &mut String, tree: &Tree, config: &RenderConfig) -> (r: Result<(), ()>)
    ensures
        r is Ok,
        final(f)@ == old(f)@ + rendered(tree@, *config),
{
    let level = LevelPath::new();
    write_tree_element(f, tree, &level, config);
    Ok(())
}

/// The text of `tree` drawn with the default options.
pub fn render_to_string(tree: &Tree) -> (r: String)
    ensures
        forall|c: RenderConfig| is_default_config(c) ==> r@ == rendered(tree@, c),
{
    let mut out = String::new();
    let _ = write_tree(&mut out, tree);
    out
}

/// The text of `tree` drawn with `config`.
pub fn render_to_string_with_config(tree: &Tree, config: &RenderConfig) -> (r: String)
    ensures
        r@ == rendered(tree@, *config),
{
    let mut out = String::new();
    let _ = write_tree_with_config(&mut out, tree, config);
    out
}

impl Tree {
    /// The text of this tree drawn with the default options.
    pub fn render_to_string(&self) -> (r: String)
        ensures
            forall|c: RenderConfig| is_default_config(c) ==> r@ == rendered(self@, c),
    {
        render_to_string(self)
    }

    /// The text of this tree drawn with `config`.
    pub fn render_to_string_with_config(&self, config: &RenderConfig) -> (r: String)
        ensures
            r@ == rendered(self@, *config),
    {
        render_to_string_with_config(self, config)
    }

    /// Appends the text of this tree, drawn with the default options, to `writer`.
    pub fn render_to_writer(&self, writer: &mut String) -> (r: Result<(), ()>)
        ensures
            r is Ok,
            forall|c: RenderConfig| is_default_config(c) ==> final(writer)@ == old(writer)@
                + rendered(self@, c),
    {
        write_tree(writer, self)
    }

    /// Appends the text of this tree, drawn with `config`, to `writer`.
    pub fn render_to_writer_with_config(&self, writer: &mut String, config: &RenderConfig) -> (r: Result<(), ()>)
        ensures
            r is Ok,
            final(writer)@ == old(writer)@ + rendered(self@, *config),
    {
        write_tree_with_config(writer, self, config)
    }
}

/// A guess at the length of the text of `tree`: each node and each leaf
/// line takes a prefix of about ten characters, `avg_line_len` characters of
/// text and a newline.
pub fn estimate_capacity(tree: &Tree, avg_line_len: usize) -> (r: usize)
    requires
        (node_count_of(tree@) + line_count_of(tree@)) * (11 + avg_line_len) <= usize::MAX,
    ensures
        r == (node_count_of(tree@) + line_count_of(tree@)) * (11 + avg_line_len),
{
    proof {
        lemma_mul_bound((11 + avg_line_len) as nat, node_count_of(tree@) + line_count_of(tree@));
        lemma_mul_bound(node_count_of(tree@) + line_count_of(tree@), (11 + avg_line_len) as nat);
    }
    let nodes = tree.node_count();
    let lines = tree.total_lines();
    let count = nodes + lines;
    if count == 0 {
        return 0;
    }
    count * (10 + avg_line_len + 1)
}

/// Each factor of a product of naturals with a nonzero other factor is at
/// most the product.
proof fn lemma_mul_bound(a: nat, b: nat)
    ensures
        b >= 1 ==> a <= a * b,
        b >= 1 ==> a <= b * a,
{
    if b >= 1 {
        assert(a * b >= a * 1 && b * a >= 1 * a) by (nonlinear_arith)
            requires
                b >= 1,
        ;
    }
}

} // verus!
