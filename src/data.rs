//! Trees drawn from structured data: strings, other scalars, lists and
//! maps, as JSON, YAML and TOML documents hold them.
use crate::export::{decimal, push_decimal};
use crate::tree::{lemma_values_of, lemma_values_of_push, values_of, Tree, TreeValue};
use vstd::prelude::*;

verus! {

/// A value of a structured document.
pub enum DataValue {
    /// The null value.
    Null,
    /// A boolean.
    Bool(bool),
    /// A string.
    Text(String),
    /// Any other scalar (a number, a date), as the document's own text for it.
    Scalar(String),
    /// A list of values.
    List(Vec<DataValue>),
    /// Keyed values, in the document's order.
    Keyed(Vec<DataEntry>),
}

/// One keyed value of a map.
pub struct DataEntry {
    pub key: String,
    pub value: DataValue,
}

/// The kind of document, which decides how a key is joined to its value.
pub enum DataFormat {
    Json,
    Yaml,
    Toml,
}

/// The text put before a scalar under `key`.
pub open spec fn key_prefix(key: Seq<char>, f: DataFormat) -> Seq<char> {
    match f {
        DataFormat::Json => "\""@ + key + "\": "@,
        DataFormat::Yaml => key + ": "@,
        DataFormat::Toml => key + " = "@,
    }
}

/// The label of the node that holds a map.
pub open spec fn map_label(f: DataFormat) -> Seq<char> {
    match f {
        DataFormat::Toml => "table"@,
        _ => "object"@,
    }
}

/// The tree of one map entry: a one-line leaf takes the key before its
/// line; anything else goes under a node labelled with the key.
pub open spec fn entry_tree(key: Seq<char>, c: TreeValue, f: DataFormat) -> TreeValue {
    if c is Leaf && c->Leaf_0.len() == 1 {
        TreeValue::Leaf(seq![key_prefix(key, f) + c->Leaf_0[0]])
    } else {
        TreeValue::Node(key, seq![c])
    }
}

/// The tree of a value: null as a leaf "null", a boolean as a leaf "true"
/// or "false", a string as a quoted leaf, another scalar as a leaf of its
/// text, a list as a node "array" over one node "[i]" per item,
/// a map as a node "object" (or "table") over its entries; an empty list or
/// map as a leaf "[]" or "{}".
pub open spec fn data_tree(v: DataValue, f: DataFormat) -> TreeValue
    decreases v, 0int,
{
    match v {
        DataValue::Null => TreeValue::Leaf(seq!["null"@]),
        DataValue::Bool(b) => TreeValue::Leaf(seq![if b { "true"@ } else { "false"@ }]),
        DataValue::Text(s) => TreeValue::Leaf(seq!["\""@ + s@ + "\""@]),
        DataValue::Scalar(s) => TreeValue::Leaf(seq![s@]),
        DataValue::List(items) => if items.len() == 0 {
            TreeValue::Leaf(seq!["[]"@])
        } else {
            TreeValue::Node("array"@, item_trees(items@, f, items.len() as int))
        },
        DataValue::Keyed(entries) => if entries.len() == 0 {
            TreeValue::Leaf(seq!["{}"@])
        } else {
            TreeValue::Node(map_label(f), entry_trees(entries@, f, entries.len() as int))
        },
    }
}

/// The trees of the first `k` items of a list.
pub open spec fn item_trees(items: Seq<DataValue>, f: DataFormat, k: int) -> Seq<TreeValue>
    decreases items, k,
{
    if k <= 0 || k > items.len() {
        Seq::empty()
    } else {
        item_trees(items, f, k - 1).push(
            TreeValue::Node(
                "["@ + decimal((k - 1) as nat) + "]"@,
                seq![data_tree(items[k - 1], f)],
            ),
        )
    }
}

/// The trees of the first `k` entries of a map.
pub open spec fn entry_trees(es: Seq<DataEntry>, f: DataFormat, k: int) -> Seq<TreeValue>
    decreases es, k,
{
    if k <= 0 || k > es.len() {
        Seq::empty()
    } else {
        entry_trees(es, f, k - 1).push(entry_tree(es[k - 1].key@, data_tree(es[k - 1].value, f), f))
    }
}

/// A node with a single child.
fn node_over(label: String, child: Tree) -> (r: Tree)
    ensures
        r@ == TreeValue::Node(label@, seq![child@]),
{
    let mut v: Vec<Tree> = Vec::new();
    proof {
        lemma_values_of_push(v@, child);
        assert(v@.push(child).drop_last() =~= v@);
    }
    v.push(child);
    assert(values_of(v@) =~= seq![child@]);
    Tree::Node(label, v)
}

/// A leaf of one line.
fn leaf_of(line: String) -> (r: Tree)
    ensures
        r@ == TreeValue::Leaf(seq![line@]),
{
    let mut v: Vec<String> = Vec::new();
    v.push(line);
    assert(crate::tree::texts(v@) =~= seq![v@[0]@]);
    Tree::Leaf(v)
}

/// The tree of one map entry.
fn entry_of(key: &String, c: Tree, f: &DataFormat) -> (r: Tree)
    ensures
        r@ == entry_tree(key@, c@, *f),
{
    let one = match &c {
        Tree::Leaf(lines) => lines.len() == 1,
        Tree::Node(_, _) => false,
    };
    if one {
        let mut s = match f {
            DataFormat::Json => {
                let mut s = String::from_str("\"");
                s.append(key.as_str());
                s.append("\": ");
                s
            },
            DataFormat::Yaml => {
                let mut s = key.clone();
                s.append(": ");
                s
            },
            DataFormat::Toml => {
                let mut s = key.clone();
                s.append(" = ");
                s
            },
        };
        match &c {
            Tree::Leaf(lines) => {
                s.append(lines[0].as_str());
                assert(c@ == TreeValue::Leaf(crate::tree::texts(lines@)));
            },
            Tree::Node(_, _) => {},
        }
        leaf_of(s)
    } else {
        proof {
            match c {
                Tree::Leaf(ref lines) => {
                    assert(c@ == TreeValue::Leaf(crate::tree::texts(lines@)));
                },
                Tree::Node(_, _) => {},
            }
        }
        node_over(key.clone(), c)
    }
}

impl Tree {
    /// The tree of a structured value, as `data_tree` describes it.
    pub fn from_data(value: &DataValue, format: &DataFormat) -> (r: Tree)
        ensures
            r@ == data_tree(*value, *format),
        decreases value,
    {
        match value {
            DataValue::Null => leaf_of(String::from_str("null")),
            DataValue::Bool(b) => if *b {
                leaf_of(String::from_str("true"))
            } else {
                leaf_of(String::from_str("false"))
            },
            DataValue::Text(s) => {
                let mut t = String::from_str("\"");
                t.append(s.as_str());
                t.append("\"");
                leaf_of(t)
            },
            DataValue::Scalar(s) => leaf_of(s.clone()),
            DataValue::List(items) => {
                if items.len() == 0 {
                    return leaf_of(String::from_str("[]"));
                }
                let mut out: Vec<Tree> = Vec::new();
                let mut i: usize = 0;
                while i < items.len()
                    invariant
                        *value is List,
                        (*value)->List_0 == *items,
                        i <= items@.len(),
                        values_of(out@) == item_trees(items@, *format, i as int),
                    decreases items@.len() - i,
                {
                    proof {
                        assert(decreases_to!(*value => (*value)->List_0));
                    }
                    let c = Tree::from_data(&items[i], format);
                    let mut label = String::from_str("[");
                    push_decimal(&mut label, i);
                    label.append("]");
                    let n = node_over(label, c);
                    proof {
                        lemma_values_of_push(out@, n);
                    }
                    out.push(n);
                    i = i + 1;
                }
                Tree::Node(String::from_str("array"), out)
            },
            DataValue::Keyed(entries) => {
                if entries.len() == 0 {
                    return leaf_of(String::from_str("{}"));
                }
                let mut out: Vec<Tree> = Vec::new();
                let mut i: usize = 0;
                while i < entries.len()
                    invariant
                        *value is Keyed,
                        (*value)->Keyed_0 == *entries,
                        i <= entries@.len(),
                        values_of(out@) == entry_trees(entries@, *format, i as int),
                    decreases entries@.len() - i,
                {
                    proof {
                        assert(decreases_to!(*value => (*value)->Keyed_0));
                        assert(decreases_to!((*value)->Keyed_0 => (*value)->Keyed_0@));
                        assert(decreases_to!((*value)->Keyed_0@ => (*value)->Keyed_0@[i as int]));
                    }
                    let e = &entries[i];
                    let c = Tree::from_data(&e.value, format);
                    let n = entry_of(&e.key, c, format);
                    proof {
                        lemma_values_of_push(out@, n);
                    }
                    out.push(n);
                    i = i + 1;
                }
                let label = match format {
                    DataFormat::Toml => String::from_str("table"),
                    _ => String::from_str("object"),
                };
                Tree::Node(label, out)
            },
        }
    }
}

} // verus!
