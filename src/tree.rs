//! The directory tree that a payload encodes, its pre-order flattening, and
//! the laws that tie the entry codec to it.
use vstd::prelude::*;

use crate::files::{
    Entry, EntryInner, EntryInnerView, EntryView, after, child_count, entries_bytes, entry_bytes,
    lemma_entries_bytes_append, lemma_entries_bytes_single, lemma_entry_prefix_fails,
    lemma_parse_run_size, lemma_parse_run_step, name_is_ok, name_ok, parse_entry, parse_payload,
    parse_run, parse_subtrees, ran_out, write_single_entry,
};
use crate::wire::{FormatError, be32, lemma_be32_round_trip, write_be32};

verus! {

/// A node of a directory tree: a file with its content, or a directory with
/// its children in order.
pub enum TreeNode {
    File { name: Seq<u8>, content: Seq<u8> },
    Directory { name: Seq<u8>, children: Seq<TreeNode> },
}

/// The entry that stands for a node in the flattening.
pub open spec fn node_entry(n: TreeNode) -> EntryView {
    match n {
        TreeNode::File { name, content } => EntryView { name, inner: EntryInnerView::File(content) },
        TreeNode::Directory { name, children } => EntryView {
            name,
            inner: EntryInnerView::Directory(children.len() as u32),
        },
    }
}

/// Pre-order flattening of a node: its entry, then its children's subtrees.
pub open spec fn flatten_node(n: TreeNode) -> Seq<EntryView>
    decreases n, 0nat,
{
    match n {
        TreeNode::File { .. } => seq![node_entry(n)],
        TreeNode::Directory { children, .. } => seq![node_entry(n)] + flatten(children),
    }
}

/// Pre-order flattening of a list of sibling nodes.
pub open spec fn flatten(ns: Seq<TreeNode>) -> Seq<EntryView>
    decreases ns, 1nat,
{
    if ns.len() == 0 {
        Seq::empty()
    } else {
        flatten_node(ns[0]) + flatten(ns.drop_first())
    }
}

/// Names hold no NUL, and every length and child count fits 32 bits.
pub open spec fn node_writable(n: TreeNode) -> bool
    decreases n,
{
    match n {
        TreeNode::File { name, content } => name_ok(name) && content.len() <= u32::MAX,
        TreeNode::Directory { name, children } => {
            &&& name_ok(name)
            &&& children.len() <= u32::MAX
            &&& forall|i: int| 0 <= i < children.len() ==> node_writable(#[trigger] children[i])
        },
    }
}

/// Every node of the list can be encoded.
pub open spec fn forest_writable(ns: Seq<TreeNode>) -> bool {
    forall|i: int| 0 <= i < ns.len() ==> node_writable(#[trigger] ns[i])
}

proof fn lemma_after_after(
    a: Seq<EntryView>,
    n: nat,
    b: Seq<EntryView>,
    m: nat,
    r: Result<(Seq<EntryView>, nat), FormatError>,
)
    ensures
        after(a, n, after(b, m, r)) == after(a + b, n + m, r),
{
    if let Ok((es, k)) = r {
        assert(a + (b + es) =~= (a + b) + es);
    }
}

proof fn lemma_flatten_single(n: TreeNode)
    ensures
        flatten(seq![n]) == flatten_node(n),
{
    assert(seq![n].drop_first() =~= Seq::<TreeNode>::empty());
    assert(flatten_node(n) + flatten(Seq::<TreeNode>::empty()) =~= flatten_node(n));
}

/// The single-counter decode is exact. Where the decoder stands at the start
/// of the flattened encoding of sibling subtrees `ns`, owing those `ns.len()`
/// entries and `m` more beyond them, it decodes precisely the pre-order
/// entries of `ns`, takes precisely their bytes, and is left owing `m` at the
/// bytes that follow: the counter always equals the entries still due across
/// every open directory, and falls to zero exactly at the end of a subtree.
pub proof fn lemma_counter_invariant(ns: Seq<TreeNode>, tail: Seq<u8>, m: nat)
    requires
        forest_writable(ns),
    ensures
        parse_run(entries_bytes(flatten(ns)) + tail, ns.len() + m) == after(
            flatten(ns),
            entries_bytes(flatten(ns)).len(),
            parse_run(tail, m),
        ),
    decreases ns, 0nat,
{
    if ns.len() == 0 {
        assert(entries_bytes(flatten(ns)) + tail =~= tail);
        if let Ok((es, k)) = parse_run(tail, m) {
            assert(Seq::<EntryView>::empty() + es =~= es);
        }
    } else {
        let n = ns[0];
        let rest = ns.drop_first();
        assert(forest_writable(rest)) by {
            assert forall|i: int| 0 <= i < rest.len() implies node_writable(#[trigger] rest[i]) by {
                assert(rest[i] == ns[i + 1]);
            }
        }
        assert(node_writable(n));
        let fr = flatten(rest);
        let er = entries_bytes(fr);
        let x = er + tail;
        let e = node_entry(n);
        lemma_entries_bytes_append(flatten_node(n), fr);
        assert(decreases_to!(ns => n));
        lemma_counter_invariant(rest, tail, m);
        lemma_entries_bytes_single(e);
        match n {
            TreeNode::File { .. } => {
                assert(flatten_node(n) =~= seq![e]);
                lemma_parse_run_step(e, x, ns.len() + m);
                assert(entries_bytes(flatten(ns)) + tail =~= entry_bytes(e) + x);
                lemma_after_after(seq![e], entry_bytes(e).len(), fr, er.len(), parse_run(tail, m));
            },
            TreeNode::Directory { children, .. } => {
                assert(forest_writable(children));
                let fc = flatten(children);
                let ec = entries_bytes(fc);
                lemma_entries_bytes_append(seq![e], fc);
                lemma_parse_run_step(e, ec + x, ns.len() + m);
                assert(entries_bytes(flatten(ns)) + tail =~= entry_bytes(e) + (ec + x));
                assert(decreases_to!(n => children));
                lemma_counter_invariant(children, x, rest.len() + m);
                assert(ns.len() + m - 1 + child_count(e) == children.len() + (rest.len() + m));
                assert(ec + x =~= entries_bytes(fc) + x);
                lemma_after_after(fc, ec.len(), fr, er.len(), parse_run(tail, m));
                lemma_after_after(
                    seq![e],
                    entry_bytes(e).len(),
                    fc + fr,
                    ec.len() + er.len(),
                    parse_run(tail, m),
                );
                assert(flatten(ns) =~= seq![e] + (fc + fr));
            },
        }
    }
}

proof fn lemma_forest_writable_split(ns: Seq<TreeNode>)
    requires
        forest_writable(ns),
        ns.len() > 0,
    ensures
        forest_writable(seq![ns[0]]),
        forest_writable(ns.drop_first()),
{
    assert forall|i: int| 0 <= i < ns.drop_first().len() implies node_writable(
        #[trigger] ns.drop_first()[i],
    ) by {
        assert(ns.drop_first()[i] == ns[i + 1]);
    }
    assert(node_writable(ns[0]));
}

/// Decoding the flattened encoding of sibling subtrees, one whole subtree at
/// a time, gives back their pre-order entries.
pub proof fn lemma_subtrees_round_trip(ns: Seq<TreeNode>)
    requires
        forest_writable(ns),
    ensures
        parse_subtrees(entries_bytes(flatten(ns))) == Ok::<Seq<EntryView>, FormatError>(
            flatten(ns),
        ),
    decreases ns.len(),
{
    if ns.len() == 0 {
        assert(entries_bytes(flatten(ns)) =~= Seq::<u8>::empty());
    } else {
        let n = ns[0];
        let rest = ns.drop_first();
        lemma_forest_writable_split(ns);
        lemma_flatten_single(n);
        let fnode = flatten_node(n);
        let er = entries_bytes(flatten(rest));
        let b = entries_bytes(flatten(ns));
        lemma_entries_bytes_append(fnode, flatten(rest));
        lemma_counter_invariant(seq![n], er, 0);
        assert(parse_run(er, 0) == Ok::<(Seq<EntryView>, nat), FormatError>((Seq::empty(), 0)))
            by {
            reveal(parse_run);
        }
        assert(fnode + Seq::<EntryView>::empty() =~= fnode);
        let len = entries_bytes(fnode).len();
        assert(parse_run(b, 1) == Ok::<(Seq<EntryView>, nat), FormatError>((fnode, len)));
        lemma_parse_run_size(b, 1);
        assert(b.skip(len as int) =~= er);
        lemma_subtrees_round_trip(rest);
    }
}

/// Round trip of a whole tree: the payload that encodes a tree (its root
/// count, then the flattened roots) decodes to exactly the roots' pre-order
/// entries, with that root count.
pub proof fn lemma_tree_round_trip(roots: Seq<TreeNode>)
    requires
        forest_writable(roots),
        roots.len() <= u32::MAX,
    ensures
        parse_payload(tree_payload(roots)) == Ok::<(Seq<EntryView>, u32), FormatError>(
            (flatten(roots), roots.len() as u32),
        ),
{
    let b = tree_payload(roots);
    lemma_be32_round_trip(roots.len() as u32);
    assert(b.subrange(0, 4) =~= be32(roots.len() as u32));
    assert(b.skip(4) =~= entries_bytes(flatten(roots)));
    lemma_subtrees_round_trip(roots);
}

/// A directory tree held in memory, ready to be encoded.
pub enum Node {
    File { name: Vec<u8>, content: Vec<u8> },
    Directory { name: Vec<u8>, children: Vec<Node> },
}

/// The model of a [`Node`].
pub open spec fn node_view(n: &Node) -> TreeNode
    decreases n,
{
    match n {
        Node::File { name, content } => TreeNode::File { name: name@, content: content@ },
        Node::Directory { name, children } => TreeNode::Directory {
            name: name@,
            children: Seq::new(
                children@.len(),
                |i: int|
                    if 0 <= i < children@.len() {
                        node_view(&children@[i])
                    } else {
                        TreeNode::File { name: Seq::empty(), content: Seq::empty() }
                    },
            ),
        },
    }
}

/// The models of a list of nodes.
pub open spec fn nodes_view(ns: Seq<Node>) -> Seq<TreeNode> {
    Seq::new(ns.len(), |i: int| node_view(&ns[i]))
}

/// A tree section's payload: the root count, then the flattened roots.
pub open spec fn tree_payload(roots: Seq<TreeNode>) -> Seq<u8> {
    be32(roots.len() as u32) + entries_bytes(flatten(roots))
}

proof fn lemma_flatten_append(a: Seq<TreeNode>, b: Seq<TreeNode>)
    ensures
        flatten(a + b) == flatten(a) + flatten(b),
    decreases a.len(),
{
    if a.len() == 0 {
        assert(a + b =~= b);
        assert(flatten(a) + flatten(b) =~= flatten(b));
    } else {
        assert((a + b).drop_first() =~= a.drop_first() + b);
        assert((a + b)[0] == a[0]);
        lemma_flatten_append(a.drop_first(), b);
        assert(flatten(a + b) =~= flatten(a) + flatten(b));
    }
}

/// Appends the encodings of `nodes` one after another, as the pre-order
/// flattening of their subtrees.
fn write_nodes(nodes: &Vec<Node>, out: &mut Vec<u8>)
    requires
        forest_writable(nodes_view(nodes@)),
    ensures
        final(out)@ == old(out)@ + entries_bytes(flatten(nodes_view(nodes@))),
    decreases nodes, 1nat,
{
    let ghost views = nodes_view(nodes@);
    let mut i: usize = 0;
    assert(views.take(0) =~= Seq::<TreeNode>::empty());
    assert(out@ =~= old(out)@ + entries_bytes(flatten(views.take(0))));
    while i < nodes.len()
        invariant
            i <= nodes@.len(),
            views == nodes_view(nodes@),
            forest_writable(views),
            out@ == old(out)@ + entries_bytes(flatten(views.take(i as int))),
        decreases nodes@.len() - i,
    {
        assert(node_writable(views[i as int]));
        assert(decreases_to!(nodes => nodes[i as int]));
        write_node(&nodes[i], out);
        proof {
            assert(views.take(i + 1) =~= views.take(i as int) + seq![views[i as int]]);
            lemma_flatten_append(views.take(i as int), seq![views[i as int]]);
            lemma_flatten_single(views[i as int]);
            lemma_entries_bytes_append(flatten(views.take(i as int)), flatten_node(views[i as int]));
        }
        i += 1;
    }
    assert(views.take(i as int) =~= views);
}

/// Appends the pre-order encoding of one node: its entry, then, for a
/// directory, the encodings of its children's subtrees.
pub fn write_node(node: &Node, out: &mut Vec<u8>)
    requires
        node_writable(node_view(node)),
    ensures
        final(out)@ == old(out)@ + entries_bytes(flatten_node(node_view(node))),
    decreases node, 0nat,
{
    let ghost v = node_view(node);
    match node {
        Node::File { name, content } => {
            let entry = Entry { name: name.as_slice(), entry: EntryInner::File(content.as_slice()) };
            assert(entry@ == node_entry(v));
            write_single_entry(&entry, out);
            proof {
                lemma_entries_bytes_single(node_entry(v));
            }
        },
        Node::Directory { name, children } => {
            let entry = Entry {
                name: name.as_slice(),
                entry: EntryInner::Directory(children.len() as u32),
            };
            assert(entry@ == node_entry(v));
            write_single_entry(&entry, out);
            assert(nodes_view(children@) =~= v->children);
            write_nodes(children, out);
            proof {
                lemma_entries_bytes_single(node_entry(v));
                lemma_entries_bytes_append(seq![node_entry(v)], flatten(v->children));
            }
        },
    }
}

/// Encodes a directory tree as a tree section's payload: the number of roots,
/// then the pre-order flattening of every root's subtree.
pub fn write_root_dir(roots: &Vec<Node>, out: &mut Vec<u8>)
    requires
        roots@.len() <= u32::MAX,
        forest_writable(nodes_view(roots@)),
    ensures
        final(out)@ == old(out)@ + tree_payload(nodes_view(roots@)),
{
    write_be32(roots.len() as u32, out);
    write_nodes(roots, out);
    assert(out@ =~= old(out)@ + tree_payload(nodes_view(roots@)));
}

impl Node {
    /// Whether the tree can be encoded: no name holds a NUL byte, and every
    /// content length and child count fits 32 bits. Encoders require this.
    pub fn is_writable(&self) -> (r: bool)
        ensures
            r == node_writable(node_view(self)),
        decreases self,
    {
        let ghost v = node_view(self);
        match self {
            Node::File { name, content } => name_is_ok(name.as_slice()) && content.len()
                <= 0xFFFF_FFFF,
            Node::Directory { name, children } => {
                if !name_is_ok(name.as_slice()) || children.len() > 0xFFFF_FFFF {
                    return false;
                }
                let mut i: usize = 0;
                while i < children.len()
                    invariant
                        i <= children@.len(),
                        v == node_view(self),
                        *self == (Node::Directory { name: *name, children: *children }),
                        forall|j: int| 0 <= j < i ==> node_writable(#[trigger] v->children[j]),
                    decreases children@.len() - i,
                {
                    assert(decreases_to!(children => children[i as int]));
                    if !children[i].is_writable() {
                        assert(v->children[i as int] == node_view(&children@[i as int]));
                        return false;
                    }
                    i += 1;
                }
                true
            },
        }
    }
}

proof fn lemma_run_out_of_bytes(b: Seq<u8>, remaining: nat)
    requires
        remaining > 0,
        ran_out(parse_entry(b)),
    ensures
        ran_out(parse_run(b, remaining)),
{
    reveal(parse_run);
}

/// Cutting the flattened encoding of sibling subtrees anywhere before its end
/// leaves a buffer that the counter-driven decoder cannot finish, whatever
/// else it still owes: it runs out of bytes.
proof fn lemma_subtrees_prefix_fails(ns: Seq<TreeNode>, k: int, m: nat)
    requires
        forest_writable(ns),
        0 <= k < entries_bytes(flatten(ns)).len(),
    ensures
        ran_out(parse_run(entries_bytes(flatten(ns)).take(k), ns.len() + m)),
    decreases ns, 0nat,
{
    if ns.len() == 0 {
        assert(entries_bytes(flatten(ns)) =~= Seq::<u8>::empty());
    } else {
        let n = ns[0];
        let rest = ns.drop_first();
        lemma_forest_writable_split(ns);
        assert(node_writable(n));
        let e = node_entry(n);
        let ee = entry_bytes(e);
        let fr = flatten(rest);
        let er = entries_bytes(fr);
        let full = entries_bytes(flatten(ns));
        let b = full.take(k);
        let r = (ns.len() + m) as nat;
        lemma_entries_bytes_single(e);
        lemma_entries_bytes_append(flatten_node(n), fr);
        assert(decreases_to!(ns => n));
        match n {
            TreeNode::File { .. } => {
                assert(flatten_node(n) =~= seq![e]);
                assert(full =~= ee + er);
                if k < ee.len() {
                    assert(b =~= ee.take(k));
                    lemma_entry_prefix_fails(e, k);
                    lemma_run_out_of_bytes(b, r);
                } else {
                    let x = er.take(k - ee.len());
                    assert(b =~= ee + x);
                    lemma_parse_run_step(e, x, r);
                    lemma_subtrees_prefix_fails(rest, k - ee.len(), m);
                }
            },
            TreeNode::Directory { children, .. } => {
                assert(forest_writable(children));
                let fc = flatten(children);
                let ec = entries_bytes(fc);
                lemma_entries_bytes_append(seq![e], fc);
                assert(full =~= ee + (ec + er));
                if k < ee.len() {
                    assert(b =~= ee.take(k));
                    lemma_entry_prefix_fails(e, k);
                    lemma_run_out_of_bytes(b, r);
                } else {
                    let k1 = k - ee.len();
                    let x = (ec + er).take(k1);
                    assert(b =~= ee + x);
                    lemma_parse_run_step(e, x, r);
                    assert(r - 1 + child_count(e) == children.len() + (rest.len() + m));
                    assert(decreases_to!(n => children));
                    if k1 < ec.len() {
                        assert(x =~= ec.take(k1));
                        lemma_subtrees_prefix_fails(children, k1, rest.len() + m);
                    } else {
                        let y = er.take(k1 - ec.len());
                        assert(x =~= ec + y);
                        lemma_counter_invariant(children, y, rest.len() + m);
                        lemma_subtrees_prefix_fails(rest, k1 - ec.len(), m);
                    }
                }
            },
        }
    }
}

/// A strict prefix of one encoded subtree never decodes as a subtree: the
/// decoder runs out of bytes, failing with `Truncated`, or with `BadName`
/// where the cut falls inside a name and leaves it without its terminator.
pub proof fn lemma_subtree_prefix_fails(n: TreeNode, k: int)
    requires
        node_writable(n),
        0 <= k < entries_bytes(flatten_node(n)).len(),
    ensures
        ran_out(parse_run(entries_bytes(flatten_node(n)).take(k), 1)),
{
    lemma_flatten_single(n);
    assert(forest_writable(seq![n]));
    lemma_subtrees_prefix_fails(seq![n], k, 0);
}

} // verus!
