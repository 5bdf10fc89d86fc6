use vstd::prelude::*;

use crate::chunker::{chunks_of, split_into_chunks};

verus! {

/// One node of the document tree.  Only chapters carry translatable
/// content; every other node kind passes through a run untouched.
pub enum BookNode {
    Chapter(Chapter),
    Other,
}

/// A chapter: a display name, an optional numbering label used only for
/// progress reporting, the chapter's text, and its child nodes in order.
pub struct Chapter {
    pub name: String,
    pub number: Option<String>,
    pub content: String,
    pub sub_items: Vec<BookNode>,
}

/// The chunk texts of one node, in walk order: the chunks of a chapter's
/// own content first, then those of its children, depth first; none for
/// any other node.
pub open spec fn node_chunk_texts(n: BookNode, max: nat) -> Seq<Seq<char>>
    decreases n,
{
    match n {
        BookNode::Chapter(c) => chunks_of(c.content@, max) + tree_chunk_texts(
            c.sub_items@,
            max,
        ),
        BookNode::Other => Seq::empty(),
    }
}

/// The chunk texts of a forest of nodes, in walk order.
pub open spec fn tree_chunk_texts(nodes: Seq<BookNode>, max: nat) -> Seq<Seq<char>>
    decreases nodes,
{
    if nodes.len() == 0 {
        Seq::empty()
    } else {
        node_chunk_texts(nodes[0], max) + tree_chunk_texts(nodes.drop_first(), max)
    }
}

/// Does the text end with three backticks — a closing code fence?
pub open spec fn ends_with_fence(t: Seq<char>) -> bool {
    t.len() >= 3 && t[t.len() - 3] == '`' && t[t.len() - 2] == '`' && t[t.len() - 1] == '`'
}

/// The content rebuilt from the translated chunks of one chapter: the
/// texts in chunk order, a blank line appended after any text that ends
/// with a closing code fence so that fences never fuse across chunk
/// boundaries.
pub open spec fn rebuilt_content(outs: Seq<Seq<char>>) -> Seq<char>
    decreases outs.len(),
{
    if outs.len() == 0 {
        Seq::empty()
    } else {
        rebuilt_content(outs.drop_last()) + outs.last() + (if ends_with_fence(outs.last()) {
            seq!['\n', '\n']
        } else {
            Seq::<char>::empty()
        })
    }
}

/// How a finished node relates to the node it was rebuilt from: a chapter
/// keeps its name, numbering and child structure; its content becomes the
/// translated texts `outs[start ..]` of its own chunks, and its children
/// take the texts that follow; any other node is unchanged.
pub open spec fn node_rebuilt(
    old_n: BookNode,
    new_n: BookNode,
    max: nat,
    outs: Seq<Seq<char>>,
    start: int,
) -> bool
    decreases old_n,
{
    match old_n {
        BookNode::Chapter(c) => match new_n {
            BookNode::Chapter(d) => {
                let k = chunks_of(c.content@, max).len() as int;
                &&& d.name@ == c.name@
                &&& d.number == c.number
                &&& d.content@ == rebuilt_content(outs.subrange(start, start + k))
                &&& nodes_rebuilt(c.sub_items@, d.sub_items@, max, outs, start + k)
            },
            BookNode::Other => false,
        },
        BookNode::Other => new_n is Other,
    }
}

/// How a finished forest relates to the forest it was rebuilt from, the
/// translated texts being consumed left to right.
pub open spec fn nodes_rebuilt(
    old_ns: Seq<BookNode>,
    new_ns: Seq<BookNode>,
    max: nat,
    outs: Seq<Seq<char>>,
    start: int,
) -> bool
    decreases old_ns,
{
    if old_ns.len() == 0 {
        new_ns.len() == 0
    } else {
        &&& new_ns.len() == old_ns.len()
        &&& node_rebuilt(old_ns[0], new_ns[0], max, outs, start)
        &&& nodes_rebuilt(
            old_ns.drop_first(),
            new_ns.drop_first(),
            max,
            outs,
            start + node_chunk_texts(old_ns[0], max).len(),
        )
    }
}

/// Gathers the chunk texts of one node, in walk order, onto `out`.
fn collect_node(n: &BookNode, max_chars: usize, out: &mut Vec<String>)
    ensures
        final(out).deep_view() == old(out).deep_view() + node_chunk_texts(*n, max_chars as nat),
    decreases *n,
{
    match n {
        BookNode::Chapter(c) => {
            let mut chunks = split_into_chunks(c.content.as_str(), max_chars);
            let ghost cdv = chunks.deep_view();
            let ghost odv = out.deep_view();
            out.append(&mut chunks);
            proof {
                assert forall|j: int| 0 <= j < out.deep_view().len() implies out.deep_view()[j]
                    == (odv + cdv)[j] by {
                    assert(out.deep_view()[j] == out@[j].deep_view());
                }
                assert(out.deep_view() =~= odv + cdv);
            }
            collect_tree(&c.sub_items, max_chars, out);
            proof {
                assert(odv + cdv + tree_chunk_texts(c.sub_items@, max_chars as nat) =~= odv
                    + node_chunk_texts(*n, max_chars as nat));
            }
        },
        BookNode::Other => {
            proof {
                assert(out.deep_view() =~= out.deep_view() + node_chunk_texts(
                    *n,
                    max_chars as nat,
                ));
            }
        },
    }
}

/// Gathers the chunk texts of a forest of nodes, in walk order, onto
/// `out`.
fn collect_tree(nodes: &Vec<BookNode>, max_chars: usize, out: &mut Vec<String>)
    ensures
        final(out).deep_view() == old(out).deep_view() + tree_chunk_texts(
            nodes@,
            max_chars as nat,
        ),
    decreases nodes@,
{
    let ghost max = max_chars as nat;
    let mut i: usize = 0;
    proof {
        assert(nodes@.take(0) =~= Seq::<BookNode>::empty());
        assert(out.deep_view() =~= out.deep_view() + tree_chunk_texts(nodes@.take(0), max));
    }
    while i < nodes.len()
        invariant
            i <= nodes@.len(),
            max == max_chars as nat,
            out.deep_view() == old(out).deep_view() + tree_chunk_texts(nodes@.take(i as int), max),
        decreases nodes@.len() - i,
    {
        proof {
            assert(decreases_to!(nodes@ => nodes@[i as int]));
        }
        collect_node(&nodes[i], max_chars, out);
        i = i + 1;
        proof {
            lemma_tree_chunk_texts_take(nodes@, max, i as int);
        }
    }
    proof {
        assert(nodes@.take(nodes@.len() as int) =~= nodes@);
    }
}

proof fn lemma_tree_chunk_texts_take(nodes: Seq<BookNode>, max: nat, i: int)
    requires
        0 < i <= nodes.len(),
    ensures
        tree_chunk_texts(nodes.take(i), max) == tree_chunk_texts(nodes.take(i - 1), max)
            + node_chunk_texts(nodes[i - 1], max),
    decreases i,
{
    if i == 1 {
        assert(nodes.take(1)[0] == nodes[0]);
        assert(nodes.take(1).drop_first() =~= Seq::<BookNode>::empty());
        assert(tree_chunk_texts(Seq::<BookNode>::empty(), max) =~= Seq::<Seq<char>>::empty());
        assert(nodes.take(0) =~= Seq::<BookNode>::empty());
        assert(tree_chunk_texts(nodes.take(1), max) =~= tree_chunk_texts(nodes.take(0), max)
            + node_chunk_texts(nodes[0], max));
    } else {
        assert(nodes.take(i)[0] == nodes[0]);
        assert(nodes.take(i).drop_first() =~= nodes.drop_first().take(i - 1));
        assert(nodes.take(i - 1)[0] == nodes[0]);
        assert(nodes.take(i - 1).drop_first() =~= nodes.drop_first().take(i - 2));
        lemma_tree_chunk_texts_take(nodes.drop_first(), max, i - 1);
        assert(nodes.drop_first()[i - 2] == nodes[i - 1]);
        assert(tree_chunk_texts(nodes.take(i), max) =~= tree_chunk_texts(nodes.take(i - 1), max)
            + node_chunk_texts(nodes[i - 1], max));
    }
}

fn ends_with_fence_exec(t: &String) -> (r: bool)
    ensures
        r == ends_with_fence(t@),
{
    let n = t.as_str().unicode_len();
    n >= 3 && t.as_str().get_char(n - 3) == '`' && t.as_str().get_char(n - 2) == '`'
        && t.as_str().get_char(n - 1) == '`'
}

/// Rebuilds one node from the translated texts, consuming `outs` from
/// `start` on; yields the rebuilt node and how many texts it consumed.
fn rebuild_node(n: BookNode, outs: &Vec<String>, max_chars: usize, start: usize) -> (r: (
    BookNode,
    usize,
))
    requires
        start + node_chunk_texts(n, max_chars as nat).len() <= outs.deep_view().len(),
    ensures
        r.1 == node_chunk_texts(n, max_chars as nat).len(),
        node_rebuilt(n, r.0, max_chars as nat, outs.deep_view(), start as int),
    decreases n,
{
    let ghost max = max_chars as nat;
    let ghost ov = outs.deep_view();
    let ghost gn = n;
    let outs_len = outs.len();
    proof {
        assert(ov.len() == outs@.len());
    }
    match n {
        BookNode::Other => (BookNode::Other, 0),
        BookNode::Chapter(c) => {
            let chunks = split_into_chunks(c.content.as_str(), max_chars);
            let k = chunks.len();
            proof {
                assert(k == chunks_of(c.content@, max).len());
                assert(node_chunk_texts(gn, max).len() == chunks_of(c.content@, max).len()
                    + tree_chunk_texts(c.sub_items@, max).len());
            }
            let mut content = String::new();
            let mut j: usize = 0;
            proof {
                assert(ov.subrange(start as int, start as int) =~= Seq::<Seq<char>>::empty());
            }
            while j < k
                invariant
                    j <= k,
                    max == max_chars as nat,
                    ov == outs.deep_view(),
                    outs_len == outs@.len(),
                    ov.len() == outs@.len(),
                    start + k <= ov.len(),
                    content@ == rebuilt_content(ov.subrange(start as int, start as int + j)),
                decreases k - j,
            {
                let t = &outs[start + j];
                proof {
                    assert(t@ == ov[start as int + j]) by {
                        assert(outs.deep_view()[start + j] == outs@[start + j].deep_view());
                    }
                }
                content.append(t.as_str());
                if ends_with_fence_exec(t) {
                    content.append("\n\n");
                    proof {
                        reveal_strlit("\n\n");
                        assert("\n\n"@ =~= seq!['\n', '\n']);
                    }
                }
                j = j + 1;
                proof {
                    let sub = ov.subrange(start as int, start as int + j);
                    assert(sub.drop_last() =~= ov.subrange(start as int, start as int + j - 1));
                    assert(sub.last() == ov[start as int + j - 1]);
                    assert(content@ =~= rebuilt_content(sub));
                }
            }
            let (subs, used) = rebuild_tree(c.sub_items, outs, max_chars, start + k);
            let out_node = BookNode::Chapter(
                Chapter { name: c.name, number: c.number, content, sub_items: subs },
            );
            (out_node, k + used)
        },
    }
}

/// Rebuilds a forest of nodes from the translated texts, consuming
/// `outs` from `start` on; yields the rebuilt forest and how many texts
/// it consumed.
fn rebuild_tree(nodes: Vec<BookNode>, outs: &Vec<String>, max_chars: usize, start: usize) -> (r: (
    Vec<BookNode>,
    usize,
))
    requires
        start + tree_chunk_texts(nodes@, max_chars as nat).len() <= outs.deep_view().len(),
    ensures
        r.1 == tree_chunk_texts(nodes@, max_chars as nat).len(),
        nodes_rebuilt(nodes@, r.0@, max_chars as nat, outs.deep_view(), start as int),
    decreases nodes@,
{
    let ghost max = max_chars as nat;
    let ghost orig = nodes@;
    let outs_len = outs.len();
    proof {
        assert(outs.deep_view().len() == outs@.len());
    }
    if nodes.len() == 0 {
        (nodes, 0)
    } else {
        let mut rest = nodes;
        let first = rest.remove(0);
        proof {
            assert(first == orig[0]);
            assert(rest@ =~= orig.drop_first());
            assert(decreases_to!(orig => orig[0]));
            assert(tree_chunk_texts(orig, max).len() == node_chunk_texts(orig[0], max).len()
                + tree_chunk_texts(orig.drop_first(), max).len());
        }
        let (new_first, used1) = rebuild_node(first, outs, max_chars, start);
        proof {
            assert(decreases_to!(orig => orig.subrange(1, orig.len() as int)));
            assert(rest@ == orig.subrange(1, orig.len() as int));
        }
        let (mut new_rest, used2) = rebuild_tree(rest, outs, max_chars, start + used1);
        let ghost nrv = new_rest@;
        new_rest.insert(0, new_first);
        proof {
            assert(new_rest@[0] == new_first);
            assert(new_rest@.drop_first() =~= nrv);
        }
        (new_rest, used1 + used2)
    }
}

/// Rebuilds the whole forest from the translated texts of its chunks, in
/// walk order: every chapter's content becomes its translated chunks in
/// order, with a blank line after any chunk that ends in a closing fence;
/// names, numbering labels, tree structure and non-chapter nodes are
/// preserved exactly.
pub fn apply_translations(nodes: Vec<BookNode>, outs: &Vec<String>, max_chars: usize) -> (r: Vec<
    BookNode,
>)
    requires
        tree_chunk_texts(nodes@, max_chars as nat).len() <= outs.deep_view().len(),
    ensures
        nodes_rebuilt(nodes@, r@, max_chars as nat, outs.deep_view(), 0),
{
    let (r, _) = rebuild_tree(nodes, outs, max_chars, 0);
    r
}

/// Gathers every chunk of every chapter of the forest, in walk order:
/// each chapter's own chunks first, then its children's, depth first.
/// These are the texts a run translates, one by one.
pub fn collect_chunks(nodes: &Vec<BookNode>, max_chars: usize) -> (r: Vec<String>)
    ensures
        r.deep_view() == tree_chunk_texts(nodes@, max_chars as nat),
{
    let mut out: Vec<String> = Vec::new();
    proof {
        assert(out.deep_view() =~= Seq::<Seq<char>>::empty());
    }
    collect_tree(nodes, max_chars, &mut out);
    proof {
        assert(Seq::<Seq<char>>::empty() + tree_chunk_texts(nodes@, max_chars as nat)
            =~= tree_chunk_texts(nodes@, max_chars as nat));
    }
    out
}

} // verus!
