use vstd::prelude::*;
use crate::dom::{group_node_id, remove_value, Document, NodeId, NodeType};
use crate::text::{escaped_text, push_str};
use crate::extract::TextOptions;
use crate::serialize::{render, ChunkView};
use crate::laws::lemma_render_concat;

verus! {

/// Whether node `x` is a text node.
pub open spec fn is_text_node(d: Document, x: NodeId) -> bool {
    d.type_of(x) is Text
}

/// The text of `x` if it is a text node, nothing otherwise.
pub open spec fn text_or_empty(d: Document, x: NodeId) -> Seq<char> {
    match d.type_of(x) {
        NodeType::Text(t) => t@,
        _ => Seq::empty(),
    }
}

/// Whether `c[i]` is text that follows text: merged into the text before it.
pub open spec fn follows_text(d: Document, c: Seq<NodeId>, i: int) -> bool {
    0 < i < c.len() && is_text_node(d, c[i]) && is_text_node(d, c[i - 1])
}

/// `c` without the text nodes that follow text nodes, in order.
pub open spec fn merged_children(d: Document, c: Seq<NodeId>) -> Seq<NodeId>
    decreases c.len(),
{
    if c.len() == 0 {
        Seq::empty()
    } else if follows_text(d, c, c.len() - 1) {
        merged_children(d, c.drop_last())
    } else {
        merged_children(d, c.drop_last()).push(c.last())
    }
}

/// The texts of `c[a..b]`, one after the other.
pub open spec fn texts(d: Document, c: Seq<NodeId>, a: int, b: int) -> Seq<char>
    decreases b - a,
{
    if b <= a {
        Seq::empty()
    } else {
        texts(d, c, a, b - 1) + text_or_empty(d, c[b - 1])
    }
}

/// Where the run of text nodes of `c` that goes on after `i` ends.
pub open spec fn run_end(d: Document, c: Seq<NodeId>, i: int) -> int
    decreases c.len() - i,
{
    if i + 1 >= c.len() || !is_text_node(d, c[i + 1]) {
        i + 1
    } else {
        run_end(d, c, i + 1)
    }
}

proof fn lemma_run_end(d: Document, c: Seq<NodeId>, i: int)
    requires
        0 <= i < c.len(),
    ensures
        i < run_end(d, c, i) <= c.len(),
        forall|j: int| i < j < run_end(d, c, i) ==> #[trigger] follows_text(d, c, j) || !is_text_node(d, c[i]),
        forall|j: int| i < j < run_end(d, c, i) ==> #[trigger] is_text_node(d, c[j]),
        run_end(d, c, i) < c.len() ==> !is_text_node(d, c[run_end(d, c, i)]),
    decreases c.len() - i,
{
    if i + 1 < c.len() && is_text_node(d, c[i + 1]) {
        lemma_run_end(d, c, i + 1);
    }
}

proof fn lemma_remove_front(a: Seq<NodeId>, rest: Seq<NodeId>)
    requires
        rest.len() > 0,
        (a + rest).no_duplicates(),
    ensures
        remove_value(a + rest, rest[0]) == a + rest.drop_first(),
{
    let s = a + rest;
    assert(s[a.len() as int] == rest[0]);
    assert(s.contains(rest[0]));
    assert(s.index_of(rest[0]) == a.len()) by {
        Document::lemma_index_of_unique(s, a.len() as int);
    }
    assert(s.remove(a.len() as int) =~= a + rest.drop_first());
}

/// A run of text nodes from `i` that reaches `k`, where text stops, ends at `k`.
proof fn lemma_run_end_at(d: Document, c: Seq<NodeId>, i: int, k: int)
    requires
        0 <= i < k <= c.len(),
        forall|j: int| i <= j < k ==> #[trigger] is_text_node(d, c[j]),
        k == c.len() || !is_text_node(d, c[k]),
    ensures
        run_end(d, c, i) == k,
    decreases k - i,
{
    if i + 1 < k {
        assert(is_text_node(d, c[i + 1]));
        lemma_run_end_at(d, c, i + 1, k);
    }
}

impl Document {
    /// Merges each run of adjacent text children of `parent` into the first of them: its text
    /// becomes the texts of the run one after the other, and the others leave the tree.
    #[verifier::rlimit(80)]
    #[verifier::spinoff_prover]
    pub fn merge_adjacent_text_children(&mut self, parent: NodeId)
        requires
            old(self).wf(),
            old(self).valid(parent),
        ensures
            final(self).wf(),
            final(self).len() == old(self).len(),
            final(self).root == old(self).root,
            final(self).root_decomposed == old(self).root_decomposed,
            final(self).children(parent) == merged_children(*old(self), old(self).children(parent)),
            forall|i: int| 0 <= i < old(self).children(parent).len() && is_text_node(*old(self), old(self).children(parent)[i])
                && !follows_text(*old(self), old(self).children(parent), i)
                ==> (#[trigger] final(self).type_of(old(self).children(parent)[i]) matches NodeType::Text(t)
                    && t@ == texts(*old(self), old(self).children(parent), i, run_end(*old(self), old(self).children(parent), i))),
            forall|i: int| 0 <= i < old(self).children(parent).len() && #[trigger] follows_text(*old(self), old(self).children(parent), i)
                ==> final(self).parent_of(old(self).children(parent)[i]) is None
                    && final(self).type_of(old(self).children(parent)[i]) == old(self).type_of(old(self).children(parent)[i]),
            forall|i: int| 0 <= i < old(self).children(parent).len() && !is_text_node(*old(self), old(self).children(parent)[i])
                ==> #[trigger] final(self).type_of(old(self).children(parent)[i]) == old(self).type_of(old(self).children(parent)[i]),
            forall|x: NodeId| old(self).valid(x) && x != parent ==> #[trigger] final(self).children(x) == old(self).children(x),
            forall|x: NodeId| old(self).valid(x) && !old(self).children(parent).contains(x)
                ==> #[trigger] final(self).type_of(x) == old(self).type_of(x),
    {
        broadcast use group_node_id;
        let ghost orig = *self;
        let kids = self.child_nodes(parent);
        let ghost c = kids@;
        proof {
            orig.lemma_children(parent);
            assert(c.take(0) =~= Seq::<NodeId>::empty());
            assert(c.skip(0) =~= c);
            assert(merged_children(orig, Seq::<NodeId>::empty()) == Seq::<NodeId>::empty());
        }
        let mut head: usize = 0;
        let mut in_run = false;
        let mut acc = crate::text::string_from_chars(&Vec::new());
        let mut k: usize = 0;
        while k < kids.len()
            invariant
                orig.wf(),
                orig.valid(parent),
                c == orig.children(parent),
                c == kids@,
                c.no_duplicates(),
                forall|i: int| 0 <= i < c.len() ==> orig.valid(#[trigger] c[i]) && orig.parent_of(c[i]) == Some(parent),
                self.wf(),
                self.len() == orig.len(),
                self.root == orig.root,
                self.root_decomposed == orig.root_decomposed,
                k <= c.len(),
                self.children(parent) == merged_children(orig, c.take(k as int)) + c.skip(k as int),
                in_run ==> head < k && is_text_node(orig, c[head as int]) && !follows_text(orig, c, head as int)
                    && acc@ == texts(orig, c, head as int, k as int),
                in_run ==> forall|j: int| head <= j < k ==> #[trigger] is_text_node(orig, c[j]),
                in_run == (k > 0 && is_text_node(orig, c[k - 1])),
                forall|i: int| 0 <= i < k && is_text_node(orig, c[i]) && !follows_text(orig, c, i) && !(in_run && i == head)
                    ==> (#[trigger] self.type_of(c[i]) matches NodeType::Text(t) && t@ == texts(orig, c, i, run_end(orig, c, i))),
                forall|i: int| 0 <= i < k && #[trigger] follows_text(orig, c, i)
                    ==> self.parent_of(c[i]) is None && self.type_of(c[i]) == orig.type_of(c[i]),
                forall|i: int| k <= i < c.len() ==> #[trigger] self.parent_of(c[i]) == Some(parent),
                forall|i: int| k <= i < c.len() ==> #[trigger] self.type_of(c[i]) == orig.type_of(c[i]),
                in_run ==> self.type_of(c[head as int]) == orig.type_of(c[head as int]),
                forall|i: int| 0 <= i < c.len() && !is_text_node(orig, c[i]) ==> #[trigger] self.type_of(c[i]) == orig.type_of(c[i]),
                forall|x: NodeId| orig.valid(x) && x != parent ==> #[trigger] self.children(x) == orig.children(x),
                forall|x: NodeId| orig.valid(x) && !c.contains(x) ==> #[trigger] self.type_of(x) == orig.type_of(x),
            decreases c.len() - k,
        {
            let x = kids[k];
            let ghost before = *self;
            let ghost bchildren = self.children(parent);
            proof {
                assert(c.take(k + 1).drop_last() =~= c.take(k as int));
                assert(c.take(k + 1).last() == x);
                assert(follows_text(orig, c.take(k + 1), k as int) == follows_text(orig, c, k as int));
                if in_run {
                    assert(texts(orig, c, head as int, k + 1) == texts(orig, c, head as int, k as int) + text_or_empty(orig, c[k as int]));
                }
                assert(self.type_of(x) == orig.type_of(x));
            }
            let t = match &self.nodes[x.index()].node_type {
                NodeType::Text(s) => Some(s.clone()),
                _ => None,
            };
            match t {
                Some(s) => {
                    if in_run {
                        push_str(&mut acc, s.as_str());
                        proof {
                            self.lemma_children(parent);
                            assert(c.skip(k as int)[0] == x);
                            lemma_remove_front(merged_children(orig, c.take(k as int)), c.skip(k as int));
                            assert(c.skip(k as int).drop_first() =~= c.skip(k + 1));
                        }
                        self.detach(x);
                        proof {
                            assert forall|y: NodeId| orig.valid(y) && y != parent implies #[trigger] self.children(y) == orig.children(y) by {
                                before.lemma_children(y);
                                assert(!before.children(y).contains(x));
                            }
                            assert forall|i: int| k + 1 <= i < c.len() implies #[trigger] self.parent_of(c[i]) == Some(parent) by {
                                assert(c[i] != x);
                                assert(before.parent_of(c[i]) == Some(parent));
                            }
                            assert forall|i: int| k + 1 <= i < c.len() implies #[trigger] self.type_of(c[i]) == orig.type_of(c[i]) by {
                                assert(before.type_of(c[i]) == orig.type_of(c[i]));
                                assert(self.nodes@[c[i]@ as int].node_type == before.nodes@[c[i]@ as int].node_type);
                            }
                            assert forall|y: NodeId| orig.valid(y) && !c.contains(y) implies #[trigger] self.type_of(y) == orig.type_of(y) by {
                                assert(before.type_of(y) == orig.type_of(y));
                                assert(self.nodes@[y@ as int].node_type == before.nodes@[y@ as int].node_type);
                            }
                            assert forall|i: int| 0 <= i < k + 1 && #[trigger] follows_text(orig, c, i)
                                implies self.parent_of(c[i]) is None && self.type_of(c[i]) == orig.type_of(c[i]) by {
                                if i < k {
                                    assert(c[i] != x);
                                    assert(before.parent_of(c[i]) is None);
                                    assert(before.type_of(c[i]) == orig.type_of(c[i]));
                                } else {
                                    assert(before.type_of(c[i]) == orig.type_of(c[i]));
                                }
                                assert(self.nodes@[c[i]@ as int].node_type == before.nodes@[c[i]@ as int].node_type);
                            }
                            assert forall|i: int| 0 <= i < k + 1 && is_text_node(orig, c[i]) && !follows_text(orig, c, i) && !(in_run && i == head)
                                implies (#[trigger] self.type_of(c[i]) matches NodeType::Text(t) && t@ == texts(orig, c, i, run_end(orig, c, i))) by {
                                assert(self.nodes@[c[i]@ as int].node_type == before.nodes@[c[i]@ as int].node_type);
                                if i < k && !(in_run && i == head) {
                                    assert(before.type_of(c[i]) matches NodeType::Text(t) && t@ == texts(orig, c, i, run_end(orig, c, i)));
                                }
                            }
                            assert forall|i: int| 0 <= i < c.len() && !is_text_node(orig, c[i]) implies #[trigger] self.type_of(c[i]) == orig.type_of(c[i]) by {
                                assert(before.type_of(c[i]) == orig.type_of(c[i]));
                                assert(self.nodes@[c[i]@ as int].node_type == before.nodes@[c[i]@ as int].node_type);
                            }
                            assert(self.type_of(c[head as int]) == orig.type_of(c[head as int])) by {
                                assert(before.type_of(c[head as int]) == orig.type_of(c[head as int]));
                                assert(self.nodes@[c[head as int]@ as int].node_type == before.nodes@[c[head as int]@ as int].node_type);
                            }
                        }
                    } else {
                        head = k;
                        in_run = true;
                        acc = s;
                        proof {
                            assert(texts(orig, c, k as int, k as int) == Seq::<char>::empty());
                            assert(c.skip(k as int) =~= seq![x] + c.skip(k + 1));
                        }
                    }
                },
                None => {
                    if in_run {
                        let done = acc;
                        acc = crate::text::string_from_chars(&Vec::new());
                        let h = kids[head];
                        proof {
                            lemma_run_end_at(orig, c, head as int, k as int);
                        }
                        let _ = self.replace_node_type(h, NodeType::Text(done));
                        in_run = false;
                        proof {
                            broadcast use group_node_id;
                            assert forall|i: int| 0 <= i < k && is_text_node(orig, c[i]) && !follows_text(orig, c, i)
                                implies (#[trigger] self.type_of(c[i]) matches NodeType::Text(t) && t@ == texts(orig, c, i, run_end(orig, c, i))) by {
                                if i != head {
                                    assert(c[i] != h);
                                    assert(c[i]@ != h@);
                                }
                            }
                            assert forall|i: int| 0 <= i < k && #[trigger] follows_text(orig, c, i)
                                implies self.parent_of(c[i]) is None && self.type_of(c[i]) == orig.type_of(c[i]) by {
                                assert(c[i] != h);
                                assert(c[i]@ != h@);
                            }
                            assert forall|i: int| k <= i < c.len() implies #[trigger] self.parent_of(c[i]) == Some(parent) by {
                                assert(before.parent_of(c[i]) == Some(parent));
                            }
                            assert forall|i: int| 0 <= i < c.len() && !is_text_node(orig, c[i]) implies #[trigger] self.type_of(c[i]) == orig.type_of(c[i]) by {
                                assert(c[i] != h);
                                assert(c[i]@ != h@);
                                assert(self.type_of(c[i]) == before.type_of(c[i]));
                                assert(before.type_of(c[i]) == orig.type_of(c[i]));
                            }
                            assert forall|i: int| k <= i < c.len() implies #[trigger] self.type_of(c[i]) == orig.type_of(c[i]) by {
                                assert(c[i] != h);
                                assert(c[i]@ != h@);
                                assert(self.type_of(c[i]) == before.type_of(c[i]));
                                assert(before.type_of(c[i]) == orig.type_of(c[i]));
                            }
                            assert forall|y: NodeId| orig.valid(y) && !c.contains(y) implies #[trigger] self.type_of(y) == orig.type_of(y) by {
                                assert(y != h);
                                assert(y@ != h@);
                                assert(self.type_of(y) == before.type_of(y));
                                assert(before.type_of(y) == orig.type_of(y));
                            }
                        }
                    }
                    proof {
                        assert(c.skip(k as int) =~= seq![x] + c.skip(k + 1));
                    }
                },
            }
            proof {
                assert(merged_children(orig, c.take(k + 1)) + c.skip(k + 1) == self.children(parent)) by {
                    if !follows_text(orig, c, k as int) {
                        assert(merged_children(orig, c.take(k as int)) + c.skip(k as int)
                            =~= merged_children(orig, c.take(k as int)).push(x) + c.skip(k + 1));
                    }
                }
            }
            k += 1;
        }
        let ghost pre = *self;
        if in_run {
            let done = acc;
            let h = kids[head];
            proof {
                lemma_run_end_at(orig, c, head as int, k as int);
            }
            let _ = self.replace_node_type(h, NodeType::Text(done));
        }
        proof {
            broadcast use group_node_id;
            assert(c.take(c.len() as int) =~= c);
            assert(c.skip(c.len() as int) =~= Seq::<NodeId>::empty());
            assert(merged_children(orig, c) + Seq::<NodeId>::empty() =~= merged_children(orig, c));
            assert forall|i: int| 0 <= i < c.len() && is_text_node(orig, c[i]) && !follows_text(orig, c, i)
                implies (#[trigger] self.type_of(c[i]) matches NodeType::Text(t) && t@ == texts(orig, c, i, run_end(orig, c, i))) by {
                if !(in_run && i == head) {
                    if in_run {
                        assert(c[i] != c[head as int]);
                        assert(c[i]@ != c[head as int]@);
                    }
                    assert(self.type_of(c[i]) == pre.type_of(c[i]));
                }
            }
            assert forall|i: int| 0 <= i < c.len() && #[trigger] follows_text(orig, c, i)
                implies self.parent_of(c[i]) is None && self.type_of(c[i]) == orig.type_of(c[i]) by {
                if in_run {
                    assert(c[i] != c[head as int]);
                    assert(c[i]@ != c[head as int]@);
                }
            }
            assert forall|x: NodeId| orig.valid(x) && !c.contains(x) implies #[trigger] self.type_of(x) == orig.type_of(x) by {
                if in_run {
                    assert(x != c[head as int]);
                    assert(x@ != c[head as int]@);
                }
                assert(pre.type_of(x) == orig.type_of(x));
            }
            assert forall|i: int| 0 <= i < c.len() && !is_text_node(orig, c[i]) implies #[trigger] self.type_of(c[i]) == orig.type_of(c[i]) by {
                if in_run {
                    assert(c[i] != c[head as int]);
                    assert(c[i]@ != c[head as int]@);
                }
                assert(pre.type_of(c[i]) == orig.type_of(c[i]));
            }
        }
    }
}

/// No two neighbours in what merging keeps are both text.
pub proof fn lemma_merged_no_adjacent_text(d: Document, c: Seq<NodeId>)
    ensures
        forall|j: int| 0 < j < merged_children(d, c).len() ==>
            !(is_text_node(d, #[trigger] merged_children(d, c)[j]) && is_text_node(d, merged_children(d, c)[j - 1])),
        c.len() > 0 && !follows_text(d, c, c.len() - 1) ==> merged_children(d, c).last() == c.last(),
        merged_children(d, c).len() > 0 ==> merged_children(d, c).last() == c.last() || is_text_node(d, merged_children(d, c).last()),
        merged_children(d, c).len() == 0 ==> c.len() == 0,
    decreases c.len(),
{
    if c.len() > 0 {
        let p = c.drop_last();
        lemma_merged_no_adjacent_text(d, p);
        let mp = merged_children(d, p);
        let n = c.len() - 1;
        assert forall|i: int| 0 <= i < n implies #[trigger] follows_text(d, p, i) == follows_text(d, c, i) by {}
        if follows_text(d, c, n) {
            assert(merged_children(d, c) == mp);
            if mp.len() > 0 {
                assert(mp.last() == p.last() || is_text_node(d, mp.last()));
                assert(is_text_node(d, c[n - 1]));
            }
        } else {
            let m = mp.push(c.last());
            assert(merged_children(d, c) == m);
            assert forall|j: int| 0 < j < m.len() implies
                !(is_text_node(d, #[trigger] m[j]) && is_text_node(d, m[j - 1])) by {
                if j == m.len() - 1 && is_text_node(d, c.last()) && n > 0 {
                    assert(!is_text_node(d, c[n - 1]));
                    assert(mp.len() > 0);
                    assert(m[j - 1] == mp.last());
                    if !follows_text(d, p, n - 1) {
                        assert(mp.last() == p.last());
                    } else {
                        assert(is_text_node(d, p[n - 1]));
                    }
                } else if j < m.len() - 1 {
                    assert(m[j] == mp[j]);
                    assert(m[j - 1] == mp[j - 1]);
                }
            }
        }
    }
}

/// Whether no two neighbours in `c` are both text nodes of `d`.
pub open spec fn no_adjacent_text(d: Document, c: Seq<NodeId>) -> bool {
    forall|j: int| 0 < j < c.len() ==> !(is_text_node(d, #[trigger] c[j]) && is_text_node(d, c[j - 1]))
}

/// What merging made of `c[j]`, a child that merging keeps: a text node holds the texts of its
/// run one after the other; any other node is unchanged.
pub open spec fn smoothed_child(start: Document, cur: Document, c: Seq<NodeId>, j: int) -> bool {
    if is_text_node(start, c[j]) {
        cur.type_of(c[j]) matches NodeType::Text(t) && t@ == texts(start, c, j, run_end(start, c, j))
    } else {
        cur.type_of(c[j]) == start.type_of(c[j])
    }
}

/// The children of `x` in `cur` are those of `x` in `start` with each run of adjacent text
/// nodes merged into its first: the others left out, the first holding the run's texts.
pub open spec fn smoothed(start: Document, cur: Document, x: NodeId) -> bool {
    let c = start.children(x);
    &&& cur.children(x) == merged_children(start, c)
    &&& forall|j: int| 0 <= j < c.len() && !follows_text(start, c, j) ==> #[trigger] smoothed_child(start, cur, c, j)
}

proof fn lemma_merged_same(d1: Document, d2: Document, c: Seq<NodeId>)
    requires
        forall|j: int| 0 <= j < c.len() ==> #[trigger] d1.type_of(c[j]) == d2.type_of(c[j]),
    ensures
        merged_children(d1, c) == merged_children(d2, c),
        forall|i: int| #[trigger] follows_text(d1, c, i) == follows_text(d2, c, i),
    decreases c.len(),
{
    assert forall|i: int| #[trigger] follows_text(d1, c, i) == follows_text(d2, c, i) by {
        if 0 < i < c.len() {
            assert(d1.type_of(c[i]) == d2.type_of(c[i]));
            assert(d1.type_of(c[i - 1]) == d2.type_of(c[i - 1]));
        }
    }
    if c.len() > 0 {
        let p = c.drop_last();
        assert forall|j: int| 0 <= j < p.len() implies #[trigger] d1.type_of(p[j]) == d2.type_of(p[j]) by {
            assert(p[j] == c[j]);
        }
        lemma_merged_same(d1, d2, p);
        assert(follows_text(d1, c, c.len() - 1) == follows_text(d2, c, c.len() - 1));
    }
}

proof fn lemma_run_end_same(d1: Document, d2: Document, c: Seq<NodeId>, i: int)
    requires
        0 <= i,
        forall|j: int| 0 <= j < c.len() ==> #[trigger] d1.type_of(c[j]) == d2.type_of(c[j]),
    ensures
        run_end(d1, c, i) == run_end(d2, c, i),
    decreases c.len() - i,
{
    if i + 1 < c.len() {
        assert(d1.type_of(c[i + 1]) == d2.type_of(c[i + 1]));
        lemma_run_end_same(d1, d2, c, i + 1);
    }
}

proof fn lemma_texts_same(d1: Document, d2: Document, c: Seq<NodeId>, a: int, b: int)
    requires
        0 <= a,
        b <= c.len(),
        forall|j: int| 0 <= j < c.len() ==> #[trigger] d1.type_of(c[j]) == d2.type_of(c[j]),
    ensures
        texts(d1, c, a, b) == texts(d2, c, a, b),
    decreases b - a,
{
    if b > a {
        assert(d1.type_of(c[b - 1]) == d2.type_of(c[b - 1]));
        lemma_texts_same(d1, d2, c, a, b - 1);
    }
}

/// A child that merging keeps is among what merging gives.
proof fn lemma_kept_in_merged(d: Document, c: Seq<NodeId>, i: int)
    requires
        0 <= i < c.len(),
        !follows_text(d, c, i),
    ensures
        merged_children(d, c).contains(c[i]),
    decreases c.len(),
{
    let p = c.drop_last();
    let n = c.len() - 1;
    if i == n {
        assert(merged_children(d, c) == merged_children(d, p).push(c.last()));
        assert(merged_children(d, c)[merged_children(d, c).len() - 1] == c[i]);
    } else {
        assert(follows_text(d, p, i) == follows_text(d, c, i));
        lemma_kept_in_merged(d, p, i);
        assert(p[i] == c[i]);
        let k = choose|k: int| 0 <= k < merged_children(d, p).len() && merged_children(d, p)[k] == c[i];
        if follows_text(d, c, n) {
            assert(merged_children(d, c) == merged_children(d, p));
        } else {
            assert(merged_children(d, c) == merged_children(d, p).push(c.last()));
            assert(merged_children(d, c)[k] == c[i]);
        }
    }
}

/// Merging measured against an earlier state `start` in which the children of `x` and their
/// kinds were the same as just before the merge.
proof fn lemma_smoothed_from_start(start: Document, pre: Document, post: Document, x: NodeId)
    requires
        pre.children(x) == start.children(x),
        forall|j: int| 0 <= j < start.children(x).len() ==> #[trigger] pre.type_of(start.children(x)[j]) == start.type_of(start.children(x)[j]),
        smoothed(pre, post, x),
    ensures
        smoothed(start, post, x),
{
    let c = start.children(x);
    assert forall|j: int| 0 <= j < c.len() implies #[trigger] start.type_of(c[j]) == pre.type_of(c[j]) by {}
    lemma_merged_same(start, pre, c);
    assert forall|j: int| 0 <= j < c.len() && !follows_text(start, c, j) implies #[trigger] smoothed_child(start, post, c, j) by {
        assert(!follows_text(pre, c, j));
        assert(smoothed_child(pre, post, c, j));
        lemma_run_end_same(start, pre, c, j);
        lemma_run_end(start, c, j);
        lemma_texts_same(start, pre, c, j, run_end(start, c, j));
        assert(start.type_of(c[j]) == pre.type_of(c[j]));
    }
}

/// What merging the children of `id` leaves of another node `x` that was already smoothed:
/// its children are the same nodes, none of them a child of `id`, so none changed its kind.
proof fn lemma_smoothed_kept(start: Document, pre: Document, post: Document, id: NodeId, x: NodeId)
    requires
        pre.wf(),
        pre.valid(id),
        pre.valid(x),
        x != id,
        smoothed(start, pre, x),
        post.children(x) == pre.children(x),
        forall|y: NodeId| pre.valid(y) && !pre.children(id).contains(y) ==> #[trigger] post.type_of(y) == pre.type_of(y),
    ensures
        smoothed(start, post, x),
{
    let c = start.children(x);
    pre.lemma_children(x);
    pre.lemma_children(id);
    assert forall|j: int| 0 <= j < c.len() && !follows_text(start, c, j) implies #[trigger] smoothed_child(start, post, c, j) by {
        assert(smoothed_child(start, pre, c, j));
        lemma_kept_in_merged(start, c, j);
        assert(pre.children(x).contains(c[j]));
        let k = choose|k: int| 0 <= k < pre.children(x).len() && pre.children(x)[k] == c[j];
        assert(pre.valid(c[j]) && pre.parent_of(c[j]) == Some(x));
        assert(!pre.children(id).contains(c[j]));
        assert(post.type_of(c[j]) == pre.type_of(c[j]));
    }
}

impl Document {
    /// Merging the adjacent text children of `parent`, with what the walk over a subtree
    /// needs of it: `parent`'s children are then smooth, no other node's children change nor
    /// do their kinds, and no node gains a parent.
    fn merge_children_smooth(&mut self, parent: NodeId)
        requires
            old(self).wf(),
            old(self).valid(parent),
        ensures
            final(self).wf(),
            final(self).len() == old(self).len(),
            final(self).root == old(self).root,
            final(self).root_decomposed == old(self).root_decomposed,
            no_adjacent_text(*final(self), final(self).children(parent)),
            forall|x: NodeId| old(self).valid(x) && x != parent ==> #[trigger] final(self).children(x) == old(self).children(x),
            forall|x: NodeId| old(self).valid(x) && !old(self).children(parent).contains(x)
                ==> #[trigger] final(self).type_of(x) == old(self).type_of(x),
            forall|y: NodeId| old(self).valid(y) && (#[trigger] final(self).parent_of(y)) is Some ==> old(self).parent_of(y) is Some,
            smoothed(*old(self), *final(self), parent),
    {
        let ghost pre = *self;
        self.merge_adjacent_text_children(parent);
        proof {
            let c = pre.children(parent);
            assert forall|j: int| 0 <= j < c.len() && !follows_text(pre, c, j) implies #[trigger] smoothed_child(pre, *self, c, j) by {
                if is_text_node(pre, c[j]) {
                    assert(self.type_of(c[j]) matches NodeType::Text(t) && t@ == texts(pre, c, j, run_end(pre, c, j)));
                } else {
                    assert(self.type_of(c[j]) == pre.type_of(c[j]));
                }
            }
        }
        proof {
            let c = pre.children(parent);
            let m = merged_children(pre, c);
            lemma_merged_no_adjacent_text(pre, c);
            pre.lemma_children(parent);
            assert forall|j: int| 0 <= j < m.len() implies
                (#[trigger] is_text_node(*self, m[j])) == is_text_node(pre, m[j]) by {
                let idx = lemma_merged_index(pre, c, j);
                if is_text_node(pre, c[idx]) {
                    assert(!follows_text(pre, c, idx));
                } else {
                    assert(self.type_of(c[idx]) == pre.type_of(c[idx]));
                }
            }
            assert forall|j: int| 0 < j < self.children(parent).len() implies
                !(is_text_node(*self, #[trigger] self.children(parent)[j]) && is_text_node(*self, self.children(parent)[j - 1])) by {
                assert(is_text_node(*self, m[j]) == is_text_node(pre, m[j]));
                assert(is_text_node(*self, m[j - 1]) == is_text_node(pre, m[j - 1]));
            }
            assert forall|y: NodeId| pre.valid(y) && (#[trigger] self.parent_of(y)) is Some implies pre.parent_of(y) is Some by {
                let q = self.parent_of(y).unwrap();
                self.lemma_wf_parent(y);
                self.lemma_children(q);
                assert(self.children(q).contains(y));
                if q == parent {
                    let j = choose|j: int| 0 <= j < m.len() && m[j] == y;
                    let idx = lemma_merged_index(pre, c, j);
                    assert(c[idx] == y);
                    assert(c.contains(y));
                } else {
                    assert(pre.children(q).contains(y));
                    pre.lemma_children(q);
                }
            }
        }
    }

    /// Merges the adjacent text children of `root` and of each node below it still in the
    /// tree, walking the subtree from its last node back to `root`: of `root` and of each node
    /// of its subtree still in the tree, each run of adjacent text children is merged into its
    /// first, which holds the run's texts in order, and the others leave the tree; no two
    /// neighbouring children are then both text.
    #[verifier::rlimit(60)]
    pub fn smooth_text_nodes(&mut self, root: NodeId)
        requires
            old(self).wf(),
            old(self).valid(root),
        ensures
            final(self).wf(),
            final(self).len() == old(self).len(),
            final(self).root == old(self).root,
            final(self).root_decomposed == old(self).root_decomposed,
            no_adjacent_text(*final(self), final(self).children(root)),
            smoothed(*old(self), *final(self), root),
            final(self).type_of(root) == old(self).type_of(root),
            !(old(self).type_of(root) is Text) ==> forall|encoding: Seq<char>, escape: bool|
                #[trigger] render(final(self).node_chunks(root, encoding), escape) == render(old(self).node_chunks(root, encoding), escape),
            !(old(self).type_of(root) is Text) && text_leaves(*old(self), root) ==> forall|r: NodeId, o: TextOptions|
                #[trigger] text_of(*final(self), r, root, o) == text_of(*old(self), r, root, o),
            forall|k: int| 0 <= k < old(self).subtree_nodes(root).len() && (#[trigger] final(self).parent_of(old(self).subtree_nodes(root)[k])) is Some
                ==> no_adjacent_text(*final(self), final(self).children(old(self).subtree_nodes(root)[k]))
                    && smoothed(*old(self), *final(self), old(self).subtree_nodes(root)[k]),
    {
        let ghost start = *self;
        let nodes = self.descendant_nodes(root, true);
        proof {
            start.lemma_subtree_valid(root);
            start.lemma_subtree_distinct(root);
            start.lemma_subtree_unfold(root);
            assert(nodes@.len() >= 1);
        }
        let mut i = nodes.len();
        while i > 1
            invariant
                1 <= i <= nodes@.len(),
                nodes@ == start.subtree_nodes(root),
                nodes@.no_duplicates(),
                nodes@[0] == root,
                forall|k: int| 0 <= k < nodes@.len() ==> start.valid(#[trigger] nodes@[k]),
                start.wf(),
                self.wf(),
                self.len() == start.len(),
                self.root == start.root,
                self.root_decomposed == start.root_decomposed,
                start.valid(root),
                forall|k: int| 0 <= k < i ==> #[trigger] self.children(nodes@[k]) == start.children(nodes@[k]),
                self.type_of(root) == start.type_of(root),
                forall|k: int, j: int| 0 <= k < i && 0 <= j < start.children(nodes@[k]).len()
                    ==> #[trigger] self.type_of(start.children(nodes@[k])[j]) == start.type_of(start.children(nodes@[k])[j]),
                forall|k: int| i <= k < nodes@.len() && (#[trigger] self.parent_of(nodes@[k])) is Some
                    ==> no_adjacent_text(*self, self.children(nodes@[k])) && smoothed(start, *self, nodes@[k]),
            decreases i,
        {
            i -= 1;
            let id = nodes[i];
            if self.nodes[id.index()].parent.is_some() {
                let ghost pre = *self;
                proof {
                    assert(pre.children(id) == start.children(id)) by {
                        assert(pre.children(nodes@[i as int]) == start.children(nodes@[i as int]));
                    }
                    start.lemma_children(id);
                    if start.children(id).contains(root) {
                        start.lemma_order_positions(root, i as int);
                        start.lemma_parent_not_below(id, root);
                    }
                }
                self.merge_children_smooth(id);
                proof {
                    assert(pre.children(id) == start.children(id));
                    assert forall|j: int| 0 <= j < start.children(id).len() implies #[trigger] pre.type_of(start.children(id)[j]) == start.type_of(start.children(id)[j]) by {
                        assert(pre.type_of(start.children(nodes@[i as int])[j]) == start.type_of(start.children(nodes@[i as int])[j]));
                    }
                    lemma_smoothed_from_start(start, pre, *self, id);
                    assert forall|k: int| i <= k < nodes@.len() && (#[trigger] self.parent_of(nodes@[k])) is Some
                        implies no_adjacent_text(*self, self.children(nodes@[k])) && smoothed(start, *self, nodes@[k]) by {
                        let x = nodes@[k];
                        if x != id {
                            assert(pre.parent_of(x) is Some);
                            lemma_smooth_kept(pre, *self, id, x);
                            lemma_smoothed_kept(start, pre, *self, id, x);
                        }
                    }
                    assert forall|k: int| 0 <= k < i implies #[trigger] self.children(nodes@[k]) == start.children(nodes@[k]) by {
                        assert(nodes@[k] != nodes@[i as int]);
                    }
                    assert forall|k: int, j: int| 0 <= k < i && 0 <= j < start.children(nodes@[k]).len()
                        implies #[trigger] self.type_of(start.children(nodes@[k])[j]) == start.type_of(start.children(nodes@[k])[j]) by {
                        let x = nodes@[k];
                        let z = start.children(x)[j];
                        assert(nodes@[k] != nodes@[i as int]);
                        start.lemma_children(x);
                        start.lemma_children(id);
                        assert(start.parent_of(z) == Some(x));
                        assert(!pre.children(id).contains(z));
                        assert(pre.type_of(z) == start.type_of(z));
                    }
                }
            }
        }
        let ghost pre = *self;
        proof {
            assert(pre.children(root) == start.children(root)) by {
                assert(pre.children(nodes@[0]) == start.children(nodes@[0]));
            }
            start.lemma_children(root);
        }
        self.merge_children_smooth(root);
        proof {
            assert(pre.children(root) == start.children(root)) by {
                assert(pre.children(nodes@[0]) == start.children(nodes@[0]));
            }
            assert forall|j: int| 0 <= j < start.children(root).len() implies #[trigger] pre.type_of(start.children(root)[j]) == start.type_of(start.children(root)[j]) by {
                assert(pre.type_of(start.children(nodes@[0])[j]) == start.type_of(start.children(nodes@[0])[j]));
            }
            lemma_smoothed_from_start(start, pre, *self, root);
            assert forall|k: int| 0 <= k < start.subtree_nodes(root).len() && (#[trigger] self.parent_of(start.subtree_nodes(root)[k])) is Some
                implies no_adjacent_text(*self, self.children(start.subtree_nodes(root)[k])) && smoothed(start, *self, start.subtree_nodes(root)[k]) by {
                let x = nodes@[k];
                if x != root {
                    assert(k != 0);
                    assert(pre.parent_of(x) is Some);
                    lemma_smooth_kept(pre, *self, root, x);
                    lemma_smoothed_kept(start, pre, *self, root, x);
                }
            }
            lemma_smoothed_below_from(start, *self, root);
            if !(start.type_of(root) is Text) {
                assert forall|encoding: Seq<char>, escape: bool| #[trigger] render(self.node_chunks(root, encoding), escape)
                    == render(start.node_chunks(root, encoding), escape) by {
                    lemma_smooth_node(start, *self, root, encoding, escape);
                }
                if text_leaves(start, root) {
                    assert forall|r: NodeId, o: TextOptions| #[trigger] text_of(*self, r, root, o) == text_of(start, r, root, o) by {
                        lemma_smooth_text_node(start, *self, r, root, o);
                    }
                }
            }
        }
    }
}

/// Where `root` and each node of its subtree still in the tree are smoothed, so is every node
/// below `root` by `smoothed_below`.
pub proof fn lemma_smoothed_below_from(start: Document, fin: Document, root: NodeId)
    requires
        start.wf(),
        start.valid(root),
        smoothed(start, fin, root),
        forall|k: int| 0 <= k < start.subtree_nodes(root).len() && (#[trigger] fin.parent_of(start.subtree_nodes(root)[k])) is Some
            ==> smoothed(start, fin, start.subtree_nodes(root)[k]),
    ensures
        smoothed_below(start, fin, root),
{
    assert forall|y: NodeId| start.valid(y) && start.in_subtree(y, root) && (y == root || fin.parent_of(y) is Some)
        implies #[trigger] smoothed(start, fin, y) by {
        if y != root {
            start.lemma_placed(root, y);
            let k = start.order_pos(root, y);
            assert(fin.parent_of(start.subtree_nodes(root)[k]) is Some);
        }
    }
}

/// The children of a node other than the one merged stay smooth: they are the same nodes,
/// and none of them was a child of the merged node, so none changed its kind.
proof fn lemma_smooth_kept(pre: Document, post: Document, parent: NodeId, x: NodeId)
    requires
        pre.wf(),
        pre.valid(parent),
        pre.valid(x),
        x != parent,
        no_adjacent_text(pre, pre.children(x)),
        post.children(x) == pre.children(x),
        forall|y: NodeId| pre.valid(y) && !pre.children(parent).contains(y)
            ==> #[trigger] post.type_of(y) == pre.type_of(y),
    ensures
        no_adjacent_text(post, post.children(x)),
{
    let c = pre.children(x);
    pre.lemma_children(x);
    pre.lemma_children(parent);
    assert forall|j: int| 0 <= j < c.len() implies #[trigger] is_text_node(post, c[j]) == is_text_node(pre, c[j]) by {
        assert(pre.parent_of(c[j]) == Some(x));
        assert(!pre.children(parent).contains(c[j]));
        assert(post.type_of(c[j]) == pre.type_of(c[j]));
    }
    assert forall|j: int| 0 < j < c.len() implies !(is_text_node(post, #[trigger] c[j]) && is_text_node(post, c[j - 1])) by {
        assert(is_text_node(post, c[j - 1]) == is_text_node(pre, c[j - 1]));
    }
}

/// Each node that merging keeps is one of the sequence, kept because it follows no text.
proof fn lemma_merged_index(d: Document, c: Seq<NodeId>, j: int) -> (idx: int)
    requires
        0 <= j < merged_children(d, c).len(),
    ensures
        0 <= idx < c.len(),
        c[idx] == merged_children(d, c)[j],
        !follows_text(d, c, idx),
    decreases c.len(),
{
    let p = c.drop_last();
    let mp = merged_children(d, p);
    let n = c.len() - 1;
    assert forall|i: int| 0 <= i < n implies #[trigger] follows_text(d, p, i) == follows_text(d, c, i) by {}
    if follows_text(d, c, n) {
        let k = lemma_merged_index(d, p, j);
        k
    } else if j < mp.len() {
        let k = lemma_merged_index(d, p, j);
        k
    } else {
        n
    }
}


/// How the text `t` of a text node is written: as it is inside a raw text element, else as
/// text (escaped when `escape` is set).
pub open spec fn text_piece(t: Seq<char>, raw: bool, escape: bool) -> Seq<char> {
    if raw || !escape { t } else { escaped_text(t) }
}

proof fn lemma_escaped_concat(a: Seq<char>, b: Seq<char>)
    ensures
        escaped_text(a + b) == escaped_text(a) + escaped_text(b),
    decreases b.len(),
{
    if b.len() > 0 {
        lemma_escaped_concat(a, b.drop_last());
        assert((a + b).drop_last() =~= a + b.drop_last());
        assert((a + b).last() == b.last());
    } else {
        assert(a + b =~= a);
    }
}

proof fn lemma_text_piece_concat(a: Seq<char>, b: Seq<char>, raw: bool, escape: bool)
    ensures
        text_piece(a + b, raw, escape) == text_piece(a, raw, escape) + text_piece(b, raw, escape),
{
    lemma_escaped_concat(a, b);
}

/// The texts of a run, read from its front.
proof fn lemma_texts_front(d: Document, c: Seq<NodeId>, a: int, b: int)
    requires
        a < b,
    ensures
        texts(d, c, a, b) == text_or_empty(d, c[a]) + texts(d, c, a + 1, b),
    decreases b - a,
{
    if b - 1 > a {
        lemma_texts_front(d, c, a, b - 1);
        assert(texts(d, c, a, b) =~= text_or_empty(d, c[a]) + texts(d, c, a + 1, b));
    } else {
        assert(texts(d, c, a + 1, b) == Seq::<char>::empty());
        assert(texts(d, c, a, a) == Seq::<char>::empty());
        assert(texts(d, c, a, b) =~= text_or_empty(d, c[a]) + texts(d, c, a + 1, b));
    }
}

/// Merging a prefix one child further.
proof fn lemma_merged_take_step(d: Document, c: Seq<NodeId>, i: int)
    requires
        0 <= i < c.len(),
    ensures
        merged_children(d, c.take(i + 1)) == (if follows_text(d, c, i) {
            merged_children(d, c.take(i))
        } else {
            merged_children(d, c.take(i)).push(c[i])
        }),
{
    let t = c.take(i + 1);
    assert(t.drop_last() =~= c.take(i));
    assert(t.last() == c[i]);
    assert(follows_text(d, t, i) == follows_text(d, c, i));
}

/// What merging keeps of a prefix is a prefix of what it keeps of the whole.
proof fn lemma_merged_prefix(d: Document, c: Seq<NodeId>, j: int, k: int)
    requires
        0 <= j <= k <= c.len(),
    ensures
        merged_children(d, c.take(j)).len() <= merged_children(d, c.take(k)).len(),
        merged_children(d, c.take(k)).take(merged_children(d, c.take(j)).len() as int) == merged_children(d, c.take(j)),
    decreases k - j,
{
    let a = merged_children(d, c.take(j));
    if j < k {
        lemma_merged_prefix(d, c, j, k - 1);
        lemma_merged_take_step(d, c, k - 1);
        let b = merged_children(d, c.take(k - 1));
        assert(b.push(c[k - 1]).take(a.len() as int) =~= b.take(a.len() as int));
    } else {
        assert(a.take(a.len() as int) =~= a);
    }
}

/// Inside a run of text, the children that follow text add nothing to what merging keeps.
proof fn lemma_merged_run(d: Document, c: Seq<NodeId>, a: int, b: int)
    requires
        0 <= a <= b <= c.len(),
        forall|k: int| a <= k < b ==> #[trigger] follows_text(d, c, k),
    ensures
        merged_children(d, c.take(b)) == merged_children(d, c.take(a)),
    decreases b - a,
{
    if a < b {
        lemma_merged_run(d, c, a, b - 1);
        lemma_merged_take_step(d, c, b - 1);
    }
}

/// The run of text from `k` on to its end `e` writes out as its texts, one after the other.
proof fn lemma_run_renders(d: Document, x: NodeId, k: int, e: int, encoding: Seq<char>, escape: bool, nl: bool)
    requires
        d.wf(),
        d.valid(x),
        0 <= k <= e <= d.children(x).len(),
        forall|j: int| k <= j < e ==> #[trigger] is_text_node(d, d.children(x)[j]),
    ensures
        render(d.forest_chunks(d.children(x), k, d.depth@[x@ as int] as int, encoding, nl), escape)
            == text_piece(texts(d, d.children(x), k, e), d.is_raw_text_at(x), escape)
                + render(d.forest_chunks(d.children(x), e, d.depth@[x@ as int] as int, encoding, nl), escape),
    decreases e - k,
{
    let c = d.children(x);
    let dd = d.depth@[x@ as int] as int;
    let raw = d.is_raw_text_at(x);
    if k == e {
        assert(texts(d, c, k, e) == Seq::<char>::empty());
        assert(escaped_text(Seq::<char>::empty()) == Seq::<char>::empty());
        assert(Seq::<char>::empty() + render(d.forest_chunks(c, e, dd, encoding, nl), escape)
            =~= render(d.forest_chunks(c, e, dd, encoding, nl), escape));
    } else {
        d.lemma_wf_child(x, k);
        let y = c[k];
        assert(is_text_node(d, y));
        lemma_run_renders(d, x, k + 1, e, encoding, escape, nl);
        lemma_texts_front(d, c, k, e);
        let t = text_or_empty(d, y);
        lemma_text_piece_concat(t, texts(d, c, k + 1, e), raw, escape);
        let node = d.node_chunks(y, encoding);
        let rest = d.forest_chunks(c, k + 1, dd, encoding, nl);
        assert(d.forest_chunks(c, k, dd, encoding, nl) == node + Seq::<ChunkView>::empty() + rest);
        assert(node + Seq::<ChunkView>::empty() =~= node);
        lemma_render_concat(node, rest, escape);
        if raw {
            assert(node == seq![ChunkView::Markup(t)]);
        } else {
            assert(node == seq![ChunkView::Text(t)]);
        }
        assert(render(node, escape) == text_piece(t, raw, escape)) by {
            assert(node.drop_last() =~= Seq::<ChunkView>::empty());
            assert(render(node.drop_last(), escape) == Seq::<char>::empty());
            assert(Seq::<char>::empty() + text_piece(t, raw, escape) =~= text_piece(t, raw, escape));
        }
        assert(text_piece(t, raw, escape) + text_piece(texts(d, c, k + 1, e), raw, escape)
            + render(d.forest_chunks(c, e, dd, encoding, nl), escape)
            =~= text_piece(t, raw, escape) + (text_piece(texts(d, c, k + 1, e), raw, escape)
            + render(d.forest_chunks(c, e, dd, encoding, nl), escape)));
    }
}


/// Every node below `x` (and `x` itself) that is still in the tree has smooth children:
/// smoothing left them as `smoothed` says.
pub open spec fn smoothed_below(start: Document, cur: Document, x: NodeId) -> bool {
    forall|y: NodeId| start.valid(y) && start.in_subtree(y, x) && (y == x || cur.parent_of(y) is Some)
        ==> #[trigger] smoothed(start, cur, y)
}

proof fn lemma_smooth_forest(start: Document, fin: Document, x: NodeId, i: int, encoding: Seq<char>, escape: bool, nl: bool)
    requires
        start.wf(),
        fin.wf(),
        start.valid(x),
        fin.len() == start.len(),
        !is_text_node(start, x),
        fin.type_of(x) == start.type_of(x),
        smoothed_below(start, fin, x),
        0 <= i <= start.children(x).len(),
        i == start.children(x).len() || !follows_text(start, start.children(x), i),
    ensures
        render(fin.forest_chunks(fin.children(x), merged_children(start, start.children(x).take(i)).len() as int, fin.depth@[x@ as int] as int, encoding, nl), escape)
            == render(start.forest_chunks(start.children(x), i, start.depth@[x@ as int] as int, encoding, nl), escape),
    decreases start.bound@ - start.depth@[x@ as int], 0int, start.children(x).len() - i,
{
    let c = start.children(x);
    let ds = start.depth@[x@ as int] as int;
    let df = fin.depth@[x@ as int] as int;
    start.lemma_in_subtree_refl(x);
    assert(smoothed(start, fin, x));
    let m = fin.children(x);
    assert(m == merged_children(start, c));
    let j = merged_children(start, c.take(i)).len() as int;
    assert(c.take(c.len() as int) =~= c);
    if i == c.len() {
        assert(j == m.len());
    } else {
        lemma_merged_take_step(start, c, i);
        lemma_merged_prefix(start, c, i + 1, c.len() as int);
        assert(m.take(j + 1) == merged_children(start, c.take(i)).push(c[i]));
        assert(m.take(j + 1)[j] == m[j]);
        start.lemma_wf_child(x, i);
        fin.lemma_wf_child(x, j);
        start.lemma_wf_basic();
        let y = c[i];
        assert(m[j] == y);
        assert(smoothed_child(start, fin, c, i));
        let fnode = fin.node_chunks(y, encoding);
        let frest = fin.forest_chunks(m, j + 1, df, encoding, nl);
        let snode = start.node_chunks(y, encoding);
        let srest = start.forest_chunks(c, i + 1, ds, encoding, nl);
        if is_text_node(start, y) {
            let e = run_end(start, c, i);
            lemma_run_end(start, c, i);
            assert forall|k: int| i + 1 <= k < e implies #[trigger] follows_text(start, c, k) by {
                assert(is_text_node(start, c[k]));
            }
            lemma_merged_run(start, c, i + 1, e);
            assert forall|k: int| i <= k < e implies #[trigger] is_text_node(start, c[k]) by {
                if k > i {
                    assert(follows_text(start, c, k));
                }
            }
            lemma_run_renders(start, x, i, e, encoding, escape, nl);
            if e < c.len() {
                assert(!follows_text(start, c, e));
            }
            lemma_smooth_forest(start, fin, x, e, encoding, escape, nl);
            let t = texts(start, c, i, e);
            let raw = start.is_raw_text_at(x);
            assert(fin.is_raw_text_at(x) == raw);
            assert(fin.forest_chunks(m, j, df, encoding, nl) == fnode + Seq::<ChunkView>::empty() + frest);
            assert(fnode + Seq::<ChunkView>::empty() =~= fnode);
            lemma_render_concat(fnode, frest, escape);
            assert(render(fnode, escape) == text_piece(t, raw, escape)) by {
                assert(fnode.drop_last() =~= Seq::<ChunkView>::empty());
                assert(render(fnode.drop_last(), escape) == Seq::<char>::empty());
                assert(Seq::<char>::empty() + text_piece(t, raw, escape) =~= text_piece(t, raw, escape));
            }
        } else {
            assert(fin.type_of(y) == start.type_of(y));
            start.lemma_children(x);
            assert(y != x);
            start.lemma_in_subtree_step(y, x);
            assert(start.in_subtree(y, x));
            fin.lemma_children(x);
            assert(fin.parent_of(y) == Some(x));
            assert forall|z: NodeId| start.valid(z) && start.in_subtree(z, y) && (z == y || fin.parent_of(z) is Some)
                implies #[trigger] smoothed(start, fin, z) by {
                start.lemma_in_subtree_trans(z, y, x);
            }
            lemma_smooth_node(start, fin, y, encoding, escape);
            let nlp = if nl && start.type_of(y) is Doctype { seq![ChunkView::Markup("\n"@)] } else { Seq::<ChunkView>::empty() };
            assert(fin.forest_chunks(m, j, df, encoding, nl) == fnode + nlp + frest);
            assert(start.forest_chunks(c, i, ds, encoding, nl) == snode + nlp + srest);
            lemma_render_concat(fnode, nlp, escape);
            lemma_render_concat(fnode + nlp, frest, escape);
            lemma_render_concat(snode, nlp, escape);
            lemma_render_concat(snode + nlp, srest, escape);
            lemma_smooth_forest(start, fin, x, i + 1, encoding, escape, nl);
        }
    }
}

pub(crate) proof fn lemma_smooth_node(start: Document, fin: Document, x: NodeId, encoding: Seq<char>, escape: bool)
    requires
        start.wf(),
        fin.wf(),
        start.valid(x),
        fin.len() == start.len(),
        !is_text_node(start, x),
        fin.type_of(x) == start.type_of(x),
        smoothed_below(start, fin, x),
    ensures
        render(fin.node_chunks(x, encoding), escape) == render(start.node_chunks(x, encoding), escape),
    decreases start.bound@ - start.depth@[x@ as int], 1int,
{
    start.lemma_wf_basic();
    fin.lemma_wf_basic();
    start.lemma_in_subtree_refl(x);
    assert(smoothed(start, fin, x));
    let c = start.children(x);
    let m = fin.children(x);
    assert(c.take(0) =~= Seq::<NodeId>::empty());
    assert(merged_children(start, c.take(0)).len() == 0);
    lemma_smooth_forest(start, fin, x, 0, encoding, escape, true);
    lemma_smooth_forest(start, fin, x, 0, encoding, escape, false);
    if c.len() > 0 {
        lemma_merged_take_step(start, c, 0);
        assert(c.take(c.len() as int) =~= c);
        lemma_merged_prefix(start, c, 1, c.len() as int);
    }
    assert((m.len() == 0) == (c.len() == 0));
    let ds = start.depth@[x@ as int] as int;
    let df = fin.depth@[x@ as int] as int;
    match start.type_of(x) {
        NodeType::Element(e) => {
            let name = e.local_name@;
            let open = seq![ChunkView::Markup("<"@ + name)]
                + crate::serialize::attrs_chunks(crate::serialize::sorted_by_name(e.attrs@), name, crate::serialize::is_content_type_meta(name, e.attrs@), encoding);
            if !(crate::text::is_void_name(name) && c.len() == 0) {
                let a = open + seq![ChunkView::Markup(">"@)];
                let b = seq![ChunkView::Markup("</"@ + name + ">"@)];
                let ff = fin.forest_chunks(m, 0, df, encoding, false);
                let sf = start.forest_chunks(c, 0, ds, encoding, false);
                assert(fin.node_chunks(x, encoding) == a + ff + b);
                assert(start.node_chunks(x, encoding) == a + sf + b);
                lemma_render_concat(a, ff, escape);
                lemma_render_concat(a + ff, b, escape);
                lemma_render_concat(a, sf, escape);
                lemma_render_concat(a + sf, b, escape);
            }
        },
        _ => {},
    }
}


/// With no separator and no trimming, what extraction writes from a state is the state's text
/// followed by what it writes from the start.
proof fn lemma_text_frame(d: Document, s: (Seq<char>, bool), r: NodeId, x: NodeId, o: TextOptions)
    ensures
        d.text_state(s, r, x, o, Seq::empty(), false).0
            == s.0 + d.text_state((Seq::empty(), true), r, x, o, Seq::empty(), false).0,
    decreases d.bound@ - d.depth@[x@ as int], 0int,
{
    let e: (Seq<char>, bool) = (Seq::empty(), true);
    let sep = Seq::<char>::empty();
    if d.text_skipped(r, x, o) {
        assert(s.0 + e.0 =~= s.0);
    } else {
        let a = match d.own_text(r, x, o) {
            Some(v) => crate::text::pushed(s, v, sep, false),
            None => s,
        };
        let b = match d.own_text(r, x, o) {
            Some(v) => crate::text::pushed(e, v, sep, false),
            None => e,
        };
        assert(a.0 =~= s.0 + b.0);
        if d.valid(x) && d.depth@[x@ as int] < d.bound@ {
            let dd = d.depth@[x@ as int] as int;
            lemma_forest_frame(d, a, r, d.children(x), 0, dd, o);
            lemma_forest_frame(d, b, r, d.children(x), 0, dd, o);
            let f = d.forest_text_state(e, r, d.children(x), 0, dd, o, sep, false).0;
            assert(a.0 + f =~= s.0 + (b.0 + f));
        }
    }
}

proof fn lemma_forest_frame(d: Document, s: (Seq<char>, bool), r: NodeId, q: Seq<NodeId>, i: int, dd: int, o: TextOptions)
    ensures
        d.forest_text_state(s, r, q, i, dd, o, Seq::empty(), false).0
            == s.0 + d.forest_text_state((Seq::empty(), true), r, q, i, dd, o, Seq::empty(), false).0,
    decreases d.bound@ - dd - 1, q.len() - i + 1,
{
    let e: (Seq<char>, bool) = (Seq::empty(), true);
    let sep = Seq::<char>::empty();
    if i < 0 || i >= q.len() {
        assert(s.0 + e.0 =~= s.0);
    } else if d.valid(q[i]) && d.depth@[q[i]@ as int] == dd + 1 && dd + 1 < d.bound@ {
        let ts = d.text_state(s, r, q[i], o, sep, false);
        let te = d.text_state(e, r, q[i], o, sep, false);
        lemma_text_frame(d, s, r, q[i], o);
        lemma_forest_frame(d, ts, r, q, i + 1, dd, o);
        lemma_forest_frame(d, te, r, q, i + 1, dd, o);
        let f = d.forest_text_state(e, r, q, i + 1, dd, o, sep, false).0;
        assert(ts.0 + f =~= s.0 + (te.0 + f));
    } else {
        lemma_forest_frame(d, s, r, q, i + 1, dd, o);
    }
}

/// What extraction from the start writes of the subtree of `x`.
pub open spec fn text_of(d: Document, r: NodeId, x: NodeId, o: TextOptions) -> Seq<char> {
    d.text_state((Seq::empty(), true), r, x, o, Seq::empty(), false).0
}

/// What extraction from the start writes of the subtrees of `q[i..]`.
pub open spec fn forest_text_of(d: Document, r: NodeId, q: Seq<NodeId>, i: int, dd: int, o: TextOptions) -> Seq<char> {
    d.forest_text_state((Seq::empty(), true), r, q, i, dd, o, Seq::empty(), false).0
}

/// One child after the other.
proof fn lemma_forest_text_step(d: Document, r: NodeId, x: NodeId, i: int, o: TextOptions)
    requires
        d.wf(),
        d.valid(x),
        0 <= i < d.children(x).len(),
    ensures
        forest_text_of(d, r, d.children(x), i, d.depth@[x@ as int] as int, o)
            == text_of(d, r, d.children(x)[i], o) + forest_text_of(d, r, d.children(x), i + 1, d.depth@[x@ as int] as int, o),
{
    d.lemma_wf_child(x, i);
    let te = d.text_state((Seq::empty(), true), r, d.children(x)[i], o, Seq::empty(), false);
    lemma_forest_frame(d, te, r, d.children(x), i + 1, d.depth@[x@ as int] as int, o);
}

/// Whether text nodes below `x` hold no children.
pub open spec fn text_leaves(d: Document, x: NodeId) -> bool {
    forall|y: NodeId| d.valid(y) && d.in_subtree(y, x) && is_text_node(d, y) ==> #[trigger] d.children(y).len() == 0
}

/// What a text child `y` of `x` gives, when it has no children.
proof fn lemma_text_child(d: Document, r: NodeId, x: NodeId, y: NodeId, o: TextOptions)
    requires
        d.wf(),
        d.valid(x),
        d.valid(y),
        d.parent_of(y) == Some(x),
        is_text_node(d, y),
        d.children(y).len() == 0,
    ensures
        text_of(d, r, y, o) == (if d.text_taken(r, y, o) { text_or_empty(d, y) } else { Seq::empty() }),
{
    d.lemma_wf_basic();
    let t = text_or_empty(d, y);
    assert(Seq::<char>::empty() + t =~= t);
}

/// The run of text from `k` on to its end `e` gives its texts, one after the other.
proof fn lemma_run_text(d: Document, r: NodeId, x: NodeId, k: int, e: int, o: TextOptions, taken: bool)
    requires
        d.wf(),
        d.valid(x),
        0 <= k <= e <= d.children(x).len(),
        forall|j: int| k <= j < e ==> #[trigger] is_text_node(d, d.children(x)[j]),
        forall|j: int| k <= j < e ==> #[trigger] d.children(d.children(x)[j]).len() == 0,
        forall|j: int| k <= j < e ==> #[trigger] d.text_taken(r, d.children(x)[j], o) == taken,
    ensures
        forest_text_of(d, r, d.children(x), k, d.depth@[x@ as int] as int, o)
            == (if taken { texts(d, d.children(x), k, e) } else { Seq::empty() })
                + forest_text_of(d, r, d.children(x), e, d.depth@[x@ as int] as int, o),
    decreases e - k,
{
    let c = d.children(x);
    let dd = d.depth@[x@ as int] as int;
    if k == e {
        assert(texts(d, c, k, e) == Seq::<char>::empty());
        assert(Seq::<char>::empty() + forest_text_of(d, r, c, e, dd, o) =~= forest_text_of(d, r, c, e, dd, o));
    } else {
        d.lemma_wf_child(x, k);
        assert(is_text_node(d, c[k]));
        assert(d.children(c[k]).len() == 0);
        assert(d.text_taken(r, c[k], o) == taken);
        lemma_text_child(d, r, x, c[k], o);
        lemma_forest_text_step(d, r, x, k, o);
        lemma_run_text(d, r, x, k + 1, e, o, taken);
        lemma_texts_front(d, c, k, e);
        let t = text_or_empty(d, c[k]);
        let rest = texts(d, c, k + 1, e);
        let f = forest_text_of(d, r, c, e, dd, o);
        if taken {
            assert(t + (rest + f) =~= (t + rest) + f);
        } else {
            assert(Seq::<char>::empty() + (Seq::<char>::empty() + f) =~= Seq::<char>::empty() + f);
        }
    }
}


proof fn lemma_smooth_text_forest(start: Document, fin: Document, r: NodeId, x: NodeId, i: int, o: TextOptions)
    requires
        start.wf(),
        fin.wf(),
        start.valid(x),
        fin.len() == start.len(),
        !is_text_node(start, x),
        fin.type_of(x) == start.type_of(x),
        smoothed_below(start, fin, x),
        text_leaves(start, x),
        0 <= i <= start.children(x).len(),
        i == start.children(x).len() || !follows_text(start, start.children(x), i),
    ensures
        forest_text_of(fin, r, fin.children(x), merged_children(start, start.children(x).take(i)).len() as int, fin.depth@[x@ as int] as int, o)
            == forest_text_of(start, r, start.children(x), i, start.depth@[x@ as int] as int, o),
    decreases start.bound@ - start.depth@[x@ as int], 0int, start.children(x).len() - i,
{
    let c = start.children(x);
    let ds = start.depth@[x@ as int] as int;
    let df = fin.depth@[x@ as int] as int;
    start.lemma_in_subtree_refl(x);
    assert(smoothed(start, fin, x));
    let m = fin.children(x);
    let j = merged_children(start, c.take(i)).len() as int;
    assert(c.take(c.len() as int) =~= c);
    if i < c.len() {
        lemma_merged_take_step(start, c, i);
        lemma_merged_prefix(start, c, i + 1, c.len() as int);
        assert(m.take(j + 1) == merged_children(start, c.take(i)).push(c[i]));
        assert(m.take(j + 1)[j] == m[j]);
        start.lemma_wf_child(x, i);
        fin.lemma_wf_child(x, j);
        start.lemma_wf_basic();
        let y = c[i];
        assert(m[j] == y);
        assert(smoothed_child(start, fin, c, i));
        lemma_forest_text_step(fin, r, x, j, o);
        start.lemma_children(x);
        assert(y != x);
        start.lemma_in_subtree_step(y, x);
        assert(start.in_subtree(y, x));
        fin.lemma_children(x);
        assert(fin.parent_of(y) == Some(x));
        if is_text_node(start, y) {
            let e = run_end(start, c, i);
            lemma_run_end(start, c, i);
            assert forall|k: int| i + 1 <= k < e implies #[trigger] follows_text(start, c, k) by {
                assert(is_text_node(start, c[k]));
            }
            lemma_merged_run(start, c, i + 1, e);
            let taken = start.text_taken(r, y, o);
            assert forall|k: int| i <= k < e implies #[trigger] is_text_node(start, c[k]) by {
                if k > i {
                    assert(follows_text(start, c, k));
                }
            }
            assert forall|k: int| i <= k < e implies #[trigger] start.children(c[k]).len() == 0 && start.text_taken(r, c[k], o) == taken by {
                start.lemma_wf_child(x, k);
                start.lemma_in_subtree_step(c[k], x);
                assert(is_text_node(start, c[k]));
            }
            lemma_run_text(start, r, x, i, e, o, taken);
            if e < c.len() {
                assert(!follows_text(start, c, e));
            }
            lemma_smooth_text_forest(start, fin, r, x, e, o);
            assert(smoothed(start, fin, y));
            assert(start.children(y).len() == 0);
            assert(c.take(0) =~= Seq::<NodeId>::empty());
            assert(start.children(y).take(0) =~= start.children(y));
            assert(fin.children(y).len() == 0);
            assert(fin.text_taken(r, y, o) == taken);
            lemma_text_child(fin, r, x, y, o);
        } else {
            assert(fin.type_of(y) == start.type_of(y));
            assert forall|z: NodeId| start.valid(z) && start.in_subtree(z, y) && (z == y || fin.parent_of(z) is Some)
                implies #[trigger] smoothed(start, fin, z) by {
                start.lemma_in_subtree_trans(z, y, x);
            }
            assert forall|z: NodeId| start.valid(z) && start.in_subtree(z, y) && is_text_node(start, z)
                implies #[trigger] start.children(z).len() == 0 by {
                start.lemma_in_subtree_trans(z, y, x);
            }
            lemma_smooth_text_node(start, fin, r, y, o);
            lemma_forest_text_step(start, r, x, i, o);
            lemma_smooth_text_forest(start, fin, r, x, i + 1, o);
        }
    }
}

pub(crate) proof fn lemma_smooth_text_node(start: Document, fin: Document, r: NodeId, x: NodeId, o: TextOptions)
    requires
        start.wf(),
        fin.wf(),
        start.valid(x),
        fin.len() == start.len(),
        !is_text_node(start, x),
        fin.type_of(x) == start.type_of(x),
        smoothed_below(start, fin, x),
        text_leaves(start, x),
    ensures
        text_of(fin, r, x, o) == text_of(start, r, x, o),
    decreases start.bound@ - start.depth@[x@ as int], 1int,
{
    start.lemma_wf_basic();
    fin.lemma_wf_basic();
    let c = start.children(x);
    assert(c.take(0) =~= Seq::<NodeId>::empty());
    assert(merged_children(start, c.take(0)).len() == 0);
    lemma_smooth_text_forest(start, fin, r, x, 0, o);
    assert(fin.own_text(r, x, o) == start.own_text(r, x, o));
    assert(fin.text_skipped(r, x, o) == start.text_skipped(r, x, o));
    if !start.text_skipped(r, x, o) {
        let e: (Seq<char>, bool) = (Seq::empty(), true);
        let a = match start.own_text(r, x, o) {
            Some(v) => crate::text::pushed(e, v, Seq::empty(), false),
            None => e,
        };
        lemma_forest_frame(start, a, r, c, 0, start.depth@[x@ as int] as int, o);
        lemma_forest_frame(fin, a, r, fin.children(x), 0, fin.depth@[x@ as int] as int, o);
    }
}

} // verus!
