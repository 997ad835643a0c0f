use vstd::prelude::*;
use crate::dom::{remove_value, Document, NodeId, NodeType, ProcessingInstructionData};
use crate::matcher::{kept, lemma_kept_front, lemma_kept_split};
use crate::text::{push_char, push_str, str_eq, string_from_chars};

verus! {

/// Whether `x` is a `head` element without children.
pub open spec fn is_empty_head(d: Document, x: NodeId) -> bool {
    (d.type_of(x) matches NodeType::Element(e) && e.local_name@ == "head"@) && d.children(x).len() == 0
}

/// The first empty `head` element below the root, in document order.
pub open spec fn first_empty_head(d: Document) -> Option<NodeId> {
    let found = kept(d.subtree_nodes(d.root).drop_first(), |x: NodeId| is_empty_head(d, x));
    if found.len() > 0 {
        Some(found[0])
    } else {
        None
    }
}

/// The comments below the root that become processing instructions, in document order, each
/// with the index of its value: walking `s`, a comment reading `?` and then `values[j]` takes
/// value `j`, and the next one is looked for from there; the walk ends when the values do.
pub open spec fn promotions(d: Document, s: Seq<NodeId>, values: Seq<Seq<char>>, j: int) -> Seq<(NodeId, int)>
    decreases s.len(),
{
    if s.len() == 0 || j < 0 || j >= values.len() {
        Seq::empty()
    } else if d.type_of(s[0]) matches NodeType::Comment(c) && c@ == seq!['?'] + values[j] {
        seq![(s[0], j)] + promotions(d, s.drop_first(), values, j + 1)
    } else {
        promotions(d, s.drop_first(), values, j)
    }
}

/// Whether node `x` is a processing instruction with target `target` and no data.
pub open spec fn is_instruction(d: Document, x: NodeId, target: Seq<char>) -> bool {
    d.type_of(x) matches NodeType::ProcessingInstruction(pi) && pi.target@ == target && pi.data@.len() == 0
}

/// The only child of the root, when it is an element named `name`.
pub open spec fn single_wrapper(d: Document, name: Seq<char>) -> Option<NodeId> {
    let c = d.children(d.root);
    if c.len() == 1 && (d.type_of(c[0]) matches NodeType::Element(e) && e.local_name@ == name) {
        Some(c[0])
    } else {
        None
    }
}

/// `b` is `a` with its first empty `head` element below the root taken out of the tree, if
/// there is one, and `a` itself otherwise.
pub open spec fn head_removed(a: Document, b: Document) -> bool {
    &&& b.wf()
    &&& match first_empty_head(a) {
        Some(h) => {
            &&& b.len() == a.len()
            &&& b.root == a.root
            &&& b.root_decomposed == a.root_decomposed
            &&& b.parent_of(h) is None
            &&& forall|i: int| 0 <= i < a.len() ==> #[trigger] b.nodes@[i].node_type == a.nodes@[i].node_type
            &&& forall|x: NodeId| a.valid(x) && x != h ==> #[trigger] b.parent_of(x) == a.parent_of(x)
            &&& forall|x: NodeId| a.valid(x) ==> #[trigger] b.children(x) == remove_value(a.children(x), h)
        },
        None => b == a,
    }
}

/// `b` is `a` with the comments that `promotions` picks turned into processing instructions
/// whose targets are the values they were matched with.
pub open spec fn instructions_promoted(a: Document, b: Document, values: Seq<Seq<char>>) -> bool {
    let plan = promotions(a, a.subtree_nodes(a.root).drop_first(), values, 0);
    &&& b.wf()
    &&& b.len() == a.len()
    &&& b.root == a.root
    &&& b.root_decomposed == a.root_decomposed
    &&& forall|x: NodeId| #[trigger] b.children(x) == a.children(x)
    &&& forall|x: NodeId| a.valid(x) ==> {
        ||| exists|k: int| 0 <= k < plan.len() && (#[trigger] plan[k]).0 == x
            && is_instruction(b, x, values[plan[k].1])
        ||| (forall|k: int| 0 <= k < plan.len() ==> (#[trigger] plan[k]).0 != x)
            && #[trigger] b.type_of(x) == a.type_of(x)
    }
}

/// `b` is `a` with the root's only child, when it is an element named `name`, replaced by its
/// children and taken out of the tree; `a` itself otherwise.
pub open spec fn wrapper_unwrapped(a: Document, b: Document, name: Seq<char>) -> bool {
    &&& b.wf()
    &&& match single_wrapper(a, name) {
        Some(w) => {
            &&& b.len() == a.len()
            &&& b.root == a.root
            &&& b.root_decomposed == a.root_decomposed
            &&& b.children(a.root) == a.children(w)
            &&& b.children(w) == Seq::<NodeId>::empty()
            &&& b.parent_of(w) is None
            &&& forall|i: int| 0 <= i < a.len() ==> #[trigger] b.nodes@[i].node_type == a.nodes@[i].node_type
            &&& forall|x: NodeId| a.valid(x) && x != w ==> #[trigger] b.parent_of(x) == (if a.parent_of(x) == Some(w) { Some(a.root) } else { a.parent_of(x) })
        },
        None => b == a,
    }
}

impl Document {
    /// Takes the first empty `head` element below the root out of the tree, if there is one.
    pub fn remove_first_empty_head(&mut self)
        requires
            old(self).wf(),
        ensures
            head_removed(*old(self), *final(self)),
    {
        let ghost d = *self;
        let ghost keep = |x: NodeId| is_empty_head(d, x);
        proof {
            d.lemma_wf_basic();
        }
        let root = self.root;
        let nodes = self.descendant_nodes(root, false);
        let ghost s = nodes@;
        proof {
            d.lemma_subtree_valid(root);
            d.lemma_traversal_start(root);
            assert forall|k: int| 0 <= k < s.len() implies d.valid(#[trigger] s[k]) by {
                assert(s[k] == d.subtree_nodes(root)[k + 1]);
            }
        }
        let mut i: usize = 0;
        while i < nodes.len()
            invariant
                *self == d,
                *old(self) == d,
                d.wf(),
                s == nodes@,
                s == d.subtree_nodes(d.root).drop_first(),
                keep == (|x: NodeId| is_empty_head(d, x)),
                forall|k: int| 0 <= k < s.len() ==> d.valid(#[trigger] s[k]),
                i <= s.len(),
                kept(s.take(i as int), keep) == Seq::<NodeId>::empty(),
            decreases s.len() - i,
        {
            let id = nodes[i];
            proof {
                d.lemma_children(id);
                assert(s.take(i + 1).drop_last() =~= s.take(i as int));
            }
            let is_head = match &self.nodes[id.index()].node_type {
                crate::dom::NodeType::Element(e) => str_eq(e.local_name.as_str(), "head"),
                _ => false,
            };
            if is_head && self.nodes[id.index()].first_child.is_none() {
                proof {
                    assert(keep(id));
                    assert(kept(s.take(i + 1), keep) =~= seq![id]);
                    lemma_kept_split(s, keep, i + 1);
                    assert(kept(s, keep)[0] == id);
                    assert(first_empty_head(d) == Some(id));
                }
                self.detach(id);
                return;
            }
            proof {
                assert(!keep(id));
            }
            i += 1;
        }
        proof {
            assert(s.take(s.len() as int) =~= s);
        }
    }

    /// Turns into processing instructions the comments that the full parser made of them:
    /// below the root, in document order, a comment reading `?` and then `values[j]` becomes the
    /// instruction with target `values[j]`, `j` counting up from 0 (see `promotions`).
    #[verifier::rlimit(40)]
    pub fn promote_bogus_comments_to_processing_instructions(&mut self, values: &[String])
        requires
            old(self).wf(),
        ensures
            instructions_promoted(*old(self), *final(self), values@.map_values(|v: String| v@)),
    {
        let ghost d = *self;
        let ghost vals = values@.map_values(|v: String| v@);
        proof {
            d.lemma_wf_basic();
        }
        if values.len() == 0 {
            proof {
                assert(promotions(d, d.subtree_nodes(d.root).drop_first(), vals, 0) == Seq::<(NodeId, int)>::empty());
            }
            return;
        }
        let root = self.root;
        let nodes = self.descendant_nodes(root, false);
        let ghost s = nodes@;
        proof {
            d.lemma_subtree_valid(root);
            d.lemma_traversal_start(root);
            d.lemma_subtree_distinct(root);
            assert forall|k: int| 0 <= k < s.len() implies d.valid(#[trigger] s[k]) by {
                assert(s[k] == d.subtree_nodes(root)[k + 1]);
            }
            assert forall|a: int, b: int| 0 <= a < s.len() && 0 <= b < s.len() && a != b implies s[a] != s[b] by {
                assert(s[a] == d.subtree_nodes(root)[a + 1]);
                assert(s[b] == d.subtree_nodes(root)[b + 1]);
            }
            assert(s.skip(0) =~= s);
        }
        let ghost mut done: Seq<(NodeId, int)> = Seq::empty();
        let mut value_index: usize = 0;
        let mut i: usize = 0;
        while i < nodes.len()
            invariant_except_break
                value_index < values@.len(),
            invariant
                d.wf(),
                s == nodes@,
                s == d.subtree_nodes(d.root).drop_first(),
                vals == values@.map_values(|v: String| v@),
                forall|k: int| 0 <= k < s.len() ==> d.valid(#[trigger] s[k]),
                forall|a: int, b: int| 0 <= a < s.len() && 0 <= b < s.len() && a != b ==> s[a] != s[b],
                i <= s.len(),
                value_index <= values@.len(),
                promotions(d, s, vals, 0) == done + promotions(d, s.skip(i as int), vals, value_index as int),
                forall|k: int| 0 <= k < done.len() ==> exists|a: int| 0 <= a < i && s[a] == (#[trigger] done[k]).0,
                forall|k: int| 0 <= k < done.len() ==> 0 <= (#[trigger] done[k]).1 < values@.len(),
                self.wf(),
                self.len() == d.len(),
                self.root == d.root,
                self.root_decomposed == d.root_decomposed,
                forall|x: NodeId| #[trigger] self.children(x) == d.children(x),
                forall|x: NodeId| d.valid(x) ==> {
                    ||| exists|k: int| 0 <= k < done.len() && (#[trigger] done[k]).0 == x
                        && is_instruction(*self, x, vals[done[k].1])
                    ||| (forall|k: int| 0 <= k < done.len() ==> (#[trigger] done[k]).0 != x)
                        && #[trigger] self.type_of(x) == d.type_of(x)
                },
            ensures
                promotions(d, s, vals, 0) == done,
            decreases s.len() - i,
        {
            let id = nodes[i];
            let ghost rest = s.skip(i as int);
            proof {
                assert(rest[0] == id);
                assert(rest.drop_first() =~= s.skip(i + 1));
                assert forall|k: int| 0 <= k < done.len() implies (#[trigger] done[k]).0 != id by {
                    let a = choose|a: int| 0 <= a < i && s[a] == done[k].0;
                }
                assert(self.type_of(id) == d.type_of(id));
            }
            let mut expected = string_from_chars(&Vec::new());
            push_char(&mut expected, '?');
            push_str(&mut expected, values[value_index].as_str());
            let hit = match &self.nodes[id.index()].node_type {
                NodeType::Comment(c) => str_eq(c.as_str(), expected.as_str()),
                _ => false,
            };
            proof {
                assert(expected@ =~= seq!['?'] + vals[value_index as int]);
            }
            if hit {
                let target = values[value_index].clone();
                let pi = ProcessingInstructionData { target, data: string_from_chars(&Vec::new()) };
                let ghost before = *self;
                let _ = self.replace_node_type(id, NodeType::ProcessingInstruction(Box::new(pi)));
                proof {
                    broadcast use crate::dom::group_node_id;
                    let old_done = done;
                    done = done.push((id, value_index as int));
                    assert(is_instruction(*self, id, vals[value_index as int]));
                    assert(promotions(d, rest, vals, value_index as int)
                        == seq![(id, value_index as int)] + promotions(d, s.skip(i + 1), vals, value_index + 1));
                    assert(old_done + (seq![(id, value_index as int)] + promotions(d, s.skip(i + 1), vals, value_index + 1))
                        =~= done + promotions(d, s.skip(i + 1), vals, value_index + 1));
                    assert forall|k: int| 0 <= k < done.len() implies exists|a: int| 0 <= a < i + 1 && s[a] == (#[trigger] done[k]).0 by {
                        if k < old_done.len() {
                            assert(done[k] == old_done[k]);
                            let a = choose|a: int| 0 <= a < i && s[a] == old_done[k].0;
                        } else {
                            assert(s[i as int] == done[k].0);
                        }
                    }
                    assert forall|k: int| 0 <= k < done.len() implies 0 <= (#[trigger] done[k]).1 < values@.len() by {
                        if k < old_done.len() {
                            assert(done[k] == old_done[k]);
                        }
                    }
                    assert forall|x: NodeId| d.valid(x) implies {
                        ||| exists|k: int| 0 <= k < done.len() && (#[trigger] done[k]).0 == x
                            && is_instruction(*self, x, vals[done[k].1])
                        ||| (forall|k: int| 0 <= k < done.len() ==> (#[trigger] done[k]).0 != x)
                            && #[trigger] self.type_of(x) == d.type_of(x)
                    } by {
                        if x == id {
                            assert(done[done.len() - 1].0 == x);
                        } else {
                            assert(x@ != id@);
                            assert(self.type_of(x) == before.type_of(x));
                            if exists|k: int| 0 <= k < old_done.len() && (#[trigger] old_done[k]).0 == x
                                && is_instruction(before, x, vals[old_done[k].1]) {
                                let k = choose|k: int| 0 <= k < old_done.len() && (#[trigger] old_done[k]).0 == x
                                    && is_instruction(before, x, vals[old_done[k].1]);
                                assert(done[k] == old_done[k]);
                            } else {
                                assert forall|k: int| 0 <= k < done.len() implies (#[trigger] done[k]).0 != x by {
                                    if k < old_done.len() {
                                        assert(done[k] == old_done[k]);
                                    }
                                }
                            }
                        }
                    }
                }
                value_index += 1;
            } else {
                proof {
                    assert(promotions(d, rest, vals, value_index as int) == promotions(d, s.skip(i + 1), vals, value_index as int));
                    assert forall|k: int| 0 <= k < done.len() implies exists|a: int| 0 <= a < i + 1 && s[a] == (#[trigger] done[k]).0 by {
                        let a = choose|a: int| 0 <= a < i && s[a] == done[k].0;
                    }
                }
            }
            i += 1;
            if value_index >= values.len() {
                proof {
                    let r = s.skip(i as int);
                    assert(promotions(d, r, vals, value_index as int) == Seq::<(NodeId, int)>::empty());
                    assert(done + Seq::<(NodeId, int)>::empty() =~= done);
                }
                break;
            }
        }
        proof {
            if i == s.len() {
                assert(s.skip(i as int).len() == 0);
                assert(done + Seq::<(NodeId, int)>::empty() =~= done);
            }
        }
    }

    /// When the root has one child and it is an element named `tag_name`, puts that element's
    /// children in its place under the root and takes it out of the tree.
    pub fn unwrap_single_child_element_named(&mut self, tag_name: &str)
        requires
            old(self).wf(),
        ensures
            wrapper_unwrapped(*old(self), *final(self), tag_name@),
    {
        let ghost d = *self;
        proof {
            d.lemma_wf_basic();
            d.lemma_children(d.root);
        }
        let root = self.root;
        let wrapper = match self.nodes[root.index()].first_child {
            Some(w) => w,
            None => {
                return;
            },
        };
        let last = self.nodes[root.index()].last_child;
        let single = match last {
            Some(l) => l.index() == wrapper.index(),
            None => false,
        };
        proof {
            broadcast use crate::dom::group_node_id;
            let c = d.children(root);
            if single {
                assert(c[0] == wrapper);
                assert(c[c.len() - 1] == wrapper);
                if c.len() > 1 {
                    assert(c[0] != c[c.len() - 1]);
                }
            }
            if c.len() == 1 {
                assert(single);
            }
        }
        if !single {
            return;
        }
        let named = match &self.nodes[wrapper.index()].node_type {
            NodeType::Element(e) => str_eq(e.local_name.as_str(), tag_name),
            _ => false,
        };
        if !named {
            return;
        }
        proof {
            let c = d.children(root);
            assert(c.len() == 1);
            assert(c.index_of(wrapper) == 0) by {
                assert(c[0] == wrapper);
            }
        }
        self.unwrap_node(wrapper);
        proof {
            let c = d.children(root);
            assert(c.take(0) + d.children(wrapper) + c.skip(1) =~= d.children(wrapper));
        }
    }
}

} // verus!
