//! The rule tree: nodes, their mathematical model, and path addressing.
//!
//! A stylesheet's rules form an ordered tree: style rules and opaque rules
//! are leaves, media and supports rules own a nested ordered sequence of
//! child rules, and keyframes rules own an ordered sequence of keyframes.
//! Every sequence in the tree is addressed by a path of child indices from
//! the root, and all structural reads and writes go through that addressing,
//! so no caller ever holds a raw location into storage.

use vstd::prelude::*;
use crate::engine;

verus! {

/// One keyframe within a keyframes rule: a selector list (percentages or the
/// keywords `from` / `to`) and a declaration block.
pub struct KeyframeNode {
    /// The keyframe's selector list.
    pub selectors: Vec<parcel_css::rules::keyframes::KeyframeSelector>,
    /// The keyframe's declarations.
    pub block: parcel_css::declaration::DeclarationBlock<'static>,
}

/// The kinds of rule this layer carries through without modeling them.
#[derive(Clone, Copy, PartialEq, Eq, Structural, Debug)]
pub enum OtherKind {
    /// An `@import` rule.
    Import,
    /// A `@font-face` rule.
    FontFace,
    /// A `@page` rule.
    Page,
    /// A `@namespace` rule.
    Namespace,
    /// A `@counter-style` rule.
    CounterStyle,
    /// A `@viewport` rule.
    Viewport,
    /// Any other rule kind.
    Unknown,
}

/// One rule in the tree.
pub enum RuleNode {
    /// A style rule: selectors and declarations, owned by the engine value.
    Style { style: parcel_css::rules::style::StyleRule<'static> },
    /// A `@media` rule: a media query list and nested child rules.
    Media { queries: Vec<parcel_css::media_query::MediaQuery<'static>>, children: Vec<RuleNode> },
    /// A `@supports` rule: a condition and nested child rules.
    Supports { condition: parcel_css::rules::supports::SupportsCondition<'static>, children: Vec<RuleNode> },
    /// An `@keyframes` rule: a name and an ordered keyframe list.
    Keyframes { name: String, frames: Vec<KeyframeNode> },
    /// A rule of a kind this layer does not model, carried through opaquely.
    Other { kind: OtherKind, rule: parcel_css::rules::CssRule<'static> },
}

/// The model of one keyframe.
#[verifier::ext_equal]
pub struct Frame {
    /// The keyframe's selector list.
    pub selectors: Seq<parcel_css::rules::keyframes::KeyframeSelector>,
    /// The keyframe's declarations.
    pub block: parcel_css::declaration::DeclarationBlock<'static>,
}

/// The model of one rule.
#[verifier::ext_equal]
pub enum Node {
    /// A style rule.
    Style { style: parcel_css::rules::style::StyleRule<'static> },
    /// A `@media` rule.
    Media { queries: Seq<parcel_css::media_query::MediaQuery<'static>>, children: Seq<Node> },
    /// A `@supports` rule.
    Supports { condition: parcel_css::rules::supports::SupportsCondition<'static>, children: Seq<Node> },
    /// An `@keyframes` rule.
    Keyframes { name: Seq<char>, frames: Seq<Frame> },
    /// A rule of a kind this layer does not model.
    Other { kind: OtherKind, rule: parcel_css::rules::CssRule<'static> },
}

impl View for KeyframeNode {
    type V = Frame;

    open spec fn view(&self) -> Frame {
        Frame { selectors: self.selectors@, block: self.block }
    }
}

/// The model of a sequence of keyframes.
pub open spec fn frames_view(s: Seq<KeyframeNode>) -> Seq<Frame> {
    Seq::new(s.len(), |i: int| s[i]@)
}

impl View for RuleNode {
    type V = Node;

    open spec fn view(&self) -> Node
        decreases self,
    {
        match self {
            RuleNode::Style { style } => Node::Style { style: *style },
            RuleNode::Media { queries, children } => Node::Media {
                queries: queries@,
                children: nodes_view(children@),
            },
            RuleNode::Supports { condition, children } => Node::Supports {
                condition: *condition,
                children: nodes_view(children@),
            },
            RuleNode::Keyframes { name, frames } => Node::Keyframes {
                name: name@,
                frames: frames_view(frames@),
            },
            RuleNode::Other { kind, rule } => Node::Other { kind: *kind, rule: *rule },
        }
    }
}

/// The model of a sequence of rules.
pub open spec fn nodes_view(s: Seq<RuleNode>) -> Seq<Node>
    decreases s,
{
    if s.len() == 0 {
        Seq::empty()
    } else {
        nodes_view(s.drop_last()).push(s.last()@)
    }
}

/// `nodes_view` maps the sequence elementwise.
pub proof fn lemma_nodes_view(s: Seq<RuleNode>)
    ensures
        nodes_view(s).len() == s.len(),
        forall|i: int| 0 <= i < s.len() ==> nodes_view(s)[i] == #[trigger] s[i]@,
    decreases s,
{
    if s.len() > 0 {
        lemma_nodes_view(s.drop_last());
        assert(nodes_view(s) == nodes_view(s.drop_last()).push(s.last()@));
        assert forall|i: int| 0 <= i < s.len() implies nodes_view(s)[i] == #[trigger] s[i]@ by {
            if i < s.len() - 1 {
                assert(s.drop_last()[i] == s[i]);
            } else {
                assert(s[i] == s.last());
            }
        }
    }
}


// ---------------------------------------------------------------------------
// Path addressing.
// ---------------------------------------------------------------------------

/// The nested child rules of a node, for the kinds that own some.
pub open spec fn child_rules_of(n: Node) -> Option<Seq<Node>> {
    match n {
        Node::Media { children, .. } => Some(children),
        Node::Supports { children, .. } => Some(children),
        _ => None,
    }
}

/// The keyframes of a node, for the keyframes kind.
pub open spec fn frames_of(n: Node) -> Option<Seq<Frame>> {
    match n {
        Node::Keyframes { frames, .. } => Some(frames),
        _ => None,
    }
}

/// The node with its child rules replaced (identity on kinds without any).
pub open spec fn with_children(n: Node, cs: Seq<Node>) -> Node {
    match n {
        Node::Media { queries, .. } => Node::Media { queries, children: cs },
        Node::Supports { condition, .. } => Node::Supports { condition, children: cs },
        _ => n,
    }
}

/// The node a nonempty path of child indices leads to, descending through
/// nested child-rule sequences.
pub open spec fn node_at(s: Seq<Node>, path: Seq<usize>) -> Option<Node>
    decreases path.len(),
{
    if path.len() == 0 {
        None
    } else if (path[0] as int) < s.len() {
        if path.len() == 1 {
            Some(s[path[0] as int])
        } else {
            match child_rules_of(s[path[0] as int]) {
                Some(cs) => node_at(cs, path.skip(1)),
                None => None,
            }
        }
    } else {
        None
    }
}

/// The rule sequence a path addresses: all of `s` for the empty path, else
/// the child rules of the node the path leads to.
pub open spec fn rules_at(s: Seq<Node>, path: Seq<usize>) -> Option<Seq<Node>> {
    if path.len() == 0 {
        Some(s)
    } else {
        match node_at(s, path) {
            Some(n) => child_rules_of(n),
            None => None,
        }
    }
}

/// The keyframe sequence a path addresses.
pub open spec fn frames_at(s: Seq<Node>, path: Seq<usize>) -> Option<Seq<Frame>> {
    match node_at(s, path) {
        Some(n) => frames_of(n),
        None => None,
    }
}

/// `s` with the node at `path` replaced by `n` (identity where the path does
/// not lead to a node).
pub open spec fn set_node_at(s: Seq<Node>, path: Seq<usize>, n: Node) -> Seq<Node>
    decreases path.len(),
{
    if path.len() == 0 {
        s
    } else if (path[0] as int) < s.len() {
        if path.len() == 1 {
            s.update(path[0] as int, n)
        } else {
            match child_rules_of(s[path[0] as int]) {
                Some(cs) => s.update(
                    path[0] as int,
                    with_children(s[path[0] as int], set_node_at(cs, path.skip(1), n)),
                ),
                None => s,
            }
        }
    } else {
        s
    }
}

/// Whether `p` is a proper prefix of `q`.
pub open spec fn is_strict_prefix(p: Seq<usize>, q: Seq<usize>) -> bool {
    p.len() < q.len() && q.subrange(0, p.len() as int) == p
}

/// How replacing the node at `p` shows through at any other path `q`:
/// at `p` itself the new node stands; below `p` resolution continues inside
/// the new node; above `p` the same node stands with the update pushed into
/// its child rules; elsewhere nothing changes.
pub proof fn lemma_set_node_at(s: Seq<Node>, p: Seq<usize>, n: Node, q: Seq<usize>)
    requires
        p.len() > 0,
        node_at(s, p) is Some,
        q.len() > 0,
    ensures
        set_node_at(s, p, n).len() == s.len(),
        q == p ==> node_at(set_node_at(s, p, n), q) == Some(n),
        is_strict_prefix(p, q) ==> node_at(set_node_at(s, p, n), q) == (
            match child_rules_of(n) {
                Some(cs) => node_at(cs, q.skip(p.len() as int)),
                None => None::<Node>,
            }
        ),
        is_strict_prefix(q, p) ==> (node_at(s, q) is Some
            && child_rules_of(node_at(s, q).unwrap()) is Some
            && node_at(set_node_at(s, p, n), q) == Some(with_children(
                node_at(s, q).unwrap(),
                set_node_at(child_rules_of(node_at(s, q).unwrap()).unwrap(), p.skip(q.len() as int), n),
            ))),
        q != p && !is_strict_prefix(p, q) && !is_strict_prefix(q, p)
            ==> node_at(set_node_at(s, p, n), q) == node_at(s, q),
    decreases p.len(),
{
    let sp = set_node_at(s, p, n);
    let p0 = p[0] as int;
    let q0 = q[0] as int;
    if p.len() == 1 {
        assert(sp == s.update(p0, n));
        if q0 != p0 {
            if q0 < s.len() {
                assert(sp[q0] == s[q0]);
            }
            assert(q != p && !is_strict_prefix(p, q) && !is_strict_prefix(q, p)) by {
                if is_strict_prefix(p, q) {
                    assert(q.subrange(0, 1)[0] == q[0]);
                } else if is_strict_prefix(q, p) {
                    assert(p.subrange(0, q.len() as int)[0] == p[0]);
                }
            }
            assert(node_at(sp, q) == node_at(s, q));
        } else {
            // p == [q0]; q is p itself or extends it.
            if q.len() == 1 {
                assert(q =~= p);
                assert(node_at(sp, q) == Some(n));
            } else {
                assert(is_strict_prefix(p, q)) by {
                    assert(q.subrange(0, 1) =~= p);
                }
                assert(q.skip(1) =~= q.skip(p.len() as int));
                assert(node_at(sp, q) == (match child_rules_of(n) {
                    Some(cs) => node_at(cs, q.skip(1)),
                    None => None::<Node>,
                }));
            }
        }
    } else {
        let cs = child_rules_of(s[p0]).unwrap();
        let csp = set_node_at(cs, p.skip(1), n);
        assert(child_rules_of(s[p0]) is Some);
        assert(sp == s.update(p0, with_children(s[p0], csp)));
        assert(child_rules_of(with_children(s[p0], csp)) == Some(csp));
        if q0 != p0 {
            if q0 < s.len() {
                assert(sp[q0] == s[q0]);
            }
            assert(q != p && !is_strict_prefix(p, q) && !is_strict_prefix(q, p)) by {
                if is_strict_prefix(p, q) {
                    assert(q.subrange(0, p.len() as int)[0] == q[0]);
                } else if is_strict_prefix(q, p) {
                    assert(p.subrange(0, q.len() as int)[0] == p[0]);
                }
            }
            assert(node_at(sp, q) == node_at(s, q));
        } else {
            if q.len() == 1 {
                // q is a proper prefix of p: the node at q0 is replaced by
                // the same node with updated children.
                assert(is_strict_prefix(q, p)) by {
                    assert(p.subrange(0, 1) =~= q);
                }
                assert(node_at(s, q) == Some(s[p0]));
                assert(node_at(sp, q) == Some(with_children(s[p0], csp)));
                assert(p.skip(q.len() as int) =~= p.skip(1));
            } else {
                lemma_set_node_at(cs, p.skip(1), n, q.skip(1));
                assert(node_at(sp, q) == node_at(csp, q.skip(1)));
                assert(node_at(s, q) == node_at(cs, q.skip(1)));
                // Relate the prefix orders of p and q to those of their tails.
                if q =~= p {
                    assert(q.skip(1) =~= p.skip(1));
                    assert(node_at(sp, q) == Some(n));
                } else if is_strict_prefix(p, q) {
                    assert(is_strict_prefix(p.skip(1), q.skip(1))) by {
                        assert(q.subrange(0, p.len() as int).skip(1) =~= q.skip(1).subrange(0, p.len() - 1));
                        assert(q.subrange(0, p.len() as int).skip(1) =~= p.skip(1));
                    }
                    assert(q.skip(1).skip(p.len() - 1) =~= q.skip(p.len() as int));
                } else if is_strict_prefix(q, p) {
                    assert(is_strict_prefix(q.skip(1), p.skip(1))) by {
                        assert(p.subrange(0, q.len() as int).skip(1) =~= p.skip(1).subrange(0, q.len() - 1));
                        assert(p.subrange(0, q.len() as int).skip(1) =~= q.skip(1));
                    }
                    assert(p.skip(1).skip(q.len() - 1) =~= p.skip(q.len() as int));
                } else {
                    assert(!(q.skip(1) =~= p.skip(1)) && !is_strict_prefix(p.skip(1), q.skip(1)) && !is_strict_prefix(q.skip(1), p.skip(1))) by {
                        if q.skip(1) =~= p.skip(1) {
                            assert(q =~= p) by {
                                assert forall|i: int| 0 <= i < q.len() implies q[i] == p[i] by {
                                    if i >= 1 {
                                        assert(q.skip(1)[i - 1] == q[i]);
                                        assert(p.skip(1)[i - 1] == p[i]);
                                    }
                                }
                            }
                        }
                        if is_strict_prefix(p.skip(1), q.skip(1)) {
                            assert(q.subrange(0, p.len() as int) =~= p) by {
                                assert(q.subrange(0, p.len() as int)[0] == p[0]);
                                assert(forall|i: int| 1 <= i < p.len() ==> q.subrange(0, p.len() as int)[i] == q.skip(1).subrange(0, p.len() - 1)[i - 1] && #[trigger] p[i] == p.skip(1)[i - 1]);
                            }
                        }
                        if is_strict_prefix(q.skip(1), p.skip(1)) {
                            assert(p.subrange(0, q.len() as int) =~= q) by {
                                assert(p.subrange(0, q.len() as int)[0] == q[0]);
                                assert(forall|i: int| 1 <= i < q.len() ==> p.subrange(0, q.len() as int)[i] == p.skip(1).subrange(0, q.len() - 1)[i - 1] && #[trigger] q[i] == q.skip(1)[i - 1]);
                            }
                        }
                    }
                }
            }
        }
    }
}


// ---------------------------------------------------------------------------
// How the model tracks Vec edits.
// ---------------------------------------------------------------------------

/// Updating one element updates the model pointwise.
pub broadcast proof fn lemma_nodes_view_update(s: Seq<RuleNode>, i: int, x: RuleNode)
    requires
        0 <= i < s.len(),
    ensures
        #[trigger] nodes_view(s.update(i, x)) == nodes_view(s).update(i, x@),
{
    lemma_nodes_view(s);
    lemma_nodes_view(s.update(i, x));
    assert forall|j: int| 0 <= j < s.len() implies
        nodes_view(s.update(i, x))[j] == nodes_view(s).update(i, x@)[j] by {
        assert(nodes_view(s.update(i, x))[j] == s.update(i, x)[j]@);
    }
    assert(nodes_view(s.update(i, x)) =~= nodes_view(s).update(i, x@));
}

/// Inserting an element inserts its model.
pub broadcast proof fn lemma_nodes_view_insert(s: Seq<RuleNode>, i: int, x: RuleNode)
    requires
        0 <= i <= s.len(),
    ensures
        #[trigger] nodes_view(s.insert(i, x)) == nodes_view(s).insert(i, x@),
{
    lemma_nodes_view(s);
    lemma_nodes_view(s.insert(i, x));
    assert forall|j: int| 0 <= j < s.len() + 1 implies
        nodes_view(s.insert(i, x))[j] == nodes_view(s).insert(i, x@)[j] by {
        assert(nodes_view(s.insert(i, x))[j] == s.insert(i, x)[j]@);
        if j < i {
            assert(s.insert(i, x)[j] == s[j]);
        } else if j == i {
            assert(s.insert(i, x)[j] == x);
        } else {
            assert(s.insert(i, x)[j] == s[j - 1]);
        }
    }
    assert(nodes_view(s.insert(i, x)) =~= nodes_view(s).insert(i, x@));
}

/// Removing an element removes its model.
pub broadcast proof fn lemma_nodes_view_remove(s: Seq<RuleNode>, i: int)
    requires
        0 <= i < s.len(),
    ensures
        #[trigger] nodes_view(s.remove(i)) == nodes_view(s).remove(i),
{
    lemma_nodes_view(s);
    lemma_nodes_view(s.remove(i));
    assert forall|j: int| 0 <= j < s.len() - 1 implies
        nodes_view(s.remove(i))[j] == nodes_view(s).remove(i)[j] by {
        assert(nodes_view(s.remove(i))[j] == s.remove(i)[j]@);
        if j < i {
            assert(s.remove(i)[j] == s[j]);
        } else {
            assert(s.remove(i)[j] == s[j + 1]);
        }
    }
    assert(nodes_view(s.remove(i)) =~= nodes_view(s).remove(i));
}

// ---------------------------------------------------------------------------
// Executable access at a path.
// ---------------------------------------------------------------------------

/// A shared borrow of the node that `path`, from position `pos` on, leads to.
pub fn node_ref<'a>(rules: &'a Vec<RuleNode>, path: &Vec<usize>, pos: usize) -> (r: &'a RuleNode)
    requires
        pos < path@.len(),
        node_at(nodes_view(rules@), path@.skip(pos as int)) is Some,
    ensures
        (*r)@ == node_at(nodes_view(rules@), path@.skip(pos as int)).unwrap(),
    decreases path@.len() - pos,
{
    proof {
        lemma_nodes_view(rules@);
        assert(path@.skip(pos as int)[0] == path@[pos as int]);
    }
    let i = path[pos];
    let node = &rules[i];
    if path.len() == pos + 1 {
        proof {
            assert(path@.skip(pos as int).len() == 1);
        }
        node
    } else {
        proof {
            assert(path@.skip(pos as int).skip(1) =~= path@.skip(pos as int + 1));
        }
        match node {
            RuleNode::Media { children, .. } => node_ref(children, path, pos + 1),
            RuleNode::Supports { children, .. } => node_ref(children, path, pos + 1),
            _ => {
                proof {
                    assert(child_rules_of(node@) is Some);
                    assert(false);
                }
                node
            }
        }
    }
}

/// An exclusive borrow of the node that `path`, from position `pos` on,
/// leads to. The tree afterwards is the tree before with that node replaced
/// by whatever the caller leaves in the borrow.
pub fn node_mut<'a>(rules: &'a mut Vec<RuleNode>, path: &Vec<usize>, pos: usize) -> (r: &'a mut RuleNode)
    requires
        pos < path@.len(),
        node_at(nodes_view(old(rules)@), path@.skip(pos as int)) is Some,
    ensures
        (*r)@ == node_at(nodes_view(old(rules)@), path@.skip(pos as int)).unwrap(),
        nodes_view(final(rules)@) == set_node_at(
            nodes_view(old(rules)@),
            path@.skip(pos as int),
            (*final(r))@,
        ),
    decreases path@.len() - pos,
{
    broadcast use lemma_nodes_view_update;

    let ghost s0 = rules@;
    let ghost view0 = nodes_view(s0);
    let ghost tail = path@.skip(pos as int);
    proof {
        lemma_nodes_view(s0);
        assert(tail[0] == path@[pos as int]);
    }
    let i = path[pos];
    let node = &mut rules[i];
    if path.len() == pos + 1 {
        proof {
            assert(tail.len() == 1);
        }
        node
    } else {
        proof {
            assert(tail.skip(1) =~= path@.skip(pos as int + 1));
            assert((*node)@ == view0[i as int]);
        }
        match node {
            RuleNode::Media { children, .. } => {
                node_mut(children, path, pos + 1)
            }
            RuleNode::Supports { children, .. } => {
                node_mut(children, path, pos + 1)
            }
            _ => {
                proof {
                    assert(child_rules_of((*node)@) is Some);
                    assert(false);
                }
                node
            }
        }
    }
}


// ---------------------------------------------------------------------------
// Cloning nodes (for snapshots held by disconnected handles).
// ---------------------------------------------------------------------------


/// A copy of a keyframe with the same model.
pub fn clone_frame(f: &KeyframeNode) -> (r: KeyframeNode)
    ensures
        r@ == f@,
{
    KeyframeNode {
        selectors: engine::clone_kf_selectors(&f.selectors),
        block: engine::clone_block(&f.block),
    }
}

/// A copy of a rule node with the same model.
pub fn clone_node(n: &RuleNode) -> (r: RuleNode)
    ensures
        r@ == n@,
    decreases *n, 0int,
{
    match n {
        RuleNode::Style { style } => RuleNode::Style { style: engine::clone_style(style) },
        RuleNode::Media { queries, children } => {
            let mut qs: Vec<parcel_css::media_query::MediaQuery<'static>> = Vec::new();
            let mut k: usize = 0;
            while k < queries.len()
                invariant
                    k <= queries.len(),
                    qs@ == queries@.subrange(0, k as int),
                decreases queries.len() - k,
            {
                qs.push(engine::clone_query(&queries[k]));
                proof {
                    assert(qs@ =~= queries@.subrange(0, k + 1));
                }
                k = k + 1;
            }
            proof {
                assert(qs@ =~= queries@);
            }
            let cc = clone_nodes_from(children, 0);
            let r = RuleNode::Media { queries: qs, children: cc };
            proof {
                assert(nodes_view(cc@) =~= nodes_view(children@));
                assert(r@ =~= (*n)@);
            }
            r
        }
        RuleNode::Supports { condition, children } => {
            let cc = clone_nodes_from(children, 0);
            let r = RuleNode::Supports {
                condition: engine::clone_supports(condition),
                children: cc,
            };
            proof {
                assert(nodes_view(cc@) =~= nodes_view(children@));
                assert(r@ =~= (*n)@);
            }
            r
        }
        RuleNode::Keyframes { name, frames } => {
            let mut fs: Vec<KeyframeNode> = Vec::new();
            let mut k: usize = 0;
            while k < frames.len()
                invariant
                    k <= frames.len(),
                    fs@.len() == k,
                    forall|j: int| 0 <= j < k ==> fs@[j]@ == #[trigger] frames@[j]@,
                decreases frames.len() - k,
            {
                fs.push(clone_frame(&frames[k]));
                k = k + 1;
            }
            let r = RuleNode::Keyframes { name: name.clone(), frames: fs };
            proof {
                assert(frames_view(fs@) =~= frames_view(frames@));
                assert(r@ =~= (*n)@);
            }
            r
        }
        RuleNode::Other { kind, rule } => RuleNode::Other {
            kind: *kind,
            rule: engine::clone_raw_rule(rule),
        },
    }
}

/// A copy of the rule nodes from position `k` on, each with the same model.
pub fn clone_nodes_from(v: &Vec<RuleNode>, k: usize) -> (r: Vec<RuleNode>)
    requires
        k <= v@.len(),
    ensures
        nodes_view(r@) == nodes_view(v@).skip(k as int),
    decreases v@, (v@.len() - k),
{
    proof {
        lemma_nodes_view(v@);
        lemma_nodes_view(Seq::<RuleNode>::empty());
    }
    if k == v.len() {
        let r: Vec<RuleNode> = Vec::new();
        proof {
            assert(nodes_view(r@) =~= nodes_view(v@).skip(k as int));
        }
        r
    } else {
        let first = clone_node(&v[k]);
        let mut rest = clone_nodes_from(v, k + 1);
        let ghost rb = rest@;
        rest.insert(0, first);
        proof {
            lemma_nodes_view_insert(rb, 0, first);
            lemma_nodes_view(rb);
            assert forall|j: int| 0 <= j < v@.len() - k implies
                nodes_view(rb).insert(0, first@)[j] == nodes_view(v@).skip(k as int)[j] by {
                if j > 0 {
                    assert(nodes_view(rb)[j - 1] == nodes_view(v@).skip(k as int + 1)[j - 1]);
                }
            }
            assert(nodes_view(rb).insert(0, first@) =~= nodes_view(v@).skip(k as int));
        }
        rest
    }
}


// ---------------------------------------------------------------------------
// Parsing whole rules through the engine.
// ---------------------------------------------------------------------------

/// The rule the engine parses from `text`, if it accepts it, as a tree node.
pub uninterp spec fn parsed_rule(text: Seq<char>) -> Option<Node>;

/// The rule list the engine parses from a whole stylesheet's text, if it
/// accepts it.
pub uninterp spec fn parsed_sheet(text: Seq<char>) -> Option<Seq<Node>>;

/// The keyframe the engine parses from `text` (a selector list and a braced
/// declaration block), if it accepts it.
pub uninterp spec fn parsed_keyframe(text: Seq<char>) -> Option<Frame>;

/// Relies on CssRule::parse_string: parses one rule. Parsing depends on the
/// text alone.
#[verifier::external_body]
pub fn parse_rule_text(text: &str) -> (r: Option<RuleNode>)
    ensures
        match r {
            Some(n) => parsed_rule(text@) == Some(n@),
            None => parsed_rule(text@) is None,
        },
{
    let leaked: &'static str = Box::leak(String::from(text).into_boxed_str());
    let parsed = parcel_css::rules::CssRule::parse_string(
        leaked, parcel_css::stylesheet::ParserOptions::default()).ok()?;
    Some(node_from_engine(parsed))
}

/// Relies on StyleSheet::parse: parses a whole stylesheet into its rule
/// list. Parsing depends on the text alone.
#[verifier::external_body]
pub fn parse_sheet_text(text: &str) -> (r: Option<Vec<RuleNode>>)
    ensures
        match r {
            Some(v) => parsed_sheet(text@) == Some(nodes_view(v@)),
            None => parsed_sheet(text@) is None,
        },
{
    let leaked: &'static str = Box::leak(String::from(text).into_boxed_str());
    let sheet = parcel_css::stylesheet::StyleSheet::parse(
        leaked, parcel_css::stylesheet::ParserOptions::default()).ok()?;
    Some(sheet.rules.0.into_iter().map(node_from_engine).collect())
}

/// Relies on Parser::parse_until_before, parse_comma_separated over
/// KeyframeSelector::parse, and DeclarationBlock::parse: parses one keyframe
/// as its selector list and declaration block. Parsing depends on the text
/// alone.
#[verifier::external_body]
pub fn parse_keyframe_text(text: &str) -> (r: Option<KeyframeNode>)
    ensures
        match r {
            Some(k) => parsed_keyframe(text@) == Some(k@),
            None => parsed_keyframe(text@) is None,
        },
{
    let leaked: &'static str = Box::leak(String::from(text).into_boxed_str());
    let mut input = cssparser::ParserInput::new(leaked);
    let mut parser = cssparser::Parser::new(&mut input);
    let selectors = parser.parse_until_before(cssparser::Delimiter::CurlyBracketBlock,
        |i| i.parse_comma_separated(<parcel_css::rules::keyframes::KeyframeSelector as parcel_css::traits::Parse>::parse)).ok()?;
    parser.expect_curly_bracket_block().ok()?;
    let block = parser.parse_nested_block(
        |i| parcel_css::declaration::DeclarationBlock::parse(i, &parcel_css::stylesheet::ParserOptions::default())).ok()?;
    parser.expect_exhausted().ok()?;
    Some(KeyframeNode { selectors, block })
}

/// The conversion half of the parse wrappers: rebuilds an engine rule as a
/// tree node. Relies on the public fields of MediaRule, SupportsRule and
/// KeyframesRule.
#[verifier::external_body]
fn node_from_engine(r: parcel_css::rules::CssRule<'static>) -> RuleNode {
    match r {
        parcel_css::rules::CssRule::Style(s) => RuleNode::Style { style: s },
        parcel_css::rules::CssRule::Media(m) => RuleNode::Media {
            queries: m.query.media_queries,
            children: m.rules.0.into_iter().map(node_from_engine).collect() },
        parcel_css::rules::CssRule::Supports(s) => RuleNode::Supports {
            condition: s.condition,
            children: s.rules.0.into_iter().map(node_from_engine).collect() },
        parcel_css::rules::CssRule::Keyframes(k) => RuleNode::Keyframes {
            name: k.name.0.as_ref().to_owned(),
            frames: k.keyframes.into_iter().map(keyframe_from_engine).collect() },
        other => other_from_engine(other),
    }
}

/// The conversion half of the parse wrappers for one keyframe. Relies on the
/// public fields of Keyframe.
#[verifier::external_body]
fn keyframe_from_engine(k: parcel_css::rules::keyframes::Keyframe<'static>) -> KeyframeNode {
    KeyframeNode { selectors: k.selectors, block: k.declarations }
}

/// The conversion half of the parse wrappers for rule kinds this layer does
/// not model: tags the engine rule and carries it through.
#[verifier::external_body]
fn other_from_engine(r: parcel_css::rules::CssRule<'static>) -> RuleNode {
    let kind = match &r {
        parcel_css::rules::CssRule::Import(..) => OtherKind::Import,
        parcel_css::rules::CssRule::FontFace(..) => OtherKind::FontFace,
        parcel_css::rules::CssRule::Page(..) => OtherKind::Page,
        parcel_css::rules::CssRule::Namespace(..) => OtherKind::Namespace,
        parcel_css::rules::CssRule::CounterStyle(..) => OtherKind::CounterStyle,
        parcel_css::rules::CssRule::Viewport(..) => OtherKind::Viewport,
        _ => OtherKind::Unknown,
    };
    RuleNode::Other { kind, rule: r }
}


/// The tree after the sequence at `p` is replaced by `s2`.
pub open spec fn edit_model(m: Seq<Node>, p: Seq<usize>, s2: Seq<Node>) -> Seq<Node> {
    if p.len() == 0 {
        s2
    } else {
        set_node_at(m, p, with_children(node_at(m, p).unwrap(), s2))
    }
}

/// Replacing a node never changes a sequence's length, at any level.
pub proof fn lemma_set_len(s: Seq<Node>, p: Seq<usize>, n: Node)
    ensures
        set_node_at(s, p, n).len() == s.len(),
    decreases p.len(),
{
    if p.len() > 0 && (p[0] as int) < s.len() && p.len() > 1 {
        match child_rules_of(s[p[0] as int]) {
            Some(cs) => {
                lemma_set_len(cs, p.skip(1), n);
            }
            None => {}
        }
    }
}

/// Resolution only reads the head element and the tail path: equal heads and
/// equal tails resolve alike.
pub proof fn lemma_node_at_head(s1: Seq<Node>, q1: Seq<usize>, s2: Seq<Node>, q2: Seq<usize>)
    requires
        q1.len() > 0,
        q2.len() > 0,
        q1.skip(1) == q2.skip(1),
        (q1[0] as int) < s1.len(),
        (q2[0] as int) < s2.len(),
        s1[q1[0] as int] == s2[q2[0] as int],
    ensures
        node_at(s1, q1) == node_at(s2, q2),
{
    assert(q1.len() == q2.len()) by {
        assert(q1.skip(1).len() == q1.len() - 1);
        assert(q2.skip(1).len() == q2.len() - 1);
        assert(q1.skip(1).len() == q2.skip(1).len());
    }
}

/// Below a valid interior node, resolution descends into its child rules.
pub proof fn lemma_node_at_decompose(s: Seq<Node>, p: Seq<usize>, q: Seq<usize>)
    requires
        p.len() > 0,
        is_strict_prefix(p, q),
        node_at(s, p) is Some,
        child_rules_of(node_at(s, p).unwrap()) is Some,
    ensures
        node_at(s, q) == node_at(child_rules_of(node_at(s, p).unwrap()).unwrap(), q.skip(p.len() as int)),
    decreases p.len(),
{
    assert(q[0] == p[0]) by {
        assert(q.subrange(0, p.len() as int)[0] == q[0]);
    }
    if p.len() == 1 {
        assert(q.skip(1) =~= q.skip(p.len() as int));
    } else {
        let cs = child_rules_of(s[p[0] as int]).unwrap();
        assert(is_strict_prefix(p.skip(1), q.skip(1))) by {
            assert(q.subrange(0, p.len() as int).skip(1) =~= q.skip(1).subrange(0, p.len() - 1));
            assert(q.subrange(0, p.len() as int).skip(1) =~= p.skip(1));
        }
        lemma_node_at_decompose(cs, p.skip(1), q.skip(1));
        assert(q.skip(1).skip(p.len() - 1) =~= q.skip(p.len() as int));
    }
}

/// A valid path is bounded at every level: below a valid prefix `p`, the next
/// component indexes into the sequence at `p`.
pub proof fn lemma_node_at_prefix_bound(s: Seq<Node>, p: Seq<usize>, q: Seq<usize>)
    requires
        is_strict_prefix(p, q),
        node_at(s, q) is Some,
    ensures
        rules_at(s, p) is Some,
        (q[p.len() as int] as int) < rules_at(s, p).unwrap().len(),
        p.len() > 0 ==> node_at(s, p) is Some && child_rules_of(node_at(s, p).unwrap()) is Some,
    decreases p.len(),
{
    if p.len() == 0 {
        assert((q[0] as int) < s.len());
    } else {
        assert(q[0] == p[0]) by {
            assert(q.subrange(0, p.len() as int)[0] == q[0]);
        }
        assert(q.len() > 1);
        assert((q[0] as int) < s.len());
        let cs = child_rules_of(s[q[0] as int]).unwrap();
        assert(is_strict_prefix(p.skip(1), q.skip(1))) by {
            assert(q.subrange(0, p.len() as int).skip(1) =~= q.skip(1).subrange(0, p.len() - 1));
            assert(q.subrange(0, p.len() as int).skip(1) =~= p.skip(1));
        }
        lemma_node_at_prefix_bound(cs, p.skip(1), q.skip(1));
        assert(q.skip(1)[p.len() - 1] == q[p.len() as int]);
        if p.len() == 1 {
            assert(node_at(s, p) == Some(s[p[0] as int]));
        } else {
            assert(node_at(s, p) == node_at(cs, p.skip(1)));
        }
    }
}


/// How replacing the sequence at `p` by `s2` shows through at another path
/// `q`: the sequence at `p` becomes `s2`; an ancestor of `p` keeps a
/// sequence of the same length; any other valid path, with its component
/// under `p` re-pointed to a slot `j2` of `s2` holding the same node,
/// resolves to the same node as before.
pub proof fn lemma_view_after_edit(m: Seq<Node>, p: Seq<usize>, s2: Seq<Node>, q: Seq<usize>, j2: usize)
    requires
        rules_at(m, p) is Some,
        q != p,
        is_strict_prefix(p, q) && q.len() > 0 && node_at(m, q) is Some ==> {
            let j = q[p.len() as int];
            &&& (j2 as int) < s2.len()
            &&& s2[j2 as int] == rules_at(m, p).unwrap()[j as int]
        },
    ensures
        rules_at(edit_model(m, p, s2), p) == Some(s2),
        is_strict_prefix(q, p) ==> rules_at(m, q) is Some
            && rules_at(edit_model(m, p, s2), q) is Some
            && rules_at(edit_model(m, p, s2), q).unwrap().len() == rules_at(m, q).unwrap().len(),
        q.len() > 0 && node_at(m, q) is Some && !is_strict_prefix(q, p) && !is_strict_prefix(p, q)
            ==> node_at(edit_model(m, p, s2), q) == node_at(m, q),
        q.len() > 0 && node_at(m, q) is Some && is_strict_prefix(p, q)
            ==> node_at(edit_model(m, p, s2), q.update(p.len() as int, j2)) == node_at(m, q),
{
    let m2 = edit_model(m, p, s2);
    if p.len() == 0 {
        assert(rules_at(m2, p) == Some(s2));
        if q.len() > 0 && node_at(m, q) is Some {
            assert(is_strict_prefix(p, q)) by {
                assert(q.subrange(0, 0) =~= p);
            }
            let q2 = q.update(0, j2);
            assert(q2.skip(1) =~= q.skip(1));
            assert((q[0] as int) < m.len());
            lemma_node_at_head(s2, q2, m, q);
        }
    } else {
        let n0 = node_at(m, p).unwrap();
        let n2 = with_children(n0, s2);
        assert(child_rules_of(n0) is Some);
        assert(child_rules_of(n2) == Some(s2));
        lemma_set_node_at(m, p, n2, p);
        assert(rules_at(m2, p) == Some(s2));
        if is_strict_prefix(q, p) {
            lemma_node_at_prefix_bound(m, q, p);
            if q.len() == 0 {
                lemma_set_len(m, p, n2);
            } else {
                lemma_set_node_at(m, p, n2, q);
                let nq = node_at(m, q).unwrap();
                let csq = child_rules_of(nq).unwrap();
                assert(node_at(m2, q) == Some(with_children(nq, set_node_at(csq, p.skip(q.len() as int), n2))));
                assert(child_rules_of(with_children(nq, set_node_at(csq, p.skip(q.len() as int), n2)))
                    == Some(set_node_at(csq, p.skip(q.len() as int), n2)));
                lemma_set_len(csq, p.skip(q.len() as int), n2);
            }
        } else if q.len() > 0 && node_at(m, q) is Some {
            if is_strict_prefix(p, q) {
                let j = q[p.len() as int];
                let q2 = q.update(p.len() as int, j2);
                assert(is_strict_prefix(p, q2)) by {
                    assert(q2.subrange(0, p.len() as int) =~= q.subrange(0, p.len() as int));
                }
                assert(q2 != p);
                assert(!is_strict_prefix(q2, p));
                lemma_set_node_at(m, p, n2, q2);
                assert(node_at(m2, q2) == node_at(s2, q2.skip(p.len() as int)));
                lemma_node_at_decompose(m, p, q);
                let cs0 = child_rules_of(n0).unwrap();
                assert(node_at(m, q) == node_at(cs0, q.skip(p.len() as int)));
                lemma_node_at_prefix_bound(m, p, q);
                assert((j as int) < cs0.len());
                assert(q2.skip(p.len() as int).skip(1) =~= q.skip(p.len() as int).skip(1)) by {
                    assert forall|k: int| 0 <= k < q.len() - p.len() - 1 implies
                        q2.skip(p.len() as int).skip(1)[k] == q.skip(p.len() as int).skip(1)[k] by {
                        assert(q2.skip(p.len() as int).skip(1)[k] == q2[p.len() + 1 + k]);
                        assert(q.skip(p.len() as int).skip(1)[k] == q[p.len() + 1 + k]);
                    }
                }
                assert(q2.skip(p.len() as int)[0] == j2);
                assert(q.skip(p.len() as int)[0] == j);
                lemma_node_at_head(s2, q2.skip(p.len() as int), cs0, q.skip(p.len() as int));
            } else {
                lemma_set_node_at(m, p, n2, q);
            }
        }
    }
}


/// One step down: the path to slot `i` of the sequence at `p` leads to that
/// slot's node.
pub proof fn lemma_node_at_push(s: Seq<Node>, p: Seq<usize>, i: usize)
    requires
        rules_at(s, p) is Some,
        (i as int) < rules_at(s, p).unwrap().len(),
    ensures
        node_at(s, p.push(i)) == Some(rules_at(s, p).unwrap()[i as int]),
    decreases p.len(),
{
    if p.len() == 0 {
        assert(p.push(i)[0] == i);
    } else {
        let cs = child_rules_of(s[p[0] as int]).unwrap();
        if p.len() == 1 {
            assert(p.push(i).skip(1) =~= seq![i]);
            assert(node_at(cs, seq![i]) == Some(cs[i as int]));
        } else {
            assert(rules_at(cs, p.skip(1)) == rules_at(s, p)) by {
                assert(node_at(s, p) == node_at(cs, p.skip(1)));
            }
            lemma_node_at_push(cs, p.skip(1), i);
            assert(p.push(i).skip(1) =~= p.skip(1).push(i));
        }
    }
}

// ---------------------------------------------------------------------------
// Serialization: the text of a rule, composed from the engine's printers for
// the leaf values, with nested rule lists laid out in braces.
// ---------------------------------------------------------------------------

/// The text of a media query list: the queries joined by ", ".
pub open spec fn media_text_from(qs: Seq<parcel_css::media_query::MediaQuery<'static>>, k: int) -> Seq<char>
    decreases qs.len() - k,
{
    if k < 0 || k >= qs.len() {
        Seq::empty()
    } else if k == qs.len() - 1 {
        engine::query_css_text(qs[k])
    } else {
        engine::query_css_text(qs[k]) + ", "@ + media_text_from(qs, k + 1)
    }
}

/// The text of a keyframe selector list: the selectors joined by ", ".
pub open spec fn key_text_from(sels: Seq<parcel_css::rules::keyframes::KeyframeSelector>, k: int) -> Seq<char>
    decreases sels.len() - k,
{
    if k < 0 || k >= sels.len() {
        Seq::empty()
    } else if k == sels.len() - 1 {
        engine::kf_selector_css_text(sels[k])
    } else {
        engine::kf_selector_css_text(sels[k]) + ", "@ + key_text_from(sels, k + 1)
    }
}

/// The text of one keyframe: its selector list and its braced declarations.
pub open spec fn frame_text_of(f: Frame) -> Seq<char> {
    key_text_from(f.selectors, 0) + " { "@ + engine::block_css_text(f.block) + " }"@
}

/// The text of a keyframe list: the keyframes joined by " ".
pub open spec fn frames_text_from(fs: Seq<Frame>, k: int) -> Seq<char>
    decreases fs.len() - k,
{
    if k < 0 || k >= fs.len() {
        Seq::empty()
    } else if k == fs.len() - 1 {
        frame_text_of(fs[k])
    } else {
        frame_text_of(fs[k]) + " "@ + frames_text_from(fs, k + 1)
    }
}

/// The text of one rule.
pub open spec fn css_text_of(n: Node) -> Seq<char>
    decreases n, 0int,
{
    match n {
        Node::Style { style } => engine::style_css_text(style),
        Node::Media { queries, children } =>
            "@media "@ + media_text_from(queries, 0) + " { "@ + rules_text_from(children, 0) + " }"@,
        Node::Supports { condition, children } =>
            "@supports "@ + engine::supports_css_text(condition) + " { "@ + rules_text_from(children, 0) + " }"@,
        Node::Keyframes { name, frames } =>
            "@keyframes "@ + name + " { "@ + frames_text_from(frames, 0) + " }"@,
        Node::Other { rule, .. } => engine::raw_css_text(rule),
    }
}

/// The text of a rule list: the rules joined by " ".
pub open spec fn rules_text_from(s: Seq<Node>, k: int) -> Seq<char>
    decreases s, (s.len() - k),
{
    if k < 0 || k >= s.len() {
        Seq::empty()
    } else if k == s.len() - 1 {
        css_text_of(s[k])
    } else {
        css_text_of(s[k]) + " "@ + rules_text_from(s, k + 1)
    }
}

/// Prints a media query list.
pub fn media_text_str_from(qs: &Vec<parcel_css::media_query::MediaQuery<'static>>, k: usize) -> (r: String)
    requires
        k <= qs@.len(),
    ensures
        r@ == media_text_from(qs@, k as int),
    decreases qs@.len() - k,
{
    if k == qs.len() {
        String::new()
    } else if k + 1 == qs.len() {
        engine::query_text(&qs[k])
    } else {
        let mut out = engine::query_text(&qs[k]);
        out.append(", ");
        out.append(media_text_str_from(qs, k + 1).as_str());
        out
    }
}

/// Prints a keyframe selector list.
pub fn key_text_str_from(sels: &Vec<parcel_css::rules::keyframes::KeyframeSelector>, k: usize) -> (r: String)
    requires
        k <= sels@.len(),
    ensures
        r@ == key_text_from(sels@, k as int),
    decreases sels@.len() - k,
{
    if k == sels.len() {
        String::new()
    } else if k + 1 == sels.len() {
        engine::kf_selector_text(&sels[k])
    } else {
        let mut out = engine::kf_selector_text(&sels[k]);
        out.append(", ");
        out.append(key_text_str_from(sels, k + 1).as_str());
        out
    }
}

/// Prints one keyframe.
pub fn frame_text_str(f: &KeyframeNode) -> (r: String)
    ensures
        r@ == frame_text_of(f@),
{
    let mut out = key_text_str_from(&f.selectors, 0);
    out.append(" { ");
    out.append(engine::block_css_text_str(&f.block).as_str());
    out.append(" }");
    out
}

/// Prints a keyframe list.
pub fn frames_text_str_from(fs: &Vec<KeyframeNode>, k: usize) -> (r: String)
    requires
        k <= fs@.len(),
    ensures
        r@ == frames_text_from(frames_view(fs@), k as int),
    decreases fs@.len() - k,
{
    if k == fs.len() {
        String::new()
    } else if k + 1 == fs.len() {
        frame_text_str(&fs[k])
    } else {
        let mut out = frame_text_str(&fs[k]);
        out.append(" ");
        out.append(frames_text_str_from(fs, k + 1).as_str());
        out
    }
}

/// Prints one rule.
pub fn css_text_node(n: &RuleNode) -> (r: String)
    ensures
        r@ == css_text_of(n@),
    decreases *n, 0int,
{
    match n {
        RuleNode::Style { style } => engine::style_css_text_str(style),
        RuleNode::Media { queries, children } => {
            let mut out = String::from_str("@media ");
            out.append(media_text_str_from(queries, 0).as_str());
            out.append(" { ");
            out.append(rules_text_str_from(children, 0).as_str());
            out.append(" }");
            out
        }
        RuleNode::Supports { condition, children } => {
            let mut out = String::from_str("@supports ");
            out.append(engine::supports_text(condition).as_str());
            out.append(" { ");
            out.append(rules_text_str_from(children, 0).as_str());
            out.append(" }");
            out
        }
        RuleNode::Keyframes { name, frames } => {
            let mut out = String::from_str("@keyframes ");
            out.append(name.as_str());
            out.append(" { ");
            out.append(frames_text_str_from(frames, 0).as_str());
            out.append(" }");
            out
        }
        RuleNode::Other { rule, .. } => engine::raw_css_text_str(rule),
    }
}

/// Prints a rule list.
pub fn rules_text_str_from(v: &Vec<RuleNode>, k: usize) -> (r: String)
    requires
        k <= v@.len(),
    ensures
        r@ == rules_text_from(nodes_view(v@), k as int),
    decreases v@, (v@.len() - k),
{
    proof {
        lemma_nodes_view(v@);
    }
    if k == v.len() {
        String::new()
    } else if k + 1 == v.len() {
        css_text_node(&v[k])
    } else {
        let mut out = css_text_node(&v[k]);
        out.append(" ");
        out.append(rules_text_str_from(v, k + 1).as_str());
        out
    }
}


/// Replacing a node by itself changes nothing.
pub proof fn lemma_set_same(s: Seq<Node>, p: Seq<usize>)
    requires
        node_at(s, p) is Some,
    ensures
        set_node_at(s, p, node_at(s, p).unwrap()) == s,
    decreases p.len(),
{
    if p.len() > 0 && (p[0] as int) < s.len() {
        if p.len() == 1 {
            assert(s.update(p[0] as int, s[p[0] as int]) =~= s);
        } else {
            match child_rules_of(s[p[0] as int]) {
                Some(cs) => {
                    lemma_set_same(cs, p.skip(1));
                    assert(with_children(s[p[0] as int], cs) == s[p[0] as int]) by {
                        assert(with_children(s[p[0] as int], child_rules_of(s[p[0] as int]).unwrap())
                            =~= s[p[0] as int]);
                    }
                    assert(s.update(p[0] as int, s[p[0] as int]) =~= s);
                }
                None => {}
            }
        }
    }
}

} // verus!
