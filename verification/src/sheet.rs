//! The stylesheet: one owned rule tree, sequence views over its sequences,
//! and identity-stable handles onto individual rules.
//!
//! A `Stylesheet` owns everything: the tree, the table of sequence views
//! (each a path into the tree plus an identity cache), and the table of
//! handles. Callers hold view and handle identifiers — plain indices into
//! those tables — never locations into storage. A handle is `Connected`
//! while its slot exists; removing its rule, removing an enclosing rule, or
//! replacing the whole tree turns it `Disconnected` with an owned snapshot,
//! which stays readable forever. Index bookkeeping on insert and delete runs
//! through the caches and handle records before a mutating call returns, so
//! no caller ever observes a stale mapping.

use vstd::prelude::*;
use crate::tree::{
    RuleNode, KeyframeNode, Node, Frame, nodes_view, frames_view, lemma_nodes_view,
    lemma_nodes_view_update, lemma_nodes_view_insert, lemma_nodes_view_remove,
    child_rules_of, frames_of, with_children, node_at, rules_at, frames_at,
    set_node_at, is_strict_prefix, lemma_set_node_at, lemma_view_after_edit, edit_model, node_ref, node_mut,
    clone_node, clone_frame, parsed_rule, parsed_sheet, parsed_keyframe,
    parse_rule_text, parse_sheet_text, parse_keyframe_text, OtherKind,
    css_text_of, frame_text_of, media_text_from, key_text_from,
    css_text_node, frame_text_str, media_text_str_from, key_text_str_from,
    lemma_node_at_push,
};
use crate::engine;

verus! {

/// Why an operation was refused.
#[derive(Clone, Copy, PartialEq, Eq, Structural, Debug)]
pub enum CssomError {
    /// The engine rejected the input text.
    Syntax,
    /// An index argument lay outside the sequence.
    OutOfRange,
    /// A delete-by-value operation found no match.
    NotFound,
    /// The addressed sequence belongs to a rule no longer in the tree.
    Detached,
}

impl CssomError {
    /// A stable, human-readable message for the error.
    pub fn message(&self) -> (r: &'static str)
        ensures
            *self is OutOfRange ==> r@ == "Index out of bounds"@,
            *self is NotFound ==> r@ == "Rule not found"@,
            *self is Syntax ==> r@ == "Syntax error"@,
            *self is Detached ==> r@ == "Rule is detached"@,
    {
        match self {
            CssomError::Syntax => "Syntax error",
            CssomError::OutOfRange => "Index out of bounds",
            CssomError::NotFound => "Rule not found",
            CssomError::Detached => "Rule is detached",
        }
    }
}

/// The owned value a handle keeps after disconnection.
pub enum Snapshot {
    /// A rule (of any kind).
    Rule(RuleNode),
    /// A single keyframe.
    Frame(KeyframeNode),
}

/// The model of a snapshot.
#[verifier::ext_equal]
pub enum SnapModel {
    /// A rule.
    Rule(Node),
    /// A single keyframe.
    Frame(Frame),
}

impl View for Snapshot {
    type V = SnapModel;

    open spec fn view(&self) -> SnapModel {
        match self {
            Snapshot::Rule(n) => SnapModel::Rule(n@),
            Snapshot::Frame(f) => SnapModel::Frame(f@),
        }
    }
}

/// A handle's lifecycle state.
pub enum HandleState {
    /// Backed by a slot of a sequence view.
    Connected { view: usize, index: usize },
    /// Holding an owned snapshot of its former rule; terminal.
    Disconnected { snapshot: Snapshot },
}

/// One materialized handle.
pub struct HandleRecord {
    /// Connected or Disconnected.
    pub state: HandleState,
    /// The handle of the enclosing grouping or keyframes rule, if any.
    pub parent: Option<usize>,
}

/// One sequence view: a path into the tree plus the identity cache that
/// enforces one handle identity per occupied index.
pub struct ViewRecord {
    /// Child indices from the tree root to the owning rule (empty: the
    /// top-level sequence).
    pub path: Vec<usize>,
    /// Whether the addressed sequence is a keyframe list.
    pub frames: bool,
    /// Whether the owning rule is still in the tree.
    pub alive: bool,
    /// index -> materialized handle, in lockstep with the sequence.
    pub cache: Vec<Option<usize>>,
    /// The handle of the owning rule (None for the top-level sequence).
    pub parent: Option<usize>,
}

/// Whether view `v` resolves in tree model `m`.
pub open spec fn view_ok(m: Seq<Node>, v: ViewRecord) -> bool {
    if v.frames {
        frames_at(m, v.path@) is Some
    } else {
        rules_at(m, v.path@) is Some
    }
}

/// The length of the sequence view `v` addresses in tree model `m`.
pub open spec fn view_len(m: Seq<Node>, v: ViewRecord) -> nat {
    if v.frames {
        frames_at(m, v.path@).unwrap().len()
    } else {
        rules_at(m, v.path@).unwrap().len()
    }
}


/// The path `q` after an insert at `index` of the sequence at `p`: its
/// component under `p` moves up by one when the insert shifted it.
pub open spec fn bumped_path(q: Seq<usize>, p: Seq<usize>, index: usize) -> Seq<usize> {
    if is_strict_prefix(p, q) && q[p.len() as int] >= index {
        q.update(p.len() as int, (q[p.len() as int] + 1) as usize)
    } else {
        q
    }
}

/// An owned copy of a path.
fn copy_usizes(v: &Vec<usize>) -> (r: Vec<usize>)
    ensures
        r@ == v@,
{
    let mut r: Vec<usize> = Vec::new();
    let mut k: usize = 0;
    while k < v.len()
        invariant
            k <= v@.len(),
            r@ == v@.subrange(0, k as int),
        decreases v@.len() - k,
    {
        r.push(v[k]);
        proof {
            assert(r@ =~= v@.subrange(0, k + 1));
        }
        k = k + 1;
    }
    proof {
        assert(r@ =~= v@);
    }
    r
}

/// Whether `p` is a proper prefix of `q`, as paths.
fn path_extends(p: &Vec<usize>, q: &Vec<usize>) -> (r: bool)
    ensures
        r == is_strict_prefix(p@, q@),
{
    if p.len() >= q.len() {
        return false;
    }
    let mut k: usize = 0;
    while k < p.len()
        invariant
            k <= p@.len(),
            p@.len() < q@.len(),
            forall|t: int| 0 <= t < k ==> q@[t] == p@[t],
        decreases p@.len() - k,
    {
        if q[k] != p[k] {
            proof {
                assert(q@.subrange(0, p@.len() as int)[k as int] == q@[k as int]);
            }
            return false;
        }
        k = k + 1;
    }
    proof {
        assert(q@.subrange(0, p@.len() as int) =~= p@);
    }
    true
}


/// Whether a view path addresses a sequence inside the rule at slot `index`
/// of the sequence at `p` — the views that die when that rule is removed.
pub open spec fn inside_removed(q: Seq<usize>, p: Seq<usize>, index: usize) -> bool {
    is_strict_prefix(p, q) && q[p.len() as int] == index
}

/// The path `q` after a removal at `index` of the sequence at `p`: its
/// component under `p` moves down by one when the removal shifted it.
pub open spec fn dropped_path(q: Seq<usize>, p: Seq<usize>, index: usize) -> Seq<usize> {
    if is_strict_prefix(p, q) && q[p.len() as int] > index {
        q.update(p.len() as int, (q[p.len() as int] - 1) as usize)
    } else {
        q
    }
}


/// Two different surviving paths stay different after the removal re-points
/// their components under `p`.
proof fn lemma_dropped_path_injective(q1: Seq<usize>, q2: Seq<usize>, p: Seq<usize>, index: usize)
    requires
        q1 != q2,
        !inside_removed(q1, p, index),
        !inside_removed(q2, p, index),
    ensures
        dropped_path(q1, p, index) != dropped_path(q2, p, index),
{
    let f1 = dropped_path(q1, p, index);
    let f2 = dropped_path(q2, p, index);
    if f1 == f2 {
        assert(f1.len() == q1.len() && f2.len() == q2.len());
        if is_strict_prefix(p, q1) && q1[p.len() as int] > index {
            assert(is_strict_prefix(p, f1)) by {
                assert(f1.subrange(0, p.len() as int) =~= q1.subrange(0, p.len() as int));
            }
        } else {
            assert(f1 == q1);
        }
        if is_strict_prefix(p, q2) && q2[p.len() as int] > index {
            assert(is_strict_prefix(p, f2)) by {
                assert(f2.subrange(0, p.len() as int) =~= q2.subrange(0, p.len() as int));
            }
        } else {
            assert(f2 == q2);
        }
        assert forall|t: int| 0 <= t < q1.len() implies q1[t] == q2[t] by {
            if is_strict_prefix(p, q1) && q1[p.len() as int] > index {
                if is_strict_prefix(p, q2) && q2[p.len() as int] > index {
                    if t == p.len() as int {
                        assert(f1[t] == q1[t] - 1 && f2[t] == q2[t] - 1);
                    } else {
                        assert(f1[t] == q1[t] && f2[t] == q2[t]);
                    }
                } else {
                    if t == p.len() as int {
                        assert(f2[t] == q2[t]);
                        assert(is_strict_prefix(p, q2)) by {
                            assert(q2.subrange(0, p.len() as int) =~= f2.subrange(0, p.len() as int));
                            assert(f2.subrange(0, p.len() as int) =~= f1.subrange(0, p.len() as int));
                            assert(f1.subrange(0, p.len() as int) =~= q1.subrange(0, p.len() as int));
                            assert(q1.subrange(0, p.len() as int) == p);
                        }
                        assert(q2[t] < index);
                        assert(q2[t] == q1[t] - 1);
                        assert(false);
                    } else {
                        assert(f1[t] == q1[t] && f2[t] == q2[t]);
                    }
                }
            } else {
                assert(f1 == q1);
                if is_strict_prefix(p, q2) && q2[p.len() as int] > index {
                    if t == p.len() as int {
                        assert(is_strict_prefix(p, q1)) by {
                            assert(q1.subrange(0, p.len() as int) =~= f1.subrange(0, p.len() as int));
                            assert(f1.subrange(0, p.len() as int) =~= f2.subrange(0, p.len() as int));
                            assert(f2.subrange(0, p.len() as int) =~= q2.subrange(0, p.len() as int));
                            assert(q2.subrange(0, p.len() as int) == p);
                        }
                        assert(q1[t] < index);
                        assert(q1[t] == q2[t] - 1);
                        assert(false);
                    } else {
                        assert(f1[t] == q1[t] && f2[t] == q2[t]);
                    }
                } else {
                    assert(f2 == q2);
                }
            }
        }
        assert(q1 =~= q2);
    }
}


/// The tree model after removing slot `index` of the sequence at `p` (a rule
/// sequence, or a keyframe list when `fr`).
pub open spec fn removed_model(m: Seq<Node>, p: Seq<usize>, index: usize, fr: bool) -> Seq<Node> {
    if fr {
        set_node_at(m, p, Node::Keyframes {
            name: node_at(m, p).unwrap()->Keyframes_name,
            frames: frames_at(m, p).unwrap().remove(index as int),
        })
    } else if p.len() == 0 {
        m.remove(index as int)
    } else {
        set_node_at(m, p, with_children(node_at(m, p).unwrap(), rules_at(m, p).unwrap().remove(index as int)))
    }
}

/// How removing a slot of the sequence at `p` shows through at a surviving
/// view path `q`: re-pointed under `p`, it addresses the same sequence as
/// before; an ancestor of `p` keeps its length.
proof fn lemma_view_after_delete(m: Seq<Node>, p: Seq<usize>, index: usize, fr: bool, q: Seq<usize>, qfr: bool)
    requires
        fr ==> p.len() > 0 && frames_at(m, p) is Some
            && (index as nat) < frames_at(m, p).unwrap().len(),
        !fr ==> rules_at(m, p) is Some && (index as nat) < rules_at(m, p).unwrap().len(),
        q != p,
        !inside_removed(q, p, index),
        qfr ==> frames_at(m, q) is Some,
        !qfr ==> rules_at(m, q) is Some,
    ensures
        ({
            let mf = removed_model(m, p, index, fr);
            let qf = dropped_path(q, p, index);
            &&& (!is_strict_prefix(q, p) && qfr ==> frames_at(mf, qf) == frames_at(m, q))
            &&& (!is_strict_prefix(q, p) && !qfr ==> rules_at(mf, qf) == rules_at(m, q))
            &&& (is_strict_prefix(q, p) ==> !qfr && qf == q && rules_at(mf, q) is Some
                    && rules_at(mf, q).unwrap().len() == rules_at(m, q).unwrap().len())
        }),
{
    let mf = removed_model(m, p, index, fr);
    let qf = dropped_path(q, p, index);
    let n2 = if fr {
        Node::Keyframes {
            name: node_at(m, p).unwrap()->Keyframes_name,
            frames: frames_at(m, p).unwrap().remove(index as int),
        }
    } else {
        with_children(node_at(m, p).unwrap(), rules_at(m, p).unwrap().remove(index as int))
    };
    if is_strict_prefix(q, p) {
        assert(p.len() > 0);
        assert(qf == q);
        crate::tree::lemma_node_at_prefix_bound(m, q, p);
        if qfr {
            assert(false);
        }
        if q.len() == 0 {
            if fr {
                crate::tree::lemma_set_len(m, p, n2);
            } else {
                crate::tree::lemma_set_len(m, p, n2);
            }
        } else {
            lemma_set_node_at(m, p, n2, q);
            crate::tree::lemma_set_len(
                child_rules_of(node_at(m, q).unwrap()).unwrap(),
                p.skip(q.len() as int), n2);
        }
    } else if is_strict_prefix(p, q) {
        let jj = q[p.len() as int];
        assert(q.len() > 0);
        assert(node_at(m, q) is Some);
        crate::tree::lemma_node_at_prefix_bound(m, p, q);
        assert(!fr) by {
            if fr {
                assert(rules_at(m, p) is Some);
                assert(frames_at(m, p) is Some);
            }
        }
        let s = rules_at(m, p).unwrap();
        let s2 = s.remove(index as int);
        assert(jj != index);
        let jj2: usize = if jj > index { (jj - 1) as usize } else { jj };
        assert(s2[jj2 as int] == s[jj as int]);
        lemma_view_after_edit(m, p, s2, q, jj2);
        assert(qf == q.update(p.len() as int, jj2));
        assert(node_at(mf, qf) == node_at(m, q));
    } else {
        assert(qf == q);
        assert(q.len() > 0) by {
            if q.len() == 0 {
                assert(p.len() > 0) by {
                    if p.len() == 0 {
                        assert(p =~= q);
                    }
                }
                assert(p.subrange(0, 0) =~= q);
                assert(is_strict_prefix(p, q) || is_strict_prefix(q, p));
            }
        }
        assert(node_at(m, q) is Some);
        assert(p.len() > 0) by {
            if p.len() == 0 {
                assert(q.subrange(0, 0) =~= p);
                assert(is_strict_prefix(p, q));
            }
        }
        lemma_set_node_at(m, p, n2, q);
        assert(node_at(mf, q) == node_at(m, q));
    }
}


/// A node edit that keeps the node's child rules and does not shorten its
/// keyframe list preserves well-formedness: every view still resolves to a
/// sequence at least as long as its cache.
proof fn lemma_wf_after_node_edit(pre: Stylesheet, cur: Stylesheet, np: Seq<usize>)
    requires
        pre.wf(),
        cur.views == pre.views,
        cur.handles == pre.handles,
        np.len() > 0,
        node_at(pre.model(), np) is Some,
        exists|n2: Node| {
            &&& cur.model() == #[trigger] set_node_at(pre.model(), np, n2)
            &&& child_rules_of(n2) == child_rules_of(node_at(pre.model(), np).unwrap())
            &&& (frames_of(n2) is Some <==> frames_of(node_at(pre.model(), np).unwrap()) is Some)
            &&& (frames_of(node_at(pre.model(), np).unwrap()) is Some
                    ==> frames_of(n2).unwrap().len()
                        >= frames_of(node_at(pre.model(), np).unwrap()).unwrap().len())
        },
    ensures
        cur.wf(),
{
    let m = pre.model();
    let n0 = node_at(m, np).unwrap();
    let n2 = choose|n2: Node| {
        &&& cur.model() == #[trigger] set_node_at(m, np, n2)
        &&& child_rules_of(n2) == child_rules_of(n0)
        &&& (frames_of(n2) is Some <==> frames_of(n0) is Some)
        &&& (frames_of(n0) is Some
                ==> frames_of(n2).unwrap().len() >= frames_of(n0).unwrap().len())
    };
    let mf = cur.model();
    assert forall|x: int| 0 <= x < cur.views@.len() && (#[trigger] cur.views@[x]).alive implies
        view_ok(mf, cur.views@[x])
            && cur.views@[x].cache@.len() <= view_len(mf, cur.views@[x]) by {
        let q = pre.views@[x].path@;
        assert(pre.views@[x].alive);
        assert(view_ok(m, pre.views@[x]));
        if q == np {
            lemma_set_node_at(m, np, n2, np);
            assert(node_at(mf, np) == Some(n2));
        } else if is_strict_prefix(q, np) {
            crate::tree::lemma_node_at_prefix_bound(m, q, np);
            if pre.views@[x].frames {
                assert(false);
            }
            if q.len() == 0 {
                crate::tree::lemma_set_len(m, np, n2);
            } else {
                lemma_set_node_at(m, np, n2, q);
                crate::tree::lemma_set_len(
                    child_rules_of(node_at(m, q).unwrap()).unwrap(),
                    np.skip(q.len() as int), n2);
            }
        } else if is_strict_prefix(np, q) {
            assert(q.len() > 0);
            if pre.views@[x].frames {
                assert(frames_at(m, q) is Some);
            } else {
                assert(rules_at(m, q) is Some);
            }
            assert(node_at(m, q) is Some);
            assert(child_rules_of(n0) is Some) by {
                crate::tree::lemma_node_at_prefix_bound(m, np, q);
            }
            lemma_set_node_at(m, np, n2, q);
            crate::tree::lemma_node_at_decompose(m, np, q);
            assert(node_at(mf, q) == node_at(m, q));
        } else {
            assert(q.len() > 0) by {
                if q.len() == 0 {
                    assert(np.subrange(0, 0) =~= q);
                    assert(is_strict_prefix(q, np));
                }
            }
            if pre.views@[x].frames {
                assert(frames_at(m, q) is Some);
            } else {
                assert(rules_at(m, q) is Some);
            }
            assert(node_at(m, q) is Some);
            lemma_set_node_at(m, np, n2, q);
            assert(node_at(mf, q) == node_at(m, q));
        }
    }
    assert(cur.wf());
}


/// Whether two paths are the same sequence of indices.
fn paths_equal(a: &Vec<usize>, b: &Vec<usize>) -> (r: bool)
    ensures
        r == (a@ == b@),
{
    if a.len() != b.len() {
        proof {
            assert(a@ != b@);
        }
        return false;
    }
    let mut k: usize = 0;
    while k < a.len()
        invariant
            k <= a@.len(),
            a@.len() == b@.len(),
            forall|t: int| 0 <= t < k ==> a@[t] == b@[t],
        decreases a@.len() - k,
    {
        if a[k] != b[k] {
            return false;
        }
        k = k + 1;
    }
    proof {
        assert(a@ =~= b@);
    }
    true
}


/// Whether two keyframe selector lists are elementwise equal, under the
/// engine's own comparison.
pub open spec fn kf_lists_equal(
    a: Seq<parcel_css::rules::keyframes::KeyframeSelector>,
    b: Seq<parcel_css::rules::keyframes::KeyframeSelector>,
) -> bool {
    a.len() == b.len() && (forall|j: int| 0 <= j < a.len()
        ==> engine::kf_selector_eq_of(#[trigger] a[j], b[j]))
}

/// Compares two keyframe selector lists with the engine's comparison.
fn kf_lists_eq(
    a: &Vec<parcel_css::rules::keyframes::KeyframeSelector>,
    b: &Vec<parcel_css::rules::keyframes::KeyframeSelector>,
) -> (r: bool)
    ensures
        r == kf_lists_equal(a@, b@),
{
    if a.len() != b.len() {
        return false;
    }
    let mut k: usize = 0;
    while k < a.len()
        invariant
            k <= a@.len(),
            a@.len() == b@.len(),
            forall|j: int| 0 <= j < k ==> engine::kf_selector_eq_of(#[trigger] a@[j], b@[j]),
        decreases a@.len() - k,
    {
        if !engine::kf_selector_eq(&a[k], &b[k]) {
            return false;
        }
        k = k + 1;
    }
    true
}


/// The media queries of `qs` that the engine does not compare equal to `q`.
pub open spec fn media_kept(
    qs: Seq<parcel_css::media_query::MediaQuery<'static>>,
    q: parcel_css::media_query::MediaQuery<'static>,
) -> Seq<parcel_css::media_query::MediaQuery<'static>> {
    qs.filter(|x: parcel_css::media_query::MediaQuery<'static>| !engine::query_eq_of(x, q))
}

/// The longhand property names of a block's properties, in order.
pub open spec fn longhands_from(ps: Seq<parcel_css::properties::Property<'static>>, k: int) -> Seq<Seq<char>>
    decreases ps.len() - k,
{
    if k < 0 || k >= ps.len() {
        Seq::empty()
    } else {
        engine::prop_longhands(ps[k]) + longhands_from(ps, k + 1)
    }
}

/// Collects the longhand property names of a block's properties.
fn longhand_names_from(ps: &Vec<parcel_css::properties::Property<'static>>, k: usize) -> (r: Vec<String>)
    requires
        k <= ps@.len(),
    ensures
        r@.len() == longhands_from(ps@, k as int).len(),
        forall|t: int| 0 <= t < r@.len()
            ==> (#[trigger] r@[t])@ == longhands_from(ps@, k as int)[t],
    decreases ps@.len() - k,
{
    if k == ps.len() {
        let r: Vec<String> = Vec::new();
        r
    } else {
        let mut out = engine::property_longhands(&ps[k]);
        let ghost hl = engine::prop_longhands(ps@[k as int]);
        proof {
            assert(out.deep_view().len() == out@.len());
            assert forall|t: int| 0 <= t < out@.len()
                implies (#[trigger] out@[t])@ == hl[t] by {
                assert(out.deep_view()[t] == out@[t].deep_view());
            }
        }
        let ghost hn = out@.len() as int;
        let rest = longhand_names_from(ps, k + 1);
        let mut j: usize = 0;
        while j < rest.len()
            invariant
                j <= rest@.len(),
                hn == hl.len(),
                out@.len() == hn + j,
                hl + longhands_from(ps@, k as int + 1) == longhands_from(ps@, k as int),
                rest@.len() == longhands_from(ps@, k as int + 1).len(),
                forall|t: int| 0 <= t < rest@.len()
                    ==> (#[trigger] rest@[t])@ == longhands_from(ps@, k as int + 1)[t],
                forall|t: int| 0 <= t < out@.len()
                    ==> (#[trigger] out@[t])@ == longhands_from(ps@, k as int)[t],
            decreases rest@.len() - j,
        {
            let ghost ob = out@;
            out.push(rest[j].clone());
            proof {
                assert forall|t: int| 0 <= t < out@.len()
                    implies (#[trigger] out@[t])@ == longhands_from(ps@, k as int)[t] by {
                    if t < ob.len() {
                        assert(out@[t] == ob[t]);
                    } else {
                        assert(out@[t]@ == rest@[j as int]@);
                        assert(longhands_from(ps@, k as int)[t]
                            == longhands_from(ps@, k as int + 1)[t - hn]);
                    }
                }
            }
            j = j + 1;
        }
        out
    }
}

/// A stylesheet: the tree and every view and handle materialized over it.
pub struct Stylesheet {
    /// The top-level rule sequence of the owned tree.
    pub tree: Vec<RuleNode>,
    /// All sequence views ever materialized; index is the view identifier.
    pub views: Vec<ViewRecord>,
    /// All handles ever materialized; index is the handle identifier.
    pub handles: Vec<HandleRecord>,
}

impl Stylesheet {
    /// The model of the rule tree.
    pub open spec fn model(&self) -> Seq<Node> {
        nodes_view(self.tree@)
    }

    /// Everything the operations preserve: every live view resolves, caches
    /// run in lockstep with their sequences, and cache entries and connected
    /// handles point at one another one to one.
    pub open spec fn wf(&self) -> bool {
        let m = self.model();
        &&& self.views@.len() >= 1
        &&& self.views@[0].path@.len() == 0
        &&& !self.views@[0].frames
        &&& self.views@[0].alive
        &&& self.views@[0].parent is None
        &&& (forall|w: int| 0 <= w < self.views@.len() && self.views@[w].alive
                ==> view_ok(m, #[trigger] self.views@[w]))
        &&& (forall|w: int| 0 <= w < self.views@.len() && self.views@[w].alive
                ==> (#[trigger] self.views@[w]).cache@.len() <= view_len(m, self.views@[w]))
        &&& (forall|w: int, i: int| 0 <= w < self.views@.len() && self.views@[w].alive
                && 0 <= i < self.views@[w].cache@.len()
                && (#[trigger] self.views@[w].cache@[i]) is Some
                ==> {
                    let h = self.views@[w].cache@[i].unwrap();
                    &&& h < self.handles@.len()
                    &&& self.handles@[h as int].state == (HandleState::Connected {
                        view: w as usize,
                        index: i as usize,
                    })
                })
        &&& (forall|h: int| 0 <= h < self.handles@.len()
                && (#[trigger] self.handles@[h].state) is Connected
                ==> {
                    let w = self.handles@[h].state->Connected_view;
                    let i = self.handles@[h].state->Connected_index;
                    &&& w < self.views@.len()
                    &&& self.views@[w as int].alive
                    &&& i < self.views@[w as int].cache@.len()
                    &&& self.views@[w as int].cache@[i as int] == Some(h as usize)
                })
        &&& (forall|w1: int, w2: int| 0 <= w1 < self.views@.len() && 0 <= w2 < self.views@.len()
                && w1 != w2 && (#[trigger] self.views@[w1]).alive && (#[trigger] self.views@[w2]).alive
                ==> self.views@[w1].path@ != self.views@[w2].path@)
    }

    /// A fresh stylesheet: no rules, one empty top-level view, no handles.
    pub fn new() -> (r: Stylesheet)
        ensures
            r.wf(),
            r.model() == Seq::<Node>::empty(),
            r.views@.len() == 1,
            r.handles@.len() == 0,
    {
        let top = ViewRecord {
            path: Vec::new(),
            frames: false,
            alive: true,
            cache: Vec::new(),
            parent: None,
        };
        let mut views: Vec<ViewRecord> = Vec::new();
        views.push(top);
        let r = Stylesheet { tree: Vec::new(), views, handles: Vec::new() };
        proof {
            lemma_nodes_view(r.tree@);
            assert(r.model() =~= Seq::<Node>::empty());
        }
        r
    }

    /// The view over the top-level rule sequence.
    pub fn rule_list(&self) -> (w: usize)
        requires
            self.wf(),
        ensures
            w == 0,
            (w as int) < self.views@.len(),
    {
        0
    }

    /// The number of slots in view `w`'s sequence; zero once the owning rule
    /// has left the tree.
    pub fn length(&self, w: usize) -> (r: usize)
        requires
            self.wf(),
            (w as int) < self.views@.len(),
        ensures
            self.views@[w as int].alive ==> r == view_len(self.model(), self.views@[w as int]),
            !self.views@[w as int].alive ==> r == 0,
    {
        let v = &self.views[w];
        if !v.alive {
            return 0;
        }
        proof {
            lemma_nodes_view(self.tree@);
        }
        if v.path.len() == 0 {
            self.tree.len()
        } else {
            proof {
                let m = self.model();
                let vr = self.views@[w as int];
                assert(view_ok(m, vr));
                assert(node_at(m, vr.path@) is Some);
                assert(v.path@.skip(0) =~= v.path@);
            }
            let node = node_ref(&self.tree, &v.path, 0);
            match node {
                RuleNode::Media { children, .. } => {
                    proof {
                        lemma_nodes_view(children@);
                    }
                    children.len()
                }
                RuleNode::Supports { children, .. } => {
                    proof {
                        lemma_nodes_view(children@);
                    }
                    children.len()
                }
                RuleNode::Keyframes { frames, .. } => frames.len(),
                _ => {
                    proof {
                        assert(false);
                    }
                    0
                }
            }
        }
    }

    /// The handle at slot `i` of view `w`: the cached identity if one was
    /// already materialized, else a fresh handle, cached so that the same
    /// slot yields the same identity until it is structurally mutated.
    pub fn item(&mut self, w: usize, i: usize) -> (r: Option<usize>)
        requires
            old(self).wf(),
            (w as int) < old(self).views@.len(),
        ensures
            final(self).wf(),
            final(self).model() == old(self).model(),
            final(self).views@.len() == old(self).views@.len(),
            forall|x: int| 0 <= x < old(self).views@.len() && x != w as int
                ==> final(self).views@[x] == old(self).views@[x],
            final(self).views@[w as int].path == old(self).views@[w as int].path,
            final(self).views@[w as int].alive == old(self).views@[w as int].alive,
            final(self).views@[w as int].frames == old(self).views@[w as int].frames,
            final(self).views@[w as int].parent == old(self).views@[w as int].parent,
            forall|h: int| 0 <= h < old(self).handles@.len()
                ==> final(self).handles@[h] == old(self).handles@[h],
            ({
                let vr = old(self).views@[w as int];
                let m = old(self).model();
                if !vr.alive || i >= view_len(m, vr) {
                    r is None && *final(self) == *old(self)
                } else if i < vr.cache@.len() && vr.cache@[i as int] is Some {
                    r == vr.cache@[i as int] && *final(self) == *old(self)
                } else {
                    &&& r == Some(old(self).handles@.len() as usize)
                    &&& final(self).handles@.len() == old(self).handles@.len() + 1
                    &&& final(self).handles@.last() == (HandleRecord {
                        state: HandleState::Connected { view: w, index: i },
                        parent: vr.parent,
                    })
                    &&& forall|j: int| 0 <= j < vr.cache@.len() && j != i as int
                        ==> final(self).views@[w as int].cache@[j] == vr.cache@[j]
                    &&& (i as int) < final(self).views@[w as int].cache@.len()
                    &&& final(self).views@[w as int].cache@[i as int]
                        == Some(old(self).handles@.len() as usize)
                }
            }),
    {
        if !self.views[w].alive {
            return None;
        }
        let len = self.length(w);
        if i >= len {
            return None;
        }
        if i < self.views[w].cache.len() {
            let cached = self.views[w].cache[i];
            if cached.is_some() {
                return cached;
            }
        }
        let ghost pre = *self;
        let h = self.handles.len();
        let parent = self.views[w].parent;
        self.handles.push(HandleRecord {
            state: HandleState::Connected { view: w, index: i },
            parent,
        });
        while self.views[w].cache.len() <= i
            invariant
                (w as int) < self.views@.len(),
                pre.views@[w as int].cache@.len() <= self.views@[w as int].cache@.len(),
                self.views@[w as int].cache@.len() <= i + 1
                    || self.views@[w as int].cache@.len() == pre.views@[w as int].cache@.len(),
                self.tree == pre.tree,
                self.handles@ == pre.handles@.push(HandleRecord {
                    state: HandleState::Connected { view: w, index: i },
                    parent: pre.views@[w as int].parent,
                }),
                self.views@.len() == pre.views@.len(),
                forall|x: int| 0 <= x < pre.views@.len() && x != w as int
                    ==> self.views@[x] == pre.views@[x],
                self.views@[w as int].path == pre.views@[w as int].path,
                self.views@[w as int].alive == pre.views@[w as int].alive,
                self.views@[w as int].frames == pre.views@[w as int].frames,
                self.views@[w as int].parent == pre.views@[w as int].parent,
                forall|j: int| 0 <= j < pre.views@[w as int].cache@.len()
                    ==> self.views@[w as int].cache@[j] == pre.views@[w as int].cache@[j],
                forall|j: int| pre.views@[w as int].cache@.len() <= j < self.views@[w as int].cache@.len()
                    ==> self.views@[w as int].cache@[j] is None,
            decreases i + 1 - self.views@[w as int].cache@.len(),
        {
            let vm = &mut self.views[w];
            vm.cache.push(None);
        }
        let vm = &mut self.views[w];
        vm.cache[i] = Some(h);
        proof {
            let m = self.model();
            let vr = pre.views@[w as int];
            assert(m == pre.model());
            assert(self.views@[w as int].cache@[i as int] == Some(h));
            assert forall|x: int| 0 <= x < self.views@.len() && self.views@[x].alive
                implies view_ok(m, #[trigger] self.views@[x])
                    && self.views@[x].cache@.len() <= view_len(m, self.views@[x]) by {
                assert(view_ok(m, pre.views@[x]));
                assert(pre.views@[x].cache@.len() <= view_len(pre.model(), pre.views@[x]));
                assert(self.views@[x].path == pre.views@[x].path);
                assert(self.views@[x].frames == pre.views@[x].frames);
                assert(view_len(m, self.views@[x]) == view_len(m, pre.views@[x]));
                if x == w as int {
                    assert(i < view_len(m, vr));
                    assert(self.views@[x].cache@.len() <= i + 1 || self.views@[x].cache@.len() == pre.views@[x].cache@.len());
                }
            }
            assert forall|x: int, j: int| 0 <= x < self.views@.len() && self.views@[x].alive
                && 0 <= j < self.views@[x].cache@.len()
                && (#[trigger] self.views@[x].cache@[j]) is Some
                implies {
                    let hh = self.views@[x].cache@[j].unwrap();
                    &&& hh < self.handles@.len()
                    &&& self.handles@[hh as int].state == (HandleState::Connected {
                        view: x as usize,
                        index: j as usize,
                    })
                } by {
                if x == w as int && j == i as int {
                } else if x == w as int {
                    if j < pre.views@[x].cache@.len() {
                        assert(self.views@[x].cache@[j] == pre.views@[x].cache@[j]);
                    } else {
                        assert(self.views@[x].cache@[j] is None);
                    }
                } else {
                    assert(self.views@[x] == pre.views@[x]);
                }
            }
            assert forall|hh: int| 0 <= hh < self.handles@.len()
                && (#[trigger] self.handles@[hh].state) is Connected
                implies {
                    let x = self.handles@[hh].state->Connected_view;
                    let j = self.handles@[hh].state->Connected_index;
                    &&& x < self.views@.len()
                    &&& self.views@[x as int].alive
                    &&& j < self.views@[x as int].cache@.len()
                    &&& self.views@[x as int].cache@[j as int] == Some(hh as usize)
                } by {
                if hh == pre.handles@.len() {
                    assert(self.handles@[hh].state == (HandleState::Connected { view: w, index: i }));
                    assert(self.views@[w as int].cache@[i as int] == Some(hh as usize));
                } else {
                    assert(self.handles@[hh] == pre.handles@[hh]);
                    let x = pre.handles@[hh].state->Connected_view;
                    let j = pre.handles@[hh].state->Connected_index;
                    assert(pre.views@[x as int].cache@[j as int] == Some(hh as usize));
                    if x as int == w as int {
                        assert(j < pre.views@[w as int].cache@.len());
                        assert(!(pre.views@[w as int].cache@[j as int] is None));
                        assert(j != i);
                        assert(self.views@[x as int].cache@[j as int] == pre.views@[x as int].cache@[j as int]);
                    } else {
                        assert(self.views@[x as int] == pre.views@[x as int]);
                    }
                }
            }
            assert(self.views@[0].path@.len() == 0 && !self.views@[0].frames
                && self.views@[0].alive && self.views@[0].parent is None);
            assert forall|w1: int, w2: int| 0 <= w1 < self.views@.len() && 0 <= w2 < self.views@.len()
                && w1 != w2 && (#[trigger] self.views@[w1]).alive && (#[trigger] self.views@[w2]).alive
                implies self.views@[w1].path@ != self.views@[w2].path@ by {
                assert(self.views@[w1].path == pre.views@[w1].path);
                assert(self.views@[w2].path == pre.views@[w2].path);
                assert(pre.views@[w1].alive && pre.views@[w2].alive);
            }
            assert(self.wf());
        }
        Some(h)
    }

    /// The model of the rule or keyframe in slot `i` of view `v`.
    pub open spec fn slot_model(m: Seq<Node>, v: ViewRecord, i: int) -> SnapModel {
        if v.frames {
            SnapModel::Frame(frames_at(m, v.path@).unwrap()[i])
        } else {
            SnapModel::Rule(rules_at(m, v.path@).unwrap()[i])
        }
    }

    /// An owned copy of the rule or keyframe in slot `i` of view `w`.
    fn snapshot_slot(&self, w: usize, i: usize) -> (r: Snapshot)
        requires
            (w as int) < self.views@.len(),
            view_ok(self.model(), self.views@[w as int]),
            (i as nat) < view_len(self.model(), self.views@[w as int]),
        ensures
            r@ == Self::slot_model(self.model(), self.views@[w as int], i as int),
    {
        let v = &self.views[w];
        proof {
            lemma_nodes_view(self.tree@);
            assert(view_ok(self.model(), self.views@[w as int]));
            if v.path@.len() > 0 {
                assert(node_at(self.model(), v.path@) is Some);
            }
            assert(v.path@.skip(0) =~= v.path@);
        }
        if v.path.len() == 0 {
            Snapshot::Rule(clone_node(&self.tree[i]))
        } else {
            let node = node_ref(&self.tree, &v.path, 0);
            match node {
                RuleNode::Media { children, .. } => {
                    proof {
                        lemma_nodes_view(children@);
                    }
                    Snapshot::Rule(clone_node(&children[i]))
                }
                RuleNode::Supports { children, .. } => {
                    proof {
                        lemma_nodes_view(children@);
                    }
                    Snapshot::Rule(clone_node(&children[i]))
                }
                RuleNode::Keyframes { frames, .. } => Snapshot::Frame(clone_frame(&frames[i])),
                _ => {
                    proof {
                        assert(false);
                    }
                    Snapshot::Rule(clone_node(&self.tree[0]))
                }
            }
        }
    }

    /// Parses `text` as a whole stylesheet. On success the previous tree is
    /// discarded: every handle materialized so far is first forced
    /// `Disconnected` with a snapshot of its rule, every nested view dies,
    /// and the top-level view starts over on the new tree with an empty
    /// cache. On a syntax error nothing changes.
    pub fn replace_sync(&mut self, text: &str) -> (r: Result<(), CssomError>)
        requires
            old(self).wf(),
        ensures
            final(self).wf(),
            parsed_sheet(text@) is None ==> r == Err::<(), CssomError>(CssomError::Syntax)
                && *final(self) == *old(self),
            parsed_sheet(text@) is Some ==> {
                &&& r == Ok::<(), CssomError>(())
                &&& final(self).model() == parsed_sheet(text@).unwrap()
                &&& final(self).views@.len() == old(self).views@.len()
                &&& final(self).views@[0].cache@.len() == 0
                &&& (forall|x: int| 1 <= x < final(self).views@.len()
                        ==> !(#[trigger] final(self).views@[x]).alive)
                &&& final(self).handles@.len() == old(self).handles@.len()
                &&& (forall|h: int| 0 <= h < old(self).handles@.len()
                        ==> (#[trigger] final(self).handles@[h]).parent == old(self).handles@[h].parent)
                &&& (forall|h: int| 0 <= h < old(self).handles@.len()
                        && old(self).handles@[h].state is Disconnected
                        ==> (#[trigger] final(self).handles@[h]) == old(self).handles@[h])
                &&& (forall|h: int| 0 <= h < old(self).handles@.len()
                        && (#[trigger] old(self).handles@[h].state) is Connected
                        ==> {
                            let w = old(self).handles@[h].state->Connected_view;
                            let i = old(self).handles@[h].state->Connected_index;
                            final(self).handles@[h].state matches HandleState::Disconnected { snapshot }
                                && snapshot@ == Self::slot_model(
                                    old(self).model(),
                                    old(self).views@[w as int],
                                    i as int,
                                )
                        })
            },
    {
        let parsed = parse_sheet_text(text);
        let new_tree = match parsed {
            Some(t) => t,
            None => {
                return Err(CssomError::Syntax);
            }
        };
        let ghost pre = *self;
        // Disconnect every materialized handle with a snapshot of its rule.
        let mut h: usize = 0;
        while h < self.handles.len()
            invariant
                pre.wf(),
                self.tree == pre.tree,
                self.views == pre.views,
                self.handles@.len() == pre.handles@.len(),
                h <= self.handles@.len(),
                forall|k: int| h <= k < self.handles@.len()
                    ==> #[trigger] self.handles@[k] == pre.handles@[k],
                forall|k: int| 0 <= k < h
                    ==> (#[trigger] self.handles@[k]).parent == pre.handles@[k].parent,
                forall|k: int| 0 <= k < h && pre.handles@[k].state is Disconnected
                    ==> #[trigger] self.handles@[k] == pre.handles@[k],
                forall|k: int| 0 <= k < h && (#[trigger] pre.handles@[k].state) is Connected
                    ==> {
                        let w = pre.handles@[k].state->Connected_view;
                        let i = pre.handles@[k].state->Connected_index;
                        self.handles@[k].state matches HandleState::Disconnected { snapshot }
                            && snapshot@ == Self::slot_model(
                                pre.model(),
                                pre.views@[w as int],
                                i as int,
                            )
                    },
            decreases self.handles@.len() - h,
        {
            let connected = match &self.handles[h].state {
                HandleState::Connected { .. } => true,
                HandleState::Disconnected { .. } => false,
            };
            if connected {
                let (w, i) = match &self.handles[h].state {
                    HandleState::Connected { view, index } => (*view, *index),
                    HandleState::Disconnected { .. } => (0, 0),
                };
                proof {
                    assert(pre.handles@[h as int].state == (HandleState::Connected { view: w, index: i }));
                    assert(pre.views@[w as int].alive);
                    assert(view_ok(pre.model(), pre.views@[w as int]));
                    assert((i as int) < pre.views@[w as int].cache@.len());
                }
                let snapshot = self.snapshot_slot(w, i);
                let hm = &mut self.handles[h];
                hm.state = HandleState::Disconnected { snapshot };
            }
            h = h + 1;
        }
        proof {
            assert forall|k: int| 0 <= k < self.handles@.len()
                implies !((#[trigger] self.handles@[k]).state is Connected) by {
                if pre.handles@[k].state is Connected {
                } else {
                    assert(self.handles@[k] == pre.handles@[k]);
                }
            }
        }
        // Kill every nested view; reset the top-level cache.
        let mut x: usize = 1;
        while x < self.views.len()
            invariant
                1 <= x <= self.views@.len(),
                self.views@.len() == pre.views@.len(),
                self.tree == pre.tree,
                self.handles@.len() == pre.handles@.len(),
                forall|k: int| 0 <= k < self.handles@.len()
                    ==> !((#[trigger] self.handles@[k]).state is Connected),
                forall|k: int| 0 <= k < self.handles@.len()
                    ==> (#[trigger] self.handles@[k]).parent == pre.handles@[k].parent,
                forall|k: int| 0 <= k < self.handles@.len() && pre.handles@[k].state is Disconnected
                    ==> #[trigger] self.handles@[k] == pre.handles@[k],
                forall|k: int| 0 <= k < self.handles@.len() && (#[trigger] pre.handles@[k].state) is Connected
                    ==> {
                        let w0 = pre.handles@[k].state->Connected_view;
                        let i0 = pre.handles@[k].state->Connected_index;
                        self.handles@[k].state matches HandleState::Disconnected { snapshot }
                            && snapshot@ == Self::slot_model(
                                pre.model(),
                                pre.views@[w0 as int],
                                i0 as int,
                            )
                    },
                self.views@[0] == pre.views@[0],
                forall|k: int| x <= k < self.views@.len()
                    ==> #[trigger] self.views@[k] == pre.views@[k],
                forall|k: int| 1 <= k < x ==> !(#[trigger] self.views@[k]).alive,
            decreases self.views@.len() - x,
        {
            let vm = &mut self.views[x];
            vm.alive = false;
            x = x + 1;
        }
        let vm = &mut self.views[0];
        vm.cache = Vec::new();
        self.tree = new_tree;
        proof {
            assert(self.views@[0].path@.len() == 0);
            assert(self.views@[0].alive && !self.views@[0].frames && self.views@[0].parent is None);
            assert(self.views@[0].cache@.len() == 0);
            assert(view_ok(self.model(), self.views@[0]));
            assert forall|w1: int| 1 <= w1 < self.views@.len()
                implies !(#[trigger] self.views@[w1]).alive by {}
            assert(self.wf());
            assert(self.model() == nodes_view(self.tree@));
        }
        Ok(())
    }

    /// Parses `text` as one rule and inserts it at `index` of view `w`
    /// (a rule sequence, not a keyframe list). Every cached handle of the
    /// view at an index at or past `index` has its stored index moved up by
    /// one before the call returns; handles of other views, and what their
    /// views address, are untouched. Fails with `OutOfRange` past the end,
    /// `Syntax` when the engine rejects the text, and `Detached` when the
    /// owning rule has left the tree; on failure nothing changes.
    #[verifier::rlimit(100)]
    pub fn insert_rule(&mut self, w: usize, text: &str, index: usize) -> (r: Result<usize, CssomError>)
        requires
            old(self).wf(),
            (w as int) < old(self).views@.len(),
            !old(self).views@[w as int].frames,
        ensures
            final(self).wf(),
            !old(self).views@[w as int].alive ==> r == Err::<usize, CssomError>(CssomError::Detached)
                && *final(self) == *old(self),
            old(self).views@[w as int].alive
                && (index as nat) > view_len(old(self).model(), old(self).views@[w as int])
                ==> r == Err::<usize, CssomError>(CssomError::OutOfRange) && *final(self) == *old(self),
            old(self).views@[w as int].alive
                && (index as nat) <= view_len(old(self).model(), old(self).views@[w as int])
                && parsed_rule(text@) is None
                ==> r == Err::<usize, CssomError>(CssomError::Syntax) && *final(self) == *old(self),
            old(self).views@[w as int].alive
                && (index as nat) <= view_len(old(self).model(), old(self).views@[w as int])
                && parsed_rule(text@) is Some
                ==> {
                    let m = old(self).model();
                    let vr = old(self).views@[w as int];
                    let s = rules_at(m, vr.path@).unwrap();
                    &&& r == Ok::<usize, CssomError>(index)
                    &&& final(self).views@[w as int].path@ == vr.path@
                    &&& final(self).views@[w as int].alive
                    &&& final(self).model() == edit_model(m, vr.path@,
                            s.insert(index as int, parsed_rule(text@).unwrap()))
                    &&& rules_at(final(self).model(), vr.path@)
                        == Some(s.insert(index as int, parsed_rule(text@).unwrap()))
                    &&& final(self).views@.len() == old(self).views@.len()
                    &&& final(self).handles@.len() == old(self).handles@.len()
                    &&& (forall|h: int| 0 <= h < old(self).handles@.len()
                            ==> (#[trigger] final(self).handles@[h]).parent
                                == old(self).handles@[h].parent)
                    &&& (forall|h: int| 0 <= h < old(self).handles@.len()
                            && ((#[trigger] old(self).handles@[h].state) is Disconnected
                                || old(self).handles@[h].state->Connected_view != w)
                            ==> final(self).handles@[h].state == old(self).handles@[h].state)
                    &&& (forall|h: int| 0 <= h < old(self).handles@.len()
                            && (#[trigger] old(self).handles@[h].state) is Connected
                            && old(self).handles@[h].state->Connected_view == w
                            && old(self).handles@[h].state->Connected_index < index
                            ==> final(self).handles@[h].state == old(self).handles@[h].state)
                    &&& (forall|h: int| 0 <= h < old(self).handles@.len()
                            && (#[trigger] old(self).handles@[h].state) is Connected
                            && old(self).handles@[h].state->Connected_view == w
                            && old(self).handles@[h].state->Connected_index >= index
                            ==> final(self).handles@[h].state == (HandleState::Connected {
                                view: w,
                                index: (old(self).handles@[h].state->Connected_index + 1) as usize,
                            }))
                },
    {
        if !self.views[w].alive {
            return Err(CssomError::Detached);
        }
        let len = self.length(w);
        if index > len {
            return Err(CssomError::OutOfRange);
        }
        let node = match parse_rule_text(text) {
            Some(n) => n,
            None => {
                return Err(CssomError::Syntax);
            }
        };
        let ghost pre = *self;
        let ghost m = pre.model();
        let ghost p = pre.views@[w as int].path@;
        let ghost s = rules_at(m, p).unwrap();
        let ghost s2 = s.insert(index as int, node@);
        let pvec = copy_usizes(&self.views[w].path);
        // Re-point the views that address sequences inside shifted siblings.
        let mut x: usize = 0;
        while x < self.views.len()
            invariant
                pre.wf(),
                (w as int) < pre.views@.len(),
                !pre.views@[w as int].frames,
                pre.views@[w as int].alive,
                pvec@ == p,
                m == pre.model(),
                p == pre.views@[w as int].path@,
                rules_at(m, p) is Some,
                s == rules_at(m, p).unwrap(),
                len as nat == view_len(m, pre.views@[w as int]),
                s.len() == len as nat,
                x <= self.views@.len(),
                self.views@.len() == pre.views@.len(),
                self.tree == pre.tree,
                self.handles == pre.handles,
                forall|k: int| 0 <= k < self.views@.len() ==> {
                    &&& (#[trigger] self.views@[k]).alive == pre.views@[k].alive
                    &&& self.views@[k].frames == pre.views@[k].frames
                    &&& self.views@[k].parent == pre.views@[k].parent
                    &&& self.views@[k].cache == pre.views@[k].cache
                },
                forall|k: int| x <= k < self.views@.len()
                    ==> (#[trigger] self.views@[k]).path == pre.views@[k].path,
                forall|k: int| 0 <= k < x && k < self.views@.len() ==> {
                    let q = pre.views@[k].path@;
                    (#[trigger] self.views@[k]).path@ == if k != w as int && pre.views@[k].alive {
                        bumped_path(q, p, index)
                    } else {
                        q
                    }
                },
            decreases self.views@.len() - x,
        {
            let is_ext = if x == w {
                false
            } else {
                self.views[x].alive && path_extends(&pvec, &self.views[x].path)
            };
            if is_ext {
                let plen = pvec.len();
                let j = self.views[x].path[plen];
                proof {
                    let q = pre.views@[x as int].path@;
                    assert(view_ok(m, pre.views@[x as int]));
                    assert(node_at(m, q) is Some);
                    crate::tree::lemma_node_at_prefix_bound(m, p, q);
                    assert((j as int) < s.len());
                    assert(s.len() == view_len(m, pre.views@[w as int]));
                }
                if j >= index {
                    let vm = &mut self.views[x];
                    vm.path[plen] = j + 1;
                }
            }
            proof {
                let q = pre.views@[x as int].path@;
                if x != w && pre.views@[x as int].alive {
                    if is_strict_prefix(p, q) {
                        assert(q[p.len() as int] == pre.views@[x as int].path@[p.len() as int]);
                    }
                    assert(self.views@[x as int].path@ == bumped_path(q, p, index));
                }
            }
            x = x + 1;
        }
        // Move the cached handles of view `w` at or past `index` up by one.
        let ghost mid1 = *self;
        let mut j: usize = index;
        while j < self.views[w].cache.len()
            invariant
                pre.wf(),
                (w as int) < self.views@.len(),
                (w as int) < pre.views@.len(),
                pre.views@[w as int].alive,
                index <= j,
                self.tree == pre.tree,
                self.views == mid1.views,
                mid1.views@.len() == pre.views@.len(),
                mid1.views@[w as int].cache == pre.views@[w as int].cache,
                mid1.views@[w as int].alive == pre.views@[w as int].alive,
                self.handles@.len() == pre.handles@.len(),
                forall|h: int| 0 <= h < pre.handles@.len()
                    ==> (#[trigger] self.handles@[h]).parent == pre.handles@[h].parent,
                forall|h: int| 0 <= h < pre.handles@.len()
                    && ((#[trigger] pre.handles@[h].state) is Disconnected
                        || pre.handles@[h].state->Connected_view != w
                        || pre.handles@[h].state->Connected_index < index
                        || pre.handles@[h].state->Connected_index >= j)
                    ==> self.handles@[h].state == pre.handles@[h].state,
                forall|h: int| 0 <= h < pre.handles@.len()
                    && (#[trigger] pre.handles@[h].state) is Connected
                    && pre.handles@[h].state->Connected_view == w
                    && index <= pre.handles@[h].state->Connected_index < j
                    ==> self.handles@[h].state == (HandleState::Connected {
                        view: w,
                        index: (pre.handles@[h].state->Connected_index + 1) as usize,
                    }),
            decreases self.views@[w as int].cache@.len() - j,
        {
            let ghost at_start = *self;
            let entry = self.views[w].cache[j];
            if let Some(hid) = entry {
                proof {
                    assert(pre.views@[w as int].cache@[j as int] == Some(hid));
                    assert(pre.views@[w as int].alive);
                    assert((hid as int) < pre.handles@.len());
                    assert(pre.handles@[hid as int].state == (HandleState::Connected {
                        view: w,
                        index: j,
                    }));
                    assert(self.handles@[hid as int].state == pre.handles@[hid as int].state);
                }
                let par = self.handles[hid].parent;
                self.handles[hid] = HandleRecord {
                    state: HandleState::Connected { view: w, index: j + 1 },
                    parent: par,
                };
            }
            proof {
                assert forall|h: int| 0 <= h < pre.handles@.len()
                    && (#[trigger] pre.handles@[h].state) is Connected
                    && pre.handles@[h].state->Connected_view == w
                    && index <= pre.handles@[h].state->Connected_index < j + 1
                    implies self.handles@[h].state == (HandleState::Connected {
                        view: w,
                        index: (pre.handles@[h].state->Connected_index + 1) as usize,
                    }) by {
                    let jj = pre.handles@[h].state->Connected_index;
                    if jj == j {
                        assert(pre.handles@.len() <= usize::MAX) by {
                            vstd::std_specs::vec::axiom_spec_len(&pre.handles);
                        }
                        assert(pre.views@[w as int].cache@[j as int] == Some(h as usize));
                        assert(entry == Some(h as usize));
                        assert(h == entry.unwrap() as int);
                        assert(self.handles@[h].state == (HandleState::Connected {
                            view: w,
                            index: (j + 1) as usize,
                        }));
                    } else {
                        assert(at_start.handles@[h].state == (HandleState::Connected {
                            view: w,
                            index: (jj + 1) as usize,
                        }));
                        if entry is Some {
                            let hid0 = entry.unwrap();
                            assert(pre.views@[w as int].cache@[j as int] == Some(hid0));
                            assert(pre.handles@[hid0 as int].state == (HandleState::Connected {
                                view: w,
                                index: j,
                            }));
                            assert(h != hid0 as int);
                            assert(self.handles@[h] == at_start.handles@[h]);
                        } else {
                            assert(self.handles@[h] == at_start.handles@[h]);
                        }
                    }
                }
                assert forall|h: int| 0 <= h < pre.handles@.len()
                    && ((#[trigger] pre.handles@[h].state) is Disconnected
                        || pre.handles@[h].state->Connected_view != w
                        || pre.handles@[h].state->Connected_index < index
                        || pre.handles@[h].state->Connected_index >= j + 1)
                    implies self.handles@[h].state == pre.handles@[h].state by {
                    if entry is Some {
                        let hid0 = entry.unwrap();
                        assert(pre.handles@[hid0 as int].state == (HandleState::Connected {
                            view: w,
                            index: j,
                        }));
                        if h != hid0 as int {
                            assert(self.handles@[h] == at_start.handles@[h]);
                        }
                    }
                }
            }
            j = j + 1;
        }
        // Open the new slot in the identity cache.
        let ghost mid2 = *self;
        let vm = &mut self.views[w];
        if index <= vm.cache.len() {
            vm.cache.insert(index, None);
        }
        // Insert the parsed rule into the addressed sequence.
        let ghost mid3 = *self;
        let ghost n0 = node_at(m, p);
        if pvec.len() == 0 {
            proof {
                lemma_nodes_view(self.tree@);
                assert(p =~= Seq::<usize>::empty());
                assert(m == s);
            }
            self.tree.insert(index, node);
            proof {
                lemma_nodes_view_insert(pre.tree@, index as int, node);
                assert(p =~= Seq::<usize>::empty());
                assert(s == m);
                assert(self.model() == s2);
                assert(self.model() == crate::tree::edit_model(m, p, s2));
            }
        } else {
            proof {
                assert(node_at(m, p) is Some);
                assert(pvec@.skip(0) =~= pvec@);
                lemma_nodes_view(self.tree@);
            }
            let nm = node_mut(&mut self.tree, &pvec, 0);
            match nm {
                RuleNode::Media { children, .. } => {
                    let ghost cb = children@;
                    proof {
                        lemma_nodes_view(cb);
                    }
                    children.insert(index, node);
                    proof {
                        lemma_nodes_view_insert(cb, index as int, node);
                    }
                }
                RuleNode::Supports { children, .. } => {
                    let ghost cb = children@;
                    proof {
                        lemma_nodes_view(cb);
                    }
                    children.insert(index, node);
                    proof {
                        lemma_nodes_view_insert(cb, index as int, node);
                    }
                }
                _ => {
                    proof {
                        assert(child_rules_of(node_at(m, p).unwrap()) is Some);
                        assert(false);
                    }
                }
            }
        }
        proof {
            let mf = self.model();
            if pvec.len() > 0 {
                assert(mf == crate::tree::edit_model(m, p, s2));
            }
            assert(node_at(m, p.push(len)) is None) by {
                if p.len() > 0 {
                    assert(node_at(m, p) is Some);
                    assert(child_rules_of(node_at(m, p).unwrap()) is Some);
                    assert(is_strict_prefix(p, p.push(len))) by {
                        assert(p.push(len).subrange(0, p.len() as int) =~= p);
                    }
                    crate::tree::lemma_node_at_decompose(m, p, p.push(len));
                    assert(p.push(len).skip(p.len() as int) =~= seq![len]);
                    assert(node_at(s, seq![len]) is None);
                }
            }
            lemma_view_after_edit(m, p, s2, p.push(len), 0);
            assert(rules_at(mf, p) == Some(s2));
            assert forall|x: int| 0 <= x < self.views@.len() && (#[trigger] self.views@[x]).alive implies
                view_ok(mf, self.views@[x])
                    && self.views@[x].cache@.len() <= view_len(mf, self.views@[x])
                    && (x != w as int ==> view_len(mf, self.views@[x]) == view_len(m, pre.views@[x])
                        && self.views@[x].frames == pre.views@[x].frames) by {
                let q = pre.views@[x].path@;
                let qf = self.views@[x].path@;
                assert(pre.views@[x].alive);
                assert(view_ok(m, pre.views@[x]));
                if x == w as int {
                    assert(qf == p);
                    assert(view_len(mf, self.views@[x]) == s2.len());
                    assert(self.views@[x].cache@.len() <= pre.views@[x].cache@.len() + 1);
                } else {
                    assert(qf == bumped_path(q, p, index));
                    assert(q != p);
                    if is_strict_prefix(q, p) {
                        assert(!is_strict_prefix(p, q));
                        assert(qf == q);
                        crate::tree::lemma_node_at_prefix_bound(m, q, p);
                        if pre.views@[x].frames {
                            assert(false);
                        }
                        lemma_view_after_edit(m, p, s2, q, 0);
                    } else if is_strict_prefix(p, q) {
                        let jj = q[p.len() as int];
                        assert(q.len() > 0);
                        if pre.views@[x].frames {
                            assert(frames_at(m, q) is Some);
                        } else {
                            assert(rules_at(m, q) is Some);
                        }
                        assert(node_at(m, q) is Some);
                        crate::tree::lemma_node_at_prefix_bound(m, p, q);
                        let jj2: usize = if jj >= index { (jj + 1) as usize } else { jj };
                        assert(s2[jj2 as int] == s[jj as int]);
                        lemma_view_after_edit(m, p, s2, q, jj2);
                        assert(qf == q.update(p.len() as int, jj2));
                        assert(node_at(mf, qf) == node_at(m, q));
                    } else {
                        assert(qf == q);
                        assert(q.len() > 0) by {
                            if q.len() == 0 {
                                assert(p.len() > 0) by {
                                    if p.len() == 0 {
                                        assert(p =~= q);
                                    }
                                }
                                assert(p.subrange(0, 0) =~= q);
                                assert(is_strict_prefix(q, p));
                            }
                        }
                        if pre.views@[x].frames {
                            assert(frames_at(m, q) is Some);
                        } else {
                            assert(rules_at(m, q) is Some);
                        }
                        assert(node_at(m, q) is Some);
                        lemma_view_after_edit(m, p, s2, q, 0);
                        assert(node_at(mf, q) == node_at(m, q));
                    }
                }
            }
            assert forall|x1: int, x2: int| 0 <= x1 < self.views@.len() && 0 <= x2 < self.views@.len()
                && x1 != x2 && (#[trigger] self.views@[x1]).alive && (#[trigger] self.views@[x2]).alive
                implies self.views@[x1].path@ != self.views@[x2].path@ by {
                let q1 = pre.views@[x1].path@;
                let q2 = pre.views@[x2].path@;
                let f1 = self.views@[x1].path@;
                let f2 = self.views@[x2].path@;
                assert(q1 != q2);
                assert(f1 == if x1 != w as int { bumped_path(q1, p, index) } else { q1 });
                assert(f2 == if x2 != w as int { bumped_path(q2, p, index) } else { q2 });
                if f1 == f2 {
                    let e1 = is_strict_prefix(p, q1) && x1 != w as int;
                    let e2 = is_strict_prefix(p, q2) && x2 != w as int;
                    assert(f1.len() == q1.len() && f2.len() == q2.len());
                    if e1 && q1[p.len() as int] >= index {
                        assert(view_ok(m, pre.views@[x1]));
                        assert(node_at(m, q1) is Some) by {
                            if pre.views@[x1].frames {
                                assert(frames_at(m, q1) is Some);
                            } else {
                                assert(rules_at(m, q1) is Some);
                            }
                        }
                        crate::tree::lemma_node_at_prefix_bound(m, p, q1);
                        assert((q1[p.len() as int] as int) < s.len());
                        assert(f1[p.len() as int] == q1[p.len() as int] + 1);
                        assert(is_strict_prefix(p, f1)) by {
                            assert(f1.subrange(0, p.len() as int) =~= q1.subrange(0, p.len() as int));
                        }
                    } else {
                        assert(f1 == q1);
                    }
                    if e2 && q2[p.len() as int] >= index {
                        assert(view_ok(m, pre.views@[x2]));
                        assert(node_at(m, q2) is Some) by {
                            if pre.views@[x2].frames {
                                assert(frames_at(m, q2) is Some);
                            } else {
                                assert(rules_at(m, q2) is Some);
                            }
                        }
                        crate::tree::lemma_node_at_prefix_bound(m, p, q2);
                        assert((q2[p.len() as int] as int) < s.len());
                        assert(f2[p.len() as int] == q2[p.len() as int] + 1);
                        assert(is_strict_prefix(p, f2)) by {
                            assert(f2.subrange(0, p.len() as int) =~= q2.subrange(0, p.len() as int));
                        }
                    } else {
                        assert(f2 == q2);
                    }
                    // In every combination the component under `p` maps
                    // injectively and everything else is untouched.
                    assert forall|t: int| 0 <= t < q1.len() implies q1[t] == q2[t] by {
                        if e1 && q1[p.len() as int] >= index {
                            if e2 && q2[p.len() as int] >= index {
                                if t == p.len() as int {
                                    assert(f1[t] == q1[t] + 1 && f2[t] == q2[t] + 1);
                                } else {
                                    assert(f1[t] == q1[t] && f2[t] == q2[t]);
                                }
                            } else {
                                if t == p.len() as int {
                                    assert(f2[t] == q2[t]);
                                    assert(is_strict_prefix(p, q2)) by {
                                        assert(q2.subrange(0, p.len() as int) =~= f2.subrange(0, p.len() as int));
                                        assert(f2.subrange(0, p.len() as int) =~= f1.subrange(0, p.len() as int));
                                        assert(f1.subrange(0, p.len() as int) =~= q1.subrange(0, p.len() as int));
                                        assert(q1.subrange(0, p.len() as int) == p);
                                    }
                                    assert(q2[t] < index || x2 == w as int);
                                    assert(x2 == w as int ==> q2 == p);
                                    assert(q2[t] == q1[t] + 1);
                                    assert(q1[t] >= index);
                                    assert(false);
                                } else {
                                    assert(f1[t] == q1[t] && f2[t] == q2[t]);
                                }
                            }
                        } else {
                            assert(f1 == q1);
                            if e2 && q2[p.len() as int] >= index {
                                if t == p.len() as int {
                                    assert(is_strict_prefix(p, q1)) by {
                                        assert(q1.subrange(0, p.len() as int) =~= f1.subrange(0, p.len() as int));
                                        assert(f1.subrange(0, p.len() as int) =~= f2.subrange(0, p.len() as int));
                                        assert(f2.subrange(0, p.len() as int) =~= q2.subrange(0, p.len() as int));
                                        assert(q2.subrange(0, p.len() as int) == p);
                                    }
                                    assert(q1[t] < index || x1 == w as int);
                                    assert(x1 == w as int ==> q1 == p);
                                    assert(q1[t] == q2[t] + 1);
                                    assert(q2[t] >= index);
                                    assert(false);
                                } else {
                                    assert(f1[t] == q1[t] && f2[t] == q2[t]);
                                }
                            } else {
                                assert(f2 == q2);
                            }
                        }
                    }
                    assert(q1 =~= q2);
                    assert(false);
                }
            }
            assert forall|x: int, i: int| 0 <= x < self.views@.len() && self.views@[x].alive
                && 0 <= i < self.views@[x].cache@.len()
                && (#[trigger] self.views@[x].cache@[i]) is Some
                implies {
                    let h = self.views@[x].cache@[i].unwrap();
                    &&& h < self.handles@.len()
                    &&& self.handles@[h as int].state == (HandleState::Connected {
                        view: x as usize,
                        index: i as usize,
                    })
                } by {
                let h = self.views@[x].cache@[i].unwrap();
                if x == w as int {
                    let c0 = pre.views@[w as int].cache@;
                    if (index as int) <= c0.len() {
                        assert(self.views@[x].cache@ == c0.insert(index as int, None));
                        if i < index {
                            assert(self.views@[x].cache@[i] == c0[i]);
                            assert(pre.handles@[h as int].state == (HandleState::Connected { view: w, index: i as usize }));
                        } else {
                            assert(i != index);
                            assert(self.views@[x].cache@[i] == c0[i - 1]);
                            assert(pre.handles@[h as int].state == (HandleState::Connected { view: w, index: (i - 1) as usize }));
                        }
                    } else {
                        assert(self.views@[x].cache@ == c0);
                        assert(i < index);
                        assert(pre.handles@[h as int].state == (HandleState::Connected { view: w, index: i as usize }));
                    }
                } else {
                    assert(self.views@[x].cache@ == pre.views@[x].cache@);
                    assert(pre.views@[x].alive);
                    assert(pre.handles@[h as int].state == (HandleState::Connected { view: x as usize, index: i as usize }));
                    assert(pre.handles@[h as int].state->Connected_view != w);
                }
            }
            assert forall|h: int| 0 <= h < self.handles@.len()
                && (#[trigger] self.handles@[h].state) is Connected
                implies {
                    let x = self.handles@[h].state->Connected_view;
                    let i = self.handles@[h].state->Connected_index;
                    &&& x < self.views@.len()
                    &&& self.views@[x as int].alive
                    &&& i < self.views@[x as int].cache@.len()
                    &&& self.views@[x as int].cache@[i as int] == Some(h as usize)
                } by {
                let x = self.handles@[h].state->Connected_view;
                let i = self.handles@[h].state->Connected_index;
                assert(pre.handles@[h].state is Connected);
                let x0 = pre.handles@[h].state->Connected_view;
                let i0 = pre.handles@[h].state->Connected_index;
                assert(pre.views@[x0 as int].cache@[i0 as int] == Some(h as usize));
                if x0 == w {
                    let c0 = pre.views@[w as int].cache@;
                    assert(i0 < c0.len());
                    if i0 >= index {
                        assert(x == w && i == i0 + 1);
                        assert((index as int) <= c0.len());
                        assert(self.views@[w as int].cache@ == c0.insert(index as int, None));
                        assert(self.views@[w as int].cache@[i as int] == c0[i0 as int]);
                    } else {
                        assert(x == x0 && i == i0);
                        if (index as int) <= c0.len() {
                            assert(self.views@[w as int].cache@ == c0.insert(index as int, None));
                            assert(self.views@[w as int].cache@[i as int] == c0[i0 as int]);
                        } else {
                            assert(self.views@[w as int].cache@ == c0);
                        }
                    }
                } else {
                    assert(x == x0 && i == i0);
                    assert(self.views@[x as int].cache@ == pre.views@[x as int].cache@);
                    assert(self.views@[x as int].alive == pre.views@[x as int].alive);
                }
            }
            assert(self.wf());
        }
        Ok(index)
    }


    /// Every view addressing a sequence inside the rule at slot `index` of
    /// view `w`'s sequence dies, each of its materialized handles first
    /// disconnecting with a snapshot of its own rule. Nothing else changes.
    #[verifier::rlimit(100)]
    fn disconnect_inside(&mut self, w: usize, index: usize)
        requires
            old(self).wf(),
            (w as int) < old(self).views@.len(),
            old(self).views@[w as int].alive,
        ensures
            final(self).tree == old(self).tree,
            final(self).views@.len() == old(self).views@.len(),
            final(self).handles@.len() == old(self).handles@.len(),
            forall|k: int| 0 <= k < old(self).views@.len() ==> {
                &&& (#[trigger] final(self).views@[k]).path == old(self).views@[k].path
                &&& final(self).views@[k].frames == old(self).views@[k].frames
                &&& final(self).views@[k].parent == old(self).views@[k].parent
                &&& final(self).views@[k].cache == old(self).views@[k].cache
                &&& final(self).views@[k].alive == (old(self).views@[k].alive
                        && !inside_removed(old(self).views@[k].path@,
                            old(self).views@[w as int].path@, index))
            },
            forall|h: int| 0 <= h < old(self).handles@.len()
                ==> (#[trigger] final(self).handles@[h]).parent == old(self).handles@[h].parent,
            forall|h: int| 0 <= h < old(self).handles@.len()
                && ((#[trigger] old(self).handles@[h].state) is Disconnected
                    || !inside_removed(
                        old(self).views@[old(self).handles@[h].state->Connected_view as int].path@,
                        old(self).views@[w as int].path@, index))
                ==> final(self).handles@[h].state == old(self).handles@[h].state,
            forall|h: int| 0 <= h < old(self).handles@.len()
                && (#[trigger] old(self).handles@[h].state) is Connected
                && inside_removed(
                    old(self).views@[old(self).handles@[h].state->Connected_view as int].path@,
                    old(self).views@[w as int].path@, index)
                ==> (final(self).handles@[h].state matches HandleState::Disconnected { snapshot }
                    && snapshot@ == Self::slot_model(
                        old(self).model(),
                        old(self).views@[old(self).handles@[h].state->Connected_view as int],
                        old(self).handles@[h].state->Connected_index as int,
                    )),
    {
        let ghost pre = *self;
        let ghost m = pre.model();
        let ghost p = pre.views@[w as int].path@;
        let pvec = copy_usizes(&self.views[w].path);
        // Views addressing sequences inside the removed rule die; each of
        // their materialized handles disconnects with its own snapshot.
        let mut x: usize = 0;
        while x < self.views.len()
            invariant
                pre.wf(),
                (w as int) < pre.views@.len(),
                pre.views@[w as int].alive,
                pvec@ == p,
                p == pre.views@[w as int].path@,
                m == pre.model(),
                x <= self.views@.len(),
                self.views@.len() == pre.views@.len(),
                self.tree == pre.tree,
                self.handles@.len() == pre.handles@.len(),
                forall|k: int| 0 <= k < self.views@.len() ==> {
                    &&& (#[trigger] self.views@[k]).path == pre.views@[k].path
                    &&& self.views@[k].frames == pre.views@[k].frames
                    &&& self.views@[k].parent == pre.views@[k].parent
                    &&& self.views@[k].cache == pre.views@[k].cache
                },
                forall|k: int| x <= k < self.views@.len()
                    ==> (#[trigger] self.views@[k]).alive == pre.views@[k].alive,
                forall|k: int| 0 <= k < x && k < self.views@.len() ==> {
                    (#[trigger] self.views@[k]).alive == (pre.views@[k].alive
                        && !inside_removed(pre.views@[k].path@, p, index))
                },
                forall|h: int| 0 <= h < pre.handles@.len()
                    ==> (#[trigger] self.handles@[h]).parent == pre.handles@[h].parent,
                forall|h: int| 0 <= h < pre.handles@.len()
                    && ((#[trigger] pre.handles@[h].state) is Disconnected
                        || pre.handles@[h].state->Connected_view >= x
                        || !inside_removed(
                            pre.views@[pre.handles@[h].state->Connected_view as int].path@, p, index))
                    ==> self.handles@[h].state == pre.handles@[h].state,
                forall|h: int| 0 <= h < pre.handles@.len()
                    && (#[trigger] pre.handles@[h].state) is Connected
                    && pre.handles@[h].state->Connected_view < x
                    && inside_removed(
                        pre.views@[pre.handles@[h].state->Connected_view as int].path@, p, index)
                    ==> (self.handles@[h].state matches HandleState::Disconnected { snapshot }
                        && snapshot@ == Self::slot_model(
                            m,
                            pre.views@[pre.handles@[h].state->Connected_view as int],
                            pre.handles@[h].state->Connected_index as int,
                        )),
            decreases self.views@.len() - x,
        {
            let dying = if x == w {
                false
            } else {
                self.views[x].alive && path_extends(&pvec, &self.views[x].path)
                    && self.views[x].path[pvec.len()] == index
            };
            proof {
                if x == w as int {
                    assert(!inside_removed(p, p, index));
                }
            }
            if dying {
                let ghost at_x = *self;
                let mut i: usize = 0;
                while i < self.views[x].cache.len()
                    invariant
                        pre.wf(),
                        (x as int) < pre.views@.len(),
                        self.views@.len() == pre.views@.len(),
                        x != w,
                        pre.views@[x as int].alive,
                        inside_removed(pre.views@[x as int].path@, p, index),
                        m == pre.model(),
                        i <= self.views@[x as int].cache@.len(),
                        self.views == at_x.views,
                        self.views@[x as int].cache == pre.views@[x as int].cache,
                        self.views@[x as int].path == pre.views@[x as int].path,
                        self.views@[x as int].frames == pre.views@[x as int].frames,
                        self.views@[x as int].alive,
                        self.tree == pre.tree,
                        self.handles@.len() == pre.handles@.len(),
                        forall|h: int| 0 <= h < pre.handles@.len()
                            ==> (#[trigger] self.handles@[h]).parent == pre.handles@[h].parent,
                        forall|h: int| 0 <= h < pre.handles@.len()
                            && ((#[trigger] pre.handles@[h].state) is Disconnected
                                || !(pre.handles@[h].state->Connected_view == x
                                    && pre.handles@[h].state->Connected_index < i))
                            ==> self.handles@[h] == at_x.handles@[h],
                        forall|h: int| 0 <= h < pre.handles@.len()
                            && (#[trigger] pre.handles@[h].state) is Connected
                            && pre.handles@[h].state->Connected_view == x
                            && pre.handles@[h].state->Connected_index < i
                            ==> (self.handles@[h].state matches HandleState::Disconnected { snapshot }
                                && snapshot@ == Self::slot_model(
                                    m,
                                    pre.views@[x as int],
                                    pre.handles@[h].state->Connected_index as int,
                                )),
                    decreases self.views@[x as int].cache@.len() - i,
                {
                    let entry = self.views[x].cache[i];
                    if let Some(hid) = entry {
                        proof {
                            assert(pre.views@[x as int].cache@[i as int] == Some(hid));
                            assert((hid as int) < pre.handles@.len());
                            assert(pre.handles@[hid as int].state == (HandleState::Connected {
                                view: x,
                                index: i,
                            }));
                            assert(view_ok(self.model(), self.views@[x as int]));
                            assert((i as nat) < view_len(self.model(), self.views@[x as int]));
                        }
                        let snap = self.snapshot_slot(x, i);
                        let par = self.handles[hid].parent;
                        self.handles[hid] = HandleRecord {
                            state: HandleState::Disconnected { snapshot: snap },
                            parent: par,
                        };
                        proof {
                            assert forall|h: int| 0 <= h < pre.handles@.len()
                                && (#[trigger] pre.handles@[h].state) is Connected
                                && pre.handles@[h].state->Connected_view == x
                                && pre.handles@[h].state->Connected_index < i + 1
                                implies (self.handles@[h].state matches HandleState::Disconnected { snapshot }
                                    && snapshot@ == Self::slot_model(
                                        m,
                                        pre.views@[x as int],
                                        pre.handles@[h].state->Connected_index as int,
                                    )) by {
                                let ii = pre.handles@[h].state->Connected_index;
                                if ii == i {
                                    assert(pre.handles@.len() <= usize::MAX) by {
                                        vstd::std_specs::vec::axiom_spec_len(&pre.handles);
                                    }
                                    assert(pre.views@[x as int].cache@[i as int] == Some(h as usize));
                                    assert(h == hid as int);
                                }
                            }
                        }
                    } else {
                        proof {
                            assert forall|h: int| 0 <= h < pre.handles@.len()
                                && (#[trigger] pre.handles@[h].state) is Connected
                                && pre.handles@[h].state->Connected_view == x
                                && pre.handles@[h].state->Connected_index == i
                                implies false by {
                                assert(pre.views@[x as int].cache@[i as int] == Some(h as usize));
                            }
                        }
                    }
                    i = i + 1;
                }
                let vm = &mut self.views[x];
                vm.alive = false;
            }
            x = x + 1;
        }
    }

    /// Removes the rule or keyframe at `index` of view `w`. The handle
    /// materialized there, if any, disconnects with a snapshot of its rule
    /// and loses its parent link; every handle of the view past `index` has
    /// its stored index moved down by one; every view addressing a sequence
    /// inside the removed rule dies, its handles disconnecting with their
    /// own snapshots. Fails with `OutOfRange` at or past the end and
    /// `Detached` when the owning rule has left the tree; on failure nothing
    /// changes.
    #[verifier::rlimit(100)]
    pub fn delete_rule(&mut self, w: usize, index: usize) -> (r: Result<(), CssomError>)
        requires
            old(self).wf(),
            (w as int) < old(self).views@.len(),
        ensures
            final(self).wf(),
            !old(self).views@[w as int].alive ==> r == Err::<(), CssomError>(CssomError::Detached)
                && *final(self) == *old(self),
            old(self).views@[w as int].alive
                && (index as nat) >= view_len(old(self).model(), old(self).views@[w as int])
                ==> r == Err::<(), CssomError>(CssomError::OutOfRange) && *final(self) == *old(self),
            old(self).views@[w as int].alive
                && (index as nat) < view_len(old(self).model(), old(self).views@[w as int])
                ==> {
                    let m = old(self).model();
                    let vr = old(self).views@[w as int];
                    let p = vr.path@;
                    &&& r == Ok::<(), CssomError>(())
                    &&& final(self).views@.len() == old(self).views@.len()
                    &&& final(self).handles@.len() == old(self).handles@.len()
                    &&& final(self).views@[w as int].alive
                    &&& final(self).views@[w as int].path@ == p
                    &&& final(self).model() == removed_model(m, p, index, vr.frames)
                    &&& (!vr.frames ==> rules_at(final(self).model(), p)
                            == Some(rules_at(m, p).unwrap().remove(index as int)))
                    &&& (vr.frames ==> frames_at(final(self).model(), p)
                            == Some(frames_at(m, p).unwrap().remove(index as int)))
                    &&& ((index as int) < vr.cache@.len() && vr.cache@[index as int] is Some ==> {
                            let h = vr.cache@[index as int].unwrap() as int;
                            &&& final(self).handles@[h].parent is None
                            &&& final(self).handles@[h].state matches HandleState::Disconnected { snapshot }
                            &&& final(self).handles@[h].state->Disconnected_snapshot@
                                == Self::slot_model(m, vr, index as int)
                        })
                    &&& (forall|h: int| 0 <= h < old(self).handles@.len()
                            && (#[trigger] old(self).handles@[h].state) is Connected
                            && old(self).handles@[h].state->Connected_view == w
                            && old(self).handles@[h].state->Connected_index < index
                            ==> final(self).handles@[h].state == old(self).handles@[h].state)
                    &&& (forall|h: int| 0 <= h < old(self).handles@.len()
                            && (#[trigger] old(self).handles@[h].state) is Connected
                            && old(self).handles@[h].state->Connected_view == w
                            && old(self).handles@[h].state->Connected_index > index
                            ==> final(self).handles@[h].state == (HandleState::Connected {
                                view: w,
                                index: (old(self).handles@[h].state->Connected_index - 1) as usize,
                            }))
                    &&& (forall|x: int| 0 <= x < old(self).views@.len()
                            && (#[trigger] old(self).views@[x]).alive
                            && inside_removed(old(self).views@[x].path@, p, index)
                            ==> !final(self).views@[x].alive)
                    &&& (forall|x: int, i: int| 0 <= x < old(self).views@.len()
                            && (#[trigger] old(self).views@[x]).alive
                            && inside_removed(old(self).views@[x].path@, p, index)
                            && 0 <= i < old(self).views@[x].cache@.len()
                            && (#[trigger] old(self).views@[x].cache@[i]) is Some
                            ==> {
                                let h = old(self).views@[x].cache@[i].unwrap() as int;
                                final(self).handles@[h].state matches HandleState::Disconnected { snapshot }
                                    && final(self).handles@[h].state->Disconnected_snapshot@
                                        == Self::slot_model(m, old(self).views@[x], i)
                            })
                    &&& (forall|h: int| 0 <= h < old(self).handles@.len()
                            && (#[trigger] old(self).handles@[h].state) is Connected
                            && old(self).handles@[h].state->Connected_view != w
                            && !inside_removed(
                                old(self).views@[old(self).handles@[h].state->Connected_view as int].path@,
                                p, index)
                            ==> final(self).handles@[h].state == old(self).handles@[h].state)
                },
    {
        if !self.views[w].alive {
            return Err(CssomError::Detached);
        }
        let len = self.length(w);
        if index >= len {
            return Err(CssomError::OutOfRange);
        }
        let ghost pre = *self;
        let ghost m = pre.model();
        let ghost p = pre.views@[w as int].path@;
        let pvec = copy_usizes(&self.views[w].path);
        self.disconnect_inside(w, index);
        // Disconnect the handle in the removed slot and clear its parent.
        let ghost mid1 = *self;
        let own_entry = if index < self.views[w].cache.len() {
            self.views[w].cache[index]
        } else {
            None
        };
        if let Some(hid) = own_entry {
            proof {
                assert(pre.views@[w as int].cache@[index as int] == Some(hid));
                assert((hid as int) < pre.handles@.len());
                assert(pre.handles@[hid as int].state == (HandleState::Connected {
                    view: w,
                    index: index,
                }));
                assert(!inside_removed(p, p, index));
                assert(self.handles@[hid as int].state == pre.handles@[hid as int].state);
                assert(view_ok(self.model(), self.views@[w as int]));
            }
            let snap = self.snapshot_slot(w, index);
            self.handles[hid] = HandleRecord {
                state: HandleState::Disconnected { snapshot: snap },
                parent: None,
            };
        }
        // Re-point the views that address sequences inside shifted siblings.
        let ghost mid2 = *self;
        let mut x: usize = 0;
        while x < self.views.len()
            invariant
                pre.wf(),
                (w as int) < pre.views@.len(),
                pre.views@[w as int].alive,
                pvec@ == p,
                p == pre.views@[w as int].path@,
                m == pre.model(),
                len as nat == view_len(m, pre.views@[w as int]),
                (index as nat) < len as nat,
                x <= self.views@.len(),
                self.views@.len() == pre.views@.len(),
                self.tree == pre.tree,
                self.handles == mid2.handles,
                forall|k: int| 0 <= k < self.views@.len() ==> {
                    &&& (#[trigger] self.views@[k]).alive == mid2.views@[k].alive
                    &&& self.views@[k].frames == pre.views@[k].frames
                    &&& self.views@[k].parent == pre.views@[k].parent
                    &&& self.views@[k].cache == mid2.views@[k].cache
                    &&& (self.views@[k].alive == (pre.views@[k].alive
                            && !inside_removed(pre.views@[k].path@, p, index)))
                },
                forall|k: int| x <= k < self.views@.len()
                    ==> (#[trigger] self.views@[k]).path == pre.views@[k].path,
                forall|k: int| 0 <= k < x && k < self.views@.len() ==> {
                    let q = pre.views@[k].path@;
                    (#[trigger] self.views@[k]).path@ == if k != w as int && self.views@[k].alive {
                        dropped_path(q, p, index)
                    } else {
                        q
                    }
                },
            decreases self.views@.len() - x,
        {
            let is_ext = if x == w {
                false
            } else {
                self.views[x].alive && path_extends(&pvec, &self.views[x].path)
            };
            if is_ext {
                let plen = pvec.len();
                let j = self.views[x].path[plen];
                proof {
                    let q = pre.views@[x as int].path@;
                    assert(pre.views@[x as int].alive);
                    assert(view_ok(m, pre.views@[x as int]));
                    assert(node_at(m, q) is Some);
                    crate::tree::lemma_node_at_prefix_bound(m, p, q);
                    assert(!pre.views@[w as int].frames) by {
                        if pre.views@[w as int].frames {
                            assert(frames_at(m, p) is Some);
                            assert(rules_at(m, p) is Some);
                        }
                    }
                    assert(j != index);
                }
                if j > index {
                    let vm = &mut self.views[x];
                    vm.path[plen] = j - 1;
                }
            }
            proof {
                let q = pre.views@[x as int].path@;
                if x != w && self.views@[x as int].alive {
                    if is_strict_prefix(p, q) {
                        assert(q[p.len() as int] == pre.views@[x as int].path@[p.len() as int]);
                    }
                    assert(self.views@[x as int].path@ == dropped_path(q, p, index));
                }
            }
            x = x + 1;
        }
        // Move the cached handles of view `w` past `index` down by one.
        let ghost mid3 = *self;
        let mut j: usize = index + 1;
        while j < self.views[w].cache.len()
            invariant
                pre.wf(),
                (w as int) < self.views@.len(),
                (w as int) < pre.views@.len(),
                pre.views@[w as int].alive,
                index < j,
                self.tree == pre.tree,
                self.views == mid3.views,
                mid3.views@[w as int].cache == pre.views@[w as int].cache,
                self.handles@.len() == pre.handles@.len(),
                mid3.handles@.len() == pre.handles@.len(),
                forall|h: int| 0 <= h < pre.handles@.len()
                    && (#[trigger] pre.handles@[h].state) is Connected
                    && pre.handles@[h].state->Connected_view == w
                    && pre.handles@[h].state->Connected_index > index
                    ==> mid3.handles@[h] == pre.handles@[h],
                forall|h: int| 0 <= h < pre.handles@.len()
                    ==> (#[trigger] self.handles@[h]).parent == mid3.handles@[h].parent,
                forall|h: int| 0 <= h < pre.handles@.len()
                    && ((#[trigger] pre.handles@[h].state) is Disconnected
                        || pre.handles@[h].state->Connected_view != w
                        || pre.handles@[h].state->Connected_index <= index
                        || pre.handles@[h].state->Connected_index >= j)
                    ==> self.handles@[h] == mid3.handles@[h],
                forall|h: int| 0 <= h < pre.handles@.len()
                    && (#[trigger] pre.handles@[h].state) is Connected
                    && pre.handles@[h].state->Connected_view == w
                    && index < pre.handles@[h].state->Connected_index < j
                    ==> self.handles@[h].state == (HandleState::Connected {
                        view: w,
                        index: (pre.handles@[h].state->Connected_index - 1) as usize,
                    }) && self.handles@[h].parent == mid3.handles@[h].parent,
            decreases self.views@[w as int].cache@.len() - j,
        {
            let ghost at_start = *self;
            let entry = self.views[w].cache[j];
            if let Some(hid) = entry {
                proof {
                    assert(pre.views@[w as int].cache@[j as int] == Some(hid));
                    assert((hid as int) < pre.handles@.len());
                    assert(pre.handles@[hid as int].state == (HandleState::Connected {
                        view: w,
                        index: j,
                    }));
                    assert(self.handles@[hid as int] == mid3.handles@[hid as int]);
                    assert(mid3.handles@[hid as int].state == pre.handles@[hid as int].state);
                }
                let par = self.handles[hid].parent;
                self.handles[hid] = HandleRecord {
                    state: HandleState::Connected { view: w, index: j - 1 },
                    parent: par,
                };
            }
            proof {
                assert forall|h: int| 0 <= h < pre.handles@.len()
                    && (#[trigger] pre.handles@[h].state) is Connected
                    && pre.handles@[h].state->Connected_view == w
                    && index < pre.handles@[h].state->Connected_index < j + 1
                    implies self.handles@[h].state == (HandleState::Connected {
                        view: w,
                        index: (pre.handles@[h].state->Connected_index - 1) as usize,
                    }) && self.handles@[h].parent == mid3.handles@[h].parent by {
                    let jj = pre.handles@[h].state->Connected_index;
                    if jj == j {
                        assert(pre.handles@.len() <= usize::MAX) by {
                            vstd::std_specs::vec::axiom_spec_len(&pre.handles);
                        }
                        assert(pre.views@[w as int].cache@[j as int] == Some(h as usize));
                        assert(entry == Some(h as usize));
                        assert(h == entry.unwrap() as int);
                    } else {
                        assert(at_start.handles@[h].state == (HandleState::Connected {
                            view: w,
                            index: (jj - 1) as usize,
                        }));
                        if entry is Some {
                            let hid0 = entry.unwrap();
                            assert(pre.handles@[hid0 as int].state->Connected_index == j);
                            assert(h != hid0 as int);
                            assert(self.handles@[h] == at_start.handles@[h]);
                        } else {
                            assert(self.handles@[h] == at_start.handles@[h]);
                        }
                    }
                }
                assert forall|h: int| 0 <= h < pre.handles@.len()
                    && ((#[trigger] pre.handles@[h].state) is Disconnected
                        || pre.handles@[h].state->Connected_view != w
                        || pre.handles@[h].state->Connected_index <= index
                        || pre.handles@[h].state->Connected_index >= j + 1)
                    implies self.handles@[h] == mid3.handles@[h] by {
                    if entry is Some {
                        let hid0 = entry.unwrap();
                        assert(pre.handles@[hid0 as int].state == (HandleState::Connected {
                            view: w,
                            index: j,
                        }));
                        if h != hid0 as int {
                            assert(self.handles@[h] == at_start.handles@[h]);
                        }
                    }
                }
            }
            j = j + 1;
        }
        // Close the removed slot in the identity cache.
        let vm = &mut self.views[w];
        if index < vm.cache.len() {
            vm.cache.remove(index);
        }
        // Remove the rule or keyframe from the addressed sequence.
        let ghost fr = pre.views@[w as int].frames;
        let ghost s = if fr { Seq::<Node>::empty() } else { rules_at(m, p).unwrap() };
        let ghost sf = if fr { frames_at(m, p).unwrap() } else { Seq::<Frame>::empty() };
        let ghost s2 = s.remove(index as int);
        if pvec.len() == 0 {
            proof {
                assert(!fr);
                lemma_nodes_view(self.tree@);
                assert(p =~= Seq::<usize>::empty());
                assert(m == s);
            }
            self.tree.remove(index);
            proof {
                lemma_nodes_view_remove(pre.tree@, index as int);
            }
        } else {
            proof {
                if fr {
                    assert(frames_at(m, p) is Some);
                } else {
                    assert(rules_at(m, p) is Some);
                }
                assert(node_at(m, p) is Some);
                assert(pvec@.skip(0) =~= pvec@);
                lemma_nodes_view(self.tree@);
            }
            let nm = node_mut(&mut self.tree, &pvec, 0);
            match nm {
                RuleNode::Media { children, .. } => {
                    let ghost cb = children@;
                    proof {
                        lemma_nodes_view(cb);
                        assert(!fr);
                    }
                    children.remove(index);
                    proof {
                        lemma_nodes_view_remove(cb, index as int);
                    }
                }
                RuleNode::Supports { children, .. } => {
                    let ghost cb = children@;
                    proof {
                        lemma_nodes_view(cb);
                        assert(!fr);
                    }
                    children.remove(index);
                    proof {
                        lemma_nodes_view_remove(cb, index as int);
                    }
                }
                RuleNode::Keyframes { frames, .. } => {
                    let ghost fb = frames@;
                    proof {
                        assert(fr);
                        assert(frames_view(fb) == sf);
                    }
                    frames.remove(index);
                    proof {
                        assert(frames_view(fb.remove(index as int)) =~= frames_view(fb).remove(index as int));
                    }
                }
                _ => {
                    proof {
                        assert(false);
                    }
                }
            }
        }
        proof {
            let mf = self.model();
            let ghost n2 = if fr {
                Node::Keyframes {
                    name: node_at(m, p).unwrap()->Keyframes_name,
                    frames: sf.remove(index as int),
                }
            } else {
                with_children(node_at(m, p).unwrap(), s2)
            };
            if pvec@.len() > 0 {
                assert(mf == set_node_at(m, p, n2));
                lemma_set_node_at(m, p, n2, p);
                assert(node_at(mf, p) == Some(n2));
            }
            if !fr {
                assert(rules_at(mf, p) == Some(s2));
            } else {
                assert(frames_at(mf, p) == Some(sf.remove(index as int)));
            }
            assert(mf == removed_model(m, p, index, fr)) by {
                if !fr && pvec@.len() == 0 {
                    assert(mf == m.remove(index as int));
                }
            }
            assert forall|x: int| 0 <= x < self.views@.len() && (#[trigger] self.views@[x]).alive implies
                view_ok(mf, self.views@[x])
                    && self.views@[x].cache@.len() <= view_len(mf, self.views@[x]) by {
                let q = pre.views@[x].path@;
                let qf = self.views@[x].path@;
                assert(pre.views@[x].alive);
                assert(view_ok(m, pre.views@[x]));
                assert(!inside_removed(q, p, index));
                if x == w as int {
                    assert(qf == p);
                    if !fr {
                        assert(rules_at(mf, p) == Some(s2));
                    } else {
                        assert(frames_at(mf, p) == Some(sf.remove(index as int)));
                    }
                    assert(view_len(m, pre.views@[x]) == len as nat);
                    assert(self.views@[x].cache@.len() <= pre.views@[x].cache@.len());
                    if (index as int) < pre.views@[x].cache@.len() {
                        assert(self.views@[x].cache@.len() == pre.views@[x].cache@.len() - 1);
                    } else {
                        assert(self.views@[x].cache@.len() <= index as nat);
                    }
                } else {
                    assert(qf == dropped_path(q, p, index));
                    lemma_view_after_delete(m, p, index, fr, q, pre.views@[x].frames);
                }
            }
            assert(dropped_path(p, p, index) == p);
            assert forall|x1: int, x2: int| 0 <= x1 < self.views@.len() && 0 <= x2 < self.views@.len()
                && x1 != x2 && (#[trigger] self.views@[x1]).alive && (#[trigger] self.views@[x2]).alive
                implies self.views@[x1].path@ != self.views@[x2].path@ by {
                let q1 = pre.views@[x1].path@;
                let q2 = pre.views@[x2].path@;
                assert(q1 != q2);
                assert(!inside_removed(q1, p, index) && !inside_removed(q2, p, index));
                assert(self.views@[x1].path@ == dropped_path(q1, p, index));
                assert(self.views@[x2].path@ == dropped_path(q2, p, index));
                lemma_dropped_path_injective(q1, q2, p, index);
            }
            assert forall|x: int, i: int| 0 <= x < self.views@.len() && self.views@[x].alive
                && 0 <= i < self.views@[x].cache@.len()
                && (#[trigger] self.views@[x].cache@[i]) is Some
                implies {
                    let h = self.views@[x].cache@[i].unwrap();
                    &&& h < self.handles@.len()
                    &&& self.handles@[h as int].state == (HandleState::Connected {
                        view: x as usize,
                        index: i as usize,
                    })
                } by {
                let h = self.views@[x].cache@[i].unwrap();
                assert(pre.views@[x].alive);
                if x == w as int {
                    let c0 = pre.views@[w as int].cache@;
                    if (index as int) < c0.len() {
                        assert(self.views@[x].cache@ == c0.remove(index as int));
                        if i < index {
                            assert(self.views@[x].cache@[i] == c0[i]);
                            assert(pre.handles@[h as int].state == (HandleState::Connected { view: w, index: i as usize }));
                        } else {
                            assert(self.views@[x].cache@[i] == c0[i + 1]);
                            assert(pre.handles@[h as int].state == (HandleState::Connected { view: w, index: (i + 1) as usize }));
                        }
                    } else {
                        assert(self.views@[x].cache@ == c0);
                        assert(i < index);
                        assert(pre.handles@[h as int].state == (HandleState::Connected { view: w, index: i as usize }));
                    }
                } else {
                    assert(self.views@[x].cache@ == pre.views@[x].cache@);
                    assert(pre.handles@[h as int].state == (HandleState::Connected { view: x as usize, index: i as usize }));
                    assert(!inside_removed(pre.views@[x].path@, p, index));
                }
            }
            assert forall|h: int| 0 <= h < self.handles@.len()
                && (#[trigger] self.handles@[h].state) is Connected
                implies {
                    let x = self.handles@[h].state->Connected_view;
                    let i = self.handles@[h].state->Connected_index;
                    &&& x < self.views@.len()
                    &&& self.views@[x as int].alive
                    &&& i < self.views@[x as int].cache@.len()
                    &&& self.views@[x as int].cache@[i as int] == Some(h as usize)
                } by {
                assert(pre.handles@[h].state is Connected);
                let x0 = pre.handles@[h].state->Connected_view;
                let i0 = pre.handles@[h].state->Connected_index;
                assert(pre.views@[x0 as int].cache@[i0 as int] == Some(h as usize));
                assert(pre.views@[x0 as int].alive);
                if inside_removed(pre.views@[x0 as int].path@, p, index) {
                    assert(x0 != w);
                    assert(mid1.handles@[h].state is Disconnected);
                    assert(mid2.handles@[h] == mid1.handles@[h]) by {
                        if own_entry is Some {
                            let hid2 = own_entry.unwrap();
                            assert(pre.handles@[hid2 as int].state == (HandleState::Connected {
                                view: w,
                                index: index,
                            }));
                            assert(h != hid2 as int);
                        }
                    }
                    assert(mid3.handles@[h] == mid2.handles@[h]);
                    assert(self.handles@[h] == mid3.handles@[h]);
                    assert(false);
                }
                if x0 == w {
                    let c0 = pre.views@[w as int].cache@;
                    assert(i0 < c0.len());
                    if i0 == index {
                        assert(own_entry == Some(h as usize));
                        assert(pre.handles@.len() <= usize::MAX) by {
                            vstd::std_specs::vec::axiom_spec_len(&pre.handles);
                        }
                        assert(h == own_entry.unwrap() as int);
                        assert(mid2.handles@[h].state is Disconnected);
                        assert(mid3.handles@[h] == mid2.handles@[h]);
                        assert(self.handles@[h] == mid3.handles@[h]);
                        assert(false);
                    } else if i0 > index {
                        assert((index as int) < c0.len());
                        assert(self.handles@[h].state == (HandleState::Connected {
                            view: w,
                            index: (i0 - 1) as usize,
                        }));
                        assert(self.views@[w as int].cache@ == c0.remove(index as int));
                        assert(self.views@[w as int].cache@[i0 - 1] == c0[i0 as int]);
                    } else {
                        assert(self.handles@[h].state == pre.handles@[h].state);
                        if (index as int) < c0.len() {
                            assert(self.views@[w as int].cache@ == c0.remove(index as int));
                            assert(self.views@[w as int].cache@[i0 as int] == c0[i0 as int]);
                        } else {
                            assert(self.views@[w as int].cache@ == c0);
                        }
                    }
                } else {
                    assert(self.handles@[h].state == pre.handles@[h].state);
                    assert(self.views@[x0 as int].cache@ == pre.views@[x0 as int].cache@);
                    assert(self.views@[x0 as int].alive);
                }
            }
            assert(self.wf());
            // The slot's own handle, if materialized, is now detached.
            if (index as int) < pre.views@[w as int].cache@.len()
                && pre.views@[w as int].cache@[index as int] is Some {
                let h = pre.views@[w as int].cache@[index as int].unwrap() as int;
                assert(own_entry == Some(h as usize));
                assert(mid2.handles@[h].parent is None);
                assert(mid2.handles@[h].state->Disconnected_snapshot@
                    == Self::slot_model(m, pre.views@[w as int], index as int));
                assert(mid3.handles@[h] == mid2.handles@[h]);
                assert(self.handles@[h] == mid3.handles@[h]);
            }
            // Handles of the view before the slot keep their index.
            assert forall|h: int| 0 <= h < pre.handles@.len()
                && (#[trigger] pre.handles@[h].state) is Connected
                && pre.handles@[h].state->Connected_view == w
                && pre.handles@[h].state->Connected_index < index
                implies self.handles@[h].state == pre.handles@[h].state by {
                assert(mid1.handles@[h].state == pre.handles@[h].state);
                assert(mid2.handles@[h].state == mid1.handles@[h].state) by {
                    if own_entry is Some {
                        assert(pre.handles@[own_entry.unwrap() as int].state
                            == (HandleState::Connected { view: w, index: index }));
                        assert(h != own_entry.unwrap() as int);
                    }
                }
                assert(mid3.handles@[h] == mid2.handles@[h]);
                assert(self.handles@[h] == mid3.handles@[h]);
            }
            // Handles of the view past the slot moved down by one.
            assert forall|h: int| 0 <= h < pre.handles@.len()
                && (#[trigger] pre.handles@[h].state) is Connected
                && pre.handles@[h].state->Connected_view == w
                && pre.handles@[h].state->Connected_index > index
                implies self.handles@[h].state == (HandleState::Connected {
                    view: w,
                    index: (pre.handles@[h].state->Connected_index - 1) as usize,
                }) by {
                assert(mid3.handles@[h] == pre.handles@[h]);
            }
            // Handles of unrelated views are untouched.
            assert forall|h: int| 0 <= h < pre.handles@.len()
                && (#[trigger] pre.handles@[h].state) is Connected
                && pre.handles@[h].state->Connected_view != w
                && !inside_removed(
                    pre.views@[pre.handles@[h].state->Connected_view as int].path@, p, index)
                implies self.handles@[h].state == pre.handles@[h].state by {
                assert(mid1.handles@[h].state == pre.handles@[h].state);
                assert(mid2.handles@[h].state == mid1.handles@[h].state) by {
                    if own_entry is Some {
                        assert(pre.handles@[own_entry.unwrap() as int].state
                            == (HandleState::Connected { view: w, index: index }));
                        assert(h != own_entry.unwrap() as int);
                    }
                }
                assert(mid3.handles@[h] == mid2.handles@[h]);
                assert(self.handles@[h] == mid3.handles@[h]);
            }
            // Handles of views inside the removed rule are detached with
            // their snapshots.
            assert forall|x: int, i: int| 0 <= x < pre.views@.len()
                && (#[trigger] pre.views@[x]).alive
                && inside_removed(pre.views@[x].path@, p, index)
                && 0 <= i < pre.views@[x].cache@.len()
                && (#[trigger] pre.views@[x].cache@[i]) is Some
                implies {
                    let h = pre.views@[x].cache@[i].unwrap() as int;
                    self.handles@[h].state matches HandleState::Disconnected { snapshot }
                        && self.handles@[h].state->Disconnected_snapshot@
                            == Self::slot_model(m, pre.views@[x], i)
                } by {
                let h = pre.views@[x].cache@[i].unwrap() as int;
                assert(pre.views@.len() <= usize::MAX) by {
                    vstd::std_specs::vec::axiom_spec_len(&pre.views);
                }
                assert(pre.handles@[h].state == (HandleState::Connected {
                    view: x as usize,
                    index: i as usize,
                }));
                assert((x as usize) as int == x && (i as usize) as int == i) by {
                    vstd::std_specs::vec::axiom_spec_len(&pre.views@[x].cache);
                }
                assert(inside_removed(
                    pre.views@[pre.handles@[h].state->Connected_view as int].path@, p, index));
                assert(mid1.handles@[h].state matches HandleState::Disconnected { snapshot }
                    && mid1.handles@[h].state->Disconnected_snapshot@
                        == Self::slot_model(m, pre.views@[x], i));
                assert(x != w as int);
                assert(mid2.handles@[h].state == mid1.handles@[h].state) by {
                    if own_entry is Some {
                        assert(pre.handles@[own_entry.unwrap() as int].state
                            == (HandleState::Connected { view: w, index: index }));
                        assert(h != own_entry.unwrap() as int);
                    }
                }
                assert(mid3.handles@[h] == mid2.handles@[h]);
                assert(self.handles@[h] == mid3.handles@[h]);
            }
            // Views inside the removed rule are dead.
            assert forall|x: int| 0 <= x < pre.views@.len()
                && (#[trigger] pre.views@[x]).alive
                && inside_removed(pre.views@[x].path@, p, index)
                implies !self.views@[x].alive by {}
        }
        Ok(())
    }


    /// The model of the rule or keyframe a handle presents: its slot while
    /// Connected, its snapshot once Disconnected.
    pub open spec fn handle_model(&self, h: int) -> SnapModel {
        match self.handles@[h].state {
            HandleState::Connected { view, index } =>
                Self::slot_model(self.model(), self.views@[view as int], index as int),
            HandleState::Disconnected { snapshot } => snapshot@,
        }
    }

    /// A borrow of the rule a handle presents, where it presents a rule.
    fn handle_rule<'a>(&'a self, h: usize) -> (r: Option<&'a RuleNode>)
        requires
            self.wf(),
            (h as int) < self.handles@.len(),
        ensures
            match r {
                Some(n) => self.handle_model(h as int) == SnapModel::Rule(n@),
                None => self.handle_model(h as int) is Frame,
            },
    {
        match &self.handles[h].state {
            HandleState::Disconnected { snapshot } => match snapshot {
                Snapshot::Rule(n) => Some(n),
                Snapshot::Frame(_) => None,
            },
            HandleState::Connected { view, index } => {
                let w = *view;
                let i = *index;
                let v = &self.views[w];
                proof {
                    assert(self.views@[w as int].alive);
                    assert(view_ok(self.model(), self.views@[w as int]));
                    assert((i as nat) < view_len(self.model(), self.views@[w as int]));
                    lemma_nodes_view(self.tree@);
                    if v.path@.len() > 0 {
                        assert(node_at(self.model(), v.path@) is Some);
                        assert(v.path@.skip(0) =~= v.path@);
                    }
                }
                if v.frames {
                    None
                } else if v.path.len() == 0 {
                    Some(&self.tree[i])
                } else {
                    let node = node_ref(&self.tree, &v.path, 0);
                    match node {
                        RuleNode::Media { children, .. } => {
                            proof {
                                lemma_nodes_view(children@);
                            }
                            Some(&children[i])
                        }
                        RuleNode::Supports { children, .. } => {
                            proof {
                                lemma_nodes_view(children@);
                            }
                            Some(&children[i])
                        }
                        _ => {
                            proof {
                                assert(false);
                            }
                            None
                        }
                    }
                }
            }
        }
    }

    /// A borrow of the keyframe a handle presents, where it presents one.
    fn handle_frame<'a>(&'a self, h: usize) -> (r: Option<&'a KeyframeNode>)
        requires
            self.wf(),
            (h as int) < self.handles@.len(),
        ensures
            match r {
                Some(f) => self.handle_model(h as int) == SnapModel::Frame(f@),
                None => self.handle_model(h as int) is Rule,
            },
    {
        match &self.handles[h].state {
            HandleState::Disconnected { snapshot } => match snapshot {
                Snapshot::Rule(_) => None,
                Snapshot::Frame(f) => Some(f),
            },
            HandleState::Connected { view, index } => {
                let w = *view;
                let i = *index;
                let v = &self.views[w];
                proof {
                    assert(self.views@[w as int].alive);
                    assert(view_ok(self.model(), self.views@[w as int]));
                    assert((i as nat) < view_len(self.model(), self.views@[w as int]));
                    lemma_nodes_view(self.tree@);
                    if v.path@.len() > 0 {
                        assert(node_at(self.model(), v.path@) is Some);
                        assert(v.path@.skip(0) =~= v.path@);
                    }
                }
                if !v.frames {
                    None
                } else {
                    let node = node_ref(&self.tree, &v.path, 0);
                    match node {
                        RuleNode::Keyframes { frames, .. } => Some(&frames[i]),
                        _ => {
                            proof {
                                assert(false);
                            }
                            None
                        }
                    }
                }
            }
        }
    }

    /// The CSSOM type tag of what a handle presents.
    pub open spec fn kind_tag(s: SnapModel) -> u32 {
        match s {
            SnapModel::Frame(_) => 8,
            SnapModel::Rule(n) => match n {
                Node::Style { .. } => 1,
                Node::Media { .. } => 4,
                Node::Supports { .. } => 12,
                Node::Keyframes { .. } => 7,
                Node::Other { kind, .. } => match kind {
                    OtherKind::Import => 3,
                    OtherKind::FontFace => 5,
                    OtherKind::Page => 6,
                    OtherKind::Namespace => 10,
                    OtherKind::CounterStyle => 11,
                    OtherKind::Viewport => 15,
                    OtherKind::Unknown => 0,
                },
            },
        }
    }

    /// The CSSOM type tag of the rule or keyframe behind handle `h`.
    pub fn kind(&self, h: usize) -> (r: u32)
        requires
            self.wf(),
            (h as int) < self.handles@.len(),
        ensures
            r == Self::kind_tag(self.handle_model(h as int)),
    {
        match self.handle_rule(h) {
            None => 8,
            Some(node) => match node {
                RuleNode::Style { .. } => 1,
                RuleNode::Media { .. } => 4,
                RuleNode::Supports { .. } => 12,
                RuleNode::Keyframes { .. } => 7,
                RuleNode::Other { kind, .. } => match kind {
                    OtherKind::Import => 3,
                    OtherKind::FontFace => 5,
                    OtherKind::Page => 6,
                    OtherKind::Namespace => 10,
                    OtherKind::CounterStyle => 11,
                    OtherKind::Viewport => 15,
                    OtherKind::Unknown => 0,
                },
            },
        }
    }

    /// Whether handle `h` still belongs to the tree: the `parentStyleSheet`
    /// observable — a disconnected handle reports no stylesheet.
    pub fn connected(&self, h: usize) -> (r: bool)
        requires
            self.wf(),
            (h as int) < self.handles@.len(),
        ensures
            r == (self.handles@[h as int].state is Connected),
    {
        match &self.handles[h].state {
            HandleState::Connected { .. } => true,
            HandleState::Disconnected { .. } => false,
        }
    }

    /// The handle of the enclosing grouping or keyframes rule, if any.
    pub fn parent_rule(&self, h: usize) -> (r: Option<usize>)
        requires
            self.wf(),
            (h as int) < self.handles@.len(),
        ensures
            r == self.handles@[h as int].parent,
    {
        self.handles[h].parent
    }

    /// The text of what a handle presents: its slot while Connected, its
    /// last snapshot once Disconnected.
    pub open spec fn snap_css_text(s: SnapModel) -> Seq<char> {
        match s {
            SnapModel::Rule(n) => css_text_of(n),
            SnapModel::Frame(f) => frame_text_of(f),
        }
    }

    /// Prints the rule or keyframe behind handle `h`; readable in both
    /// lifecycle states.
    pub fn css_text(&self, h: usize) -> (r: String)
        requires
            self.wf(),
            (h as int) < self.handles@.len(),
        ensures
            r@ == Self::snap_css_text(self.handle_model(h as int)),
    {
        match self.handle_rule(h) {
            Some(node) => css_text_node(node),
            None => match self.handle_frame(h) {
                Some(f) => frame_text_str(f),
                None => {
                    proof {
                        assert(false);
                    }
                    String::new()
                }
            },
        }
    }

    /// Assigning a rule's text is a defined no-op.
    pub fn set_css_text(&mut self, h: usize, text: &str)
        ensures
            *final(self) == *old(self),
    {
        // Per the object-model contract, setting cssText must do nothing.
        let _ = h;
        let _ = text;
    }

    /// The selector text of the style rule behind handle `h`; None for other
    /// rule kinds.
    pub fn selector_text(&self, h: usize) -> (r: Option<String>)
        requires
            self.wf(),
            (h as int) < self.handles@.len(),
        ensures
            match r {
                Some(t) => self.handle_model(h as int) matches SnapModel::Rule(n)
                    && n is Style && t@ == engine::style_selector_text(n->Style_style),
                None => !(self.handle_model(h as int) matches SnapModel::Rule(n) && n is Style),
            },
    {
        match self.handle_rule(h) {
            Some(RuleNode::Style { style }) => Some(engine::style_selector_text_str(style)),
            _ => None,
        }
    }

    /// The condition text of the media or supports rule behind handle `h`;
    /// None for other rule kinds.
    pub fn condition_text(&self, h: usize) -> (r: Option<String>)
        requires
            self.wf(),
            (h as int) < self.handles@.len(),
        ensures
            match r {
                Some(t) => self.handle_model(h as int) matches SnapModel::Rule(n)
                    && ((n is Media && t@ == media_text_from(n->Media_queries, 0))
                        || (n is Supports && t@ == engine::supports_css_text(n->Supports_condition))),
                None => !(self.handle_model(h as int) matches SnapModel::Rule(n)
                    && (n is Media || n is Supports)),
            },
    {
        match self.handle_rule(h) {
            Some(RuleNode::Media { queries, .. }) => Some(media_text_str_from(queries, 0)),
            Some(RuleNode::Supports { condition, .. }) => Some(engine::supports_text(condition)),
            _ => None,
        }
    }

    /// The name of the keyframes rule behind handle `h`; None for other
    /// rule kinds.
    pub fn name(&self, h: usize) -> (r: Option<String>)
        requires
            self.wf(),
            (h as int) < self.handles@.len(),
        ensures
            match r {
                Some(t) => self.handle_model(h as int) matches SnapModel::Rule(n)
                    && n is Keyframes && t@ == n->Keyframes_name,
                None => !(self.handle_model(h as int) matches SnapModel::Rule(n) && n is Keyframes),
            },
    {
        match self.handle_rule(h) {
            Some(RuleNode::Keyframes { name, .. }) => Some(String::from_str(name.as_str())),
            _ => None,
        }
    }

    /// The selector text of the keyframe behind handle `h`; None where the
    /// handle presents a whole rule.
    pub fn key_text(&self, h: usize) -> (r: Option<String>)
        requires
            self.wf(),
            (h as int) < self.handles@.len(),
        ensures
            match r {
                Some(t) => self.handle_model(h as int) matches SnapModel::Frame(f)
                    && t@ == key_text_from(f.selectors, 0),
                None => self.handle_model(h as int) is Rule,
            },
    {
        match self.handle_frame(h) {
            Some(f) => Some(key_text_str_from(&f.selectors, 0)),
            None => None,
        }
    }


    /// The sequence view over the children of the grouping or keyframes rule
    /// behind handle `h`: the one already materialized for that rule if any,
    /// else a fresh one — so the same rule always answers with the same view.
    /// None for a disconnected handle, a keyframe, or a leaf rule.
    pub fn child_rules(&mut self, h: usize) -> (r: Option<usize>)
        requires
            old(self).wf(),
            (h as int) < old(self).handles@.len(),
        ensures
            final(self).wf(),
            final(self).model() == old(self).model(),
            final(self).handles == old(self).handles,
            old(self).views@.len() <= final(self).views@.len(),
            forall|x: int| 0 <= x < old(self).views@.len()
                ==> #[trigger] final(self).views@[x] == old(self).views@[x],
            ({
                let st = old(self).handles@[h as int].state;
                if st is Connected && !old(self).views@[st->Connected_view as int].frames
                    && (old(self).handle_model(h as int) matches SnapModel::Rule(n)
                        && (n is Media || n is Supports || n is Keyframes)) {
                    r matches Some(w2) && {
                        let np = old(self).views@[st->Connected_view as int].path@
                            .push(st->Connected_index);
                        &&& (w2 as int) < final(self).views@.len()
                        &&& final(self).views@[w2 as int].alive
                        &&& final(self).views@[w2 as int].path@ == np
                        &&& final(self).views@[w2 as int].frames
                            == (old(self).handle_model(h as int)->Rule_0 is Keyframes)
                        &&& (old(self).views@.len() < final(self).views@.len()
                                ==> final(self).views@[w2 as int].parent == Some(h))
                        &&& (forall|x: int| 0 <= x < final(self).views@.len()
                                && (#[trigger] final(self).views@[x]).alive
                                && final(self).views@[x].path@ == np ==> x == w2 as int)
                    }
                } else {
                    r is None && final(self).views == old(self).views
                }
            }),
    {
        let (w, i) = match &self.handles[h].state {
            HandleState::Connected { view, index } => (*view, *index),
            HandleState::Disconnected { .. } => {
                return None;
            }
        };
        if self.views[w].frames {
            return None;
        }
        let frames2 = match self.handle_rule(h) {
            Some(RuleNode::Media { .. }) => false,
            Some(RuleNode::Supports { .. }) => false,
            Some(RuleNode::Keyframes { .. }) => true,
            _ => {
                return None;
            }
        };
        let ghost pre = *self;
        let ghost m = pre.model();
        let v = &self.views[w];
        proof {
            assert(pre.views@[w as int].alive);
            assert(view_ok(m, pre.views@[w as int]));
            assert((i as nat) < view_len(m, pre.views@[w as int]));
            lemma_node_at_push(m, pre.views@[w as int].path@, i);
        }
        let mut np = copy_usizes(&v.path);
        np.push(i);
        let ghost npg = pre.views@[w as int].path@.push(i);
        proof {
            assert(np@ == npg);
            assert(node_at(m, npg) is Some);
            if frames2 {
                assert(frames_at(m, npg) is Some);
            } else {
                assert(rules_at(m, npg) is Some);
            }
        }
        // The view for this rule, if one was already materialized.
        let mut x: usize = 0;
        while x < self.views.len()
            invariant
                *self == pre,
                pre.wf(),
                m == pre.model(),
                np@ == npg,
                node_at(m, npg) is Some,
                frames2 ==> frames_at(m, npg) is Some,
                !frames2 ==> rules_at(m, npg) is Some,
                (h as int) < pre.handles@.len(),
                pre.handles@[h as int].state == (HandleState::Connected { view: w, index: i }),
                (w as int) < pre.views@.len(),
                !pre.views@[w as int].frames,
                npg == pre.views@[w as int].path@.push(i),
                pre.handle_model(h as int) is Rule,
                pre.handle_model(h as int)->Rule_0 is Media
                    || pre.handle_model(h as int)->Rule_0 is Supports
                    || pre.handle_model(h as int)->Rule_0 is Keyframes,
                frames2 == (pre.handle_model(h as int)->Rule_0 is Keyframes),
                x <= self.views@.len(),
                forall|k: int| 0 <= k < x
                    ==> !((#[trigger] self.views@[k]).alive && self.views@[k].path@ == npg),
            decreases self.views@.len() - x,
        {
            if self.views[x].alive && paths_equal(&np, &self.views[x].path) {
                proof {
                    assert(self.views@[x as int].path@ == npg);
                    assert(view_ok(m, self.views@[x as int]));
                    if frames2 {
                        assert(frames_at(m, npg) is Some);
                        if !self.views@[x as int].frames {
                            assert(rules_at(m, npg) is Some);
                            assert(false);
                        }
                    } else {
                        assert(rules_at(m, npg) is Some);
                        if self.views@[x as int].frames {
                            assert(frames_at(m, npg) is Some);
                            assert(false);
                        }
                    }
                    assert forall|x2: int| 0 <= x2 < self.views@.len()
                        && (#[trigger] self.views@[x2]).alive
                        && self.views@[x2].path@ == npg implies x2 == x as int by {
                        if x2 != x as int {
                            assert(self.views@[x2].path@ != self.views@[x as int].path@);
                        }
                    }
                }
                return Some(x);
            }
            x = x + 1;
        }
        // None exists: materialize one, addressed by the rule's path.
        let w2 = self.views.len();
        proof {
            if frames2 {
                assert(frames_at(m, npg) is Some);
            } else {
                assert(rules_at(m, npg) is Some);
            }
        }
        self.views.push(ViewRecord {
            path: np,
            frames: frames2,
            alive: true,
            cache: Vec::new(),
            parent: Some(h),
        });
        proof {
            assert(self.views@ == pre.views@.push(ViewRecord {
                path: self.views@[w2 as int].path,
                frames: frames2,
                alive: true,
                cache: self.views@[w2 as int].cache,
                parent: Some(h),
            }));
            assert forall|x1: int, x2: int| 0 <= x1 < self.views@.len() && 0 <= x2 < self.views@.len()
                && x1 != x2 && (#[trigger] self.views@[x1]).alive && (#[trigger] self.views@[x2]).alive
                implies self.views@[x1].path@ != self.views@[x2].path@ by {
                if x1 == w2 as int {
                    assert(!(pre.views@[x2].alive && pre.views@[x2].path@ == npg));
                } else if x2 == w2 as int {
                    assert(!(pre.views@[x1].alive && pre.views@[x1].path@ == npg));
                } else {
                    assert(self.views@[x1] == pre.views@[x1]);
                    assert(self.views@[x2] == pre.views@[x2]);
                }
            }
            assert(self.wf());
            assert forall|x2: int| 0 <= x2 < self.views@.len()
                && (#[trigger] self.views@[x2]).alive
                && self.views@[x2].path@ == npg implies x2 == w2 as int by {
                if x2 != w2 as int {
                    assert(self.views@[x2] == pre.views@[x2]);
                }
            }
            assert((w2 as int) < self.views@.len());
            assert(self.views@[w2 as int].alive);
            assert(self.views@[w2 as int].path@ == npg);
            assert(self.views@[w2 as int].frames == frames2);
            assert(self.model() == pre.model());
            assert(self.handles == pre.handles);
            assert(forall|x2: int| 0 <= x2 < pre.views@.len()
                ==> #[trigger] self.views@[x2] == pre.views@[x2]);
        }
        Some(w2)
    }


    /// The index of the last keyframe of the keyframes rule behind handle
    /// `h` whose selector list equals the parse of `select` — the later of
    /// two keyframes with the same key wins. None when the text does not
    /// parse, nothing matches, or the handle is no keyframes rule.
    pub fn find_keyframe(&self, h: usize, select: &str) -> (r: Option<usize>)
        requires
            self.wf(),
            (h as int) < self.handles@.len(),
        ensures
            ({
                let hm = self.handle_model(h as int);
                if (hm matches SnapModel::Rule(n) && n is Keyframes)
                    && engine::parsed_kf_selectors(select@) is Some {
                    let fs = hm->Rule_0->Keyframes_frames;
                    let sel = engine::parsed_kf_selectors(select@).unwrap();
                    match r {
                        Some(i) => (i as int) < fs.len()
                            && kf_lists_equal(fs[i as int].selectors, sel)
                            && (forall|j: int| i < j < fs.len()
                                ==> !kf_lists_equal(#[trigger] fs[j].selectors, sel)),
                        None => forall|j: int| 0 <= j < fs.len()
                            ==> !kf_lists_equal(#[trigger] fs[j].selectors, sel),
                    }
                } else {
                    r is None
                }
            }),
    {
        let sel = match engine::parse_kf_selectors(select) {
            Some(s) => s,
            None => {
                return None;
            }
        };
        let frames = match self.handle_rule(h) {
            Some(RuleNode::Keyframes { frames, .. }) => frames,
            _ => {
                return None;
            }
        };
        let ghost fs = crate::tree::frames_view(frames@);
        let mut k: usize = frames.len();
        while k > 0
            invariant
                k <= frames@.len(),
                fs == crate::tree::frames_view(frames@),
                fs.len() == frames@.len(),
                (h as int) < self.handles@.len(),
                self.handle_model(h as int) is Rule,
                self.handle_model(h as int)->Rule_0 is Keyframes,
                fs == self.handle_model(h as int)->Rule_0->Keyframes_frames,
                engine::parsed_kf_selectors(select@) == Some(sel@),
                forall|j: int| k <= j < fs.len()
                    ==> !kf_lists_equal((#[trigger] fs[j]).selectors, sel@),
            decreases k,
        {
            k = k - 1;
            if kf_lists_eq(&frames[k].selectors, &sel) {
                proof {
                    assert(fs[k as int].selectors == frames@[k as int].selectors@);
                }
                return Some(k);
            }
            proof {
                assert(fs[k as int].selectors == frames@[k as int].selectors@);
            }
        }
        None
    }

    /// The handle of the keyframe `findRule` selects: the last keyframe of
    /// the connected keyframes rule behind `h` whose key equals the parse of
    /// `select`, materialized through the rule's keyframe view so repeated
    /// lookups answer with the same identity; None where nothing matches.
    pub fn find_rule(&mut self, h: usize, select: &str) -> (r: Option<usize>)
        requires
            old(self).wf(),
            (h as int) < old(self).handles@.len(),
        ensures
            final(self).wf(),
            final(self).model() == old(self).model(),
            ({
                let hm = old(self).handle_model(h as int);
                let applicable = old(self).handles@[h as int].state is Connected
                    && hm is Rule && hm->Rule_0 is Keyframes
                    && engine::parsed_kf_selectors(select@) is Some;
                if applicable {
                    let fs = hm->Rule_0->Keyframes_frames;
                    let sel = engine::parsed_kf_selectors(select@).unwrap();
                    let np = old(self).views@[old(self).handles@[h as int].state->Connected_view as int]
                        .path@.push(old(self).handles@[h as int].state->Connected_index);
                    if exists|j: int| 0 <= j < fs.len()
                        && kf_lists_equal((#[trigger] fs[j]).selectors, sel) {
                        r matches Some(hd) && (hd as int) < final(self).handles@.len()
                            && (final(self).handles@[hd as int].state matches
                                HandleState::Connected { view, index }
                                && (view as int) < final(self).views@.len()
                                && final(self).views@[view as int].alive
                                && final(self).views@[view as int].frames
                                && final(self).views@[view as int].path@ == np
                                && (index as int) < fs.len()
                                && kf_lists_equal(fs[index as int].selectors, sel)
                                && (forall|j: int| index < j < fs.len()
                                    ==> !kf_lists_equal((#[trigger] fs[j]).selectors, sel)))
                    } else {
                        r is None
                    }
                } else {
                    r is None
                }
            }),
    {
        let i = match self.find_keyframe(h, select) {
            Some(i) => i,
            None => {
                return None;
            }
        };
        let ghost pre = *self;
        let ghost m = pre.model();
        let w2 = match self.child_rules(h) {
            Some(w2) => w2,
            None => {
                proof {
                    if pre.handles@[h as int].state is Connected {
                        let wh = pre.handles@[h as int].state->Connected_view;
                        let ih = pre.handles@[h as int].state->Connected_index;
                        if pre.views@[wh as int].frames {
                            assert(pre.handle_model(h as int) is Frame);
                        }
                        assert(false);
                    }
                }
                return None;
            }
        };
        proof {
            let wh = pre.handles@[h as int].state->Connected_view;
            let ih = pre.handles@[h as int].state->Connected_index;
            let p = pre.views@[wh as int].path@;
            assert(pre.views@[wh as int].alive);
            assert(view_ok(m, pre.views@[wh as int]));
            assert((ih as nat) < view_len(m, pre.views@[wh as int]));
            lemma_node_at_push(m, p, ih);
            assert(node_at(m, p.push(ih))
                == Some(pre.handle_model(h as int)->Rule_0));
            assert(frames_at(m, p.push(ih))
                == Some(pre.handle_model(h as int)->Rule_0->Keyframes_frames));
            assert(view_len(m, self.views@[w2 as int])
                == pre.handle_model(h as int)->Rule_0->Keyframes_frames.len());
        }
        self.item(w2, i)
    }

    /// Renames the keyframes rule behind handle `h`; anything else is left
    /// unchanged.
    pub fn set_name(&mut self, h: usize, text: &str) -> (r: bool)
        requires
            old(self).wf(),
            (h as int) < old(self).handles@.len(),
        ensures
            final(self).wf(),
            final(self).views == old(self).views,
            final(self).handles == old(self).handles,
            !r ==> final(self).model() == old(self).model(),
            r == (old(self).handles@[h as int].state is Connected
                && old(self).handle_model(h as int) is Rule
                && old(self).handle_model(h as int)->Rule_0 is Keyframes),
            r ==> final(self).model() == set_node_at(
                    old(self).model(),
                    old(self).views@[old(self).handles@[h as int].state->Connected_view as int].path@
                        .push(old(self).handles@[h as int].state->Connected_index),
                    Node::Keyframes {
                        name: text@,
                        frames: old(self).handle_model(h as int)->Rule_0->Keyframes_frames,
                    },
                ),
    {
        let (w, i) = match &self.handles[h].state {
            HandleState::Connected { view, index } => (*view, *index),
            HandleState::Disconnected { .. } => {
                return false;
            }
        };
        if self.views[w].frames {
            return false;
        }
        let is_kf = match self.handle_rule(h) {
            Some(RuleNode::Keyframes { .. }) => true,
            _ => false,
        };
        if !is_kf {
            return false;
        }
        let ghost pre = *self;
        let ghost m = pre.model();
        let v = &self.views[w];
        proof {
            assert(pre.views@[w as int].alive);
            assert(view_ok(m, pre.views@[w as int]));
            assert((i as nat) < view_len(m, pre.views@[w as int]));
            lemma_node_at_push(m, pre.views@[w as int].path@, i);
        }
        let mut np = copy_usizes(&v.path);
        np.push(i);
        proof {
            assert(np@ == pre.views@[w as int].path@.push(i));
            assert(node_at(m, np@) is Some);
            assert(np@.skip(0) =~= np@);
        }
        let node = node_mut(&mut self.tree, &np, 0);
        match node {
            RuleNode::Keyframes { name, .. } => {
                *name = String::from_str(text);
            }
            _ => {
                proof {
                    assert(false);
                }
            }
        }
        proof {
            lemma_wf_after_node_edit(pre, *self, np@);
        }
        true
    }

    /// Replaces the selector list of the keyframe behind handle `h` with the
    /// parse of `text`. Malformed input, a disconnected handle or a whole
    /// rule leaves everything unchanged, without an error.
    pub fn set_key_text(&mut self, h: usize, text: &str) -> (r: bool)
        requires
            old(self).wf(),
            (h as int) < old(self).handles@.len(),
        ensures
            final(self).wf(),
            final(self).views == old(self).views,
            final(self).handles == old(self).handles,
            !r ==> final(self).model() == old(self).model(),
            r == (old(self).handles@[h as int].state is Connected
                && old(self).handle_model(h as int) is Frame
                && engine::parsed_kf_selectors(text@) is Some),
            r ==> (old(self).handle_model(h as int) matches SnapModel::Frame(f)
                    && final(self).model() == set_node_at(
                        old(self).model(),
                        old(self).views@[old(self).handles@[h as int].state->Connected_view as int].path@,
                        ({
                            let w0 = old(self).handles@[h as int].state->Connected_view;
                            let i0 = old(self).handles@[h as int].state->Connected_index;
                            let n0 = node_at(old(self).model(),
                                old(self).views@[w0 as int].path@).unwrap();
                            Node::Keyframes {
                                name: n0->Keyframes_name,
                                frames: n0->Keyframes_frames.update(i0 as int, Frame {
                                    selectors: engine::parsed_kf_selectors(text@).unwrap(),
                                    block: f.block,
                                }),
                            }
                        }),
                    )),
    {
        let sel = match engine::parse_kf_selectors(text) {
            Some(s) => s,
            None => {
                return false;
            }
        };
        let (w, i) = match &self.handles[h].state {
            HandleState::Connected { view, index } => (*view, *index),
            HandleState::Disconnected { .. } => {
                return false;
            }
        };
        if !self.views[w].frames {
            return false;
        }
        let ghost pre = *self;
        let ghost m = pre.model();
        let v = &self.views[w];
        proof {
            assert(pre.views@[w as int].alive);
            assert(view_ok(m, pre.views@[w as int]));
            assert(frames_at(m, pre.views@[w as int].path@) is Some);
            assert((i as nat) < view_len(m, pre.views@[w as int]));
            assert(node_at(m, pre.views@[w as int].path@) is Some);
        }
        let np = copy_usizes(&v.path);
        proof {
            assert(np@ == pre.views@[w as int].path@);
            assert(np@.len() > 0);
            assert(np@.skip(0) =~= np@);
        }
        let node = node_mut(&mut self.tree, &np, 0);
        match node {
            RuleNode::Keyframes { frames, .. } => {
                let ghost fb = frames@;
                let fr = &mut frames[i];
                fr.selectors = sel;
                proof {
                    assert(crate::tree::frames_view(frames@)
                        =~= crate::tree::frames_view(fb).update(i as int, frames@[i as int]@));
                }
            }
            _ => {
                proof {
                    assert(false);
                }
            }
        }
        proof {
            lemma_wf_after_node_edit(pre, *self, np@);
        }
        true
    }

    /// Parses `text` as one keyframe and appends it to the keyframes rule
    /// behind handle `h`; malformed input, a disconnected handle or a rule
    /// of another kind is silently ignored.
    pub fn append_rule(&mut self, h: usize, text: &str) -> (r: bool)
        requires
            old(self).wf(),
            (h as int) < old(self).handles@.len(),
        ensures
            final(self).wf(),
            final(self).views == old(self).views,
            final(self).handles == old(self).handles,
            !r ==> final(self).model() == old(self).model(),
            r == (old(self).handles@[h as int].state is Connected
                && old(self).handle_model(h as int) is Rule
                && old(self).handle_model(h as int)->Rule_0 is Keyframes
                && parsed_keyframe(text@) is Some),
            r ==> final(self).model() == set_node_at(
                    old(self).model(),
                    old(self).views@[old(self).handles@[h as int].state->Connected_view as int].path@
                        .push(old(self).handles@[h as int].state->Connected_index),
                    Node::Keyframes {
                        name: old(self).handle_model(h as int)->Rule_0->Keyframes_name,
                        frames: old(self).handle_model(h as int)->Rule_0->Keyframes_frames
                            .push(parsed_keyframe(text@).unwrap()),
                    },
                ),
    {
        let kf = match parse_keyframe_text(text) {
            Some(k) => k,
            None => {
                return false;
            }
        };
        let (w, i) = match &self.handles[h].state {
            HandleState::Connected { view, index } => (*view, *index),
            HandleState::Disconnected { .. } => {
                return false;
            }
        };
        if self.views[w].frames {
            return false;
        }
        let is_kf = match self.handle_rule(h) {
            Some(RuleNode::Keyframes { .. }) => true,
            _ => false,
        };
        if !is_kf {
            return false;
        }
        let ghost pre = *self;
        let ghost m = pre.model();
        let v = &self.views[w];
        proof {
            assert(pre.views@[w as int].alive);
            assert(view_ok(m, pre.views@[w as int]));
            assert((i as nat) < view_len(m, pre.views@[w as int]));
            lemma_node_at_push(m, pre.views@[w as int].path@, i);
        }
        let mut np = copy_usizes(&v.path);
        np.push(i);
        proof {
            assert(np@ == pre.views@[w as int].path@.push(i));
            assert(node_at(m, np@) is Some);
            assert(np@.skip(0) =~= np@);
        }
        let node = node_mut(&mut self.tree, &np, 0);
        match node {
            RuleNode::Keyframes { frames, .. } => {
                let ghost fb = frames@;
                let ghost kfm = kf@;
                frames.push(kf);
                proof {
                    assert(crate::tree::frames_view(frames@)
                        =~= crate::tree::frames_view(fb).push(kfm));
                }
            }
            _ => {
                proof {
                    assert(false);
                }
            }
        }
        proof {
            lemma_wf_after_node_edit(pre, *self, np@);
        }
        true
    }

    /// Removes the last keyframe of the connected keyframes rule behind
    /// handle `h` keyed by the parse of `select`, through the rule's
    /// keyframe view so the view's handles shift and disconnect as on any
    /// removal; an unparseable or unmatched selector is treated as "not
    /// found" and nothing changes.
    pub fn delete_keyframe_rule(&mut self, h: usize, select: &str)
        requires
            old(self).wf(),
            (h as int) < old(self).handles@.len(),
        ensures
            final(self).wf(),
            ({
                let hm = old(self).handle_model(h as int);
                let applicable = old(self).handles@[h as int].state is Connected
                    && hm is Rule && hm->Rule_0 is Keyframes
                    && engine::parsed_kf_selectors(select@) is Some;
                let fs = hm->Rule_0->Keyframes_frames;
                let sel = engine::parsed_kf_selectors(select@).unwrap();
                let np = old(self).views@[old(self).handles@[h as int].state->Connected_view as int]
                    .path@.push(old(self).handles@[h as int].state->Connected_index);
                if applicable && (exists|j: int| 0 <= j < fs.len()
                    && kf_lists_equal((#[trigger] fs[j]).selectors, sel)) {
                    forall|i: int| 0 <= i < fs.len() && kf_lists_equal(fs[i].selectors, sel)
                        && (forall|j: int| i < j < fs.len()
                            ==> !kf_lists_equal(#[trigger] fs[j].selectors, sel))
                        ==> final(self).model()
                            == removed_model(old(self).model(), np, i as usize, true)
                } else {
                    final(self).model() == old(self).model()
                }
            }),
    {
        let i = match self.find_keyframe(h, select) {
            Some(i) => i,
            None => {
                return;
            }
        };
        let ghost pre = *self;
        let ghost m = pre.model();
        let w2 = match self.child_rules(h) {
            Some(w2) => w2,
            None => {
                proof {
                    if pre.handles@[h as int].state is Connected {
                        let wh = pre.handles@[h as int].state->Connected_view;
                        if pre.views@[wh as int].frames {
                            assert(pre.handle_model(h as int) is Frame);
                        }
                        assert(false);
                    }
                }
                return;
            }
        };
        proof {
            let wh = pre.handles@[h as int].state->Connected_view;
            let ih = pre.handles@[h as int].state->Connected_index;
            let p = pre.views@[wh as int].path@;
            assert(pre.views@[wh as int].alive);
            assert(view_ok(m, pre.views@[wh as int]));
            assert((ih as nat) < view_len(m, pre.views@[wh as int]));
            lemma_node_at_push(m, p, ih);
            assert(node_at(m, p.push(ih))
                == Some(pre.handle_model(h as int)->Rule_0));
            assert(frames_at(m, p.push(ih))
                == Some(pre.handle_model(h as int)->Rule_0->Keyframes_frames));
            assert(view_len(m, self.views@[w2 as int])
                == pre.handle_model(h as int)->Rule_0->Keyframes_frames.len());
        }
        let res = self.delete_rule(w2, i);
        proof {
            assert(res is Ok);
            let fs = pre.handle_model(h as int)->Rule_0->Keyframes_frames;
            let sel = engine::parsed_kf_selectors(select@).unwrap();
            assert forall|i2: int| 0 <= i2 < fs.len() && kf_lists_equal(fs[i2].selectors, sel)
                && (forall|j: int| i2 < j < fs.len()
                    ==> !kf_lists_equal(#[trigger] fs[j].selectors, sel))
                implies i2 == i as int by {
                if i2 < i as int {
                    assert(kf_lists_equal(fs[i as int].selectors, sel));
                } else if i2 > i as int {
                    assert(!kf_lists_equal(fs[i2].selectors, sel));
                }
            }
        }
    }


    /// The declaration text of the style rule behind handle `h` — the
    /// declaration view's own text; None for other rule kinds.
    pub fn declaration_text(&self, h: usize) -> (r: Option<String>)
        requires
            self.wf(),
            (h as int) < self.handles@.len(),
        ensures
            match r {
                Some(t) => self.handle_model(h as int) matches SnapModel::Rule(n)
                    && n is Style
                    && t@ == engine::block_css_text(engine::style_block_of(n->Style_style)),
                None => !(self.handle_model(h as int) matches SnapModel::Rule(n) && n is Style),
            },
    {
        match self.handle_rule(h) {
            Some(RuleNode::Style { style }) => Some(engine::block_css_text_str(engine::style_block(style))),
            _ => None,
        }
    }

    /// The value text of property `name` in the style rule behind handle
    /// `h`; empty when the rule holds no such value or `h` is no style rule.
    pub fn get_property_value(&self, h: usize, name: &str) -> (r: String)
        requires
            self.wf(),
            (h as int) < self.handles@.len(),
        ensures
            ({
                let hm = self.handle_model(h as int);
                if hm is Rule && hm->Rule_0 is Style {
                    match engine::block_prop(engine::style_block_of(hm->Rule_0->Style_style), name@) {
                        Some(p) => r@ == p.0,
                        None => r@ == Seq::<char>::empty(),
                    }
                } else {
                    r@ == Seq::<char>::empty()
                }
            }),
    {
        match self.handle_rule(h) {
            Some(RuleNode::Style { style }) => {
                match engine::block_lookup(engine::style_block(style), name) {
                    Some(p) => p.0,
                    None => String::new(),
                }
            }
            _ => String::new(),
        }
    }

    /// "important" where property `name` in the style rule behind handle `h`
    /// carries the priority, empty otherwise.
    pub fn get_property_priority(&self, h: usize, name: &str) -> (r: &'static str)
        requires
            self.wf(),
            (h as int) < self.handles@.len(),
        ensures
            ({
                let hm = self.handle_model(h as int);
                let important = hm is Rule && hm->Rule_0 is Style
                    && (engine::block_prop(engine::style_block_of(hm->Rule_0->Style_style), name@)
                        matches Some(p) && p.1);
                if important {
                    r@ == "important"@
                } else {
                    r@ == ""@
                }
            }),
    {
        match self.handle_rule(h) {
            Some(RuleNode::Style { style }) => {
                match engine::block_lookup(engine::style_block(style), name) {
                    Some(p) => if p.1 {
                        "important"
                    } else {
                        ""
                    },
                    None => "",
                }
            }
            _ => "",
        }
    }

    /// Sets property `name` to the parse of `value` in the style rule behind
    /// handle `h`; an empty value removes the property instead, and
    /// malformed input, a disconnected handle or a rule of another kind
    /// leaves everything unchanged.
    pub fn set_property(&mut self, h: usize, name: &str, value: &str, important: bool) -> (r: bool)
        requires
            old(self).wf(),
            (h as int) < old(self).handles@.len(),
        ensures
            final(self).wf(),
            final(self).views == old(self).views,
            final(self).handles == old(self).handles,
            !r ==> final(self).model() == old(self).model(),
            r == (old(self).handles@[h as int].state is Connected
                && old(self).handle_model(h as int) is Rule
                && old(self).handle_model(h as int)->Rule_0 is Style
                && (value@.len() == 0 || engine::prop_parse_ok(name@, value@))),
            r ==> final(self).model() == set_node_at(
                    old(self).model(),
                    old(self).views@[old(self).handles@[h as int].state->Connected_view as int].path@
                        .push(old(self).handles@[h as int].state->Connected_index),
                    Node::Style { style: ({
                        let st = old(self).handle_model(h as int)->Rule_0->Style_style;
                        let b = engine::style_block_of(st);
                        if value@.len() == 0 {
                            engine::style_with_block(st, engine::block_without(b, name@))
                        } else {
                            engine::style_with_block(st,
                                engine::block_with_set(b, name@, value@, important))
                        }
                    }) },
                ),
    {
        let (w, i) = match &self.handles[h].state {
            HandleState::Connected { view, index } => (*view, *index),
            HandleState::Disconnected { .. } => {
                return false;
            }
        };
        let is_style = match self.handle_rule(h) {
            Some(RuleNode::Style { .. }) => true,
            _ => false,
        };
        if !is_style {
            return false;
        }
        let ghost pre = *self;
        let ghost m = pre.model();
        let v = &self.views[w];
        proof {
            assert(pre.views@[w as int].alive);
            assert(view_ok(m, pre.views@[w as int]));
            assert(!pre.views@[w as int].frames);
            assert((i as nat) < view_len(m, pre.views@[w as int]));
            lemma_node_at_push(m, pre.views@[w as int].path@, i);
        }
        let mut np = copy_usizes(&v.path);
        np.push(i);
        proof {
            assert(np@ == pre.views@[w as int].path@.push(i));
            assert(node_at(m, np@) is Some);
            assert(np@.skip(0) =~= np@);
        }
        let node = node_mut(&mut self.tree, &np, 0);
        let ok = match node {
            RuleNode::Style { style } => {
                let block = engine::style_block_mut(style);
                if value.unicode_len() == 0 {
                    engine::block_remove(block, name);
                    true
                } else {
                    engine::block_set(block, name, value, important)
                }
            }
            _ => {
                proof {
                    assert(false);
                }
                false
            }
        };
        proof {
            lemma_wf_after_node_edit(pre, *self, np@);
            if !ok {
                crate::tree::lemma_set_same(m, np@);
            }
        }
        ok
    }

    /// Removes property `name` from the style rule behind handle `h` and
    /// returns its previous value text; empty when it held none. A
    /// disconnected handle or a rule of another kind is left unchanged.
    pub fn remove_property(&mut self, h: usize, name: &str) -> (r: String)
        requires
            old(self).wf(),
            (h as int) < old(self).handles@.len(),
        ensures
            final(self).wf(),
            final(self).views == old(self).views,
            final(self).handles == old(self).handles,
            ({
                let hm = old(self).handle_model(h as int);
                if old(self).handles@[h as int].state is Connected
                    && (hm matches SnapModel::Rule(n) && n is Style) {
                    let st = hm->Rule_0->Style_style;
                    let b = engine::style_block_of(st);
                    &&& final(self).model() == set_node_at(
                        old(self).model(),
                        old(self).views@[old(self).handles@[h as int].state->Connected_view as int]
                            .path@.push(old(self).handles@[h as int].state->Connected_index),
                        Node::Style { style: engine::style_with_block(st,
                            engine::block_without(b, name@)) },
                    )
                    &&& (match engine::block_prop(b, name@) {
                        Some(p) => r@ == p.0,
                        None => r@ == Seq::<char>::empty(),
                    })
                } else {
                    final(self).model() == old(self).model() && r@ == Seq::<char>::empty()
                }
            }),
    {
        let (w, i) = match &self.handles[h].state {
            HandleState::Connected { view, index } => (*view, *index),
            HandleState::Disconnected { .. } => {
                return String::new();
            }
        };
        let is_style = match self.handle_rule(h) {
            Some(RuleNode::Style { .. }) => true,
            _ => false,
        };
        if !is_style {
            return String::new();
        }
        let previous = self.get_property_value(h, name);
        let ghost pre = *self;
        let ghost m = pre.model();
        let v = &self.views[w];
        proof {
            assert(pre.views@[w as int].alive);
            assert(view_ok(m, pre.views@[w as int]));
            assert(!pre.views@[w as int].frames);
            assert((i as nat) < view_len(m, pre.views@[w as int]));
            lemma_node_at_push(m, pre.views@[w as int].path@, i);
        }
        let mut np = copy_usizes(&v.path);
        np.push(i);
        proof {
            assert(np@ == pre.views@[w as int].path@.push(i));
            assert(node_at(m, np@) is Some);
            assert(np@.skip(0) =~= np@);
        }
        let node = node_mut(&mut self.tree, &np, 0);
        match node {
            RuleNode::Style { style } => {
                let block = engine::style_block_mut(style);
                engine::block_remove(block, name);
            }
            _ => {
                proof {
                    assert(false);
                }
            }
        }
        proof {
            lemma_wf_after_node_edit(pre, *self, np@);
        }
        previous
    }

    /// Replaces the whole declaration block of the style rule behind handle
    /// `h` with the parse of `text` — the declaration view's text setter.
    /// Malformed input, a disconnected handle or a rule of another kind
    /// leaves everything unchanged.
    pub fn set_style(&mut self, h: usize, text: &str) -> (r: bool)
        requires
            old(self).wf(),
            (h as int) < old(self).handles@.len(),
        ensures
            final(self).wf(),
            final(self).views == old(self).views,
            final(self).handles == old(self).handles,
            !r ==> final(self).model() == old(self).model(),
            r == (old(self).handles@[h as int].state is Connected
                && old(self).handle_model(h as int) is Rule
                && old(self).handle_model(h as int)->Rule_0 is Style
                && engine::parsed_block(text@) is Some),
            r ==> final(self).model() == set_node_at(
                    old(self).model(),
                    old(self).views@[old(self).handles@[h as int].state->Connected_view as int].path@
                        .push(old(self).handles@[h as int].state->Connected_index),
                    Node::Style { style: engine::style_with_block(
                        old(self).handle_model(h as int)->Rule_0->Style_style,
                        engine::parsed_block(text@).unwrap()) },
                ),
    {
        let parsed = match engine::parse_block(text) {
            Some(b) => b,
            None => {
                return false;
            }
        };
        let (w, i) = match &self.handles[h].state {
            HandleState::Connected { view, index } => (*view, *index),
            HandleState::Disconnected { .. } => {
                return false;
            }
        };
        let is_style = match self.handle_rule(h) {
            Some(RuleNode::Style { .. }) => true,
            _ => false,
        };
        if !is_style {
            return false;
        }
        let ghost pre = *self;
        let ghost m = pre.model();
        let v = &self.views[w];
        proof {
            assert(pre.views@[w as int].alive);
            assert(view_ok(m, pre.views@[w as int]));
            assert(!pre.views@[w as int].frames);
            assert((i as nat) < view_len(m, pre.views@[w as int]));
            lemma_node_at_push(m, pre.views@[w as int].path@, i);
        }
        let mut np = copy_usizes(&v.path);
        np.push(i);
        proof {
            assert(np@ == pre.views@[w as int].path@.push(i));
            assert(node_at(m, np@) is Some);
            assert(np@.skip(0) =~= np@);
        }
        let node = node_mut(&mut self.tree, &np, 0);
        match node {
            RuleNode::Style { style } => {
                let block = engine::style_block_mut(style);
                *block = parsed;
            }
            _ => {
                proof {
                    assert(false);
                }
            }
        }
        proof {
            lemma_wf_after_node_edit(pre, *self, np@);
        }
        true
    }


    /// The number of longhand property names the style rule behind handle
    /// `h` declares; zero for other rule kinds.
    pub fn style_length(&self, h: usize) -> (r: usize)
        requires
            self.wf(),
            (h as int) < self.handles@.len(),
        ensures
            ({
                let hm = self.handle_model(h as int);
                if hm is Rule && hm->Rule_0 is Style {
                    r == longhands_from(engine::block_props(
                        engine::style_block_of(hm->Rule_0->Style_style)), 0).len()
                } else {
                    r == 0
                }
            }),
    {
        match self.handle_rule(h) {
            Some(RuleNode::Style { style }) => {
                let props = engine::block_properties(engine::style_block(style));
                let names = longhand_names_from(&props, 0);
                names.len()
            }
            _ => 0,
        }
    }

    /// The longhand property name at position `i` of the style rule behind
    /// handle `h`; empty past the end or for other rule kinds.
    pub fn style_item(&self, h: usize, i: usize) -> (r: String)
        requires
            self.wf(),
            (h as int) < self.handles@.len(),
        ensures
            ({
                let hm = self.handle_model(h as int);
                if hm is Rule && hm->Rule_0 is Style {
                    let names = longhands_from(engine::block_props(
                        engine::style_block_of(hm->Rule_0->Style_style)), 0);
                    if (i as int) < names.len() {
                        r@ == names[i as int]
                    } else {
                        r@ == Seq::<char>::empty()
                    }
                } else {
                    r@ == Seq::<char>::empty()
                }
            }),
    {
        match self.handle_rule(h) {
            Some(RuleNode::Style { style }) => {
                let props = engine::block_properties(engine::style_block(style));
                let names = longhand_names_from(&props, 0);
                if i < names.len() {
                    names[i].clone()
                } else {
                    String::new()
                }
            }
            _ => String::new(),
        }
    }

    /// The number of media queries of the media rule behind handle `h`;
    /// zero for other rule kinds.
    pub fn media_length(&self, h: usize) -> (r: usize)
        requires
            self.wf(),
            (h as int) < self.handles@.len(),
        ensures
            ({
                let hm = self.handle_model(h as int);
                if hm is Rule && hm->Rule_0 is Media {
                    r == hm->Rule_0->Media_queries.len()
                } else {
                    r == 0
                }
            }),
    {
        match self.handle_rule(h) {
            Some(RuleNode::Media { queries, .. }) => queries.len(),
            _ => 0,
        }
    }

    /// The text of the media query at position `i` of the media rule behind
    /// handle `h`; None past the end or for other rule kinds.
    pub fn media_item(&self, h: usize, i: usize) -> (r: Option<String>)
        requires
            self.wf(),
            (h as int) < self.handles@.len(),
        ensures
            ({
                let hm = self.handle_model(h as int);
                if hm is Rule && hm->Rule_0 is Media && (i as int) < hm->Rule_0->Media_queries.len() {
                    r matches Some(t) && t@ == engine::query_css_text(hm->Rule_0->Media_queries[i as int])
                } else {
                    r is None
                }
            }),
    {
        match self.handle_rule(h) {
            Some(RuleNode::Media { queries, .. }) => {
                if i < queries.len() {
                    Some(engine::query_text(&queries[i]))
                } else {
                    None
                }
            }
            _ => None,
        }
    }

    /// The media query list text of the media rule behind handle `h`; None
    /// for other rule kinds.
    pub fn media_text(&self, h: usize) -> (r: Option<String>)
        requires
            self.wf(),
            (h as int) < self.handles@.len(),
        ensures
            ({
                let hm = self.handle_model(h as int);
                if hm is Rule && hm->Rule_0 is Media {
                    r matches Some(t) && t@ == media_text_from(hm->Rule_0->Media_queries, 0)
                } else {
                    r is None
                }
            }),
    {
        match self.handle_rule(h) {
            Some(RuleNode::Media { queries, .. }) => Some(media_text_str_from(queries, 0)),
            _ => None,
        }
    }

    /// Replaces the media query list of the media rule behind handle `h`
    /// with the parse of `text`. On a supports rule setting the condition is
    /// a defined no-op; malformed input or any other handle changes nothing.
    pub fn set_condition_text(&mut self, h: usize, text: &str) -> (r: bool)
        requires
            old(self).wf(),
            (h as int) < old(self).handles@.len(),
        ensures
            final(self).wf(),
            final(self).views == old(self).views,
            final(self).handles == old(self).handles,
            !r ==> final(self).model() == old(self).model(),
            r == (old(self).handles@[h as int].state is Connected
                && old(self).handle_model(h as int) is Rule
                && old(self).handle_model(h as int)->Rule_0 is Media
                && engine::parsed_media(text@) is Some),
            r ==> final(self).model() == set_node_at(
                    old(self).model(),
                    old(self).views@[old(self).handles@[h as int].state->Connected_view as int].path@
                        .push(old(self).handles@[h as int].state->Connected_index),
                    Node::Media {
                        queries: engine::parsed_media(text@).unwrap(),
                        children: old(self).handle_model(h as int)->Rule_0->Media_children,
                    },
                ),
    {
        let qs = match engine::parse_media_queries(text) {
            Some(qs) => qs,
            None => {
                return false;
            }
        };
        let (w, i) = match &self.handles[h].state {
            HandleState::Connected { view, index } => (*view, *index),
            HandleState::Disconnected { .. } => {
                return false;
            }
        };
        let is_media = match self.handle_rule(h) {
            Some(RuleNode::Media { .. }) => true,
            _ => false,
        };
        if !is_media {
            return false;
        }
        let ghost pre = *self;
        let ghost m = pre.model();
        let v = &self.views[w];
        proof {
            assert(pre.views@[w as int].alive);
            assert(view_ok(m, pre.views@[w as int]));
            assert(!pre.views@[w as int].frames);
            assert((i as nat) < view_len(m, pre.views@[w as int]));
            lemma_node_at_push(m, pre.views@[w as int].path@, i);
        }
        let mut np = copy_usizes(&v.path);
        np.push(i);
        proof {
            assert(np@ == pre.views@[w as int].path@.push(i));
            assert(node_at(m, np@) is Some);
            assert(np@.skip(0) =~= np@);
        }
        let node = node_mut(&mut self.tree, &np, 0);
        match node {
            RuleNode::Media { queries, .. } => {
                *queries = qs;
            }
            _ => {
                proof {
                    assert(false);
                }
            }
        }
        proof {
            lemma_wf_after_node_edit(pre, *self, np@);
        }
        true
    }

    /// Appends the parse of `medium` to the media rule behind handle `h`,
    /// unless the list already holds a query the engine compares equal;
    /// malformed input or any other handle changes nothing.
    pub fn append_medium(&mut self, h: usize, medium: &str) -> (r: bool)
        requires
            old(self).wf(),
            (h as int) < old(self).handles@.len(),
        ensures
            final(self).wf(),
            final(self).views == old(self).views,
            final(self).handles == old(self).handles,
            !r ==> final(self).model() == old(self).model(),
            r == (old(self).handles@[h as int].state is Connected
                && old(self).handle_model(h as int) is Rule
                && old(self).handle_model(h as int)->Rule_0 is Media
                && engine::parsed_query(medium@) is Some
                && !(exists|j: int| 0 <= j < old(self).handle_model(h as int)->Rule_0->Media_queries.len()
                    && engine::query_eq_of(
                        #[trigger] old(self).handle_model(h as int)->Rule_0->Media_queries[j],
                        engine::parsed_query(medium@).unwrap()))),
            r ==> final(self).model() == set_node_at(
                    old(self).model(),
                    old(self).views@[old(self).handles@[h as int].state->Connected_view as int].path@
                        .push(old(self).handles@[h as int].state->Connected_index),
                    Node::Media {
                        queries: old(self).handle_model(h as int)->Rule_0->Media_queries
                            .push(engine::parsed_query(medium@).unwrap()),
                        children: old(self).handle_model(h as int)->Rule_0->Media_children,
                    },
                ),
    {
        let q = match engine::parse_one_query(medium) {
            Some(q) => q,
            None => {
                return false;
            }
        };
        let (w, i) = match &self.handles[h].state {
            HandleState::Connected { view, index } => (*view, *index),
            HandleState::Disconnected { .. } => {
                return false;
            }
        };
        let is_media = match self.handle_rule(h) {
            Some(RuleNode::Media { .. }) => true,
            _ => false,
        };
        if !is_media {
            return false;
        }
        let ghost pre = *self;
        let ghost m = pre.model();
        let v = &self.views[w];
        proof {
            assert(pre.views@[w as int].alive);
            assert(view_ok(m, pre.views@[w as int]));
            assert(!pre.views@[w as int].frames);
            assert((i as nat) < view_len(m, pre.views@[w as int]));
            lemma_node_at_push(m, pre.views@[w as int].path@, i);
        }
        let mut np = copy_usizes(&v.path);
        np.push(i);
        proof {
            assert(np@ == pre.views@[w as int].path@.push(i));
            assert(node_at(m, np@) is Some);
            assert(np@.skip(0) =~= np@);
        }
        let node = node_mut(&mut self.tree, &np, 0);
        let pushed = match node {
            RuleNode::Media { queries, .. } => {
                let mut k: usize = 0;
                let mut found = false;
                while k < queries.len()
                    invariant
                        k <= queries@.len(),
                        found == (exists|j: int| 0 <= j < k
                            && engine::query_eq_of(#[trigger] queries@[j], q)),
                    decreases queries@.len() - k,
                {
                    if engine::query_eq(&queries[k], &q) {
                        found = true;
                    }
                    k = k + 1;
                }
                if found {
                    false
                } else {
                    queries.push(q);
                    true
                }
            }
            _ => {
                proof {
                    assert(false);
                }
                false
            }
        };
        proof {
            lemma_wf_after_node_edit(pre, *self, np@);
            if !pushed {
                crate::tree::lemma_set_same(m, np@);
            }
        }
        pushed
    }

    /// Removes every query the engine compares equal to the parse of
    /// `medium` from the media rule behind handle `h`. No match is reported
    /// as NotFound; malformed input or any other handle changes nothing and
    /// raises no error.
    pub fn delete_medium(&mut self, h: usize, medium: &str) -> (r: Result<(), CssomError>)
        requires
            old(self).wf(),
            (h as int) < old(self).handles@.len(),
        ensures
            final(self).wf(),
            final(self).views == old(self).views,
            final(self).handles == old(self).handles,
            r is Err ==> r == Err::<(), CssomError>(CssomError::NotFound)
                && final(self).model() == old(self).model(),
            ({
                let hm = old(self).handle_model(h as int);
                let ok = old(self).handles@[h as int].state is Connected
                    && hm is Rule && hm->Rule_0 is Media
                    && engine::parsed_query(medium@) is Some;
                if ok {
                    let q = engine::parsed_query(medium@).unwrap();
                    let kept = media_kept(hm->Rule_0->Media_queries, q);
                    if kept.len() == hm->Rule_0->Media_queries.len() {
                        r == Err::<(), CssomError>(CssomError::NotFound)
                    } else {
                        r == Ok::<(), CssomError>(()) && final(self).model() == set_node_at(
                            old(self).model(),
                            old(self).views@[old(self).handles@[h as int].state->Connected_view as int]
                                .path@.push(old(self).handles@[h as int].state->Connected_index),
                            Node::Media {
                                queries: kept,
                                children: hm->Rule_0->Media_children,
                            },
                        )
                    }
                } else {
                    r == Ok::<(), CssomError>(()) && final(self).model() == old(self).model()
                }
            }),
    {
        let q = match engine::parse_one_query(medium) {
            Some(q) => q,
            None => {
                return Ok(());
            }
        };
        let (w, i) = match &self.handles[h].state {
            HandleState::Connected { view, index } => (*view, *index),
            HandleState::Disconnected { .. } => {
                return Ok(());
            }
        };
        let is_media = match self.handle_rule(h) {
            Some(RuleNode::Media { .. }) => true,
            _ => false,
        };
        if !is_media {
            return Ok(());
        }
        let ghost pre = *self;
        let ghost m = pre.model();
        let v = &self.views[w];
        proof {
            assert(pre.views@[w as int].alive);
            assert(view_ok(m, pre.views@[w as int]));
            assert(!pre.views@[w as int].frames);
            assert((i as nat) < view_len(m, pre.views@[w as int]));
            lemma_node_at_push(m, pre.views@[w as int].path@, i);
        }
        let mut np = copy_usizes(&v.path);
        np.push(i);
        proof {
            assert(np@ == pre.views@[w as int].path@.push(i));
            assert(node_at(m, np@) is Some);
            assert(np@.skip(0) =~= np@);
        }
        let node = node_mut(&mut self.tree, &np, 0);
        let removed = match node {
            RuleNode::Media { queries, .. } => {
                let ghost qb = queries@;
                let mut kept: Vec<parcel_css::media_query::MediaQuery<'static>> = Vec::new();
                let mut k: usize = 0;
                proof {
                    reveal_with_fuel(Seq::<parcel_css::media_query::MediaQuery<'static>>::filter, 2);
                    assert(qb.subrange(0, 0) =~= Seq::<parcel_css::media_query::MediaQuery<'static>>::empty());
                    assert(kept@ =~= media_kept(qb.subrange(0, 0), q));
                }
                while k < queries.len()
                    invariant
                        k <= qb.len(),
                        queries@ == qb,
                        kept@ == media_kept(qb.subrange(0, k as int), q),
                    decreases qb.len() - k,
                {
                    proof {
                        reveal_with_fuel(Seq::<parcel_css::media_query::MediaQuery<'static>>::filter, 2);
                        assert(qb.subrange(0, k + 1).drop_last() =~= qb.subrange(0, k as int));
                        assert(qb.subrange(0, k + 1).last() == qb[k as int]);
                    }
                    if !engine::query_eq(&queries[k], &q) {
                        kept.push(engine::clone_query(&queries[k]));
                    }
                    k = k + 1;
                }
                proof {
                    assert(qb.subrange(0, qb.len() as int) =~= qb);
                }
                if kept.len() == queries.len() {
                    false
                } else {
                    *queries = kept;
                    true
                }
            }
            _ => {
                proof {
                    assert(false);
                }
                false
            }
        };
        proof {
            lemma_wf_after_node_edit(pre, *self, np@);
            if !removed {
                crate::tree::lemma_set_same(m, np@);
            }
        }
        if removed {
            Ok(())
        } else {
            Err(CssomError::NotFound)
        }
    }

    /// The legacy rule-adding entry point: wraps the selector and the
    /// declarations into one rule text, inserts it at `index` of the
    /// top-level sequence exactly as `insert_rule` would, and reports the
    /// legacy sentinel `-1` — never the used index — on success.
    pub fn add_rule(&mut self, selector: &str, style: &str, index: usize) -> (r: Result<i32, CssomError>)
        requires
            old(self).wf(),
        ensures
            final(self).wf(),
            ({
                let composed = selector@ + " { "@ + style@ + " }"@;
                let m = old(self).model();
                let vr = old(self).views@[0];
                if (index as nat) > view_len(m, vr) {
                    r == Err::<i32, CssomError>(CssomError::OutOfRange) && *final(self) == *old(self)
                } else if parsed_rule(composed) is None {
                    r == Err::<i32, CssomError>(CssomError::Syntax) && *final(self) == *old(self)
                } else {
                    r == Ok::<i32, CssomError>(-1i32) && final(self).model() == edit_model(
                        m,
                        vr.path@,
                        rules_at(m, vr.path@).unwrap()
                            .insert(index as int, parsed_rule(composed).unwrap()),
                    )
                }
            }),
    {
        let mut text = String::from_str(selector);
        text.append(" { ");
        text.append(style);
        text.append(" }");
        match self.insert_rule(0, text.as_str(), index) {
            Ok(_) => Ok(-1),
            Err(e) => Err(e),
        }
    }

    /// The legacy alias for removing a rule from a sequence view: observably
    /// `delete_rule`, with its whole contract.
    pub fn remove_rule(&mut self, w: usize, index: usize) -> (r: Result<(), CssomError>)
        requires
            old(self).wf(),
            (w as int) < old(self).views@.len(),
        ensures
            final(self).wf(),
            !old(self).views@[w as int].alive ==> r == Err::<(), CssomError>(CssomError::Detached)
                && *final(self) == *old(self),
            old(self).views@[w as int].alive
                && (index as nat) >= view_len(old(self).model(), old(self).views@[w as int])
                ==> r == Err::<(), CssomError>(CssomError::OutOfRange) && *final(self) == *old(self),
            old(self).views@[w as int].alive
                && (index as nat) < view_len(old(self).model(), old(self).views@[w as int])
                ==> {
                    let m = old(self).model();
                    let vr = old(self).views@[w as int];
                    let p = vr.path@;
                    &&& r == Ok::<(), CssomError>(())
                    &&& final(self).model() == removed_model(m, p, index, vr.frames)
                    &&& final(self).views@.len() == old(self).views@.len()
                    &&& final(self).handles@.len() == old(self).handles@.len()
                    &&& ((index as int) < vr.cache@.len() && vr.cache@[index as int] is Some ==> {
                            let h = vr.cache@[index as int].unwrap() as int;
                            &&& final(self).handles@[h].parent is None
                            &&& final(self).handles@[h].state matches HandleState::Disconnected { snapshot }
                            &&& final(self).handles@[h].state->Disconnected_snapshot@
                                == Self::slot_model(m, vr, index as int)
                        })
                },
    {
        self.delete_rule(w, index)
    }

    /// Replaces the selector list of the style rule behind handle `h` with
    /// the parse of `text`. Malformed input, a disconnected handle or a rule
    /// of another kind leaves everything unchanged, without an error.
    pub fn set_selector_text(&mut self, h: usize, text: &str) -> (r: bool)
        requires
            old(self).wf(),
            (h as int) < old(self).handles@.len(),
        ensures
            final(self).wf(),
            final(self).views == old(self).views,
            final(self).handles == old(self).handles,
            !r ==> final(self).model() == old(self).model(),
            r == (old(self).handles@[h as int].state is Connected
                && old(self).handle_model(h as int) is Rule
                && old(self).handle_model(h as int)->Rule_0 is Style
                && engine::selector_parse_ok(text@)),
            r ==> final(self).model() == set_node_at(
                    old(self).model(),
                    old(self).views@[old(self).handles@[h as int].state->Connected_view as int].path@
                        .push(old(self).handles@[h as int].state->Connected_index),
                    Node::Style {
                        style: engine::style_with_selector(
                            old(self).handle_model(h as int)->Rule_0->Style_style, text@),
                    },
                ),
    {
        let (w, i) = match &self.handles[h].state {
            HandleState::Connected { view, index } => (*view, *index),
            HandleState::Disconnected { .. } => {
                return false;
            }
        };
        let is_style = match self.handle_rule(h) {
            Some(RuleNode::Style { .. }) => true,
            _ => false,
        };
        if !is_style {
            return false;
        }
        let ghost pre = *self;
        let ghost m = pre.model();
        let v = &self.views[w];
        proof {
            assert(pre.views@[w as int].alive);
            assert(view_ok(m, pre.views@[w as int]));
            assert(!pre.views@[w as int].frames);
            assert((i as nat) < view_len(m, pre.views@[w as int]));
            lemma_node_at_push(m, pre.views@[w as int].path@, i);
        }
        let mut np = copy_usizes(&v.path);
        np.push(i);
        proof {
            assert(np@ == pre.views@[w as int].path@.push(i));
            assert(node_at(m, np@) is Some);
            assert(np@.skip(0) =~= np@);
        }
        let node = node_mut(&mut self.tree, &np, 0);
        let ok = match node {
            RuleNode::Style { style } => engine::style_set_selector_text(style, text),
            _ => {
                proof {
                    assert(false);
                }
                false
            }
        };
        proof {
            lemma_wf_after_node_edit(pre, *self, np@);
            if !ok {
                assert(self.model() == set_node_at(m, np@, node_at(m, np@).unwrap()));
                crate::tree::lemma_set_same(m, np@);
            }
        }
        ok
    }
}

} // verus!
