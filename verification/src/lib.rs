use vstd::prelude::*;

pub mod error;
pub mod fs;
pub mod mem;
pub mod order;

verus! {

/// Tri-state answer to "may this node have children?".
#[derive(Clone, Copy, PartialEq, Eq, Structural, Debug)]
pub enum HasChildren {
    False,
    Maybe,
    True,
}

/// Abstract value of a tree node: its label, its child-bearing
/// classification, and the abstract values of its children.
#[verifier::ext_equal]
pub ghost struct Model {
    pub label: Seq<char>,
    pub kind: HasChildren,
    pub children: Seq<Model>,
}

/// Height of a model tree: 1 for the node itself plus the height of
/// its tallest child subtree.
pub open spec fn height(m: Model) -> nat
    decreases m, m.children.len() + 1,
{
    1 + kids_height(m, m.children.len() as int)
}

/// Height of the tallest subtree among the first `n` children of `m`.
pub open spec fn kids_height(m: Model, n: int) -> nat
    decreases m, n,
{
    if n <= 0 || n > m.children.len() {
        0
    } else {
        let h = height(m.children[n - 1]);
        let rest = kids_height(m, n - 1);
        if h > rest {
            h
        } else {
            rest
        }
    }
}

/// Every child of a model tree sits strictly below the tree itself.
proof fn lemma_kids_height_bound(m: Model, n: int)
    requires
        n <= m.children.len(),
    ensures
        forall|j: int| 0 <= j < n ==> height(#[trigger] m.children[j]) <= kids_height(m, n),
    decreases n,
{
    if n > 0 {
        lemma_kids_height_bound(m, n - 1);
    }
}

pub proof fn lemma_child_height(m: Model, j: int)
    requires
        0 <= j < m.children.len(),
    ensures
        height(m.children[j]) < height(m),
{
    lemma_kids_height_bound(m, m.children.len() as int);
}

pub trait Node: Sized {
    /// The abstract tree value this node stands for. An implementation the
    /// contracts are to say anything about gives it a body; one written and
    /// used outside any proof may leave the default, of which nothing is
    /// known.
    open spec fn model(&self) -> Model {
        vstd::pervasive::arbitrary()
    }

    fn render_label(&self) -> (r: String)
        ensures
            r@ == self.model().label,
    ;

    fn has_nodes(&self) -> (r: HasChildren)
        ensures
            r == self.model().kind,
    ;

    fn nodes(&self) -> (r: Vec<Self>)
        requires
            !(self.model().kind is False),
        ensures
            r@.len() == self.model().children.len(),
            forall|i: int|
                0 <= i < r@.len() ==> (#[trigger] r@[i]).model() == self.model().children[i],
    ;
}

/// One callback invocation of a walk: the node handed over (`None` marks the
/// end of a sibling list), the depth reported with it, and what the callback
/// answered.
pub ghost struct Visit<T> {
    pub node: Option<T>,
    pub depth: u64,
    pub cont: bool,
}

/// The visits a walk of one level performs, given the models `ms` of the
/// children still to visit in order, the depth reported for them, and a bound
/// strictly above every child's height.
///
/// Each child is visited in turn; a `false` answer ends the level at once,
/// with no descent and no later siblings. After a `true` answer the child's
/// own level follows, unless the child ruled children out. A final sentinel
/// visit of `None` closes the level.
pub open spec fn level_walk<T: Node, F: Fn(Option<&T>, u64) -> bool>(
    f: F,
    bound: nat,
    ms: Seq<Model>,
    depth: u64,
    log: Seq<Visit<T>>,
) -> bool
    decreases bound, ms.len(),
{
    if ms.len() == 0 {
        &&& log.len() == 1
        &&& log[0].node is None
        &&& log[0].depth == depth
        &&& call_ensures(f, (None::<&T>, depth), log[0].cont)
    } else {
        &&& log.len() >= 1
        &&& log[0].node is Some
        &&& log[0].node->0.model() == ms[0]
        &&& log[0].depth == depth
        &&& call_ensures(f, (Some(&log[0].node->0), depth), log[0].cont)
        &&& (if !log[0].cont {
            log.len() == 1
        } else if ms[0].kind == HasChildren::False {
            level_walk(f, bound, ms.drop_first(), depth, log.drop_first())
        } else {
            &&& height(ms[0]) < bound
            &&& exists|k: int|
                {
                    &&& 1 <= k <= log.len()
                    &&& level_walk(
                        f,
                        height(ms[0]),
                        crate::order::sort_models(ms[0].children),
                        (depth + 1) as u64,
                        log.subrange(1, k),
                    )
                    &&& level_walk(f, bound, ms.drop_first(), depth, log.skip(k))
                }
        })
    }
}

/// The whole walk of `root`: one visit of the root at depth 0, then, if the
/// callback said to go on and the root did not rule children out, the walk of
/// the root's children in ascending label order at depth 1.
pub open spec fn walk_ok<T: Node, F: Fn(Option<&T>, u64) -> bool>(
    f: F,
    root: T,
    log: Seq<Visit<T>>,
) -> bool {
    &&& log.len() >= 1
    &&& log[0].node == Some(root)
    &&& log[0].depth == 0
    &&& call_ensures(f, (Some(&root), 0u64), log[0].cont)
    &&& (if !log[0].cont || root.model().kind == HasChildren::False {
        log.len() == 1
    } else {
        level_walk(
            f,
            height(root.model()),
            crate::order::sort_models(root.model().children),
            1u64,
            log.skip(1),
        )
    })
}

/// A root that rules children out is never expanded: the walk is its own
/// visit and nothing else. In particular no child enumeration and no sentinel
/// visit takes place below it.
pub proof fn lemma_leaf_root<T: Node, F: Fn(Option<&T>, u64) -> bool>(
    f: F,
    root: T,
    log: Seq<Visit<T>>,
)
    requires
        walk_ok(f, root, log),
        root.model().kind == HasChildren::False,
    ensures
        log.len() == 1,
        log[0].node == Some(root),
{
}

/// A `false` answer ends its level at once: nothing of that level follows it,
/// neither a descent into the answered node nor a later sibling.
pub proof fn lemma_stop_ends_level<T: Node, F: Fn(Option<&T>, u64) -> bool>(
    f: F,
    bound: nat,
    ms: Seq<Model>,
    depth: u64,
    log: Seq<Visit<T>>,
)
    requires
        level_walk(f, bound, ms, depth, log),
        !log[0].cont,
        ms.len() > 0,
    ensures
        log.len() == 1,
{
}

/// A level whose children turn out absent performs exactly one sentinel
/// visit and no node visit: a container that comes up empty behaves as a
/// leaf, but for the sentinel.
pub proof fn lemma_empty_level<T: Node, F: Fn(Option<&T>, u64) -> bool>(
    f: F,
    bound: nat,
    m: Model,
    depth: u64,
    log: Seq<Visit<T>>,
)
    requires
        m.children.len() == 0,
        level_walk(f, bound, crate::order::sort_models(m.children), depth, log),
    ensures
        log.len() == 1,
        log[0].node is None,
        log[0].depth == depth,
{
}

/// An expandable root without children: the walk is the root visit plus one
/// sentinel visit at depth 1 — the same node visits as for a leaf root.
pub proof fn lemma_empty_container_root<T: Node, F: Fn(Option<&T>, u64) -> bool>(
    f: F,
    root: T,
    log: Seq<Visit<T>>,
)
    requires
        walk_ok(f, root, log),
        log[0].cont,
        root.model().kind != HasChildren::False,
        root.model().children.len() == 0,
    ensures
        log.len() == 2,
        log[1].node is None,
        log[1].depth == 1,
{
    lemma_empty_level(f, height(root.model()), root.model(), 1u64, log.skip(1));
    assert(log[1] == log.skip(1)[0]);
}

/// Depth accounting: every visit of a level reports at least the level's
/// depth, and the level's first visit reports exactly it.
pub proof fn lemma_level_walk_depths<T: Node, F: Fn(Option<&T>, u64) -> bool>(
    f: F,
    bound: nat,
    ms: Seq<Model>,
    depth: u64,
    log: Seq<Visit<T>>,
)
    requires
        level_walk(f, bound, ms, depth, log),
        depth + bound <= u64::MAX,
    ensures
        forall|j: int| 0 <= j < log.len() ==> (#[trigger] log[j]).depth >= depth,
        log[0].depth == depth,
    decreases bound, ms.len(),
{
    if ms.len() == 0 {
    } else if !log[0].cont {
    } else if ms[0].kind == HasChildren::False {
        lemma_level_walk_depths(f, bound, ms.drop_first(), depth, log.drop_first());
        assert forall|j: int| 0 <= j < log.len() implies (#[trigger] log[j]).depth >= depth by {
            if j >= 1 {
                assert(log[j] == log.drop_first()[j - 1]);
            }
        }
    } else {
        let k = choose|k: int|
            {
                &&& 1 <= k <= log.len()
                &&& level_walk(
                    f,
                    height(ms[0]),
                    crate::order::sort_models(ms[0].children),
                    (depth + 1) as u64,
                    log.subrange(1, k),
                )
                &&& level_walk(f, bound, ms.drop_first(), depth, log.skip(k))
            };
        lemma_level_walk_depths(
            f,
            height(ms[0]),
            crate::order::sort_models(ms[0].children),
            (depth + 1) as u64,
            log.subrange(1, k),
        );
        lemma_level_walk_depths(f, bound, ms.drop_first(), depth, log.skip(k));
        assert forall|j: int| 0 <= j < log.len() implies (#[trigger] log[j]).depth >= depth by {
            if 1 <= j < k {
                assert(log[j] == log.subrange(1, k)[j - 1]);
            } else if j >= k {
                assert(log[j] == log.skip(k)[j - k]);
            }
        }
    }
}

/// Depth accounting for a whole walk: the root is reported at depth 0 and
/// every visit below it at depth 1 or more.
pub proof fn lemma_walk_depths<T: Node, F: Fn(Option<&T>, u64) -> bool>(
    f: F,
    root: T,
    log: Seq<Visit<T>>,
)
    requires
        walk_ok(f, root, log),
        height(root.model()) < u64::MAX,
    ensures
        log[0].depth == 0,
        forall|j: int| 1 <= j < log.len() ==> (#[trigger] log[j]).depth >= 1,
{
    if log[0].cont && root.model().kind != HasChildren::False {
        lemma_level_walk_depths(
            f,
            height(root.model()),
            crate::order::sort_models(root.model().children),
            1u64,
            log.skip(1),
        );
        assert forall|j: int| 1 <= j < log.len() implies (#[trigger] log[j]).depth >= 1 by {
            assert(log[j] == log.skip(1)[j - 1]);
        }
    }
}

/// What one visit shows of itself: the visited node's model — `None` for a
/// sentinel — and the depth reported with it.
pub open spec fn visit_shape<T: Node>(v: Visit<T>) -> (Option<Model>, u64) {
    (
        match v.node {
            Some(n) => Some(n.model()),
            None => None::<Model>,
        },
        v.depth,
    )
}

pub open spec fn shapes_of<T: Node>(log: Seq<Visit<T>>) -> Seq<(Option<Model>, u64)> {
    log.map_values(|v: Visit<T>| visit_shape(v))
}

/// The complete visit sequence of one level when nothing stops the walk:
/// each child in order, its whole subtree right after it, and a closing
/// sentinel. The bound must sit strictly above every child's height, as it
/// does along a real walk.
pub open spec fn full_level_visits(bound: nat, ms: Seq<Model>, depth: u64) -> Seq<
    (Option<Model>, u64),
>
    decreases bound, ms.len(),
{
    if ms.len() == 0 {
        seq![(None::<Model>, depth)]
    } else if ms[0].kind == HasChildren::False {
        seq![(Some(ms[0]), depth)] + full_level_visits(bound, ms.drop_first(), depth)
    } else if height(ms[0]) < bound {
        seq![(Some(ms[0]), depth)] + full_level_visits(
            height(ms[0]),
            crate::order::sort_models(ms[0].children),
            (depth + 1) as u64,
        ) + full_level_visits(bound, ms.drop_first(), depth)
    } else {
        Seq::<(Option<Model>, u64)>::empty()
    }
}

/// Completeness of a level: under a callback that never stops, the level's
/// log is exactly the full visit sequence — every child and every subtree,
/// in ascending label order, nothing skipped, nothing doubled.
pub proof fn lemma_full_level<T: Node, F: Fn(Option<&T>, u64) -> bool>(
    f: F,
    bound: nat,
    ms: Seq<Model>,
    depth: u64,
    log: Seq<Visit<T>>,
)
    requires
        level_walk(f, bound, ms, depth, log),
        forall|args: (Option<&T>, u64), ret: bool| #[trigger] call_ensures(f, args, ret) ==> ret,
    ensures
        shapes_of(log) == full_level_visits(bound, ms, depth),
    decreases bound, ms.len(),
{
    if ms.len() == 0 {
        assert(shapes_of(log) =~= seq![(None::<Model>, depth)]);
    } else {
        assert(log[0].cont);
        if ms[0].kind == HasChildren::False {
            lemma_full_level(f, bound, ms.drop_first(), depth, log.drop_first());
            assert(shapes_of(log) =~= seq![(Some(ms[0]), depth)] + shapes_of(log.drop_first()));
        } else {
            let k = choose|k: int|
                {
                    &&& 1 <= k <= log.len()
                    &&& level_walk(
                        f,
                        height(ms[0]),
                        crate::order::sort_models(ms[0].children),
                        (depth + 1) as u64,
                        log.subrange(1, k),
                    )
                    &&& level_walk(f, bound, ms.drop_first(), depth, log.skip(k))
                };
            lemma_full_level(
                f,
                height(ms[0]),
                crate::order::sort_models(ms[0].children),
                (depth + 1) as u64,
                log.subrange(1, k),
            );
            lemma_full_level(f, bound, ms.drop_first(), depth, log.skip(k));
            assert(shapes_of(log) =~= seq![(Some(ms[0]), depth)] + shapes_of(log.subrange(1, k))
                + shapes_of(log.skip(k)));
        }
    }
}

/// Completeness of a whole walk: under a callback that never stops, the walk
/// visits the root and then the root's entire tree, in exactly the full
/// visit sequence.
pub proof fn lemma_full_walk<T: Node, F: Fn(Option<&T>, u64) -> bool>(
    f: F,
    root: T,
    log: Seq<Visit<T>>,
)
    requires
        walk_ok(f, root, log),
        forall|args: (Option<&T>, u64), ret: bool| #[trigger] call_ensures(f, args, ret) ==> ret,
    ensures
        shapes_of(log) == seq![(Some(root.model()), 0u64)] + (if root.model().kind
            == HasChildren::False {
            Seq::<(Option<Model>, u64)>::empty()
        } else {
            full_level_visits(
                height(root.model()),
                crate::order::sort_models(root.model().children),
                1u64,
            )
        }),
{
    assert(log[0].cont);
    if root.model().kind == HasChildren::False {
        assert(shapes_of(log) =~= seq![(Some(root.model()), 0u64)]);
    } else {
        lemma_full_level(
            f,
            height(root.model()),
            crate::order::sort_models(root.model().children),
            1u64,
            log.skip(1),
        );
        assert(shapes_of(log) =~= seq![(Some(root.model()), 0u64)] + shapes_of(log.skip(1)));
    }
}

/// Rendered labels are a function of the unmutated node: any two results of
/// rendering the same node are identical.
pub proof fn lemma_label_idempotent<T: Node>(n: &T, r1: String, r2: String)
    requires
        call_ensures(T::render_label, (n,), r1),
        call_ensures(T::render_label, (n,), r2),
    ensures
        r1@ == r2@,
{
}

fn inner<T: Node, F: Fn(Option<&T>, u64) -> bool + Copy>(node: &T, f: F, depth: u64) -> (log:
    Ghost<Seq<Visit<T>>>)
    requires
        forall|arg: (Option<&T>, u64)| #[trigger] call_requires(f, arg),
        node.model().kind != HasChildren::False,
        depth + height(node.model()) <= u64::MAX,
    ensures
        level_walk(
            f,
            height(node.model()),
            crate::order::sort_models(node.model().children),
            (depth + 1) as u64,
            log@,
        ),
    decreases height(node.model()),
{
    let ghost m = node.model();
    let ghost hm = height(m);
    let kids = node.nodes();
    proof {
        assert(crate::order::models_of(kids@) =~= m.children);
    }
    let children = crate::order::sort_nodes(kids);
    let ghost ms = crate::order::sort_models(m.children);
    proof {
        assert(hm >= 1);
    }
    let d = depth + 1;
    let mut i: usize = 0;
    let ghost mut lg = Seq::<Visit<T>>::empty();
    proof {
        assert forall|rest: Seq<Visit<T>>|
            #[trigger] level_walk(f, hm, ms.skip(i as int), d, rest) implies level_walk(
            f,
            hm,
            ms,
            d,
            lg + rest,
        ) by {
            assert(ms.skip(0) =~= ms);
            assert(lg + rest =~= rest);
        }
    }
    loop
        invariant
            forall|arg: (Option<&T>, u64)| #[trigger] call_requires(f, arg),
            i <= children@.len(),
            crate::order::models_of(children@) == ms,
            ms == crate::order::sort_models(m.children),
            m == node.model(),
            hm == height(m),
            m.kind != HasChildren::False,
            depth + hm <= u64::MAX,
            d == depth + 1,
            forall|rest: Seq<Visit<T>>|
                #[trigger] level_walk(f, hm, ms.skip(i as int), d, rest) ==> level_walk(
                    f,
                    hm,
                    ms,
                    d,
                    lg + rest,
                ),
        decreases children@.len() - i,
    {
        if i < children.len() {
            let child = &children[i];
            let cont = f(Some(child), d);
            let ghost v = (Visit { node: Some(children@[i as int]), depth: d, cont });
            proof {
                assert(ms.skip(i as int)[0] == ms[i as int]);
                assert(children@[i as int].model() == ms[i as int]);
            }
            if !cont {
                proof {
                    assert(level_walk(f, hm, ms.skip(i as int), d, seq![v]));
                }
                return Ghost(lg + seq![v]);
            }
            let ghost seg = seq![v];
            let mut descend = false;
            match child.has_nodes() {
                HasChildren::False => {},
                _ => {
                    descend = true;
                },
            }
            if descend {
                proof {
                    crate::order::lemma_sorted_child_height(m, i as int);
                }
                let sub = inner(child, f, d);
                proof {
                    seg = seq![v] + sub@;
                    let k = seg.len() as int;
                    assert forall|rest: Seq<Visit<T>>|
                        #[trigger] level_walk(f, hm, ms.skip(i + 1), d, rest) implies level_walk(
                        f,
                        hm,
                        ms.skip(i as int),
                        d,
                        seg + rest,
                    ) by {
                        let whole = seg + rest;
                        assert(whole[0] == v);
                        assert(whole.subrange(1, k) =~= sub@);
                        assert(whole.skip(k) =~= rest);
                        assert(ms.skip(i as int).drop_first() =~= ms.skip(i + 1));
                        assert(1 <= k <= whole.len() && level_walk(
                            f,
                            height(ms.skip(i as int)[0]),
                            crate::order::sort_models(ms.skip(i as int)[0].children),
                            (d + 1) as u64,
                            whole.subrange(1, k),
                        ) && level_walk(f, hm, ms.skip(i as int).drop_first(), d, whole.skip(k)));
                    }
                }
            } else {
                proof {
                    assert forall|rest: Seq<Visit<T>>|
                        #[trigger] level_walk(f, hm, ms.skip(i + 1), d, rest) implies level_walk(
                        f,
                        hm,
                        ms.skip(i as int),
                        d,
                        seg + rest,
                    ) by {
                        let whole = seg + rest;
                        assert(whole[0] == v);
                        assert(whole.drop_first() =~= rest);
                        assert(ms.skip(i as int).drop_first() =~= ms.skip(i + 1));
                    }
                }
            }
            proof {
                let lg0 = lg;
                lg = lg + seg;
                assert forall|rest: Seq<Visit<T>>|
                    #[trigger] level_walk(f, hm, ms.skip(i + 1), d, rest) implies level_walk(
                    f,
                    hm,
                    ms,
                    d,
                    lg + rest,
                ) by {
                    assert(level_walk(f, hm, ms.skip(i as int), d, seg + rest));
                    assert(lg0 + (seg + rest) =~= lg + rest);
                    assert(level_walk(f, hm, ms, d, lg0 + (seg + rest)));
                }
            }
            i += 1;
        } else {
            let cont = f(None, d);
            let ghost v = (Visit { node: None, depth: d, cont });
            proof {
                assert(ms.skip(i as int) =~= Seq::<Model>::empty());
                assert(level_walk(f, hm, ms.skip(i as int), d, seq![v]));
            }
            return Ghost(lg + seq![v]);
        }
    }
}

/// Walks the tree under `node` depth first, visiting children in ascending
/// label order, and hands every visit to `f` together with its depth. A
/// `false` answer ends the current level at once; the levels above go on. The
/// returned record lists every callback invocation, in order.
pub fn recurse<T: Node, F: Fn(Option<&T>, u64) -> bool + Copy>(node: &T, f: F) -> (log: Ghost<
    Seq<Visit<T>>,
>)
    requires
        forall|arg: (Option<&T>, u64)| #[trigger] call_requires(f, arg),
        height(node.model()) <= u64::MAX,
    ensures
        walk_ok(f, *node, log@),
{
    let cont = f(Some(node), 0);
    let ghost v = (Visit { node: Some(*node), depth: 0u64, cont });
    let ghost root_only = seq![v];
    if !cont {
        return Ghost(root_only);
    }
    let mut descend = false;
    match node.has_nodes() {
        HasChildren::False => {},
        _ => {
            descend = true;
        },
    }
    if !descend {
        return Ghost(root_only);
    }
    let sub = inner(node, f, 0);
    proof {
        assert((seq![v] + sub@).skip(1) =~= sub@);
    }
    Ghost(seq![v] + sub@)
}

} // verus!
