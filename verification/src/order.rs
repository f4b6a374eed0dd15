//! The order in which a level's children are visited: ascending by rendered
//! label, compared lexicographically by code point, ties kept in enumeration
//! order (a stable sort).

use crate::{height, lemma_child_height, Model, Node};
use vstd::prelude::*;
use vstd::seq_lib::group_to_multiset_ensures;

verus! {

/// Lexicographic "less than or equal" on character sequences, by code point.
pub open spec fn lex_le(a: Seq<char>, b: Seq<char>) -> bool
    decreases a.len(),
{
    if a.len() == 0 {
        true
    } else if b.len() == 0 {
        false
    } else if a[0] == b[0] {
        lex_le(a.drop_first(), b.drop_first())
    } else {
        (a[0] as int) < (b[0] as int)
    }
}

/// `lex_le` never orders two sequences both ways off: it is total.
pub proof fn lemma_lex_le_total(a: Seq<char>, b: Seq<char>)
    ensures
        lex_le(a, b) || lex_le(b, a),
    decreases a.len(),
{
    if a.len() > 0 && b.len() > 0 && a[0] == b[0] {
        lemma_lex_le_total(a.drop_first(), b.drop_first());
    }
}

/// `lex_le` is transitive.
pub proof fn lemma_lex_le_trans(a: Seq<char>, b: Seq<char>, c: Seq<char>)
    requires
        lex_le(a, b),
        lex_le(b, c),
    ensures
        lex_le(a, c),
    decreases a.len(),
{
    if a.len() > 0 && b.len() > 0 && c.len() > 0 && a[0] == b[0] && b[0] == c[0] {
        lemma_lex_le_trans(a.drop_first(), b.drop_first(), c.drop_first());
    }
}

/// Compares two rendered labels in the walk's order.
pub fn label_le(a: &str, b: &str) -> (r: bool)
    ensures
        r == lex_le(a@, b@),
{
    let a_len = a.unicode_len();
    let b_len = b.unicode_len();
    let mut i: usize = 0;
    proof {
        assert(a@.skip(0) =~= a@);
        assert(b@.skip(0) =~= b@);
    }
    loop
        invariant
            i <= a_len,
            i <= b_len,
            a_len == a@.len(),
            b_len == b@.len(),
            lex_le(a@, b@) == lex_le(a@.skip(i as int), b@.skip(i as int)),
        decreases a_len - i,
    {
        if i == a_len {
            return true;
        }
        if i == b_len {
            return false;
        }
        let ca = a.get_char(i);
        let cb = b.get_char(i);
        if ca == cb {
            proof {
                assert(a@.skip(i as int).drop_first() =~= a@.skip(i + 1));
                assert(b@.skip(i as int).drop_first() =~= b@.skip(i + 1));
            }
            i += 1;
        } else {
            return (ca as u32) < (cb as u32);
        }
    }
}

/// The abstract values of a sequence of nodes.
pub open spec fn models_of<T: Node>(s: Seq<T>) -> Seq<Model> {
    s.map_values(|t: T| t.model())
}

/// Where a stable insertion puts `m` in `s`: before the first element whose
/// label is not below `m`'s.
pub open spec fn insert_model(m: Model, s: Seq<Model>) -> Seq<Model>
    decreases s.len(),
{
    if s.len() == 0 {
        seq![m]
    } else if lex_le(m.label, s[0].label) {
        seq![m] + s
    } else {
        seq![s[0]] + insert_model(m, s.drop_first())
    }
}

/// The visit order of a level: its children stably sorted by label.
pub open spec fn sort_models(s: Seq<Model>) -> Seq<Model>
    decreases s.len(),
{
    if s.len() == 0 {
        Seq::<Model>::empty()
    } else {
        insert_model(s[0], sort_models(s.drop_first()))
    }
}

/// Ascending label order over a whole sequence of models.
pub open spec fn sorted_by_label(s: Seq<Model>) -> bool {
    forall|i: int, j: int| 0 <= i < j < s.len() ==> lex_le(#[trigger] s[i].label, #[trigger] s[j].label)
}

proof fn lemma_insert_model_multiset(m: Model, s: Seq<Model>)
    ensures
        insert_model(m, s).to_multiset() == s.to_multiset().insert(m),
        insert_model(m, s).len() == s.len() + 1,
    decreases s.len(),
{
    broadcast use group_to_multiset_ensures;

    if s.len() == 0 {
        assert(insert_model(m, s) =~= Seq::<Model>::empty().push(m));
        assert(Seq::<Model>::empty().push(m).to_multiset() =~= s.to_multiset().insert(m));
    } else if lex_le(m.label, s[0].label) {
        lemma_push_front_multiset(m, s);
    } else {
        lemma_insert_model_multiset(m, s.drop_first());
        lemma_push_front_multiset(s[0], insert_model(m, s.drop_first()));
        lemma_push_front_multiset(s[0], s.drop_first());
        assert(seq![s[0]] + s.drop_first() =~= s);
    }
}

/// Prepending an element inserts it into the multiset of the sequence.
proof fn lemma_push_front_multiset(m: Model, s: Seq<Model>)
    ensures
        (seq![m] + s).to_multiset() == s.to_multiset().insert(m),
    decreases s.len(),
{
    broadcast use group_to_multiset_ensures;

    if s.len() == 0 {
        assert(seq![m] + s =~= Seq::<Model>::empty().push(m));
    } else {
        lemma_push_front_multiset(m, s.drop_last());
        assert(seq![m] + s =~= (seq![m] + s.drop_last()).push(s.last()));
        assert(s =~= s.drop_last().push(s.last()));
        assert((s.drop_last().push(s.last())).to_multiset() =~= s.drop_last().to_multiset().insert(
            s.last(),
        ));
        assert(((seq![m] + s.drop_last()).push(s.last())).to_multiset()
            =~= (seq![m] + s.drop_last()).to_multiset().insert(s.last()));
        assert(s.to_multiset().insert(m) =~= s.drop_last().to_multiset().insert(s.last()).insert(
            m,
        ));
        assert(s.drop_last().to_multiset().insert(m).insert(s.last())
            =~= s.drop_last().to_multiset().insert(s.last()).insert(m));
    }
}

/// Sorting a level keeps exactly its members: the result is a permutation.
pub proof fn lemma_sort_models_permutes(s: Seq<Model>)
    ensures
        sort_models(s).to_multiset() == s.to_multiset(),
        sort_models(s).len() == s.len(),
    decreases s.len(),
{
    broadcast use group_to_multiset_ensures;

    if s.len() > 0 {
        lemma_sort_models_permutes(s.drop_first());
        lemma_insert_model_multiset(s[0], sort_models(s.drop_first()));
        lemma_push_front_multiset(s[0], s.drop_first());
        assert(seq![s[0]] + s.drop_first() =~= s);
    }
}

/// Every member of an insertion result is the inserted model or an original one.
proof fn lemma_insert_model_members(m: Model, s: Seq<Model>)
    ensures
        forall|i: int|
            0 <= i < insert_model(m, s).len() ==> (#[trigger] insert_model(m, s)[i]) == m
                || s.contains(insert_model(m, s)[i]),
    decreases s.len(),
{
    if s.len() > 0 && !lex_le(m.label, s[0].label) {
        lemma_insert_model_members(m, s.drop_first());
        assert forall|i: int| 0 <= i < insert_model(m, s).len() implies (#[trigger] insert_model(
            m,
            s,
        )[i]) == m || s.contains(insert_model(m, s)[i]) by {
            if i > 0 {
                let r = insert_model(m, s.drop_first());
                assert(insert_model(m, s)[i] == r[i - 1]);
                if r[i - 1] != m {
                    let j = choose|j: int|
                        0 <= j < s.drop_first().len() && s.drop_first()[j] == r[i - 1];
                    assert(s[j + 1] == r[i - 1]);
                }
            }
        }
    }
}

/// A stable insertion into a sorted level leaves it sorted.
proof fn lemma_insert_model_sorted(m: Model, s: Seq<Model>)
    requires
        sorted_by_label(s),
    ensures
        sorted_by_label(insert_model(m, s)),
    decreases s.len(),
{
    if s.len() == 0 {
    } else if lex_le(m.label, s[0].label) {
        assert forall|i: int, j: int|
            0 <= i < j < (seq![m] + s).len() implies lex_le(
            #[trigger] (seq![m] + s)[i].label,
            #[trigger] (seq![m] + s)[j].label,
        ) by {
            if i == 0 && j > 1 {
                lemma_lex_le_trans(m.label, s[0].label, s[j - 1].label);
            }
        }
    } else {
        assert(s.drop_first().len() == s.len() - 1);
        assert forall|i: int, j: int|
            0 <= i < j < s.drop_first().len() implies lex_le(
            #[trigger] s.drop_first()[i].label,
            #[trigger] s.drop_first()[j].label,
        ) by {
            assert(s.drop_first()[i] == s[i + 1]);
            assert(s.drop_first()[j] == s[j + 1]);
        }
        lemma_insert_model_sorted(m, s.drop_first());
        lemma_insert_model_members(m, s.drop_first());
        lemma_lex_le_total(m.label, s[0].label);
        let r = seq![s[0]] + insert_model(m, s.drop_first());
        assert forall|i: int, j: int|
            0 <= i < j < r.len() implies lex_le(#[trigger] r[i].label, #[trigger] r[j].label) by {
            if i == 0 {
                let x = r[j];
                assert(x == insert_model(m, s.drop_first())[j - 1]);
                if x == m {
                    assert(lex_le(s[0].label, m.label));
                } else {
                    let k = choose|k: int|
                        0 <= k < s.drop_first().len() && s.drop_first()[k] == x;
                    assert(s[k + 1] == x);
                    assert(lex_le(s[0].label, s[k + 1].label));
                }
            } else {
                assert(r[i] == insert_model(m, s.drop_first())[i - 1]);
                assert(r[j] == insert_model(m, s.drop_first())[j - 1]);
            }
        }
    }
}

/// A stable insertion lands right before the first element whose label is not
/// below the inserted one.
proof fn lemma_insert_model_at(m: Model, s: Seq<Model>, j: int)
    requires
        0 <= j <= s.len(),
        forall|k: int| 0 <= k < j ==> !lex_le(m.label, (#[trigger] s[k]).label),
        j < s.len() ==> lex_le(m.label, s[j].label),
    ensures
        insert_model(m, s) == s.subrange(0, j) + seq![m] + s.skip(j),
    decreases j,
{
    if j == 0 {
        if s.len() == 0 {
            assert(insert_model(m, s) =~= s.subrange(0, 0) + seq![m] + s.skip(0));
        } else {
            assert(seq![m] + s =~= s.subrange(0, 0) + seq![m] + s.skip(0));
        }
    } else {
        assert(!lex_le(m.label, s[0].label));
        assert forall|k: int| 0 <= k < j - 1 implies !lex_le(
            m.label,
            (#[trigger] s.drop_first()[k]).label,
        ) by {
            assert(s.drop_first()[k] == s[k + 1]);
        }
        assert(j - 1 < s.drop_first().len() ==> s.drop_first()[j - 1] == s[j]);
        lemma_insert_model_at(m, s.drop_first(), j - 1);
        assert(s.drop_first().subrange(0, j - 1) =~= s.subrange(1, j));
        assert(s.drop_first().skip(j - 1) =~= s.skip(j));
        assert(seq![s[0]] + (s.subrange(1, j) + seq![m] + s.skip(j)) =~= s.subrange(0, j)
            + seq![m] + s.skip(j));
    }
}

/// Puts `t` at its stable position in `r`.
fn insert_node<T: Node>(r: &mut Vec<T>, t: T)
    ensures
        models_of(final(r)@) == insert_model(t.model(), models_of(old(r)@)),
{
    let lbl = t.render_label();
    let mut j: usize = 0;
    loop
        invariant
            j <= r@.len(),
            r@ == old(r)@,
            lbl@ == t.model().label,
            forall|k: int| 0 <= k < j ==> !lex_le(t.model().label, (#[trigger] r@[k]).model().label),
        decreases r@.len() - j,
    {
        if j < r.len() {
            let cand = r[j].render_label();
            if label_le(lbl.as_str(), cand.as_str()) {
                proof {
                    lemma_insert_model_at(t.model(), models_of(r@), j as int);
                }
                r.insert(j, t);
                proof {
                    assert(models_of(r@) =~= models_of(old(r)@).subrange(0, j as int)
                        + seq![t.model()] + models_of(old(r)@).skip(j as int));
                }
                return ;
            }
            j += 1;
        } else {
            proof {
                lemma_insert_model_at(t.model(), models_of(r@), j as int);
            }
            r.insert(j, t);
            proof {
                assert(models_of(r@) =~= models_of(old(r)@).subrange(0, j as int)
                    + seq![t.model()] + models_of(old(r)@).skip(j as int));
            }
            return ;
        }
    }
}

/// Sorts nodes ascending by rendered label; nodes with equal labels keep
/// their enumeration order.
pub fn sort_nodes<T: Node>(v: Vec<T>) -> (r: Vec<T>)
    ensures
        models_of(r@) == sort_models(models_of(v@)),
{
    let mut rest = v;
    let mut r: Vec<T> = Vec::new();
    proof {
        assert(rest@ =~= v@.subrange(0, rest@.len() as int));
        assert(models_of(v@).skip(rest@.len() as int) =~= Seq::<Model>::empty());
        assert(models_of(r@) =~= Seq::<Model>::empty());
    }
    while rest.len() > 0
        invariant
            rest@.len() <= v@.len(),
            rest@ == v@.subrange(0, rest@.len() as int),
            models_of(r@) == sort_models(models_of(v@).skip(rest@.len() as int)),
        decreases rest@.len(),
    {
        let ghost i = rest@.len() as int;
        let t = match rest.pop() {
            Some(t) => t,
            None => {
                return r;
            },
        };
        proof {
            assert(t == v@[i - 1]);
            assert(models_of(v@).skip(i - 1)[0] == t.model());
            assert(models_of(v@).skip(i - 1).drop_first() =~= models_of(v@).skip(i));
        }
        insert_node(&mut r, t);
    }
    proof {
        assert(models_of(v@).skip(0) =~= models_of(v@));
    }
    r
}

/// The ordering guarantee of a level: the walk visits exactly a node's
/// children — no more, no fewer — and in ascending label order, whatever
/// order they were enumerated in.
pub proof fn lemma_visit_order(m: Model)
    ensures
        sorted_by_label(sort_models(m.children)),
        sort_models(m.children).to_multiset() == m.children.to_multiset(),
{
    lemma_sort_models_sorted(m.children);
    lemma_sort_models_permutes(m.children);
}

/// Every entry of a sorted level of children sits strictly below the parent.
pub proof fn lemma_sorted_child_height(m: Model, i: int)
    requires
        0 <= i < sort_models(m.children).len(),
    ensures
        height(sort_models(m.children)[i]) < height(m),
{
    broadcast use group_to_multiset_ensures;

    lemma_sort_models_permutes(m.children);
    let c = sort_models(m.children)[i];
    assert(sort_models(m.children).contains(c));
    assert(m.children.to_multiset().count(c) > 0);
    assert(m.children.contains(c));
    let j = choose|j: int| 0 <= j < m.children.len() && m.children[j] == c;
    lemma_child_height(m, j);
}

/// The visit order of a level is sorted: for two positions in it, the earlier
/// label is at or below the later one.
pub proof fn lemma_sort_models_sorted(s: Seq<Model>)
    ensures
        sorted_by_label(sort_models(s)),
    decreases s.len(),
{
    if s.len() > 0 {
        lemma_sort_models_sorted(s.drop_first());
        lemma_insert_model_sorted(s[0], sort_models(s.drop_first()));
    }
}

} // verus!
