//! What holds of every run of the engine, stated over the model and proved.

use vstd::prelude::*;
use crate::model::{
    CubeView, FaceView, SlotsView, StackView, accept_transaction, all_filled, chosen_cube,
    chosen_face, cube_accepts, cube_shape, cube_slot, cube_target, cubes_after_insert,
    empty_cube_view, empty_face_view, empty_slots, empty_stack_view, face_accepts, face_shape,
    face_slot, face_target, faces_after_insert, filled_count, insert_hash_at,
    is_first_accepting, is_fullest_accepting, lemma_chosen_cube, lemma_chosen_face,
    lemma_cubes_after_insert, lemma_faces_after_insert, lemma_filled_count_bound,
    lemma_insert_hash_wf, lemma_insert_step, lemma_one_slot_not_complete,
    lemma_promote_cube_step, lemma_promote_face_step, levels_wf, levels_wf_except, origin,
    promote_cube, promote_face, put_stack, slots_digest, stack_at, stack_wf, stack_wf_except,
    transaction_digest,
};
use crate::stacks::{Transaction, cubes_valid, faces_valid, levels_in_order};

verus! {

/// The levels after accepting each transaction of `txs` in turn.
#[verifier::opaque]
pub open spec fn accept_all(s: Seq<StackView>, txs: Seq<Transaction>) -> Seq<StackView>
    decreases txs.len(),
{
    if txs.len() == 0 {
        s
    } else {
        accept_transaction(accept_all(s, txs.drop_last()), txs.last()).0
    }
}

/// Accepting a transaction keeps the levels well formed: every Face keeps
/// nine slots of which fewer than nine are filled, every Cube three slots of
/// which fewer than three are filled. A Face or Cube that a transaction
/// completes is promoted and emptied before the operation ends.
pub proof fn lemma_accept_keeps_levels_wf(s: Seq<StackView>, tx: Transaction)
    requires
        levels_wf(s),
    ensures
        levels_wf(accept_transaction(s, tx).0),
        forall|l: int, k: int|
            0 <= l < accept_transaction(s, tx).0.len() && 0 <= k < accept_transaction(
                s,
                tx,
            ).0[l].faces.len() ==> filled_count(
                (#[trigger] accept_transaction(s, tx).0[l].faces[k]).slots,
            ) < 9,
        forall|l: int, k: int|
            0 <= l < accept_transaction(s, tx).0.len() && 0 <= k < accept_transaction(
                s,
                tx,
            ).0[l].cubes.len() ==> filled_count(
                (#[trigger] accept_transaction(s, tx).0[l].cubes[k]).slots,
            ) < 3,
{
    let s1 = s.update(0, StackView { blocks: s[0].blocks.push(tx), ..s[0] });
    assert forall|l: int| 0 <= l < s1.len() implies stack_wf_except(
        #[trigger] s1[l],
        l,
        -1,
        -1,
    ) by {
        assert(stack_wf_except(s[l], l, -1, -1));
    }
    lemma_slot_range(transaction_digest(tx));
    lemma_insert_hash_wf(s1, 0, face_slot(transaction_digest(tx)), transaction_digest(tx));
    let r = accept_transaction(s, tx).0;
    assert forall|l: int, k: int| 0 <= l < r.len() && 0 <= k < r[l].faces.len() implies filled_count(
        (#[trigger] r[l].faces[k]).slots,
    ) < 9 by {
        assert(stack_wf_except(r[l], l, -1, -1));
        lemma_filled_count_bound(r[l].faces[k].slots);
    }
    assert forall|l: int, k: int| 0 <= l < r.len() && 0 <= k < r[l].cubes.len() implies filled_count(
        (#[trigger] r[l].cubes[k]).slots,
    ) < 3 by {
        assert(stack_wf_except(r[l], l, -1, -1));
        lemma_filled_count_bound(r[l].cubes[k].slots);
    }
}

/// The outcome of a sequence of transactions depends on nothing but the
/// starting levels and the transactions: two runs from equal levels over
/// equal transactions end in equal levels, and every run from well-formed
/// levels stays well formed.
pub proof fn lemma_accept_all_deterministic(
    s1: Seq<StackView>,
    s2: Seq<StackView>,
    txs: Seq<Transaction>,
)
    requires
        s1 == s2,
        levels_wf(s1),
    ensures
        accept_all(s1, txs) == accept_all(s2, txs),
        levels_wf(accept_all(s1, txs)),
    decreases txs.len(),
{
    reveal(accept_all);
    if txs.len() > 0 {
        lemma_accept_all_deterministic(s1, s2, txs.drop_last());
        lemma_accept_keeps_levels_wf(accept_all(s1, txs.drop_last()), txs.last());
    }
}


/// A Face at the origin holding `slots`.
pub open spec fn face_with(slots: SlotsView) -> FaceView {
    FaceView { slots: slots, ..empty_face_view() }
}

/// The slots of one Face after the digests of `txs` were put in it, in turn.
pub open spec fn group_slots(txs: Seq<Transaction>) -> SlotsView
    decreases txs.len(),
{
    if txs.len() == 0 {
        empty_slots(9)
    } else {
        let d = transaction_digest(txs.last());
        group_slots(txs.drop_last()).update(face_slot(d), Some(d))
    }
}

/// No two transactions of `txs` select the same Face slot.
#[verifier::opaque]
pub open spec fn distinct_face_slots(txs: Seq<Transaction>) -> bool {
    forall|i: int, j: int|
        0 <= i < txs.len() && 0 <= j < txs.len() && i != j ==> face_slot(
            transaction_digest(#[trigger] txs[i]),
        ) != face_slot(transaction_digest(#[trigger] txs[j]))
}

proof fn lemma_filled_count_update(slots: SlotsView, i: int, h: Seq<char>)
    requires
        0 <= i < slots.len(),
        slots[i] is None,
    ensures
        filled_count(slots.update(i, Some(h))) == filled_count(slots) + 1,
    decreases slots.len(),
{
    let u = slots.update(i, Some(h));
    if i == slots.len() - 1 {
        assert(u.drop_last() =~= slots.drop_last());
    } else {
        lemma_filled_count_update(slots.drop_last(), i, h);
        assert(u.drop_last() =~= slots.drop_last().update(i, Some(h)));
    }
}

proof fn lemma_empty_slots_count(n: nat)
    ensures
        filled_count(empty_slots(n)) == 0,
    decreases n,
{
    if n > 0 {
        assert(empty_slots(n).drop_last() =~= empty_slots((n - 1) as nat));
        lemma_empty_slots_count((n - 1) as nat);
    }
}

proof fn lemma_slot_range(h: Seq<char>)
    ensures
        0 <= face_slot(h) < 9,
        0 <= cube_slot(h) < 3,
{
}

/// The slots of a group: nine of them, a slot is filled only by a member's
/// digest, and with distinct slots as many are filled as there are members.
proof fn lemma_group_slots(txs: Seq<Transaction>)
    requires
        distinct_face_slots(txs),
    ensures
        group_slots(txs).len() == 9,
        forall|i: int|
            0 <= i < 9 && (#[trigger] group_slots(txs)[i]) is Some ==> exists|j: int|
                0 <= j < txs.len() && face_slot(transaction_digest(#[trigger] txs[j])) == i,
        filled_count(group_slots(txs)) == txs.len(),
    decreases txs.len(),
{
    reveal(distinct_face_slots);
    if txs.len() == 0 {
        lemma_empty_slots_count(9);
    } else {
        let p = txs.drop_last();
        assert(distinct_face_slots(p)) by {
            assert forall|i: int, j: int|
                0 <= i < p.len() && 0 <= j < p.len() && i != j implies face_slot(
                transaction_digest(#[trigger] p[i]),
            ) != face_slot(transaction_digest(#[trigger] p[j])) by {
                assert(p[i] == txs[i] && p[j] == txs[j]);
            }
        }
        lemma_group_slots(p);
        let d = transaction_digest(txs.last());
        lemma_slot_range(d);
        let g = group_slots(p);
        if g[face_slot(d)] is Some {
            let j = choose|j: int| 0 <= j < p.len() && face_slot(transaction_digest(#[trigger] p[j])) == face_slot(d);
            assert(txs[j] == p[j]);
            assert(face_slot(transaction_digest(txs[j])) != face_slot(transaction_digest(txs[txs.len() - 1])));
        }
        lemma_filled_count_update(g, face_slot(d), d);
        assert forall|i: int|
            0 <= i < 9 && (#[trigger] group_slots(txs)[i]) is Some implies exists|j: int|
                0 <= j < txs.len() && face_slot(transaction_digest(#[trigger] txs[j])) == i by {
            if i == face_slot(d) {
                assert(face_slot(transaction_digest(txs[txs.len() - 1])) == i);
            } else {
                assert(g[i] is Some);
                let j = choose|j: int| 0 <= j < p.len() && face_slot(transaction_digest(#[trigger] p[j])) == i;
                assert(txs[j] == p[j]);
            }
        }
    }
}

/// Level 0 after the first `k` members of a group, while its one Face is not
/// yet complete.
pub open spec fn level0_after(s: Seq<StackView>, txs: Seq<Transaction>) -> Seq<StackView> {
    s.update(0, StackView { blocks: s[0].blocks + txs, faces: seq![face_with(group_slots(txs))], ..s[0] })
}

/// One transaction into a level 0 whose only Face (or no Face yet) holds `slots`.
proof fn lemma_accept_into_single_face(s: Seq<StackView>, prefix: Seq<Transaction>, tx: Transaction)
    requires
        s.len() > 0,
        distinct_face_slots(prefix.push(tx)),
        prefix.len() < 9,
        prefix.len() == 0 ==> s[0].faces == Seq::<FaceView>::empty() || s[0].faces == seq![empty_face_view()],
        prefix.len() > 0 ==> s[0].faces == seq![face_with(group_slots(prefix))],
    ensures
        ({
            let s1 = s.update(0, StackView {
                blocks: s[0].blocks.push(tx),
                faces: seq![face_with(group_slots(prefix.push(tx)))],
                ..s[0]
            });
            if prefix.len() + 1 < 9 {
                accept_transaction(s, tx) == (s1, true)
            } else {
                accept_transaction(s, tx) == promote_face(s1, 0, 0)
            }
        }),
{
    reveal(distinct_face_slots);
    let d = transaction_digest(tx);
    let all = prefix.push(tx);
    lemma_slot_range(d);
    lemma_group_slots(all);
    assert(all.drop_last() =~= prefix);
    assert(distinct_face_slots(prefix)) by {
        assert forall|i: int, j: int|
            0 <= i < prefix.len() && 0 <= j < prefix.len() && i != j implies face_slot(
            transaction_digest(#[trigger] prefix[i]),
        ) != face_slot(transaction_digest(#[trigger] prefix[j])) by {
            assert(prefix[i] == all[i] && prefix[j] == all[j]);
        }
    }
    lemma_group_slots(prefix);
    let g = group_slots(prefix);
    let index = face_slot(d);
    assert(g[index] is None) by {
        if g[index] is Some {
            let j = choose|j: int| 0 <= j < prefix.len() && face_slot(transaction_digest(#[trigger] prefix[j])) == index;
            assert(all[j] == prefix[j]);
            assert(all[prefix.len() as int] == tx);
        }
    }
    let s0 = s.update(0, StackView { blocks: s[0].blocks.push(tx), ..s[0] });
    let st = stack_at(s0, 0);
    assert(st == s0[0]);
    let faces = faces_after_insert(st.faces, index, d);
    let fi = face_target(st.faces, index);
    let target = face_with(group_slots(all));
    assert(group_slots(all) == g.update(index, Some(d)));
    if st.faces.len() == 0 {
        assert(prefix.len() == 0);
        assert(g == empty_slots(9));
        assert(chosen_face(st.faces, index) is None);
        assert(faces =~= seq![target]);
        assert(fi == 0);
    } else {
        let f0 = st.faces[0];
        if prefix.len() == 0 {
            assert(f0 == empty_face_view());
            assert(g == empty_slots(9));
            assert(f0 == face_with(g));
        }
        assert(f0 == face_with(g));
        lemma_filled_count_bound(g);
        assert(!all_filled(g)) by {
            assert(g[index] is None);
        }
        assert(face_accepts(f0, index));
        assert(is_fullest_accepting(st.faces, index, 0));
        lemma_chosen_face(st.faces, index, 0);
        assert(faces =~= seq![target]);
        assert(fi == 0);
    }
    lemma_filled_count_bound(group_slots(all));
    let s1 = s.update(0, StackView {
        blocks: s[0].blocks.push(tx),
        faces: seq![face_with(group_slots(prefix.push(tx)))],
        ..s[0]
    });
    assert(put_stack(s0, 0, StackView { faces: faces, ..st }) =~= s1);
}

/// A group of nine transactions with distinct Face slots fills the one Face
/// of level 0 (creating it if needed), which is then promoted.
proof fn lemma_accept_group(s: Seq<StackView>, g: Seq<Transaction>)
    requires
        s.len() > 0,
        s[0].faces == Seq::<FaceView>::empty() || s[0].faces == seq![empty_face_view()],
        g.len() == 9,
        distinct_face_slots(g),
    ensures
        accept_all(s, g) == promote_face(level0_after(s, g), 0, 0).0,
{
    reveal(accept_all);
    lemma_accept_group_prefix(s, g, 8);
    let p = g.take(8);
    let tx = g[8];
    assert(g.take(9) =~= g);
    assert(g.drop_last() =~= p);
    assert(p.push(tx) =~= g);
    assert(distinct_face_slots(p.push(tx)));
    lemma_accept_into_single_face(level0_after(s, p), p, tx);
    assert(level0_after(s, p)[0].blocks.push(tx) =~= s[0].blocks + g);
    assert(level0_after(s, p).update(0, StackView {
        blocks: level0_after(s, p)[0].blocks.push(tx),
        faces: seq![face_with(group_slots(p.push(tx)))],
        ..level0_after(s, p)[0]
    }) =~= level0_after(s, g));
}

proof fn lemma_accept_group_prefix(s: Seq<StackView>, g: Seq<Transaction>, k: int)
    requires
        s.len() > 0,
        s[0].faces == Seq::<FaceView>::empty() || s[0].faces == seq![empty_face_view()],
        g.len() == 9,
        distinct_face_slots(g),
        1 <= k <= 8,
    ensures
        accept_all(s, g.take(k)) == level0_after(s, g.take(k)),
    decreases k,
{
    reveal(distinct_face_slots);
    reveal(accept_all);
    let p = g.take(k - 1);
    let tx = g[k - 1];
    assert(g.take(k).drop_last() =~= p);
    assert(g.take(k).last() == tx);
    assert(p.push(tx) =~= g.take(k));
    assert(distinct_face_slots(p.push(tx))) by {
        assert forall|i: int, j: int|
            0 <= i < k && 0 <= j < k && i != j implies face_slot(
            transaction_digest(#[trigger] p.push(tx)[i]),
        ) != face_slot(transaction_digest(#[trigger] p.push(tx)[j])) by {
            assert(p.push(tx)[i] == g[i] && p.push(tx)[j] == g[j]);
        }
    }
    if k == 1 {
        assert(p =~= Seq::<Transaction>::empty());
        assert(accept_all(s, p) == s);
        lemma_accept_into_single_face(s, p, tx);
        assert(s[0].blocks.push(tx) =~= s[0].blocks + g.take(k));
        assert(s.update(0, StackView {
            blocks: s[0].blocks.push(tx),
            faces: seq![face_with(group_slots(p.push(tx)))],
            ..s[0]
        }) =~= level0_after(s, g.take(k)));
    } else {
        lemma_accept_group_prefix(s, g, k - 1);
        let s1 = level0_after(s, p);
        lemma_accept_into_single_face(s1, p, tx);
        assert(s1[0].blocks.push(tx) =~= s[0].blocks + g.take(k));
        assert(s1.update(0, StackView {
            blocks: s1[0].blocks.push(tx),
            faces: seq![face_with(group_slots(p.push(tx)))],
            ..s1[0]
        }) =~= level0_after(s, g.take(k)));
    }
}


/// Levels that the engine keeps pass every check of `StackManager::from_stacks`,
/// so saving them and taking them over again gives back the same levels.
pub proof fn lemma_kept_levels_reload(s: Seq<StackView>)
    requires
        levels_wf(s),
    ensures
        s.len() > 0,
        levels_in_order(s),
        faces_valid(s),
        cubes_valid(s),
{
    assert forall|l: int| 0 <= l < s.len() implies (#[trigger] s[l]).level == l by {
        assert(stack_wf_except(s[l], l, -1, -1));
    }
    assert forall|l: int, k: int| 0 <= l < s.len() && 0 <= k < s[l].faces.len() implies face_shape(
        #[trigger] s[l].faces[k],
        k,
    ) && !all_filled(s[l].faces[k].slots) by {
        assert(stack_wf_except(s[l], l, -1, -1));
    }
    assert forall|l: int, k: int| 0 <= l < s.len() && 0 <= k < s[l].cubes.len() implies cube_shape(
        #[trigger] s[l].cubes[k],
        k,
    ) && !all_filled(s[l].cubes[k].slots) by {
        assert(stack_wf_except(s[l], l, -1, -1));
    }
}

/// The slots of the single Cube that a group's completed Face creates.
pub open spec fn first_cube_slots(fh: Seq<char>) -> SlotsView {
    empty_slots(3).update(cube_slot(fh), Some(fh))
}

/// Nine transactions whose digests select nine different Face slots, given
/// to a fresh manager, complete exactly one Face: that Face is emptied again,
/// and its digest is the one digest in level 0's one Cube, in the Cube slot
/// that its digital root selects. No other level appears.
pub proof fn lemma_nine_distinct_slots_fill_one_cube_slot(txs: Seq<Transaction>)
    requires
        txs.len() == 9,
        distinct_face_slots(txs),
    ensures
        ({
            let r = accept_all(seq![empty_stack_view(0)], txs);
            let fh = slots_digest(group_slots(txs));
            &&& all_filled(group_slots(txs))
            &&& r.len() == 1
            &&& r[0].level == 0
            &&& r[0].blocks == txs
            &&& r[0].faces == seq![empty_face_view()]
            &&& r[0].cubes == seq![CubeView { slots: first_cube_slots(fh), ..empty_cube_view() }]
            &&& filled_count(r[0].cubes[0].slots) == 1
        }),
{
    let s = seq![empty_stack_view(0)];
    lemma_accept_group(s, txs);
    lemma_group_slots(txs);
    lemma_filled_count_bound(group_slots(txs));
    let fh = slots_digest(group_slots(txs));
    lemma_slot_range(fh);
    let s1 = level0_after(s, txs);
    let st = s1[0];
    assert(st.cubes.len() == 0);
    assert(chosen_cube(st.cubes, cube_slot(fh)) is None);
    let cubes = cubes_after_insert(st.cubes, cube_slot(fh), fh);
    lemma_one_slot_not_complete(3, cube_slot(fh), fh);
    lemma_empty_slots_count(3);
    lemma_filled_count_update(empty_slots(3), cube_slot(fh), fh);
    assert(s[0].blocks + txs =~= txs);
    assert(st.faces.update(0, empty_face_view()) =~= seq![empty_face_view()]);
    assert(cubes =~= seq![CubeView { slots: first_cube_slots(fh), ..empty_cube_view() }]);
}

/// A group of nine transactions with distinct Face slots, given to a level 0
/// holding one empty Face and one Cube `c` that accepts the group's Face
/// digest: the digest joins `c`, which is promoted if that completes it.
proof fn lemma_group_into_cube(s: Seq<StackView>, g: Seq<Transaction>, c: CubeView)
    requires
        s.len() == 1,
        s[0].faces == seq![empty_face_view()],
        s[0].cubes == seq![c],
        g.len() == 9,
        distinct_face_slots(g),
        cube_accepts(c, cube_slot(slots_digest(group_slots(g)))),
    ensures
        ({
            let f = slots_digest(group_slots(g));
            let c2 = CubeView { slots: c.slots.update(cube_slot(f), Some(f)), ..c };
            let s2 = seq![
                StackView {
                    blocks: s[0].blocks + g,
                    faces: seq![empty_face_view()],
                    cubes: seq![c2],
                    ..s[0]
                },
            ];
            accept_all(s, g) == if all_filled(c2.slots) {
                promote_cube(s2, 0, 0).0
            } else {
                s2
            }
        }),
{
    let f = slots_digest(group_slots(g));
    lemma_accept_group(s, g);
    lemma_group_slots(g);
    lemma_filled_count_bound(group_slots(g));
    lemma_slot_range(f);
    let s1 = level0_after(s, g);
    assert(is_first_accepting(s1[0].cubes, cube_slot(f), 0));
    lemma_chosen_cube(s1[0].cubes, cube_slot(f), 0);
    let c2 = CubeView { slots: c.slots.update(cube_slot(f), Some(f)), ..c };
    assert(cubes_after_insert(s1[0].cubes, cube_slot(f), f) =~= seq![c2]);
    assert(s1[0].faces.update(0, empty_face_view()) =~= seq![empty_face_view()]);
    let s2 = seq![
        StackView {
            blocks: s[0].blocks + g,
            faces: seq![empty_face_view()],
            cubes: seq![c2],
            ..s[0]
        },
    ];
    assert(s1.update(
        0,
        StackView {
            faces: s1[0].faces.update(0, empty_face_view()),
            cubes: cubes_after_insert(s1[0].cubes, cube_slot(f), f),
            ..s1[0]
        },
    ) =~= s2);
}

/// The first of three groups: its Face's digest is the first in a new Cube.
proof fn lemma_first_group(g: Seq<Transaction>)
    requires
        g.len() == 9,
        distinct_face_slots(g),
    ensures
        ({
            let c1 = CubeView { slots: first_cube_slots(slots_digest(group_slots(g))), ..empty_cube_view() };
            &&& accept_all(seq![empty_stack_view(0)], g) == seq![StackView { level: 0, blocks: g, faces: seq![empty_face_view()], cubes: seq![c1] }]
            &&& filled_count(c1.slots) == 1
            &&& c1.slots.len() == 3
        }),
{
    let f1 = slots_digest(group_slots(g));
    let c1 = CubeView { slots: first_cube_slots(f1), ..empty_cube_view() };
    lemma_slot_range(f1);
    lemma_nine_distinct_slots_fill_one_cube_slot(g);
 let r = accept_all(seq![empty_stack_view(0)], g);
    assert(r =~= seq![StackView { level: 0, blocks: g, faces: seq![empty_face_view()], cubes: seq![c1] }]);
    lemma_empty_slots_count(3);
    lemma_filled_count_update(empty_slots(3), cube_slot(f1), f1);
}

/// The second of three groups: its Face's digest joins the Cube, which is
/// not complete yet.
proof fn lemma_second_group(a: Seq<StackView>, g: Seq<Transaction>, c: CubeView, blocks: Seq<Transaction>)
    requires
        a == seq![StackView { level: 0, blocks: blocks, faces: seq![empty_face_view()], cubes: seq![c] }],
        g.len() == 9,
        distinct_face_slots(g),
        c.slots.len() == 3,
        filled_count(c.slots) == 1,
        c.slots[cube_slot(slots_digest(group_slots(g)))] is None,
    ensures
        ({
            let f = slots_digest(group_slots(g));
            let c2 = CubeView { slots: c.slots.update(cube_slot(f), Some(f)), ..c };
            &&& filled_count(c2.slots) == 2
            &&& accept_all(a, g) == seq![StackView { level: 0, blocks: blocks + g, faces: seq![empty_face_view()], cubes: seq![c2] }]
        }),
{
    let f = slots_digest(group_slots(g));
    lemma_slot_range(f);
    lemma_filled_count_bound(c.slots);
    lemma_group_into_cube(a, g, c);
    let c2 = CubeView { slots: c.slots.update(cube_slot(f), Some(f)), ..c };
    lemma_filled_count_update(c.slots, cube_slot(f), f);
    lemma_filled_count_bound(c2.slots);
}

/// The third of three groups: its Face's digest completes the Cube, which is
/// promoted into a new level 1.
proof fn lemma_third_group(b: Seq<StackView>, g: Seq<Transaction>, c: CubeView, blocks: Seq<Transaction>)
    requires
        b == seq![StackView { level: 0, blocks: blocks, faces: seq![empty_face_view()], cubes: seq![c] }],
        g.len() == 9,
        distinct_face_slots(g),
        c.slots.len() == 3,
        filled_count(c.slots) == 2,
        c.slots[cube_slot(slots_digest(group_slots(g)))] is None,
    ensures
        ({
            let f = slots_digest(group_slots(g));
            let c3 = c.slots.update(cube_slot(f), Some(f));
            let ch = slots_digest(c3);
            &&& all_filled(c3)
            &&& accept_all(b, g) == seq![
                StackView { level: 0, blocks: blocks + g, faces: seq![empty_face_view()], cubes: seq![empty_cube_view()] },
                StackView {
                    level: 1,
                    blocks: seq![],
                    faces: seq![face_with(empty_slots(9).update(face_slot(ch), Some(ch)))],
                    cubes: seq![],
                },
            ]
        }),
{
    let f = slots_digest(group_slots(g));
    lemma_slot_range(f);
    lemma_filled_count_bound(c.slots);
    lemma_group_into_cube(b, g, c);
    let c3 = CubeView { slots: c.slots.update(cube_slot(f), Some(f)), ..c };
    lemma_filled_count_update(c.slots, cube_slot(f), f);
    lemma_filled_count_bound(c3.slots);
    let s2 = seq![StackView { level: 0, blocks: blocks + g, faces: seq![empty_face_view()], cubes: seq![c3] }];
    lemma_promote_only_cube(s2, c3);
}

/// Promoting the one complete Cube of a single level creates level 1 with one
/// Face holding the Cube's digest.
proof fn lemma_promote_only_cube(s: Seq<StackView>, c: CubeView)
    requires
        s.len() == 1,
        s[0].cubes == seq![c],
    ensures
        ({
            let ch = slots_digest(c.slots);
            let r = promote_cube(s, 0, 0);
            &&& r.1
            &&& r.0 == seq![
                StackView { cubes: seq![empty_cube_view()], ..s[0] },
                StackView {
                    level: 1,
                    blocks: seq![],
                    faces: seq![face_with(empty_slots(9).update(face_slot(ch), Some(ch)))],
                    cubes: seq![],
                },
            ]
        }),
{
    let ch = slots_digest(c.slots);
    lemma_slot_range(ch);
    let s1 = s.update(0, StackView { cubes: s[0].cubes.update(0, empty_cube_view()), ..s[0] });
    assert(s[0].cubes.update(0, empty_cube_view()) =~= seq![empty_cube_view()]);
    let st1 = stack_at(s1, 1);
    assert(st1 == empty_stack_view(1));
    assert(chosen_face(st1.faces, face_slot(ch)) is None);
    lemma_one_slot_not_complete(9, face_slot(ch), ch);
    let nf = face_with(empty_slots(9).update(face_slot(ch), Some(ch)));
    assert(faces_after_insert(st1.faces, face_slot(ch), ch) =~= seq![nf]);
    assert(put_stack(s1, 1, StackView { faces: seq![nf], ..st1 }) =~= seq![
        StackView { cubes: seq![empty_cube_view()], ..s[0] },
        StackView { level: 1, blocks: seq![], faces: seq![nf], cubes: seq![] },
    ]);
}

/// The slots of level 0's Cube after three Faces with digests `f1`, `f2`,
/// `f3` were promoted into it.
pub open spec fn three_face_cube_slots(f1: Seq<char>, f2: Seq<char>, f3: Seq<char>) -> SlotsView {
    empty_slots(3).update(cube_slot(f1), Some(f1)).update(cube_slot(f2), Some(f2)).update(
        cube_slot(f3),
        Some(f3),
    )
}

/// Three groups of nine transactions, each group selecting nine different
/// Face slots, given in turn to a fresh manager, complete three Faces. When
/// the three Faces' digests select the three different Cube slots, they
/// complete one Cube: level 0 is left with one empty Face and one empty Cube,
/// and level 1 appears holding one Face whose only filled slot is the one
/// the Cube's digest selects, holding that digest.
pub proof fn lemma_three_faces_promote_one_cube(
    g1: Seq<Transaction>,
    g2: Seq<Transaction>,
    g3: Seq<Transaction>,
)
    requires
        g1.len() == 9 && g2.len() == 9 && g3.len() == 9,
        distinct_face_slots(g1) && distinct_face_slots(g2) && distinct_face_slots(g3),
        cube_slot(slots_digest(group_slots(g1))) != cube_slot(slots_digest(group_slots(g2))),
        cube_slot(slots_digest(group_slots(g1))) != cube_slot(slots_digest(group_slots(g3))),
        cube_slot(slots_digest(group_slots(g2))) != cube_slot(slots_digest(group_slots(g3))),
    ensures
        ({
            let r = accept_all(accept_all(accept_all(seq![empty_stack_view(0)], g1), g2), g3);
            let cs = three_face_cube_slots(
                slots_digest(group_slots(g1)),
                slots_digest(group_slots(g2)),
                slots_digest(group_slots(g3)),
            );
            let ch = slots_digest(cs);
            &&& all_filled(cs)
            &&& r.len() == 2
            &&& r[0].blocks == g1 + g2 + g3
            &&& r[0].faces == seq![empty_face_view()]
            &&& r[0].cubes == seq![empty_cube_view()]
            &&& r[1] == StackView {
                level: 1,
                blocks: seq![],
                faces: seq![face_with(empty_slots(9).update(face_slot(ch), Some(ch)))],
                cubes: seq![],
            }
        }),
{
    let s0 = seq![empty_stack_view(0)];
    let f1 = slots_digest(group_slots(g1));
    let f2 = slots_digest(group_slots(g2));
    let f3 = slots_digest(group_slots(g3));
    let c1 = CubeView { slots: first_cube_slots(f1), ..empty_cube_view() };
    let c2 = CubeView { slots: c1.slots.update(cube_slot(f2), Some(f2)), ..c1 };
    let cs = three_face_cube_slots(f1, f2, f3);
    let ch = slots_digest(cs);
    let a = seq![StackView { level: 0, blocks: g1, faces: seq![empty_face_view()], cubes: seq![c1] }];
    let b = seq![StackView { level: 0, blocks: g1 + g2, faces: seq![empty_face_view()], cubes: seq![c2] }];
    let c = seq![
        StackView { level: 0, blocks: (g1 + g2) + g3, faces: seq![empty_face_view()], cubes: seq![empty_cube_view()] },
        StackView {
            level: 1,
            blocks: seq![],
            faces: seq![face_with(empty_slots(9).update(face_slot(ch), Some(ch)))],
            cubes: seq![],
        },
    ];
    lemma_slot_range(f1);
    lemma_slot_range(f2);
    lemma_slot_range(f3);
    lemma_first_group(g1);
    lemma_second_group(a, g2, c1, g1);
    lemma_third_group(b, g3, c2, g1 + g2);
}

/// Filled slots over all of `faces`.
pub open spec fn face_fill(faces: Seq<FaceView>) -> nat
    decreases faces.len(),
{
    if faces.len() == 0 {
        0
    } else {
        face_fill(faces.drop_last()) + filled_count(faces.last().slots)
    }
}

/// Every transaction of level 0 sits either in a Face slot of level 0 or in
/// a complete Face that was promoted: there are no fewer transactions than
/// filled Face slots, and the difference is a multiple of nine.
pub open spec fn level0_accounted(s: Seq<StackView>) -> bool {
    &&& s.len() > 0
    &&& face_fill(s[0].faces) <= s[0].blocks.len()
    &&& (s[0].blocks.len() - face_fill(s[0].faces)) % 9 == 0
}

proof fn lemma_face_fill_update(faces: Seq<FaceView>, i: int, f: FaceView)
    requires
        0 <= i < faces.len(),
    ensures
        face_fill(faces.update(i, f)) + filled_count(faces[i].slots) == face_fill(faces)
            + filled_count(f.slots),
    decreases faces.len(),
{
    let u = faces.update(i, f);
    if i == faces.len() - 1 {
        assert(u.drop_last() =~= faces.drop_last());
    } else {
        lemma_face_fill_update(faces.drop_last(), i, f);
        assert(u.drop_last() =~= faces.drop_last().update(i, f));
    }
}

proof fn lemma_face_fill_push(faces: Seq<FaceView>, f: FaceView)
    ensures
        face_fill(faces.push(f)) == face_fill(faces) + filled_count(f.slots),
{
    assert(faces.push(f).drop_last() =~= faces);
}

/// An insertion at `level` changes no level below it.
proof fn lemma_insert_keeps_lower(s: Seq<StackView>, level: u32, index: int, h: Seq<char>)
    requires
        level <= s.len(),
    ensures
        insert_hash_at(s, level, index, h).0.len() >= s.len(),
        forall|l: int|
            0 <= l < level && l < s.len() ==> #[trigger] insert_hash_at(s, level, index, h).0[l]
                == s[l],
    decreases u32::MAX - level, 2nat,
{
    let st = stack_at(s, level);
    let faces = faces_after_insert(st.faces, index, h);
    let fi = face_target(st.faces, index);
    let s1 = put_stack(s, level, StackView { faces: faces, ..st });
    if all_filled(faces[fi].slots) && level < s1.len() {
        lemma_promote_face_keeps_lower(s1, level, fi);
    }
}

proof fn lemma_promote_face_keeps_lower(s: Seq<StackView>, level: u32, fi: int)
    requires
        level < s.len(),
    ensures
        promote_face(s, level, fi).0.len() >= s.len(),
        forall|l: int| 0 <= l < level ==> #[trigger] promote_face(s, level, fi).0[l] == s[l],
    decreases u32::MAX - level, 1nat,
{
    let st = s[level as int];
    let fh = slots_digest(st.faces[fi].slots);
    let index = cube_slot(fh);
    let cubes = cubes_after_insert(st.cubes, index, fh);
    let cj = cube_target(st.cubes, index);
    let s1 = s.update(
        level as int,
        StackView { faces: st.faces.update(fi, empty_face_view()), cubes: cubes, ..st },
    );
    if all_filled(cubes[cj].slots) {
        lemma_promote_cube_keeps_lower(s1, level, cj);
    }
}

proof fn lemma_promote_cube_keeps_lower(s: Seq<StackView>, level: u32, cj: int)
    requires
        level < s.len(),
    ensures
        promote_cube(s, level, cj).0.len() >= s.len(),
        forall|l: int| 0 <= l < level ==> #[trigger] promote_cube(s, level, cj).0[l] == s[l],
    decreases u32::MAX - level, 0nat,
{
    let st = s[level as int];
    let ch = slots_digest(st.cubes[cj].slots);
    let s1 = s.update(level as int, StackView { cubes: st.cubes.update(cj, empty_cube_view()), ..st });
    if level < u32::MAX {
        lemma_insert_keeps_lower(s1, (level + 1) as u32, face_slot(ch), ch);
        assert forall|l: int| 0 <= l < level implies #[trigger] promote_cube(s, level, cj).0[l] == s[l] by {
            assert(insert_hash_at(s1, (level + 1) as u32, face_slot(ch), ch).0[l] == s1[l]);
        }
    }
}

/// Level 0 after a Face of it completed: the Face is emptied and a Cube takes
/// its digest; whatever follows happens in the Cubes and in higher levels.
proof fn lemma_promote_face_keeps_level0_blocks_and_faces(s: Seq<StackView>, fi: int)
    requires
        s.len() > 0,
    ensures
        promote_face(s, 0, fi).0.len() > 0,
        promote_face(s, 0, fi).0[0].blocks == s[0].blocks,
        promote_face(s, 0, fi).0[0].faces == s[0].faces.update(fi, empty_face_view()),
{
    let st = s[0];
    let fh = slots_digest(st.faces[fi].slots);
    let index = cube_slot(fh);
    let cubes = cubes_after_insert(st.cubes, index, fh);
    let cj = cube_target(st.cubes, index);
    let s1 = s.update(0, StackView { faces: st.faces.update(fi, empty_face_view()), cubes: cubes, ..st });
    if all_filled(cubes[cj].slots) {
        let s2 = s1.update(0, StackView { cubes: s1[0].cubes.update(cj, empty_cube_view()), ..s1[0] });
        if 0 < u32::MAX {
            let ch = slots_digest(s1[0].cubes[cj].slots);
            lemma_insert_keeps_lower(s2, 1, face_slot(ch), ch);
            assert(insert_hash_at(s2, 1, face_slot(ch), ch).0[0] == s2[0]);
        }
    }
}

/// Accepting a transaction keeps level 0 accounted for: the transaction's
/// digest fills one Face slot, and a Face it completes takes nine filled
/// slots out of level 0 at once. Levels above 0 never touch level 0.
pub proof fn lemma_accept_keeps_level0_accounted(s: Seq<StackView>, tx: Transaction)
    requires
        levels_wf(s),
    ensures
        level0_accounted(s) ==> level0_accounted(accept_transaction(s, tx).0),
        accept_transaction(s, tx).0[0].blocks == s[0].blocks.push(tx),
{
    let d = transaction_digest(tx);
    let s0 = s.update(0, StackView { blocks: s[0].blocks.push(tx), ..s[0] });
    let st = stack_at(s0, 0);
    assert(st == s0[0]);
    let index = face_slot(d);
    lemma_slot_range(d);
    assert(stack_wf_except(s[0], 0, -1, -1));
    assert forall|k: int| 0 <= k < st.faces.len() implies face_shape(#[trigger] st.faces[k], k)
        && !all_filled(st.faces[k].slots) by {
        assert(st.faces[k] == s[0].faces[k]);
    }
    lemma_faces_after_insert(st.faces, index, d);
    let faces = faces_after_insert(st.faces, index, d);
    let fi = face_target(st.faces, index);
    let s1 = put_stack(s0, 0, StackView { faces: faces, ..st });
    assert(s1[0].blocks == s[0].blocks.push(tx));
    assert(s1[0].faces == faces);
    // The receiving Face gains exactly one filled slot.
    lemma_face_insert_fill(st.faces, index, d);
    assert(face_fill(faces) == face_fill(st.faces) + 1);
    if all_filled(faces[fi].slots) && 0 < s1.len() {
        lemma_filled_count_bound(faces[fi].slots);
        lemma_face_fill_update(faces, fi, empty_face_view());
        lemma_empty_slots_count(9);
        lemma_promote_face_keeps_level0_blocks_and_faces(s1, fi);
        let r = promote_face(s1, 0, fi).0;
        assert(r[0].faces == faces.update(fi, empty_face_view()));
        assert(face_fill(r[0].faces) + 9 == face_fill(faces));
        assert(accept_transaction(s, tx).0 == r);
    } else {
        assert(accept_transaction(s, tx).0 == s1);
    }
}

/// From a fresh manager, after any sequence of transactions, the levels are
/// well formed and level 0 is accounted for: of its transactions, those not
/// in a Face slot of level 0 went up in complete Faces, nine at a time.
pub proof fn lemma_fresh_runs_account_level0(txs: Seq<Transaction>)
    ensures
        levels_wf(accept_all(seq![empty_stack_view(0)], txs)),
        level0_accounted(accept_all(seq![empty_stack_view(0)], txs)),
    decreases txs.len(),
{
    reveal(accept_all);
    let fresh = seq![empty_stack_view(0)];
    if txs.len() == 0 {
        assert(face_fill(fresh[0].faces) == 0);
        assert(stack_wf_except(fresh[0], 0, -1, -1));
    } else {
        lemma_fresh_runs_account_level0(txs.drop_last());
        let prev = accept_all(fresh, txs.drop_last());
        lemma_accept_keeps_levels_wf(prev, txs.last());
        lemma_accept_keeps_level0_accounted(prev, txs.last());
    }
}

/// 27 to the power `l`: how many transactions one filled Face slot of level
/// `l` stands for.
pub open spec fn pow27(l: nat) -> nat
    decreases l,
{
    if l == 0 {
        1
    } else {
        27 * pow27((l - 1) as nat)
    }
}

/// Filled slots over all of `cubes`.
pub open spec fn cube_fill(cubes: Seq<CubeView>) -> nat
    decreases cubes.len(),
{
    if cubes.len() == 0 {
        0
    } else {
        cube_fill(cubes.drop_last()) + filled_count(cubes.last().slots)
    }
}

/// The transactions that level `l` holds in its slots: a Face slot stands for
/// 27^l of them, a Cube slot for nine Face slots.
pub open spec fn level_weight(st: StackView, l: nat) -> nat {
    pow27(l) * (face_fill(st.faces) + 9 * cube_fill(st.cubes))
}

/// The transactions held in the slots of all levels.
pub open spec fn total_weight(s: Seq<StackView>) -> nat
    decreases s.len(),
{
    if s.len() == 0 {
        0
    } else {
        total_weight(s.drop_last()) + level_weight(s.last(), (s.len() - 1) as nat)
    }
}

proof fn lemma_total_weight_update(s: Seq<StackView>, i: int, st: StackView)
    requires
        0 <= i < s.len(),
    ensures
        total_weight(s.update(i, st)) + level_weight(s[i], i as nat) == total_weight(s)
            + level_weight(st, i as nat),
    decreases s.len(),
{
    let u = s.update(i, st);
    if i == s.len() - 1 {
        assert(u.drop_last() =~= s.drop_last());
    } else {
        lemma_total_weight_update(s.drop_last(), i, st);
        assert(u.drop_last() =~= s.drop_last().update(i, st));
    }
}

proof fn lemma_total_weight_push(s: Seq<StackView>, st: StackView)
    ensures
        total_weight(s.push(st)) == total_weight(s) + level_weight(st, s.len()),
{
    assert(s.push(st).drop_last() =~= s);
}

proof fn lemma_cube_fill_update(cubes: Seq<CubeView>, i: int, c: CubeView)
    requires
        0 <= i < cubes.len(),
    ensures
        cube_fill(cubes.update(i, c)) + filled_count(cubes[i].slots) == cube_fill(cubes)
            + filled_count(c.slots),
    decreases cubes.len(),
{
    let u = cubes.update(i, c);
    if i == cubes.len() - 1 {
        assert(u.drop_last() =~= cubes.drop_last());
    } else {
        lemma_cube_fill_update(cubes.drop_last(), i, c);
        assert(u.drop_last() =~= cubes.drop_last().update(i, c));
    }
}

proof fn lemma_cube_fill_push(cubes: Seq<CubeView>, c: CubeView)
    ensures
        cube_fill(cubes.push(c)) == cube_fill(cubes) + filled_count(c.slots),
{
    assert(cubes.push(c).drop_last() =~= cubes);
}

/// Putting a digest into the Faces of a level fills exactly one more slot.
proof fn lemma_face_insert_fill(faces: Seq<FaceView>, index: int, h: Seq<char>)
    requires
        0 <= index < 9,
        forall|k: int|
            0 <= k < faces.len() ==> face_shape(#[trigger] faces[k], k) && !all_filled(
                faces[k].slots,
            ),
    ensures
        face_fill(faces_after_insert(faces, index, h)) == face_fill(faces) + 1,
{
    lemma_faces_after_insert(faces, index, h);
    let new = faces_after_insert(faces, index, h);
    let t = face_target(faces, index);
    match chosen_face(faces, index) {
        Some(i) => {
            assert(is_fullest_accepting(faces, index, i));
            lemma_filled_count_update(faces[i].slots, index, h);
            lemma_face_fill_update(faces, i, new[i]);
            assert(new == faces.update(i, new[i]));
        },
        None => {
            lemma_empty_slots_count(9);
            lemma_filled_count_update(empty_slots(9), index, h);
            assert(new == faces.push(new[t]));
            lemma_face_fill_push(faces, new[t]);
        },
    }
}

/// Putting a digest into the Cubes of a level fills exactly one more slot.
proof fn lemma_cube_insert_fill(cubes: Seq<CubeView>, index: int, h: Seq<char>)
    requires
        0 <= index < 3,
        forall|k: int|
            0 <= k < cubes.len() ==> cube_shape(#[trigger] cubes[k], k) && !all_filled(
                cubes[k].slots,
            ),
    ensures
        cube_fill(cubes_after_insert(cubes, index, h)) == cube_fill(cubes) + 1,
{
    lemma_cubes_after_insert(cubes, index, h);
    let new = cubes_after_insert(cubes, index, h);
    let t = cube_target(cubes, index);
    match chosen_cube(cubes, index) {
        Some(i) => {
            assert(is_first_accepting(cubes, index, i));
            lemma_filled_count_update(cubes[i].slots, index, h);
            lemma_cube_fill_update(cubes, i, new[i]);
            assert(new == cubes.update(i, new[i]));
        },
        None => {
            lemma_empty_slots_count(3);
            lemma_filled_count_update(empty_slots(3), index, h);
            assert(new == cubes.push(new[t]));
            lemma_cube_fill_push(cubes, new[t]);
        },
    }
}

proof fn lemma_insert_weight(s: Seq<StackView>, level: u32, index: int, h: Seq<char>)
    requires
        levels_wf(s),
        level <= s.len(),
        0 <= index < 9,
    ensures
        insert_hash_at(s, level, index, h).1 ==> total_weight(insert_hash_at(s, level, index, h).0)
            == total_weight(s) + pow27(level as nat),
    decreases u32::MAX - level, 2nat,
{
    lemma_insert_step(s, level, index, h);
    let st = stack_at(s, level);
    let faces = faces_after_insert(st.faces, index, h);
    let fi = face_target(st.faces, index);
    let st1 = StackView { faces: faces, ..st };
    let s1 = put_stack(s, level, st1);
    if level < s.len() {
        assert(stack_wf(s[level as int], level as int));
    }
    assert forall|k: int| 0 <= k < st.faces.len() implies face_shape(#[trigger] st.faces[k], k)
        && !all_filled(st.faces[k].slots) by {
        assert(stack_wf(s[level as int], level as int));
    }
    lemma_face_insert_fill(st.faces, index, h);
    let p = pow27(level as nat);
    let a = face_fill(st.faces);
    let b = cube_fill(st.cubes);
    assert(level_weight(st1, level as nat) == level_weight(st, level as nat) + p) by {
        assert(p * (a + 1 + 9 * b) == p * (a + 9 * b) + p) by (nonlinear_arith);
    }
    if level < s.len() {
        lemma_total_weight_update(s, level as int, st1);
    } else {
        assert(face_fill(st.faces) == 0 && cube_fill(st.cubes) == 0);
        assert(level_weight(st, level as nat) == 0) by (nonlinear_arith)
            requires level_weight(st, level as nat) == p * (0 + 9 * 0);
        lemma_total_weight_push(s, st1);
    }
    assert(total_weight(s1) == total_weight(s) + p);
    if all_filled(faces[fi].slots) && level < s1.len() {
        lemma_promote_face_weight(s1, level, fi);
    }
}

proof fn lemma_promote_face_weight(s: Seq<StackView>, level: u32, fi: int)
    requires
        levels_wf_except(s, level as int, fi, -1),
        level < s.len(),
        0 <= fi < s[level as int].faces.len(),
        all_filled(s[level as int].faces[fi].slots),
    ensures
        promote_face(s, level, fi).1 ==> total_weight(promote_face(s, level, fi).0)
            == total_weight(s),
    decreases u32::MAX - level, 1nat,
{
    lemma_promote_face_step(s, level, fi);
    let st = s[level as int];
    assert(stack_wf_except(st, level as int, fi, -1));
    let fh = slots_digest(st.faces[fi].slots);
    let index = cube_slot(fh);
    lemma_slot_range(fh);
    let cubes = cubes_after_insert(st.cubes, index, fh);
    let cj = cube_target(st.cubes, index);
    let st1 = StackView { faces: st.faces.update(fi, empty_face_view()), cubes: cubes, ..st };
    let s1 = s.update(level as int, st1);
    assert forall|k: int| 0 <= k < st.cubes.len() implies cube_shape(#[trigger] st.cubes[k], k)
        && !all_filled(st.cubes[k].slots) by {}
    lemma_cube_insert_fill(st.cubes, index, fh);
    assert(face_shape(st.faces[fi], fi));
    lemma_filled_count_bound(st.faces[fi].slots);
    lemma_empty_slots_count(9);
    lemma_face_fill_update(st.faces, fi, empty_face_view());
    let p = pow27(level as nat);
    let a = face_fill(st1.faces);
    let b = cube_fill(st.cubes);
    assert(level_weight(st1, level as nat) == level_weight(st, level as nat)) by {
        assert(p * (a + 9 * (b + 1)) == p * ((a + 9) + 9 * b)) by (nonlinear_arith);
    }
    lemma_total_weight_update(s, level as int, st1);
    if all_filled(cubes[cj].slots) {
        lemma_promote_cube_weight(s1, level, cj);
    }
}

proof fn lemma_promote_cube_weight(s: Seq<StackView>, level: u32, cj: int)
    requires
        levels_wf_except(s, level as int, -1, cj),
        level < s.len(),
        0 <= cj < s[level as int].cubes.len(),
        all_filled(s[level as int].cubes[cj].slots),
    ensures
        promote_cube(s, level, cj).1 ==> total_weight(promote_cube(s, level, cj).0)
            == total_weight(s),
    decreases u32::MAX - level, 0nat,
{
    lemma_promote_cube_step(s, level, cj);
    let st = s[level as int];
    assert(stack_wf_except(st, level as int, -1, cj));
    let ch = slots_digest(st.cubes[cj].slots);
    let st1 = StackView { cubes: st.cubes.update(cj, empty_cube_view()), ..st };
    let s1 = s.update(level as int, st1);
    assert(cube_shape(st.cubes[cj], cj));
    lemma_filled_count_bound(st.cubes[cj].slots);
    lemma_empty_slots_count(3);
    lemma_cube_fill_update(st.cubes, cj, empty_cube_view());
    lemma_total_weight_update(s, level as int, st1);
    if level < u32::MAX {
        lemma_slot_range(ch);
        lemma_insert_weight(s1, (level + 1) as u32, face_slot(ch), ch);
        let p = pow27(level as nat);
        let a = face_fill(st.faces);
        let b = cube_fill(st1.cubes);
        assert(pow27((level + 1) as nat) == 27 * p);
        assert(level_weight(st, level as nat) == level_weight(st1, level as nat) + 27 * p) by {
            assert(p * (a + 9 * (b + 3)) == p * (a + 9 * b) + 27 * p) by (nonlinear_arith);
        }
    }
}

/// Slot accounting: every transaction accepted is held exactly once in the
/// slots of the levels, a filled Face slot of level `l` standing for 27^l
/// transactions and a filled Cube slot for nine Face slots. Each completed
/// Face (nine slots) is promoted into exactly one Cube slot and each completed
/// Cube (three slots) into exactly one Face slot of the next level, and then
/// cleared; so an accepted transaction adds exactly one to the total, while
/// level 0 records it.
pub proof fn lemma_accept_adds_one_to_weight(s: Seq<StackView>, tx: Transaction)
    requires
        levels_wf(s),
    ensures
        accept_transaction(s, tx).1 ==> total_weight(accept_transaction(s, tx).0) == total_weight(s) + 1,
        accept_transaction(s, tx).1 && total_weight(s) == s[0].blocks.len() ==> total_weight(
            accept_transaction(s, tx).0,
        ) == accept_transaction(s, tx).0[0].blocks.len(),
{
    let st0 = StackView { blocks: s[0].blocks.push(tx), ..s[0] };
    let s0 = s.update(0, st0);
    assert(levels_wf(s0)) by {
        assert forall|l: int| 0 <= l < s0.len() implies stack_wf_except(#[trigger] s0[l], l, -1, -1) by {
            assert(stack_wf_except(s[l], l, -1, -1));
        }
    }
    lemma_total_weight_update(s, 0, st0);
    lemma_slot_range(transaction_digest(tx));
    lemma_insert_weight(s0, 0, face_slot(transaction_digest(tx)), transaction_digest(tx));
    lemma_accept_keeps_level0_accounted(s, tx);
    assert(pow27(0) == 1);
    if total_weight(s) == s[0].blocks.len() {
        assert(face_fill(s[0].faces) <= s[0].blocks.len()) by {
            assert(total_weight(s) >= level_weight(s[0], 0)) by {
                lemma_total_weight_first(s);
            }
            assert(level_weight(s[0], 0) == face_fill(s[0].faces) + 9 * cube_fill(s[0].cubes));
        }
    }
}

proof fn lemma_total_weight_first(s: Seq<StackView>)
    requires
        s.len() > 0,
    ensures
        total_weight(s) >= level_weight(s[0], 0),
    decreases s.len(),
{
    if s.len() > 1 {
        lemma_total_weight_first(s.drop_last());
        assert(s.drop_last()[0] == s[0]);
    }
}

/// Every transaction of `txs` was accepted without error.
pub open spec fn accept_all_ok(s: Seq<StackView>, txs: Seq<Transaction>) -> bool
    decreases txs.len(),
{
    if txs.len() == 0 {
        true
    } else {
        accept_all_ok(s, txs.drop_last()) && accept_transaction(
            accept_all(s, txs.drop_last()),
            txs.last(),
        ).1
    }
}

/// From a fresh manager, after transactions that were all accepted, the
/// slots of all levels hold exactly the transactions recorded at level 0,
/// counted with their weights: nothing completed is left unpromoted or
/// promoted twice.
pub proof fn lemma_fresh_runs_conserve_weight(txs: Seq<Transaction>)
    ensures
        accept_all_ok(seq![empty_stack_view(0)], txs) ==> total_weight(
            accept_all(seq![empty_stack_view(0)], txs),
        ) == accept_all(seq![empty_stack_view(0)], txs)[0].blocks.len(),
    decreases txs.len(),
{
    reveal(accept_all);
    let fresh = seq![empty_stack_view(0)];
    if txs.len() == 0 {
        assert(fresh.drop_last() =~= Seq::<StackView>::empty());
        assert(face_fill(fresh[0].faces) == 0 && cube_fill(fresh[0].cubes) == 0);
        assert(level_weight(fresh[0], 0) == 0) by {
            assert(pow27(0) * (0 + 9 * 0) == 0) by (nonlinear_arith);
        }
        assert(total_weight(fresh.drop_last()) == 0);
        assert(total_weight(fresh) == 0);
        assert(accept_all(fresh, txs) == fresh);
    } else {
        lemma_fresh_runs_conserve_weight(txs.drop_last());
        lemma_fresh_runs_account_level0(txs.drop_last());
        let prev = accept_all(fresh, txs.drop_last());
        lemma_accept_adds_one_to_weight(prev, txs.last());
        assert(accept_all(fresh, txs) == accept_transaction(prev, txs.last()).0);
    }
}

/// `r` has at least the levels of `s`, and every level of `s` has in `r` at
/// least as many blocks, Faces and Cubes.
pub open spec fn grows_from(s: Seq<StackView>, r: Seq<StackView>) -> bool {
    &&& r.len() >= s.len()
    &&& forall|l: int|
        0 <= l < s.len() ==> (#[trigger] r[l]).blocks.len() >= s[l].blocks.len() && r[l].faces.len()
            >= s[l].faces.len() && r[l].cubes.len() >= s[l].cubes.len()
}

proof fn lemma_grows_trans(a: Seq<StackView>, b: Seq<StackView>, c: Seq<StackView>)
    requires
        grows_from(a, b),
        grows_from(b, c),
    ensures
        grows_from(a, c),
{
    assert forall|l: int| 0 <= l < a.len() implies (#[trigger] c[l]).blocks.len() >= a[l].blocks.len()
        && c[l].faces.len() >= a[l].faces.len() && c[l].cubes.len() >= a[l].cubes.len() by {
        assert(b[l].blocks.len() >= a[l].blocks.len());
        assert(c[l].blocks.len() >= b[l].blocks.len());
    }
}

proof fn lemma_insert_grows(s: Seq<StackView>, level: u32, index: int, h: Seq<char>)
    requires
        levels_wf(s),
        level <= s.len(),
        0 <= index < 9,
    ensures
        grows_from(s, insert_hash_at(s, level, index, h).0),
    decreases u32::MAX - level, 2nat,
{
    lemma_insert_step(s, level, index, h);
    let st = stack_at(s, level);
    let faces = faces_after_insert(st.faces, index, h);
    let fi = face_target(st.faces, index);
    let s1 = put_stack(s, level, StackView { faces: faces, ..st });
    assert(faces.len() >= st.faces.len());
    assert(grows_from(s, s1));
    if all_filled(faces[fi].slots) && level < s1.len() {
        lemma_promote_face_grows(s1, level, fi);
        lemma_grows_trans(s, s1, promote_face(s1, level, fi).0);
    }
}

proof fn lemma_promote_face_grows(s: Seq<StackView>, level: u32, fi: int)
    requires
        levels_wf_except(s, level as int, fi, -1),
        level < s.len(),
        0 <= fi < s[level as int].faces.len(),
    ensures
        grows_from(s, promote_face(s, level, fi).0),
    decreases u32::MAX - level, 1nat,
{
    lemma_promote_face_step(s, level, fi);
    let st = s[level as int];
    let fh = slots_digest(st.faces[fi].slots);
    let index = cube_slot(fh);
    let cubes = cubes_after_insert(st.cubes, index, fh);
    let cj = cube_target(st.cubes, index);
    let s1 = s.update(
        level as int,
        StackView { faces: st.faces.update(fi, empty_face_view()), cubes: cubes, ..st },
    );
    assert(cubes.len() >= st.cubes.len());
    assert(grows_from(s, s1));
    if all_filled(cubes[cj].slots) {
        lemma_promote_cube_grows(s1, level, cj);
        lemma_grows_trans(s, s1, promote_cube(s1, level, cj).0);
    }
}

proof fn lemma_promote_cube_grows(s: Seq<StackView>, level: u32, cj: int)
    requires
        levels_wf_except(s, level as int, -1, cj),
        level < s.len(),
        0 <= cj < s[level as int].cubes.len(),
    ensures
        grows_from(s, promote_cube(s, level, cj).0),
    decreases u32::MAX - level, 0nat,
{
    lemma_promote_cube_step(s, level, cj);
    let st = s[level as int];
    let ch = slots_digest(st.cubes[cj].slots);
    let s1 = s.update(level as int, StackView { cubes: st.cubes.update(cj, empty_cube_view()), ..st });
    assert(grows_from(s, s1));
    if level < u32::MAX {
        lemma_slot_range(ch);
        lemma_insert_grows(s1, (level + 1) as u32, face_slot(ch), ch);
        lemma_grows_trans(s, s1, insert_hash_at(s1, (level + 1) as u32, face_slot(ch), ch).0);
    }
}

/// Nothing is ever taken away: accepting a transaction keeps every level,
/// and no level loses blocks, Faces or Cubes (emptied ones are reused in
/// place). So the block, Face and Cube counts never decrease.
pub proof fn lemma_accept_never_shrinks(s: Seq<StackView>, tx: Transaction)
    requires
        levels_wf(s),
    ensures
        grows_from(s, accept_transaction(s, tx).0),
{
    let s0 = s.update(0, StackView { blocks: s[0].blocks.push(tx), ..s[0] });
    assert(grows_from(s, s0));
    assert(levels_wf(s0)) by {
        assert forall|l: int| 0 <= l < s0.len() implies stack_wf_except(#[trigger] s0[l], l, -1, -1) by {
            assert(stack_wf_except(s[l], l, -1, -1));
        }
    }
    lemma_slot_range(transaction_digest(tx));
    lemma_insert_grows(s0, 0, face_slot(transaction_digest(tx)), transaction_digest(tx));
    lemma_grows_trans(s, s0, accept_transaction(s, tx).0);
}

/// The Face that a transaction's digest completes at level 0, after it.
pub open spec fn completed_face(s: Seq<StackView>, tx: Transaction) -> FaceView {
    let d = transaction_digest(tx);
    faces_after_insert(s[0].faces, face_slot(d), d)[face_target(s[0].faces, face_slot(d))]
}

/// The Cube of level 0 that the digest of `completed_face` goes to, after it.
pub open spec fn receiving_cube(s: Seq<StackView>, tx: Transaction) -> CubeView {
    let fh = slots_digest(completed_face(s, tx).slots);
    cubes_after_insert(s[0].cubes, cube_slot(fh), fh)[cube_target(s[0].cubes, cube_slot(fh))]
}

/// The promotion chain, after any earlier history: when a transaction given
/// to a single well-formed level completes a Face, and that Face's digest
/// completes a Cube, the Cube is emptied and a new level 1 appears holding one
/// Face whose only filled slot is the one the Cube's digest selects, holding
/// that digest. The completed Face is emptied too.
pub proof fn lemma_completed_cube_opens_next_level(s: Seq<StackView>, tx: Transaction)
    requires
        levels_wf(s),
        s.len() == 1,
        all_filled(completed_face(s, tx).slots),
        all_filled(receiving_cube(s, tx).slots),
    ensures
        ({
            let r = accept_transaction(s, tx);
            let d = transaction_digest(tx);
            let fi = face_target(s[0].faces, face_slot(d));
            let fh = slots_digest(completed_face(s, tx).slots);
            let cj = cube_target(s[0].cubes, cube_slot(fh));
            let ch = slots_digest(receiving_cube(s, tx).slots);
            &&& r.1
            &&& r.0.len() == 2
            &&& r.0[0].faces[fi] == empty_face_view()
            &&& r.0[0].cubes[cj] == empty_cube_view()
            &&& r.0[1] == StackView {
                level: 1,
                blocks: seq![],
                faces: seq![face_with(empty_slots(9).update(face_slot(ch), Some(ch)))],
                cubes: seq![],
            }
        }),
{
    let d = transaction_digest(tx);
    lemma_slot_range(d);
    let s0 = s.update(0, StackView { blocks: s[0].blocks.push(tx), ..s[0] });
    assert(levels_wf(s0)) by {
        assert forall|l: int| 0 <= l < s0.len() implies stack_wf_except(#[trigger] s0[l], l, -1, -1) by {
            assert(stack_wf_except(s[l], l, -1, -1));
        }
    }
    lemma_insert_step(s0, 0, face_slot(d), d);
    let st = stack_at(s0, 0);
    assert(st.faces == s[0].faces && st.cubes == s[0].cubes);
    let faces = faces_after_insert(st.faces, face_slot(d), d);
    let fi = face_target(st.faces, face_slot(d));
    let s1 = put_stack(s0, 0, StackView { faces: faces, ..st });
    lemma_promote_face_step(s1, 0, fi);
    let st1 = s1[0];
    let fh = slots_digest(st1.faces[fi].slots);
    lemma_slot_range(fh);
    let cubes = cubes_after_insert(st1.cubes, cube_slot(fh), fh);
    let cj = cube_target(st1.cubes, cube_slot(fh));
    let s2 = s1.update(0, StackView { faces: st1.faces.update(fi, empty_face_view()), cubes: cubes, ..st1 });
    lemma_promote_cube_step(s2, 0, cj);
    let ch = slots_digest(cubes[cj].slots);
    lemma_slot_range(ch);
    let s3 = s2.update(0, StackView { cubes: s2[0].cubes.update(cj, empty_cube_view()), ..s2[0] });
    let st3 = stack_at(s3, 1);
    assert(st3 == empty_stack_view(1));
    assert(chosen_face(st3.faces, face_slot(ch)) is None);
    lemma_one_slot_not_complete(9, face_slot(ch), ch);
    let nf = face_with(empty_slots(9).update(face_slot(ch), Some(ch)));
    assert(faces_after_insert(st3.faces, face_slot(ch), ch) =~= seq![nf]);
    let r = put_stack(s3, 1, StackView { faces: seq![nf], ..st3 });
    assert(insert_hash_at(s3, 1, face_slot(ch), ch) == (r, true));
    assert(promote_cube(s2, 0, cj) == (r, true));
    assert(promote_face(s1, 0, fi) == (r, true));
    assert(accept_transaction(s, tx) == (r, true));
    assert(r[1] == StackView { level: 1, blocks: seq![], faces: seq![nf], cubes: seq![] });
}

} // verus!
