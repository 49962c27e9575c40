//! The mathematical model of the Stack Engine: the levels as sequences of
//! Face and Cube views, what one insertion and its cascade do to them, and
//! the well-formedness that every operation keeps.
//!
//! No Face or Cube is left complete between operations, so one insertion
//! completes at most one Face of its level, whose digest completes at most
//! one Cube, whose digest is one insertion into the next level. The cascade
//! is therefore a chain, one promotion per level, and the order in which
//! several Faces or Cubes completed at once would be taken never arises.

use vstd::prelude::*;
use vstd::utf8::encode_utf8;
use crate::digest::{concat_utf8, hash_digital_root, sha256_hex, strings_view};
use crate::stacks::Transaction;

verus! {

/// The slots of a container, as the text of the digests they hold.
pub type SlotsView = Seq<Option<Seq<char>>>;

pub open spec fn slots_view(s: Seq<Option<String>>) -> SlotsView {
    s.map_values(|o: Option<String>| match o {
        Some(h) => Some(h@),
        None => None,
    })
}

pub struct FaceView {
    pub slots: SlotsView,
    pub edges: Seq<usize>,
    pub position: Seq<u64>,
}

pub struct CubeView {
    pub slots: SlotsView,
    pub faces: Seq<usize>,
    pub position: Seq<u64>,
}

pub struct StackView {
    pub level: u32,
    pub blocks: Seq<Transaction>,
    pub faces: Seq<FaceView>,
    pub cubes: Seq<CubeView>,
}

/// Every slot is filled.
pub open spec fn all_filled(slots: SlotsView) -> bool {
    forall|i: int| 0 <= i < slots.len() ==> (#[trigger] slots[i]) is Some
}

/// How many slots are filled.
pub open spec fn filled_count(slots: SlotsView) -> nat
    decreases slots.len(),
{
    if slots.len() == 0 {
        0
    } else {
        filled_count(slots.drop_last()) + if slots.last() is Some {
            1nat
        } else {
            0nat
        }
    }
}

pub open spec fn empty_slots(n: nat) -> SlotsView {
    Seq::new(n, |i: int| None)
}

pub open spec fn origin() -> Seq<u64> {
    seq![0u64, 0u64, 0u64]
}

pub open spec fn empty_face_view() -> FaceView {
    FaceView { slots: empty_slots(9), edges: seq![0usize, 0usize, 0usize, 0usize], position: origin() }
}

pub open spec fn empty_cube_view() -> CubeView {
    CubeView {
        slots: empty_slots(3),
        faces: seq![0usize, 0usize, 0usize, 0usize, 0usize, 0usize],
        position: origin(),
    }
}

pub open spec fn empty_stack_view(level: u32) -> StackView {
    StackView { level, blocks: seq![], faces: seq![], cubes: seq![] }
}

pub(crate) proof fn lemma_filled_count_bound(slots: SlotsView)
    ensures
        filled_count(slots) <= slots.len(),
        filled_count(slots) == slots.len() <==> all_filled(slots),
    decreases slots.len(),
{
    if slots.len() > 0 {
        lemma_filled_count_bound(slots.drop_last());
        if all_filled(slots) {
            assert(all_filled(slots.drop_last())) by {
                assert forall|i: int| 0 <= i < slots.drop_last().len() implies (
                #[trigger] slots.drop_last()[i]) is Some by {
                    assert(slots[i] is Some);
                }
            }
            assert(slots[slots.len() - 1] is Some);
        }
        if filled_count(slots) == slots.len() {
            assert forall|i: int| 0 <= i < slots.len() implies (#[trigger] slots[i]) is Some by {
                if i < slots.len() - 1 {
                    assert(slots.drop_last()[i] is Some);
                }
            }
        }
    }
}

/// The digests that the filled slots hold, in slot order.
pub open spec fn filled_hashes(slots: SlotsView) -> Seq<Seq<char>>
    decreases slots.len(),
{
    if slots.len() == 0 {
        seq![]
    } else {
        let rest = filled_hashes(slots.drop_last());
        match slots.last() {
            Some(h) => rest.push(h),
            None => rest,
        }
    }
}

/// A container's digest: SHA-256 over its filled slots' texts, in slot order.
pub open spec fn slots_digest(slots: SlotsView) -> Seq<char> {
    sha256_hex(concat_utf8(filled_hashes(slots)))
}

/// The eight bytes of `t`, most significant first.
pub open spec fn be_bytes(t: u64) -> Seq<u8> {
    seq![
        (t / 0x100000000000000) as u8,
        (t / 0x1000000000000 % 256) as u8,
        (t / 0x10000000000 % 256) as u8,
        (t / 0x100000000 % 256) as u8,
        (t / 0x1000000 % 256) as u8,
        (t / 0x10000 % 256) as u8,
        (t / 0x100 % 256) as u8,
        (t % 256) as u8,
    ]
}

/// The bytes a transaction's digest is taken over: every `from` entry, every
/// `to` entry, the type, the signature, then the big-endian timestamp.
pub open spec fn transaction_bytes(tx: Transaction) -> Seq<u8> {
    concat_utf8(strings_view(tx.from@)) + concat_utf8(strings_view(tx.to@)) + encode_utf8(
        tx.meta.tx_type@,
    ) + encode_utf8(tx.meta.sig@) + be_bytes(tx.timestamp)
}

pub open spec fn transaction_digest(tx: Transaction) -> Seq<char> {
    sha256_hex(transaction_bytes(tx))
}

/// The Face slot that a digest goes to.
pub open spec fn face_slot(h: Seq<char>) -> int {
    (hash_digital_root(h) % 9) as int
}

/// The Cube slot that a digest goes to.
pub open spec fn cube_slot(h: Seq<char>) -> int {
    (hash_digital_root(h) % 3) as int
}

/// A Face can take a digest in slot `index`: it is not complete and that slot is empty.
pub open spec fn face_accepts(f: FaceView, index: int) -> bool {
    !all_filled(f.slots) && f.slots[index] is None
}

/// Face `i` is the one to fill: it accepts, no accepting Face is fuller, and
/// every accepting Face before it is less full.
pub open spec fn is_fullest_accepting(faces: Seq<FaceView>, index: int, i: int) -> bool {
    &&& 0 <= i < faces.len()
    &&& face_accepts(faces[i], index)
    &&& forall|j: int|
        0 <= j < faces.len() && #[trigger] face_accepts(faces[j], index) ==> filled_count(
            faces[j].slots,
        ) <= filled_count(faces[i].slots)
    &&& forall|j: int|
        0 <= j < i && #[trigger] face_accepts(faces[j], index) ==> filled_count(faces[j].slots)
            < filled_count(faces[i].slots)
}

pub open spec fn chosen_face(faces: Seq<FaceView>, index: int) -> Option<int> {
    if exists|i: int| is_fullest_accepting(faces, index, i) {
        Some(choose|i: int| is_fullest_accepting(faces, index, i))
    } else {
        None
    }
}

pub open spec fn cube_accepts(c: CubeView, index: int) -> bool {
    !all_filled(c.slots) && c.slots[index] is None
}

/// Cube `i` is the first that accepts.
pub open spec fn is_first_accepting(cubes: Seq<CubeView>, index: int, i: int) -> bool {
    &&& 0 <= i < cubes.len()
    &&& cube_accepts(cubes[i], index)
    &&& forall|j: int| 0 <= j < i ==> !#[trigger] cube_accepts(cubes[j], index)
}

pub open spec fn chosen_cube(cubes: Seq<CubeView>, index: int) -> Option<int> {
    if exists|i: int| is_first_accepting(cubes, index, i) {
        Some(choose|i: int| is_first_accepting(cubes, index, i))
    } else {
        None
    }
}

/// Where a new container goes: one step along the first axis from the last
/// one, or the origin when there is none.
pub open spec fn next_position(last: Option<Seq<u64>>) -> Seq<u64> {
    match last {
        Some(p) => seq![(p[0] + 1) as u64, p[1], p[2]],
        None => origin(),
    }
}

pub open spec fn last_face_position(faces: Seq<FaceView>) -> Option<Seq<u64>> {
    if faces.len() == 0 {
        None
    } else {
        Some(faces.last().position)
    }
}

pub open spec fn last_cube_position(cubes: Seq<CubeView>) -> Option<Seq<u64>> {
    if cubes.len() == 0 {
        None
    } else {
        Some(cubes.last().position)
    }
}

/// The index of the Face that receives a digest in slot `index`.
pub open spec fn face_target(faces: Seq<FaceView>, index: int) -> int {
    match chosen_face(faces, index) {
        Some(i) => i,
        None => faces.len() as int,
    }
}

/// The Faces after a digest is put in slot `index`: the fullest accepting
/// Face takes it, else a new Face is appended.
pub open spec fn faces_after_insert(faces: Seq<FaceView>, index: int, h: Seq<char>) -> Seq<
    FaceView,
> {
    match chosen_face(faces, index) {
        Some(i) => faces.update(
            i,
            FaceView { slots: faces[i].slots.update(index, Some(h)), ..faces[i] },
        ),
        None => faces.push(
            FaceView {
                slots: empty_slots(9).update(index, Some(h)),
                position: next_position(last_face_position(faces)),
                ..empty_face_view()
            },
        ),
    }
}

pub open spec fn cube_target(cubes: Seq<CubeView>, index: int) -> int {
    match chosen_cube(cubes, index) {
        Some(i) => i,
        None => cubes.len() as int,
    }
}

/// The Cubes after a digest is put in slot `index` (the first accepting Cube,
/// else a new one).
pub open spec fn cubes_after_insert(cubes: Seq<CubeView>, index: int, h: Seq<char>) -> Seq<
    CubeView,
> {
    match chosen_cube(cubes, index) {
        Some(i) => cubes.update(
            i,
            CubeView { slots: cubes[i].slots.update(index, Some(h)), ..cubes[i] },
        ),
        None => cubes.push(
            CubeView {
                slots: empty_slots(3).update(index, Some(h)),
                position: next_position(last_cube_position(cubes)),
                ..empty_cube_view()
            },
        ),
    }
}

pub open spec fn stack_at(s: Seq<StackView>, level: u32) -> StackView {
    if level < s.len() {
        s[level as int]
    } else {
        empty_stack_view(level)
    }
}

pub open spec fn put_stack(s: Seq<StackView>, level: u32, st: StackView) -> Seq<StackView> {
    if level < s.len() {
        s.update(level as int, st)
    } else {
        s.push(st)
    }
}

/// The levels after digest `h` is inserted in slot `index` of the Faces of
/// `level`, with every completion it causes carried out. The flag is false
/// when a Cube completed at the highest level that a `u32` can number.
pub open spec fn insert_hash_at(s: Seq<StackView>, level: u32, index: int, h: Seq<char>) -> (Seq<
    StackView,
>, bool)
    decreases u32::MAX - level, 2nat,
{
    let st = stack_at(s, level);
    let faces = faces_after_insert(st.faces, index, h);
    let fi = face_target(st.faces, index);
    let s1 = put_stack(s, level, StackView { faces: faces, ..st });
    if all_filled(faces[fi].slots) && level < s1.len() {
        promote_face(s1, level, fi)
    } else {
        (s1, true)
    }
}

/// Digest `h` inserted into the Faces of `level` at the slot its own digital
/// root selects.
pub open spec fn insert_hash(s: Seq<StackView>, level: u32, h: Seq<char>) -> (Seq<
    StackView,
>, bool) {
    insert_hash_at(s, level, face_slot(h), h)
}

/// Face `fi` of `level` is complete: its digest goes into a Cube of the same
/// level and the Face is emptied.
pub open spec fn promote_face(s: Seq<StackView>, level: u32, fi: int) -> (Seq<StackView>, bool)
    recommends
        level < s.len(),
    decreases u32::MAX - level, 1nat,
{
    let st = s[level as int];
    let fh = slots_digest(st.faces[fi].slots);
    let index = cube_slot(fh);
    let cubes = cubes_after_insert(st.cubes, index, fh);
    let cj = cube_target(st.cubes, index);
    let s1 = s.update(
        level as int,
        StackView { faces: st.faces.update(fi, empty_face_view()), cubes: cubes, ..st },
    );
    if all_filled(cubes[cj].slots) {
        promote_cube(s1, level, cj)
    } else {
        (s1, true)
    }
}

/// Cube `cj` of `level` is complete: it is emptied and its digest goes into
/// the Faces of the next level.
pub open spec fn promote_cube(s: Seq<StackView>, level: u32, cj: int) -> (Seq<StackView>, bool)
    recommends
        level < s.len(),
    decreases u32::MAX - level, 0nat,
{
    let st = s[level as int];
    let ch = slots_digest(st.cubes[cj].slots);
    let s1 = s.update(level as int, StackView { cubes: st.cubes.update(cj, empty_cube_view()), ..st });
    if level == u32::MAX {
        (s1, false)
    } else {
        insert_hash_at(s1, (level + 1) as u32, face_slot(ch), ch)
    }
}

/// Accepting a transaction: it joins the blocks of level 0 and its digest is
/// inserted at level 0.
pub open spec fn accept_transaction(s: Seq<StackView>, tx: Transaction) -> (Seq<StackView>, bool)
    recommends
        s.len() > 0,
{
    let st = s[0];
    insert_hash(s.update(0, StackView { blocks: st.blocks.push(tx), ..st }), 0, transaction_digest(tx))
}

/// A Face in position `k` of its level has nine slots and is not further
/// along the first axis than its index.
pub open spec fn face_shape(f: FaceView, k: int) -> bool {
    &&& f.slots.len() == 9
    &&& f.position.len() == 3
    &&& f.edges.len() == 4
    &&& f.position[0] <= k
}

pub open spec fn cube_shape(c: CubeView, k: int) -> bool {
    &&& c.slots.len() == 3
    &&& c.position.len() == 3
    &&& c.faces.len() == 6
    &&& c.position[0] <= k
}

/// Level `l` is well formed, except that Face `fi` and Cube `cj` may be
/// complete (pass -1 for none).
pub open spec fn stack_wf_except(st: StackView, l: int, fi: int, cj: int) -> bool {
    &&& st.level == l
    &&& l > 0 ==> st.blocks.len() == 0
    &&& forall|k: int|
        0 <= k < st.faces.len() ==> face_shape(#[trigger] st.faces[k], k) && (k != fi
            ==> !all_filled(st.faces[k].slots))
    &&& forall|k: int|
        0 <= k < st.cubes.len() ==> cube_shape(#[trigger] st.cubes[k], k) && (k != cj
            ==> !all_filled(st.cubes[k].slots))
}

/// Level `l` is well formed: its number is `l`, it holds transactions only if
/// it is level 0, and no Face or Cube of it is complete.
pub open spec fn stack_wf(st: StackView, l: int) -> bool {
    stack_wf_except(st, l, -1, -1)
}

/// All levels are well formed, except Face `fi` and Cube `cj` of `level`.
pub open spec fn levels_wf_except(s: Seq<StackView>, level: int, fi: int, cj: int) -> bool {
    &&& s.len() > 0
    &&& forall|l: int|
        0 <= l < s.len() ==> stack_wf_except(
            #[trigger] s[l],
            l,
            if l == level {
                fi
            } else {
                -1
            },
            if l == level {
                cj
            } else {
                -1
            },
        )
}

/// The levels are numbered 0, 1, 2, ... in order, level 0 exists, only level
/// 0 records transactions, and no Face or Cube is complete: every completion
/// has been promoted.
pub open spec fn levels_wf(s: Seq<StackView>) -> bool {
    levels_wf_except(s, -1, -1, -1)
}

pub(crate) proof fn lemma_fullest_unique(faces: Seq<FaceView>, index: int, i: int, j: int)
    requires
        is_fullest_accepting(faces, index, i),
        is_fullest_accepting(faces, index, j),
    ensures
        i == j,
{
    if i < j {
        assert(face_accepts(faces[i], index));
    } else if j < i {
        assert(face_accepts(faces[j], index));
    }
}

pub(crate) proof fn lemma_chosen_face(faces: Seq<FaceView>, index: int, i: int)
    requires
        is_fullest_accepting(faces, index, i),
    ensures
        chosen_face(faces, index) == Some(i),
{
    let c = choose|c: int| is_fullest_accepting(faces, index, c);
    lemma_fullest_unique(faces, index, i, c);
}

pub(crate) proof fn lemma_chosen_cube(cubes: Seq<CubeView>, index: int, i: int)
    requires
        is_first_accepting(cubes, index, i),
    ensures
        chosen_cube(cubes, index) == Some(i),
{
    let c = choose|c: int| is_first_accepting(cubes, index, c);
    assert(is_first_accepting(cubes, index, c));
    if c < i {
        assert(!cube_accepts(cubes[c], index));
    } else if i < c {
        assert(!cube_accepts(cubes[i], index));
    }
}

pub(crate) proof fn lemma_one_slot_not_complete(n: nat, index: int, h: Seq<char>)
    requires
        n >= 2,
        0 <= index < n,
    ensures
        !all_filled(empty_slots(n).update(index, Some(h))),
{
    let j = if index == 0 {
        1int
    } else {
        0int
    };
    assert(empty_slots(n).update(index, Some(h))[j] is None);
}

pub(crate) proof fn lemma_next_position(last: Option<Seq<u64>>, k: int)
    requires
        last is Some ==> last->0.len() == 3 && last->0[0] < k,
        k >= 0,
    ensures
        next_position(last).len() == 3,
        next_position(last)[0] <= k,
{
    match last {
        Some(p) => {
            let v = (p[0] + 1) as u64;
            assert(v <= u64::MAX);
            if p[0] + 1 <= u64::MAX {
                assert(v == p[0] + 1);
            }
        },
        None => {},
    }
}

/// Putting a digest into the Faces of a level keeps every Face in shape and
/// leaves all but the receiving Face as they were.
pub(crate) proof fn lemma_faces_after_insert(faces: Seq<FaceView>, index: int, h: Seq<char>)
    requires
        0 <= index < 9,
        forall|k: int|
            0 <= k < faces.len() ==> face_shape(#[trigger] faces[k], k) && !all_filled(
                faces[k].slots,
            ),
    ensures
        ({
            let new = faces_after_insert(faces, index, h);
            let t = face_target(faces, index);
            &&& 0 <= t < new.len()
            &&& new.len() == faces.len() || (new.len() == faces.len() + 1 && t == faces.len())
            &&& new[t].slots == (if t < faces.len() {
                faces[t].slots
            } else {
                empty_slots(9)
            }).update(index, Some(h))
            &&& forall|k: int|
                0 <= k < new.len() ==> face_shape(#[trigger] new[k], k) && (k != t ==> new[k]
                    == faces[k])
            &&& t == faces.len() ==> !all_filled(new[t].slots)
        }),
{
    match chosen_face(faces, index) {
        Some(i) => {
            assert(is_fullest_accepting(faces, index, i));
        },
        None => {
            lemma_one_slot_not_complete(9, index, h);
            if faces.len() > 0 {
                assert(face_shape(faces[faces.len() - 1], faces.len() - 1));
            }
            lemma_next_position(last_face_position(faces), faces.len() as int);
        },
    }
}

pub(crate) proof fn lemma_cubes_after_insert(cubes: Seq<CubeView>, index: int, h: Seq<char>)
    requires
        0 <= index < 3,
        forall|k: int|
            0 <= k < cubes.len() ==> cube_shape(#[trigger] cubes[k], k) && !all_filled(
                cubes[k].slots,
            ),
    ensures
        ({
            let new = cubes_after_insert(cubes, index, h);
            let t = cube_target(cubes, index);
            &&& 0 <= t < new.len()
            &&& new.len() == cubes.len() || (new.len() == cubes.len() + 1 && t == cubes.len())
            &&& new[t].slots == (if t < cubes.len() {
                cubes[t].slots
            } else {
                empty_slots(3)
            }).update(index, Some(h))
            &&& forall|k: int|
                0 <= k < new.len() ==> cube_shape(#[trigger] new[k], k) && (k != t ==> new[k]
                    == cubes[k])
            &&& t == cubes.len() ==> !all_filled(new[t].slots)
        }),
{
    match chosen_cube(cubes, index) {
        Some(i) => {
            assert(is_first_accepting(cubes, index, i));
        },
        None => {
            lemma_one_slot_not_complete(3, index, h);
            if cubes.len() > 0 {
                assert(cube_shape(cubes[cubes.len() - 1], cubes.len() - 1));
            }
            lemma_next_position(last_cube_position(cubes), cubes.len() as int);
        },
    }
}

pub(crate) proof fn lemma_empty_face_wf(k: int)
    requires
        k >= 0,
    ensures
        face_shape(empty_face_view(), k),
        !all_filled(empty_face_view().slots),
{
    assert(empty_face_view().slots[0] is None);
}

pub(crate) proof fn lemma_empty_cube_wf(k: int)
    requires
        k >= 0,
    ensures
        cube_shape(empty_cube_view(), k),
        !all_filled(empty_cube_view().slots),
{
    assert(empty_cube_view().slots[0] is None);
}

/// The state right after a digest is placed in the Faces of `level`.
pub(crate) proof fn lemma_slot_index_range(h: Seq<char>)
    ensures
        0 <= face_slot(h) < 9,
        0 <= cube_slot(h) < 3,
{
}

pub(crate) proof fn lemma_insert_step(s: Seq<StackView>, level: u32, index: int, h: Seq<char>)
    requires
        levels_wf(s),
        level <= s.len(),
        0 <= index < 9,
    ensures
        ({
            let st = stack_at(s, level);
            let faces = faces_after_insert(st.faces, index, h);
            let fi = face_target(st.faces, index);
            let s1 = put_stack(s, level, StackView { faces: faces, ..st });
            &&& level < s1.len()
            &&& 0 <= fi < faces.len()
            &&& levels_wf_except(s1, level as int, fi, -1)
            &&& !all_filled(faces[fi].slots) ==> levels_wf(s1)
        }),
{
    let st = stack_at(s, level);
    let faces = faces_after_insert(st.faces, index, h);
    let fi = face_target(st.faces, index);
    let s1 = put_stack(s, level, StackView { faces: faces, ..st });
    if level < s.len() {
        assert(stack_wf(s[level as int], level as int));
    }
    assert forall|k: int| 0 <= k < st.faces.len() implies face_shape(#[trigger] st.faces[k], k)
        && !all_filled(st.faces[k].slots) by {
        assert(stack_wf(s[level as int], level as int));
    }
    lemma_faces_after_insert(st.faces, index, h);
    assert forall|l: int| 0 <= l < s1.len() implies stack_wf_except(
        #[trigger] s1[l],
        l,
        if l == level {
            fi
        } else {
            -1
        },
        -1,
    ) by {
        if l != level {
            assert(s1[l] == s[l]);
            assert(stack_wf(s[l], l));
        } else {
            assert forall|k: int| 0 <= k < s1[l].cubes.len() implies cube_shape(
                #[trigger] s1[l].cubes[k],
                k,
            ) && (k != -1 ==> !all_filled(s1[l].cubes[k].slots)) by {
                assert(stack_wf(s[level as int], level as int));
                assert(s1[l].cubes[k] == s[level as int].cubes[k]);
            }
        }
    }
    if !all_filled(faces[fi].slots) {
        assert forall|l: int| 0 <= l < s1.len() implies stack_wf_except(
            #[trigger] s1[l],
            l,
            -1,
            -1,
        ) by {
            assert(stack_wf_except(s1[l], l, if l == level { fi } else { -1 }, -1));
        }
    }
}

/// The state right after a complete Face's digest is placed in a Cube and the
/// Face is emptied.
pub(crate) proof fn lemma_promote_face_step(s: Seq<StackView>, level: u32, fi: int)
    requires
        levels_wf_except(s, level as int, fi, -1),
        level < s.len(),
        0 <= fi < s[level as int].faces.len(),
    ensures
        ({
            let st = s[level as int];
            let fh = slots_digest(st.faces[fi].slots);
            let index = cube_slot(fh);
            let cubes = cubes_after_insert(st.cubes, index, fh);
            let cj = cube_target(st.cubes, index);
            let s1 = s.update(
                level as int,
                StackView { faces: st.faces.update(fi, empty_face_view()), cubes: cubes, ..st },
            );
            &&& 0 <= cj < cubes.len()
            &&& levels_wf_except(s1, level as int, -1, cj)
            &&& !all_filled(cubes[cj].slots) ==> levels_wf(s1)
        }),
{
    let st = s[level as int];
    let fh = slots_digest(st.faces[fi].slots);
    let index = cube_slot(fh);
    let cubes = cubes_after_insert(st.cubes, index, fh);
    let cj = cube_target(st.cubes, index);
    let s1 = s.update(
        level as int,
        StackView { faces: st.faces.update(fi, empty_face_view()), cubes: cubes, ..st },
    );
    assert(stack_wf_except(st, level as int, fi, -1));
    lemma_cubes_after_insert(st.cubes, index, fh);
    lemma_empty_face_wf(fi);
    assert forall|l: int| 0 <= l < s1.len() implies stack_wf_except(
        #[trigger] s1[l],
        l,
        -1,
        if l == level {
            cj
        } else {
            -1
        },
    ) by {
        if l != level {
            assert(s1[l] == s[l]);
            assert(stack_wf_except(s[l], l, -1, -1));
        }
    }
    if !all_filled(cubes[cj].slots) {
        assert forall|l: int| 0 <= l < s1.len() implies stack_wf_except(
            #[trigger] s1[l],
            l,
            -1,
            -1,
        ) by {
            assert(stack_wf_except(s1[l], l, -1, if l == level { cj } else { -1 }));
        }
    }
}

/// The state right after a complete Cube is emptied.
pub(crate) proof fn lemma_promote_cube_step(s: Seq<StackView>, level: u32, cj: int)
    requires
        levels_wf_except(s, level as int, -1, cj),
        level < s.len(),
        0 <= cj < s[level as int].cubes.len(),
    ensures
        ({
            let st = s[level as int];
            let s1 = s.update(
                level as int,
                StackView { cubes: st.cubes.update(cj, empty_cube_view()), ..st },
            );
            levels_wf(s1)
        }),
{
    let st = s[level as int];
    let s1 = s.update(level as int, StackView { cubes: st.cubes.update(cj, empty_cube_view()), ..st });
    assert(stack_wf_except(st, level as int, -1, cj));
    lemma_empty_cube_wf(cj);
    assert forall|l: int| 0 <= l < s1.len() implies stack_wf_except(
        #[trigger] s1[l],
        l,
        -1,
        -1,
    ) by {
        if l != level {
            assert(s1[l] == s[l]);
            assert(stack_wf_except(s[l], l, -1, -1));
        }
    }
}

pub(crate) proof fn lemma_insert_hash_wf(s: Seq<StackView>, level: u32, index: int, h: Seq<char>)
    requires
        levels_wf(s),
        level <= s.len(),
        0 <= index < 9,
    ensures
        levels_wf(insert_hash_at(s, level, index, h).0),
    decreases u32::MAX - level, 2nat,
{
    lemma_insert_step(s, level, index, h);
    let st = stack_at(s, level);
    let faces = faces_after_insert(st.faces, index, h);
    let fi = face_target(st.faces, index);
    let s1 = put_stack(s, level, StackView { faces: faces, ..st });
    if all_filled(faces[fi].slots) {
        lemma_promote_face_wf(s1, level, fi);
    }
}

pub(crate) proof fn lemma_promote_face_wf(s: Seq<StackView>, level: u32, fi: int)
    requires
        levels_wf_except(s, level as int, fi, -1),
        level < s.len(),
        0 <= fi < s[level as int].faces.len(),
    ensures
        levels_wf(promote_face(s, level, fi).0),
    decreases u32::MAX - level, 1nat,
{
    lemma_promote_face_step(s, level, fi);
    let st = s[level as int];
    let fh = slots_digest(st.faces[fi].slots);
    let index = cube_slot(fh);
    let cubes = cubes_after_insert(st.cubes, index, fh);
    let cj = cube_target(st.cubes, index);
    let s1 = s.update(
        level as int,
        StackView { faces: st.faces.update(fi, empty_face_view()), cubes: cubes, ..st },
    );
    if all_filled(cubes[cj].slots) {
        lemma_promote_cube_wf(s1, level, cj);
    }
}

pub(crate) proof fn lemma_promote_cube_wf(s: Seq<StackView>, level: u32, cj: int)
    requires
        levels_wf_except(s, level as int, -1, cj),
        level < s.len(),
        0 <= cj < s[level as int].cubes.len(),
    ensures
        levels_wf(promote_cube(s, level, cj).0),
    decreases u32::MAX - level, 0nat,
{
    lemma_promote_cube_step(s, level, cj);
    let st = s[level as int];
    let ch = slots_digest(st.cubes[cj].slots);
    let s1 = s.update(level as int, StackView { cubes: st.cubes.update(cj, empty_cube_view()), ..st });
    if level < u32::MAX {
        lemma_slot_index_range(ch);
        lemma_insert_hash_wf(s1, (level + 1) as u32, face_slot(ch), ch);
    }
}


} // verus!
