//! The Stack Engine: transactions are packed into nine-slot Faces, completed
//! Faces into three-slot Cubes, and completed Cubes into the Faces of the next
//! level, recursively.

use vstd::prelude::*;
use crate::digest::{
    combine_hashes, get_digital_root, is_lower_hex_text, lemma_lower_hex_is_hex_text,
    push_all_utf8, push_utf8, sha256_hex_digest, sha256_of, strings_view,
};
use crate::model::{
    CubeView, FaceView, StackView, accept_transaction, all_filled, be_bytes, chosen_cube,
    chosen_face, cube_accepts, cube_shape, cube_slot, cube_target, cubes_after_insert,
    empty_cube_view, empty_face_view, empty_slots, empty_stack_view, face_accepts, face_shape,
    face_slot, faces_after_insert, filled_count, filled_hashes, insert_hash_at,
    is_first_accepting, is_fullest_accepting, last_cube_position, last_face_position,
    lemma_chosen_cube, lemma_chosen_face, lemma_cubes_after_insert, lemma_insert_hash_wf,
    lemma_insert_step, lemma_promote_cube_step, lemma_promote_face_step, lemma_slot_index_range,
    levels_wf, levels_wf_except, next_position, origin, promote_cube, promote_face, put_stack,
    slots_digest, slots_view, stack_at, stack_wf, stack_wf_except, transaction_bytes,
    transaction_digest,
};

verus! {

/// Number of slots of a Face.
pub const FACE_SIZE: usize = 9;

/// Number of slots of a Cube.
pub const CUBE_SIZE: usize = 3;

/// Who signed a transaction, and what kind it is.
#[derive(Debug, Clone)]
pub struct TransactionMeta {
    pub tx_type: String,
    pub sig: String,
}

/// A submitted transaction; immutable once accepted.
#[derive(Debug, Clone)]
pub struct Transaction {
    pub from: Vec<String>,
    pub to: Vec<String>,
    pub meta: TransactionMeta,
    pub timestamp: u64,
}

/// A nine-slot container of transaction (or Cube) digests. Positions are
/// lattice coordinates: whole numbers, the first axis counting up.
#[derive(Debug, Clone)]
pub struct Face {
    pub slots: Vec<Option<String>>,
    pub edges: [usize; 4],
    pub position: [u64; 3],
}

/// A three-slot container of Face digests.
#[derive(Debug, Clone)]
pub struct Cube {
    pub slots: Vec<Option<String>>,
    pub faces: [usize; 6],
    pub position: [u64; 3],
}

/// One aggregation level.
#[derive(Debug, Clone)]
pub struct Stack {
    pub level: u32,
    pub blocks: Vec<Transaction>,
    pub faces: Vec<Face>,
    pub cubes: Vec<Cube>,
}


impl View for Face {
    type V = FaceView;

    open spec fn view(&self) -> FaceView {
        FaceView { slots: slots_view(self.slots@), edges: self.edges@, position: self.position@ }
    }
}

impl View for Cube {
    type V = CubeView;

    open spec fn view(&self) -> CubeView {
        CubeView { slots: slots_view(self.slots@), faces: self.faces@, position: self.position@ }
    }
}

impl View for Stack {
    type V = StackView;

    open spec fn view(&self) -> StackView {
        StackView {
            level: self.level,
            blocks: self.blocks@,
            faces: self.faces@.map_values(|f: Face| f@),
            cubes: self.cubes@.map_values(|c: Cube| c@),
        }
    }
}

#[derive(Debug, Clone, PartialEq, Eq)]
pub enum StackError {
    /// A Face does not have the shape the engine keeps.
    InvalidFace,
    /// A Cube does not have the shape the engine keeps.
    InvalidCube,
    /// The levels are not numbered 0, 1, 2, ..., or a cascade would need a
    /// level past the highest number.
    InvalidStack,
    /// The store failed; the text says how.
    DatabaseError(String),
    /// Setting up the store's directory failed; the text says how.
    IoError(String),
}

impl Face {
    /// An empty Face with `size` slots at the origin.
    pub fn new(size: usize) -> (r: Face)
        ensures
            r@.slots == empty_slots(size as nat),
            r@.edges == seq![0usize, 0usize, 0usize, 0usize],
            r@.position == origin(),
    {
        let mut slots: Vec<Option<String>> = Vec::new();
        let mut i: usize = 0;
        while i < size
            invariant
                i <= size,
                slots.len() == i,
                forall|j: int| 0 <= j < i ==> (#[trigger] slots@[j]) is None,
            decreases size - i,
        {
            slots.push(None);
            i = i + 1;
        }
        assert(slots_view(slots@) =~= empty_slots(size as nat));
        let r = Face { slots, edges: [0, 0, 0, 0], position: [0, 0, 0] };
        assert(r@.edges =~= seq![0usize, 0usize, 0usize, 0usize]);
        assert(r@.position =~= origin());
        r
    }

    /// Whether every slot is filled.
    pub fn is_complete(&self) -> (r: bool)
        ensures
            r == all_filled(self@.slots),
    {
        let mut i: usize = 0;
        while i < self.slots.len()
            invariant
                i <= self.slots.len(),
                forall|j: int| 0 <= j < i ==> (#[trigger] self@.slots[j]) is Some,
            decreases self.slots.len() - i,
        {
            if self.slots[i].is_none() {
                assert(self@.slots[i as int] is None);
                return false;
            }
            i = i + 1;
        }
        true
    }

    /// How many slots are filled.
    pub fn count_filled_slots(&self) -> (r: usize)
        ensures
            r == filled_count(self@.slots),
    {
        let mut n: usize = 0;
        let mut i: usize = 0;
        while i < self.slots.len()
            invariant
                i <= self.slots.len(),
                n == filled_count(self@.slots.subrange(0, i as int)),
                n <= i,
            decreases self.slots.len() - i,
        {
            proof {
                assert(self@.slots.subrange(0, i as int + 1).drop_last() =~= self@.slots.subrange(
                    0,
                    i as int,
                ));
            }
            if self.slots[i].is_some() {
                n = n + 1;
            }
            i = i + 1;
        }
        assert(self@.slots.subrange(0, i as int) =~= self@.slots);
        n
    }

    /// The Face's digest: SHA-256 over its filled slots, in slot order.
    pub fn calculate_hash(&self) -> (r: String)
        ensures
            r@ == slots_digest(self@.slots),
            r@.len() == 64,
            is_lower_hex_text(r@),
    {
        let filled = filled_slot_strings(&self.slots);
        combine_hashes(&filled)
    }
}

/// Positions `p` and `q` are one apart along exactly one axis.
pub open spec fn positions_adjacent(p: Seq<u64>, q: Seq<u64>) -> bool {
    (if unit_gap(p[0], q[0]) {
        1int
    } else {
        0int
    }) + (if unit_gap(p[1], q[1]) {
        1int
    } else {
        0int
    }) + (if unit_gap(p[2], q[2]) {
        1int
    } else {
        0int
    }) == 1
}

pub open spec fn unit_gap(a: u64, b: u64) -> bool {
    a as int - b as int == 1 || b as int - a as int == 1
}

/// How many of the first `n` Faces other than Face `i` are adjacent to it.
pub open spec fn adjacent_count(faces: Seq<FaceView>, i: int, n: int) -> nat
    decreases n,
{
    if n <= 0 {
        0
    } else {
        adjacent_count(faces, i, n - 1) + if n - 1 != i && positions_adjacent(
            faces[i].position,
            faces[n - 1].position,
        ) {
            1nat
        } else {
            0nat
        }
    }
}

/// At least six Faces, each adjacent to exactly four of the others.
pub open spec fn could_form_cube(faces: Seq<FaceView>) -> bool {
    faces.len() >= 6 && forall|i: int|
        0 <= i < faces.len() ==> #[trigger] adjacent_count(faces, i, faces.len() as int) == 4
}

impl Face {
    /// Whether the two Faces are one step apart along exactly one axis.
    pub fn can_connect_to(&self, other: &Face) -> (r: bool)
        ensures
            r == positions_adjacent(self@.position, other@.position),
    {
        let mut diff_count: usize = 0;
        let mut i: usize = 0;
        while i < 3
            invariant
                i <= 3,
                diff_count == (if i > 0 && unit_gap(self@.position[0], other@.position[0]) {
                    1int
                } else {
                    0int
                }) + (if i > 1 && unit_gap(self@.position[1], other@.position[1]) {
                    1int
                } else {
                    0int
                }) + (if i > 2 && unit_gap(self@.position[2], other@.position[2]) {
                    1int
                } else {
                    0int
                }),
            decreases 3 - i,
        {
            let a = self.position[i];
            let b = other.position[i];
            if (a > b && a - b == 1) || (b > a && b - a == 1) {
                diff_count = diff_count + 1;
            }
            i = i + 1;
        }
        diff_count == 1
    }
}

/// The strings that the filled slots hold, in slot order.
fn filled_slot_strings(slots: &Vec<Option<String>>) -> (r: Vec<String>)
    ensures
        strings_view(r@) == filled_hashes(slots_view(slots@)),
{
    let mut out: Vec<String> = Vec::new();
    let mut i: usize = 0;
    while i < slots.len()
        invariant
            i <= slots.len(),
            strings_view(out@) == filled_hashes(slots_view(slots@.subrange(0, i as int))),
        decreases slots.len() - i,
    {
        proof {
            assert(slots_view(slots@.subrange(0, i as int + 1)).drop_last() =~= slots_view(
                slots@.subrange(0, i as int),
            ));
        }
        match &slots[i] {
            Some(h) => {
                out.push(h.clone());
                assert(strings_view(out@) =~= filled_hashes(
                    slots_view(slots@.subrange(0, i as int)),
                ).push(h@));
            },
            None => {},
        }
        i = i + 1;
    }
    assert(slots@.subrange(0, i as int) =~= slots@);
    out
}

impl Cube {
    /// An empty Cube with `size` slots at the origin.
    pub fn new(size: usize) -> (r: Cube)
        ensures
            r@.slots == empty_slots(size as nat),
            r@.faces == seq![0usize, 0usize, 0usize, 0usize, 0usize, 0usize],
            r@.position == origin(),
    {
        let mut slots: Vec<Option<String>> = Vec::new();
        let mut i: usize = 0;
        while i < size
            invariant
                i <= size,
                slots.len() == i,
                forall|j: int| 0 <= j < i ==> (#[trigger] slots@[j]) is None,
            decreases size - i,
        {
            slots.push(None);
            i = i + 1;
        }
        assert(slots_view(slots@) =~= empty_slots(size as nat));
        let r = Cube { slots, faces: [0, 0, 0, 0, 0, 0], position: [0, 0, 0] };
        assert(r@.faces =~= seq![0usize, 0usize, 0usize, 0usize, 0usize, 0usize]);
        assert(r@.position =~= origin());
        r
    }

    /// Whether every slot is filled.
    pub fn is_complete(&self) -> (r: bool)
        ensures
            r == all_filled(self@.slots),
    {
        let mut i: usize = 0;
        while i < self.slots.len()
            invariant
                i <= self.slots.len(),
                forall|j: int| 0 <= j < i ==> (#[trigger] self@.slots[j]) is Some,
            decreases self.slots.len() - i,
        {
            if self.slots[i].is_none() {
                assert(self@.slots[i as int] is None);
                return false;
            }
            i = i + 1;
        }
        true
    }

    /// Whether `faces` could be the six sides of a cube: at least six of
    /// them, each adjacent to exactly four others.
    pub fn can_form_from_faces(&self, faces: &[Face]) -> (r: bool)
        ensures
            r == could_form_cube(faces_view(faces@)),
    {
        let ghost fv = faces_view(faces@);
        if faces.len() < 6 {
            return false;
        }
        let mut i: usize = 0;
        while i < faces.len()
            invariant
                i <= faces@.len(),
                fv == faces_view(faces@),
                forall|k: int| 0 <= k < i ==> #[trigger] adjacent_count(fv, k, fv.len() as int) == 4,
            decreases faces@.len() - i,
        {
            let mut adjacent: usize = 0;
            let mut j: usize = 0;
            while j < faces.len()
                invariant
                    i < faces@.len(),
                    j <= faces@.len(),
                    fv == faces_view(faces@),
                    adjacent == adjacent_count(fv, i as int, j as int),
                    adjacent <= j,
                decreases faces@.len() - j,
            {
                if i != j && faces[i].can_connect_to(&faces[j]) {
                    adjacent = adjacent + 1;
                }
                j = j + 1;
            }
            if adjacent != 4 {
                return false;
            }
            i = i + 1;
        }
        true
    }

    /// The Cube's digest: SHA-256 over its filled slots, in slot order.
    pub fn calculate_hash(&self) -> (r: String)
        ensures
            r@ == slots_digest(self@.slots),
            r@.len() == 64,
            is_lower_hex_text(r@),
    {
        let filled = filled_slot_strings(&self.slots);
        combine_hashes(&filled)
    }
}

impl Stack {
    /// An empty level.
    pub fn new(level: u32) -> (r: Stack)
        ensures
            r@ == empty_stack_view(level),
    {
        let r = Stack { level, blocks: Vec::new(), faces: Vec::new(), cubes: Vec::new() };
        assert(r@.faces =~= Seq::<FaceView>::empty());
        assert(r@.cubes =~= Seq::<CubeView>::empty());
        assert(r@.blocks =~= Seq::<Transaction>::empty());
        r
    }
}

pub open spec fn faces_view(v: Seq<Face>) -> Seq<FaceView> {
    v.map_values(|f: Face| f@)
}

pub open spec fn cubes_view(v: Seq<Cube>) -> Seq<CubeView> {
    v.map_values(|c: Cube| c@)
}

/// The Face to fill for slot `index`: the fullest Face that accepts, the
/// first of them on a tie; `None` when no Face accepts.
fn select_face(faces: &Vec<Face>, index: usize) -> (r: Option<usize>)
    requires
        index < 9,
        forall|k: int| 0 <= k < faces@.len() ==> (#[trigger] faces@[k])@.slots.len() == 9,
    ensures
        match r {
            Some(i) => i < faces@.len() && chosen_face(faces_view(faces@), index as int) == Some(
                i as int,
            ),
            None => chosen_face(faces_view(faces@), index as int) is None,
        },
{
    let ghost fv = faces_view(faces@);
    let mut best: Option<usize> = None;
    let mut best_count: usize = 0;
    let mut i: usize = 0;
    while i < faces.len()
        invariant
            i <= faces@.len(),
            index < 9,
            fv == faces_view(faces@),
            forall|k: int| 0 <= k < faces@.len() ==> (#[trigger] faces@[k])@.slots.len() == 9,
            match best {
                Some(b) => {
                    &&& b < i
                    &&& face_accepts(fv[b as int], index as int)
                    &&& filled_count(fv[b as int].slots) == best_count
                    &&& forall|j: int|
                        0 <= j < i && #[trigger] face_accepts(fv[j], index as int) ==> filled_count(
                            fv[j].slots,
                        ) <= best_count
                    &&& forall|j: int|
                        0 <= j < b && #[trigger] face_accepts(fv[j], index as int) ==> filled_count(
                            fv[j].slots,
                        ) < best_count
                },
                None => forall|j: int| 0 <= j < i ==> !#[trigger] face_accepts(fv[j], index as int),
            },
        decreases faces@.len() - i,
    {
        let face = &faces[i];
        assert(fv[i as int] == face@);
        if !face.is_complete() && face.slots[index].is_none() {
            let count = face.count_filled_slots();
            let better = match best {
                Some(_) => count > best_count,
                None => true,
            };
            if better {
                best = Some(i);
                best_count = count;
            }
        }
        i = i + 1;
    }
    match best {
        Some(b) => {
            proof {
                lemma_chosen_face(fv, index as int, b as int);
            }
        },
        None => {
            assert(!exists|j: int| is_fullest_accepting(fv, index as int, j));
        },
    }
    best
}

/// The first Cube that accepts slot `index`, if any.
fn select_cube(cubes: &Vec<Cube>, index: usize) -> (r: Option<usize>)
    requires
        index < 3,
        forall|k: int| 0 <= k < cubes@.len() ==> (#[trigger] cubes@[k])@.slots.len() == 3,
    ensures
        match r {
            Some(i) => i < cubes@.len() && chosen_cube(cubes_view(cubes@), index as int) == Some(
                i as int,
            ),
            None => chosen_cube(cubes_view(cubes@), index as int) is None,
        },
{
    let ghost cv = cubes_view(cubes@);
    let mut i: usize = 0;
    while i < cubes.len()
        invariant
            i <= cubes@.len(),
            index < 3,
            cv == cubes_view(cubes@),
            forall|k: int| 0 <= k < cubes@.len() ==> (#[trigger] cubes@[k])@.slots.len() == 3,
            forall|j: int| 0 <= j < i ==> !#[trigger] cube_accepts(cv[j], index as int),
        decreases cubes@.len() - i,
    {
        let cube = &cubes[i];
        assert(cv[i as int] == cube@);
        if !cube.is_complete() && cube.slots[index].is_none() {
            proof {
                lemma_chosen_cube(cv, index as int, i as int);
            }
            return Some(i);
        }
        i = i + 1;
    }
    assert(!exists|j: int| is_first_accepting(cv, index as int, j));
    None
}

pub open spec fn stacks_view(v: Seq<Stack>) -> Seq<StackView> {
    v.map_values(|st: Stack| st@)
}

/// Level `l` sits at index `l`, and only level 0 holds transactions.
pub open spec fn levels_in_order(s: Seq<StackView>) -> bool {
    forall|l: int|
        0 <= l < s.len() ==> (#[trigger] s[l]).level == l && (l > 0 ==> s[l].blocks.len() == 0)
}

/// Every Face has nine slots, is not complete, and is not further along the
/// first axis than its index.
pub open spec fn faces_valid(s: Seq<StackView>) -> bool {
    forall|l: int, k: int|
        0 <= l < s.len() && 0 <= k < s[l].faces.len() ==> face_shape(#[trigger] s[l].faces[k], k)
            && !all_filled(s[l].faces[k].slots)
}

/// Every Cube has three slots, is not complete, and is not further along the
/// first axis than its index.
pub open spec fn cubes_valid(s: Seq<StackView>) -> bool {
    forall|l: int, k: int|
        0 <= l < s.len() && 0 <= k < s[l].cubes.len() ==> cube_shape(#[trigger] s[l].cubes[k], k)
            && !all_filled(s[l].cubes[k].slots)
}

/// The engine's state: one Stack per level, level `l` at index `l`.
pub struct StackManager {
    stacks: Vec<Stack>,
}

impl View for StackManager {
    type V = Seq<StackView>;

    closed spec fn view(&self) -> Seq<StackView> {
        stacks_view(self.stacks@)
    }
}

impl StackManager {
    /// The levels are numbered in order from 0, only level 0 records
    /// transactions, and nothing is left complete.
    pub open spec fn wf(&self) -> bool {
        levels_wf(self@)
    }

    /// A manager holding one empty level 0.
    pub fn new() -> (r: StackManager)
        ensures
            r@ == seq![empty_stack_view(0)],
            r.wf(),
    {
        let mut stacks: Vec<Stack> = Vec::new();
        stacks.push(Stack::new(0));
        let r = StackManager { stacks };
        assert(r@ =~= seq![empty_stack_view(0)]);
        r
    }

    /// The levels, level `l` at index `l`.
    pub fn stacks(&self) -> (r: &Vec<Stack>)
        ensures
            stacks_view(r@) == self@,
    {
        &self.stacks
    }

    /// How many levels exist.
    pub fn level_count(&self) -> (r: usize)
        ensures
            r == self@.len(),
    {
        self.stacks.len()
    }

    /// Takes over previously saved levels after checking them: an empty list
    /// gives a fresh level 0; levels not numbered 0, 1, 2, ... in order, or a
    /// level above 0 holding transactions, give `InvalidStack`; a Face without nine slots, complete, or further along
    /// the first axis than its index gives `InvalidFace`; a Cube likewise with
    /// three slots gives `InvalidCube`.
    pub fn from_stacks(stacks: Vec<Stack>) -> (r: Result<StackManager, StackError>)
        ensures
            ({
                let s = stacks_view(stacks@);
                match r {
                    Ok(m) => {
                        &&& m.wf()
                        &&& s.len() == 0 ==> m@ == seq![empty_stack_view(0)]
                        &&& s.len() > 0 ==> m@ == s
                        &&& s.len() > 0 ==> levels_in_order(s) && faces_valid(s) && cubes_valid(s)
                    },
                    Err(e) => {
                        &&& s.len() > 0
                        &&& !levels_in_order(s) ==> e == StackError::InvalidStack
                        &&& levels_in_order(s) && !faces_valid(s) ==> e == StackError::InvalidFace
                        &&& levels_in_order(s) && faces_valid(s) ==> !cubes_valid(s) && e
                            == StackError::InvalidCube
                    },
                }
            }),
    {
        if stacks.len() == 0 {
            return Ok(StackManager::new());
        }
        let ghost s = stacks_view(stacks@);
        let mut l: usize = 0;
        while l < stacks.len()
            invariant
                l <= stacks@.len(),
                s == stacks_view(stacks@),
                forall|j: int|
                    0 <= j < l ==> (#[trigger] s[j]).level == j && (j > 0 ==> s[j].blocks.len()
                        == 0),
            decreases stacks@.len() - l,
        {
            if stacks[l].level as usize != l || (l > 0 && stacks[l].blocks.len() > 0) {
                assert(!(s[l as int].level == l && (l > 0 ==> s[l as int].blocks.len() == 0)));
                return Err(StackError::InvalidStack);
            }
            l = l + 1;
        }
        let mut l: usize = 0;
        while l < stacks.len()
            invariant
                l <= stacks@.len(),
                s == stacks_view(stacks@),
                levels_in_order(s),
                forall|j: int, k: int|
                    0 <= j < l && 0 <= k < s[j].faces.len() ==> face_shape(
                        #[trigger] s[j].faces[k],
                        k,
                    ) && !all_filled(s[j].faces[k].slots),
            decreases stacks@.len() - l,
        {
            let faces = &stacks[l].faces;
            assert(s[l as int].faces == faces_view(faces@));
            let mut k: usize = 0;
            while k < faces.len()
                invariant
                    l < s.len(),
                    s == stacks_view(stacks@),
                    levels_in_order(s),
                    forall|j: int, i: int|
                        0 <= j < l && 0 <= i < s[j].faces.len() ==> face_shape(
                            #[trigger] s[j].faces[i],
                            i,
                        ) && !all_filled(s[j].faces[i].slots),
                    k <= faces@.len(),
                    s[l as int].faces == faces_view(faces@),
                    forall|i: int|
                        0 <= i < k ==> face_shape(#[trigger] s[l as int].faces[i], i) && !all_filled(
                            s[l as int].faces[i].slots,
                        ),
                decreases faces@.len() - k,
            {
                let face = &faces[k];
                assert(s[l as int].faces[k as int] == face@);
                if face.slots.len() != FACE_SIZE || face.is_complete() || face.position[0] > k as u64 {
                    proof {
                        let bad = s[l as int].faces[k as int];
                        assert(!(face_shape(bad, k as int) && !all_filled(bad.slots)));
                        assert(!faces_valid(s));
                        assert(levels_in_order(s));
                    }
                    return Err(StackError::InvalidFace);
                }
                k = k + 1;
            }
            l = l + 1;
        }
        let mut l: usize = 0;
        while l < stacks.len()
            invariant
                l <= stacks@.len(),
                s == stacks_view(stacks@),
                levels_in_order(s),
                forall|j: int, k: int|
                    0 <= j < s.len() && 0 <= k < s[j].faces.len() ==> face_shape(
                        #[trigger] s[j].faces[k],
                        k,
                    ) && !all_filled(s[j].faces[k].slots),
                forall|j: int, k: int|
                    0 <= j < l && 0 <= k < s[j].cubes.len() ==> cube_shape(
                        #[trigger] s[j].cubes[k],
                        k,
                    ) && !all_filled(s[j].cubes[k].slots),
            decreases stacks@.len() - l,
        {
            let cubes = &stacks[l].cubes;
            assert(s[l as int].cubes == cubes_view(cubes@));
            let mut k: usize = 0;
            while k < cubes.len()
                invariant
                    l < s.len(),
                    s == stacks_view(stacks@),
                    levels_in_order(s),
                    faces_valid(s),
                    forall|j: int, i: int|
                        0 <= j < l && 0 <= i < s[j].cubes.len() ==> cube_shape(
                            #[trigger] s[j].cubes[i],
                            i,
                        ) && !all_filled(s[j].cubes[i].slots),
                    k <= cubes@.len(),
                    s[l as int].cubes == cubes_view(cubes@),
                    forall|i: int|
                        0 <= i < k ==> cube_shape(#[trigger] s[l as int].cubes[i], i) && !all_filled(
                            s[l as int].cubes[i].slots,
                        ),
                decreases cubes@.len() - k,
            {
                let cube = &cubes[k];
                assert(s[l as int].cubes[k as int] == cube@);
                if cube.slots.len() != CUBE_SIZE || cube.is_complete() || cube.position[0] > k as u64 {
                    proof {
                        let bad = s[l as int].cubes[k as int];
                        assert(!(cube_shape(bad, k as int) && !all_filled(bad.slots)));
                        assert(!cubes_valid(s));
                        assert(levels_in_order(s));
                        assert(faces_valid(s));
                    }
                    return Err(StackError::InvalidCube);
                }
                k = k + 1;
            }
            l = l + 1;
        }
        let m = StackManager { stacks };
        proof {
            assert forall|j: int| 0 <= j < s.len() implies stack_wf_except(#[trigger] s[j], j, -1, -1) by {
                assert forall|k: int| 0 <= k < s[j].faces.len() implies face_shape(#[trigger] s[j].faces[k], k) && (k != -1 ==> !all_filled(s[j].faces[k].slots)) by {
                    assert(face_shape(s[j].faces[k], k));
                }
                assert forall|k: int| 0 <= k < s[j].cubes.len() implies cube_shape(#[trigger] s[j].cubes[k], k) && (k != -1 ==> !all_filled(s[j].cubes[k].slots)) by {
                    assert(cube_shape(s[j].cubes[k], k));
                }
            }
        }
        Ok(m)
    }

    /// The digest of a transaction: SHA-256 over every `from` entry, every
    /// `to` entry, the type, the signature and the big-endian timestamp.
    pub fn hash_transaction(tx: &Transaction) -> (r: String)
        ensures
            r@ == transaction_digest(*tx),
            r@.len() == 64,
            is_lower_hex_text(r@),
    {
        let mut data: Vec<u8> = Vec::new();
        push_all_utf8(&mut data, &tx.from);
        push_all_utf8(&mut data, &tx.to);
        push_utf8(&mut data, tx.meta.tx_type.as_str());
        push_utf8(&mut data, tx.meta.sig.as_str());
        let t = tx.timestamp;
        let ghost before = data@;
        data.push((t / 0x100000000000000) as u8);
        data.push((t / 0x1000000000000 % 256) as u8);
        data.push((t / 0x10000000000 % 256) as u8);
        data.push((t / 0x100000000 % 256) as u8);
        data.push((t / 0x1000000 % 256) as u8);
        data.push((t / 0x10000 % 256) as u8);
        data.push((t / 0x100 % 256) as u8);
        data.push((t % 256) as u8);
        assert(data@ =~= before + be_bytes(t));
        assert(data@ =~= transaction_bytes(*tx));
        let r = sha256_hex_digest(data.as_slice());
        proof {
            lemma_lower_hex_is_hex_text(sha256_of(data@));
        }
        r
    }

    /// Accepts a transaction: it joins the blocks of level 0, and its digest
    /// goes into the Face slot its digital root selects, with every
    /// completion that follows carried out up the levels.
    pub fn add_transaction(&mut self, tx: Transaction) -> (r: Result<(), StackError>)
        requires
            old(self).wf(),
        ensures
            final(self).wf(),
            final(self)@ == accept_transaction(old(self)@, tx).0,
            r is Ok <==> accept_transaction(old(self)@, tx).1,
            r is Err ==> r == Err::<(), StackError>(StackError::InvalidStack),
    {
        let ghost s0 = self@;
        let hash = Self::hash_transaction(&tx);
        let digital_root = get_digital_root(hash.as_str());
        let ghost old_stacks = self.stacks@;
        let ghost t = tx;
        self.stacks[0].blocks.push(tx);
        let ghost s1 = s0.update(0, StackView { blocks: s0[0].blocks.push(t), ..s0[0] });
        proof {
            assert(self.stacks@[0]@ == s1[0]);
            assert forall|i: int| 0 <= i < self.stacks@.len() && i != 0 implies self.stacks@[i] == old_stacks[i] by {}
            assert(self@ =~= s1);
            assert forall|l: int| 0 <= l < s1.len() implies stack_wf_except(#[trigger] s1[l], l, -1, -1) by {
                assert(stack_wf_except(s0[l], l, -1, -1));
            }
            lemma_slot_index_range(hash@);
            lemma_insert_hash_wf(s1, 0, face_slot(hash@), hash@);
        }
        self.add_to_faces(0, digital_root, hash)
    }

    /// Puts `hash` into slot `digital_root % 9` of the Faces of `level`
    /// (creating the level if it is the next one) and carries out every
    /// completion that follows, level after level.
    fn add_to_faces(&mut self, level: u32, digital_root: usize, hash: String) -> (r: Result<
        (),
        StackError,
    >)
        requires
            levels_wf(old(self)@),
            level <= old(self)@.len(),
        ensures
            final(self)@ == insert_hash_at(old(self)@, level, (digital_root % 9) as int, hash@).0,
            r is Ok <==> insert_hash_at(old(self)@, level, (digital_root % 9) as int, hash@).1,
            r is Err ==> r == Err::<(), StackError>(StackError::InvalidStack),
        decreases u32::MAX - level, 2nat,
    {
        let ghost s0 = self@;
        let ghost h = hash@;
        proof {
            lemma_insert_step(s0, level, (digital_root % 9) as int, h);
        }
        let index = digital_root % FACE_SIZE;
        let l = level as usize;
        if l == self.stacks.len() {
            self.stacks.push(Stack::new(level));
        }
        assert(self@ =~= put_stack(s0, level, stack_at(s0, level)));
        let ghost st = stack_at(s0, level);
        assert(self.stacks@[l as int]@ == st);
        proof {
            assert forall|k: int| 0 <= k < self.stacks@[l as int].faces@.len() implies (
            #[trigger] self.stacks@[l as int].faces@[k])@.slots.len() == 9 by {
                assert(self.stacks@[l as int]@.faces[k] == self.stacks@[l as int].faces@[k]@);
                if level < s0.len() {
                    assert(stack_wf(s0[level as int], level as int));
                }
            }
        }
        let chosen = select_face(&self.stacks[l].faces, index);
        let ghost s_mid = self@;
        let ghost old_stacks = self.stacks@;
        let ghost faces1 = faces_after_insert(st.faces, index as int, h);
        let ghost s1 = put_stack(s0, level, StackView { faces: faces1, ..st });
        let fi: usize;
        match chosen {
            Some(i) => {
                let ghost old_slots = old_stacks[l as int].faces@[i as int].slots@;
                self.stacks[l].faces[i].slots[index] = Some(hash);
                fi = i;
                proof {
                    let new_slots = self.stacks@[l as int].faces@[i as int].slots@;
                    assert(new_slots == old_slots.update(index as int, Some(hash)));
                    assert(slots_view(new_slots) =~= slots_view(old_slots).update(index as int, Some(h)));
                    assert(self.stacks@[l as int].faces@[i as int]@ == faces1[i as int]);
                    assert(self.stacks@[l as int]@.faces =~= faces1);
                }
            },
            None => {
                let n = self.stacks[l].faces.len();
                let mut face = Face::new(FACE_SIZE);
                assert(face@.slots.len() == 9);
                let ghost empty = face.slots@;
                face.slots[index] = Some(hash);
                if n > 0 {
                    let last = &self.stacks[l].faces[n - 1];
                    proof {
                        if level < s0.len() {
                            assert(stack_wf(s0[level as int], level as int));
                            assert(face_shape(st.faces[n - 1], n - 1));
                        }
                        assert(last@ == st.faces[n - 1]);
                    }
                    face.position = [last.position[0] + 1, last.position[1], last.position[2]];
                }
                proof {
                    assert(slots_view(face.slots@) =~= slots_view(empty).update(index as int, Some(h)));
                    assert(face@.position =~= next_position(last_face_position(st.faces)));
                    assert(face@ == faces1[n as int]);
                }
                self.stacks[l].faces.push(face);
                fi = n;
                proof {
                    assert(self.stacks@[l as int]@.faces =~= faces1);
                }
            },
        }
        proof {
            assert(self.stacks@[l as int]@.cubes =~= st.cubes);
            assert(self.stacks@[l as int]@ == StackView { faces: faces1, ..st });
            assert forall|i: int| 0 <= i < self.stacks@.len() && i != l implies self.stacks@[i] == old_stacks[i] by {}
            assert(self@ =~= s_mid.update(l as int, StackView { faces: faces1, ..st }));
            assert(self@ =~= s1);
            assert(self@[l as int].faces[fi as int] == self.stacks@[l as int].faces@[fi as int]@);
        }
        self.process_faces_into_cubes(level, fi)
    }

    /// Puts `hash` into the first Cube of `level` whose slot is free (a new
    /// Cube if there is none) and returns that Cube's index.
    fn add_to_cubes(&mut self, level: u32, digital_root: usize, hash: String) -> (r: usize)
        requires
            level <= old(self)@.len(),
            level < old(self)@.len() ==> forall|k: int|
                0 <= k < old(self)@[level as int].cubes.len() ==> cube_shape(
                    #[trigger] old(self)@[level as int].cubes[k],
                    k,
                ) && !all_filled(old(self)@[level as int].cubes[k].slots),
        ensures
            ({
                let st = stack_at(old(self)@, level);
                let index = (digital_root % 3) as int;
                let cubes = cubes_after_insert(st.cubes, index, hash@);
                &&& final(self)@ == put_stack(old(self)@, level, StackView { cubes: cubes, ..st })
                &&& r == cube_target(st.cubes, index)
                &&& r < cubes.len()
            }),
    {
        let ghost s_in = self@;
        let ghost h = hash@;
        let ghost st = stack_at(s_in, level);
        let index = digital_root % CUBE_SIZE;
        let l = level as usize;
        if l == self.stacks.len() {
            self.stacks.push(Stack::new(level));
        }
        let ghost s0 = self@;
        assert(s0 =~= put_stack(s_in, level, st));
        assert(self.stacks@[l as int]@ == st);
        proof {
            lemma_cubes_after_insert(st.cubes, index as int, h);
            assert forall|k: int| 0 <= k < self.stacks@[l as int].cubes@.len() implies (
            #[trigger] self.stacks@[l as int].cubes@[k])@.slots.len() == 3 by {
                assert(self.stacks@[l as int]@.cubes[k] == self.stacks@[l as int].cubes@[k]@);
                assert(cube_shape(st.cubes[k], k));
            }
        }
        let chosen = select_cube(&self.stacks[l].cubes, index);
        let ghost old_stacks = self.stacks@;
        let ghost cubes1 = cubes_after_insert(st.cubes, index as int, h);
        let cj: usize;
        match chosen {
            Some(i) => {
                let ghost old_slots = old_stacks[l as int].cubes@[i as int].slots@;
                self.stacks[l].cubes[i].slots[index] = Some(hash);
                cj = i;
                proof {
                    let new_slots = self.stacks@[l as int].cubes@[i as int].slots@;
                    assert(new_slots == old_slots.update(index as int, Some(hash)));
                    assert(slots_view(new_slots) =~= slots_view(old_slots).update(index as int, Some(h)));
                    assert(self.stacks@[l as int].cubes@[i as int]@ == cubes1[i as int]);
                    assert(self.stacks@[l as int]@.cubes =~= cubes1);
                }
            },
            None => {
                let n = self.stacks[l].cubes.len();
                let mut cube = Cube::new(CUBE_SIZE);
                assert(cube@.slots.len() == 3);
                let ghost empty = cube.slots@;
                cube.slots[index] = Some(hash);
                if n > 0 {
                    let last = &self.stacks[l].cubes[n - 1];
                    assert(cube_shape(st.cubes[n - 1], n - 1));
                    assert(last@ == st.cubes[n - 1]);
                    cube.position = [last.position[0] + 1, last.position[1], last.position[2]];
                }
                proof {
                    assert(slots_view(cube.slots@) =~= slots_view(empty).update(index as int, Some(h)));
                    assert(cube@.position =~= next_position(last_cube_position(st.cubes)));
                    assert(cube@ == cubes1[n as int]);
                }
                self.stacks[l].cubes.push(cube);
                cj = n;
                proof {
                    assert(self.stacks@[l as int]@.cubes =~= cubes1);
                }
            },
        }
        proof {
            assert(self.stacks@[l as int]@.faces =~= st.faces);
            assert(self.stacks@[l as int]@ == StackView { cubes: cubes1, ..st });
            assert forall|i: int| 0 <= i < self.stacks@.len() && i != l implies self.stacks@[i] == old_stacks[i] by {}
            assert(self@ =~= s0.update(level as int, StackView { cubes: cubes1, ..st }));
            assert(s0.update(level as int, StackView { cubes: cubes1, ..st }) =~= put_stack(
                s_in,
                level,
                StackView { cubes: cubes1, ..st },
            ));
        }
        cj
    }

    /// Promotes Face `fi` of `level` if it is complete: its digest goes into a
    /// Cube and the Face is emptied, and a Cube completed by this is promoted
    /// in turn. A Face that is not complete leaves everything as it is.
    fn process_faces_into_cubes(&mut self, level: u32, fi: usize) -> (r: Result<(), StackError>)
        requires
            levels_wf_except(old(self)@, level as int, fi as int, -1),
            level < old(self)@.len(),
            fi < old(self)@[level as int].faces.len(),
        ensures
            all_filled(old(self)@[level as int].faces[fi as int].slots) ==> {
                &&& final(self)@ == promote_face(old(self)@, level, fi as int).0
                &&& r is Ok <==> promote_face(old(self)@, level, fi as int).1
            },
            !all_filled(old(self)@[level as int].faces[fi as int].slots) ==> final(self)@ == old(
                self,
            )@ && r is Ok,
            r is Err ==> r == Err::<(), StackError>(StackError::InvalidStack),
        decreases u32::MAX - level, 1nat,
    {
        let ghost s0 = self@;
        let ghost st = s0[level as int];
        let l = level as usize;
        assert(self.stacks@[l as int]@ == st);
        assert(self.stacks@[l as int].faces@[fi as int]@ == st.faces[fi as int]);
        if !self.stacks[l].faces[fi].is_complete() {
            return Ok(());
        }
        proof {
            lemma_promote_face_step(s0, level, fi as int);
            assert(stack_wf_except(st, level as int, fi as int, -1));
        }
        let hash = self.stacks[l].faces[fi].calculate_hash();
        let digital_root = get_digital_root(hash.as_str());
        let cj = self.add_to_cubes(level, digital_root, hash);
        let ghost s_mid = self@;
        let ghost old_stacks = self.stacks@;
        proof {
            assert(self@.len() == self.stacks@.len());
            assert(self@[level as int] == self.stacks@[l as int]@);
            assert(self@[level as int].faces == st.faces);
            assert(self.stacks@[l as int]@.faces.len() == self.stacks@[l as int].faces@.len());
        }
        let face = Face::new(FACE_SIZE);
        self.stacks[l].faces[fi] = face;
        proof {
            let fh = slots_digest(st.faces[fi as int].slots);
            let cubes = cubes_after_insert(st.cubes, cube_slot(fh), fh);
            let new_st = StackView {
                faces: st.faces.update(fi as int, empty_face_view()),
                cubes: cubes,
                ..st
            };
            assert(s_mid[level as int] == StackView { cubes: cubes, ..st });
            assert(face@ == empty_face_view());
            assert(self.stacks@[l as int]@.faces =~= new_st.faces);
            assert(self.stacks@[l as int]@.cubes =~= new_st.cubes);
            assert(self.stacks@[l as int]@ == new_st);
            assert forall|i: int| 0 <= i < self.stacks@.len() && i != l implies self.stacks@[i] == old_stacks[i] by {}
            assert(self@ =~= s_mid.update(level as int, new_st));
            assert(s_mid.update(level as int, new_st) =~= s0.update(level as int, new_st));
            assert(self@[level as int].cubes[cj as int] == self.stacks@[l as int].cubes@[cj as int]@);
        }
        self.process_cubes_into_next_level(level, cj)
    }

    /// Promotes Cube `cj` of `level` if it is complete: it is emptied and its
    /// digest goes into the Faces of the next level. A Cube that is not
    /// complete leaves everything as it is.
    fn process_cubes_into_next_level(&mut self, level: u32, cj: usize) -> (r: Result<
        (),
        StackError,
    >)
        requires
            levels_wf_except(old(self)@, level as int, -1, cj as int),
            level < old(self)@.len(),
            cj < old(self)@[level as int].cubes.len(),
        ensures
            all_filled(old(self)@[level as int].cubes[cj as int].slots) ==> {
                &&& final(self)@ == promote_cube(old(self)@, level, cj as int).0
                &&& r is Ok <==> promote_cube(old(self)@, level, cj as int).1
            },
            !all_filled(old(self)@[level as int].cubes[cj as int].slots) ==> final(self)@ == old(
                self,
            )@ && r is Ok,
            r is Err ==> r == Err::<(), StackError>(StackError::InvalidStack),
        decreases u32::MAX - level, 0nat,
    {
        let ghost s0 = self@;
        let ghost st = s0[level as int];
        let l = level as usize;
        assert(self.stacks@[l as int]@ == st);
        assert(self.stacks@[l as int].cubes@[cj as int]@ == st.cubes[cj as int]);
        if !self.stacks[l].cubes[cj].is_complete() {
            return Ok(());
        }
        proof {
            lemma_promote_cube_step(s0, level, cj as int);
        }
        let hash = self.stacks[l].cubes[cj].calculate_hash();
        let digital_root = get_digital_root(hash.as_str());
        let index = digital_root % FACE_SIZE;
        let ghost old_stacks = self.stacks@;
        let cube = Cube::new(CUBE_SIZE);
        self.stacks[l].cubes[cj] = cube;
        proof {
            let new_st = StackView { cubes: st.cubes.update(cj as int, empty_cube_view()), ..st };
            assert(self.stacks@.len() == old_stacks.len());
            assert(self.stacks@[l as int].cubes@ == old_stacks[l as int].cubes@.update(cj as int, cube));
            assert(self.stacks@[l as int].faces@ == old_stacks[l as int].faces@);
            assert(cube@ == empty_cube_view());
            assert(self.stacks@[l as int]@.cubes =~= new_st.cubes);
            assert(self.stacks@[l as int]@.faces =~= new_st.faces);
            assert(self.stacks@[l as int]@ == new_st);
            assert forall|i: int| 0 <= i < self.stacks@.len() && i != l implies self.stacks@[i] == old_stacks[i] by {}
            assert(self@ =~= s0.update(level as int, new_st));
        }
        if level == u32::MAX {
            return Err(StackError::InvalidStack);
        }
        self.add_to_faces(level + 1, index, hash)
    }
}
} // verus!
