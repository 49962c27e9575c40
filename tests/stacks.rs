use cubix_chain::digest::{combine_hashes, get_digital_root};
use sha2::{Digest, Sha256};
use cubix_chain::stacks::{
    Cube, Face, Stack, StackError, StackManager, Transaction, TransactionMeta, CUBE_SIZE,
    FACE_SIZE,
};

fn tx(i: usize) -> Transaction {
    Transaction {
        from: vec![format!("from{}", i)],
        to: vec![format!("to{}", i)],
        meta: TransactionMeta { tx_type: "transfer".to_string(), sig: format!("sig{}", i) },
        timestamp: 0,
    }
}

fn face_slot_of(t: &Transaction) -> usize {
    get_digital_root(&StackManager::hash_transaction(t)) % 9
}

fn filled(slots: &[Option<String>]) -> usize {
    slots.iter().filter(|s| s.is_some()).count()
}

/// Nine transactions, from index `start` on, whose digests select nine
/// different Face slots; returns them and the next unused index.
fn group_from(start: usize) -> (Vec<Transaction>, usize) {
    let mut taken = [false; 9];
    let mut group = Vec::new();
    let mut i = start;
    while group.len() < 9 {
        let t = tx(i);
        let s = face_slot_of(&t);
        if !taken[s] {
            taken[s] = true;
            group.push(t);
        }
        i += 1;
    }
    (group, i)
}

/// The digest a Face holding the group's digests would have.
fn group_face_digest(group: &[Transaction]) -> String {
    let mut slots: Vec<Option<String>> = vec![None; 9];
    for t in group {
        let h = StackManager::hash_transaction(t);
        let i = get_digital_root(&h) % 9;
        slots[i] = Some(h);
    }
    let filled: Vec<String> = slots.into_iter().flatten().collect();
    combine_hashes(&filled)
}

fn snapshot(m: &StackManager) -> Vec<(u32, usize, Vec<Vec<Option<String>>>, Vec<Vec<Option<String>>>)> {
    m.stacks()
        .iter()
        .map(|s| {
            (
                s.level,
                s.blocks.len(),
                s.faces.iter().map(|f| f.slots.clone()).collect(),
                s.cubes.iter().map(|c| c.slots.clone()).collect(),
            )
        })
        .collect()
}

#[test]
fn fresh_manager_has_empty_level_zero() {
    let m = StackManager::new();
    assert_eq!(m.level_count(), 1);
    let s = &m.stacks()[0];
    assert_eq!(s.level, 0);
    assert!(s.blocks.is_empty() && s.faces.is_empty() && s.cubes.is_empty());
}

#[test]
fn transaction_digest_covers_every_field() {
    let t = Transaction {
        from: vec!["a".to_string(), "b".to_string()],
        to: vec!["c".to_string()],
        meta: TransactionMeta { tx_type: "asset".to_string(), sig: "s".to_string() },
        timestamp: 0x0102030405060708,
    };
    let mut bytes = b"abcassets".to_vec();
    bytes.extend_from_slice(&[1, 2, 3, 4, 5, 6, 7, 8]);
    let expected = format!("{:x}", Sha256::digest(&bytes));
    let got = StackManager::hash_transaction(&t);
    assert_eq!(got, expected);
    assert_eq!(got.len(), 64);
}

#[test]
fn first_transaction_creates_a_face_at_its_slot() {
    let mut m = StackManager::new();
    let t = tx(0);
    let h = StackManager::hash_transaction(&t);
    let slot = get_digital_root(&h) % 9;
    assert!(m.add_transaction(t).is_ok());
    let s = &m.stacks()[0];
    assert_eq!(s.blocks.len(), 1);
    assert_eq!(s.faces.len(), 1);
    assert_eq!(s.faces[0].slots[slot], Some(h));
    assert_eq!(filled(&s.faces[0].slots), 1);
    assert_eq!(s.faces[0].position, [0, 0, 0]);
}

#[test]
fn equal_slots_open_a_new_face_one_step_along() {
    let mut m = StackManager::new();
    let first = tx(0);
    let slot = face_slot_of(&first);
    let mut j = 1;
    while face_slot_of(&tx(j)) != slot {
        j += 1;
    }
    m.add_transaction(first).unwrap();
    m.add_transaction(tx(j)).unwrap();
    let s = &m.stacks()[0];
    assert_eq!(s.faces.len(), 2);
    assert_eq!(s.faces[1].position, [1, 0, 0]);
    assert!(s.faces[0].slots[slot].is_some() && s.faces[1].slots[slot].is_some());
}

#[test]
fn fullest_face_is_filled_first() {
    // Two transactions on the same slot give two Faces; a third on another
    // slot goes to the first Face (equal fill, first wins); a fourth on a
    // third slot then goes to the first Face again, the fuller one.
    let mut m = StackManager::new();
    let a = tx(0);
    let sa = face_slot_of(&a);
    let mut i = 1;
    let b = loop {
        if face_slot_of(&tx(i)) == sa {
            break tx(i);
        }
        i += 1;
    };
    let mut i = 1;
    let c = loop {
        if face_slot_of(&tx(i)) != sa {
            break tx(i);
        }
        i += 1;
    };
    let sc = face_slot_of(&c);
    let mut i = 1;
    let d = loop {
        let s = face_slot_of(&tx(i));
        if s != sa && s != sc {
            break tx(i);
        }
        i += 1;
    };
    m.add_transaction(a).unwrap();
    m.add_transaction(b).unwrap();
    m.add_transaction(c).unwrap();
    m.add_transaction(d).unwrap();
    let s = &m.stacks()[0];
    assert_eq!(filled(&s.faces[0].slots), 3);
    assert_eq!(filled(&s.faces[1].slots), 1);
}

#[test]
fn nine_distinct_slots_complete_one_face() {
    let (group, _) = group_from(0);
    let mut m = StackManager::new();
    for t in group.iter() {
        m.add_transaction(t.clone()).unwrap();
    }
    assert_eq!(m.level_count(), 1);
    let s = &m.stacks()[0];
    assert_eq!(s.blocks.len(), 9);
    assert_eq!(s.faces.len(), 1);
    assert_eq!(filled(&s.faces[0].slots), 0);
    assert_eq!(s.cubes.len(), 1);
    assert_eq!(filled(&s.cubes[0].slots), 1);
    let fh = group_face_digest(&group);
    let cslot = get_digital_root(&fh) % 3;
    assert_eq!(s.cubes[0].slots[cslot], Some(fh));
}

#[test]
fn three_faces_with_distinct_cube_slots_promote_one_cube() {
    let mut groups: Vec<Vec<Transaction>> = Vec::new();
    let mut used = [false; 3];
    let mut next = 0;
    while groups.len() < 3 {
        let (g, n) = group_from(next);
        next = n;
        let c = get_digital_root(&group_face_digest(&g)) % 3;
        if !used[c] {
            used[c] = true;
            groups.push(g);
        }
    }
    let mut m = StackManager::new();
    for g in groups.iter() {
        for t in g {
            m.add_transaction(t.clone()).unwrap();
        }
    }
    assert_eq!(m.level_count(), 2);
    let l0 = &m.stacks()[0];
    assert_eq!(l0.blocks.len(), 27);
    assert_eq!(l0.cubes.len(), 1);
    assert_eq!(filled(&l0.cubes[0].slots), 0);
    let mut cube_slots: Vec<Option<String>> = vec![None; 3];
    for g in groups.iter() {
        let f = group_face_digest(g);
        let i = get_digital_root(&f) % 3;
        cube_slots[i] = Some(f);
    }
    let filled_hashes: Vec<String> = cube_slots.into_iter().flatten().collect();
    let ch = combine_hashes(&filled_hashes);
    let l1 = &m.stacks()[1];
    assert_eq!(l1.level, 1);
    assert!(l1.blocks.is_empty());
    assert_eq!(l1.faces.len(), 1);
    assert_eq!(filled(&l1.faces[0].slots), 1);
    assert_eq!(l1.faces[0].slots[get_digital_root(&ch) % 9], Some(ch));
}

#[test]
fn checkpoints_at_130_140_150() {
    let mut m = StackManager::new();
    let mut checkpoints = Vec::new();
    let mut i = 0;
    for end in [130, 140, 150] {
        while i < end {
            m.add_transaction(tx(i)).unwrap();
            i += 1;
        }
        let s = &m.stacks()[0];
        checkpoints.push((s.blocks.len(), s.faces.len(), s.cubes.len()));
        let f0: usize = s.faces.iter().map(|f| filled(&f.slots)).sum();
        assert!(f0 <= 8 * s.faces.len());
        assert!(f0 <= s.blocks.len());
        assert_eq!((s.blocks.len() - f0) % 9, 0);
        let mut weight = 0usize;
        let mut scale = 1usize;
        for st in m.stacks() {
            let faces: usize = st.faces.iter().map(|f| filled(&f.slots)).sum();
            let cubes: usize = st.cubes.iter().map(|c| filled(&c.slots)).sum();
            weight += scale * (faces + 9 * cubes);
            scale *= 27;
        }
        assert_eq!(weight, s.blocks.len());
        for st in m.stacks() {
            let face_slots: usize = st.faces.iter().map(|f| filled(&f.slots)).sum();
            assert!(face_slots <= st.faces.len() * 9);
            for f in &st.faces {
                assert!(filled(&f.slots) < 9);
            }
            for c in &st.cubes {
                assert!(filled(&c.slots) < 3);
            }
        }
    }
    assert_eq!(checkpoints[0].0, 130);
    assert_eq!(checkpoints[1].0, 140);
    assert_eq!(checkpoints[2].0, 150);
    for w in checkpoints.windows(2) {
        assert!(w[0].0 <= w[1].0 && w[0].1 <= w[1].1 && w[0].2 <= w[1].2);
    }
}

#[test]
fn same_transactions_give_same_structure() {
    let mut a = StackManager::new();
    let mut b = StackManager::new();
    for i in 0..200 {
        a.add_transaction(tx(i)).unwrap();
        b.add_transaction(tx(i)).unwrap();
    }
    assert_eq!(snapshot(&a), snapshot(&b));
}

#[test]
fn no_face_or_cube_is_left_complete() {
    let mut m = StackManager::new();
    for i in 0..400 {
        m.add_transaction(tx(i)).unwrap();
        for (l, st) in m.stacks().iter().enumerate() {
            assert_eq!(st.level as usize, l);
            for f in &st.faces {
                assert_eq!(f.slots.len(), FACE_SIZE);
                assert!(!f.is_complete());
            }
            for c in &st.cubes {
                assert_eq!(c.slots.len(), CUBE_SIZE);
                assert!(!c.is_complete());
            }
        }
    }
}

#[test]
fn saved_levels_are_checked_when_taken_over() {
    assert_eq!(StackManager::from_stacks(vec![]).unwrap().level_count(), 1);

    let r = StackManager::from_stacks(vec![Stack::new(1)]);
    assert_eq!(r.err(), Some(StackError::InvalidStack));

    let mut upper = Stack::new(1);
    upper.blocks.push(tx(0));
    let r = StackManager::from_stacks(vec![Stack::new(0), upper]);
    assert_eq!(r.err(), Some(StackError::InvalidStack));

    let mut st = Stack::new(0);
    st.faces.push(Face::new(8));
    assert_eq!(StackManager::from_stacks(vec![st]).err(), Some(StackError::InvalidFace));

    let mut st = Stack::new(0);
    let mut full = Cube::new(3);
    for s in full.slots.iter_mut() {
        *s = Some("x".to_string());
    }
    st.cubes.push(full);
    assert_eq!(StackManager::from_stacks(vec![st]).err(), Some(StackError::InvalidCube));

    let mut st = Stack::new(0);
    let mut far = Face::new(9);
    far.position = [3, 0, 0];
    st.faces.push(far);
    assert_eq!(StackManager::from_stacks(vec![st]).err(), Some(StackError::InvalidFace));

    let mut m = StackManager::new();
    for i in 0..50 {
        m.add_transaction(tx(i)).unwrap();
    }
    let saved = m.stacks().clone();
    let back = StackManager::from_stacks(saved).unwrap();
    assert_eq!(snapshot(&back), snapshot(&m));
}

#[test]
fn face_helpers() {
    let mut f = Face::new(9);
    assert_eq!(f.count_filled_slots(), 0);
    assert!(!f.is_complete());
    f.slots[2] = Some("ab".to_string());
    f.slots[5] = Some("c".to_string());
    assert_eq!(f.count_filled_slots(), 2);
    assert_eq!(f.calculate_hash(), "ba7816bf8f01cfea414140de5dae2223b00361a396177a9cb410ff61f20015ad");
    let mut c = Cube::new(3);
    c.slots[1] = Some("abc".to_string());
    assert_eq!(c.calculate_hash(), "ba7816bf8f01cfea414140de5dae2223b00361a396177a9cb410ff61f20015ad");
}

#[test]
fn adjacency() {
    let mut a = Face::new(9);
    let mut b = Face::new(9);
    b.position = [1, 0, 0];
    assert!(a.can_connect_to(&b));
    b.position = [1, 1, 0];
    assert!(!b.can_connect_to(&a));
    a.position = [2, 1, 0];
    assert!(a.can_connect_to(&b));
    let cube = Cube::new(3);
    let faces: Vec<Face> = (0..5).map(|_| Face::new(9)).collect();
    assert!(!cube.can_form_from_faces(&faces));
    // Six faces on a 2x3 ring: (0,0) (1,0) (2,0) (2,1) (1,1) (0,1); each
    // has at most three neighbours one step away, so no cube forms.
    let ring: Vec<Face> = [[0, 0, 0], [1, 0, 0], [2, 0, 0], [2, 1, 0], [1, 1, 0], [0, 1, 0]]
        .iter()
        .map(|p| {
            let mut f = Face::new(9);
            f.position = *p;
            f
        })
        .collect();
    assert!(!cube.can_form_from_faces(&ring));
}

#[test]
fn transaction_digest_is_lowercase_hex() {
    for i in 0..20 {
        let h = StackManager::hash_transaction(&tx(i));
        assert_eq!(h.len(), 64);
        assert!(h.chars().all(|c| c.is_ascii_digit() || ('a'..='f').contains(&c)));
    }
}

#[test]
fn only_level_zero_records_transactions() {
    let mut m = StackManager::new();
    for i in 0..300 {
        m.add_transaction(tx(i)).unwrap();
    }
    assert!(m.level_count() >= 2);
    for st in &m.stacks()[1..] {
        assert!(st.blocks.is_empty());
    }
}
