//! Interning, residue grouping and replication tests. Coordinates are in
//! fixed-point units of 1e-5, so 100_000 stands for 1.0.

use mdio::conf::{get_or_insert_atom_and_residue, get_or_insert_residue, Atom, Conf, NameRef,
    Residue};
use mdio::rvec::RVec;

const U: i64 = 100_000;

fn vec3(x: i64, y: i64, z: i64) -> RVec {
    RVec { x, y, z }
}

#[test]
fn get_or_insert_residue_from_list() {
    let mut residues = Vec::new();

    let res1_name = "RES1";
    let res1 = get_or_insert_residue(res1_name, &mut residues);

    assert_eq!(residues[res1].name, res1_name);
    assert!(residues[res1].atoms.is_empty());

    assert_eq!(residues.len(), 1);
    assert_eq!(res1, 0);

    let res1_again = get_or_insert_residue(res1_name, &mut residues);
    assert_eq!(res1, res1_again);

    let res2_name = "RES2";
    let res2 = get_or_insert_residue(res2_name, &mut residues);

    assert_eq!(residues[res2].name, res2_name);
    assert!(residues[res2].atoms.is_empty());
    assert_ne!(res1, res2);

    assert_eq!(residues.len(), 2);
    assert_eq!(res2, 1);
}

#[test]
fn get_or_insert_atom_from_residue() {
    let mut residue = Residue { name: "RES".to_string(), atoms: Vec::new() };

    let atom1_name = "ATOM1";
    let atom1 = residue.get_or_insert_atom(atom1_name);

    assert_eq!(residue.atoms[atom1], atom1_name);
    assert_eq!(atom1, 0);

    let atom1_again = residue.get_or_insert_atom(atom1_name);
    assert_eq!(atom1_again, atom1);

    let atom2_name = "ATOM2";
    let atom2 = residue.get_or_insert_atom(atom2_name);

    assert_eq!(residue.atoms[atom2], atom2_name);
    assert_eq!(atom2, 1);
    assert_ne!(atom1, atom2);
}

#[test]
fn get_atom_and_residue_from_list() {
    let mut residues = Vec::new();

    let res1_name = "RES1";
    let atom1_name = "AT1";

    let (res1, atom1) = get_or_insert_atom_and_residue(res1_name, atom1_name, &mut residues)
        .unwrap();

    assert_eq!(residues[res1].name, res1_name);
    assert_eq!(residues[atom1.residue].atoms[atom1.slot], atom1_name);
    assert_eq!(atom1, NameRef { residue: res1, slot: 0 });

    let atom2_name = "AT2";
    let (res1_again, atom2) = get_or_insert_atom_and_residue(res1_name, atom2_name, &mut residues)
        .unwrap();

    assert_eq!(res1, res1_again);
    assert_eq!(residues[atom2.residue].atoms[atom2.slot], atom2_name);

    let res2_name = "RES2";
    let atom3_name = "AT3";

    let (res2, atom3) = get_or_insert_atom_and_residue(res2_name, atom3_name, &mut residues)
        .unwrap();

    assert_ne!(res1, res2);
    assert_eq!(residues[res2].name, res2_name);
    assert_eq!(residues[atom3.residue].atoms[atom3.slot], atom3_name);

    // An atom with a name of another residue can be added; the handles
    // will not be the same
    let (res2_again, atom1_not_res1) = get_or_insert_atom_and_residue(
        res2_name,
        atom1_name,
        &mut residues,
    ).unwrap();

    assert_eq!(res2, res2_again);
    assert_ne!(atom1, atom1_not_res1);
}

#[test]
fn residue_iter_on_empty_conf_returns_none() {
    let conf = Conf {
        title: "A title".to_string(),
        origin: vec3(0, 0, 0),
        size: vec3(0, 0, 0),
        residues: Vec::new(),
        atoms: Vec::new(),
    };

    let mut iter = conf.iter_residues();

    assert!(iter.next().is_none());
}

#[test]
fn residue_iter_over_two_atoms_of_different_residues() {
    let residues = vec![
        Residue { name: "RES1".to_string(), atoms: vec!["AT1".to_string()] },
        Residue { name: "RES2".to_string(), atoms: vec!["AT2".to_string()] },
    ];

    let conf = Conf {
        title: "A title".to_string(),
        origin: vec3(0, 0, 0),
        size: vec3(0, 0, 0),
        residues,
        atoms: vec![
            // Residue 2
            Atom {
                name: NameRef { residue: 1, slot: 0 },
                residue: 1,
                position: vec3(0, U, 2 * U),
                velocity: Some(vec3(0, U / 10, 2 * U / 10)),
            },
            // Residue 1
            Atom {
                name: NameRef { residue: 0, slot: 0 },
                residue: 0,
                position: vec3(3 * U, 4 * U, 5 * U),
                velocity: Some(vec3(3 * U / 10, 4 * U / 10, 5 * U / 10)),
            },
        ],
    };

    let mut iter = conf.iter_residues();

    let res = iter.next().unwrap().unwrap();
    assert_eq!(res.len(), 1);
    assert_eq!(res[0].residue, 1);
    assert_eq!(res[0].name, NameRef { residue: 1, slot: 0 });
    assert_eq!(res[0].position, vec3(0, U, 2 * U));
    assert_eq!(res[0].velocity.unwrap(), vec3(0, U / 10, 2 * U / 10));

    let res = iter.next().unwrap().unwrap();
    assert_eq!(res.len(), 1);
    assert_eq!(res[0].residue, 0);
    assert_eq!(res[0].name, NameRef { residue: 0, slot: 0 });
    assert_eq!(res[0].position, vec3(3 * U, 4 * U, 5 * U));
    assert_eq!(res[0].velocity.unwrap(), vec3(3 * U / 10, 4 * U / 10, 5 * U / 10));

    assert!(iter.next().is_none());
}

fn two_slot_residue() -> Vec<Residue> {
    vec![
        Residue {
            name: "RES1".to_string(),
            atoms: vec!["AT1".to_string(), "AT2".to_string()],
        },
    ]
}

#[test]
fn iterate_over_a_residue_with_several_atoms() {
    let conf = Conf {
        title: "A title".to_string(),
        origin: vec3(0, 0, 0),
        size: vec3(0, 0, 0),
        residues: two_slot_residue(),
        atoms: vec![
            Atom {
                name: NameRef { residue: 0, slot: 0 },
                residue: 0,
                position: vec3(0, U, 2 * U),
                velocity: None,
            },
            Atom {
                name: NameRef { residue: 0, slot: 1 },
                residue: 0,
                position: vec3(3 * U, 4 * U, 5 * U),
                velocity: None,
            },
        ],
    };

    let mut iter = conf.iter_residues();

    let res = iter.next().unwrap().unwrap();
    assert_eq!(res.len(), 2);

    assert_eq!(res[0].residue, 0);
    assert_eq!(res[0].name, NameRef { residue: 0, slot: 0 });
    assert_eq!(res[0].position, vec3(0, U, 2 * U));

    assert_eq!(res[1].residue, 0);
    assert_eq!(res[1].name, NameRef { residue: 0, slot: 1 });
    assert_eq!(res[1].position, vec3(3 * U, 4 * U, 5 * U));

    assert!(iter.next().is_none());
}

#[test]
fn iterating_over_residues_ensures_that_all_are_consistent() {
    let conf = Conf {
        title: "A title".to_string(),
        origin: vec3(0, 0, 0),
        size: vec3(0, 0, 0),
        residues: two_slot_residue(),
        atoms: vec![
            // Complete residue
            Atom {
                name: NameRef { residue: 0, slot: 0 },
                residue: 0,
                position: vec3(0, U, 2 * U),
                velocity: None,
            },
            Atom {
                name: NameRef { residue: 0, slot: 1 },
                residue: 0,
                position: vec3(3 * U, 4 * U, 5 * U),
                velocity: None,
            },
            // Incomplete residue: misses second atom
            Atom {
                name: NameRef { residue: 0, slot: 0 },
                residue: 0,
                position: vec3(0, U, 2 * U),
                velocity: None,
            },
            // A final complete residue
            Atom {
                name: NameRef { residue: 0, slot: 0 },
                residue: 0,
                position: vec3(6 * U, 7 * U, 8 * U),
                velocity: None,
            },
            Atom {
                name: NameRef { residue: 0, slot: 1 },
                residue: 0,
                position: vec3(9 * U, 10 * U, 11 * U),
                velocity: None,
            },
        ],
    };

    let mut iter = conf.iter_residues();

    assert!(iter.next().unwrap().is_ok());

    // Second gives error
    assert!(iter.next().unwrap().is_err());

    // Third recovers
    let res = iter.next().unwrap().unwrap();
    assert_eq!(res.len(), 2);

    assert_eq!(res[0].residue, 0);
    assert_eq!(res[0].name, NameRef { residue: 0, slot: 0 });
    assert_eq!(res[0].position, vec3(6 * U, 7 * U, 8 * U));

    assert_eq!(res[1].residue, 0);
    assert_eq!(res[1].name, NameRef { residue: 0, slot: 1 });
    assert_eq!(res[1].position, vec3(9 * U, 10 * U, 11 * U));

    assert!(iter.next().is_none());
}

#[test]
fn iterating_over_residues_ensures_that_they_are_ordered() {
    let conf = Conf {
        title: "A title".to_string(),
        origin: vec3(0, 0, 0),
        size: vec3(0, 0, 0),
        residues: two_slot_residue(),
        atoms: vec![
            // Residue begins with wrong atom, and is skipped
            Atom {
                name: NameRef { residue: 0, slot: 1 },
                residue: 0,
                position: vec3(0, U, 2 * U),
                velocity: None,
            },
            // This atom (which along with the previous atom would be a good
            // residue) is found as incomplete and skipped
            Atom {
                name: NameRef { residue: 0, slot: 0 },
                residue: 0,
                position: vec3(0, U, 2 * U),
                velocity: None,
            },
            // The next residue is good
            Atom {
                name: NameRef { residue: 0, slot: 0 },
                residue: 0,
                position: vec3(6 * U, 7 * U, 8 * U),
                velocity: None,
            },
            Atom {
                name: NameRef { residue: 0, slot: 1 },
                residue: 0,
                position: vec3(9 * U, 10 * U, 11 * U),
                velocity: None,
            },
        ],
    };

    let mut iter = conf.iter_residues();

    // First and second residues will be bad (both are incomplete)
    assert!(iter.next().unwrap().is_err());
    assert!(iter.next().unwrap().is_err());

    // This is good
    let res = iter.next().unwrap().unwrap();
    assert_eq!(res.len(), 2);

    assert_eq!(res[0].residue, 0);
    assert_eq!(res[0].name, NameRef { residue: 0, slot: 0 });
    assert_eq!(res[0].position, vec3(6 * U, 7 * U, 8 * U));

    assert_eq!(res[1].residue, 0);
    assert_eq!(res[1].name, NameRef { residue: 0, slot: 1 });
    assert_eq!(res[1].position, vec3(9 * U, 10 * U, 11 * U));

    assert!(iter.next().is_none());
}

#[test]
fn iterate_over_several_different_residues() {
    let residues = vec![
        Residue {
            name: "RES1".to_string(),
            atoms: vec!["AT1".to_string(), "At2".to_string()],
        },
        Residue { name: "RES2".to_string(), atoms: vec!["AT3".to_string()] },
    ];

    // This configuration contains 2 of the first residue, then 2 of the
    // second, and finally 1 of the first
    let atoms = vec![
        Atom {
            name: NameRef { residue: 0, slot: 0 },
            residue: 0,
            position: vec3(0, U, 2 * U),
            velocity: None,
        },
        Atom {
            name: NameRef { residue: 0, slot: 1 },
            residue: 0,
            position: vec3(3 * U, 4 * U, 5 * U),
            velocity: None,
        },
        Atom {
            name: NameRef { residue: 0, slot: 0 },
            residue: 0,
            position: vec3(6 * U, 7 * U, 8 * U),
            velocity: None,
        },
        Atom {
            name: NameRef { residue: 0, slot: 1 },
            residue: 0,
            position: vec3(9 * U, 10 * U, 11 * U),
            velocity: None,
        },
        Atom {
            name: NameRef { residue: 1, slot: 0 },
            residue: 1,
            position: vec3(12 * U, 13 * U, 14 * U),
            velocity: None,
        },
        Atom {
            name: NameRef { residue: 1, slot: 0 },
            residue: 1,
            position: vec3(15 * U, 16 * U, 17 * U),
            velocity: None,
        },
        Atom {
            name: NameRef { residue: 0, slot: 0 },
            residue: 0,
            position: vec3(18 * U, 19 * U, 20 * U),
            velocity: None,
        },
        Atom {
            name: NameRef { residue: 0, slot: 1 },
            residue: 0,
            position: vec3(21 * U, 22 * U, 23 * U),
            velocity: None,
        },
    ];

    let conf = Conf {
        title: "System".to_string(),
        origin: vec3(0, 0, 0),
        size: vec3(U, 2 * U, 3 * U),
        residues,
        atoms,
    };

    let mut iter = conf.iter_residues();

    // Check the fourth and fifth (final) residues
    assert!(iter.next().unwrap().is_ok());
    assert!(iter.next().unwrap().is_ok());
    assert!(iter.next().unwrap().is_ok());

    let res4 = iter.next().unwrap().unwrap();
    assert_eq!(res4.len(), 1);
    assert_eq!(res4[0].residue, 1);
    assert_eq!(res4[0].name, NameRef { residue: 1, slot: 0 });
    assert_eq!(res4[0].position, vec3(15 * U, 16 * U, 17 * U));
    assert_eq!(res4[0].velocity, None);

    let res5 = iter.next().unwrap().unwrap();
    assert_eq!(res5.len(), 2);

    assert_eq!(res5[0].residue, 0);
    assert_eq!(res5[0].name, NameRef { residue: 0, slot: 0 });
    assert_eq!(res5[0].position, vec3(18 * U, 19 * U, 20 * U));
    assert_eq!(res5[0].velocity, None);

    assert_eq!(res5[1].residue, 0);
    assert_eq!(res5[1].name, NameRef { residue: 0, slot: 1 });
    assert_eq!(res5[1].position, vec3(21 * U, 22 * U, 23 * U));
    assert_eq!(res5[1].velocity, None);

    assert!(iter.next().is_none());
}

#[test]
fn multiply_conf_to_extend_it() {
    let size = vec3(10 * U, 20 * U, 30 * U);

    let residues = vec![
        Residue { name: "RES1".to_string(), atoms: vec!["AT1".to_string()] },
        Residue { name: "RES2".to_string(), atoms: vec!["AT2".to_string()] },
    ];

    let conf = Conf {
        title: "A title".to_string(),
        origin: vec3(0, 0, 0),
        size,
        residues,
        atoms: vec![
            Atom {
                name: NameRef { residue: 1, slot: 0 },
                residue: 1,
                position: vec3(0, U, 2 * U),
                velocity: Some(vec3(0, U / 10, 2 * U / 10)),
            },
            Atom {
                name: NameRef { residue: 0, slot: 0 },
                residue: 0,
                position: vec3(3 * U, 4 * U, 5 * U),
                velocity: Some(vec3(3 * U / 10, 4 * U / 10, 5 * U / 10)),
            },
        ],
    };

    let (nx, ny, nz) = (2, 3, 4);
    let multiplied_conf = conf.pbc_multiply(nx, ny, nz);

    assert_eq!(
        multiplied_conf.size,
        vec3(10 * U * (nx as i64), 20 * U * (ny as i64), 30 * U * (nz as i64))
    );
    assert_eq!(multiplied_conf.atoms.len(), conf.atoms.len() * nx * ny * nz);

    // The final atom should be from the maximum (nx, ny, nz) image
    let last = multiplied_conf.atoms.last().unwrap();
    let orig_last = conf.atoms.last().unwrap();
    assert_eq!(last.name, orig_last.name);
    assert_eq!(last.residue, orig_last.residue);
    assert_eq!(
        last.position,
        orig_last.position.add(conf.size.pbc_multiply(nx - 1, ny - 1, nz - 1))
    );
    assert_eq!(last.velocity, orig_last.velocity);
}

#[test]
fn grouping_recovers_after_a_mid_template_mismatch() {
    // Template [AT1, AT2]; atom sequence [AT1, AT2, AT1, AT1, AT1, AT2]:
    // one good group, then two one-atom resynchronisation errors, then a
    // final good group.
    let at1 = NameRef { residue: 0, slot: 0 };
    let at2 = NameRef { residue: 0, slot: 1 };
    let mk = |name: NameRef| Atom {
        name,
        residue: 0,
        position: vec3(0, 0, 0),
        velocity: None,
    };

    let conf = Conf {
        title: "A title".to_string(),
        origin: vec3(0, 0, 0),
        size: vec3(0, 0, 0),
        residues: two_slot_residue(),
        atoms: vec![mk(at1), mk(at2), mk(at1), mk(at1), mk(at1), mk(at2)],
    };

    let mut iter = conf.iter_residues();

    let ok1 = iter.next().unwrap().unwrap();
    assert_eq!(ok1.len(), 2);

    let err1 = iter.next().unwrap().unwrap_err();
    assert_eq!(err1.index, 2);

    let err2 = iter.next().unwrap().unwrap_err();
    assert_eq!(err2.index, 3);

    let ok2 = iter.next().unwrap().unwrap();
    assert_eq!(ok2.len(), 2);
    assert_eq!(ok2[0].name, at1);
    assert_eq!(ok2[1].name, at2);

    assert!(iter.next().is_none());
}

#[test]
fn grouping_consumes_every_atom_exactly_once() {
    let at1 = NameRef { residue: 0, slot: 0 };
    let at2 = NameRef { residue: 0, slot: 1 };
    let mk = |name: NameRef| Atom {
        name,
        residue: 0,
        position: vec3(0, 0, 0),
        velocity: None,
    };

    // A mix of good groups, a wrong-start atom and a truncated group
    let conf = Conf {
        title: "A title".to_string(),
        origin: vec3(0, 0, 0),
        size: vec3(0, 0, 0),
        residues: two_slot_residue(),
        atoms: vec![mk(at2), mk(at1), mk(at2), mk(at1), mk(at1), mk(at2), mk(at1)],
    };

    let mut iter = conf.iter_residues();
    let mut consumed = 0;
    let mut results = 0;
    loop {
        match iter.next() {
            None => break,
            Some(Ok(group)) => {
                consumed += group.len();
                results += 1;
            },
            Some(Err(_)) => {
                // an error consumes at least one atom; the cursor says
                // how many by how far it moved
                results += 1;
            },
        }
    }
    // every atom is consumed by exactly one result, and the iterator ends
    assert_eq!(iter.index, conf.atoms.len());
    assert!(results <= conf.atoms.len());
    // the three errors consume one atom each; the two groups consume two
    assert_eq!(consumed, 4);
    assert_eq!(results, 5);
    assert!(iter.next().is_none());
}
