//! Codec tests: fixed-width record parsing, whole-file decoding, encoding
//! and the index wraparound. Coordinates are fixed-point units of 1e-5.

use mdio::conf::{Atom, Conf, NameRef, Residue};
use mdio::gromos87::{parse_atom_line, read_gromos87_conf, write_gromos87_conf, ReadError,
    WriteError};
use mdio::rvec::RVec;

const U: i64 = 100_000;

fn vec3(x: i64, y: i64, z: i64) -> RVec {
    RVec { x, y, z }
}

#[test]
fn parse_atom_line_errors() {
    // Too-short strings
    assert!(parse_atom_line("").is_err());
    assert!(parse_atom_line("    1RES   ATOM1    ").is_err());
    assert!(parse_atom_line("    1RES   ATOM1    1000.0012000.002").is_err());

    // Baseline correct line
    assert!(parse_atom_line("    1RES   ATOM1    1000.0012000.0023000.003").is_ok());

    // Bad number values
    assert!(parse_atom_line("    1RES   ATOM1    100s.0012000.0023000.003").is_err());
    assert!(parse_atom_line("    1RES   ATOM1    1000.00120s0.0023000.003").is_err());
    assert!(parse_atom_line("    1RES   ATOM1    1000.0012000.00230s0.003").is_err());
}

#[test]
fn parse_correct_atom_lines() {
    let s = "    1RES   ATOM1    1000.0012000.0023000.003";
    let line = parse_atom_line(s).unwrap();
    assert_eq!(line.residue_name, "RES");
    assert_eq!(line.atom_name, "ATOM");
    assert_eq!(line.position, vec3(1000 * U + 100, 2000 * U + 200, 3000 * U + 300));
    assert_eq!(line.velocity, None);

    let s = "    12RES12ATO150001 100.01  200.02  300.03  400.04  500.05  600.06 ";
    let line = parse_atom_line(s).unwrap();
    assert_eq!(line.residue_name, "2RES1");
    assert_eq!(line.atom_name, "2ATO1");
    assert_eq!(line.position, vec3(100 * U + 1000, 200 * U + 2000, 300 * U + 3000));
    assert_eq!(
        line.velocity,
        Some(vec3(400 * U + 4000, 500 * U + 5000, 600 * U + 6000))
    );
}

#[test]
fn read_correct_file() {
    let content = "\
A title
4
    1RES1   AT1    1   0.000   1.000   2.000  0.0000  0.1000  0.3000
    1RES1   AT2    2   3.000   4.000   5.000  0.3000  0.4000  0.5000
    2RES2   AT3    3   6.000   7.000   8.000  0.6000  0.7000  0.8000
    3RES2   AT3    4   9.000  10.000  11.000  0.9000  1.0000  1.1000
      10.000       11.000       12.000
";

    let conf = read_gromos87_conf(content).unwrap();

    assert_eq!(conf.title, "A title");
    assert_eq!(conf.atoms.len(), 4);
    assert_eq!(conf.origin, vec3(0, 0, 0));
    assert_eq!(conf.size, vec3(10 * U, 11 * U, 12 * U));

    // Verify that all residues were correctly constructed
    assert_eq!(conf.residues.len(), 2);
    assert_eq!(conf.residues[0].name, "RES1");
    assert_eq!(conf.residues[1].name, "RES2");

    assert_eq!(conf.residues[0].atoms.len(), 2);
    assert_eq!(conf.residues[0].atoms[0], "AT1");
    assert_eq!(conf.residues[0].atoms[1], "AT2");

    assert_eq!(conf.residues[1].atoms.len(), 1);
    assert_eq!(conf.residues[1].atoms[0], "AT3");

    // Verify that handles are correctly set from atoms to their residues
    assert_eq!(conf.atoms[0].name, NameRef { residue: 0, slot: 0 });
    assert_eq!(conf.atoms[1].residue, 0);
    assert_eq!(conf.atoms[2].name, NameRef { residue: 1, slot: 0 });
    assert_eq!(conf.atoms[2].residue, 1);

    // Verify one position and velocity
    assert_eq!(conf.atoms[2].position, vec3(6 * U, 7 * U, 8 * U));
    assert_eq!(
        conf.atoms[2].velocity,
        Some(vec3(6 * U / 10, 7 * U / 10, 8 * U / 10))
    );
}

#[test]
fn read_incorrect_file_returns_error() {
    let size_line = "0.1 0.2 0.3";
    let two_atom_lines = "\
    1RES1   AT1    1   0.000   1.000   2.000   0.000   0.100   0.300
    1RES1   AT2    2   3.000   4.000   5.000   0.300   0.400   0.500";

    let content = format!(
        "{}\n{}\n{}\n{}",
        "More atom lines than atoms", 1, two_atom_lines, size_line
    );
    assert!(read_gromos87_conf(&content).is_err());

    let content = format!(
        "{}\n{}\n{}\n{}",
        "Fewer atom lines than atoms", 3, two_atom_lines, size_line
    );
    assert!(read_gromos87_conf(&content).is_err());

    let content = format!("{}\n{}\n{}", "No box size line", 2, two_atom_lines);
    assert!(read_gromos87_conf(&content).is_err());

    let content = format!("{}\n{}\n{}1.0 2.0", "Bad box size line", 2, two_atom_lines);
    assert!(read_gromos87_conf(&content).is_err());

    let content = format!(
        "{}\n{}\n{}1.s 2.0 3.0",
        "Bad box size line", 2, two_atom_lines
    );
    assert!(read_gromos87_conf(&content).is_err());

    let content = format!(
        "{}\n{}\n{}",
        "No number of atoms line", two_atom_lines, size_line
    );
    assert!(read_gromos87_conf(&content).is_err());
}

#[test]
fn write_conf_with_two_different_residues_to_buffer() {
    let residues = vec![
        Residue { name: "RES1".to_string(), atoms: vec!["AT1".to_string()] },
        Residue { name: "RES2".to_string(), atoms: vec!["AT2".to_string()] },
    ];

    let conf = Conf {
        title: "A title".to_string(),
        origin: vec3(U, 2 * U, 3 * U),
        size: vec3(10 * U, 20 * U, 30 * U),
        residues,
        atoms: vec![
            // Residue 2
            Atom {
                name: NameRef { residue: 1, slot: 0 },
                residue: 1,
                position: vec3(0, U, 2 * U),
                velocity: Some(vec3(0, U / 10, 2 * U / 10)),
            },
            // Residue 1
            Atom {
                name: NameRef { residue: 0, slot: 0 },
                residue: 0,
                position: vec3(3 * U, 4 * U, 5 * U),
                velocity: Some(vec3(3 * U / 10, 4 * U / 10, 5 * U / 10)),
            },
        ],
    };

    // Write the configuration to a buffer
    let buf = write_gromos87_conf(&conf).unwrap();

    // Verify that we get the same configuration back after reading the
    // output
    let read_conf = read_gromos87_conf(&buf).unwrap();

    assert_eq!(read_conf.title, conf.title);
    assert_eq!(read_conf.origin, vec3(0, 0, 0));
    assert_eq!(read_conf.size, conf.size);

    assert_eq!(read_conf.residues.len(), 2);
    assert_eq!(read_conf.atoms.len(), conf.atoms.len());

    for (read_atom, atom) in read_conf.atoms.iter().zip(conf.atoms.iter()) {
        let read_name = &read_conf.residues[read_atom.name.residue].atoms[read_atom.name.slot];
        let name = &conf.residues[atom.name.residue].atoms[atom.name.slot];
        assert_eq!(read_name, name);
        assert_eq!(
            read_conf.residues[read_atom.residue].name,
            conf.residues[atom.residue].name
        );
        assert_eq!(read_atom.position, atom.position);
        assert_eq!(read_atom.velocity.unwrap(), atom.velocity.unwrap());
    }
}

#[test]
fn box_size_is_written_in_a_fixed_format_with_leading_space_for_all_dimensions() {
    let conf = Conf {
        title: "A title".to_string(),
        origin: vec3(U, 2 * U, 3 * U),
        size: vec3(10 * U, 20 * U, 30 * U),
        residues: Vec::new(),
        atoms: Vec::new(),
    };

    let out = write_gromos87_conf(&conf).unwrap();

    let box_size_line = out.lines().nth(2).unwrap();

    assert_eq!(
        format!(" {:12.5} {:12.5} {:12.5}", 10.0f64, 20.0f64, 30.0f64),
        box_size_line
    );
}

#[test]
fn writing_residue_and_atom_numbers_wrap_at_100_000() {
    let residues = vec![
        Residue { name: "RES1".to_string(), atoms: vec!["AT1".to_string()] },
    ];

    let conf = Conf {
        title: "A title".to_string(),
        origin: vec3(U, 2 * U, 3 * U),
        size: vec3(10 * U, 20 * U, 30 * U),
        residues,
        // Add 100_000 atoms; since indexing begins at 1 the last atom will
        // wrap to 0!
        atoms: vec![
            Atom {
                name: NameRef { residue: 0, slot: 0 },
                residue: 0,
                position: vec3(0, U, 2 * U),
                velocity: None,
            };
            100_000
        ],
    };

    let out = write_gromos87_conf(&conf).unwrap();

    // Two meta data lines, then 99_999 atom lines are skipped
    let tail = out.lines().nth(100_001).unwrap();
    let residue_num = &tail[0..5];
    let atom_num = &tail[15..20];

    assert_eq!(residue_num, "    0");
    assert_eq!(atom_num, "    0");

    // Verify that the names are untouched
    let residue_name = &tail[5..10];
    let atom_name = &tail[10..15];
    assert_eq!(residue_name, "RES1 ");
    assert_eq!(atom_name, "  AT1");
}

#[test]
fn write_conf_with_3_digit_position_precision_and_four_digit_velocity_precision() {
    let residues = vec![
        Residue { name: "RES1".to_string(), atoms: vec!["AT1".to_string()] },
    ];

    let conf = Conf {
        title: "A title".to_string(),
        origin: RVec::default(),
        size: RVec::default(),
        residues,
        atoms: vec![
            Atom {
                name: NameRef { residue: 0, slot: 0 },
                residue: 0,
                position: vec3(0, U, 2 * U),
                velocity: Some(vec3(0, U / 10, 2 * U / 10)),
            },
        ],
    };

    let out = write_gromos87_conf(&conf).unwrap();

    let line = out.lines().nth(2).unwrap();

    let x = line[20..28].to_string();
    let y = line[28..36].to_string();
    let z = line[36..44].to_string();

    let vx = line[44..52].to_string();
    let vy = line[52..60].to_string();
    let vz = line[60..68].to_string();

    for position in vec![x, y, z] {
        let parts: Vec<_> = position.splitn(2, '.').collect();
        assert_eq!(parts[0].len(), 4);
        assert_eq!(parts[1].len(), 3);
    }

    for velocity in vec![vx, vy, vz] {
        let parts: Vec<_> = velocity.splitn(2, '.').collect();
        assert_eq!(parts[0].len(), 3);
        assert_eq!(parts[1].len(), 4);
    }
}

#[test]
fn decode_reports_the_line_of_each_failure() {
    // A malformed atom-count line
    let r = read_gromos87_conf("A title\nnot a count\n");
    assert_eq!(r.unwrap_err(), ReadError::NumAtomsError);

    // The stream ends before the first record line
    let r = read_gromos87_conf("A title\n2");
    assert_eq!(r.unwrap_err(), ReadError::MissingAtomLine(3));

    // A record line which is too short
    let r = read_gromos87_conf("A title\n1\nshort\n0.1 0.2 0.3\n");
    assert_eq!(r.unwrap_err(), ReadError::LineError(3));

    // A blank box-size line
    let r = read_gromos87_conf("A title\n0\n");
    assert_eq!(r.unwrap_err(), ReadError::NoBoxSize(3));

    // A malformed box-size line
    let r = read_gromos87_conf("A title\n0\n1.s 2.0 3.0\n");
    assert_eq!(r.unwrap_err(), ReadError::BoxSizeError(3));
}

#[test]
fn encode_refuses_a_conf_whose_first_group_is_inconsistent() {
    let residues = vec![
        Residue {
            name: "RES1".to_string(),
            atoms: vec!["AT1".to_string(), "AT2".to_string()],
        },
    ];

    let conf = Conf {
        title: "A title".to_string(),
        origin: vec3(0, 0, 0),
        size: vec3(10 * U, 20 * U, 30 * U),
        residues,
        atoms: vec![
            // Starts at the second declared slot: not a valid group
            Atom {
                name: NameRef { residue: 0, slot: 1 },
                residue: 0,
                position: vec3(0, U, 2 * U),
                velocity: None,
            },
        ],
    };

    assert_eq!(write_gromos87_conf(&conf), Err(WriteError::BadResidue(1)));
}

#[test]
fn round_trip_preserves_rounded_coordinates() {
    let residues = vec![
        Residue { name: "RES1".to_string(), atoms: vec!["AT1".to_string()] },
    ];

    let conf = Conf {
        title: "A title".to_string(),
        origin: vec3(0, 0, 0),
        size: vec3(123_456, 20 * U, 30 * U),
        residues,
        atoms: vec![
            Atom {
                name: NameRef { residue: 0, slot: 0 },
                residue: 0,
                // 0.12345 rounds to 0.123 at three decimals; -0.55555
                // rounds away from zero to -0.556
                position: vec3(12_345, -55_555, 2 * U),
                velocity: Some(vec3(12_345, -55_555, 0)),
            },
        ],
    };

    let out = write_gromos87_conf(&conf).unwrap();
    let back = read_gromos87_conf(&out).unwrap();

    assert_eq!(back.title, "A title");
    // The box size is written at five decimals: fully exact
    assert_eq!(back.size, vec3(123_456, 20 * U, 30 * U));
    // Positions at three decimals, velocities at four
    assert_eq!(back.atoms[0].position, vec3(12_300, -55_600, 2 * U));
    assert_eq!(back.atoms[0].velocity, Some(vec3(12_350, -55_560, 0)));
}
