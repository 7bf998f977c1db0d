use roqoqo_quest::measurement::{
    condition_holds, execute_pragma_repeated_measurement, execute_replaced_repeated_measurement, define_bit_register, index_to_qubits, measurement_row,
    repeated_measurement_targets, sampled_rows, write_measurement,
};
use roqoqo_quest::registers::{append_shot, merge_output_registers};
use roqoqo_quest::seed::{seed_from_words, words_to_le_bytes};
use roqoqo_quest::{BackendError, ComplexMatrixN, Qureg, RegisterMap};

fn name(s: &str) -> String {
    s.to_string()
}

#[test]
fn register_map_insert_replaces() {
    let mut m: RegisterMap<usize> = RegisterMap::new();
    m.insert(name("a"), 1);
    m.insert(name("b"), 2);
    m.insert(name("a"), 3);
    assert_eq!(m.len(), 2);
    assert_eq!(m.get(&name("a")), Some(&3));
    assert_eq!(m.get(&name("b")), Some(&2));
    assert_eq!(m.get(&name("c")), None);
}

#[test]
fn every_output_register_has_one_row_per_shot() {
    let mut outputs: RegisterMap<Vec<Vec<bool>>> = RegisterMap::new();
    outputs.insert(name("ro"), vec![]);
    outputs.insert(name("flags"), vec![]);
    for shot in 0..5usize {
        let mut internal: RegisterMap<Vec<bool>> = RegisterMap::new();
        define_bit_register(&mut internal, &name("ro"), 3);
        define_bit_register(&mut internal, &name("flags"), 1);
        write_measurement(&mut internal, &name("ro"), shot % 3, true).unwrap();
        append_shot(&mut outputs, internal, None);
    }
    let ro = outputs.get(&name("ro")).unwrap();
    let flags = outputs.get(&name("flags")).unwrap();
    assert_eq!(ro.len(), 5);
    assert_eq!(flags.len(), 5);
    assert!(ro.iter().all(|row| row.len() == 3));
    assert!(flags.iter().all(|row| row.len() == 1));
    assert_eq!(ro[4], vec![false, true, false]);
}

#[test]
fn append_shot_skips_the_sampled_readout() {
    let mut outputs: RegisterMap<Vec<Vec<bool>>> = RegisterMap::new();
    outputs.insert(name("ro"), vec![vec![true]]);
    outputs.insert(name("other"), vec![]);
    let mut internal: RegisterMap<Vec<bool>> = RegisterMap::new();
    define_bit_register(&mut internal, &name("ro"), 1);
    define_bit_register(&mut internal, &name("other"), 2);
    let skip = name("ro");
    append_shot(&mut outputs, internal, Some(&skip));
    assert_eq!(outputs.get(&name("ro")).unwrap(), &vec![vec![true]]);
    assert_eq!(outputs.get(&name("other")).unwrap(), &vec![vec![false, false]]);
}

#[test]
fn merge_appends_by_name() {
    let mut acc: RegisterMap<Vec<f64>> = RegisterMap::new();
    acc.insert(name("x"), vec![1.0]);
    let mut other: RegisterMap<Vec<f64>> = RegisterMap::new();
    other.insert(name("x"), vec![2.0, 3.0]);
    other.insert(name("y"), vec![4.0]);
    merge_output_registers(&mut acc, other);
    assert_eq!(acc.len(), 2);
    assert_eq!(acc.get(&name("x")).unwrap(), &vec![1.0, 2.0, 3.0]);
    assert_eq!(acc.get(&name("y")).unwrap(), &vec![4.0]);
}

#[test]
fn write_measurement_errors() {
    let mut regs: RegisterMap<Vec<bool>> = RegisterMap::new();
    define_bit_register(&mut regs, &name("ro"), 2);
    assert_eq!(
        write_measurement(&mut regs, &name("missing"), 0, true),
        Err(BackendError::RegisterNotFound { name: name("missing") })
    );
    assert_eq!(
        write_measurement(&mut regs, &name("ro"), 2, true),
        Err(BackendError::IndexOutOfRange { index: 2, length: 2 })
    );
    assert_eq!(write_measurement(&mut regs, &name("ro"), 1, true), Ok(()));
    assert_eq!(condition_holds(&regs, &name("ro"), 1), Ok(true));
    assert_eq!(condition_holds(&regs, &name("ro"), 0), Ok(false));
    assert_eq!(
        condition_holds(&regs, &name("ro"), 5),
        Err(BackendError::IndexOutOfRange { index: 5, length: 2 })
    );
}

#[test]
fn index_to_qubits_is_little_endian() {
    assert_eq!(index_to_qubits(6, 4), vec![false, true, true, false]);
    assert_eq!(index_to_qubits(1, 3), vec![true, false, false]);
    assert_eq!(index_to_qubits(5, 0), Vec::<bool>::new());
}

#[test]
fn measurement_row_follows_mapping() {
    // Qubit 0 goes to index 2, qubit 1 to index 0; qubit 2 keeps its own index.
    let mapping = vec![(0, 2), (1, 0)];
    let row = measurement_row(&vec![false; 3], 0b101, 3, Some(&mapping), true).unwrap();
    assert_eq!(row, vec![false, false, true]);
    // Qubit 2 is written last and overwrites what qubit 0 put at index 2.
    let row = measurement_row(&vec![false; 3], 0b011, 3, Some(&mapping), true).unwrap();
    assert_eq!(row, vec![true, false, false]);
    // Without a place of its own, an unmapped qubit is left out.
    let row = measurement_row(&vec![false; 3], 0b111, 3, Some(&mapping), false).unwrap();
    assert_eq!(row, vec![true, false, true]);
    // A qubit beyond the register is an error.
    assert_eq!(
        measurement_row(&vec![false; 2], 0, 3, None, true),
        Err(BackendError::IndexOutOfRange { index: 2, length: 2 })
    );
}

#[test]
fn sampled_rows_keep_order() {
    let rows = sampled_rows(&vec![false; 2], &vec![0, 1, 2, 3], 2, None, true).unwrap();
    assert_eq!(
        rows,
        vec![vec![false, false], vec![true, false], vec![false, true], vec![true, true]]
    );
    assert!(sampled_rows(&vec![false; 1], &vec![], 2, None, true).is_ok());
}

#[test]
fn replay_targets_follow_mapping() {
    let mapping = vec![(1, 3)];
    assert_eq!(
        repeated_measurement_targets(4, Some(&mapping)),
        vec![(0, 0), (1, 3), (2, 2), (3, 3)]
    );
    assert_eq!(repeated_measurement_targets(2, None), vec![(0, 0), (1, 1)]);
    assert_eq!(repeated_measurement_targets(0, None), vec![]);
}

#[test]
fn seed_words_are_little_endian() {
    assert_eq!(
        words_to_le_bytes(&vec![0x0102_0304_0506_0708, 1]),
        vec![8, 7, 6, 5, 4, 3, 2, 1, 1, 0, 0, 0, 0, 0, 0, 0]
    );
}

#[test]
fn seed_is_deterministic() {
    let a = seed_from_words(&vec![666, 777]);
    let b = seed_from_words(&vec![666, 777]);
    let c = seed_from_words(&vec![666, 778]);
    assert_eq!(a.len(), 32);
    assert_eq!(a, b);
    assert_ne!(a, c);
    assert_ne!(a, words_to_le_bytes(&vec![666, 777, 0, 0]));
}

#[test]
fn seed_of_no_words_is_digest_of_empty_input() {
    // SHA-256 of the empty string.
    let expected: Vec<u8> = vec![
        0xe3, 0xb0, 0xc4, 0x42, 0x98, 0xfc, 0x1c, 0x14, 0x9a, 0xfb, 0xf4, 0xc8, 0x99, 0x6f, 0xb9,
        0x24, 0x27, 0xae, 0x41, 0xe4, 0x64, 0x9b, 0x93, 0x4c, 0xa4, 0x95, 0x99, 0x1b, 0x78, 0x52,
        0xb8, 0x55,
    ];
    assert_eq!(seed_from_words(&vec![]), expected);
}

#[test]
fn qureg_shape() {
    let q = Qureg::new(3, true);
    assert_eq!(q.number_qubits(), 3);
    assert!(q.is_density_matrix);
    let m = ComplexMatrixN::new(3);
    assert_eq!(m.dimension, 8);
    assert!(m.contains(7, 0));
    assert!(!m.contains(8, 0));
}

#[test]
fn test_backend_seed() {
    let mut backend = roqoqo_quest::Backend::new(2, None);
    assert_eq!(backend.get_random_seed(), None);
    backend.set_random_seed(vec![555]);
    assert_eq!(backend.get_random_seed(), Some(vec![555]));
}

#[test]
fn repeated_measurement_appends_sampled_rows() {
    let mut outputs: RegisterMap<Vec<Vec<bool>>> = RegisterMap::new();
    outputs.insert(name("ro"), vec![]);
    let mut internals: RegisterMap<Vec<bool>> = RegisterMap::new();
    // Without an internal register the rows start from three false bits.
    execute_pragma_repeated_measurement(&mut internals, &mut outputs, &name("ro"), &vec![1, 6], 3, None)
        .unwrap();
    assert_eq!(
        outputs.get(&name("ro")).unwrap(),
        &vec![vec![true, false, false], vec![false, true, true]]
    );
    // The replaced measurement writes only the mapped qubits, from the internal register.
    let mut internals: RegisterMap<Vec<bool>> = RegisterMap::new();
    internals.insert(name("ro"), vec![false, false, true]);
    execute_replaced_repeated_measurement(
        &mut internals,
        &mut outputs,
        &name("ro"),
        &vec![7],
        3,
        &vec![(0, 1)],
    )
    .unwrap();
    assert_eq!(outputs.get(&name("ro")).unwrap()[2], vec![false, true, true]);
    // The internal register of the readout is gone after sampling.
    assert!(!internals.contains(&name("ro")));
    assert_eq!(
        execute_pragma_repeated_measurement(&mut internals, &mut outputs, &name("missing"), &vec![0], 3, None),
        Err(BackendError::RegisterNotFound { name: name("missing") })
    );
    assert_eq!(outputs.get(&name("ro")).unwrap().len(), 3);
}

#[test]
fn repeated_measurement_errors_leave_registers_unchanged() {
    let mut outputs: RegisterMap<Vec<Vec<bool>>> = RegisterMap::new();
    outputs.insert(name("ro"), vec![vec![true, true]]);
    let mut internals: RegisterMap<Vec<bool>> = RegisterMap::new();
    internals.insert(name("ro"), vec![false, false]);
    // Three qubits do not fit a two-bit register, with or without samples.
    for samples in [vec![], vec![5]] {
        assert_eq!(
            execute_pragma_repeated_measurement(&mut internals, &mut outputs, &name("ro"), &samples, 3, None),
            Err(BackendError::IndexOutOfRange { index: 2, length: 2 })
        );
        assert_eq!(outputs.get(&name("ro")).unwrap(), &vec![vec![true, true]]);
        assert_eq!(internals.get(&name("ro")).unwrap(), &vec![false, false]);
    }
}

#[test]
fn register_map_remove() {
    let mut m: RegisterMap<usize> = RegisterMap::new();
    m.insert(name("a"), 1);
    m.insert(name("b"), 2);
    m.remove(&name("a"));
    m.remove(&name("c"));
    assert_eq!(m.len(), 1);
    assert_eq!(m.get(&name("a")), None);
    assert_eq!(m.get(&name("b")), Some(&2));
}

#[test]
fn state_dimension_check() {
    let q = Qureg::new(3, false);
    assert_eq!(q.check_dimension(8), Ok(()));
    assert_eq!(
        q.check_dimension(4),
        Err(BackendError::StateDimensionMismatch { dimension: 4, number_qubits: 3 })
    );
    assert!(q.check_dimension(0).is_err());
    assert!(Qureg::new(70, true).check_dimension(usize::MAX).is_err());
    assert_eq!(Qureg::new(0, true).check_dimension(1), Ok(()));
}

#[test]
fn sampled_row_equals_one_by_one_measurement() {
    let pairs = vec![(0, 3), (1, 4), (2, 5)];
    for idx in 0..8usize {
        let sampled = measurement_row(&vec![false; 6], idx, 3, Some(&pairs), false).unwrap();
        let mut regs: RegisterMap<Vec<bool>> = RegisterMap::new();
        define_bit_register(&mut regs, &name("ro"), 6);
        for (qubit, index) in &pairs {
            let outcome = (idx >> qubit) & 1 == 1;
            write_measurement(&mut regs, &name("ro"), *index, outcome).unwrap();
        }
        assert_eq!(&sampled, regs.get(&name("ro")).unwrap());
    }
}
