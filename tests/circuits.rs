use roqoqo_quest::dispatch::{dispatch_operation, Dispatch};
use roqoqo_quest::planning::{handle_repeated_measurements, shot_step, ShotStep};
use roqoqo_quest::registers::new_output_registers;
use roqoqo_quest::{
    find_pragma_op, get_number_used_qubits_and_registers, Backend, BackendError, GateArity,
    InvolvedQubits, MeasurementMode, Operation, OperationKind, RegisterKind, RegisterMap,
};

fn op(kind: OperationKind, involved: InvolvedQubits) -> Operation {
    Operation { kind, involved }
}

fn def_bit(name: &str, length: usize, is_output: bool) -> Operation {
    op(
        OperationKind::DefinitionBit { name: name.to_string(), length, is_output },
        InvolvedQubits::Empty,
    )
}

fn def_float(name: &str, length: usize, is_output: bool) -> Operation {
    op(
        OperationKind::DefinitionFloat { name: name.to_string(), length, is_output },
        InvolvedQubits::Empty,
    )
}

fn def_complex(name: &str, length: usize, is_output: bool) -> Operation {
    op(
        OperationKind::DefinitionComplex { name: name.to_string(), length, is_output },
        InvolvedQubits::Empty,
    )
}

fn measure(qubit: usize, readout: &str, readout_index: usize) -> Operation {
    op(
        OperationKind::MeasureQubit { qubit, readout: readout.to_string(), readout_index },
        InvolvedQubits::Qubits(vec![qubit]),
    )
}

fn repeated(readout: &str, n: usize, mapping: Option<Vec<(usize, usize)>>) -> Operation {
    op(
        OperationKind::PragmaRepeatedMeasurement {
            readout: readout.to_string(),
            number_measurements: n,
            qubit_mapping: mapping,
        },
        InvolvedQubits::All,
    )
}

fn set_number(n: usize, readout: &str) -> Operation {
    op(
        OperationKind::PragmaSetNumberOfMeasurements {
            readout: readout.to_string(),
            number_measurements: n,
        },
        InvolvedQubits::Empty,
    )
}

fn gate(name: &str, qubits: Vec<usize>) -> Operation {
    let arity = match qubits.len() {
        1 => GateArity::Single,
        2 => GateArity::Two,
        3 => GateArity::Three,
        _ => GateArity::Multi,
    };
    op(OperationKind::Gate { name: name.to_string(), arity }, InvolvedQubits::Qubits(qubits))
}

fn get_state_vector(readout: &str) -> Operation {
    op(
        OperationKind::PragmaGetStateVector { readout: readout.to_string(), circuit: None },
        InvolvedQubits::All,
    )
}

fn get_density_matrix(readout: &str, circuit: Option<Vec<Operation>>) -> Operation {
    op(
        OperationKind::PragmaGetDensityMatrix { readout: readout.to_string(), circuit },
        InvolvedQubits::All,
    )
}

fn get_occupation(readout: &str, circuit: Option<Vec<Operation>>) -> Operation {
    op(
        OperationKind::PragmaGetOccupationProbability { readout: readout.to_string(), circuit },
        InvolvedQubits::All,
    )
}

fn noise(name: &str, qubit: usize) -> Operation {
    op(OperationKind::NoiseChannel { name: name.to_string() }, InvolvedQubits::Qubits(vec![qubit]))
}

fn lengths_of(reg: &RegisterMap<usize>, name: &str) -> Option<usize> {
    reg.get(&name.to_string()).copied()
}

#[test]
fn test() {
    let c = vec![
        def_bit("ro", 3, true),
        def_bit("ro3", 4, true),
        measure(0, "ro3", 0),
        measure(3, "ro3", 3),
        gate("RotateX", vec![0]),
        gate("CNOT", vec![0, 1]),
        gate("CNOT", vec![1, 0]),
        gate("CNOT", vec![0, 1]),
        gate("CNOT", vec![1, 0]),
        gate("CNOT", vec![0, 1]),
        gate("PauliX", vec![4]),
        gate("PauliX", vec![5]),
    ];
    let (n, reg) = get_number_used_qubits_and_registers(&c).unwrap();
    assert_eq!(6, n);
    assert_eq!(reg.len(), 2);
    assert_eq!(lengths_of(&reg, "ro"), Some(3));
    assert_eq!(lengths_of(&reg, "ro3"), Some(4));
}

#[test]
fn test_err_no_definition_complex() {
    let c = vec![
        def_bit("ro", 3, true),
        def_bit("ro1", 4, true),
        measure(0, "ro3", 0),
        measure(3, "ro3", 3),
        gate("RotateX", vec![0]),
        gate("CNOT", vec![0, 1]),
        gate("PauliX", vec![4]),
        gate("PauliX", vec![5]),
        get_state_vector("ro"),
    ];
    let res = get_number_used_qubits_and_registers(&c);
    assert!(res.is_err());

    let c = vec![def_bit("ro", 3, true), def_bit("ro1", 4, true), get_density_matrix("ro", None)];
    let res = get_number_used_qubits_and_registers(&c);
    assert!(res.is_err());
}

#[test]
fn test_err_no_definition_float() {
    let c = vec![def_bit("ro", 3, true), def_bit("ro1", 4, true), get_occupation("ro", None)];
    let res = get_number_used_qubits_and_registers(&c);
    assert!(res.is_err());
}

#[test]
fn test_err_no_definition_bit() {
    let c = vec![def_complex("ro", 3, true), def_bit("ro1", 4, true), repeated("ro", 10, None)];
    let res = get_number_used_qubits_and_registers(&c);
    assert!(res.is_err());

    let c = vec![def_complex("ro", 3, true), def_bit("ro1", 4, true), measure(0, "ro", 20)];
    let res = get_number_used_qubits_and_registers(&c);
    assert!(res.is_err());

    let c = vec![def_bit("ro", 3, true), measure(0, "ro", 20)];
    let res = get_number_used_qubits_and_registers(&c);
    assert!(res.is_err());
}

#[test]
fn test_get_used_qubits() {
    let c = vec![def_bit("ro", 10, true), gate("RotateX", vec![0]), gate("CNOT", vec![0, 1])];
    let (n, _) = get_number_used_qubits_and_registers(&c).unwrap();
    assert_eq!(2, n);

    let c = vec![
        def_bit("ro", 10, true),
        gate("RotateX", vec![0]),
        gate("CNOT", vec![0, 1]),
        repeated("ro", 10, None),
    ];
    let (n, _) = get_number_used_qubits_and_registers(&c).unwrap();
    assert_eq!(10, n);

    let c = vec![
        def_complex("ro", 16, true),
        gate("RotateX", vec![0]),
        gate("CNOT", vec![0, 1]),
        get_density_matrix("ro", None),
    ];
    let (n, _) = get_number_used_qubits_and_registers(&c).unwrap();
    assert_eq!(2, n);

    let c = vec![
        def_complex("ro", 16, true),
        gate("RotateX", vec![0]),
        gate("CNOT", vec![0, 1]),
        get_state_vector("ro"),
    ];
    let (n, _) = get_number_used_qubits_and_registers(&c).unwrap();
    assert_eq!(4, n);

    let c = vec![gate("RotateX", vec![0])];
    let (n, _) = get_number_used_qubits_and_registers(&c).unwrap();
    assert_eq!(1, n);

    let c = vec![gate("RotateX", vec![0]), gate("RotateX", vec![12])];
    let (n, _) = get_number_used_qubits_and_registers(&c).unwrap();
    assert_eq!(13, n);
}

#[test]
fn test_get_register() {
    let c = vec![
        def_bit("ro", 2, true),
        def_bit("ri", 2, false),
        def_complex("rc", 4, true),
        get_density_matrix("rc", None),
    ];
    let (_, reg) = get_number_used_qubits_and_registers(&c).unwrap();
    assert_eq!(reg.len(), 1);
    assert_eq!(lengths_of(&reg, "ro"), Some(2));

    let c = vec![def_float("ro", 2, true), def_float("ri", 2, false)];
    let (_, reg) = get_number_used_qubits_and_registers(&c).unwrap();
    assert_eq!(reg.len(), 0);

    let c = vec![def_complex("ro", 64, true), def_complex("ri", 2, false)];
    let (used, reg) = get_number_used_qubits_and_registers(&c).unwrap();
    assert_eq!(reg.len(), 0);
    assert_eq!(used, 1);

    let c = vec![def_bit("ro", 2, true), def_complex("ri", 10, true)];
    let (used, reg) = get_number_used_qubits_and_registers(&c).unwrap();
    assert_eq!(reg.len(), 1);
    assert_eq!(lengths_of(&reg, "ro"), Some(2));
    assert_eq!(used, 1);
}

#[test]
fn test_find_pragma_op() {
    let o = op(
        OperationKind::PragmaConditional {
            condition_register: "bits".to_string(),
            condition_index: 0,
            circuit: vec![noise("PragmaDamping", 0)],
        },
        InvolvedQubits::Qubits(vec![0]),
    );
    assert!(find_pragma_op(&o));

    let o = op(
        OperationKind::PragmaLoop { repetitions: 5, circuit: vec![noise("PragmaDephasing", 1)] },
        InvolvedQubits::Qubits(vec![1]),
    );
    assert!(find_pragma_op(&o));

    let o = op(
        OperationKind::PragmaGetPauliProduct {
            qubits: vec![],
            readout: "pauli".to_string(),
            circuit: vec![noise("PragmaDepolarising", 1)],
        },
        InvolvedQubits::Empty,
    );
    assert!(find_pragma_op(&o));

    let o = get_occupation(
        "float_register",
        Some(vec![op(OperationKind::PragmaGeneralNoise, InvolvedQubits::Qubits(vec![1]))]),
    );
    assert!(find_pragma_op(&o));

    let o = get_density_matrix(
        "complex_register",
        Some(vec![op(OperationKind::PragmaSetDensityMatrix, InvolvedQubits::All)]),
    );
    assert!(find_pragma_op(&o));

    let o = get_density_matrix("complex_register", None);
    assert!(!find_pragma_op(&o));
}

#[test]
fn test_failing_set_number_of_measurments() {
    let circuit = vec![def_bit("ro", 1, true), measure(0, "ro", 0), set_number(10, "ro_misspelled")];
    let backend = Backend::new(1, None);
    let res = backend.prepare_run(&circuit);
    assert!(res.is_err());
    assert!(matches!(res, Err(BackendError::UnmatchedSetNumberOfMeasurements { .. })));
}

#[test]
fn test_failing_two_set_measurments() {
    let circuit = vec![
        def_bit("ro", 1, true),
        measure(0, "ro", 0),
        set_number(10, "ro"),
        set_number(20, "ro"),
    ];
    let backend = Backend::new(1, None);
    let res = backend.prepare_run(&circuit);
    assert!(res.is_err());
    assert!(matches!(res, Err(BackendError::DuplicateRepeatedMeasurement)));
}

#[test]
fn test_failing_set_number_measurements() {
    let circuit = vec![
        def_bit("ro_0", 6, true),
        gate("Hadamard", vec![0]),
        gate("Hadamard", vec![1]),
        gate("Hadamard", vec![2]),
        measure(1, "ro_1", 4),
        set_number(10, "ro_0"),
    ];
    let backend = Backend::new(6, None);
    let res = backend.prepare_run(&circuit);
    assert!(res.is_err());
}

#[test]
fn test_failing_two_repeated_measurments() {
    let circuit = vec![
        def_bit("ro", 1, true),
        measure(0, "ro", 0),
        set_number(10, "ro"),
        repeated("ro", 20, None),
    ];
    let backend = Backend::new(1, None);
    let res = backend.prepare_run(&circuit);
    assert!(res.is_err());
    assert!(matches!(res, Err(BackendError::DuplicateRepeatedMeasurement)));
}

#[test]
fn test_insufficient_qubit_error1() {
    let circuit = vec![
        def_bit("ro0", 1, true),
        def_bit("ro3", 4, true),
        gate("PauliX", vec![0]),
        gate("PauliX", vec![1]),
        gate("PauliX", vec![2]),
        gate("PauliX", vec![5]),
        measure(0, "ro0", 0),
        measure(3, "ro3", 3),
    ];
    let backend = Backend::new(4, None);
    let res = backend.prepare_run(&circuit);
    assert!(res.is_err());
    assert!(matches!(
        res,
        Err(BackendError::InsufficientQubits { available: 4, used: 6 })
    ));
}

#[test]
fn test_insufficient_qubit_error2() {
    let circuit = vec![def_bit("ro", 4, true), gate("PauliX", vec![1]), repeated("ro", 10, None)];
    let backend = Backend::new(1, None);
    let res = backend.prepare_run(&circuit);
    assert!(res.is_err());
    assert!(matches!(
        res,
        Err(BackendError::InsufficientQubits { available: 1, used: 4 })
    ));
}

#[test]
fn test_replaced_repeated_measurement_fewer_qubits() {
    let circuit = vec![
        def_bit("ro", 2, true),
        gate("PauliX", vec![0]),
        gate("PauliX", vec![1]),
        gate("PauliX", vec![2]),
        measure(0, "ro", 0),
        measure(1, "ro", 1),
        set_number(10, "ro"),
    ];
    let backend = Backend::new(3, None);
    let plan = backend.prepare_run(&circuit).unwrap();
    assert_eq!(plan.number_qubits, 3);
    match &plan.mode {
        MeasurementMode::SampledReplace { qubit_marker, readout, number_measurements, mapping } => {
            assert_eq!(*qubit_marker, 1);
            assert_eq!(readout, "ro");
            assert_eq!(*number_measurements, 10);
            assert_eq!(mapping, &vec![(0, 0), (1, 1)]);
            // All three qubits are one: basis state 7. Qubit 2 has no place in
            // the two-bit register and is left out.
            let row = roqoqo_quest::measurement::measurement_row(
                &vec![false, false],
                7,
                3,
                Some(mapping),
                false,
            )
            .unwrap();
            assert_eq!(row, vec![true, true]);
        }
        MeasurementMode::FullReplay => panic!("expected the sampling shortcut"),
    }
}

#[test]
fn test_set_repetitions() {
    let backend = Backend::new(2, None);
    assert_eq!(backend.repetitions, 1);
    let backend = backend.set_repetitions(10);
    assert_eq!(backend.repetitions, 10);
    let circuit = vec![
        def_complex("ro", 2, true),
        op(OperationKind::PragmaRandomNoise, InvolvedQubits::Qubits(vec![0])),
        get_state_vector("ro"),
    ];
    let plan = backend.prepare_run(&circuit).unwrap();
    assert_eq!(plan.repetitions, 10);
    assert!(matches!(plan.mode, MeasurementMode::FullReplay));
}

#[test]
fn test_float_registry() {
    let circuit = vec![def_float("ro_f", 1, true)];
    let backend = Backend::new(1, None);
    assert!(backend.prepare_run(&circuit).is_ok());
    let outputs: RegisterMap<Vec<Vec<f64>>> = new_output_registers(&circuit, RegisterKind::Float);
    assert!(outputs.contains(&"ro_f".to_string()));
}

#[test]
fn test_readout_into_partial_register_set_number_measurements() {
    let backend = Backend::new(6, None);
    let circuit = vec![
        def_bit("ro_0", 6, true),
        gate("PauliX", vec![0]),
        gate("PauliX", vec![1]),
        gate("PauliX", vec![2]),
        measure(0, "ro_0", 3),
        measure(1, "ro_0", 4),
        measure(1, "ro_0", 5),
        set_number(10, "ro_0"),
    ];
    // Qubit 1 is measured twice: the circuit is replayed ten times.
    let plan = backend.prepare_run(&circuit).unwrap();
    assert!(matches!(plan.mode, MeasurementMode::FullReplay));
    assert_eq!(plan.repetitions, 10);
    let mut outputs: RegisterMap<Vec<Vec<bool>>> =
        new_output_registers(&circuit, RegisterKind::Bit);
    let name = "ro_0".to_string();
    for _ in 0..plan.repetitions {
        let mut internal: RegisterMap<Vec<bool>> = RegisterMap::new();
        roqoqo_quest::measurement::define_bit_register(&mut internal, &name, 6);
        // After the three flips every measured qubit reads one.
        for index in [3, 4, 5] {
            roqoqo_quest::measurement::write_measurement(&mut internal, &name, index, true).unwrap();
        }
        roqoqo_quest::registers::append_shot(&mut outputs, internal, None);
    }
    let rows = outputs.get(&name).unwrap();
    assert_eq!(rows.len(), 10);
    for bit_vec in rows {
        assert_eq!(bit_vec.len(), 6);
        assert_eq!(bit_vec, &vec![false, false, false, true, true, true]);
    }
}

#[test]
fn preprocessing_twice_gives_the_same_result() {
    let c = vec![def_bit("ro", 3, true), measure(2, "ro", 1), gate("CNOT", vec![0, 7])];
    let (n1, r1) = get_number_used_qubits_and_registers(&c).unwrap();
    let (n2, r2) = get_number_used_qubits_and_registers(&c).unwrap();
    assert_eq!(n1, 8);
    assert_eq!(n1, n2);
    assert_eq!(r1.entries, r2.entries);
}

#[test]
fn preprocessing_reports_index_out_of_range() {
    let c = vec![def_bit("ro", 3, true), measure(0, "ro", 3)];
    assert!(matches!(
        get_number_used_qubits_and_registers(&c),
        Err(BackendError::IndexOutOfRange { index: 3, length: 3 })
    ));
    let c = vec![def_bit("ro", 2, true), repeated("ro", 5, Some(vec![(0, 0), (1, 2)]))];
    assert!(matches!(
        get_number_used_qubits_and_registers(&c),
        Err(BackendError::IndexOutOfRange { index: 2, length: 2 })
    ));
}

#[test]
fn preprocessing_reports_qubit_overflow() {
    let c = vec![gate("PauliX", vec![usize::MAX])];
    assert!(matches!(
        get_number_used_qubits_and_registers(&c),
        Err(BackendError::QubitIndexOverflow { .. })
    ));
}

#[test]
fn sampled_mode_for_repeated_measurement_at_end() {
    // Pauli-X on qubit 1, then a repeated measurement of four qubits.
    let circuit = vec![def_bit("ro", 4, true), gate("PauliX", vec![1]), repeated("ro", 10, None)];
    let plan = Backend::new(4, None).prepare_run(&circuit).unwrap();
    assert_eq!(plan.number_qubits, 4);
    assert!(!plan.is_density_matrix);
    assert_eq!(plan.repetitions, 1);
    assert!(matches!(plan.mode, MeasurementMode::SampledReplace { qubit_marker: 0, .. }));
    // The only basis state, 2, gives a row with qubit 1 set.
    let rows = roqoqo_quest::measurement::sampled_rows(&vec![false; 4], &vec![2; 10], 4, None, true)
        .unwrap();
    assert_eq!(rows.len(), 10);
    for row in rows {
        assert_eq!(row, vec![false, true, false, false]);
    }
}

#[test]
fn gate_after_measurement_forces_replay() {
    let circuit = vec![
        def_bit("ro", 2, true),
        measure(0, "ro", 0),
        gate("PauliX", vec![0]),
        set_number(7, "ro"),
    ];
    let plan = Backend::new(2, None).set_repetitions(3).prepare_run(&circuit).unwrap();
    assert!(matches!(plan.mode, MeasurementMode::FullReplay));
    assert_eq!(plan.repetitions, 7);
}

#[test]
fn measurement_into_other_readout_forces_replay() {
    let circuit = vec![
        def_bit("ro", 2, true),
        def_bit("other", 1, true),
        measure(0, "ro", 0),
        measure(1, "other", 0),
        set_number(4, "ro"),
    ];
    let plan = Backend::new(2, None).prepare_run(&circuit).unwrap();
    assert!(matches!(plan.mode, MeasurementMode::FullReplay));
    assert_eq!(plan.repetitions, 4);
}

#[test]
fn density_mode_follows_noise() {
    let circuit = vec![gate("Hadamard", vec![0]), noise("PragmaDamping", 0)];
    let plan = Backend::new(1, None).prepare_run(&circuit).unwrap();
    assert!(plan.is_density_matrix);
    let circuit = vec![gate("Hadamard", vec![0])];
    let plan = Backend::new(1, None).prepare_run(&circuit).unwrap();
    assert!(!plan.is_density_matrix);
}

#[test]
fn handle_repeated_measurements_finds_pending() {
    let circuit = vec![def_bit("ro", 1, true), measure(0, "ro", 0), set_number(10, "ro")];
    let res = handle_repeated_measurements(&circuit).unwrap();
    assert_eq!(res, Some(("ro".to_string(), 10)));
    let circuit = vec![def_bit("ro", 1, true), measure(0, "ro", 0)];
    assert_eq!(handle_repeated_measurements(&circuit).unwrap(), None);
}

#[test]
fn dispatch_table() {
    let mut bits: RegisterMap<Vec<bool>> = RegisterMap::new();
    bits.insert("ro".to_string(), vec![false, true]);
    let d = dispatch_operation(&gate("CNOT", vec![0, 1]), 2, false, None, &bits).unwrap();
    assert!(matches!(d, Dispatch::ApplyGate { arity: GateArity::Two }));
    let e = dispatch_operation(&gate("CNOT", vec![0, 2]), 2, false, None, &bits);
    assert!(matches!(e, Err(BackendError::QubitOutOfRange { qubit: 2, number_qubits: 2 })));
    let e = dispatch_operation(&gate("RotateZ", vec![0]), 2, false, Some(false), &bits);
    assert!(matches!(e, Err(BackendError::DeviceUnavailable { .. })));
    let d = dispatch_operation(&noise("PragmaDamping", 5), 2, true, None, &bits).unwrap();
    assert!(matches!(d, Dispatch::Skip));
    let e = dispatch_operation(&get_state_vector("ro"), 2, true, None, &bits);
    assert!(matches!(e, Err(BackendError::StateVectorDensityMismatch)));
    let e = dispatch_operation(
        &op(OperationKind::PragmaGeneralNoise, InvolvedQubits::Qubits(vec![0])),
        2,
        false,
        None,
        &bits,
    );
    assert!(matches!(e, Err(BackendError::StateVectorDensityMismatch)));
    let sleep = op(OperationKind::Other { name: "PragmaSleep".to_string() }, InvolvedQubits::All);
    assert!(matches!(dispatch_operation(&sleep, 2, false, None, &bits), Ok(Dispatch::Skip)));
    let unknown = op(OperationKind::Other { name: "Bogus".to_string() }, InvolvedQubits::All);
    assert!(matches!(
        dispatch_operation(&unknown, 2, false, None, &bits),
        Err(BackendError::OperationNotSupported { .. })
    ));
    let cond = |index: usize| {
        op(
            OperationKind::PragmaConditional {
                condition_register: "ro".to_string(),
                condition_index: index,
                circuit: vec![],
            },
            InvolvedQubits::Empty,
        )
    };
    assert!(matches!(dispatch_operation(&cond(0), 2, false, None, &bits), Ok(Dispatch::Skip)));
    assert!(matches!(
        dispatch_operation(&cond(1), 2, false, None, &bits),
        Ok(Dispatch::RunSubCircuit { times: 1 })
    ));
    assert!(matches!(
        dispatch_operation(&measure(0, "missing", 0), 2, false, None, &bits),
        Err(BackendError::RegisterNotFound { .. })
    ));
}

#[test]
fn test_readout_into_partial_register() {
    let backend = Backend::new(6, None);
    let circuit = vec![
        def_bit("ro_0", 6, true),
        gate("Hadamard", vec![0]),
        gate("Hadamard", vec![1]),
        gate("Hadamard", vec![2]),
        measure(0, "ro_0", 3),
        measure(1, "ro_0", 4),
        measure(1, "ro_0", 5),
        repeated("ro_0", 10, None),
    ];
    let plan = backend.prepare_run(&circuit).unwrap();
    assert!(matches!(plan.mode, MeasurementMode::FullReplay));
    assert_eq!(plan.repetitions, 10);
    let mut outputs: RegisterMap<Vec<Vec<bool>>> =
        new_output_registers(&circuit, RegisterKind::Bit);
    let name = "ro_0".to_string();
    for shot in 0..plan.repetitions {
        let mut internal: RegisterMap<Vec<bool>> = RegisterMap::new();
        roqoqo_quest::measurement::define_bit_register(&mut internal, &name, 6);
        // Any outcomes: the row shape does not depend on them.
        for (index, outcome) in [(3, shot % 2 == 0), (4, shot % 3 == 0), (5, true)] {
            roqoqo_quest::measurement::write_measurement(&mut internal, &name, index, outcome)
                .unwrap();
        }
        roqoqo_quest::registers::append_shot(&mut outputs, internal, None);
    }
    let rows = outputs.get(&name).unwrap();
    assert_eq!(rows.len(), 10);
    for bit_vec in rows {
        assert_eq!(bit_vec.len(), 6);
    }
}

#[test]
fn shot_steps_follow_the_mode() {
    let circuit = vec![def_bit("ro", 3, true), measure(0, "ro", 0), measure(1, "ro", 2), set_number(5, "ro")];
    let plan = Backend::new(3, None).prepare_run(&circuit).unwrap();
    let lengths = &plan.bit_register_lengths;
    assert!(matches!(shot_step(&circuit[1], &plan.mode, lengths), Ok(ShotStep::Skip)));
    assert!(matches!(shot_step(&circuit[2], &plan.mode, lengths), Ok(ShotStep::SampleReplaced)));
    assert!(matches!(shot_step(&circuit[0], &plan.mode, lengths), Ok(ShotStep::Dispatch)));
    let full = MeasurementMode::FullReplay;
    match shot_step(&repeated("ro", 4, Some(vec![(1, 2)])), &full, lengths) {
        Ok(ShotStep::MeasureEach { targets }) => assert_eq!(targets, vec![(0, 0), (1, 2), (2, 2)]),
        _ => panic!("expected single-qubit measurements"),
    }
    assert!(matches!(
        shot_step(&repeated("nope", 4, None), &full, lengths),
        Err(BackendError::RegisterNotFound { .. })
    ));
}

#[test]
fn repeated_measurement_count_overflow_is_an_error() {
    let circuit = vec![
        def_bit("ro", 1, true),
        measure(0, "ro", 0),
        gate("PauliX", vec![0]),
        set_number(usize::MAX, "ro"),
        op(OperationKind::PragmaRandomNoise, InvolvedQubits::Qubits(vec![0])),
    ];
    let res = Backend::new(1, None).set_repetitions(2).prepare_run(&circuit);
    assert!(matches!(res, Err(BackendError::RepetitionsOverflow { .. })));
}

#[test]
fn sampling_shortcut_runs_the_circuit_once() {
    let circuit = vec![def_bit("ro", 2, true), gate("Hadamard", vec![0]), measure(0, "ro", 0), measure(1, "ro", 1), set_number(10, "ro")];
    let plan = Backend::new(2, None).set_repetitions(10).prepare_run(&circuit).unwrap();
    assert!(matches!(plan.mode, MeasurementMode::SampledReplace { qubit_marker: 1, .. }));
    assert_eq!(plan.repetitions, 1);
}

#[test]
fn repetitions_count_only_for_stochastic_circuits() {
    let circuit = vec![def_bit("ro", 1, true), gate("Hadamard", vec![0]), measure(0, "ro", 0)];
    let plan = Backend::new(1, None).set_repetitions(10).prepare_run(&circuit).unwrap();
    assert_eq!(plan.repetitions, 1);
    let mut noisy = circuit;
    noisy.push(op(OperationKind::PragmaOverrotation, InvolvedQubits::Empty));
    let plan = Backend::new(1, None).set_repetitions(10).prepare_run(&noisy).unwrap();
    assert_eq!(plan.repetitions, 10);
}

#[test]
fn measuring_the_last_register_qubit_first_forces_replay() {
    // Qubit 3 lies in the range of the four-bit repeated measurement.
    let circuit = vec![def_bit("ro", 4, true), measure(3, "ro", 3), repeated("ro", 5, None)];
    let plan = Backend::new(4, None).prepare_run(&circuit).unwrap();
    assert!(matches!(plan.mode, MeasurementMode::FullReplay));
    assert_eq!(plan.repetitions, 5);
}

#[test]
fn dispatch_checks_own_qubits() {
    let bits: RegisterMap<Vec<bool>> = {
        let mut b = RegisterMap::new();
        b.insert("ro".to_string(), vec![false]);
        b
    };
    let hidden = op(
        OperationKind::MeasureQubit { qubit: 9, readout: "ro".to_string(), readout_index: 0 },
        InvolvedQubits::Empty,
    );
    assert!(matches!(
        dispatch_operation(&hidden, 2, false, None, &bits),
        Err(BackendError::QubitOutOfRange { qubit: 9, number_qubits: 2 })
    ));
    let reset = op(OperationKind::PragmaActiveReset { qubit: 4 }, InvolvedQubits::Qubits(vec![4]));
    assert!(matches!(
        dispatch_operation(&reset, 2, false, None, &bits),
        Err(BackendError::QubitOutOfRange { qubit: 4, number_qubits: 2 })
    ));
    let reset = op(OperationKind::PragmaActiveReset { qubit: 1 }, InvolvedQubits::Qubits(vec![1]));
    assert!(matches!(dispatch_operation(&reset, 2, false, None, &bits), Ok(Dispatch::ActiveReset)));
}
