use saccade::workload::{
    bp_add, bp_mul, phase_label, run_branch_mispredict, run_cache_thrash, run_int_div,
    run_mem_stream, run_tlb_thrash, validate, xorshift64, BranchMispredict, CacheThrash, IntDiv,
    MemStream, Phase, PhaseKind, TlbThrash, WorkloadConfig,
};

fn phase(duration_secs: u64, threads: usize, kind: PhaseKind) -> Phase {
    Phase {
        duration_secs,
        threads,
        kind,
    }
}

fn complaint(phases: Vec<Phase>) -> String {
    validate(&WorkloadConfig { phases }).err().unwrap()
}

#[test]
fn every_zero_is_complained_about() {
    assert_eq!(complaint(vec![]), "phases must not be empty");
    let fine = || phase(1, 1, PhaseKind::IntDiv { divisor_range: 5 });
    assert_eq!(
        complaint(vec![fine(), phase(0, 1, PhaseKind::IntDiv { divisor_range: 5 })]),
        "phase 1: duration_secs must be > 0"
    );
    assert_eq!(
        complaint(vec![phase(1, 0, PhaseKind::IntDiv { divisor_range: 5 })]),
        "phase 0: threads must be > 0"
    );
    let sizes = vec![
        (PhaseKind::CacheThrash { array_size_kb: 0 }, "array_size_kb"),
        (PhaseKind::FpHeavy { vector_size: 0 }, "vector_size"),
        (PhaseKind::BranchMispredict { array_size: 0 }, "array_size"),
        (PhaseKind::TlbThrash { num_pages: 0 }, "num_pages"),
        (PhaseKind::MemStream { buffer_size_mb: 0 }, "buffer_size_mb"),
        (PhaseKind::IntDiv { divisor_range: 0 }, "divisor_range"),
    ];
    for (kind, name) in sizes {
        assert_eq!(
            complaint(vec![phase(1, 1, kind)]),
            format!("phase 0: {name} must be > 0")
        );
    }
    assert!(validate(&WorkloadConfig { phases: vec![fine()] }).is_ok());
}

#[test]
fn labels_say_what_a_phase_does() {
    assert_eq!(
        phase_label(&phase(3, 2, PhaseKind::CacheThrash { array_size_kb: 64 })),
        "cache_thrash: array_size_kb=64, duration_secs=3, threads=2"
    );
    assert_eq!(
        phase_label(&phase(1, 1, PhaseKind::BranchMispredict { array_size: 9 })),
        "branch_mispredict: batch_size=9, duration_secs=1, threads=1"
    );
    assert_eq!(
        phase_label(&phase(1, 1, PhaseKind::FpHeavy { vector_size: 9 })),
        "fp_heavy: vector_size=9, duration_secs=1, threads=1"
    );
}

#[test]
fn the_generator_follows_its_formula() {
    let mut state = 1u64;
    assert_eq!(xorshift64(&mut state), 1082269761);
    assert_eq!(state, 1082269761);
    for _ in 0..1000 {
        assert_ne!(xorshift64(&mut state), 0);
    }
    assert_eq!(bp_add(u64::MAX, 2), 1);
    assert_eq!(bp_mul(3, 4), 15);
}

#[test]
fn random_accesses_count_each_read() {
    let mut k = CacheThrash::new(1);
    assert_eq!(k.data.len(), 128);
    run_cache_thrash(&mut k, 100);
    let extra: u64 = k.data.iter().enumerate().map(|(i, v)| v - i as u64).sum();
    assert_eq!(extra, 100);
}

#[test]
fn branches_take_every_value_in() {
    let mut k = BranchMispredict::new();
    let mut rng = 0xdeadbeefu64;
    let mut sum = 1u64;
    for _ in 0..50 {
        let val = xorshift64(&mut rng);
        sum = if val & 128 != 0 {
            sum.wrapping_add(val)
        } else {
            sum.wrapping_mul(val | 1)
        };
    }
    run_branch_mispredict(&mut k, 20);
    run_branch_mispredict(&mut k, 30);
    assert_eq!((k.rng, k.sum), (rng, sum));
}

#[test]
fn every_page_is_visited_once_per_pass() {
    let mut k = TlbThrash::new(5);
    let mut order = k.page_order.clone();
    order.sort();
    assert_eq!(order, vec![0, 1, 2, 3, 4]);
    let before: Vec<u8> = (0..5).map(|p| k.data[p * 4096]).collect();
    run_tlb_thrash(&mut k);
    for p in 0..5 {
        assert_eq!(k.data[p * 4096], before[p].wrapping_add(1));
    }
    assert_eq!(k.sum, before.iter().map(|&b| b as u64).sum::<u64>());
    assert!(TlbThrash::new(0).page_order.is_empty());
}

#[test]
fn streams_leave_running_sums() {
    let mut k = MemStream {
        data: vec![1, 2, 3],
        sum: 10,
    };
    run_mem_stream(&mut k);
    assert_eq!(k.data, vec![11, 13, 16]);
    assert_eq!(k.sum, 16);
    assert!(MemStream::new(0).data.is_empty());
}

#[test]
fn divisions_add_quotients_and_remainders() {
    let mut k = IntDiv::new(10);
    assert!(k.divisors.iter().all(|&d| d >= 1 && d <= 10));
    let first = 0xcafebabeu64.wrapping_mul(6364136223846793005).wrapping_add(1);
    let d = k.divisors[0];
    run_int_div(&mut k, 1);
    assert_eq!(k.dividend, first);
    assert_eq!(k.sum, (first / d).wrapping_add(first % d));
    run_int_div(&mut k, 2000);
    assert_eq!(k.iter, 2001);
}
