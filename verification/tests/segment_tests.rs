use chunker::assigner::DummyAssigner;
use chunker::element::Element;
use chunker::hashing::HASH_LENGTH;
use chunker::script::Op;
use chunker::script::Script;
use chunker::script::execute_script_with_inputs;
use chunker::segment::Hint;
use chunker::segment::Segment;

fn bytes_elem(vals: &[u8]) -> Vec<Vec<u8>> {
    vals.iter().map(|b| vec![*b]).collect()
}

fn pop_script(n: usize) -> Script {
    let mut s = Script::new();
    for _ in 0..n {
        s.push_op(Op::Pop);
    }
    s
}

#[test]
fn test_segment_by_simple_case() {
    let assigner = DummyAssigner::new();

    let mut a0 = Element::new("a0".to_string(), 6);
    a0.fill_with_data(bytes_elem(&[1, 0, 0, 0, 0, 0]));

    let segment = Segment::new(Script::new()).add_parameter(&a0).add_result(&a0);

    let script = segment.script(&assigner);
    let witness = segment.witness(&assigner);

    println!("witnesss needs stack {}", witness.len());
    println!(
        "element witnesss needs stack {}",
        a0.to_witness().unwrap().len()
    );

    let res = execute_script_with_inputs(&script, &witness);
    println!("res.success {}", res.success);
    println!("res.stack len {}", res.final_stack.len());
    println!("res: {:?}", res);

    assert!(!res.aborted);
    assert_eq!(res.final_stack, vec![vec![0u8]]);
    assert!(!res.success);
}

#[test]
fn test_segment_by_proof_case() {
    let assigner = DummyAssigner::new();

    let mut a0 = Element::new("scalar_1".to_string(), 54);
    a0.fill_with_data(bytes_elem(&[7; 54]));

    let mut a1 = Element::new("a0".to_string(), 4);
    a1.fill_with_data(bytes_elem(&[9, 8, 7, 6]));

    let segment = Segment::new(pop_script(54))
        .add_parameter(&a1)
        .add_parameter(&a0)
        .add_result(&a1);

    let script = segment.script(&assigner);
    let witness = segment.witness(&assigner);

    println!("witnesss needs stack {}", witness.len());
    println!(
        "element witnesss needs stack {}",
        a0.to_witness().unwrap().len()
    );

    let res = execute_script_with_inputs(&script, &witness);
    println!("res.success {}", res.success);
    println!("res.stack len {}", res.final_stack.len());
    println!("res: {:?}", res);

    assert!(!res.aborted);
    assert_eq!(res.final_stack, vec![vec![0u8]]);
}

#[test]
fn test_sgement_by_point_case() {
    let assigner = DummyAssigner::new();

    let x: Vec<Vec<u8>> = bytes_elem(&[3, 1, 4, 1, 5, 9, 2, 6]);

    let mut q4 = Element::new("q4".to_string(), 8);
    q4.fill_with_data(x.clone());

    let mut t4 = Element::new("t4_init".to_string(), 8);
    t4.fill_with_data(x);

    let segment = Segment::new_with_name("copy_q4_to_t4".into(), Script::new())
        .add_parameter(&q4)
        .add_result(&t4);

    let script = segment.script(&assigner);
    let witness = segment.witness(&assigner);

    println!("witnesss needs stack {}", witness.len());

    let res = execute_script_with_inputs(&script, &witness);
    println!("res.success {}", res.success);
    println!("res.stack len {}", res.final_stack.len());
    println!("res: {:?}", res);

    assert!(!res.aborted);
    assert_eq!(res.final_stack, vec![vec![0u8]]);
}

// Pairing and honesty: an honest end-to-end run terminates, leaves exactly
// one stack value, and that value is the no-fault marker.
#[test]
fn test_honest_run_leaves_no_fault() {
    let assigner = DummyAssigner::new();
    let mut p = Element::new("left".to_string(), 3);
    p.fill_with_data(bytes_elem(&[10, 20, 30]));

    let segment = Segment::new(Script::new()).add_parameter(&p).add_result(&p);
    let script = segment.script(&assigner);
    let witness = segment.witness(&assigner);

    let res = execute_script_with_inputs(&script, &witness);
    assert!(!res.aborted);
    assert_eq!(res.final_stack.len(), 1);
    assert_eq!(res.final_stack[0], vec![0u8]);
    assert_eq!(res.alt_stack.len(), 0);
}

// Fraud sensitivity: flipping one byte of the committed result's opening
// witness flips the outcome to the fault marker, without an abort.
#[test]
fn test_flipped_result_opening_leaves_fault() {
    let assigner = DummyAssigner::new();
    let mut p = Element::new("left".to_string(), 3);
    p.fill_with_data(bytes_elem(&[10, 20, 30]));

    let segment = Segment::new(Script::new()).add_parameter(&p).add_result(&p);
    let script = segment.script(&assigner);
    let mut witness = segment.witness(&assigner);

    // The result opening is the last hash-length witness items.
    let last = witness.len() - 1;
    witness[last][0] ^= 1;

    let res = execute_script_with_inputs(&script, &witness);
    assert!(!res.aborted);
    assert_eq!(res.final_stack, vec![vec![1u8]]);
    assert!(res.success);
}

// The flip is detected in any result, not only the first.
#[test]
fn test_flipped_second_result_leaves_fault() {
    let assigner = DummyAssigner::new();
    let mut p = Element::new("in".to_string(), 2);
    p.fill_with_data(bytes_elem(&[1, 2]));
    let mut r0 = Element::new("out0".to_string(), 1);
    r0.fill_with_data(bytes_elem(&[1]));
    let mut r1 = Element::new("out1".to_string(), 1);
    r1.fill_with_data(bytes_elem(&[2]));

    // The inner program splits the two-element parameter into the two
    // one-element results, which it leaves in place.
    let segment = Segment::new(Script::new())
        .add_parameter(&p)
        .add_result(&r0)
        .add_result(&r1);
    let script = segment.script(&assigner);
    let honest = segment.witness(&assigner);

    // Corrupt one byte inside the first result's opening: the openings sit
    // as [param(20), r0(20), r1(20)] at the tail of the witness.
    let mut witness = honest.clone();
    let r0_start = witness.len() - 2 * HASH_LENGTH;
    witness[r0_start][0] ^= 1;
    let res = execute_script_with_inputs(&script, &witness);
    assert!(!res.aborted);
    assert_eq!(res.final_stack, vec![vec![1u8]]);

    // And inside the second result's opening as well.
    let mut witness2 = honest.clone();
    let r1_start = witness2.len() - HASH_LENGTH;
    witness2[r1_start][0] ^= 1;
    let res2 = execute_script_with_inputs(&script, &witness2);
    assert!(!res2.aborted);
    assert_eq!(res2.final_stack, vec![vec![1u8]]);

    // Untouched, the same segment is honest.
    let res3 = execute_script_with_inputs(&script, &honest);
    assert!(!res3.aborted);
    assert_eq!(res3.final_stack, vec![vec![0u8]]);
}

// Direct-reveal bypass: a direct-reveal parameter is compared raw, so
// corrupting one byte of its raw witness aborts the execution even though
// no result was touched.
#[test]
fn test_corrupt_direct_reveal_aborts() {
    let assigner = DummyAssigner::new();
    let mut p = Element::new("scalar_1".to_string(), 3);
    p.fill_with_data(bytes_elem(&[10, 20, 30]));
    let mut r = Element::new("out".to_string(), 3);
    r.fill_with_data(bytes_elem(&[10, 20, 30]));

    let segment = Segment::new(Script::new()).add_parameter(&p).add_result(&r);
    let script = segment.script(&assigner);
    let mut witness = segment.witness(&assigner);

    // The raw value region leads the witness (there are no hints).
    witness[0][0] ^= 1;

    let res = execute_script_with_inputs(&script, &witness);
    assert!(res.aborted);
    assert!(!res.success);
}

// Order sensitivity: parameter insertion order is part of the segment's
// identity.  A witness built for one order fails against bytecode compiled
// for the reversed order, and vice versa.
#[test]
fn test_order_sensitivity() {
    let assigner = DummyAssigner::new();
    let mut p = Element::new("small".to_string(), 3);
    p.fill_with_data(bytes_elem(&[1, 2, 3]));
    let mut q = Element::new("large".to_string(), 5);
    q.fill_with_data(bytes_elem(&[4, 5, 6, 7, 8]));
    let mut r = Element::new("res".to_string(), 1);
    r.fill_with_data(bytes_elem(&[9]));

    let fwd = Segment::new(pop_script(7))
        .add_parameter(&p)
        .add_parameter(&q)
        .add_result(&r);
    let rev = Segment::new(pop_script(7))
        .add_parameter(&q)
        .add_parameter(&p)
        .add_result(&r);

    let script_fwd = fwd.script(&assigner);
    let script_rev = rev.script(&assigner);
    assert_ne!(script_fwd, script_rev);

    let witness_fwd = fwd.witness(&assigner);
    let witness_rev = rev.witness(&assigner);

    let cross1 = execute_script_with_inputs(&script_fwd, &witness_rev);
    assert!(cross1.aborted);
    let cross2 = execute_script_with_inputs(&script_rev, &witness_fwd);
    assert!(cross2.aborted);

    // Each order works with its own witness.
    let own = execute_script_with_inputs(&script_fwd, &witness_fwd);
    assert!(!own.aborted);
}

// Idempotence: compiling or witnessing the same segment twice against the
// same capability state yields byte-identical output.
#[test]
fn test_idempotence() {
    let assigner = DummyAssigner::new();
    let mut p = Element::new("v".to_string(), 2);
    p.fill_with_data(bytes_elem(&[11, 22]));

    let segment = Segment::new(pop_script(0)).add_parameter(&p).add_result(&p);
    let s1 = segment.script(&assigner);
    let s2 = segment.script(&assigner);
    assert_eq!(s1, s2);

    let w1 = segment.witness(&assigner);
    let w2 = segment.witness(&assigner);
    assert_eq!(w1, w2);
}

// Hints are evaluated through the interpreter and lead the witness; the
// inner program consumes them.
#[test]
fn test_hints_lead_the_witness() {
    let assigner = DummyAssigner::new();
    let mut p = Element::new("v".to_string(), 1);
    p.fill_with_data(bytes_elem(&[42]));

    // Park the value, drop both hint elements, bring the value back.
    let mut inner = Script::new();
    inner.push_op(Op::ToAlt(1));
    inner.push_op(Op::Pop);
    inner.push_op(Op::Pop);
    inner.push_op(Op::FromAlt(1));

    let segment = Segment::new(inner)
        .add_parameter(&p)
        .add_result(&p)
        .add_hint(vec![Hint::new(bytes_elem(&[7])), Hint::new(bytes_elem(&[9]))]);

    let witness = segment.witness(&assigner);
    assert_eq!(witness[0], vec![7u8]);
    assert_eq!(witness[1], vec![9u8]);

    let script = segment.script(&assigner);
    let res = execute_script_with_inputs(&script, &witness);
    assert!(!res.aborted);
    assert_eq!(res.final_stack, vec![vec![0u8]]);
}

// A terminal segment omits the fraud-detection gadget: both hash families
// stay on the main stack.
#[test]
fn test_terminal_segment_omits_gadget() {
    let assigner = DummyAssigner::new();
    let mut p = Element::new("v".to_string(), 1);
    p.fill_with_data(bytes_elem(&[5]));

    let segment = Segment::new(Script::new())
        .add_parameter(&p)
        .add_result(&p)
        .mark_final();
    assert!(segment.is_final());

    let script = segment.script(&assigner);
    let witness = segment.witness(&assigner);
    let res = execute_script_with_inputs(&script, &witness);
    assert!(!res.aborted);
    assert_eq!(res.final_stack.len(), 2 * HASH_LENGTH);
}

// A segment with no parameters, results or hints compiles to the bare
// gadget on empty families and leaves the no-fault marker.
#[test]
fn test_empty_segment() {
    let assigner = DummyAssigner::new();
    let segment = Segment::new(Script::new());
    let script = segment.script(&assigner);
    let witness = segment.witness(&assigner);
    assert_eq!(witness.len(), 0);
    let res = execute_script_with_inputs(&script, &witness);
    assert!(!res.aborted);
    assert_eq!(res.final_stack, vec![vec![0u8]]);
}

// Element accessors and the unpopulated state.
#[test]
fn test_element_accessors() {
    let mut e = Element::new("scalar_2".to_string(), 2);
    assert_eq!(e.id(), "scalar_2");
    assert_eq!(e.witness_size(), 2);
    assert!(e.to_witness().is_none());
    e.fill_with_data(bytes_elem(&[1, 2]));
    assert_eq!(e.to_witness().unwrap(), bytes_elem(&[1, 2]));
}

// The hash primitive: fixed output length and exact values on the smallest
// inputs (an empty input leaves the all-zero state; a single zero byte
// mixes into the first state byte only).
#[test]
fn test_hash_exact_values() {
    let empty: Vec<u8> = Vec::new();
    let h0 = chunker::hashing::hash_bytes(&empty);
    assert_eq!(h0, vec![0u8; HASH_LENGTH]);

    let one = vec![0u8];
    let h1 = chunker::hashing::hash_bytes(&one);
    let mut expect = vec![0u8; HASH_LENGTH];
    expect[0] = 1;
    assert_eq!(h1, expect);

    let h2 = chunker::hashing::hash_bytes(&one);
    assert_eq!(h1, h2);
}
