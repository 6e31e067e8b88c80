use wasm_audio::schedule::{plan_stage, Butterfly, Strategy};

fn bf(top: usize, bottom: usize, twiddle: usize) -> Butterfly {
    Butterfly { top, bottom, twiddle }
}

fn triples(n: usize, m: usize, strategy: Strategy) -> Vec<(usize, usize, usize)> {
    let plan = plan_stage(n, m, strategy);
    let mut v: Vec<(usize, usize, usize)> =
        plan.butterflies.iter().map(|b| (b.top, b.bottom, b.twiddle)).collect();
    v.sort();
    v
}

#[test]
fn scalar_first_stage_of_eight() {
    let plan = plan_stage(8, 2, Strategy::Scalar);
    assert_eq!(plan.width, 2);
    assert_eq!(plan.lanes, 1);
    assert_eq!(plan.butterflies, vec![bf(0, 1, 0), bf(2, 3, 0), bf(4, 5, 0), bf(6, 7, 0)]);
}

#[test]
fn scalar_last_stage_of_eight() {
    let plan = plan_stage(8, 8, Strategy::Scalar);
    assert_eq!(plan.butterflies, vec![bf(0, 4, 0), bf(1, 5, 1), bf(2, 6, 2), bf(3, 7, 3)]);
}

#[test]
fn cross_block_groups_four_blocks_per_index() {
    let plan = plan_stage(16, 4, Strategy::CrossBlock);
    assert_eq!(plan.lanes, 4);
    assert_eq!(
        plan.butterflies,
        vec![
            bf(0, 2, 0),
            bf(4, 6, 0),
            bf(8, 10, 0),
            bf(12, 14, 0),
            bf(1, 3, 1),
            bf(5, 7, 1),
            bf(9, 11, 1),
            bf(13, 15, 1),
        ]
    );
}

#[test]
fn cross_block_falls_back_with_fewer_than_four_blocks() {
    let plan = plan_stage(16, 8, Strategy::CrossBlock);
    assert_eq!(plan.lanes, 1);
    assert_eq!(plan.butterflies[0], bf(0, 4, 0));
    assert_eq!(plan.butterflies[4], bf(8, 12, 0));
}

#[test]
fn cross_index_groups_four_indices_of_a_block() {
    let plan = plan_stage(16, 8, Strategy::CrossIndex);
    assert_eq!(plan.lanes, 4);
    assert_eq!(
        plan.butterflies,
        vec![
            bf(0, 4, 0),
            bf(1, 5, 1),
            bf(2, 6, 2),
            bf(3, 7, 3),
            bf(8, 12, 0),
            bf(9, 13, 1),
            bf(10, 14, 2),
            bf(11, 15, 3),
        ]
    );
}

#[test]
fn cross_index_falls_back_on_narrow_stages() {
    assert_eq!(plan_stage(16, 4, Strategy::CrossIndex).lanes, 1);
    assert_eq!(plan_stage(2, 2, Strategy::CrossIndex).lanes, 1);
}

#[test]
fn every_strategy_runs_the_scalar_butterflies() {
    for &n in &[2usize, 4, 8, 16, 64, 1024] {
        let mut m = 2;
        while m <= n {
            let scalar = triples(n, m, Strategy::Scalar);
            assert_eq!(triples(n, m, Strategy::CrossBlock), scalar);
            assert_eq!(triples(n, m, Strategy::CrossIndex), scalar);
            m *= 2;
        }
    }
}

#[test]
fn every_index_is_touched_once_per_stage() {
    for &n in &[8usize, 64, 1024] {
        let mut m = 2;
        while m <= n {
            for strategy in [Strategy::Scalar, Strategy::CrossBlock, Strategy::CrossIndex] {
                let plan = plan_stage(n, m, strategy);
                let mut seen = vec![0u32; n];
                for b in &plan.butterflies {
                    seen[b.top] += 1;
                    seen[b.bottom] += 1;
                }
                assert!(seen.iter().all(|&c| c == 1));
                assert_eq!(plan.butterflies.len() % plan.lanes, 0);
            }
            m *= 2;
        }
    }
}
