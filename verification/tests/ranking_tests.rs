use vectordb_rust::ranking::{order_by_distance, rank_of};

fn bits(v: &[f32]) -> Vec<u32> {
    v.iter().map(|x| x.to_bits()).collect()
}

#[test]
fn ranks_of_chosen_numbers() {
    assert_eq!(rank_of(0.0f32.to_bits()), 0);
    assert_eq!(rank_of((-0.0f32).to_bits()), 0);
    assert_eq!(rank_of(1.0f32.to_bits()), 0x3f80_0000);
    assert_eq!(rank_of((-1.0f32).to_bits()), -0x3f80_0000);
    assert_eq!(rank_of(f32::INFINITY.to_bits()), 0x7f80_0000);
    assert_eq!(rank_of(f32::NEG_INFINITY.to_bits()), -0x7f80_0000);
    assert_eq!(rank_of(f32::NAN.to_bits()), 0x7f80_0001);
    assert_eq!(rank_of(0xffff_ffff), 0x7f80_0001);
    assert_eq!(rank_of(1), 1);
    assert_eq!(rank_of(0x8000_0001), -1);
}

#[test]
fn ranks_follow_the_numbers() {
    let numbers = [
        f32::NEG_INFINITY,
        -3.5e20,
        -2.0,
        -1.0,
        -1e-20,
        -f32::MIN_POSITIVE / 2.0,
        0.0,
        f32::MIN_POSITIVE / 2.0,
        1e-20,
        0.1,
        1.0,
        1.0000001,
        2.0,
        3.5e20,
        f32::INFINITY,
    ];
    for i in 0..numbers.len() {
        for j in 0..numbers.len() {
            let a = rank_of(numbers[i].to_bits());
            let b = rank_of(numbers[j].to_bits());
            assert_eq!(a < b, numbers[i] < numbers[j]);
            assert_eq!(a == b, numbers[i] == numbers[j]);
        }
        assert!(rank_of(numbers[i].to_bits()) < rank_of(f32::NAN.to_bits()));
    }
}

#[test]
fn order_is_ascending_and_stable() {
    assert_eq!(order_by_distance(&Vec::new()), Vec::<usize>::new());
    assert_eq!(order_by_distance(&bits(&[0.5])), vec![0]);
    assert_eq!(order_by_distance(&bits(&[0.5, 0.1, 0.9, 0.1, -0.2])), vec![4, 1, 3, 0, 2]);
    assert_eq!(order_by_distance(&bits(&[1.0, 1.0, 1.0])), vec![0, 1, 2]);
    assert_eq!(order_by_distance(&bits(&[0.0, -0.0, 0.0])), vec![0, 1, 2]);
    assert_eq!(
        order_by_distance(&bits(&[f32::NAN, 2.0, f32::INFINITY, f32::NAN, f32::NEG_INFINITY])),
        vec![4, 1, 2, 0, 3]
    );
}

#[test]
fn order_of_many_distances() {
    let mut state: u64 = 11;
    let values: Vec<f32> = (0..500)
        .map(|_| {
            state = state.wrapping_mul(6364136223846793005).wrapping_add(1442695040888963407);
            ((state >> 40) % 64) as f32 / 8.0 - 4.0
        })
        .collect();
    let order = order_by_distance(&bits(&values));
    assert_eq!(order.len(), 500);
    let mut seen = vec![false; 500];
    for p in &order {
        assert!(!seen[*p]);
        seen[*p] = true;
    }
    for w in order.windows(2) {
        assert!(values[w[0]] < values[w[1]] || (values[w[0]] == values[w[1]] && w[0] < w[1]));
    }
}
