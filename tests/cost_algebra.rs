use typos::distance::path::{PathMultiCost, MAX_DIMENSION};

fn cost(input: &[u8]) -> PathMultiCost {
    let mut data = [0u8; MAX_DIMENSION];
    for i in 0..input.len() {
        data[MAX_DIMENSION - i - 1] = input[input.len() - i - 1];
    }
    PathMultiCost { data }
}

#[test]
fn test_get_cost() {
    assert_eq!(cost(&[2]).get_cost(), vec![(2, 1)]);
    assert_eq!(cost(&[5, 3]).get_cost(), vec![(5, 2), (3, 1)]);
    assert_eq!(cost(&[1, 5, 3]).get_cost(), vec![(1, 3), (5, 2), (3, 1)])
}

#[test]
fn zero() {
    assert!(cost(&[0, 0, 0, 0, 0]).is_zero());
    assert!(!cost(&[0, 1, 0]).is_zero());
    assert!(!cost(&[1, 2, 3]).is_zero());
}

#[test]
fn equality() {
    assert_ne!(cost(&[1, 2, 3]), cost(&[0, 1, 0]));
    assert_eq!(cost(&[0, 1, 0]), cost(&[0, 1, 0]));
    assert_eq!(cost(&[1, 0]), cost(&[0, 0, 0, 1, 0]));
}

#[test]
fn zero_identity_element() {
    assert_eq!(PathMultiCost::zero() + cost(&[1, 2, 3]), cost(&[1, 2, 3]));
}

#[test]
fn sum_commutative() {
    assert_eq!(
        cost(&[1, 2, 3]) + cost(&[4, 5, 6]),
        cost(&[4, 5, 6]) + cost(&[1, 2, 3])
    );
}

#[test]
fn sum_associative() {
    assert_eq!(
        cost(&[1, 2, 3]) + (cost(&[4, 5, 6]) + cost(&[0, 1, 2])),
        (cost(&[1, 2, 3]) + cost(&[4, 5, 6])) + cost(&[0, 1, 2])
    );
}

#[test]
fn sum() {
    assert_eq!(cost(&[1]) + cost(&[2]), cost(&[3]));
    assert_eq!(cost(&[1, 0]) + cost(&[5, 0]), cost(&[6, 0]));
    assert_eq!(cost(&[1, 2, 3]) + cost(&[3, 2, 1]), cost(&[4, 4, 4]));
}

#[test]
fn ordering_prefer_high_dimension() {
    assert!(cost(&[0, 0, 2]) > cost(&[0, 0, 1]));
    assert!(cost(&[0, 2, 0]) > cost(&[0, 0, 5]));
    assert!(cost(&[3, 0, 0]) > cost(&[2, 71, 88]));
}

#[test]
fn subadditivity() {
    assert!(cost(&[3, 5, 4]) <= cost(&[2, 5, 4]) + cost(&[1, 5, 4]));
    assert!(cost(&[3, 5, 4]) <= cost(&[2, 3, 1]) + cost(&[1, 2, 3]));
}

#[test]
fn addition_saturates_per_bucket() {
    assert_eq!(cost(&[250, 7]) + cost(&[10, 1]), cost(&[255, 8]));
    assert_eq!(cost(&[255]) + cost(&[255]), cost(&[255]));
    assert_eq!(
        cost(&[255, 0]).saturating_add(cost(&[1, 3])).get_cost(),
        vec![(255, 2), (3, 1)]
    );
}

#[test]
fn new_places_value_in_its_bucket() {
    assert_eq!(PathMultiCost::new(4, 0).get_cost(), vec![(4, 1)]);
    assert_eq!(PathMultiCost::new(4, 2).get_cost(), vec![(4, 3)]);
    assert_eq!(PathMultiCost::new(1, MAX_DIMENSION - 1).get_cost(), vec![(1, MAX_DIMENSION)]);
    // Bucket indexes past the last one are clamped into it.
    assert_eq!(PathMultiCost::new(1, MAX_DIMENSION + 5), PathMultiCost::new(1, MAX_DIMENSION - 1));
    assert_eq!(PathMultiCost::new(0, 3), PathMultiCost::zero());
}

#[test]
fn zero_and_min_value() {
    assert!(PathMultiCost::zero().is_zero());
    assert_eq!(PathMultiCost::min_value(), PathMultiCost::zero());
    assert_eq!(PathMultiCost::zero().get_cost(), vec![]);
    assert!(cost(&[1]) + PathMultiCost::zero() == cost(&[1]));
}

#[test]
fn order_is_total_and_consistent() {
    let samples = [
        cost(&[]),
        cost(&[1]),
        cost(&[2]),
        cost(&[1, 0]),
        cost(&[0, 9]),
        cost(&[3, 0, 0]),
        cost(&[2, 71, 88]),
        cost(&[255, 255, 255]),
    ];
    for a in samples.iter() {
        assert!(a.le(a));
        assert!(!a.lt(a));
        for b in samples.iter() {
            assert!(a.le(b) || b.le(a));
            assert_eq!(a.lt(b), b.compare(a) == std::cmp::Ordering::Greater);
            assert_eq!(a.partial_cmp(b), Some(a.compare(b)));
            assert_eq!(a.cmp(b), a.compare(b));
            if a.le(b) && b.le(a) {
                assert_eq!(a, b);
            }
            for c in samples.iter() {
                if a.le(b) && b.le(c) {
                    assert!(a.le(c));
                }
            }
        }
    }
}

#[test]
fn addition_is_monotone_without_saturation() {
    let a = cost(&[1, 200, 3]);
    let b = cost(&[2, 0, 0]);
    let c = cost(&[4, 50, 9]);
    assert!(a <= b);
    assert!(a + c <= b + c);
    assert!(c + a <= c + b);
}

#[test]
fn saturation_can_break_monotony() {
    // a < b, yet a + c > b + c once the top buckets saturate.
    let a = cost(&[254, 5]);
    let b = cost(&[255, 0]);
    let c = cost(&[1, 0]);
    assert!(a < b);
    assert!(a + c > b + c);
}
