use typos::distance::path::{PathMultiCost, MAX_DIMENSION};
use typos::distance::word::{
    distance_cost_from_distance, edit_distance, path_cost, step_cost_from_distance,
};

#[test]
fn triangular_inequality_not_true() {
    assert!(path_cost("adrien", "adri") + path_cost("adri", "adr") < path_cost("adrien", "adr"));
}

#[test]
fn heuristic_property_is_admissible() {
    assert!(path_cost("adrien", "adri") >= edit_distance("adrien", "adri"));
    assert!(path_cost("adrien", "adri") + path_cost("adri", "adr") >= edit_distance("adrien", "adri"));
    assert_eq!(path_cost("adrien", "adrien"), edit_distance("adrien", "adrien"));
}

#[test]
fn edit_distance_counts_letter_changes() {
    assert_eq!(edit_distance("kitten", "sitting").get_cost(), vec![(3, 1)]);
    assert_eq!(edit_distance("banane", "banana").get_cost(), vec![(1, 1)]);
    assert!(edit_distance("same", "same").is_zero());
}

#[test]
fn edit_distance_is_clamped_below_the_bucket_count() {
    let long = "abcdefghijklmnopqrstuvwxyz";
    assert_eq!(edit_distance(long, "").get_cost(), vec![(19, 1)]);
    assert_eq!(distance_cost_from_distance(300).get_cost(), vec![(19, 1)]);
    assert_eq!(distance_cost_from_distance(7).get_cost(), vec![(7, 1)]);
}

#[test]
fn step_cost_records_one_edit_of_its_size() {
    assert!(path_cost("lit", "lit").is_zero());
    assert_eq!(path_cost("banane", "banana").get_cost(), vec![(1, 1)]);
    assert_eq!(path_cost("adrien", "adr").get_cost(), vec![(1, 3)]);
    assert_eq!(step_cost_from_distance(0), PathMultiCost::zero());
    assert_eq!(step_cost_from_distance(2).get_cost(), vec![(1, 2)]);
    assert_eq!(step_cost_from_distance(MAX_DIMENSION).get_cost(), vec![(1, MAX_DIMENSION)]);
    assert_eq!(step_cost_from_distance(1000).get_cost(), vec![(1, MAX_DIMENSION)]);
}

#[test]
fn edit_distance_keeps_the_triangle_inequality() {
    let words = ["adrien", "adri", "adr", "banane", "ano", "", "table"];
    for a in words.iter() {
        for b in words.iter() {
            assert!(path_cost(a, b) >= edit_distance(a, b));
            for c in words.iter() {
                assert!(edit_distance(a, b) + edit_distance(b, c) >= edit_distance(a, c));
            }
        }
    }
}
