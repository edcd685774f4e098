use param_solver::matching::find_perfect_matching;
use param_solver::params::{DynamicsDerivedParams, N_UNKNOWNS};
use param_solver::pattern::{PatternEntry, SparsityPattern};

fn sample() -> DynamicsDerivedParams<f64> {
    DynamicsDerivedParams {
        air_drag_coeff: 0.2,
        air_thrust_max: 2252.1212,
        g: -9.81252,
        jump_vy_0: 5.235235,
        jump_boost_force: 50.235235,
        run_force_max: 30.235235,
        run_drag_coeff: 0.498797,
        sticky_glove_force: 200.986967,
    }
}

#[test]
fn structured_to_flat_roundtrip_is_identity() {
    let p = sample();
    let arr = p.to_arr();
    assert_eq!(arr.len(), N_UNKNOWNS);
    let q = DynamicsDerivedParams::from_arr(&arr);
    assert_eq!(arr, q.to_arr());
    assert_eq!(p.g, q.g);
    assert_eq!(p.air_drag_coeff, q.air_drag_coeff);
    assert_eq!(p.sticky_glove_force, q.sticky_glove_force);
}

#[test]
fn flat_to_structured_roundtrip_is_identity() {
    let arr: Vec<f64> = vec![1.0, 2.0, 3.0, 4.0, 5.0, 6.0, 7.0, 8.0];
    let p = DynamicsDerivedParams::from_arr(&arr);
    assert_eq!(p.to_arr(), arr);
}

#[test]
fn field_names_align_with_flat_order() {
    let names = DynamicsDerivedParams::<f64>::field_names();
    assert_eq!(names.len(), N_UNKNOWNS);
    assert_eq!(names[0], "air_drag_coeff");
    assert_eq!(names[2], "g");
    assert_eq!(names[7], "sticky_glove_force");
}

#[test]
fn matching_pairs_every_row_once() {
    let entries = vec![
        vec![PatternEntry::NonZero, PatternEntry::NonZero, PatternEntry::Zero],
        vec![PatternEntry::NonZero, PatternEntry::Zero, PatternEntry::Zero],
        vec![PatternEntry::Zero, PatternEntry::NonZero, PatternEntry::NonZero],
    ];
    let p = SparsityPattern::new(entries, 3).unwrap();
    let m = find_perfect_matching(&p).unwrap();
    assert_eq!(m.len(), 3);
    let mut cols = m.clone();
    cols.sort();
    assert_eq!(cols, vec![0, 1, 2]);
    // row 1 can only take column 0
    assert_eq!(m[1], 0);
}

#[test]
fn matching_reports_first_stuck_row() {
    let entries = vec![
        vec![PatternEntry::NonZero, PatternEntry::Zero],
        vec![PatternEntry::NonZero, PatternEntry::Zero],
    ];
    let p = SparsityPattern::new(entries, 2).unwrap();
    assert_eq!(find_perfect_matching(&p), Err(1));
}
