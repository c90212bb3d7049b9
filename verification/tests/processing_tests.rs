use unispec::data_processing::{fit_parameter_names, step_background_plan, DataError, StepBackground};

#[test]
fn names_for_two_peaks() {
    let names = fit_parameter_names(2, 2).unwrap();
    assert_eq!(names, vec!["mu1", "sigma1", "mu2", "sigma2"]);
}

#[test]
fn names_count_past_nine() {
    let names = fit_parameter_names(11, 11).unwrap();
    assert_eq!(names.len(), 22);
    assert_eq!(names[18], "mu10");
    assert_eq!(names[21], "sigma11");
}

#[test]
fn no_peaks_no_names() {
    assert_eq!(fit_parameter_names(0, 0).unwrap(), Vec::<String>::new());
}

#[test]
fn peak_count_mismatch_is_refused() {
    assert!(matches!(fit_parameter_names(2, 3), Err(DataError::FittingSizeError)));
    assert!(matches!(fit_parameter_names(1, 0), Err(DataError::FittingSizeError)));
}

#[test]
fn short_region_is_flat() {
    assert_eq!(step_background_plan(&[7]), StepBackground::Flat(7));
    assert_eq!(step_background_plan(&[9, 1, 2, 3, 4, 5, 6, 7, 8]), StepBackground::Flat(9));
}

#[test]
fn long_region_uses_end_sums() {
    let data = [1, 2, 3, 4, 5, 100, 100, 10, 20, 30, 40, 50];
    assert_eq!(
        step_background_plan(&data),
        StepBackground::Sloped { head_sum: 15, tail_sum: 150 }
    );
}

#[test]
fn end_sums_do_not_overflow() {
    let data = [u32::MAX; 10];
    let m = u32::MAX as u64 * 5;
    assert_eq!(step_background_plan(&data), StepBackground::Sloped { head_sum: m, tail_sum: m });
}
