use temperature_fit::fit::{FitError, LinearFit, Ratio};
use temperature_fit::least_squares_approximation::least_squares_approximation;
use temperature_fit::piece_wise_linear_interpolation::piece_wise_linear_interpolation;
use temperature_fit::series::{build_series, Series, CORE_COUNT};
use temperature_fit::temperature_parser::{parse_line, parse_lines, TemperatureLine};

fn value(r: Ratio) -> f64 {
    r.num as f64 / r.den as f64
}

fn lines(text: &[&str]) -> Vec<String> {
    text.iter().map(|s| s.to_string()).collect()
}

fn run(text: &[&str]) -> (Series, Vec<(Result<Vec<LinearFit>, FitError>, Result<LinearFit, FitError>)>) {
    let samples: Vec<TemperatureLine> = parse_lines(&lines(text));
    let series = build_series(&samples, CORE_COUNT);
    let fits = series
        .channels
        .iter()
        .map(|values| {
            (
                piece_wise_linear_interpolation(&series.times, values),
                least_squares_approximation(&series.times, values),
            )
        })
        .collect();
    (series, fits)
}

#[test]
fn parses_space_separated_readings() {
    assert_eq!(parse_line(0, "10 20 30 40").readings, vec![10, 20, 30, 40]);
}

#[test]
fn drops_non_numeric_tokens() {
    assert_eq!(parse_line(0, "abc 10 def 20").readings, vec![10, 20]);
}

#[test]
fn empty_line_has_no_readings() {
    assert_eq!(parse_line(0, "").readings, Vec::<u32>::new());
    assert_eq!(parse_line(3, "   \t ").readings, Vec::<u32>::new());
}

#[test]
fn any_non_digit_separates_runs() {
    let line = parse_line(0, "+61.0°C  +63°C,50;58");
    assert_eq!(line.readings, vec![61, 0, 63, 50, 58]);
    assert_eq!(parse_line(0, "007x0").readings, vec![7, 0]);
}

#[test]
fn run_too_large_for_a_reading_is_dropped() {
    assert_eq!(parse_line(0, "4294967295 4294967296 5").readings, vec![4294967295, 5]);
    assert_eq!(parse_line(0, "99999999999999999999999999 12").readings, vec![12]);
}

#[test]
fn time_step_is_thirty_seconds_per_line() {
    let samples = parse_lines(&lines(&["1 2 3 4", "", "garbage", "5 6 7 8 9"]));
    assert_eq!(samples.len(), 4);
    for (i, s) in samples.iter().enumerate() {
        assert_eq!(s.time_step, i as u64 * 30);
    }
    assert_eq!(parse_line(7, "x").time_step, 210);
}

#[test]
fn incomplete_line_is_excluded_and_reported_once() {
    let samples = parse_lines(&lines(&["1 2 3 4", "5 6 7", "9 10 11 12 13"]));
    let series = build_series(&samples, CORE_COUNT);
    assert_eq!(series.incomplete, vec![1]);
    assert_eq!(series.times, vec![0, 60]);
    assert_eq!(series.channels.len(), 4);
    assert_eq!(series.channels[0], vec![1, 9]);
    assert_eq!(series.channels[1], vec![2, 10]);
    assert_eq!(series.channels[2], vec![3, 11]);
    assert_eq!(series.channels[3], vec![4, 12]);
}

#[test]
fn piecewise_segments_of_three_points() {
    let segs = piece_wise_linear_interpolation(&vec![0, 30, 60], &vec![10, 20, 15]).unwrap();
    assert_eq!(segs.len(), 2);
    assert_eq!((segs[0].x_lo, segs[0].x_hi), (0, 30));
    assert_eq!(segs[0].slope, Ratio { num: 10, den: 30 });
    assert_eq!(segs[0].intercept, Ratio { num: 300, den: 30 });
    assert!((value(segs[0].slope) - 0.3333).abs() < 1e-4);
    assert!((value(segs[0].intercept) - 10.0).abs() < 1e-12);
    assert_eq!((segs[1].x_lo, segs[1].x_hi), (30, 60));
    assert!((value(segs[1].slope) + 0.1667).abs() < 1e-4);
    assert!((value(segs[1].intercept) - 25.0).abs() < 1e-12);
}

#[test]
fn piecewise_with_fewer_than_two_points_is_empty() {
    assert_eq!(piece_wise_linear_interpolation(&vec![], &vec![]), Ok(vec![]));
    assert_eq!(piece_wise_linear_interpolation(&vec![5], &vec![7]), Ok(vec![]));
}

#[test]
fn piecewise_zero_interval_is_an_error() {
    assert_eq!(
        piece_wise_linear_interpolation(&vec![10, 10], &vec![1, 2]),
        Err(FitError::ZeroInterval)
    );
    assert_eq!(
        piece_wise_linear_interpolation(&vec![0, 30, 30], &vec![1, 2, 3]),
        Err(FitError::ZeroInterval)
    );
}

#[test]
fn least_squares_recovers_a_line() {
    let fit = least_squares_approximation(&vec![0, 30, 60], &vec![10, 20, 30]).unwrap();
    assert_eq!((fit.x_lo, fit.x_hi), (0, 60));
    assert_eq!(fit.slope, Ratio { num: 1800, den: 5400 });
    assert_eq!(fit.intercept, Ratio { num: 54000, den: 5400 });
    assert!((value(fit.slope) - 1.0 / 3.0).abs() < 1e-12);
    assert!((value(fit.intercept) - 10.0).abs() < 1e-12);
}

#[test]
fn least_squares_of_scattered_points() {
    // Sx = 90, Sy = 45, Sxx = 4500, Sxy = 1500, det = 5400
    let fit = least_squares_approximation(&vec![0, 30, 60], &vec![10, 20, 15]).unwrap();
    assert_eq!(fit.slope, Ratio { num: 450, den: 5400 });
    assert_eq!(fit.intercept, Ratio { num: 67500, den: 5400 });
}

#[test]
fn least_squares_without_spread_is_an_error() {
    assert_eq!(least_squares_approximation(&vec![30], &vec![4]), Err(FitError::ZeroDeterminant));
    assert_eq!(
        least_squares_approximation(&vec![10, 10, 10], &vec![1, 2, 3]),
        Err(FitError::ZeroDeterminant)
    );
    assert_eq!(least_squares_approximation(&vec![], &vec![]), Err(FitError::ZeroDeterminant));
}

#[test]
fn least_squares_overflow_is_an_error() {
    assert_eq!(
        least_squares_approximation(&vec![u64::MAX, 0], &vec![1, 2]),
        Err(FitError::Overflow)
    );
    assert_eq!(
        least_squares_approximation(&vec![1 << 50, 1 << 51, 1 << 52], &vec![u32::MAX, 0, u32::MAX]),
        Err(FitError::Overflow)
    );
}

#[test]
fn three_full_lines_give_two_segments_and_one_fit_per_core() {
    let (series, fits) = run(&["10 20 30 40", "11 21 31 41", "13 22 33 40"]);
    assert!(series.incomplete.is_empty());
    assert_eq!(fits.len(), 4);
    for (segments, lsq) in &fits {
        let segments = segments.as_ref().unwrap();
        assert_eq!(segments.len(), 2);
        assert_eq!((segments[0].x_lo, segments[1].x_hi), (0, 60));
        let lsq = lsq.as_ref().unwrap();
        assert_eq!((lsq.x_lo, lsq.x_hi), (0, 60));
    }
}

#[test]
fn pipeline_is_repeatable() {
    let text = ["10 20 30 40", "oops", "12 25 31 47 99", "9 9 9 9"];
    let (first_series, first) = run(&text);
    let (second_series, second) = run(&text);
    assert_eq!(first_series.times, second_series.times);
    assert_eq!(first_series.channels, second_series.channels);
    assert_eq!(first_series.incomplete, second_series.incomplete);
    assert_eq!(first, second);
}
