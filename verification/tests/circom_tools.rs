use tig_circuit_tools::analysis::circom_tools::{metrics_from_groups, parse_circom_output_checked, parse_usize};
use tig_circuit_tools::{parse_circom_output, CircomMetrics, OptLevel};

#[test]
fn test_parse_circom_output() {
    let output = "template instances: 1\n\
                  non-linear constraints: 1234\n\
                  linear constraints: 567\n\
                  public inputs: 10\n\
                  private inputs: 100\n\
                  public outputs: 2\n\
                  wires: 1500\n\
                  labels: 2000";

    let metrics = parse_circom_output(output).unwrap();
    assert_eq!(metrics.non_linear_constraints, 1234);
    assert_eq!(metrics.linear_constraints, 567);
    assert_eq!(metrics.total_constraints, 1801);
}

#[test]
fn test_opt_level_flags() {
    assert_eq!(OptLevel::O0.as_flag(), "--O0");
    assert_eq!(OptLevel::O1.as_flag(), "--O1");
    assert_eq!(OptLevel::O2.as_flag(), "--O2");
}

#[test]
fn parse_without_linear_count_reads_zero() {
    let metrics = parse_circom_output("non-linear constraints: 42\nwires: 7").unwrap();
    assert_eq!(metrics.non_linear_constraints, 42);
    assert_eq!(metrics.linear_constraints, 0);
    assert_eq!(metrics.total_constraints, 42);
}

#[test]
fn parse_linear_count_must_start_a_line() {
    // "non-linear constraints: 5" holds "linear constraints: 5" but not at a line start.
    let metrics = parse_circom_output("non-linear constraints: 5").unwrap();
    assert_eq!(metrics.linear_constraints, 0);
    assert_eq!(metrics.total_constraints, 5);
}

#[test]
fn parse_missing_non_linear_count_is_an_error() {
    let err = parse_circom_output("linear constraints: 3").unwrap_err();
    assert_eq!(err, "Could not find 'non-linear constraints' in output");
}

#[test]
fn parse_overflowing_non_linear_count_is_an_error() {
    let err = parse_circom_output("non-linear constraints: 99999999999999999999999999").unwrap_err();
    assert_eq!(err, "Could not find 'non-linear constraints' in output");
}

#[test]
fn checked_parse_refuses_counts_whose_sum_overflows() {
    let text = format!("non-linear constraints: {}\nlinear constraints: 1", usize::MAX);
    assert!(parse_circom_output_checked(&text).is_none());
    let ok = parse_circom_output_checked("non-linear constraints: 10\nlinear constraints: 2").unwrap().unwrap();
    assert_eq!(ok.total_constraints, 12);
}

#[test]
fn metrics_from_groups_exact_values() {
    let m = metrics_from_groups(&Some("1234".to_string()), &Some("567".to_string())).unwrap();
    assert_eq!((m.non_linear_constraints, m.linear_constraints, m.total_constraints), (1234, 567, 1801));
    let m = metrics_from_groups(&Some("+7".to_string()), &Some("x".to_string())).unwrap();
    assert_eq!((m.non_linear_constraints, m.linear_constraints, m.total_constraints), (7, 0, 7));
    let e = metrics_from_groups(&None, &Some("5".to_string())).unwrap_err();
    assert_eq!(e, "Could not find 'non-linear constraints' in output");
    let e = metrics_from_groups(&Some("".to_string()), &None).unwrap_err();
    assert_eq!(e, "Could not find 'non-linear constraints' in output");
}

#[test]
fn parse_usize_follows_str_parse() {
    for s in ["0", "17", "+3", "", "+", "-1", "1a", "007", "18446744073709551615", "18446744073709551616"] {
        assert_eq!(parse_usize(s), s.parse::<usize>().ok(), "input {:?}", s);
    }
}

#[test]
fn circom_metrics_display_text() {
    let m = CircomMetrics { non_linear_constraints: 1000, linear_constraints: 20, total_constraints: 1020 };
    assert_eq!(
        m.display(),
        "Circom Metrics:\n- Non-linear Constraints: 1000\n- Linear Constraints: 20\n- Total Constraints: 1020"
    );
}
