use xforme::xlsx_template::formula::try_shift_rows;
use xforme::xlsx_template::shift_rows;

#[test]
fn shifts_relative_refs() {
    assert_eq!(shift_rows("B7*D7", 5), "B12*D12");
    assert_eq!(shift_rows("E10+E11", 2), "E12+E13");
    assert_eq!(shift_rows("SUM(E7:E8)", 4), "SUM(E11:E12)");
}

#[test]
fn leaves_absolute_refs() {
    assert_eq!(shift_rows("$D$7*A1", 5), "$D$7*A6");
    assert_eq!(shift_rows("D$7", 5), "D$7");
}

#[test]
fn ignores_function_names_and_numbers() {
    assert_eq!(shift_rows("LOG10(A1)", 3), "LOG10(A4)");
    assert_eq!(shift_rows("A1*2+100", 1), "A2*2+100");
}

#[test]
fn zero_delta_is_identity() {
    assert_eq!(shift_rows("SUM(E7:E8)", 0), "SUM(E7:E8)");
}

#[test]
fn shifts_up_and_keeps_mixed_anchors() {
    assert_eq!(shift_rows("SUM(C$2:C4)", -2), "SUM(C$2:C2)");
    assert_eq!(shift_rows("$B7", 3), "$B10");
    assert_eq!(shift_rows("'Sheet 2'!A1", 1), "'Sheet 2'!A2");
}

#[test]
fn clamps_rows_and_refuses_overflow() {
    assert_eq!(try_shift_rows("A1", -1), Some("A1".to_string()));
    assert_eq!(try_shift_rows("A9223372036854775807", 1), None);
    assert_eq!(
        try_shift_rows("$A$9223372036854775807", 1),
        Some("$A$9223372036854775807".to_string())
    );
    assert_eq!(try_shift_rows("A2", -1), Some("A1".to_string()));
    assert_eq!(try_shift_rows("A1", 0), Some("A1".to_string()));
    assert_eq!(try_shift_rows("1+2", -5), Some("1+2".to_string()));
}

#[test]
fn shifts_compose() {
    for f in ["SUM(C$2:C2)*A01", "B7*$D$7+LOG10(E3)", "Sheet1!AB12/ZZZZ9"] {
        let once = shift_rows(&shift_rows(f, 3), 4);
        assert_eq!(once, shift_rows(f, 7), "{f}");
    }
    assert_eq!(shift_rows(&shift_rows("A01", 2), 5), "A8");
}

#[test]
fn upward_shifts_compose() {
    for f in ["SUM(C$12:C20)*A09", "B17*$D$7", "A3+B1"] {
        assert_eq!(shift_rows(&shift_rows(f, -3), -4), shift_rows(f, -7), "{f}");
    }
    assert_eq!(shift_rows(&shift_rows("A3", -5), -1), "A1");
}
