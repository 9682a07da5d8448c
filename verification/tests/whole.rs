use spreadsheet::common_functions::get_cell_idx;
use spreadsheet::common_types::{Comparison, ComputeError, Decimal, Numeric, Value};
use spreadsheet::spreadsheet::SpreadSheet;
use spreadsheet::whole::Whole;

fn whole(value: i64) -> Whole {
    Whole { value }
}

fn literal(negative: bool, mantissa: u128, exponent: i32) -> Whole {
    Whole::from_decimal(Decimal { negative, mantissa, exponent })
}

fn sheet(cells: &[(&str, &str)]) -> SpreadSheet<Whole> {
    let mut sheet = SpreadSheet::new();
    for (name, raw) in cells {
        sheet.add_cell_and_compute(get_cell_idx(name).unwrap(), raw.to_string());
    }
    sheet
}

fn value(sheet: &SpreadSheet<Whole>, name: &str) -> Option<Result<Value<Whole>, ComputeError>> {
    sheet.get_computed(get_cell_idx(name).unwrap())
}

fn number(x: i64) -> Option<Result<Value<Whole>, ComputeError>> {
    Some(Ok(Value::Number(whole(x))))
}

#[test]
fn test_whole_literals() {
    assert_eq!(literal(false, 42, 0), whole(42));
    assert_eq!(literal(true, 42, 0), whole(-42));
    assert_eq!(literal(false, 42, 3), whole(42_000));
    assert_eq!(literal(false, 4_299, -2), whole(42));
    assert_eq!(literal(true, 4_299, -2), whole(-42));
    assert_eq!(literal(false, 5, -1), whole(0));
    assert_eq!(literal(false, 0, 7), whole(0));
    assert_eq!(literal(false, 0, i32::MIN), whole(0));
    assert_eq!(literal(false, 1, i32::MIN), whole(0));
}

#[test]
fn test_whole_literals_stop_at_the_ends() {
    assert_eq!(literal(false, 1, 30), whole(i64::MAX));
    assert_eq!(literal(true, 1, 30), whole(-i64::MAX));
    assert_eq!(literal(false, 1, i32::MAX), whole(i64::MAX));
    assert_eq!(literal(false, u128::MAX, 0), whole(i64::MAX));
    assert_eq!(literal(false, u128::MAX, -5), whole(i64::MAX));
    assert_eq!(literal(false, i64::MAX as u128, 0), whole(i64::MAX));
    assert_eq!(literal(false, i64::MAX as u128 - 1, 0), whole(i64::MAX - 1));
    assert_eq!(literal(false, 922_337_203_685_477_580, 1), whole(9_223_372_036_854_775_800));
    assert_eq!(literal(false, 922_337_203_685_477_581, 1), whole(i64::MAX));
}

#[test]
fn test_whole_sums_and_differences() {
    assert_eq!(whole(2).plus(whole(3)), whole(5));
    assert_eq!(whole(2).minus(whole(3)), whole(-1));
    assert_eq!(whole(i64::MAX).plus(whole(1)), whole(i64::MAX));
    assert_eq!(whole(i64::MIN).plus(whole(-1)), whole(i64::MIN));
    assert_eq!(whole(i64::MIN).minus(whole(1)), whole(i64::MIN));
    assert_eq!(whole(i64::MAX).minus(whole(-1)), whole(i64::MAX));
    assert_eq!(whole(i64::MAX).plus(whole(i64::MIN)), whole(-1));
}

#[test]
fn test_whole_products() {
    assert_eq!(whole(6).times(whole(-7)), whole(-42));
    assert_eq!(whole(i64::MAX).times(whole(2)), whole(i64::MAX));
    assert_eq!(whole(i64::MAX).times(whole(-2)), whole(i64::MIN));
    assert_eq!(whole(i64::MIN).times(whole(i64::MIN)), whole(i64::MAX));
    assert_eq!(whole(i64::MIN).times(whole(-1)), whole(i64::MAX));
    assert_eq!(whole(i64::MIN).times(whole(0)), whole(0));
}

#[test]
fn test_whole_quotients() {
    assert_eq!(whole(7).over(whole(2)), whole(3));
    assert_eq!(whole(-7).over(whole(2)), whole(-3));
    assert_eq!(whole(7).over(whole(-2)), whole(-3));
    assert_eq!(whole(-7).over(whole(-2)), whole(3));
    assert_eq!(whole(1).over(whole(0)), whole(i64::MAX));
    assert_eq!(whole(-1).over(whole(0)), whole(i64::MIN));
    assert_eq!(whole(0).over(whole(0)), whole(0));
    assert_eq!(whole(i64::MIN).over(whole(-1)), whole(i64::MAX));
    assert_eq!(whole(i64::MIN).over(whole(1)), whole(i64::MIN));
    assert_eq!(whole(0).over(whole(-5)), whole(0));
}

#[test]
fn test_whole_comparisons() {
    assert_eq!(whole(1).compare(whole(2)), Some(Comparison::Less));
    assert_eq!(whole(2).compare(whole(2)), Some(Comparison::Equal));
    assert_eq!(whole(3).compare(whole(2)), Some(Comparison::Greater));
    assert_eq!(whole(i64::MIN).compare(whole(i64::MAX)), Some(Comparison::Less));
}

#[test]
fn test_sheet_of_whole_numbers() {
    let mut sheet = sheet(&[("A1", "2"), ("A2", "3"), ("A3", "=A1+A2"), ("B1", "=AVG(A1:A3)")]);
    assert_eq!(value(&sheet, "A3"), number(5));
    assert_eq!(value(&sheet, "B1"), number(3));
    sheet.mutate_cell(get_cell_idx("A1").unwrap(), "10.9".to_string());
    assert_eq!(value(&sheet, "A1"), number(10));
    assert_eq!(value(&sheet, "A3"), number(13));
    assert_eq!(value(&sheet, "B1"), number(8));
    sheet.mutate_cell(get_cell_idx("A2").unwrap(), "=A1/0".to_string());
    assert_eq!(value(&sheet, "A2"), number(i64::MAX));
    assert_eq!(value(&sheet, "A3"), number(i64::MAX));
    sheet.mutate_cell(get_cell_idx("A2").unwrap(), "=1e3 * -2 + MAX(A1, 7, COUNT(A1:A1))".to_string());
    assert!(matches!(value(&sheet, "A2"), Some(Err(ComputeError::ParseError(_)))));
    sheet.mutate_cell(get_cell_idx("A2").unwrap(), "=1e3 * (0-2) + MAX(A1, 7, COUNT(A1:A1))".to_string());
    assert_eq!(value(&sheet, "A2"), number(-1990));
}
