use spreadsheet::ast_resolver::VarContext;
use spreadsheet::common_types::{Comparison, ComputeError, Decimal, Index, Numeric, Value};
use spreadsheet::spreadsheet::SpreadSheet;

#[derive(Debug, Clone, Copy, PartialEq)]
struct F64(f64);

impl Numeric for F64 {
    fn decimal(value: Decimal) -> Self {
        let sign = if value.negative { "-" } else { "" };
        F64(format!("{}{}e{}", sign, value.mantissa, value.exponent).parse().unwrap())
    }

    fn sum(self, rhs: Self) -> Self {
        F64(self.0 + rhs.0)
    }

    fn difference(self, rhs: Self) -> Self {
        F64(self.0 - rhs.0)
    }

    fn product(self, rhs: Self) -> Self {
        F64(self.0 * rhs.0)
    }

    fn quotient(self, rhs: Self) -> Self {
        F64(self.0 / rhs.0)
    }

    fn ordering(self, rhs: Self) -> Option<Comparison> {
        if self.0 < rhs.0 {
            Some(Comparison::Less)
        } else if self.0 > rhs.0 {
            Some(Comparison::Greater)
        } else if self.0 == rhs.0 {
            Some(Comparison::Equal)
        } else {
            None
        }
    }

    fn from_decimal(value: Decimal) -> Self {
        Self::decimal(value)
    }

    fn plus(self, rhs: Self) -> Self {
        self.sum(rhs)
    }

    fn minus(self, rhs: Self) -> Self {
        self.difference(rhs)
    }

    fn times(self, rhs: Self) -> Self {
        self.product(rhs)
    }

    fn over(self, rhs: Self) -> Self {
        self.quotient(rhs)
    }

    fn compare(self, rhs: Self) -> Option<Comparison> {
        self.ordering(rhs)
    }
}

fn at(name: &str) -> Index {
    spreadsheet::common_functions::get_cell_idx(name).unwrap()
}

fn set(sheet: &mut SpreadSheet<F64>, name: &str, raw: &str) {
    sheet.add_cell_and_compute(at(name), raw.to_string());
}

fn value(sheet: &SpreadSheet<F64>, name: &str) -> Option<Result<Value<F64>, ComputeError>> {
    sheet.get_computed(at(name))
}

fn number(x: f64) -> Option<Result<Value<F64>, ComputeError>> {
    Some(Ok(Value::Number(F64(x))))
}

fn boolean(b: bool) -> Option<Result<Value<F64>, ComputeError>> {
    Some(Ok(Value::Bool(b)))
}

fn cycle() -> Option<Result<Value<F64>, ComputeError>> {
    Some(Err(ComputeError::Cycle))
}

fn sum_sheet() -> SpreadSheet<F64> {
    let mut sheet = SpreadSheet::new();
    set(&mut sheet, "A1", "2");
    set(&mut sheet, "A2", "3");
    set(&mut sheet, "A3", "=A1+A2");
    sheet
}

fn snapshot(sheet: &SpreadSheet<F64>) -> Vec<(Option<String>, Option<Result<Value<F64>, ComputeError>>)> {
    let mut cells = Vec::new();
    for x in 0..6 {
        for y in 0..8 {
            let index = Index { x, y };
            cells.push((sheet.get_raw(&index).map(|raw| raw.to_string()), sheet.get_computed(index)));
        }
    }
    cells
}

#[test]
fn test_empty_sheet_has_no_cells() {
    let sheet: SpreadSheet<F64> = SpreadSheet::new();
    assert_eq!(sheet.get_raw(&at("A1")), None);
    assert_eq!(sheet.get_computed(at("A1")), None);
    assert_eq!(sheet.get_error(at("A1")), None);
    let sheet: SpreadSheet<F64> = SpreadSheet::default();
    assert_eq!(sheet.get_raw(&at("B7")), None);
    assert_eq!(sheet.get_variable(at("B7")), None);
}

#[test]
fn test_sum_of_two_cells() {
    let sheet = sum_sheet();
    assert_eq!(value(&sheet, "A3"), number(5.0));
    assert_eq!(value(&sheet, "A1"), number(2.0));
    assert_eq!(sheet.get_raw(&at("A3")), Some("=A1+A2"));
    assert_eq!(sheet.get_error(at("A3")), None);
    assert_eq!(sheet.get_variable(at("A3")), number(5.0));
}

#[test]
fn test_edit_of_a_cell_reaches_its_dependents() {
    let mut sheet = sum_sheet();
    set(&mut sheet, "A1", "10");
    assert_eq!(value(&sheet, "A3"), number(13.0));
    sheet.mutate_cell(at("A2"), "0.5".to_string());
    assert_eq!(value(&sheet, "A3"), number(10.5));
}

#[test]
fn test_removed_cell_is_unfindable() {
    let mut sheet = sum_sheet();
    sheet.remove_cell(at("A1"));
    assert!(matches!(value(&sheet, "A3"), Some(Err(ComputeError::UnfindableReference(_)))));
    assert!(matches!(sheet.get_error(at("A3")), Some(ComputeError::UnfindableReference(_))));
    assert_eq!(sheet.get_raw(&at("A1")), None);
    assert_eq!(value(&sheet, "A1"), None);
    assert_eq!(value(&sheet, "A2"), number(3.0));
    set(&mut sheet, "A1", "4");
    assert_eq!(value(&sheet, "A3"), number(7.0));
}

#[test]
fn test_removal_of_a_cell_that_is_not_there() {
    let mut sheet = sum_sheet();
    let before = snapshot(&sheet);
    sheet.remove_cell(at("C5"));
    assert_eq!(snapshot(&sheet), before);
}

#[test]
fn test_two_cells_that_refer_to_each_other() {
    let mut sheet = SpreadSheet::new();
    set(&mut sheet, "A1", "=A2");
    assert!(matches!(value(&sheet, "A1"), Some(Err(ComputeError::UnfindableReference(_)))));
    set(&mut sheet, "A2", "=A1");
    assert_eq!(value(&sheet, "A1"), cycle());
    assert_eq!(value(&sheet, "A2"), cycle());
    assert_eq!(sheet.get_error(at("A1")), Some(ComputeError::Cycle));
}

#[test]
fn test_broken_cycle_is_evaluated_again() {
    let mut sheet = SpreadSheet::new();
    set(&mut sheet, "A1", "=A2");
    set(&mut sheet, "A2", "=A1");
    set(&mut sheet, "A2", "5");
    assert_eq!(value(&sheet, "A1"), number(5.0));
    assert_eq!(value(&sheet, "A2"), number(5.0));
}

#[test]
fn test_sum_of_a_range() {
    let mut sheet = SpreadSheet::new();
    set(&mut sheet, "A1", "1");
    set(&mut sheet, "A2", "2");
    set(&mut sheet, "A3", "3");
    set(&mut sheet, "B1", "=SUM(A1:A3)");
    assert_eq!(value(&sheet, "B1"), number(6.0));
    set(&mut sheet, "A2", "20");
    assert_eq!(value(&sheet, "B1"), number(24.0));
    sheet.remove_cell(at("A3"));
    assert_eq!(value(&sheet, "B1"), number(21.0));
}

#[test]
fn test_logical_formula() {
    let mut sheet = SpreadSheet::new();
    set(&mut sheet, "A1", "TRUE");
    set(&mut sheet, "A2", "FALSE");
    set(&mut sheet, "A3", "=A1 && !A2");
    assert_eq!(value(&sheet, "A3"), boolean(true));
}

#[test]
fn test_sum_of_number_and_text_is_a_type_error() {
    let mut sheet = SpreadSheet::new();
    set(&mut sheet, "A1", "5");
    set(&mut sheet, "A2", "hello");
    set(&mut sheet, "A3", "=A1+A2");
    assert!(matches!(value(&sheet, "A3"), Some(Err(ComputeError::TypeError(_)))));
    assert_eq!(value(&sheet, "A2"), Some(Ok(Value::Text("hello".to_string()))));
}

#[test]
fn test_cell_that_cannot_be_read() {
    let mut sheet = SpreadSheet::new();
    set(&mut sheet, "A1", "=1+");
    assert!(matches!(value(&sheet, "A1"), Some(Err(ComputeError::ParseError(_)))));
    assert_eq!(sheet.get_raw(&at("A1")), Some("=1+"));
    set(&mut sheet, "A2", "=A1");
    assert!(matches!(value(&sheet, "A2"), Some(Err(ComputeError::ParseError(_)))));
    set(&mut sheet, "A3", "12x");
    assert!(matches!(value(&sheet, "A3"), Some(Err(ComputeError::ParseError(_)))));
    set(&mut sheet, "A1", "=1+1");
    assert_eq!(value(&sheet, "A2"), number(2.0));
}

#[test]
fn test_formula_written_before_its_cells() {
    let mut sheet = SpreadSheet::new();
    set(&mut sheet, "C1", "=B1*2");
    set(&mut sheet, "B1", "=A1+1");
    assert!(matches!(value(&sheet, "C1"), Some(Err(ComputeError::UnfindableReference(_)))));
    set(&mut sheet, "A1", "4");
    assert_eq!(value(&sheet, "B1"), number(5.0));
    assert_eq!(value(&sheet, "C1"), number(10.0));
}

#[test]
fn test_chain_is_evaluated_in_order() {
    let mut sheet = SpreadSheet::new();
    set(&mut sheet, "E1", "=D1+1");
    set(&mut sheet, "B1", "=A1+1");
    set(&mut sheet, "D1", "=C1+1");
    set(&mut sheet, "C1", "=B1+1");
    set(&mut sheet, "A1", "1");
    assert_eq!(value(&sheet, "E1"), number(5.0));
    set(&mut sheet, "A1", "10");
    assert_eq!(value(&sheet, "B1"), number(11.0));
    assert_eq!(value(&sheet, "C1"), number(12.0));
    assert_eq!(value(&sheet, "D1"), number(13.0));
    assert_eq!(value(&sheet, "E1"), number(14.0));
}

#[test]
fn test_diamond_is_evaluated_in_order() {
    let mut sheet = SpreadSheet::new();
    set(&mut sheet, "D1", "=B1+C1");
    set(&mut sheet, "C1", "=A1*3");
    set(&mut sheet, "B1", "=A1*2");
    set(&mut sheet, "A1", "1");
    assert_eq!(value(&sheet, "D1"), number(5.0));
    set(&mut sheet, "A1", "2");
    assert_eq!(value(&sheet, "D1"), number(10.0));
    set(&mut sheet, "E1", "=D1+A1");
    set(&mut sheet, "A1", "3");
    assert_eq!(value(&sheet, "E1"), number(18.0));
}

#[test]
fn test_cell_that_refers_to_itself() {
    let mut sheet = SpreadSheet::new();
    set(&mut sheet, "A1", "=A1+1");
    assert_eq!(value(&sheet, "A1"), cycle());
    set(&mut sheet, "B1", "=A1");
    assert_eq!(value(&sheet, "B1"), cycle());
    set(&mut sheet, "A1", "1");
    assert_eq!(value(&sheet, "A1"), number(1.0));
    assert_eq!(value(&sheet, "B1"), number(1.0));
}

#[test]
fn test_cycle_taints_what_depends_on_it() {
    let mut sheet = SpreadSheet::new();
    set(&mut sheet, "A1", "=B1");
    set(&mut sheet, "B1", "=C1");
    set(&mut sheet, "C1", "=A1");
    set(&mut sheet, "D1", "=A1+1");
    set(&mut sheet, "E1", "=D1*2");
    set(&mut sheet, "F1", "7");
    for name in ["A1", "B1", "C1", "D1", "E1"] {
        assert_eq!(value(&sheet, name), cycle(), "{}", name);
    }
    assert_eq!(value(&sheet, "F1"), number(7.0));
    set(&mut sheet, "B1", "1");
    assert_eq!(value(&sheet, "C1"), number(1.0));
    assert_eq!(value(&sheet, "A1"), number(1.0));
    assert_eq!(value(&sheet, "D1"), number(2.0));
    assert_eq!(value(&sheet, "E1"), number(4.0));
}

#[test]
fn test_cycle_wins_over_other_errors() {
    let mut sheet = SpreadSheet::new();
    set(&mut sheet, "A1", "=A2");
    set(&mut sheet, "A2", "=A1");
    set(&mut sheet, "A3", "=(\"a\"+1)+A1");
    assert_eq!(value(&sheet, "A3"), cycle());
    set(&mut sheet, "A4", "=Z9+A3");
    assert_eq!(value(&sheet, "A4"), cycle());
    set(&mut sheet, "A5", "=SUM(A1:A2)");
    assert_eq!(value(&sheet, "A5"), cycle());
    set(&mut sheet, "A2", "1");
    assert!(matches!(value(&sheet, "A3"), Some(Err(ComputeError::TypeError(_)))));
    assert!(matches!(value(&sheet, "A4"), Some(Err(ComputeError::UnfindableReference(_)))));
    assert_eq!(value(&sheet, "A5"), number(2.0));
}

#[test]
fn test_cycle_found_through_a_side_path() {
    let mut sheet = SpreadSheet::new();
    set(&mut sheet, "A1", "=B1+C1");
    set(&mut sheet, "B1", "=A1");
    set(&mut sheet, "C1", "=B1");
    for name in ["A1", "B1", "C1"] {
        assert_eq!(value(&sheet, name), cycle(), "{}", name);
    }
    set(&mut sheet, "B1", "2");
    assert_eq!(value(&sheet, "C1"), number(2.0));
    assert_eq!(value(&sheet, "A1"), number(4.0));
}

#[test]
fn test_cycle_elsewhere_reaches_a_new_cell() {
    let mut sheet = SpreadSheet::new();
    set(&mut sheet, "B1", "=C1");
    set(&mut sheet, "C1", "=B1");
    set(&mut sheet, "A1", "=B1");
    assert_eq!(value(&sheet, "A1"), cycle());
    set(&mut sheet, "A1", "=1+1");
    assert_eq!(value(&sheet, "A1"), number(2.0));
    assert_eq!(value(&sheet, "B1"), cycle());
}

#[test]
fn test_removal_breaks_a_cycle() {
    let mut sheet = SpreadSheet::new();
    set(&mut sheet, "A1", "=A2");
    set(&mut sheet, "A2", "=A1");
    sheet.remove_cell(at("A2"));
    assert!(matches!(value(&sheet, "A1"), Some(Err(ComputeError::UnfindableReference(_)))));
}

#[test]
fn test_same_edit_twice_changes_nothing() {
    let mut sheet = sum_sheet();
    set(&mut sheet, "B1", "=B2");
    set(&mut sheet, "B2", "=B1");
    set(&mut sheet, "B3", "=SUM(A1:A3)+X1");
    for (name, raw) in [("A1", "7"), ("A3", "=A1*A2"), ("B1", "=B2+A1"), ("C1", "text"), ("A2", "=(")] {
        sheet.mutate_cell(at(name), raw.to_string());
        let once = snapshot(&sheet);
        sheet.mutate_cell(at(name), raw.to_string());
        assert_eq!(snapshot(&sheet), once, "{} = {}", name, raw);
    }
}

#[test]
fn test_edits_of_unrelated_cells_commute() {
    let build = || {
        let mut sheet = sum_sheet();
        set(&mut sheet, "B1", "1");
        set(&mut sheet, "B2", "=B1+1");
        sheet
    };
    let mut first = build();
    set(&mut first, "A1", "10");
    set(&mut first, "B1", "20");
    let mut second = build();
    set(&mut second, "B1", "20");
    set(&mut second, "A1", "10");
    assert_eq!(snapshot(&first), snapshot(&second));
    assert_eq!(value(&first, "A3"), number(13.0));
    assert_eq!(value(&first, "B2"), number(21.0));
}

#[test]
fn test_edits_of_related_cells_commute_too() {
    let build = || {
        let mut sheet = sum_sheet();
        set(&mut sheet, "B1", "=A3*2");
        sheet
    };
    let mut first = build();
    set(&mut first, "A1", "=B1");
    set(&mut first, "A2", "4");
    let mut second = build();
    set(&mut second, "A2", "4");
    set(&mut second, "A1", "=B1");
    assert_eq!(snapshot(&first), snapshot(&second));
    assert_eq!(value(&first, "A3"), cycle());
}

#[test]
fn test_sheet_is_a_context_for_formulas() {
    let sheet = sum_sheet();
    assert_eq!(sheet.get_variable(at("A1")), number(2.0));
    assert_eq!(sheet.get_variable(at("Z9")), None);
    assert_eq!(sheet.get_variable(at("A3")), number(5.0));
}

#[test]
fn test_text_cells_and_formulas_over_them() {
    let mut sheet = SpreadSheet::new();
    set(&mut sheet, "A1", "foo");
    set(&mut sheet, "A2", "bar");
    set(&mut sheet, "A3", "=A1+A2+\"!\"");
    assert_eq!(value(&sheet, "A3"), Some(Ok(Value::Text("foobar!".to_string()))));
    set(&mut sheet, "A4", "=IF(A1 == \"foo\", COUNT(A1:A3), 0)");
    assert_eq!(value(&sheet, "A4"), number(3.0));
}

#[test]
fn test_commit_picks_the_edit() {
    let mut sheet = sum_sheet();
    sheet.commit(at("A1"), "2".to_string());
    assert_eq!(value(&sheet, "A3"), number(5.0));
    sheet.commit(at("A1"), "5".to_string());
    assert_eq!(value(&sheet, "A3"), number(8.0));
    sheet.commit(at("B1"), "=A3".to_string());
    assert_eq!(value(&sheet, "B1"), number(8.0));
    sheet.commit(at("A2"), "".to_string());
    assert_eq!(sheet.get_raw(&at("A2")), None);
    assert!(matches!(value(&sheet, "B1"), Some(Err(ComputeError::UnfindableReference(_)))));
    sheet.commit(at("C7"), "".to_string());
    assert_eq!(sheet.get_raw(&at("C7")), None);
}

#[test]
fn test_error_texts() {
    assert_eq!(ComputeError::Cycle.info(), "Detected cyclic computation");
    assert_eq!(ComputeError::UnknownFunction("foo".to_string()).info(), "Unknown function 'foo'");
    assert_eq!(ComputeError::ParseError("bad".to_string()).info(), "bad");
    assert_eq!(ComputeError::TypeError("worse".to_string()).info(), "worse");
    assert_eq!(ComputeError::UnfindableReference("where".to_string()).info(), "where");
    assert_eq!(ComputeError::InvalidArgument("what".to_string()).info(), "what");
}

#[test]
fn test_graph_holds_the_cells_of_each_formula() {
    let mut sheet = sum_sheet();
    set(&mut sheet, "B1", "=SUM(A1:A3, A2) * A1 + C1");
    assert_eq!(sheet.get_dependencies(at("B1")), vec![at("A1"), at("A2"), at("A3"), at("C1")]);
    assert_eq!(sheet.get_dependencies(at("A3")), vec![at("A1"), at("A2")]);
    assert_eq!(sheet.get_dependencies(at("A1")), vec![]);
    assert_eq!(sheet.get_dependencies(at("Z9")), vec![]);
    let mut dependents = sheet.get_dependents(at("A1"));
    dependents.sort_by_key(|index| (index.x, index.y));
    assert_eq!(dependents, vec![at("A3"), at("B1")]);
    assert_eq!(sheet.get_dependents(at("C1")), vec![at("B1")]);
    set(&mut sheet, "B1", "=A2");
    assert_eq!(sheet.get_dependencies(at("B1")), vec![at("A2")]);
    assert_eq!(sheet.get_dependents(at("A1")), vec![at("A3")]);
    set(&mut sheet, "B1", "7");
    assert_eq!(sheet.get_dependencies(at("B1")), vec![]);
    assert_eq!(sheet.get_dependents(at("A2")), vec![at("A3")]);
    set(&mut sheet, "A3", "=A1+");
    assert_eq!(sheet.get_dependencies(at("A3")), vec![]);
    set(&mut sheet, "A3", "=A1+A2");
    sheet.remove_cell(at("A3"));
    assert_eq!(sheet.get_dependencies(at("A3")), vec![]);
    assert_eq!(sheet.get_dependents(at("A1")), vec![]);
}
