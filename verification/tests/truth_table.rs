use boolean_evaluation::tree::Tree;
use boolean_evaluation::truth_table::TruthTable;

#[test]
fn test_truth_table_42() {
    let example = "| A | B | C | = |\n\
        |---|---|---|---|\n\
        | 0 | 0 | 0 | 0 |\n\
        | 1 | 0 | 0 | 0 |\n\
        | 0 | 1 | 0 | 0 |\n\
        | 1 | 1 | 0 | 1 |\n\
        | 0 | 0 | 1 | 1 |\n\
        | 1 | 0 | 1 | 1 |\n\
        | 0 | 1 | 1 | 1 |\n\
        | 1 | 1 | 1 | 1 |\n";
    let output = TruthTable::from(Tree::from_str("AB&C|").unwrap());
    assert_eq!(example, output.to_string());
}

#[test]
fn table_of_a_formula_without_letters_has_one_row() {
    let output = TruthTable::from(Tree::from_str("10|").unwrap());
    assert_eq!(output.to_string(), "| = |\n|---|\n| 1 |\n");
}

#[test]
fn columns_follow_the_alphabet_whatever_the_order_in_the_formula() {
    let output = TruthTable::from(Tree::from_str("BA>").unwrap());
    let expected = "| A | B | = |\n\
        |---|---|---|\n\
        | 0 | 0 | 1 |\n\
        | 1 | 0 | 1 |\n\
        | 0 | 1 | 0 |\n\
        | 1 | 1 | 1 |\n";
    assert_eq!(output.to_string(), expected);
}

#[test]
fn sat_is_a_true_row_in_the_table() {
    for text in ["AA^", "AB|", "AB&", "AA!&", "AB=AB^&", "ABC&&", "0", "1"] {
        let tree = Tree::from_str(text).unwrap();
        let table = TruthTable::from(tree.clone()).to_string();
        let has_true_row = table.lines().skip(2).any(|line| line.ends_with("| 1 |"));
        assert_eq!(tree.sat(), has_true_row);
    }
}
