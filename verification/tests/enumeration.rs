use boolean_evaluation::enumeration::{assign_mask, assignment_count, bit_is_set};
use boolean_evaluation::variable::{find_variable, Variable};

#[test]
fn a_fresh_cell_is_false_and_has_no_set() {
    let cell = Variable::new('K');
    assert_eq!(cell.name, 'K');
    assert!(!cell.value);
    assert_eq!(cell.set, None);
    let copy = cell.clone();
    assert_eq!(copy, cell);
}

#[test]
fn find_variable_gives_the_first_cell_of_a_name() {
    let cells = vec![Variable::new('A'), Variable::new('C'), Variable::new('C')];
    assert_eq!(find_variable(&cells, 'A'), Some(0));
    assert_eq!(find_variable(&cells, 'C'), Some(1));
    assert_eq!(find_variable(&cells, 'B'), None);
    assert_eq!(find_variable(&Vec::new(), 'A'), None);
}

#[test]
fn the_number_of_assignments_doubles_with_each_letter() {
    assert_eq!(assignment_count(0), 1);
    assert_eq!(assignment_count(1), 2);
    assert_eq!(assignment_count(3), 8);
    assert_eq!(assignment_count(26), 67_108_864);
    assert_eq!(assignment_count(31), 0x8000_0000);
}

#[test]
fn bits_of_a_mask() {
    assert!(bit_is_set(0b101, 0));
    assert!(!bit_is_set(0b101, 1));
    assert!(bit_is_set(0b101, 2));
    assert!(!bit_is_set(0b101, 3));
    assert!(bit_is_set(u32::MAX, 31));
    assert!(!bit_is_set(0, 0));
}

#[test]
fn assign_mask_gives_each_cell_its_bit() {
    let mut cells = vec![Variable::new('A'), Variable::new('B'), Variable::new('C')];
    cells[1].set = Some(vec![4, 2]);
    assign_mask(&mut cells, 0b110);
    let values: Vec<bool> = cells.iter().map(|cell| cell.value).collect();
    assert_eq!(values, [false, true, true]);
    assert_eq!(cells[0].name, 'A');
    assert_eq!(cells[1].set, Some(vec![4, 2]));
    assign_mask(&mut cells, 0b001);
    let values: Vec<bool> = cells.iter().map(|cell| cell.value).collect();
    assert_eq!(values, [true, false, false]);
}
