use vstd::prelude::*;
use vstd::arithmetic::power2::pow2;
use crate::enumeration::{assign_mask, assignment_count, bit};
use crate::tree::{lemma_names_bound, lemma_table_assignment, Tree};
use crate::variable::names_of;

verus! {

/// What a truth table holds, as plain values: the letters that head the
/// columns, and the rows, each with one value for every letter and the
/// value of the formula last.
pub struct TableModel {
    pub variables: Seq<char>,
    pub rows: Seq<Seq<bool>>,
}

/// The row of the assignment with number `mask`: bit `j` of `mask` under the
/// `j`-th letter, then the value of the formula under that assignment.
pub open spec fn row_of(tree: Tree, mask: nat) -> Seq<bool> {
    Seq::new(tree.names().len(), |j: int| bit(mask, j as nat)).push(tree.satisfied_by(mask))
}

/// The truth table of a formula: its letters in the order of the symbol
/// table, and the rows of the `2^n` assignments over them in the order of
/// their numbers.
pub open spec fn table_of(tree: Tree) -> TableModel {
    TableModel {
        variables: tree.names(),
        rows: Seq::new(pow2(tree.names().len()), |mask: int| row_of(tree, mask as nat)),
    }
}

/// The text `| c `, one cell of a line of the table.
pub open spec fn cell(c: char) -> Seq<char> {
    seq!['|', ' ', c, ' ']
}

/// The cells of the given characters, one after the other.
pub open spec fn cells(content: Seq<char>) -> Seq<char>
    decreases content.len(),
{
    if content.len() == 0 {
        Seq::empty()
    } else {
        cells(content.drop_last()) + cell(content.last())
    }
}

/// The text `|---`, repeated `columns` times.
pub open spec fn rule(columns: nat) -> Seq<char>
    decreases columns,
{
    if columns == 0 {
        Seq::empty()
    } else {
        rule((columns - 1) as nat) + seq!['|', '-', '-', '-']
    }
}

/// A row as digits: `1` for true and `0` for false.
pub open spec fn digits(row: Seq<bool>) -> Seq<char> {
    Seq::new(row.len(), |j: int| if row[j] { '1' } else { '0' })
}

/// The lines of the given rows: the cells of each row's digits, closed by
/// `|` and a line feed.
pub open spec fn lines(rows: Seq<Seq<bool>>) -> Seq<char>
    decreases rows.len(),
{
    if rows.len() == 0 {
        Seq::empty()
    } else {
        lines(rows.drop_last()) + cells(digits(rows.last())) + seq!['|', '\n']
    }
}

impl TableModel {
    /// The table as text: a header with a cell for each letter and one for
    /// `=`, a rule of dashes under it, and a line for each row.
    pub open spec fn render(self) -> Seq<char> {
        cells(self.variables.push('=')) + seq!['|', '\n'] + rule(self.variables.len() + 1)
            + seq!['|', '\n'] + lines(self.rows)
    }

    /// Whether the formula is true in one of the rows.
    pub open spec fn has_true_row(self) -> bool {
        exists|i: int| 0 <= i < self.rows.len() && (#[trigger] self.rows[i]).last()
    }
}

/// A formula is satisfiable exactly when its truth table has a row in which
/// it is true.
pub proof fn lemma_sat_is_true_row(tree: Tree)
    requires
        tree.well_formed(),
    ensures
        tree.has_satisfying_mask() == table_of(tree).has_true_row(),
        tree.root.satisfiable() == table_of(tree).has_true_row(),
{
    tree.lemma_enumeration_complete();
    let table = table_of(tree);
    if tree.has_satisfying_mask() {
        let mask = choose|mask: nat|
            mask < pow2(tree.names().len()) && #[trigger] tree.satisfied_by(mask);
        assert(table.rows[mask as int] == row_of(tree, mask));
        assert(table.rows[mask as int].last());
    }
    if table.has_true_row() {
        let i = choose|i: int| 0 <= i < table.rows.len() && (#[trigger] table.rows[i]).last();
        assert(table.rows[i] == row_of(tree, i as nat));
    }
}

/// The truth table of a formula.
#[derive(Debug, PartialEq, Eq)]
pub struct TruthTable {
    variables: Vec<char>,
    values: Vec<Vec<bool>>,
}

impl View for TruthTable {
    type V = TableModel;

    closed spec fn view(&self) -> TableModel {
        TableModel {
            variables: self.variables@,
            rows: Seq::new(self.values.len() as nat, |i: int| self.values[i]@),
        }
    }
}

/// Appends the cell `| c ` to `out`.
fn push_cell(out: &mut String, c: char)
    ensures
        final(out)@ == old(out)@ + cell(c),
{
    out.push('|');
    out.push(' ');
    out.push(c);
    out.push(' ');
}

/// Appends the rule `|---` of one column to `out`.
fn push_rule(out: &mut String)
    ensures
        final(out)@ == old(out)@ + seq!['|', '-', '-', '-'],
{
    out.push('|');
    out.push('-');
    out.push('-');
    out.push('-');
}

impl TruthTable {
    /// Tabulates a formula: enumerates the `2^n` assignments over the `n`
    /// letters of its symbol table by their numbers in ascending order, and
    /// evaluates the formula under each.
    pub fn from(tree: Tree) -> (r: TruthTable)
        requires
            tree.well_formed(),
        ensures
            r@ == table_of(tree),
    {
        proof {
            lemma_names_bound(tree.names());
        }
        let mut variables = tree.variable_list;
        let root = tree.root;
        let n = variables.len();
        let limit = assignment_count(n);
        let mut values: Vec<Vec<bool>> = Vec::new();
        let mut mask: u32 = 0;
        while mask < limit
            invariant
                mask <= limit,
                limit == pow2(tree.names().len()),
                n == variables.len(),
                n <= 26,
                names_of(variables@) == tree.names(),
                root == tree.root,
                tree.well_formed(),
                values.len() == mask,
                forall|m: int| 0 <= m < mask ==> (#[trigger] values[m])@ == row_of(tree, m as nat),
            decreases limit - mask,
        {
            assign_mask(&mut variables, mask);
            proof {
                assert(names_of(variables@) =~= tree.names());
                lemma_table_assignment(root, variables@, mask as nat);
            }
            let mut row: Vec<bool> = Vec::new();
            let mut j: usize = 0;
            while j < n
                invariant
                    j <= n,
                    n == variables.len(),
                    row.len() == j,
                    forall|k: int|
                        0 <= k < n ==> (#[trigger] variables[k]).value == bit(
                            mask as nat,
                            k as nat,
                        ),
                    forall|k: int| 0 <= k < j ==> row[k] == bit(mask as nat, k as nat),
                decreases n - j,
            {
                row.push(variables[j].value);
                j += 1;
            }
            row.push(root.eval_ref(&variables));
            values.push(row);
            mask += 1;
        }
        let mut names: Vec<char> = Vec::new();
        let mut j: usize = 0;
        while j < n
            invariant
                j <= n,
                n == variables.len(),
                names_of(variables@) == tree.names(),
                names@ == tree.names().take(j as int),
            decreases n - j,
        {
            names.push(variables[j].name);
            j += 1;
        }
        let table = TruthTable { variables: names, values };
        assert(table@.variables =~= tree.names());
        assert(table@.rows =~= table_of(tree).rows);
        table
    }

    /// The table as text: a header line with the letters and `=`, a rule of
    /// dashes, and one line for each row, with `1` for true and `0` for
    /// false.
    pub fn to_string(&self) -> (r: String)
        ensures
            r@ == self@.render(),
    {
        let mut out = String::new();
        let mut i: usize = 0;
        while i < self.variables.len()
            invariant
                i <= self.variables.len(),
                out@ == cells(self.variables@.take(i as int)),
            decreases self.variables.len() - i,
        {
            push_cell(&mut out, self.variables[i]);
            proof {
                let next = self.variables@.take(i + 1);
                assert(next.drop_last() =~= self.variables@.take(i as int));
            }
            i += 1;
        }
        push_cell(&mut out, '=');
        out.push('|');
        out.push('\n');
        proof {
            assert(self.variables@.take(i as int) =~= self.variables@);
            assert(self.variables@.push('=').drop_last() =~= self.variables@);
        }
        let ghost header = out@;
        let mut k: usize = 0;
        while k < self.variables.len()
            invariant
                k <= self.variables.len(),
                out@ == header + rule(k as nat),
            decreases self.variables.len() - k,
        {
            push_rule(&mut out);
            k += 1;
        }
        push_rule(&mut out);
        out.push('|');
        out.push('\n');
        let ghost top = out@;
        let mut m: usize = 0;
        while m < self.values.len()
            invariant
                m <= self.values.len(),
                out@ == top + lines(self@.rows.take(m as int)),
            decreases self.values.len() - m,
        {
            let row = &self.values[m];
            let ghost start = out@;
            let mut j: usize = 0;
            while j < row.len()
                invariant
                    j <= row.len(),
                    out@ == start + cells(digits(row@).take(j as int)),
                decreases row.len() - j,
            {
                push_cell(&mut out, if row[j] { '1' } else { '0' });
                proof {
                    let next = digits(row@).take(j + 1);
                    assert(next.drop_last() =~= digits(row@).take(j as int));
                }
                j += 1;
            }
            out.push('|');
            out.push('\n');
            proof {
                assert(digits(row@).take(j as int) =~= digits(row@));
                let next = self@.rows.take(m + 1);
                assert(next.drop_last() =~= self@.rows.take(m as int));
            }
            m += 1;
        }
        assert(self@.rows.take(m as int) =~= self@.rows);
        out
    }
}

} // verus!
