//! Tables as comma-separated text: what is written, field by field.

use vstd::prelude::*;

verus! {

/// A field of a table, written as it is or between quotes.
pub enum Field {
    Plain(Seq<char>),
    Quoted(Seq<char>),
}

impl Field {
    pub open spec fn value(self) -> Seq<char> {
        match self {
            Field::Plain(t) => t,
            Field::Quoted(t) => t,
        }
    }

    pub open spec fn written(self) -> Seq<char> {
        match self {
            Field::Plain(t) => t,
            Field::Quoted(t) => seq!['"'] + t + seq!['"'],
        }
    }

    /// What is written tells where the field ends: an unquoted field has no comma
    /// or line break and does not begin with a quote, a quoted one has no quote.
    pub open spec fn is_clear(self) -> bool {
        match self {
            Field::Plain(t) => is_plain(t),
            Field::Quoted(t) => !t.contains('"'),
        }
    }
}

/// No comma and no line break, and no quote at the beginning.
pub open spec fn is_plain(t: Seq<char>) -> bool {
    &&& forall|i: int|
        0 <= i < t.len() ==> #[trigger] t[i] != ',' && t[i] != '\n' && t[i] != '\r'
    &&& t.len() > 0 ==> t[0] != '"'
}

/// The fields of a row with commas between them.
pub open spec fn row_text(row: Seq<Field>) -> Seq<char>
    decreases row.len(),
{
    if row.len() == 0 {
        Seq::empty()
    } else if row.len() == 1 {
        row[0].written()
    } else {
        row_text(row.drop_last()) + seq![','] + row.last().written()
    }
}

/// The rows of a table, each ended by a line break.
pub open spec fn grid_text(rows: Seq<Seq<Field>>) -> Seq<char>
    decreases rows.len(),
{
    if rows.len() == 0 {
        Seq::empty()
    } else {
        grid_text(rows.drop_last()) + row_text(rows.last()) + seq!['\n']
    }
}

/// A table with a header: clear fields, and as many in each row, two or more. Its
/// text does not begin with a byte order mark.
pub open spec fn is_table(rows: Seq<Seq<Field>>) -> bool {
    &&& rows.len() > 0
    &&& rows[0].len() >= 2
    &&& forall|i: int| 0 <= i < rows.len() ==> (#[trigger] rows[i]).len() == rows[0].len()
    &&& forall|i: int, c: int|
        0 <= i < rows.len() && 0 <= c < rows[0].len() ==> (#[trigger] rows[i][c]).is_clear()
    &&& grid_text(rows)[0] != '\u{feff}'
}

/// The values of a row.
pub open spec fn row_values(row: Seq<Field>) -> Seq<Seq<char>> {
    Seq::new(row.len(), |c: int| row[c].value())
}

/// The values of the rows under the header.
pub open spec fn body_values(rows: Seq<Seq<Field>>) -> Seq<Seq<Seq<char>>> {
    Seq::new((rows.len() - 1) as nat, |i: int| row_values(rows[i + 1]))
}

/// A field of a table that is being written.
pub struct Cell {
    pub quoted: bool,
    pub text: String,
}

impl View for Cell {
    type V = Field;

    open spec fn view(&self) -> Field {
        if self.quoted {
            Field::Quoted(self.text@)
        } else {
            Field::Plain(self.text@)
        }
    }
}

pub open spec fn cell_views(cells: Seq<Cell>) -> Seq<Field> {
    Seq::new(cells.len(), |i: int| cells[i]@)
}

fn push_cell(out: &mut String, cell: &Cell)
    ensures
        final(out)@ == old(out)@ + cell@.written(),
{
    if cell.quoted {
        proof {
            reveal_strlit("\"");
        }
        out.append("\"");
        out.append(cell.text.as_str());
        out.append("\"");
        assert(out@ =~= old(out)@ + cell@.written());
    } else {
        out.append(cell.text.as_str());
    }
}

/// Writes a row and its line break.
pub fn push_line(out: &mut String, cells: &Vec<Cell>)
    ensures
        final(out)@ == old(out)@ + row_text(cell_views(cells@)) + seq!['\n'],
{
    let ghost start = out@;
    let ghost row = cell_views(cells@);
    let mut i: usize = 0;
    proof {
        reveal_strlit(",");
        reveal_strlit("\n");
        assert(start + row_text(row.take(0)) =~= start);
    }
    while i < cells.len()
        invariant
            i <= cells@.len(),
            row == cell_views(cells@),
            out@ == start + row_text(row.take(i as int)),
            ","@ =~= seq![','],
        decreases cells@.len() - i,
    {
        proof {
            assert(row.take(i + 1).drop_last() =~= row.take(i as int));
            assert(row.take(i + 1).last() == cells@[i as int]@);
        }
        if i > 0 {
            out.append(",");
            push_cell(out, &cells[i]);
            assert(out@ =~= start + row_text(row.take(i + 1)));
        } else {
            assert(row_text(row.take(0)) =~= Seq::<char>::empty());
            push_cell(out, &cells[i]);
            assert(row.take(1)[0] == cells@[0]@);
            assert(out@ =~= start + row_text(row.take(i + 1)));
        }
        i += 1;
    }
    assert(row.take(i as int) =~= row);
    out.append("\n");
    assert(out@ =~= start + row_text(row) + seq!['\n']);
}

/// A further field is written behind a comma, a quoted one between quotes; a further row is
/// written behind the rows before it and ended by a line break.
pub proof fn lemma_fields_and_rows_are_written_apart(
    row: Seq<Field>,
    f: Field,
    rows: Seq<Seq<Field>>,
)
    ensures
        row_text(row.push(f)) == if row.len() == 0 {
            f.written()
        } else {
            row_text(row) + seq![','] + f.written()
        },
        grid_text(rows.push(row)) == grid_text(rows) + row_text(row) + seq!['\n'],
        f matches Field::Quoted(t) ==> f.written().len() == t.len() + 2 && f.written().first()
            == '"' && f.written().last() == '"' && f.written().subrange(1, 1 + t.len() as int) == t,
        f matches Field::Plain(t) ==> f.written() == t,
{
    assert(row.push(f).drop_last() =~= row);
    assert(rows.push(row).drop_last() =~= rows);
    if let Field::Quoted(t) = f {
        assert(f.written().subrange(1, 1 + t.len() as int) =~= t);
    }
}

} // verus!
