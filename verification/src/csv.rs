//! Cells, rows and tables in comma-separated form.
use vstd::prelude::*;
use vstd::string::StringExecFns;
use crate::text::{
    contains_char, join, lemma_join_front, replace_char, with_char_replaced,
};

verus! {

/// A value that can not stand in a cell as it is.
pub open spec fn needs_quotes(value: Seq<char>) -> bool {
    value.contains(',') || value.contains('"') || value.contains('\n') || value.contains('\r')
}

/// The cell of a value: in quotation marks, with those in the value doubled, where it needs them.
pub open spec fn csv_cell(value: Seq<char>) -> Seq<char> {
    if needs_quotes(value) {
        "\""@ + replace_char(value, '"', "\"\""@) + "\""@
    } else {
        value
    }
}

/// The cell of a value.
pub fn csv_escape(value: &str) -> (r: String)
    ensures
        r@ == csv_cell(value@),
{
    if contains_char(value, ',') || contains_char(value, '"') || contains_char(value, '\n')
        || contains_char(value, '\r') {
        let mut s = "\"".to_owned();
        s.append(with_char_replaced(value, '"', "\"\"").as_str());
        s.append("\"");
        s
    } else {
        value.to_owned()
    }
}

// ---------------------------------------------------------------------------
// Reading back.
// ---------------------------------------------------------------------------

/// Whether a quotation is open behind `s`: the number of quotation marks in it is odd.
pub open spec fn in_quotes(s: Seq<char>) -> bool
    decreases s.len(),
{
    if s.len() == 0 {
        false
    } else if s.last() == '"' {
        !in_quotes(s.drop_last())
    } else {
        in_quotes(s.drop_last())
    }
}

/// The first position at or after `from` of a `sep` that is not quoted, or the length of `s`.
pub open spec fn first_unquoted(s: Seq<char>, sep: char, from: int) -> int
    decreases s.len() - from,
{
    if from < 0 || from >= s.len() {
        s.len() as int
    } else if s[from] == sep && !in_quotes(s.take(from)) {
        from
    } else {
        first_unquoted(s, sep, from + 1)
    }
}

/// The pieces of `s` between the places where `sep` stands unquoted.
pub open spec fn csv_split(s: Seq<char>, sep: char) -> Seq<Seq<char>>
    decreases s.len(),
{
    let n = first_unquoted(s, sep, 0);
    if n < 0 || n >= s.len() {
        seq![s]
    } else {
        seq![s.take(n)] + csv_split(s.skip(n + 1), sep)
    }
}

/// The text with each two quotation marks in a row made one.
pub open spec fn undoubled(s: Seq<char>) -> Seq<char>
    decreases s.len(),
{
    if s.len() == 0 {
        s
    } else if s.len() >= 2 && s.last() == '"' && s[s.len() - 2] == '"' {
        undoubled(s.take(s.len() - 2)).push('"')
    } else {
        undoubled(s.drop_last()).push(s.last())
    }
}

/// The value of a cell.
pub open spec fn csv_value(cell: Seq<char>) -> Seq<char> {
    if cell.len() >= 2 && cell[0] == '"' {
        undoubled(cell.subrange(1, cell.len() - 1))
    } else {
        cell
    }
}

proof fn lemma_undoubled(value: Seq<char>)
    ensures
        undoubled(replace_char(value, '"', "\"\""@)) == value,
    decreases value.len(),
{
    reveal_strlit("\"\"");
    let t = replace_char(value, '"', "\"\""@);
    if value.len() > 0 {
        let head = value.drop_last();
        let h = replace_char(head, '"', "\"\""@);
        lemma_undoubled(head);
        if value.last() == '"' {
            assert(t.take(t.len() - 2) =~= h);
        } else {
            assert(t.drop_last() =~= h);
        }
        assert(value =~= head.push(value.last()));
    } else {
        assert(t =~= value);
    }
}

/// The value of a cell is the one that the cell was made of.
pub proof fn law_cell_gives_value_back(value: Seq<char>)
    ensures
        csv_value(csv_cell(value)) == value,
{
    reveal_strlit("\"");
    let cell = csv_cell(value);
    if needs_quotes(value) {
        assert(cell.subrange(1, cell.len() - 1) =~= replace_char(value, '"', "\"\""@));
        lemma_undoubled(value);
    } else if value.len() > 0 {
        assert(value.contains(value[0]));
    }
}

proof fn lemma_in_quotes_concat(a: Seq<char>, b: Seq<char>)
    ensures
        in_quotes(a + b) == (in_quotes(a) != in_quotes(b)),
    decreases b.len(),
{
    if b.len() == 0 {
        assert(a + b =~= a);
    } else {
        assert((a + b).drop_last() =~= a + b.drop_last());
        lemma_in_quotes_concat(a, b.drop_last());
    }
}

/// A piece of a table that no `sep` outside a quotation stands in and that leaves none open.
pub open spec fn closed(s: Seq<char>, sep: char) -> bool {
    &&& !in_quotes(s)
    &&& forall|i: int| 0 <= i < s.len() && s[i] == sep ==> in_quotes(#[trigger] s.take(i))
}

proof fn lemma_first_unquoted(s: Seq<char>, sep: char, from: int, at: int)
    requires
        0 <= from <= at <= s.len(),
        forall|i: int| from <= i < at && s[i] == sep ==> in_quotes(#[trigger] s.take(i)),
        at < s.len() ==> s[at] == sep && !in_quotes(s.take(at)),
    ensures
        first_unquoted(s, sep, from) == at,
    decreases at - from,
{
    if from < at {
        assert(s[from] == sep ==> in_quotes(s.take(from)));
        lemma_first_unquoted(s, sep, from + 1, at);
    }
}

/// A closed piece before a `sep` is the first piece.
proof fn lemma_closed_piece(piece: Seq<char>, sep: char, rest: Seq<char>)
    requires
        closed(piece, sep),
    ensures
        csv_split(piece + seq![sep] + rest, sep) == seq![piece] + csv_split(rest, sep),
{
    let s = piece + seq![sep] + rest;
    let n = piece.len() as int;
    assert forall|i: int| 0 <= i < n && s[i] == sep implies in_quotes(#[trigger] s.take(i)) by {
        assert(s.take(i) =~= piece.take(i));
        assert(piece[i] == sep);
    }
    assert(s.take(n) =~= piece);
    lemma_first_unquoted(s, sep, 0, n);
    assert(s.skip(n + 1) =~= rest);
}

proof fn lemma_last_piece(piece: Seq<char>, sep: char)
    requires
        closed(piece, sep),
    ensures
        csv_split(piece, sep) == seq![piece],
{
    lemma_first_unquoted(piece, sep, 0, piece.len() as int);
}

/// Closed pieces that are joined by `sep` are the pieces between it.
proof fn lemma_pieces_back(pieces: Seq<Seq<char>>, sep: char)
    requires
        pieces.len() > 0,
        forall|i: int| 0 <= i < pieces.len() ==> closed(#[trigger] pieces[i], sep),
    ensures
        csv_split(join(pieces, seq![sep]), sep) == pieces,
    decreases pieces.len(),
{
    assert(closed(pieces[0], sep));
    if pieces.len() == 1 {
        lemma_last_piece(pieces[0], sep);
        assert(pieces =~= seq![pieces[0]]);
    } else {
        let tail = pieces.drop_first();
        assert forall|i: int| 0 <= i < tail.len() implies closed(#[trigger] tail[i], sep) by {
            assert(tail[i] == pieces[i + 1]);
        }
        lemma_pieces_back(tail, sep);
        lemma_join_front(pieces, seq![sep]);
        lemma_closed_piece(pieces[0], sep, join(tail, seq![sep]));
        assert(pieces =~= seq![pieces[0]] + tail);
    }
}

/// Two closed pieces make a closed one.
proof fn lemma_closed_concat(a: Seq<char>, b: Seq<char>, sep: char)
    requires
        closed(a, sep),
        closed(b, sep),
    ensures
        closed(a + b, sep),
{
    let s = a + b;
    lemma_in_quotes_concat(a, b);
    assert forall|i: int| 0 <= i < s.len() && s[i] == sep implies in_quotes(#[trigger] s.take(i)) by {
        if i < a.len() {
            assert(s.take(i) =~= a.take(i));
            assert(a[i] == sep);
        } else {
            let k = i - a.len();
            assert(s.take(i) =~= a + b.take(k));
            assert(b[k] == sep);
            lemma_in_quotes_concat(a, b.take(k));
        }
    }
}

/// Closed pieces that are joined by another character make a closed one.
proof fn lemma_closed_join(pieces: Seq<Seq<char>>, comma: char, sep: char)
    requires
        comma != sep,
        comma != '"',
        forall|i: int| 0 <= i < pieces.len() ==> closed(#[trigger] pieces[i], sep),
    ensures
        closed(join(pieces, seq![comma]), sep),
    decreases pieces.len(),
{
    if pieces.len() == 1 {
        assert(closed(pieces[0], sep));
    } else if pieces.len() > 1 {
        let head = pieces.drop_last();
        assert forall|i: int| 0 <= i < head.len() implies closed(#[trigger] head[i], sep) by {
            assert(head[i] == pieces[i]);
        }
        lemma_closed_join(head, comma, sep);
        let c = seq![comma];
        assert(!in_quotes(c.drop_last()));
        assert(!in_quotes(c));
        assert(closed(c, sep));
        lemma_closed_concat(join(head, c), c, sep);
        assert(closed(pieces[pieces.len() - 1], sep));
        lemma_closed_concat(join(head, c) + c, pieces.last(), sep);
    }
}

/// In a value with its quotation marks doubled none of them opens or closes one.
proof fn lemma_doubled(value: Seq<char>)
    ensures
        !in_quotes(replace_char(value, '"', "\"\""@)),
        forall|i: int|
            0 <= i < replace_char(value, '"', "\"\""@).len() && replace_char(
                value,
                '"',
                "\"\""@,
            )[i] != '"' ==> !in_quotes(#[trigger] replace_char(value, '"', "\"\""@).take(i)),
    decreases value.len(),
{
    reveal_strlit("\"\"");
    let t = replace_char(value, '"', "\"\""@);
    if value.len() > 0 {
        let h = replace_char(value.drop_last(), '"', "\"\""@);
        lemma_doubled(value.drop_last());
        if value.last() == '"' {
            assert(t.drop_last() =~= h.push('"'));
            assert(h.push('"').drop_last() =~= h);
            assert(in_quotes(h.push('"')));
        } else {
            assert(t.drop_last() =~= h);
        }
        assert forall|i: int| 0 <= i < t.len() && t[i] != '"' implies !in_quotes(
            #[trigger] t.take(i),
        ) by {
            if i < h.len() {
                assert(t.take(i) =~= h.take(i));
                assert(h[i] == t[i]);
            } else {
                assert(t.take(i) =~= h);
            }
        }
    }
}

/// A cell is closed for the comma and for line endings.
proof fn lemma_cell_closed(value: Seq<char>, sep: char)
    requires
        sep == ',' || sep == '\n' || sep == '\r',
    ensures
        closed(csv_cell(value), sep),
{
    reveal_strlit("\"");
    let cell = csv_cell(value);
    if needs_quotes(value) {
        let t = replace_char(value, '"', "\"\""@);
        let q = "\""@;
        lemma_doubled(value);
        assert(!in_quotes(q.drop_last()));
        assert(in_quotes(q));
        lemma_in_quotes_concat(q, t);
        lemma_in_quotes_concat(q + t, q);
        assert forall|i: int| 0 <= i < cell.len() && cell[i] == sep implies in_quotes(
            #[trigger] cell.take(i),
        ) by {
            assert(0 < i < cell.len() - 1);
            assert(cell[i] == t[i - 1]);
            assert(cell.take(i) =~= q + t.take(i - 1));
            lemma_in_quotes_concat(q, t.take(i - 1));
        }
    } else {
        lemma_no_quotes(value);
        assert forall|i: int| 0 <= i < cell.len() && cell[i] == sep implies in_quotes(
            #[trigger] cell.take(i),
        ) by {
            assert(value.contains(value[i]));
        }
    }
}

proof fn lemma_no_quotes(s: Seq<char>)
    requires
        !s.contains('"'),
    ensures
        !in_quotes(s),
    decreases s.len(),
{
    if s.len() > 0 {
        let head = s.drop_last();
        assert(s.contains(s[s.len() - 1]));
        assert(!head.contains('"')) by {
            if head.contains('"') {
                let i = choose|i: int| 0 <= i < head.len() && head[i] == '"';
                assert(s[i] == '"');
            }
        }
        lemma_no_quotes(head);
    }
}

/// The cells of values.
pub open spec fn csv_cells(values: Seq<Seq<char>>) -> Seq<Seq<char>> {
    Seq::new(values.len(), |i: int| csv_cell(values[i]))
}

/// The row of values.
pub open spec fn csv_row(values: Seq<Seq<char>>) -> Seq<char> {
    join(csv_cells(values), seq![','])
}

/// A row gives the cells back that it was made of.
pub proof fn law_row_gives_cells_back(values: Seq<Seq<char>>)
    requires
        values.len() > 0,
    ensures
        csv_split(csv_row(values), ',') == csv_cells(values),
{
    let cells = csv_cells(values);
    assert forall|i: int| 0 <= i < cells.len() implies closed(#[trigger] cells[i], ',') by {
        lemma_cell_closed(values[i], ',');
    }
    lemma_pieces_back(cells, ',');
}

/// A row is closed for line endings.
proof fn lemma_row_closed(values: Seq<Seq<char>>)
    ensures
        closed(csv_row(values), '\n'),
{
    let cells = csv_cells(values);
    assert forall|i: int| 0 <= i < cells.len() implies closed(#[trigger] cells[i], '\n') by {
        lemma_cell_closed(values[i], '\n');
    }
    lemma_closed_join(cells, ',', '\n');
}

/// A table with a line ending behind each row.
pub open spec fn csv_table(rows: Seq<Seq<char>>) -> Seq<char>
    decreases rows.len(),
{
    if rows.len() == 0 {
        seq![]
    } else {
        csv_table(rows.drop_last()) + rows.last() + seq!['\n']
    }
}

/// The rows of lists of values.
pub open spec fn csv_rows(lists: Seq<Seq<Seq<char>>>) -> Seq<Seq<char>> {
    Seq::new(lists.len(), |i: int| csv_row(lists[i]))
}

/// A table gives the rows back that it was made of, and an empty one behind the last line ending.
pub proof fn law_table_gives_rows_back(lists: Seq<Seq<Seq<char>>>)
    ensures
        csv_split(csv_table(csv_rows(lists)), '\n') == csv_rows(lists).push(seq![]),
{
    let rows = csv_rows(lists);
    let pieces = rows.push(seq![]);
    assert forall|i: int| 0 <= i < pieces.len() implies closed(#[trigger] pieces[i], '\n') by {
        if i < rows.len() {
            lemma_row_closed(lists[i]);
        }
    }
    lemma_table_is_join(rows);
    lemma_pieces_back(pieces, '\n');
}

proof fn lemma_table_is_join(rows: Seq<Seq<char>>)
    ensures
        csv_table(rows) == join(rows.push(seq![]), seq!['\n']),
    decreases rows.len(),
{
    let nl = seq!['\n'];
    let none: Seq<char> = seq![];
    let pieces = rows.push(none);
    assert(pieces.drop_last() =~= rows);
    if rows.len() > 0 {
        let head = rows.drop_last();
        lemma_table_is_join(head);
        assert(head.push(none).drop_last() =~= head);
        if head.len() == 0 {
            assert(join(rows, nl) == rows.last());
            assert(csv_table(head) =~= none);
        } else {
            assert(join(head.push(none), nl) =~= join(head, nl) + nl);
        }
        assert(csv_table(rows) =~= join(rows, nl) + nl + none);
    }
}

/// A value stands in quotes if and only if it has a comma, a quote or an end of line in it; any
/// other is its own cell.
pub proof fn law_which_cells_are_quoted(value: Seq<char>, i: int)
    ensures
        0 <= i < value.len() && (value[i] == ',' || value[i] == '"' || value[i] == '\n' || value[i]
            == '\r') ==> csv_cell(value).len() >= value.len() + 2 && csv_cell(value)[0] == '"'
            && csv_cell(value).last() == '"',
        (forall|j: int|
            0 <= j < value.len() ==> value[j] != ',' && value[j] != '"' && value[j] != '\n'
                && value[j] != '\r') ==> csv_cell(value) == value,
{
    reveal_strlit("\"");
    reveal_strlit("\"\"");
    lemma_doubled_len(value);
    if 0 <= i < value.len() {
        assert(value.contains(value[i]));
    }
}

proof fn lemma_doubled_len(value: Seq<char>)
    ensures
        replace_char(value, '"', "\"\""@).len() >= value.len(),
    decreases value.len(),
{
    reveal_strlit("\"\"");
    if value.len() > 0 {
        lemma_doubled_len(value.drop_last());
    }
}

} // verus!
