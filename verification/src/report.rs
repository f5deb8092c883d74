//! The parsing table written out as an HTML page.

use crate::parser::row_find;
use crate::symbols::{copy_names, end_marker, end_marker_token, lemma_names_push, names, names2};
use crate::table::{row_lookup, TableTerminals};
use vstd::prelude::*;
use vstd::string::StringExecFns;

verus! {

/// The symbols of `body` with single spaces between them.
pub open spec fn joined(body: Seq<Seq<char>>) -> Seq<char>
    decreases body.len(),
{
    if body.len() == 0 {
        Seq::empty()
    } else if body.len() == 1 {
        body[0]
    } else {
        joined(body.drop_last()) + " "@ + body.last()
    }
}

/// One header cell per column.
pub open spec fn header_html(columns: Seq<Seq<char>>) -> Seq<char>
    decreases columns.len(),
{
    if columns.len() == 0 {
        Seq::empty()
    } else {
        header_html(columns.drop_last()) + "<th>"@ + columns.last() + "</th>"@
    }
}

/// A cell: the production that rewrites `key`, or nothing where the table
/// holds none or one that the grammar does not have.
pub open spec fn cell_html(key: Seq<char>, bodies: Seq<Seq<Seq<char>>>, entry: Option<usize>) -> Seq<
    char,
> {
    match entry {
        Some(i) => if i < bodies.len() {
            "<td>"@ + key + " -> "@ + joined(bodies[i as int]) + "</td>"@
        } else {
            "<td></td>"@
        },
        None => "<td></td>"@,
    }
}

/// The cells of one row, one per column.
pub open spec fn cells_html(
    key: Seq<char>,
    bodies: Seq<Seq<Seq<char>>>,
    row: Seq<(String, usize)>,
    columns: Seq<Seq<char>>,
) -> Seq<char>
    decreases columns.len(),
{
    if columns.len() == 0 {
        Seq::empty()
    } else {
        cells_html(key, bodies, row, columns.drop_last()) + cell_html(
            key,
            bodies,
            row_lookup(row, columns.last()),
        )
    }
}

/// The first `upto` rows of the table, each with its non-terminal in front.
pub open spec fn rows_html(
    keys: Seq<Seq<char>>,
    bodies: Seq<Seq<Seq<char>>>,
    rows: Seq<Vec<(String, usize)>>,
    columns: Seq<Seq<char>>,
    upto: int,
) -> Seq<char>
    decreases upto,
{
    if upto <= 0 {
        Seq::empty()
    } else {
        rows_html(keys, bodies, rows, columns, upto - 1) + "<tr><td>"@ + keys[upto - 1] + "</td>"@
            + cells_html(keys[upto - 1], bodies, rows[upto - 1]@, columns) + "</tr>"@
    }
}

/// The number of rows that have both a non-terminal and cells.
pub open spec fn shown_rows(keys: Seq<Seq<char>>, rows: Seq<Vec<(String, usize)>>) -> int {
    if keys.len() <= rows.len() {
        keys.len() as int
    } else {
        rows.len() as int
    }
}

/// The opening of the page, up to the first header cell.
pub open spec fn page_head() -> Seq<char> {
    "
      <html>
        <style>
          table, th, td {
            border:1px solid black;
          }
        </style>
        <body>
          <table>
            <tr>
              <th>Non Terminal</th>"@
}

/// The whole page: the columns are the terminals and the end marker.
pub open spec fn table_html(
    terminals: Seq<Seq<char>>,
    keys: Seq<Seq<char>>,
    rows: Seq<Vec<(String, usize)>>,
    bodies: Seq<Seq<Seq<char>>>,
) -> Seq<char> {
    let columns: Seq<Seq<char>> = terminals.push(end_marker());
    page_head() + header_html(columns) + "</tr>"@ + rows_html(
        keys,
        bodies,
        rows,
        columns,
        shown_rows(keys, rows),
    ) + "</table></html></body>"@
}

/// Writes the symbols of `body` behind `page`, with single spaces between
/// them.
pub fn append_joined(page: &mut String, body: &Vec<String>)
    ensures
        final(page)@ == old(page)@ + joined(names(body@)),
{
    let mut k: usize = 0;
    proof {
        assert(names(body@).take(0) =~= Seq::<Seq<char>>::empty());
        assert(page@ =~= old(page)@ + joined(names(body@).take(0)));
    }
    while k < body.len()
        invariant
            k <= body@.len(),
            page@ == old(page)@ + joined(names(body@).take(k as int)),
        decreases body@.len() - k,
    {
        let ghost before: Seq<char> = page@;
        if k > 0 {
            page.append(" ");
        }
        page.append(body[k].as_str());
        proof {
            let seen: Seq<Seq<char>> = names(body@).take(k as int);
            let next: Seq<Seq<char>> = names(body@).take(k + 1);
            assert(next.drop_last() =~= seen);
            assert(next.last() == body@[k as int]@);
            if k == 0 {
                assert(joined(next) == next[0]);
                assert(joined(seen) =~= Seq::<char>::empty());
                assert(page@ =~= old(page)@ + joined(next));
            } else {
                assert(page@ =~= old(page)@ + joined(next));
            }
        }
        k += 1;
    }
    proof {
        assert(names(body@).take(body@.len() as int) =~= names(body@));
    }
}

/// The page for a table with one row per non-terminal.
pub fn table_as_html(
    terminals: &Vec<String>,
    non_terminals: &Vec<String>,
    table: &Vec<TableTerminals>,
    productions: &Vec<Vec<String>>,
) -> (page: String)
    ensures
        page@ == table_html(names(terminals@), names(non_terminals@), table@, names2(productions@)),
{
    let mut page: String = String::from_str(
        "
      <html>
        <style>
          table, th, td {
            border:1px solid black;
          }
        </style>
        <body>
          <table>
            <tr>
              <th>Non Terminal</th>",
    );
    let mut columns: Vec<String> = copy_names(terminals);
    let end_token: String = end_marker_token();
    proof {
        lemma_names_push(columns@, end_token);
    }
    columns.push(end_token);
    let ghost cols: Seq<Seq<char>> = names(terminals@).push(end_marker());
    let ghost keys: Seq<Seq<char>> = names(non_terminals@);
    let ghost bodies: Seq<Seq<Seq<char>>> = names2(productions@);
    let mut c: usize = 0;
    proof {
        assert(cols.take(0) =~= Seq::<Seq<char>>::empty());
        assert(page@ =~= page_head() + header_html(cols.take(0)));
    }
    while c < columns.len()
        invariant
            c <= columns@.len(),
            names(columns@) == cols,
            page@ == page_head() + header_html(cols.take(c as int)),
        decreases columns@.len() - c,
    {
        page.append("<th>");
        page.append(columns[c].as_str());
        page.append("</th>");
        proof {
            let next: Seq<Seq<char>> = cols.take(c + 1);
            assert(next.drop_last() =~= cols.take(c as int));
            assert(next.last() == columns@[c as int]@);
            assert(page@ =~= page_head() + header_html(next));
        }
        c += 1;
    }
    page.append("</tr>");
    proof {
        assert(cols.take(cols.len() as int) =~= cols);
    }
    let shown: usize = if non_terminals.len() <= table.len() {
        non_terminals.len()
    } else {
        table.len()
    };
    let ghost front: Seq<char> = page_head() + header_html(cols) + "</tr>"@;
    let mut r: usize = 0;
    proof {
        assert(page@ =~= front + rows_html(keys, bodies, table@, cols, 0));
    }
    while r < shown
        invariant
            r <= shown,
            shown == shown_rows(keys, table@),
            names(columns@) == cols,
            keys == names(non_terminals@),
            bodies == names2(productions@),
            page@ == front + rows_html(keys, bodies, table@, cols, r as int),
        decreases shown - r,
    {
        let ghost before: Seq<char> = page@;
        let key: &String = &non_terminals[r];
        page.append("<tr><td>");
        page.append(key.as_str());
        page.append("</td>");
        let ghost opened: Seq<char> = page@;
        let mut c: usize = 0;
        proof {
            assert(cols.take(0) =~= Seq::<Seq<char>>::empty());
            assert(page@ =~= opened + cells_html(key@, bodies, table@[r as int]@, cols.take(0)));
        }
        while c < columns.len()
            invariant
                c <= columns@.len(),
                r < shown,
                shown == shown_rows(keys, table@),
                names(columns@) == cols,
                bodies == names2(productions@),
                page@ == opened + cells_html(
                    key@,
                    bodies,
                    table@[r as int]@,
                    cols.take(c as int),
                ),
            decreases columns@.len() - c,
        {
            let ghost sofar: Seq<char> = page@;
            let entry: Option<usize> = row_find(&table[r], &columns[c]);
            let usable: Option<usize> = match entry {
                Some(i) => if i < productions.len() {
                    Some(i)
                } else {
                    None
                },
                None => None,
            };
            match usable {
                Some(i) => {
                    page.append("<td>");
                    page.append(key.as_str());
                    page.append(" -> ");
                    append_joined(&mut page, &productions[i]);
                    page.append("</td>");
                    proof {
                        assert(bodies[i as int] == names(productions@[i as int]@));
                    }
                },
                None => {
                    page.append("<td></td>");
                },
            }
            proof {
                let next: Seq<Seq<char>> = cols.take(c + 1);
                assert(next.drop_last() =~= cols.take(c as int));
                assert(next.last() == columns@[c as int]@);
                assert(page@ =~= sofar + cell_html(
                    key@,
                    bodies,
                    row_lookup(table@[r as int]@, next.last()),
                ));
                assert(page@ =~= opened + cells_html(key@, bodies, table@[r as int]@, next));
            }
            c += 1;
        }
        page.append("</tr>");
        proof {
            assert(cols.take(cols.len() as int) =~= cols);
            assert(keys[r as int] == key@);
            assert(page@ =~= front + rows_html(keys, bodies, table@, cols, r + 1));
        }
        r += 1;
    }
    page.append("</table></html></body>");
    page
}

} // verus!
