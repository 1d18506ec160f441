use crate::error::Error;
use crate::header::DbHeader;
use crate::page::spec_read_page;
use crate::sql_parser::parse;
use crate::sql_parser::{CreateTableArg, SelectArg, SelectArgModel};
use crate::table::{
    bytes_eq, copy_bytes, extend_bytes, spec_display, spec_to_int, spec_to_str, Record,
    RecordModel, Row, Table,
};
use vstd::prelude::*;

verus! {

/// Whether the row's third column is text or a blob holding `name`.
pub open spec fn spec_row_names(row: Seq<RecordModel>, name: Seq<u8>) -> bool {
    row.len() > 2 && spec_to_str(row[2]) == Some(name)
}

/// The first row at or after `i` whose third column holds `name`.
pub open spec fn spec_find_from(rows: Seq<Seq<RecordModel>>, name: Seq<u8>, i: int) -> Option<
    int,
>
    decreases rows.len() - i,
{
    if i < 0 || i >= rows.len() {
        None
    } else if spec_row_names(rows[i], name) {
        Some(i)
    } else {
        spec_find_from(rows, name, i + 1)
    }
}

proof fn lemma_find_from_range(rows: Seq<Seq<RecordModel>>, name: Seq<u8>, i: int)
    ensures
        spec_find_from(rows, name, i) matches Some(x) ==> i <= x < rows.len()
            && spec_row_names(rows[x], name),
    decreases rows.len() - i,
{
    if !(i < 0 || i >= rows.len()) && !spec_row_names(rows[i], name) {
        lemma_find_from_range(rows, name, i + 1);
    }
}

fn row_names(row: &Row, name: &Vec<u8>) -> (r: bool)
    ensures
        r == spec_row_names(row.deep_view(), name@),
{
    if row.len() <= 2 {
        return false;
    }
    assert(row.deep_view()[2] == row@[2]@);
    match &row[2] {
        Record::STRING(v) => bytes_eq(v, name),
        Record::BLOB(v) => bytes_eq(v, name),
        _ => false,
    }
}

#[verifier::loop_isolation(false)]
fn find_table(table: &Table, name: &Vec<u8>) -> (r: Option<usize>)
    ensures
        match r {
            Some(i) => spec_find_from(table.deep_view(), name@, 0) == Some(i as int),
            None => spec_find_from(table.deep_view(), name@, 0) is None,
        },
{
    let ghost dv = table.deep_view();
    let mut i: usize = 0;
    while i < table.len()
        invariant
            i <= table@.len(),
            spec_find_from(dv, name@, 0) == spec_find_from(dv, name@, i as int),
        decreases table@.len() - i,
    {
        assert(dv[i as int] == table@[i as int].deep_view());
        if row_names(&table[i], name) {
            return Some(i);
        }
        i = i + 1;
    }
    None
}

/// The root page number a schema row declares: its fifth column, which must
/// carry an integer.
pub open spec fn spec_schema_root(row: Seq<RecordModel>) -> Option<i64> {
    if row.len() > 4 {
        spec_to_int(row[4])
    } else {
        None
    }
}

/// The CREATE TABLE text a schema row carries: its sixth column, which must
/// be text.
pub open spec fn spec_schema_sql(row: Seq<RecordModel>) -> Option<Seq<u8>> {
    if row.len() > 5 {
        match row[5] {
            RecordModel::Text(b) => Some(b),
            _ => None,
        }
    } else {
        None
    }
}

/// The first column at or after `j` named `name`.
pub open spec fn spec_position_of(cols: Seq<Seq<u8>>, name: Seq<u8>, j: int) -> Option<int>
    decreases cols.len() - j,
{
    if j < 0 || j >= cols.len() {
        None
    } else if cols[j] == name {
        Some(j)
    } else {
        spec_position_of(cols, name, j + 1)
    }
}

proof fn lemma_position_of_range(cols: Seq<Seq<u8>>, name: Seq<u8>, j: int)
    ensures
        spec_position_of(cols, name, j) matches Some(x) ==> j <= x < cols.len(),
    decreases cols.len() - j,
{
    if !(j < 0 || j >= cols.len()) && cols[j] != name {
        lemma_position_of_range(cols, name, j + 1);
    }
}

/// The column indices the projections select, in projection order: each
/// bare name resolves to the first column carrying it; a name no column
/// carries, a star, and every COUNT are dropped.
pub open spec fn spec_positions(args: Seq<SelectArgModel>, cols: Seq<Seq<u8>>) -> Seq<int>
    decreases args.len(),
{
    if args.len() == 0 {
        Seq::empty()
    } else {
        let rest = spec_positions(args.drop_first(), cols);
        match args[0] {
            SelectArgModel::Literal(v) => match spec_position_of(cols, v, 0) {
                Some(j) => seq![j] + rest,
                None => rest,
            },
            SelectArgModel::Count(_) => rest,
        }
    }
}

proof fn lemma_positions_in_range(args: Seq<SelectArgModel>, cols: Seq<Seq<u8>>)
    ensures
        forall|k: int|
            0 <= k < spec_positions(args, cols).len() ==> 0 <= #[trigger] spec_positions(
                args,
                cols,
            )[k] < cols.len(),
    decreases args.len(),
{
    if args.len() > 0 {
        lemma_positions_in_range(args.drop_first(), cols);
        let rest = spec_positions(args.drop_first(), cols);
        let whole = spec_positions(args, cols);
        match args[0] {
            SelectArgModel::Literal(v) => {
                match spec_position_of(cols, v, 0) {
                    Some(j) => {
                        lemma_position_of_range(cols, v, 0);
                        assert forall|k: int| 0 <= k < whole.len() implies 0 <= #[trigger] whole[k]
                            < cols.len() by {
                            if k > 0 {
                                assert(whole[k] == rest[k - 1]);
                            }
                        }
                    },
                    None => {
                    },
                }
            },
            SelectArgModel::Count(_) => {
            },
        }
    }
}

#[verifier::loop_isolation(false)]
fn position_of(cols: &Vec<CreateTableArg>, name: &Vec<u8>) -> (r: Option<usize>)
    ensures
        match r {
            Some(j) => spec_position_of(cols.deep_view(), name@, 0) == Some(j as int),
            None => spec_position_of(cols.deep_view(), name@, 0) is None,
        },
{
    let ghost dv = cols.deep_view();
    let mut j: usize = 0;
    while j < cols.len()
        invariant
            j <= cols@.len(),
            spec_position_of(dv, name@, 0) == spec_position_of(dv, name@, j as int),
        decreases cols@.len() - j,
    {
        assert(dv[j as int] == cols@[j as int].deep_view());
        if bytes_eq(&cols[j].column, name) {
            return Some(j);
        }
        j = j + 1;
    }
    None
}

#[verifier::loop_isolation(false)]
fn positions_of(args: &Vec<SelectArg>, cols: &Vec<CreateTableArg>) -> (r: Vec<usize>)
    ensures
        r@.map_values(|u: usize| u as int) == spec_positions(args.deep_view(), cols.deep_view()),
{
    let ghost adv = args.deep_view();
    let ghost cdv = cols.deep_view();
    let ghost full = spec_positions(adv, cdv);
    let mut out: Vec<usize> = Vec::new();
    let mut i: usize = 0;
    assert(adv.skip(0) =~= adv);
    assert(out@.map_values(|u: usize| u as int) + full =~= full);
    while i < args.len()
        invariant
            i <= args@.len(),
            out@.map_values(|u: usize| u as int) + spec_positions(adv.skip(i as int), cdv)
                == full,
        decreases args@.len() - i,
    {
        proof {
            assert(adv.skip(i as int)[0] == adv[i as int]);
            assert(adv.skip(i as int).drop_first() =~= adv.skip(i as int + 1));
            assert(adv[i as int] == args@[i as int].deep_view());
        }
        let ghost pre = out@.map_values(|u: usize| u as int);
        let ghost rest = spec_positions(adv.skip(i as int + 1), cdv);
        match &args[i] {
            SelectArg::LITERAL(v) => {
                match position_of(cols, v) {
                    Some(j) => {
                        out.push(j);
                        proof {
                            assert(out@.map_values(|u: usize| u as int) =~= pre.push(j as int));
                            assert(pre + (seq![j as int] + rest) =~= pre.push(j as int) + rest);
                        }
                    },
                    None => {
                    },
                }
            },
            SelectArg::COUNT(_) => {
            },
        }
        i = i + 1;
    }
    assert(adv.skip(adv.len() as int) =~= Seq::<SelectArgModel>::empty());
    assert(out@.map_values(|u: usize| u as int) + Seq::<int>::empty() =~= out@.map_values(
        |u: usize| u as int,
    ));
    out
}

/// Pieces joined by a separator byte.
pub open spec fn spec_join(items: Seq<Seq<u8>>, sep: u8) -> Seq<u8>
    decreases items.len(),
{
    if items.len() == 0 {
        Seq::empty()
    } else if items.len() == 1 {
        items[0]
    } else {
        items[0] + seq![sep] + spec_join(items.drop_first(), sep)
    }
}

#[verifier::loop_isolation(false)]
fn join_from(items: &Vec<Vec<u8>>, i: usize, sep: u8) -> (r: Vec<u8>)
    requires
        i <= items.len(),
    ensures
        r@ == spec_join(items.deep_view().skip(i as int), sep),
    decreases items@.len() - i,
{
    let ghost dv = items.deep_view();
    if i >= items.len() {
        let v: Vec<u8> = Vec::new();
        assert(dv.skip(i as int) =~= Seq::<Seq<u8>>::empty());
        v
    } else {
        proof {
            assert(dv.skip(i as int)[0] == dv[i as int]);
            assert(dv.skip(i as int).drop_first() =~= dv.skip(i as int + 1));
            assert(dv[i as int] == items@[i as int].deep_view());
            assert(dv[i as int] =~= items@[i as int]@);
        }
        let mut out = copy_bytes(&items[i]);
        if i == items.len() - 1 {
            assert(dv.skip(i as int).len() == 1);
            out
        } else {
            out.push(sep);
            let rest = join_from(items, i + 1, sep);
            extend_bytes(&mut out, &rest);
            assert(out@ =~= spec_join(dv.skip(i as int), sep));
            out
        }
    }
}

/// Joins the pieces with a separator byte between neighbours.
fn join_bytes(items: &Vec<Vec<u8>>, sep: u8) -> (r: Vec<u8>)
    ensures
        r@ == spec_join(items.deep_view(), sep),
{
    let r = join_from(items, 0, sep);
    assert(items.deep_view().skip(0) =~= items.deep_view());
    r
}

/// What executing a parsed SELECT against the schema settles before the
/// table's page is read: the file offset of the root page, the selected
/// column indices, and the header line. Each way it can fail instead:
/// a query outside the grammar, a table the schema does not name, and a
/// schema row whose root page is no integer, whose SQL is no text or does
/// not parse, or whose root page offset leaves the file range.
pub open spec fn spec_plan(rows: Seq<Seq<RecordModel>>, ps: u16, q: Seq<u8>) -> Result<
    (nat, Seq<int>, Seq<u8>),
    Error,
> {
    match parse::spec_select_statement(q) {
        None => Err(Error::ParseError),
        Some(sel) => match spec_find_from(rows, sel.table, 0) {
            None => Err(Error::UnknownTable),
            Some(i) => {
                let row = rows[i];
                match spec_schema_root(row) {
                    None => Err(Error::CorruptSchema),
                    Some(root) => match spec_schema_sql(row) {
                        None => Err(Error::CorruptSchema),
                        Some(sql) => match parse::spec_create_table_statement(sql) {
                            None => Err(Error::CorruptSchema),
                            Some(ct) => {
                                if root <= 0 || (root - 1) * (ps as int) > u64::MAX {
                                    Err(Error::CorruptSchema)
                                } else {
                                    let positions = spec_positions(sel.args, ct.args);
                                    let header = spec_join(
                                        positions.map_values(|j: int| ct.args[j]),
                                        124,
                                    );
                                    Ok((((root - 1) * (ps as int)) as nat, positions, header))
                                }
                            },
                        },
                    },
                }
            },
        },
    }
}

/// Everything a SELECT needs besides the root page's bytes.
#[derive(Debug)]
pub struct Plan {
    pub page_offset: u64,
    pub positions: Vec<usize>,
    pub header_line: Vec<u8>,
}

fn selected_names(cols: &Vec<CreateTableArg>, positions: &Vec<usize>) -> (r: Vec<Vec<u8>>)
    requires
        forall|k: int|
            0 <= k < positions@.len() ==> (#[trigger] positions@[k]) < cols@.len(),
    ensures
        r.deep_view() == positions@.map_values(|u: usize| u as int).map_values(
            |j: int| cols.deep_view()[j],
        ),
{
    let ghost target = positions@.map_values(|u: usize| u as int).map_values(
        |j: int| cols.deep_view()[j],
    );
    let mut out: Vec<Vec<u8>> = Vec::new();
    let mut k: usize = 0;
    while k < positions.len()
        invariant
            k <= positions@.len(),
            out.deep_view().len() == k,
            forall|m: int| 0 <= m < k ==> out.deep_view()[m] == target[m],
            forall|m: int| 0 <= m < positions@.len() ==> (#[trigger] positions@[m]) < cols@.len(),
            target == positions@.map_values(|u: usize| u as int).map_values(
                |j: int| cols.deep_view()[j],
            ),
        decreases positions@.len() - k,
    {
        let j = positions[k];
        let name = copy_bytes(&cols[j].column);
        let ghost pre = out.deep_view();
        out.push(name);
        proof {
            assert(out.deep_view() =~~= pre.push(name@));
            assert(cols.deep_view()[j as int] == cols@[j as int].deep_view());
        }
        k = k + 1;
    }
    assert(out.deep_view() =~= target);
    out
}

/// Binds a parsed SELECT to the schema: finds the table's row, reads its
/// root page number and CREATE TABLE text, resolves the projections to
/// column indices, and computes where the root page lies in the file.
pub fn statement(table: &Table, db_header: &DbHeader, query: &Vec<u8>) -> (r: Result<Plan, Error>)
    ensures
        ({
            let res = spec_plan(table.deep_view(), db_header.page_size, query@);
            match r {
                Ok(plan) => {
                    &&& res matches Ok(t)
                    &&& plan.page_offset as nat == t.0
                    &&& plan.positions@.map_values(|u: usize| u as int) == t.1
                    &&& plan.header_line@ == t.2
                },
                Err(e) => res == Err::<(nat, Seq<int>, Seq<u8>), Error>(e),
            }
        }),
{
    let ghost rows = table.deep_view();
    let sel = match parse::select_statement(query) {
        Ok(st) => st,
        Err(_) => {
            return Err(Error::ParseError);
        },
    };
    let idx = match find_table(table, &sel.table) {
        Some(i) => i,
        None => {
            return Err(Error::UnknownTable);
        },
    };
    proof {
        lemma_find_from_range(rows, sel.table@, 0);
        assert(rows[idx as int] == table@[idx as int].deep_view());
    }
    let row = &table[idx];
    if row.len() <= 4 {
        return Err(Error::CorruptSchema);
    }
    assert(row.deep_view()[4] == row@[4]@);
    let root = match row[4].to_int() {
        Some(v) => v,
        None => {
            return Err(Error::CorruptSchema);
        },
    };
    if row.len() <= 5 {
        return Err(Error::CorruptSchema);
    }
    assert(row.deep_view()[5] == row@[5]@);
    let sql = match &row[5] {
        Record::STRING(b) => b,
        _ => {
            return Err(Error::CorruptSchema);
        },
    };
    let ct = match parse::create_table_statement(sql) {
        Ok(st) => st,
        Err(_) => {
            return Err(Error::CorruptSchema);
        },
    };
    if root <= 0 {
        return Err(Error::CorruptSchema);
    }
    let base = (root - 1) as u64;
    let page_offset = match base.checked_mul(db_header.page_size as u64) {
        Some(v) => v,
        None => {
            return Err(Error::CorruptSchema);
        },
    };
    let positions = positions_of(&sel.args, &ct.args);
    proof {
        lemma_positions_in_range(sel.args.deep_view(), ct.args.deep_view());
        assert(forall|k: int|
            0 <= k < positions@.len() ==> (#[trigger] positions@[k] as int)
                == positions@.map_values(|u: usize| u as int)[k]);
    }
    let names = selected_names(&ct.args, &positions);
    let header_line = join_bytes(&names, 124);
    proof {
        let pos_int = positions@.map_values(|u: usize| u as int);
        assert(names.deep_view() =~= pos_int.map_values(|j: int| ct.args.deep_view()[j]));
    }
    Ok(Plan { page_offset, positions, header_line })
}

/// One projected row: the cell after the rowid at each selected column
/// index, and an empty null where a row is too short to hold it.
pub open spec fn spec_project_row(row: Seq<RecordModel>, positions: Seq<int>) -> Seq<
    RecordModel,
> {
    positions.map_values(
        |j: int|
            if 0 <= j + 1 < row.len() {
                row[j + 1]
            } else {
                RecordModel::Null
            },
    )
}

/// Every row of the table projected to the selected columns.
pub open spec fn spec_project(rows: Seq<Seq<RecordModel>>, positions: Seq<int>) -> Seq<
    Seq<RecordModel>,
> {
    rows.map_values(|row: Seq<RecordModel>| spec_project_row(row, positions))
}

fn project_row(row: &Row, positions: &Vec<usize>) -> (r: Row)
    ensures
        r.deep_view() == spec_project_row(
            row.deep_view(),
            positions@.map_values(|u: usize| u as int),
        ),
{
    let ghost target = spec_project_row(
        row.deep_view(),
        positions@.map_values(|u: usize| u as int),
    );
    let mut cells: Row = Vec::new();
    let mut k: usize = 0;
    while k < positions.len()
        invariant
            k <= positions@.len(),
            cells.deep_view().len() == k,
            forall|m: int| 0 <= m < k ==> cells.deep_view()[m] == target[m],
            target == spec_project_row(
                row.deep_view(),
                positions@.map_values(|u: usize| u as int),
            ),
        decreases positions@.len() - k,
    {
        let j = positions[k];
        let c = if j < row.len() && j + 1 < row.len() {
            assert(row.deep_view()[j + 1] == row@[j as int + 1]@);
            row[j + 1].duplicate()
        } else {
            Record::NULL
        };
        let ghost pre = cells.deep_view();
        cells.push(c);
        proof {
            assert(cells.deep_view() =~= pre.push(c@));
        }
        k = k + 1;
    }
    assert(cells.deep_view() =~= target);
    cells
}

/// Decodes the table's root page and projects each of its rows to the
/// selected columns.
pub fn eval(page: &Vec<u8>, positions: &Vec<usize>) -> (r: Result<Vec<Row>, Error>)
    ensures
        ({
            let res = spec_read_page(page@, 0, false);
            match r {
                Ok(t) => {
                    &&& res matches Some(rows)
                    &&& t.deep_view() == spec_project(
                        rows,
                        positions@.map_values(|u: usize| u as int),
                    )
                },
                Err(e) => {
                    &&& e == Error::MalformedPage
                    &&& res is None
                },
            }
        }),
{
    let data = match crate::reader::read_page(page, false) {
        Ok(t) => t,
        Err(e) => {
            return Err(e);
        },
    };
    let ghost rows = data.deep_view();
    let ghost target = spec_project(rows, positions@.map_values(|u: usize| u as int));
    let mut out: Vec<Row> = Vec::new();
    let mut i: usize = 0;
    while i < data.len()
        invariant
            i <= data@.len(),
            out.deep_view().len() == i,
            forall|m: int| 0 <= m < i ==> out.deep_view()[m] == target[m],
            rows == data.deep_view(),
            target == spec_project(rows, positions@.map_values(|u: usize| u as int)),
        decreases data@.len() - i,
    {
        assert(rows[i as int] == data@[i as int].deep_view());
        let cells = project_row(&data[i], positions);
        let ghost pre = out.deep_view();
        out.push(cells);
        proof {
            assert(out.deep_view() =~= pre.push(target[i as int]));
        }
        i = i + 1;
    }
    assert(out.deep_view() =~= target);
    Ok(out)
}

/// The display forms of every cell of one row; nothing where any cell is a
/// floating value.
pub open spec fn spec_displays(cells: Seq<RecordModel>) -> Option<Seq<Seq<u8>>>
    decreases cells.len(),
{
    if cells.len() == 0 {
        Some(Seq::empty())
    } else {
        match spec_display(cells[0]) {
            None => None,
            Some(d) => match spec_displays(cells.drop_first()) {
                None => None,
                Some(rest) => Some(seq![d] + rest),
            },
        }
    }
}

/// One output line: the cells' display forms joined by pipes.
pub open spec fn spec_row_line(cells: Seq<RecordModel>) -> Option<Seq<u8>> {
    match spec_displays(cells) {
        None => None,
        Some(ds) => Some(spec_join(ds, 124)),
    }
}

/// Every output line of the projected rows.
pub open spec fn spec_lines(rows: Seq<Seq<RecordModel>>) -> Option<Seq<Seq<u8>>>
    decreases rows.len(),
{
    if rows.len() == 0 {
        Some(Seq::empty())
    } else {
        match spec_row_line(rows[0]) {
            None => None,
            Some(line) => match spec_lines(rows.drop_first()) {
                None => None,
                Some(rest) => Some(seq![line] + rest),
            },
        }
    }
}

/// The whole SELECT output: the header line, then every row line, each
/// ended by a newline; nothing where some projected cell is a floating
/// value, whose rendering is left to the caller.
pub open spec fn spec_select_output(header: Seq<u8>, rows: Seq<Seq<RecordModel>>) -> Option<
    Seq<u8>,
> {
    match spec_lines(rows) {
        None => None,
        Some(ls) => Some(header + seq![10u8] + spec_join(ls, 10) + seq![10u8]),
    }
}

#[verifier::loop_isolation(false)]
fn row_line(row: &Row) -> (r: Option<Vec<u8>>)
    ensures
        match r {
            Some(l) => spec_row_line(row.deep_view()) == Some(l@),
            None => spec_row_line(row.deep_view()) is None,
        },
{
    let ghost dv = row.deep_view();
    let ghost full = spec_displays(dv);
    let mut ds: Vec<Vec<u8>> = Vec::new();
    let mut k: usize = 0;
    assert(dv.skip(0) =~= dv);
    while k < row.len()
        invariant
            k <= row@.len(),
            ({
                match spec_displays(dv.skip(k as int)) {
                    None => full is None,
                    Some(rest) => full == Some(ds.deep_view() + rest),
                }
            }),
        decreases row@.len() - k,
    {
        proof {
            assert(dv.skip(k as int)[0] == dv[k as int]);
            assert(dv.skip(k as int).drop_first() =~= dv.skip(k as int + 1));
            assert(dv[k as int] == row@[k as int]@);
        }
        let d = match row[k].display() {
            Some(d) => d,
            None => {
                return None;
            },
        };
        let ghost pre = ds.deep_view();
        let ghost rest_next = spec_displays(dv.skip(k as int + 1));
        ds.push(d);
        proof {
            assert(ds.deep_view() =~~= pre.push(d@));
            if rest_next is Some {
                assert(pre + (seq![d@] + rest_next->Some_0) =~= ds.deep_view()
                    + rest_next->Some_0);
            }
        }
        k = k + 1;
    }
    proof {
        assert(dv.skip(dv.len() as int) =~= Seq::<RecordModel>::empty());
        assert(ds.deep_view() + Seq::<Seq<u8>>::empty() =~= ds.deep_view());
    }
    Some(join_bytes(&ds, 124))
}

/// Renders the projected rows under the header line; nothing where some
/// cell is a floating value.
#[verifier::loop_isolation(false)]
pub fn render(header_line: &Vec<u8>, rows: &Vec<Row>) -> (r: Option<Vec<u8>>)
    ensures
        match r {
            Some(out) => spec_select_output(header_line@, rows.deep_view()) == Some(out@),
            None => spec_select_output(header_line@, rows.deep_view()) is None,
        },
{
    let ghost dv = rows.deep_view();
    let ghost full = spec_lines(dv);
    let mut lines: Vec<Vec<u8>> = Vec::new();
    let mut i: usize = 0;
    assert(dv.skip(0) =~= dv);
    while i < rows.len()
        invariant
            i <= rows@.len(),
            ({
                match spec_lines(dv.skip(i as int)) {
                    None => full is None,
                    Some(rest) => full == Some(lines.deep_view() + rest),
                }
            }),
        decreases rows@.len() - i,
    {
        proof {
            assert(dv.skip(i as int)[0] == dv[i as int]);
            assert(dv.skip(i as int).drop_first() =~= dv.skip(i as int + 1));
            assert(dv[i as int] == rows@[i as int].deep_view());
        }
        let line = match row_line(&rows[i]) {
            Some(l) => l,
            None => {
                return None;
            },
        };
        let ghost pre = lines.deep_view();
        let ghost rest_next = spec_lines(dv.skip(i as int + 1));
        lines.push(line);
        proof {
            assert(lines.deep_view() =~~= pre.push(line@));
            if rest_next is Some {
                assert(pre + (seq![line@] + rest_next->Some_0) =~= lines.deep_view()
                    + rest_next->Some_0);
            }
        }
        i = i + 1;
    }
    proof {
        assert(dv.skip(dv.len() as int) =~= Seq::<Seq<RecordModel>>::empty());
        assert(lines.deep_view() + Seq::<Seq<u8>>::empty() =~= lines.deep_view());
    }
    let mut out = copy_bytes(header_line);
    out.push(10);
    let joined = join_bytes(&lines, 10);
    extend_bytes(&mut out, &joined);
    out.push(10);
    assert(out@ =~= header_line@ + seq![10u8] + spec_join(lines.deep_view(), 10) + seq![10u8]);
    Some(out)
}

/// The names of the schema's tables, each followed by one space; nothing
/// where a name cell is a floating value.
pub open spec fn spec_tables_output(rows: Seq<Seq<RecordModel>>) -> Option<Seq<u8>>
    decreases rows.len(),
{
    if rows.len() == 0 {
        Some(Seq::empty())
    } else {
        let d = if rows[0].len() > 2 {
            spec_display(rows[0][2])
        } else {
            Some(Seq::empty())
        };
        match d {
            None => None,
            Some(dd) => match spec_tables_output(rows.drop_first()) {
                None => None,
                Some(rest) => Some(dd + seq![32u8] + rest),
            },
        }
    }
}

/// Writes each schema row's table name, separated by single spaces.
#[verifier::loop_isolation(false)]
pub fn tables(table: &Table) -> (r: Option<Vec<u8>>)
    ensures
        match r {
            Some(out) => spec_tables_output(table.deep_view()) == Some(out@),
            None => spec_tables_output(table.deep_view()) is None,
        },
{
    let ghost dv = table.deep_view();
    let ghost full = spec_tables_output(dv);
    let mut out: Vec<u8> = Vec::new();
    let mut i: usize = 0;
    assert(dv.skip(0) =~= dv);
    while i < table.len()
        invariant
            i <= table@.len(),
            ({
                match spec_tables_output(dv.skip(i as int)) {
                    None => full is None,
                    Some(rest) => full == Some(out@ + rest),
                }
            }),
        decreases table@.len() - i,
    {
        proof {
            assert(dv.skip(i as int)[0] == dv[i as int]);
            assert(dv.skip(i as int).drop_first() =~= dv.skip(i as int + 1));
            assert(dv[i as int] == table@[i as int].deep_view());
        }
        let row = &table[i];
        let ghost pre = out@;
        if row.len() > 2 {
            assert(row.deep_view()[2] == row@[2]@);
            match row[2].display() {
                Some(d) => {
                    extend_bytes(&mut out, &d);
                },
                None => {
                    return None;
                },
            }
        }
        out.push(32);
        proof {
            let rest_next = spec_tables_output(dv.skip(i as int + 1));
            let d = if dv[i as int].len() > 2 {
                spec_display(dv[i as int][2])
            } else {
                Some(Seq::<u8>::empty())
            };
            if rest_next is Some && d is Some {
                assert(pre + (d->Some_0 + seq![32u8] + rest_next->Some_0) =~= out@
                    + rest_next->Some_0);
            }
        }
        i = i + 1;
    }
    proof {
        assert(dv.skip(dv.len() as int) =~= Seq::<Seq<RecordModel>>::empty());
        assert(out@ + Seq::<u8>::empty() =~= out@);
    }
    Some(out)
}

/// The bytes of "database page size: ".
pub open spec fn spec_lit_page_size() -> Seq<u8> {
    seq![
        100u8,
        97,
        116,
        97,
        98,
        97,
        115,
        101,
        32,
        112,
        97,
        103,
        101,
        32,
        115,
        105,
        122,
        101,
        58,
        32,
    ]
}

/// The bytes of "number of tables: ".
pub open spec fn spec_lit_table_count() -> Seq<u8> {
    seq![110u8, 117, 109, 98, 101, 114, 32, 111, 102, 32, 116, 97, 98, 108, 101, 115, 58, 32]
}

/// The two lines of the file report: the page size, then how many rows the
/// schema holds after the sequence-row filter.
pub open spec fn spec_db_info_output(ps: u16, count: nat) -> Seq<u8> {
    spec_lit_page_size() + crate::table::spec_decimal(ps as nat) + seq![10u8]
        + spec_lit_table_count() + crate::table::spec_decimal(count) + seq![10u8]
}

fn lit_page_size() -> (r: Vec<u8>)
    ensures
        r@ == spec_lit_page_size(),
{
    let mut v: Vec<u8> = Vec::new();
    v.push(100);
    v.push(97);
    v.push(116);
    v.push(97);
    v.push(98);
    v.push(97);
    v.push(115);
    v.push(101);
    v.push(32);
    v.push(112);
    v.push(97);
    v.push(103);
    v.push(101);
    v.push(32);
    v.push(115);
    v.push(105);
    v.push(122);
    v.push(101);
    v.push(58);
    v.push(32);
    assert(v@ =~= spec_lit_page_size());
    v
}

fn lit_table_count() -> (r: Vec<u8>)
    ensures
        r@ == spec_lit_table_count(),
{
    let mut v: Vec<u8> = Vec::new();
    v.push(110);
    v.push(117);
    v.push(109);
    v.push(98);
    v.push(101);
    v.push(114);
    v.push(32);
    v.push(111);
    v.push(102);
    v.push(32);
    v.push(116);
    v.push(97);
    v.push(98);
    v.push(108);
    v.push(101);
    v.push(115);
    v.push(58);
    v.push(32);
    assert(v@ =~= spec_lit_table_count());
    v
}

/// Writes the two-line file report for the decoded schema.
pub fn db_info(table: &Table, db_header: &DbHeader) -> (out: Vec<u8>)
    ensures
        out@ == spec_db_info_output(db_header.page_size, table@.len()),
{
    let mut out = lit_page_size();
    let ps = crate::table::decimal(db_header.page_size as u64);
    extend_bytes(&mut out, &ps);
    out.push(10);
    let lit2 = lit_table_count();
    extend_bytes(&mut out, &lit2);
    let cnt = crate::table::decimal(table.len() as u64);
    extend_bytes(&mut out, &cnt);
    out.push(10);
    assert(out@ =~= spec_db_info_output(db_header.page_size, table@.len()));
    out
}

} // verus!
