//! Schemas and tables. A table only grows: rows are put at its end.
use crate::column::{
    add_sizes, capped, cell_rows, cell_type, cells, cells_bytes, name_of_type, pushed, room_for,
    too_long, Cell, Cells, Column, DataType, Value,
};
use crate::exec::arr::contents;
use crate::float::Floats;
use crate::text::{
    dec, dec_usize, eq_ignore_ascii_case, err, same_name, text3, text4, text5, text6, Error,
    Named,
};
use vstd::prelude::*;
use vstd::string::*;

verus! {

broadcast use vstd::string::group_string_axioms;

#[derive(Debug)]
pub struct Field {
    pub name: String,
    pub ty: DataType,
}

/// What a [`Field`] is.
#[verifier::ext_equal]
pub struct Attr {
    pub name: Seq<char>,
    pub ty: DataType,
}

#[derive(Debug)]
pub struct Schema {
    pub fields: Vec<Field>,
}

impl View for Schema {
    type V = Seq<Attr>;

    open spec fn view(&self) -> Seq<Attr> {
        Seq::new(
            self.fields@.len(),
            |i: int| Attr { name: self.fields@[i].name@, ty: self.fields@[i].ty },
        )
    }
}

/// The first column at or after `from` that has the name, whatever the case.
pub open spec fn column_from(s: Seq<Attr>, name: Seq<char>, from: int) -> Option<usize>
    decreases s.len() - from,
{
    if from < 0 || from >= s.len() {
        None
    } else if same_name(s[from].name, name) {
        Some(from as usize)
    } else {
        column_from(s, name, from + 1)
    }
}

/// The column of a name, whatever the case.
pub open spec fn column_named(s: Seq<Attr>, name: Seq<char>) -> Option<usize> {
    column_from(s, name, 0)
}

pub proof fn lemma_column_from(s: Seq<Attr>, name: Seq<char>, from: int)
    requires
        0 <= from <= s.len() <= usize::MAX,
    ensures
        match column_from(s, name, from) {
            Some(k) => from <= k < s.len() && same_name(s[k as int].name, name) && forall|j: int|
                from <= j < k ==> !same_name((#[trigger] s[j]).name, name),
            None => forall|j: int| from <= j < s.len() ==> !same_name((#[trigger] s[j]).name, name),
        },
    decreases s.len() - from,
{
    if from < s.len() && !same_name(s[from].name, name) {
        lemma_column_from(s, name, from + 1);
    }
}

/// What is wrong with a column of a schema, if anything is.
pub open spec fn attr_error(s: Seq<Attr>, i: int) -> Option<Seq<char>> {
    let a = s[i];
    if a.name.len() == 0 {
        Some("пустое имя колонки"@)
    } else if exists|j: int| 0 <= j < i && same_name((#[trigger] s[j]).name, a.name) {
        Some("колонка '"@ + a.name + "' объявлена дважды"@)
    } else if a.ty == DataType::Vector(0) {
        Some("колонка '"@ + a.name + "': VECTOR(0) бессмысленна"@)
    } else {
        None
    }
}

/// What is wrong with the columns from `i` on, if anything is.
pub open spec fn attrs_error(s: Seq<Attr>, i: int) -> Option<Seq<char>>
    decreases s.len() - i,
{
    if i < 0 || i >= s.len() {
        None
    } else {
        match attr_error(s, i) {
            Some(e) => Some(e),
            None => attrs_error(s, i + 1),
        }
    }
}

/// What is wrong with a schema, if anything is.
pub open spec fn schema_error(s: Seq<Attr>) -> Option<Seq<char>> {
    if s.len() == 0 {
        Some("схема без колонок"@)
    } else {
        attrs_error(s, 0)
    }
}

/// In a valid schema the names differ, whatever the case, and none is empty.
pub proof fn lemma_valid_schema(s: Seq<Attr>, i: int)
    requires
        0 <= i <= s.len(),
        attrs_error(s, i) is None,
    ensures
        forall|k: int| i <= k < s.len() ==> #[trigger] attr_error(s, k) is None,
    decreases s.len() - i,
{
    if i < s.len() {
        lemma_valid_schema(s, i + 1);
    }
}

impl Default for Schema {
    fn default() -> (r: Schema)
        ensures
            r@ == Seq::<Attr>::empty(),
    {
        let r = Schema { fields: Vec::new() };
        assert(r@ =~= Seq::<Attr>::empty());
        r
    }
}

impl Clone for Schema {
    fn clone(&self) -> (r: Schema)
        ensures
            r@ == self@,
    {
        let mut out: Vec<Field> = Vec::new();
        let mut i: usize = 0;
        while i < self.fields.len()
            invariant
                i <= self.fields.len(),
                out.len() == i,
                forall|k: int|
                    0 <= k < i ==> (#[trigger] out[k]).name@ == self.fields[k].name@ && out[k].ty
                        == self.fields[k].ty,
            decreases self.fields.len() - i,
        {
            out.push(Field { name: self.fields[i].name.clone(), ty: self.fields[i].ty });
            i += 1;
        }
        let r = Schema { fields: out };
        assert(r@ =~= self@);
        r
    }
}

impl Schema {
    pub fn new(fields: Vec<(&str, DataType)>) -> (r: Schema)
        ensures
            r@ == Seq::new(
                fields@.len(),
                |i: int| Attr { name: fields@[i].0@, ty: fields@[i].1 },
            ),
    {
        let mut out: Vec<Field> = Vec::new();
        let mut i: usize = 0;
        while i < fields.len()
            invariant
                i <= fields.len(),
                out.len() == i,
                forall|k: int|
                    0 <= k < i ==> (#[trigger] out[k]).name@ == fields[k].0@ && out[k].ty
                        == fields[k].1,
            decreases fields.len() - i,
        {
            out.push(Field { name: fields[i].0.to_owned(), ty: fields[i].1 });
            i += 1;
        }
        let r = Schema { fields: out };
        assert(r@ =~= Seq::new(
            fields@.len(),
            |i: int| Attr { name: fields@[i].0@, ty: fields@[i].1 },
        ));
        r
    }

    /// The index of the column of a name, whatever the case.
    pub fn index_of(&self, name: &str) -> (r: Option<usize>)
        ensures
            r == column_named(self@, name@),
            r matches Some(i) ==> i < self@.len(),
    {
        let mut i: usize = 0;
        while i < self.fields.len()
            invariant
                i <= self.fields.len(),
                column_from(self@, name@, i as int) == column_named(self@, name@),
            decreases self.fields.len() - i,
        {
            if eq_ignore_ascii_case(self.fields[i].name.as_str(), name) {
                return Some(i);
            }
            i += 1;
        }
        None
    }

    pub fn field(&self, name: &str) -> (r: Option<&Field>)
        ensures
            match r {
                Some(f) => column_named(self@, name@) matches Some(i) && i < self@.len()
                    && self@[i as int] == (Attr { name: f.name@, ty: f.ty }),
                None => column_named(self@, name@) is None,
            },
    {
        match self.index_of(name) {
            Some(i) => Some(&self.fields[i]),
            None => None,
        }
    }

    pub fn len(&self) -> (r: usize)
        ensures
            r == self@.len(),
    {
        self.fields.len()
    }

    pub fn is_empty(&self) -> (r: bool)
        ensures
            r == (self@.len() == 0),
    {
        self.fields.len() == 0
    }

    pub fn validate(&self) -> (r: Result<(), Error>)
        ensures
            match r {
                Ok(_) => schema_error(self@) is None,
                Err(e) => schema_error(self@) == Some(e@),
            },
    {
        if self.fields.len() == 0 {
            return Err(err("схема без колонок".to_owned()));
        }
        let mut i: usize = 0;
        while i < self.fields.len()
            invariant
                i <= self.fields.len(),
                attrs_error(self@, i as int) == schema_error(self@),
            decreases self.fields.len() - i,
        {
            let f = &self.fields[i];
            if f.name.as_str().is_empty() {
                return Err(err("пустое имя колонки".to_owned()));
            }
            let mut j: usize = 0;
            while j < i
                invariant
                    j <= i < self.fields.len(),
                    f.name@ == self@[i as int].name,
                    f.name@.len() > 0,
                    attrs_error(self@, i as int) == schema_error(self@),
                    forall|k: int| 0 <= k < j ==> !same_name((#[trigger] self@[k]).name, f.name@),
                decreases i - j,
            {
                if eq_ignore_ascii_case(self.fields[j].name.as_str(), f.name.as_str()) {
                    assert(same_name(self@[j as int].name, f.name@));
                    return Err(err(text3("колонка '", f.name.as_str(), "' объявлена дважды")));
                }
                j += 1;
            }
            if let DataType::Vector(0) = f.ty {
                return Err(err(text3("колонка '", f.name.as_str(), "': VECTOR(0) бессмысленна")));
            }
            i += 1;
        }
        Ok(())
    }
}

#[derive(Debug)]
pub struct Table {
    pub name: String,
    pub schema: Schema,
    pub columns: Vec<Column>,
    pub nrows: usize,
}

/// What a [`Table`] is.
#[verifier::ext_equal]
pub struct Relation {
    pub name: Seq<char>,
    pub schema: Seq<Attr>,
    pub columns: Seq<Cells>,
    pub rows: nat,
}

impl Relation {
    /// The columns are those of the schema and as long as the table.
    pub open spec fn aligned(self) -> bool {
        &&& schema_error(self.schema) is None
        &&& self.columns.len() == self.schema.len()
        &&& forall|i: int|
            0 <= i < self.columns.len() ==> (#[trigger] self.columns[i]).len() == self.rows
        &&& forall|i: int|
            0 <= i < self.columns.len() ==> (#[trigger] self.columns[i]).data_type()
                == self.schema[i].ty
    }

    /// Row `i` as its values.
    pub open spec fn row(self, i: int) -> Seq<Cell> {
        Seq::new(self.columns.len(), |c: int| self.columns[c].at(i))
    }
}

impl View for Table {
    type V = Relation;

    open spec fn view(&self) -> Relation {
        Relation {
            name: self.name@,
            schema: self.schema@,
            columns: contents(self.columns@),
            rows: self.nrows as nat,
        }
    }
}

/// A table without rows.
pub open spec fn empty_table(name: Seq<char>, schema: Seq<Attr>) -> Relation {
    Relation {
        name,
        schema,
        columns: Seq::new(schema.len(), |i: int| Cells::none(schema[i].ty)),
        rows: 0,
    }
}

/// Whether a column of a type takes a value of a type.
pub open spec fn accepts(want: DataType, got: DataType) -> bool {
    want == got || (want == DataType::F64 && got == DataType::I64)
}

/// Why a value cannot go into a column, if it cannot.
pub open spec fn cell_error(a: Attr, c: Cells, v: Cell) -> Option<Seq<char>> {
    if !accepts(a.ty, cell_type(v)) {
        Some(
            "колонка '"@ + a.name + "': ожидался "@ + name_of_type(a.ty) + ", получен "@
                + name_of_type(cell_type(v)),
        )
    } else if c is Str && v is Str && !room_for(c->Str_0, v->Str_0) {
        Some("колонка '"@ + a.name + "': "@ + too_long())
    } else {
        None
    }
}

/// Why the values from `i` on cannot go into their columns, if they cannot.
pub open spec fn row_error(t: Relation, row: Seq<Cell>, i: int) -> Option<Seq<char>>
    decreases row.len() - i,
{
    if i < 0 || i >= row.len() {
        None
    } else {
        match cell_error(t.schema[i], t.columns[i], row[i]) {
            Some(e) => Some(e),
            None => row_error(t, row, i + 1),
        }
    }
}

/// Why a row cannot be put into a table, if it cannot.
pub open spec fn insert_error(t: Relation, row: Seq<Cell>) -> Option<Seq<char>> {
    if row.len() != t.columns.len() {
        Some(
            "строка из "@ + dec(row.len() as int) + " значений, в таблице "@ + dec(
                t.columns.len() as int,
            ) + " колонок"@,
        )
    } else if t.rows >= usize::MAX {
        Some("таблица заполнена"@)
    } else {
        row_error(t, row, 0)
    }
}

/// What comes of putting a row at the end of a table.
pub open spec fn inserted<F: Floats>(t: Relation, row: Seq<Cell>, fl: F) -> Result<
    Relation,
    Seq<char>,
> {
    match insert_error(t, row) {
        Some(e) => Err(e),
        None => Ok(
            Relation {
                columns: Seq::new(
                    t.columns.len(),
                    |i: int| pushed(t.columns[i], row[i], fl)->Ok_0,
                ),
                rows: t.rows + 1,
                ..t
            },
        ),
    }
}

/// What comes of putting the first `k` of some rows into a table: the rows before
/// the first that cannot be put in stay.
pub open spec fn inserted_many<F: Floats>(
    t: Relation,
    rows: Seq<Seq<Cell>>,
    k: nat,
    fl: F,
) -> (Option<Seq<char>>, Relation)
    decreases k,
{
    if k == 0 || k > rows.len() {
        (None, t)
    } else {
        match inserted_many(t, rows, (k - 1) as nat, fl) {
            (Some(e), t1) => (Some(e), t1),
            (None, t1) => match inserted(t1, rows[k - 1], fl) {
                Ok(t2) => (None, t2),
                Err(e) => (Some(e), t1),
            },
        }
    }
}

/// The memory that some columns take.
pub open spec fn columns_bytes(cols: Seq<Cells>) -> int
    decreases cols.len(),
{
    if cols.len() == 0 {
        0
    } else {
        columns_bytes(cols.drop_last()) + cells_bytes(cols.last())
    }
}

/// Why columns are not those of a schema, from column `i` on.
pub open spec fn columns_error(s: Seq<Attr>, cols: Seq<Cells>, n: nat, i: int) -> Option<Seq<char>>
    decreases cols.len() - i,
{
    if i < 0 || i >= cols.len() {
        None
    } else if cols[i].data_type() != s[i].ty {
        Some(
            "колонка '"@ + s[i].name + "': тип "@ + name_of_type(cols[i].data_type()) + " != "@
                + name_of_type(s[i].ty),
        )
    } else if cols[i].len() != n {
        Some(
            "колонка '"@ + s[i].name + "': "@ + dec(cols[i].len() as int) + " строк, ожидалось "@
                + dec(n as int),
        )
    } else {
        columns_error(s, cols, n, i + 1)
    }
}

pub open spec fn first_len(cols: Seq<Cells>) -> nat {
    if cols.len() == 0 {
        0
    } else {
        cols[0].len()
    }
}

/// A table made of columns, where they are those of the schema and of one length.
pub open spec fn table_of(name: Seq<char>, s: Seq<Attr>, cols: Seq<Cells>) -> Result<
    Relation,
    Seq<char>,
> {
    match schema_error(s) {
        Some(e) => Err(e),
        None => if cols.len() != s.len() {
            Err("колонок "@ + dec(cols.len() as int) + ", полей в схеме "@ + dec(s.len() as int))
        } else {
            match columns_error(s, cols, first_len(cols), 0) {
                Some(e) => Err(e),
                None => Ok(Relation { name, schema: s, columns: cols, rows: first_len(cols) }),
            }
        },
    }
}

proof fn lemma_columns_fit(s: Seq<Attr>, cols: Seq<Cells>, n: nat, i: int)
    requires
        0 <= i <= cols.len(),
        columns_error(s, cols, n, i) is None,
    ensures
        forall|k: int|
            i <= k < cols.len() ==> (#[trigger] cols[k]).data_type() == s[k].ty && cols[k].len()
                == n,
    decreases cols.len() - i,
{
    if i < cols.len() {
        lemma_columns_fit(s, cols, n, i + 1);
    }
}

/// The columns of a table make up that table.
pub proof fn lemma_aligned_of(t: Relation)
    requires
        t.aligned(),
    ensures
        table_of(t.name, t.schema, t.columns) == Ok::<Relation, Seq<char>>(t),
{
    lemma_no_columns_error(t, 0);
}

proof fn lemma_no_columns_error(t: Relation, i: int)
    requires
        t.aligned(),
        0 <= i <= t.columns.len(),
    ensures
        columns_error(t.schema, t.columns, t.rows, i) is None,
    decreases t.columns.len() - i,
{
    if i < t.columns.len() {
        lemma_no_columns_error(t, i + 1);
    }
}

proof fn lemma_row_fits(t: Relation, row: Seq<Cell>, i: int)
    requires
        0 <= i <= row.len(),
        row_error(t, row, i) is None,
    ensures
        forall|k: int|
            i <= k < row.len() ==> #[trigger] cell_error(t.schema[k], t.columns[k], row[k]) is None,
    decreases row.len() - i,
{
    if i < row.len() {
        lemma_row_fits(t, row, i + 1);
    }
}

/// A value that fits a column is put at its end.
proof fn lemma_fits<F: Floats>(a: Attr, c: Cells, v: Cell, fl: F)
    requires
        c.data_type() == a.ty,
        a.ty != DataType::Vector(0),
        cell_error(a, c, v) is None,
        v matches Cell::Vector(x) ==> x.len() <= usize::MAX,
    ensures
        pushed(c, v, fl) is Ok,
        pushed(c, v, fl)->Ok_0.len() == c.len() + 1,
        pushed(c, v, fl)->Ok_0.data_type() == c.data_type(),
{
}

impl Table {
    pub open spec fn wf(&self) -> bool {
        &&& self@.aligned()
        &&& forall|i: int| 0 <= i < self.columns@.len() ==> (#[trigger] self.columns@[i]).wf()
    }

    pub fn new(name: &str, schema: Schema) -> (r: Result<Table, Error>)
        ensures
            match r {
                Ok(t) => schema_error(schema@) is None && t.wf() && t@ == empty_table(
                    name@,
                    schema@,
                ),
                Err(e) => schema_error(schema@) == Some(e@),
            },
    {
        match schema.validate() {
            Ok(_) => {},
            Err(e) => {
                return Err(e);
            },
        }
        let mut columns: Vec<Column> = Vec::new();
        let mut i: usize = 0;
        while i < schema.fields.len()
            invariant
                i <= schema.fields.len(),
                columns.len() == i,
                forall|k: int|
                    0 <= k < i ==> (#[trigger] columns[k]).wf() && columns[k]@ == Cells::none(
                        schema@[k].ty,
                    ),
            decreases schema.fields.len() - i,
        {
            columns.push(Column::empty(schema.fields[i].ty));
            i += 1;
        }
        let t = Table { name: name.to_owned(), schema, columns, nrows: 0 };
        assert(t@ =~= empty_table(name@, schema@));
        Ok(t)
    }

    pub fn nrows(&self) -> (r: usize)
        ensures
            r == self@.rows,
    {
        self.nrows
    }

    pub fn columns(&self) -> (r: &Vec<Column>)
        ensures
            contents(r@) == self@.columns,
            *r == self.columns,
    {
        &self.columns
    }

    /// The column of a name, whatever the case.
    pub fn column(&self, name: &str) -> (r: Option<&Column>)
        requires
            self.wf(),
        ensures
            match r {
                Some(c) => column_named(self@.schema, name@) matches Some(i) && i
                    < self@.columns.len() && c@ == self@.columns[i as int],
                None => column_named(self@.schema, name@) is None,
            },
    {
        match self.schema.index_of(name) {
            Some(i) => Some(&self.columns[i]),
            None => None,
        }
    }

    /// Puts a row at the end. A row that does not fit leaves the table as it was:
    /// all of it is looked at before any of it is written.
    pub fn insert<F: Floats>(&mut self, row: &Vec<Value>, fl: &F) -> (r: Result<(), Error>)
        requires
            old(self).wf(),
            fl.exact(),
        ensures
            final(self).wf(),
            match r {
                Ok(_) => inserted(old(self)@, cells(row@), *fl) == Ok::<Relation, Seq<char>>(
                    final(self)@,
                ),
                Err(e) => inserted(old(self)@, cells(row@), *fl) == Err::<Relation, Seq<char>>(e@)
                    && final(self)@ == old(self)@,
            },
    {
        let ghost t0 = self@;
        let ghost cs = cells(row@);
        if row.len() != self.columns.len() {
            return Err(
                err(
                    text5(
                        "строка из ",
                        dec_usize(row.len()).as_str(),
                        " значений, в таблице ",
                        dec_usize(self.columns.len()).as_str(),
                        " колонок",
                    ),
                ),
            );
        }
        if self.nrows == usize::MAX {
            return Err(err("таблица заполнена".to_owned()));
        }
        let mut i: usize = 0;
        while i < row.len()
            invariant
                i <= row.len(),
                row.len() == self.columns.len(),
                self.wf(),
                self@ == t0,
                t0 == old(self)@,
                t0.rows < usize::MAX,
                cs == cells(row@),
                row_error(t0, cs, i as int) == row_error(t0, cs, 0),
            decreases row.len() - i,
        {
            assert(cs[i as int] == row@[i as int]@);
            assert(t0.columns[i as int] == self.columns@[i as int]@);
            assert(self.columns@[i as int].wf());
            let f = &self.schema.fields[i];
            assert(t0.schema[i as int] == Attr { name: f.name@, ty: f.ty });
            let got = row[i].type_of();
            let ok: bool = f.ty == got || (f.ty == DataType::F64 && got == DataType::I64);
            if !ok {
                return Err(
                    err(
                        text6(
                            "колонка '",
                            f.name.as_str(),
                            "': ожидался ",
                            f.ty.name().as_str(),
                            ", получен ",
                            got.name().as_str(),
                        ),
                    ),
                );
            }
            match (&self.columns[i], &row[i]) {
                (Column::Str(c), Value::Str(x)) => {
                    if !c.has_room(x.as_str()) {
                        return Err(
                            err(
                                text4(
                                    "колонка '",
                                    f.name.as_str(),
                                    "': ",
                                    "строки колонки не помещаются в 4 ГиБ",
                                ),
                            ),
                        );
                    }
                },
                _ => {},
            }
            i += 1;
        }
        proof {
            lemma_row_fits(t0, cs, 0);
            lemma_valid_schema(t0.schema, 0);
        }
        let ghost cols0 = self.columns@;
        let ghost t1 = inserted(t0, cs, *fl)->Ok_0;
        assert(inserted(t0, cs, *fl) == Ok::<Relation, Seq<char>>(t1));
        let mut k: usize = 0;
        while k < row.len()
            invariant
                k <= row.len(),
                fl.exact(),
                row.len() == self.columns@.len(),
                cols0.len() == self.columns@.len(),
                self.name@ == t0.name,
                self.schema@ == t0.schema,
                self.nrows == t0.rows,
                t0.aligned(),
                t0.columns == contents(cols0),
                forall|j: int| 0 <= j < cols0.len() ==> (#[trigger] cols0[j]).wf(),
                cs == cells(row@),
                forall|j: int| 0 <= j < cs.len() ==> #[trigger] cell_error(
                    t0.schema[j],
                    t0.columns[j],
                    cs[j],
                ) is None,
                forall|j: int|
                    0 <= j < t0.schema.len() ==> #[trigger] attr_error(t0.schema, j) is None,
                t1.columns == Seq::new(
                    t0.columns.len(),
                    |i: int| pushed(t0.columns[i], cs[i], *fl)->Ok_0,
                ),
                forall|j: int| 0 <= j < self.columns@.len() ==> (#[trigger] self.columns@[j]).wf(),
                forall|j: int|
                    0 <= j < k ==> (#[trigger] self.columns@[j])@ == t1.columns[j]
                        && t1.columns[j].len() == t0.rows + 1 && t1.columns[j].data_type()
                        == t0.schema[j].ty,
                forall|j: int|
                    k <= j < self.columns@.len() ==> (#[trigger] self.columns@[j]) == cols0[j],
            decreases row.len() - k,
        {
            let ghost before = self.columns@;
            let ghost c0 = cols0[k as int]@;
            let ghost v0 = cs[k as int];
            proof {
                assert(t0.columns[k as int] == c0);
                assert(cell_error(t0.schema[k as int], t0.columns[k as int], cs[k as int]) is None);
                assert(attr_error(t0.schema, k as int) is None);
                assert(v0 == row@[k as int]@);
                assert(self.columns@[k as int] == cols0[k as int]);
            }
            let cell = &row[k];
            let vlen: usize = match cell {
                Value::Vector(x) => x.len(),
                _ => 0,
            };
            proof {
                lemma_fits(t0.schema[k as int], c0, v0, *fl);
            }
            let res = self.columns[k].push(cell, fl);
            assert(res is Ok);
            k += 1;
        }
        self.nrows = self.nrows + 1;
        proof {
            assert(self@.columns =~= t1.columns);
            assert(self@ =~= t1);
        }
        Ok(())
    }

    /// Puts rows at the end one by one. The first that does not fit stops it; the
    /// rows before it stay.
    pub fn insert_many<F: Floats>(&mut self, rows: &Vec<Vec<Value>>, fl: &F) -> (r: Result<
        usize,
        Error,
    >)
        requires
            old(self).wf(),
            fl.exact(),
        ensures
            final(self).wf(),
            final(self)@ == inserted_many(old(self)@, cell_rows(rows@), rows@.len(), *fl).1,
            match r {
                Ok(n) => n == rows.len() && inserted_many(
                    old(self)@,
                    cell_rows(rows@),
                    rows@.len(),
                    *fl,
                ).0 is None,
                Err(e) => inserted_many(old(self)@, cell_rows(rows@), rows@.len(), *fl).0 == Some(
                    e@,
                ),
            },
    {
        let ghost t0 = self@;
        let ghost cs = cell_rows(rows@);
        let mut i: usize = 0;
        while i < rows.len()
            invariant
                i <= rows.len(),
                fl.exact(),
                self.wf(),
                t0 == old(self)@,
                cs == cell_rows(rows@),
                inserted_many(t0, cs, i as nat, *fl) == (None::<Seq<char>>, self@),
            decreases rows.len() - i,
        {
            assert(cs[i as int] == cells(rows@[i as int]@));
            match self.insert(&rows[i], fl) {
                Ok(_) => {},
                Err(e) => {
                    proof {
                        lemma_many_stops(t0, cs, (i + 1) as nat, cs.len(), *fl);
                    }
                    return Err(e);
                },
            }
            i += 1;
        }
        Ok(rows.len())
    }

    /// The values of row `i`.
    pub fn row(&self, i: usize) -> (r: Vec<Value>)
        requires
            self.wf(),
            i < self@.rows,
        ensures
            cells(r@) == self@.row(i as int),
    {
        let mut out: Vec<Value> = Vec::new();
        let mut c: usize = 0;
        while c < self.columns.len()
            invariant
                c <= self.columns.len(),
                self.wf(),
                i < self@.rows,
                out.len() == c,
                forall|k: int| 0 <= k < c ==> (#[trigger] out[k])@ == self@.columns[k].at(i as int),
            decreases self.columns.len() - c,
        {
            assert(self@.columns[c as int] == self.columns@[c as int]@);
            out.push(self.columns[c].get(i));
            c += 1;
        }
        assert(cells(out@) =~= self@.row(i as int));
        out
    }

    /// The memory that the values take.
    pub fn bytes_used(&self) -> (r: usize)
        requires
            self.wf(),
        ensures
            r == capped(columns_bytes(self@.columns)),
    {
        let mut sum: usize = 0;
        let mut c: usize = 0;
        while c < self.columns.len()
            invariant
                c <= self.columns.len(),
                self.wf(),
                columns_bytes(self@.columns.take(c as int)) >= 0,
                sum == capped(columns_bytes(self@.columns.take(c as int))),
            decreases self.columns.len() - c,
        {
            proof {
                let t = self@.columns.take(c + 1);
                assert(t.drop_last() =~= self@.columns.take(c as int));
                assert(t.last() == self.columns@[c as int]@);
                lemma_bytes_natural(t.last());
            }
            assert(self.columns@[c as int].wf());
            sum = add_sizes(sum, self.columns[c].bytes_used());
            c += 1;
        }
        assert(self@.columns.take(c as int) =~= self@.columns);
        sum
    }

    pub fn from_columns(name: &str, schema: Schema, columns: Vec<Column>) -> (r: Result<
        Table,
        Error,
    >)
        requires
            forall|i: int| 0 <= i < columns.len() ==> (#[trigger] columns[i]).wf(),
        ensures
            match r {
                Ok(t) => t.wf() && table_of(name@, schema@, contents(columns@)) == Ok::<
                    Relation,
                    Seq<char>,
                >(t@),
                Err(e) => table_of(name@, schema@, contents(columns@)) == Err::<
                    Relation,
                    Seq<char>,
                >(e@),
            },
    {
        match schema.validate() {
            Ok(_) => {},
            Err(e) => {
                return Err(e);
            },
        }
        if columns.len() != schema.fields.len() {
            return Err(
                err(
                    text4(
                        "колонок ",
                        dec_usize(columns.len()).as_str(),
                        ", полей в схеме ",
                        dec_usize(schema.fields.len()).as_str(),
                    ),
                ),
            );
        }
        let ghost cs = contents(columns@);
        let nrows: usize = if columns.len() == 0 {
            0
        } else {
            columns[0].len()
        };
        let mut i: usize = 0;
        while i < columns.len()
            invariant
                i <= columns.len(),
                columns.len() == schema.fields.len(),
                cs == contents(columns@),
                nrows == first_len(cs),
                forall|k: int| 0 <= k < columns.len() ==> (#[trigger] columns[k]).wf(),
                schema_error(schema@) is None,
                columns_error(schema@, cs, nrows as nat, i as int) == columns_error(
                    schema@,
                    cs,
                    nrows as nat,
                    0,
                ),
            decreases columns.len() - i,
        {
            let c = &columns[i];
            let f = &schema.fields[i];
            assert(cs[i as int] == c@);
            assert(schema@[i as int] == Attr { name: f.name@, ty: f.ty });
            if c.data_type() != f.ty {
                return Err(
                    err(
                        text6(
                            "колонка '",
                            f.name.as_str(),
                            "': тип ",
                            c.data_type().name().as_str(),
                            " != ",
                            f.ty.name().as_str(),
                        ),
                    ),
                );
            }
            if c.len() != nrows {
                return Err(
                    err(
                        text6(
                            "колонка '",
                            f.name.as_str(),
                            "': ",
                            dec_usize(c.len()).as_str(),
                            " строк, ожидалось ",
                            dec_usize(nrows).as_str(),
                        ),
                    ),
                );
            }
            i += 1;
        }
        proof {
            lemma_columns_fit(schema@, cs, nrows as nat, 0);
        }
        Ok(Table { name: name.to_owned(), schema, columns, nrows })
    }
}

/// Putting rows in keeps the name and the columns of a table; rows that could all be put in
/// have a value for each column.
pub proof fn lemma_inserted_many<F: Floats>(t: Relation, rows: Seq<Seq<Cell>>, k: nat, fl: F)
    requires
        k <= rows.len(),
    ensures
        ({
            let (e, t1) = inserted_many(t, rows, k, fl);
            &&& t1.name == t.name
            &&& t1.schema == t.schema
            &&& t1.columns.len() == t.columns.len()
            &&& t1.rows <= t.rows + k
            &&& e is None ==> t1.rows == t.rows + k && forall|i: int|
                0 <= i < k ==> (#[trigger] rows[i]).len() == t.columns.len()
        }),
    decreases k,
{
    if k > 0 {
        lemma_inserted_many(t, rows, (k - 1) as nat, fl);
    }
}

/// The memory of columns is no less than nothing.
pub proof fn lemma_columns_natural(cols: Seq<Cells>)
    ensures
        columns_bytes(cols) >= 0,
    decreases cols.len(),
{
    if cols.len() > 0 {
        lemma_columns_natural(cols.drop_last());
        lemma_bytes_natural(cols.last());
    }
}

proof fn lemma_bytes_natural(c: Cells)
    ensures
        cells_bytes(c) >= 0,
{
    if let Cells::Vector { dim, rows } = c {
        assert(rows.len() as int * dim * 4 >= 0) by (nonlinear_arith);
    }
}

/// Behind a row that could not be put in, none is.
pub proof fn lemma_many_stops<F: Floats>(t: Relation, rows: Seq<Seq<Cell>>, k: nat, n: nat, fl: F)
    requires
        k <= n <= rows.len(),
        inserted_many(t, rows, k, fl).0 is Some,
    ensures
        inserted_many(t, rows, n, fl) == inserted_many(t, rows, k, fl),
    decreases n - k,
{
    if k < n {
        lemma_many_stops(t, rows, k, (n - 1) as nat, fl);
    }
}

/// What the first `k` rows do to a table does not depend on the rows behind them.
pub proof fn lemma_many_alike<F: Floats>(
    t: Relation,
    a: Seq<Seq<Cell>>,
    b: Seq<Seq<Cell>>,
    k: nat,
    fl: F,
)
    requires
        k <= a.len(),
        k <= b.len(),
        forall|i: int| 0 <= i < k ==> #[trigger] a[i] == b[i],
    ensures
        inserted_many(t, a, k, fl) == inserted_many(t, b, k, fl),
    decreases k,
{
    if k > 0 {
        lemma_many_alike(t, a, b, (k - 1) as nat, fl);
        assert(a[k - 1] == b[k - 1]);
    }
}

/// Rows may be put in part by part.
pub proof fn lemma_many_parts<F: Floats>(
    t: Relation,
    rows: Seq<Seq<Cell>>,
    at: nat,
    k: nat,
    fl: F,
)
    requires
        at + k <= rows.len(),
        inserted_many(t, rows, at, fl).0 is None,
    ensures
        inserted_many(inserted_many(t, rows, at, fl).1, rows.skip(at as int), k, fl)
            == inserted_many(t, rows, at + k, fl),
    decreases k,
{
    if k > 0 {
        lemma_many_parts(t, rows, at, (k - 1) as nat, fl);
        assert(rows.skip(at as int)[k - 1] == rows[at + k - 1]);
    }
}

// --- rows as they are stored -----------------------------------------------------------------

/// A value as a column of a type stores it.
pub open spec fn stored<F: Floats>(c: Cell, ty: DataType, fl: F) -> Cell {
    match (ty, c) {
        (DataType::F64, Cell::I64(i)) => Cell::F64(fl.from_int(i)),
        _ => c,
    }
}

pub open spec fn stored_row<F: Floats>(row: Seq<Cell>, s: Seq<Attr>, fl: F) -> Seq<Cell> {
    Seq::new(row.len(), |i: int| stored(row[i], s[i].ty, fl))
}

pub open spec fn stored_rows<F: Floats>(rows: Seq<Seq<Cell>>, s: Seq<Attr>, fl: F) -> Seq<
    Seq<Cell>,
> {
    Seq::new(rows.len(), |i: int| stored_row(rows[i], s, fl))
}

/// Rows as a table of a schema stores them.
pub fn as_stored<F: Floats>(rows: &Vec<Vec<Value>>, schema: &Schema, fl: &F) -> (r: Vec<Vec<Value>>)
    requires
        fl.exact(),
        forall|i: int| 0 <= i < rows@.len() ==> (#[trigger] rows@[i])@.len() == schema@.len(),
    ensures
        cell_rows(r@) == stored_rows(cell_rows(rows@), schema@, *fl),
{
    let mut out: Vec<Vec<Value>> = Vec::new();
    let mut i: usize = 0;
    while i < rows.len()
        invariant
            i <= rows.len(),
            fl.exact(),
            forall|i: int| 0 <= i < rows@.len() ==> (#[trigger] rows@[i])@.len() == schema@.len(),
            out.len() == i,
            forall|k: int|
                0 <= k < i ==> cells((#[trigger] out@[k])@) == stored_row(
                    cells(rows@[k]@),
                    schema@,
                    *fl,
                ),
        decreases rows.len() - i,
    {
        let row = &rows[i];
        assert(rows@[i as int]@.len() == schema@.len());
        let mut x: Vec<Value> = Vec::new();
        let mut j: usize = 0;
        while j < row.len()
            invariant
                j <= row.len(),
                fl.exact(),
                row@.len() == schema@.len(),
                x.len() == j,
                forall|k: int|
                    0 <= k < j ==> (#[trigger] x@[k])@ == stored(row@[k]@, schema@[k].ty, *fl),
            decreases row.len() - j,
        {
            assert(schema@[j as int].ty == schema.fields@[j as int].ty);
            let v = match (schema.fields[j].ty, &row[j]) {
                (DataType::F64, Value::I64(n)) => Value::F64(fl.of_int(*n)),
                (_, v) => v.clone(),
            };
            x.push(v);
            j += 1;
        }
        assert(cells(x@) =~= stored_row(cells(row@), schema@, *fl));
        out.push(x);
        i += 1;
    }
    assert(cell_rows(out@) =~= stored_rows(cell_rows(rows@), schema@, *fl));
    out
}

// --- laws ------------------------------------------------------------------------------------

/// Whether a row has one value for each column, of a type that the column takes.
pub open spec fn fits(t: Relation, row: Seq<Cell>) -> bool {
    &&& row.len() == t.schema.len()
    &&& forall|i: int|
        0 <= i < row.len() ==> accepts(t.schema[i].ty, cell_type(#[trigger] row[i]))
}

/// Whether a row more can be counted, and its texts be reached by 32-bit offsets.
pub open spec fn has_room(t: Relation, row: Seq<Cell>) -> bool {
    &&& t.rows < usize::MAX
    &&& forall|i: int|
        0 <= i < row.len() && t.columns[i] is Str && row[i] is Str ==> room_for(
            t.columns[i]->Str_0,
            (#[trigger] row[i])->Str_0,
        )
}

/// Whether the vectors of a row are such as memory can hold.
pub open spec fn held_in_memory(row: Seq<Cell>) -> bool {
    forall|i: int|
        0 <= i < row.len() ==> ((#[trigger] row[i]) matches Cell::Vector(x) ==> x.len()
            <= usize::MAX)
}

proof fn lemma_no_row_error(t: Relation, row: Seq<Cell>, i: int)
    requires
        0 <= i <= row.len(),
        fits(t, row),
        has_room(t, row),
    ensures
        row_error(t, row, i) is None,
    decreases row.len() - i,
{
    if i < row.len() {
        assert(accepts(t.schema[i].ty, cell_type(row[i])));
        lemma_no_row_error(t, row, i + 1);
    }
}

/// What a value that fits leaves in a column: the values that were there, and the new one.
proof fn lemma_put_back<F: Floats>(a: Attr, c: Cells, v: Cell, fl: F)
    requires
        c.data_type() == a.ty,
        a.ty != DataType::Vector(0),
        cell_error(a, c, v) is None,
        v matches Cell::Vector(x) ==> x.len() <= usize::MAX,
    ensures
        pushed(c, v, fl)->Ok_0.at(c.len() as int) == stored(v, a.ty, fl),
        forall|i: int| 0 <= i < c.len() ==> #[trigger] pushed(c, v, fl)->Ok_0.at(i) == c.at(i),
{
}

/// A row is put in whole or not at all. It is put in if and only if it fits and
/// there is room. Then the table has one row more: the last is the given one as it
/// is stored, the rows before it are those that were there, and all columns are as
/// long as the table.
pub proof fn lemma_insert_whole<F: Floats>(t: Relation, row: Seq<Cell>, fl: F)
    requires
        t.aligned(),
        held_in_memory(row),
    ensures
        inserted(t, row, fl) is Ok <==> fits(t, row) && has_room(t, row),
        inserted(t, row, fl) matches Ok(u) ==> {
            &&& u.aligned()
            &&& u.name == t.name
            &&& u.schema == t.schema
            &&& u.rows == t.rows + 1
            &&& u.row(t.rows as int) == stored_row(row, t.schema, fl)
            &&& forall|i: int| 0 <= i < t.rows ==> #[trigger] u.row(i) == t.row(i)
        },
{
    lemma_valid_schema(t.schema, 0);
    if fits(t, row) && has_room(t, row) {
        lemma_no_row_error(t, row, 0);
    }
    if inserted(t, row, fl) is Ok {
        let u = inserted(t, row, fl)->Ok_0;
        lemma_row_fits(t, row, 0);
        assert forall|i: int| 0 <= i < row.len() implies accepts(
            t.schema[i].ty,
            cell_type(#[trigger] row[i]),
        ) && (t.columns[i] is Str && row[i] is Str ==> room_for(
            t.columns[i]->Str_0,
            row[i]->Str_0,
        )) by {
            assert(cell_error(t.schema[i], t.columns[i], row[i]) is None);
        }
        assert forall|i: int| 0 <= i < row.len() implies {
            &&& (#[trigger] u.columns[i]).len() == t.rows + 1
            &&& u.columns[i].data_type() == t.schema[i].ty
            &&& u.columns[i].at(t.rows as int) == stored(row[i], t.schema[i].ty, fl)
            &&& forall|k: int| 0 <= k < t.rows ==> #[trigger] u.columns[i].at(k) == t.columns[i].at(k)
        } by {
            assert(cell_error(t.schema[i], t.columns[i], row[i]) is None);
            assert(t.columns[i].len() == t.rows && t.columns[i].data_type() == t.schema[i].ty);
            assert(row[i] matches Cell::Vector(x) ==> x.len() <= usize::MAX);
            assert(attr_error(t.schema, i) is None);
            lemma_fits(t.schema[i], t.columns[i], row[i], fl);
            lemma_put_back(t.schema[i], t.columns[i], row[i], fl);
        }
        assert(u.row(t.rows as int) =~= stored_row(row, t.schema, fl));
        assert forall|i: int| 0 <= i < t.rows implies #[trigger] u.row(i) == t.row(i) by {
            assert(u.row(i) =~= t.row(i)) by {
                assert forall|c: int| 0 <= c < t.columns.len() implies u.row(i)[c] == t.row(
                    i,
                )[c] by {
                    assert(u.columns[c].at(i) == t.columns[c].at(i));
                }
            }
        }
    }
}

impl<'a> Named for &'a Table {
    open spec fn key(&self) -> Seq<char> {
        self.name@
    }

    fn key_text(&self) -> (r: &str) {
        self.name.as_str()
    }
}

} // verus!
