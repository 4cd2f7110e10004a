//! Name resolution: the binder's catalog, bound statements and expressions.
use vstd::prelude::*;
use vstd::string::StringExecFns;
use crate::parser::{BinaryOp, Expr, Statement, Value as RawValue};
use crate::text::{ascii_lower, eq_ignore_ascii_case, to_ascii_lowercase, str_is};

verus! {

/// A value of a row: a 64-bit integer or a string.
#[derive(Debug, Clone)]
pub enum Value {
    Int(i64),
    String(String),
}

/// What a value is: an integer, or the characters of a string.
pub enum ValueModel {
    Int(i64),
    Str(Seq<char>),
}

impl View for Value {
    type V = ValueModel;

    open spec fn view(&self) -> ValueModel {
        match self {
            Value::Int(i) => ValueModel::Int(*i),
            Value::String(s) => ValueModel::Str(s@),
        }
    }
}

/// The models of a sequence of values.
pub open spec fn values_model(vs: Seq<Value>) -> Seq<ValueModel> {
    vs.map_values(|v: Value| v@)
}

impl Value {
    /// A copy of the value.
    pub fn copy_value(&self) -> (r: Value)
        ensures
            r@ == self@,
    {
        match self {
            Value::Int(i) => Value::Int(*i),
            Value::String(s) => Value::String(s.clone()),
        }
    }
}

#[derive(Debug, Clone, Copy, PartialEq, Eq, Structural)]
pub enum DataType {
    Int,
    Varchar,
}

/// The column type a type name stands for, in any ASCII case.
pub open spec fn data_type_of(s: Seq<char>) -> Option<DataType> {
    let l = ascii_lower(s);
    if l == "int"@ || l == "integer"@ {
        Some(DataType::Int)
    } else if l == "varchar"@ || l == "text"@ || l == "string"@ {
        Some(DataType::Varchar)
    } else {
        None
    }
}

impl DataType {
    pub fn from_str(s: &str) -> (r: Option<DataType>)
        ensures
            r == data_type_of(s@),
    {
        let l = to_ascii_lowercase(s);
        let t = l.as_str();
        if str_is(t, "int") || str_is(t, "integer") {
            Some(DataType::Int)
        } else if str_is(t, "varchar") || str_is(t, "text") || str_is(t, "string") {
            Some(DataType::Varchar)
        } else {
            None
        }
    }
}

/// Why a statement could not be bound.
#[derive(Debug, Clone)]
pub enum BindError {
    DuplicateTable(String),
    UnknownType(String),
    UnknownTable(String),
    UnknownColumn(String),
    ArityMismatch,
}

#[derive(Debug, Clone)]
pub struct ColumnMeta {
    pub name: String,
    pub data_type: DataType,
    pub ordinal: usize,
}

#[derive(Debug, Clone)]
pub struct TableMeta {
    pub name: String,
    pub columns: Vec<ColumnMeta>,
}

/// The ordinal a column name resolves to, in any ASCII case: the last column
/// of that name among the first `n`.
pub open spec fn col_ordinal(cols: Seq<ColumnMeta>, name: Seq<char>, n: int) -> Option<int>
    decreases n,
{
    if n <= 0 || n > cols.len() {
        None
    } else if ascii_lower(cols[n - 1].name@) == ascii_lower(name) {
        Some(n - 1)
    } else {
        col_ordinal(cols, name, n - 1)
    }
}

/// The column of `t` that `name` resolves to.
pub open spec fn resolve_column(t: TableMeta, name: Seq<char>) -> Option<int> {
    col_ordinal(t.columns@, name, t.columns@.len() as int)
}

proof fn lemma_col_ordinal_range(cols: Seq<ColumnMeta>, name: Seq<char>, n: int)
    ensures
        col_ordinal(cols, name, n) matches Some(i) ==> 0 <= i < n && i < cols.len(),
    decreases n,
{
    if n > 0 && n <= cols.len() {
        lemma_col_ordinal_range(cols, name, n - 1);
    }
}

impl TableMeta {
    /// The ordinal `name` resolves to.
    pub fn col_index(&self, name: &str) -> (r: Option<usize>)
        ensures
            r matches Some(i) ==> resolve_column(*self, name@) == Some(i as int),
            r is None ==> resolve_column(*self, name@) is None,
    {
        let mut n = self.columns.len();
        while n > 0
            invariant
                n <= self.columns@.len(),
                resolve_column(*self, name@) == col_ordinal(self.columns@, name@, n as int),
            decreases n,
        {
            if eq_ignore_ascii_case(self.columns[n - 1].name.as_str(), name) {
                return Some(n - 1);
            }
            n = n - 1;
        }
        None
    }
}

/// Whether table `t` has the name `name` in any ASCII case.
pub open spec fn named(t: TableMeta, name: Seq<char>) -> bool {
    ascii_lower(t.name@) == ascii_lower(name)
}

/// The columns a table gets from `(name, type)` pairs whose types are valid.
pub open spec fn columns_from(cols: Seq<(String, String)>, metas: Seq<ColumnMeta>) -> bool {
    &&& metas.len() == cols.len()
    &&& forall|i: int|
        0 <= i < cols.len() ==> (#[trigger] metas[i]).name@ == cols[i].0@ && Some(metas[i].data_type)
            == data_type_of(cols[i].1@) && metas[i].ordinal == i
}

pub struct Catalog {
    pub tables: Vec<TableMeta>,
}

impl Catalog {
    /// No two tables share a name, in any ASCII case.
    pub open spec fn wf(&self) -> bool {
        forall|i: int, j: int|
            0 <= i < j < self.tables@.len() ==> !named(
                #[trigger] self.tables@[i],
                (#[trigger] self.tables@[j]).name@,
            )
    }

    /// Whether some table has the name `name`.
    pub open spec fn has_table(&self, name: Seq<char>) -> bool {
        exists|i: int| 0 <= i < self.tables@.len() && named(#[trigger] self.tables@[i], name)
    }

    pub fn new() -> (r: Catalog)
        ensures
            r.wf(),
            r.tables@.len() == 0,
    {
        Catalog { tables: Vec::new() }
    }

    fn find(&self, name: &str) -> (r: Option<usize>)
        ensures
            r matches Some(i) ==> i < self.tables@.len() && named(self.tables@[i as int], name@),
            r is None ==> !self.has_table(name@),
    {
        let mut i: usize = 0;
        while i < self.tables.len()
            invariant
                i <= self.tables@.len(),
                forall|j: int| 0 <= j < i ==> !named(#[trigger] self.tables@[j], name@),
            decreases self.tables@.len() - i,
        {
            if eq_ignore_ascii_case(self.tables[i].name.as_str(), name) {
                return Some(i);
            }
            i = i + 1;
        }
        None
    }

    /// Registers a table; fails if the name is taken (in any ASCII case) or a
    /// column type is unknown.
    pub fn create_table(&mut self, name: &str, cols: &[(String, String)]) -> (r: Result<(), BindError>)
        requires
            old(self).wf(),
        ensures
            final(self).wf(),
            old(self).has_table(name@) ==> (r matches Err(BindError::DuplicateTable(_))
                && final(self).tables@ == old(self).tables@),
            !old(self).has_table(name@) && (exists|i: int|
                0 <= i < cols@.len() && data_type_of((#[trigger] cols@[i]).1@) is None) ==> (r matches Err(
                BindError::UnknownType(_),
            ) && final(self).tables@ == old(self).tables@),
            !old(self).has_table(name@) && (forall|i: int|
                0 <= i < cols@.len() ==> data_type_of((#[trigger] cols@[i]).1@) is Some) ==> r is Ok
                && final(self).tables@.len() == old(self).tables@.len() + 1
                && final(self).tables@.drop_last() == old(self).tables@ && final(self).tables@.last().name@
                == name@ && columns_from(cols@, final(self).tables@.last().columns@),
    {
        if let Some(_) = self.find(name) {
            return Err(BindError::DuplicateTable(String::from_str(name)));
        }
        let mut columns: Vec<ColumnMeta> = Vec::new();
        let mut i: usize = 0;
        while i < cols.len()
            invariant
                i <= cols@.len(),
                self.tables@ == old(self).tables@,
                self.wf(),
                !self.has_table(name@),
                forall|j: int| 0 <= j < i ==> data_type_of((#[trigger] cols@[j]).1@) is Some,
                columns_from(cols@.take(i as int), columns@),
            decreases cols@.len() - i,
        {
            let (col_name, col_type) = &cols[i];
            match DataType::from_str(col_type.as_str()) {
                Some(dt) => {
                    columns.push(ColumnMeta { name: col_name.clone(), data_type: dt, ordinal: i });
                },
                None => {
                    return Err(BindError::UnknownType(col_type.clone()));
                },
            }
            i = i + 1;
            assert forall|j: int| 0 <= j < i implies (#[trigger] columns@[j]).name@ == cols@.take(
                i as int,
            )[j].0@ && Some(columns@[j].data_type) == data_type_of(cols@.take(i as int)[j].1@)
                && columns@[j].ordinal == j by {
                assert(cols@.take(i as int)[j] == cols@[j]);
                if j < i - 1 {
                    assert(cols@.take(i - 1)[j] == cols@[j]);
                }
            }
        }
        assert(cols@.take(i as int) =~= cols@);
        let ghost before = self.tables@;
        self.tables.push(TableMeta { name: String::from_str(name), columns });
        assert(self.tables@.drop_last() =~= before);
        assert forall|a: int, b: int| 0 <= a < b < self.tables@.len() implies !named(
            #[trigger] self.tables@[a],
            (#[trigger] self.tables@[b]).name@,
        ) by {
            if b == self.tables@.len() - 1 {
                assert(!named(before[a], name@));
            }
        }
        Ok(())
    }

    /// The table named `name`, in any ASCII case.
    pub fn get_table(&self, name: &str) -> (r: Result<&TableMeta, BindError>)
        ensures
            r matches Ok(t) ==> exists|i: int|
                0 <= i < self.tables@.len() && *t == #[trigger] self.tables@[i] && named(*t, name@),
            r is Err ==> !self.has_table(name@),
    {
        match self.find(name) {
            Some(i) => Ok(&self.tables[i]),
            None => Err(BindError::UnknownTable(String::from_str(name))),
        }
    }
}

#[derive(Debug)]
pub enum BoundStmt {
    CreateTable { name: String, columns: Vec<(String, DataType)> },
    CreateIndex { index_name: String, table: String, column: String, order: usize },
    Insert { table: String, col_ordinals: Vec<usize>, values: Vec<BoundExpr> },
    Select { projections: Vec<BoundExpr>, table: String, filter: Option<BoundExpr> },
}

#[derive(Debug)]
pub enum BoundExpr {
    Column { table: String, col: String, ordinal: usize, data_type: DataType },
    Literal(Value),
    BinaryOp { left: Box<BoundExpr>, op: BinaryOp, right: Box<BoundExpr>, data_type: DataType },
}

/// Every column that `e` names resolves in `t`.
pub open spec fn resolves(e: Expr, t: TableMeta) -> bool
    decreases e,
{
    match e {
        Expr::Column(c) => resolve_column(t, c@) is Some,
        Expr::Literal(_) => true,
        Expr::BinaryOp { left, op, right } => resolves(*left, t) && resolves(*right, t),
    }
}

/// `b` is `e` bound against table `t` (named `table` in the statement):
/// columns carry their ordinal and declared type, literals their value, and
/// comparisons the integer type.
pub open spec fn bound_as(e: Expr, b: BoundExpr, t: TableMeta, table: Seq<char>) -> bool
    decreases e,
{
    match (e, b) {
        (Expr::Column(c), BoundExpr::Column { table: bt, col, ordinal, data_type }) => {
            &&& bt@ == table
            &&& col@ == c@
            &&& resolve_column(t, c@) == Some(ordinal as int)
            &&& ordinal < t.columns@.len()
            &&& data_type == t.columns@[ordinal as int].data_type
        },
        (Expr::Literal(v), BoundExpr::Literal(w)) => v@ == w@,
        (
            Expr::BinaryOp { left, op, right },
            BoundExpr::BinaryOp { left: bl, op: bop, right: br, data_type },
        ) => {
            &&& op == bop
            &&& data_type == DataType::Int
            &&& bound_as(*left, *bl, t, table)
            &&& bound_as(*right, *br, t, table)
        },
        _ => false,
    }
}

/// Binds an expression against the columns of `meta`.
pub fn bind_expr(expr: &Expr, meta: &TableMeta, table: &str) -> (r: Result<BoundExpr, BindError>)
    ensures
        r is Ok <==> resolves(*expr, *meta),
        r matches Ok(b) ==> bound_as(*expr, b, *meta, table@),
    decreases expr,
{
    match expr {
        Expr::Column(c) => {
            match meta.col_index(c.as_str()) {
                Some(o) => {
                    proof {
                        lemma_col_ordinal_range(meta.columns@, c@, meta.columns@.len() as int);
                    }
                    let dt = meta.columns[o].data_type;
                    Ok(
                        BoundExpr::Column {
                            table: String::from_str(table),
                            col: c.clone(),
                            ordinal: o,
                            data_type: dt,
                        },
                    )
                },
                None => Err(BindError::UnknownColumn(c.clone())),
            }
        },
        Expr::Literal(rv) => {
            let v = match rv {
                RawValue::Int(i) => Value::Int(*i),
                RawValue::String(s) => Value::String(s.clone()),
            };
            Ok(BoundExpr::Literal(v))
        },
        Expr::BinaryOp { left, op, right } => {
            let l = bind_expr(left, meta, table)?;
            let r = bind_expr(right, meta, table)?;
            Ok(
                BoundExpr::BinaryOp {
                    left: Box::new(l),
                    op: *op,
                    right: Box::new(r),
                    data_type: DataType::Int,
                },
            )
        },
    }
}

} // verus!

verus! {

/// The table that `name` designates (meaningful when there is one).
pub open spec fn table_named(c: Catalog, name: Seq<char>) -> TableMeta {
    c.tables@[choose|i: int| 0 <= i < c.tables@.len() && named(#[trigger] c.tables@[i], name)]
}

/// Every expression of `es` resolves in `t`.
pub open spec fn all_resolve(es: Seq<Expr>, t: TableMeta) -> bool {
    forall|i: int| 0 <= i < es.len() ==> resolves(#[trigger] es[i], t)
}

/// `bs` are `es` bound one for one.
pub open spec fn all_bound(es: Seq<Expr>, bs: Seq<BoundExpr>, t: TableMeta, table: Seq<char>) -> bool {
    &&& bs.len() == es.len()
    &&& forall|i: int| 0 <= i < es.len() ==> bound_as(#[trigger] es[i], bs[i], t, table)
}

/// Binds each expression of `es`.
fn bind_exprs(es: &Vec<Expr>, meta: &TableMeta, table: &str) -> (r: Result<Vec<BoundExpr>, BindError>)
    ensures
        r is Ok <==> all_resolve(es@, *meta),
        r matches Ok(bs) ==> all_bound(es@, bs@, *meta, table@),
{
    let mut out: Vec<BoundExpr> = Vec::new();
    let mut i: usize = 0;
    while i < es.len()
        invariant
            i <= es@.len(),
            forall|j: int| 0 <= j < i ==> resolves(#[trigger] es@[j], *meta),
            out@.len() == i,
            forall|j: int| 0 <= j < i ==> bound_as(#[trigger] es@[j], out@[j], *meta, table@),
        decreases es@.len() - i,
    {
        let b = bind_expr(&es[i], meta, table)?;
        out.push(b);
        i = i + 1;
    }
    Ok(out)
}

/// The ordinal of each column name.
fn resolve_columns(columns: &Vec<String>, meta: &TableMeta) -> (r: Result<Vec<usize>, BindError>)
    ensures
        r is Ok <==> forall|i: int|
            0 <= i < columns@.len() ==> resolve_column(*meta, (#[trigger] columns@[i])@) is Some,
        r matches Ok(ords) ==> ords@.len() == columns@.len() && forall|i: int|
            0 <= i < columns@.len() ==> resolve_column(*meta, (#[trigger] columns@[i])@) == Some(
                ords@[i] as int,
            ),
{
    let mut ords: Vec<usize> = Vec::new();
    let mut i: usize = 0;
    while i < columns.len()
        invariant
            i <= columns@.len(),
            ords@.len() == i,
            forall|j: int|
                0 <= j < i ==> resolve_column(*meta, (#[trigger] columns@[j])@) == Some(
                    ords@[j] as int,
                ),
        decreases columns@.len() - i,
    {
        match meta.col_index(columns[i].as_str()) {
            Some(o) => {
                ords.push(o);
            },
            None => {
                return Err(BindError::UnknownColumn(columns[i].clone()));
            },
        }
        i = i + 1;
    }
    Ok(ords)
}

/// Resolves names of statements against its catalog.
pub struct Binder {
    pub catalog: Catalog,
}

/// The B+Tree order an index gets when it is created by a statement.
pub const DEFAULT_INDEX_ORDER: usize = 4;

impl Binder {
    pub fn new(catalog: Catalog) -> (r: Binder)
        ensures
            r.catalog == catalog,
    {
        Binder { catalog }
    }

    /// Binds a statement. `CREATE TABLE` also registers the table.
    pub fn bind(&mut self, stmt: Statement) -> (r: Result<BoundStmt, BindError>)
        requires
            old(self).catalog.wf(),
        ensures
            final(self).catalog.wf(),
            match stmt {
                Statement::CreateTable { name, columns } => {
                    &&& r is Ok <==> !old(self).catalog.has_table(name@) && forall|i: int|
                        0 <= i < columns@.len() ==> data_type_of((#[trigger] columns@[i]).1@) is Some
                    &&& r is Err ==> final(self).catalog.tables@ == old(self).catalog.tables@
                    &&& r matches Ok(BoundStmt::CreateTable { name: n, columns: cs }) ==> {
                        &&& n@ == name@
                        &&& cs@.len() == columns@.len()
                        &&& forall|i: int|
                            0 <= i < columns@.len() ==> (#[trigger] cs@[i]).0@ == columns@[i].0@
                                && Some(cs@[i].1) == data_type_of(columns@[i].1@)
                        &&& final(self).catalog.tables@.drop_last() == old(self).catalog.tables@
                        &&& final(self).catalog.tables@.last().name@ == name@
                    }
                    &&& r is Ok ==> r matches Ok(BoundStmt::CreateTable { .. })
                },
                Statement::CreateIndex { index_name, table, column } => {
                    &&& final(self).catalog.tables@ == old(self).catalog.tables@
                    &&& r is Ok <==> old(self).catalog.has_table(table@)
                    &&& r matches Ok(b) ==> b matches BoundStmt::CreateIndex {
                        index_name: i,
                        table: t,
                        column: c,
                        order,
                    } && i@ == index_name@ && t@ == table@ && c@ == column@ && order == 4
                },
                Statement::Insert { table, columns, values } => {
                    let t = table_named(old(self).catalog, table@);
                    &&& final(self).catalog.tables@ == old(self).catalog.tables@
                    &&& r is Ok <==> old(self).catalog.has_table(table@) && columns@.len()
                        == values@.len() && (forall|i: int|
                        0 <= i < columns@.len() ==> resolve_column(t, (#[trigger] columns@[i])@) is Some)
                        && all_resolve(values@, t)
                    &&& r matches Ok(b) ==> b matches BoundStmt::Insert {
                        table: bt,
                        col_ordinals: ords,
                        values: bv,
                    } && bt@ == table@ && ords@.len() == columns@.len() && (forall|i: int|
                        0 <= i < columns@.len() ==> resolve_column(t, (#[trigger] columns@[i])@)
                            == Some(ords@[i] as int)) && all_bound(values@, bv@, t, table@)
                },
                Statement::Select { projections, table, filter } => {
                    let t = table_named(old(self).catalog, table@);
                    &&& final(self).catalog.tables@ == old(self).catalog.tables@
                    &&& r is Ok <==> old(self).catalog.has_table(table@) && all_resolve(
                        projections@,
                        t,
                    ) && (filter matches Some(f) ==> resolves(f, t))
                    &&& r matches Ok(b) ==> b matches BoundStmt::Select {
                        projections: bp,
                        table: bt,
                        filter: bf,
                    } && bt@ == table@ && all_bound(projections@, bp@, t, table@) && match (
                        filter,
                        bf,
                    ) {
                        (None, None) => true,
                        (Some(f), Some(g)) => bound_as(f, g, t, table@),
                        _ => false,
                    }
                },
            },
    {
        match stmt {
            Statement::CreateTable { name, columns } => {
                match self.catalog.create_table(name.as_str(), columns.as_slice()) {
                    Ok(()) => {},
                    Err(e) => {
                        return Err(e);
                    },
                }
                let ghost made = self.catalog.tables@.last();
                let last = self.catalog.tables.len() - 1;
                let mut cols: Vec<(String, DataType)> = Vec::new();
                let mut i: usize = 0;
                while i < columns.len()
                    invariant
                        i <= columns@.len(),
                        last == self.catalog.tables@.len() - 1,
                        made == self.catalog.tables@[last as int],
                        columns_from(columns@, made.columns@),
                        cols@.len() == i,
                        forall|j: int|
                            0 <= j < i ==> (#[trigger] cols@[j]).0@ == columns@[j].0@ && Some(
                                cols@[j].1,
                            ) == data_type_of(columns@[j].1@),
                    decreases columns@.len() - i,
                {
                    let dt = self.catalog.tables[last].columns[i].data_type;
                    assert(made.columns@[i as int] == self.catalog.tables@[last as int].columns@[i as int]);
                    cols.push((columns[i].0.clone(), dt));
                    i = i + 1;
                }
                Ok(BoundStmt::CreateTable { name, columns: cols })
            },
            Statement::CreateIndex { index_name, table, column } => {
                let _ = self.catalog.get_table(table.as_str())?;
                Ok(BoundStmt::CreateIndex { index_name, table, column, order: DEFAULT_INDEX_ORDER })
            },
            Statement::Insert { table, columns, values } => {
                let meta = self.catalog.get_table(table.as_str())?;
                proof {
                    lemma_table_named(self.catalog, table@);
                }
                if columns.len() != values.len() {
                    return Err(BindError::ArityMismatch);
                }
                let ords = resolve_columns(&columns, meta)?;
                let bv = bind_exprs(&values, meta, table.as_str())?;
                Ok(BoundStmt::Insert { table, col_ordinals: ords, values: bv })
            },
            Statement::Select { projections, table, filter } => {
                let meta = self.catalog.get_table(table.as_str())?;
                proof {
                    lemma_table_named(self.catalog, table@);
                }
                let bp = bind_exprs(&projections, meta, table.as_str())?;
                let bf = match &filter {
                    Some(f) => Some(bind_expr(f, meta, table.as_str())?),
                    None => None,
                };
                Ok(BoundStmt::Select { projections: bp, table, filter: bf })
            },
        }
    }
}

/// In a catalog without duplicate names, the table found under a name is
/// the one `table_named` designates.
proof fn lemma_table_named(c: Catalog, name: Seq<char>)
    requires
        c.wf(),
    ensures
        forall|i: int|
            0 <= i < c.tables@.len() && named(#[trigger] c.tables@[i], name) ==> c.tables@[i]
                == table_named(c, name),
{
    assert forall|i: int| 0 <= i < c.tables@.len() && named(#[trigger] c.tables@[i], name) implies c.tables@[i]
        == table_named(c, name) by {
        let k = choose|k: int| 0 <= k < c.tables@.len() && named(#[trigger] c.tables@[k], name);
        if k != i {
            if k < i {
                assert(!named(c.tables@[k], c.tables@[i].name@));
            } else {
                assert(!named(c.tables@[i], c.tables@[k].name@));
            }
        }
    }
}

} // verus!
