//! The storage catalog: tables with their row directories, and index
//! metadata.
use vstd::prelude::*;
use vstd::string::StringExecFns;
use crate::record::RID;
use crate::text::{ascii_lower, eq_ignore_ascii_case};

verus! {

/// Metadata of a B+Tree index.
#[derive(Debug, Clone)]
pub struct IndexInfo {
    pub name: String,
    pub table: String,
    pub column: String,
    /// The largest key count a node holds before it splits.
    pub order: usize,
    pub root_page: u64,
}

#[derive(Debug, Clone, Copy, PartialEq, Eq, Structural)]
pub enum DataType {
    Int,
    String,
}

#[derive(Debug, Clone)]
pub struct ColumnInfo {
    pub name: String,
    pub data_type: DataType,
}

#[derive(Debug, Clone)]
pub struct TableInfo {
    pub name: String,
    pub columns: Vec<ColumnInfo>,
    /// Every row of the table.
    pub records: Vec<RID>,
}

/// Why a catalog operation failed.
#[derive(Debug, Clone)]
pub enum CatalogError {
    TableExists(String),
    TableNotFound(String),
}

/// Two index records that hold the same values.
pub open spec fn same_index(a: IndexInfo, b: IndexInfo) -> bool {
    &&& a.name@ == b.name@
    &&& a.table@ == b.table@
    &&& a.column@ == b.column@
    &&& a.order == b.order
    &&& a.root_page == b.root_page
}

/// The indexes of `table` (named in any ASCII case), in the order they were
/// created.
pub open spec fn indexes_on(s: Seq<IndexInfo>, table: Seq<char>) -> Seq<IndexInfo>
    decreases s.len(),
{
    if s.len() == 0 {
        Seq::empty()
    } else {
        let rest = indexes_on(s.drop_last(), table);
        if ascii_lower(s.last().table@) == ascii_lower(table) {
            rest.push(s.last())
        } else {
            rest
        }
    }
}

pub struct Catalog {
    pub tables: Vec<TableInfo>,
    /// Every index, in the order they were created.
    pub indexes: Vec<IndexInfo>,
}

impl Catalog {
    /// No two tables share a name, in any ASCII case.
    pub open spec fn wf(&self) -> bool {
        forall|i: int, j: int|
            0 <= i < j < self.tables@.len() ==> ascii_lower((#[trigger] self.tables@[i]).name@) != ascii_lower(
                (#[trigger] self.tables@[j]).name@,
            )
    }

    /// Whether some table has the name `name`, in any ASCII case.
    pub open spec fn has_table(&self, name: Seq<char>) -> bool {
        exists|i: int|
            0 <= i < self.tables@.len() && ascii_lower((#[trigger] self.tables@[i]).name@) == ascii_lower(name)
    }

    pub fn new() -> (r: Catalog)
        ensures
            r.wf(),
            r.tables@.len() == 0,
            r.indexes@.len() == 0,
    {
        Catalog { tables: Vec::new(), indexes: Vec::new() }
    }

    fn find(&self, name: &str) -> (r: Option<usize>)
        ensures
            r matches Some(i) ==> i < self.tables@.len() && ascii_lower(self.tables@[i as int].name@)
                == ascii_lower(name@),
            r is None ==> !self.has_table(name@),
    {
        let mut i: usize = 0;
        while i < self.tables.len()
            invariant
                i <= self.tables@.len(),
                forall|j: int| 0 <= j < i ==> ascii_lower((#[trigger] self.tables@[j]).name@) != ascii_lower(name@),
            decreases self.tables@.len() - i,
        {
            if eq_ignore_ascii_case(self.tables[i].name.as_str(), name) {
                return Some(i);
            }
            i = i + 1;
        }
        None
    }

    /// Adds a table with no rows; fails if the name is taken, in any ASCII
    /// case.
    pub fn create_table(&mut self, name: String, columns: Vec<ColumnInfo>) -> (r: Result<(), CatalogError>)
        requires
            old(self).wf(),
        ensures
            final(self).wf(),
            final(self).indexes@ == old(self).indexes@,
            old(self).has_table(name@) ==> (r is Err && final(self).tables@ == old(self).tables@),
            !old(self).has_table(name@) ==> (r is Ok && final(self).tables@.drop_last()
                == old(self).tables@ && final(self).tables@.last().name@ == name@
                && final(self).tables@.last().columns == columns
                && final(self).tables@.last().records@.len() == 0
                && final(self).tables@.len() == old(self).tables@.len() + 1),
    {
        if self.find(name.as_str()).is_some() {
            return Err(CatalogError::TableExists(name));
        }
        let ghost before = self.tables@;
        self.tables.push(TableInfo { name, columns, records: Vec::new() });
        assert(self.tables@.drop_last() =~= before);
        Ok(())
    }

    /// The table named `name`.
    pub fn get_table(&self, name: &str) -> (r: Result<&TableInfo, CatalogError>)
        ensures
            r matches Ok(t) ==> exists|i: int|
                0 <= i < self.tables@.len() && *t == #[trigger] self.tables@[i] && ascii_lower(t.name@)
                    == ascii_lower(name@),
            r is Err <==> !self.has_table(name@),
    {
        match self.find(name) {
            Some(i) => Ok(&self.tables[i]),
            None => Err(CatalogError::TableNotFound(String::from_str(name))),
        }
    }

    /// The table named `name`, to change its row directory.
    pub fn get_table_mut(&mut self, name: &str) -> (r: Result<&mut TableInfo, CatalogError>)
        ensures
            r is Err <==> !old(self).has_table(name@),
            r is Err ==> final(self).tables@ == old(self).tables@,
            final(self).indexes@ == old(self).indexes@,
            r matches Ok(t) ==> exists|i: int|
                0 <= i < old(self).tables@.len() && old(self).tables@[i] == *t
                    && ascii_lower(t.name@) == ascii_lower(name@) && final(self).tables@ == old(self).tables@.update(i, *final(t)),
    {
        match self.find(name) {
            Some(i) => Ok(&mut self.tables[i]),
            None => Err(CatalogError::TableNotFound(String::from_str(name))),
        }
    }

    /// Appends `rid` to the row directory of table `name`.
    pub fn add_record(&mut self, name: &str, rid: RID) -> (r: Result<(), CatalogError>)
        requires
            old(self).wf(),
        ensures
            final(self).wf(),
            final(self).indexes@ == old(self).indexes@,
            final(self).tables@.len() == old(self).tables@.len(),
            r is Err <==> !old(self).has_table(name@),
            r is Err ==> final(self).tables@ == old(self).tables@,
            forall|i: int|
                0 <= i < old(self).tables@.len() ==> {
                    let (t0, t1) = (old(self).tables@[i], #[trigger] final(self).tables@[i]);
                    &&& t1.name == t0.name
                    &&& t1.columns == t0.columns
                    &&& t1.records@ == if ascii_lower(t0.name@) == ascii_lower(name@) {
                        t0.records@.push(rid)
                    } else {
                        t0.records@
                    }
                },
    {
        match self.find(name) {
            Some(i) => {
                let ghost before = self.tables@;
                let mut t = self.tables.remove(i);
                t.records.push(rid);
                self.tables.insert(i, t);
                assert forall|k: int| 0 <= k < before.len() && k != i implies ascii_lower(before[k].name@)
                    != ascii_lower(name@) by {
                    if k < i {
                        assert(ascii_lower(before[k].name@) != ascii_lower(before[i as int].name@));
                    } else {
                        assert(ascii_lower(before[i as int].name@) != ascii_lower(before[k].name@));
                    }
                }
                assert forall|a: int, b: int| 0 <= a < b < self.tables@.len() implies ascii_lower(
                (#[trigger] self.tables@[a]).name@) != ascii_lower((#[trigger] self.tables@[b]).name@) by {
                    assert(self.tables@[a].name == before[a].name);
                    assert(self.tables@[b].name == before[b].name);
                }
                Ok(())
            },
            None => Err(CatalogError::TableNotFound(String::from_str(name))),
        }
    }

    /// Records a new index.
    pub fn create_index(&mut self, table: String, column: String, index_name: String, order: usize, root_page: u64)
        ensures
            final(self).tables@ == old(self).tables@,
            final(self).indexes@ == old(self).indexes@.push(
                IndexInfo { name: index_name, table, column, order, root_page },
            ),
    {
        self.indexes.push(IndexInfo { name: index_name, table, column, order, root_page });
    }

    /// The indexes of `table` (in any ASCII case), in the order they were
    /// created.
    pub fn get_indexes(&self, table: &str) -> (r: Vec<IndexInfo>)
        ensures
            r@.len() == indexes_on(self.indexes@, table@).len(),
            forall|i: int|
                0 <= i < r@.len() ==> same_index(#[trigger] r@[i], indexes_on(self.indexes@, table@)[i]),
    {
        let mut out: Vec<IndexInfo> = Vec::new();
        let mut i: usize = 0;
        while i < self.indexes.len()
            invariant
                i <= self.indexes@.len(),
                out@.len() == indexes_on(self.indexes@.take(i as int), table@).len(),
                forall|j: int|
                    0 <= j < out@.len() ==> same_index(
                        #[trigger] out@[j],
                        indexes_on(self.indexes@.take(i as int), table@)[j],
                    ),
            decreases self.indexes@.len() - i,
        {
            assert(self.indexes@.take(i + 1).drop_last() =~= self.indexes@.take(i as int));
            let info = &self.indexes[i];
            if eq_ignore_ascii_case(info.table.as_str(), table) {
                out.push(copy_index_info(info));
            }
            i = i + 1;
        }
        assert(self.indexes@.take(i as int) =~= self.indexes@);
        out
    }
}

fn copy_index_info(info: &IndexInfo) -> (r: IndexInfo)
    ensures
        same_index(r, *info),
{
    IndexInfo {
        name: info.name.clone(),
        table: info.table.clone(),
        column: info.column.clone(),
        order: info.order,
        root_page: info.root_page,
    }
}

} // verus!
