//! Properties of the catalog that hold across statements.
use vstd::prelude::*;

use crate::catalog::{
    columns_of, increasing_by, kind_of, object_key, object_matches, CatalogModel, Column, Object,
    ViewDependency,
};
use crate::session::SessionModel;
use crate::session::has_column_named;
use crate::statement::{
    entity_of, AlterOperation, ColumnDef, Entity, Error, ObjectKind, Statement, ViewQuery,
};

verus! {

/// The name and kind of the object that a statement creates, if it creates one.
pub open spec fn created_object(stmt: Statement) -> Option<(String, ObjectKind)> {
    match stmt {
        Statement::CreateTable { name, .. } => Some((name, ObjectKind::Table)),
        Statement::CreateView { name, .. } => Some((name, ObjectKind::View)),
        _ => None,
    }
}

/// The names that a `CREATE VIEW` reads from (none for other statements).
pub open spec fn view_references(stmt: Statement) -> Seq<String> {
    match stmt {
        Statement::CreateView { query, .. } => query.references@,
        _ => Seq::empty(),
    }
}

/// Whether a statement works on the tables and views of the selected database.
pub open spec fn needs_database(stmt: Statement) -> bool {
    match stmt {
        Statement::CreateTable { .. } => true,
        Statement::Drop { .. } => true,
        Statement::AlterTable { .. } => true,
        Statement::ShowTables => true,
        Statement::ExplainTable { .. } => true,
        Statement::CreateView { .. } => true,
        _ => false,
    }
}

/// Adding columns leaves the databases and objects as they were.
pub proof fn lemma_columns_keep_objects(m: CatalogModel, table_id: u64, defs: Seq<ColumnDef>)
    requires
        m.with_columns(table_id, defs) is Ok,
    ensures
        m.with_columns(table_id, defs).unwrap().objects == m.objects,
        m.with_columns(table_id, defs).unwrap().databases == m.databases,
    decreases defs.len(),
{
    if defs.len() > 0 {
        lemma_columns_keep_objects(m, table_id, defs.drop_last());
    }
}

/// Recording dependencies leaves the databases and objects as they were.
pub proof fn lemma_dependencies_keep_objects(m: CatalogModel, view_id: u64, ids: Seq<u64>)
    requires
        m.with_dependencies(view_id, ids) is Ok,
    ensures
        m.with_dependencies(view_id, ids).unwrap().objects == m.objects,
        m.with_dependencies(view_id, ids).unwrap().databases == m.databases,
    decreases ids.len(),
{
    if ids.len() > 0 {
        lemma_dependencies_keep_objects(m, view_id, ids.drop_last());
    }
}

/// A statement that fails leaves the session as it was: no statement has a
/// partial effect.
pub proof fn law_failure_changes_nothing(s: SessionModel, stmt: Statement)
    requires
        s.wf(),
        s.step(stmt).1 is Err,
    ensures
        s.step(stmt).0 == s,
{
}

/// With no database selected, every statement on tables and views fails
/// with `NoDatabaseSelected` and changes nothing.
pub proof fn law_selection_required(s: SessionModel, stmt: Statement)
    requires
        s.wf(),
        s.current is None,
        needs_database(stmt),
    ensures
        s.step(stmt) == (s, Err::<(), Error>(Error::NoDatabaseSelected)),
{
}

/// `ALTER TABLE t ADD COLUMN x, DROP COLUMN y`, where `t` has neither a
/// column `x` nor a column `y`, fails with `NotFound` for `y` and leaves the
/// session as it was: `x` is not added. (With no ids left, adding `x` fails
/// first with `StoreUnavailable`, and the session is unchanged too.)
pub proof fn law_alter_is_atomic(
    s: SessionModel,
    table: String,
    x: ColumnDef,
    y: String,
    operations: Vec<AlterOperation>,
)
    requires
        s.wf(),
        operations@ == seq![
            AlterOperation::AddColumn { column: x },
            AlterOperation::DropColumn { name: y },
        ],
        s.current matches Some(d) && s.catalog.has_object(d.id, ObjectKind::Table, table@)
            && !s.catalog.has_column(s.catalog.table_id(d.id, table@), x.name@)
            && !s.catalog.has_column(s.catalog.table_id(d.id, table@), y@),
        s.catalog.next_id < u64::MAX,
    ensures
        s.step(Statement::AlterTable { name: table, operations }) == (
            s,
            Err::<(), Error>(Error::NotFound { entity: Entity::Column, name: y }),
        ),
{
    let d = s.current.unwrap();
    let id = s.catalog.table_id(d.id, table@);
    let loaded = columns_of(s.catalog.columns, id);
    let keep = |c: Column| c.table_id == id;
    if has_column_named(loaded, y@) {
        let i = choose|i: int| 0 <= i < loaded.len() && loaded[i].name@ == y@;
        assert(loaded.contains(loaded[i]));
        s.catalog.columns.lemma_filter_contains_rev(keep, loaded[i]);
        s.catalog.columns.lemma_filter_pred(keep, i);
        let j = choose|j: int| 0 <= j < s.catalog.columns.len() && s.catalog.columns[j] == loaded[i];
        assert(s.catalog.has_column(id, y@));
    }
    let ops = operations@;
    assert(ops.drop_last().drop_last() =~= Seq::<AlterOperation>::empty());
    assert(ops.drop_last().last() == AlterOperation::AddColumn { column: x });
    assert(ops.last() == AlterOperation::DropColumn { name: y });
    reveal_with_fuel(CatalogModel::with_alterations, 3);
    assert(s.catalog.with_alterations(id, loaded, ops.drop_last()) is Ok);
}

/// `EXPLAIN TABLE` lists a table's columns in the order they were created:
/// their ids increase along the list.
pub proof fn law_columns_in_creation_order(m: CatalogModel, table_id: u64)
    requires
        m.wf(),
    ensures
        increasing_by(columns_of(m.columns, table_id), |c: Column| c.id),
{
    reveal(CatalogModel::wf);
    crate::catalog::lemma_filter_increasing(
        m.columns,
        |c: Column| c.table_id == table_id,
        |c: Column| c.id,
    );
}

/// Dropping a view leaves every column as it was, removes the dependencies
/// of which it is the view, and no object keeps its id.
pub proof fn law_drop_view_keeps_columns(s: SessionModel, view: String, names: Vec<String>)
    requires
        s.wf(),
        names@ == seq![view],
        s.current is Some,
        s.step(Statement::Drop { kind: ObjectKind::View, names }).1 is Ok,
    ensures
        s.step(Statement::Drop { kind: ObjectKind::View, names }).0.catalog.columns
            == s.catalog.columns,
        forall|i: int|
            0 <= i < s.step(
                Statement::Drop { kind: ObjectKind::View, names },
            ).0.catalog.dependencies.len() ==> #[trigger] s.step(
                Statement::Drop { kind: ObjectKind::View, names },
            ).0.catalog.dependencies[i].view_id != s.catalog.objects[s.catalog.object_index(
                s.current.unwrap().id,
                ObjectKind::View,
                view@,
            )].id,
        !s.step(Statement::Drop { kind: ObjectKind::View, names }).0.catalog.is_object(
            s.catalog.objects[s.catalog.object_index(s.current.unwrap().id, ObjectKind::View, view@)].id,
        ),
{
    reveal(CatalogModel::wf);
    let d = s.current.unwrap();
    let m = s.catalog;
    assert(names@.drop_last() =~= Seq::<String>::empty());
    assert(names@.last() == view);
    reveal_with_fuel(CatalogModel::without_objects, 2);
    let idx = m.object_index(d.id, ObjectKind::View, view@);
    let vid = m.objects[idx].id;
    let m1 = s.step(Statement::Drop { kind: ObjectKind::View, names }).0.catalog;
    assert(m1 == m.cascade_delete(d.id, ObjectKind::View, view@, vid));
    let keep_object = |o: Object| !object_matches(o, d.id, ObjectKind::View, view@);
    let keep_column = |c: Column| c.table_id != vid;
    let keep_dependency = |x: ViewDependency| x.view_id != vid;
    // no column belongs to the view: ids are unique and columns belong to tables
    assert forall|i: int| 0 <= i < m.columns.len() implies keep_column(m.columns[i]) by {
        let k = choose|k: int|
            0 <= k < m.objects.len() && m.objects[k].id == m.columns[i].table_id && kind_of(
                m.objects[k].body,
            ) == ObjectKind::Table;
        if k < idx {
            assert(m.objects[k].id < m.objects[idx].id);
        } else if k > idx {
            assert(m.objects[idx].id < m.objects[k].id);
        }
    }
    lemma_filter_keeps_all(m.columns, keep_column);
    assert forall|i: int| 0 <= i < m1.dependencies.len() implies #[trigger] m1.dependencies[i].view_id
        != vid by {
        m.dependencies.lemma_filter_pred(keep_dependency, i);
    }
    if m1.is_object(vid) {
        let k = choose|k: int| 0 <= k < m1.objects.len() && m1.objects[k].id == vid;
        assert(m1.objects.contains(m1.objects[k]));
        m.objects.lemma_filter_contains_rev(keep_object, m1.objects[k]);
        m.objects.lemma_filter_pred(keep_object, k);
        let q = choose|q: int| 0 <= q < m.objects.len() && m.objects[q] == m1.objects[k];
        if q < idx {
            assert(m.objects[q].id < m.objects[idx].id);
        } else if q > idx {
            assert(m.objects[idx].id < m.objects[q].id);
        }
    }
}

/// Filtering by a predicate that every element meets changes nothing.
pub proof fn lemma_filter_keeps_all<A>(s: Seq<A>, p: spec_fn(A) -> bool)
    requires
        forall|i: int| 0 <= i < s.len() ==> p(s[i]),
    ensures
        s.filter(p) == s,
    decreases s.len(),
{
    reveal(Seq::filter);
    if s.len() > 0 {
        lemma_filter_keeps_all(s.drop_last(), p);
        assert(s.drop_last().push(s.last()) =~= s);
    }
}

/// Within one database no two objects share a name: once a table or a view
/// is created, creating a table or a view of the same name in the same
/// database fails with `AlreadyExists` and changes nothing. (A view whose
/// query names a missing object fails with `NotFound` first.)
pub proof fn law_names_unique(s: SessionModel, first: Statement, second: Statement)
    requires
        s.wf(),
        created_object(first) is Some,
        created_object(second) is Some,
        created_object(first).unwrap().0@ == created_object(second).unwrap().0@,
        s.step(first).1 is Ok,
        s.step(first).0.catalog.resolve(view_references(second)) is Ok,
    ensures
        s.step(first).0.step(second) == (
            s.step(first).0,
            Err::<(), Error>(
                Error::AlreadyExists {
                    entity: entity_of(created_object(second).unwrap().1),
                    name: created_object(second).unwrap().0,
                },
            ),
        ),
{
    let d = s.current.unwrap();
    let name = created_object(first).unwrap().0;
    let m = s.catalog;
    let n = m.objects.len() as int;
    match first {
        Statement::CreateTable { name, columns } => {
            let m1 = m.with_object(d.id, name, crate::catalog::ObjectBody::Table).unwrap();
            lemma_columns_keep_objects(m1, m.next_id, columns@);
            assert(m1.objects[n].database_id == d.id && m1.objects[n].name@ == name@);
        },
        Statement::CreateView { name, query } => {
            let ids = m.resolve(query.references@).unwrap();
            let m1 = m.with_object(
                d.id,
                name,
                crate::catalog::ObjectBody::View { definition: query.definition },
            ).unwrap();
            lemma_dependencies_keep_objects(m1, m.next_id, ids);
            assert(m1.objects[n].database_id == d.id && m1.objects[n].name@ == name@);
        },
        _ => {},
    }
    assert(s.step(first).0.catalog.name_taken(d.id, name@));
}

/// Dropping a table deletes its columns and every dependency that names
/// it; `EXPLAIN TABLE` on it then fails with `NotFound`.
pub proof fn law_drop_table_cascades(s: SessionModel, table: String, names: Vec<String>)
    requires
        s.wf(),
        names@ == seq![table],
        s.current is Some,
        s.step(Statement::Drop { kind: ObjectKind::Table, names }).1 is Ok,
    ensures
        forall|i: int|
            0 <= i < s.step(Statement::Drop { kind: ObjectKind::Table, names }).0.catalog.columns.len()
                ==> #[trigger] s.step(
                Statement::Drop { kind: ObjectKind::Table, names },
            ).0.catalog.columns[i].table_id != s.catalog.table_id(s.current.unwrap().id, table@),
        forall|i: int|
            0 <= i < s.step(
                Statement::Drop { kind: ObjectKind::Table, names },
            ).0.catalog.dependencies.len() ==> ({
                let dep = #[trigger] s.step(
                    Statement::Drop { kind: ObjectKind::Table, names },
                ).0.catalog.dependencies[i];
                dep.view_id != s.catalog.table_id(s.current.unwrap().id, table@)
                    && dep.dependent_object_id != s.catalog.table_id(s.current.unwrap().id, table@)
            }),
        !s.step(Statement::Drop { kind: ObjectKind::Table, names }).0.catalog.is_object(
            s.catalog.table_id(s.current.unwrap().id, table@),
        ),
        s.step(Statement::Drop { kind: ObjectKind::Table, names }).0.step(
            Statement::ExplainTable { name: table },
        ) == (
            s.step(Statement::Drop { kind: ObjectKind::Table, names }).0,
            Err::<(), Error>(Error::NotFound { entity: Entity::Table, name: table }),
        ),
{
    let d = s.current.unwrap();
    let m = s.catalog;
    assert(names@.drop_last() =~= Seq::<String>::empty());
    assert(names@.last() == table);
    reveal_with_fuel(CatalogModel::without_objects, 2);
    let id = m.table_id(d.id, table@);
    let m1 = s.step(Statement::Drop { kind: ObjectKind::Table, names }).0.catalog;
    assert(m1 == m.cascade_delete(d.id, ObjectKind::Table, table@, id));
    let keep_object = |o: Object| !object_matches(o, d.id, ObjectKind::Table, table@);
    let keep_column = |c: Column| c.table_id != id;
    let keep_dependency = |x: ViewDependency| x.view_id != id;
    assert forall|i: int| 0 <= i < m1.columns.len() implies #[trigger] m1.columns[i].table_id != id by {
        m.columns.lemma_filter_pred(keep_column, i);
    }
    assert forall|i: int| 0 <= i < m1.dependencies.len() implies #[trigger] m1.dependencies[i].view_id
        != id && m1.dependencies[i].dependent_object_id != id by {
        m.dependencies.lemma_filter_pred(keep_dependency, i);
        assert(m1.dependencies.contains(m1.dependencies[i]));
        m.dependencies.lemma_filter_contains_rev(keep_dependency, m1.dependencies[i]);
    }
    if m1.has_object(d.id, ObjectKind::Table, table@) {
        let k = choose|k: int|
            0 <= k < m1.objects.len() && object_matches(m1.objects[k], d.id, ObjectKind::Table, table@);
        m.objects.lemma_filter_pred(keep_object, k);
    }
    reveal(CatalogModel::wf);
    let idx = m.object_index(d.id, ObjectKind::Table, table@);
    if m1.is_object(id) {
        let k = choose|k: int| 0 <= k < m1.objects.len() && m1.objects[k].id == id;
        assert(m1.objects.contains(m1.objects[k]));
        m.objects.lemma_filter_contains_rev(keep_object, m1.objects[k]);
        m.objects.lemma_filter_pred(keep_object, k);
        let q = choose|q: int| 0 <= q < m.objects.len() && m.objects[q] == m1.objects[k];
        if q < idx {
            assert(m.objects[q].id < m.objects[idx].id);
        } else if q > idx {
            assert(m.objects[idx].id < m.objects[q].id);
        }
    }
}

/// While a view reads from a table, dropping the table fails with
/// `ConstraintViolation` and changes nothing.
pub proof fn law_drop_restricted(s: SessionModel, table: String, names: Vec<String>)
    requires
        s.wf(),
        names@ == seq![table],
        s.current matches Some(d) && s.catalog.has_object(d.id, ObjectKind::Table, table@)
            && s.catalog.is_referenced(s.catalog.table_id(d.id, table@)),
    ensures
        s.step(Statement::Drop { kind: ObjectKind::Table, names }) == (
            s,
            Err::<(), Error>(Error::ConstraintViolation),
        ),
{
    assert(names@.drop_last() =~= Seq::<String>::empty());
    assert(names@.last() == table);
    reveal_with_fuel(CatalogModel::without_objects, 2);
}

/// Once the one view that reads from a table is dropped, the table can be
/// dropped.
pub proof fn law_drop_after_view(
    s: SessionModel,
    view: String,
    table: String,
    views: Vec<String>,
    tables: Vec<String>,
)
    requires
        s.wf(),
        views@ == seq![view],
        tables@ == seq![table],
        s.current matches Some(d) && s.catalog.has_object(d.id, ObjectKind::Table, table@)
            && s.catalog.has_object(d.id, ObjectKind::View, view@) && forall|i: int|
            0 <= i < s.catalog.dependencies.len() && s.catalog.dependencies[i].dependent_object_id
                == s.catalog.table_id(d.id, table@) ==> s.catalog.dependencies[i].view_id
                == s.catalog.objects[s.catalog.object_index(d.id, ObjectKind::View, view@)].id,
        s.step(Statement::Drop { kind: ObjectKind::View, names: views }).1 is Ok,
    ensures
        s.step(Statement::Drop { kind: ObjectKind::View, names: views }).0.step(
            Statement::Drop { kind: ObjectKind::Table, names: tables },
        ).1 is Ok,
{
    reveal(CatalogModel::wf);
    let d = s.current.unwrap();
    let m = s.catalog;
    assert(views@.drop_last() =~= Seq::<String>::empty());
    assert(views@.last() == view);
    assert(tables@.drop_last() =~= Seq::<String>::empty());
    assert(tables@.last() == table);
    reveal_with_fuel(CatalogModel::without_objects, 2);
    let vid = m.objects[m.object_index(d.id, ObjectKind::View, view@)].id;
    let tid = m.table_id(d.id, table@);
    let ti = m.object_index(d.id, ObjectKind::Table, table@);
    let m1 = s.step(Statement::Drop { kind: ObjectKind::View, names: views }).0.catalog;
    assert(m1 == m.cascade_delete(d.id, ObjectKind::View, view@, vid));
    let keep_object = |o: Object| !object_matches(o, d.id, ObjectKind::View, view@);
    let keep_dependency = |x: ViewDependency| x.view_id != vid;
    // the table stays
    m.objects.lemma_filter_contains(keep_object, ti);
    let k = choose|k: int| 0 <= k < m1.objects.len() && m1.objects[k] == m.objects[ti];
    assert(object_matches(m1.objects[k], d.id, ObjectKind::Table, table@));
    assert(m1.has_object(d.id, ObjectKind::Table, table@));
    // whichever table object is chosen now is the one that was there
    let k1 = m1.object_index(d.id, ObjectKind::Table, table@);
    assert(m1.objects.contains(m1.objects[k1]));
    m.objects.lemma_filter_contains_rev(keep_object, m1.objects[k1]);
    let q = choose|q: int| 0 <= q < m.objects.len() && m.objects[q] == m1.objects[k1];
    if q != ti {
        assert(object_key(m.objects[q]) != object_key(m.objects[ti]));
    }
    assert(m1.table_id(d.id, table@) == tid);
    // nothing reads from it any more
    if m1.is_referenced(tid) {
        let i = choose|i: int| 0 <= i < m1.dependencies.len() && m1.dependencies[i].dependent_object_id == tid;
        m.dependencies.lemma_filter_pred(keep_dependency, i);
        assert(m1.dependencies.contains(m1.dependencies[i]));
        m.dependencies.lemma_filter_contains_rev(keep_dependency, m1.dependencies[i]);
    }
}

/// Adding columns to a table stamps each with the next id; every column
/// added belongs to that table.
pub proof fn lemma_columns_bounded(m: CatalogModel, table_id: u64, defs: Seq<ColumnDef>, bound: u64)
    requires
        m.with_columns(table_id, defs) is Ok,
        table_id < bound,
        forall|i: int| 0 <= i < m.columns.len() ==> #[trigger] m.columns[i].table_id < bound,
    ensures
        forall|i: int|
            0 <= i < m.with_columns(table_id, defs).unwrap().columns.len() ==> #[trigger] m.with_columns(
                table_id,
                defs,
            ).unwrap().columns[i].table_id < bound,
        m.with_columns(table_id, defs).unwrap().next_id == m.next_id + defs.len(),
    decreases defs.len(),
{
    if defs.len() > 0 {
        lemma_columns_bounded(m, table_id, defs.drop_last(), bound);
        let m1 = m.with_columns(table_id, defs.drop_last()).unwrap();
        let m2 = m.with_columns(table_id, defs).unwrap();
        assert forall|i: int| 0 <= i < m2.columns.len() implies #[trigger] m2.columns[i].table_id
            < bound by {
            if i < m1.columns.len() {
                assert(m2.columns[i] == m1.columns[i]);
            }
        }
    }
}

/// Whether adding columns succeeds depends only on the columns the table
/// already has and on ids being left.
pub proof fn lemma_columns_transfer(
    a: CatalogModel,
    ta: u64,
    b: CatalogModel,
    tb: u64,
    defs: Seq<ColumnDef>,
)
    requires
        a.with_columns(ta, defs) is Ok,
        forall|n: Seq<char>| #[trigger] a.has_column(ta, n) == b.has_column(tb, n),
        b.next_id + defs.len() <= u64::MAX,
    ensures
        b.with_columns(tb, defs) is Ok,
        forall|n: Seq<char>|
            #[trigger] a.with_columns(ta, defs).unwrap().has_column(ta, n) == b.with_columns(
                tb,
                defs,
            ).unwrap().has_column(tb, n),
        b.with_columns(tb, defs).unwrap().next_id == b.next_id + defs.len(),
    decreases defs.len(),
{
    if defs.len() > 0 {
        let rest = defs.drop_last();
        let d = defs.last();
        lemma_columns_transfer(a, ta, b, tb, rest);
        let a1 = a.with_columns(ta, rest).unwrap();
        let b1 = b.with_columns(tb, rest).unwrap();
        assert(!a1.has_column(ta, d.name@));
        assert(!b1.has_column(tb, d.name@));
        let a2 = a.with_columns(ta, defs).unwrap();
        let b2 = b.with_columns(tb, defs).unwrap();
        assert forall|n: Seq<char>| #[trigger] a2.has_column(ta, n) == b2.has_column(tb, n) by {
            if a2.has_column(ta, n) {
                let i = choose|i: int|
                    0 <= i < a2.columns.len() && a2.columns[i].table_id == ta && a2.columns[i].name@
                        == n;
                if i < a1.columns.len() {
                    assert(a1.columns[i] == a2.columns[i]);
                    assert(a1.has_column(ta, n));
                    assert(a1.has_column(ta, n) == b1.has_column(tb, n));
                    let j = choose|j: int|
                        0 <= j < b1.columns.len() && b1.columns[j].table_id == tb
                            && b1.columns[j].name@ == n;
                    assert(b2.columns[j] == b1.columns[j]);
                } else {
                    assert(b2.columns[b1.columns.len() as int].name@ == n);
                }
            }
            if b2.has_column(tb, n) {
                let i = choose|i: int|
                    0 <= i < b2.columns.len() && b2.columns[i].table_id == tb && b2.columns[i].name@
                        == n;
                if i < b1.columns.len() {
                    assert(b1.columns[i] == b2.columns[i]);
                    assert(b1.has_column(tb, n));
                    assert(a1.has_column(ta, n) == b1.has_column(tb, n));
                    let j = choose|j: int|
                        0 <= j < a1.columns.len() && a1.columns[j].table_id == ta
                            && a1.columns[j].name@ == n;
                    assert(a2.columns[j] == a1.columns[j]);
                } else {
                    assert(a2.columns[a1.columns.len() as int].name@ == n);
                }
            }
        }
    }
}

/// Databases do not share their namespaces: after `CREATE TABLE t` in one
/// database and `USE` of another that has no object `t`, the same
/// `CREATE TABLE t` succeeds there too (while ids are left).
pub proof fn law_same_name_in_two_databases(
    s: SessionModel,
    name: String,
    columns: Vec<ColumnDef>,
    other: String,
)
    requires
        s.wf(),
        s.step(Statement::CreateTable { name, columns }).1 is Ok,
        s.step(Statement::CreateTable { name, columns }).0.step(Statement::Use { name: other }).1 is Ok,
        s.catalog.has_database(other@),
        s.catalog.databases[s.catalog.database_index(other@)].id != s.current.unwrap().id,
        !s.catalog.name_taken(s.catalog.databases[s.catalog.database_index(other@)].id, name@),
        s.catalog.next_id + 2 * (columns@.len() + 1) <= u64::MAX,
    ensures
        s.step(Statement::CreateTable { name, columns }).0.step(Statement::Use { name: other }).0.step(
            Statement::CreateTable { name, columns },
        ).1 is Ok,
        s.step(Statement::CreateTable { name, columns }).0.step(Statement::Use { name: other }).0.step(
            Statement::CreateTable { name, columns },
        ).0.catalog.has_object(s.current.unwrap().id, ObjectKind::Table, name@),
        s.step(Statement::CreateTable { name, columns }).0.step(Statement::Use { name: other }).0.step(
            Statement::CreateTable { name, columns },
        ).0.catalog.has_object(
            s.catalog.databases[s.catalog.database_index(other@)].id,
            ObjectKind::Table,
            name@,
        ),
{
    reveal(CatalogModel::wf);
    let d1 = s.current.unwrap();
    let m = s.catalog;
    let ta = m.next_id;
    let a = m.with_object(d1.id, name, crate::catalog::ObjectBody::Table).unwrap();
    lemma_columns_keep_objects(a, ta, columns@);
    let s1 = s.step(Statement::CreateTable { name, columns }).0;
    let m1 = s1.catalog;
    // the first table changed no database
    assert(m1.databases == m.databases);
    let d2 = m.databases[m.database_index(other@)];
    assert(m1.has_database(other@));
    assert(m1.database_index(other@) == m.database_index(other@));
    let s2 = s1.step(Statement::Use { name: other }).0;
    assert(s2.catalog == m1);
    assert(s2.current == Some(d2));
    // the name is free in the other database
    let n = m.objects.len() as int;
    assert(m1.objects == a.objects);
    if m1.name_taken(d2.id, name@) {
        let i = choose|i: int|
            0 <= i < m1.objects.len() && m1.objects[i].database_id == d2.id && m1.objects[i].name@
                == name@;
        if i < n {
            assert(m.objects[i] == m1.objects[i]);
        }
    }
    // no column belongs to either new table yet
    assert forall|i: int| 0 <= i < m.columns.len() implies #[trigger] m.columns[i].table_id < ta by {
        let k = choose|k: int|
            0 <= k < m.objects.len() && m.objects[k].id == m.columns[i].table_id && crate::catalog::kind_of(
                m.objects[k].body,
            ) == ObjectKind::Table;
    }
    lemma_columns_bounded(a, ta, columns@, (ta + 1) as u64);
    let tb = m1.next_id;
    let b = m1.with_object(d2.id, name, crate::catalog::ObjectBody::Table).unwrap();
    assert forall|x: Seq<char>| #[trigger] a.has_column(ta, x) == b.has_column(tb, x) by {
        if a.has_column(ta, x) {
            let i = choose|i: int| 0 <= i < a.columns.len() && a.columns[i].table_id == ta && a.columns[i].name@ == x;
            assert(m.columns[i].table_id < ta);
        }
        if b.has_column(tb, x) {
            let i = choose|i: int| 0 <= i < b.columns.len() && b.columns[i].table_id == tb && b.columns[i].name@ == x;
            assert(m1.columns[i].table_id < ta + 1);
        }
    }
    lemma_columns_transfer(a, ta, b, tb, columns@);
    lemma_columns_keep_objects(b, tb, columns@);
    let last = b.with_columns(tb, columns@).unwrap();
    assert(last.objects == b.objects);
    assert(object_matches(last.objects[n], d1.id, ObjectKind::Table, name@));
    assert(object_matches(last.objects[n + 1], d2.id, ObjectKind::Table, name@));
}

/// The dependencies a new view gets: one per id, in order.
pub open spec fn edges(view_id: u64, ids: Seq<u64>) -> Seq<ViewDependency> {
    Seq::new(ids.len(), |k: int| ViewDependency { view_id, dependent_object_id: ids[k] })
}

/// For a view that no dependency names yet, recording distinct ids succeeds
/// and appends one dependency per id.
pub proof fn lemma_dependencies_added(m: CatalogModel, view_id: u64, ids: Seq<u64>)
    requires
        forall|i: int| 0 <= i < m.dependencies.len() ==> #[trigger] m.dependencies[i].view_id != view_id,
        forall|i: int, j: int| 0 <= i < j < ids.len() ==> ids[i] != ids[j],
    ensures
        m.with_dependencies(view_id, ids) is Ok,
        m.with_dependencies(view_id, ids).unwrap().dependencies == m.dependencies + edges(view_id, ids),
    decreases ids.len(),
{
    if ids.len() == 0 {
        assert(m.dependencies + edges(view_id, ids) =~= m.dependencies);
    } else {
        let rest = ids.drop_last();
        lemma_dependencies_added(m, view_id, rest);
        let m1 = m.with_dependencies(view_id, rest).unwrap();
        let dep = ViewDependency { view_id, dependent_object_id: ids.last() };
        if m1.dependencies.contains(dep) {
            let i = choose|i: int| 0 <= i < m1.dependencies.len() && m1.dependencies[i] == dep;
            if i < m.dependencies.len() {
                assert(m1.dependencies[i] == m.dependencies[i]);
                assert(m.dependencies[i].view_id != view_id);
            } else {
                let k = i - m.dependencies.len();
                assert(m1.dependencies[i] == edges(view_id, rest)[k]);
                assert(rest[k] == ids[k]);
                assert(ids[k] != ids[ids.len() - 1]);
            }
        }
        assert(!m1.has_dependency(dep));
        assert(m.with_dependencies(view_id, ids) == m1.with_dependency(dep));
        assert(m1.dependencies.push(dep) =~= m.dependencies + edges(view_id, ids));
    }
}

/// Distinct names that all exist resolve to distinct ids.
pub proof fn lemma_distinct_names_distinct_ids(m: CatalogModel, refs: Seq<String>)
    requires
        m.wf(),
        forall|k: int| 0 <= k < refs.len() ==> m.has_named(#[trigger] refs[k]@),
        forall|i: int, j: int| 0 <= i < j < refs.len() ==> refs[i]@ != refs[j]@,
    ensures
        m.resolve(refs) is Ok,
        forall|i: int, j: int|
            0 <= i < j < refs.len() ==> m.resolve(refs).unwrap()[i] != m.resolve(refs).unwrap()[j],
        m.resolve(refs).unwrap().len() == refs.len(),
{
    assert(m.resolve(refs) == Ok::<Seq<u64>, Error>(
        Seq::new(refs.len(), |k: int| m.named_id(refs[k]@)),
    ));
    let ids = m.resolve(refs).unwrap();
    assert forall|i: int, j: int| 0 <= i < j < refs.len() implies #[trigger] ids[i] != #[trigger] ids[j] by {
        if ids[i] == ids[j] {
            lemma_named_ids_differ(m, refs[i]@, refs[j]@);
        }
    }
}

/// Two names that exist and name objects with the same id are the same name.
pub proof fn lemma_named_ids_differ(m: CatalogModel, x: Seq<char>, y: Seq<char>)
    requires
        m.wf(),
        m.has_named(x),
        m.has_named(y),
        m.named_id(x) == m.named_id(y),
    ensures
        x == y,
{
    crate::catalog::lemma_first_named(m, x);
    crate::catalog::lemma_first_named(m, y);
    let a = m.first_named(x);
    let b = m.first_named(y);
    if a < b {
        crate::catalog::lemma_object_ids_increase(m, a, b);
    } else if b < a {
        crate::catalog::lemma_object_ids_increase(m, b, a);
    }
}

/// `CREATE VIEW` succeeds where its name is free in the selected database
/// and its query reads from distinct names that all exist (while ids are
/// left); each object read gets one dependency.
pub proof fn law_view_over_distinct_names(s: SessionModel, name: String, query: ViewQuery)
    requires
        s.wf(),
        s.current matches Some(d) && !s.catalog.name_taken(d.id, name@),
        forall|k: int|
            0 <= k < query.references@.len() ==> s.catalog.has_named(#[trigger] query.references@[k]@),
        forall|i: int, j: int|
            0 <= i < j < query.references@.len() ==> query.references@[i]@ != query.references@[j]@,
        s.catalog.next_id < u64::MAX,
    ensures
        s.step(Statement::CreateView { name, query }).1 is Ok,
        s.step(Statement::CreateView { name, query }).0.catalog.dependencies == s.catalog.dependencies
            + edges(s.catalog.next_id, s.catalog.resolve(query.references@).unwrap()),
{
    let d = s.current.unwrap();
    let m = s.catalog;
    let refs = query.references@;
    let ids = m.resolve(refs).unwrap();
    let vid = m.next_id;
    let m1 = m.with_object(d.id, name, crate::catalog::ObjectBody::View { definition: query.definition }).unwrap();
    assert forall|i: int| 0 <= i < m1.dependencies.len() implies #[trigger] m1.dependencies[i].view_id
        != vid by {
        crate::catalog::lemma_dependency_view_below(m, i);
    }
    lemma_distinct_names_distinct_ids(m, refs);
    lemma_dependencies_added(m1, vid, ids);
}

} // verus!
