//! The catalog store: the rows that describe databases, objects, columns and
//! view dependencies, with the integrity rules that every change keeps.
use vstd::prelude::*;

use crate::statement::{entity_of, ColumnDef, Entity, Error, ObjectKind};

verus! {

/// A database: a namespace of objects.
#[derive(Debug)]
pub struct Database {
    pub id: u64,
    pub name: String,
}

/// What an object is: a table, or a view with the text of its query.
#[derive(Debug)]
pub enum ObjectBody {
    Table,
    View { definition: String },
}

/// A named schema object of a database.
#[derive(Debug)]
pub struct Object {
    pub id: u64,
    pub name: String,
    pub database_id: u64,
    pub body: ObjectBody,
}

/// A column of a table.
#[derive(Debug)]
pub struct Column {
    pub id: u64,
    pub table_id: u64,
    pub name: String,
    pub data_type: String,
    pub is_primary_key: bool,
}

/// A view reads from another object.
#[derive(Clone, Copy, Debug, PartialEq, Eq, Structural)]
pub struct ViewDependency {
    pub view_id: u64,
    pub dependent_object_id: u64,
}

pub open spec fn kind_of(body: ObjectBody) -> ObjectKind {
    match body {
        ObjectBody::Table => ObjectKind::Table,
        ObjectBody::View { .. } => ObjectKind::View,
    }
}

impl Database {
    pub fn duplicate(&self) -> (r: Database)
        ensures
            r == *self,
    {
        Database { id: self.id, name: self.name.clone() }
    }
}

impl Column {
    pub fn duplicate(&self) -> (r: Column)
        ensures
            r == *self,
    {
        Column {
            id: self.id,
            table_id: self.table_id,
            name: self.name.clone(),
            data_type: self.data_type.clone(),
            is_primary_key: self.is_primary_key,
        }
    }
}

impl ObjectBody {
    pub fn kind(&self) -> (r: ObjectKind)
        ensures
            r == kind_of(*self),
    {
        match self {
            ObjectBody::Table => ObjectKind::Table,
            ObjectBody::View { .. } => ObjectKind::View,
        }
    }

    pub fn duplicate(&self) -> (r: ObjectBody)
        ensures
            r == *self,
    {
        match self {
            ObjectBody::Table => ObjectBody::Table,
            ObjectBody::View { definition } => ObjectBody::View { definition: definition.clone() },
        }
    }
}

impl Object {
    pub fn duplicate(&self) -> (r: Object)
        ensures
            r == *self,
    {
        Object {
            id: self.id,
            name: self.name.clone(),
            database_id: self.database_id,
            body: self.body.duplicate(),
        }
    }
}

/// No two elements of `s` share a key.
pub open spec fn unique_by<A, K>(s: Seq<A>, key: spec_fn(A) -> K) -> bool {
    forall|i: int, j: int|
        #![trigger s[i], s[j]]
        0 <= i < s.len() && 0 <= j < s.len() && i != j ==> key(s[i]) != key(s[j])
}

/// The ids along `s` strictly increase: each is unique, and the order of
/// `s` is the order in which the ids were handed out.
pub open spec fn increasing_by<A>(s: Seq<A>, id: spec_fn(A) -> u64) -> bool {
    forall|i: int, j: int|
        #![trigger s[i], s[j]]
        0 <= i < j < s.len() ==> id(s[i]) < id(s[j])
}

pub open spec fn object_key(o: Object) -> (u64, Seq<char>) {
    (o.database_id, o.name@)
}

pub open spec fn column_key(c: Column) -> (u64, Seq<char>) {
    (c.table_id, c.name@)
}

pub open spec fn database_key(d: Database) -> Seq<char> {
    d.name@
}

pub open spec fn dependency_key(d: ViewDependency) -> ViewDependency {
    d
}

pub open spec fn object_matches(o: Object, db: u64, kind: ObjectKind, name: Seq<char>) -> bool {
    o.database_id == db && kind_of(o.body) == kind && o.name@ == name
}

/// The names of the tables of database `db`, in the order of `objects`.
pub open spec fn table_names_in(objects: Seq<Object>, db: u64) -> Seq<String>
    decreases objects.len(),
{
    if objects.len() == 0 {
        Seq::empty()
    } else {
        let rest = table_names_in(objects.drop_last(), db);
        let o = objects.last();
        if o.database_id == db && kind_of(o.body) == ObjectKind::Table {
            rest.push(o.name)
        } else {
            rest
        }
    }
}

/// The columns of table `table_id`, in the order of `columns`.
pub open spec fn columns_of(columns: Seq<Column>, table_id: u64) -> Seq<Column> {
    columns.filter(|c: Column| c.table_id == table_id)
}

/// What the catalog holds.
pub struct CatalogModel {
    pub databases: Seq<Database>,
    pub objects: Seq<Object>,
    pub columns: Seq<Column>,
    pub dependencies: Seq<ViewDependency>,
    /// The id that the next inserted row gets; ids are never reused.
    pub next_id: u64,
}

impl CatalogModel {
    pub open spec fn has_database(self, name: Seq<char>) -> bool {
        exists|i: int| 0 <= i < self.databases.len() && self.databases[i].name@ == name
    }

    /// `db` already has an object (table or view) called `name`.
    pub open spec fn name_taken(self, db: u64, name: Seq<char>) -> bool {
        exists|i: int|
            0 <= i < self.objects.len() && self.objects[i].database_id == db
                && self.objects[i].name@ == name
    }

    pub open spec fn has_object(self, db: u64, kind: ObjectKind, name: Seq<char>) -> bool {
        exists|i: int| 0 <= i < self.objects.len() && object_matches(self.objects[i], db, kind, name)
    }

    /// The object of `db` with that kind and name (meaningful where `has_object`).
    pub open spec fn object_index(self, db: u64, kind: ObjectKind, name: Seq<char>) -> int {
        choose|i: int| 0 <= i < self.objects.len() && object_matches(self.objects[i], db, kind, name)
    }

    /// Some object of any database is called `name`.
    pub open spec fn has_named(self, name: Seq<char>) -> bool {
        exists|i: int| 0 <= i < self.objects.len() && self.objects[i].name@ == name
    }

    /// The first object, over all databases, called `name`.
    pub open spec fn first_named(self, name: Seq<char>) -> int {
        choose|i: int|
            0 <= i < self.objects.len() && self.objects[i].name@ == name && forall|j: int|
                0 <= j < i ==> self.objects[j].name@ != name
    }

    pub open spec fn is_object_of_kind(self, id: u64, kind: ObjectKind) -> bool {
        exists|k: int|
            0 <= k < self.objects.len() && self.objects[k].id == id && kind_of(self.objects[k].body)
                == kind
    }

    pub open spec fn is_object(self, id: u64) -> bool {
        exists|k: int| 0 <= k < self.objects.len() && self.objects[k].id == id
    }

    pub open spec fn has_column(self, table_id: u64, name: Seq<char>) -> bool {
        exists|i: int|
            0 <= i < self.columns.len() && self.columns[i].table_id == table_id
                && self.columns[i].name@ == name
    }

    /// Some view reads from object `id`.
    pub open spec fn is_referenced(self, id: u64) -> bool {
        exists|i: int| 0 <= i < self.dependencies.len() && self.dependencies[i].dependent_object_id == id
    }

    pub open spec fn has_dependency(self, dep: ViewDependency) -> bool {
        self.dependencies.contains(dep)
    }

    /// The integrity rules of the catalog.
    #[verifier::opaque]
    pub open spec fn wf(self) -> bool {
        &&& unique_by(self.databases, |d: Database| database_key(d))
        &&& unique_by(self.objects, |o: Object| object_key(o))
        &&& unique_by(self.columns, |c: Column| column_key(c))
        &&& unique_by(self.dependencies, |d: ViewDependency| dependency_key(d))
        &&& increasing_by(self.databases, |d: Database| d.id)
        &&& increasing_by(self.objects, |o: Object| o.id)
        &&& increasing_by(self.columns, |c: Column| c.id)
        &&& forall|i: int| 0 <= i < self.databases.len() ==> self.databases[i].id < self.next_id
        &&& forall|i: int| 0 <= i < self.objects.len() ==> self.objects[i].id < self.next_id
        &&& forall|i: int|
            0 <= i < self.columns.len() ==> self.columns[i].id < self.next_id
                && self.is_object_of_kind(self.columns[i].table_id, ObjectKind::Table)
        &&& forall|i: int|
            0 <= i < self.dependencies.len() ==> self.is_object_of_kind(
                self.dependencies[i].view_id,
                ObjectKind::View,
            ) && self.is_object(self.dependencies[i].dependent_object_id)
    }

    pub open spec fn with_database(self, name: String) -> Result<CatalogModel, Error> {
        if self.has_database(name@) {
            Err(Error::AlreadyExists { entity: Entity::Database, name })
        } else if self.next_id == u64::MAX {
            Err(Error::StoreUnavailable)
        } else {
            Ok(
                CatalogModel {
                    databases: self.databases.push(Database { id: self.next_id, name }),
                    next_id: (self.next_id + 1) as u64,
                    ..self
                },
            )
        }
    }

    pub open spec fn without_database(self, name: Seq<char>) -> CatalogModel {
        CatalogModel { databases: self.databases.filter(|d: Database| d.name@ != name), ..self }
    }

    /// Adds an object to `db`; its id is `next_id`.
    pub open spec fn with_object(self, db: u64, name: String, body: ObjectBody) -> Result<
        CatalogModel,
        Error,
    > {
        if self.name_taken(db, name@) {
            Err(Error::AlreadyExists { entity: entity_of(kind_of(body)), name })
        } else if self.next_id == u64::MAX {
            Err(Error::StoreUnavailable)
        } else {
            Ok(
                CatalogModel {
                    objects: self.objects.push(
                        Object { id: self.next_id, name, database_id: db, body },
                    ),
                    next_id: (self.next_id + 1) as u64,
                    ..self
                },
            )
        }
    }

    pub open spec fn with_column(self, table_id: u64, def: ColumnDef) -> Result<CatalogModel, Error> {
        if self.has_column(table_id, def.name@) {
            Err(Error::AlreadyExists { entity: Entity::Column, name: def.name })
        } else if self.next_id == u64::MAX {
            Err(Error::StoreUnavailable)
        } else {
            Ok(
                CatalogModel {
                    columns: self.columns.push(
                        Column {
                            id: self.next_id,
                            table_id,
                            name: def.name,
                            data_type: def.data_type,
                            is_primary_key: def.is_primary_key,
                        },
                    ),
                    next_id: (self.next_id + 1) as u64,
                    ..self
                },
            )
        }
    }

    /// Adds the columns one after the other; the first failure stops it.
    pub open spec fn with_columns(self, table_id: u64, defs: Seq<ColumnDef>) -> Result<
        CatalogModel,
        Error,
    >
        decreases defs.len(),
    {
        if defs.len() == 0 {
            Ok(self)
        } else {
            match self.with_columns(table_id, defs.drop_last()) {
                Ok(m) => m.with_column(table_id, defs.last()),
                Err(e) => Err(e),
            }
        }
    }

    pub open spec fn with_dependency(self, dep: ViewDependency) -> Result<CatalogModel, Error> {
        if self.has_dependency(dep) {
            Err(Error::ConstraintViolation)
        } else {
            Ok(CatalogModel { dependencies: self.dependencies.push(dep), ..self })
        }
    }

    /// Records that view `view_id` reads from each of `ids`, in order.
    pub open spec fn with_dependencies(self, view_id: u64, ids: Seq<u64>) -> Result<
        CatalogModel,
        Error,
    >
        decreases ids.len(),
    {
        if ids.len() == 0 {
            Ok(self)
        } else {
            match self.with_dependencies(view_id, ids.drop_last()) {
                Ok(m) => m.with_dependency(
                    ViewDependency { view_id, dependent_object_id: ids.last() },
                ),
                Err(e) => Err(e),
            }
        }
    }

    /// Deletes object `id` (which matches `db`, `kind`, `name`) with its
    /// columns and the dependencies of which it is the view.
    pub open spec fn cascade_delete(self, db: u64, kind: ObjectKind, name: Seq<char>, id: u64) -> CatalogModel {
        CatalogModel {
            objects: self.objects.filter(|o: Object| !object_matches(o, db, kind, name)),
            columns: self.columns.filter(|c: Column| c.table_id != id),
            dependencies: self.dependencies.filter(|d: ViewDependency| d.view_id != id),
            ..self
        }
    }

    /// Deletes the object of `db` with that kind and name: it must exist, and
    /// no view may read from it.
    pub open spec fn without_object(self, db: u64, kind: ObjectKind, name: String) -> Result<
        CatalogModel,
        Error,
    > {
        if !self.has_object(db, kind, name@) {
            Err(Error::NotFound { entity: entity_of(kind), name })
        } else {
            let id = self.objects[self.object_index(db, kind, name@)].id;
            if self.is_referenced(id) {
                Err(Error::ConstraintViolation)
            } else {
                Ok(self.cascade_delete(db, kind, name@, id))
            }
        }
    }

    /// Deletes the objects one after the other; the first failure stops it.
    pub open spec fn without_objects(self, db: u64, kind: ObjectKind, names: Seq<String>) -> Result<
        CatalogModel,
        Error,
    >
        decreases names.len(),
    {
        if names.len() == 0 {
            Ok(self)
        } else {
            match self.without_objects(db, kind, names.drop_last()) {
                Ok(m) => m.without_object(db, kind, names.last()),
                Err(e) => Err(e),
            }
        }
    }

    pub open spec fn without_column(self, id: u64) -> CatalogModel {
        CatalogModel { columns: self.columns.filter(|c: Column| c.id != id), ..self }
    }
}

/// The catalog store.
pub struct Catalog {
    pub databases: Vec<Database>,
    pub objects: Vec<Object>,
    pub columns: Vec<Column>,
    pub dependencies: Vec<ViewDependency>,
    pub next_id: u64,
}

impl View for Catalog {
    type V = CatalogModel;

    open spec fn view(&self) -> CatalogModel {
        CatalogModel {
            databases: self.databases@,
            objects: self.objects@,
            columns: self.columns@,
            dependencies: self.dependencies@,
            next_id: self.next_id,
        }
    }
}



impl Catalog {
    /// An empty catalog.
    pub fn new() -> (r: Catalog)
        ensures
            r@.wf(),
            r@.databases.len() == 0,
            r@.objects.len() == 0,
            r@.columns.len() == 0,
            r@.dependencies.len() == 0,
            r@.next_id == 1,
    {
        proof {
            reveal(CatalogModel::wf);
        }
        Catalog {
            databases: Vec::new(),
            objects: Vec::new(),
            columns: Vec::new(),
            dependencies: Vec::new(),
            next_id: 1,
        }
    }

    /// The index of the database called `name`.
    pub fn find_database(&self, name: &String) -> (r: Option<usize>)
        ensures
            match r {
                Some(i) => i < self.databases@.len() && self.databases@[i as int].name@ == name@,
                None => !self@.has_database(name@),
            },
    {
        let mut i: usize = 0;
        while i < self.databases.len()
            invariant
                i <= self.databases@.len(),
                forall|j: int| 0 <= j < i ==> self.databases@[j].name@ != name@,
            decreases self.databases@.len() - i,
        {
            if self.databases[i].name == *name {
                return Some(i);
            }
            i = i + 1;
        }
        None
    }

    /// The index of the object of `db` with that kind and name.
    pub fn find_object(&self, db: u64, kind: ObjectKind, name: &String) -> (r: Option<usize>)
        requires
            self@.wf(),
        ensures
            match r {
                Some(i) => self@.has_object(db, kind, name@) && i == self@.object_index(
                    db,
                    kind,
                    name@,
                ) && i < self@.objects.len(),
                None => !self@.has_object(db, kind, name@),
            },
    {
        proof {
            reveal(CatalogModel::wf);
        }
        let mut i: usize = 0;
        while i < self.objects.len()
            invariant
                i <= self.objects@.len(),
                self@.wf(),
                forall|j: int|
                    0 <= j < i ==> !object_matches(#[trigger] self.objects@[j], db, kind, name@),
            decreases self.objects@.len() - i,
        {
            let o = &self.objects[i];
            if o.database_id == db && o.body.kind() == kind && o.name == *name {
                proof {
                    reveal(CatalogModel::wf);
                    assert(object_matches(self@.objects[i as int], db, kind, name@));
                    assert(self@.has_object(db, kind, name@));
                    let k = self@.object_index(db, kind, name@);
                    assert(0 <= k < self@.objects.len());
                    if k != i {
                        assert(object_key(self@.objects[k]) != object_key(self@.objects[i as int]));
                    }
                }
                return Some(i);
            }
            i = i + 1;
        }
        None
    }

    /// The index of the first object, over all databases, called `name`.
    pub fn find_named(&self, name: &String) -> (r: Option<usize>)
        ensures
            match r {
                Some(i) => self@.has_named(name@) && i == self@.first_named(name@) && i
                    < self@.objects.len(),
                None => !self@.has_named(name@),
            },
    {
        let mut i: usize = 0;
        while i < self.objects.len()
            invariant
                i <= self.objects@.len(),
                forall|j: int| 0 <= j < i ==> self.objects@[j].name@ != name@,
            decreases self.objects@.len() - i,
        {
            if self.objects[i].name == *name {
                proof {
                    let k = self@.first_named(name@);
                    assert(self.objects@[i as int].name@ == name@);
                    if k < i {
                        assert(self.objects@[k].name@ != name@);
                    } else if k > i {
                        assert(self.objects@[i as int].name@ != name@);
                    }
                }
                return Some(i);
            }
            i = i + 1;
        }
        None
    }

    /// Whether `db` holds an object (of either kind) called `name`.
    pub fn is_name_taken(&self, db: u64, name: &String) -> (r: bool)
        ensures
            r == self@.name_taken(db, name@),
    {
        let mut i: usize = 0;
        while i < self.objects.len()
            invariant
                i <= self.objects@.len(),
                forall|j: int|
                    0 <= j < i ==> !(self.objects@[j].database_id == db && self.objects@[j].name@
                        == name@),
            decreases self.objects@.len() - i,
        {
            if self.objects[i].database_id == db && self.objects[i].name == *name {
                return true;
            }
            i = i + 1;
        }
        false
    }

    pub fn has_column(&self, table_id: u64, name: &String) -> (r: bool)
        ensures
            r == self@.has_column(table_id, name@),
    {
        let mut i: usize = 0;
        while i < self.columns.len()
            invariant
                i <= self.columns@.len(),
                forall|j: int|
                    0 <= j < i ==> !(self.columns@[j].table_id == table_id && self.columns@[j].name@
                        == name@),
            decreases self.columns@.len() - i,
        {
            if self.columns[i].table_id == table_id && self.columns[i].name == *name {
                assert(self@.columns[i as int].name@ == name@);
                return true;
            }
            i = i + 1;
        }
        false
    }

    /// Whether some view reads from object `id`.
    pub fn is_referenced(&self, id: u64) -> (r: bool)
        ensures
            r == self@.is_referenced(id),
    {
        let mut i: usize = 0;
        while i < self.dependencies.len()
            invariant
                i <= self.dependencies@.len(),
                forall|j: int| 0 <= j < i ==> self.dependencies@[j].dependent_object_id != id,
            decreases self.dependencies@.len() - i,
        {
            if self.dependencies[i].dependent_object_id == id {
                assert(self@.dependencies[i as int].dependent_object_id == id);
                return true;
            }
            i = i + 1;
        }
        false
    }

    pub fn has_dependency(&self, dep: ViewDependency) -> (r: bool)
        ensures
            r == self@.has_dependency(dep),
    {
        let mut i: usize = 0;
        while i < self.dependencies.len()
            invariant
                i <= self.dependencies@.len(),
                forall|j: int| 0 <= j < i ==> self.dependencies@[j] != dep,
            decreases self.dependencies@.len() - i,
        {
            if self.dependencies[i] == dep {
                assert(self.dependencies@[i as int] == dep);
                return true;
            }
            i = i + 1;
        }
        false
    }

    /// Adds a database called `name`; it fails where the name is taken.
    pub fn insert_database(&mut self, name: String) -> (r: Result<Database, Error>)
        requires
            old(self)@.wf(),
        ensures
            final(self)@.wf(),
            match old(self)@.with_database(name) {
                Ok(m) => final(self)@ == m && r == Ok::<Database, Error>(
                    Database { id: old(self).next_id, name },
                ),
                Err(e) => final(self)@ == old(self)@ && r == Err::<Database, Error>(e),
            },
    {
        proof {
            reveal(CatalogModel::wf);
        }
        if self.find_database(&name).is_some() {
            return Err(Error::AlreadyExists { entity: Entity::Database, name });
        }
        if self.next_id == u64::MAX {
            return Err(Error::StoreUnavailable);
        }
        let id = self.next_id;
        let row = Database { id, name: name.clone() };
        proof {
            lemma_push_unique(self.databases@, row, |d: Database| database_key(d));
            lemma_push_increasing(self.databases@, row, |d: Database| d.id);
        }
        self.databases.push(row);
        self.next_id = id + 1;
        Ok(Database { id, name })
    }

    /// Adds an object called `name` to `db`; its id is returned.
    pub fn insert_object(&mut self, db: u64, name: String, body: ObjectBody) -> (r: Result<
        u64,
        Error,
    >)
        requires
            old(self)@.wf(),
        ensures
            final(self)@.wf(),
            match old(self)@.with_object(db, name, body) {
                Ok(m) => final(self)@ == m && r == Ok::<u64, Error>(old(self).next_id),
                Err(e) => final(self)@ == old(self)@ && r == Err::<u64, Error>(e),
            },
    {
        proof {
            reveal(CatalogModel::wf);
        }
        if self.is_name_taken(db, &name) {
            let kind = body.kind();
            return Err(Error::AlreadyExists { entity: crate::statement::entity_for(kind), name });
        }
        if self.next_id == u64::MAX {
            return Err(Error::StoreUnavailable);
        }
        let id = self.next_id;
        let row = Object { id, name, database_id: db, body };
        let ghost before = self@;
        proof {
            lemma_push_unique(self.objects@, row, |o: Object| object_key(o));
            lemma_push_increasing(self.objects@, row, |o: Object| o.id);
        }
        self.objects.push(row);
        self.next_id = id + 1;
        proof {
            assert forall|t: u64, kind: ObjectKind| before.is_object_of_kind(t, kind) implies self@.is_object_of_kind(t, kind) by {
                let k = choose|k: int| 0 <= k < before.objects.len() && before.objects[k].id == t && kind_of(before.objects[k].body) == kind;
                assert(self@.objects[k] == before.objects[k]);
            }
            assert forall|t: u64| before.is_object(t) implies self@.is_object(t) by {
                let k = choose|k: int| 0 <= k < before.objects.len() && before.objects[k].id == t;
                assert(self@.objects[k] == before.objects[k]);
            }
        }
        Ok(id)
    }
    /// Adds a column to table `table_id`; it fails where the table already
    /// has a column of that name.
    pub fn insert_column(&mut self, table_id: u64, def: &ColumnDef) -> (r: Result<(), Error>)
        requires
            old(self)@.wf(),
            old(self)@.is_object_of_kind(table_id, ObjectKind::Table),
        ensures
            final(self)@.wf(),
            match old(self)@.with_column(table_id, *def) {
                Ok(m) => final(self)@ == m && r == Ok::<(), Error>(()),
                Err(e) => final(self)@ == old(self)@ && r == Err::<(), Error>(e),
            },
    {
        proof {
            reveal(CatalogModel::wf);
        }
        if self.has_column(table_id, &def.name) {
            return Err(Error::AlreadyExists { entity: Entity::Column, name: def.name.clone() });
        }
        if self.next_id == u64::MAX {
            return Err(Error::StoreUnavailable);
        }
        let id = self.next_id;
        let row = Column {
            id,
            table_id,
            name: def.name.clone(),
            data_type: def.data_type.clone(),
            is_primary_key: def.is_primary_key,
        };
        proof {
            lemma_push_unique(self.columns@, row, |c: Column| column_key(c));
            lemma_push_increasing(self.columns@, row, |c: Column| c.id);
        }
        self.columns.push(row);
        self.next_id = id + 1;
        Ok(())
    }

    /// Records that a view reads from an object; it fails where that is
    /// already recorded.
    pub fn insert_dependency(&mut self, dep: ViewDependency) -> (r: Result<(), Error>)
        requires
            old(self)@.wf(),
            old(self)@.is_object_of_kind(dep.view_id, ObjectKind::View),
            old(self)@.is_object(dep.dependent_object_id),
        ensures
            final(self)@.wf(),
            match old(self)@.with_dependency(dep) {
                Ok(m) => final(self)@ == m && r == Ok::<(), Error>(()),
                Err(e) => final(self)@ == old(self)@ && r == Err::<(), Error>(e),
            },
    {
        proof {
            reveal(CatalogModel::wf);
        }
        if self.has_dependency(dep) {
            return Err(Error::ConstraintViolation);
        }
        proof {
            assert forall|i: int| 0 <= i < self@.dependencies.len() implies dependency_key(
                self@.dependencies[i],
            ) != dependency_key(dep) by {
                assert(self@.dependencies.contains(self@.dependencies[i]));
            }
            lemma_push_unique(self.dependencies@, dep, |d: ViewDependency| dependency_key(d));
        }
        self.dependencies.push(dep);
        Ok(())
    }

    /// Deletes the object of `db` with that kind and name, its columns and
    /// the dependencies of which it is the view. It fails where there is no
    /// such object, or where a view reads from it.
    pub fn delete_object(&mut self, db: u64, kind: ObjectKind, name: &String) -> (r: Result<
        (),
        Error,
    >)
        requires
            old(self)@.wf(),
        ensures
            final(self)@.wf(),
            match old(self)@.without_object(db, kind, *name) {
                Ok(m) => final(self)@ == m && r == Ok::<(), Error>(()),
                Err(e) => final(self)@ == old(self)@ && r == Err::<(), Error>(e),
            },
    {
        proof {
            reveal(CatalogModel::wf);
        }
        let idx = match self.find_object(db, kind, name) {
            Some(i) => i,
            None => {
                return Err(
                    Error::NotFound {
                        entity: crate::statement::entity_for(kind),
                        name: name.clone(),
                    },
                );
            },
        };
        let id = self.objects[idx].id;
        if self.is_referenced(id) {
            return Err(Error::ConstraintViolation);
        }
        let ghost before = self@;
        proof {
            lemma_cascade_wf(before, db, kind, name@, id);
        }

        let mut objects: Vec<Object> = Vec::new();
        let mut i: usize = 0;
        while i < self.objects.len()
            invariant
                i <= self.objects@.len(),
                objects@ == self.objects@.subrange(0, i as int).filter(|o: Object| !object_matches(o, db, kind, name@)),
            decreases self.objects@.len() - i,
        {
            proof {
                lemma_filter_step(self.objects@, |o: Object| !object_matches(o, db, kind, name@), i as int);
            }
            let o = &self.objects[i];
            if !(o.database_id == db && o.body.kind() == kind && o.name == *name) {
                objects.push(o.duplicate());
            }
            i = i + 1;
        }
        assert(self.objects@.subrange(0, self.objects@.len() as int) =~= self.objects@);

        let mut columns: Vec<Column> = Vec::new();
        let mut i: usize = 0;
        while i < self.columns.len()
            invariant
                i <= self.columns@.len(),
                columns@ == self.columns@.subrange(0, i as int).filter(|c: Column| c.table_id != id),
            decreases self.columns@.len() - i,
        {
            proof {
                lemma_filter_step(self.columns@, |c: Column| c.table_id != id, i as int);
            }
            if self.columns[i].table_id != id {
                columns.push(self.columns[i].duplicate());
            }
            i = i + 1;
        }
        assert(self.columns@.subrange(0, self.columns@.len() as int) =~= self.columns@);

        let mut dependencies: Vec<ViewDependency> = Vec::new();
        let mut i: usize = 0;
        while i < self.dependencies.len()
            invariant
                i <= self.dependencies@.len(),
                dependencies@ == self.dependencies@.subrange(0, i as int).filter(|d: ViewDependency| d.view_id != id),
            decreases self.dependencies@.len() - i,
        {
            proof {
                lemma_filter_step(self.dependencies@, |d: ViewDependency| d.view_id != id, i as int);
            }
            if self.dependencies[i].view_id != id {
                dependencies.push(self.dependencies[i]);
            }
            i = i + 1;
        }
        assert(self.dependencies@.subrange(0, self.dependencies@.len() as int)
            =~= self.dependencies@);

        self.objects = objects;
        self.columns = columns;
        self.dependencies = dependencies;
        Ok(())
    }

    /// Deletes column `id`, if there is one.
    pub fn delete_column(&mut self, id: u64)
        requires
            old(self)@.wf(),
        ensures
            final(self)@.wf(),
            final(self)@ == old(self)@.without_column(id),
    {
        proof {
            reveal(CatalogModel::wf);
        }
        let ghost before = self@;
        let mut columns: Vec<Column> = Vec::new();
        let mut i: usize = 0;
        while i < self.columns.len()
            invariant
                i <= self.columns@.len(),
                columns@ == self.columns@.subrange(0, i as int).filter(|c: Column| c.id != id),
            decreases self.columns@.len() - i,
        {
            proof {
                lemma_filter_step(self.columns@, |c: Column| c.id != id, i as int);
            }
            if self.columns[i].id != id {
                columns.push(self.columns[i].duplicate());
            }
            i = i + 1;
        }
        assert(self.columns@.subrange(0, self.columns@.len() as int) =~= self.columns@);
        self.columns = columns;
        proof {
            let keep = |c: Column| c.id != id;
            lemma_filter_unique(before.columns, keep, |c: Column| column_key(c));
            lemma_filter_increasing(before.columns, keep, |c: Column| c.id);
            assert forall|i: int| 0 <= i < self@.columns.len() implies self@.columns[i].id
                < self@.next_id && self@.is_object_of_kind(
                self@.columns[i].table_id,
                ObjectKind::Table,
            ) by {
                let c = self@.columns[i];
                assert(self@.columns.contains(c));
                before.columns.lemma_filter_contains_rev(keep, c);
            }
        }
    }

    /// Deletes the database called `name`; whether there was one.
    pub fn delete_database(&mut self, name: &String) -> (r: bool)
        requires
            old(self)@.wf(),
        ensures
            final(self)@.wf(),
            r == old(self)@.has_database(name@),
            final(self)@ == old(self)@.without_database(name@),
    {
        proof {
            reveal(CatalogModel::wf);
        }
        let ghost before = self@;
        let mut found = false;
        let mut databases: Vec<Database> = Vec::new();
        let mut i: usize = 0;
        while i < self.databases.len()
            invariant
                i <= self.databases@.len(),
                databases@ == self.databases@.subrange(0, i as int).filter(
                    |d: Database| d.name@ != name@,
                ),
                found == exists|j: int| 0 <= j < i && self.databases@[j].name@ == name@,
            decreases self.databases@.len() - i,
        {
            proof {
                lemma_filter_step(self.databases@, |d: Database| d.name@ != name@, i as int);
            }
            if self.databases[i].name != *name {
                databases.push(self.databases[i].duplicate());
            } else {
                found = true;
            }
            i = i + 1;
        }
        assert(self.databases@.subrange(0, self.databases@.len() as int) =~= self.databases@);
        self.databases = databases;
        proof {
            let keep = |d: Database| d.name@ != name@;
            lemma_filter_unique(before.databases, keep, |d: Database| database_key(d));
            lemma_filter_increasing(before.databases, keep, |d: Database| d.id);
            assert forall|i: int| 0 <= i < self@.databases.len() implies self@.databases[i].id
                < self@.next_id by {
                let d = self@.databases[i];
                assert(self@.databases.contains(d));
                before.databases.lemma_filter_contains_rev(keep, d);
            }
        }
        found
    }

    /// The names of the tables of database `db`, in the catalog's order.
    pub fn table_names(&self, db: u64) -> (r: Vec<String>)
        ensures
            r@ == table_names_in(self@.objects, db),
    {
        let mut names: Vec<String> = Vec::new();
        let mut i: usize = 0;
        while i < self.objects.len()
            invariant
                i <= self.objects@.len(),
                names@ == table_names_in(self.objects@.subrange(0, i as int), db),
            decreases self.objects@.len() - i,
        {
            assert(self.objects@.subrange(0, i + 1).drop_last() =~= self.objects@.subrange(
                0,
                i as int,
            ));
            let o = &self.objects[i];
            if o.database_id == db && o.body.kind() == ObjectKind::Table {
                names.push(o.name.clone());
            }
            i = i + 1;
        }
        assert(self.objects@.subrange(0, self.objects@.len() as int) =~= self.objects@);
        names
    }

    /// The columns of table `table_id`, in the catalog's order.
    pub fn table_columns(&self, table_id: u64) -> (r: Vec<Column>)
        ensures
            r@ == columns_of(self@.columns, table_id),
    {
        let mut columns: Vec<Column> = Vec::new();
        let mut i: usize = 0;
        while i < self.columns.len()
            invariant
                i <= self.columns@.len(),
                columns@ == self.columns@.subrange(0, i as int).filter(
                    |c: Column| c.table_id == table_id,
                ),
            decreases self.columns@.len() - i,
        {
            proof {
                lemma_filter_step(self.columns@, |c: Column| c.table_id == table_id, i as int);
            }
            if self.columns[i].table_id == table_id {
                columns.push(self.columns[i].duplicate());
            }
            i = i + 1;
        }
        assert(self.columns@.subrange(0, self.columns@.len() as int) =~= self.columns@);
        columns
    }

    /// A copy of the whole catalog, to roll back to.
    pub fn duplicate(&self) -> (r: Catalog)
        ensures
            r@ == self@,
    {
        let mut databases: Vec<Database> = Vec::new();
        let mut i: usize = 0;
        while i < self.databases.len()
            invariant
                i <= self.databases@.len(),
                databases@ == self.databases@.subrange(0, i as int),
            decreases self.databases@.len() - i,
        {
            databases.push(self.databases[i].duplicate());
            i = i + 1;
            assert(databases@ =~= self.databases@.subrange(0, i as int));
        }
        let mut objects: Vec<Object> = Vec::new();
        let mut i: usize = 0;
        while i < self.objects.len()
            invariant
                i <= self.objects@.len(),
                objects@ == self.objects@.subrange(0, i as int),
            decreases self.objects@.len() - i,
        {
            objects.push(self.objects[i].duplicate());
            i = i + 1;
            assert(objects@ =~= self.objects@.subrange(0, i as int));
        }
        let mut columns: Vec<Column> = Vec::new();
        let mut i: usize = 0;
        while i < self.columns.len()
            invariant
                i <= self.columns@.len(),
                columns@ == self.columns@.subrange(0, i as int),
            decreases self.columns@.len() - i,
        {
            columns.push(self.columns[i].duplicate());
            i = i + 1;
            assert(columns@ =~= self.columns@.subrange(0, i as int));
        }
        let mut dependencies: Vec<ViewDependency> = Vec::new();
        let mut i: usize = 0;
        while i < self.dependencies.len()
            invariant
                i <= self.dependencies@.len(),
                dependencies@ == self.dependencies@.subrange(0, i as int),
            decreases self.dependencies@.len() - i,
        {
            dependencies.push(self.dependencies[i]);
            i = i + 1;
            assert(dependencies@ =~= self.dependencies@.subrange(0, i as int));
        }
        assert(databases@ =~= self.databases@);
        assert(objects@ =~= self.objects@);
        assert(columns@ =~= self.columns@);
        assert(dependencies@ =~= self.dependencies@);
        Catalog { databases, objects, columns, dependencies, next_id: self.next_id }
    }
}

/// Deleting an object that no view reads from keeps the catalog's
/// integrity rules.
pub proof fn lemma_cascade_wf(m: CatalogModel, db: u64, kind: ObjectKind, name: Seq<char>, id: u64)
    requires
        m.wf(),
        m.has_object(db, kind, name),
        id == m.objects[m.object_index(db, kind, name)].id,
        !m.is_referenced(id),
    ensures
        m.cascade_delete(db, kind, name, id).wf(),
{
    reveal(CatalogModel::wf);
    let n = m.cascade_delete(db, kind, name, id);
    let idx = m.object_index(db, kind, name);
    let keep_object = |o: Object| !object_matches(o, db, kind, name);
    let keep_column = |c: Column| c.table_id != id;
    let keep_dependency = |d: ViewDependency| d.view_id != id;
    lemma_filter_unique(m.objects, keep_object, |o: Object| object_key(o));
    lemma_filter_unique(m.columns, keep_column, |c: Column| column_key(c));
    lemma_filter_unique(m.dependencies, keep_dependency, |d: ViewDependency| dependency_key(d));
    lemma_filter_increasing(m.objects, keep_object, |o: Object| o.id);
    lemma_filter_increasing(m.columns, keep_column, |c: Column| c.id);
    // an object other than the deleted one stays
    assert forall|k: int| 0 <= k < m.objects.len() && m.objects[k].id != id implies n.objects.contains(
        m.objects[k],
    ) by {
        if object_matches(m.objects[k], db, kind, name) && k != idx {
            assert(object_key(m.objects[k]) != object_key(m.objects[idx]));
        }
        m.objects.lemma_filter_contains(keep_object, k);
    }
    assert forall|i: int| 0 <= i < n.objects.len() implies n.objects[i].id < n.next_id by {
        assert(n.objects.contains(n.objects[i]));
        m.objects.lemma_filter_contains_rev(keep_object, n.objects[i]);
    }
    assert forall|i: int| 0 <= i < n.columns.len() implies n.columns[i].id < n.next_id
        && n.is_object_of_kind(n.columns[i].table_id, ObjectKind::Table) by {
        let c = n.columns[i];
        assert(n.columns.contains(c));
        m.columns.lemma_filter_contains_rev(keep_column, c);
        m.columns.lemma_filter_pred(keep_column, i);
        let j = choose|j: int| 0 <= j < m.columns.len() && m.columns[j] == c;
        assert(m.is_object_of_kind(m.columns[j].table_id, ObjectKind::Table));
        let k = choose|k: int|
            0 <= k < m.objects.len() && m.objects[k].id == c.table_id && kind_of(m.objects[k].body)
                == ObjectKind::Table;
        assert(n.objects.contains(m.objects[k]));
        let k2 = choose|k2: int| 0 <= k2 < n.objects.len() && n.objects[k2] == m.objects[k];
        assert(n.objects[k2].id == c.table_id);
    }
    assert forall|i: int| 0 <= i < n.dependencies.len() implies n.is_object_of_kind(
        n.dependencies[i].view_id,
        ObjectKind::View,
    ) && n.is_object(n.dependencies[i].dependent_object_id) by {
        let d = n.dependencies[i];
        assert(n.dependencies.contains(d));
        m.dependencies.lemma_filter_contains_rev(keep_dependency, d);
        m.dependencies.lemma_filter_pred(keep_dependency, i);
        let j = choose|j: int| 0 <= j < m.dependencies.len() && m.dependencies[j] == d;
        assert(m.is_object_of_kind(m.dependencies[j].view_id, ObjectKind::View));
        assert(m.is_object(m.dependencies[j].dependent_object_id));
        assert(d.dependent_object_id != id);
        let k = choose|k: int|
            0 <= k < m.objects.len() && m.objects[k].id == d.view_id && kind_of(m.objects[k].body)
                == ObjectKind::View;
        assert(n.objects.contains(m.objects[k]));
        let k2 = choose|k2: int| 0 <= k2 < n.objects.len() && n.objects[k2] == m.objects[k];
        assert(n.objects[k2].id == d.view_id);
        let q = choose|q: int| 0 <= q < m.objects.len() && m.objects[q].id == d.dependent_object_id;
        assert(n.objects.contains(m.objects[q]));
        let q2 = choose|q2: int| 0 <= q2 < n.objects.len() && n.objects[q2] == m.objects[q];
        assert(n.objects[q2].id == d.dependent_object_id);
    }
}

/// Filtering keeps a sequence free of repeated keys.
pub proof fn lemma_filter_unique<A, K>(s: Seq<A>, p: spec_fn(A) -> bool, key: spec_fn(A) -> K)
    requires
        unique_by(s, key),
    ensures
        unique_by(s.filter(p), key),
    decreases s.len(),
{
    reveal(Seq::filter);
    if s.len() > 0 {
        let rest = s.drop_last();
        assert(unique_by(rest, key));
        lemma_filter_unique(rest, p, key);
        let f = rest.filter(p);
        if p(s.last()) {
            assert forall|i: int| 0 <= i < f.len() implies key(f[i]) != key(s.last()) by {
                assert(f.contains(f[i]));
                rest.lemma_filter_contains_rev(p, f[i]);
                let k = choose|k: int| 0 <= k < rest.len() && rest[k] == f[i];
                assert(s[k] == rest[k]);
                assert(s[s.len() - 1] == s.last());
            }
            assert(s.filter(p) == f.push(s.last()));
        }
    }
}

/// What filtering the first `i + 1` elements adds to filtering the first `i`.
pub proof fn lemma_filter_step<A>(s: Seq<A>, p: spec_fn(A) -> bool, i: int)
    requires
        0 <= i < s.len(),
    ensures
        s.subrange(0, i + 1).filter(p) == (if p(s[i]) {
            s.subrange(0, i).filter(p).push(s[i])
        } else {
            s.subrange(0, i).filter(p)
        }),
{
    reveal(Seq::filter);
    assert(s.subrange(0, i + 1).drop_last() =~= s.subrange(0, i));
}

/// Objects further along the catalog have larger ids.
pub proof fn lemma_object_ids_increase(m: CatalogModel, a: int, b: int)
    requires
        m.wf(),
        0 <= a < b < m.objects.len(),
    ensures
        m.objects[a].id < m.objects[b].id,
{
    reveal(CatalogModel::wf);
}

/// The first object called `name` is called `name`.
pub proof fn lemma_first_named(m: CatalogModel, name: Seq<char>)
    requires
        m.has_named(name),
    ensures
        0 <= m.first_named(name) < m.objects.len(),
        m.objects[m.first_named(name)].name@ == name,
{
    let i = choose|i: int| 0 <= i < m.objects.len() && m.objects[i].name@ == name;
    lemma_first_named_exists(m, name, i);
}

/// Below any object called `name` there is a first one.
proof fn lemma_first_named_exists(m: CatalogModel, name: Seq<char>, i: int)
    requires
        0 <= i < m.objects.len(),
        m.objects[i].name@ == name,
    ensures
        exists|k: int|
            0 <= k < m.objects.len() && m.objects[k].name@ == name && forall|j: int|
                0 <= j < k ==> m.objects[j].name@ != name,
    decreases i,
{
    if exists|j: int| 0 <= j < i && m.objects[j].name@ == name {
        let j = choose|j: int| 0 <= j < i && m.objects[j].name@ == name;
        lemma_first_named_exists(m, name, j);
    } else {
        assert(forall|j: int| 0 <= j < i ==> m.objects[j].name@ != name);
    }
}

/// Every recorded dependency names a view whose id was handed out already.
pub proof fn lemma_dependency_view_below(m: CatalogModel, i: int)
    requires
        m.wf(),
        0 <= i < m.dependencies.len(),
    ensures
        m.dependencies[i].view_id < m.next_id,
{
    reveal(CatalogModel::wf);
    assert(m.is_object_of_kind(m.dependencies[i].view_id, ObjectKind::View));
}

/// Filtering keeps ids increasing.
pub proof fn lemma_filter_increasing<A>(s: Seq<A>, p: spec_fn(A) -> bool, id: spec_fn(A) -> u64)
    requires
        increasing_by(s, id),
    ensures
        increasing_by(s.filter(p), id),
    decreases s.len(),
{
    reveal(Seq::filter);
    if s.len() > 0 {
        let rest = s.drop_last();
        assert(increasing_by(rest, id));
        lemma_filter_increasing(rest, p, id);
        let f = rest.filter(p);
        if p(s.last()) {
            assert forall|i: int| 0 <= i < f.len() implies id(f[i]) < id(s.last()) by {
                assert(f.contains(f[i]));
                rest.lemma_filter_contains_rev(p, f[i]);
                let k = choose|k: int| 0 <= k < rest.len() && rest[k] == f[i];
                assert(s[k] == rest[k]);
                assert(s[s.len() - 1] == s.last());
            }
            let g = f.push(s.last());
            assert(s.filter(p) == g);
            assert forall|i: int, j: int| 0 <= i < j < g.len() implies id(g[i]) < id(g[j]) by {
                if j == f.len() {
                    assert(g[i] == f[i]);
                } else {
                    assert(g[i] == f[i] && g[j] == f[j]);
                }
            }
        }
    }
}

/// Pushing an element whose id is above all others keeps ids increasing.
pub proof fn lemma_push_increasing<A>(s: Seq<A>, x: A, id: spec_fn(A) -> u64)
    requires
        increasing_by(s, id),
        forall|i: int| 0 <= i < s.len() ==> id(s[i]) < id(x),
    ensures
        increasing_by(s.push(x), id),
{
    let g = s.push(x);
    assert forall|i: int, j: int| 0 <= i < j < g.len() implies id(g[i]) < id(g[j]) by {
        assert(g[i] == s[i]);
        if j < s.len() {
            assert(g[j] == s[j]);
        }
    }
}

/// Pushing an element whose key is new keeps keys unique.
pub proof fn lemma_push_unique<A, K>(s: Seq<A>, x: A, key: spec_fn(A) -> K)
    requires
        unique_by(s, key),
        forall|i: int| 0 <= i < s.len() ==> key(s[i]) != key(x),
    ensures
        unique_by(s.push(x), key),
{
    assert forall|i: int, j: int|
        0 <= i < s.push(x).len() && 0 <= j < s.push(x).len() && i != j implies key(s.push(x)[i])
        != key(s.push(x)[j]) by {
        if i == s.len() {
            assert(key(s[j]) != key(x));
        } else if j == s.len() {
            assert(key(s[i]) != key(x));
        }
    }
}

} // verus!
