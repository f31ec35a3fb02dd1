//! A row store in front of a page layer. The page layer is supplied by the user as a
//! `Pager`; the table serialises inserts through one lock around it.

use vstd::prelude::*;
use std::sync::{Mutex, MutexGuard};

verus! {

/// `std::sync::Mutex`, carried as an opaque value: the lock around a table's pager.
#[verifier::external_type_specification]
#[verifier::external_body]
#[verifier::reject_recursive_types(T)]
pub struct ExMutex<T: ?Sized>(Mutex<T>);

/// `std::sync::MutexGuard`, carried as an opaque value while the lock is held.
#[verifier::external_type_specification]
#[verifier::external_body]
#[verifier::reject_recursive_types(T)]
pub struct ExMutexGuard<'a, T: ?Sized + 'a>(MutexGuard<'a, T>);

/// Where the page layer put a row.
#[derive(Clone, Copy, Debug, PartialEq, Eq, Structural)]
pub struct RecordID {
    pub page: u64,
    pub slot: u64,
}

/// One value of a row.
#[derive(Debug, PartialEq)]
pub enum TableValue {
    Integer(i64),
    Bytes(Vec<u8>),
}

/// The column names of a table.
#[derive(Debug, PartialEq)]
pub struct Schema {
    pub columns: Vec<String>,
}

/// The page layer under a table: turns rows into pages and hands back record ids. An
/// implementation describes its answers by the spec functions, which its methods meet.
pub trait Pager: Sized {
    /// What `has_free_pages` answers in this state.
    spec fn free_answer(&self) -> Result<bool, String>;

    /// What `allocate_page` answers in this state.
    spec fn allocate_answer(&self) -> Result<(), String>;

    /// The state that `allocate_page` leaves behind.
    spec fn after_allocation(&self) -> Self;

    /// What `insert` answers for `row` in this state.
    spec fn insert_answer(&self, row: Vec<TableValue>) -> Result<RecordID, String>;

    fn has_free_pages(&self) -> (r: Result<bool, String>)
        ensures
            r == self.free_answer(),
    ;

    fn allocate_page(&mut self) -> (r: Result<(), String>)
        ensures
            r == old(self).allocate_answer(),
            *final(self) == old(self).after_allocation(),
    ;

    fn insert(&mut self, row: Vec<TableValue>) -> (r: Result<RecordID, String>)
        ensures
            r == old(self).insert_answer(row),
    ;
}

/// What storing `row` through a pager in state `p` returns: the error of the free-page
/// check; else, when no page is free, the error of the allocation; else the answer of
/// the insert, made after the allocation where there was one.
pub open spec fn insert_outcome<PA: Pager>(p: PA, row: Vec<TableValue>) -> Result<RecordID, String> {
    match p.free_answer() {
        Err(e) => Err(e),
        Ok(true) => p.insert_answer(row),
        Ok(false) => match p.allocate_answer() {
            Err(e) => Err(e),
            Ok(()) => p.after_allocation().insert_answer(row),
        },
    }
}

/// The error of an insert into a table whose lock is poisoned.
pub const POISONED_LOCK: &'static str = "the pager lock is poisoned";

/// A table: its schema and the page layer, behind a lock.
#[verifier::reject_recursive_types(PA)]
pub struct Table<PA: Pager> {
    schema: Schema,
    pager: Mutex<PA>,
}

/// Relies on `Mutex::lock`: blocks until the lock is held, and gives `None` when the
/// lock is poisoned (a holder panicked while holding it). Nothing is promised of which
/// of the two comes back.
#[verifier::external_body]
fn lock_pager<PA: Pager>(pager: &Mutex<PA>) -> Option<MutexGuard<'_, PA>> {
    match pager.lock() {
        Ok(guard) => Some(guard),
        Err(_) => None,
    }
}

/// Relies on `DerefMut` of `MutexGuard`: the value that the lock protects.
#[verifier::external_body]
fn guarded<'a, 'b, PA: Pager>(guard: &'b mut MutexGuard<'a, PA>) -> &'b mut PA {
    &mut *guard
}

/// What a row insert asks of the page layer next, or the error that ends it.
#[derive(Debug)]
pub enum PagerStep {
    /// Allocate a page before inserting.
    Allocate,
    /// Insert the row.
    Insert,
    /// Stop and return this error of the page layer.
    Fail(String),
}

/// The step after the page layer answered whether a page is free: allocate when none
/// is, insert when one is, and stop on an error.
pub fn after_free_check(free: Result<bool, String>) -> (s: PagerStep)
    ensures
        free matches Err(e) ==> s == PagerStep::Fail(e),
        free == Ok::<bool, String>(false) ==> s is Allocate,
        free == Ok::<bool, String>(true) ==> s is Insert,
{
    match free {
        Err(e) => PagerStep::Fail(e),
        Ok(true) => PagerStep::Insert,
        Ok(false) => PagerStep::Allocate,
    }
}

/// The step after the page layer allocated a page: insert, or stop on its error.
pub fn after_allocate(r: Result<(), String>) -> (s: PagerStep)
    ensures
        r matches Err(e) ==> s == PagerStep::Fail(e),
        r is Ok ==> s is Insert,
{
    match r {
        Err(e) => PagerStep::Fail(e),
        Ok(()) => PagerStep::Insert,
    }
}

/// Stores a row through the page layer: asks whether a page is free, allocates one
/// when none is, then inserts the row as given. The first error of the page layer ends
/// the insert and is returned as it came; the steps are decided by `after_free_check`
/// and `after_allocate`.
pub fn insert_row<PA: Pager>(pager: &mut PA, row: Vec<TableValue>) -> (r: Result<
    RecordID,
    String,
>)
    ensures
        r == insert_outcome(*old(pager), row),
        old(pager).free_answer() is Err ==> *final(pager) == *old(pager),
        old(pager).free_answer() == Ok::<bool, String>(false) && old(
            pager,
        ).allocate_answer() is Err ==> *final(pager) == old(pager).after_allocation(),
{
    let mut step = after_free_check(pager.has_free_pages());
    if let PagerStep::Allocate = step {
        step = after_allocate(pager.allocate_page());
    }
    match step {
        PagerStep::Fail(err) => Err(err),
        _ => pager.insert(row),
    }
}

impl<PA: Pager> Table<PA> {
    pub closed spec fn spec_schema(self) -> Schema {
        self.schema
    }

    pub closed spec fn spec_pager(self) -> Mutex<PA> {
        self.pager
    }

    /// A table over `schema` that keeps `pager` as given; no pager method is called.
    pub fn new(schema: Schema, pager: Mutex<PA>) -> (r: Result<Table<PA>, String>)
        ensures
            r matches Ok(t) && t.spec_schema() == schema && t.spec_pager() == pager,
    {
        Ok(Table { schema, pager })
    }

    pub fn schema(&self) -> (r: &Schema)
        ensures
            *r == self.spec_schema(),
    {
        &self.schema
    }

    /// Inserts a row while holding the table's lock; see `insert_row`. When the lock is
    /// poisoned by a panic in another holder, no pager method is called and the insert
    /// fails with `POISONED_LOCK`.
    pub fn insert(&self, row: Vec<TableValue>) -> (r: Result<RecordID, String>)
        ensures
            (r matches Err(e) && e@ == POISONED_LOCK@) || exists|p: PA| r == insert_outcome(
                p,
                row,
            ),
    {
        match lock_pager(&self.pager) {
            None => {
                let msg = POISONED_LOCK.to_owned();
                Err(msg)
            },
            Some(mut guard) => {
                let pager = guarded(&mut guard);
                let ghost p = *pager;
                let r = insert_row(pager, row);
                assert(r == insert_outcome(p, row));
                r
            },
        }
    }
}

} // verus!
