use bptree::table::{after_allocate, after_free_check, insert_row, Pager, PagerStep, RecordID, Schema, Table, TableValue};
use std::sync::Mutex;

struct FakePager {
    free: Result<bool, String>,
    allocate_fails: bool,
    calls: Vec<&'static str>,
    rows: usize,
}

impl FakePager {
    fn new(free: Result<bool, String>) -> FakePager {
        FakePager { free, allocate_fails: false, calls: Vec::new(), rows: 0 }
    }
}

impl Pager for FakePager {
    fn free_answer(&self) -> Result<bool, String> {
        self.free.clone()
    }

    fn allocate_answer(&self) -> Result<(), String> {
        if self.allocate_fails {
            Err("disk full".to_string())
        } else {
            Ok(())
        }
    }

    fn after_allocation(&self) -> FakePager {
        let mut calls = self.calls.clone();
        calls.push("allocate");
        FakePager {
            free: if self.allocate_fails { self.free.clone() } else { Ok(true) },
            allocate_fails: self.allocate_fails,
            calls,
            rows: self.rows,
        }
    }

    fn insert_answer(&self, _row: Vec<TableValue>) -> Result<RecordID, String> {
        Ok(RecordID { page: 0, slot: self.rows as u64 })
    }

    fn has_free_pages(&self) -> Result<bool, String> {
        self.free_answer()
    }

    fn allocate_page(&mut self) -> Result<(), String> {
        let r = self.allocate_answer();
        *self = self.after_allocation();
        r
    }

    fn insert(&mut self, _row: Vec<TableValue>) -> Result<RecordID, String> {
        let r = self.insert_answer(_row);
        self.calls.push("insert");
        self.rows += 1;
        r
    }
}

#[test]
fn allocates_when_no_page_is_free() {
    let mut pager = FakePager::new(Ok(false));
    let r = insert_row(&mut pager, vec![TableValue::Integer(1)]);
    assert_eq!(r, Ok(RecordID { page: 0, slot: 0 }));
    assert_eq!(pager.calls, vec!["allocate", "insert"]);
}

#[test]
fn skips_allocation_when_a_page_is_free() {
    let mut pager = FakePager::new(Ok(true));
    let r = insert_row(&mut pager, vec![TableValue::Bytes(vec![1, 2])]);
    assert_eq!(r, Ok(RecordID { page: 0, slot: 0 }));
    assert_eq!(pager.calls, vec!["insert"]);
}

#[test]
fn page_layer_errors_pass_through() {
    let mut pager = FakePager::new(Err("io".to_string()));
    assert_eq!(insert_row(&mut pager, vec![]), Err("io".to_string()));
    assert!(pager.calls.is_empty());

    let mut pager = FakePager::new(Ok(false));
    pager.allocate_fails = true;
    assert_eq!(insert_row(&mut pager, vec![]), Err("disk full".to_string()));
    assert_eq!(pager.calls, vec!["allocate"]);
}

#[test]
fn table_inserts_through_its_lock() {
    let schema = Schema { columns: vec!["id".to_string()] };
    let table = Table::new(schema.clone_columns(), Mutex::new(FakePager::new(Ok(true)))).unwrap();
    assert_eq!(table.schema(), &schema);
    assert_eq!(table.insert(vec![TableValue::Integer(7)]), Ok(RecordID { page: 0, slot: 0 }));
    assert_eq!(table.insert(vec![TableValue::Integer(8)]), Ok(RecordID { page: 0, slot: 1 }));
}

trait CloneColumns {
    fn clone_columns(&self) -> Schema;
}

impl CloneColumns for Schema {
    fn clone_columns(&self) -> Schema {
        Schema { columns: self.columns.clone() }
    }
}

#[test]
fn free_check_decides_next_step() {
    assert!(matches!(after_free_check(Ok(false)), PagerStep::Allocate));
    assert!(matches!(after_free_check(Ok(true)), PagerStep::Insert));
    match after_free_check(Err("io".to_string())) {
        PagerStep::Fail(e) => assert_eq!(e, "io"),
        _ => panic!("expected a failure"),
    }
}

#[test]
fn allocation_result_decides_next_step() {
    assert!(matches!(after_allocate(Ok(())), PagerStep::Insert));
    match after_allocate(Err("disk full".to_string())) {
        PagerStep::Fail(e) => assert_eq!(e, "disk full"),
        _ => panic!("expected a failure"),
    }
}

