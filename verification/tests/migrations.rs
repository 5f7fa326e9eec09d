use beet_scheduler::migrations::{migration_batch, pending_migrations};

#[test]
fn fresh_database_needs_every_migration() {
    assert_eq!(pending_migrations(0, 2), vec![0, 1]);
}

#[test]
fn applied_migrations_are_skipped() {
    assert_eq!(pending_migrations(1, 2), vec![1]);
    assert_eq!(pending_migrations(2, 2), Vec::<u32>::new());
    assert_eq!(pending_migrations(5, 2), Vec::<u32>::new());
}

#[test]
fn batch_records_next_version() {
    assert_eq!(
        migration_batch("CREATE TABLE t1 (id INTEGER PRIMARY KEY);", 0),
        "BEGIN;\nCREATE TABLE t1 (id INTEGER PRIMARY KEY);\nPRAGMA user_version = 1;\nCOMMIT;"
    );
    assert_eq!(
        migration_batch("SELECT 1;", 41),
        "BEGIN;\nSELECT 1;\nPRAGMA user_version = 42;\nCOMMIT;"
    );
}
