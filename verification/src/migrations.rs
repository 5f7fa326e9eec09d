//! Schema migrations: which of an ordered list still have to run on a
//! database, and the SQL batch that runs one of them.

use vstd::prelude::*;

use crate::text::{chars_of, decimal, lemma_parse_decimal, parse_i64, push_chars, u64_to_decimal};

verus! {

broadcast use vstd::string::group_string_axioms;

/// The versions still to apply to a database at `current` when there are
/// `count` migrations: every version from `current` up to `count`, in order.
/// Version `v` is the migration at index `v`, after which the database is at
/// version `v + 1`.
pub open spec fn pending_versions(current: int, count: int) -> Seq<int> {
    if current >= count {
        Seq::empty()
    } else {
        Seq::new((count - current) as nat, |k: int| current + k)
    }
}

/// The versions of the migrations that a database at `current_version` still
/// needs, in the order to apply them.
pub fn pending_migrations(current_version: u32, count: usize) -> (res: Vec<u32>)
    requires
        count <= u32::MAX,
    ensures
        res@.map_values(|v: u32| v as int) == pending_versions(current_version as int, count as int),
{
    let mut res: Vec<u32> = Vec::new();
    let mut i: usize = 0;
    while i < count
        invariant
            i <= count <= u32::MAX,
            res@.map_values(|v: u32| v as int) == (if current_version >= i {
                Seq::<int>::empty()
            } else {
                Seq::new((i - current_version) as nat, |k: int| current_version + k)
            }),
        decreases count - i,
    {
        let version = i as u32;
        if version >= current_version {
            let ghost before = res@.map_values(|v: u32| v as int);
            res.push(version);
            assert(res@.map_values(|v: u32| v as int) =~= before.push(version as int));
            assert(res@.map_values(|v: u32| v as int) =~= Seq::new(
                (i + 1 - current_version) as nat,
                |k: int| current_version + k,
            ));
        }
        i = i + 1;
    }
    assert(res@.map_values(|v: u32| v as int) =~= pending_versions(
        current_version as int,
        count as int,
    ));
    res
}

/// The SQL batch that applies `migration` as version `version`: it runs in one
/// transaction that also records `version + 1` as the database's version.
pub open spec fn migration_batch_text(migration: Seq<char>, version: int) -> Seq<char> {
    "BEGIN;\n"@ + migration + "\nPRAGMA user_version = "@ + decimal(version + 1) + ";\nCOMMIT;"@
}

/// The parts of a migration batch, in order: `BEGIN;` and a newline, the whole
/// migration text unchanged (every statement of it), a newline and
/// `PRAGMA user_version = `, the decimal text of the next version, and
/// `;`, a newline and `COMMIT;`.
pub proof fn lemma_migration_batch_layout(migration: Seq<char>, version: int)
    requires
        0 <= version < i64::MAX,
    ensures
        migration_batch_text(migration, version).len() == 7 + migration.len() + 23 + decimal(
            version + 1,
        ).len() + 9,
        migration_batch_text(migration, version).take(7) == "BEGIN;\n"@,
        migration_batch_text(migration, version).subrange(7, 7 + migration.len() as int)
            == migration,
        migration_batch_text(migration, version).subrange(
            7 + migration.len() as int,
            30 + migration.len() as int,
        ) == "\nPRAGMA user_version = "@,
        parse_i64(
            migration_batch_text(migration, version).subrange(
                30 + migration.len() as int,
                migration_batch_text(migration, version).len() - 9,
            ),
        ) == Some((version + 1) as i64),
        migration_batch_text(migration, version).skip(
            migration_batch_text(migration, version).len() - 9,
        ) == ";\nCOMMIT;"@,
{
    reveal_strlit("BEGIN;\n");
    reveal_strlit("\nPRAGMA user_version = ");
    reveal_strlit(";\nCOMMIT;");
    let begin = "BEGIN;\n"@;
    let pragma = "\nPRAGMA user_version = "@;
    let commit = ";\nCOMMIT;"@;
    let next = decimal(version + 1);
    let b = migration_batch_text(migration, version);
    let m = migration.len() as int;
    lemma_parse_decimal((version + 1) as i64);
    assert(b.take(7) =~= begin);
    assert(b.subrange(7, 7 + m) =~= migration);
    assert(b.subrange(7 + m, 30 + m) =~= pragma);
    assert(b.subrange(30 + m, b.len() - 9) =~= next);
    assert(b.skip(b.len() - 9) =~= commit);
}

/// The SQL batch that applies one migration and records the new version.
pub fn migration_batch(migration: &str, version: u32) -> (res: String)
    requires
        version < u32::MAX,
    ensures
        res@ == migration_batch_text(migration@, version as int),
        res@.subrange(7, 7 + migration@.len() as int) == migration@,
{
    let mut res = String::new();
    push_chars(&mut res, &chars_of("BEGIN;\n"));
    push_chars(&mut res, &chars_of(migration));
    push_chars(&mut res, &chars_of("\nPRAGMA user_version = "));
    push_chars(&mut res, &u64_to_decimal(version as u64 + 1));
    push_chars(&mut res, &chars_of(";\nCOMMIT;"));
    assert(res@ =~= migration_batch_text(migration@, version as int));
    proof {
        lemma_migration_batch_layout(migration@, version as int);
    }
    res
}

/// Once every pending migration has run, the database is at version `count`
/// and none is pending any more.
pub proof fn lemma_migrations_settle(current: int, count: int)
    requires
        0 <= current < count,
    ensures
        pending_versions(current, count).last() + 1 == count,
        pending_versions(count, count).len() == 0,
{
}

/// The pending migrations run in increasing order of version, each exactly
/// once: every version from `current` up to `count` is pending, and no other.
pub proof fn lemma_pending_in_order_once(current: int, count: int)
    ensures
        forall|i: int, j: int|
            0 <= i < j < pending_versions(current, count).len() ==> #[trigger] pending_versions(
                current,
                count,
            )[i] < #[trigger] pending_versions(current, count)[j],
        forall|v: int| current <= v < count <==> #[trigger] pending_versions(current, count).contains(v),
{
    let pv = pending_versions(current, count);
    assert forall|v: int| current <= v < count implies #[trigger] pv.contains(v) by {
        assert(pv[v - current] == v);
    }
}

/// Running the pending migrations, each of which records its version plus
/// one, leaves a database at `current` at version `max(current, count)`; from
/// there no migration is pending, so running them again does nothing.
pub proof fn lemma_migrations_final_version(current: int, count: int)
    ensures
        pending_versions(current, count).len() == 0 ==> count <= current,
        pending_versions(current, count).len() > 0 ==> pending_versions(current, count).last() + 1
            == count && current < count,
        pending_versions(if current < count { count } else { current }, count).len() == 0,
{
}

} // verus!
