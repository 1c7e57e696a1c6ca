use vstd::prelude::*;
use crate::error::AudionError;
use crate::handles::HandleTable;
use crate::sequences::is_runtime_error;
use crate::sequences::strings_view;
use crate::text::decimal;
use crate::text::push_decimal;

verus! {

/// The query that lists the tables of a database, by name.
pub const TABLES_SQL: &'static str = "SELECT name FROM sqlite_master WHERE type='table' ORDER BY name";

/// The query that counts the tables of a given name.
pub const TABLE_EXISTS_SQL: &'static str = "SELECT count(*) FROM sqlite_master WHERE type='table' AND name=?1";

pub open spec fn invalid_handle_msg(fn_name: Seq<char>, id: u64) -> Seq<char> {
    fn_name + "() invalid handle: "@ + decimal(id as nat)
}

fn invalid_handle(fn_name: &str, id: u64) -> (e: AudionError)
    ensures e matches AudionError::RuntimeError { msg } && msg@ == invalid_handle_msg(fn_name@, id),
{
    let mut msg = String::from_str(fn_name);
    msg.append("() invalid handle: ");
    push_decimal(&mut msg, id);
    AudionError::RuntimeError { msg }
}

fn query_error(fn_name: &str, e: &str) -> (r: AudionError)
    ensures r matches AudionError::RuntimeError { msg } && msg@ == fn_name@ + "() error: "@ + e@,
{
    let mut msg = String::from_str(fn_name);
    msg.append("() error: ");
    msg.append(e);
    AudionError::RuntimeError { msg }
}

/// `sqlite_close(handle)`: forgets the connection under `id` (closing it) and answers true,
/// whether or not there was one.
pub fn builtin_sqlite_close<C>(handles: &mut HandleTable<C>, id: u64) -> (r: bool)
    ensures
        r,
        final(handles)@ == old(handles)@.remove(id),
        final(handles).next_handle() == old(handles).next_handle(),
{
    handles.remove(id);
    true
}

/// What a query answer becomes: its rows, or a runtime error that carries the database's message.
pub open spec fn query_outcome<T>(fn_name: Seq<char>, q: Result<T, String>, r: Result<T, AudionError>) -> bool {
    match q {
        Ok(v) => r == Ok::<T, AudionError>(v),
        Err(e) => is_runtime_error(r, fn_name + "() error: "@ + e@),
    }
}

/// `sqlite_tables(handle)`: the names of the tables of the database under `id`, in name order.
/// `query` runs an SQL text on a connection and answers its first column; it is handed
/// `TABLES_SQL`, and its answer or its error message is passed on.
pub fn builtin_sqlite_tables<C, F: Fn(&C, &str) -> Result<Vec<String>, String>>(handles: &HandleTable<C>,
    id: u64, query: &F) -> (r: Result<Vec<String>, AudionError>)
    requires
        forall|c: &C, s: &str| query.requires((c, s)),
    ensures
        !handles@.contains_key(id) ==> is_runtime_error(r, invalid_handle_msg("sqlite_tables"@, id)),
        handles@.contains_key(id) ==> exists|q: Result<Vec<String>, String>|
            call_ensures(query, (&handles@[id], TABLES_SQL), q) && query_outcome("sqlite_tables"@, q, r),
{
    match handles.get(id) {
        None => Err(invalid_handle("sqlite_tables", id)),
        Some(conn) => {
            let q = query(conn, TABLES_SQL);
            let ghost gq = q;
            let r = match q {
                Ok(names) => Ok(names),
                Err(e) => Err(query_error("sqlite_tables", e.as_str())),
            };
            assert(call_ensures(query, (&handles@[id], TABLES_SQL), gq));
            assert(query_outcome("sqlite_tables"@, gq, r));
            r
        },
    }
}

/// What a count answer becomes: whether it is positive, or a runtime error with the database's message.
pub open spec fn exists_outcome(q: Result<i64, String>, r: Result<bool, AudionError>) -> bool {
    match q {
        Ok(c) => r == Ok::<bool, AudionError>(c > 0),
        Err(e) => is_runtime_error(r, "sqlite_table_exists"@ + "() error: "@ + e@),
    }
}

/// `sqlite_table_exists(handle, name)`: whether the database under `id` has a table `name`.
/// `count` runs an SQL text with one parameter on a connection and answers the count it
/// selects; it is handed `TABLE_EXISTS_SQL` and `name`. The table exists when the count is positive.
pub fn builtin_sqlite_table_exists<C, F: Fn(&C, &str, &str) -> Result<i64, String>>(handles: &HandleTable<C>,
    id: u64, name: &str, count: &F) -> (r: Result<bool, AudionError>)
    requires
        forall|c: &C, s: &str, t: &str| count.requires((c, s, t)),
    ensures
        !handles@.contains_key(id) ==> is_runtime_error(r, invalid_handle_msg("sqlite_table_exists"@, id)),
        handles@.contains_key(id) ==> exists|q: Result<i64, String>|
            call_ensures(count, (&handles@[id], TABLE_EXISTS_SQL, name), q) && exists_outcome(q, r),
{
    match handles.get(id) {
        None => Err(invalid_handle("sqlite_table_exists", id)),
        Some(conn) => {
            let q = count(conn, TABLE_EXISTS_SQL, name);
            let ghost gq = q;
            let r = match q {
                Ok(c) => Ok(c > 0),
                Err(e) => Err(query_error("sqlite_table_exists", e.as_str())),
            };
            assert(call_ensures(count, (&handles@[id], TABLE_EXISTS_SQL, name), gq));
            assert(exists_outcome(gq, r));
            r
        },
    }
}

/// When the table list of a database and its table counts agree (a name is counted exactly
/// when it is listed), `sqlite_table_exists` answers whether `sqlite_tables` lists the name;
/// and once the handle is closed, both answer the invalid-handle error.
pub proof fn law_table_exists_agrees_with_tables<C, F: Fn(&C, &str) -> Result<Vec<String>, String>,
    G: Fn(&C, &str, &str) -> Result<i64, String>>(handles: HandleTable<C>, id: u64, name: &str, query: F, count: G,
    names: Seq<Seq<char>>, r1: Result<Vec<String>, AudionError>, r2: Result<bool, AudionError>)
    requires
        handles@.contains_key(id),
        forall|q: Result<Vec<String>, String>| call_ensures(query, (&handles@[id], TABLES_SQL), q)
            ==> (q matches Ok(v) && strings_view(v@) == names),
        forall|q: Result<i64, String>| call_ensures(count, (&handles@[id], TABLE_EXISTS_SQL, name), q)
            ==> (q matches Ok(c) && (c > 0 <==> names.contains(name@))),
        exists|q: Result<Vec<String>, String>|
            call_ensures(query, (&handles@[id], TABLES_SQL), q) && query_outcome("sqlite_tables"@, q, r1),
        exists|q: Result<i64, String>|
            call_ensures(count, (&handles@[id], TABLE_EXISTS_SQL, name), q) && exists_outcome(q, r2),
    ensures
        r1 matches Ok(v) && r2 matches Ok(b) && b == strings_view(v@).contains(name@),
{
    let q1 = choose|q: Result<Vec<String>, String>|
        call_ensures(query, (&handles@[id], TABLES_SQL), q) && query_outcome("sqlite_tables"@, q, r1);
    let q2 = choose|q: Result<i64, String>|
        call_ensures(count, (&handles@[id], TABLE_EXISTS_SQL, name), q) && exists_outcome(q, r2);
}

/// After `sqlite_close`, the handle is unknown to the other builtins: both `sqlite_tables` and
/// `sqlite_table_exists` answer the invalid-handle error.
pub proof fn law_closed_handle_is_invalid<C>(before: HandleTable<C>, after: HandleTable<C>, id: u64,
    r1: Result<Vec<String>, AudionError>, r2: Result<bool, AudionError>)
    requires
        after@ == before@.remove(id),
        !after@.contains_key(id) ==> is_runtime_error(r1, invalid_handle_msg("sqlite_tables"@, id)),
        !after@.contains_key(id) ==> is_runtime_error(r2, invalid_handle_msg("sqlite_table_exists"@, id)),
    ensures
        is_runtime_error(r1, invalid_handle_msg("sqlite_tables"@, id)),
        is_runtime_error(r2, invalid_handle_msg("sqlite_table_exists"@, id)),
{
}

} // verus!
