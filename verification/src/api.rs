use vstd::prelude::*;
use vstd::string::StrSliceExecFns;
use crate::database::{
    collections_of, ids_of, kill_batch, kill_one, strs_of, update_batch, ups_of, NeuralVault,
};
use crate::error::NeuralVaultError;
use crate::models::{LogicalOperator, NVQuery, QueryOperator, UpdateOperation};
use crate::query::filter_spec;
use crate::storage::{scan_collection_spec, scan_log_spec};

verus! {

/// Whether two strings hold the same characters.
fn str_eq(a: &str, b: &str) -> (r: bool)
    ensures
        r == (a@ == b@),
{
    let an: usize = a.unicode_len();
    let bn: usize = b.unicode_len();
    if an != bn {
        return false;
    }
    let mut i: usize = 0;
    while i < an
        invariant
            i <= an,
            an == a@.len(),
            bn == b@.len(),
            an == bn,
            forall|k: int| 0 <= k < i ==> a@[k] == b@[k],
        decreases an - i,
    {
        let ca = a.get_char(i);
        let cb = b.get_char(i);
        if (ca as u32) != (cb as u32) {
            return false;
        }
        proof {
            vstd::utf8::char_u32_cast(ca, ca as u32);
            vstd::utf8::char_u32_cast(cb, cb as u32);
        }
        i = i + 1;
    }
    proof {
        assert(a@ =~= b@);
    }
    true
}

/// One character matches another under ASCII case folding: they are equal,
/// or the first is an ASCII capital whose lowercase form is the second.
pub open spec fn char_folds_to(a: char, b: char) -> bool {
    a == b || (65 <= a as u32 <= 90 && b as u32 == a as u32 + 32)
}

/// The string equals the (lowercase) literal under ASCII case folding.
pub open spec fn folds_to(s: Seq<char>, t: Seq<char>) -> bool {
    s.len() == t.len() && forall|i: int| 0 <= i < s.len() ==> char_folds_to(#[trigger] s[i], t[i])
}

/// Whether the string equals the lowercase literal under ASCII case
/// folding.
fn str_folds_to(s: &str, t: &str) -> (r: bool)
    ensures
        r == folds_to(s@, t@),
{
    let sn: usize = s.unicode_len();
    let tn: usize = t.unicode_len();
    if sn != tn {
        return false;
    }
    let mut i: usize = 0;
    while i < sn
        invariant
            i <= sn,
            sn == s@.len(),
            tn == t@.len(),
            sn == tn,
            forall|k: int| 0 <= k < i ==> char_folds_to(#[trigger] s@[k], t@[k]),
        decreases sn - i,
    {
        let cs = s.get_char(i);
        let ct = t.get_char(i);
        let csu = cs as u32;
        let ctu = ct as u32;
        if csu != ctu && !(65 <= csu && csu <= 90 && ctu == csu + 32) {
            return false;
        }
        proof {
            if csu == ctu {
                vstd::utf8::char_u32_cast(cs, cs as u32);
                vstd::utf8::char_u32_cast(ct, ct as u32);
            }
        }
        i = i + 1;
    }
    true
}

/// The operator that an operator word denotes, if any.
pub open spec fn parse_operator_spec(s: Seq<char>) -> Option<QueryOperator> {
    if s == "=="@ || s == "equals"@ {
        Some(QueryOperator::Equals)
    } else if s == "!="@ || s == "not_equals"@ {
        Some(QueryOperator::NotEquals)
    } else if s == ">"@ || s == "greater_than"@ {
        Some(QueryOperator::GreaterThan)
    } else if s == ">="@ || s == "greater_than_or_equal"@ {
        Some(QueryOperator::GreaterThanOrEqual)
    } else if s == "<"@ || s == "less_than"@ {
        Some(QueryOperator::LessThan)
    } else if s == "<="@ || s == "less_than_or_equal"@ {
        Some(QueryOperator::LessThanOrEqual)
    } else if s == "contains"@ {
        Some(QueryOperator::Contains)
    } else if s == "starts_with"@ {
        Some(QueryOperator::StartsWith)
    } else if s == "ends_with"@ {
        Some(QueryOperator::EndsWith)
    } else if s == "in"@ {
        Some(QueryOperator::In)
    } else if s == "not_in"@ {
        Some(QueryOperator::NotIn)
    } else {
        None
    }
}

/// Parses an operator word into a query operator; an unknown word is an
/// error.
pub fn parse_operator(op: &str) -> (r: Result<QueryOperator, String>)
    ensures
        match r {
            Ok(o) => parse_operator_spec(op@) == Some(o),
            Err(_) => parse_operator_spec(op@) is None,
        },
{
    if str_eq(op, "==") || str_eq(op, "equals") {
        Ok(QueryOperator::Equals)
    } else if str_eq(op, "!=") || str_eq(op, "not_equals") {
        Ok(QueryOperator::NotEquals)
    } else if str_eq(op, ">") || str_eq(op, "greater_than") {
        Ok(QueryOperator::GreaterThan)
    } else if str_eq(op, ">=") || str_eq(op, "greater_than_or_equal") {
        Ok(QueryOperator::GreaterThanOrEqual)
    } else if str_eq(op, "<") || str_eq(op, "less_than") {
        Ok(QueryOperator::LessThan)
    } else if str_eq(op, "<=") || str_eq(op, "less_than_or_equal") {
        Ok(QueryOperator::LessThanOrEqual)
    } else if str_eq(op, "contains") {
        Ok(QueryOperator::Contains)
    } else if str_eq(op, "starts_with") {
        Ok(QueryOperator::StartsWith)
    } else if str_eq(op, "ends_with") {
        Ok(QueryOperator::EndsWith)
    } else if str_eq(op, "in") {
        Ok(QueryOperator::In)
    } else if str_eq(op, "not_in") {
        Ok(QueryOperator::NotIn)
    } else {
        Err("unknown operator".to_owned())
    }
}

/// The connector that a connector word denotes, under ASCII case folding,
/// if any.
pub open spec fn parse_logical_operator_spec(s: Seq<char>) -> Option<LogicalOperator> {
    if folds_to(s, "and"@) || folds_to(s, "&&"@) {
        Some(LogicalOperator::And)
    } else if folds_to(s, "or"@) || folds_to(s, "||"@) {
        Some(LogicalOperator::Or)
    } else {
        None
    }
}

/// Parses a connector word, case-insensitively over ASCII letters; an
/// unknown word is an error.
pub fn parse_logical_operator(op: &str) -> (r: Result<LogicalOperator, String>)
    ensures
        match r {
            Ok(o) => parse_logical_operator_spec(op@) == Some(o),
            Err(_) => parse_logical_operator_spec(op@) is None,
        },
{
    if str_folds_to(op, "and") || str_folds_to(op, "&&") {
        Ok(LogicalOperator::And)
    } else if str_folds_to(op, "or") || str_folds_to(op, "||") {
        Ok(LogicalOperator::Or)
    } else {
        Err("unknown logical operator".to_owned())
    }
}

/// Updates every document matching the query; the count of matched
/// documents is returned.
pub fn update_documents(db: &mut NeuralVault, query: NVQuery, updates: Vec<UpdateOperation>) -> (r:
    Result<usize, String>)
    ensures
        ({
            let matched = filter_spec(
                scan_collection_spec(
                    old(db)@.store.log,
                    old(db)@.store.index,
                    query@.collection,
                ),
                query@,
            );
            match r {
                Ok(n) => old(db)@.initialized && n == matched.len() && (exists|ts: Seq<i64>|
                    Some(final(db)@.store) == update_batch(
                        old(db)@.store,
                        matched,
                        ups_of(updates@),
                        ts,
                    )),
                Err(_) => (!old(db)@.initialized && final(db)@ == old(db)@) || (
                old(db)@.initialized && (exists|k: int, ts: Seq<i64>, t: i64|
                    0 <= k < matched.len() && Some(final(db)@.store) == update_batch(
                        old(db)@.store,
                        matched.take(k),
                        ups_of(updates@),
                        ts,
                    ) && !crate::storage::can_append(
                        final(db)@.store,
                        crate::database::apply_updates(matched[k], ups_of(updates@), t),
                    ))),
            }
        }),
{
    match db.update(query, updates) {
        Ok(n) => Ok(n),
        Err(NeuralVaultError::NotInitialized) => Err("database not initialized".to_owned()),
        Err(_) => Err("update failed".to_owned()),
    }
}

/// Updates one document by identifier.
pub fn update_document_by_id(db: &mut NeuralVault, id: &String, updates: Vec<UpdateOperation>)
    -> (r: Result<String, String>)
    ensures
        r is Ok ==> old(db)@.initialized && (exists|d: crate::models::DocModel, t: i64|
            crate::storage::read_spec(old(db)@.store, id@)
                == crate::storage::ReadOutcome::Good(d) && crate::storage::can_append(
                old(db)@.store,
                crate::database::apply_updates(d, ups_of(updates@), t),
            ) && final(db)@.store == crate::storage::append_model(
                old(db)@.store,
                crate::database::apply_updates(d, ups_of(updates@), t),
            )),
        r is Err ==> final(db)@ == old(db)@ && (!old(db)@.initialized || !(
        crate::storage::read_spec(old(db)@.store, id@)
            matches crate::storage::ReadOutcome::Good(_)) || (exists|
            d: crate::models::DocModel,
            t: i64,
        |
            crate::storage::read_spec(old(db)@.store, id@)
                == crate::storage::ReadOutcome::Good(d) && !crate::storage::can_append(
                old(db)@.store,
                crate::database::apply_updates(d, ups_of(updates@), t),
            ))),
{
    match db.update_by_id(id, updates) {
        Ok(()) => Ok("document updated successfully".to_owned()),
        Err(NeuralVaultError::NotInitialized) => Err("database not initialized".to_owned()),
        Err(NeuralVaultError::DocumentNotFound(_)) => Err("document not found".to_owned()),
        Err(_) => Err("update failed".to_owned()),
    }
}

/// Soft-deletes every document matching the query; the count of matched
/// documents is returned.
pub fn delete_documents(db: &mut NeuralVault, query: NVQuery) -> (r: Result<usize, String>)
    ensures
        ({
            let matched = filter_spec(
                scan_collection_spec(
                    old(db)@.store.log,
                    old(db)@.store.index,
                    query@.collection,
                ),
                query@,
            );
            match r {
                Ok(n) => old(db)@.initialized && n == matched.len() && Some(final(db)@.store)
                    == kill_batch(old(db)@.store, ids_of(matched)),
                Err(_) => (!old(db)@.initialized && final(db)@ == old(db)@) || (
                old(db)@.initialized && (exists|k: int|
                    0 <= k < matched.len() && Some(final(db)@.store) == kill_batch(
                        old(db)@.store,
                        ids_of(matched).take(k),
                    ) && kill_one(final(db)@.store, ids_of(matched)[k]) is None)),
            }
        }),
{
    match db.kill(query) {
        Ok(n) => Ok(n),
        Err(NeuralVaultError::NotInitialized) => Err("database not initialized".to_owned()),
        Err(_) => Err("delete failed".to_owned()),
    }
}

/// Soft-deletes one document by identifier.
pub fn delete_document_by_id(db: &mut NeuralVault, id: &String) -> (r: Result<String, String>)
    ensures
        r is Ok ==> old(db)@.initialized && Some(final(db)@.store) == kill_one(
            old(db)@.store,
            id@,
        ),
        r is Err ==> final(db)@ == old(db)@ && (!old(db)@.initialized || kill_one(
            old(db)@.store,
            id@,
        ) is None),
{
    match db.kill_by_id(id) {
        Ok(()) => Ok("document deleted successfully".to_owned()),
        Err(NeuralVaultError::NotInitialized) => Err("database not initialized".to_owned()),
        Err(_) => Err("delete failed".to_owned()),
    }
}

/// Counts the live documents of one collection.
pub fn count_documents(db: &NeuralVault, collection: &String) -> (r: Result<usize, String>)
    ensures
        match r {
            Ok(n) => db@.initialized && n == scan_collection_spec(
                db@.store.log,
                db@.store.index,
                collection@,
            ).len(),
            Err(_) => !db@.initialized,
        },
{
    match db.count(collection) {
        Ok(n) => Ok(n),
        Err(_) => Err("database not initialized".to_owned()),
    }
}

/// The distinct, sorted collection names over the whole log.
pub fn get_collections(db: &NeuralVault) -> (r: Result<Vec<String>, String>)
    ensures
        match r {
            Ok(names) => db@.initialized && scan_log_spec(db@.store.log, 0) is Some && strs_of(
                names@,
            ) == collections_of(scan_log_spec(db@.store.log, 0)->Some_0),
            Err(_) => !db@.initialized || scan_log_spec(db@.store.log, 0) is None,
        },
{
    match db.collections() {
        Ok(names) => Ok(names),
        Err(NeuralVaultError::NotInitialized) => Err("database not initialized".to_owned()),
        Err(_) => Err("failed to get collections".to_owned()),
    }
}

} // verus!
