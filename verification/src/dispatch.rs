//! Running a query on the database and writing its answer.
use vstd::prelude::*;
use crate::database::{Database, sort_input_fits};
use crate::databasehelper::{SuccessQuery, DataBaseError, query_text, error_text};
use crate::request::{Query, Reponse};
use crate::sortflags::sort_fits_len;

verus! {

/// The mathematical value of an answer.
pub enum ReponseForm {
    Valid(Seq<char>),
    Error(Seq<char>),
}

impl View for Reponse {
    type V = ReponseForm;

    open spec fn view(&self) -> ReponseForm {
        match self {
            Reponse::Valid(m) => ReponseForm::Valid(m@),
            Reponse::Error(m) => ReponseForm::Error(m@),
        }
    }
}

/// The answer a result of the database is given as: the text of the reply,
/// or the message of the error.
pub open spec fn reply_of(res: Result<SuccessQuery, DataBaseError>) -> ReponseForm {
    match res {
        Ok(q) => ReponseForm::Valid(query_text(q@)),
        Err(e) => ReponseForm::Error(error_text(e)),
    }
}

/// What running the query does: the command it names, from the state `pre`
/// to the state `post`, with its result.
pub open spec fn query_post<'a>(
    q: Query<'a>,
    pre: Database,
    post: Database,
    res: Result<SuccessQuery, DataBaseError>,
) -> bool {
    match q {
        Query::Flushdb() => Database::flushdb_post(pre, post, res),
        Query::Dbsize() => post == pre && Database::dbsize_post(pre, res),
        Query::Copy(a0, a1) => Database::copy_post(pre, post, a0, a1, res),
        Query::Del(a0) => Database::del_post(pre, post, a0, res),
        Query::Exists(a0) => Database::exists_key_post(pre, post, a0, res),
        Query::Expire(a0, a1) => Database::expire_post(pre, post, a0, a1, res),
        Query::ExpireAt(a0, a1) => Database::expireat_post(pre, post, a0, a1, res),
        Query::Keys(a0) => Database::keys_post(pre, post, a0, res),
        Query::Persist(a0) => Database::persist_post(pre, post, a0, res),
        Query::Rename(a0, a1) => Database::rename_post(pre, post, a0, a1, res),
        Query::Sort(a0, a1) => Database::sort_post(pre, post, a0, a1, res),
        Query::Ttl(a0) => Database::ttl_post(pre, post, a0, res),
        Query::Type(a0) => Database::get_type_post(pre, post, a0, res),
        Query::Get(a0) => Database::get_post(pre, post, a0, res),
        Query::Append(a0, a1) => Database::append_post(pre, post, a0, a1, res),
        Query::Incrby(a0, a1) => Database::incrby_post(pre, post, a0, a1, res),
        Query::Decrby(a0, a1) => Database::decrby_post(pre, post, a0, a1, res),
        Query::Getdel(a0) => Database::getdel_post(pre, post, a0, res),
        Query::Getset(a0, a1) => Database::getset_post(pre, post, a0, a1, res),
        Query::SetValue(a0, a1) => Database::set_post(pre, post, a0, a1, res),
        Query::Strlen(a0) => Database::strlen_post(pre, post, a0, res),
        Query::Mset(a0) => Database::mset_post(pre, post, a0, res),
        Query::Mget(a0) => Database::mget_post(pre, post, a0, res),
        Query::Lindex(a0, a1) => Database::lindex_post(pre, post, a0, a1, res),
        Query::Llen(a0) => Database::llen_post(pre, post, a0, res),
        Query::Lpop(a0) => Database::lpop_post(pre, post, a0, res),
        Query::Lpush(a0, a1) => Database::lpush_post(pre, post, a0, a1, res),
        Query::Lpushx(a0, a1) => Database::lpushx_post(pre, post, a0, a1, res),
        Query::Lrange(a0, a1, a2) => Database::lrange_post(pre, post, a0, a1, a2, res),
        Query::Lrem(a0, a1, a2) => Database::lrem_post(pre, post, a0, a1, a2, res),
        Query::Lset(a0, a1, a2) => Database::lset_post(pre, post, a0, a1, a2, res),
        Query::Rpop(a0) => Database::rpop_post(pre, post, a0, res),
        Query::Rpush(a0, a1) => Database::rpush_post(pre, post, a0, a1, res),
        Query::Rpushx(a0, a1) => Database::rpushx_post(pre, post, a0, a1, res),
        Query::Sadd(a0, a1) => Database::sadd_post(pre, post, a0, a1, res),
        Query::Sismember(a0, a1) => Database::sismember_post(pre, post, a0, a1, res),
        Query::Scard(a0) => Database::scard_post(pre, post, a0, res),
        Query::Smembers(a0) => Database::smembers_post(pre, post, a0, res),
        Query::Srem(a0, a1) => Database::srem_post(pre, post, a0, a1, res),
    }
}

/// The query can run on the database without failing an assertion of its
/// command.
pub open spec fn query_runs<'a>(q: Query<'a>, pre: Database) -> bool {
    match q {
        Query::Mset(v) => v@.len() % 2 == 0,
        Query::Lpush(_, v) => v@.len() >= 1,
        Query::Sadd(_, v) => v@.len() >= 1,
        Query::Sort(k, f) => sort_input_fits(pre.dict(), k@, f),
        _ => true,
    }
}

impl<'a> Query<'a> {
    /// Decides `query_runs`.
    pub fn can_run(&self, db: &Database) -> (b: bool)
        requires
            db.wf(),
        ensures
            b == query_runs(*self, *db),
    {
        match self {
            Query::Mset(v) => v.len() % 2 == 0,
            Query::Lpush(_, v) => v.len() >= 1,
            Query::Sadd(_, v) => v.len() >= 1,
            Query::Sort(k, f) => match db.stored_len(k) {
                Some(n) => sort_fits_len(n, f),
                None => true,
            },
            _ => true,
        }
    }

    /// Runs the query on the database (see `query_post`) and gives the text
    /// of its reply, or the message of its error.
    pub fn exec_query(self, db: &mut Database) -> (r: Reponse)
        requires
            old(db).wf(),
            query_runs(self, *old(db)),
        ensures
            final(db).wf(),
            exists|res: Result<SuccessQuery, DataBaseError>|
                query_post(self, *old(db), *final(db), res) && r@ == reply_of(res),
    {
        let ghost q = self;
        let result = match self {
            Query::Flushdb() => db.flushdb(),
            Query::Dbsize() => db.dbsize(),
            Query::Copy(a0, a1) => db.copy(a0, a1),
            Query::Del(a0) => db.del(a0),
            Query::Exists(a0) => db.exists_key(a0),
            Query::Expire(a0, a1) => db.expire(a0, a1),
            Query::ExpireAt(a0, a1) => db.expireat(a0, a1),
            Query::Keys(a0) => db.keys(a0),
            Query::Persist(a0) => db.persist(a0),
            Query::Rename(a0, a1) => db.rename(a0, a1),
            Query::Sort(a0, a1) => db.sort(a0, a1),
            Query::Ttl(a0) => db.ttl(a0),
            Query::Type(a0) => db.get_type(a0),
            Query::Get(a0) => db.get(a0),
            Query::Append(a0, a1) => db.append(a0, a1),
            Query::Incrby(a0, a1) => db.incrby(a0, a1),
            Query::Decrby(a0, a1) => db.decrby(a0, a1),
            Query::Getdel(a0) => db.getdel(a0),
            Query::Getset(a0, a1) => db.getset(a0, a1),
            Query::SetValue(a0, a1) => db.set(a0, a1),
            Query::Strlen(a0) => db.strlen(a0),
            Query::Mset(a0) => db.mset(a0),
            Query::Mget(a0) => db.mget(a0),
            Query::Lindex(a0, a1) => db.lindex(a0, a1),
            Query::Llen(a0) => db.llen(a0),
            Query::Lpop(a0) => db.lpop(a0),
            Query::Lpush(a0, a1) => db.lpush(a0, a1),
            Query::Lpushx(a0, a1) => db.lpushx(a0, a1),
            Query::Lrange(a0, a1, a2) => db.lrange(a0, a1, a2),
            Query::Lrem(a0, a1, a2) => db.lrem(a0, a1, a2),
            Query::Lset(a0, a1, a2) => db.lset(a0, a1, a2),
            Query::Rpop(a0) => db.rpop(a0),
            Query::Rpush(a0, a1) => db.rpush(a0, a1),
            Query::Rpushx(a0, a1) => db.rpushx(a0, a1),
            Query::Sadd(a0, a1) => db.sadd(a0, a1),
            Query::Sismember(a0, a1) => db.sismember(a0, a1),
            Query::Scard(a0) => db.scard(a0),
            Query::Smembers(a0) => db.smembers(a0),
            Query::Srem(a0, a1) => db.srem(a0, a1),
        };
        let ghost res = result;
        proof {
            assert(query_post(q, *old(db), *db, res));
        }
        let r = match result {
            Ok(succes) => Reponse::Valid(succes.to_string()),
            Err(err) => Reponse::Error(err.to_string()),
        };
        proof {
            assert(r@ == reply_of(res));
        }
        r
    }
}

} // verus!
