//! The kinds of failure a caller can see, the rule that tells a stale route
//! from any other failure, and the merge of per-endpoint write outcomes into
//! one aggregate.

use crate::model::WriteResponse;
use vstd::prelude::*;

verus! {

/// A gRPC status as the transport reports it. It is carried through as it is.
#[verifier::external_type_specification]
#[verifier::external_body]
pub struct ExStatus(tonic::Status);

/// Failure reported by a node that ran the request.
#[derive(Debug, Clone)]
pub struct ServerError {
    pub code: u32,
    pub msg: String,
}

/// Outcome of the credential check.
#[derive(Debug, Clone, Copy, PartialEq, Eq, Structural)]
pub enum AuthCode {
    Okay,
    InvalidTenantMeta,
    InvalidTokenMeta,
}

impl AuthCode {
    /// The number that stands for this outcome in a message.
    pub open spec fn number(self) -> u32 {
        match self {
            AuthCode::Okay => 0,
            AuthCode::InvalidTenantMeta => 1,
            AuthCode::InvalidTokenMeta => 2,
        }
    }

    pub fn as_u32(self) -> (n: u32)
        ensures
            n == self.number(),
    {
        match self {
            AuthCode::Okay => 0,
            AuthCode::InvalidTenantMeta => 1,
            AuthCode::InvalidTokenMeta => 2,
        }
    }
}

/// Rejection of the caller's identity.
#[derive(Debug, Clone)]
pub struct AuthFailStatus {
    pub code: AuthCode,
    pub msg: String,
}

/// Everything that can go wrong for a caller, by kind.
#[derive(Debug)]
pub enum Error {
    /// The node ran the request and reported a failure.
    Server(ServerError),
    /// Failure below the application layer. A failure that a running node
    /// reports is never wrapped in this kind.
    Rpc(tonic::Status),
    /// The connection is broken and reconnecting has failed; `source` is the
    /// rendering of the underlying cause.
    Connect { addr: String, source: String },
    /// Misuse on the caller's side; no node has been contacted for it.
    Client(String),
    /// The credentials were rejected.
    AuthFail(AuthFailStatus),
    /// A write over several endpoints of which at least one part failed.
    ClusterWriteError(ClusterWriteError),
    /// A failure of no known kind.
    Unknown(String),
}

/// Outcome of a write that was split over several endpoints.
///
/// `ok` holds the names whose endpoint accepted the write, with the row
/// counts of those endpoints added up; `errors` holds, for each part that
/// failed, the names of that part and the failure.
#[derive(Debug)]
pub struct ClusterWriteError {
    pub ok: (Vec<String>, WriteResponse),
    pub errors: Vec<(Vec<String>, Error)>,
}

/// The names of one part of a write together with what became of that part.
pub type PartOutcome = (Vec<String>, Result<WriteResponse, Error>);

/// Server code under which a node says that it does not lead the shard of a
/// name any more.
pub const NOT_LEADER: u32 = 130;

/// What the message of such a failure holds.
pub const NOT_LEADER_HINT: &'static str = "not leader";

/// Whether `pattern` occurs in `text` as a run of consecutive characters.
pub open spec fn occurs_in(pattern: Seq<char>, text: Seq<char>) -> bool {
    exists|at: int|
        0 <= at && at + pattern.len() <= text.len() && #[trigger] text.subrange(
            at,
            at + pattern.len(),
        ) == pattern
}

/// std's `str::contains` for a string pattern: true exactly when the pattern
/// occurs somewhere in the text as a contiguous substring.
#[verifier::external_body]
fn contains_text(text: &str, pattern: &str) -> (found: bool)
    ensures
        found == occurs_in(pattern@, text@),
{
    text.contains(pattern)
}

/// Whether a server failure with this code and message says that the route
/// used for the request is out of date.
pub open spec fn should_refresh_spec(code: u32, msg: Seq<char>) -> bool {
    code == NOT_LEADER && occurs_in(NOT_LEADER_HINT@, msg)
}

/// Decides from a server failure's code and message whether the routes of the
/// names involved must be dropped and looked up again.
pub fn should_refresh(code: u32, msg: &str) -> (refresh: bool)
    ensures
        refresh == should_refresh_spec(code, msg@),
{
    code == NOT_LEADER && contains_text(msg, NOT_LEADER_HINT)
}

impl Error {
    /// A failure that calls for eviction: one the server reported, with a code
    /// and message that `should_refresh` accepts. No other kind ever does.
    pub open spec fn is_stale_route(self) -> bool {
        self matches Error::Server(e) && should_refresh_spec(e.code, e.msg@)
    }

    /// A caller-side failure with exactly this message.
    pub open spec fn is_client(self, msg: Seq<char>) -> bool {
        self matches Error::Client(m) && m@ == msg
    }

    /// Whether routes must be dropped because of this failure.
    pub fn stale_route(&self) -> (stale: bool)
        ensures
            stale == self.is_stale_route(),
    {
        match self {
            Error::Server(e) => should_refresh(e.code, e.msg.as_str()),
            _ => false,
        }
    }

    /// The caller-side failure with the given message.
    pub fn client(msg: &str) -> (e: Error)
        ensures
            e.is_client(msg@),
    {
        Error::Client(msg.to_owned())
    }
}

/// The names of the parts that succeeded, part after part.
pub open spec fn ok_names(parts: Seq<PartOutcome>) -> Seq<String>
    decreases parts.len(),
{
    if parts.len() == 0 {
        Seq::empty()
    } else {
        match parts.last().1 {
            Ok(_) => ok_names(parts.drop_last()) + parts.last().0@,
            Err(_) => ok_names(parts.drop_last()),
        }
    }
}

/// Rows written, added up over the parts that succeeded.
pub open spec fn ok_success(parts: Seq<PartOutcome>) -> nat
    decreases parts.len(),
{
    if parts.len() == 0 {
        0
    } else {
        match parts.last().1 {
            Ok(resp) => ok_success(parts.drop_last()) + resp.success as nat,
            Err(_) => ok_success(parts.drop_last()),
        }
    }
}

/// Rows rejected, added up over the parts that succeeded.
pub open spec fn ok_failed(parts: Seq<PartOutcome>) -> nat
    decreases parts.len(),
{
    if parts.len() == 0 {
        0
    } else {
        match parts.last().1 {
            Ok(resp) => ok_failed(parts.drop_last()) + resp.failed as nat,
            Err(_) => ok_failed(parts.drop_last()),
        }
    }
}

/// The parts that failed, each with its names and its failure, in order.
pub open spec fn failures(parts: Seq<PartOutcome>) -> Seq<(Vec<String>, Error)>
    decreases parts.len(),
{
    if parts.len() == 0 {
        Seq::empty()
    } else {
        match parts.last().1 {
            Ok(_) => failures(parts.drop_last()),
            Err(e) => failures(parts.drop_last()).push((parts.last().0, e)),
        }
    }
}

/// Row totals only grow as more parts are taken into account.
pub proof fn lemma_rows_grow(parts: Seq<PartOutcome>, n: int)
    requires
        0 <= n <= parts.len(),
    ensures
        ok_success(parts.take(n)) <= ok_success(parts),
        ok_failed(parts.take(n)) <= ok_failed(parts),
    decreases parts.len(),
{
    if n == parts.len() {
        assert(parts.take(n) == parts);
    } else {
        assert(parts.drop_last().take(n) == parts.take(n));
        lemma_rows_grow(parts.drop_last(), n);
    }
}

impl ClusterWriteError {
    /// Merges the outcomes of the parts of one write.
    ///
    /// Parts that succeeded give their names to `ok` and their row counts to
    /// its totals; parts that failed are listed in `errors` as they came.
    /// The totals must fit the counters of a `WriteResponse`.
    pub fn from(write_results: Vec<PartOutcome>) -> (merged: Self)
        requires
            ok_success(write_results@) <= u32::MAX,
            ok_failed(write_results@) <= u32::MAX,
        ensures
            merged.ok.0@ == ok_names(write_results@),
            merged.ok.1.success == ok_success(write_results@),
            merged.ok.1.failed == ok_failed(write_results@),
            merged.errors@ == failures(write_results@),
    {
        let ghost parts = write_results@;
        let mut success_total: u32 = 0;
        let mut failed_total: u32 = 0;
        let mut ok_metrics: Vec<String> = Vec::new();
        let mut errors: Vec<(Vec<String>, Error)> = Vec::new();
        assert(parts.take(0) == Seq::<PartOutcome>::empty());
        for part in it: write_results
            invariant
                it.seq() == parts,
                ok_success(parts) <= u32::MAX,
                ok_failed(parts) <= u32::MAX,
                success_total == ok_success(parts.take(it.index() as int)),
                failed_total == ok_failed(parts.take(it.index() as int)),
                ok_metrics@ == ok_names(parts.take(it.index() as int)),
                errors@ == failures(parts.take(it.index() as int)),
        {
            let ghost done = it.index() as int;
            proof {
                assert(parts.take(done + 1).drop_last() == parts.take(done));
                assert(parts.take(done + 1).last() == parts[done]);
                lemma_rows_grow(parts, done + 1);
            }
            let (mut metrics, write_result) = part;
            match write_result {
                Ok(write_resp) => {
                    success_total += write_resp.success;
                    failed_total += write_resp.failed;
                    ok_metrics.append(&mut metrics);
                },
                Err(e) => {
                    errors.push((metrics, e));
                },
            }
        }
        assert(parts.take(parts.len() as int) == parts);
        ClusterWriteError { ok: (ok_metrics, WriteResponse::new(success_total, failed_total)), errors }
    }

    /// Whether no part of the write failed.
    pub fn all_ok(&self) -> (ok: bool)
        ensures
            ok == (self.errors@.len() == 0),
    {
        self.errors.is_empty()
    }
}

} // verus!
