//! The read-only tools of the memory server: which store call each tool call
//! turns into, and how the store's answer goes back to the client.

use crate::mcp;
use rmcp::model::{CallToolResult, ErrorData, InitializeResult};
use vstd::prelude::*;
use vstd::string::*;

verus! {

/// Instructions surfaced to clients when they connect. Short and readable by
/// agents, which see them in their session preamble.
pub const MEMORY_INSTRUCTIONS: &'static str = "Long-term memory for coding agents. Use memory_query for free-text search, memory_recent to peek at recently-changed pages, and memory_status for counts. All tools are read-only; writes happen automatically via hooks and the watcher.";

/// The name under which the server presents itself.
pub const SERVER_NAME: &'static str = "ai-memory";

/// How many hits a call returns that does not say how many it wants.
pub const DEFAULT_LIMIT: usize = 10;

/// The largest number of hits that a call can ask for.
pub const MAX_LIMIT: usize = 100;

/// The memory server: a reader of the store, and the limit for calls that
/// name none.
pub struct AiMemoryServer<R> {
    reader: R,
    default_limit: usize,
}

/// Arguments of the `memory_query` tool.
pub struct QueryArgs {
    /// FTS5 query expression (e.g. `"karpathy wiki"` or `quick OR slow`).
    pub query: String,
    /// Maximum number of hits to return (default 10, max 100).
    pub limit: Option<usize>,
}

/// Arguments of the `memory_recent` tool.
pub struct RecentArgs {
    /// Maximum number of recent pages to return (default 10, max 100).
    pub limit: Option<usize>,
}

/// A full-text search for the store to run.
pub struct SearchPages {
    pub query: String,
    pub limit: usize,
}

/// A listing of recently updated pages for the store to make.
pub struct RecentPages {
    pub limit: usize,
}

/// The body of the answer to `memory_query` and `memory_recent`.
pub struct QueryResponse<T> {
    pub hits: Vec<T>,
}

/// The body of the answer to `memory_status`.
pub struct StatusResponse<C> {
    pub counts: C,
}

/// `n`, moved to the nearer end of the range from `low` to `high` if it lies
/// outside.
pub open spec fn clamped(n: int, low: int, high: int) -> int {
    if n < low {
        low
    } else if n > high {
        high
    } else {
        n
    }
}

/// The number of hits that a call with the given `limit` argument is served.
pub open spec fn served_limit(limit: Option<usize>, default_limit: usize) -> int {
    clamped(limit.unwrap_or(default_limit) as int, 1, MAX_LIMIT as int)
}

impl<R> AiMemoryServer<R> {
    /// The reader that the server was made with.
    pub closed spec fn spec_reader(&self) -> R {
        self.reader
    }

    #[verifier::type_invariant]
    spec fn well_formed(self) -> bool {
        self.default_limit == DEFAULT_LIMIT
    }

    /// Construct a server backed by the given reader.
    #[must_use]
    pub fn new(reader: R) -> (server: Self)
        ensures
            server.spec_reader() == reader,
    {
        AiMemoryServer { reader, default_limit: DEFAULT_LIMIT }
    }

    /// The reader that runs the store calls.
    pub fn reader(&self) -> (reader: &R)
        ensures
            *reader == self.spec_reader(),
    {
        &self.reader
    }

    fn limit(&self, requested: Option<usize>) -> (limit: usize)
        ensures
            limit == served_limit(requested, DEFAULT_LIMIT),
    {
        proof {
            use_type_invariant(self);
        }
        let limit: usize = match requested {
            Some(limit) => limit,
            None => self.default_limit,
        };
        if limit < 1 {
            1
        } else if limit > MAX_LIMIT {
            MAX_LIMIT
        } else {
            limit
        }
    }

    /// Full-text search of the wiki: the search that the store is to run.
    pub fn memory_query(&self, args: QueryArgs) -> (search: SearchPages)
        ensures
            search.query@ == args.query@,
            search.limit == served_limit(args.limit, DEFAULT_LIMIT),
    {
        let limit: usize = self.limit(args.limit);
        SearchPages { query: args.query, limit }
    }

    /// The most recently updated pages: the listing that the store is to make.
    pub fn memory_recent(&self, args: RecentArgs) -> (listing: RecentPages)
        ensures
            listing.limit == served_limit(args.limit, DEFAULT_LIMIT),
    {
        RecentPages { limit: self.limit(args.limit) }
    }

    /// The description of this server, for a build of the given `version`: it
    /// speaks the protocol revision of 2024-11-05 and offers tools alone.
    pub fn get_info(&self, version: &str) -> (info: InitializeResult)
        ensures
            info == mcp::server_description(
                SERVER_NAME@,
                version@,
                mcp::Protocol::V20241105,
                mcp::Offer::Tools,
                MEMORY_INSTRUCTIONS@,
            ),
    {
        mcp::server_info(
            SERVER_NAME.to_owned(),
            version.to_owned(),
            mcp::Protocol::V20241105,
            mcp::Offer::Tools,
            MEMORY_INSTRUCTIONS.to_owned(),
        )
    }
}

impl<R: Clone> Clone for AiMemoryServer<R> {
    /// A server over a clone of the reader.
    fn clone(&self) -> (copy: Self)
        ensures
            vstd::pervasive::cloned(self.spec_reader(), copy.spec_reader()),
    {
        AiMemoryServer { reader: self.reader.clone(), default_limit: DEFAULT_LIMIT }
    }
}

/// Turns what a search or listing brought into the body of the answer. A
/// store that failed is reported as an internal error with its message.
pub fn query_response<T>(found: Result<Vec<T>, String>) -> (response: Result<
    QueryResponse<T>,
    ErrorData,
>)
    ensures
        match found {
            Ok(hits) => response == Ok::<_, ErrorData>(QueryResponse { hits }),
            Err(message) => response == Err::<QueryResponse<T>, _>(
                mcp::internal_error_with(message@),
            ),
        },
{
    match found {
        Ok(hits) => Ok(QueryResponse { hits }),
        Err(message) => Err(mcp::internal_error(message)),
    }
}

/// Turns the store's aggregate counts into the body of the answer. A store
/// that failed is reported as an internal error with its message.
pub fn status_response<C>(counted: Result<C, String>) -> (response: Result<
    StatusResponse<C>,
    ErrorData,
>)
    ensures
        match counted {
            Ok(counts) => response == Ok::<_, ErrorData>(StatusResponse { counts }),
            Err(message) => response == Err::<StatusResponse<C>, _>(
                mcp::internal_error_with(message@),
            ),
        },
{
    match counted {
        Ok(counts) => Ok(StatusResponse { counts }),
        Err(message) => Err(mcp::internal_error(message)),
    }
}

/// Answers a tool call with the JSON text of its response body, as
/// `serde_json` serialised it. A body that could not be serialised is
/// reported as an internal error with the text that the error displays.
pub fn ok_json(serialized: Result<String, serde_json::Error>) -> (result: Result<
    CallToolResult,
    ErrorData,
>)
    ensures
        match serialized {
            Ok(text) => result == Ok::<_, ErrorData>(mcp::success_with_text(text@)),
            Err(error) => exists|message: String| #[trigger]
                to_string_from_display_ensures(&error, message) && result == Err::<
                    CallToolResult,
                    _,
                >(mcp::internal_error_with(message@)),
        },
{
    match serialized {
        Ok(text) => Ok(mcp::text_result(text)),
        Err(error) => {
            let message: String = error.to_string();
            Err(mcp::internal_error(message))
        },
    }
}

/// Whatever a client asks for, and whatever the default is, the store is asked
/// for at least one hit and at most a hundred.
pub proof fn law_limit_in_range(limit: Option<usize>, default_limit: usize)
    ensures
        1 <= served_limit(limit, default_limit) <= 100,
{
}

/// A client that asks for a number of hits within the range is served exactly
/// that number.
pub proof fn law_limit_in_range_is_kept(limit: usize, default_limit: usize)
    requires
        1 <= limit <= 100,
    ensures
        served_limit(Some(limit), default_limit) == limit,
{
}

/// A client that names no limit is served as one that asks for the default.
pub proof fn law_no_limit_means_the_default(default_limit: usize)
    ensures
        served_limit(None, default_limit) == served_limit(Some(default_limit), default_limit),
{
}

/// A client that names no limit is served ten hits.
pub proof fn law_no_limit_means_ten()
    ensures
        served_limit(None, DEFAULT_LIMIT) == 10,
{
}

/// A client that asks for any hits at all is served no more than it asked for.
pub proof fn law_no_more_than_asked(limit: usize, default_limit: usize)
    requires
        limit >= 1,
    ensures
        served_limit(Some(limit), default_limit) <= limit,
{
}

/// Clients are told of every tool, and that none of them writes; the server goes
/// by its own name.
pub proof fn law_clients_are_told_of_every_tool()
    ensures
        SERVER_NAME@ == "ai-memory"@,
        MEMORY_INSTRUCTIONS@ == "Long-term memory for coding agents. Use memory_query for free-text search, memory_recent to peek at recently-changed pages, and memory_status for counts. All tools are read-only; writes happen automatically via hooks and the watcher."@,
{
}

/// Asking for more never gets a client less.
pub proof fn law_limit_is_monotone(fewer: usize, more: usize, default_limit: usize)
    requires
        fewer <= more,
    ensures
        served_limit(Some(fewer), default_limit) <= served_limit(Some(more), default_limit),
{
}

} // verus!
