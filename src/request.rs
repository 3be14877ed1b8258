//! What to ask the quote provider for, and the outcome of asking.
use crate::series::{
    all_entries_valid, fails_first_with, is_stable_sort_of, parse_response, parsed_entries,
    AlphaVantageResponse, NormalizeError, SeriesEntry,
};
use vstd::prelude::*;

verus! {

/// The provider's query endpoint.
pub const BASE_URL: &'static str = "https://www.alphavantage.co/query";

/// Which query to run, for which ticker symbol, at which sampling interval.
#[derive(Clone, Debug, PartialEq, Eq)]
pub struct AlphaVantageRequest {
    pub function: String,
    pub symbol: String,
    pub interval: String,
}

impl AlphaVantageRequest {
    pub fn new(function: String, symbol: String, interval: String) -> (r: AlphaVantageRequest)
        requires
            function@.len() > 0,
            symbol@.len() > 0,
            interval@.len() > 0,
        ensures
            r.function@ == function@,
            r.symbol@ == symbol@,
            r.interval@ == interval@,
    {
        AlphaVantageRequest { function, symbol, interval }
    }
}

/// Builds a request from borrowed text.
pub fn build_request(function: &str, symbol: &str, interval: &str) -> (r: AlphaVantageRequest)
    requires
        function@.len() > 0,
        symbol@.len() > 0,
        interval@.len() > 0,
    ensures
        r.function@ == function@,
        r.symbol@ == symbol@,
        r.interval@ == interval@,
{
    AlphaVantageRequest::new(function.to_owned(), symbol.to_owned(), interval.to_owned())
}

/// Holds the credential sent with every request; an empty one is passed on
/// as it is.
#[derive(Clone, Debug, PartialEq, Eq)]
pub struct AlphaVantageClient {
    pub api_key: String,
}

impl AlphaVantageClient {
    pub fn new(key: String) -> (r: AlphaVantageClient)
        ensures
            r.api_key@ == key@,
    {
        AlphaVantageClient { api_key: key }
    }

    /// The query parameters of the one request for `req`, in order:
    /// `function`, `symbol`, `interval`, `apikey`.
    pub fn query_pairs(&self, req: &AlphaVantageRequest) -> (r: Vec<(String, String)>)
        ensures
            r@.len() == 4,
            r@[0].0@ == "function"@,
            r@[0].1@ == req.function@,
            r@[1].0@ == "symbol"@,
            r@[1].1@ == req.symbol@,
            r@[2].0@ == "interval"@,
            r@[2].1@ == req.interval@,
            r@[3].0@ == "apikey"@,
            r@[3].1@ == self.api_key@,
    {
        let mut r: Vec<(String, String)> = Vec::new();
        r.push(("function".to_owned(), req.function.as_str().to_owned()));
        r.push(("symbol".to_owned(), req.symbol.as_str().to_owned()));
        r.push(("interval".to_owned(), req.interval.as_str().to_owned()));
        r.push(("apikey".to_owned(), self.api_key.as_str().to_owned()));
        r
    }
}

/// The top-level key under which the provider answers with the series of
/// the given interval, such as `Time Series (60min)`.
pub fn series_key(interval: &str) -> (r: String)
    ensures
        r@ == "Time Series ("@ + interval@ + ")"@,
{
    let mut key = "Time Series (".to_owned();
    key.append(interval);
    key.append(")");
    key
}

/// Why a fetch failed.
#[derive(Clone, Copy, Debug, PartialEq, Eq, Structural)]
pub enum AlphaVantageError {
    /// Connection, name resolution, or an HTTP status other than success.
    TransportError,
    /// The body of the response could not be read.
    BodyReadError,
    /// The body is not JSON, or lacks the series under the expected key.
    DeserializationError,
}

/// Why no series came out of one snapshot.
#[derive(Clone, Copy, Debug, PartialEq, Eq, Structural)]
pub enum StocksError {
    Fetch(AlphaVantageError),
    Normalize(NormalizeError),
}

/// Takes the outcome of one fetch to the ordered series: a fetch error is
/// handed on as it is, without normalizing anything.
pub fn snapshot(fetched: Result<AlphaVantageResponse, AlphaVantageError>) -> (r: Result<
    Vec<SeriesEntry>,
    StocksError,
>)
    ensures
        match fetched {
            Err(e) => r == Err::<Vec<SeriesEntry>, StocksError>(StocksError::Fetch(e)),
            Ok(raw) => match r {
                Ok(v) => all_entries_valid(raw.time_series@) && is_stable_sort_of(
                    parsed_entries(raw.time_series@),
                    v@,
                ),
                Err(StocksError::Normalize(e)) => !all_entries_valid(raw.time_series@)
                    && fails_first_with(raw.time_series@, e),
                Err(StocksError::Fetch(_)) => false,
            },
        },
{
    match fetched {
        Err(e) => Err(StocksError::Fetch(e)),
        Ok(raw) => match parse_response(&raw) {
            Ok(v) => Ok(v),
            Err(e) => Err(StocksError::Normalize(e)),
        },
    }
}

} // verus!
