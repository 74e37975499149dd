//! What a run is configured with: where a body comes from, what the two
//! commands were given, and the checked configuration of a client run.

use vstd::prelude::*;

verus! {

/// Why a configuration cannot be run.
#[derive(Clone, Copy, Debug, PartialEq, Eq, Structural)]
pub enum ConfigError {
    /// The body was to come from a file that could not be read.
    UnreadableBody,
    /// The run asks for no request at all.
    NoRequests,
    /// The run allows no request in flight.
    NoConcurrency,
}

/// Where a body comes from.
#[derive(Clone, Debug, PartialEq, Eq)]
pub enum BodySource {
    /// The text of the file at this path.
    FromFile(String),
    /// This text.
    FromRaw(String),
    /// Nowhere: no body was given.
    Unset,
}

/// What to do when a response is not the expected one. A request that fails
/// in the network ends the run either way.
#[derive(Clone, Copy, Debug, PartialEq, Eq, Structural)]
pub enum FailurePolicy {
    /// The first mismatch ends the run; no result is reported.
    FailFast,
    /// A mismatch is recorded and the run goes on to its end.
    Record,
}

/// The texts held by a resolved body, or the error in its place.
pub open spec fn texts(body: Result<Option<String>, ConfigError>) -> Result<
    Option<Seq<char>>,
    ConfigError,
> {
    match body {
        Ok(text) => Ok(text.deep_view()),
        Err(e) => Err(e),
    }
}

/// The source that a path and a raw text select: the path wins over the raw
/// text.
pub open spec fn selected(path: Option<String>, raw: Option<String>, source: BodySource) -> bool {
    match source {
        BodySource::FromFile(p) => path matches Some(q) && p@ == q@,
        BodySource::FromRaw(t) => path is None && (raw matches Some(r) && t@ == r@),
        BodySource::Unset => path is None && raw is None,
    }
}

fn select(path: &Option<String>, raw: &Option<String>) -> (source: BodySource)
    ensures
        selected(*path, *raw, source),
{
    match path {
        Some(p) => BodySource::FromFile(p.clone()),
        None => match raw {
            Some(t) => BodySource::FromRaw(t.clone()),
            None => BodySource::Unset,
        },
    }
}

impl BodySource {
    /// The body that this source resolves to, given the text of the file if
    /// it was read: the file's text or an error for a file, the text itself
    /// for a raw text, and no body where none was given.
    pub open spec fn resolution(self, file_text: Option<Seq<char>>) -> Result<
        Option<Seq<char>>,
        ConfigError,
    > {
        match self {
            BodySource::FromFile(_) => match file_text {
                Some(text) => Ok(Some(text)),
                None => Err(ConfigError::UnreadableBody),
            },
            BodySource::FromRaw(text) => Ok(Some(text@)),
            BodySource::Unset => Ok(None),
        }
    }

    /// Whether the body has to be read from a file.
    pub fn needs_file(&self) -> (needed: bool)
        ensures
            needed == (*self is FromFile),
    {
        match self {
            BodySource::FromFile(_) => true,
            _ => false,
        }
    }

    /// Resolves the source to a body. `file_text` is the text of the file
    /// named by a `FromFile` source, or `None` where it could not be read.
    pub fn resolve(&self, file_text: Option<String>) -> (body: Result<Option<String>, ConfigError>)
        ensures
            texts(body) == self.resolution(file_text.deep_view()),
    {
        match self {
            BodySource::FromFile(_) => match file_text {
                Some(text) => Ok(Some(text)),
                None => Err(ConfigError::UnreadableBody),
            },
            BodySource::FromRaw(text) => Ok(Some(text.clone())),
            BodySource::Unset => Ok(None),
        }
    }
}

/// What the echo server was started with.
#[derive(Clone, Debug, PartialEq, Eq)]
pub struct Server {
    /// The address to listen on.
    pub addr: Option<String>,
    /// The file whose text is served.
    pub path: Option<String>,
    /// The text that is served.
    pub raw: Option<String>,
}

impl Server {
    /// The address the server listens on where none was given.
    pub open spec fn default_address() -> Seq<char> {
        "localhost:8080"@
    }

    /// Where the served body comes from.
    pub fn body_source(&self) -> (source: BodySource)
        ensures
            selected(self.path, self.raw, source),
    {
        select(&self.path, &self.raw)
    }

    /// The body that every request is answered with, given the text of the
    /// file at `path` if it was read: the text of the file where a path was
    /// given, or an error where it was not read; else the raw text; else the
    /// empty string.
    pub open spec fn served(&self, file_text: Option<Seq<char>>) -> Result<Seq<char>, ConfigError> {
        if self.path is Some {
            match file_text {
                Some(text) => Ok(text),
                None => Err(ConfigError::UnreadableBody),
            }
        } else {
            match self.raw {
                Some(text) => Ok(text@),
                None => Ok(Seq::empty()),
            }
        }
    }

    /// The body that every request is answered with. `file_text` is the text
    /// of the file at `path`, or `None` where it could not be read.
    pub fn get_body(&self, file_text: Option<String>) -> (body: Result<String, ConfigError>)
        ensures
            self.served(file_text.deep_view()) == match body {
                Ok(text) => Ok::<Seq<char>, ConfigError>(text@),
                Err(e) => Err(e),
            },
    {
        match self.body_source().resolve(file_text) {
            Ok(Some(text)) => Ok(text),
            Ok(None) => Ok(String::new()),
            Err(e) => Err(e),
        }
    }

    /// The address to listen on: the one given, else `localhost:8080`.
    pub fn address(&self) -> (address: String)
        ensures
            address@ == match self.addr {
                Some(a) => a@,
                None => Self::default_address(),
            },
    {
        match &self.addr {
            Some(a) => a.clone(),
            None => "localhost:8080".to_owned(),
        }
    }
}

/// What the client was started with.
#[derive(Clone, Debug, PartialEq, Eq)]
pub struct Client {
    /// The number of requests to send.
    pub num: usize,
    /// The address of the target.
    pub addr: String,
    /// The file whose text every response is expected to be.
    pub path: Option<String>,
    /// The text that every response is expected to be.
    pub raw: Option<String>,
    /// The number of requests that may be in flight at once.
    pub max_outbound_requests: usize,
    /// Whether the mean and variance of the elapsed times are reported.
    pub stats: bool,
}

/// A client run, ready to be dispatched once `check` accepts it.
#[derive(Clone, Debug, PartialEq, Eq)]
pub struct RunConfig {
    /// The address of the target.
    pub target: String,
    /// The number of requests to send.
    pub requests: usize,
    /// The number of requests that may be in flight at once.
    pub limit: usize,
    /// The text that every response is expected to be, if any.
    pub expected: Option<String>,
    /// Whether the mean and variance of the elapsed times are reported.
    pub report_stats: bool,
    /// What to do when a response is not the expected one.
    pub policy: FailurePolicy,
}

/// Why a run of `requests` requests with at most `limit` in flight cannot be
/// dispatched, if it cannot: a run sends at least one request and allows at
/// least one in flight.
pub open spec fn fault_of(requests: usize, limit: usize) -> Option<ConfigError> {
    if requests == 0 {
        Some(ConfigError::NoRequests)
    } else if limit == 0 {
        Some(ConfigError::NoConcurrency)
    } else {
        None
    }
}

/// The number of requests that can be in flight at once: the limit, capped
/// at the number of requests.
pub open spec fn width_of(requests: usize, limit: usize) -> int {
    if limit <= requests {
        limit as int
    } else {
        requests as int
    }
}

impl RunConfig {
    /// Why the run cannot be dispatched, if it cannot.
    pub open spec fn fault(&self) -> Option<ConfigError> {
        fault_of(self.requests, self.limit)
    }

    /// The number of requests that can be in flight at once.
    pub open spec fn width(&self) -> int {
        width_of(self.requests, self.limit)
    }

    /// Accepts the run or says why it cannot be dispatched.
    pub fn check(&self) -> (checked: Result<(), ConfigError>)
        ensures
            checked == match self.fault() {
                Some(e) => Err::<(), ConfigError>(e),
                None => Ok(()),
            },
    {
        if self.requests == 0 {
            Err(ConfigError::NoRequests)
        } else if self.limit == 0 {
            Err(ConfigError::NoConcurrency)
        } else {
            Ok(())
        }
    }
}

impl Client {
    /// Where the expected body comes from.
    pub fn body_source(&self) -> (source: BodySource)
        ensures
            selected(self.path, self.raw, source),
    {
        select(&self.path, &self.raw)
    }

    /// The body that every response is expected to be, given the text of
    /// the file at `path` if it was read: the text of the file where a path
    /// was given, or an error where it was not read; else the raw text; else
    /// none.
    pub open spec fn expectation(&self, file_text: Option<Seq<char>>) -> Result<
        Option<Seq<char>>,
        ConfigError,
    > {
        if self.path is Some {
            match file_text {
                Some(text) => Ok(Some(text)),
                None => Err(ConfigError::UnreadableBody),
            }
        } else {
            Ok(self.raw.deep_view())
        }
    }

    /// The body that every response is expected to be. `file_text` is the
    /// text of the file at `path`, or `None` where it could not be read.
    pub fn get_body(&self, file_text: Option<String>) -> (body: Result<Option<String>, ConfigError>)
        ensures
            texts(body) == self.expectation(file_text.deep_view()),
    {
        self.body_source().resolve(file_text)
    }

    /// The run that the client was asked for, with `expected` as the
    /// resolved body and the first mismatch ending the run. A client that
    /// asks for no request, or allows none in flight, is rejected.
    pub fn config(&self, expected: Option<String>) -> (config: Result<RunConfig, ConfigError>)
        ensures
            match config {
                Ok(c) => {
                    &&& c.fault() is None
                    &&& c.target@ == self.addr@
                    &&& c.requests == self.num
                    &&& c.limit == self.max_outbound_requests
                    &&& c.expected.deep_view() == expected.deep_view()
                    &&& c.report_stats == self.stats
                    &&& c.policy == FailurePolicy::FailFast
                },
                Err(e) => fault_of(self.num, self.max_outbound_requests) == Some(e),
            },
    {
        let config = RunConfig {
            target: self.addr.clone(),
            requests: self.num,
            limit: self.max_outbound_requests,
            expected,
            report_stats: self.stats,
            policy: FailurePolicy::FailFast,
        };
        match config.check() {
            Ok(()) => Ok(config),
            Err(e) => Err(e),
        }
    }
}

} // verus!
