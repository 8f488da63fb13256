//! Client-side request canonicalization and signing for a cloud-management
//! HTTP API.
//!
//! The library collects key/value request parameters, orders them
//! deterministically, percent-encodes them into a canonical query string, and
//! computes an HMAC-SHA1 signature over a derived transformation of that
//! string. The exact byte-level behaviour of each step is stated in the
//! contracts and proved.
#![verifier::loop_isolation(false)]

use vstd::prelude::*;

pub mod encode;
pub mod json;
pub mod keyvalue;
pub mod order;
pub mod signature;

use crate::keyvalue::ResponseFormat;

verus! {

/// A rejected or missing input parameter: which one, and why.
#[derive(Debug)]
pub struct InvalidParameter {
    name: String,
    description: String,
}

impl InvalidParameter {
    /// The name of the rejected parameter, as text.
    pub closed spec fn spec_name(&self) -> Seq<char> {
        self.name@
    }

    /// The reason it was rejected, as text.
    pub closed spec fn spec_description(&self) -> Seq<char> {
        self.description@
    }

    /// Records that the parameter `name` was rejected for the reason
    /// `description`.
    pub fn new(name: &str, description: &str) -> (r: InvalidParameter)
        ensures
            r.spec_name() == name@,
            r.spec_description() == description@,
    {
        InvalidParameter { name: name.to_owned(), description: description.to_owned() }
    }

    pub fn name<'a>(&'a self) -> (r: &'a str)
        ensures
            r@ == self.spec_name(),
    {
        self.name.as_str()
    }

    pub fn description<'a>(&'a self) -> (r: &'a str)
        ensures
            r@ == self.spec_description(),
    {
        self.description.as_str()
    }
}

/// A failure described in prose, together with where it arose.
#[derive(Debug)]
pub struct GenericError {
    description: String,
    location: String,
}

impl GenericError {
    /// What happened, as text.
    pub closed spec fn spec_description(&self) -> Seq<char> {
        self.description@
    }

    /// Where it happened, as text.
    pub closed spec fn spec_location(&self) -> Seq<char> {
        self.location@
    }

    /// Records that `description` happened at `location`.
    pub fn new(description: &str, location: &str) -> (r: GenericError)
        ensures
            r.spec_description() == description@,
            r.spec_location() == location@,
    {
        GenericError { description: description.to_owned(), location: location.to_owned() }
    }

    pub fn description<'a>(&'a self) -> (r: &'a str)
        ensures
            r@ == self.spec_description(),
    {
        self.description.as_str()
    }

    pub fn location<'a>(&'a self) -> (r: &'a str)
        ensures
            r@ == self.spec_location(),
    {
        self.location.as_str()
    }
}

/// The error kinds the client reports. Every error is terminal for the one
/// request being prepared; nothing is retried.
#[derive(Debug)]
pub enum ApplicationError {
    /// A required field is missing, or two mutually exclusive parameter
    /// sources were supplied.
    ParameterError(InvalidParameter),
    /// A parameter file that does not parse as JSON, or parses to something
    /// other than an object.
    MalformedInput(GenericError),
    /// A file or stream could not be opened, read or written.
    IoError(GenericError),
    /// The remote endpoint could not be reached.
    TransportError(GenericError),
    /// The remote endpoint answered with a non-success status; carries the
    /// status code and the response body.
    RemoteRejection { status: u16, body: String },
}

/// The resolved invocation options that the request dispatcher works with.
pub struct CommandOptions {
    pub method: String,
    pub apikey: String,
    pub secretkey: String,
    pub endpoint: String,
    pub output_path: Option<String>,
    pub format: Option<ResponseFormat>,
}

impl CommandOptions {
    /// The output file path, if one was chosen; `None` means standard output.
    pub fn output_path(&self) -> (r: Option<&str>)
        ensures
            r is Some <==> self.output_path is Some,
            r matches Some(p) ==> (self.output_path matches Some(q) && p@ == q@),
    {
        match &self.output_path {
            Some(v) => Some(v.as_str()),
            None => None,
        }
    }
}

/// Assembles the URL the dispatcher requests: the endpoint base, `?`, the
/// canonical query string, and the signature token appended as the
/// `signature` field.
pub fn build_request_url(endpoint: &str, query_string: &str, signature: &str) -> (r: String)
    ensures
        r@ == endpoint@ + "?"@ + query_string@ + "&signature="@ + signature@,
{
    let mut url: String = endpoint.to_owned();
    url.append("?");
    url.append(query_string);
    url.append("&signature=");
    url.append(signature);
    url
}

} // verus!
