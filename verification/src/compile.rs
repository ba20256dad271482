//! The pure core of the compile route: what a request carries, how the
//! outcome of one sandboxed build is classified, and how the response is
//! shaped. The surrounding process does the reading, writing and running;
//! this module decides what each outcome means.

use vstd::prelude::*;

verus! {

/// The request body: the source text submitted for compilation.
pub struct Body {
    pub code: String,
}

/// A compiled WebAssembly artifact, ready to be served.
pub struct Wasm(pub Vec<u8>);

/// A response payload together with the content type it is served under.
pub struct ContentType {
    pub content_type: String,
    pub body: Vec<u8>,
}

/// What went wrong while serving a compile request.
pub enum Error {
    /// Reading or writing around the sandbox failed; the string carries
    /// the detail.
    Io(String),
    /// The build step itself failed; the string carries the build tool's
    /// diagnostic output.
    Compile(String),
}

/// What one checked-out sandbox reported back for a compile request.
pub enum BuildEvent {
    /// Writing the source or reading the artifact failed.
    IoFailed(String),
    /// The build command exited unsuccessfully, printing this output.
    BuildFailed(String),
    /// The build produced this artifact.
    Built(Vec<u8>),
}

/// The response owed for each build event: an artifact for a successful
/// build, a compile error carrying the tool's output for a failed one,
/// and an internal error for a failure around the sandbox.
pub open spec fn response_of(event: BuildEvent) -> Result<Wasm, Error> {
    match event {
        BuildEvent::IoFailed(detail) => Err(Error::Io(detail)),
        BuildEvent::BuildFailed(output) => Err(Error::Compile(output)),
        BuildEvent::Built(artifact) => Ok(Wasm(artifact)),
    }
}

/// Decide the compile route's response from what happened inside the
/// sandbox. The caller writes the source, runs the build, reads the
/// artifact, and releases the sandbox whatever the event was.
pub fn compile(event: BuildEvent) -> (r: Result<Wasm, Error>)
    ensures
        r == response_of(event),
{
    match event {
        BuildEvent::IoFailed(detail) => Err(Error::Io(detail)),
        BuildEvent::BuildFailed(output) => Err(Error::Compile(output)),
        BuildEvent::Built(artifact) => Ok(Wasm(artifact)),
    }
}

impl Error {
    /// The HTTP status each error kind is served under: an internal error
    /// for an I/O failure, a client error for a failed build.
    pub open spec fn spec_status_code(self) -> u16 {
        match self {
            Error::Io(_) => 500u16,
            Error::Compile(_) => 400u16,
        }
    }

    /// The status code for this error.
    pub fn status_code(&self) -> (s: u16)
        ensures
            s == self.spec_status_code(),
    {
        match self {
            Error::Io(_) => 500,
            Error::Compile(_) => 400,
        }
    }

    /// The short, fixed summary served in the error body.
    pub fn summary(&self) -> (m: String)
        ensures
            (*self) matches Error::Io(_) ==> m@ == "Io error"@,
            (*self) matches Error::Compile(_) ==> m@ == "Could not compile app"@,
    {
        match self {
            Error::Io(_) => "Io error".to_owned(),
            Error::Compile(_) => "Could not compile app".to_owned(),
        }
    }

    /// The full detail string this error carries.
    pub fn detail(self) -> (d: String)
        ensures
            self matches Error::Io(s) ==> d == s,
            self matches Error::Compile(s) ==> d == s,
    {
        match self {
            Error::Io(s) => s,
            Error::Compile(s) => s,
        }
    }
}

impl Wasm {
    /// The content type every artifact is served under.
    pub fn content_type() -> (c: String)
        ensures
            c@ == "application/wasm"@,
    {
        "application/wasm".to_owned()
    }

    /// Wrap the artifact for the wire, under the Wasm content type.
    pub fn into_content(self) -> (c: ContentType)
        ensures
            c.content_type@ == "application/wasm"@,
            c.body == self.0,
    {
        ContentType { content_type: Wasm::content_type(), body: self.0 }
    }
}

} // verus!
