//! The map-creation service's domain: validated requests, the errors of
//! creating a map, and the bodies exchanged over HTTP.
use vstd::prelude::*;

use crate::types::{style_from_name, MapStyle};

verus! {

/// Stands for `anyhow::Error`, an error of any kind; nothing is read from it.
#[verifier::external_type_specification]
#[verifier::external_body]
pub struct ExAnyError(anyhow::Error);

/// Stands for `std::io::Error`, the failure of an I/O operation; nothing is read from it.
#[verifier::external_type_specification]
#[verifier::external_body]
pub struct ExIoError(std::io::Error);

/// A number of columns or rows of a map: never zero.
#[derive(Debug, Clone, Copy, PartialEq, Eq, PartialOrd, Ord, Hash, Structural)]
pub struct MapDimension(u32);

/// A map dimension of zero was given.
#[derive(Debug, Clone, Copy, PartialEq, Eq, Structural)]
pub struct MapDimensionCannotBeZeroError;

/// A style name was given that names no map style.
#[derive(Debug, Clone, Copy, PartialEq, Eq, Structural)]
pub struct MapStyleNotKnownError;

impl MapDimension {
    /// The number of cells.
    pub closed spec fn value(self) -> u32 {
        self.0
    }

    /// A dimension of `raw` cells; zero is refused.
    pub fn new(raw: u32) -> (r: Result<MapDimension, MapDimensionCannotBeZeroError>)
        ensures
            r is Ok <==> raw != 0,
            r matches Ok(d) ==> d.value() == raw,
    {
        if raw == 0 {
            return Err(MapDimensionCannotBeZeroError);
        }
        Ok(MapDimension(raw))
    }
}

impl MapDimensionCannotBeZeroError {
    /// What went wrong, in words.
    pub fn message(&self) -> (s: &'static str)
        ensures
            s@ == "map dimension cannot be zero"@,
    {
        "map dimension cannot be zero"
    }
}

impl MapStyleNotKnownError {
    /// What went wrong, in words.
    pub fn message(&self) -> (s: &'static str)
        ensures
            s@ == "map style is not known"@,
    {
        "map style is not known"
    }
}

/// A request to create a map of some size and style.
#[derive(Debug, Clone, Copy, PartialEq, Eq, Structural)]
pub struct CreateMapRequest {
    columns: MapDimension,
    rows: MapDimension,
    style: MapStyle,
}

impl View for CreateMapRequest {
    type V = (MapDimension, MapDimension, MapStyle);

    closed spec fn view(&self) -> (MapDimension, MapDimension, MapStyle) {
        (self.columns, self.rows, self.style)
    }
}

impl CreateMapRequest {
    pub fn new(columns: MapDimension, rows: MapDimension, style: MapStyle) -> (r: CreateMapRequest)
        ensures
            r@ == (columns, rows, style),
    {
        CreateMapRequest { columns, rows, style }
    }

    pub fn columns(&self) -> (c: MapDimension)
        ensures
            c == self@.0,
    {
        self.columns
    }

    /// The number of columns.
    pub fn raw_columns(&self) -> (c: u32)
        ensures
            c == self@.0.value(),
    {
        self.columns.0
    }

    pub fn rows(&self) -> (r: MapDimension)
        ensures
            r == self@.1,
    {
        self.rows
    }

    /// The number of rows.
    pub fn raw_rows(&self) -> (r: u32)
        ensures
            r == self@.1.value(),
    {
        self.rows.0
    }

    pub fn style(&self) -> (s: MapStyle)
        ensures
            s == self@.2,
    {
        self.style
    }
}

/// A map could not be created.
#[derive(Debug)]
pub enum CreateMapError {
    /// A failure of no particular kind.
    Unknown(anyhow::Error),
    /// The map could not be stored.
    FileSystemError(std::io::Error),
}

impl From<anyhow::Error> for CreateMapError {
    fn from(e: anyhow::Error) -> (r: CreateMapError) {
        CreateMapError::Unknown(e)
    }
}

impl vstd::std_specs::convert::FromSpecImpl<anyhow::Error> for CreateMapError {
    open spec fn obeys_from_spec() -> bool {
        true
    }

    open spec fn from_spec(e: anyhow::Error) -> CreateMapError {
        CreateMapError::Unknown(e)
    }
}

impl From<std::io::Error> for CreateMapError {
    fn from(e: std::io::Error) -> (r: CreateMapError) {
        CreateMapError::FileSystemError(e)
    }
}

impl vstd::std_specs::convert::FromSpecImpl<std::io::Error> for CreateMapError {
    open spec fn obeys_from_spec() -> bool {
        true
    }

    open spec fn from_spec(e: std::io::Error) -> CreateMapError {
        CreateMapError::FileSystemError(e)
    }
}

/// The answer to a successful map creation: the new map's id.
#[derive(Debug, Clone, PartialEq, Eq)]
pub struct CreateMapResponseData {
    pub id: String,
}

/// Why the body of a map-creation request was refused.
#[derive(Debug, Clone, Copy, PartialEq, Eq, Structural)]
pub enum ParseCreateMapHttpRequestError {
    Dimensions(MapDimensionCannotBeZeroError),
    Style(MapStyleNotKnownError),
}

/// The body of a map-creation request, as sent.
#[derive(Debug, Clone, PartialEq, Eq)]
pub struct CreateMapHttpRequestBody {
    pub columns: u32,
    pub rows: u32,
    pub style: String,
}

impl CreateMapHttpRequestBody {
    /// Checks the body: a zero dimension is refused first, then an unknown
    /// style name; otherwise the request for those dimensions and style.
    pub fn try_into_domain(self) -> (r: Result<CreateMapRequest, ParseCreateMapHttpRequestError>)
        ensures
            (self.columns == 0 || self.rows == 0) <==> r == Err::<CreateMapRequest, _>(
                ParseCreateMapHttpRequestError::Dimensions(MapDimensionCannotBeZeroError),
            ),
            (self.columns != 0 && self.rows != 0 && style_from_name(self.style@) is None) <==> r == Err::<
                CreateMapRequest,
                _,
            >(ParseCreateMapHttpRequestError::Style(MapStyleNotKnownError)),
            r matches Ok(req) ==> {
                &&& req@.0.value() == self.columns
                &&& req@.1.value() == self.rows
                &&& style_from_name(self.style@) == Some(req@.2)
            },
    {
        if self.columns == 0 || self.rows == 0 {
            return Err(ParseCreateMapHttpRequestError::Dimensions(MapDimensionCannotBeZeroError));
        }
        let style = match MapStyle::try_from_str(self.style.as_str()) {
            Ok(s) => s,
            Err(_) => {
                return Err(ParseCreateMapHttpRequestError::Style(MapStyleNotKnownError));
            },
        };
        let cols = match MapDimension::new(self.columns) {
            Ok(d) => d,
            Err(e) => {
                return Err(ParseCreateMapHttpRequestError::Dimensions(e));
            },
        };
        let rows = match MapDimension::new(self.rows) {
            Ok(d) => d,
            Err(e) => {
                return Err(ParseCreateMapHttpRequestError::Dimensions(e));
            },
        };
        Ok(CreateMapRequest::new(cols, rows, style))
    }
}

/// What follows an attempt to store a created map.
#[derive(Debug, Clone, Copy, PartialEq, Eq, Structural)]
pub enum CreationFollowUp {
    /// Count a success and tell the map's creator of it.
    RecordSuccessAndNotify,
    /// Count a failure.
    RecordFailure,
}

/// The follow-up of a map creation, by what storing the map gave back: a
/// stored map is counted as a success and its creator told of it; an error
/// is counted as a failure (the error itself goes back to the caller).
pub fn creation_follow_up<T>(result: &Result<T, CreateMapError>) -> (f: CreationFollowUp)
    ensures
        result is Ok <==> f == CreationFollowUp::RecordSuccessAndNotify,
        result is Err <==> f == CreationFollowUp::RecordFailure,
{
    match result {
        Ok(_) => CreationFollowUp::RecordSuccessAndNotify,
        Err(_) => CreationFollowUp::RecordFailure,
    }
}

/// Where the outcomes of map creations are counted.
pub trait MapMetrics {
    /// A map was created.
    fn record_map_creation_success(&self);

    /// A map could not be created.
    fn record_map_creation_failure(&self);
}

/// Counts nothing.
#[derive(Debug, Clone, Copy)]
pub struct NullMetrics;

impl MapMetrics for NullMetrics {
    fn record_map_creation_success(&self) {
    }

    fn record_map_creation_failure(&self) {
    }
}

/// Tells no one that a map was created.
#[derive(Debug, Clone, Copy)]
pub struct NullNotifier;

/// Stores created maps as files on disk.
#[derive(Debug, Clone, Copy)]
pub struct FileSystemRepository;

} // verus!
