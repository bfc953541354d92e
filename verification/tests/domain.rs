use generator_core::domain::{
    CreateMapError, CreateMapHttpRequestBody, CreateMapRequest, CreateMapResponseData, FileSystemRepository,
    MapDimension, MapDimensionCannotBeZeroError, MapMetrics, MapStyleNotKnownError, NullMetrics, NullNotifier,
    ParseCreateMapHttpRequestError,
};
use generator_core::domain::{creation_follow_up, CreationFollowUp};
use generator_core::types::MapStyle;

#[test]
fn dimensions_must_be_positive() {
    assert_eq!(MapDimension::new(0), Err(MapDimensionCannotBeZeroError));
    let d = MapDimension::new(12).unwrap();
    let req = CreateMapRequest::new(d, MapDimension::new(7).unwrap(), MapStyle::MetroidFS);
    assert_eq!(req.raw_columns(), 12);
    assert_eq!(req.raw_rows(), 7);
    assert_eq!(req.columns(), d);
    assert_eq!(req.rows(), MapDimension::new(7).unwrap());
    assert_eq!(req.style(), MapStyle::MetroidFS);
}

#[test]
fn request_body_with_a_zero_dimension_is_refused() {
    let body = CreateMapHttpRequestBody { columns: 0, rows: 10, style: "metroid-zm".to_string() };
    assert_eq!(
        body.try_into_domain(),
        Err(ParseCreateMapHttpRequestError::Dimensions(MapDimensionCannotBeZeroError))
    );
    // a zero dimension is reported before an unknown style
    let body = CreateMapHttpRequestBody { columns: 10, rows: 0, style: "nope".to_string() };
    assert_eq!(
        body.try_into_domain(),
        Err(ParseCreateMapHttpRequestError::Dimensions(MapDimensionCannotBeZeroError))
    );
}

#[test]
fn request_body_with_an_unknown_style_is_refused() {
    let body = CreateMapHttpRequestBody { columns: 10, rows: 10, style: "zelda".to_string() };
    assert_eq!(body.try_into_domain(), Err(ParseCreateMapHttpRequestError::Style(MapStyleNotKnownError)));
}

#[test]
fn request_body_becomes_a_request() {
    let body = CreateMapHttpRequestBody { columns: 30, rows: 20, style: "castlevania-aos".to_string() };
    let req = body.try_into_domain().unwrap();
    assert_eq!(req.raw_columns(), 30);
    assert_eq!(req.raw_rows(), 20);
    assert_eq!(req.style(), MapStyle::CastlevaniaAOS);
}

#[test]
fn error_messages() {
    assert_eq!(MapDimensionCannotBeZeroError.message(), "map dimension cannot be zero");
    assert_eq!(MapStyleNotKnownError.message(), "map style is not known");
}

#[test]
fn create_map_errors_from_their_sources() {
    let io = std::io::Error::new(std::io::ErrorKind::Other, "disk full");
    assert!(matches!(CreateMapError::from(io), CreateMapError::FileSystemError(_)));
    let any = anyhow::Error::msg("boom");
    assert!(matches!(CreateMapError::from(any), CreateMapError::Unknown(_)));
}

#[test]
fn null_services_do_nothing() {
    let metrics = NullMetrics;
    metrics.record_map_creation_success();
    metrics.record_map_creation_failure();
    let _ = NullNotifier;
    let _ = FileSystemRepository;
    let data = CreateMapResponseData { id: "abc".to_string() };
    assert_eq!(data.id, "abc");
}

#[test]
fn stored_maps_are_counted_and_announced() {
    let stored: Result<u32, CreateMapError> = Ok(7);
    assert_eq!(creation_follow_up(&stored), CreationFollowUp::RecordSuccessAndNotify);
    let refused: Result<u32, CreateMapError> = Err(CreateMapError::FileSystemError(std::io::Error::other("disk full")));
    assert_eq!(creation_follow_up(&refused), CreationFollowUp::RecordFailure);
}
