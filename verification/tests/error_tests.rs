use velos::error::{ApiError, StatusCode};

#[test]
fn unknown_camera_maps_to_not_found() {
    let status: tonic::Status = ApiError::UnknownCamera(42).into_status();
    assert_eq!(status.code(), tonic::Code::NotFound);
    assert!(status.message().contains("42"));
}

#[test]
fn invalid_data_maps_to_invalid_argument() {
    let status: tonic::Status = ApiError::InvalidData("bad field".into()).into_status();
    assert_eq!(status.code(), tonic::Code::InvalidArgument);
    assert!(status.message().contains("bad field"));
}

#[test]
fn channel_full_maps_to_unavailable() {
    let status: tonic::Status = ApiError::ChannelFull.into_status();
    assert_eq!(status.code(), tonic::Code::Unavailable);
}

#[test]
fn channel_closed_maps_to_unavailable() {
    let status: tonic::Status = ApiError::ChannelClosed.into_status();
    assert_eq!(status.code(), tonic::Code::Unavailable);
    assert!(status.message().contains("disconnected"));
}

#[test]
fn status_codes_and_messages_are_exact() {
    assert_eq!(ApiError::UnknownCamera(4_294_967_295).status_code(), StatusCode::NotFound);
    assert_eq!(ApiError::UnknownCamera(4_294_967_295).status_message(), "unknown camera: 4294967295");
    assert_eq!(ApiError::UnknownCamera(0).status_message(), "unknown camera: 0");
    assert_eq!(ApiError::InvalidData("x".into()).status_message(), "x");
    assert_eq!(ApiError::ChannelFull.status_message(), "detection pipeline is overloaded");
    assert_eq!(ApiError::ChannelClosed.status_message(), "simulation disconnected");
}

#[test]
fn display_messages() {
    assert_eq!(ApiError::UnknownCamera(42).display_message(), "unknown camera: 42");
    assert_eq!(ApiError::InvalidData("bad".into()).display_message(), "invalid data: bad");
    assert_eq!(ApiError::ChannelFull.display_message(), "channel full: detection pipeline is overloaded");
    assert_eq!(ApiError::ChannelClosed.display_message(), "channel closed: simulation disconnected");
}

#[test]
fn status_message_carries_the_code_through_tonic() {
    let status = ApiError::UnknownCamera(1507).into_status();
    assert_eq!(status.message(), "unknown camera: 1507");
}
