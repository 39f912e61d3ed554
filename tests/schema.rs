use address_space::qmp_schema::{QmpErrorClass, RunState, StatusInfo};
use address_space::{IfReq, TapError, IFF_NO_PI, IFF_TAP, IFF_VNET_HDR};

#[test]
fn error_content_is_its_message() {
    let e = QmpErrorClass::DeviceNotFound(String::from("net-0"));
    assert_eq!(e.to_content(), "net-0");
    assert_eq!(QmpErrorClass::GenericError(String::new()).to_content(), "");
}

#[test]
fn default_status_is_debug() {
    let s = StatusInfo::default();
    assert_eq!(s.status, RunState::debug);
    assert!(!s.running);
}

#[test]
fn tap_request_pads_name() {
    let req = IfReq::for_tap("tap0").unwrap();
    assert_eq!(&req.ifr_name[..5], b"tap0\0");
    assert!(req.ifr_name[4..].iter().all(|b| *b == 0));
    assert_eq!(req.ifr_flags, IFF_TAP | IFF_NO_PI | IFF_VNET_HDR);
    assert!(IfReq::for_tap("fifteen_chars_x").is_ok());
    assert!(matches!(IfReq::for_tap("sixteen_chars_xx"), Err(TapError::NameTooLong)));
}
