use sane::error::Error;
use sane::status::Status;
use sane::{
    close_device, get_option_descriptors, init, open_device, request_device_list, ByteStream,
    Constraint, Device, OpenResult, Unit, ValueType, SANE_VERSION,
};

fn word(n: i32) -> Vec<u8> {
    n.to_be_bytes().to_vec()
}

fn string(s: &str) -> Vec<u8> {
    let mut out = word(s.len() as i32 + 1);
    out.extend_from_slice(s.as_bytes());
    out.push(0);
    out
}

fn device_record(kind: &str, vendor: &str, model: &str, name: &str) -> Vec<u8> {
    let mut out = string(kind);
    out.extend(string(vendor));
    out.extend(string(model));
    out.extend(string(name));
    out
}

fn device(kind: &str, vendor: &str, model: &str, name: &str) -> Device {
    Device {
        kind: kind.to_string(),
        vendor: vendor.to_string(),
        model: model.to_string(),
        name: name.to_string(),
    }
}

fn concat(parts: &[Vec<u8>]) -> Vec<u8> {
    parts.concat()
}

#[test]
fn it_works() {
    assert_eq!(2 + 2, 4);
}

#[test]
fn open_device_returns_handle_when_resource_is_absent() {
    let reply = concat(&[word(0), word(42), word(0)]);
    let mut stream = ByteStream::new(reply);
    let dev = device("scanner", "Acme", "X100", "net:1");
    let result = open_device(&dev, &mut stream).unwrap();
    assert!(matches!(result, OpenResult::Handle(42)));
    assert_eq!(stream.position(), 12);
    assert_eq!(stream.sent(), &concat(&[word(2), string("net:1")])[..]);
}

#[test]
fn open_device_returns_resource_when_present() {
    let reply = concat(&[word(0), word(7), string("auth-resource")]);
    let mut stream = ByteStream::new(reply);
    let dev = device("scanner", "Acme", "X100", "net:1");
    match open_device(&dev, &mut stream).unwrap() {
        OpenResult::AuthRequired(resource) => assert_eq!(resource, "auth-resource"),
        OpenResult::Handle(_) => panic!("expected an authentication resource"),
    }
}

#[test]
fn open_device_treats_lone_nul_as_absent_resource() {
    let reply = concat(&[word(0), word(9), word(1), vec![0]]);
    let mut stream = ByteStream::new(reply);
    let dev = device("scanner", "Acme", "X100", "net:1");
    assert!(matches!(open_device(&dev, &mut stream).unwrap(), OpenResult::Handle(9)));
    assert_eq!(stream.position(), 13);
}

#[test]
fn list_devices_returns_records_in_order() {
    let reply = concat(&[
        word(0),
        device_record("scanner", "Acme", "X100", "net:1"),
        device_record("scanner", "Acme", "X200", "net:2"),
        word(0),
    ]);
    let mut stream = ByteStream::new(reply);
    let devices = request_device_list(&mut stream).unwrap();
    assert_eq!(devices.len(), 2);
    assert_eq!(devices[0].kind, "scanner");
    assert_eq!(devices[0].vendor, "Acme");
    assert_eq!(devices[0].model, "X100");
    assert_eq!(devices[0].name, "net:1");
    assert_eq!(devices[1].kind, "scanner");
    assert_eq!(devices[1].vendor, "Acme");
    assert_eq!(devices[1].model, "X200");
    assert_eq!(devices[1].name, "net:2");
    assert_eq!(stream.sent(), &word(1)[..]);
}

#[test]
fn list_devices_reads_nothing_past_the_marker() {
    let records = concat(&[
        word(0),
        device_record("scanner", "Acme", "X100", "net:1"),
        device_record("camera", "Zed", "Z1", "usb:3"),
        device_record("scanner", "Beta", "B9", "net:9"),
        word(0),
    ]);
    let consumed = records.len();
    let reply = concat(&[records, word(0x1234_5678)]);
    let mut stream = ByteStream::new(reply);
    let devices = request_device_list(&mut stream).unwrap();
    assert_eq!(devices.len(), 3);
    assert_eq!(devices[1].kind, "camera");
    assert_eq!(stream.position(), consumed);
    assert_eq!(stream.read_u32().unwrap(), 0x1234_5678);
}

#[test]
fn list_devices_empty() {
    let mut stream = ByteStream::new(concat(&[word(0), word(0)]));
    assert!(request_device_list(&mut stream).unwrap().is_empty());
    assert_eq!(stream.position(), 8);
}

#[test]
fn init_returns_peer_version() {
    let mut stream = ByteStream::new(concat(&[word(0), word(0x0102_0304)]));
    assert_eq!(init(&mut stream, "client").unwrap(), 0x0102_0304);
    let expected = concat(&[word(0), SANE_VERSION.to_be_bytes().to_vec(), string("client")]);
    assert_eq!(stream.sent(), &expected[..]);
    assert_eq!(stream.position(), 8);
}

#[test]
fn failed_status_stops_every_command() {
    let reply = concat(&[word(3), word(5), word(6)]);
    let dev = device("scanner", "Acme", "X100", "net:1");

    let mut s = ByteStream::new(reply.clone());
    assert!(matches!(init(&mut s, "c"), Err(Error::SanedError(Status::DeviceBusy))));
    assert_eq!(s.position(), 4);

    let mut s = ByteStream::new(reply.clone());
    assert!(matches!(request_device_list(&mut s), Err(Error::SanedError(Status::DeviceBusy))));
    assert_eq!(s.position(), 4);

    let mut s = ByteStream::new(reply.clone());
    assert!(matches!(open_device(&dev, &mut s), Err(Error::SanedError(Status::DeviceBusy))));
    assert_eq!(s.position(), 4);

    let mut s = ByteStream::new(reply);
    assert!(matches!(get_option_descriptors(1, &mut s), Err(Error::SanedError(Status::DeviceBusy))));
    assert_eq!(s.position(), 4);
}

#[test]
fn unknown_status_is_kept() {
    let mut s = ByteStream::new(word(99));
    assert!(matches!(request_device_list(&mut s), Err(Error::SanedError(Status::Unknown(99)))));
    assert_eq!(Status::from(11), Status::AccessDenied);
    assert_eq!(Status::from(0), Status::Success);
    assert_eq!(Status::from(-1), Status::Unknown(-1));
}

#[test]
fn close_device_reads_four_bytes_without_status() {
    let mut s = ByteStream::new(word(17));
    assert!(close_device(5, &mut s).is_ok());
    assert_eq!(s.position(), 4);
    assert_eq!(s.sent(), &concat(&[word(3), word(5)])[..]);
}

#[test]
fn close_device_short_answer() {
    let mut s = ByteStream::new(vec![0, 0]);
    assert!(matches!(close_device(5, &mut s), Err(Error::Truncated)));
    assert_eq!(s.position(), 0);
}

#[test]
fn string_round_trip() {
    for text in ["", "a", "net:1", "café", "longer text with spaces"] {
        let mut out = ByteStream::new(Vec::new());
        out.write_string(text).unwrap();
        assert_eq!(out.sent().len(), text.len() + 5);
        let mut input = ByteStream::new(out.sent().to_vec());
        assert_eq!(input.read_string().unwrap(), text);
        assert_eq!(input.position(), text.len() + 5);
    }
}

#[test]
fn string_wire_form() {
    let mut out = ByteStream::new(Vec::new());
    out.write_string("ab").unwrap();
    assert_eq!(out.sent(), &[0, 0, 0, 3, b'a', b'b', 0][..]);
}

#[test]
fn words_are_big_endian() {
    let mut s = ByteStream::new(vec![1, 2, 3, 4, 0xff, 0xff, 0xff, 0xfe]);
    assert_eq!(s.read_u32().unwrap(), 0x0102_0304);
    assert_eq!(s.read_i32().unwrap(), -2);
    s.write_u32(0x0a0b_0c0d);
    s.write_i32(-1);
    assert_eq!(s.sent(), &[10, 11, 12, 13, 0xff, 0xff, 0xff, 0xff][..]);
}

#[test]
fn string_errors() {
    let mut s = ByteStream::new(word(0));
    assert!(matches!(s.read_string(), Err(Error::BadNetworkDataError(_))));
    let mut s = ByteStream::new(word(-4));
    assert!(matches!(s.read_string(), Err(Error::BadNetworkDataError(_))));
    let mut s = ByteStream::new(concat(&[word(3), vec![0xff, 0xfe, 0]]));
    assert!(matches!(s.read_string(), Err(Error::FromUtf8Error(_))));
    let mut s = ByteStream::new(concat(&[word(10), vec![b'a']]));
    assert!(matches!(s.read_string(), Err(Error::Truncated)));
    assert_eq!(s.position(), 4);
    let mut s = ByteStream::new(vec![0, 0]);
    assert!(matches!(s.read_string(), Err(Error::Truncated)));
    let mut s = ByteStream::new(word(-1));
    assert!(matches!(s.read_opt_string(), Err(Error::BadNetworkDataError(_))));
}

#[test]
fn optional_string_forms() {
    let mut s = ByteStream::new(concat(&[word(0), word(1), vec![0], string("x")]));
    assert_eq!(s.read_opt_string().unwrap(), None);
    assert_eq!(s.read_opt_string().unwrap(), None);
    assert_eq!(s.read_opt_string().unwrap(), Some("x".to_string()));
    assert_eq!(s.position(), 4 + 5 + 6);
}

#[test]
fn option_descriptors_keep_the_end_marker() {
    let reply = concat(&[
        word(0),
        string("resolution"),
        string("Resolution"),
        string("Scan resolution"),
        word(1),
        word(4),
        word(4),
        word(5),
        word(2),
        word(3),
        word(75),
        word(150),
        word(300),
        string("mode"),
        string("Mode"),
        string("Scan mode"),
        word(3),
        word(0),
        word(16),
        word(5),
        word(3),
        word(2),
        string("Color"),
        string("Gray"),
        string("br-x"),
        string("Bottom-right x"),
        string("Bottom-right x position"),
        word(2),
        word(3),
        word(4),
        word(5),
        word(1),
        word(0),
        word(216),
        word(1),
        word(0),
    ]);
    let mut s = ByteStream::new(reply);
    let list = get_option_descriptors(8, &mut s).unwrap();
    assert_eq!(s.sent(), &concat(&[word(4), word(8)])[..]);
    assert_eq!(list.len(), 4);
    assert!(list[3].is_none());
    let res = list[0].as_ref().unwrap();
    assert_eq!(res.name, "resolution");
    assert_eq!(res.title, "Resolution");
    assert_eq!(res.value_type, ValueType::Int);
    assert_eq!(res.unit, Unit::Dpi);
    assert_eq!(res.size, 4);
    assert_eq!(res.cap, 5);
    assert!(matches!(&res.constraint, Constraint::WordList(w) if w == &vec![75, 150, 300]));
    let mode = list[1].as_ref().unwrap();
    assert_eq!(mode.value_type, ValueType::Text);
    assert!(matches!(&mode.constraint, Constraint::StringList(l) if l == &vec!["Color".to_string(), "Gray".to_string()]));
    let brx = list[2].as_ref().unwrap();
    assert_eq!(brx.unit, Unit::Mm);
    assert!(matches!(brx.constraint, Constraint::Range { min: 0, max: 216, quant: 1 }));
    assert_eq!(s.remaining(), 0);
}

#[test]
fn option_descriptor_unknown_constraint_kind() {
    let reply = concat(&[
        word(0),
        string("n"),
        string("t"),
        string("d"),
        word(1),
        word(0),
        word(4),
        word(0),
        word(9),
    ]);
    let mut s = ByteStream::new(reply);
    assert!(matches!(get_option_descriptors(1, &mut s), Err(Error::BadNetworkDataError(_))));
}

#[test]
fn truncated_device_list() {
    let reply = concat(&[word(0), string("scanner"), string("Acme")]);
    let mut s = ByteStream::new(reply);
    assert!(matches!(request_device_list(&mut s), Err(Error::Truncated)));
}

#[test]
fn status_converts_to_error() {
    assert!(matches!(Error::from(Status::Jammed), Error::SanedError(Status::Jammed)));
}

