pub mod device;
pub mod error;
pub mod status;
pub mod types;
pub mod wire;

use vstd::prelude::*;
use vstd::string::StringSliceAdditionalSpecFns;
use vstd::utf8::encode_utf8;

pub use device::Device;
pub use types::{Constraint, OptionDescriptor, Unit, ValueType};
pub use wire::ByteStream;

use device::{
    device_views, devices_bytes, devices_step, keep_present, lemma_devices_round_trip, present,
    read_device_array, sendable, terminated, DeviceView,
};
use error::{agrees, fails_with, Error, Fault};
use status::{status_of, Status};
use types::{descriptor_views, descriptors_step, read_descriptor_array, DescriptorView};
use wire::{
    fits_wire, int_bytes, lemma_int_prefix, lemma_opt_string_absent, lemma_opt_string_present,
    lemma_word_prefix, opt_string_step, signed_value, string_bytes, word_bytes, word_value, WORD_MAX,
};

verus! {

/// The protocol version this client speaks, 1.0.3.
pub const SANE_VERSION: u32 = 0x0100_0003;

/// The opcodes of the commands.
pub const LIST_DEVICES: i32 = 1;

pub const OPEN_DEVICE: i32 = 2;

pub const CLOSE_DEVICE: i32 = 3;

pub const GET_OPTION_DESCRIPTORS: i32 = 4;

/// What opening a device gave.
#[derive(Debug)]
pub enum OpenResult {
    /// The device was opened, and this handle names the session.
    Handle(i32),
    /// The device asks for authentication of this resource first.
    AuthRequired(String),
}

pub enum OpenView {
    Handle(i32),
    AuthRequired(Seq<char>),
}

impl View for OpenResult {
    type V = OpenView;

    open spec fn view(&self) -> OpenView {
        match self {
            OpenResult::Handle(h) => OpenView::Handle(*h),
            OpenResult::AuthRequired(s) => OpenView::AuthRequired(s@),
        }
    }
}

/// Decoding the status header at the start of `b`: success, or the failure that
/// the status names; four bytes are read either way.
pub open spec fn status_step(b: Seq<u8>) -> (Result<(), Fault>, nat) {
    if b.len() < 4 {
        (Err(Fault::Truncated), 0)
    } else if signed_value(b) == 0 {
        (Ok(()), 4)
    } else {
        (Err(Fault::Status(status_of(signed_value(b) as i32))), 4)
    }
}

/// Decoding the reply to the opening exchange: a status, then the version the
/// daemon settled on.
pub open spec fn init_reply(b: Seq<u8>) -> (Result<u32, Fault>, nat) {
    match status_step(b) {
        (Err(f), k) => (Err(f), k),
        (Ok(_), k) => if b.len() < 8 {
            (Err(Fault::Truncated), 4)
        } else {
            (Ok(word_value(b.skip(4)) as u32), 8)
        },
    }
}

/// Decoding the reply to a device listing: a status, then the device list.
pub open spec fn list_reply(b: Seq<u8>) -> (Result<Seq<DeviceView>, Fault>, nat) {
    match status_step(b) {
        (Err(f), k) => (Err(f), k),
        (Ok(_), k) => (devices_step(b.skip(4)).0, 4 + devices_step(b.skip(4)).1),
    }
}

/// Decoding the reply to opening a device: a status, a handle, then an optional
/// resource; an absent resource means the handle is good.
pub open spec fn open_reply(b: Seq<u8>) -> (Result<OpenView, Fault>, nat) {
    match status_step(b) {
        (Err(f), k) => (Err(f), k),
        (Ok(_), k) => if b.len() < 8 {
            (Err(Fault::Truncated), 4)
        } else {
            match opt_string_step(b.skip(8)) {
                (Err(f), m) => (Err(f), 8 + m),
                (Ok(None), m) => (Ok(OpenView::Handle(signed_value(b.skip(4)) as i32)), 8 + m),
                (Ok(Some(t)), m) => (Ok(OpenView::AuthRequired(t)), 8 + m),
            }
        },
    }
}

/// Decoding the reply to a descriptor request: a status, then the descriptor list.
pub open spec fn descriptors_reply(b: Seq<u8>) -> (Result<Seq<DescriptorView>, Fault>, nat) {
    match status_step(b) {
        (Err(f), k) => (Err(f), k),
        (Ok(_), k) => (descriptors_step(b.skip(4)).0, 4 + descriptors_step(b.skip(4)).1),
    }
}

/// The version that the opening exchange returns is the one the daemon wrote
/// after its success status; what the client sent plays no part.
pub proof fn lemma_init_returns_peer_version(version: u32, tail: Seq<u8>)
    ensures
        init_reply(int_bytes(0) + word_bytes(version) + tail) == (Ok::<u32, Fault>(version), 8nat),
{
    lemma_int_prefix(0, word_bytes(version) + tail);
    lemma_word_prefix(version, tail);
}

/// A listing reply of present records and the end marker gives exactly those
/// records, in order, and reads nothing past the marker.
pub proof fn lemma_list_returns_records(ds: Seq<DeviceView>, tail: Seq<u8>)
    requires
        forall|i: int| 0 <= i < ds.len() ==> sendable(#[trigger] ds[i]),
    ensures
        list_reply(int_bytes(0) + devices_bytes(ds) + word_bytes(0) + tail) == (
            Ok::<Seq<DeviceView>, Fault>(ds),
            4 + devices_bytes(ds).len() + 4,
        ),
{
    let body = devices_bytes(ds) + word_bytes(0) + tail;
    assert(int_bytes(0) + devices_bytes(ds) + word_bytes(0) + tail =~= int_bytes(0) + body);
    lemma_int_prefix(0, body);
    lemma_devices_round_trip(ds, tail);
}

/// With the resource absent, opening gives the handle that the daemon sent.
pub proof fn lemma_open_gives_handle(handle: i32, tail: Seq<u8>)
    ensures
        open_reply(int_bytes(0) + int_bytes(handle) + word_bytes(0) + tail) == (
            Ok::<OpenView, Fault>(OpenView::Handle(handle)),
            12nat,
        ),
{
    let b = int_bytes(0) + int_bytes(handle) + word_bytes(0) + tail;
    assert(b =~= int_bytes(0) + (int_bytes(handle) + (word_bytes(0) + tail)));
    lemma_int_prefix(0, int_bytes(handle) + (word_bytes(0) + tail));
    lemma_int_prefix(handle, word_bytes(0) + tail);
    assert(b.skip(8) =~= word_bytes(0) + tail);
    lemma_opt_string_absent(tail);
}

/// With a resource present, opening gives that resource and no handle.
pub proof fn lemma_open_gives_resource(handle: i32, resource: Seq<char>, tail: Seq<u8>)
    requires
        fits_wire(resource),
        resource.len() > 0,
    ensures
        open_reply(int_bytes(0) + int_bytes(handle) + string_bytes(resource) + tail) == (
            Ok::<OpenView, Fault>(OpenView::AuthRequired(resource)),
            8 + string_bytes(resource).len(),
        ),
{
    let b = int_bytes(0) + int_bytes(handle) + string_bytes(resource) + tail;
    assert(b =~= int_bytes(0) + (int_bytes(handle) + (string_bytes(resource) + tail)));
    lemma_int_prefix(0, int_bytes(handle) + (string_bytes(resource) + tail));
    lemma_int_prefix(handle, string_bytes(resource) + tail);
    assert(b.skip(8) =~= string_bytes(resource) + tail);
    lemma_opt_string_present(resource, tail);
}

/// A status other than success fails every command that reads one with that
/// status, and nothing past the status is read.
pub proof fn lemma_failed_status_stops(code: i32, tail: Seq<u8>)
    requires
        code != 0,
    ensures
        init_reply(int_bytes(code) + tail) == (Err::<u32, Fault>(Fault::Status(status_of(code))), 4nat),
        list_reply(int_bytes(code) + tail) == (
            Err::<Seq<DeviceView>, Fault>(Fault::Status(status_of(code))),
            4nat,
        ),
        open_reply(int_bytes(code) + tail) == (Err::<OpenView, Fault>(Fault::Status(status_of(code))), 4nat),
        descriptors_reply(int_bytes(code) + tail) == (
            Err::<Seq<DescriptorView>, Fault>(Fault::Status(status_of(code))),
            4nat,
        ),
{
    lemma_int_prefix(code, tail);
}

/// Reads a status code.
fn read_status(stream: &mut ByteStream) -> (r: Result<Status, Error>)
    requires
        old(stream).wf(),
    ensures
        4 <= old(stream).rest().len() ==> r == Ok::<Status, Error>(
            status_of(signed_value(old(stream).rest()) as i32),
        ) && final(stream).advanced(old(stream), 4),
        4 > old(stream).rest().len() ==> fails_with(r, Fault::Truncated) && final(stream).advanced(
            old(stream),
            0,
        ),
{
    let code = stream.read_i32()?;
    Ok(Status::from(code))
}

/// Reads the status header of a reply, and fails with the status unless it is
/// `Success`.
pub fn check_success_status(stream: &mut ByteStream) -> (r: Result<(), Error>)
    requires
        old(stream).wf(),
    ensures
        agrees(r, status_step(old(stream).rest()).0),
        final(stream).advanced(old(stream), status_step(old(stream).rest()).1),
{
    match read_status(stream)? {
        Status::Success => Ok(()),
        err => Err(Error::from(err)),
    }
}

/// Opens the session: writes a zero word, the protocol version and the client's
/// name, then reads the status and returns the version that the daemon sent.
/// A name too long for the wire form is refused before anything is written.
pub fn init(stream: &mut ByteStream, client: &str) -> (r: Result<u32, Error>)
    requires
        old(stream).wf(),
    ensures
        !fits_wire(client@) ==> fails_with(r, Fault::Malformed) && final(stream)@ == old(stream)@,
        fits_wire(client@) ==> {
            &&& final(stream)@.sent == old(stream)@.sent + word_bytes(0) + word_bytes(SANE_VERSION)
                + string_bytes(client@)
            &&& final(stream)@.input == old(stream)@.input
            &&& final(stream)@.pos == old(stream)@.pos + init_reply(old(stream).rest()).1
            &&& agrees(r, init_reply(old(stream).rest()).0)
        },
        final(stream).wf(),
{
    if client.as_bytes().len() >= WORD_MAX as usize {
        return Err(Error::BadNetworkDataError("client name too long for a length field".to_owned()));
    }
    proof {
        assert(client.spec_bytes() == encode_utf8(client@));
    }
    stream.write_u32(0);
    stream.write_u32(SANE_VERSION);
    stream.write_string(client)?;
    let ghost s0 = *stream;
    check_success_status(stream)?;
    let ghost s1 = *stream;
    proof {
        s1.lemma_rest_after(&s0, 4);
    }
    let version = stream.read_u32()?;
    Ok(version)
}

/// Asks for the devices on offer: writes the listing opcode, checks the status,
/// and reads the device list; only the present records are returned, in order.
pub fn request_device_list(stream: &mut ByteStream) -> (r: Result<Vec<Device>, Error>)
    requires
        old(stream).wf(),
    ensures
        final(stream)@.sent == old(stream)@.sent + int_bytes(LIST_DEVICES),
        final(stream)@.input == old(stream)@.input,
        final(stream)@.pos == old(stream)@.pos + list_reply(old(stream).rest()).1,
        final(stream).wf(),
        match list_reply(old(stream).rest()).0 {
            Ok(ds) => r matches Ok(v) && device_views(v@) == ds,
            Err(f) => fails_with(r, f),
        },
{
    stream.write_i32(LIST_DEVICES);
    let ghost s0 = *stream;
    check_success_status(stream)?;
    let ghost s1 = *stream;
    proof {
        s1.lemma_rest_after(&s0, 4);
    }
    let list = read_device_array(stream)?;
    Ok(keep_present(list))
}

/// Opens `device`: writes the opcode and the device's name, checks the status,
/// reads the handle and the optional resource. With no resource the handle is
/// returned; with one, the resource is returned and the handle dropped.
pub fn open_device(device: &Device, stream: &mut ByteStream) -> (r: Result<OpenResult, Error>)
    requires
        old(stream).wf(),
    ensures
        !fits_wire(device.name@) ==> fails_with(r, Fault::Malformed) && final(stream)@ == old(stream)@,
        fits_wire(device.name@) ==> {
            &&& final(stream)@.sent == old(stream)@.sent + int_bytes(OPEN_DEVICE) + string_bytes(
                device.name@,
            )
            &&& final(stream)@.input == old(stream)@.input
            &&& final(stream)@.pos == old(stream)@.pos + open_reply(old(stream).rest()).1
            &&& agrees(r, open_reply(old(stream).rest()).0)
        },
        final(stream).wf(),
{
    let name = device.name.as_str();
    if name.as_bytes().len() >= WORD_MAX as usize {
        return Err(Error::BadNetworkDataError("device name too long for a length field".to_owned()));
    }
    proof {
        assert(name.spec_bytes() == encode_utf8(device.name@));
    }
    stream.write_i32(OPEN_DEVICE);
    stream.write_string(name)?;
    let ghost s0 = *stream;
    check_success_status(stream)?;
    let ghost s1 = *stream;
    proof {
        s1.lemma_rest_after(&s0, 4);
    }
    let handle = stream.read_i32()?;
    let ghost s2 = *stream;
    proof {
        s2.lemma_rest_after(&s0, 8);
    }
    let resource = stream.read_opt_string()?;
    match resource {
        None => Ok(OpenResult::Handle(handle)),
        Some(resource) => Ok(OpenResult::AuthRequired(resource)),
    }
}

/// Ends the session on `handle`: writes the opcode and the handle, then reads
/// and drops the four-byte answer. No status is read.
pub fn close_device(handle: i32, stream: &mut ByteStream) -> (r: Result<(), Error>)
    requires
        old(stream).wf(),
    ensures
        final(stream)@.sent == old(stream)@.sent + int_bytes(CLOSE_DEVICE) + int_bytes(handle),
        final(stream)@.input == old(stream)@.input,
        4 <= old(stream).rest().len() ==> r is Ok && final(stream)@.pos == old(stream)@.pos + 4,
        4 > old(stream).rest().len() ==> fails_with(r, Fault::Truncated) && final(stream)@.pos == old(
            stream,
        )@.pos,
        final(stream).wf(),
{
    stream.write_i32(CLOSE_DEVICE);
    stream.write_i32(handle);
    let _answer = stream.read_i32()?;
    Ok(())
}

/// Asks for the option descriptors of the device open on `handle`: writes the
/// opcode and the handle, checks the status, and reads the descriptor list. The
/// list is returned whole, the absent record that ends it included.
pub fn get_option_descriptors(handle: i32, stream: &mut ByteStream) -> (r: Result<
    Vec<Option<OptionDescriptor>>,
    Error,
>)
    requires
        old(stream).wf(),
    ensures
        final(stream)@.sent == old(stream)@.sent + int_bytes(GET_OPTION_DESCRIPTORS) + int_bytes(handle),
        final(stream)@.input == old(stream)@.input,
        final(stream)@.pos == old(stream)@.pos + descriptors_reply(old(stream).rest()).1,
        final(stream).wf(),
        match descriptors_reply(old(stream).rest()).0 {
            Ok(ds) => r matches Ok(v) && terminated(v@) && descriptor_views(present(v@)) == ds,
            Err(f) => fails_with(r, f),
        },
{
    stream.write_i32(GET_OPTION_DESCRIPTORS);
    stream.write_i32(handle);
    let ghost s0 = *stream;
    check_success_status(stream)?;
    let ghost s1 = *stream;
    proof {
        s1.lemma_rest_after(&s0, 4);
    }
    read_descriptor_array(stream)
}

} // verus!
