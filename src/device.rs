use vstd::prelude::*;

use crate::error::{fails_with, Error, Fault};
use crate::wire::{
    fits_wire, lemma_opt_string_absent, lemma_opt_string_present, lemma_string_round_trip,
    opt_string_step, string_bytes, string_step, word_bytes, ByteStream,
};

verus! {

/// A device that the daemon offers.
#[derive(Debug)]
pub struct Device {
    pub kind: String,
    pub vendor: String,
    pub model: String,
    pub name: String,
}

pub struct DeviceView {
    pub kind: Seq<char>,
    pub vendor: Seq<char>,
    pub model: Seq<char>,
    pub name: Seq<char>,
}

impl View for Device {
    type V = DeviceView;

    open spec fn view(&self) -> DeviceView {
        DeviceView { kind: self.kind@, vendor: self.vendor@, model: self.model@, name: self.name@ }
    }
}

/// Decoding an optional device record at the start of `b`: its fields are strings
/// in the order kind, vendor, model, name, and an absent kind marks the record
/// absent, with nothing more read.
#[verifier::opaque]
pub open spec fn opt_device_step(b: Seq<u8>) -> (Result<Option<DeviceView>, Fault>, nat) {
    match opt_string_step(b) {
        (Err(f), k0) => (Err(f), k0),
        (Ok(None), k0) => (Ok(None), k0),
        (Ok(Some(kind)), k0) => match string_step(b.skip(k0 as int)) {
            (Err(f), k1) => (Err(f), k0 + k1),
            (Ok(vendor), k1) => match string_step(b.skip((k0 + k1) as int)) {
                (Err(f), k2) => (Err(f), k0 + k1 + k2),
                (Ok(model), k2) => match string_step(b.skip((k0 + k1 + k2) as int)) {
                    (Err(f), k3) => (Err(f), k0 + k1 + k2 + k3),
                    (Ok(name), k3) => (
                        Ok(Some(DeviceView { kind, vendor, model, name })),
                        k0 + k1 + k2 + k3,
                    ),
                },
            },
        },
    }
}

/// Decoding a device list at the start of `b`: records up to the first absent
/// one, which ends the list; the outcome holds the present records in order.
pub open spec fn devices_step(b: Seq<u8>) -> (Result<Seq<DeviceView>, Fault>, nat)
    decreases b.len(),
    via devices_step_decreases
{
    match opt_device_step(b) {
        (Err(f), k) => (Err(f), k),
        (Ok(None), k) => (Ok(Seq::empty()), k),
        (Ok(Some(d)), k) => match devices_step(b.skip(k as int)) {
            (Err(f), m) => (Err(f), k + m),
            (Ok(ds), m) => (Ok(seq![d] + ds), k + m),
        },
    }
}

#[via_fn]
proof fn devices_step_decreases(b: Seq<u8>) {
    lemma_device_bounds(b);
}

/// A device record reads no more than is there, and a present one reads something.
pub proof fn lemma_device_bounds(b: Seq<u8>)
    ensures
        opt_device_step(b).1 <= b.len(),
        opt_device_step(b).0 matches Ok(Some(_)) ==> opt_device_step(b).1 > 0,
{
    reveal(opt_device_step);
}

/// The records of an optional device, as views.
pub open spec fn opt_device_view(o: Option<Device>) -> Option<DeviceView> {
    match o {
        Some(d) => Some(d@),
        None => None,
    }
}

/// The present entries of `s`, in order.
pub open spec fn present<T>(s: Seq<Option<T>>) -> Seq<T>
    decreases s.len(),
{
    if s.len() == 0 {
        Seq::empty()
    } else {
        match s[0] {
            Some(x) => seq![x] + present(s.skip(1)),
            None => present(s.skip(1)),
        }
    }
}

/// A list of entries that are all present but the last, which is absent.
pub open spec fn terminated<T>(s: Seq<Option<T>>) -> bool {
    &&& s.len() > 0
    &&& s.last() is None
    &&& forall|i: int| 0 <= i < s.len() - 1 ==> (#[trigger] s[i]) is Some
}

/// The views of a sequence of devices.
pub open spec fn device_views(s: Seq<Device>) -> Seq<DeviceView> {
    s.map_values(|d: Device| d@)
}

/// The outcome of reading the records `ds` in `c` bytes and then a list with outcome `s`.
pub open spec fn devices_after(ds: Seq<DeviceView>, c: nat, s: (Result<Seq<DeviceView>, Fault>, nat)) -> (
    Result<Seq<DeviceView>, Fault>,
    nat,
) {
    match s.0 {
        Ok(t) => (Ok(ds + t), c + s.1),
        Err(f) => (Err(f), c + s.1),
    }
}

/// The wire form of a device record.
pub open spec fn device_bytes(d: DeviceView) -> Seq<u8> {
    string_bytes(d.kind) + string_bytes(d.vendor) + string_bytes(d.model) + string_bytes(d.name)
}

/// The wire form of a sequence of device records, without the end marker.
pub open spec fn devices_bytes(ds: Seq<DeviceView>) -> Seq<u8>
    decreases ds.len(),
{
    if ds.len() == 0 {
        Seq::empty()
    } else {
        device_bytes(ds[0]) + devices_bytes(ds.skip(1))
    }
}

/// A record that can be sent as a present one: each field fits its length field,
/// and the kind is not empty, which would mark the record absent.
pub open spec fn sendable(d: DeviceView) -> bool {
    &&& fits_wire(d.kind)
    &&& fits_wire(d.vendor)
    &&& fits_wire(d.model)
    &&& fits_wire(d.name)
    &&& d.kind.len() > 0
}

/// A sendable record decodes to itself, reading exactly its wire form.
pub proof fn lemma_device_round_trip(d: DeviceView, tail: Seq<u8>)
    requires
        sendable(d),
    ensures
        opt_device_step(device_bytes(d) + tail) == (Ok::<Option<DeviceView>, Fault>(Some(d)), device_bytes(d).len()),
{
    let (a, v, m, n) = (string_bytes(d.kind), string_bytes(d.vendor), string_bytes(d.model), string_bytes(d.name));
    let b = device_bytes(d) + tail;
    let b1 = b.skip(a.len() as int);
    let b2 = b.skip((a.len() + v.len()) as int);
    let b3 = b.skip((a.len() + v.len() + m.len()) as int);
    assert(b =~= a + (v + m + n + tail));
    assert(b1 =~= v + (m + n + tail));
    assert(b2 =~= m + (n + tail));
    assert(b3 =~= n + tail);
    lemma_opt_string_present(d.kind, v + m + n + tail);
    lemma_string_round_trip(d.vendor, m + n + tail);
    lemma_string_round_trip(d.model, n + tail);
    lemma_string_round_trip(d.name, tail);
    reveal(opt_device_step);
    assert(opt_string_step(b) == (Ok::<Option<Seq<char>>, Fault>(Some(d.kind)), a.len()));
    assert(string_step(b1) == (Ok::<Seq<char>, Fault>(d.vendor), v.len()));
    assert(string_step(b2) == (Ok::<Seq<char>, Fault>(d.model), m.len()));
    assert(string_step(b3) == (Ok::<Seq<char>, Fault>(d.name), n.len()));
}

/// Sendable records followed by the end marker decode to those records, reading
/// exactly their wire form and the marker.
pub proof fn lemma_devices_round_trip(ds: Seq<DeviceView>, tail: Seq<u8>)
    requires
        forall|i: int| 0 <= i < ds.len() ==> sendable(#[trigger] ds[i]),
    ensures
        devices_step(devices_bytes(ds) + word_bytes(0) + tail) == (
            Ok::<Seq<DeviceView>, Fault>(ds),
            devices_bytes(ds).len() + 4,
        ),
    decreases ds.len(),
{
    let b = devices_bytes(ds) + word_bytes(0) + tail;
    if ds.len() == 0 {
        assert(b =~= word_bytes(0) + tail);
        lemma_opt_string_absent(tail);
        reveal(opt_device_step);
        assert(opt_device_step(b) == (Ok::<Option<DeviceView>, Fault>(None), 4nat));
        assert(ds =~= Seq::<DeviceView>::empty());
    } else {
        let rest = devices_bytes(ds.skip(1)) + word_bytes(0) + tail;
        assert(b =~= device_bytes(ds[0]) + rest);
        lemma_device_round_trip(ds[0], rest);
        assert(b.skip(device_bytes(ds[0]).len() as int) =~= rest);
        lemma_devices_round_trip(ds.skip(1), tail);
        assert(seq![ds[0]] + ds.skip(1) =~= ds);
        assert(devices_bytes(ds).len() == device_bytes(ds[0]).len() + devices_bytes(ds.skip(1)).len());
    }
}

/// Reads one optional device record.
pub fn read_opt_device(stream: &mut ByteStream) -> (r: Result<Option<Device>, Error>)
    requires
        old(stream).wf(),
    ensures
        match opt_device_step(old(stream).rest()).0 {
            Ok(o) => r matches Ok(x) && opt_device_view(x) == o,
            Err(f) => fails_with(r, f),
        },
        final(stream).advanced(old(stream), opt_device_step(old(stream).rest()).1),
{
    let ghost b = old(stream).rest();
    proof {
        reveal(opt_device_step);
    }
    let kind = stream.read_opt_string()?;
    let ghost k0 = opt_string_step(b).1;
    let kind = match kind {
        None => {
            return Ok(None);
        },
        Some(kind) => kind,
    };
    let ghost s0 = *stream;
    proof {
        s0.lemma_rest_after(old(stream), k0);
    }
    let vendor = stream.read_string()?;
    let ghost k1 = string_step(b.skip(k0 as int)).1;
    let ghost s1 = *stream;
    proof {
        s1.lemma_rest_after(&s0, k1);
        assert(b.skip(k0 as int).skip(k1 as int) =~= b.skip((k0 + k1) as int));
    }
    let model = stream.read_string()?;
    let ghost k2 = string_step(b.skip((k0 + k1) as int)).1;
    let ghost s2 = *stream;
    proof {
        s2.lemma_rest_after(&s1, k2);
        assert(b.skip((k0 + k1) as int).skip(k2 as int) =~= b.skip((k0 + k1 + k2) as int));
    }
    let name = stream.read_string()?;
    Ok(Some(Device { kind, vendor, model, name }))
}

/// Reads device records up to and including the first absent one, which ends
/// the list; nothing after it is read.
pub fn read_device_array(stream: &mut ByteStream) -> (r: Result<Vec<Option<Device>>, Error>)
    requires
        old(stream).wf(),
    ensures
        match devices_step(old(stream).rest()).0 {
            Ok(ds) => r matches Ok(v) && terminated(v@) && device_views(present(v@)) == ds,
            Err(f) => fails_with(r, f),
        },
        final(stream).advanced(old(stream), devices_step(old(stream).rest()).1),
{
    let ghost b = old(stream).rest();
    let mut items: Vec<Option<Device>> = Vec::new();
    let ghost mut c: nat = 0;
    proof {
        assert(devices_step(b) == devices_after(Seq::empty(), 0, devices_step(b))) by {
            let t = devices_step(b).0;
            if t is Ok {
                assert(Seq::<DeviceView>::empty() + t->Ok_0 =~= t->Ok_0);
            }
        }
        assert(stream.rest() =~= b.skip(0));
    }
    loop
        invariant
            old(stream).wf(),
            b == old(stream).rest(),
            stream.advanced(old(stream), c),
            stream.rest() == b.skip(c as int),
            forall|i: int| 0 <= i < items@.len() ==> (#[trigger] items@[i]) is Some,
            devices_step(b) == devices_after(device_views(present(items@)), c, devices_step(stream.rest())),
        decreases stream.rest().len(),
    {
        let ghost s0 = *stream;
        let ghost st = opt_device_step(s0.rest());
        let ghost prev = items@;
        let entry = read_opt_device(stream);
        proof {
            stream.lemma_rest_after(&s0, st.1);
            assert(b.skip(c as int).skip(st.1 as int) =~= b.skip((c + st.1) as int));
            lemma_device_bounds(s0.rest());
        }
        match entry {
            Err(e) => {
                return Err(e);
            },
            Ok(None) => {
                items.push(None);
                proof {
                    lemma_present_push_none(prev);
                    lemma_devices_end(s0.rest(), device_views(present(prev)), c, st.1);
                    assert(items@ == prev.push(None));
                }
                return Ok(items);
            },
            Ok(Some(d)) => {
                items.push(Some(d));
                proof {
                    lemma_present_push_some(prev, d);
                    lemma_devices_next(s0.rest(), device_views(present(prev)), c, d@, st.1);
                    assert(device_views(present(prev).push(d)) =~= device_views(present(prev)).push(d@));
                    assert(items@ == prev.push(Some(d)));
                    c = c + st.1;
                }
            },
        }
    }
}

/// The present entries of `list`, in order.
pub fn keep_present<T>(list: Vec<Option<T>>) -> (r: Vec<T>)
    ensures
        r@ == present(list@),
{
    let mut rest = list;
    let mut out: Vec<T> = Vec::new();
    proof {
        assert(present(list@) =~= Seq::<T>::empty() + present(list@));
    }
    while rest.len() > 0
        invariant
            present(list@) == out@ + present(rest@),
        decreases rest@.len(),
    {
        let ghost before = rest@;
        let entry = rest.remove(0);
        proof {
            assert(rest@ =~= before.skip(1));
        }
        match entry {
            Some(x) => {
                proof {
                    assert(out@ + (seq![x] + present(rest@)) =~= out@.push(x) + present(rest@));
                }
                out.push(x);
            },
            None => {},
        }
    }
    proof {
        assert(out@ + present(rest@) =~= out@);
    }
    out
}

pub proof fn lemma_present_push_none<T>(s: Seq<Option<T>>)
    ensures
        present(s.push(None)) == present(s),
    decreases s.len(),
{
    let t = s.push(None);
    assert(t[0] == if s.len() > 0 { s[0] } else { None });
    if s.len() > 0 {
        assert(t.skip(1) =~= s.skip(1).push(None));
        lemma_present_push_none(s.skip(1));
    } else {
        assert(t.skip(1) =~= Seq::<Option<T>>::empty());
        assert(present(t.skip(1)) == Seq::<T>::empty());
    }
}

pub proof fn lemma_present_push_some<T>(s: Seq<Option<T>>, x: T)
    ensures
        present(s.push(Some(x))) == present(s).push(x),
    decreases s.len(),
{
    let t = s.push(Some(x));
    assert(t[0] == if s.len() > 0 { s[0] } else { Some(x) });
    if s.len() > 0 {
        assert(t.skip(1) =~= s.skip(1).push(Some(x)));
        lemma_present_push_some(s.skip(1), x);
        match s[0] {
            Some(y) => {
                assert(seq![y] + present(s.skip(1)).push(x) =~= (seq![y] + present(s.skip(1))).push(x));
            },
            None => {},
        }
    } else {
        assert(t.skip(1) =~= Seq::<Option<T>>::empty());
        assert(present(t.skip(1)) == Seq::<T>::empty());
        assert(seq![x] + Seq::<T>::empty() =~= Seq::<T>::empty().push(x));
    }
}

/// One more present record: the list outcome seen from before it.
proof fn lemma_devices_next(b: Seq<u8>, ds: Seq<DeviceView>, c: nat, d: DeviceView, k: nat)
    requires
        opt_device_step(b) == (Ok::<Option<DeviceView>, Fault>(Some(d)), k),
    ensures
        devices_after(ds, c, devices_step(b)) == devices_after(ds.push(d), c + k, devices_step(b.skip(k as int))),
{
    let t = devices_step(b.skip(k as int));
    if t.0 is Ok {
        assert(ds + (seq![d] + t.0->Ok_0) =~= ds.push(d) + t.0->Ok_0);
    }
}

/// The absent record that ends a list: the list outcome seen from before it.
proof fn lemma_devices_end(b: Seq<u8>, ds: Seq<DeviceView>, c: nat, k: nat)
    requires
        opt_device_step(b) == (Ok::<Option<DeviceView>, Fault>(None), k),
    ensures
        devices_after(ds, c, devices_step(b)) == (Ok::<Seq<DeviceView>, Fault>(ds), c + k),
{
    assert(ds + Seq::<DeviceView>::empty() =~= ds);
}

} // verus!
