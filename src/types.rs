use vstd::prelude::*;

use crate::device::{lemma_present_push_none, lemma_present_push_some, present, terminated};
use crate::error::{fails_with, Error, Fault};
use crate::wire::{opt_string_step, signed_value, string_step, ByteStream};

verus! {

/// The type of an option's value.
#[derive(Debug, Clone, Copy, PartialEq, Eq, Structural)]
pub enum ValueType {
    Bool,
    Int,
    Fixed,
    Text,
    Button,
    Group,
    Other(i32),
}

pub open spec fn value_type_of(code: i32) -> ValueType {
    if code == 0 {
        ValueType::Bool
    } else if code == 1 {
        ValueType::Int
    } else if code == 2 {
        ValueType::Fixed
    } else if code == 3 {
        ValueType::Text
    } else if code == 4 {
        ValueType::Button
    } else if code == 5 {
        ValueType::Group
    } else {
        ValueType::Other(code)
    }
}

impl ValueType {
    pub fn from_code(code: i32) -> (r: ValueType)
        ensures
            r == value_type_of(code),
    {
        match code {
            0 => ValueType::Bool,
            1 => ValueType::Int,
            2 => ValueType::Fixed,
            3 => ValueType::Text,
            4 => ValueType::Button,
            5 => ValueType::Group,
            other => ValueType::Other(other),
        }
    }
}

/// The physical unit of an option's value.
#[derive(Debug, Clone, Copy, PartialEq, Eq, Structural)]
pub enum Unit {
    Unitless,
    Pixel,
    Bit,
    Mm,
    Dpi,
    Percent,
    Microsecond,
    Other(i32),
}

pub open spec fn unit_of(code: i32) -> Unit {
    if code == 0 {
        Unit::Unitless
    } else if code == 1 {
        Unit::Pixel
    } else if code == 2 {
        Unit::Bit
    } else if code == 3 {
        Unit::Mm
    } else if code == 4 {
        Unit::Dpi
    } else if code == 5 {
        Unit::Percent
    } else if code == 6 {
        Unit::Microsecond
    } else {
        Unit::Other(code)
    }
}

impl Unit {
    pub fn from_code(code: i32) -> (r: Unit)
        ensures
            r == unit_of(code),
    {
        match code {
            0 => Unit::Unitless,
            1 => Unit::Pixel,
            2 => Unit::Bit,
            3 => Unit::Mm,
            4 => Unit::Dpi,
            5 => Unit::Percent,
            6 => Unit::Microsecond,
            other => Unit::Other(other),
        }
    }
}

/// The values an option may take.
#[derive(Debug)]
pub enum Constraint {
    Unconstrained,
    Range { min: i32, max: i32, quant: i32 },
    WordList(Vec<i32>),
    StringList(Vec<String>),
}

pub enum ConstraintView {
    Unconstrained,
    Range { min: i32, max: i32, quant: i32 },
    WordList(Seq<i32>),
    StringList(Seq<Seq<char>>),
}

impl View for Constraint {
    type V = ConstraintView;

    open spec fn view(&self) -> ConstraintView {
        match self {
            Constraint::Unconstrained => ConstraintView::Unconstrained,
            Constraint::Range { min, max, quant } => ConstraintView::Range {
                min: *min,
                max: *max,
                quant: *quant,
            },
            Constraint::WordList(v) => ConstraintView::WordList(v@),
            Constraint::StringList(v) => ConstraintView::StringList(v@.map_values(|s: String| s@)),
        }
    }
}

/// What a device says of one of its options.
#[derive(Debug)]
pub struct OptionDescriptor {
    pub name: String,
    pub title: String,
    pub desc: String,
    pub value_type: ValueType,
    pub unit: Unit,
    pub size: i32,
    pub cap: i32,
    pub constraint: Constraint,
}

pub struct DescriptorView {
    pub name: Seq<char>,
    pub title: Seq<char>,
    pub desc: Seq<char>,
    pub value_type: ValueType,
    pub unit: Unit,
    pub size: i32,
    pub cap: i32,
    pub constraint: ConstraintView,
}

impl View for OptionDescriptor {
    type V = DescriptorView;

    open spec fn view(&self) -> DescriptorView {
        DescriptorView {
            name: self.name@,
            title: self.title@,
            desc: self.desc@,
            value_type: self.value_type,
            unit: self.unit,
            size: self.size,
            cap: self.cap,
            constraint: self.constraint@,
        }
    }
}

/// The signed words at the start of `b`, `n` of them.
pub open spec fn words_at(b: Seq<u8>, n: nat) -> Seq<i32> {
    Seq::new(n, |i: int| signed_value(b.skip(4 * i)) as i32)
}

/// Decoding `n` strings in a row at the start of `b`.
pub open spec fn strings_step(b: Seq<u8>, n: nat) -> (Result<Seq<Seq<char>>, Fault>, nat)
    decreases n,
{
    if n == 0 {
        (Ok(Seq::empty()), 0)
    } else {
        match string_step(b) {
            (Err(f), k) => (Err(f), k),
            (Ok(t), k) => match strings_step(b.skip(k as int), (n - 1) as nat) {
                (Err(f), m) => (Err(f), k + m),
                (Ok(ts), m) => (Ok(seq![t] + ts), k + m),
            },
        }
    }
}

/// Decoding a constraint of kind `kind` at the start of `b`: none for kind 0; for
/// kind 1 a range of three words; for kinds 2 and 3 a count and as many words or
/// strings. Other kinds and negative counts are malformed.
pub open spec fn constraint_step(b: Seq<u8>, kind: i32) -> (Result<ConstraintView, Fault>, nat) {
    if kind == 0 {
        (Ok(ConstraintView::Unconstrained), 0)
    } else if kind == 1 {
        if b.len() < 12 {
            (Err(Fault::Truncated), 0)
        } else {
            (
                Ok(
                    ConstraintView::Range {
                        min: signed_value(b) as i32,
                        max: signed_value(b.skip(4)) as i32,
                        quant: signed_value(b.skip(8)) as i32,
                    },
                ),
                12,
            )
        }
    } else if kind == 2 || kind == 3 {
        if b.len() < 4 {
            (Err(Fault::Truncated), 0)
        } else if signed_value(b) < 0 {
            (Err(Fault::Malformed), 4)
        } else if kind == 2 {
            if b.len() < 4 + 4 * signed_value(b) {
                (Err(Fault::Truncated), 4)
            } else {
                (
                    Ok(ConstraintView::WordList(words_at(b.skip(4), signed_value(b) as nat))),
                    (4 + 4 * signed_value(b)) as nat,
                )
            }
        } else {
            match strings_step(b.skip(4), signed_value(b) as nat) {
                (Err(f), m) => (Err(f), 4 + m),
                (Ok(ts), m) => (Ok(ConstraintView::StringList(ts)), 4 + m),
            }
        }
    } else {
        (Err(Fault::Malformed), 0)
    }
}

/// The views of a sequence of strings.
pub open spec fn texts(s: Seq<String>) -> Seq<Seq<char>> {
    s.map_values(|t: String| t@)
}

/// Reads `n` signed words, all of which are there.
fn read_words(stream: &mut ByteStream, n: i32) -> (r: Result<Vec<i32>, Error>)
    requires
        old(stream).wf(),
        n >= 0,
        old(stream).rest().len() >= 4 * n,
    ensures
        r matches Ok(v) && v@ == words_at(old(stream).rest(), n as nat),
        final(stream).advanced(old(stream), (4 * n) as nat),
{
    let ghost b = old(stream).rest();
    let mut out: Vec<i32> = Vec::new();
    let mut i: i32 = 0;
    proof {
        assert(stream.rest() =~= b.skip(0));
    }
    while i < n
        invariant
            0 <= i <= n,
            old(stream).wf(),
            b == old(stream).rest(),
            b.len() >= 4 * n,
            stream.advanced(old(stream), (4 * i) as nat),
            stream.rest() == b.skip(4 * i),
            out@ == words_at(b, i as nat),
        decreases n - i,
    {
        let ghost s0 = *stream;
        let w = stream.read_i32()?;
        proof {
            stream.lemma_rest_after(&s0, 4);
            assert(b.skip(4 * i).skip(4) =~= b.skip(4 * (i + 1)));
        }
        out.push(w);
        i = i + 1;
        proof {
            assert(out@ =~= words_at(b, i as nat));
        }
    }
    Ok(out)
}

/// The outcome of reading the strings `ts` in `c` bytes and then strings with outcome `s`.
pub open spec fn strings_after(ts: Seq<Seq<char>>, c: nat, s: (Result<Seq<Seq<char>>, Fault>, nat)) -> (
    Result<Seq<Seq<char>>, Fault>,
    nat,
) {
    match s.0 {
        Ok(t) => (Ok(ts + t), c + s.1),
        Err(f) => (Err(f), c + s.1),
    }
}

/// Reads `n` strings in a row.
fn read_strings(stream: &mut ByteStream, n: i32) -> (r: Result<Vec<String>, Error>)
    requires
        old(stream).wf(),
        n >= 0,
    ensures
        match strings_step(old(stream).rest(), n as nat).0 {
            Ok(ts) => r matches Ok(v) && texts(v@) == ts,
            Err(f) => fails_with(r, f),
        },
        final(stream).advanced(old(stream), strings_step(old(stream).rest(), n as nat).1),
{
    let ghost b = old(stream).rest();
    let mut out: Vec<String> = Vec::new();
    let mut i: i32 = 0;
    let ghost mut c: nat = 0;
    proof {
        assert(stream.rest() =~= b.skip(0));
        let t = strings_step(b, n as nat);
        if t.0 is Ok {
            assert(Seq::<Seq<char>>::empty() + t.0->Ok_0 =~= t.0->Ok_0);
        }
        assert(texts(out@) =~= Seq::<Seq<char>>::empty());
    }
    while i < n
        invariant
            0 <= i <= n,
            old(stream).wf(),
            b == old(stream).rest(),
            stream.advanced(old(stream), c),
            stream.rest() == b.skip(c as int),
            strings_step(b, n as nat) == strings_after(texts(out@), c, strings_step(stream.rest(), (n - i) as nat)),
        decreases n - i,
    {
        let ghost s0 = *stream;
        let ghost st = string_step(s0.rest());
        let ghost prev = out@;
        let t = stream.read_string()?;
        proof {
            stream.lemma_rest_after(&s0, st.1);
            assert(b.skip(c as int).skip(st.1 as int) =~= b.skip((c + st.1) as int));
            let tail = strings_step(stream.rest(), (n - i - 1) as nat);
            if tail.0 is Ok {
                assert(texts(prev) + (seq![t@] + tail.0->Ok_0) =~= texts(prev).push(t@) + tail.0->Ok_0);
            }
        }
        out.push(t);
        i = i + 1;
        proof {
            assert(texts(out@) =~= texts(prev).push(out@.last()@));
            c = c + st.1;
        }
    }
    proof {
        assert(texts(out@) + Seq::<Seq<char>>::empty() =~= texts(out@));
    }
    Ok(out)
}

/// Reads a constraint of kind `kind`.
fn read_constraint(stream: &mut ByteStream, kind: i32) -> (r: Result<Constraint, Error>)
    requires
        old(stream).wf(),
    ensures
        match constraint_step(old(stream).rest(), kind).0 {
            Ok(v) => r matches Ok(x) && x@ == v,
            Err(f) => fails_with(r, f),
        },
        final(stream).advanced(old(stream), constraint_step(old(stream).rest(), kind).1),
{
    let ghost b = old(stream).rest();
    if kind == 0 {
        return Ok(Constraint::Unconstrained);
    }
    if kind == 1 {
        if stream.remaining() < 12 {
            return Err(Error::Truncated);
        }
        let ghost s0 = *stream;
        let min = stream.read_i32()?;
        let ghost s1 = *stream;
        proof {
            s1.lemma_rest_after(&s0, 4);
        }
        let max = stream.read_i32()?;
        let ghost s2 = *stream;
        proof {
            s2.lemma_rest_after(&s0, 8);
        }
        let quant = stream.read_i32()?;
        return Ok(Constraint::Range { min, max, quant });
    }
    if kind != 2 && kind != 3 {
        return Err(Error::BadNetworkDataError("unknown constraint kind".to_owned()));
    }
    let ghost s0 = *stream;
    let count = stream.read_i32()?;
    if count < 0 {
        return Err(Error::BadNetworkDataError("negative element count".to_owned()));
    }
    let ghost s1 = *stream;
    proof {
        s1.lemma_rest_after(&s0, 4);
    }
    if kind == 2 {
        if stream.remaining() / 4 < count as usize {
            return Err(Error::Truncated);
        }
        let words = read_words(stream, count)?;
        Ok(Constraint::WordList(words))
    } else {
        let strings = read_strings(stream, count)?;
        Ok(Constraint::StringList(strings))
    }
}

/// Decoding the fixed words and the constraint of a descriptor whose strings are
/// `name`, `title` and `desc`, `w` starting at its type word.
pub open spec fn descriptor_tail(
    w: Seq<u8>,
    name: Seq<char>,
    title: Seq<char>,
    desc: Seq<char>,
) -> (Result<Option<DescriptorView>, Fault>, nat) {
    if w.len() < 20 {
        (Err(Fault::Truncated), 0)
    } else {
        match constraint_step(w.skip(20), signed_value(w.skip(16)) as i32) {
            (Err(f), m) => (Err(f), 20 + m),
            (Ok(constraint), m) => (
                Ok(
                    Some(
                        DescriptorView {
                            name,
                            title,
                            desc,
                            value_type: value_type_of(signed_value(w) as i32),
                            unit: unit_of(signed_value(w.skip(4)) as i32),
                            size: signed_value(w.skip(8)) as i32,
                            cap: signed_value(w.skip(12)) as i32,
                            constraint,
                        },
                    ),
                ),
                20 + m,
            ),
        }
    }
}

/// Decoding an optional option descriptor at the start of `b`: the strings name,
/// title and description, the words type, unit, size, capabilities and constraint
/// kind, then the constraint. An absent name marks the record absent, with
/// nothing more read.
pub open spec fn opt_descriptor_step(b: Seq<u8>) -> (Result<Option<DescriptorView>, Fault>, nat) {
    match opt_string_step(b) {
        (Err(f), k0) => (Err(f), k0),
        (Ok(None), k0) => (Ok(None), k0),
        (Ok(Some(name)), k0) => match string_step(b.skip(k0 as int)) {
            (Err(f), k1) => (Err(f), k0 + k1),
            (Ok(title), k1) => match string_step(b.skip((k0 + k1) as int)) {
                (Err(f), k2) => (Err(f), k0 + k1 + k2),
                (Ok(desc), k2) => {
                    let t = descriptor_tail(b.skip((k0 + k1 + k2) as int), name, title, desc);
                    (t.0, k0 + k1 + k2 + t.1)
                },
            },
        },
    }
}

/// Decoding a descriptor list at the start of `b`: records up to the first absent
/// one, which ends the list; the outcome holds the present records in order.
pub open spec fn descriptors_step(b: Seq<u8>) -> (Result<Seq<DescriptorView>, Fault>, nat)
    decreases b.len(),
    via descriptors_step_decreases
{
    match opt_descriptor_step(b) {
        (Err(f), k) => (Err(f), k),
        (Ok(None), k) => (Ok(Seq::empty()), k),
        (Ok(Some(d)), k) => match descriptors_step(b.skip(k as int)) {
            (Err(f), m) => (Err(f), k + m),
            (Ok(ds), m) => (Ok(seq![d] + ds), k + m),
        },
    }
}

#[via_fn]
proof fn descriptors_step_decreases(b: Seq<u8>) {
    lemma_descriptor_bounds(b);
}

proof fn lemma_strings_bounds(b: Seq<u8>, n: nat)
    ensures
        strings_step(b, n).1 <= b.len(),
    decreases n,
{
    if n > 0 {
        let k = string_step(b).1;
        if string_step(b).0 is Ok {
            lemma_strings_bounds(b.skip(k as int), (n - 1) as nat);
        }
    }
}

/// A descriptor reads no more than is there, and a present one reads something.
proof fn lemma_descriptor_bounds(b: Seq<u8>)
    ensures
        opt_descriptor_step(b).1 <= b.len(),
        opt_descriptor_step(b).0 matches Ok(Some(_)) ==> opt_descriptor_step(b).1 > 0,
{
    let k0 = opt_string_step(b).1;
    if opt_string_step(b).0 matches Ok(Some(_)) {
        let k1 = string_step(b.skip(k0 as int)).1;
        if string_step(b.skip(k0 as int)).0 is Ok {
            let k2 = string_step(b.skip((k0 + k1) as int)).1;
            if string_step(b.skip((k0 + k1) as int)).0 is Ok {
                let w = b.skip((k0 + k1 + k2) as int);
                if w.len() >= 20 {
                    let c = w.skip(20);
                    let kind = signed_value(w.skip(16)) as i32;
                    if kind == 3 && c.len() >= 4 && signed_value(c) >= 0 {
                        lemma_strings_bounds(c.skip(4), signed_value(c) as nat);
                    }
                }
            }
        }
    }
}

pub open spec fn opt_descriptor_view(o: Option<OptionDescriptor>) -> Option<DescriptorView> {
    match o {
        Some(d) => Some(d@),
        None => None,
    }
}

/// The views of a sequence of descriptors.
pub open spec fn descriptor_views(s: Seq<OptionDescriptor>) -> Seq<DescriptorView> {
    s.map_values(|d: OptionDescriptor| d@)
}

/// Reads one optional option descriptor.
pub fn read_opt_descriptor(stream: &mut ByteStream) -> (r: Result<Option<OptionDescriptor>, Error>)
    requires
        old(stream).wf(),
    ensures
        match opt_descriptor_step(old(stream).rest()).0 {
            Ok(o) => r matches Ok(x) && opt_descriptor_view(x) == o,
            Err(f) => fails_with(r, f),
        },
        final(stream).advanced(old(stream), opt_descriptor_step(old(stream).rest()).1),
{
    let ghost b = old(stream).rest();
    let name = stream.read_opt_string()?;
    let ghost k0 = opt_string_step(b).1;
    let name = match name {
        None => {
            return Ok(None);
        },
        Some(name) => name,
    };
    let ghost s0 = *stream;
    proof {
        s0.lemma_rest_after(old(stream), k0);
    }
    let title = stream.read_string()?;
    let ghost k1 = string_step(b.skip(k0 as int)).1;
    let ghost s1 = *stream;
    proof {
        s1.lemma_rest_after(&s0, k1);
        assert(b.skip(k0 as int).skip(k1 as int) =~= b.skip((k0 + k1) as int));
    }
    let desc = stream.read_string()?;
    let ghost k2 = string_step(b.skip((k0 + k1) as int)).1;
    let ghost s2 = *stream;
    proof {
        s2.lemma_rest_after(&s1, k2);
        assert(b.skip((k0 + k1) as int).skip(k2 as int) =~= b.skip((k0 + k1 + k2) as int));
    }
    if stream.remaining() < 20 {
        return Err(Error::Truncated);
    }
    let value_type = stream.read_i32()?;
    let ghost s3 = *stream;
    proof {
        s3.lemma_rest_after(&s2, 4);
    }
    let unit = stream.read_i32()?;
    let ghost s4 = *stream;
    proof {
        s4.lemma_rest_after(&s2, 8);
    }
    let size = stream.read_i32()?;
    let ghost s5 = *stream;
    proof {
        s5.lemma_rest_after(&s2, 12);
    }
    let cap = stream.read_i32()?;
    let ghost s6 = *stream;
    proof {
        s6.lemma_rest_after(&s2, 16);
    }
    let kind = stream.read_i32()?;
    let ghost s7 = *stream;
    proof {
        s7.lemma_rest_after(&s2, 20);
    }
    let constraint = read_constraint(stream, kind)?;
    Ok(
        Some(
            OptionDescriptor {
                name,
                title,
                desc,
                value_type: ValueType::from_code(value_type),
                unit: Unit::from_code(unit),
                size,
                cap,
                constraint,
            },
        ),
    )
}

/// The outcome of reading the records `ds` in `c` bytes and then a list with outcome `s`.
pub open spec fn descriptors_after(
    ds: Seq<DescriptorView>,
    c: nat,
    s: (Result<Seq<DescriptorView>, Fault>, nat),
) -> (Result<Seq<DescriptorView>, Fault>, nat) {
    match s.0 {
        Ok(t) => (Ok(ds + t), c + s.1),
        Err(f) => (Err(f), c + s.1),
    }
}

proof fn lemma_descriptors_next(b: Seq<u8>, ds: Seq<DescriptorView>, c: nat, d: DescriptorView, k: nat)
    requires
        opt_descriptor_step(b) == (Ok::<Option<DescriptorView>, Fault>(Some(d)), k),
    ensures
        descriptors_after(ds, c, descriptors_step(b)) == descriptors_after(
            ds.push(d),
            c + k,
            descriptors_step(b.skip(k as int)),
        ),
{
    let t = descriptors_step(b.skip(k as int));
    if t.0 is Ok {
        assert(ds + (seq![d] + t.0->Ok_0) =~= ds.push(d) + t.0->Ok_0);
    }
}

proof fn lemma_descriptors_end(b: Seq<u8>, ds: Seq<DescriptorView>, c: nat, k: nat)
    requires
        opt_descriptor_step(b) == (Ok::<Option<DescriptorView>, Fault>(None), k),
    ensures
        descriptors_after(ds, c, descriptors_step(b)) == (Ok::<Seq<DescriptorView>, Fault>(ds), c + k),
{
    assert(ds + Seq::<DescriptorView>::empty() =~= ds);
}

/// Reads option descriptors up to and including the first absent one, which
/// ends the list; nothing after it is read.
pub fn read_descriptor_array(stream: &mut ByteStream) -> (r: Result<Vec<Option<OptionDescriptor>>, Error>)
    requires
        old(stream).wf(),
    ensures
        match descriptors_step(old(stream).rest()).0 {
            Ok(ds) => r matches Ok(v) && terminated(v@) && descriptor_views(present(v@)) == ds,
            Err(f) => fails_with(r, f),
        },
        final(stream).advanced(old(stream), descriptors_step(old(stream).rest()).1),
{
    let ghost b = old(stream).rest();
    let mut items: Vec<Option<OptionDescriptor>> = Vec::new();
    let ghost mut c: nat = 0;
    proof {
        assert(descriptors_step(b) == descriptors_after(Seq::empty(), 0, descriptors_step(b))) by {
            let t = descriptors_step(b).0;
            if t is Ok {
                assert(Seq::<DescriptorView>::empty() + t->Ok_0 =~= t->Ok_0);
            }
        }
        assert(stream.rest() =~= b.skip(0));
    }
    loop
        invariant
            old(stream).wf(),
            b == old(stream).rest(),
            stream.advanced(old(stream), c),
            stream.rest() == b.skip(c as int),
            forall|i: int| 0 <= i < items@.len() ==> (#[trigger] items@[i]) is Some,
            descriptors_step(b) == descriptors_after(
                descriptor_views(present(items@)),
                c,
                descriptors_step(stream.rest()),
            ),
        decreases stream.rest().len(),
    {
        let ghost s0 = *stream;
        let ghost st = opt_descriptor_step(s0.rest());
        let ghost prev = items@;
        let entry = read_opt_descriptor(stream);
        proof {
            stream.lemma_rest_after(&s0, st.1);
            assert(b.skip(c as int).skip(st.1 as int) =~= b.skip((c + st.1) as int));
            lemma_descriptor_bounds(s0.rest());
        }
        match entry {
            Err(e) => {
                return Err(e);
            },
            Ok(None) => {
                items.push(None);
                proof {
                    lemma_present_push_none(prev);
                    lemma_descriptors_end(s0.rest(), descriptor_views(present(prev)), c, st.1);
                    assert(items@ == prev.push(None));
                }
                return Ok(items);
            },
            Ok(Some(d)) => {
                items.push(Some(d));
                proof {
                    lemma_present_push_some(prev, d);
                    lemma_descriptors_next(s0.rest(), descriptor_views(present(prev)), c, d@, st.1);
                    assert(descriptor_views(present(prev).push(d)) =~= descriptor_views(present(prev)).push(d@));
                    assert(items@ == prev.push(Some(d)));
                    c = c + st.1;
                }
            },
        }
    }
}

} // verus!
