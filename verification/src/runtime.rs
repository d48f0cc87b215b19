//! The shared crates that every generated package crate depends on: the CDR runtime and the
//! decoding-by-schema crate, and the `decode.rs` of each package.

use crate::generator::{
    dependency_line, message_ref_views, service_ref_views, string_views,
};
use crate::parser::{camel_case, MessageType, MessageView, StructNameStyle};
use crate::render::struct_name_of;
use crate::text::{concat_map, ends_with, push_chars, push_str, strip_suffix_str};
use crate::unicode::{chars_of, string_from_chars};
use vstd::prelude::*;

verus! {

/// The source of the runtime crate's `src/lib.rs`.
pub const RUNTIME_LIB: &'static str = r##"//! The CDR decoding runtime that the generated package crates share.

/// The byte order of a CDR payload.
#[derive(Clone, Copy, Debug, PartialEq, Eq)]
pub enum Endianness {
    Big,
    Little,
}

/// A character carried as one UTF-16 code unit.
#[derive(Clone, Copy, Debug, PartialEq, Eq, PartialOrd, Ord)]
pub struct WChar16(pub char);

/// A character carried as a 32-bit code point.
#[derive(Clone, Copy, Debug, PartialEq, Eq, PartialOrd, Ord)]
pub struct WChar32(pub char);

/// Reads CDR values from the payload that follows an encapsulation header.
pub struct CdrDecoder<'a> {
    pub pos: usize,
    payload: &'a [u8],
    endianness: Endianness,
}

impl<'a> CdrDecoder<'a> {
    pub fn new(data: &'a [u8]) -> Result<Self, String> {
        if data.len() < 4 {
            return Err(format!("CdrDecoder::new: input too short, expected at least 4 bytes, got {}", data.len()));
        }
        let endianness = match u16::from_be_bytes([data[0], data[1]]) {
            0x0000 | 0x0002 => Endianness::Big,
            0x0001 | 0x0003 => Endianness::Little,
            other => return Err(format!("CdrEncoding::parse: invalid representation value {other:#06x}")),
        };
        Ok(Self { pos: 0, payload: &data[4..], endianness })
    }

    pub fn endianness(&self) -> Endianness {
        self.endianness
    }

    fn align_to(&mut self, width: usize) {
        self.pos += (width - self.pos % width) % width;
    }

    pub fn read_bytes(&mut self, length: usize) -> Result<&'a [u8], String> {
        let end = self
            .pos
            .checked_add(length)
            .ok_or_else(|| "CdrDecoder::read_bytes: length overflow".to_string())?;
        if end > self.payload.len() {
            return Err(format!(
                "CdrDecoder::read_bytes: not enough bytes, requested {}, remaining {}",
                length,
                self.payload.len().saturating_sub(self.pos)
            ));
        }
        let bytes = &self.payload[self.pos..end];
        self.pos = end;
        Ok(bytes)
    }

    fn read_fixed<const N: usize>(&mut self) -> Result<[u8; N], String> {
        self.align_to(N);
        let mut out = [0u8; N];
        out.copy_from_slice(self.read_bytes(N)?);
        if self.endianness == Endianness::Big {
            out.reverse();
        }
        Ok(out)
    }

    pub fn read_seq<T: DecodeCdr>(&mut self) -> Result<Vec<T>, String> {
        let length = u32::decode_cdr(self)? as usize;
        let mut items = Vec::with_capacity(length.min(self.payload.len()));
        for _ in 0..length {
            items.push(T::decode_cdr(self)?);
        }
        Ok(items)
    }

    pub fn read_array<T: DecodeCdr, const N: usize>(&mut self) -> Result<[T; N], String> {
        let mut items = Vec::with_capacity(N);
        for _ in 0..N {
            items.push(T::decode_cdr(self)?);
        }
        items
            .try_into()
            .map_err(|_| "CdrDecoder::read_array: failed to build fixed-size array".to_string())
    }
}

/// A value that can be read from a CDR payload.
pub trait DecodeCdr: Sized {
    fn decode_cdr(decoder: &mut CdrDecoder<'_>) -> Result<Self, String>;
}

impl DecodeCdr for u8 {
    fn decode_cdr(decoder: &mut CdrDecoder<'_>) -> Result<Self, String> {
        Ok(u8::from_le_bytes(decoder.read_fixed::<1>()?))
    }
}

impl DecodeCdr for i8 {
    fn decode_cdr(decoder: &mut CdrDecoder<'_>) -> Result<Self, String> {
        Ok(i8::from_le_bytes(decoder.read_fixed::<1>()?))
    }
}

impl DecodeCdr for u16 {
    fn decode_cdr(decoder: &mut CdrDecoder<'_>) -> Result<Self, String> {
        Ok(u16::from_le_bytes(decoder.read_fixed::<2>()?))
    }
}

impl DecodeCdr for i16 {
    fn decode_cdr(decoder: &mut CdrDecoder<'_>) -> Result<Self, String> {
        Ok(i16::from_le_bytes(decoder.read_fixed::<2>()?))
    }
}

impl DecodeCdr for u32 {
    fn decode_cdr(decoder: &mut CdrDecoder<'_>) -> Result<Self, String> {
        Ok(u32::from_le_bytes(decoder.read_fixed::<4>()?))
    }
}

impl DecodeCdr for i32 {
    fn decode_cdr(decoder: &mut CdrDecoder<'_>) -> Result<Self, String> {
        Ok(i32::from_le_bytes(decoder.read_fixed::<4>()?))
    }
}

impl DecodeCdr for u64 {
    fn decode_cdr(decoder: &mut CdrDecoder<'_>) -> Result<Self, String> {
        Ok(u64::from_le_bytes(decoder.read_fixed::<8>()?))
    }
}

impl DecodeCdr for i64 {
    fn decode_cdr(decoder: &mut CdrDecoder<'_>) -> Result<Self, String> {
        Ok(i64::from_le_bytes(decoder.read_fixed::<8>()?))
    }
}

impl DecodeCdr for f32 {
    fn decode_cdr(decoder: &mut CdrDecoder<'_>) -> Result<Self, String> {
        Ok(f32::from_le_bytes(decoder.read_fixed::<4>()?))
    }
}

impl DecodeCdr for f64 {
    fn decode_cdr(decoder: &mut CdrDecoder<'_>) -> Result<Self, String> {
        Ok(f64::from_le_bytes(decoder.read_fixed::<8>()?))
    }
}

impl DecodeCdr for bool {
    fn decode_cdr(decoder: &mut CdrDecoder<'_>) -> Result<Self, String> {
        match u8::decode_cdr(decoder)? {
            0 => Ok(false),
            1 => Ok(true),
            other => Err(format!("CdrDecoder::read_bool: invalid boolean discriminant {other}")),
        }
    }
}

impl DecodeCdr for String {
    fn decode_cdr(decoder: &mut CdrDecoder<'_>) -> Result<Self, String> {
        let length = u32::decode_cdr(decoder)? as usize;
        let bytes = decoder.read_bytes(length)?;
        let text = match bytes.split_last() {
            Some((0, rest)) => rest,
            _ => bytes,
        };
        String::from_utf8(text.to_vec())
            .map_err(|e| format!("CdrDecoder::read_string: invalid utf8: {e}"))
    }
}

impl DecodeCdr for WChar16 {
    fn decode_cdr(decoder: &mut CdrDecoder<'_>) -> Result<Self, String> {
        let value = u16::decode_cdr(decoder)? as u32;
        char::from_u32(value).map(WChar16).ok_or_else(|| {
            format!("CdrDecoder::read_wchar_u16: invalid unicode scalar value {value:#x}")
        })
    }
}

impl DecodeCdr for WChar32 {
    fn decode_cdr(decoder: &mut CdrDecoder<'_>) -> Result<Self, String> {
        let value = u32::decode_cdr(decoder)?;
        char::from_u32(value).map(WChar32).ok_or_else(|| {
            format!("CdrDecoder::read_wchar_u32: invalid unicode scalar value {value:#x}")
        })
    }
}

/// Reads one `T` from the start of the payload of a complete CDR message.
pub fn decode_from_bytes<T: DecodeCdr>(data: &[u8]) -> Result<T, String> {
    let mut decoder = CdrDecoder::new(data)?;
    T::decode_cdr(&mut decoder)
}
"##;

/// The name of the runtime crate.
pub open spec fn runtime_name() -> Seq<char> {
    "cdr-runtime"@
}

/// The name of the decoding-by-schema crate.
pub open spec fn dispatch_name() -> Seq<char> {
    "ros2-dispatch"@
}

/// The `Cargo.toml` of the runtime crate.
pub open spec fn runtime_manifest_text() -> Seq<char> {
    "[package]\n"@ + "name = \"cdr-runtime\"\n"@ + "version = \"0.1.0\"\n"@ + "edition = \"2024\"\n\n"@
        + "[dependencies]\n"@
}

/// The `src/lib.rs` of the runtime crate.
pub open spec fn runtime_lib_text() -> Seq<char> {
    RUNTIME_LIB@
}

/// A crate that is written once for all packages: its name, `Cargo.toml` and `src/lib.rs`.
pub struct CrateFiles {
    pub name: String,
    pub manifest: String,
    pub lib_rs: String,
}

impl View for CrateFiles {
    type V = (Seq<char>, Seq<char>, Seq<char>);

    open spec fn view(&self) -> (Seq<char>, Seq<char>, Seq<char>) {
        (self.name@, self.manifest@, self.lib_rs@)
    }
}

/// The runtime crate.
pub fn runtime_crate() -> (r: CrateFiles)
    ensures
        r@ == (runtime_name(), runtime_manifest_text(), runtime_lib_text()),
{
    let mut manifest: Vec<char> = Vec::new();
    push_str(&mut manifest, "[package]\n");
    push_str(&mut manifest, "name = \"cdr-runtime\"\n");
    push_str(&mut manifest, "version = \"0.1.0\"\n");
    push_str(&mut manifest, "edition = \"2024\"\n\n");
    push_str(&mut manifest, "[dependencies]\n");
    assert(manifest@ =~= runtime_manifest_text());
    CrateFiles {
        name: string_from_chars(chars_of("cdr-runtime").as_slice()),
        manifest: string_from_chars(manifest.as_slice()),
        lib_rs: string_from_chars(chars_of(RUNTIME_LIB).as_slice()),
    }
}


/// An entry of the decoding-by-schema crate: the enum variant, the schema name, the Rust path of
/// the type, and the package.
pub type EntryView = (Seq<char>, Seq<char>, Seq<char>, Seq<char>);

/// The entry of a message of package `p`.
pub open spec fn message_entry(p: Seq<char>, m: MessageView, style: StructNameStyle) -> EntryView {
    let name = struct_name_of(m.1, style);
    (camel_case(p, true) + name, p + "/msg/"@ + m.1, p + "::msg::"@ + name, p)
}

/// A service's name: the name of its request or response without the `suffix`.
pub open spec fn service_base(name: Seq<char>, suffix: Seq<char>) -> Seq<char> {
    if ends_with(name, suffix) {
        name.take(name.len() - suffix.len())
    } else {
        name
    }
}

/// The entry of the request (`suffix` `Request`) or response (`Response`) of a service of `p`.
pub open spec fn service_entry(
    p: Seq<char>,
    m: MessageView,
    suffix: Seq<char>,
    style: StructNameStyle,
) -> EntryView {
    let name = struct_name_of(m.1, style);
    (
        camel_case(p, true) + name,
        p + "/srv/"@ + service_base(m.1, suffix) + "_"@ + suffix,
        p + "::srv::"@ + name,
        p,
    )
}

/// The entries of the messages of `p`, in order.
pub open spec fn message_entries(p: Seq<char>, ms: Seq<MessageView>, style: StructNameStyle) -> Seq<
    EntryView,
>
    decreases ms.len(),
{
    if ms.len() == 0 {
        Seq::empty()
    } else {
        message_entries(p, ms.drop_last(), style).push(message_entry(p, ms.last(), style))
    }
}

/// The entries of the services of `p`: request, then response, service by service.
pub open spec fn service_entries(
    p: Seq<char>,
    ss: Seq<(MessageView, MessageView)>,
    style: StructNameStyle,
) -> Seq<EntryView>
    decreases ss.len(),
{
    if ss.len() == 0 {
        Seq::empty()
    } else {
        service_entries(p, ss.drop_last(), style).push(
            service_entry(p, ss.last().0, "Request"@, style),
        ).push(service_entry(p, ss.last().1, "Response"@, style))
    }
}

/// The entries of a package: its messages, then its services.
pub open spec fn package_entries(
    p: Seq<char>,
    ms: Seq<MessageView>,
    ss: Seq<(MessageView, MessageView)>,
    style: StructNameStyle,
) -> Seq<EntryView> {
    message_entries(p, ms, style) + service_entries(p, ss, style)
}

/// The texts that `f` gives for the entries, one after another.
pub open spec fn entries_text(es: Seq<EntryView>, f: spec_fn(EntryView) -> Seq<char>) -> Seq<char>
    decreases es.len(),
{
    if es.len() == 0 {
        Seq::empty()
    } else {
        entries_text(es.drop_last(), f) + f(es.last())
    }
}

/// The enum variant of an entry.
pub open spec fn variant_line(en: EntryView) -> Seq<char> {
    "    "@ + en.0 + "("@ + en.2 + "),\n"@
}

/// The arm of `schema_name` for an entry.
pub open spec fn schema_arm(en: EntryView) -> Seq<char> {
    "            Self::"@ + en.0 + "(_) => \""@ + en.1 + "\",\n"@
}

/// The arm of `decode_message_by_schema` for an entry.
pub open spec fn decode_arm(en: EntryView) -> Seq<char> {
    "        \""@ + en.1 + "\" => Ok(DecodedMessage::"@ + en.0 + "(\n"@ + "            "@ + en.3
        + "::decode::decode_from_bytes::<"@ + en.2 + ">(data)?,\n"@ + "        )),\n"@
}

/// The `src/lib.rs` of the decoding-by-schema crate for the entries.
pub open spec fn dispatch_lib_text(es: Seq<EntryView>) -> Seq<char> {
    "//! Decoding of the generated messages by schema name.\n\n"@ + "#[derive(Clone, Debug)]\n"@
        + "pub enum DecodedMessage {\n"@ + entries_text(es, |en: EntryView| variant_line(en))
        + "}\n\n"@ + "impl DecodedMessage {\n"@ + "    pub fn schema_name(&self) -> &'static str {\n"@
        + "        match *self {\n"@ + entries_text(es, |en: EntryView| schema_arm(en))
        + "        }\n"@ + "    }\n"@ + "}\n\n"@
        + "pub fn decode_message_by_schema(schema_name: &str, data: &[u8]) -> Result<DecodedMessage, String> {\n"@
        + "    match schema_name {\n"@ + entries_text(es, |en: EntryView| decode_arm(en))
        + "        _ => Err(format!(\"unknown schema: {schema_name}\")),\n"@ + "    }\n"@ + "}\n"@
}

/// The `Cargo.toml` of the decoding-by-schema crate, which depends on the runtime and on every
/// package crate.
pub open spec fn dispatch_manifest_text(packages: Seq<Seq<char>>) -> Seq<char> {
    "[package]\n"@ + "name = \"ros2-dispatch\"\n"@ + "version = \"0.1.0\"\n"@ + "edition = \"2024\"\n\n"@
        + "[dependencies]\n"@ + "cdr-runtime = { path = \"../cdr-runtime\" }\n"@ + concat_map(
        packages,
        |d: Seq<char>| dependency_line(d),
    )
}

/// An entry of the decoding-by-schema crate.
pub struct DispatchEntry {
    pub variant: String,
    pub schema: String,
    pub type_path: String,
    pub package: String,
}

impl View for DispatchEntry {
    type V = EntryView;

    open spec fn view(&self) -> EntryView {
        (self.variant@, self.schema@, self.type_path@, self.package@)
    }
}

/// The views of entries.
pub open spec fn entry_views(es: Seq<DispatchEntry>) -> Seq<EntryView> {
    es.map_values(|en: DispatchEntry| en@)
}

/// The entry of message `m` of `package`, or of a request or response when `suffix` is given.
fn entry_of(package: &str, m: &MessageType, suffix: Option<&str>, style: StructNameStyle) -> (r:
    DispatchEntry)
    ensures
        suffix is None ==> r@ == message_entry(package@, m@, style),
        suffix matches Some(x) ==> r@ == service_entry(package@, m@, x@, style),
{
    let name = m.struct_name(style);
    let mut variant = chars_of(m.snake_to_camel(package).as_str());
    push_str(&mut variant, name.as_str());
    let mut schema = chars_of(package);
    let mut type_path = chars_of(package);
    match suffix {
        None => {
            push_str(&mut schema, "/msg/");
            push_str(&mut schema, m.name.as_str());
            push_str(&mut type_path, "::msg::");
        },
        Some(x) => {
            push_str(&mut schema, "/srv/");
            let n = chars_of(m.name.as_str());
            match strip_suffix_str(n.as_slice(), x) {
                Some(base) => push_chars(&mut schema, base.as_slice()),
                None => push_chars(&mut schema, n.as_slice()),
            }
            push_str(&mut schema, "_");
            push_str(&mut schema, x);
            push_str(&mut type_path, "::srv::");
        },
    }
    push_str(&mut type_path, name.as_str());
    DispatchEntry {
        variant: string_from_chars(variant.as_slice()),
        schema: string_from_chars(schema.as_slice()),
        type_path: string_from_chars(type_path.as_slice()),
        package: string_from_chars(chars_of(package).as_slice()),
    }
}

/// The entries of the crate for `package`: its messages, then its services.
pub fn package_dispatch_entries(
    package: &str,
    messages: &[&MessageType],
    services: &[(&MessageType, &MessageType)],
    style: StructNameStyle,
) -> (r: Vec<DispatchEntry>)
    ensures
        entry_views(r@) == package_entries(
            package@,
            message_ref_views(messages@),
            service_ref_views(services@),
            style,
        ),
{
    let ghost ms = message_ref_views(messages@);
    let ghost ss = service_ref_views(services@);
    let mut out: Vec<DispatchEntry> = Vec::new();
    let mut i: usize = 0;
    while i < messages.len()
        invariant
            i <= messages@.len(),
            ms == message_ref_views(messages@),
            entry_views(out@) == message_entries(package@, ms.take(i as int), style),
        decreases messages@.len() - i,
    {
        let ghost before = entry_views(out@);
        out.push(entry_of(package, messages[i], None, style));
        assert(ms.take(i + 1).drop_last() =~= ms.take(i as int));
        assert(ms.take(i + 1).last() == messages@[i as int]@);
        assert(entry_views(out@) =~= before.push(message_entry(package@, ms[i as int], style)));
        i = i + 1;
    }
    assert(ms.take(messages@.len() as int) =~= ms);
    let ghost head = entry_views(out@);
    let mut j: usize = 0;
    while j < services.len()
        invariant
            j <= services@.len(),
            ss == service_ref_views(services@),
            entry_views(out@) == head + service_entries(package@, ss.take(j as int), style),
        decreases services@.len() - j,
    {
        let ghost before = entry_views(out@);
        let (request, response) = services[j];
        out.push(entry_of(package, request, Some("Request"), style));
        out.push(entry_of(package, response, Some("Response"), style));
        assert(ss.take(j + 1).drop_last() =~= ss.take(j as int));
        assert(ss.take(j + 1).last() == (request@, response@));
        assert(entry_views(out@) =~= before.push(service_entry(package@, request@, "Request"@, style)).push(
            service_entry(package@, response@, "Response"@, style),
        ));
        j = j + 1;
    }
    assert(ss.take(services@.len() as int) =~= ss);
    out
}

/// Appends the text that `f` gives for each entry.
fn push_entries(out: &mut Vec<char>, entries: &[DispatchEntry], kind: u8)
    requires
        kind < 3,
    ensures
        final(out)@ == old(out)@ + entries_text(
            entry_views(entries@),
            if kind == 0 {
                |en: EntryView| variant_line(en)
            } else if kind == 1 {
                |en: EntryView| schema_arm(en)
            } else {
                |en: EntryView| decode_arm(en)
            },
        ),
{
    let ghost f = if kind == 0 {
        |en: EntryView| variant_line(en)
    } else if kind == 1 {
        |en: EntryView| schema_arm(en)
    } else {
        |en: EntryView| decode_arm(en)
    };
    let ghost es = entry_views(entries@);
    let ghost start = out@;
    let mut i: usize = 0;
    assert(es.take(0) =~= Seq::<EntryView>::empty());
    while i < entries.len()
        invariant
            i <= entries@.len(),
            kind < 3,
            es == entry_views(entries@),
            f == (if kind == 0 {
                |en: EntryView| variant_line(en)
            } else if kind == 1 {
                |en: EntryView| schema_arm(en)
            } else {
                |en: EntryView| decode_arm(en)
            }),
            out@ == start + entries_text(es.take(i as int), f),
        decreases entries@.len() - i,
    {
        let en = &entries[i];
        let ghost before = out@;
        if kind == 0 {
            push_str(out, "    ");
            push_str(out, en.variant.as_str());
            push_str(out, "(");
            push_str(out, en.type_path.as_str());
            push_str(out, "),\n");
        } else if kind == 1 {
            push_str(out, "            Self::");
            push_str(out, en.variant.as_str());
            push_str(out, "(_) => \"");
            push_str(out, en.schema.as_str());
            push_str(out, "\",\n");
        } else {
            push_str(out, "        \"");
            push_str(out, en.schema.as_str());
            push_str(out, "\" => Ok(DecodedMessage::");
            push_str(out, en.variant.as_str());
            push_str(out, "(\n");
            push_str(out, "            ");
            push_str(out, en.package.as_str());
            push_str(out, "::decode::decode_from_bytes::<");
            push_str(out, en.type_path.as_str());
            push_str(out, ">(data)?,\n");
            push_str(out, "        )),\n");
        }
        assert(out@ =~= before + f(es[i as int]));
        assert(es.take(i + 1).drop_last() =~= es.take(i as int));
        i = i + 1;
    }
    assert(es.take(entries@.len() as int) =~= es);
}

/// The decoding-by-schema crate for the package crates `packages` and the entries.
pub fn dispatch_crate(packages: &[String], entries: &[DispatchEntry]) -> (r: CrateFiles)
    ensures
        r@ == (
            dispatch_name(),
            dispatch_manifest_text(string_views(packages@)),
            dispatch_lib_text(entry_views(entries@)),
        ),
{
    let ghost ps = string_views(packages@);
    let mut manifest: Vec<char> = Vec::new();
    push_str(&mut manifest, "[package]\n");
    push_str(&mut manifest, "name = \"ros2-dispatch\"\n");
    push_str(&mut manifest, "version = \"0.1.0\"\n");
    push_str(&mut manifest, "edition = \"2024\"\n\n");
    push_str(&mut manifest, "[dependencies]\n");
    push_str(&mut manifest, "cdr-runtime = { path = \"../cdr-runtime\" }\n");
    let ghost head = manifest@;
    let mut i: usize = 0;
    while i < packages.len()
        invariant
            i <= packages@.len(),
            ps == string_views(packages@),
            manifest@ == head + concat_map(ps.take(i as int), |d: Seq<char>| dependency_line(d)),
        decreases packages@.len() - i,
    {
        let dep = packages[i].as_str();
        push_str(&mut manifest, dep);
        push_str(&mut manifest, " = { path = \"../");
        push_str(&mut manifest, dep);
        push_str(&mut manifest, "\" }\n");
        assert(ps.take(i + 1).drop_last() =~= ps.take(i as int));
        i = i + 1;
        assert(manifest@ =~= head + concat_map(ps.take(i as int), |d: Seq<char>| dependency_line(d)));
    }
    assert(ps.take(packages@.len() as int) =~= ps);
    assert(manifest@ =~= dispatch_manifest_text(ps));
    let mut lib: Vec<char> = Vec::new();
    push_str(&mut lib, "//! Decoding of the generated messages by schema name.\n\n");
    push_str(&mut lib, "#[derive(Clone, Debug)]\n");
    push_str(&mut lib, "pub enum DecodedMessage {\n");
    push_entries(&mut lib, entries, 0);
    push_str(&mut lib, "}\n\n");
    push_str(&mut lib, "impl DecodedMessage {\n");
    push_str(&mut lib, "    pub fn schema_name(&self) -> &'static str {\n");
    push_str(&mut lib, "        match *self {\n");
    push_entries(&mut lib, entries, 1);
    push_str(&mut lib, "        }\n");
    push_str(&mut lib, "    }\n");
    push_str(&mut lib, "}\n\n");
    push_str(
        &mut lib,
        "pub fn decode_message_by_schema(schema_name: &str, data: &[u8]) -> Result<DecodedMessage, String> {\n",
    );
    push_str(&mut lib, "    match schema_name {\n");
    push_entries(&mut lib, entries, 2);
    push_str(&mut lib, "        _ => Err(format!(\"unknown schema: {schema_name}\")),\n");
    push_str(&mut lib, "    }\n");
    push_str(&mut lib, "}\n");
    assert(lib@ =~= dispatch_lib_text(entry_views(entries@)));
    CrateFiles {
        name: string_from_chars(chars_of("ros2-dispatch").as_slice()),
        manifest: string_from_chars(manifest.as_slice()),
        lib_rs: string_from_chars(lib.as_slice()),
    }
}

} // verus!
