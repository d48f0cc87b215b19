//! The files of each generated package crate, computed from the parsed interfaces.

use crate::generator::{
    all_dependencies, lemma_sorted_of, manifest_text, message_ref_views,
    package_dependencies, package_manifest, rmw_stub_file, rmw_stub_text, service_ref_views,
    sorted_of, sorted_unique, string_views, GeneratorConfig, MessageGenerator,
};
use crate::parser::{MessageType, MessageView, StructNameStyle};
use crate::render::{decode_impl_text, struct_text};
use crate::runtime::{
    dispatch_crate, dispatch_lib_text, dispatch_manifest_text, dispatch_name, entry_views,
    package_dispatch_entries, package_entries, runtime_crate, runtime_lib_text, runtime_manifest_text,
    runtime_name, CrateFiles, DispatchEntry, EntryView,
};
use crate::text::{chars_eq, push_str};
use crate::unicode::{chars_of, string_from_chars};
use vstd::prelude::*;

verus! {

/// The opening lines of a package's `src/msg.rs`.
pub open spec fn msg_header() -> Seq<char> {
    "#![allow(unused_imports)]\n"@ + "#[cfg(feature = \"serde\")]\n"@
        + "use serde::{Deserialize, Serialize};\n\n"@ + "pub mod rmw;\n\n"@
}

/// The opening lines of a package's `src/srv.rs`.
pub open spec fn srv_header() -> Seq<char> {
    "#![allow(unused_imports)]\n"@ + "#[cfg(feature = \"serde\")]\n"@
        + "use serde::{Deserialize, Serialize};\n"@ + "use crate::msg::*;\n\n"@
        + "pub mod rmw;\n\n"@
}

/// The structs of the messages, each followed by an empty line.
pub open spec fn structs_text(ms: Seq<MessageView>, style: StructNameStyle) -> Seq<char>
    decreases ms.len(),
{
    if ms.len() == 0 {
        Seq::empty()
    } else {
        structs_text(ms.drop_last(), style) + struct_text(ms.last(), style) + "\n"@
    }
}

/// The request and response structs of the services, each followed by an empty line.
pub open spec fn service_structs_text(ss: Seq<(MessageView, MessageView)>, style: StructNameStyle) -> Seq<
    char,
>
    decreases ss.len(),
{
    if ss.len() == 0 {
        Seq::empty()
    } else {
        service_structs_text(ss.drop_last(), style) + struct_text(ss.last().0, style) + "\n"@
            + struct_text(ss.last().1, style) + "\n"@
    }
}

/// The text of a package's `src/lib.rs`.
pub open spec fn lib_text() -> Seq<char> {
    "pub mod decode;\npub mod msg;\npub mod srv;\n"@
}

/// The opening lines of a package's `src/decode.rs`.
pub open spec fn decode_header() -> Seq<char> {
    "pub use cdr_runtime::{decode_from_bytes, CdrDecoder, DecodeCdr, Endianness, WChar16, WChar32};\n\n"@
        + "#[allow(unused_imports)]\n"@ + "use crate::msg::*;\n"@ + "#[allow(unused_imports)]\n"@
        + "use crate::srv::*;\n"@
}

/// The `impl DecodeCdr` of the messages, in order.
pub open spec fn decode_impls_text(ms: Seq<MessageView>, style: StructNameStyle) -> Seq<char>
    decreases ms.len(),
{
    if ms.len() == 0 {
        Seq::empty()
    } else {
        decode_impls_text(ms.drop_last(), style) + decode_impl_text(ms.last(), style)
    }
}

/// The `impl DecodeCdr` of the services' requests and responses, in order.
pub open spec fn service_decode_impls_text(
    ss: Seq<(MessageView, MessageView)>,
    style: StructNameStyle,
) -> Seq<char>
    decreases ss.len(),
{
    if ss.len() == 0 {
        Seq::empty()
    } else {
        service_decode_impls_text(ss.drop_last(), style) + decode_impl_text(ss.last().0, style)
            + decode_impl_text(ss.last().1, style)
    }
}

/// A package crate's files: `Cargo.toml`, `src/lib.rs`, `src/msg.rs`, `src/srv.rs`,
/// `src/decode.rs`, `src/msg/rmw.rs` and `src/srv/rmw.rs`, with the package's name.
pub struct PackageFiles {
    pub package: String,
    pub manifest: String,
    pub lib_rs: String,
    pub msg_rs: String,
    pub srv_rs: String,
    pub decode_rs: String,
    pub msg_rmw: String,
    pub srv_rmw: String,
}

/// The name and the texts of a package crate's files, in the order of the fields.
pub type PackageFilesView = (
    Seq<char>,
    Seq<char>,
    Seq<char>,
    Seq<char>,
    Seq<char>,
    Seq<char>,
    Seq<char>,
    Seq<char>,
);

impl View for PackageFiles {
    type V = PackageFilesView;

    open spec fn view(&self) -> PackageFilesView {
        (
            self.package@,
            self.manifest@,
            self.lib_rs@,
            self.msg_rs@,
            self.srv_rs@,
            self.decode_rs@,
            self.msg_rmw@,
            self.srv_rmw@,
        )
    }
}

/// The files of the crate for `package`, which holds the messages `ms` and the services `ss`.
pub open spec fn package_files_view(
    config: GeneratorConfig,
    package: Seq<char>,
    ms: Seq<MessageView>,
    ss: Seq<(MessageView, MessageView)>,
) -> PackageFilesView {
    (
        package,
        manifest_text(package, sorted_of(all_dependencies(package, ms, ss).to_set())),
        lib_text(),
        msg_header() + structs_text(ms, config.struct_name_style),
        srv_header() + service_structs_text(ss, config.struct_name_style),
        decode_header() + decode_impls_text(ms, config.struct_name_style)
            + service_decode_impls_text(ss, config.struct_name_style),
        rmw_stub_text("msg"@),
        rmw_stub_text("srv"@),
    )
}

/// The views of owned messages.
pub open spec fn message_views(ms: Seq<MessageType>) -> Seq<MessageView> {
    ms.map_values(|m: MessageType| m@)
}

/// The views of owned services.
pub open spec fn service_views(ss: Seq<(MessageType, MessageType)>) -> Seq<(MessageView, MessageView)> {
    ss.map_values(|s: (MessageType, MessageType)| (s.0@, s.1@))
}

/// The messages of package `p`, in order.
pub open spec fn messages_in(ms: Seq<MessageView>, p: Seq<char>) -> Seq<MessageView>
    decreases ms.len(),
{
    if ms.len() == 0 {
        Seq::empty()
    } else if ms.last().0 == p {
        messages_in(ms.drop_last(), p).push(ms.last())
    } else {
        messages_in(ms.drop_last(), p)
    }
}

/// The services whose request belongs to package `p`, in order.
pub open spec fn services_in(ss: Seq<(MessageView, MessageView)>, p: Seq<char>) -> Seq<
    (MessageView, MessageView),
>
    decreases ss.len(),
{
    if ss.len() == 0 {
        Seq::empty()
    } else if ss.last().0.0 == p {
        services_in(ss.drop_last(), p).push(ss.last())
    } else {
        services_in(ss.drop_last(), p)
    }
}

/// The packages of the messages, then of the services' requests.
pub open spec fn package_list(ms: Seq<MessageView>, ss: Seq<(MessageView, MessageView)>) -> Seq<
    Seq<char>,
> {
    ms.map_values(|m: MessageView| m.0) + ss.map_values(|s: (MessageView, MessageView)| s.0.0)
}

/// The `src/msg.rs` of a package holding `messages`.
#[verifier::spinoff_prover]
fn msg_module(messages: &[&MessageType], style: StructNameStyle, keep_suffix: bool) -> (r: String)
    ensures
        r@ == msg_header() + structs_text(message_ref_views(messages@), style),
{
    let ghost ms = message_ref_views(messages@);
    let mut out: Vec<char> = Vec::new();
    push_str(&mut out, "#![allow(unused_imports)]\n");
    push_str(&mut out, "#[cfg(feature = \"serde\")]\n");
    push_str(&mut out, "use serde::{Deserialize, Serialize};\n\n");
    push_str(&mut out, "pub mod rmw;\n\n");
    let mut i: usize = 0;
    assert(ms.take(0) =~= Seq::<MessageView>::empty());
    while i < messages.len()
        invariant
            i <= messages@.len(),
            ms == message_ref_views(messages@),
            out@ == msg_header() + structs_text(ms.take(i as int), style),
        decreases messages@.len() - i,
    {
        let text = messages[i].to_rust_struct_with_impl(style, keep_suffix);
        push_str(&mut out, text.as_str());
        push_str(&mut out, "\n");
        assert(ms.take(i + 1).drop_last() =~= ms.take(i as int));
        assert(ms.take(i + 1).last() == messages@[i as int]@);
        i = i + 1;
    }
    assert(ms.take(messages@.len() as int) =~= ms);
    string_from_chars(out.as_slice())
}

/// The `src/srv.rs` of a package holding `services`.
#[verifier::spinoff_prover]
#[verifier::rlimit(30)]
fn srv_module(services: &[(&MessageType, &MessageType)], style: StructNameStyle, keep_suffix: bool) -> (r:
    String)
    ensures
        r@ == srv_header() + service_structs_text(service_ref_views(services@), style),
{
    let ghost ss = service_ref_views(services@);
    let mut out: Vec<char> = Vec::new();
    push_str(&mut out, "#![allow(unused_imports)]\n");
    push_str(&mut out, "#[cfg(feature = \"serde\")]\n");
    push_str(&mut out, "use serde::{Deserialize, Serialize};\n");
    push_str(&mut out, "use crate::msg::*;\n\n");
    push_str(&mut out, "pub mod rmw;\n\n");
    let mut i: usize = 0;
    assert(ss.take(0) =~= Seq::<(MessageView, MessageView)>::empty());
    while i < services.len()
        invariant
            i <= services@.len(),
            ss == service_ref_views(services@),
            out@ == srv_header() + service_structs_text(ss.take(i as int), style),
        decreases services@.len() - i,
    {
        let (request, response) = services[i];
        let request_text = request.to_rust_struct_with_impl(style, keep_suffix);
        push_str(&mut out, request_text.as_str());
        push_str(&mut out, "\n");
        let response_text = response.to_rust_struct_with_impl(style, keep_suffix);
        push_str(&mut out, response_text.as_str());
        push_str(&mut out, "\n");
        assert(ss.take(i + 1).drop_last() =~= ss.take(i as int));
        assert(ss.take(i + 1).last() == (request@, response@));
        i = i + 1;
        assert(out@ =~= srv_header() + service_structs_text(ss.take(i as int), style));
    }
    assert(ss.take(services@.len() as int) =~= ss);
    string_from_chars(out.as_slice())
}

/// The `src/decode.rs` of a package holding `messages` and `services`.
#[verifier::spinoff_prover]
fn decode_module(
    messages: &[&MessageType],
    services: &[(&MessageType, &MessageType)],
    style: StructNameStyle,
) -> (r: String)
    ensures
        r@ == decode_header() + decode_impls_text(message_ref_views(messages@), style)
            + service_decode_impls_text(service_ref_views(services@), style),
{
    let ghost ms = message_ref_views(messages@);
    let ghost ss = service_ref_views(services@);
    let mut out: Vec<char> = Vec::new();
    push_str(
        &mut out,
        "pub use cdr_runtime::{decode_from_bytes, CdrDecoder, DecodeCdr, Endianness, WChar16, WChar32};\n\n",
    );
    push_str(&mut out, "#[allow(unused_imports)]\n");
    push_str(&mut out, "use crate::msg::*;\n");
    push_str(&mut out, "#[allow(unused_imports)]\n");
    push_str(&mut out, "use crate::srv::*;\n");
    let ghost head = out@;
    assert(head =~= decode_header());
    let mut i: usize = 0;
    assert(ms.take(0) =~= Seq::<MessageView>::empty());
    while i < messages.len()
        invariant
            i <= messages@.len(),
            ms == message_ref_views(messages@),
            out@ == head + decode_impls_text(ms.take(i as int), style),
        decreases messages@.len() - i,
    {
        let text = messages[i].to_rust_decode_impl(style);
        push_str(&mut out, text.as_str());
        assert(ms.take(i + 1).drop_last() =~= ms.take(i as int));
        assert(ms.take(i + 1).last() == messages@[i as int]@);
        i = i + 1;
    }
    assert(ms.take(messages@.len() as int) =~= ms);
    let ghost head2 = out@;
    let mut j: usize = 0;
    assert(ss.take(0) =~= Seq::<(MessageView, MessageView)>::empty());
    while j < services.len()
        invariant
            j <= services@.len(),
            ss == service_ref_views(services@),
            out@ == head2 + service_decode_impls_text(ss.take(j as int), style),
        decreases services@.len() - j,
    {
        let (request, response) = services[j];
        let request_text = request.to_rust_decode_impl(style);
        push_str(&mut out, request_text.as_str());
        let response_text = response.to_rust_decode_impl(style);
        push_str(&mut out, response_text.as_str());
        assert(ss.take(j + 1).drop_last() =~= ss.take(j as int));
        assert(ss.take(j + 1).last() == (request@, response@));
        j = j + 1;
        assert(out@ =~= head2 + service_decode_impls_text(ss.take(j as int), style));
    }
    assert(ss.take(services@.len() as int) =~= ss);
    string_from_chars(out.as_slice())
}

/// Whether `m` belongs to the package spelled `package`.
fn in_package(m: &MessageType, package: &[char]) -> (r: bool)
    ensures
        r == (m.package@ == package@),
{
    let p = chars_of(m.package.as_str());
    chars_eq(p.as_slice(), package)
}

impl MessageGenerator {
    /// The files of the crate for `package_name`, which holds `messages` and `services`.
    pub fn package_files(
        &self,
        package_name: &str,
        messages: &[&MessageType],
        services: &[(&MessageType, &MessageType)],
    ) -> (r: PackageFiles)
        ensures
            r@ == package_files_view(
                self.spec_config(),
                package_name@,
                message_ref_views(messages@),
                service_ref_views(services@),
            ),
    {
        let config = self.config();
        let dependencies = package_dependencies(package_name, messages, services);
        proof {
            lemma_sorted_of(string_views(dependencies@));
        }
        let manifest = package_manifest(package_name, dependencies.as_slice());
        let msg_rs = msg_module(messages, config.struct_name_style, config.include_msg_suffix);
        let srv_rs = srv_module(services, config.struct_name_style, config.include_msg_suffix);
        let decode_rs = decode_module(messages, services, config.struct_name_style);
        PackageFiles {
            package: string_from_chars(chars_of(package_name).as_slice()),
            manifest,
            lib_rs: string_from_chars(chars_of("pub mod decode;\npub mod msg;\npub mod srv;\n").as_slice()),
            msg_rs,
            srv_rs,
            decode_rs,
            msg_rmw: rmw_stub_file("msg"),
            srv_rmw: rmw_stub_file("srv"),
        }
    }

    /// The files of every crate that generation writes: the shared runtime crate, the shared
    /// decoding-by-schema crate over every generated type, and one crate per package that a
    /// message or a service request belongs to, in package-name order.
    #[verifier::spinoff_prover]
    #[verifier::rlimit(40)]
    pub fn layout(&self, messages: &[MessageType], services: &[(MessageType, MessageType)]) -> (r:
        WorkspaceLayout)
        ensures
            ({
                let ms = message_views(messages@);
                let ss = service_views(services@);
                let names = sorted_of(package_list(ms, ss).to_set());
                let style = self.spec_config().struct_name_style;
                &&& r.runtime@ == (runtime_name(), runtime_manifest_text(), runtime_lib_text())
                &&& r.dispatch@ == (
                    dispatch_name(),
                    dispatch_manifest_text(names),
                    dispatch_lib_text(workspace_entries(names, ms, ss, style)),
                )
                &&& r.packages@.len() == names.len()
                &&& forall|i: int|
                    0 <= i < r.packages@.len() ==> (#[trigger] r.packages@[i])@ == package_files_view(
                        self.spec_config(),
                        names[i],
                        messages_in(ms, names[i]),
                        services_in(ss, names[i]),
                    )
            }),
    {
        let ghost ms = message_views(messages@);
        let ghost ss = service_views(services@);
        let mut all: Vec<String> = Vec::new();
        let mut i: usize = 0;
        while i < messages.len()
            invariant
                i <= messages@.len(),
                ms == message_views(messages@),
                string_views(all@) == ms.take(i as int).map_values(|m: MessageView| m.0),
            decreases messages@.len() - i,
        {
            let ghost before = string_views(all@);
            all.push(string_from_chars(chars_of(messages[i].package.as_str()).as_slice()));
            assert(ms[i as int].0 == messages@[i as int].package@);
            assert(string_views(all@) =~= before.push(ms[i as int].0));
            assert(ms.take(i + 1).map_values(|m: MessageView| m.0) =~= ms.take(i as int).map_values(
                |m: MessageView| m.0,
            ).push(ms[i as int].0));
            i = i + 1;
        }
        assert(ms.take(messages@.len() as int) =~= ms);
        let mut j: usize = 0;
        while j < services.len()
            invariant
                j <= services@.len(),
                ss == service_views(services@),
                string_views(all@) == ms.map_values(|m: MessageView| m.0) + ss.take(j as int).map_values(
                    |s: (MessageView, MessageView)| s.0.0,
                ),
            decreases services@.len() - j,
        {
            let ghost before = string_views(all@);
            all.push(string_from_chars(chars_of(services[j].0.package.as_str()).as_slice()));
            assert(ss[j as int].0.0 == services@[j as int].0.package@);
            assert(string_views(all@) =~= before.push(ss[j as int].0.0));
            assert(ss.take(j + 1).map_values(|s: (MessageView, MessageView)| s.0.0) =~= ss.take(
                j as int,
            ).map_values(|s: (MessageView, MessageView)| s.0.0).push(ss[j as int].0.0));
            j = j + 1;
            assert(string_views(all@) =~= ms.map_values(|m: MessageView| m.0) + ss.take(
                j as int,
            ).map_values(|s: (MessageView, MessageView)| s.0.0));
        }
        assert(ss.take(services@.len() as int) =~= ss);
        assert(string_views(all@) == package_list(ms, ss));
        let names = sorted_unique(&all);
        proof {
            lemma_sorted_of(string_views(names@));
        }
        let ghost ns = string_views(names@);
        let style = self.config().struct_name_style;
        let mut out: Vec<PackageFiles> = Vec::new();
        let mut entries: Vec<DispatchEntry> = Vec::new();
        let mut k: usize = 0;
        assert(ns.take(0) =~= Seq::<Seq<char>>::empty());
        while k < names.len()
            invariant
                k <= names@.len(),
                style == self.spec_config().struct_name_style,
                entry_views(entries@) == workspace_entries(ns.take(k as int), ms, ss, style),
                ms == message_views(messages@),
                ss == service_views(services@),
                ns == string_views(names@),
                ns == sorted_of(package_list(ms, ss).to_set()),
                out@.len() == k,
                forall|a: int|
                    0 <= a < k ==> (#[trigger] out@[a])@ == package_files_view(
                        self.spec_config(),
                        ns[a],
                        messages_in(ms, ns[a]),
                        services_in(ss, ns[a]),
                    ),
            decreases names@.len() - k,
        {
            let name = chars_of(names[k].as_str());
            let mut pkg_messages: Vec<&MessageType> = Vec::new();
            let mut a: usize = 0;
            while a < messages.len()
                invariant
                    a <= messages@.len(),
                    ms == message_views(messages@),
                    message_ref_views(pkg_messages@) == messages_in(ms.take(a as int), name@),
                decreases messages@.len() - a,
            {
                let ghost before = message_ref_views(pkg_messages@);
                if in_package(&messages[a], name.as_slice()) {
                    pkg_messages.push(&messages[a]);
                    assert(message_ref_views(pkg_messages@) =~= before.push(messages@[a as int]@));
                }
                assert(ms.take(a + 1).drop_last() =~= ms.take(a as int));
                assert(ms.take(a + 1).last() == messages@[a as int]@);
                a = a + 1;
            }
            assert(ms.take(messages@.len() as int) =~= ms);
            let mut pkg_services: Vec<(&MessageType, &MessageType)> = Vec::new();
            let mut b: usize = 0;
            while b < services.len()
                invariant
                    b <= services@.len(),
                    ss == service_views(services@),
                    service_ref_views(pkg_services@) == services_in(ss.take(b as int), name@),
                decreases services@.len() - b,
            {
                let ghost before = service_ref_views(pkg_services@);
                if in_package(&services[b].0, name.as_slice()) {
                    pkg_services.push((&services[b].0, &services[b].1));
                    assert(service_ref_views(pkg_services@) =~= before.push(
                        (services@[b as int].0@, services@[b as int].1@),
                    ));
                }
                assert(ss.take(b + 1).drop_last() =~= ss.take(b as int));
                assert(ss.take(b + 1).last() == (services@[b as int].0@, services@[b as int].1@));
                b = b + 1;
            }
            assert(ss.take(services@.len() as int) =~= ss);
            let files = self.package_files(
                names[k].as_str(),
                pkg_messages.as_slice(),
                pkg_services.as_slice(),
            );
            out.push(files);
            let ghost before = entry_views(entries@);
            let mut more = package_dispatch_entries(
                names[k].as_str(),
                pkg_messages.as_slice(),
                pkg_services.as_slice(),
                style,
            );
            let ghost added = entry_views(more@);
            entries.append(&mut more);
            assert(entry_views(entries@) =~= before + added);
            assert(ns.take(k + 1).drop_last() =~= ns.take(k as int));
            assert(ns.take(k + 1).last() == ns[k as int]);
            k = k + 1;
        }
        assert(ns.take(names@.len() as int) =~= ns);
        let runtime = runtime_crate();
        let dispatch = dispatch_crate(names.as_slice(), entries.as_slice());
        WorkspaceLayout { runtime, dispatch, packages: out }
    }
}

/// The entries of the decoding-by-schema crate for the packages `ns`, package by package.
pub open spec fn workspace_entries(
    ns: Seq<Seq<char>>,
    ms: Seq<MessageView>,
    ss: Seq<(MessageView, MessageView)>,
    style: StructNameStyle,
) -> Seq<EntryView>
    decreases ns.len(),
{
    if ns.len() == 0 {
        Seq::empty()
    } else {
        workspace_entries(ns.drop_last(), ms, ss, style) + package_entries(
            ns.last(),
            messages_in(ms, ns.last()),
            services_in(ss, ns.last()),
            style,
        )
    }
}

/// Every crate that generation writes: the runtime crate, the decoding-by-schema crate and one
/// crate per package.
pub struct WorkspaceLayout {
    pub runtime: CrateFiles,
    pub dispatch: CrateFiles,
    pub packages: Vec<PackageFiles>,
}

impl WorkspaceLayout {
    /// The names of the crates, in the order that workspaces list them: the runtime crate, the
    /// decoding-by-schema crate, then the packages.
    pub fn crate_names(&self) -> (r: Vec<String>)
        ensures
            string_views(r@) == seq![self.runtime.name@, self.dispatch.name@] + self.packages@.map_values(
                |f: PackageFiles| f.package@,
            ),
    {
        let mut out: Vec<String> = Vec::new();
        out.push(string_from_chars(chars_of(self.runtime.name.as_str()).as_slice()));
        out.push(string_from_chars(chars_of(self.dispatch.name.as_str()).as_slice()));
        let ghost head = seq![self.runtime.name@, self.dispatch.name@];
        assert(string_views(out@) =~= head);
        let mut i: usize = 0;
        while i < self.packages.len()
            invariant
                i <= self.packages@.len(),
                head == seq![self.runtime.name@, self.dispatch.name@],
                string_views(out@) == head + self.packages@.take(i as int).map_values(
                    |f: PackageFiles| f.package@,
                ),
            decreases self.packages@.len() - i,
        {
            let ghost before = string_views(out@);
            out.push(string_from_chars(chars_of(self.packages[i].package.as_str()).as_slice()));
            assert(string_views(out@) =~= before.push(self.packages@[i as int].package@));
            assert(self.packages@.take(i + 1).map_values(|f: PackageFiles| f.package@) =~= self.packages@.take(
                i as int,
            ).map_values(|f: PackageFiles| f.package@).push(self.packages@[i as int].package@));
            i = i + 1;
        }
        assert(self.packages@.take(self.packages@.len() as int) =~= self.packages@);
        out
    }
}

} // verus!
