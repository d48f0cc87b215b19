use ros2_message_gen::generator::{
    generated_service_base, interface_kind, package_dependencies, package_manifest, rmw_stub_file,
    InterfaceKind,
    sorted_unique, workspace_members_snippet,
};
use ros2_message_gen::layout::PackageFiles;
use ros2_message_gen::parser::parse_srv_content;
use ros2_message_gen::workspace::{append_members_to_workspace_manifest, member_entries};
use ros2_message_gen::{GeneratorConfig, MessageGenerator, MessageType, StructNameStyle};

fn message(path: &str, content: &str) -> MessageType {
    MessageType::from_content(path, content).expect("path names a package")
}

fn sample_messages() -> Vec<MessageType> {
    vec![
        message(
            "/defs/std_msgs/msg/Header.msg",
            "builtin_interfaces/Time stamp\nstring frame_id\n",
        ),
        message(
            "/defs/geometry_msgs/msg/Quaternion.msg",
            "float64 x\nfloat64 y\nfloat64 z\nfloat64 w\n",
        ),
        message(
            "/defs/sensor_msgs/msg/Imu.msg",
            "std_msgs/Header header\ngeometry_msgs/Quaternion orientation\nfloat64[9] orientation_covariance\n",
        ),
    ]
}

fn find<'a>(files: &'a [PackageFiles], package: &str) -> &'a PackageFiles {
    files
        .iter()
        .find(|f| f.package == package)
        .expect("package is generated")
}

#[test]
fn generates_tree_layout_for_messages() {
    let generator = MessageGenerator::new("generated".to_string());
    let files = generator.layout(&sample_messages(), &[]).packages;
    let names: Vec<String> = files.iter().map(|f| f.package.clone()).collect();
    assert_eq!(names, vec!["geometry_msgs", "sensor_msgs", "std_msgs"]);

    let members_snippet = workspace_members_snippet("generated", &names);
    assert!(members_snippet.contains("\"generated/geometry_msgs\","));
    assert!(members_snippet.contains("\"generated/sensor_msgs\","));
    assert!(members_snippet.contains("\"generated/std_msgs\","));
    assert!(!members_snippet.contains("[workspace]"));

    let single = find(&files, "sensor_msgs");
    assert_eq!(single.lib_rs, "pub mod decode;\npub mod msg;\npub mod srv;\n");
    assert!(single
        .manifest
        .contains("cdr-runtime = { path = \"../cdr-runtime\" }"));
    assert!(single.decode_rs.contains("impl DecodeCdr for Imu"));
    assert!(single
        .decode_rs
        .contains("decoder.read_array::<f64, 9>()?"));
    assert!(single
        .manifest
        .contains("geometry_msgs = { path = \"../geometry_msgs\" }"));
    assert!(single.manifest.contains("std_msgs = { path = \"../std_msgs\" }"));
    assert!(single.msg_rs.contains("pub struct Imu"));
    assert!(single.msg_rs.contains("std_msgs::msg::Header"));
    assert!(single.msg_rs.contains("geometry_msgs::msg::Quaternion"));
    assert!(single.msg_rs.contains("pub orientation_covariance: [f64; 9],"));
    assert_eq!(single.msg_rmw, rmw_stub_file("msg"));
    assert_eq!(single.srv_rmw, rmw_stub_file("srv"));

    let std = find(&files, "std_msgs");
    assert!(std
        .manifest
        .contains("builtin_interfaces = { path = \"../builtin_interfaces\" }"));
    assert!(std.msg_rs.contains("pub stamp: builtin_interfaces::msg::Time,"));
    assert!(std.msg_rs.contains("pub frame_id: std::string::String,"));
}

#[test]
fn appends_generated_packages_to_existing_workspace() {
    let manifest = "[workspace]\nmembers = [\n    \"crates/app\",\n]\nresolver = \"2\"\n";
    let packages = vec![
        "geometry_msgs".to_string(),
        "sensor_msgs".to_string(),
        "std_msgs".to_string(),
    ];
    let entries = member_entries("ros2_msgs", &packages);
    assert_eq!(
        entries,
        vec!["ros2_msgs/geometry_msgs", "ros2_msgs/sensor_msgs", "ros2_msgs/std_msgs"]
    );
    let updated = append_members_to_workspace_manifest(manifest, &entries)
        .expect("manifest has a members array");
    assert!(updated.contains("\"crates/app\""));
    assert!(updated.contains("\"ros2_msgs/std_msgs\""));
    assert!(updated.contains("\"ros2_msgs/geometry_msgs\""));
    assert!(updated.contains("\"ros2_msgs/sensor_msgs\""));
    assert_eq!(
        updated,
        "[workspace]\nmembers = [\n    \"crates/app\",\n    \"ros2_msgs/geometry_msgs\",\n    \"ros2_msgs/sensor_msgs\",\n    \"ros2_msgs/std_msgs\",\n]\nresolver = \"2\"\n"
    );
}

#[test]
fn workspace_manifest_left_alone_when_members_present() {
    let manifest = "[workspace]\nmembers = [\"a\", \"b\"]\n";
    let entries = vec!["b".to_string(), "a".to_string()];
    assert_eq!(
        append_members_to_workspace_manifest(manifest, &entries).as_deref(),
        Some(manifest)
    );
}

#[test]
fn workspace_manifest_append_is_idempotent() {
    let manifest = "[package]\nname = \"x\"\n\n[workspace]\n  members = [ \"a\" , , \"b\"]\n";
    let entries = vec!["c".to_string(), "a".to_string(), "c".to_string()];
    let once = append_members_to_workspace_manifest(manifest, &entries).unwrap();
    assert_eq!(
        once,
        "[package]\nname = \"x\"\n\n[workspace]\nmembers = [\n    \"a\",\n    \"b\",\n    \"c\",\n]\n"
    );
    let twice = append_members_to_workspace_manifest(&once, &entries).unwrap();
    assert_eq!(twice, once);
}

#[test]
fn workspace_manifest_without_members_array_is_refused() {
    let entries = vec!["x".to_string()];
    assert_eq!(append_members_to_workspace_manifest("[package]\nname = \"x\"\n", &entries), None);
    assert_eq!(append_members_to_workspace_manifest("[workspace]\nresolver = \"2\"\n", &entries), None);
    assert_eq!(append_members_to_workspace_manifest("[workspace]\nmembers\n", &entries), None);
    assert_eq!(append_members_to_workspace_manifest("[workspace]\nmembers = [\n", &entries), None);
}

#[test]
fn generated_string_message_uses_std_string_for_fields() {
    let generator = MessageGenerator::new("generated".to_string());
    let files = generator.layout(&[message("/x/std_msgs/msg/String.msg", "string data\n")], &[]).packages;
    assert_eq!(files.len(), 1);
    assert!(files[0].msg_rs.contains("pub struct String"));
    assert!(files[0].msg_rs.contains("pub data: std::string::String,"));
}

#[test]
fn generates_request_response_for_srv() {
    let generator = MessageGenerator::new("generated_srv".to_string());
    let service = parse_srv_content(
        "AddTwoInts",
        "example_interfaces",
        "int64 a\nint64 b\n---\nint64 sum\n",
    );
    let files = generator.layout(&[], &[service]).packages;
    assert_eq!(files.len(), 1);
    assert_eq!(files[0].package, "example_interfaces");
    assert!(files[0].srv_rs.contains("pub struct AddTwoIntsRequest"));
    assert!(files[0].srv_rs.contains("pub struct AddTwoIntsResponse"));
    assert!(files[0].srv_rs.contains("use crate::msg::*;"));
}

#[test]
fn skips_generated_request_response_msgs_when_srv_exists() {
    assert_eq!(generated_service_base("AddTwoInts_Request").as_deref(), Some("AddTwoInts"));
    assert_eq!(generated_service_base("AddTwoInts_Response").as_deref(), Some("AddTwoInts"));
    assert_eq!(generated_service_base("AddTwoInts_Event").as_deref(), Some("AddTwoInts"));
    assert_eq!(generated_service_base("AddTwoInts"), None);
    assert_eq!(generated_service_base("_Request").as_deref(), Some(""));
}

#[test]
fn parses_srv_constants_as_constants_not_fields() {
    let generator = MessageGenerator::new("generated".to_string());
    let service = parse_srv_content(
        "LoopClosure",
        "slam_toolbox",
        "int8 UNSET=0\nint8 START_AT_FIRST_NODE = 1\n---\nbool success\n",
    );
    let files = generator.layout(&[], &[service]).packages;
    let srv_content = &files[0].srv_rs;
    assert!(srv_content.contains("pub const UNSET: i8 = 0;"));
    assert!(srv_content.contains("pub const START_AT_FIRST_NODE: i8 = 1;"));
    assert!(!srv_content.contains("pub UNSET: i8,"));
    assert!(!srv_content.contains("pub START_AT_FIRST_NODE: i8,"));
}

#[test]
fn struct_text_is_exact() {
    let msg = message(
        "/p/pkg/msg/my_point.msg",
        "float64 x\nint32[] ys\nstring NAME=origin\nstring QUOTED=\"q\"\nuint8 MAX=3\n",
    );
    let expected = [
        "#[cfg_attr(feature = \"serde\", derive(Deserialize, Serialize))]",
        "#[derive(Clone, Debug, PartialEq, PartialOrd)]",
        "pub struct MyPoint {",
        "    #[allow(missing_docs)]",
        "    pub x: f64,",
        "",
        "    #[allow(missing_docs)]",
        "    pub ys: Vec<i32>,",
        "}",
        "",
        "impl MyPoint {",
        "    pub const NAME: &'static str = \"origin\";",
        "    pub const QUOTED: &'static str = \"q\";",
        "    pub const MAX: u8 = 3;",
        "}",
        "",
    ]
    .join("\n");
    assert_eq!(msg.to_rust_struct_with_impl(StructNameStyle::CamelCase, true), expected);
    let plain = message("/p/pkg/msg/my_point.msg", "");
    assert_eq!(
        plain.to_rust_struct_with_impl(StructNameStyle::SnakeCase, false),
        "#[cfg_attr(feature = \"serde\", derive(Deserialize, Serialize))]\n#[derive(Clone, Debug, PartialEq, PartialOrd)]\npub struct my_point {\n}\n"
    );
}

#[test]
fn package_manifest_is_exact() {
    let deps = vec!["geometry_msgs".to_string(), "std_msgs".to_string()];
    assert_eq!(
        package_manifest("sensor_msgs", &deps),
        "[package]\nname = \"sensor_msgs\"\nversion = \"0.1.0\"\nedition = \"2024\"\n\n\
[dependencies]\ncdr-runtime = { path = \"../cdr-runtime\" }\n\
serde = { version = \"1.0\", features = [\"derive\"], optional = true }\n\
geometry_msgs = { path = \"../geometry_msgs\" }\nstd_msgs = { path = \"../std_msgs\" }\n\
\n[features]\ndefault = []\nserde = [\"dep:serde\", \"geometry_msgs/serde\", \"std_msgs/serde\"]\n"
    );
    assert_eq!(
        package_manifest("p", &[]),
        "[package]\nname = \"p\"\nversion = \"0.1.0\"\nedition = \"2024\"\n\n\
[dependencies]\ncdr-runtime = { path = \"../cdr-runtime\" }\n\
serde = { version = \"1.0\", features = [\"derive\"], optional = true }\n\
\n[features]\ndefault = []\nserde = [\"dep:serde\"]\n"
    );
}

#[test]
fn rmw_stub_names_its_kind() {
    let stub = rmw_stub_file("srv");
    assert!(stub.starts_with("//! Placeholder trait for `srv` deserialization backend.\n"));
    assert!(stub.ends_with("    }\n}\n"));
    assert!(stub.contains("pub trait CdrDeserialize: Sized {"));
}

#[test]
fn dependencies_are_sorted_and_unique() {
    let imu = message(
        "/d/sensor_msgs/msg/Imu.msg",
        "std_msgs/Header header\ngeometry_msgs/Quaternion q\ngeometry_msgs/Vector3[] v\nsensor_msgs/Other o\nOther local\nfloat64 f\n",
    );
    let deps = package_dependencies("sensor_msgs", &[&imu], &[]);
    assert_eq!(deps, vec!["geometry_msgs", "std_msgs"]);

    let (req, resp) = parse_srv_content(
        "S",
        "pkg",
        "zeta_msgs/A a\n---\nalpha_msgs/B[4] b\nzeta_msgs/msg/C c\n",
    );
    let deps = package_dependencies("pkg", &[], &[(&req, &resp)]);
    assert_eq!(deps, vec!["alpha_msgs", "zeta_msgs"]);
}

#[test]
fn sorted_unique_orders_by_code_point() {
    let items = vec![
        "b".to_string(),
        "a".to_string(),
        "B".to_string(),
        "b".to_string(),
        "ab".to_string(),
        "".to_string(),
    ];
    assert_eq!(sorted_unique(&items), vec!["", "B", "a", "ab", "b"]);
}

#[test]
fn layout_groups_services_by_request_package() {
    let generator = MessageGenerator::new("out".to_string())
        .with_struct_name_style(StructNameStyle::SnakeCase);
    let messages = vec![
        message("/d/b_pkg/msg/two_words.msg", "int8 x\n"),
        message("/d/a_pkg/msg/first.msg", "b_pkg/two_words t\n"),
        message("/d/b_pkg/msg/other.msg", ""),
    ];
    let service = parse_srv_content("do_it", "c_pkg", "a_pkg/first f\n---\n");
    let files = generator.layout(&messages, &[service]).packages;
    let names: Vec<&str> = files.iter().map(|f| f.package.as_str()).collect();
    assert_eq!(names, vec!["a_pkg", "b_pkg", "c_pkg"]);
    let b = &files[1];
    assert!(b.msg_rs.contains("pub struct two_words"));
    assert!(b.msg_rs.contains("pub struct other"));
    assert!(b.msg_rs.find("two_words").unwrap() < b.msg_rs.find("other").unwrap());
    assert!(files[0].manifest.contains("b_pkg = { path = \"../b_pkg\" }"));
    assert!(files[0].msg_rs.contains("pub t: b_pkg::msg::two_words,"));
    assert!(files[2].srv_rs.contains("pub struct do_itRequest"));
    assert!(files[2].manifest.contains("a_pkg = { path = \"../a_pkg\" }"));
    assert!(files[2].msg_rs.ends_with("pub mod rmw;\n\n"));
}

#[test]
fn generator_settings() {
    let config = GeneratorConfig::new();
    assert_eq!(config.struct_name_style, StructNameStyle::CamelCase);
    assert!(config.include_msg_suffix);
    let config = config
        .with_struct_name_style(StructNameStyle::SnakeCase)
        .with_include_msg_suffix(false);
    assert_eq!(config.struct_name_style, StructNameStyle::SnakeCase);
    assert!(!config.include_msg_suffix);

    let generator = MessageGenerator::default();
    assert_eq!(generator.output_path(), "generated");
    assert_eq!(generator.config().struct_name_style, StructNameStyle::CamelCase);
    let generator = MessageGenerator::with_config("out".to_string(), config)
        .with_include_msg_suffix(true)
        .with_struct_name_style(StructNameStyle::PascalCase);
    assert_eq!(generator.output_path(), "out");
    assert_eq!(generator.config().struct_name_style, StructNameStyle::PascalCase);
    assert!(generator.config().include_msg_suffix);
}

#[test]
fn members_on_the_header_line_are_rewritten_without_the_header() {
    let manifest = "[workspace] members = [\"a\"]\n";
    let entries = vec!["b".to_string()];
    let once = append_members_to_workspace_manifest(manifest, &entries).unwrap();
    assert_eq!(once, "members = [\n    \"a\",\n    \"b\",\n]\n");
    assert_eq!(append_members_to_workspace_manifest(&once, &entries), None);
}

#[test]
fn layout_includes_runtime_and_dispatch_crates() {
    let generator = MessageGenerator::new("generated".to_string());
    let service = parse_srv_content(
        "ChangeState",
        "lifecycle_msgs",
        "uint8 transition\n---\nbool success\n",
    );
    let layout = generator.layout(&sample_messages(), &[service]);
    assert_eq!(
        layout.crate_names(),
        vec![
            "cdr-runtime",
            "ros2-dispatch",
            "geometry_msgs",
            "lifecycle_msgs",
            "sensor_msgs",
            "std_msgs"
        ]
    );
    assert_eq!(layout.runtime.name, "cdr-runtime");
    assert_eq!(
        layout.runtime.manifest,
        "[package]\nname = \"cdr-runtime\"\nversion = \"0.1.0\"\nedition = \"2024\"\n\n[dependencies]\n"
    );
    assert!(layout.runtime.lib_rs.contains("pub trait DecodeCdr"));
    assert!(layout.runtime.lib_rs.contains("pub fn decode_from_bytes"));

    assert_eq!(layout.dispatch.name, "ros2-dispatch");
    assert_eq!(
        layout.dispatch.manifest,
        "[package]\nname = \"ros2-dispatch\"\nversion = \"0.1.0\"\nedition = \"2024\"\n\n\
[dependencies]\ncdr-runtime = { path = \"../cdr-runtime\" }\n\
geometry_msgs = { path = \"../geometry_msgs\" }\n\
lifecycle_msgs = { path = \"../lifecycle_msgs\" }\n\
sensor_msgs = { path = \"../sensor_msgs\" }\n\
std_msgs = { path = \"../std_msgs\" }\n"
    );
    let lib = &layout.dispatch.lib_rs;
    assert!(lib.contains("    SensorMsgsImu(sensor_msgs::msg::Imu),\n"));
    assert!(lib.contains("Self::SensorMsgsImu(_) => \"sensor_msgs/msg/Imu\","));
    assert!(lib.contains(
        "Self::LifecycleMsgsChangeStateRequest(_) => \"lifecycle_msgs/srv/ChangeState_Request\","
    ));
    assert!(lib.contains("\"lifecycle_msgs/srv/ChangeState_Response\" => Ok(DecodedMessage::LifecycleMsgsChangeStateResponse("));
    assert!(lib.contains("sensor_msgs::decode::decode_from_bytes::<sensor_msgs::msg::Imu>(data)?,"));

    let lifecycle = find(&layout.packages, "lifecycle_msgs");
    assert!(lifecycle.decode_rs.starts_with(
        "pub use cdr_runtime::{decode_from_bytes, CdrDecoder, DecodeCdr, Endianness, WChar16, WChar32};\n"
    ));
    assert!(lifecycle.decode_rs.contains(
        "\nimpl DecodeCdr for ChangeStateRequest {\n    fn decode_cdr(decoder: &mut CdrDecoder<'_>) -> Result<Self, String> {\n        Ok(Self {\n            transition: <u8 as DecodeCdr>::decode_cdr(decoder)?,\n        })\n    }\n}\n"
    ));
    assert!(lifecycle.decode_rs.contains("impl DecodeCdr for ChangeStateResponse"));

    let std = find(&layout.packages, "std_msgs");
    assert!(std
        .decode_rs
        .contains("            stamp: <builtin_interfaces::msg::Time as DecodeCdr>::decode_cdr(decoder)?,\n"));

    let names = layout.crate_names();
    let members = member_entries("generated", &names);
    assert_eq!(members[0], "generated/cdr-runtime");
    assert_eq!(members[1], "generated/ros2-dispatch");
    let snippet = workspace_members_snippet("generated", &names);
    assert!(snippet.contains("\"generated/cdr-runtime\","));
    assert!(snippet.contains("\"generated/ros2-dispatch\","));
}

#[test]
fn interface_kind_follows_the_extension() {
    assert_eq!(interface_kind("Imu.msg"), InterfaceKind::Message);
    assert_eq!(interface_kind("AddTwoInts.srv"), InterfaceKind::Service);
    assert_eq!(interface_kind("Fibonacci.action"), InterfaceKind::Other);
    assert_eq!(interface_kind("package.xml"), InterfaceKind::Other);
    assert_eq!(interface_kind(".msg"), InterfaceKind::Other);
    assert_eq!(interface_kind("msg"), InterfaceKind::Other);
    assert_eq!(interface_kind("a.b.srv"), InterfaceKind::Service);
}
