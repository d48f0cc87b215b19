use ros2_message_gen::parser::{parse_srv_content, Constant};
use ros2_message_gen::{Field, MessageType, StructNameStyle};

#[test]
fn test_field_parsing() {
    let field = Field::new("int32".to_string(), "data".to_string());
    assert_eq!(field.field_type, "int32");
    assert_eq!(field.name, "data");
    assert!(!field.is_array);
    assert_eq!(field.rust_type("test"), "i32");

    let array_field = Field::new("float64[]".to_string(), "values".to_string());
    assert!(array_field.is_array);
    assert_eq!(array_field.array_size, None);
    assert_eq!(array_field.rust_type("test"), "Vec<f64>");

    let fixed_array_field = Field::new("uint8[16]".to_string(), "uuid".to_string());
    assert!(fixed_array_field.is_array);
    assert_eq!(fixed_array_field.array_size, Some(16));
    assert_eq!(fixed_array_field.rust_type("test"), "[u8; 16]");
}

#[test]
fn test_message_type_parsing() {
    let content = "int32 data\nstring name\nfloat64[] values";
    let path = "/tmp/test_pkg/msg/Test.msg";
    let msg_type = MessageType::from_content(path, content).unwrap();

    assert_eq!(msg_type.package, "test_pkg");
    assert_eq!(msg_type.name, "Test");
    assert_eq!(msg_type.fields.len(), 3);
}

#[test]
fn test_request_response_suffixes_are_preserved() {
    let req_path = "/tmp/example_interfaces/msg/AddTwoInts_Request.msg";
    let resp_path = "/tmp/example_interfaces/msg/AddTwoInts_Response.msg";

    let req = MessageType::from_content(req_path, "int64 a\nint64 b").unwrap();
    let resp = MessageType::from_content(resp_path, "int64 sum").unwrap();

    assert_eq!(req.name, "AddTwoInts_Request");
    assert_eq!(resp.name, "AddTwoInts_Response");
    assert_eq!(req.struct_name(StructNameStyle::CamelCase), "AddTwoIntsRequest");
    assert_eq!(resp.struct_name(StructNameStyle::CamelCase), "AddTwoIntsResponse");
}

fn field_summary(fields: &[Field]) -> Vec<(String, String, bool, Option<usize>)> {
    fields
        .iter()
        .map(|f| (f.field_type.clone(), f.name.clone(), f.is_array, f.array_size))
        .collect()
}

fn constant_summary(constants: &[Constant]) -> Vec<(String, String, String)> {
    constants
        .iter()
        .map(|c| (c.const_type.clone(), c.name.clone(), c.value.clone()))
        .collect()
}

#[test]
fn comments_and_blank_lines_are_skipped() {
    let content = "# header comment\n\nint32 a  # trailing\n   \nuint8 B=3 # constant comment\n";
    let msg = MessageType::from_content("pkg/msg/M.msg", content).unwrap();
    assert_eq!(
        field_summary(&msg.fields),
        vec![("int32".to_string(), "a".to_string(), false, None)]
    );
    assert_eq!(
        constant_summary(&msg.constants),
        vec![("u8".to_string(), "B".to_string(), "3".to_string())]
    );
}

#[test]
fn constants_need_an_upper_case_name() {
    let content = "int32 lower=5\nint32 UPPER_2=7\nstring GREETING=hello world\n";
    let msg = MessageType::from_content("pkg/msg/M.msg", content).unwrap();
    assert_eq!(
        field_summary(&msg.fields),
        vec![("int32".to_string(), "lower".to_string(), false, None)]
    );
    assert_eq!(
        constant_summary(&msg.constants),
        vec![
            ("i32".to_string(), "UPPER_2".to_string(), "7".to_string()),
            (
                "std::string::String".to_string(),
                "GREETING".to_string(),
                "hello world".to_string()
            ),
        ]
    );
}

#[test]
fn definition_stops_at_separator_line() {
    let msg = MessageType::from_content("pkg/msg/M.msg", "int8 a\n---\nint8 b\n").unwrap();
    assert_eq!(msg.fields.len(), 1);
    assert_eq!(msg.fields[0].name, "a");
}

#[test]
fn crlf_lines_are_accepted() {
    let msg = MessageType::from_content("pkg/msg/M.msg", "int8 a\r\nint16 b\r\n").unwrap();
    assert_eq!(
        field_summary(&msg.fields),
        vec![
            ("int8".to_string(), "a".to_string(), false, None),
            ("int16".to_string(), "b".to_string(), false, None),
        ]
    );
}

#[test]
fn path_without_package_directory_is_an_error() {
    assert!(MessageType::from_content("Test.msg", "int32 a").is_err());
    assert!(MessageType::from_content("msg/Test.msg", "int32 a").is_err());
    let msg = MessageType::from_content("./a/pkg/msg/Test.msg", "").unwrap();
    assert_eq!(msg.package, "pkg");
    assert_eq!(msg.name, "Test");
    assert!(msg.fields.is_empty());
}

#[test]
fn rust_types_of_custom_and_builtin_types() {
    let cases = [
        ("geometry_msgs/Point", "geometry_msgs::msg::Point"),
        ("geometry_msgs/msg/Point", "geometry_msgs::msg::Point"),
        ("lifecycle_msgs/srv/ChangeState", "lifecycle_msgs::srv::ChangeState"),
        ("my_pkg/Local", "Local"),
        ("Local", "Local"),
        ("builtin_interfaces/Time", "builtin_interfaces::msg::Time"),
        ("std_msgs/Header", "std_msgs::msg::Header"),
        ("string", "std::string::String"),
        ("wstring", "std::string::String"),
        ("byte", "u8"),
        ("char", "u8"),
        ("float32", "f32"),
        ("a/b/c/d", "a/b/c/d"),
    ];
    for (ros, rust) in cases {
        let field = Field::new(ros.to_string(), "x".to_string());
        assert_eq!(field.rust_type("my_pkg"), rust, "type {}", ros);
    }
    let nested = Field::new("geometry_msgs/Point[3]".to_string(), "p".to_string());
    assert_eq!(nested.rust_type("my_pkg"), "[geometry_msgs::msg::Point; 3]");
    let bounded = Field::new("int32[<=5]".to_string(), "b".to_string());
    assert!(bounded.is_array);
    assert_eq!(bounded.array_size, None);
    assert_eq!(bounded.rust_type("my_pkg"), "Vec<i32>");
}

#[test]
fn struct_name_styles() {
    let msg = MessageType::from_content("p/msg/my_point_msg.msg", "").unwrap();
    assert_eq!(msg.struct_name(StructNameStyle::CamelCase), "MyPointMsg");
    assert_eq!(msg.struct_name(StructNameStyle::PascalCase), "MyPointMsg");
    assert_eq!(msg.struct_name(StructNameStyle::SnakeCase), "my_point_msg");
    assert_eq!(StructNameStyle::default(), StructNameStyle::CamelCase);
}

#[test]
fn srv_content_splits_request_and_response() {
    let (req, resp) = parse_srv_content(
        "LoopClosure",
        "slam_toolbox",
        "int8 UNSET=0\nint8 START_AT_FIRST_NODE = 1\n---\nbool success\n",
    );
    assert_eq!(req.name, "LoopClosureRequest");
    assert_eq!(resp.name, "LoopClosureResponse");
    assert_eq!(req.package, "slam_toolbox");
    assert_eq!(resp.package, "slam_toolbox");
    assert!(req.fields.is_empty());
    assert_eq!(
        constant_summary(&req.constants),
        vec![
            ("i8".to_string(), "UNSET".to_string(), "0".to_string()),
            ("i8".to_string(), "START_AT_FIRST_NODE".to_string(), "1".to_string()),
        ]
    );
    assert_eq!(
        field_summary(&resp.fields),
        vec![("bool".to_string(), "success".to_string(), false, None)]
    );

    let (req, resp) = parse_srv_content("Empty", "pkg", "int32 a\n");
    assert_eq!(req.fields.len(), 1);
    assert!(resp.fields.is_empty());
}

#[test]
fn srv_paths_name_the_service_and_package() {
    let (name, package) =
        ros2_message_gen::parser::srv_path_names("/share/example_interfaces/srv/AddTwoInts.srv")
            .expect("path names a package");
    assert_eq!(name, "AddTwoInts");
    assert_eq!(package, "example_interfaces");
    assert_eq!(
        ros2_message_gen::parser::srv_path_names("srv/AddTwoInts.srv"),
        Err("invalid .srv package path")
    );
    assert_eq!(
        ros2_message_gen::parser::srv_path_names("/a/b/.."),
        Err("invalid .srv file name")
    );
}

#[test]
fn definition_path_without_package_is_refused() {
    let err = MessageType::from_content("Header.msg", "string frame_id\n")
        .err()
        .expect("no package directory");
    assert!(matches!(
        err,
        ros2_message_gen::parse_error::ParseError::ParseError(ref text)
            if text == "invalid message definition path"
    ));
}

#[test]
fn whitespace_agrees_with_std_on_every_char() {
    for u in 0..=0x10FFFFu32 {
        if let Some(c) = char::from_u32(u) {
            assert_eq!(
                ros2_message_gen::text::char_is_whitespace(c),
                c.is_whitespace(),
                "U+{u:04X}"
            );
        }
    }
}
