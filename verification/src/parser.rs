//! Parsing ROS 2 `.msg` / `.srv` definitions and mapping their types to Rust.

use crate::parse_error::ParseError;
use crate::text::{
    char_is_lowercase, char_is_uppercase, char_to_uppercase_first, chars_eq, chars_eq_str,
    contains_char, copy_range, decimal, find_char, find_sub, first_index, first_match, is_lower, is_upper, last_index,
    lemma_first_index, lines, lines_of, parse_usize, parse_usize_chars, push_chars, push_digits,
    push_str, rfind_char, split_char, split_on, split_whitespace, trim, trim_chars, trim_end_char,
    trim_end_matches, upper_first, words,
};
use crate::unicode::{chars_of, string_from_chars};
use vstd::prelude::*;

verus! {

/// How generated struct names are spelled.
#[derive(Debug, Clone, Copy, PartialEq, Eq, Structural)]
pub enum StructNameStyle {
    /// `Point`, `PkgA` (the default).
    CamelCase,
    /// The message name as written.
    SnakeCase,
    /// Same as `CamelCase`.
    PascalCase,
}

impl Default for StructNameStyle {
    fn default() -> (r: Self)
        ensures
            r == StructNameStyle::CamelCase,
    {
        StructNameStyle::CamelCase
    }
}

/// A field of a message: its type (without array brackets), its name, and its array shape.
#[derive(Debug, Clone)]
pub struct Field {
    pub field_type: String,
    pub name: String,
    pub is_array: bool,
    pub array_size: Option<usize>,
}

/// A constant of a message: its Rust type, its name and its value as written.
#[derive(Debug, Clone)]
pub struct Constant {
    pub const_type: String,
    pub name: String,
    pub value: String,
}

/// A message (or one half of a service) with its package.
#[derive(Debug, Clone)]
pub struct MessageType {
    pub package: String,
    pub name: String,
    pub fields: Vec<Field>,
    pub constants: Vec<Constant>,
}

/// A field as values: type, name, whether it is an array, and the fixed array size.
pub type FieldView = (Seq<char>, Seq<char>, bool, Option<usize>);

/// A constant as values: Rust type, name, value.
pub type ConstantView = (Seq<char>, Seq<char>, Seq<char>);

/// A message as values: package, name, fields, constants.
pub type MessageView = (Seq<char>, Seq<char>, Seq<FieldView>, Seq<ConstantView>);

impl View for MessageType {
    type V = MessageView;

    open spec fn view(&self) -> MessageView {
        (self.package@, self.name@, field_views(self.fields@), constant_views(self.constants@))
    }
}

impl View for Field {
    type V = FieldView;

    open spec fn view(&self) -> FieldView {
        (self.field_type@, self.name@, self.is_array, self.array_size)
    }
}

impl View for Constant {
    type V = ConstantView;

    open spec fn view(&self) -> ConstantView {
        (self.const_type@, self.name@, self.value@)
    }
}

pub open spec fn field_views(fs: Seq<Field>) -> Seq<FieldView> {
    fs.map_values(|f: Field| f@)
}

pub open spec fn constant_views(cs: Seq<Constant>) -> Seq<ConstantView> {
    cs.map_values(|c: Constant| c@)
}

/// The field that a type as written (such as `float64[]` or `uint8[16]`) and a name make: the
/// text before the first `[` is the type; the text after it, up to a further `[`, without
/// trailing `]`, is the array size, which is fixed when it parses as a number.
pub open spec fn field_of(t: Seq<char>, n: Seq<char>) -> FieldView {
    if first_index(t, '[') is Some {
        let parts = split_on(t, '[');
        let array_part = trim_end_char(parts[1], ']');
        if array_part.len() == 0 {
            (parts[0], n, true, None)
        } else {
            (parts[0], n, true, parse_usize(array_part))
        }
    } else {
        (t, n, false, None)
    }
}

/// The Rust path of a ROS built-in message type.
pub open spec fn builtin_path(t: Seq<char>) -> Option<Seq<char>> {
    if t == "builtin_interfaces/Time"@ {
        Some("builtin_interfaces::msg::Time"@)
    } else if t == "builtin_interfaces/Duration"@ {
        Some("builtin_interfaces::msg::Duration"@)
    } else if t == "std_msgs/Header"@ {
        Some("std_msgs::msg::Header"@)
    } else {
        None
    }
}

/// The Rust type of a ROS primitive type.
pub open spec fn basic_type(t: Seq<char>) -> Option<Seq<char>> {
    if t == "bool"@ {
        Some("bool"@)
    } else if t == "byte"@ {
        Some("u8"@)
    } else if t == "char"@ {
        Some("u8"@)
    } else if t == "float32"@ {
        Some("f32"@)
    } else if t == "float64"@ {
        Some("f64"@)
    } else if t == "int8"@ {
        Some("i8"@)
    } else if t == "uint8"@ {
        Some("u8"@)
    } else if t == "int16"@ {
        Some("i16"@)
    } else if t == "uint16"@ {
        Some("u16"@)
    } else if t == "int32"@ {
        Some("i32"@)
    } else if t == "uint32"@ {
        Some("u32"@)
    } else if t == "int64"@ {
        Some("i64"@)
    } else if t == "uint64"@ {
        Some("u64"@)
    } else if t == "string"@ {
        Some("std::string::String"@)
    } else if t == "wstring"@ {
        Some("std::string::String"@)
    } else {
        None
    }
}

/// The Rust path of a message type of `pkg/msg/T`, `pkg/srv/T`, `pkg/T` or `T` form: just `T`
/// inside the current package, `pkg::msg::T` (or `pkg::srv::T`) elsewhere; any other form is
/// kept as written.
pub open spec fn custom_type_path(t: Seq<char>, current: Seq<char>) -> Seq<char> {
    let parts = split_on(t, '/');
    if parts.len() == 3 && parts[1] == "msg"@ {
        if parts[0] == current {
            parts[2]
        } else {
            parts[0] + "::msg::"@ + parts[2]
        }
    } else if parts.len() == 3 && parts[1] == "srv"@ {
        if parts[0] == current {
            parts[2]
        } else {
            parts[0] + "::srv::"@ + parts[2]
        }
    } else if parts.len() == 2 {
        if parts[0] == current {
            parts[1]
        } else {
            parts[0] + "::msg::"@ + parts[1]
        }
    } else if parts.len() == 1 {
        parts[0]
    } else {
        t
    }
}

/// The Rust type of a ROS type (without array shape).
pub open spec fn ros_to_rust(t: Seq<char>, current: Seq<char>) -> Seq<char> {
    match builtin_path(t) {
        Some(p) => p,
        None => match basic_type(t) {
            Some(b) => b,
            None => custom_type_path(t, current),
        },
    }
}

/// The Rust type of a field, array shape included.
pub open spec fn rust_type_of(f: FieldView, current: Seq<char>) -> Seq<char> {
    let base = ros_to_rust(f.0, current);
    if f.2 {
        match f.3 {
            Some(size) => "["@ + base + "; "@ + decimal(size as nat) + "]"@,
            None => "Vec<"@ + base + ">"@,
        }
    } else {
        base
    }
}

pub proof fn lemma_split_on_len(s: Seq<char>, c: char)
    ensures
        split_on(s, c).len() >= 1,
        first_index(s, c) is Some ==> split_on(s, c).len() >= 2,
    decreases s.len(),
{
    lemma_first_index(s, c);
    if first_index(s, c) is Some {
        let i = first_index(s, c)->Some_0;
        lemma_split_on_len(s.skip(i + 1), c);
    }
}

/// The piece of `parts` at `i`, copied.
fn piece(parts: &Vec<Vec<char>>, i: usize) -> (r: Vec<char>)
    requires
        i < parts@.len(),
    ensures
        r@ == parts@[i as int]@,
{
    crate::text::copy_range(parts[i].as_slice(), 0, parts[i].len())
}

impl Field {
    pub fn new(field_type: String, name: String) -> (r: Self)
        ensures
            r@ == field_of(field_type@, name@),
    {
        let t = chars_of(field_type.as_str());
        if contains_char(t.as_slice(), '[') {
            let parts = split_char(t.as_slice(), '[');
            proof {
                lemma_split_on_len(t@, '[');
            }
            let base_type = piece(&parts, 0);
            let array_part = trim_end_matches(parts[1].as_slice(), ']');
            if array_part.len() == 0 {
                Self {
                    field_type: string_from_chars(base_type.as_slice()),
                    name,
                    is_array: true,
                    array_size: None,
                }
            } else {
                let size = parse_usize_chars(array_part.as_slice());
                Self {
                    field_type: string_from_chars(base_type.as_slice()),
                    name,
                    is_array: true,
                    array_size: size,
                }
            }
        } else {
            Self { field_type, name, is_array: false, array_size: None }
        }
    }

    /// The Rust type of this field as seen from `current_package`.
    pub fn rust_type(&self, current_package: &str) -> (r: String)
        ensures
            r@ == rust_type_of(self@, current_package@),
    {
        let base = self.map_ros_type_to_rust(self.field_type.as_str(), current_package);
        if self.is_array {
            let mut out: Vec<char> = Vec::new();
            match self.array_size {
                Some(size) => {
                    push_str(&mut out, "[");
                    push_chars(&mut out, base.as_slice());
                    push_str(&mut out, "; ");
                    push_digits(&mut out, size as u64, 10);
                    push_str(&mut out, "]");
                },
                None => {
                    push_str(&mut out, "Vec<");
                    push_chars(&mut out, base.as_slice());
                    push_str(&mut out, ">");
                },
            }
            string_from_chars(out.as_slice())
        } else {
            string_from_chars(base.as_slice())
        }
    }

    pub(crate) fn map_ros_type_to_rust(&self, ros_type: &str, current_package: &str) -> (r: Vec<char>)
        ensures
            r@ == ros_to_rust(ros_type@, current_package@),
    {
        let t = chars_of(ros_type);
        let mut out: Vec<char> = Vec::new();
        if chars_eq_str(t.as_slice(), "builtin_interfaces/Time") {
            push_str(&mut out, "builtin_interfaces::msg::Time");
        } else if chars_eq_str(t.as_slice(), "builtin_interfaces/Duration") {
            push_str(&mut out, "builtin_interfaces::msg::Duration");
        } else if chars_eq_str(t.as_slice(), "std_msgs/Header") {
            push_str(&mut out, "std_msgs::msg::Header");
        } else if chars_eq_str(t.as_slice(), "bool") {
            push_str(&mut out, "bool");
        } else if chars_eq_str(t.as_slice(), "byte") {
            push_str(&mut out, "u8");
        } else if chars_eq_str(t.as_slice(), "char") {
            push_str(&mut out, "u8");
        } else if chars_eq_str(t.as_slice(), "float32") {
            push_str(&mut out, "f32");
        } else if chars_eq_str(t.as_slice(), "float64") {
            push_str(&mut out, "f64");
        } else if chars_eq_str(t.as_slice(), "int8") {
            push_str(&mut out, "i8");
        } else if chars_eq_str(t.as_slice(), "uint8") {
            push_str(&mut out, "u8");
        } else if chars_eq_str(t.as_slice(), "int16") {
            push_str(&mut out, "i16");
        } else if chars_eq_str(t.as_slice(), "uint16") {
            push_str(&mut out, "u16");
        } else if chars_eq_str(t.as_slice(), "int32") {
            push_str(&mut out, "i32");
        } else if chars_eq_str(t.as_slice(), "uint32") {
            push_str(&mut out, "u32");
        } else if chars_eq_str(t.as_slice(), "int64") {
            push_str(&mut out, "i64");
        } else if chars_eq_str(t.as_slice(), "uint64") {
            push_str(&mut out, "u64");
        } else if chars_eq_str(t.as_slice(), "string") {
            push_str(&mut out, "std::string::String");
        } else if chars_eq_str(t.as_slice(), "wstring") {
            push_str(&mut out, "std::string::String");
        } else {
            return self.map_custom_type_path(t.as_slice(), current_package);
        }
        out
    }

    fn map_custom_type_path(&self, ros_type: &[char], current_package: &str) -> (r: Vec<char>)
        ensures
            r@ == custom_type_path(ros_type@, current_package@),
    {
        let current = chars_of(current_package);
        let parts = split_char(ros_type, '/');
        let mut out: Vec<char> = Vec::new();
        if parts.len() == 3 && (chars_eq_str(parts[1].as_slice(), "msg") || chars_eq_str(
            parts[1].as_slice(),
            "srv",
        )) {
            let is_msg = chars_eq_str(parts[1].as_slice(), "msg");
            if chars_eq(parts[0].as_slice(), current.as_slice()) {
                return piece(&parts, 2);
            }
            push_chars(&mut out, parts[0].as_slice());
            if is_msg {
                push_str(&mut out, "::msg::");
            } else {
                push_str(&mut out, "::srv::");
            }
            push_chars(&mut out, parts[2].as_slice());
            out
        } else if parts.len() == 2 {
            if chars_eq(parts[0].as_slice(), current.as_slice()) {
                return piece(&parts, 1);
            }
            push_chars(&mut out, parts[0].as_slice());
            push_str(&mut out, "::msg::");
            push_chars(&mut out, parts[1].as_slice());
            out
        } else if parts.len() == 1 {
            piece(&parts, 0)
        } else {
            push_chars(&mut out, ros_type);
            out
        }
    }
}

/// The text of a definition line that matters: before any `#`, without surrounding white space.
pub open spec fn line_text(raw: Seq<char>) -> Seq<char> {
    trim(split_on(raw, '#')[0])
}

/// A constant's name starts upper case (or is empty), has no brackets, and has no lower-case
/// letter.
pub open spec fn is_constant_name(n: Seq<char>) -> bool {
    &&& (n.len() == 0 || is_upper(n[0]))
    &&& first_index(n, '[') is None
    &&& first_index(n, ']') is None
    &&& forall|i: int| 0 <= i < n.len() ==> !(is_lower(#[trigger] n[i]) && n[i] != '_')
}

/// The fields and constants that one non-empty definition line declares: `TYPE NAME=VALUE`
/// with a constant-style name is a constant, `TYPE NAME=...` otherwise a field, and any other
/// line of at least two words a field of its first two words.
pub open spec fn line_entries(line: Seq<char>, pkg: Seq<char>) -> (Seq<FieldView>, Seq<ConstantView>) {
    let parts = words(line);
    if parts.len() == 0 {
        (Seq::empty(), Seq::empty())
    } else if first_index(line, '=') is Some && parts.len() >= 2 {
        let eq = first_index(line, '=')->Some_0;
        let left = trim(line.take(eq));
        let right = trim(line.skip(eq + 1));
        let lp = words(left);
        if lp.len() >= 2 {
            if is_constant_name(lp[1]) {
                (Seq::empty(), seq![(rust_type_of(field_of(lp[0], "_"@), pkg), lp[1], right)])
            } else {
                (seq![field_of(lp[0], lp[1])], Seq::empty())
            }
        } else {
            (Seq::empty(), Seq::empty())
        }
    } else if parts.len() >= 2 {
        (seq![field_of(parts[0], parts[1])], Seq::empty())
    } else {
        (Seq::empty(), Seq::empty())
    }
}

/// The fields and constants of definition lines, in order, up to a `---` line.
pub open spec fn parse_lines(ls: Seq<Seq<char>>, pkg: Seq<char>) -> (Seq<FieldView>, Seq<ConstantView>)
    decreases ls.len(),
{
    if ls.len() == 0 {
        (Seq::empty(), Seq::empty())
    } else {
        let line = line_text(ls[0]);
        let rest = parse_lines(ls.drop_first(), pkg);
        if line.len() == 0 {
            rest
        } else if line == "---"@ {
            (Seq::empty(), Seq::empty())
        } else {
            let entries = line_entries(line, pkg);
            (entries.0 + rest.0, entries.1 + rest.1)
        }
    }
}

/// The fields and constants of a definition, up to a `---` line.
pub open spec fn parse_definition(content: Seq<char>, pkg: Seq<char>) -> (Seq<FieldView>, Seq<ConstantView>) {
    parse_lines(lines_of(content), pkg)
}

/// Whether a name is constant-style.
fn is_constant_name_exec(n: &[char]) -> (r: bool)
    ensures
        r == is_constant_name(n@),
{
    if n.len() > 0 && !char_is_uppercase(n[0]) {
        return false;
    }
    if contains_char(n, '[') || contains_char(n, ']') {
        return false;
    }
    let mut i: usize = 0;
    while i < n.len()
        invariant
            i <= n@.len(),
            forall|j: int| 0 <= j < i ==> !(is_lower(#[trigger] n@[j]) && n@[j] != '_'),
        decreases n@.len() - i,
    {
        if char_is_lowercase(n[i]) && n[i] != '_' {
            return false;
        }
        i = i + 1;
    }
    true
}

/// Appends what one non-empty definition line declares.
fn parse_line(line: &[char], package_name: &str, fields: &mut Vec<Field>, constants: &mut Vec<Constant>)
    ensures
        field_views(final(fields)@) == field_views(old(fields)@) + line_entries(line@, package_name@).0,
        constant_views(final(constants)@) == constant_views(old(constants)@) + line_entries(
            line@,
            package_name@,
        ).1,
{
    let ghost f0 = fields@;
    let ghost c0 = constants@;
    assert(field_views(f0) + Seq::<FieldView>::empty() =~= field_views(f0));
    assert(constant_views(c0) + Seq::<ConstantView>::empty() =~= constant_views(c0));
    let parts = split_whitespace(line);
    if parts.len() == 0 {
        return;
    }
    if contains_char(line, '=') && parts.len() >= 2 {
        let found = find_char(line, '=');
        if found.is_none() {
            return;
        }
        let eq = found.unwrap();
        let len = line.len();
        assert(eq < len);
        proof {
            lemma_first_index(line@, '=');
        }
        let left = trim_chars(copy_range(line, 0, eq).as_slice());
        let right = trim_chars(copy_range(line, eq + 1, len).as_slice());
        assert(line@.take(eq as int) =~= line@.subrange(0, eq as int));
        assert(line@.skip(eq + 1) =~= line@.subrange(eq + 1, line@.len() as int));
        let left_parts = split_whitespace(left.as_slice());
        if left_parts.len() >= 2 {
            let field_type = string_from_chars(left_parts[0].as_slice());
            let name_part = string_from_chars(left_parts[1].as_slice());
            if is_constant_name_exec(left_parts[1].as_slice()) {
                let underscore = string_from_chars(chars_of("_").as_slice());
                let const_type = Field::new(field_type, underscore).rust_type(package_name);
                let value = string_from_chars(right.as_slice());
                constants.push(Constant { const_type, name: name_part, value });
                assert(constant_views(constants@) =~= constant_views(c0) + line_entries(
                    line@,
                    package_name@,
                ).1);
            } else {
                fields.push(Field::new(field_type, name_part));
                assert(field_views(fields@) =~= field_views(f0) + line_entries(
                    line@,
                    package_name@,
                ).0);
            }
        }
        return;
    }
    if parts.len() >= 2 {
        let field_type = string_from_chars(parts[0].as_slice());
        let name = string_from_chars(parts[1].as_slice());
        fields.push(Field::new(field_type, name));
        assert(field_views(fields@) =~= field_views(f0) + line_entries(line@, package_name@).0);
    }
}

/// The fields and constants declared by a `.msg` definition (or the part of a `.srv`
/// definition before `---`), with constant types resolved from `package_name`.
pub(crate) fn parse_fields_and_constants(content: &str, package_name: &str) -> (r: (
    Vec<Field>,
    Vec<Constant>,
))
    ensures
        field_views(r.0@) == parse_definition(content@, package_name@).0,
        constant_views(r.1@) == parse_definition(content@, package_name@).1,
{
    let text = chars_of(content);
    let all = lines(text.as_slice());
    let ghost ls = lines_of(content@);
    let mut fields: Vec<Field> = Vec::new();
    let mut constants: Vec<Constant> = Vec::new();
    let mut i: usize = 0;
    assert(ls.skip(0) =~= ls);
    assert(field_views(fields@) + parse_lines(ls, package_name@).0 =~= parse_lines(ls, package_name@).0);
    assert(constant_views(constants@) + parse_lines(ls, package_name@).1 =~= parse_lines(
        ls,
        package_name@,
    ).1);
    while i < all.len()
        invariant_except_break
            i <= all@.len(),
            all@.len() == ls.len(),
            ls == lines_of(content@),
            forall|k: int| 0 <= k < all@.len() ==> (#[trigger] all@[k])@ == ls[k],
            parse_lines(ls, package_name@).0 == field_views(fields@) + parse_lines(
                ls.skip(i as int),
                package_name@,
            ).0,
            parse_lines(ls, package_name@).1 == constant_views(constants@) + parse_lines(
                ls.skip(i as int),
                package_name@,
            ).1,
        ensures
            field_views(fields@) == parse_lines(ls, package_name@).0,
            constant_views(constants@) == parse_lines(ls, package_name@).1,
        decreases all@.len() - i,
    {
        let raw = all[i].as_slice();
        let ghost rest = ls.skip(i as int);
        assert(rest[0] == raw@);
        assert(rest.drop_first() =~= ls.skip(i + 1));
        let before_hash = match find_char(raw, '#') {
            Some(k) => copy_range(raw, 0, k),
            None => copy_range(raw, 0, raw.len()),
        };
        proof {
            lemma_first_index(raw@, '#');
            assert(before_hash@ =~= split_on(raw@, '#')[0]);
        }
        let line = trim_chars(before_hash.as_slice());
        if line.len() == 0 {
            i = i + 1;
            continue;
        }
        if chars_eq_str(line.as_slice(), "---") {
            proof {
                assert(field_views(fields@) + Seq::<FieldView>::empty() =~= field_views(fields@));
                assert(constant_views(constants@) + Seq::<ConstantView>::empty() =~= constant_views(
                    constants@,
                ));
                assert(line@ == line_text(rest[0]));
            }
            break;
        }
        let ghost fv = field_views(fields@);
        let ghost cv = constant_views(constants@);
        parse_line(line.as_slice(), package_name, &mut fields, &mut constants);
        proof {
            let e = line_entries(line@, package_name@);
            let r = parse_lines(ls.skip(i + 1), package_name@);
            assert(fv + (e.0 + r.0) =~= field_views(fields@) + r.0);
            assert(cv + (e.1 + r.1) =~= constant_views(constants@) + r.1);
        }
        i = i + 1;
    }
    (fields, constants)
}

/// The request and response parts of a `.srv` definition: the text before the first `---`
/// and the text after it (empty when there is none).
pub open spec fn srv_sections(content: Seq<char>) -> (Seq<char>, Seq<char>) {
    match first_match(content, "---"@) {
        Some(i) => (content.take(i), content.skip(i + 3)),
        None => (content, Seq::empty()),
    }
}

/// The request and response messages of the service `service_name` of `package`, whose
/// definition is `content`: named `<service_name>Request` and `<service_name>Response`.
pub fn parse_srv_content(service_name: &str, package: &str, content: &str) -> (r: (
    MessageType,
    MessageType,
))
    ensures
        r.0@ == ({
            let d = parse_definition(srv_sections(content@).0, package@);
            (package@, service_name@ + "Request"@, d.0, d.1)
        }),
        r.1@ == ({
            let d = parse_definition(srv_sections(content@).1, package@);
            (package@, service_name@ + "Response"@, d.0, d.1)
        }),
{
    let text = chars_of(content);
    proof {
        reveal_strlit("---");
        assert("---"@.len() == 3);
    }
    let found = find_sub(text.as_slice(), "---");
    let (request_text, response_text) = match found {
        Some(i) => {
            let n = text.len();
            let after: usize = i + 3;
            (copy_range(text.as_slice(), 0, i), copy_range(text.as_slice(), after, n))
        },
        None => (copy_range(text.as_slice(), 0, text.len()), Vec::new()),
    };
    proof {
        assert(text@.subrange(0, text@.len() as int) =~= text@);
        if let Some(i) = first_match(content@, "---"@) {
            assert(text@.subrange(0, i) =~= content@.take(i));
            assert(text@.subrange(i + 3, text@.len() as int) =~= content@.skip(i + 3));
        }
        assert(response_text@ =~= srv_sections(content@).1);
    }
    let request_str = string_from_chars(request_text.as_slice());
    let response_str = string_from_chars(response_text.as_slice());
    let (request_fields, request_constants) = parse_fields_and_constants(request_str.as_str(), package);
    let (response_fields, response_constants) = parse_fields_and_constants(
        response_str.as_str(),
        package,
    );
    let mut request_name = chars_of(service_name);
    push_str(&mut request_name, "Request");
    let mut response_name = chars_of(service_name);
    push_str(&mut response_name, "Response");
    let request = MessageType {
        package: string_from_chars(chars_of(package).as_slice()),
        name: string_from_chars(request_name.as_slice()),
        fields: request_fields,
        constants: request_constants,
    };
    let response = MessageType {
        package: string_from_chars(chars_of(package).as_slice()),
        name: string_from_chars(response_name.as_slice()),
        fields: response_fields,
        constants: response_constants,
    };
    (request, response)
}

/// A path component that names something (not empty and not `.`).
pub open spec fn is_named_part(c: Seq<char>) -> bool {
    c.len() > 0 && c != "."@
}

/// The components in `cs` that name something, in order.
pub open spec fn named_parts(cs: Seq<Seq<char>>) -> Seq<Seq<char>>
    decreases cs.len(),
{
    if cs.len() == 0 {
        Seq::empty()
    } else if is_named_part(cs.last()) {
        named_parts(cs.drop_last()).push(cs.last())
    } else {
        named_parts(cs.drop_last())
    }
}

/// The components of a `/`-separated path, without empty and `.` components.
pub open spec fn path_parts(p: Seq<char>) -> Seq<Seq<char>> {
    named_parts(split_on(p, '/'))
}

/// A file name without its extension (the text after its last `.`), unless the only `.` starts
/// the name.
pub open spec fn file_stem_of(name: Seq<char>) -> Seq<char> {
    match last_index(name, '.') {
        Some(i) => if i == 0 {
            name
        } else {
            name.take(i)
        },
        None => name,
    }
}

/// The message name and package that a definition's path gives: the file's stem, and the
/// directory two levels above the file; `None` when the path has no such directory.
pub open spec fn message_path_names(p: Seq<char>) -> Option<(Seq<char>, Seq<char>)> {
    let parts = path_parts(p);
    if parts.len() < 3 || parts.last() == ".."@ || parts[parts.len() - 3] == ".."@ {
        None
    } else {
        Some((file_stem_of(parts.last()), parts[parts.len() - 3]))
    }
}

/// The named components of a path.
fn path_components(p: &[char]) -> (r: Vec<Vec<char>>)
    ensures
        r@.len() == path_parts(p@).len(),
        forall|i: int| 0 <= i < r@.len() ==> (#[trigger] r@[i])@ == path_parts(p@)[i],
{
    let pieces = split_char(p, '/');
    let ghost all = split_on(p@, '/');
    let mut out: Vec<Vec<char>> = Vec::new();
    let mut i: usize = 0;
    assert(named_parts(all.take(0)) =~= Seq::<Seq<char>>::empty());
    while i < pieces.len()
        invariant
            i <= pieces@.len(),
            pieces@.len() == all.len(),
            all == split_on(p@, '/'),
            forall|k: int| 0 <= k < pieces@.len() ==> (#[trigger] pieces@[k])@ == all[k],
            out@.len() == named_parts(all.take(i as int)).len(),
            forall|k: int| 0 <= k < out@.len() ==> (#[trigger] out@[k])@ == named_parts(
                all.take(i as int),
            )[k],
        decreases pieces@.len() - i,
    {
        let ghost before = named_parts(all.take(i as int));
        assert(all.take(i + 1).drop_last() =~= all.take(i as int));
        let keep = pieces[i].len() > 0 && !chars_eq_str(pieces[i].as_slice(), ".");
        if keep {
            out.push(copy_range(pieces[i].as_slice(), 0, pieces[i].len()));
        }
        i = i + 1;
        proof {
            let now = named_parts(all.take(i as int));
            if keep {
                assert(now =~= before.push(all[i - 1]));
            } else {
                assert(now =~= before);
            }
        }
    }
    assert(all.take(pieces@.len() as int) =~= all);
    out
}

/// A path whose file name is missing: it has no named component, or it ends in `..`.
pub open spec fn lacks_file_name(p: Seq<char>) -> bool {
    path_parts(p).len() == 0 || path_parts(p).last() == ".."@
}

/// The service name and package that a `.srv` file's path gives: the file's stem and the
/// directory two levels above the file. A path without a file name is refused as an invalid
/// file name, and one without that directory as an invalid package path.
pub fn srv_path_names(path: &str) -> (r: Result<(String, String), &'static str>)
    ensures
        match message_path_names(path@) {
            Some((name, package)) => r matches Ok((n, p)) && n@ == name && p@ == package,
            None => r matches Err(m) && (if lacks_file_name(path@) {
                m@ == "invalid .srv file name"@
            } else {
                m@ == "invalid .srv package path"@
            }),
        },
{
    let p = chars_of(path);
    let parts = path_components(p.as_slice());
    let n = parts.len();
    if n == 0 || chars_eq_str(parts[n - 1].as_slice(), "..") {
        proof {
            reveal_strlit("invalid .srv file name");
        }
        return Err("invalid .srv file name");
    }
    if n < 3 || chars_eq_str(parts[n - 3].as_slice(), "..") {
        proof {
            reveal_strlit("invalid .srv package path");
        }
        return Err("invalid .srv package path");
    }
    let file_name = parts[n - 1].as_slice();
    let stem = match rfind_char(file_name, '.') {
        Some(i) => if i == 0 {
            copy_range(file_name, 0, file_name.len())
        } else {
            copy_range(file_name, 0, i)
        },
        None => copy_range(file_name, 0, file_name.len()),
    };
    proof {
        crate::text::lemma_last_index(file_name@, '.');
        assert(file_name@.subrange(0, file_name@.len() as int) =~= file_name@);
    }
    Ok((string_from_chars(stem.as_slice()), string_from_chars(parts[n - 3].as_slice())))
}

impl MessageType {
    /// Parses a definition whose file is at `path` (`.../<package>/<msg|srv>/<Name>.msg`).
    pub fn from_content(path: &str, content: &str) -> (r: Result<Self, ParseError>)
        ensures
            match message_path_names(path@) {
                Some((name, package)) => r matches Ok(m) && m.name@ == name && m.package@
                    == package && field_views(m.fields@) == parse_definition(content@, package).0
                    && constant_views(m.constants@) == parse_definition(content@, package).1,
                None => r matches Err(ParseError::ParseError(text)) && text@
                    == "invalid message definition path"@,
            },
    {
        let p = chars_of(path);
        let parts = path_components(p.as_slice());
        let n = parts.len();
        if n < 3 || chars_eq_str(parts[n - 1].as_slice(), "..") || chars_eq_str(
            parts[n - 3].as_slice(),
            "..",
        ) {
            proof {
                reveal_strlit("invalid message definition path");
            }
            let message = string_from_chars(chars_of("invalid message definition path").as_slice());
            return Err(ParseError::ParseError(message));
        }
        let file_name = parts[n - 1].as_slice();
        let stem = match rfind_char(file_name, '.') {
            Some(i) => if i == 0 {
                copy_range(file_name, 0, file_name.len())
            } else {
                copy_range(file_name, 0, i)
            },
            None => copy_range(file_name, 0, file_name.len()),
        };
        proof {
            crate::text::lemma_last_index(file_name@, '.');
            assert(file_name@.subrange(0, file_name@.len() as int) =~= file_name@);
        }
        let package = string_from_chars(parts[n - 3].as_slice());
        let (fields, constants) = parse_fields_and_constants(content, package.as_str());
        Ok(MessageType { package, name: string_from_chars(stem.as_slice()), fields, constants })
    }

    /// The name of the generated struct in the given style.
    pub fn struct_name(&self, style: StructNameStyle) -> (r: String)
        ensures
            style == StructNameStyle::SnakeCase ==> r@ == self.name@,
            style != StructNameStyle::SnakeCase ==> r@ == camel_case(self.name@, true),
    {
        match style {
            StructNameStyle::CamelCase | StructNameStyle::PascalCase => {
                self.snake_to_camel(self.name.as_str())
            },
            StructNameStyle::SnakeCase => string_from_chars(chars_of(self.name.as_str()).as_slice()),
        }
    }

    pub(crate) fn snake_to_camel(&self, snake_str: &str) -> (r: String)
        ensures
            r@ == camel_case(snake_str@, true),
    {
        let s = chars_of(snake_str);
        let mut camel: Vec<char> = Vec::new();
        let mut capitalize_next = true;
        let mut i: usize = 0;
        assert(s@.skip(0) =~= s@);
        assert(camel@ + camel_case(s@, true) =~= camel_case(s@, true));
        while i < s.len()
            invariant
                i <= s@.len(),
                camel_case(s@, true) == camel@ + camel_case(s@.skip(i as int), capitalize_next),
            decreases s@.len() - i,
        {
            let ch = s[i];
            let ghost rest = s@.skip(i as int);
            assert(rest.drop_first() =~= s@.skip(i + 1));
            if ch == '_' {
                capitalize_next = true;
            } else if capitalize_next {
                camel.push(char_to_uppercase_first(ch));
                capitalize_next = false;
            } else {
                camel.push(ch);
            }
            i = i + 1;
            assert(camel_case(s@, true) =~= camel@ + camel_case(s@.skip(i as int), capitalize_next));
        }
        assert(s@.skip(i as int) =~= Seq::<char>::empty());
        assert(camel@ + Seq::<char>::empty() =~= camel@);
        string_from_chars(camel.as_slice())
    }
}

/// `s` with each `_` dropped and the character after it (and the first one, when `cap`) upper
/// cased.
pub open spec fn camel_case(s: Seq<char>, cap: bool) -> Seq<char>
    decreases s.len(),
{
    if s.len() == 0 {
        Seq::empty()
    } else if s[0] == '_' {
        camel_case(s.drop_first(), true)
    } else if cap {
        seq![upper_first(s[0])] + camel_case(s.drop_first(), false)
    } else {
        seq![s[0]] + camel_case(s.drop_first(), false)
    }
}

} // verus!
