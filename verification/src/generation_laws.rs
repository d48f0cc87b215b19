//! Laws on what is parsed from definitions and what is generated from them.

use crate::generator::{
    all_dependencies, dependency_package, field_dependencies, is_primitive_name,
    message_dependencies, service_dependencies,
};
use crate::parser::{
    basic_type, builtin_path, custom_type_path, field_of, is_constant_name, line_entries, ros_to_rust,
    rust_type_of, FieldView, MessageView,
};
use crate::render::field_decode_expr;
use crate::text::{
    decimal, first_index, first_match, lemma_first_index, lemma_first_match_before,
    lemma_first_match_is, lemma_split_join, split_on, trim, trim_end_char, trim_start_char, trim_start_str,
    words,
};
use vstd::prelude::*;

verus! {

/// A type written without `[` is a single value of that type.
pub proof fn lemma_field_without_brackets(t: Seq<char>, n: Seq<char>)
    requires
        forall|j: int| 0 <= j < t.len() ==> t[j] != '[',
    ensures
        field_of(t, n) == (t, n, false, None::<usize>),
{
    lemma_first_index(t, '[');
}

/// The ROS type names that the type mapping tells apart differ from one another.
proof fn lemma_names_differ()
    ensures
        "builtin_interfaces/Time"@.len() == 23,
        "builtin_interfaces/Duration"@.len() == 27,
        "std_msgs/Header"@.len() == 15,
        "bool"@ == seq!['b', 'o', 'o', 'l'],
        "byte"@ == seq!['b', 'y', 't', 'e'],
        "char"@ == seq!['c', 'h', 'a', 'r'],
        "float32"@ == seq!['f', 'l', 'o', 'a', 't', '3', '2'],
        "float64"@ == seq!['f', 'l', 'o', 'a', 't', '6', '4'],
        "int8"@ == seq!['i', 'n', 't', '8'],
        "uint8"@ == seq!['u', 'i', 'n', 't', '8'],
        "int16"@ == seq!['i', 'n', 't', '1', '6'],
        "uint16"@ == seq!['u', 'i', 'n', 't', '1', '6'],
        "int32"@ == seq!['i', 'n', 't', '3', '2'],
        "uint32"@ == seq!['u', 'i', 'n', 't', '3', '2'],
        "int64"@ == seq!['i', 'n', 't', '6', '4'],
        "uint64"@ == seq!['u', 'i', 'n', 't', '6', '4'],
        "string"@ == seq!['s', 't', 'r', 'i', 'n', 'g'],
        "wstring"@ == seq!['w', 's', 't', 'r', 'i', 'n', 'g'],
{
    reveal_strlit("builtin_interfaces/Time");
    reveal_strlit("builtin_interfaces/Duration");
    reveal_strlit("std_msgs/Header");
    reveal_strlit("bool");
    reveal_strlit("byte");
    reveal_strlit("char");
    reveal_strlit("float32");
    reveal_strlit("float64");
    reveal_strlit("int8");
    reveal_strlit("uint8");
    reveal_strlit("int16");
    reveal_strlit("uint16");
    reveal_strlit("int32");
    reveal_strlit("uint32");
    reveal_strlit("int64");
    reveal_strlit("uint64");
    reveal_strlit("string");
    reveal_strlit("wstring");
}

/// Each ROS primitive type is mapped to its fixed Rust type, whatever the field's name and the
/// package it is seen from: the integer types to the Rust integers of the same signedness and
/// width, the floating-point types to `f32` and `f64`, `bool` to `bool`, `byte` and `char` to
/// `u8`, and both string types to `std::string::String`.
pub proof fn law_primitive_field_types(n: Seq<char>, current: Seq<char>)
    ensures
        rust_type_of(field_of("bool"@, n), current) == "bool"@,
        rust_type_of(field_of("byte"@, n), current) == "u8"@,
        rust_type_of(field_of("char"@, n), current) == "u8"@,
        rust_type_of(field_of("int8"@, n), current) == "i8"@,
        rust_type_of(field_of("uint8"@, n), current) == "u8"@,
        rust_type_of(field_of("int16"@, n), current) == "i16"@,
        rust_type_of(field_of("uint16"@, n), current) == "u16"@,
        rust_type_of(field_of("int32"@, n), current) == "i32"@,
        rust_type_of(field_of("uint32"@, n), current) == "u32"@,
        rust_type_of(field_of("int64"@, n), current) == "i64"@,
        rust_type_of(field_of("uint64"@, n), current) == "u64"@,
        rust_type_of(field_of("float32"@, n), current) == "f32"@,
        rust_type_of(field_of("float64"@, n), current) == "f64"@,
        rust_type_of(field_of("string"@, n), current) == "std::string::String"@,
        rust_type_of(field_of("wstring"@, n), current) == "std::string::String"@,
{
    lemma_names_differ();
    assert(ros_to_rust("bool"@, current) == "bool"@) by {
        reveal_strlit("bool");
        reveal_strlit("bool");
    }
    lemma_field_without_brackets("bool"@, n);
    assert(ros_to_rust("byte"@, current) == "u8"@) by {
        reveal_strlit("byte");
        reveal_strlit("u8");
    }
    lemma_field_without_brackets("byte"@, n);
    assert(ros_to_rust("char"@, current) == "u8"@) by {
        reveal_strlit("char");
        reveal_strlit("u8");
    }
    lemma_field_without_brackets("char"@, n);
    assert(ros_to_rust("int8"@, current) == "i8"@) by {
        reveal_strlit("int8");
        reveal_strlit("i8");
    }
    lemma_field_without_brackets("int8"@, n);
    assert(ros_to_rust("uint8"@, current) == "u8"@) by {
        reveal_strlit("uint8");
        reveal_strlit("u8");
    }
    lemma_field_without_brackets("uint8"@, n);
    assert(ros_to_rust("int16"@, current) == "i16"@) by {
        reveal_strlit("int16");
        reveal_strlit("i16");
    }
    lemma_field_without_brackets("int16"@, n);
    assert(ros_to_rust("uint16"@, current) == "u16"@) by {
        reveal_strlit("uint16");
        reveal_strlit("u16");
    }
    lemma_field_without_brackets("uint16"@, n);
    assert(ros_to_rust("int32"@, current) == "i32"@) by {
        reveal_strlit("int32");
        reveal_strlit("i32");
    }
    lemma_field_without_brackets("int32"@, n);
    assert(ros_to_rust("uint32"@, current) == "u32"@) by {
        reveal_strlit("uint32");
        reveal_strlit("u32");
    }
    lemma_field_without_brackets("uint32"@, n);
    assert(ros_to_rust("int64"@, current) == "i64"@) by {
        reveal_strlit("int64");
        reveal_strlit("i64");
    }
    lemma_field_without_brackets("int64"@, n);
    assert(ros_to_rust("uint64"@, current) == "u64"@) by {
        reveal_strlit("uint64");
        reveal_strlit("u64");
    }
    lemma_field_without_brackets("uint64"@, n);
    assert(ros_to_rust("float32"@, current) == "f32"@) by {
        reveal_strlit("float32");
        reveal_strlit("f32");
    }
    lemma_field_without_brackets("float32"@, n);
    assert(ros_to_rust("float64"@, current) == "f64"@) by {
        reveal_strlit("float64");
        reveal_strlit("f64");
    }
    lemma_field_without_brackets("float64"@, n);
    assert(ros_to_rust("string"@, current) == "std::string::String"@) by {
        reveal_strlit("string");
        reveal_strlit("std::string::String");
    }
    lemma_field_without_brackets("string"@, n);
    assert(ros_to_rust("wstring"@, current) == "std::string::String"@) by {
        reveal_strlit("wstring");
        reveal_strlit("std::string::String");
    }
    lemma_field_without_brackets("wstring"@, n);
}

/// A definition line without `=` whose first two words are a type and a name declares exactly
/// one field, of those two words, whatever words follow them (such as a default value), and no
/// constant.
pub proof fn law_line_declares_its_field(line: Seq<char>, pkg: Seq<char>)
    requires
        first_index(line, '=') is None,
        words(line).len() >= 2,
    ensures
        line_entries(line, pkg) == (
            seq![field_of(words(line)[0], words(line)[1])],
            Seq::<(Seq<char>, Seq<char>, Seq<char>)>::empty(),
        ),
{
}

/// A definition line `TYPE NAME=VALUE` declares exactly one entry: a constant named `NAME` of
/// the Rust type of `TYPE`, whose value is the text after the first `=` without surrounding
/// white space, when `NAME` is constant-style; otherwise a field of `TYPE` and `NAME`.
pub proof fn law_line_with_value(line: Seq<char>, pkg: Seq<char>)
    requires
        first_index(line, '=') is Some,
        words(line).len() >= 2,
        words(trim(line.take(first_index(line, '=')->Some_0))).len() >= 2,
    ensures
        ({
            let eq = first_index(line, '=')->Some_0;
            let left = words(trim(line.take(eq)));
            if is_constant_name(left[1]) {
                line_entries(line, pkg) == (
                    Seq::<FieldView>::empty(),
                    seq![(rust_type_of(field_of(left[0], "_"@), pkg), left[1], trim(line.skip(eq + 1)))],
                )
            } else {
                line_entries(line, pkg) == (
                    seq![field_of(left[0], left[1])],
                    Seq::<(Seq<char>, Seq<char>, Seq<char>)>::empty(),
                )
            }
        }),
{
}

/// A field is decoded as the Rust type it is declared with, in its CDR form: a field of type
/// `Vec<T>` (an unbounded sequence) by `read_seq::<T>`, which reads a count and then that many
/// values; a field of type `[T; N]` by `read_array::<T, N>`, which reads exactly `N` values; and
/// a field of a single type `T` by `T`'s own `DecodeCdr` impl.
pub proof fn law_decode_follows_rust_type(f: FieldView, pkg: Seq<char>)
    ensures
        ({
            let t = ros_to_rust(f.0, pkg);
            &&& f.2 && f.3 is None ==> rust_type_of(f, pkg) == "Vec<"@ + t + ">"@
                && field_decode_expr(f, pkg) == "decoder.read_seq::<"@ + t + ">()?"@
            &&& f.2 && f.3 is Some ==> rust_type_of(f, pkg) == "["@ + t + "; "@ + decimal(
                f.3->0 as nat,
            ) + "]"@ && field_decode_expr(f, pkg) == "decoder.read_array::<"@ + t + ", "@
                + decimal(f.3->0 as nat) + ">()?"@
            &&& !f.2 ==> rust_type_of(f, pkg) == t && field_decode_expr(f, pkg) == "<"@ + t
                + " as DecodeCdr>::decode_cdr(decoder)?"@
        }),
{
}

/// A character of a package or message name: an ASCII letter or digit, or `_`.
pub open spec fn is_name_char(c: char) -> bool {
    ('a' <= c && c <= 'z') || ('A' <= c && c <= 'Z') || ('0' <= c && c <= '9') || c == '_'
}

/// A package or message name: one or more name characters.
pub open spec fn is_plain_name(s: Seq<char>) -> bool {
    s.len() > 0 && forall|i: int| 0 <= i < s.len() ==> is_name_char(#[trigger] s[i])
}

/// Text without `c` is one piece.
proof fn lemma_split_plain(s: Seq<char>, c: char)
    requires
        forall|j: int| 0 <= j < s.len() ==> s[j] != c,
    ensures
        split_on(s, c) == seq![s],
{
    lemma_first_index(s, c);
}

/// The type text of a message of package `p` named `t`: `p/msg/t` or `p/t`.
pub open spec fn message_type_text(p: Seq<char>, t: Seq<char>, in_msg_dir: bool) -> Seq<char> {
    if in_msg_dir {
        p + "/msg/"@ + t
    } else {
        p + "/"@ + t
    }
}

/// The `/`-separated parts of a message's type text.
proof fn lemma_type_parts(p: Seq<char>, t: Seq<char>, in_msg_dir: bool)
    requires
        is_plain_name(p),
        is_plain_name(t),
    ensures
        split_on(message_type_text(p, t, in_msg_dir), '/') == if in_msg_dir {
            seq![p, "msg"@, t]
        } else {
            seq![p, t]
        },
{
    reveal_strlit("/msg/");
    reveal_strlit("/");
    reveal_strlit("msg");
    lemma_split_plain(p, '/');
    lemma_split_plain(t, '/');
    if in_msg_dir {
        let m = "msg"@;
        lemma_split_plain(m, '/');
        lemma_split_join(m, t, '/');
        assert(p + "/msg/"@ + t =~= p + seq!['/'] + (m + seq!['/'] + t));
        lemma_split_join(p, m + seq!['/'] + t, '/');
        assert(split_on(p + "/msg/"@ + t, '/') =~= seq![p, m, t]);
    } else {
        assert(p + "/"@ + t =~= p + seq!['/'] + t);
        lemma_split_join(p, t, '/');
        assert(split_on(p + "/"@ + t, '/') =~= seq![p, t]);
    }
}

/// The Rust path of a message of another package.
proof fn lemma_custom_path(p: Seq<char>, t: Seq<char>, in_msg_dir: bool, current: Seq<char>)
    requires
        is_plain_name(p),
        is_plain_name(t),
        p != current,
    ensures
        custom_type_path(message_type_text(p, t, in_msg_dir), current) == p + "::msg::"@ + t,
{
    reveal_strlit("msg");
    lemma_type_parts(p, t, in_msg_dir);
}

/// A built-in message type is the message of its package under its own name.
proof fn lemma_builtin_is_custom(p: Seq<char>, t: Seq<char>, in_msg_dir: bool, current: Seq<char>)
    requires
        is_plain_name(p),
        is_plain_name(t),
        p != current,
        builtin_path(message_type_text(p, t, in_msg_dir)) is Some,
    ensures
        builtin_path(message_type_text(p, t, in_msg_dir)) == Some(p + "::msg::"@ + t),
{
    let r = message_type_text(p, t, in_msg_dir);
    lemma_type_parts(p, t, in_msg_dir);
    reveal_strlit("builtin_interfaces/Time");
    reveal_strlit("builtin_interfaces/Duration");
    reveal_strlit("std_msgs/Header");
    reveal_strlit("builtin_interfaces::msg::Time");
    reveal_strlit("builtin_interfaces::msg::Duration");
    reveal_strlit("std_msgs::msg::Header");
    reveal_strlit("builtin_interfaces");
    reveal_strlit("std_msgs");
    reveal_strlit("Time");
    reveal_strlit("Duration");
    reveal_strlit("Header");
    reveal_strlit("::msg::");
    reveal_strlit("/");
    let (bp, bt) = if r == "builtin_interfaces/Time"@ {
        ("builtin_interfaces"@, "Time"@)
    } else if r == "builtin_interfaces/Duration"@ {
        ("builtin_interfaces"@, "Duration"@)
    } else {
        ("std_msgs"@, "Header"@)
    };
    assert(is_plain_name(bp));
    assert(is_plain_name(bt));
    assert(r =~= message_type_text(bp, bt, false));
    lemma_type_parts(bp, bt, false);
    if in_msg_dir {
        assert(split_on(r, '/').len() == 2);
    }
    assert(p == bp && t == bt);
    assert(builtin_path(r) == Some(bp + "::msg::"@ + bt));
}

/// The ROS primitive type names have no `/`.
proof fn lemma_basic_names_without_slash(r: Seq<char>, i: int)
    requires
        basic_type(r) is Some,
        0 <= i < r.len(),
    ensures
        r[i] != '/',
{
    lemma_names_differ();
}

/// The Rust type of a message of another package, written `p/msg/t` or `p/t`, is
/// `p::msg::t`.
pub proof fn lemma_message_rust_type(p: Seq<char>, t: Seq<char>, in_msg_dir: bool, current: Seq<char>)
    requires
        is_plain_name(p),
        is_plain_name(t),
        p != current,
    ensures
        ros_to_rust(message_type_text(p, t, in_msg_dir), current) == p + "::msg::"@ + t,
{
    let r = message_type_text(p, t, in_msg_dir);
    reveal_strlit("/msg/");
    reveal_strlit("/");
    assert(r[p.len() as int] == '/');
    if basic_type(r) is Some {
        lemma_basic_names_without_slash(r, p.len() as int);
    }
    if builtin_path(r) is Some {
        lemma_builtin_is_custom(p, t, in_msg_dir, current);
    } else {
        lemma_custom_path(p, t, in_msg_dir, current);
    }
}

/// The Rust primitive names that `dependency_package` passes over start with neither `V` nor
/// `[`.
proof fn lemma_primitive_names_start(s: Seq<char>)
    requires
        is_primitive_name(s),
    ensures
        s.len() > 0,
        s[0] != 'V',
        s[0] != '[',
{
    reveal_strlit("bool");
    reveal_strlit("u8");
    reveal_strlit("u16");
    reveal_strlit("u32");
    reveal_strlit("u64");
    reveal_strlit("i8");
    reveal_strlit("i16");
    reveal_strlit("i32");
    reveal_strlit("i64");
    reveal_strlit("f32");
    reveal_strlit("f64");
    reveal_strlit("String");
}

/// The package that a Rust path `p::msg::...`, alone, in `Vec<...>` or in `[...]`, refers to
/// is `p`.
proof fn lemma_dependency_of_path(pre: Seq<char>, p: Seq<char>, rest: Seq<char>)
    requires
        pre == ""@ || pre == "Vec<"@ || pre == "["@,
        is_plain_name(p),
        !is_primitive_name(p),
    ensures
        dependency_package(pre + p + "::msg::"@ + rest) == Some(p),
{
    reveal_strlit("");
    reveal_strlit("Vec<");
    reveal_strlit("[");
    reveal_strlit("::msg::");
    reveal_strlit("::");
    let pat = "::msg::"@;
    let x = pre + p + pat + rest;
    let k: int = (pre.len() + p.len()) as int;
    assert(x.subrange(k, k + 7) =~= pat);
    if first_match(x, pat) is None {
        lemma_first_match_before(x, pat, k);
    }
    assert(x.subrange(k, k + 2) =~= "::"@);
    assert forall|j: int| 0 <= j < k implies #[trigger] x.subrange(j, j + "::"@.len() as int)
        != "::"@ by {
        assert(x.subrange(j, j + 2)[0] == x[j]);
        if j >= pre.len() {
            assert(x[j] == p[j - pre.len()]);
        }
    }
    lemma_first_match_is(x, "::"@, k);
    let prefix = x.take(k);
    assert(prefix =~= pre + p);
    if pre.len() > 0 {
        if is_primitive_name(prefix) {
            lemma_primitive_names_start(prefix);
        }
    }
    let vec = "Vec<"@;
    assert(trim_start_str(p, vec) == p) by {
        if p.len() >= 4 {
            assert(p.take(4)[3] != vec[3]);
        }
    }
    assert(trim_start_char(p, '[') == p);
    if pre == vec {
        assert(prefix.take(4) =~= vec);
        assert(prefix.skip(4) =~= p);
        assert(trim_start_str(prefix, vec) == p);
    } else if pre == "["@ {
        assert(prefix.len() < 4 || prefix.take(4) != vec) by {
            if prefix.len() >= 4 {
                assert(prefix.take(4)[0] == '[');
            }
        }
        assert(trim_start_str(prefix, vec) == prefix);
        assert(prefix.drop_first() =~= p);
        assert(trim_start_char(prefix, '[') == p);
    } else {
        assert(prefix =~= p);
    }
}

/// A field whose type is a message of another package refers to that package, whether it
/// holds one value, an unbounded sequence or a fixed array.
proof fn lemma_field_dependency(
    p: Seq<char>,
    t: Seq<char>,
    in_msg_dir: bool,
    f: FieldView,
    current: Seq<char>,
)
    requires
        is_plain_name(p),
        is_plain_name(t),
        p != current,
        !is_primitive_name(p),
        f.0 == message_type_text(p, t, in_msg_dir),
    ensures
        dependency_package(rust_type_of(f, current)) == Some(p),
{
    reveal_strlit("");
    reveal_strlit("Vec<");
    reveal_strlit("[");
    lemma_message_rust_type(p, t, in_msg_dir, current);
    let base = p + "::msg::"@ + t;
    if f.2 {
        match f.3 {
            Some(size) => {
                let rest = t + "; "@ + decimal(size as nat) + "]"@;
                assert("["@ + base + "; "@ + decimal(size as nat) + "]"@ =~= "["@ + p + "::msg::"@
                    + rest);
                lemma_dependency_of_path("["@, p, rest);
            },
            None => {
                let rest = t + ">"@;
                assert("Vec<"@ + base + ">"@ =~= "Vec<"@ + p + "::msg::"@ + rest);
                lemma_dependency_of_path("Vec<"@, p, rest);
            },
        }
    } else {
        assert(base =~= ""@ + p + "::msg::"@ + t);
        lemma_dependency_of_path(""@, p, t);
    }
}

/// A field that refers to another package puts that package among the fields' dependencies.
proof fn lemma_field_dependencies_contain(
    current: Seq<char>,
    fields: Seq<FieldView>,
    k: int,
    p: Seq<char>,
)
    requires
        0 <= k < fields.len(),
        dependency_package(rust_type_of(fields[k], current)) == Some(p),
        p != current,
    ensures
        field_dependencies(current, fields).contains(p),
    decreases fields.len(),
{
    let rest = field_dependencies(current, fields.drop_last());
    if k == fields.len() - 1 {
        assert(rest.push(p)[rest.len() as int] == p);
    } else {
        lemma_field_dependencies_contain(current, fields.drop_last(), k, p);
        let i = choose|i: int| 0 <= i < rest.len() && rest[i] == p;
        match dependency_package(rust_type_of(fields.last(), current)) {
            Some(q) => if q != current {
                assert(rest.push(q)[i] == p);
            },
            None => {},
        }
    }
}

/// The dependencies of messages include those of each message's fields.
proof fn lemma_message_dependencies_contain(
    current: Seq<char>,
    ms: Seq<MessageView>,
    i: int,
    p: Seq<char>,
)
    requires
        0 <= i < ms.len(),
        field_dependencies(current, ms[i].2).contains(p),
    ensures
        message_dependencies(current, ms).contains(p),
    decreases ms.len(),
{
    let before = message_dependencies(current, ms.drop_last());
    let own = field_dependencies(current, ms.last().2);
    if i == ms.len() - 1 {
        let j = choose|j: int| 0 <= j < own.len() && own[j] == p;
        assert((before + own)[before.len() + j] == p);
    } else {
        lemma_message_dependencies_contain(current, ms.drop_last(), i, p);
        let j = choose|j: int| 0 <= j < before.len() && before[j] == p;
        assert((before + own)[j] == p);
    }
}

/// The dependencies of services include those of each request's and response's fields.
proof fn lemma_service_dependencies_contain(
    current: Seq<char>,
    ss: Seq<(MessageView, MessageView)>,
    i: int,
    p: Seq<char>,
)
    requires
        0 <= i < ss.len(),
        field_dependencies(current, ss[i].0.2).contains(p) || field_dependencies(
            current,
            ss[i].1.2,
        ).contains(p),
    ensures
        service_dependencies(current, ss).contains(p),
    decreases ss.len(),
{
    let before = service_dependencies(current, ss.drop_last());
    let req = field_dependencies(current, ss.last().0.2);
    let resp = field_dependencies(current, ss.last().1.2);
    if i == ss.len() - 1 {
        if req.contains(p) {
            let j = choose|j: int| 0 <= j < req.len() && req[j] == p;
            assert((before + req + resp)[before.len() + j] == p);
        } else {
            let j = choose|j: int| 0 <= j < resp.len() && resp[j] == p;
            assert((before + req + resp)[before.len() + req.len() + j] == p);
        }
    } else {
        lemma_service_dependencies_contain(current, ss.drop_last(), i, p);
        let j = choose|j: int| 0 <= j < before.len() && before[j] == p;
        assert((before + req + resp)[j] == p);
    }
}

/// A field of a message of the package `current` whose type is a message of another package
/// `p` (written `p/msg/T` or `p/T`, as one value, an unbounded sequence `[]` or a fixed array
/// `[N]`) makes `p` a dependency of `current`: `p` is among the dependencies that
/// `package_dependencies` lists. (A package whose name is a Rust primitive type, such as
/// `u8`, is not taken for one.)
pub proof fn law_message_field_package_is_dependency(
    p: Seq<char>,
    t: Seq<char>,
    in_msg_dir: bool,
    current: Seq<char>,
    ms: Seq<MessageView>,
    ss: Seq<(MessageView, MessageView)>,
    i: int,
    k: int,
)
    requires
        is_plain_name(p),
        is_plain_name(t),
        p != current,
        !is_primitive_name(p),
        0 <= i < ms.len(),
        0 <= k < ms[i].2.len(),
        ms[i].2[k].0 == message_type_text(p, t, in_msg_dir),
    ensures
        all_dependencies(current, ms, ss).to_set().contains(p),
{
    lemma_field_dependency(p, t, in_msg_dir, ms[i].2[k], current);
    lemma_field_dependencies_contain(current, ms[i].2, k, p);
    lemma_message_dependencies_contain(current, ms, i, p);
    let md = message_dependencies(current, ms);
    let j = choose|j: int| 0 <= j < md.len() && md[j] == p;
    assert(all_dependencies(current, ms, ss)[j] == p);
}

/// Likewise for a field of a service's request or response: its package is a dependency.
pub proof fn law_service_field_package_is_dependency(
    p: Seq<char>,
    t: Seq<char>,
    in_msg_dir: bool,
    current: Seq<char>,
    ms: Seq<MessageView>,
    ss: Seq<(MessageView, MessageView)>,
    i: int,
    in_request: bool,
    k: int,
)
    requires
        is_plain_name(p),
        is_plain_name(t),
        p != current,
        !is_primitive_name(p),
        0 <= i < ss.len(),
        in_request ==> 0 <= k < ss[i].0.2.len() && ss[i].0.2[k].0 == message_type_text(
            p,
            t,
            in_msg_dir,
        ),
        !in_request ==> 0 <= k < ss[i].1.2.len() && ss[i].1.2[k].0 == message_type_text(
            p,
            t,
            in_msg_dir,
        ),
    ensures
        all_dependencies(current, ms, ss).to_set().contains(p),
{
    if in_request {
        lemma_field_dependency(p, t, in_msg_dir, ss[i].0.2[k], current);
        lemma_field_dependencies_contain(current, ss[i].0.2, k, p);
    } else {
        lemma_field_dependency(p, t, in_msg_dir, ss[i].1.2[k], current);
        lemma_field_dependencies_contain(current, ss[i].1.2, k, p);
    }
    lemma_service_dependencies_contain(current, ss, i, p);
    let md = message_dependencies(current, ms);
    let sd = service_dependencies(current, ss);
    let j = choose|j: int| 0 <= j < sd.len() && sd[j] == p;
    assert(all_dependencies(current, ms, ss)[md.len() + j] == p);
}

/// A type written with `[]` after a type without `[` is an unbounded sequence of that type.
pub proof fn law_sequence_field(r: Seq<char>, n: Seq<char>)
    requires
        forall|j: int| 0 <= j < r.len() ==> r[j] != '[',
    ensures
        field_of(r + "[]"@, n) == (r, n, true, None::<usize>),
{
    reveal_strlit("[]");
    let s = r + "[]"@;
    assert(s[r.len() as int] == '[');
    lemma_first_index(s, '[');
    assert(s =~= r + seq!['['] + seq![']']);
    lemma_split_join(r, seq![']'], '[');
    lemma_split_plain(r, '[');
    lemma_split_plain(seq![']'], '[');
    assert(split_on(s, '[') =~= seq![r, seq![']']]);
    assert(seq![']'].drop_last() =~= Seq::<char>::empty());
    assert(trim_end_char(Seq::<char>::empty(), ']') == Seq::<char>::empty());
    assert(trim_end_char(seq![']'], ']') == Seq::<char>::empty());
}

} // verus!
