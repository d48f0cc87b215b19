//! The Rust source text generated for messages and services.

use crate::parser::{
    camel_case, ros_to_rust, rust_type_of, ConstantView, Field, FieldView, MessageType, MessageView,
    StructNameStyle,
};
use crate::text::{chars_eq_str, decimal, push_chars, push_digits, push_str};
use crate::unicode::{chars_of, string_from_chars};
use vstd::prelude::*;

verus! {

/// The declaration of one struct field.
pub open spec fn field_block(f: FieldView, package: Seq<char>) -> Seq<char> {
    "    #[allow(missing_docs)]\n    pub "@ + f.1 + ": "@ + rust_type_of(f, package) + ",\n"@
}

/// The field declarations, separated by empty lines.
pub open spec fn fields_text(fs: Seq<FieldView>, package: Seq<char>) -> Seq<char>
    decreases fs.len(),
{
    if fs.len() == 0 {
        Seq::empty()
    } else if fs.len() == 1 {
        field_block(fs[0], package)
    } else {
        fields_text(fs.drop_last(), package) + "\n"@ + field_block(fs.last(), package)
    }
}

/// The type of an associated constant: string constants are `&'static str`.
pub open spec fn const_type_text(t: Seq<char>) -> Seq<char> {
    if t == "std::string::String"@ {
        "&'static str"@
    } else {
        t
    }
}

/// The value of an associated constant: a string constant written without quotes is quoted.
pub open spec fn const_value_text(t: Seq<char>, v: Seq<char>) -> Seq<char> {
    if t == "std::string::String"@ && !(v.len() > 0 && v[0] == '"') {
        "\""@ + v + "\""@
    } else {
        v
    }
}

/// The declaration of one associated constant.
pub open spec fn constant_line(c: ConstantView) -> Seq<char> {
    "    pub const "@ + c.1 + ": "@ + const_type_text(c.0) + " = "@ + const_value_text(c.0, c.2)
        + ";\n"@
}

/// The constant declarations, one per line.
pub open spec fn constants_text(cs: Seq<ConstantView>) -> Seq<char>
    decreases cs.len(),
{
    if cs.len() == 0 {
        Seq::empty()
    } else {
        constants_text(cs.drop_last()) + constant_line(cs.last())
    }
}

/// The struct name of a message name in a style.
pub open spec fn struct_name_of(name: Seq<char>, style: StructNameStyle) -> Seq<char> {
    if style == StructNameStyle::SnakeCase {
        name
    } else {
        camel_case(name, true)
    }
}

/// The attributes that every generated struct carries.
pub open spec fn struct_attributes() -> Seq<char> {
    "#[cfg_attr(feature = \"serde\", derive(Deserialize, Serialize))]\n"@
        + "#[derive(Clone, Debug, PartialEq, PartialOrd)]\n"@
}

/// The generated struct of a message, followed by an `impl` block with its constants when it
/// has any.
pub open spec fn struct_text(m: MessageView, style: StructNameStyle) -> Seq<char> {
    let name = struct_name_of(m.1, style);
    struct_attributes() + "pub struct "@ + name + " {\n"@ + fields_text(m.2, m.0) + "}\n"@ + if m.3.len()
        == 0 {
        Seq::empty()
    } else {
        "\nimpl "@ + name + " {\n"@ + constants_text(m.3) + "}\n"@
    }
}

/// Appends the type of a string constant as it is generated.
fn push_const_type(out: &mut Vec<char>, t: &str)
    ensures
        final(out)@ == old(out)@ + const_type_text(t@),
{
    let cs = chars_of(t);
    if chars_eq_str(cs.as_slice(), "std::string::String") {
        push_str(out, "&'static str");
    } else {
        push_str(out, t);
    }
}

/// Appends the value of a constant as it is generated.
fn push_const_value(out: &mut Vec<char>, t: &str, v: &str)
    ensures
        final(out)@ == old(out)@ + const_value_text(t@, v@),
{
    let ts = chars_of(t);
    let vs = chars_of(v);
    if chars_eq_str(ts.as_slice(), "std::string::String") && !(vs.len() > 0 && vs[0] == '"') {
        push_str(out, "\"");
        push_str(out, v);
        push_str(out, "\"");
    } else {
        push_str(out, v);
    }
}

impl MessageType {
    /// The Rust source of this message's struct (and of the `impl` block with its constants), with
    /// field types written as seen from the message's own package. `_include_msg_suffix` is kept
    /// for compatibility and changes nothing.
    #[verifier::spinoff_prover]
    #[verifier::rlimit(40)]
    pub fn to_rust_struct_with_impl(&self, style: StructNameStyle, _include_msg_suffix: bool) -> (r:
        String)
        ensures
            r@ == struct_text(self@, style),
    {
        let ghost m = self@;
        let name = self.struct_name(style);
        let mut out: Vec<char> = Vec::new();
        push_str(&mut out, "#[cfg_attr(feature = \"serde\", derive(Deserialize, Serialize))]\n");
        push_str(&mut out, "#[derive(Clone, Debug, PartialEq, PartialOrd)]\n");
        push_str(&mut out, "pub struct ");
        push_str(&mut out, name.as_str());
        push_str(&mut out, " {\n");
        let ghost head = out@;
        let mut i: usize = 0;
        assert(m.2.take(0) =~= Seq::<FieldView>::empty());
        while i < self.fields.len()
            invariant
                i <= self.fields@.len(),
                m == self@,
                out@ == head + fields_text(m.2.take(i as int), m.0),
            decreases self.fields@.len() - i,
        {
            let ghost before = out@;
            if i > 0 {
                push_str(&mut out, "\n");
            }
            let field = &self.fields[i];
            let rust_type = field.rust_type(self.package.as_str());
            push_str(&mut out, "    #[allow(missing_docs)]\n    pub ");
            push_str(&mut out, field.name.as_str());
            push_str(&mut out, ": ");
            push_str(&mut out, rust_type.as_str());
            push_str(&mut out, ",\n");
            proof {
                let t = m.2.take(i + 1);
                assert(t.drop_last() =~= m.2.take(i as int));
                assert(t.last() == self.fields@[i as int]@);
                if i == 0 {
                    assert(out@ =~= head + field_block(t[0], m.0));
                } else {
                    assert(out@ =~= head + fields_text(m.2.take(i as int), m.0) + "\n"@
                        + field_block(t.last(), m.0));
                }
            }
            i = i + 1;
        }
        assert(m.2.take(self.fields@.len() as int) =~= m.2);
        push_str(&mut out, "}\n");
        if self.constants.len() > 0 {
            push_str(&mut out, "\nimpl ");
            push_str(&mut out, name.as_str());
            push_str(&mut out, " {\n");
            let ghost head2 = out@;
            let mut j: usize = 0;
            assert(m.3.take(0) =~= Seq::<ConstantView>::empty());
            while j < self.constants.len()
                invariant
                    j <= self.constants@.len(),
                    m == self@,
                    out@ == head2 + constants_text(m.3.take(j as int)),
                decreases self.constants@.len() - j,
            {
                let constant = &self.constants[j];
                push_str(&mut out, "    pub const ");
                push_str(&mut out, constant.name.as_str());
                push_str(&mut out, ": ");
                push_const_type(&mut out, constant.const_type.as_str());
                push_str(&mut out, " = ");
                push_const_value(&mut out, constant.const_type.as_str(), constant.value.as_str());
                push_str(&mut out, ";\n");
                proof {
                    let t = m.3.take(j + 1);
                    assert(t.drop_last() =~= m.3.take(j as int));
                    assert(t.last() == self.constants@[j as int]@);
                }
                j = j + 1;
                assert(out@ =~= head2 + constants_text(m.3.take(j as int)));
            }
            assert(m.3.take(self.constants@.len() as int) =~= m.3);
            push_str(&mut out, "}\n");
        }
        assert(out@ =~= struct_text(m, style));
        string_from_chars(out.as_slice())
    }
}


/// The expression that decodes a field in a generated `decode_cdr`.
pub open spec fn field_decode_expr(f: FieldView, package: Seq<char>) -> Seq<char> {
    let base = ros_to_rust(f.0, package);
    if f.2 {
        match f.3 {
            Some(n) => "decoder.read_array::<"@ + base + ", "@ + decimal(n as nat) + ">()?"@,
            None => "decoder.read_seq::<"@ + base + ">()?"@,
        }
    } else {
        "<"@ + base + " as DecodeCdr>::decode_cdr(decoder)?"@
    }
}

/// The line that decodes a field.
pub open spec fn field_decode_line(f: FieldView, package: Seq<char>) -> Seq<char> {
    "            "@ + f.1 + ": "@ + field_decode_expr(f, package) + ",\n"@
}

/// The lines that decode the fields, in order.
pub open spec fn decode_lines(fs: Seq<FieldView>, package: Seq<char>) -> Seq<char>
    decreases fs.len(),
{
    if fs.len() == 0 {
        Seq::empty()
    } else {
        decode_lines(fs.drop_last(), package) + field_decode_line(fs.last(), package)
    }
}

/// The generated `impl DecodeCdr` of a message: its fields decoded one after another.
pub open spec fn decode_impl_text(m: MessageView, style: StructNameStyle) -> Seq<char> {
    "\nimpl DecodeCdr for "@ + struct_name_of(m.1, style) + " {\n"@
        + "    fn decode_cdr(decoder: &mut CdrDecoder<'_>) -> Result<Self, String> {\n"@
        + "        Ok(Self {\n"@ + decode_lines(m.2, m.0) + "        })\n"@ + "    }\n"@ + "}\n"@
}

/// Appends the line that decodes `field` of a message of `package`.
fn push_field_decode(out: &mut Vec<char>, field: &Field, package: &str)
    ensures
        final(out)@ == old(out)@ + field_decode_line(field@, package@),
{
    let ghost start = out@;
    let base = field.map_ros_type_to_rust(field.field_type.as_str(), package);
    push_str(out, "            ");
    push_str(out, field.name.as_str());
    push_str(out, ": ");
    if field.is_array {
        match field.array_size {
            Some(n) => {
                push_str(out, "decoder.read_array::<");
                push_chars(out, base.as_slice());
                push_str(out, ", ");
                push_digits(out, n as u64, 10);
                push_str(out, ">()?");
            },
            None => {
                push_str(out, "decoder.read_seq::<");
                push_chars(out, base.as_slice());
                push_str(out, ">()?");
            },
        }
    } else {
        push_str(out, "<");
        push_chars(out, base.as_slice());
        push_str(out, " as DecodeCdr>::decode_cdr(decoder)?");
    }
    push_str(out, ",\n");
    assert(out@ =~= start + field_decode_line(field@, package@));
}

impl MessageType {
    /// The Rust source of this message's `impl DecodeCdr` for the runtime crate's decoder.
    #[verifier::spinoff_prover]
    pub fn to_rust_decode_impl(&self, style: StructNameStyle) -> (r: String)
        ensures
            r@ == decode_impl_text(self@, style),
    {
        let ghost m = self@;
        let name = self.struct_name(style);
        let mut out: Vec<char> = Vec::new();
        push_str(&mut out, "\nimpl DecodeCdr for ");
        push_str(&mut out, name.as_str());
        push_str(&mut out, " {\n");
        push_str(&mut out, "    fn decode_cdr(decoder: &mut CdrDecoder<'_>) -> Result<Self, String> {\n");
        push_str(&mut out, "        Ok(Self {\n");
        let ghost head = out@;
        let mut i: usize = 0;
        assert(m.2.take(0) =~= Seq::<FieldView>::empty());
        while i < self.fields.len()
            invariant
                i <= self.fields@.len(),
                m == self@,
                out@ == head + decode_lines(m.2.take(i as int), m.0),
            decreases self.fields@.len() - i,
        {
            let field = &self.fields[i];
            push_field_decode(&mut out, field, self.package.as_str());
            proof {
                let t = m.2.take(i + 1);
                assert(t.drop_last() =~= m.2.take(i as int));
                assert(t.last() == self.fields@[i as int]@);
            }
            i = i + 1;
            assert(out@ =~= head + decode_lines(m.2.take(i as int), m.0));
        }
        assert(m.2.take(self.fields@.len() as int) =~= m.2);
        push_str(&mut out, "        })\n");
        push_str(&mut out, "    }\n");
        push_str(&mut out, "}\n");
        assert(out@ =~= decode_impl_text(m, style));
        string_from_chars(out.as_slice())
    }
}

} // verus!
