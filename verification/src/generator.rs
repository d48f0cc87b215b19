//! Generator settings, and the text of the files it writes for each package.

use crate::parser::{
    field_views, rust_type_of, FieldView, MessageType, MessageView, StructNameStyle,
};
use crate::text::{
    chars_eq, chars_eq_str, chars_lt, concat_map, copy_range, ends_with, find_sub, first_match,
    last_index, rfind_char,
    lemma_str_lt_irreflexive, lemma_str_lt_total, lemma_str_lt_transitive, push_str, split_char,
    split_on, str_lt, strip_suffix_str, trim_start_char, trim_start_matches_str, trim_start_str,
};
use crate::unicode::{chars_of, string_from_chars};
use vstd::prelude::*;

verus! {

/// Settings of the generator.
#[derive(Debug, Clone)]
pub struct GeneratorConfig {
    /// How struct names are spelled.
    pub struct_name_style: StructNameStyle,
    /// Whether `/msg/` is kept in type names (kept for compatibility; it changes nothing).
    pub include_msg_suffix: bool,
}

impl Default for GeneratorConfig {
    fn default() -> (r: Self)
        ensures
            r.struct_name_style == StructNameStyle::CamelCase,
            r.include_msg_suffix,
    {
        Self { struct_name_style: StructNameStyle::CamelCase, include_msg_suffix: true }
    }
}

impl GeneratorConfig {
    pub fn new() -> (r: Self)
        ensures
            r.struct_name_style == StructNameStyle::CamelCase,
            r.include_msg_suffix,
    {
        Self::default()
    }

    pub fn with_struct_name_style(self, style: StructNameStyle) -> (r: Self)
        ensures
            r.struct_name_style == style,
            r.include_msg_suffix == self.include_msg_suffix,
    {
        let mut config = self;
        config.struct_name_style = style;
        config
    }

    pub fn with_include_msg_suffix(self, keep_suffix: bool) -> (r: Self)
        ensures
            r.struct_name_style == self.struct_name_style,
            r.include_msg_suffix == keep_suffix,
    {
        let mut config = self;
        config.include_msg_suffix = keep_suffix;
        config
    }
}

/// Generates one crate per ROS package under an output directory.
#[derive(Debug, Clone)]
pub struct MessageGenerator {
    output_path: String,
    config: GeneratorConfig,
}

impl MessageGenerator {
    pub closed spec fn spec_output_path(&self) -> Seq<char> {
        self.output_path@
    }

    pub closed spec fn spec_config(&self) -> GeneratorConfig {
        self.config
    }

    /// A generator writing under `output_path` with the default settings.
    pub fn new(output_path: String) -> (r: Self)
        ensures
            r.spec_output_path() == output_path@,
            r.spec_config().struct_name_style == StructNameStyle::CamelCase,
            r.spec_config().include_msg_suffix,
    {
        Self { output_path, config: GeneratorConfig::new() }
    }

    /// A generator writing under `generated` with the default settings.
    pub fn default() -> (r: Self)
        ensures
            r.spec_output_path() == "generated"@,
            r.spec_config().struct_name_style == StructNameStyle::CamelCase,
            r.spec_config().include_msg_suffix,
    {
        Self::new(string_from_chars(chars_of("generated").as_slice()))
    }

    pub fn with_config(output_path: String, config: GeneratorConfig) -> (r: Self)
        ensures
            r.spec_output_path() == output_path@,
            r.spec_config() == config,
    {
        Self { output_path, config }
    }

    pub fn with_struct_name_style(self, style: StructNameStyle) -> (r: Self)
        ensures
            r.spec_output_path() == self.spec_output_path(),
            r.spec_config().struct_name_style == style,
            r.spec_config().include_msg_suffix == self.spec_config().include_msg_suffix,
    {
        let mut generator = self;
        generator.config.struct_name_style = style;
        generator
    }

    pub fn with_include_msg_suffix(self, keep_suffix: bool) -> (r: Self)
        ensures
            r.spec_output_path() == self.spec_output_path(),
            r.spec_config().struct_name_style == self.spec_config().struct_name_style,
            r.spec_config().include_msg_suffix == keep_suffix,
    {
        let mut generator = self;
        generator.config.include_msg_suffix = keep_suffix;
        generator
    }

    /// The directory that package crates are written under.
    pub fn output_path(&self) -> (r: &str)
        ensures
            r@ == self.spec_output_path(),
    {
        self.output_path.as_str()
    }

    /// The settings.
    pub fn config(&self) -> (r: &GeneratorConfig)
        ensures
            *r == self.spec_config(),
    {
        &self.config
    }
}

/// The text of a package's `src/msg/rmw.rs` or `src/srv/rmw.rs`.
pub open spec fn rmw_stub_text(kind: Seq<char>) -> Seq<char> {
    "//! Placeholder trait for `"@ + kind + "` deserialization backend.\n"@
        + "//! Placeholder trait for deserialization backend.\n"@ + "//!\n"@
        + "//! This file intentionally does not bind to `rosidl_runtime_rs`.\n\n"@
        + "pub trait CdrDeserialize: Sized {\n"@
        + "    fn from_cdr(_bytes: &[u8]) -> Result<Self, String> {\n"@
        + "        Err(\"deserialization backend is not implemented\".to_string())\n"@
        + "    }\n"@ + "}\n"@
}

/// The stub that a package's `rmw.rs` of the given kind (`msg` or `srv`) holds.
pub fn rmw_stub_file(kind: &str) -> (r: String)
    ensures
        r@ == rmw_stub_text(kind@),
{
    let mut content: Vec<char> = Vec::new();
    push_str(&mut content, "//! Placeholder trait for `");
    push_str(&mut content, kind);
    push_str(&mut content, "` deserialization backend.\n");
    push_str(&mut content, "//! Placeholder trait for deserialization backend.\n");
    push_str(&mut content, "//!\n");
    push_str(&mut content, "//! This file intentionally does not bind to `rosidl_runtime_rs`.\n\n");
    push_str(&mut content, "pub trait CdrDeserialize: Sized {\n");
    push_str(&mut content, "    fn from_cdr(_bytes: &[u8]) -> Result<Self, String> {\n");
    push_str(
        &mut content,
        "        Err(\"deserialization backend is not implemented\".to_string())\n",
    );
    push_str(&mut content, "    }\n");
    push_str(&mut content, "}\n");
    assert(content@ =~= rmw_stub_text(kind@));
    string_from_chars(content.as_slice())
}

/// A `[dependencies]` line for a sibling package crate.
pub open spec fn dependency_line(dep: Seq<char>) -> Seq<char> {
    dep + " = { path = \"../"@ + dep + "\" }\n"@
}

/// A feature that forwards `serde` to a sibling package crate.
pub open spec fn serde_feature_item(dep: Seq<char>) -> Seq<char> {
    ", \""@ + dep + "/serde\""@
}

/// The `Cargo.toml` of a package crate that depends on the sibling crates `deps`.
pub open spec fn manifest_text(package: Seq<char>, deps: Seq<Seq<char>>) -> Seq<char> {
    "[package]\n"@ + "name = \""@ + package + "\"\n"@ + "version = \"0.1.0\"\n"@
        + "edition = \"2024\"\n\n"@ + "[dependencies]\n"@
        + "cdr-runtime = { path = \"../cdr-runtime\" }\n"@
        + "serde = { version = \"1.0\", features = [\"derive\"], optional = true }\n"@
        + concat_map(deps, |d: Seq<char>| dependency_line(d)) + "\n[features]\n"@
        + "default = []\n"@ + "serde = [\"dep:serde\""@ + concat_map(
        deps,
        |d: Seq<char>| serde_feature_item(d),
    ) + "]\n"@
}

/// The views of strings.
pub open spec fn string_views(items: Seq<String>) -> Seq<Seq<char>> {
    items.map_values(|s: String| s@)
}

/// The `Cargo.toml` of the crate for `package`, with path dependencies on `dependencies`.
pub fn package_manifest(package: &str, dependencies: &[String]) -> (r: String)
    ensures
        r@ == manifest_text(package@, string_views(dependencies@)),
{
    let ghost deps = string_views(dependencies@);
    let mut content: Vec<char> = Vec::new();
    push_str(&mut content, "[package]\n");
    push_str(&mut content, "name = \"");
    push_str(&mut content, package);
    push_str(&mut content, "\"\n");
    push_str(&mut content, "version = \"0.1.0\"\n");
    push_str(&mut content, "edition = \"2024\"\n\n");
    push_str(&mut content, "[dependencies]\n");
    push_str(&mut content, "cdr-runtime = { path = \"../cdr-runtime\" }\n");
    push_str(&mut content, "serde = { version = \"1.0\", features = [\"derive\"], optional = true }\n");
    let ghost head = content@;
    let mut i: usize = 0;
    while i < dependencies.len()
        invariant
            i <= dependencies@.len(),
            deps == string_views(dependencies@),
            content@ == head + concat_map(deps.take(i as int), |d: Seq<char>| dependency_line(d)),
        decreases dependencies@.len() - i,
    {
        let dep = dependencies[i].as_str();
        push_str(&mut content, dep);
        push_str(&mut content, " = { path = \"../");
        push_str(&mut content, dep);
        push_str(&mut content, "\" }\n");
        i = i + 1;
        assert(deps.take(i as int).drop_last() =~= deps.take(i - 1));
        assert(content@ =~= head + concat_map(deps.take(i as int), |d: Seq<char>| dependency_line(d)));
    }
    assert(deps.take(dependencies@.len() as int) =~= deps);
    push_str(&mut content, "\n[features]\n");
    push_str(&mut content, "default = []\n");
    push_str(&mut content, "serde = [\"dep:serde\"");
    let ghost head2 = content@;
    let mut j: usize = 0;
    while j < dependencies.len()
        invariant
            j <= dependencies@.len(),
            deps == string_views(dependencies@),
            content@ == head2 + concat_map(deps.take(j as int), |d: Seq<char>| serde_feature_item(d)),
        decreases dependencies@.len() - j,
    {
        let dep = dependencies[j].as_str();
        push_str(&mut content, ", \"");
        push_str(&mut content, dep);
        push_str(&mut content, "/serde\"");
        j = j + 1;
        assert(deps.take(j as int).drop_last() =~= deps.take(j - 1));
        assert(content@ =~= head2 + concat_map(
            deps.take(j as int),
            |d: Seq<char>| serde_feature_item(d),
        ));
    }
    push_str(&mut content, "]\n");
    assert(content@ =~= manifest_text(package@, deps));
    string_from_chars(content.as_slice())
}

/// A line of `workspace-members.toml` for a package under the output directory `root_name`.
pub open spec fn member_line(root_name: Seq<char>, package: Seq<char>) -> Seq<char> {
    "\""@ + root_name + "/"@ + package + "\",\n"@
}

/// The member lines, ready to paste into a workspace's `members`, for the crates generated
/// under the directory named `root_name`.
pub fn workspace_members_snippet(root_name: &str, packages: &[String]) -> (r: String)
    ensures
        r@ == concat_map(string_views(packages@), |p: Seq<char>| member_line(root_name@, p)),
{
    let ghost ps = string_views(packages@);
    let mut content: Vec<char> = Vec::new();
    let mut i: usize = 0;
    assert(content@ =~= concat_map(ps.take(0), |p: Seq<char>| member_line(root_name@, p)));
    while i < packages.len()
        invariant
            i <= packages@.len(),
            ps == string_views(packages@),
            content@ == concat_map(ps.take(i as int), |p: Seq<char>| member_line(root_name@, p)),
        decreases packages@.len() - i,
    {
        push_str(&mut content, "\"");
        push_str(&mut content, root_name);
        push_str(&mut content, "/");
        push_str(&mut content, packages[i].as_str());
        push_str(&mut content, "\",\n");
        i = i + 1;
        assert(ps.take(i as int).drop_last() =~= ps.take(i - 1));
        assert(content@ =~= concat_map(ps.take(i as int), |p: Seq<char>| member_line(root_name@, p)));
    }
    assert(ps.take(packages@.len() as int) =~= ps);
    string_from_chars(content.as_slice())
}

/// The primitive Rust type names that never name a package.
pub open spec fn is_primitive_name(p: Seq<char>) -> bool {
    p == "bool"@ || p == "u8"@ || p == "u16"@ || p == "u32"@ || p == "u64"@ || p == "i8"@ || p
        == "i16"@ || p == "i32"@ || p == "i64"@ || p == "f32"@ || p == "f64"@ || p == "String"@
}

/// The package crate that a Rust type of a generated field refers to, if any: the text before
/// the first `::` of a `::msg::` or `::srv::` path, without `Vec<` and `[` openers.
pub open spec fn dependency_package(t: Seq<char>) -> Option<Seq<char>> {
    if first_match(t, "::msg::"@) is None && first_match(t, "::srv::"@) is None {
        None
    } else {
        let prefix = match first_match(t, "::"@) {
            Some(i) => t.take(i),
            None => t,
        };
        if is_primitive_name(prefix) {
            None
        } else {
            Some(trim_start_char(trim_start_str(prefix, "Vec<"@), '['))
        }
    }
}

fn rust_type_dependency_package(rust_type: &[char]) -> (r: Option<Vec<char>>)
    ensures
        r matches Some(p) ==> dependency_package(rust_type@) == Some(p@),
        r is None ==> dependency_package(rust_type@) is None,
{
    if find_sub(rust_type, "::msg::").is_none() && find_sub(rust_type, "::srv::").is_none() {
        return None;
    }
    let prefix = match find_sub(rust_type, "::") {
        Some(i) => copy_range(rust_type, 0, i),
        None => copy_range(rust_type, 0, rust_type.len()),
    };
    assert(rust_type@.subrange(0, rust_type@.len() as int) =~= rust_type@);
    let p = prefix.as_slice();
    if chars_eq_str(p, "bool") || chars_eq_str(p, "u8") || chars_eq_str(p, "u16") || chars_eq_str(
        p,
        "u32",
    ) || chars_eq_str(p, "u64") || chars_eq_str(p, "i8") || chars_eq_str(p, "i16")
        || chars_eq_str(p, "i32") || chars_eq_str(p, "i64") || chars_eq_str(p, "f32")
        || chars_eq_str(p, "f64") || chars_eq_str(p, "String") {
        return None;
    }
    let without_vec = trim_start_matches_str(p, "Vec<");
    Some(crate::text::trim_matches_start(without_vec.as_slice(), '['))
}

/// The packages, other than `current`, that the fields refer to, in field order.
pub open spec fn field_dependencies(current: Seq<char>, fields: Seq<FieldView>) -> Seq<Seq<char>>
    decreases fields.len(),
{
    if fields.len() == 0 {
        Seq::empty()
    } else {
        let rest = field_dependencies(current, fields.drop_last());
        match dependency_package(rust_type_of(fields.last(), current)) {
            Some(p) => if p != current {
                rest.push(p)
            } else {
                rest
            },
            None => rest,
        }
    }
}

fn collect_message_dependencies(current_package: &str, message: &MessageType, dependencies: &mut Vec<String>)
    ensures
        string_views(final(dependencies)@) == string_views(old(dependencies)@)
            + field_dependencies(current_package@, message@.2),
{
    let current = chars_of(current_package);
    let ghost start = string_views(dependencies@);
    let ghost fs = field_views(message.fields@);
    let mut i: usize = 0;
    assert(start + field_dependencies(current_package@, fs.take(0)) =~= start);
    while i < message.fields.len()
        invariant
            i <= fs.len(),
            fs == field_views(message.fields@),
            current@ == current_package@,
            string_views(dependencies@) == start + field_dependencies(current_package@, fs.take(i as int)),
        decreases fs.len() - i,
    {
        let rust_type = message.fields[i].rust_type(current_package);
        let rt = chars_of(rust_type.as_str());
        assert(fs.take(i + 1).drop_last() =~= fs.take(i as int));
        assert(fs.take(i + 1).last() == message.fields@[i as int]@);
        let ghost before = string_views(dependencies@);
        match rust_type_dependency_package(rt.as_slice()) {
            Some(package) => {
                if !chars_eq(package.as_slice(), current.as_slice()) {
                    dependencies.push(string_from_chars(package.as_slice()));
                    assert(string_views(dependencies@) =~= before.push(package@));
                }
            },
            None => {},
        }
        i = i + 1;
    }
    assert(fs.take(fs.len() as int) =~= fs);
}

/// The items are in strictly increasing order.
pub open spec fn strictly_sorted(v: Seq<Seq<char>>) -> bool {
    forall|i: int, j: int| 0 <= i < j < v.len() ==> str_lt(#[trigger] v[i], #[trigger] v[j])
}

/// The strictly sorted sequence that holds exactly the items of `s` (it is unique: see
/// `lemma_strictly_sorted_unique`).
pub open spec fn sorted_of(s: Set<Seq<char>>) -> Seq<Seq<char>> {
    choose|d: Seq<Seq<char>>| strictly_sorted(d) && d.to_set() == s
}

/// Two strictly sorted sequences with the same items are equal.
pub proof fn lemma_strictly_sorted_unique(a: Seq<Seq<char>>, b: Seq<Seq<char>>)
    requires
        strictly_sorted(a),
        strictly_sorted(b),
        a.to_set() == b.to_set(),
    ensures
        a == b,
    decreases a.len(),
{
    if a.len() == 0 || b.len() == 0 {
        if a.len() > 0 {
            assert(a.to_set().contains(a[0]));
        }
        if b.len() > 0 {
            assert(b.to_set().contains(b[0]));
        }
        assert(a =~= b);
    } else {
        let x = a[0];
        let y = b[0];
        assert(a.to_set().contains(x));
        assert(b.to_set().contains(y));
        if x != y {
            let j = choose|j: int| 0 <= j < b.len() && b[j] == x;
            let k = choose|k: int| 0 <= k < a.len() && a[k] == y;
            assert(str_lt(b[0], b[j]));
            assert(str_lt(a[0], a[k]));
            lemma_str_lt_transitive(x, y, x);
            lemma_str_lt_irreflexive(x);
        }
        assert(x == y);
        let ra = a.drop_first();
        let rb = b.drop_first();
        assert forall|v: Seq<char>| #[trigger] ra.to_set().contains(v) == rb.to_set().contains(v) by {
            assert(ra.contains(v) == (a.contains(v) && v != x)) by {
                if ra.contains(v) {
                    let i = choose|i: int| 0 <= i < ra.len() && ra[i] == v;
                    assert(a[i + 1] == v);
                    assert(str_lt(a[0], a[i + 1]));
                    lemma_str_lt_irreflexive(x);
                }
                if a.contains(v) && v != x {
                    let i = choose|i: int| 0 <= i < a.len() && a[i] == v;
                    assert(ra[i - 1] == v);
                }
            }
            assert(rb.contains(v) == (b.contains(v) && v != y)) by {
                if rb.contains(v) {
                    let i = choose|i: int| 0 <= i < rb.len() && rb[i] == v;
                    assert(b[i + 1] == v);
                    assert(str_lt(b[0], b[i + 1]));
                    lemma_str_lt_irreflexive(y);
                }
                if b.contains(v) && v != y {
                    let i = choose|i: int| 0 <= i < b.len() && b[i] == v;
                    assert(rb[i - 1] == v);
                }
            }
            assert(a.to_set().contains(v) == b.to_set().contains(v));
            assert(a.to_set().contains(v) == a.contains(v));
            assert(b.to_set().contains(v) == b.contains(v));
            assert(ra.to_set().contains(v) == ra.contains(v));
            assert(rb.to_set().contains(v) == rb.contains(v));
        }
        assert(ra.to_set() =~= rb.to_set());
        lemma_strictly_sorted_unique(ra, rb);
        assert(a =~= seq![x] + ra);
        assert(b =~= seq![y] + rb);
    }
}

/// A strictly sorted sequence is the one `sorted_of` names for its items.
pub proof fn lemma_sorted_of(d: Seq<Seq<char>>)
    requires
        strictly_sorted(d),
    ensures
        sorted_of(d.to_set()) == d,
{
    let s = d.to_set();
    assert(strictly_sorted(d) && d.to_set() == s);
    let c = sorted_of(s);
    lemma_strictly_sorted_unique(c, d);
}

pub proof fn lemma_push_to_set(s: Seq<Seq<char>>, x: Seq<char>)
    ensures
        s.push(x).to_set() == s.to_set().insert(x),
{
    assert forall|a: Seq<char>| s.push(x).contains(a) == (s.contains(a) || a == x) by {
        if s.push(x).contains(a) {
            let k = choose|k: int| 0 <= k < s.push(x).len() && s.push(x)[k] == a;
            if k < s.len() {
                assert(s[k] == a);
            }
        }
        if s.contains(a) {
            let k = choose|k: int| 0 <= k < s.len() && s[k] == a;
            assert(s.push(x)[k] == a);
        }
        if a == x {
            assert(s.push(x)[s.len() as int] == a);
        }
    }
    assert forall|a: Seq<char>| #[trigger] s.push(x).to_set().contains(a) == s.to_set().insert(
        x,
    ).contains(a) by {
        assert(s.push(x).contains(a) == (s.contains(a) || a == x));
    }
    assert(s.push(x).to_set() =~= s.to_set().insert(x));
}

/// Whether the entry at `i` comes before `item`.
fn entry_lt(set: &Vec<String>, i: usize, item: &[char]) -> (r: bool)
    requires
        i < set@.len(),
    ensures
        r == str_lt(set@[i as int]@, item@),
{
    let cur = chars_of(set[i].as_str());
    chars_lt(cur.as_slice(), item)
}

/// Adds `item` to a strictly sorted list unless it is already there.
fn insert_sorted(set: &mut Vec<String>, item: &[char])
    requires
        strictly_sorted(string_views(old(set)@)),
    ensures
        strictly_sorted(string_views(final(set)@)),
        string_views(final(set)@).to_set() == string_views(old(set)@).to_set().insert(item@),
{
    let ghost v = string_views(set@);
    let mut i: usize = 0;
    while i < set.len() && entry_lt(set, i, item)
        invariant
            i <= set@.len(),
            v == string_views(set@),
            strictly_sorted(v),
            forall|k: int| 0 <= k < i ==> str_lt(#[trigger] v[k], item@),
        decreases set@.len() - i,
    {
        i = i + 1;
    }
    if i < set.len() {
        let cur = chars_of(set[i].as_str());
        if chars_eq(cur.as_slice(), item) {
            proof {
                assert(v.to_set().insert(item@) =~= v.to_set()) by {
                    assert(v[i as int] == item@);
                    assert(v.contains(v[i as int]));
                }
            }
            return;
        }
        proof {
            lemma_str_lt_total(cur@, item@);
        }
    }
    proof {
        assert forall|k: int| i <= k < v.len() implies str_lt(item@, #[trigger] v[k]) by {
            if k > i {
                lemma_str_lt_transitive(item@, v[i as int], v[k]);
            }
        }
    }
    set.insert(i, string_from_chars(item));
    proof {
        let w = string_views(set@);
        assert(w =~= v.insert(i as int, item@));
        assert forall|a: int, b: int| 0 <= a < b < w.len() implies str_lt(
            #[trigger] w[a],
            #[trigger] w[b],
        ) by {
            if b < i {
            } else if a < i && b == i {
            } else if a < i && b > i {
                assert(w[b] == v[b - 1]);
            } else if a == i {
                assert(w[b] == v[b - 1]);
            } else {
                assert(w[a] == v[a - 1]);
                assert(w[b] == v[b - 1]);
            }
        }
        assert forall|x: Seq<char>| w.contains(x) == (v.contains(x) || x == item@) by {
            if w.contains(x) {
                let k = choose|k: int| 0 <= k < w.len() && w[k] == x;
                if k < i {
                    assert(v[k] == x);
                } else if k > i {
                    assert(v[k - 1] == x);
                }
            }
            if v.contains(x) {
                let k = choose|k: int| 0 <= k < v.len() && v[k] == x;
                if k < i {
                    assert(w[k] == x);
                } else {
                    assert(w[k + 1] == x);
                }
            }
            if x == item@ {
                assert(w[i as int] == x);
            }
        }
        assert forall|x: Seq<char>| #[trigger] w.to_set().contains(x) == v.to_set().insert(
            item@,
        ).contains(x) by {
            assert(w.contains(x) == (v.contains(x) || x == item@));
        }
        assert(w.to_set() =~= v.to_set().insert(item@));
    }
}

/// The views of borrowed messages.
pub open spec fn message_ref_views(ms: Seq<&MessageType>) -> Seq<MessageView> {
    ms.map_values(|m: &MessageType| m@)
}

/// The views of borrowed services (request, response).
pub open spec fn service_ref_views(ss: Seq<(&MessageType, &MessageType)>) -> Seq<
    (MessageView, MessageView),
> {
    ss.map_values(|s: (&MessageType, &MessageType)| (s.0@, s.1@))
}

/// The packages, other than `current_package`, that the messages and services refer to:
/// sorted, each once.
pub fn package_dependencies(
    current_package: &str,
    messages: &[&MessageType],
    services: &[(&MessageType, &MessageType)],
) -> (r: Vec<String>)
    ensures
        strictly_sorted(string_views(r@)),
        string_views(r@).to_set() == all_dependencies(
            current_package@,
            message_ref_views(messages@),
            service_ref_views(services@),
        ).to_set(),
{
    let ghost ms = message_ref_views(messages@);
    let ghost ss = service_ref_views(services@);
    let mut dependencies: Vec<String> = Vec::new();
    let mut i: usize = 0;
    while i < messages.len()
        invariant
            i <= messages@.len(),
            ms == message_ref_views(messages@),
            string_views(dependencies@) == message_dependencies(current_package@, ms.take(i as int)),
        decreases messages@.len() - i,
    {
        collect_message_dependencies(current_package, messages[i], &mut dependencies);
        assert(ms.take(i + 1).drop_last() =~= ms.take(i as int));
        assert(ms.take(i + 1).last() == messages@[i as int]@);
        i = i + 1;
    }
    assert(ms.take(messages@.len() as int) =~= ms);
    let ghost after_messages = string_views(dependencies@);
    let mut j: usize = 0;
    while j < services.len()
        invariant
            j <= services@.len(),
            ss == service_ref_views(services@),
            string_views(dependencies@) == after_messages + service_dependencies(
                current_package@,
                ss.take(j as int),
            ),
        decreases services@.len() - j,
    {
        let (request, response) = services[j];
        collect_message_dependencies(current_package, request, &mut dependencies);
        collect_message_dependencies(current_package, response, &mut dependencies);
        assert(ss.take(j + 1).drop_last() =~= ss.take(j as int));
        assert(ss.take(j + 1).last() == (request@, response@));
        j = j + 1;
    }
    assert(ss.take(services@.len() as int) =~= ss);
    sorted_unique(&dependencies)
}

/// The dependencies of the messages, in order.
pub open spec fn message_dependencies(current: Seq<char>, ms: Seq<MessageView>) -> Seq<Seq<char>>
    decreases ms.len(),
{
    if ms.len() == 0 {
        Seq::empty()
    } else {
        message_dependencies(current, ms.drop_last()) + field_dependencies(current, ms.last().2)
    }
}

/// The dependencies of the services' requests and responses, in order.
pub open spec fn service_dependencies(current: Seq<char>, ss: Seq<(MessageView, MessageView)>) -> Seq<
    Seq<char>,
>
    decreases ss.len(),
{
    if ss.len() == 0 {
        Seq::empty()
    } else {
        service_dependencies(current, ss.drop_last()) + field_dependencies(current, ss.last().0.2)
            + field_dependencies(current, ss.last().1.2)
    }
}

/// The dependencies of the messages, then of the services.
pub open spec fn all_dependencies(
    current: Seq<char>,
    ms: Seq<MessageView>,
    ss: Seq<(MessageView, MessageView)>,
) -> Seq<Seq<char>> {
    message_dependencies(current, ms) + service_dependencies(current, ss)
}

/// The distinct items, sorted.
pub fn sorted_unique(items: &Vec<String>) -> (r: Vec<String>)
    ensures
        strictly_sorted(string_views(r@)),
        string_views(r@).to_set() == string_views(items@).to_set(),
{
    let mut set: Vec<String> = Vec::new();
    let mut i: usize = 0;
    assert(string_views(set@).to_set() =~= string_views(items@).take(0).to_set());
    while i < items.len()
        invariant
            i <= items@.len(),
            strictly_sorted(string_views(set@)),
            string_views(set@).to_set() == string_views(items@).take(i as int).to_set(),
        decreases items@.len() - i,
    {
        let item = chars_of(items[i].as_str());
        insert_sorted(&mut set, item.as_slice());
        i = i + 1;
        assert(string_views(items@).take(i as int) =~= string_views(items@).take(i - 1).push(item@));
        proof {
            lemma_push_to_set(string_views(items@).take(i - 1), item@);
        }
    }
    assert(string_views(items@).take(items@.len() as int) =~= string_views(items@));
    set
}

/// The service a message file belongs to when its stem ends in `_Request`, `_Response` or
/// `_Event`: the stem without that suffix.
pub open spec fn service_base_of(stem: Seq<char>) -> Option<Seq<char>> {
    if ends_with(stem, "_Request"@) {
        Some(stem.take(stem.len() - "_Request"@.len()))
    } else if ends_with(stem, "_Response"@) {
        Some(stem.take(stem.len() - "_Response"@.len()))
    } else if ends_with(stem, "_Event"@) {
        Some(stem.take(stem.len() - "_Event"@.len()))
    } else {
        None
    }
}

/// The service that a `.msg` file with stem `stem` may have been derived from.
pub fn generated_service_base(stem: &str) -> (r: Option<String>)
    ensures
        r matches Some(b) ==> service_base_of(stem@) == Some(b@),
        r is None ==> service_base_of(stem@) is None,
{
    let s = chars_of(stem);
    if let Some(base) = strip_suffix_str(s.as_slice(), "_Request") {
        return Some(string_from_chars(base.as_slice()));
    }
    if let Some(base) = strip_suffix_str(s.as_slice(), "_Response") {
        return Some(string_from_chars(base.as_slice()));
    }
    if let Some(base) = strip_suffix_str(s.as_slice(), "_Event") {
        return Some(string_from_chars(base.as_slice()));
    }
    None
}

/// What an interface file is, by its extension.
#[derive(Debug, Clone, Copy, PartialEq, Eq, Structural)]
pub enum InterfaceKind {
    Message,
    Service,
    Other,
}

/// The extension of a file name: the text after its last `.`, unless that `.` starts the name.
pub open spec fn extension_of(name: Seq<char>) -> Option<Seq<char>> {
    match last_index(name, '.') {
        Some(i) => if i == 0 {
            None
        } else {
            Some(name.skip(i + 1))
        },
        None => None,
    }
}

/// A `.msg` file is a message definition, a `.srv` file a service definition, and any other
/// file is not an interface.
pub open spec fn interface_kind_of(name: Seq<char>) -> InterfaceKind {
    match extension_of(name) {
        Some(x) => if x == "msg"@ {
            InterfaceKind::Message
        } else if x == "srv"@ {
            InterfaceKind::Service
        } else {
            InterfaceKind::Other
        },
        None => InterfaceKind::Other,
    }
}

/// What the file named `file_name` defines.
pub fn interface_kind(file_name: &str) -> (r: InterfaceKind)
    ensures
        r == interface_kind_of(file_name@),
{
    let cs = chars_of(file_name);
    let n = cs.len();
    match rfind_char(cs.as_slice(), '.') {
        Some(i) => {
            if i == 0 {
                return InterfaceKind::Other;
            }
            assert(i < n);
            let ext = copy_range(cs.as_slice(), i + 1, n);
            if chars_eq_str(ext.as_slice(), "msg") {
                InterfaceKind::Message
            } else if chars_eq_str(ext.as_slice(), "srv") {
                InterfaceKind::Service
            } else {
                InterfaceKind::Other
            }
        },
        None => InterfaceKind::Other,
    }
}


/// The interface directories of a `:`-separated list of install prefixes: `<prefix>/share` for
/// each non-empty prefix, in order.
pub open spec fn share_dirs_of(pieces: Seq<Seq<char>>) -> Seq<Seq<char>>
    decreases pieces.len(),
{
    if pieces.len() == 0 {
        Seq::empty()
    } else if pieces.last().len() == 0 {
        share_dirs_of(pieces.drop_last())
    } else {
        share_dirs_of(pieces.drop_last()).push(pieces.last() + "/share"@)
    }
}

/// The directories to search for the install prefixes listed in an environment variable's
/// value.
pub fn share_dirs(prefixes: &str) -> (r: Vec<String>)
    ensures
        string_views(r@) == share_dirs_of(split_on(prefixes@, ':')),
{
    let text = chars_of(prefixes);
    let pieces = split_char(text.as_slice(), ':');
    let ghost ps = split_on(prefixes@, ':');
    let mut out: Vec<String> = Vec::new();
    let mut i: usize = 0;
    while i < pieces.len()
        invariant
            i <= pieces@.len(),
            pieces@.len() == ps.len(),
            ps == split_on(prefixes@, ':'),
            forall|k: int| 0 <= k < pieces@.len() ==> (#[trigger] pieces@[k])@ == ps[k],
            string_views(out@) == share_dirs_of(ps.take(i as int)),
        decreases pieces@.len() - i,
    {
        assert(ps.take(i + 1).drop_last() =~= ps.take(i as int));
        assert(ps.take(i + 1).last() == ps[i as int]);
        if pieces[i].len() > 0 {
            let mut dir = copy_range(pieces[i].as_slice(), 0, pieces[i].len());
            assert(dir@ =~= ps[i as int]);
            push_str(&mut dir, "/share");
            let ghost before = string_views(out@);
            out.push(string_from_chars(dir.as_slice()));
            assert(string_views(out@) =~= before.push(ps[i as int] + "/share"@));
        }
        i = i + 1;
    }
    assert(ps.take(pieces@.len() as int) =~= ps);
    out
}

/// A value that is set and not empty.
pub open spec fn is_set(v: Option<String>) -> bool {
    match v {
        Some(s) => s@.len() > 0,
        None => false,
    }
}

/// The first of the values that is set and not empty.
pub fn first_non_empty(values: &[Option<String>]) -> (r: Option<usize>)
    ensures
        r matches Some(i) ==> i < values@.len() && is_set(values@[i as int]),
        r matches Some(i) ==> forall|k: int| 0 <= k < i ==> !is_set(#[trigger] values@[k]),
        r is None ==> forall|k: int| 0 <= k < values@.len() ==> !is_set(#[trigger] values@[k]),
{
    let mut i: usize = 0;
    while i < values.len()
        invariant
            i <= values@.len(),
            forall|k: int| 0 <= k < i ==> !is_set(#[trigger] values@[k]),
        decreases values@.len() - i,
    {
        if let Some(v) = &values[i] {
            if !v.as_str().is_empty() {
                return Some(i);
            }
        }
        i = i + 1;
    }
    None
}


/// No field refers to its own package as a dependency.
pub proof fn lemma_field_dependencies_exclude(current: Seq<char>, fields: Seq<FieldView>)
    ensures
        !field_dependencies(current, fields).contains(current),
    decreases fields.len(),
{
    if fields.len() > 0 {
        lemma_field_dependencies_exclude(current, fields.drop_last());
        let rest = field_dependencies(current, fields.drop_last());
        if let Some(p) = dependency_package(rust_type_of(fields.last(), current)) {
            if p != current {
                assert forall|i: int| 0 <= i < rest.push(p).len() implies rest.push(p)[i]
                    != current by {
                    if i < rest.len() {
                        assert(rest.push(p)[i] == rest[i]);
                    }
                }
            }
        }
    }
}

/// A package is never among its own dependencies.
pub proof fn law_dependencies_exclude_current(
    current: Seq<char>,
    ms: Seq<MessageView>,
    ss: Seq<(MessageView, MessageView)>,
)
    ensures
        !all_dependencies(current, ms, ss).contains(current),
    decreases ms.len() + ss.len(),
{
    if ss.len() > 0 {
        law_dependencies_exclude_current(current, ms, ss.drop_last());
        lemma_field_dependencies_exclude(current, ss.last().0.2);
        lemma_field_dependencies_exclude(current, ss.last().1.2);
        let a = message_dependencies(current, ms);
        let b = service_dependencies(current, ss.drop_last());
        let c = field_dependencies(current, ss.last().0.2);
        let d = field_dependencies(current, ss.last().1.2);
        assert(all_dependencies(current, ms, ss) =~= (a + b) + c + d);
        assert forall|i: int| 0 <= i < ((a + b) + c + d).len() implies ((a + b) + c + d)[i]
            != current by {
            if i < (a + b).len() {
                assert(((a + b) + c + d)[i] == all_dependencies(current, ms, ss.drop_last())[i]);
            } else if i < (a + b).len() + c.len() {
                assert(((a + b) + c + d)[i] == c[i - (a + b).len()]);
            } else {
                assert(((a + b) + c + d)[i] == d[i - (a + b).len() - c.len()]);
            }
        }
    } else if ms.len() > 0 {
        law_dependencies_exclude_current(current, ms.drop_last(), ss);
        lemma_field_dependencies_exclude(current, ms.last().2);
        let a = message_dependencies(current, ms.drop_last());
        let c = field_dependencies(current, ms.last().2);
        assert(service_dependencies(current, ss) =~= Seq::<Seq<char>>::empty());
        assert(all_dependencies(current, ms, ss) =~= a + c);
        assert forall|i: int| 0 <= i < (a + c).len() implies (a + c)[i] != current by {
            if i < a.len() {
                assert((a + c)[i] == all_dependencies(current, ms.drop_last(), ss)[i]);
            } else {
                assert((a + c)[i] == c[i - a.len()]);
            }
        }
    } else {
        assert(all_dependencies(current, ms, ss) =~= Seq::<Seq<char>>::empty());
    }
}

} // verus!
