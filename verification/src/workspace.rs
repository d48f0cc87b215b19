//! Adding the generated package crates to the `members` of a Cargo workspace manifest.

use crate::generator::string_views;
use crate::text::{
    chars_eq, concat_map, copy_range, find_char, find_sub, first_index, first_match, last_index,
    is_ws, lemma_first_index, lemma_first_match, lemma_last_index, lemma_split_extend,
    lemma_split_join, lemma_trim_end_char, lemma_trim_end_len, lemma_trim_start_char,
    lemma_trim_start_len, trim_end, trim_start,
    push_chars, push_str, rfind_char, split_char, split_on, trim, trim_chars, trim_end_char,
    trim_matches, trim_start_char,
};
use crate::unicode::{chars_of, string_from_chars};
use vstd::prelude::*;

verus! {

/// The workspace member paths `<root_name>/<package>` of the packages.
pub open spec fn member_paths(root_name: Seq<char>, packages: Seq<Seq<char>>) -> Seq<Seq<char>> {
    packages.map_values(|p: Seq<char>| root_name + "/"@ + p)
}

/// The member path of each crate (the shared crates and the packages) generated under the
/// directory named `root_name`.
pub fn member_entries(root_name: &str, packages: &[String]) -> (r: Vec<String>)
    ensures
        string_views(r@) == member_paths(root_name@, string_views(packages@)),
{
    let ghost ps = string_views(packages@);
    let mut out: Vec<String> = Vec::new();
    let mut i: usize = 0;
    while i < packages.len()
        invariant
            i <= packages@.len(),
            ps == string_views(packages@),
            string_views(out@) == member_paths(root_name@, ps.take(i as int)),
        decreases packages@.len() - i,
    {
        let mut entry = chars_of(root_name);
        push_str(&mut entry, "/");
        push_str(&mut entry, packages[i].as_str());
        let ghost before = string_views(out@);
        out.push(string_from_chars(entry.as_slice()));
        assert(string_views(out@) =~= before.push(entry@));
        assert(member_paths(root_name@, ps.take(i + 1)) =~= member_paths(root_name@, ps.take(i as int)).push(
            root_name@ + "/"@ + ps[i as int],
        ));
        i = i + 1;
    }
    assert(ps.take(packages@.len() as int) =~= ps);
    out
}

/// The items of a TOML array body: the comma-separated pieces, trimmed, without empty ones,
/// without surrounding `"`.
pub open spec fn array_items(pieces: Seq<Seq<char>>) -> Seq<Seq<char>>
    decreases pieces.len(),
{
    if pieces.len() == 0 {
        Seq::empty()
    } else {
        let rest = array_items(pieces.drop_last());
        let t = trim(pieces.last());
        if t.len() == 0 {
            rest
        } else {
            rest.push(trim_end_char(trim_start_char(t, '"'), '"'))
        }
    }
}

/// `members` with each entry that it lacks appended, in order.
pub open spec fn add_missing(members: Seq<Seq<char>>, entries: Seq<Seq<char>>) -> Seq<Seq<char>>
    decreases entries.len(),
{
    if entries.len() == 0 {
        members
    } else {
        let m = add_missing(members, entries.drop_last());
        if m.contains(entries.last()) {
            m
        } else {
            m.push(entries.last())
        }
    }
}

/// A `members` array, one quoted member per line.
pub open spec fn members_block(members: Seq<Seq<char>>) -> Seq<char> {
    "members = [\n"@ + concat_map(members, |m: Seq<char>| array_line(m)) + "]"@
}

/// One member of a `members` array on a line of its own.
pub open spec fn array_line(m: Seq<char>) -> Seq<char> {
    "    \""@ + m + "\",\n"@
}

/// Where the `members` array of the `[workspace]` table of `content` is: the index of the
/// first `[workspace]`, the start of the line holding the first `members` after it, and the
/// indices of the first `[` after that and of the first `]` after the `[`.
pub open spec fn members_array_span(content: Seq<char>) -> Option<(int, int, int, int)> {
    match first_match(content, "[workspace]"@) {
        None => None,
        Some(w) => match first_match(content.skip(w), "members"@) {
            None => None,
            Some(m0) => {
                let m = w + m0;
                let line_start = match last_index(content.take(m), '\n') {
                    Some(k) => k + 1,
                    None => 0,
                };
                match first_index(content.skip(m), '[') {
                    None => None,
                    Some(o0) => match first_index(content.skip(m + o0), ']') {
                        None => None,
                        Some(c0) => Some((w, line_start, m + o0, m + o0 + c0)),
                    },
                }
            },
        },
    }
}

/// The manifest `content` with `entries` added to the `members` array of its `[workspace]`
/// table: `None` when there is no `[workspace]`, no `members` after it, or no `[ ... ]` after
/// that; the content unchanged when every entry is a member already; otherwise the content
/// with the lines from the one holding `members` to the closing `]` replaced by a
/// one-member-per-line array of the old members followed by the new entries.
pub open spec fn manifest_with_members(content: Seq<char>, entries: Seq<Seq<char>>) -> Option<Seq<char>> {
    match members_array_span(content) {
        None => None,
        Some((w, line_start, o, c)) => {
            let existing = array_items(split_on(content.subrange(o + 1, c), ','));
            let all = add_missing(existing, entries);
            if all.len() == existing.len() {
                Some(content)
            } else {
                Some(content.take(line_start) + members_block(all) + content.skip(c + 1))
            }
        },
    }
}

/// Whether `items` holds `item`.
fn holds(items: &Vec<Vec<char>>, item: &[char]) -> (r: bool)
    ensures
        r == items@.map_values(|v: Vec<char>| v@).contains(item@),
{
    let ghost vs = items@.map_values(|v: Vec<char>| v@);
    let mut i: usize = 0;
    while i < items.len()
        invariant
            i <= items@.len(),
            vs == items@.map_values(|v: Vec<char>| v@),
            forall|k: int| 0 <= k < i ==> vs[k] != item@,
        decreases items@.len() - i,
    {
        if chars_eq(items[i].as_slice(), item) {
            assert(vs[i as int] == item@);
            return true;
        }
        i = i + 1;
    }
    false
}

/// The text of `content` with `entries` added to the `members` of its `[workspace]` table
/// (see `manifest_with_members`).
pub fn append_members_to_workspace_manifest(content: &str, entries: &[String]) -> (r: Option<String>)
    ensures
        match manifest_with_members(content@, string_views(entries@)) {
            Some(t) => r matches Some(s) && s@ == t,
            None => r is None,
        },
{
    let text = chars_of(content);
    let n = text.len();
    let ghost s = content@;
    proof {
        lemma_first_match(s, "[workspace]"@);
    }
    let w = match find_sub(text.as_slice(), "[workspace]") {
        Some(w) => w,
        None => return None,
    };
    let after_w = copy_range(text.as_slice(), w, n);
    assert(after_w@ =~= s.skip(w as int));
    proof {
        lemma_first_match(s.skip(w as int), "members"@);
    }
    let m0 = match find_sub(after_w.as_slice(), "members") {
        Some(m0) => m0,
        None => return None,
    };
    let m = w + m0;
    let before_m = copy_range(text.as_slice(), 0, m);
    assert(before_m@ =~= s.take(m as int));
    proof {
        lemma_last_index(s.take(m as int), '\n');
    }
    let line_start = match rfind_char(before_m.as_slice(), '\n') {
        Some(k) => k + 1,
        None => 0,
    };
    let after_m = copy_range(text.as_slice(), m, n);
    assert(after_m@ =~= s.skip(m as int));
    let o0 = match find_char(after_m.as_slice(), '[') {
        Some(o0) => o0,
        None => return None,
    };
    let o = m + o0;
    let after_o = copy_range(text.as_slice(), o, n);
    assert(after_o@ =~= s.skip(o as int));
    let c0 = match find_char(after_o.as_slice(), ']') {
        Some(c0) => c0,
        None => return None,
    };
    let c = o + c0;
    let raw = copy_range(text.as_slice(), o + 1, c);
    let pieces = split_char(raw.as_slice(), ',');
    let ghost ps = split_on(raw@, ',');
    let mut members: Vec<Vec<char>> = Vec::new();
    let mut i: usize = 0;
    while i < pieces.len()
        invariant
            i <= pieces@.len(),
            pieces@.len() == ps.len(),
            ps == split_on(raw@, ','),
            forall|k: int| 0 <= k < pieces@.len() ==> (#[trigger] pieces@[k])@ == ps[k],
            members@.map_values(|v: Vec<char>| v@) == array_items(ps.take(i as int)),
        decreases pieces@.len() - i,
    {
        let ghost before = members@.map_values(|v: Vec<char>| v@);
        let t = trim_chars(pieces[i].as_slice());
        assert(ps.take(i + 1).drop_last() =~= ps.take(i as int));
        assert(ps.take(i + 1).last() == ps[i as int]);
        if t.len() > 0 {
            let item = trim_matches(t.as_slice(), '"');
            members.push(item);
            assert(members@.map_values(|v: Vec<char>| v@) =~= before.push(item@));
        }
        i = i + 1;
    }
    assert(ps.take(pieces@.len() as int) =~= ps);
    let existing_len = members.len();
    let ghost existing = members@.map_values(|v: Vec<char>| v@);
    let ghost es = string_views(entries@);
    let mut j: usize = 0;
    while j < entries.len()
        invariant
            j <= entries@.len(),
            es == string_views(entries@),
            existing.len() == existing_len,
            members@.len() >= existing_len,
            members@.map_values(|v: Vec<char>| v@) == add_missing(existing, es.take(j as int)),
        decreases entries@.len() - j,
    {
        let entry = chars_of(entries[j].as_str());
        let ghost before = members@.map_values(|v: Vec<char>| v@);
        assert(es.take(j + 1).drop_last() =~= es.take(j as int));
        assert(es.take(j + 1).last() == entry@);
        if !holds(&members, entry.as_slice()) {
            members.push(entry);
            assert(members@.map_values(|v: Vec<char>| v@) =~= before.push(es[j as int]));
        }
        j = j + 1;
    }
    assert(es.take(entries@.len() as int) =~= es);
    let ghost all = members@.map_values(|v: Vec<char>| v@);
    if members.len() == existing_len {
        return Some(string_from_chars(text.as_slice()));
    }
    let mut out = copy_range(text.as_slice(), 0, line_start);
    let ghost head = out@;
    push_str(&mut out, "members = [\n");
    let ghost head2 = out@;
    let mut k: usize = 0;
    while k < members.len()
        invariant
            k <= members@.len(),
            all == members@.map_values(|v: Vec<char>| v@),
            out@ == head2 + concat_map(all.take(k as int), |m: Seq<char>| array_line(m)),
        decreases members@.len() - k,
    {
        push_str(&mut out, "    \"");
        push_chars(&mut out, members[k].as_slice());
        push_str(&mut out, "\",\n");
        assert(all.take(k + 1).drop_last() =~= all.take(k as int));
        assert(all.take(k + 1).last() == members@[k as int]@);
        k = k + 1;
        assert(out@ =~= head2 + concat_map(all.take(k as int), |m: Seq<char>| array_line(m)));
    }
    assert(all.take(members@.len() as int) =~= all);
    push_str(&mut out, "]");
    let tail = copy_range(text.as_slice(), c + 1, n);
    push_chars(&mut out, tail.as_slice());
    proof {
        assert(tail@ =~= s.skip(c + 1));
        assert(head =~= s.take(line_start as int));
        assert(out@ =~= s.take(line_start as int) + members_block(all) + s.skip(c + 1));
    }
    Some(string_from_chars(out.as_slice()))
}


/// Adding entries keeps the existing members first and in order, makes every entry a member,
/// adds nothing else, and changes nothing exactly when every entry is a member already.
pub proof fn law_add_missing(members: Seq<Seq<char>>, entries: Seq<Seq<char>>)
    ensures
        add_missing(members, entries).len() >= members.len(),
        add_missing(members, entries).take(members.len() as int) == members,
        forall|x: Seq<char>| #[trigger] entries.contains(x) ==> add_missing(members, entries).contains(x),
        forall|i: int|
            members.len() <= i < add_missing(members, entries).len() ==> entries.contains(
                #[trigger] add_missing(members, entries)[i],
            ),
        (add_missing(members, entries).len() == members.len()) == (forall|x: Seq<char>|
            #[trigger] entries.contains(x) ==> members.contains(x)),
    decreases entries.len(),
{
    if entries.len() == 0 {
        assert(members.take(members.len() as int) =~= members);
    } else {
        let pre = entries.drop_last();
        let last = entries.last();
        law_add_missing(members, pre);
        let m = add_missing(members, pre);
        let all = add_missing(members, entries);
        assert forall|x: Seq<char>| entries.contains(x) implies #[trigger] pre.contains(x) || x == last by {
            let k = choose|k: int| 0 <= k < entries.len() && entries[k] == x;
            if k < pre.len() {
                assert(pre[k] == x);
            }
        }
        assert forall|x: Seq<char>| #[trigger] pre.contains(x) implies entries.contains(x) by {
            let k = choose|k: int| 0 <= k < pre.len() && pre[k] == x;
            assert(entries[k] == x);
        }
        assert(entries.contains(last)) by {
            assert(entries[entries.len() - 1] == last);
        }
        if m.contains(last) {
            assert(all == m);
        } else {
            assert(all =~= m.push(last));
            assert(all.take(members.len() as int) =~= m.take(members.len() as int));
            assert(all[m.len() as int] == last);
            assert forall|x: Seq<char>| #[trigger] m.contains(x) implies all.contains(x) by {
                let k = choose|k: int| 0 <= k < m.len() && m[k] == x;
                assert(all[k] == x);
            }
            assert forall|i: int| members.len() <= i < all.len() implies entries.contains(
                #[trigger] all[i],
            ) by {
                if i < m.len() {
                    assert(all[i] == m[i]);
                }
            }
            // The entry `last` was not a member: otherwise it would be in `m`, which starts
            // with the members.
            if members.contains(last) {
                let k = choose|k: int| 0 <= k < members.len() && members[k] == last;
                assert(m.take(members.len() as int)[k] == last);
                assert(m[k] == last);
            }
        }
        assert forall|x: Seq<char>| #[trigger] entries.contains(x) implies all.contains(x) by {
            if pre.contains(x) {
                assert(m.contains(x));
                if !m.contains(last) {
                    let k = choose|k: int| 0 <= k < m.len() && m[k] == x;
                    assert(all[k] == x);
                }
            } else {
                assert(x == last);
                if !m.contains(last) {
                    assert(all[m.len() as int] == last);
                }
            }
        }
        if all.len() == members.len() {
            assert(m.len() == members.len());
            assert forall|x: Seq<char>| #[trigger] entries.contains(x) implies members.contains(x) by {
                if pre.contains(x) {
                } else {
                    assert(x == last);
                    assert(m.contains(last));
                    let k = choose|k: int| 0 <= k < m.len() && m[k] == last;
                    assert(m.take(members.len() as int)[k] == last);
                }
                assert(m =~= members) by {
                    assert(m.take(members.len() as int) =~= m);
                }
            }
        } else if forall|x: Seq<char>| #[trigger] entries.contains(x) ==> members.contains(x) {
            assert(members.contains(last));
            assert(forall|x: Seq<char>| #[trigger] pre.contains(x) ==> members.contains(x));
            assert(m.len() == members.len());
            assert(m =~= members) by {
                assert(m.take(members.len() as int) =~= m);
            }
            assert(m.contains(last));
        }
    }
}


/// A member that is read back unchanged after being written into a `members` array: it holds
/// no `,` and no `]`, and neither starts nor ends with `"`.
pub open spec fn plain_member(m: Seq<char>) -> bool {
    &&& !m.contains(',')
    &&& !m.contains(']')
    &&& !(m.len() > 0 && (m[0] == '"' || m.last() == '"'))
}

/// The piece that splitting a written `members` array at `,` cuts around one member.
pub open spec fn quoted_piece(m: Seq<char>) -> Seq<char> {
    seq!['\n'] + "    \""@ + m + "\""@
}

/// The pieces of the written members, in order.
pub open spec fn quoted_pieces(ms: Seq<Seq<char>>) -> Seq<Seq<char>> {
    ms.map_values(|m: Seq<char>| quoted_piece(m))
}

/// A text that is `s` from `k` on lacks what `s` lacks.
proof fn lemma_sub_lacks(s: Seq<char>, k: int, n: int, d: char)
    requires
        0 <= k,
        0 <= n,
        k + n <= s.len(),
        !s.contains(d),
    ensures
        !s.subrange(k, k + n).contains(d),
{
    let x = s.subrange(k, k + n);
    if x.contains(d) {
        let j = choose|j: int| 0 <= j < x.len() && x[j] == d;
        assert(s[k + j] == d);
    }
}

/// No `,` in a text means no `,` is found in it.
proof fn lemma_lacks_index(s: Seq<char>, d: char)
    requires
        !s.contains(d),
    ensures
        first_index(s, d) is None,
{
    lemma_first_index(s, d);
    if let Some(i) = first_index(s, d) {
        assert(s[i] == d);
    }
}

/// The written lines of plain members hold no `]`.
proof fn lemma_lines_lack_bracket(ms: Seq<Seq<char>>)
    requires
        forall|k: int| 0 <= k < ms.len() ==> plain_member(#[trigger] ms[k]),
    ensures
        !concat_map(ms, |m: Seq<char>| array_line(m)).contains(']'),
    decreases ms.len(),
{
    if ms.len() > 0 {
        let pre = ms.drop_last();
        let m = ms.last();
        assert forall|k: int| 0 <= k < pre.len() implies plain_member(#[trigger] pre[k]) by {
            assert(pre[k] == ms[k]);
        }
        lemma_lines_lack_bracket(pre);
        assert(plain_member(ms[ms.len() - 1]));
        reveal_strlit("    \"");
        reveal_strlit("\",\n");
        let a = concat_map(pre, |m: Seq<char>| array_line(m));
        let l = array_line(m);
        assert(l =~= seq![' ', ' ', ' ', ' ', '"'] + m + seq!['"', ',', '\n']);
        if (a + l).contains(']') {
            let j = choose|j: int| 0 <= j < (a + l).len() && (a + l)[j] == ']';
            if j < a.len() {
                assert(a[j] == ']');
            } else {
                let t = j - a.len();
                if 5 <= t < 5 + m.len() {
                    assert(m[t - 5] == ']');
                }
            }
        }
    }
}

/// Splitting a written `members` body at `,` cuts one piece per member and a last piece that
/// holds the final line break.
proof fn lemma_block_pieces(ms: Seq<Seq<char>>)
    requires
        forall|k: int| 0 <= k < ms.len() ==> plain_member(#[trigger] ms[k]),
    ensures
        split_on(seq!['\n'] + concat_map(ms, |m: Seq<char>| array_line(m)), ',') == quoted_pieces(
            ms,
        ).push(seq!['\n']),
    decreases ms.len(),
{
    reveal_strlit("    \"");
    reveal_strlit("\",\n");
    reveal_strlit("\"");
    lemma_lacks_index(seq!['\n'], ',');
    if ms.len() == 0 {
        assert(seq!['\n'] + concat_map(ms, |m: Seq<char>| array_line(m)) =~= seq!['\n']);
        assert(quoted_pieces(ms) =~= Seq::<Seq<char>>::empty());
        assert(quoted_pieces(ms).push(seq!['\n']) =~= seq![seq!['\n']]);
    } else {
        let pre = ms.drop_last();
        let m = ms.last();
        assert forall|k: int| 0 <= k < pre.len() implies plain_member(#[trigger] pre[k]) by {
            assert(pre[k] == ms[k]);
        }
        assert(plain_member(ms[ms.len() - 1]));
        lemma_block_pieces(pre);
        let r = seq!['\n'] + concat_map(pre, |m: Seq<char>| array_line(m));
        let u = "    \""@ + m + "\""@;
        assert(u =~= seq![' ', ' ', ' ', ' ', '"'] + m + seq!['"']);
        assert(!u.contains(',')) by {
            if u.contains(',') {
                let j = choose|j: int| 0 <= j < u.len() && u[j] == ',';
                if 5 <= j < 5 + m.len() {
                    assert(m[j - 5] == ',');
                }
            }
        }
        lemma_lacks_index(u, ',');
        assert(seq!['\n'] + concat_map(ms, |m: Seq<char>| array_line(m)) =~= (r + u) + seq![',']
            + seq!['\n']);
        lemma_split_join(r + u, seq!['\n'], ',');
        lemma_split_extend(r, u, ',');
        assert(split_on(r, ',').last() == seq!['\n']);
        assert(split_on(r, ',').drop_last() =~= quoted_pieces(pre));
        assert(seq!['\n'] + u =~= quoted_piece(m));
        assert(quoted_pieces(ms) =~= quoted_pieces(pre).push(quoted_piece(m)));
        assert(split_on(seq!['\n'], ',') =~= seq![seq!['\n']]);
    }
}


/// Leading white space is dropped up to the first character that is not white space.
proof fn lemma_trim_start_past(p: Seq<char>, x: Seq<char>)
    requires
        forall|i: int| 0 <= i < p.len() ==> is_ws(#[trigger] p[i]),
        x.len() > 0,
        !is_ws(x[0]),
    ensures
        trim_start(p + x) == x,
    decreases p.len(),
{
    if p.len() == 0 {
        assert(p + x =~= x);
    } else {
        assert((p + x).drop_first() =~= p.drop_first() + x);
        assert forall|i: int| 0 <= i < p.drop_first().len() implies is_ws(#[trigger] p.drop_first()[i]) by {
            assert(p.drop_first()[i] == p[i + 1]);
        }
        lemma_trim_start_past(p.drop_first(), x);
    }
}

/// The piece of a written member, trimmed and with its quotes dropped, is the member.
proof fn lemma_quoted_piece_item(m: Seq<char>)
    requires
        plain_member(m),
        is_ws('\n'),
        is_ws(' '),
        !is_ws('"'),
    ensures
        trim(quoted_piece(m)).len() > 0,
        trim_end_char(trim_start_char(trim(quoted_piece(m)), '"'), '"') == m,
{
    reveal_strlit("    \"");
    reveal_strlit("\"");
    let p = seq!['\n', ' ', ' ', ' ', ' '];
    let x = seq!['"'] + m + seq!['"'];
    assert(quoted_piece(m) =~= p + x);
    lemma_trim_start_past(p, x);
    assert(trim_end(x) == x);
    assert(x.drop_first() =~= m + seq!['"']);
    assert(trim_start_char(x, '"') == trim_start_char(m + seq!['"'], '"'));
    if m.len() == 0 {
        assert(m + seq!['"'] =~= seq!['"']);
        assert(seq!['"'].drop_first() =~= Seq::<char>::empty());
        assert(trim_start_char(seq!['"'], '"') == trim_start_char(Seq::<char>::empty(), '"'));
        assert(m =~= Seq::<char>::empty());
    } else {
        assert((m + seq!['"'])[0] == m[0]);
        assert((m + seq!['"']).drop_last() =~= m);
        assert(trim_end_char(m + seq!['"'], '"') == trim_end_char(m, '"'));
    }
}

/// The members written as pieces are read back as the same members.
proof fn lemma_items_of_pieces(ms: Seq<Seq<char>>)
    requires
        forall|k: int| 0 <= k < ms.len() ==> plain_member(#[trigger] ms[k]),
        is_ws('\n'),
        is_ws(' '),
        !is_ws('"'),
    ensures
        array_items(quoted_pieces(ms)) == ms,
        array_items(quoted_pieces(ms).push(seq!['\n'])) == ms,
    decreases ms.len(),
{
    let nl = seq!['\n'];
    assert(nl.drop_first() =~= Seq::<char>::empty());
    assert(trim_start(nl) == trim_start(Seq::<char>::empty()));
    assert(quoted_pieces(ms).push(nl).drop_last() =~= quoted_pieces(ms));
    if ms.len() == 0 {
        assert(quoted_pieces(ms) =~= Seq::<Seq<char>>::empty());
    } else {
        let pre = ms.drop_last();
        assert forall|k: int| 0 <= k < pre.len() implies plain_member(#[trigger] pre[k]) by {
            assert(pre[k] == ms[k]);
        }
        assert(plain_member(ms[ms.len() - 1]));
        lemma_items_of_pieces(pre);
        lemma_quoted_piece_item(ms.last());
        assert(quoted_pieces(ms).drop_last() =~= quoted_pieces(pre));
        assert(quoted_pieces(ms).last() == quoted_piece(ms.last()));
        assert(pre.push(ms.last()) =~= ms);
    }
}

/// A text that is a part of `s` lacks what `s` lacks.
proof fn lemma_part_lacks(s: Seq<char>, x: Seq<char>, k: int, d: char)
    requires
        0 <= k,
        k + x.len() <= s.len(),
        x == s.subrange(k, k + x.len()),
        !s.contains(d),
    ensures
        !x.contains(d),
{
    lemma_sub_lacks(s, k, x.len() as int, d);
}

/// The member that a piece of an array body gives is plain when the piece holds no `,` and
/// no `]`.
proof fn lemma_item_plain(p: Seq<char>)
    requires
        !p.contains(','),
        !p.contains(']'),
    ensures
        plain_member(trim_end_char(trim_start_char(trim(p), '"'), '"')),
{
    let a = trim_start(p);
    lemma_trim_start_len(p);
    lemma_part_lacks(p, a, p.len() - a.len(), ',');
    lemma_part_lacks(p, a, p.len() - a.len(), ']');
    let t = trim_end(a);
    lemma_trim_end_len(a);
    assert(t == a.subrange(0, t.len() as int));
    lemma_part_lacks(a, t, 0, ',');
    lemma_part_lacks(a, t, 0, ']');
    let y = trim_start_char(t, '"');
    lemma_trim_start_char(t, '"');
    lemma_part_lacks(t, y, t.len() - y.len(), ',');
    lemma_part_lacks(t, y, t.len() - y.len(), ']');
    let r = trim_end_char(y, '"');
    lemma_trim_end_char(y, '"');
    assert(r == y.subrange(0, r.len() as int));
    lemma_part_lacks(y, r, 0, ',');
    lemma_part_lacks(y, r, 0, ']');
    if r.len() > 0 {
        assert(r[0] == y[0]);
    }
}

/// The members read from pieces without `,` and `]` are plain.
proof fn lemma_items_plain(ps: Seq<Seq<char>>)
    requires
        forall|k: int| 0 <= k < ps.len() ==> !(#[trigger] ps[k]).contains(',') && !ps[k].contains(']'),
    ensures
        forall|k: int| 0 <= k < array_items(ps).len() ==> plain_member(#[trigger] array_items(ps)[k]),
    decreases ps.len(),
{
    if ps.len() > 0 {
        let pre = ps.drop_last();
        assert forall|k: int| 0 <= k < pre.len() implies !(#[trigger] pre[k]).contains(',')
            && !pre[k].contains(']') by {
            assert(pre[k] == ps[k]);
        }
        lemma_items_plain(pre);
        let p = ps.last();
        assert(!ps[ps.len() - 1].contains(',') && !ps[ps.len() - 1].contains(']'));
        lemma_item_plain(p);
        let rest = array_items(pre);
        assert forall|k: int| 0 <= k < array_items(ps).len() implies plain_member(
            #[trigger] array_items(ps)[k],
        ) by {
            if k < rest.len() {
                assert(array_items(ps)[k] == rest[k]);
            }
        }
    }
}


/// The text that adding members writes, for a `members` array found at `(line_start, c)`.
pub open spec fn rewritten(content: Seq<char>, line_start: int, c: int, all: Seq<Seq<char>>) -> Seq<
    char,
> {
    content.take(line_start) + members_block(all) + content.skip(c + 1)
}

/// What finding the `members` array established about `content`.
proof fn lemma_span_facts(content: Seq<char>)
    requires
        members_array_span(content) matches Some((w, line_start, _o, _c)) && w + 11 <= line_start,
    ensures
        ({
            let (w, ls, o, c) = members_array_span(content)->Some_0;
            &&& 0 <= w
            &&& ls <= content.len()
            &&& content[ls - 1] == '\n'
            &&& content.subrange(w, w + 11) == "[workspace]"@
            &&& forall|j: int| 0 <= j < w ==> #[trigger] content.subrange(j, j + 11) != "[workspace]"@
            &&& forall|j: int|
                w <= j && j + 7 <= ls ==> #[trigger] content.subrange(j, j + 7) != "members"@
            &&& ls <= o < c < content.len()
            &&& !content.subrange(o + 1, c).contains(']')
        }),
{
    reveal_strlit("[workspace]");
    reveal_strlit("members");
    let ws = "[workspace]"@;
    let mb = "members"@;
    let (w, ls, o, c) = members_array_span(content)->Some_0;
    lemma_first_match(content, ws);
    let m0 = first_match(content.skip(w), mb)->Some_0;
    lemma_first_match(content.skip(w), mb);
    let m = w + m0;
    lemma_last_index(content.take(m), '\n');
    let o0 = first_index(content.skip(m), '[')->Some_0;
    lemma_first_index(content.skip(m), '[');
    let c0 = first_index(content.skip(o), ']')->Some_0;
    lemma_first_index(content.skip(o), ']');
    assert forall|j: int| 0 <= j < w implies #[trigger] content.subrange(j, j + 11) != ws by {
        crate::text::lemma_first_match_before(content, ws, j);
    }
    assert forall|j: int| w <= j && j + 7 <= ls implies #[trigger] content.subrange(j, j + 7) != mb by {
        assert(content.subrange(j, j + 7) =~= content.skip(w).subrange(j - w, j - w + 7));
        crate::text::lemma_first_match_before(content.skip(w), mb, j - w);
    }
    let raw = content.subrange(o + 1, c);
    assert(!raw.contains(']')) by {
        if raw.contains(']') {
            let j = choose|j: int| 0 <= j < raw.len() && raw[j] == ']';
            assert(content.skip(o)[j + 1] == ']');
        }
    }
}

/// A key found in a prefix is found first in any text that starts with the prefix.
proof fn lemma_header_kept(pre: Seq<char>, rest: Seq<char>, key: Seq<char>, w: int)
    requires
        0 <= w,
        w + key.len() <= pre.len(),
        pre.subrange(w, w + key.len() as int) == key,
        forall|j: int| 0 <= j < w ==> #[trigger] pre.subrange(j, j + key.len() as int) != key,
    ensures
        first_match(pre + rest, key) == Some(w),
{
    let s = pre + rest;
    assert forall|j: int| 0 <= j < w implies #[trigger] s.subrange(j, j + key.len() as int) != key by {
        assert(s.subrange(j, j + key.len() as int) =~= pre.subrange(j, j + key.len() as int));
    }
    assert(s.subrange(w, w + key.len() as int) =~= pre.subrange(w, w + key.len() as int));
    crate::text::lemma_first_match_is(s, key, w);
}

/// A key that starts the text after a line break, and that the text from `w` to the line break
/// lacks, is found first right after the line break.
proof fn lemma_key_after_line(pre: Seq<char>, rest: Seq<char>, key: Seq<char>, w: int)
    requires
        0 <= w < pre.len(),
        pre.last() == '\n',
        !key.contains('\n'),
        key.len() <= rest.len(),
        rest.take(key.len() as int) == key,
        forall|j: int|
            w <= j && j + key.len() <= pre.len() ==> #[trigger] pre.subrange(j, j + key.len() as int)
                != key,
    ensures
        first_match((pre + rest).skip(w), key) == Some(pre.len() - w),
{
    let os = (pre + rest).skip(w);
    let n = key.len() as int;
    assert(os.subrange(pre.len() - w, pre.len() - w + n) =~= rest.take(n));
    assert forall|j: int| 0 <= j < pre.len() - w implies #[trigger] os.subrange(j, j + n) != key by {
        let jj = w + j;
        if jj + n <= pre.len() {
            assert(os.subrange(j, j + n) =~= pre.subrange(jj, jj + n));
        } else {
            let q = pre.len() - 1 - jj;
            assert(os.subrange(j, j + n)[q] == '\n');
            if os.subrange(j, j + n) == key {
                assert(key[q] == '\n');
            }
        }
    }
    crate::text::lemma_first_match_is(os, key, pre.len() - w);
}

/// The rewritten text starts its `[workspace]` and `members` where the text before did.
proof fn lemma_rewritten_keys(content: Seq<char>, all: Seq<Seq<char>>)
    requires
        members_array_span(content) matches Some((w, line_start, _o, _c)) && w + 11 <= line_start,
    ensures
        ({
            let (w, ls, o, c) = members_array_span(content)->Some_0;
            let once = rewritten(content, ls, c, all);
            &&& first_match(once, "[workspace]"@) == Some(w)
            &&& first_match(once.skip(w), "members"@) == Some(ls - w)
            &&& last_index(once.take(ls), '\n') == Some(ls - 1)
        }),
{
    reveal_strlit("[workspace]");
    reveal_strlit("members");
    reveal_strlit("members = [\n");
    reveal_strlit("]");
    let ws = "[workspace]"@;
    let mb = "members"@;
    assert(mb =~= seq!['m', 'e', 'm', 'b', 'e', 'r', 's']);
    lemma_span_facts(content);
    let (w, ls, o, c) = members_array_span(content)->Some_0;
    let p = content.take(ls);
    let rest = members_block(all) + content.skip(c + 1);
    assert(rewritten(content, ls, c, all) =~= p + rest);
    assert(p.subrange(w, w + 11) =~= content.subrange(w, w + 11));
    assert forall|j: int| 0 <= j < w implies #[trigger] p.subrange(j, j + 11) != ws by {
        assert(p.subrange(j, j + 11) =~= content.subrange(j, j + 11));
    }
    lemma_header_kept(p, rest, ws, w);
    assert(rest.take(7) =~= mb);
    assert(!mb.contains('\n')) by {
        if mb.contains('\n') {
            let j = choose|j: int| 0 <= j < mb.len() && mb[j] == '\n';
        }
    }
    assert forall|j: int| w <= j && j + 7 <= p.len() implies #[trigger] p.subrange(j, j + 7) != mb by {
        assert(p.subrange(j, j + 7) =~= content.subrange(j, j + 7));
    }
    lemma_key_after_line(p, rest, mb, w);
    assert((p + rest).take(ls) =~= p);
}

/// The rewritten text's `members` array spans the written lines.
proof fn lemma_rewritten_span(content: Seq<char>, all: Seq<Seq<char>>)
    requires
        members_array_span(content) matches Some((w, line_start, _o, _c)) && w + 11 <= line_start,
        forall|i: int| 0 <= i < all.len() ==> plain_member(#[trigger] all[i]),
    ensures
        ({
            let (w, ls, o, c) = members_array_span(content)->Some_0;
            let once = rewritten(content, ls, c, all);
            let lines = concat_map(all, |m: Seq<char>| array_line(m));
            &&& members_array_span(once) == Some((w, ls, ls + 10, ls + 12 + lines.len()))
            &&& once.subrange(ls + 11, ls + 12 + lines.len()) == seq!['\n'] + lines
        }),
{
    reveal_strlit("members = [\n");
    reveal_strlit("]");
    lemma_span_facts(content);
    lemma_rewritten_keys(content, all);
    let (w, ls, o, c) = members_array_span(content)->Some_0;
    let lines = concat_map(all, |m: Seq<char>| array_line(m));
    let b = members_block(all);
    let once = rewritten(content, ls, c, all);
    assert(b =~= seq!['m', 'e', 'm', 'b', 'e', 'r', 's', ' ', '=', ' ', '[', '\n'] + lines + seq![
        ']',
    ]);
    lemma_lines_lack_bracket(all);
    let from_m = once.skip(ls);
    assert forall|j: int| 0 <= j < 10 implies from_m[j] != '[' by {
        assert(from_m[j] == b[j]);
    }
    assert(from_m[10] == '[');
    crate::text::lemma_first_index_is(from_m, '[', 10);
    let o2 = ls + 10;
    let from_o = once.skip(o2);
    assert forall|j: int| 0 <= j < 2 + lines.len() implies from_o[j] != ']' by {
        if j >= 2 {
            assert(from_o[j] == lines[j - 2]);
        }
    }
    assert(from_o[2 + lines.len() as int] == ']');
    crate::text::lemma_first_index_is(from_o, ']', 2 + lines.len() as int);
    assert(once.subrange(ls + 11, ls + 12 + lines.len()) =~= seq!['\n'] + lines);
}

/// Adding members twice is adding them once: when the `members` key stands on a line after the
/// `[workspace]` header and every entry is plain (no `,`, no `]`, no `"` at either end), adding
/// the same entries to the result changes nothing. The white-space facts are those of
/// Unicode's `White_Space` property (line feed and space have it, `"` does not), which the
/// uninterpreted `is_ws` does not carry by itself.
pub proof fn law_append_members_idempotent(content: Seq<char>, entries: Seq<Seq<char>>)
    requires
        manifest_with_members(content, entries) is Some,
        members_array_span(content) matches Some((w, line_start, _o, _c)) && w + 11 <= line_start,
        forall|k: int| 0 <= k < entries.len() ==> plain_member(#[trigger] entries[k]),
        is_ws('\n'),
        is_ws(' '),
        !is_ws('"'),
    ensures
        manifest_with_members(manifest_with_members(content, entries)->Some_0, entries)
            == manifest_with_members(content, entries),
{
    let (w, ls, o, c) = members_array_span(content)->Some_0;
    let raw = content.subrange(o + 1, c);
    let existing = array_items(split_on(raw, ','));
    let all = add_missing(existing, entries);
    law_add_missing(existing, entries);
    if all.len() != existing.len() {
        lemma_span_facts(content);
        crate::text::lemma_split_pieces(raw, ',');
        lemma_items_plain(split_on(raw, ','));
        assert forall|i: int| 0 <= i < all.len() implies plain_member(#[trigger] all[i]) by {
            if i < existing.len() {
                assert(all.take(existing.len() as int)[i] == existing[i]);
            } else {
                assert(entries.contains(all[i]));
                let j = choose|j: int| 0 <= j < entries.len() && entries[j] == all[i];
                assert(plain_member(entries[j]));
            }
        }
        lemma_rewritten_span(content, all);
        lemma_block_pieces(all);
        lemma_items_of_pieces(all);
        law_add_missing(all, entries);
        let once = rewritten(content, ls, c, all);
        assert(manifest_with_members(content, entries) == Some(once));
    }
}

} // verus!
