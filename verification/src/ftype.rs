//! Type definition blocks (`type name = underlying type`, its `source`,
//! `size` and `members`).
use vstd::prelude::*;
use crate::support::{source_location, source_location_of, u32_value, u32_value_of};
use crate::text::{
    chars_of, contains, cut_at_members, cut_at_members_of, drop_char, drop_char_chars, has_key_line,
    is_text, last_value, lemma_drop_char_absent, lemma_first_line, lemma_split_once_at, line_key, lines, lines_of, split_once, split_once_chars, string_of, texts, trim,
    trim_chars,
};

verus! {

/// One member of a type definition: its name, type, offset (running
/// total) and size.
#[derive(Debug)]
pub struct StructMemberData {
    pub sm_name: String,
    pub sm_type: String,
    pub sm_running_total: u32,
    pub sm_size: u32,
}

pub struct MemberView {
    pub sm_name: Seq<char>,
    pub sm_type: Seq<char>,
    pub sm_running_total: u32,
    pub sm_size: u32,
}

impl View for StructMemberData {
    type V = MemberView;

    open spec fn view(&self) -> MemberView {
        MemberView {
            sm_name: self.sm_name@,
            sm_type: self.sm_type@,
            sm_running_total: self.sm_running_total,
            sm_size: self.sm_size,
        }
    }
}

/// A type definition: its name, the type it stands for, where it is
/// declared, its size and, for a composite type, its members.
#[derive(Debug)]
pub struct FtypeData {
    /// The name of the type (the field `type_name` of the JSON output).
    pub ftype_name: String,
    pub type_base_type: String,
    pub type_full_file_path: String,
    pub type_line_num: u32,
    pub type_line_col: u32,
    pub type_size: u32,
    pub type_members: Option<Vec<StructMemberData>>,
}

pub struct FtypeView {
    pub ftype_name: Seq<char>,
    pub type_base_type: Seq<char>,
    pub type_full_file_path: Seq<char>,
    pub type_line_num: u32,
    pub type_line_col: u32,
    pub type_size: u32,
    pub type_members: Option<Seq<MemberView>>,
}

pub open spec fn member_views(ms: Seq<StructMemberData>) -> Seq<MemberView> {
    ms.map_values(|m: StructMemberData| m@)
}

pub open spec fn opt_member_views(ms: Option<Vec<StructMemberData>>) -> Option<Seq<MemberView>> {
    match ms {
        Some(v) => Some(member_views(v@)),
        None => None,
    }
}

impl View for FtypeData {
    type V = FtypeView;

    open spec fn view(&self) -> FtypeView {
        FtypeView {
            ftype_name: self.ftype_name@,
            type_base_type: self.type_base_type@,
            type_full_file_path: self.type_full_file_path@,
            type_line_num: self.type_line_num,
            type_line_col: self.type_line_col,
            type_size: self.type_size,
            type_members: opt_member_views(self.type_members),
        }
    }
}

pub open spec fn empty_ftype() -> FtypeView {
    FtypeView {
        ftype_name: Seq::empty(),
        type_base_type: Seq::empty(),
        type_full_file_path: Seq::empty(),
        type_line_num: 0,
        type_line_col: 0,
        type_size: 0,
        type_members: None,
    }
}

impl Default for FtypeData {
    fn default() -> (r: Self)
        ensures
            r@ == empty_ftype(),
    {
        FtypeData {
            ftype_name: String::new(),
            type_base_type: String::new(),
            type_full_file_path: String::new(),
            type_line_num: 0,
            type_line_col: 0,
            type_size: 0,
            type_members: None,
        }
    }
}

// ---------------------------------------------------------------------
// Members
// ---------------------------------------------------------------------

pub open spec fn empty_member() -> MemberView {
    MemberView { sm_name: Seq::empty(), sm_type: Seq::empty(), sm_running_total: 0, sm_size: 0 }
}

/// A member line `offset[size]name: type`; pieces that are missing leave
/// their fields empty or zero.
pub open spec fn member_of(x: Seq<char>) -> MemberView {
    match split_once(x, ':') {
        Some((sizes, ty)) => match split_once(sizes, ']') {
            Some((buf, name)) => match split_once(buf, '[') {
                Some((a, b)) => MemberView {
                    sm_name: name,
                    sm_type: trim(ty),
                    sm_running_total: u32_value(a),
                    sm_size: u32_value(b),
                },
                None => MemberView { sm_name: name, sm_type: trim(ty), ..empty_member() },
            },
            None => MemberView { sm_type: trim(ty), ..empty_member() },
        },
        None => empty_member(),
    }
}

/// Where the members of a type block start: its text with the tabs
/// removed, cut at the byte offset of the first `"s:"` of the block as it
/// stands (`Err` where that offset is not a character boundary of the
/// shorter text).
pub open spec fn type_members_cut(input: Seq<char>) -> Result<Option<Seq<char>>, ()> {
    cut_at_members(input, drop_char(input, '\t'))
}

/// The members of a type block can be read: the cut falls on a character
/// boundary.
pub open spec fn type_members_ok(input: Seq<char>) -> bool {
    type_members_cut(input) is Ok
}

/// The members of a type block: each line from the cut on, read as a
/// member; none where the block holds no `"s:"` or no line follows the
/// cut.
pub open spec fn members_of(input: Seq<char>) -> Option<Seq<MemberView>> {
    match type_members_cut(input) {
        Ok(Some(t)) => if lines(t).len() > 0 {
            Some(lines(t).map_values(|x: Seq<char>| member_of(x)))
        } else {
            None
        },
        _ => None,
    }
}

fn member_from(x: &[char]) -> (m: StructMemberData)
    ensures
        m@ == member_of(x@),
{
    let mut m = StructMemberData {
        sm_name: String::new(),
        sm_type: String::new(),
        sm_running_total: 0,
        sm_size: 0,
    };
    match split_once_chars(x, ':') {
        Some((sizes, ty)) => {
            m.sm_type = string_of(trim_chars(ty.as_slice()).as_slice());
            match split_once_chars(sizes.as_slice(), ']') {
                Some((buf, name)) => {
                    m.sm_name = string_of(name.as_slice());
                    match split_once_chars(buf.as_slice(), '[') {
                        Some((a, b)) => {
                            m.sm_running_total = u32_value_of(a.as_slice());
                            m.sm_size = u32_value_of(b.as_slice());
                        },
                        None => {},
                    }
                },
                None => {},
            }
        },
        None => {},
    }
    m
}

proof fn lemma_member_views_push(ms: Seq<StructMemberData>, m: StructMemberData)
    ensures
        member_views(ms.push(m)) == member_views(ms).push(m@),
{
    assert(member_views(ms.push(m)) =~= member_views(ms).push(m@));
}

/// The members of a type block, if any; `Err` where the cut does not fall
/// on a character boundary.
pub fn members_from(input: &[char]) -> (r: Result<Option<Vec<StructMemberData>>, ()>)
    ensures
        match r {
            Ok(m) => type_members_ok(input@) && opt_member_views(m) == members_of(input@),
            Err(_) => !type_members_ok(input@),
        },
{
    let member_data = drop_char_chars(input, '\t');
    match cut_at_members_of(input, member_data.as_slice()) {
        Err(_) => Err(()),
        Ok(None) => Ok(None),
        Ok(Some(t)) => {
            let ls = lines_of(t.as_slice());
            let ghost sl = texts(ls@);
            let mut ms: Vec<StructMemberData> = Vec::new();
            assert(member_views(ms@) =~= Seq::empty());
            let mut i: usize = 0;
            while i < ls.len()
                invariant
                    texts(ls@) == sl,
                    i <= ls.len(),
                    member_views(ms@) == sl.take(i as int).map_values(|x: Seq<char>| member_of(x)),
                decreases ls.len() - i,
            {
                assert(texts(ls@)[i as int] == ls@[i as int]@);
                let m = member_from(ls[i].as_slice());
                proof {
                    lemma_member_views_push(ms@, m);
                    assert(sl.take(i + 1).map_values(|x: Seq<char>| member_of(x)) =~= sl.take(
                        i as int,
                    ).map_values(|x: Seq<char>| member_of(x)).push(member_of(sl[i as int])));
                }
                ms.push(m);
                i += 1;
            }
            assert(texts(ls@).len() == ls@.len());
            assert(sl.take(i as int) =~= sl);
            if ms.len() > 0 {
                Ok(Some(ms))
            } else {
                Ok(None)
            }
        },
    }
}

/// The members of a type block, read from the first `"s:"` of the block
/// on, if any.
pub fn handle_members(input: &str) -> (r: Option<Vec<StructMemberData>>)
    requires
        type_members_ok(input@),
    ensures
        opt_member_views(r) == members_of(input@),
{
    let cs = chars_of(input);
    match members_from(cs.as_slice()) {
        Ok(m) => m,
        Err(_) => None,
    }
}

// ---------------------------------------------------------------------
// The block
// ---------------------------------------------------------------------

/// What line `idx` of a type block does to the record: the first line
/// `type name = underlying` names the type and its underlying type; later
/// lines set the location, the size or the members.
pub open spec fn type_line(d: FtypeView, idx: int, line: Seq<char>, buffer: Seq<char>) -> FtypeView {
    let clean = drop_char(line, '\t');
    if idx == 0 {
        match split_once(clean, ' ') {
            Some((_, value)) => match split_once(value, '=') {
                Some((n, v)) => FtypeView { ftype_name: trim(n), type_base_type: trim(v), ..d },
                None => FtypeView {
                    ftype_name: value,
                    type_base_type: "Failed to parse the real underlying type"@,
                    ..d
                },
            },
            None => FtypeView { ftype_name: "unparsed name"@, ..d },
        }
    } else {
        match split_once(clean, ':') {
            Some((k, v)) => if k == "source"@ {
                match source_location(v) {
                    Some(loc) => {
                        let d2 = match loc {
                            (Some(l), Some(c)) => FtypeView {
                                type_line_num: l,
                                type_line_col: c,
                                ..d
                            },
                            _ => d,
                        };
                        FtypeView { type_full_file_path: trim(v), ..d2 }
                    },
                    None => d,
                }
            } else if k == "size"@ {
                FtypeView { type_size: u32_value(v), ..d }
            } else if k == "members"@ {
                FtypeView { type_members: members_of(buffer), ..d }
            } else {
                d
            },
            None => d,
        }
    }
}

pub open spec fn type_upto(ls: Seq<Seq<char>>, n: int, buffer: Seq<char>) -> FtypeView
    decreases n,
{
    if n <= 0 {
        empty_ftype()
    } else {
        type_line(type_upto(ls, n - 1, buffer), n - 1, ls[n - 1], buffer)
    }
}

/// The type definition that a block describes.
pub open spec fn type_data(buffer: Seq<char>) -> FtypeView {
    type_upto(lines(buffer), lines(buffer).len() as int, buffer)
}

/// A type block can be read: where a later line has the key `members`,
/// its members can be.
pub open spec fn type_ok(buffer: Seq<char>) -> bool {
    has_key_line(buffer, "members"@) ==> type_members_ok(buffer)
}

fn type_step(d: &mut FtypeData, idx: usize, line: &[char], buffer: &[char]) -> (ok: bool)
    ensures
        ok == !(idx != 0 && line_key(line@) == Some("members"@) && !type_members_ok(buffer@)),
        ok ==> final(d)@ == type_line(old(d)@, idx as int, line@, buffer@),
{
    let clean = drop_char_chars(line, '\t');
    if idx == 0 {
        match split_once_chars(clean.as_slice(), ' ') {
            Some((_, value)) => {
                match split_once_chars(value.as_slice(), '=') {
                    Some((n, v)) => {
                        d.ftype_name = string_of(trim_chars(n.as_slice()).as_slice());
                        d.type_base_type = string_of(trim_chars(v.as_slice()).as_slice());
                    },
                    None => {
                        d.ftype_name = string_of(value.as_slice());
                        d.type_base_type = string_of(
                            chars_of("Failed to parse the real underlying type").as_slice(),
                        );
                    },
                }
            },
            None => {
                d.ftype_name = string_of(chars_of("unparsed name").as_slice());
            },
        }
        return true;
    }
    match split_once_chars(clean.as_slice(), ':') {
        Some((k, v)) => {
            assert(line_key(line@) == Some(k@));
            proof {
                reveal_strlit("members");
            }
            if is_text(k.as_slice(), "source") {
                proof {
                    reveal_strlit("source");
                }
                assert(k@.len() == 6);
                match source_location_of(v.as_slice()) {
                    Some(loc) => {
                        match loc {
                            (Some(l), Some(c)) => {
                                d.type_line_num = l;
                                d.type_line_col = c;
                            },
                            _ => {},
                        }
                        d.type_full_file_path = string_of(trim_chars(v.as_slice()).as_slice());
                    },
                    None => {},
                }
            } else if is_text(k.as_slice(), "size") {
                proof {
                    reveal_strlit("size");
                }
                assert(k@.len() == 4);
                d.type_size = u32_value_of(v.as_slice());
            } else if is_text(k.as_slice(), "members") {
                match members_from(buffer) {
                    Ok(m) => {
                        d.type_members = m;
                    },
                    Err(_) => {
                        return false;
                    },
                }
            }
        },
        None => {},
    }
    true
}

/// Parses a `type` block, or gives `None` where its members cannot be
/// read.
pub fn try_parse_type_data(buffer: &str) -> (r: Option<FtypeData>)
    ensures
        r is Some <==> type_ok(buffer@),
        r matches Some(d) ==> d@ == type_data(buffer@),
{
    let cs = chars_of(buffer);
    let ls = lines_of(cs.as_slice());
    let ghost sl = lines(cs@);
    let mut d = FtypeData::default();
    let mut i: usize = 0;
    while i < ls.len()
        invariant
            cs@ == buffer@,
            sl == lines(buffer@),
            texts(ls@) == sl,
            i <= ls.len(),
            d@ == type_upto(sl, i as int, buffer@),
            (exists|x: int| 1 <= x < i && line_key(#[trigger] sl[x]) == Some("members"@))
                ==> type_members_ok(buffer@),
        decreases ls.len() - i,
    {
        assert(texts(ls@)[i as int] == ls@[i as int]@);
        let ok = type_step(&mut d, i, ls[i].as_slice(), cs.as_slice());
        if !ok {
            assert(1 <= i < lines(buffer@).len() && line_key(lines(buffer@)[i as int]) == Some(
                "members"@,
            ));
            return None;
        }
        i += 1;
    }
    assert(texts(ls@).len() == ls@.len());
    Some(d)
}

/// Parses a `type` block of ddbug output.
pub fn parse_type_data(buffer: &str) -> (r: FtypeData)
    requires
        type_ok(buffer@),
    ensures
        r@ == type_data(buffer@),
{
    match try_parse_type_data(buffer) {
        Some(d) => d,
        None => {
            assert(false);
            FtypeData::default()
        },
    }
}

proof fn lemma_type_upto_nonempty(ls: Seq<Seq<char>>, n: int, buffer: Seq<char>)
    ensures
        type_upto(ls, n, buffer).type_members matches Some(v) ==> v.len() > 0,
    decreases n,
{
    if n > 0 {
        lemma_type_upto_nonempty(ls, n - 1, buffer);
    }
}

/// A parsed type never holds an empty list of members: where there are
/// none, the list is absent.
pub proof fn lemma_type_members_nonempty(buffer: Seq<char>)
    ensures
        type_data(buffer).type_members matches Some(v) ==> v.len() > 0,
{
    lemma_type_upto_nonempty(lines(buffer), lines(buffer).len() as int, buffer);
}

/// `handle_members` gives no members or a non-empty list of them, and no
/// members where the block holds no `"s:"`.
pub proof fn lemma_type_members_shape(input: Seq<char>)
    ensures
        members_of(input) matches Some(v) ==> v.len() > 0,
        !contains(input, "s:"@) ==> members_of(input) is None,
{
}

proof fn lemma_type_upto_heading(ls: Seq<Seq<char>>, n: int, buffer: Seq<char>)
    requires
        1 <= n,
    ensures
        type_upto(ls, n, buffer).ftype_name == type_upto(ls, 1, buffer).ftype_name,
        type_upto(ls, n, buffer).type_base_type == type_upto(ls, 1, buffer).type_base_type,
    decreases n,
{
    if n > 1 {
        lemma_type_upto_heading(ls, n - 1, buffer);
    }
}

/// The name and the underlying type of a type block come from its first
/// line `type name = underlying` alone, tabs removed: the name is the
/// trimmed text between the first space and the first `'='`, the
/// underlying type all of the trimmed text after that `'='`.
pub proof fn lemma_type_heading(buffer: Seq<char>)
    requires
        lines(buffer).len() > 0,
    ensures
        ({
            let d = type_data(buffer);
            match split_once(drop_char(lines(buffer)[0], '\t'), ' ') {
                Some((_, value)) => match split_once(value, '=') {
                    Some((n, v)) => d.ftype_name == trim(n) && d.type_base_type == trim(v),
                    None => d.ftype_name == value && d.type_base_type
                        == "Failed to parse the real underlying type"@,
                },
                None => d.ftype_name == "unparsed name"@ && d.type_base_type == Seq::<char>::empty(),
            }
        }),
{
    let ls = lines(buffer);
    lemma_type_upto_heading(ls, ls.len() as int, buffer);
    assert(type_upto(ls, 0, buffer) == empty_ftype());
    assert(type_upto(ls, 1, buffer) == type_line(empty_ftype(), 0, ls[0], buffer));
}

/// A block whose first line is `head name=underlying`, where `head` holds
/// no space, `name` no `'='` and no character of the line is a tab or a
/// newline, names the type `name` trimmed, and its underlying type is all
/// of `underlying`, trimmed.
pub proof fn lemma_type_heading_parts(
    head: Seq<char>,
    name: Seq<char>,
    underlying: Seq<char>,
    rest: Seq<char>,
)
    requires
        forall|i: int| 0 <= i < head.len() ==> #[trigger] head[i] != ' ' && head[i] != '\t'
            && head[i] != '\n',
        forall|i: int| 0 <= i < name.len() ==> #[trigger] name[i] != '=' && name[i] != '\t'
            && name[i] != '\n',
        forall|i: int| 0 <= i < underlying.len() ==> #[trigger] underlying[i] != '\t'
            && underlying[i] != '\n',
        underlying.len() == 0 || underlying.last() != '\r',
    ensures
        ({
            let d = type_data(
                head + seq![' '] + name + seq!['='] + underlying + seq!['\n'] + rest,
            );
            d.ftype_name == trim(name) && d.type_base_type == trim(underlying)
        }),
{
    let value = name + seq!['='] + underlying;
    let l = head + seq![' '] + value;
    assert(l =~= head + seq![' '] + name + seq!['='] + underlying);
    assert forall|i: int| 0 <= i < l.len() implies #[trigger] l[i] != '\n' && l[i] != '\t' by {
        if i < head.len() {
            assert(l[i] == head[i]);
        } else if head.len() < i < head.len() + 1 + name.len() {
            assert(l[i] == name[i - head.len() - 1]);
        } else if i > head.len() + 1 + name.len() {
            assert(l[i] == underlying[i - head.len() - 2 - name.len()]);
        }
    }
    let b = head + seq![' '] + name + seq!['='] + underlying + seq!['\n'] + rest;
    assert(b =~= l.push('\n') + rest);
    lemma_first_line(l, rest);
    lemma_drop_char_absent(l, '\t');
    lemma_split_once_at(head, ' ', value);
    lemma_split_once_at(name, '=', underlying);
    lemma_type_heading(b);
}

proof fn lemma_type_upto_fields(ls: Seq<Seq<char>>, n: int, buffer: Seq<char>)
    requires
        0 <= n <= ls.len(),
    ensures
        type_upto(ls, n, buffer).type_size == (match last_value(ls, n, "size"@) {
            Some(v) => u32_value(v),
            None => 0,
        }),
        type_upto(ls, n, buffer).type_members == if exists|i: int|
            1 <= i < n && line_key(#[trigger] ls[i]) == Some("members"@) {
            members_of(buffer)
        } else {
            None
        },
    decreases n,
{
    if n > 0 {
        lemma_type_upto_fields(ls, n - 1, buffer);
        reveal_strlit("members");
        reveal_strlit("source");
        reveal_strlit("size");
        assert("source"@.len() == 6 && "size"@.len() == 4 && "members"@.len() == 7);
        if exists|i: int| 1 <= i < n - 1 && line_key(#[trigger] ls[i]) == Some("members"@) {
            let i = choose|i: int| 1 <= i < n - 1 && line_key(#[trigger] ls[i]) == Some("members"@);
            assert(1 <= i < n && line_key(ls[i]) == Some("members"@));
        }
        if exists|i: int| 1 <= i < n && line_key(#[trigger] ls[i]) == Some("members"@) {
            let i = choose|i: int| 1 <= i < n && line_key(#[trigger] ls[i]) == Some("members"@);
            if i < n - 1 {
                assert(1 <= i < n - 1 && line_key(ls[i]) == Some("members"@));
            }
        }
    }
}

/// A type's size is the number on the last `size` line after the first
/// line (0 where there is none), and its members those read from the block
/// where a line after the first has the key `members`, none otherwise.
pub proof fn lemma_type_fields(buffer: Seq<char>)
    ensures
        ({
            let d = type_data(buffer);
            let ls = lines(buffer);
            &&& d.type_size == (match last_value(ls, ls.len() as int, "size"@) {
                Some(v) => u32_value(v),
                None => 0,
            })
            &&& d.type_members == if has_key_line(buffer, "members"@) {
                members_of(buffer)
            } else {
                None
            }
        }),
{
    lemma_type_upto_fields(lines(buffer), lines(buffer).len() as int, buffer);
}

/// A member line `offset[size]name:type`, where offset holds no bracket and
/// no `':'`, size no `']'` and no `':'`, and name no `':'`, gives the offset
/// and size as numbers, the name as it stands and the type as all of its
/// trimmed text.
pub proof fn lemma_type_member_line(
    off: Seq<char>,
    size: Seq<char>,
    name: Seq<char>,
    ty: Seq<char>,
)
    requires
        forall|i: int| 0 <= i < off.len() ==> #[trigger] off[i] != '[' && off[i] != ']' && off[i]
            != ':',
        forall|i: int| 0 <= i < size.len() ==> #[trigger] size[i] != ']' && size[i] != ':',
        forall|i: int| 0 <= i < name.len() ==> #[trigger] name[i] != ':',
    ensures
        member_of(off + seq!['['] + size + seq![']'] + name + seq![':'] + ty) == (MemberView {
            sm_name: name,
            sm_type: trim(ty),
            sm_running_total: u32_value(off),
            sm_size: u32_value(size),
        }),
{
    let b = off + seq!['['] + size;
    let sizes = b + seq![']'] + name;
    let x = sizes + seq![':'] + ty;
    assert(x =~= off + seq!['['] + size + seq![']'] + name + seq![':'] + ty);
    assert forall|i: int| 0 <= i < sizes.len() implies #[trigger] sizes[i] != ':' by {
        if i < off.len() {
            assert(sizes[i] == off[i]);
        } else if off.len() < i < b.len() {
            assert(sizes[i] == size[i - off.len() - 1]);
        } else if i > b.len() {
            assert(sizes[i] == name[i - b.len() - 1]);
        }
    }
    lemma_split_once_at(sizes, ':', ty);
    assert forall|i: int| 0 <= i < b.len() implies #[trigger] b[i] != ']' by {
        if i < off.len() {
            assert(b[i] == off[i]);
        } else if i > off.len() {
            assert(b[i] == size[i - off.len() - 1]);
        }
    }
    lemma_split_once_at(b, ']', name);
    lemma_split_once_at(off, '[', size);
}

/// A type block lists one member per line from the cut on, in order, each
/// read from its line.
pub proof fn lemma_type_one_member_per_line(input: Seq<char>)
    ensures
        type_members_cut(input) matches Ok(Some(t)) ==> (lines(t).len() > 0 ==> (members_of(input)
            matches Some(v) && v.len() == lines(t).len() && forall|i: int|
            0 <= i < v.len() ==> #[trigger] v[i] == member_of(lines(t)[i]))),
{
}

} // verus!
