//! Structure blocks (`struct Name`, its `source`, `size` and `members`).
use vstd::prelude::*;
use crate::support::{source_location, source_location_of, u32_value, u32_value_of};
use crate::text::{
    chars_of, contains, contains_chars, drop_char, drop_char_chars, is_text, lemma_split_by_cons,
    lemma_split_by_none, has_key_line, last_value, line_key, lines, lines_after,
    lines_after_of, lines_of, nth_word, split_by, split_chars, split_once, split_once_chars,
    string_of, swap_char, swap_char_chars, texts, trim, trim_chars, trim_start, trim_start_chars,
    words_of,
};

verus! {

/// One member of a structure: its offset (running total), size, name and
/// type.
#[derive(Debug)]
pub struct StructMemberData {
    pub sm_name: String,
    pub sm_type: String,
    pub sm_running_total: u32,
    pub sm_size: u32,
}

pub struct MemberView {
    pub sm_name: Seq<char>,
    pub sm_type: Seq<char>,
    pub sm_running_total: u32,
    pub sm_size: u32,
}

impl View for StructMemberData {
    type V = MemberView;

    open spec fn view(&self) -> MemberView {
        MemberView {
            sm_name: self.sm_name@,
            sm_type: self.sm_type@,
            sm_running_total: self.sm_running_total,
            sm_size: self.sm_size,
        }
    }
}

#[derive(Debug)]
pub struct StructData {
    pub s_name: String,
    pub s_members: Vec<StructMemberData>,
    pub s_full_file_path: String,
    pub s_line_num: u32,
    pub s_line_col: u32,
    pub s_size: u32,
}

pub struct StructView {
    pub s_name: Seq<char>,
    pub s_members: Seq<MemberView>,
    pub s_full_file_path: Seq<char>,
    pub s_line_num: u32,
    pub s_line_col: u32,
    pub s_size: u32,
}

pub open spec fn member_views(ms: Seq<StructMemberData>) -> Seq<MemberView> {
    ms.map_values(|m: StructMemberData| m@)
}

impl View for StructData {
    type V = StructView;

    open spec fn view(&self) -> StructView {
        StructView {
            s_name: self.s_name@,
            s_members: member_views(self.s_members@),
            s_full_file_path: self.s_full_file_path@,
            s_line_num: self.s_line_num,
            s_line_col: self.s_line_col,
            s_size: self.s_size,
        }
    }
}

pub open spec fn empty_struct() -> StructView {
    StructView {
        s_name: Seq::empty(),
        s_members: Seq::empty(),
        s_full_file_path: Seq::empty(),
        s_line_num: 0,
        s_line_col: 0,
        s_size: 0,
    }
}

impl Default for StructData {
    fn default() -> (r: Self)
        ensures
            r@ == empty_struct(),
    {
        let r = StructData {
            s_name: String::new(),
            s_members: Vec::new(),
            s_full_file_path: String::new(),
            s_line_num: 0,
            s_line_col: 0,
            s_size: 0,
        };
        assert(member_views(r.s_members@) =~= Seq::empty());
        r
    }
}

// ---------------------------------------------------------------------
// Members
// ---------------------------------------------------------------------

/// The block text with brackets turned into `'|'` and tabs removed.
pub open spec fn member_text(input: Seq<char>) -> Seq<char> {
    drop_char(swap_char(swap_char(input, ']', '|'), '[', '|'), '\t')
}

/// A member line `offset|size|name: type` (brackets already turned into
/// `'|'`): its pieces between `'|'` and `':'` give the offset, the size,
/// the name and the type; a type naming `<padding>` is just that.
pub open spec fn member_of(x: Seq<char>) -> MemberView {
    let zz = split_by(x, '|', ':');
    MemberView {
        sm_running_total: u32_value(zz[0]),
        sm_size: if zz.len() > 1 {
            u32_value(zz[1])
        } else {
            0
        },
        sm_name: if zz.len() > 2 {
            zz[2]
        } else {
            "[ERROR 545] Failed to parse field member name \""@
        },
        sm_type: if zz.len() > 3 {
            let t = trim_start(zz[3]);
            if contains(t, "<padding>"@) {
                "<padding>"@
            } else {
                t
            }
        } else {
            Seq::empty()
        },
    }
}

/// The members of a structure block: the lines after its `members:` line
/// (brackets turned into `'|'`, tabs removed), each read as a member; none
/// where the block has no such line.
pub open spec fn members_of(input: Seq<char>) -> Seq<MemberView> {
    match lines_after(member_text(input), "members:"@) {
        Some(ls) => ls.map_values(|x: Seq<char>| member_of(x)),
        None => Seq::empty(),
    }
}

fn member_from(x: &[char]) -> (m: StructMemberData)
    ensures
        m@ == member_of(x@),
{
    let zz = split_chars(x, '|', ':');
    let ghost z = split_by(x@, '|', ':');
    assert(texts(zz@).len() == zz@.len());
    assert(texts(zz@)[0] == zz@[0]@);
    let sm_running_total = u32_value_of(zz[0].as_slice());
    let sm_size = if zz.len() > 1 {
        assert(texts(zz@)[1] == zz@[1]@);
        u32_value_of(zz[1].as_slice())
    } else {
        0
    };
    let sm_name = if zz.len() > 2 {
        assert(texts(zz@)[2] == zz@[2]@);
        string_of(zz[2].as_slice())
    } else {
        string_of(chars_of("[ERROR 545] Failed to parse field member name \"").as_slice())
    };
    let sm_type = if zz.len() > 3 {
        assert(texts(zz@)[3] == zz@[3]@);
        let t = trim_start_chars(zz[3].as_slice());
        let pad = chars_of("<padding>");
        if contains_chars(t.as_slice(), pad.as_slice()) {
            string_of(pad.as_slice())
        } else {
            string_of(t.as_slice())
        }
    } else {
        String::new()
    };
    StructMemberData { sm_name, sm_type, sm_running_total, sm_size }
}

proof fn lemma_member_views_push(ms: Seq<StructMemberData>, m: StructMemberData)
    ensures
        member_views(ms.push(m)) == member_views(ms).push(m@),
{
    assert(member_views(ms.push(m)) =~= member_views(ms).push(m@));
}

/// The members of a structure block.
pub fn members_from(input: &[char]) -> (r: Vec<StructMemberData>)
    ensures
        member_views(r@) == members_of(input@),
{
    let a = swap_char_chars(input, ']', '|');
    let b = swap_char_chars(a.as_slice(), '[', '|');
    let member_data = drop_char_chars(b.as_slice(), '\t');
    let mut ms: Vec<StructMemberData> = Vec::new();
    assert(member_views(ms@) =~= Seq::empty());
    match lines_after_of(member_data.as_slice(), "members:") {
        None => ms,
        Some(ls) => {
            let ghost sl = texts(ls@);
            let mut i: usize = 0;
            while i < ls.len()
                invariant
                    texts(ls@) == sl,
                    i <= ls.len(),
                    member_views(ms@) == sl.take(i as int).map_values(|x: Seq<char>| member_of(x)),
                decreases ls.len() - i,
            {
                assert(texts(ls@)[i as int] == ls@[i as int]@);
                let m = member_from(ls[i].as_slice());
                proof {
                    lemma_member_views_push(ms@, m);
                    assert(sl.take(i + 1).map_values(|x: Seq<char>| member_of(x)) =~= sl.take(
                        i as int,
                    ).map_values(|x: Seq<char>| member_of(x)).push(member_of(sl[i as int])));
                }
                ms.push(m);
                i += 1;
            }
            assert(texts(ls@).len() == ls@.len());
            assert(sl.take(i as int) =~= sl);
            ms
        },
    }
}

/// The members listed after the `members:` line of a structure block.
pub fn handle_members(input: &str) -> (r: Vec<StructMemberData>)
    ensures
        member_views(r@) == members_of(input@),
{
    let cs = chars_of(input);
    members_from(cs.as_slice())
}

// ---------------------------------------------------------------------
// The block
// ---------------------------------------------------------------------

/// What line `idx` of a structure block does to the record.
pub open spec fn struct_line(d: StructView, idx: int, line: Seq<char>, buffer: Seq<char>) -> StructView {
    if idx == 0 {
        StructView {
            s_name: match nth_word(line, 1) {
                Some(w) => w,
                None => "Error: failed to parse struct name"@,
            },
            ..d
        }
    } else {
        match split_once(drop_char(line, '\t'), ':') {
            Some((k, v)) => if k == "source"@ {
                match source_location(v) {
                    Some(loc) => {
                        let d2 = match loc {
                            (Some(l), Some(c)) => StructView { s_line_num: l, s_line_col: c, ..d },
                            _ => d,
                        };
                        StructView { s_full_file_path: trim(v), ..d2 }
                    },
                    None => d,
                }
            } else if k == "members"@ {
                StructView { s_members: members_of(buffer), ..d }
            } else if k == "size"@ {
                StructView { s_size: u32_value(v), ..d }
            } else {
                d
            },
            None => d,
        }
    }
}

pub open spec fn struct_upto(ls: Seq<Seq<char>>, n: int, buffer: Seq<char>) -> StructView
    decreases n,
{
    if n <= 0 {
        empty_struct()
    } else {
        struct_line(struct_upto(ls, n - 1, buffer), n - 1, ls[n - 1], buffer)
    }
}

/// The structure that a block describes.
pub open spec fn struct_data(buffer: Seq<char>) -> StructView {
    struct_upto(lines(buffer), lines(buffer).len() as int, buffer)
}

fn struct_step(d: &mut StructData, idx: usize, line: &[char], buffer: &[char])
    ensures
        final(d)@ == struct_line(old(d)@, idx as int, line@, buffer@),
{
    if idx == 0 {
        let ws = words_of(line);
        assert(texts(ws@).len() == ws@.len());
        if ws.len() > 1 {
            assert(texts(ws@)[1] == ws@[1]@);
            d.s_name = string_of(ws[1].as_slice());
        } else {
            d.s_name = string_of(chars_of("Error: failed to parse struct name").as_slice());
        }
        return ;
    }
    let clean = drop_char_chars(line, '\t');
    match split_once_chars(clean.as_slice(), ':') {
        Some((k, v)) => {
            if is_text(k.as_slice(), "source") {
                match source_location_of(v.as_slice()) {
                    Some(loc) => {
                        match loc {
                            (Some(l), Some(c)) => {
                                d.s_line_num = l;
                                d.s_line_col = c;
                            },
                            _ => {},
                        }
                        d.s_full_file_path = string_of(trim_chars(v.as_slice()).as_slice());
                    },
                    None => {},
                }
            } else if is_text(k.as_slice(), "members") {
                d.s_members = members_from(buffer);
            } else if is_text(k.as_slice(), "size") {
                d.s_size = u32_value_of(v.as_slice());
            }
        },
        None => {},
    }
}

/// Parses a `struct` block of ddbug output.
pub fn parse_struct_data(buffer: &str) -> (r: StructData)
    ensures
        r@ == struct_data(buffer@),
{
    let cs = chars_of(buffer);
    let ls = lines_of(cs.as_slice());
    let ghost sl = lines(cs@);
    let mut d = StructData::default();
    let mut i: usize = 0;
    while i < ls.len()
        invariant
            cs@ == buffer@,
            sl == lines(buffer@),
            texts(ls@) == sl,
            i <= ls.len(),
            d@ == struct_upto(sl, i as int, buffer@),
        decreases ls.len() - i,
    {
        assert(texts(ls@)[i as int] == ls@[i as int]@);
        struct_step(&mut d, i, ls[i].as_slice(), cs.as_slice());
        i += 1;
    }
    d
}

/// A member line `offset|size|name:type` (brackets already turned into
/// `'|'`), whose four parts hold no `'|'` and no `':'`, gives the offset
/// and size as numbers, the name as it stands, and the type as all of its
/// text without leading whitespace, or just `<padding>` where that text
/// names it.
pub proof fn lemma_struct_member_line(
    off: Seq<char>,
    size: Seq<char>,
    name: Seq<char>,
    ty: Seq<char>,
)
    requires
        forall|i: int| 0 <= i < off.len() ==> #[trigger] off[i] != '|' && off[i] != ':',
        forall|i: int| 0 <= i < size.len() ==> #[trigger] size[i] != '|' && size[i] != ':',
        forall|i: int| 0 <= i < name.len() ==> #[trigger] name[i] != '|' && name[i] != ':',
        forall|i: int| 0 <= i < ty.len() ==> #[trigger] ty[i] != '|' && ty[i] != ':',
    ensures
        ({
            let m = member_of(off + seq!['|'] + size + seq!['|'] + name + seq![':'] + ty);
            &&& m.sm_running_total == u32_value(off)
            &&& m.sm_size == u32_value(size)
            &&& m.sm_name == name
            &&& !contains(trim_start(ty), "<padding>"@) ==> m.sm_type == trim_start(ty)
            &&& contains(trim_start(ty), "<padding>"@) ==> m.sm_type == "<padding>"@
        }),
{
    let r3 = name + seq![':'] + ty;
    let r2 = size + seq!['|'] + r3;
    let x = off + seq!['|'] + r2;
    assert(x =~= off + seq!['|'] + size + seq!['|'] + name + seq![':'] + ty);
    lemma_split_by_cons(off, '|', r2, '|', ':');
    lemma_split_by_cons(size, '|', r3, '|', ':');
    lemma_split_by_cons(name, ':', ty, '|', ':');
    lemma_split_by_none(ty, '|', ':');
    assert(split_by(x, '|', ':') =~= seq![off, size, name, ty]);
}

proof fn lemma_struct_upto_fields(ls: Seq<Seq<char>>, n: int, buffer: Seq<char>)
    requires
        0 <= n <= ls.len(),
    ensures
        struct_upto(ls, n, buffer).s_size == (match last_value(ls, n, "size"@) {
            Some(v) => u32_value(v),
            None => 0,
        }),
        struct_upto(ls, n, buffer).s_members == if exists|i: int|
            1 <= i < n && line_key(#[trigger] ls[i]) == Some("members"@) {
            members_of(buffer)
        } else {
            Seq::empty()
        },
        n >= 1 ==> struct_upto(ls, n, buffer).s_name == struct_upto(ls, 1, buffer).s_name,
    decreases n,
{
    if n > 0 {
        lemma_struct_upto_fields(ls, n - 1, buffer);
        reveal_strlit("members");
        reveal_strlit("source");
        reveal_strlit("size");
        assert("source"@.len() == 6 && "size"@.len() == 4 && "members"@.len() == 7);
        if exists|i: int| 1 <= i < n - 1 && line_key(#[trigger] ls[i]) == Some("members"@) {
            let i = choose|i: int| 1 <= i < n - 1 && line_key(#[trigger] ls[i]) == Some("members"@);
            assert(1 <= i < n && line_key(ls[i]) == Some("members"@));
        }
        if exists|i: int| 1 <= i < n && line_key(#[trigger] ls[i]) == Some("members"@) {
            let i = choose|i: int| 1 <= i < n && line_key(#[trigger] ls[i]) == Some("members"@);
            if i < n - 1 {
                assert(1 <= i < n - 1 && line_key(ls[i]) == Some("members"@));
            }
        }
    }
}

/// A structure's name is the second word of its first line, its size the
/// number on the last `size` line after that (0 where there is none), and
/// its members those read from the block where a line after the first has
/// the key `members`, none otherwise.
pub proof fn lemma_struct_fields(buffer: Seq<char>)
    requires
        lines(buffer).len() > 0,
    ensures
        ({
            let d = struct_data(buffer);
            let ls = lines(buffer);
            &&& d.s_name == (match nth_word(ls[0], 1) {
                Some(w) => w,
                None => "Error: failed to parse struct name"@,
            })
            &&& d.s_size == (match last_value(ls, ls.len() as int, "size"@) {
                Some(v) => u32_value(v),
                None => 0,
            })
            &&& d.s_members == if has_key_line(buffer, "members"@) {
                members_of(buffer)
            } else {
                Seq::empty()
            }
        }),
{
    let ls = lines(buffer);
    lemma_struct_upto_fields(ls, ls.len() as int, buffer);
    assert(struct_upto(ls, 0, buffer) == empty_struct());
}

/// A structure block lists one member per line after its `members:` line,
/// in order, each read from that line.
pub proof fn lemma_struct_one_member_per_line(input: Seq<char>)
    ensures
        match lines_after(member_text(input), "members:"@) {
            Some(ls) => members_of(input).len() == ls.len() && forall|i: int|
                0 <= i < ls.len() ==> #[trigger] members_of(input)[i] == member_of(ls[i]),
            None => members_of(input).len() == 0,
        },
{
}

} // verus!
