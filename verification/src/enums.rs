//! Enumeration blocks (`enum Name`, its `source`, `size` and
//! `enumerators`).
use vstd::prelude::*;
use crate::support::{
    i32_value, i32_value_of, source_location, source_location_of, u32_value, u32_value_of,
};
use crate::text::{
    chars_of, cut_at_members, cut_at_members_of, drop_char, drop_char_chars, has_key_line, is_text,
    last_value, lemma_drop_char_absent, lemma_split_once_at, line_key, lines, lines_of, nth_word, split_once, split_once_chars, string_of, swap_char,
    swap_char_chars, texts, trim, trim_chars, words_of,
};

verus! {

/// An enumeration, with its enumerators as (name, value) pairs whose names
/// are all different.
#[derive(Debug)]
pub struct EnumData {
    pub enum_name: String,
    pub enum_full_file_path: String,
    pub enum_line_num: u32,
    pub enum_line_col: u32,
    pub enum_size: u32,
    /// The enumerators by name: a map from name to value, held as
    /// (name, value) pairs in which no name occurs twice. The map types of
    /// std, keyed by `String`, come with no specification of what they
    /// hold that a proof could rest on; a `Vec` does.
    pub enumerators: Vec<(String, i32)>,
}

pub struct EnumView {
    pub enum_name: Seq<char>,
    pub enum_full_file_path: Seq<char>,
    pub enum_line_num: u32,
    pub enum_line_col: u32,
    pub enum_size: u32,
    pub enumerators: Seq<(Seq<char>, i32)>,
}

pub open spec fn entries(es: Seq<(String, i32)>) -> Seq<(Seq<char>, i32)> {
    es.map_values(|e: (String, i32)| (e.0@, e.1))
}

impl View for EnumData {
    type V = EnumView;

    open spec fn view(&self) -> EnumView {
        EnumView {
            enum_name: self.enum_name@,
            enum_full_file_path: self.enum_full_file_path@,
            enum_line_num: self.enum_line_num,
            enum_line_col: self.enum_line_col,
            enum_size: self.enum_size,
            enumerators: entries(self.enumerators@),
        }
    }
}

pub open spec fn empty_enum() -> EnumView {
    EnumView {
        enum_name: Seq::empty(),
        enum_full_file_path: Seq::empty(),
        enum_line_num: 0,
        enum_line_col: 0,
        enum_size: 0,
        enumerators: Seq::empty(),
    }
}

impl Default for EnumData {
    fn default() -> (r: Self)
        ensures
            r@ == empty_enum(),
    {
        let r = EnumData {
            enum_name: String::new(),
            enum_full_file_path: String::new(),
            enum_line_num: 0,
            enum_line_col: 0,
            enum_size: 0,
            enumerators: Vec::new(),
        };
        assert(entries(r.enumerators@) =~= Seq::empty());
        r
    }
}

// ---------------------------------------------------------------------
// The enumerator table
// ---------------------------------------------------------------------

/// No name occurs twice.
pub open spec fn distinct_names(es: Seq<(Seq<char>, i32)>) -> bool {
    forall|i: int, j: int| 0 <= i < j < es.len() ==> es[i].0 != es[j].0
}

/// The table after setting `k` to `v`: the entry named `k` takes the value
/// where there is one, else the pair is appended.
pub open spec fn put_entry(es: Seq<(Seq<char>, i32)>, k: Seq<char>, v: i32) -> Seq<(Seq<char>, i32)> {
    if exists|i: int| 0 <= i < es.len() && es[i].0 == k {
        let i = choose|i: int| 0 <= i < es.len() && es[i].0 == k;
        es.update(i, (k, v))
    } else {
        es.push((k, v))
    }
}

/// The enumerator that a line such as `RED(0)` names: the text before the
/// `(` and the signed number inside.
pub open spec fn enumerator_line(x: Seq<char>) -> Option<(Seq<char>, i32)> {
    let cur = swap_char(drop_char(x, ')'), '(', ' ');
    match split_once(cur, ' ') {
        Some((k, v)) => Some((k, i32_value(Some(v)))),
        None => None,
    }
}

/// The table after the first `n` lines.
pub open spec fn table_upto(ls: Seq<Seq<char>>, n: int) -> Seq<(Seq<char>, i32)>
    decreases n,
{
    if n <= 0 {
        Seq::empty()
    } else {
        let t = table_upto(ls, n - 1);
        match enumerator_line(ls[n - 1]) {
            Some((k, v)) => put_entry(t, k, v),
            None => t,
        }
    }
}

/// Where the enumerators of a block start: its text with the tabs
/// removed, cut at the byte offset of the first `"s:"` of the block as it
/// stands (`Err` where that offset is not a character boundary of the
/// shorter text).
pub open spec fn enum_members_cut(input: Seq<char>) -> Result<Option<Seq<char>>, ()> {
    cut_at_members(input, drop_char(input, '\t'))
}

/// The enumerators of a block can be read: the cut falls on a character
/// boundary.
pub open spec fn members_cut_ok(input: Seq<char>) -> bool {
    enum_members_cut(input) is Ok
}

/// The enumerators of a block: each line from the cut on, read as an
/// enumerator, a later one of a name replacing the value of an earlier
/// one; none where the block holds no `"s:"`.
pub open spec fn enum_table(input: Seq<char>) -> Seq<(Seq<char>, i32)> {
    match enum_members_cut(input) {
        Ok(Some(t)) => table_upto(lines(t), lines(t).len() as int),
        _ => Seq::empty(),
    }
}

proof fn lemma_entries_push(es: Seq<(String, i32)>, e: (String, i32))
    ensures
        entries(es.push(e)) == entries(es).push((e.0@, e.1)),
{
    assert(entries(es.push(e)) =~= entries(es).push((e.0@, e.1)));
}

/// Sets `k` to `v` in the table.
fn put_entry_in(es: &mut Vec<(String, i32)>, k: String, v: i32)
    requires
        distinct_names(entries(old(es)@)),
    ensures
        entries(final(es)@) == put_entry(entries(old(es)@), k@, v),
        distinct_names(entries(final(es)@)),
{
    let ghost e0 = entries(es@);
    let mut j: usize = 0;
    while j < es.len() && es[j].0 != k
        invariant
            e0 == entries(es@),
            e0.len() == es@.len(),
            j <= es.len(),
            forall|x: int| 0 <= x < j ==> e0[x].0 != k@,
        decreases es.len() - j,
    {
        assert(e0[j as int] == (es@[j as int].0@, es@[j as int].1));
        j += 1;
    }
    if j < es.len() {
        proof {
            assert(e0[j as int] == (es@[j as int].0@, es@[j as int].1));
            assert(e0[j as int].0 == k@);
            let i = choose|i: int| 0 <= i < e0.len() && e0[i].0 == k@;
            assert(i == j);
        }
        es.set(j, (k, v));
        assert(entries(es@) =~= e0.update(j as int, (k@, v)));
    } else {
        proof {
            lemma_entries_push(es@, (k, v));
        }
        es.push((k, v));
    }
}

/// The enumerators of a block; `Err` where the cut does not fall on a
/// character boundary.
pub fn enum_table_of(input: &[char]) -> (r: Result<Vec<(String, i32)>, ()>)
    ensures
        match r {
            Ok(t) => members_cut_ok(input@) && entries(t@) == enum_table(input@),
            Err(_) => !members_cut_ok(input@),
        },
{
    let member_data = drop_char_chars(input, '\t');
    let mut table: Vec<(String, i32)> = Vec::new();
    assert(entries(table@) =~= Seq::empty());
    match cut_at_members_of(input, member_data.as_slice()) {
        Err(_) => Err(()),
        Ok(None) => Ok(table),
        Ok(Some(t)) => {
            let ls = lines_of(t.as_slice());
            let ghost sl = texts(ls@);
            let mut i: usize = 0;
            while i < ls.len()
                invariant
                    texts(ls@) == sl,
                    i <= ls.len(),
                    entries(table@) == table_upto(sl, i as int),
                    distinct_names(entries(table@)),
                decreases ls.len() - i,
            {
                assert(texts(ls@)[i as int] == ls@[i as int]@);
                let a = drop_char_chars(ls[i].as_slice(), ')');
                let cur = swap_char_chars(a.as_slice(), '(', ' ');
                match split_once_chars(cur.as_slice(), ' ') {
                    Some((k, v)) => {
                        let number = i32_value_of(v.as_slice());
                        put_entry_in(&mut table, string_of(k.as_slice()), number);
                    },
                    None => {},
                }
                i += 1;
            }
            assert(texts(ls@).len() == ls@.len());
            Ok(table)
        },
    }
}

/// The enumerators of an enumeration block, read from the first `"s:"` of
/// the block on.
pub fn handle_enums(input: &str) -> (r: Vec<(String, i32)>)
    requires
        members_cut_ok(input@),
    ensures
        entries(r@) == enum_table(input@),
        distinct_names(entries(r@)),
{
    let cs = chars_of(input);
    proof {
        lemma_enum_table_distinct(input@);
    }
    match enum_table_of(cs.as_slice()) {
        Ok(t) => t,
        Err(_) => Vec::new(),
    }
}

pub proof fn lemma_put_entry_distinct(es: Seq<(Seq<char>, i32)>, k: Seq<char>, v: i32)
    requires
        distinct_names(es),
    ensures
        distinct_names(put_entry(es, k, v)),
{
}

proof fn lemma_table_distinct(ls: Seq<Seq<char>>, n: int)
    ensures
        distinct_names(table_upto(ls, n)),
    decreases n,
{
    if n > 0 {
        lemma_table_distinct(ls, n - 1);
        match enumerator_line(ls[n - 1]) {
            Some((k, v)) => lemma_put_entry_distinct(table_upto(ls, n - 1), k, v),
            None => {},
        }
    }
}

/// No two enumerators of a block have the same name.
pub proof fn lemma_enum_table_distinct(input: Seq<char>)
    ensures
        distinct_names(enum_table(input)),
{
    match enum_members_cut(input) {
        Ok(Some(t)) => lemma_table_distinct(lines(t), lines(t).len() as int),
        _ => {},
    }
}

// ---------------------------------------------------------------------
// The block
// ---------------------------------------------------------------------

/// What line `idx` of an enumeration block does to the record.
pub open spec fn enum_line(e: EnumView, idx: int, line: Seq<char>, buffer: Seq<char>) -> EnumView {
    if idx == 0 {
        EnumView {
            enum_name: match nth_word(line, 1) {
                Some(w) => w,
                None => "Error: failed to parse struct name"@,
            },
            ..e
        }
    } else {
        match split_once(drop_char(line, '\t'), ':') {
            Some((k, v)) => if k == "source"@ {
                match source_location(v) {
                    Some(loc) => {
                        let e2 = match loc {
                            (Some(l), Some(c)) => EnumView { enum_line_num: l, enum_line_col: c, ..e },
                            _ => e,
                        };
                        EnumView { enum_full_file_path: trim(v), ..e2 }
                    },
                    None => e,
                }
            } else if k == "enumerators"@ {
                EnumView { enumerators: enum_table(buffer), ..e }
            } else if k == "size"@ {
                EnumView { enum_size: u32_value(v), ..e }
            } else {
                e
            },
            None => e,
        }
    }
}

pub open spec fn enum_upto(ls: Seq<Seq<char>>, n: int, buffer: Seq<char>) -> EnumView
    decreases n,
{
    if n <= 0 {
        empty_enum()
    } else {
        enum_line(enum_upto(ls, n - 1, buffer), n - 1, ls[n - 1], buffer)
    }
}

/// The enumeration that a block describes.
pub open spec fn enum_data(buffer: Seq<char>) -> EnumView {
    enum_upto(lines(buffer), lines(buffer).len() as int, buffer)
}

/// An enumeration block can be read: where a later line has the key
/// `enumerators`, its enumerators can be.
pub open spec fn enum_ok(buffer: Seq<char>) -> bool {
    has_key_line(buffer, "enumerators"@) ==> members_cut_ok(buffer)
}

fn enum_step(e: &mut EnumData, idx: usize, line: &[char], buffer: &[char]) -> (ok: bool)
    requires
        distinct_names(old(e)@.enumerators),
    ensures
        ok == !(idx != 0 && line_key(line@) == Some("enumerators"@) && !members_cut_ok(buffer@)),
        ok ==> final(e)@ == enum_line(old(e)@, idx as int, line@, buffer@),
        distinct_names(final(e)@.enumerators),
{
    if idx == 0 {
        let ws = words_of(line);
        assert(texts(ws@).len() == ws@.len());
        if ws.len() > 1 {
            assert(texts(ws@)[1] == ws@[1]@);
            e.enum_name = string_of(ws[1].as_slice());
        } else {
            e.enum_name = string_of(chars_of("Error: failed to parse struct name").as_slice());
        }
        return true;
    }
    let clean = drop_char_chars(line, '\t');
    match split_once_chars(clean.as_slice(), ':') {
        Some((k, v)) => {
            assert(line_key(line@) == Some(k@));
            proof {
                reveal_strlit("enumerators");
            }
            if is_text(k.as_slice(), "source") {
                proof {
                    reveal_strlit("source");
                }
                assert(k@.len() == 6);
                match source_location_of(v.as_slice()) {
                    Some(loc) => {
                        match loc {
                            (Some(l), Some(c)) => {
                                e.enum_line_num = l;
                                e.enum_line_col = c;
                            },
                            _ => {},
                        }
                        e.enum_full_file_path = string_of(trim_chars(v.as_slice()).as_slice());
                    },
                    None => {},
                }
            } else if is_text(k.as_slice(), "enumerators") {
                proof {
                    lemma_enum_table_distinct(buffer@);
                }
                match enum_table_of(buffer) {
                    Ok(t) => {
                        e.enumerators = t;
                    },
                    Err(_) => {
                        return false;
                    },
                }
            } else if is_text(k.as_slice(), "size") {
                e.enum_size = u32_value_of(v.as_slice());
            }
        },
        None => {},
    }
    true
}

/// Parses an `enum` block, or gives `None` where its enumerators cannot be
/// read.
pub fn try_parse_enum_data(buffer: &str) -> (r: Option<EnumData>)
    ensures
        r is Some <==> enum_ok(buffer@),
        r matches Some(d) ==> d@ == enum_data(buffer@) && distinct_names(d@.enumerators),
{
    let cs = chars_of(buffer);
    let ls = lines_of(cs.as_slice());
    let ghost sl = lines(cs@);
    let mut d = EnumData::default();
    let mut i: usize = 0;
    while i < ls.len()
        invariant
            cs@ == buffer@,
            sl == lines(buffer@),
            texts(ls@) == sl,
            i <= ls.len(),
            d@ == enum_upto(sl, i as int, buffer@),
            distinct_names(d@.enumerators),
            (exists|x: int| 1 <= x < i && line_key(#[trigger] sl[x]) == Some("enumerators"@))
                ==> members_cut_ok(buffer@),
        decreases ls.len() - i,
    {
        assert(texts(ls@)[i as int] == ls@[i as int]@);
        let ok = enum_step(&mut d, i, ls[i].as_slice(), cs.as_slice());
        if !ok {
            assert(1 <= i < lines(buffer@).len() && line_key(lines(buffer@)[i as int]) == Some(
                "enumerators"@,
            ));
            return None;
        }
        i += 1;
    }
    assert(texts(ls@).len() == ls@.len());
    Some(d)
}

/// Parses an `enum` block of ddbug output.
pub fn parse_enum_data(buffer: &str) -> (r: EnumData)
    requires
        enum_ok(buffer@),
    ensures
        r@ == enum_data(buffer@),
        distinct_names(r@.enumerators),
{
    match try_parse_enum_data(buffer) {
        Some(d) => d,
        None => {
            assert(false);
            EnumData::default()
        },
    }
}

proof fn lemma_enum_upto_distinct(ls: Seq<Seq<char>>, n: int, buffer: Seq<char>)
    ensures
        distinct_names(enum_upto(ls, n, buffer).enumerators),
    decreases n,
{
    if n > 0 {
        lemma_enum_upto_distinct(ls, n - 1, buffer);
        lemma_enum_table_distinct(buffer);
    }
}

/// No two enumerators of a parsed enumeration have the same name.
pub proof fn lemma_enum_distinct(buffer: Seq<char>)
    ensures
        distinct_names(enum_data(buffer).enumerators),
{
    lemma_enum_upto_distinct(lines(buffer), lines(buffer).len() as int, buffer);
}

/// The value of the entry named `n`, if there is one.
pub open spec fn value_of(es: Seq<(Seq<char>, i32)>, n: Seq<char>) -> Option<i32> {
    if exists|i: int| 0 <= i < es.len() && es[i].0 == n {
        let i = choose|i: int| 0 <= i < es.len() && es[i].0 == n;
        Some(es[i].1)
    } else {
        None
    }
}

/// Setting a name in the enumerator table works as a map does: the name
/// then has the value set, and every other name keeps its value.
pub proof fn lemma_put_entry_lookup(es: Seq<(Seq<char>, i32)>, k: Seq<char>, v: i32, n: Seq<char>)
    requires
        distinct_names(es),
    ensures
        value_of(put_entry(es, k, v), k) == Some(v),
        n != k ==> value_of(put_entry(es, k, v), n) == value_of(es, n),
{
    let r = put_entry(es, k, v);
    lemma_put_entry_distinct(es, k, v);
    if exists|i: int| 0 <= i < es.len() && es[i].0 == k {
        let i = choose|i: int| 0 <= i < es.len() && es[i].0 == k;
        assert(r[i] == (k, v));
        let j = choose|j: int| 0 <= j < r.len() && r[j].0 == k;
        assert(j == i);
        if n != k {
            if exists|x: int| 0 <= x < es.len() && es[x].0 == n {
                let x = choose|x: int| 0 <= x < es.len() && es[x].0 == n;
                assert(r[x] == es[x]);
                let y = choose|y: int| 0 <= y < r.len() && r[y].0 == n;
                assert(y == x);
            } else {
                assert forall|y: int| 0 <= y < r.len() implies r[y].0 != n by {
                    if y != i {
                        assert(r[y] == es[y]);
                    }
                }
            }
        }
    } else {
        assert(r[es.len() as int] == (k, v));
        let j = choose|j: int| 0 <= j < r.len() && r[j].0 == k;
        assert(j == es.len());
        if n != k {
            if exists|x: int| 0 <= x < es.len() && es[x].0 == n {
                let x = choose|x: int| 0 <= x < es.len() && es[x].0 == n;
                assert(r[x] == es[x]);
                let y = choose|y: int| 0 <= y < r.len() && r[y].0 == n;
                assert(y == x);
            } else {
                assert forall|y: int| 0 <= y < r.len() implies r[y].0 != n by {
                    if y < es.len() {
                        assert(r[y] == es[y]);
                    }
                }
            }
        }
    }
}

proof fn lemma_enum_upto_size(ls: Seq<Seq<char>>, n: int, buffer: Seq<char>)
    requires
        0 <= n <= ls.len(),
    ensures
        enum_upto(ls, n, buffer).enum_size == (match last_value(ls, n, "size"@) {
            Some(v) => u32_value(v),
            None => 0,
        }),
    decreases n,
{
    if n > 0 {
        lemma_enum_upto_size(ls, n - 1, buffer);
        reveal_strlit("enumerators");
        reveal_strlit("source");
        reveal_strlit("size");
        assert("source"@.len() == 6 && "size"@.len() == 4 && "enumerators"@.len() == 11);
    }
}

/// The size of an enumeration is the number on the last `size` line after
/// the first line, and 0 where there is none.
pub proof fn lemma_enum_size(buffer: Seq<char>)
    ensures
        enum_data(buffer).enum_size == (match last_value(
            lines(buffer),
            lines(buffer).len() as int,
            "size"@,
        ) {
            Some(v) => u32_value(v),
            None => 0,
        }),
{
    lemma_enum_upto_size(lines(buffer), lines(buffer).len() as int, buffer);
}

proof fn lemma_enum_upto_heading(ls: Seq<Seq<char>>, n: int, buffer: Seq<char>)
    requires
        1 <= n,
    ensures
        enum_upto(ls, n, buffer).enum_name == enum_upto(ls, 1, buffer).enum_name,
    decreases n,
{
    if n > 1 {
        lemma_enum_upto_heading(ls, n - 1, buffer);
    }
}

/// The name of an enumeration is the second word of its first line.
pub proof fn lemma_enum_name(buffer: Seq<char>)
    requires
        lines(buffer).len() > 0,
    ensures
        enum_data(buffer).enum_name == (match nth_word(lines(buffer)[0], 1) {
            Some(w) => w,
            None => "Error: failed to parse struct name"@,
        }),
{
    let ls = lines(buffer);
    lemma_enum_upto_heading(ls, ls.len() as int, buffer);
    assert(enum_upto(ls, 0, buffer) == empty_enum());
}

/// An enumerator line `NAME(value)`, where the name holds no space and no
/// bracket and the value no bracket, names `NAME` with the value read as a
/// number.
pub proof fn lemma_enumerator_line(name: Seq<char>, value: Seq<char>)
    requires
        forall|i: int| 0 <= i < name.len() ==> #[trigger] name[i] != ' ' && name[i] != '('
            && name[i] != ')',
        forall|i: int| 0 <= i < value.len() ==> #[trigger] value[i] != '(' && value[i] != ')',
    ensures
        enumerator_line(name + seq!['('] + value + seq![')']) == Some((name, i32_value(Some(value)))),
{
    let a = name + seq!['('] + value;
    let x = name + seq!['('] + value + seq![')'];
    assert(x =~= a.push(')'));
    assert(x.drop_last() =~= a);
    assert forall|i: int| 0 <= i < a.len() implies #[trigger] a[i] != ')' by {
        if i < name.len() {
            assert(a[i] == name[i]);
        } else if i > name.len() {
            assert(a[i] == value[i - name.len() - 1]);
        }
    }
    lemma_drop_char_absent(a, ')');
    assert(drop_char(x, ')') == drop_char(a, ')'));
    let sw = swap_char(a, '(', ' ');
    assert(sw =~= name + seq![' '] + value) by {
        assert forall|i: int| 0 <= i < sw.len() implies sw[i] == (name + seq![' '] + value)[i] by {
            if i < name.len() {
                assert(a[i] == name[i]);
            } else if i > name.len() {
                assert(a[i] == value[i - name.len() - 1]);
            }
        }
    }
    lemma_split_once_at(name, ' ', value);
}

proof fn lemma_enum_upto_table(ls: Seq<Seq<char>>, n: int, buffer: Seq<char>)
    requires
        0 <= n <= ls.len(),
    ensures
        enum_upto(ls, n, buffer).enumerators == if exists|i: int|
            1 <= i < n && line_key(#[trigger] ls[i]) == Some("enumerators"@) {
            enum_table(buffer)
        } else {
            Seq::empty()
        },
    decreases n,
{
    if n > 0 {
        lemma_enum_upto_table(ls, n - 1, buffer);
        reveal_strlit("enumerators");
        reveal_strlit("source");
        reveal_strlit("size");
        assert("source"@.len() == 6 && "size"@.len() == 4 && "enumerators"@.len() == 11);
        if exists|i: int| 1 <= i < n - 1 && line_key(#[trigger] ls[i]) == Some("enumerators"@) {
            let i = choose|i: int|
                1 <= i < n - 1 && line_key(#[trigger] ls[i]) == Some("enumerators"@);
            assert(1 <= i < n && line_key(ls[i]) == Some("enumerators"@));
        }
        if exists|i: int| 1 <= i < n && line_key(#[trigger] ls[i]) == Some("enumerators"@) {
            let i = choose|i: int| 1 <= i < n && line_key(#[trigger] ls[i]) == Some("enumerators"@);
            if i < n - 1 {
                assert(1 <= i < n - 1 && line_key(ls[i]) == Some("enumerators"@));
            }
        }
    }
}

/// An enumeration holds the enumerators read from its block where a line
/// after the first has the key `enumerators`, and none otherwise.
pub proof fn lemma_enum_enumerators(buffer: Seq<char>)
    ensures
        enum_data(buffer).enumerators == if has_key_line(buffer, "enumerators"@) {
            enum_table(buffer)
        } else {
            Seq::empty()
        },
{
    lemma_enum_upto_table(lines(buffer), lines(buffer).len() as int, buffer);
}

} // verus!
