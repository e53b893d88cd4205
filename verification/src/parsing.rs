//! Splitting ddbug output into blocks and gathering the blocks of each
//! translation unit.
use vstd::prelude::*;
use crate::base::{base_data, parse_base_data, BaseData};
use crate::enums::{enum_data, enum_ok, try_parse_enum_data, EnumData};
use crate::file::{file_notes, file_ok, string_views, try_parse_file_data};
use crate::ftype::{try_parse_type_data, type_data, type_ok, FtypeData};
use crate::function::{fn_data, fn_ok, try_parse_fn_data, FnData};
use crate::gvar::{gvar_data, parse_g_var_data, GlobalVarData};
use crate::structure::{parse_struct_data, struct_data, StructData};
use crate::text::{
    chars_of, is_text, nth_word, starts_with, starts_with_chars, texts, words_of,
};
use crate::unit::{
    empty_unit, try_parse_unit, unit_of, unit_ok, TranslationUnitData, TranslationUnitView,
    UnitData,
};
use core::ops::Range;

verus! {

// ---------------------------------------------------------------------
// Blocks
// ---------------------------------------------------------------------

/// An empty line ends the block under way; any other line joins it,
/// followed by `'\n'`.
pub open spec fn block_line(st: (Seq<Seq<char>>, Seq<char>), line: Seq<char>) -> (
    Seq<Seq<char>>,
    Seq<char>,
) {
    if line.len() == 0 {
        (st.0.push(st.1), Seq::empty())
    } else {
        (st.0, st.1 + line + seq!['\n'])
    }
}

pub open spec fn blocks_upto(ls: Seq<Seq<char>>, n: int) -> (Seq<Seq<char>>, Seq<char>)
    decreases n,
{
    if n <= 0 {
        (Seq::empty(), Seq::empty())
    } else {
        block_line(blocks_upto(ls, n - 1), ls[n - 1])
    }
}

/// The blocks of the output: the runs of lines that an empty line ends
/// (lines after the last empty line form no block).
pub open spec fn blocks_of(ls: Seq<Seq<char>>) -> Seq<Seq<char>> {
    blocks_upto(ls, ls.len() as int).0
}

/// Groups the lines of ddbug output into blocks separated by empty lines.
pub fn group_blocks(lines: &Vec<String>) -> (r: Vec<String>)
    ensures
        string_views(r@) == blocks_of(string_views(lines@)),
{
    let ghost ls = string_views(lines@);
    let mut blocks: Vec<String> = Vec::new();
    let mut buffr = String::new();
    assert(string_views(blocks@) =~= Seq::empty());
    let mut i: usize = 0;
    while i < lines.len()
        invariant
            ls == string_views(lines@),
            i <= lines.len(),
            (string_views(blocks@), buffr@) == blocks_upto(ls, i as int),
        decreases lines.len() - i,
    {
        assert(ls[i as int] == lines@[i as int]@);
        let line = lines[i].as_str();
        if line.is_empty() {
            let b = buffr.clone();
            proof {
                assert(string_views(blocks@.push(b)) =~= string_views(blocks@).push(b@));
            }
            blocks.push(b);
            buffr = String::new();
        } else {
            buffr.append(line);
            buffr.push('\n');
        }
        i += 1;
    }
    blocks
}

// ---------------------------------------------------------------------
// Translation units
// ---------------------------------------------------------------------

/// The indices of the blocks among the first `n` that start with `unit`.
pub open spec fn unit_starts_upto(blocks: Seq<Seq<char>>, n: int) -> Seq<int>
    decreases n,
{
    if n <= 0 {
        Seq::empty()
    } else if starts_with(blocks[n - 1], "unit"@) {
        unit_starts_upto(blocks, n - 1).push(n - 1)
    } else {
        unit_starts_upto(blocks, n - 1)
    }
}

/// The indices of the blocks that start with `unit`, in order.
pub open spec fn unit_starts(blocks: Seq<Seq<char>>) -> Seq<int> {
    unit_starts_upto(blocks, blocks.len() as int)
}

pub open spec fn empty_translation_unit() -> TranslationUnitView {
    TranslationUnitView {
        unit_data: empty_unit(),
        fn_data: Seq::empty(),
        base_data: Seq::empty(),
        ftype_data: Seq::empty(),
        struct_data: Seq::empty(),
        g_var_data: Seq::empty(),
        enum_data_v: Seq::empty(),
    }
}

/// What a block does to the translation unit it belongs to, by its first
/// word: a `unit` block sets the unit, the other kinds add their record;
/// `file` blocks and any others add nothing.
pub open spec fn add_block(t: TranslationUnitView, block: Seq<char>) -> TranslationUnitView {
    match nth_word(block, 0) {
        Some(w) => if w == "file"@ {
            t
        } else if w == "fn"@ {
            TranslationUnitView { fn_data: t.fn_data.push(fn_data(block)), ..t }
        } else if w == "base"@ {
            TranslationUnitView { base_data: t.base_data.push(base_data(block)), ..t }
        } else if w == "type"@ {
            TranslationUnitView { ftype_data: t.ftype_data.push(type_data(block)), ..t }
        } else if w == "struct"@ {
            TranslationUnitView { struct_data: t.struct_data.push(struct_data(block)), ..t }
        } else if w == "enum"@ {
            TranslationUnitView { enum_data_v: t.enum_data_v.push(enum_data(block)), ..t }
        } else if w == "var"@ {
            TranslationUnitView { g_var_data: t.g_var_data.push(gvar_data(block)), ..t }
        } else if w == "unit"@ {
            TranslationUnitView { unit_data: unit_of(block), ..t }
        } else {
            t
        },
        None => t,
    }
}

/// A block of a kind whose parser has a precondition meets it.
pub open spec fn block_ok(block: Seq<char>) -> bool {
    match nth_word(block, 0) {
        Some(w) => if w == "file"@ {
            file_ok(block)
        } else if w == "fn"@ {
            fn_ok(block)
        } else if w == "base"@ {
            true
        } else if w == "type"@ {
            type_ok(block)
        } else if w == "struct"@ {
            true
        } else if w == "enum"@ {
            enum_ok(block)
        } else if w == "var"@ {
            true
        } else if w == "unit"@ {
            unit_ok(block)
        } else {
            true
        },
        None => true,
    }
}

/// What the program reports for a block: for a `file` block a separator
/// and the keys of its fields that are not sizes.
pub open spec fn block_notes(block: Seq<char>) -> Seq<Seq<char>> {
    if nth_word(block, 0) == Some("file"@) {
        seq!["\n----\n\n"@] + file_notes(block)
    } else {
        Seq::empty()
    }
}

/// The translation unit that blocks `a` up to `n` make.
pub open spec fn unit_upto(blocks: Seq<Seq<char>>, a: int, n: int) -> TranslationUnitView
    decreases n - a,
{
    if n <= a {
        empty_translation_unit()
    } else {
        add_block(unit_upto(blocks, a, n - 1), blocks[n - 1])
    }
}

/// What blocks `a` up to `n` report.
pub open spec fn notes_upto(blocks: Seq<Seq<char>>, a: int, n: int) -> Seq<Seq<char>>
    decreases n - a,
{
    if n <= a {
        Seq::empty()
    } else {
        notes_upto(blocks, a, n - 1) + block_notes(blocks[n - 1])
    }
}

/// Blocks `a` up to `b` can all be read.
pub open spec fn range_ok(blocks: Seq<Seq<char>>, a: int, b: int) -> bool {
    forall|n: int| a <= n < b ==> block_ok(#[trigger] blocks[n])
}

/// The number of translation units: one for each `unit` block.
pub open spec fn unit_count(blocks: Seq<Seq<char>>) -> int {
    unit_starts(blocks).len() as int
}

/// Where translation unit `k` ends: at the next `unit` block, or at the end
/// of the blocks for the last one.
pub open spec fn unit_end(blocks: Seq<Seq<char>>, k: int) -> int {
    let st = unit_starts(blocks);
    if k + 1 < st.len() {
        st[k + 1]
    } else {
        blocks.len() as int
    }
}

/// The translation units of the output: one for each block that starts
/// with `unit`, in order, made of the blocks from it up to the next such
/// block or, for the last one, up to the end.
pub open spec fn units_of(blocks: Seq<Seq<char>>) -> Seq<TranslationUnitView> {
    let st = unit_starts(blocks);
    Seq::new(unit_count(blocks) as nat, |k: int| unit_upto(blocks, st[k], unit_end(blocks, k)))
}

/// What the first `k` translation units report.
pub open spec fn unit_notes(blocks: Seq<Seq<char>>, k: int) -> Seq<Seq<char>>
    decreases k,
{
    let st = unit_starts(blocks);
    if k <= 0 {
        Seq::empty()
    } else {
        unit_notes(blocks, k - 1) + notes_upto(blocks, st[k - 1], unit_end(blocks, k - 1))
    }
}

/// The blocks that go into translation units can all be read.
pub open spec fn blocks_ok(blocks: Seq<Seq<char>>) -> bool {
    let st = unit_starts(blocks);
    forall|k: int| 0 <= k < unit_count(blocks) ==> #[trigger] range_ok(blocks, st[k], unit_end(blocks, k))
}

pub open spec fn unit_views(v: Seq<TranslationUnitData>) -> Seq<TranslationUnitView> {
    v.map_values(|t: TranslationUnitData| t@)
}

/// The start and end of the group of blocks that `input` delimits: from
/// its first index to its second (or to `input.len() - 1` where it has
/// only one).
pub fn get_group_range(input: &[usize]) -> (r: Range<usize>)
    requires
        input.len() >= 1,
    ensures
        r.start == input[0],
        r.end == (if input.len() > 1 {
            input[1]
        } else {
            (input.len() - 1) as usize
        }),
{
    let start = input[0];
    let end = if input.len() > 1 {
        input[1]
    } else {
        input.len() - 1
    };
    Range { start: start, end: end }
}

fn new_translation_unit() -> (t: TranslationUnitData)
    ensures
        t@ == empty_translation_unit(),
{
    let t = TranslationUnitData {
        unit_data: UnitData::default(),
        fn_data: Vec::new(),
        base_data: Vec::new(),
        ftype_data: Vec::new(),
        struct_data: Vec::new(),
        g_var_data: Vec::new(),
        enum_data_v: Vec::new(),
    };
    assert(t@.fn_data =~= Seq::empty());
    assert(t@.base_data =~= Seq::empty());
    assert(t@.ftype_data =~= Seq::empty());
    assert(t@.struct_data =~= Seq::empty());
    assert(t@.g_var_data =~= Seq::empty());
    assert(t@.enum_data_v =~= Seq::empty());
    t
}

/// Adds one block to its translation unit and records what it reports;
/// `false` where the block cannot be read.
fn add_block_to(t: &mut TranslationUnitData, block: &String, notes: &mut Vec<String>) -> (ok: bool)
    ensures
        ok == block_ok(block@),
        ok ==> final(t)@ == add_block(old(t)@, block@),
        ok ==> string_views(final(notes)@) == string_views(old(notes)@) + block_notes(block@),
{
    let b = block.as_str();
    let cs = chars_of(b);
    let ws = words_of(cs.as_slice());
    assert(texts(ws@).len() == ws@.len());
    if ws.len() == 0 {
        assert(string_views(notes@) + block_notes(block@) =~= string_views(notes@));
        return true;
    }
    assert(texts(ws@)[0] == ws@[0]@);
    let w = ws[0].as_slice();
    if !is_text(w, "file") {
        assert(string_views(notes@) + block_notes(block@) =~= string_views(notes@));
    }
    if is_text(w, "file") {
        match try_parse_file_data(b) {
            Some((_, keys)) => {
                let ghost before = string_views(notes@);
                notes.push(string_from_str("\n----\n\n"));
                let mut i: usize = 0;
                while i < keys.len()
                    invariant
                        i <= keys.len(),
                        string_views(notes@) == before + seq!["\n----\n\n"@] + string_views(
                            keys@,
                        ).take(i as int),
                    decreases keys.len() - i,
                {
                    let k = keys[i].clone();
                    proof {
                        assert(string_views(notes@.push(k)) =~= string_views(notes@).push(k@));
                        assert(string_views(keys@).take(i + 1) =~= string_views(keys@).take(
                            i as int,
                        ).push(keys@[i as int]@));
                    }
                    notes.push(k);
                    i += 1;
                }
                assert(string_views(keys@).take(i as int) =~= string_views(keys@));
                assert(before + seq!["\n----\n\n"@] + string_views(keys@) =~= before + (seq![
                    "\n----\n\n"@,
                ] + string_views(keys@)));
                true
            },
            None => false,
        }
    } else if is_text(w, "fn") {
        match try_parse_fn_data(b) {
            Some(d) => {
                proof {
                    assert(t.fn_data@.push(d).map_values(|x: FnData| x@) =~= t.fn_data@.map_values(
                        |x: FnData| x@,
                    ).push(d@));
                }
                t.fn_data.push(d);
                true
            },
            None => false,
        }
    } else if is_text(w, "base") {
        let d = parse_base_data(b);
        proof {
            assert(t.base_data@.push(d).map_values(|x: BaseData| x@) =~= t.base_data@.map_values(
                |x: BaseData| x@,
            ).push(d@));
        }
        t.base_data.push(d);
        true
    } else if is_text(w, "type") {
        match try_parse_type_data(b) {
            Some(d) => {
                proof {
                    assert(t.ftype_data@.push(d).map_values(|x: FtypeData| x@)
                        =~= t.ftype_data@.map_values(|x: FtypeData| x@).push(d@));
                }
                t.ftype_data.push(d);
                true
            },
            None => false,
        }
    } else if is_text(w, "struct") {
        let d = parse_struct_data(b);
        proof {
            assert(t.struct_data@.push(d).map_values(|x: StructData| x@)
                =~= t.struct_data@.map_values(|x: StructData| x@).push(d@));
        }
        t.struct_data.push(d);
        true
    } else if is_text(w, "enum") {
        match try_parse_enum_data(b) {
            Some(d) => {
                proof {
                    assert(t.enum_data_v@.push(d).map_values(|x: EnumData| x@)
                        =~= t.enum_data_v@.map_values(|x: EnumData| x@).push(d@));
                }
                t.enum_data_v.push(d);
                true
            },
            None => false,
        }
    } else if is_text(w, "var") {
        let d = parse_g_var_data(b);
        proof {
            assert(t.g_var_data@.push(d).map_values(|x: GlobalVarData| x@)
                =~= t.g_var_data@.map_values(|x: GlobalVarData| x@).push(d@));
        }
        t.g_var_data.push(d);
        true
    } else if is_text(w, "unit") {
        match try_parse_unit(b) {
            Some(u) => {
                t.unit_data = u;
                true
            },
            None => false,
        }
    } else {
        true
    }
}

fn string_from_str(s: &str) -> (r: String)
    ensures
        r@ == s@,
{
    String::from_str(s)
}

pub open spec fn as_ints(v: Seq<usize>) -> Seq<int> {
    v.map_values(|x: usize| x as int)
}

proof fn lemma_unit_starts(blocks: Seq<Seq<char>>, n: int)
    requires
        0 <= n <= blocks.len(),
    ensures
        forall|i: int|
            0 <= i < unit_starts_upto(blocks, n).len() ==> 0 <= #[trigger] unit_starts_upto(
                blocks,
                n,
            )[i] < n,
        forall|i: int, j: int|
            0 <= i < j < unit_starts_upto(blocks, n).len() ==> unit_starts_upto(blocks, n)[i]
                < unit_starts_upto(blocks, n)[j],
    decreases n,
{
    if n > 0 {
        lemma_unit_starts(blocks, n - 1);
        let prev = unit_starts_upto(blocks, n - 1);
        let cur = unit_starts_upto(blocks, n);
        if starts_with(blocks[n - 1], "unit"@) {
            assert(cur == prev.push(n - 1));
            assert forall|i: int| 0 <= i < cur.len() implies 0 <= #[trigger] cur[i] < n by {
                if i < prev.len() {
                    assert(cur[i] == prev[i]);
                }
            }
            assert forall|i: int, j: int| 0 <= i < j < cur.len() implies cur[i] < cur[j] by {
                assert(cur[i] == prev[i]);
                if j < prev.len() {
                    assert(cur[j] == prev[j]);
                }
            }
        } else {
            assert(cur == prev);
        }
    }
}

/// The indices of the blocks that start with `unit`.
fn unit_start_indices(blocks: &Vec<String>) -> (r: Vec<usize>)
    ensures
        as_ints(r@) == unit_starts(string_views(blocks@)),
{
    let ghost bl = string_views(blocks@);
    let unit = chars_of("unit");
    let mut r: Vec<usize> = Vec::new();
    assert(as_ints(r@) =~= Seq::empty());
    let mut i: usize = 0;
    while i < blocks.len()
        invariant
            bl == string_views(blocks@),
            unit@ == "unit"@,
            i <= blocks.len(),
            as_ints(r@) == unit_starts_upto(bl, i as int),
        decreases blocks.len() - i,
    {
        assert(bl[i as int] == blocks@[i as int]@);
        let cs = chars_of(blocks[i].as_str());
        if starts_with_chars(cs.as_slice(), unit.as_slice()) {
            proof {
                assert(as_ints(r@.push(i)) =~= as_ints(r@).push(i as int));
            }
            r.push(i);
        }
        i += 1;
    }
    r
}


/// The translation unit that blocks `a` up to `b` make, adding what they
/// report to `notes`; `None` where one of them cannot be read.
fn build_unit(blocks: &Vec<String>, a: usize, b: usize, notes: &mut Vec<String>) -> (r: Option<
    TranslationUnitData,
>)
    requires
        a <= b <= blocks.len(),
    ensures
        ({
            let bl = string_views(blocks@);
            match r {
                Some(t) => range_ok(bl, a as int, b as int) && t@ == unit_upto(bl, a as int, b as int)
                    && string_views(final(notes)@) == string_views(old(notes)@) + notes_upto(
                    bl,
                    a as int,
                    b as int,
                ),
                None => !range_ok(bl, a as int, b as int),
            }
        }),
{
    let ghost bl = string_views(blocks@);
    let ghost notes0 = string_views(notes@);
    let mut t = new_translation_unit();
    let mut n = a;
    assert(notes_upto(bl, a as int, n as int) =~= Seq::empty());
    assert(notes0 + notes_upto(bl, a as int, n as int) =~= notes0);
    while n < b
        invariant
            bl == string_views(blocks@),
            a <= n <= b <= blocks.len(),
            t@ == unit_upto(bl, a as int, n as int),
            string_views(notes@) == notes0 + notes_upto(bl, a as int, n as int),
            range_ok(bl, a as int, n as int),
        decreases b - n,
    {
        assert(bl[n as int] == blocks@[n as int]@);
        let ok = add_block_to(&mut t, &blocks[n], notes);
        if !ok {
            return None;
        }
        proof {
            assert(notes0 + notes_upto(bl, a as int, n + 1) =~= notes0 + notes_upto(
                bl,
                a as int,
                n as int,
            ) + block_notes(bl[n as int]));
        }
        n += 1;
    }
    Some(t)
}

/// Gathers the blocks of ddbug output lines into translation units and
/// appends them to `translation_units`, giving what the program reports on
/// the way; `None`, with `translation_units` unchanged, where one of the
/// blocks cannot be read.
pub fn try_start_parsing(translation_units: &mut Vec<TranslationUnitData>, lines: &Vec<String>) -> (r:
    Option<Vec<String>>)
    ensures
        ({
            let bl = blocks_of(string_views(lines@));
            match r {
                Some(notes) => {
                    &&& blocks_ok(bl)
                    &&& unit_views(final(translation_units)@) == unit_views(
                        old(translation_units)@,
                    ) + units_of(bl)
                    &&& string_views(notes@) == unit_notes(bl, unit_count(bl))
                },
                None => !blocks_ok(bl) && final(translation_units)@ == old(translation_units)@,
            }
        }),
{
    let blocks = group_blocks(lines);
    let ghost bl = blocks_of(string_views(lines@));
    assert(bl == string_views(blocks@));
    let st = unit_start_indices(&blocks);
    let ghost sts = unit_starts(bl);
    proof {
        lemma_unit_starts(bl, bl.len() as int);
    }
    assert(as_ints(st@).len() == st@.len());
    let mut units: Vec<TranslationUnitData> = Vec::new();
    let mut notes: Vec<String> = Vec::new();
    assert(unit_views(units@) =~= Seq::empty());
    assert(string_views(notes@) =~= Seq::empty());
    let count: usize = st.len();
    let mut k: usize = 0;
    while k < count
        invariant
            bl == blocks_of(string_views(lines@)),
            translation_units@ == old(translation_units)@,
            bl == string_views(blocks@),
            sts == unit_starts(bl),
            as_ints(st@) == sts,
            st@.len() == sts.len(),
            count == unit_count(bl),
            forall|i: int| 0 <= i < sts.len() ==> 0 <= #[trigger] sts[i] < bl.len(),
            forall|i: int, j: int| 0 <= i < j < sts.len() ==> sts[i] < sts[j],
            k <= count,
            unit_views(units@) == units_of(bl).take(k as int),
            string_views(notes@) == unit_notes(bl, k as int),
            forall|x: int| 0 <= x < k ==> #[trigger] range_ok(bl, sts[x], unit_end(bl, x)),
        decreases count - k,
    {
        assert(sts[k as int] == st@[k as int] as int);
        let end = if k + 1 < st.len() {
            assert(sts[k + 1] == st@[k + 1] as int);
            st[k + 1]
        } else {
            blocks.len()
        };
        assert(end == unit_end(bl, k as int));
        let x = vec![st[k], end];
        let range = get_group_range(x.as_slice());
        let t = match build_unit(&blocks, range.start, range.end, &mut notes) {
            Some(t) => t,
            None => {
                assert(!range_ok(bl, sts[k as int], unit_end(bl, k as int)));
                return None;
            },
        };
        proof {
            assert(unit_views(units@.push(t)) =~= unit_views(units@).push(t@));
            assert(units_of(bl).take(k + 1) =~= units_of(bl).take(k as int).push(
                units_of(bl)[k as int],
            ));
        }
        units.push(t);
        k += 1;
    }
    proof {
        assert(units_of(bl).take(k as int) =~= units_of(bl));
    }
    let ghost before = translation_units@;
    translation_units.append(&mut units);
    assert(unit_views(translation_units@) =~= unit_views(before) + units_of(bl));
    Some(notes)
}

/// Gathers the blocks of ddbug output lines into translation units and
/// appends them to `translation_units`, giving what the program reports on
/// the way.
pub fn start_parsing(translation_units: &mut Vec<TranslationUnitData>, lines: &Vec<String>) -> (r:
    Vec<String>)
    requires
        blocks_ok(blocks_of(string_views(lines@))),
    ensures
        ({
            let bl = blocks_of(string_views(lines@));
            &&& unit_views(final(translation_units)@) == unit_views(old(translation_units)@)
                + units_of(bl)
            &&& string_views(r@) == unit_notes(bl, unit_count(bl))
        }),
{
    match try_start_parsing(translation_units, lines) {
        Some(notes) => notes,
        None => {
            assert(false);
            Vec::new()
        },
    }
}

// ---------------------------------------------------------------------
// Laws
// ---------------------------------------------------------------------

/// The number of empty lines.
pub open spec fn empty_lines(ls: Seq<Seq<char>>) -> int
    decreases ls.len(),
{
    if ls.len() == 0 {
        0
    } else {
        empty_lines(ls.drop_last()) + if ls.last().len() == 0 {
            1int
        } else {
            0int
        }
    }
}

proof fn lemma_blocks_upto_count(ls: Seq<Seq<char>>, n: int)
    requires
        0 <= n <= ls.len(),
    ensures
        blocks_upto(ls, n).0.len() == empty_lines(ls.take(n)),
    decreases n,
{
    if n > 0 {
        lemma_blocks_upto_count(ls, n - 1);
        assert(ls.take(n).drop_last() =~= ls.take(n - 1));
    }
}

/// Every empty line of the output ends exactly one block: there are as
/// many blocks as empty lines.
pub proof fn lemma_block_count(ls: Seq<Seq<char>>)
    ensures
        blocks_of(ls).len() == empty_lines(ls),
{
    lemma_blocks_upto_count(ls, ls.len() as int);
    assert(ls.take(ls.len() as int) =~= ls);
}

/// The first word of a block.
pub open spec fn kind_of(b: Seq<char>) -> Option<Seq<char>> {
    nth_word(b, 0)
}

/// The functions that a list of blocks describes: one for each block whose
/// first word is `fn`, in order.
pub open spec fn fn_records(bs: Seq<Seq<char>>) -> Seq<crate::function::FnView>
    decreases bs.len(),
{
    if bs.len() == 0 {
        Seq::empty()
    } else if kind_of(bs.last()) == Some("fn"@) {
        fn_records(bs.drop_last()).push(fn_data(bs.last()))
    } else {
        fn_records(bs.drop_last())
    }
}

/// The base types that a list of blocks describes, in order.
pub open spec fn base_records(bs: Seq<Seq<char>>) -> Seq<crate::base::BaseView>
    decreases bs.len(),
{
    if bs.len() == 0 {
        Seq::empty()
    } else if kind_of(bs.last()) == Some("base"@) {
        base_records(bs.drop_last()).push(base_data(bs.last()))
    } else {
        base_records(bs.drop_last())
    }
}

/// The type definitions that a list of blocks describes, in order.
pub open spec fn type_records(bs: Seq<Seq<char>>) -> Seq<crate::ftype::FtypeView>
    decreases bs.len(),
{
    if bs.len() == 0 {
        Seq::empty()
    } else if kind_of(bs.last()) == Some("type"@) {
        type_records(bs.drop_last()).push(type_data(bs.last()))
    } else {
        type_records(bs.drop_last())
    }
}

/// The structures that a list of blocks describes, in order.
pub open spec fn struct_records(bs: Seq<Seq<char>>) -> Seq<crate::structure::StructView>
    decreases bs.len(),
{
    if bs.len() == 0 {
        Seq::empty()
    } else if kind_of(bs.last()) == Some("struct"@) {
        struct_records(bs.drop_last()).push(struct_data(bs.last()))
    } else {
        struct_records(bs.drop_last())
    }
}

/// The enumerations that a list of blocks describes, in order.
pub open spec fn enum_records(bs: Seq<Seq<char>>) -> Seq<crate::enums::EnumView>
    decreases bs.len(),
{
    if bs.len() == 0 {
        Seq::empty()
    } else if kind_of(bs.last()) == Some("enum"@) {
        enum_records(bs.drop_last()).push(enum_data(bs.last()))
    } else {
        enum_records(bs.drop_last())
    }
}

/// The global variables that a list of blocks describes, in order.
pub open spec fn var_records(bs: Seq<Seq<char>>) -> Seq<crate::gvar::GlobalVarView>
    decreases bs.len(),
{
    if bs.len() == 0 {
        Seq::empty()
    } else if kind_of(bs.last()) == Some("var"@) {
        var_records(bs.drop_last()).push(gvar_data(bs.last()))
    } else {
        var_records(bs.drop_last())
    }
}

/// The words that name the kinds of blocks are all different.
proof fn lemma_kind_words()
    ensures
        "file"@ != "fn"@,
        "file"@ != "base"@,
        "file"@ != "type"@,
        "file"@ != "struct"@,
        "file"@ != "enum"@,
        "file"@ != "var"@,
        "fn"@ != "base"@,
        "fn"@ != "type"@,
        "fn"@ != "struct"@,
        "fn"@ != "enum"@,
        "fn"@ != "var"@,
        "base"@ != "type"@,
        "base"@ != "struct"@,
        "base"@ != "enum"@,
        "base"@ != "var"@,
        "type"@ != "struct"@,
        "type"@ != "enum"@,
        "type"@ != "var"@,
        "struct"@ != "enum"@,
        "struct"@ != "var"@,
        "enum"@ != "var"@,
{
    reveal_strlit("file");
    reveal_strlit("fn");
    reveal_strlit("base");
    reveal_strlit("type");
    reveal_strlit("struct");
    reveal_strlit("enum");
    reveal_strlit("var");
    assert("file"@.len() == 4 && "file"@[0] == 'f');
    assert("fn"@.len() == 2);
    assert("base"@.len() == 4 && "base"@[0] == 'b');
    assert("type"@.len() == 4 && "type"@[0] == 't');
    assert("struct"@.len() == 6);
    assert("enum"@.len() == 4 && "enum"@[0] == 'e');
    assert("var"@.len() == 3);
}

proof fn lemma_unit_upto_records(bl: Seq<Seq<char>>, a: int, n: int)
    requires
        0 <= a <= n <= bl.len(),
    ensures
        unit_upto(bl, a, n).fn_data == fn_records(bl.subrange(a, n)),
        unit_upto(bl, a, n).base_data == base_records(bl.subrange(a, n)),
        unit_upto(bl, a, n).ftype_data == type_records(bl.subrange(a, n)),
        unit_upto(bl, a, n).struct_data == struct_records(bl.subrange(a, n)),
        unit_upto(bl, a, n).enum_data_v == enum_records(bl.subrange(a, n)),
        unit_upto(bl, a, n).g_var_data == var_records(bl.subrange(a, n)),
    decreases n - a,
{
    lemma_kind_words();
    if n > a {
        lemma_unit_upto_records(bl, a, n - 1);
        assert(bl.subrange(a, n).drop_last() =~= bl.subrange(a, n - 1));
        assert(bl.subrange(a, n).last() == bl[n - 1]);
    } else {
        assert(bl.subrange(a, n) =~= Seq::<Seq<char>>::empty());
    }
}

/// Everything belongs to its translation unit: the functions, base types,
/// type definitions, structures, enumerations and global variables of
/// unit `k` are those of the blocks of each kind from its `unit` block up
/// to the next one (to the end, for the last unit), in order.
pub proof fn lemma_blocks_in_unit(bl: Seq<Seq<char>>, k: int)
    requires
        0 <= k < unit_count(bl),
    ensures
        ({
            let st = unit_starts(bl);
            let bs = bl.subrange(st[k], unit_end(bl, k));
            &&& units_of(bl)[k].fn_data == fn_records(bs)
            &&& units_of(bl)[k].base_data == base_records(bs)
            &&& units_of(bl)[k].ftype_data == type_records(bs)
            &&& units_of(bl)[k].struct_data == struct_records(bs)
            &&& units_of(bl)[k].enum_data_v == enum_records(bs)
            &&& units_of(bl)[k].g_var_data == var_records(bs)
        }),
{
    lemma_unit_starts(bl, bl.len() as int);
    let st = unit_starts(bl);
    assert(0 <= st[k] < unit_end(bl, k) <= bl.len());
    lemma_unit_upto_records(bl, st[k], unit_end(bl, k));
}

} // verus!
