//! File blocks (`file name`, its address ranges, sizes and sections).
use vstd::prelude::*;
use crate::support::{
    address_from, address_of, address_ok, address_range, address_range_of, u32_value,
    u32_value_of, AddressData, AddressView,
};
use crate::text::{
    chars_of, drop_char, drop_char_chars, is_text, nth_word, split_by, split_chars, starts_with,
    starts_with_chars, string_of, texts, trim, trim_chars, words_of,
};
use crate::unit::{address_views, addresses_of, hex_run_end, lemma_hex_run_end};

verus! {

/// A section of a file: its name, size and address range.
#[derive(Debug)]
pub struct Section {
    pub name: String,
    pub size: u32,
    pub start_address: String,
    pub end_address: String,
}

pub struct SectionView {
    pub name: Seq<char>,
    pub size: u32,
    pub start_address: Seq<char>,
    pub end_address: Seq<char>,
}

impl View for Section {
    type V = SectionView;

    open spec fn view(&self) -> SectionView {
        SectionView {
            name: self.name@,
            size: self.size,
            start_address: self.start_address@,
            end_address: self.end_address@,
        }
    }
}

pub open spec fn empty_section() -> SectionView {
    SectionView {
        name: Seq::empty(),
        size: 0,
        start_address: Seq::empty(),
        end_address: Seq::empty(),
    }
}

#[derive(Debug)]
pub struct FileData {
    pub filename: String,
    pub address_data: Vec<AddressData>,
    pub total_size: u32,
    pub var_size: u32,
    pub fn_size: u32,
    pub other_size: u32,
    pub sections: Vec<Section>,
}

pub struct FileView {
    pub filename: Seq<char>,
    pub address_data: Seq<AddressView>,
    pub total_size: u32,
    pub var_size: u32,
    pub fn_size: u32,
    pub other_size: u32,
    pub sections: Seq<SectionView>,
}

pub open spec fn section_views(v: Seq<Section>) -> Seq<SectionView> {
    v.map_values(|s: Section| s@)
}

impl View for FileData {
    type V = FileView;

    open spec fn view(&self) -> FileView {
        FileView {
            filename: self.filename@,
            address_data: address_views(self.address_data@),
            total_size: self.total_size,
            var_size: self.var_size,
            fn_size: self.fn_size,
            other_size: self.other_size,
            sections: section_views(self.sections@),
        }
    }
}

pub open spec fn string_views(v: Seq<String>) -> Seq<Seq<char>> {
    v.map_values(|s: String| s@)
}

// ---------------------------------------------------------------------
// Sections
// ---------------------------------------------------------------------

/// The key of a `key: value` item: the trimmed text before its first `':'`.
pub open spec fn item_key(item: Seq<char>) -> Seq<char> {
    trim(split_by(item, ':', ':')[0])
}

/// The value of a `key: value` item: the trimmed text between its first and
/// any second `':'`, or `default` where it has no `':'`.
pub open spec fn item_value(item: Seq<char>, default: Seq<char>) -> Seq<char> {
    let kv = split_by(item, ':', ':');
    if kv.len() > 1 {
        trim(kv[1])
    } else {
        default
    }
}

/// What one item does to a section: `name`, `size` and `address` set their
/// fields.
pub open spec fn section_item(s: SectionView, z: Seq<char>) -> SectionView {
    let key = item_key(z);
    let value = item_value(z, "0x0"@);
    if key == "name"@ {
        SectionView { name: value, ..s }
    } else if key == "size"@ {
        SectionView { size: u32_value(value), ..s }
    } else if key == "address"@ {
        SectionView {
            start_address: address_range(value).0,
            end_address: address_range(value).1,
            ..s
        }
    } else {
        s
    }
}

/// The section that a list of items describes.
pub open spec fn section_of(ss: Seq<Seq<char>>) -> SectionView
    decreases ss.len(),
{
    if ss.len() == 0 {
        empty_section()
    } else {
        section_item(section_of(ss.drop_last()), ss.last())
    }
}

fn section_from(ss: &Vec<Vec<char>>) -> (r: Section)
    ensures
        r@ == section_of(texts(ss@)),
{
    let ghost sv = texts(ss@);
    let mut s = Section {
        name: String::new(),
        size: 0,
        start_address: String::new(),
        end_address: String::new(),
    };
    let mut i: usize = 0;
    assert(sv.take(0) =~= Seq::<Seq<char>>::empty());
    while i < ss.len()
        invariant
            sv == texts(ss@),
            i <= ss.len(),
            s@ == section_of(sv.take(i as int)),
        decreases ss.len() - i,
    {
        assert(sv[i as int] == ss@[i as int]@);
        assert(sv.take(i + 1).drop_last() =~= sv.take(i as int));
        let z = ss[i].as_slice();
        let kv = split_chars(z, ':', ':');
        assert(texts(kv@).len() == kv@.len());
        assert(texts(kv@)[0] == kv@[0]@);
        let key = trim_chars(kv[0].as_slice());
        let value = if kv.len() > 1 {
            assert(texts(kv@)[1] == kv@[1]@);
            trim_chars(kv[1].as_slice())
        } else {
            chars_of("0x0")
        };
        if is_text(key.as_slice(), "name") {
            s.name = string_of(value.as_slice());
        } else if is_text(key.as_slice(), "size") {
            s.size = u32_value_of(value.as_slice());
        } else if is_text(key.as_slice(), "address") {
            let (a, b) = address_range_of(value.as_slice());
            s.start_address = string_of(a.as_slice());
            s.end_address = string_of(b.as_slice());
        }
        i += 1;
    }
    assert(sv.take(i as int) =~= sv);
    s
}

/// The section that the items `name: ...`, `size: ...`, `address: ...`
/// describe.
pub fn parse_sections(ss: &Vec<String>) -> (r: Section)
    ensures
        r@ == section_of(string_views(ss@)),
{
    let mut v: Vec<Vec<char>> = Vec::new();
    let mut i: usize = 0;
    while i < ss.len()
        invariant
            i <= ss.len(),
            texts(v@) == string_views(ss@).take(i as int),
        decreases ss.len() - i,
    {
        let c = chars_of(ss[i].as_str());
        proof {
            assert(texts(v@.push(c)) =~= texts(v@).push(c@));
            assert(string_views(ss@).take(i + 1) =~= string_views(ss@).take(i as int).push(
                ss@[i as int]@,
            ));
        }
        v.push(c);
        i += 1;
    }
    assert(string_views(ss@).take(i as int) =~= string_views(ss@));
    section_from(&v)
}

/// Every `'.'` written as `name:`.
pub open spec fn dots_as_names(s: Seq<char>) -> Seq<char>
    decreases s.len(),
{
    if s.len() == 0 {
        s
    } else {
        dots_as_names(s.drop_last()) + if s.last() == '.' {
            "name:"@
        } else {
            seq![s.last()]
        }
    }
}

fn dots_as_names_of(s: &[char]) -> (r: Vec<char>)
    ensures
        r@ == dots_as_names(s@),
{
    let name = chars_of("name:");
    let mut r: Vec<char> = Vec::new();
    let mut i: usize = 0;
    assert(s@.take(0) =~= Seq::<char>::empty());
    while i < s.len()
        invariant
            name@ == "name:"@,
            i <= s.len(),
            r@ == dots_as_names(s@.take(i as int)),
        decreases s.len() - i,
    {
        assert(s@.take(i + 1).drop_last() =~= s@.take(i as int));
        if s[i] == '.' {
            let ghost before = r@;
            let mut j: usize = 0;
            while j < name.len()
                invariant
                    0 <= j <= name.len(),
                    r@ == before + name@.take(j as int),
                decreases name.len() - j,
            {
                assert(name@.take(j + 1) =~= name@.take(j as int).push(name@[j as int]));
                r.push(name[j]);
                j += 1;
            }
            assert(name@.take(j as int) =~= name@);
        } else {
            assert(r@.push(s[i as int]) =~= r@ + seq![s@[i as int]]);
            r.push(s[i]);
        }
        i += 1;
    }
    assert(s@.take(i as int) =~= s@);
    r
}

/// What one item of the section list does: an item starting with `'.'`
/// closes the section under way and opens a new one named by it; any other
/// item joins the section under way, which the last item closes.
pub open spec fn sections_item(st: (Seq<SectionView>, Seq<Seq<char>>), item: Seq<char>, last: bool) -> (
    Seq<SectionView>,
    Seq<Seq<char>>,
) {
    let (done, ss) = st;
    if starts_with(item, "."@) {
        (done.push(section_of(ss)), seq![dots_as_names(item)])
    } else {
        let ss2 = ss.push(item);
        if last {
            (done.push(section_of(ss2)), ss2)
        } else {
            (done, ss2)
        }
    }
}

pub open spec fn sections_upto(items: Seq<Seq<char>>, n: int) -> (Seq<SectionView>, Seq<Seq<char>>)
    decreases n,
{
    if n <= 0 {
        (Seq::empty(), Seq::empty())
    } else {
        sections_item(sections_upto(items, n - 1), items[n - 1], n == items.len())
    }
}

// ---------------------------------------------------------------------
// The file block
// ---------------------------------------------------------------------

/// The end of the run of size fields from `i` on: the first piece whose key
/// is `sections`, or the end.
pub open spec fn fields_end(p: Seq<Seq<char>>, i: int) -> int
    decreases p.len() - i,
{
    if 0 <= i < p.len() && item_key(p[i]) != "sections"@ {
        fields_end(p, i + 1)
    } else {
        i
    }
}

pub open spec fn known_field(k: Seq<char>) -> bool {
    k == "size"@ || k == "fn size"@ || k == "var size"@ || k == "other size"@
}

/// What one size field does to the record.
pub open spec fn file_field(f: FileView, item: Seq<char>) -> FileView {
    let key = item_key(item);
    let value = item_value(item, Seq::empty());
    if key == "size"@ {
        FileView { total_size: u32_value(value), ..f }
    } else if key == "fn size"@ {
        FileView { fn_size: u32_value(value), ..f }
    } else if key == "var size"@ {
        FileView { var_size: u32_value(value), ..f }
    } else if key == "other size"@ {
        FileView { other_size: u32_value(value), ..f }
    } else {
        f
    }
}

pub open spec fn file_fields(f: FileView, items: Seq<Seq<char>>) -> FileView
    decreases items.len(),
{
    if items.len() == 0 {
        f
    } else {
        file_field(file_fields(f, items.drop_last()), items.last())
    }
}

/// The keys of the fields that are not sizes, in order.
pub open spec fn other_keys(items: Seq<Seq<char>>) -> Seq<Seq<char>>
    decreases items.len(),
{
    if items.len() == 0 {
        Seq::empty()
    } else if known_field(item_key(items.last())) {
        other_keys(items.drop_last())
    } else {
        other_keys(items.drop_last()).push(item_key(items.last()))
    }
}

/// Where the phases of a file block begin and end, over its pieces between
/// `'\n'`: the header, a skipped piece, the address ranges `[2, e1)`, the
/// piece that ends them (skipped), the size fields `[s2, f)` up to the
/// `sections` piece, that piece and the one after it (skipped), and the
/// section items from `s4`.
pub open spec fn file_phases(p: Seq<Seq<char>>) -> (int, int, int, int) {
    let e1 = hex_run_end(p, 2);
    let s2 = if e1 < p.len() {
        e1 + 1
    } else {
        e1
    };
    let f = fields_end(p, s2);
    let s3 = if f < p.len() {
        f + 1
    } else {
        f
    };
    let s4 = if s3 < p.len() {
        s3 + 1
    } else {
        s3
    };
    (e1, s2, f, s4)
}

pub open spec fn file_pieces(buffer: Seq<char>) -> Seq<Seq<char>> {
    split_by(drop_char(buffer, '\t'), '\n', '\n')
}

/// `parse_file_data` can read the block: it has a second line,
/// its address ranges read as such, and some item is left after the
/// `sections` line and the one after it.
pub open spec fn file_ok(buffer: Seq<char>) -> bool {
    let p = file_pieces(buffer);
    let (e1, s2, f, s4) = file_phases(p);
    &&& p.len() >= 2
    &&& forall|i: int| 2 <= i < e1 ==> address_ok(#[trigger] p[i])
    &&& s4 < p.len()
}

/// The file that a block describes.
pub open spec fn file_of(buffer: Seq<char>) -> FileView {
    let p = file_pieces(buffer);
    let (e1, s2, f, s4) = file_phases(p);
    let items = p.subrange(s4, p.len() as int);
    let head = FileView {
        filename: match nth_word(p[0], 1) {
            Some(w) => w,
            None => "Error: failed to parse filename"@,
        },
        address_data: addresses_of(p.subrange(2, e1)),
        total_size: 0,
        var_size: 0,
        fn_size: 0,
        other_size: 0,
        sections: sections_upto(items, items.len() as int).0.drop_first(),
    };
    file_fields(head, p.subrange(s2, f))
}

/// The keys that `parse_file_data` reports as it meets fields that are not
/// sizes.
pub open spec fn file_notes(buffer: Seq<char>) -> Seq<Seq<char>> {
    let p = file_pieces(buffer);
    let (e1, s2, f, s4) = file_phases(p);
    other_keys(p.subrange(s2, f))
}

proof fn lemma_file_fields_sections(h: FileView, items: Seq<Seq<char>>, secs: Seq<SectionView>)
    ensures
        file_fields((FileView { sections: secs, ..h }), items) == (FileView {
            sections: secs,
            ..file_fields(h, items)
        }),
    decreases items.len(),
{
    if items.len() > 0 {
        lemma_file_fields_sections(h, items.drop_last(), secs);
    }
}

proof fn lemma_fields_end(p: Seq<Seq<char>>, i: int)
    requires
        0 <= i <= p.len(),
    ensures
        i <= fields_end(p, i) <= p.len(),
        forall|j: int| i <= j < fields_end(p, i) ==> item_key(#[trigger] p[j]) != "sections"@,
        fields_end(p, i) < p.len() ==> item_key(p[fields_end(p, i)]) == "sections"@,
    decreases p.len() - i,
{
    if 0 <= i < p.len() && item_key(p[i]) != "sections"@ {
        lemma_fields_end(p, i + 1);
    }
}

fn key_and_value(item: &[char], default: &str) -> (r: (Vec<char>, Vec<char>))
    ensures
        r.0@ == item_key(item@),
        r.1@ == item_value(item@, default@),
{
    let kv = split_chars(item, ':', ':');
    assert(texts(kv@).len() == kv@.len());
    assert(texts(kv@)[0] == kv@[0]@);
    let key = trim_chars(kv[0].as_slice());
    let value = if kv.len() > 1 {
        assert(texts(kv@)[1] == kv@[1]@);
        trim_chars(kv[1].as_slice())
    } else {
        chars_of(default)
    };
    (key, value)
}

/// Parses a `file` block, with the keys of its fields that are not sizes,
/// or gives `None` where the block cannot be read.
pub fn try_parse_file_data(buffer: &str) -> (r: Option<(FileData, Vec<String>)>)
    ensures
        r is Some <==> file_ok(buffer@),
        r matches Some((d, notes)) ==> d@ == file_of(buffer@) && string_views(notes@)
            == file_notes(buffer@),
{
    let cs = chars_of(buffer);
    let clean = drop_char_chars(cs.as_slice(), '\t');
    let p = split_chars(clean.as_slice(), '\n', '\n');
    let ghost ps = file_pieces(buffer@);
    assert(ps == texts(p@));
    assert(ps.len() == p@.len());
    if p.len() < 2 {
        return None;
    }
    // The file name.
    assert(ps[0] == p@[0]@);
    let ws = words_of(p[0].as_slice());
    assert(texts(ws@).len() == ws@.len());
    let filename = if ws.len() > 1 {
        assert(texts(ws@)[1] == ws@[1]@);
        string_of(ws[1].as_slice())
    } else {
        string_of(chars_of("Error: failed to parse filename").as_slice())
    };
    // The address ranges.
    let zero_x = chars_of("0x");
    let mut address_data: Vec<AddressData> = Vec::new();
    assert(address_views(address_data@) =~= Seq::empty());
    let mut i: usize = 2;
    proof {
        lemma_hex_run_end(ps, 2);
    }
    while i < p.len() && starts_with_chars(p[i].as_slice(), zero_x.as_slice())
        invariant
            ps == file_pieces(buffer@),
            ps == texts(p@),
            ps.len() == p@.len(),
            zero_x@ == "0x"@,
            2 <= i <= p.len(),
            hex_run_end(ps, 2) == hex_run_end(ps, i as int),
            address_views(address_data@) == addresses_of(ps.subrange(2, i as int)),
            forall|j: int| 2 <= j < i ==> address_ok(#[trigger] ps[j]),
        decreases p.len() - i,
    {
        assert(ps[i as int] == p@[i as int]@);
        match address_from(p[i].as_slice()) {
            Some(a) => {
                proof {
                    assert(address_views(address_data@.push(a)) =~= address_views(
                        address_data@,
                    ).push(a@));
                    assert(ps.subrange(2, i + 1) =~= ps.subrange(2, i as int).push(ps[i as int]));
                    assert(addresses_of(ps.subrange(2, i + 1)) =~= addresses_of(
                        ps.subrange(2, i as int),
                    ).push(address_of(ps[i as int])));
                }
                address_data.push(a);
                i += 1;
            },
            None => {
                proof {
                    lemma_hex_run_end(ps, i + 1);
                    assert(hex_run_end(ps, i as int) == hex_run_end(ps, i + 1));
                    assert(!address_ok(ps[i as int]));
                }
                return None;
            },
        }
    }
    proof {
        if i < p.len() {
            assert(ps[i as int] == p@[i as int]@);
        }
        assert(hex_run_end(ps, i as int) == i);
    }
    let e1 = i;
    let s2 = if e1 < p.len() {
        e1 + 1
    } else {
        e1
    };
    // The size fields.
    let mut d = FileData {
        filename,
        address_data,
        total_size: 0,
        var_size: 0,
        fn_size: 0,
        other_size: 0,
        sections: Vec::new(),
    };
    let ghost d0 = d@;
    let mut notes: Vec<String> = Vec::new();
    assert(string_views(notes@) =~= Seq::empty());
    let mut j = s2;
    assert(ps.subrange(s2 as int, j as int) =~= Seq::<Seq<char>>::empty());
    proof {
        lemma_fields_end(ps, s2 as int);
    }
    loop
        invariant
            ps == file_pieces(buffer@),
            p.len() >= 2,
            forall|x: int| 2 <= x < e1 ==> address_ok(#[trigger] ps[x]),
            e1 == hex_run_end(ps, 2),
            ps == texts(p@),
            ps.len() == p@.len(),
            s2 <= j <= fields_end(ps, s2 as int) <= p.len(),
            fields_end(ps, s2 as int) == fields_end(ps, j as int),
            d@ == file_fields(d0, ps.subrange(s2 as int, j as int)),
            string_views(notes@) == other_keys(ps.subrange(s2 as int, j as int)),
        ensures
            fields_end(ps, s2 as int) == j,
        decreases p.len() - j,
    {
        if j >= p.len() {
            assert(fields_end(ps, j as int) == j);
            break;
        }
        assert(ps[j as int] == p@[j as int]@);
        let (key, value) = key_and_value(p[j].as_slice(), "");
        if is_text(key.as_slice(), "sections") {
            assert(fields_end(ps, j as int) == j);
            break;
        }
        assert(fields_end(ps, j as int) == fields_end(ps, j + 1));
        proof {
            lemma_fields_end(ps, j + 1);
            reveal_strlit("");
            assert(""@ =~= Seq::<char>::empty());
        }
        assert(ps.subrange(s2 as int, j + 1).drop_last() =~= ps.subrange(s2 as int, j as int));
        assert(ps.subrange(s2 as int, j + 1).last() == ps[j as int]);
        if is_text(key.as_slice(), "size") {
            d.total_size = u32_value_of(value.as_slice());
        } else if is_text(key.as_slice(), "fn size") {
            d.fn_size = u32_value_of(value.as_slice());
        } else if is_text(key.as_slice(), "var size") {
            d.var_size = u32_value_of(value.as_slice());
        } else if is_text(key.as_slice(), "other size") {
            d.other_size = u32_value_of(value.as_slice());
        } else {
            let k = string_of(key.as_slice());
            proof {
                assert(string_views(notes@.push(k)) =~= string_views(notes@).push(k@));
            }
            notes.push(k);
        }
        j += 1;
    }
    let f = j;
    let s3 = if f < p.len() {
        f + 1
    } else {
        f
    };
    let s4 = if s3 < p.len() {
        s3 + 1
    } else {
        s3
    };
    if s4 >= p.len() {
        return None;
    }
    // The sections.
    let ghost items = ps.subrange(s4 as int, ps.len() as int);
    let mut done: Vec<Section> = Vec::new();
    let mut ss: Vec<Vec<char>> = Vec::new();
    assert(section_views(done@) =~= Seq::empty());
    assert(texts(ss@) =~= Seq::empty());
    let dot = chars_of(".");
    let mut k = s4;
    while k < p.len()
        invariant
            ps == file_pieces(buffer@),
            p.len() >= 2,
            forall|x: int| 2 <= x < e1 ==> address_ok(#[trigger] ps[x]),
            e1 == hex_run_end(ps, 2),
            ps == texts(p@),
            ps.len() == p@.len(),
            dot@ == "."@,
            items == ps.subrange(s4 as int, ps.len() as int),
            s4 <= k <= p.len(),
            (section_views(done@), texts(ss@)) == sections_upto(items, k - s4),
        decreases p.len() - k,
    {
        assert(ps[k as int] == p@[k as int]@);
        assert(items[k - s4] == ps[k as int]);
        let item = p[k].as_slice();
        if starts_with_chars(item, dot.as_slice()) {
            let sec = section_from(&ss);
            proof {
                assert(section_views(done@.push(sec)) =~= section_views(done@).push(sec@));
            }
            done.push(sec);
            let named = dots_as_names_of(item);
            ss = Vec::new();
            proof {
                assert(texts(ss@.push(named)) =~= seq![named@]);
            }
            ss.push(named);
        } else {
            let copy = slice_of_vec(item);
            proof {
                assert(texts(ss@.push(copy)) =~= texts(ss@).push(copy@));
            }
            ss.push(copy);
            if k + 1 == p.len() {
                let sec = section_from(&ss);
                proof {
                    assert(section_views(done@.push(sec)) =~= section_views(done@).push(sec@));
                }
                done.push(sec);
            }
        }
        k += 1;
    }
    assert(items.len() == k - s4);
    assert(done.len() > 0) by {
        assert(section_views(done@).len() == done@.len());
    }
    let ghost before = done@;
    done.remove(0);
    assert(section_views(done@) =~= section_views(before).drop_first());
    let ghost before_sections = d@;
    d.sections = done;
    proof {
        assert(file_phases(ps) == (e1 as int, s2 as int, f as int, s4 as int));
        lemma_file_fields_sections(d0, ps.subrange(s2 as int, f as int), d@.sections);
    }
    Some((d, notes))
}

fn slice_of_vec(s: &[char]) -> (r: Vec<char>)
    ensures
        r@ == s@,
{
    let r = crate::text::slice_of(s, 0, s.len());
    assert(r@ =~= s@);
    r
}

/// Parses a `file` block of ddbug output, with the keys of its fields that
/// are not sizes (which the program reports).
pub fn parse_file_data(buffer: &str) -> (r: (FileData, Vec<String>))
    requires
        file_ok(buffer@),
    ensures
        r.0@ == file_of(buffer@),
        string_views(r.1@) == file_notes(buffer@),
{
    match try_parse_file_data(buffer) {
        Some(x) => x,
        None => {
            assert(false);
            (
                FileData {
                    filename: String::new(),
                    address_data: Vec::new(),
                    total_size: 0,
                    var_size: 0,
                    fn_size: 0,
                    other_size: 0,
                    sections: Vec::new(),
                },
                Vec::new(),
            )
        },
    }
}

proof fn lemma_drop_char_keeps_out(s: Seq<char>, c: char, x: char)
    requires
        forall|i: int| 0 <= i < s.len() ==> #[trigger] s[i] != x,
    ensures
        forall|i: int| 0 <= i < drop_char(s, c).len() ==> #[trigger] drop_char(s, c)[i] != x,
    decreases s.len(),
{
    if s.len() > 0 {
        let t = s.drop_last();
        assert forall|i: int| 0 <= i < t.len() implies #[trigger] t[i] != x by {
            assert(t[i] == s[i]);
        }
        lemma_drop_char_keeps_out(t, c, x);
        let r = drop_char(s, c);
        let rt = drop_char(t, c);
        if s.last() != c {
            assert forall|i: int| 0 <= i < r.len() implies #[trigger] r[i] != x by {
                if i < rt.len() {
                    assert(r[i] == rt[i]);
                }
            }
        }
    }
}

/// A block of one line, or one with no `sections` line, cannot be read as
/// a file block.
pub proof fn lemma_file_unreadable(buffer: Seq<char>)
    ensures
        (forall|i: int| 0 <= i < buffer.len() ==> #[trigger] buffer[i] != '\n') ==> !file_ok(
            buffer,
        ),
        (forall|i: int|
            0 <= i < file_pieces(buffer).len() ==> item_key(#[trigger] file_pieces(buffer)[i])
                != "sections"@) ==> !file_ok(buffer),
{
    let p = file_pieces(buffer);
    if forall|i: int| 0 <= i < buffer.len() ==> #[trigger] buffer[i] != '\n' {
        let clean = drop_char(buffer, '\t');
        lemma_drop_char_keeps_out(buffer, '\t', '\n');
        let ns = crate::text::non_sep('\n', '\n');
        assert forall|j: int| 0 <= j < clean.len() implies #[trigger] ns(clean[j]) by {}
        crate::text::lemma_lead_run_unique(clean, ns, clean.len() as int);
        assert(p.len() == 1);
    }
    if forall|i: int| 0 <= i < p.len() ==> item_key(#[trigger] p[i]) != "sections"@ {
        let (e1, s2, f, s4) = file_phases(p);
        if p.len() >= 2 {
            lemma_hex_run_end(p, 2int);
            let s2 = if e1 < p.len() {
                e1 + 1
            } else {
                e1
            };
            lemma_fields_no_sections(p, s2);
        }
    }
}

proof fn lemma_fields_no_sections(p: Seq<Seq<char>>, i: int)
    requires
        0 <= i <= p.len(),
        forall|j: int| 0 <= j < p.len() ==> item_key(#[trigger] p[j]) != "sections"@,
    ensures
        fields_end(p, i) == p.len(),
    decreases p.len() - i,
{
    if i < p.len() {
        assert(item_key(p[i]) != "sections"@);
        lemma_fields_no_sections(p, i + 1);
    }
}

} // verus!
