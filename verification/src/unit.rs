//! Translation unit blocks (`unit path`, its address ranges and sizes), and
//! the record that gathers everything of one translation unit.
use vstd::prelude::*;
use crate::base::{BaseData, BaseView};
use crate::enums::{EnumData, EnumView};
use crate::ftype::{FtypeData, FtypeView};
use crate::function::{FnData, FnView};
use crate::gvar::{GlobalVarData, GlobalVarView};
use crate::structure::{StructData, StructView};
use crate::support::{
    address_from, address_of, address_ok, file_name, file_name_of, u32_value, u32_value_of,
    AddressData, AddressView,
};
use crate::text::{
    chars_of, drop_char, drop_char_chars, is_text, nth_word, split_by, split_chars, split_once,
    split_once_chars, starts_with, starts_with_chars, string_of, texts, words_of,
};

verus! {

#[derive(Debug)]
pub struct UnitData {
    pub file_name: String,
    pub file_path: String,
    pub addresses: Vec<AddressData>,
    pub unknown_addresses: Option<Vec<AddressData>>,
    pub function_size: u32,
    pub var_size: u32,
    pub unknown_size: u32,
}

pub struct UnitView {
    pub file_name: Seq<char>,
    pub file_path: Seq<char>,
    pub addresses: Seq<AddressView>,
    pub unknown_addresses: Option<Seq<AddressView>>,
    pub function_size: u32,
    pub var_size: u32,
    pub unknown_size: u32,
}

pub open spec fn address_views(v: Seq<AddressData>) -> Seq<AddressView> {
    v.map_values(|a: AddressData| a@)
}

impl View for UnitData {
    type V = UnitView;

    open spec fn view(&self) -> UnitView {
        UnitView {
            file_name: self.file_name@,
            file_path: self.file_path@,
            addresses: address_views(self.addresses@),
            unknown_addresses: match self.unknown_addresses {
                Some(v) => Some(address_views(v@)),
                None => None,
            },
            function_size: self.function_size,
            var_size: self.var_size,
            unknown_size: self.unknown_size,
        }
    }
}

pub open spec fn empty_unit() -> UnitView {
    UnitView {
        file_name: Seq::empty(),
        file_path: Seq::empty(),
        addresses: Seq::empty(),
        unknown_addresses: None,
        function_size: 0,
        var_size: 0,
        unknown_size: 0,
    }
}

impl Default for UnitData {
    fn default() -> (r: Self)
        ensures
            r@ == empty_unit(),
    {
        let r = UnitData {
            file_name: String::new(),
            file_path: String::new(),
            addresses: Vec::new(),
            unknown_addresses: None,
            function_size: 0,
            var_size: 0,
            unknown_size: 0,
        };
        assert(address_views(r.addresses@) =~= Seq::empty());
        r
    }
}

/// Everything that the blocks of one translation unit describe.
#[derive(Debug)]
pub struct TranslationUnitData {
    pub unit_data: UnitData,
    pub fn_data: Vec<FnData>,
    pub base_data: Vec<BaseData>,
    pub ftype_data: Vec<FtypeData>,
    pub struct_data: Vec<StructData>,
    pub g_var_data: Vec<GlobalVarData>,
    pub enum_data_v: Vec<EnumData>,
}

pub struct TranslationUnitView {
    pub unit_data: UnitView,
    pub fn_data: Seq<FnView>,
    pub base_data: Seq<BaseView>,
    pub ftype_data: Seq<FtypeView>,
    pub struct_data: Seq<StructView>,
    pub g_var_data: Seq<GlobalVarView>,
    pub enum_data_v: Seq<EnumView>,
}

impl View for TranslationUnitData {
    type V = TranslationUnitView;

    open spec fn view(&self) -> TranslationUnitView {
        TranslationUnitView {
            unit_data: self.unit_data@,
            fn_data: self.fn_data@.map_values(|x: FnData| x@),
            base_data: self.base_data@.map_values(|x: BaseData| x@),
            ftype_data: self.ftype_data@.map_values(|x: FtypeData| x@),
            struct_data: self.struct_data@.map_values(|x: StructData| x@),
            g_var_data: self.g_var_data@.map_values(|x: GlobalVarData| x@),
            enum_data_v: self.enum_data_v@.map_values(|x: EnumData| x@),
        }
    }
}

// ---------------------------------------------------------------------
// The unit block
// ---------------------------------------------------------------------

/// The end of the run of pieces from `i` on that start with `0x`.
pub open spec fn hex_run_end(p: Seq<Seq<char>>, i: int) -> int
    decreases p.len() - i,
{
    if 0 <= i < p.len() && starts_with(p[i], "0x"@) {
        hex_run_end(p, i + 1)
    } else {
        i
    }
}

/// Where the phases of a unit block begin and end, over its pieces between
/// `'\n'`: the first piece is the header and the second is skipped; then
/// come the address ranges `[s1, e1)`; the piece that ends them (the
/// heading of the unknown addresses) is skipped; then the ranges of unknown
/// addresses `[s2, e2)`; the rest, from `s3 == e2`, holds the sizes.
pub open spec fn unit_phases(p: Seq<Seq<char>>) -> (int, int, int, int, int) {
    let s1 = if p.len() >= 2 {
        2
    } else {
        p.len() as int
    };
    let e1 = hex_run_end(p, s1);
    let s2 = if e1 < p.len() {
        e1 + 1
    } else {
        e1
    };
    let e2 = hex_run_end(p, s2);
    (s1, e1, s2, e2, e2)
}

/// The pieces of a unit block: its text without tabs, split at `'\n'`.
pub open spec fn unit_pieces(buffer: Seq<char>) -> Seq<Seq<char>> {
    split_by(drop_char(buffer, '\t'), '\n', '\n')
}

/// A size line `fn size: n`, `var size: n` or `unknown size: n`.
pub open spec fn unit_size_line(u: UnitView, item: Seq<char>) -> UnitView {
    match split_once(item, ':') {
        Some((k, v)) => if k == "fn size"@ {
            UnitView { function_size: u32_value(v), ..u }
        } else if k == "var size"@ {
            UnitView { var_size: u32_value(v), ..u }
        } else if k == "unknown size"@ {
            UnitView { unknown_size: u32_value(v), ..u }
        } else {
            u
        },
        None => u,
    }
}

pub open spec fn unit_sizes(u: UnitView, items: Seq<Seq<char>>) -> UnitView
    decreases items.len(),
{
    if items.len() == 0 {
        u
    } else {
        unit_size_line(unit_sizes(u, items.drop_last()), items.last())
    }
}

/// The header `unit path`: the path is its second word, and the file name
/// that path's last component.
pub open spec fn unit_header(h: Seq<char>) -> UnitView {
    match nth_word(h, 1) {
        Some(val) => UnitView {
            file_path: val,
            file_name: match file_name(val) {
                Some(f) => f,
                None => Seq::empty(),
            },
            ..empty_unit()
        },
        None => empty_unit(),
    }
}

pub open spec fn addresses_of(items: Seq<Seq<char>>) -> Seq<AddressView> {
    items.map_values(|x: Seq<char>| address_of(x))
}

/// The translation unit that a block describes.
pub open spec fn unit_of(buffer: Seq<char>) -> UnitView {
    let p = unit_pieces(buffer);
    let (s1, e1, s2, e2, s3) = unit_phases(p);
    let unknown = addresses_of(p.subrange(s2, e2));
    let u = UnitView {
        addresses: addresses_of(p.subrange(s1, e1)),
        unknown_addresses: if unknown.len() > 0 {
            Some(unknown)
        } else {
            None
        },
        ..unit_header(p[0])
    };
    unit_sizes(u, p.subrange(s3, p.len() as int))
}

/// `parse_unit` can read the block: every line of its two runs of
/// address ranges reads as one.
pub open spec fn unit_ok(buffer: Seq<char>) -> bool {
    let p = unit_pieces(buffer);
    let (s1, e1, s2, e2, s3) = unit_phases(p);
    forall|i: int| (s1 <= i < e1 || s2 <= i < e2) ==> address_ok(#[trigger] p[i])
}

pub proof fn lemma_hex_run_end(p: Seq<Seq<char>>, i: int)
    requires
        0 <= i <= p.len(),
    ensures
        i <= hex_run_end(p, i) <= p.len(),
        forall|j: int| i <= j < hex_run_end(p, i) ==> starts_with(#[trigger] p[j], "0x"@),
        hex_run_end(p, i) < p.len() ==> !starts_with(p[hex_run_end(p, i)], "0x"@),
    decreases p.len() - i,
{
    if 0 <= i < p.len() && starts_with(p[i], "0x"@) {
        lemma_hex_run_end(p, i + 1);
    }
}

/// The address ranges of the run of `0x` pieces from `from`, with the
/// run's end; `None` where one of them does not read as a range.
fn address_run(p: &Vec<Vec<char>>, from: usize) -> (r: Option<(Vec<AddressData>, usize)>)
    requires
        from <= p.len(),
    ensures
        ({
            let ps = texts(p@);
            let e = hex_run_end(ps, from as int);
            match r {
                Some((v, end)) => end == e && address_views(v@) == addresses_of(
                    ps.subrange(from as int, e),
                ) && forall|i: int| from <= i < e ==> address_ok(#[trigger] ps[i]),
                None => exists|i: int| from <= i < e && !address_ok(#[trigger] ps[i]),
            }
        }),
{
    let ghost ps = texts(p@);
    let zero_x = chars_of("0x");
    let mut v: Vec<AddressData> = Vec::new();
    let mut i = from;
    assert(ps.len() == p@.len());
    assert(address_views(v@) =~= Seq::empty());
    assert(hex_run_end(ps, from as int) == hex_run_end(ps, i as int));
    while i < p.len() && starts_with_chars(p[i].as_slice(), zero_x.as_slice())
        invariant
            ps == texts(p@),
            ps.len() == p@.len(),
            zero_x@ == "0x"@,
            from <= i <= p.len(),
            hex_run_end(ps, from as int) == hex_run_end(ps, i as int),
            address_views(v@) == addresses_of(ps.subrange(from as int, i as int)),
            forall|j: int| from <= j < i ==> address_ok(#[trigger] ps[j]),
        decreases p.len() - i,
    {
        assert(ps[i as int] == p@[i as int]@);
        match address_from(p[i].as_slice()) {
            Some(a) => {
                proof {
                    assert(address_views(v@.push(a)) =~= address_views(v@).push(a@));
                    assert(ps.subrange(from as int, i + 1) =~= ps.subrange(from as int, i as int).push(
                        ps[i as int],
                    ));
                    assert(addresses_of(ps.subrange(from as int, i + 1)) =~= addresses_of(
                        ps.subrange(from as int, i as int),
                    ).push(address_of(ps[i as int])));
                }
                v.push(a);
                i += 1;
            },
            None => {
                proof {
                    lemma_hex_run_end(ps, i + 1);
                }
                return None;
            },
        }
    }
    proof {
        if i < p.len() {
            assert(ps[i as int] == p@[i as int]@);
        }
    }
    Some((v, i))
}

/// Parses a `unit` block, or gives `None` where it cannot be read.
pub fn try_parse_unit(buffer: &str) -> (r: Option<UnitData>)
    ensures
        r is Some <==> unit_ok(buffer@),
        r matches Some(u) ==> u@ == unit_of(buffer@),
{
    let cs = chars_of(buffer);
    let clean = drop_char_chars(cs.as_slice(), '\t');
    let p = split_chars(clean.as_slice(), '\n', '\n');
    let ghost ps = unit_pieces(buffer@);
    let ghost phases = unit_phases(ps);
    assert(ps == texts(p@));
    assert(ps.len() == p@.len());
    let mut u = UnitData::default();
    // The header.
    assert(ps[0] == p@[0]@);
    let ws = words_of(p[0].as_slice());
    assert(texts(ws@).len() == ws@.len());
    if ws.len() > 1 {
        assert(texts(ws@)[1] == ws@[1]@);
        let val = ws[1].as_slice();
        u.file_path = string_of(val);
        match file_name_of(val) {
            Some(f) => {
                u.file_name = string_of(f.as_slice());
            },
            None => {},
        }
    }
    assert(u@ == unit_header(ps[0]));
    // The address ranges.
    let s1 = if p.len() >= 2 {
        2
    } else {
        p.len()
    };
    proof {
        lemma_hex_run_end(ps, s1 as int);
    }
    let (addresses, e1) = match address_run(&p, s1) {
        Some(x) => x,
        None => {
            return None;
        },
    };
    let s2 = if e1 < p.len() {
        e1 + 1
    } else {
        e1
    };
    proof {
        lemma_hex_run_end(ps, s2 as int);
    }
    let (unknown, e2) = match address_run(&p, s2) {
        Some(x) => x,
        None => {
            return None;
        },
    };
    let s3 = e2;
    assert(phases == (s1 as int, e1 as int, s2 as int, e2 as int, s3 as int));
    u.addresses = addresses;
    u.unknown_addresses = if unknown.len() > 0 {
        Some(unknown)
    } else {
        None
    };
    // The sizes.
    let ghost u0 = u@;
    let mut i = s3;
    assert(ps.subrange(s3 as int, i as int) =~= Seq::<Seq<char>>::empty());
    while i < p.len()
        invariant
            ps == texts(p@),
            ps.len() == p@.len(),
            s3 <= i <= p.len(),
            u@ == unit_sizes(u0, ps.subrange(s3 as int, i as int)),
        decreases p.len() - i,
    {
        assert(ps[i as int] == p@[i as int]@);
        assert(ps.subrange(s3 as int, i + 1).drop_last() =~= ps.subrange(s3 as int, i as int));
        match split_once_chars(p[i].as_slice(), ':') {
            Some((k, v)) => {
                if is_text(k.as_slice(), "fn size") {
                    u.function_size = u32_value_of(v.as_slice());
                } else if is_text(k.as_slice(), "var size") {
                    u.var_size = u32_value_of(v.as_slice());
                } else if is_text(k.as_slice(), "unknown size") {
                    u.unknown_size = u32_value_of(v.as_slice());
                }
            },
            None => {},
        }
        i += 1;
    }
    Some(u)
}

/// Parses a `unit` block of ddbug output.
pub fn parse_unit(buffer: &str) -> (r: UnitData)
    requires
        unit_ok(buffer@),
    ensures
        r@ == unit_of(buffer@),
{
    match try_parse_unit(buffer) {
        Some(u) => u,
        None => {
            assert(false);
            UnitData::default()
        },
    }
}

proof fn lemma_unit_sizes_keep(u: UnitView, items: Seq<Seq<char>>)
    ensures
        unit_sizes(u, items).unknown_addresses == u.unknown_addresses,
        unit_sizes(u, items).addresses == u.addresses,
        unit_sizes(u, items).file_name == u.file_name,
        unit_sizes(u, items).file_path == u.file_path,
    decreases items.len(),
{
    if items.len() > 0 {
        lemma_unit_sizes_keep(u, items.drop_last());
    }
}

/// A parsed unit never holds an empty list of unknown address ranges:
/// where there are none, the list is absent.
pub proof fn lemma_unknown_addresses_nonempty(buffer: Seq<char>)
    ensures
        unit_of(buffer).unknown_addresses matches Some(v) ==> v.len() > 0,
{
    let p = unit_pieces(buffer);
    let (s1, e1, s2, e2, s3) = unit_phases(p);
    let unknown = addresses_of(p.subrange(s2, e2));
    let u = UnitView {
        addresses: addresses_of(p.subrange(s1, e1)),
        unknown_addresses: if unknown.len() > 0 {
            Some(unknown)
        } else {
            None
        },
        ..unit_header(p[0])
    };
    lemma_unit_sizes_keep(u, p.subrange(s3, p.len() as int));
}

/// A unit's path is the second word of its first line (tabs removed), and
/// its file name that path's last component (empty where it has none).
pub proof fn lemma_unit_path(buffer: Seq<char>, t: Seq<char>)
    requires
        nth_word(unit_pieces(buffer)[0], 1) == Some(t),
    ensures
        unit_of(buffer).file_path == t,
        unit_of(buffer).file_name == (match file_name(t) {
            Some(f) => f,
            None => Seq::<char>::empty(),
        }),
{
    let p = unit_pieces(buffer);
    let (s1, e1, s2, e2, s3) = unit_phases(p);
    let unknown = addresses_of(p.subrange(s2, e2));
    let u = UnitView {
        addresses: addresses_of(p.subrange(s1, e1)),
        unknown_addresses: if unknown.len() > 0 {
            Some(unknown)
        } else {
            None
        },
        ..unit_header(p[0])
    };
    lemma_unit_sizes_keep(u, p.subrange(s3, p.len() as int));
}

/// The address ranges of a unit are read from every line after the header
/// and the line that follows it, as long as the lines start with `0x`: one
/// range per such line, in order, up to the first line that does not start
/// with `0x`. After that line, the unknown address ranges are read the same
/// way; there are none where no line starting with `0x` follows it.
pub proof fn lemma_unit_address_runs(buffer: Seq<char>)
    ensures
        ({
            let p = unit_pieces(buffer);
            let a = unit_of(buffer).addresses;
            let e: int = 2int + a.len();
            &&& p.len() < 2 ==> a.len() == 0 && unit_of(buffer).unknown_addresses is None
            &&& p.len() >= 2 ==> {
                &&& e <= p.len()
                &&& forall|j: int|
                    0 <= j < a.len() ==> starts_with(#[trigger] p[2 + j], "0x"@) && a[j]
                        == address_of(p[2 + j])
                &&& e < p.len() ==> !starts_with(p[e], "0x"@)
            }
            &&& (p.len() >= 2 && e >= p.len()) ==> unit_of(buffer).unknown_addresses is None
            &&& (p.len() >= 2 && e < p.len()) ==> match unit_of(buffer).unknown_addresses {
                Some(v) => {
                    &&& e + 1 + v.len() <= p.len()
                    &&& forall|j: int|
                        0 <= j < v.len() ==> starts_with(#[trigger] p[e + 1 + j], "0x"@) && v[j]
                            == address_of(p[e + 1 + j])
                    &&& e + 1 + v.len() < p.len() ==> !starts_with(p[e + 1 + v.len()], "0x"@)
                },
                None => e + 1 >= p.len() || !starts_with(p[e + 1], "0x"@),
            }
        }),
{
    let p = unit_pieces(buffer);
    let (s1, e1, s2, e2, s3) = unit_phases(p);
    lemma_hex_run_end(p, s1);
    lemma_hex_run_end(p, s2);
    let unknown = addresses_of(p.subrange(s2, e2));
    let u = UnitView {
        addresses: addresses_of(p.subrange(s1, e1)),
        unknown_addresses: if unknown.len() > 0 {
            Some(unknown)
        } else {
            None
        },
        ..unit_header(p[0])
    };
    lemma_unit_sizes_keep(u, p.subrange(s3, p.len() as int));
    let a = unit_of(buffer).addresses;
    assert(a == addresses_of(p.subrange(s1, e1)));
    assert(a.len() == e1 - s1);
    assert forall|j: int| 0 <= j < a.len() implies a[j] == address_of(p[s1 + j]) by {
        assert(p.subrange(s1, e1)[j] == p[s1 + j]);
    }
    assert forall|j: int| 0 <= j < unknown.len() implies unknown[j] == address_of(p[s2 + j]) by {
        assert(p.subrange(s2, e2)[j] == p[s2 + j]);
    }
}

} // verus!
