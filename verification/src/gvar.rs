//! Global and static variable blocks (`var name: type`, its `source`,
//! `size` and whether it is a `declaration`).
use vstd::prelude::*;
use crate::support::{source_location, source_location_of, u32_value, u32_value_of};
use crate::text::{
    chars_of, drop_char, drop_char_chars, drop_text, drop_text_chars, has_key_line, is_text,
    last_value, line_key, lines, lines_of,
    split_once, split_once_chars, string_of, texts, trim, trim_chars,
};

verus! {

#[derive(Debug)]
pub struct GlobalVarData {
    pub g_var_name: String,
    pub g_var_type: String,
    pub g_var_full_file_path: String,
    pub g_var_line_num: u32,
    pub g_var_line_col: u32,
    pub g_var_size: u32,
    pub g_var_decl: bool,
}

pub struct GlobalVarView {
    pub g_var_name: Seq<char>,
    pub g_var_type: Seq<char>,
    pub g_var_full_file_path: Seq<char>,
    pub g_var_line_num: u32,
    pub g_var_line_col: u32,
    pub g_var_size: u32,
    pub g_var_decl: bool,
}

impl View for GlobalVarData {
    type V = GlobalVarView;

    open spec fn view(&self) -> GlobalVarView {
        GlobalVarView {
            g_var_name: self.g_var_name@,
            g_var_type: self.g_var_type@,
            g_var_full_file_path: self.g_var_full_file_path@,
            g_var_line_num: self.g_var_line_num,
            g_var_line_col: self.g_var_line_col,
            g_var_size: self.g_var_size,
            g_var_decl: self.g_var_decl,
        }
    }
}

pub open spec fn empty_gvar() -> GlobalVarView {
    GlobalVarView {
        g_var_name: Seq::empty(),
        g_var_type: Seq::empty(),
        g_var_full_file_path: Seq::empty(),
        g_var_line_num: 0,
        g_var_line_col: 0,
        g_var_size: 0,
        g_var_decl: false,
    }
}

impl Default for GlobalVarData {
    fn default() -> (r: Self)
        ensures
            r@ == empty_gvar(),
    {
        GlobalVarData {
            g_var_name: String::new(),
            g_var_type: String::new(),
            g_var_full_file_path: String::new(),
            g_var_line_num: 0,
            g_var_line_col: 0,
            g_var_size: 0,
            g_var_decl: false,
        }
    }
}

/// What line `idx` of a variable block does to the record: the first line
/// `var name: type` gives the name (every `"var "` removed) and the type;
/// later lines set the location, the size, or mark a declaration.
pub open spec fn gvar_line(d: GlobalVarView, idx: int, line: Seq<char>) -> GlobalVarView {
    if idx == 0 {
        match split_once(line, ':') {
            Some((k, v)) => GlobalVarView {
                g_var_name: drop_text(k, "var "@),
                g_var_type: trim(v),
                ..d
            },
            None => GlobalVarView {
                g_var_name: "Error: failed to global/static variable"@,
                ..d
            },
        }
    } else {
        match split_once(drop_char(line, '\t'), ':') {
            Some((k, v)) => if k == "source"@ {
                match source_location(v) {
                    Some(loc) => {
                        let d2 = match loc {
                            (Some(l), Some(c)) => GlobalVarView {
                                g_var_line_num: l,
                                g_var_line_col: c,
                                ..d
                            },
                            _ => d,
                        };
                        GlobalVarView { g_var_full_file_path: trim(v), ..d2 }
                    },
                    None => d,
                }
            } else if k == "declaration"@ {
                GlobalVarView { g_var_decl: true, ..d }
            } else if k == "size"@ {
                GlobalVarView { g_var_size: u32_value(v), ..d }
            } else {
                d
            },
            None => d,
        }
    }
}

pub open spec fn gvar_upto(ls: Seq<Seq<char>>, n: int) -> GlobalVarView
    decreases n,
{
    if n <= 0 {
        empty_gvar()
    } else {
        gvar_line(gvar_upto(ls, n - 1), n - 1, ls[n - 1])
    }
}

/// The variable that a block describes.
pub open spec fn gvar_data(buffer: Seq<char>) -> GlobalVarView {
    gvar_upto(lines(buffer), lines(buffer).len() as int)
}

fn gvar_step(d: &mut GlobalVarData, idx: usize, line: &[char])
    ensures
        final(d)@ == gvar_line(old(d)@, idx as int, line@),
{
    if idx == 0 {
        match split_once_chars(line, ':') {
            Some((k, v)) => {
                let pat = chars_of("var ");
                proof {
                    reveal_strlit("var ");
                }
                d.g_var_name = string_of(drop_text_chars(k.as_slice(), pat.as_slice()).as_slice());
                d.g_var_type = string_of(trim_chars(v.as_slice()).as_slice());
            },
            None => {
                d.g_var_name = string_of(
                    chars_of("Error: failed to global/static variable").as_slice(),
                );
            },
        }
        return ;
    }
    let clean = drop_char_chars(line, '\t');
    match split_once_chars(clean.as_slice(), ':') {
        Some((k, v)) => {
            if is_text(k.as_slice(), "source") {
                match source_location_of(v.as_slice()) {
                    Some(loc) => {
                        match loc {
                            (Some(l), Some(c)) => {
                                d.g_var_line_num = l;
                                d.g_var_line_col = c;
                            },
                            _ => {},
                        }
                        d.g_var_full_file_path = string_of(trim_chars(v.as_slice()).as_slice());
                    },
                    None => {},
                }
            } else if is_text(k.as_slice(), "declaration") {
                d.g_var_decl = true;
            } else if is_text(k.as_slice(), "size") {
                d.g_var_size = u32_value_of(v.as_slice());
            }
        },
        None => {},
    }
}

/// Parses a `var` block of ddbug output.
pub fn parse_g_var_data(buffer: &str) -> (r: GlobalVarData)
    ensures
        r@ == gvar_data(buffer@),
{
    let cs = chars_of(buffer);
    let ls = lines_of(cs.as_slice());
    let ghost sl = lines(cs@);
    let mut d = GlobalVarData::default();
    let mut i: usize = 0;
    while i < ls.len()
        invariant
            texts(ls@) == sl,
            i <= ls.len(),
            d@ == gvar_upto(sl, i as int),
        decreases ls.len() - i,
    {
        assert(texts(ls@)[i as int] == ls@[i as int]@);
        gvar_step(&mut d, i, ls[i].as_slice());
        i += 1;
    }
    d
}

proof fn lemma_gvar_upto_decl(ls: Seq<Seq<char>>, n: int)
    requires
        0 <= n <= ls.len(),
    ensures
        gvar_upto(ls, n).g_var_decl <==> exists|i: int|
            1 <= i < n && line_key(#[trigger] ls[i]) == Some("declaration"@),
    decreases n,
{
    if n > 0 {
        lemma_gvar_upto_decl(ls, n - 1);
        reveal_strlit("declaration");
        reveal_strlit("source");
        reveal_strlit("size");
        assert("source"@.len() == 6 && "size"@.len() == 4 && "declaration"@.len() == 11);
        let d = gvar_upto(ls, n - 1);
        let r = gvar_upto(ls, n);
        if n - 1 >= 1 && line_key(ls[n - 1]) == Some("declaration"@) {
            assert(r.g_var_decl);
        } else {
            assert(r.g_var_decl == d.g_var_decl);
            if exists|i: int| 1 <= i < n && line_key(#[trigger] ls[i]) == Some("declaration"@) {
                let i = choose|i: int| 1 <= i < n && line_key(#[trigger] ls[i]) == Some("declaration"@);
                assert(i < n - 1);
            }
        }
    }
}

/// A variable is a declaration exactly where a line after the first has
/// the key `declaration`; no other line (its `source` among them) makes it
/// one.
pub proof fn lemma_gvar_declaration(buffer: Seq<char>)
    ensures
        gvar_data(buffer).g_var_decl <==> has_key_line(buffer, "declaration"@),
{
    lemma_gvar_upto_decl(lines(buffer), lines(buffer).len() as int);
}

proof fn lemma_gvar_upto_size(ls: Seq<Seq<char>>, n: int)
    requires
        0 <= n <= ls.len(),
    ensures
        gvar_upto(ls, n).g_var_size == (match last_value(ls, n, "size"@) {
            Some(v) => u32_value(v),
            None => 0,
        }),
    decreases n,
{
    if n > 0 {
        lemma_gvar_upto_size(ls, n - 1);
        reveal_strlit("declaration");
        reveal_strlit("source");
        reveal_strlit("size");
        assert("source"@.len() == 6 && "size"@.len() == 4 && "declaration"@.len() == 11);
    }
}

/// The size of a variable is the number on the last `size` line after the
/// first line, and 0 where there is none.
pub proof fn lemma_gvar_size(buffer: Seq<char>)
    ensures
        gvar_data(buffer).g_var_size == (match last_value(
            lines(buffer),
            lines(buffer).len() as int,
            "size"@,
        ) {
            Some(v) => u32_value(v),
            None => 0,
        }),
{
    lemma_gvar_upto_size(lines(buffer), lines(buffer).len() as int);
}

proof fn lemma_gvar_upto_heading(ls: Seq<Seq<char>>, n: int)
    requires
        1 <= n,
    ensures
        gvar_upto(ls, n).g_var_name == gvar_upto(ls, 1).g_var_name,
        gvar_upto(ls, n).g_var_type == gvar_upto(ls, 1).g_var_type,
    decreases n,
{
    if n > 1 {
        lemma_gvar_upto_heading(ls, n - 1);
    }
}

/// The name and type of a variable come from its first line `var name:
/// type` alone: the name is the text before the first `':'` with every
/// `"var "` removed, the type all of the trimmed text after it.
pub proof fn lemma_gvar_heading(buffer: Seq<char>)
    requires
        lines(buffer).len() > 0,
    ensures
        ({
            let d = gvar_data(buffer);
            match split_once(lines(buffer)[0], ':') {
                Some((k, v)) => d.g_var_name == drop_text(k, "var "@) && d.g_var_type == trim(v),
                None => d.g_var_name == "Error: failed to global/static variable"@
                    && d.g_var_type == Seq::<char>::empty(),
            }
        }),
{
    let ls = lines(buffer);
    lemma_gvar_upto_heading(ls, ls.len() as int);
    assert(gvar_upto(ls, 0) == empty_gvar());
}

} // verus!
