//! Base type blocks (`base unsigned int` with its `size` and `encoding`).
use vstd::prelude::*;
use crate::support::{u32_value, u32_value_of};
use crate::text::{
    last_value, lemma_lines_append, lemma_single_line, chars_of, drop_char, drop_char_chars, is_text, lines, lines_of, split_once,
    split_once_chars, string_of, texts, trim, trim_chars,
};

verus! {

#[derive(Debug)]
pub struct BaseData {
    pub base_name: String,
    pub base_size: u32,
    pub base_encoding: String,
}

pub struct BaseView {
    pub base_name: Seq<char>,
    pub base_size: u32,
    pub base_encoding: Seq<char>,
}

impl View for BaseData {
    type V = BaseView;

    open spec fn view(&self) -> BaseView {
        BaseView {
            base_name: self.base_name@,
            base_size: self.base_size,
            base_encoding: self.base_encoding@,
        }
    }
}

pub open spec fn empty_base() -> BaseView {
    BaseView { base_name: Seq::empty(), base_size: 0, base_encoding: Seq::empty() }
}

impl Default for BaseData {
    fn default() -> (r: Self)
        ensures
            r@ == empty_base(),
    {
        BaseData { base_name: String::new(), base_size: 0, base_encoding: String::new() }
    }
}

/// What line `idx` of a base type block does to the record: the first line
/// names the type (the text after its first space); later `key: value`
/// lines set the name, the size or the encoding.
pub open spec fn base_line(b: BaseView, idx: int, line: Seq<char>) -> BaseView {
    let clean = drop_char(line, '\t');
    if idx == 0 {
        match split_once(clean, ' ') {
            Some((_, v)) => BaseView { base_name: v, ..b },
            None => BaseView { base_name: "unparsed name"@, ..b },
        }
    } else {
        match split_once(clean, ':') {
            Some((k, v)) => if k == "base"@ {
                BaseView { base_name: trim(v), ..b }
            } else if k == "size"@ {
                BaseView { base_size: u32_value(v), ..b }
            } else if k == "encoding"@ {
                BaseView { base_encoding: trim(v), ..b }
            } else {
                b
            },
            None => b,
        }
    }
}

/// The record after the first `n` lines.
pub open spec fn base_upto(ls: Seq<Seq<char>>, n: int) -> BaseView
    decreases n,
{
    if n <= 0 {
        empty_base()
    } else {
        base_line(base_upto(ls, n - 1), n - 1, ls[n - 1])
    }
}

/// The base type that a block describes.
pub open spec fn base_data(buffer: Seq<char>) -> BaseView {
    base_upto(lines(buffer), lines(buffer).len() as int)
}

fn base_step(d: &mut BaseData, idx: usize, line: &[char])
    ensures
        final(d)@ == base_line(old(d)@, idx as int, line@),
{
    let clean = drop_char_chars(line, '\t');
    if idx == 0 {
        match split_once_chars(clean.as_slice(), ' ') {
            Some((_, v)) => {
                d.base_name = string_of(v.as_slice());
            },
            None => {
                d.base_name = string_of(chars_of("unparsed name").as_slice());
            },
        }
    } else {
        match split_once_chars(clean.as_slice(), ':') {
            Some((k, v)) => {
                if is_text(k.as_slice(), "base") {
                    d.base_name = string_of(trim_chars(v.as_slice()).as_slice());
                } else if is_text(k.as_slice(), "size") {
                    d.base_size = u32_value_of(v.as_slice());
                } else if is_text(k.as_slice(), "encoding") {
                    d.base_encoding = string_of(trim_chars(v.as_slice()).as_slice());
                }
            },
            None => {},
        }
    }
}

/// Parses a `base` block of ddbug output.
pub fn parse_base_data(buffer: &str) -> (r: BaseData)
    ensures
        r@ == base_data(buffer@),
{
    let cs = chars_of(buffer);
    let ls = lines_of(cs.as_slice());
    let ghost sl = lines(cs@);
    let mut d = BaseData::default();
    let mut i: usize = 0;
    while i < ls.len()
        invariant
            texts(ls@) == sl,
            i <= ls.len(),
            d@ == base_upto(sl, i as int),
        decreases ls.len() - i,
    {
        assert(texts(ls@)[i as int] == ls@[i as int]@);
        base_step(&mut d, i, ls[i].as_slice());
        i += 1;
    }
    d
}

/// The record after the first `n` lines depends on those lines only.
proof fn lemma_base_upto_prefix(ls: Seq<Seq<char>>, ms: Seq<Seq<char>>, n: int)
    requires
        0 <= n <= ls.len(),
        n <= ms.len(),
        forall|i: int| 0 <= i < n ==> ls[i] == ms[i],
    ensures
        base_upto(ls, n) == base_upto(ms, n),
    decreases n,
{
    if n > 0 {
        lemma_base_upto_prefix(ls, ms, n - 1);
    }
}

/// A size line added at the end of a base type block sets the size and
/// leaves the name and the encoding as they were.
pub proof fn lemma_base_last_size_line(b: Seq<char>, l: Seq<char>, v: Seq<char>)
    requires
        b.len() > 0,
        b.last() == '\n',
        forall|i: int| 0 <= i < l.len() ==> #[trigger] l[i] != '\n',
        l.len() == 0 || l.last() != '\r',
        split_once(drop_char(l, '\t'), ':') == Some(("size"@, v)),
    ensures
        base_data(b + l.push('\n')) == (BaseView { base_size: u32_value(v), ..base_data(b) }),
{
    lemma_lines_append(b, l.push('\n'));
    lemma_single_line(l);
    let lb = lines(b);
    let ls = lines(b + l.push('\n'));
    assert(ls =~= lb.push(l));
    let n = lb.len() as int;
    lemma_base_upto_prefix(ls, lb, n);
    reveal_strlit("size");
    reveal_strlit("base");
    assert("size"@[0] == 's' && "base"@[0] == 'b');
}

proof fn lemma_base_upto_fields(ls: Seq<Seq<char>>, n: int)
    requires
        0 <= n <= ls.len(),
    ensures
        base_upto(ls, n).base_size == (match last_value(ls, n, "size"@) {
            Some(v) => u32_value(v),
            None => 0,
        }),
        base_upto(ls, n).base_encoding == (match last_value(ls, n, "encoding"@) {
            Some(v) => trim(v),
            None => Seq::<char>::empty(),
        }),
        n >= 1 ==> base_upto(ls, n).base_name == (match last_value(ls, n, "base"@) {
            Some(v) => trim(v),
            None => base_upto(ls, 1).base_name,
        }),
    decreases n,
{
    if n > 0 {
        lemma_base_upto_fields(ls, n - 1);
        reveal_strlit("size");
        reveal_strlit("base");
        reveal_strlit("encoding");
        assert("size"@[0] == 's' && "base"@[0] == 'b' && "encoding"@.len() == 8 && "size"@.len()
            == 4 && "base"@.len() == 4);
    }
}

/// A base type's size is the number on the last `size` line after the first
/// line (0 where there is none), its encoding the trimmed value of the last
/// `encoding` line (empty where there is none), and its name the trimmed
/// value of the last `base` line, or else the text after the first space of
/// its first line.
pub proof fn lemma_base_fields(buffer: Seq<char>)
    requires
        lines(buffer).len() > 0,
    ensures
        ({
            let d = base_data(buffer);
            let ls = lines(buffer);
            let n = ls.len() as int;
            &&& d.base_size == (match last_value(ls, n, "size"@) {
                Some(v) => u32_value(v),
                None => 0,
            })
            &&& d.base_encoding == (match last_value(ls, n, "encoding"@) {
                Some(v) => trim(v),
                None => Seq::<char>::empty(),
            })
            &&& d.base_name == (match last_value(ls, n, "base"@) {
                Some(v) => trim(v),
                None => match split_once(drop_char(ls[0], '\t'), ' ') {
                    Some((_, v)) => v,
                    None => "unparsed name"@,
                },
            })
        }),
{
    let ls = lines(buffer);
    lemma_base_upto_fields(ls, ls.len() as int);
    assert(base_upto(ls, 0) == empty_base());
}

} // verus!
