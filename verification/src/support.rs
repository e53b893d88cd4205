//! Numbers, address ranges and `path:line:column` locations in ddbug text.
use vstd::prelude::*;
use crate::text::{
    ascii_white_pred, lemma_lead_run_unique, lemma_split_pieces, lemma_trail_run_unique, word_pred,
    chars_of, ends_with, nth_word, same, slice_of, split_by, split_chars,
    string_of, texts, trim, is_white, trim_chars, trim_end, trim_end_chars, words, words_of,
};

verus! {

// ---------------------------------------------------------------------
// Decimal numbers
// ---------------------------------------------------------------------

pub open spec fn is_digit(c: char) -> bool {
    '0' <= c && c <= '9'
}

pub open spec fn digit_of(c: char) -> int {
    c as int - '0' as int
}

pub open spec fn all_digits(s: Seq<char>) -> bool {
    forall|i: int| 0 <= i < s.len() ==> is_digit(#[trigger] s[i])
}

/// The value of a string of decimal digits.
pub open spec fn decimal(s: Seq<char>) -> int
    decreases s.len(),
{
    if s.len() == 0 {
        0
    } else {
        10 * decimal(s.drop_last()) + digit_of(s.last())
    }
}

/// `u32::from_str`: an optional `'+'`, then one or more ASCII digits whose
/// value fits in a `u32`.
pub open spec fn parse_u32(s: Seq<char>) -> Option<u32> {
    let d = if s.len() > 0 && s[0] == '+' {
        s.drop_first()
    } else {
        s
    };
    if d.len() > 0 && all_digits(d) && decimal(d) <= u32::MAX {
        Some(decimal(d) as u32)
    } else {
        None
    }
}

/// `i32::from_str`: an optional `'+'` or `'-'`, then one or more ASCII
/// digits whose signed value fits in an `i32`.
pub open spec fn parse_i32(s: Seq<char>) -> Option<i32> {
    let signed = s.len() > 0 && (s[0] == '+' || s[0] == '-');
    let d = if signed {
        s.drop_first()
    } else {
        s
    };
    let v = if s.len() > 0 && s[0] == '-' {
        -decimal(d)
    } else {
        decimal(d)
    };
    if d.len() > 0 && all_digits(d) && i32::MIN <= v <= i32::MAX {
        Some(v as i32)
    } else {
        None
    }
}

/// The number a field value stands for: the trimmed text read as a `u32`,
/// or 0xFD where it is not one.
pub open spec fn u32_value(s: Seq<char>) -> u32 {
    match parse_u32(trim(s)) {
        Some(v) => v,
        None => 0xFD,
    }
}

/// The signed counterpart of `u32_value`; 0xFF where there is no text.
pub open spec fn i32_value(s: Option<Seq<char>>) -> i32 {
    match s {
        Some(t) => match parse_i32(trim(t)) {
            Some(v) => v,
            None => 0xFD,
        },
        None => 0xFF,
    }
}

proof fn lemma_decimal_nonneg(s: Seq<char>)
    requires
        all_digits(s),
    ensures
        decimal(s) >= 0,
    decreases s.len(),
{
    if s.len() > 0 {
        assert(all_digits(s.drop_last())) by {
            assert forall|i: int| 0 <= i < s.drop_last().len() implies is_digit(
                #[trigger] s.drop_last()[i],
            ) by {
                assert(s.drop_last()[i] == s[i]);
            }
        }
        lemma_decimal_nonneg(s.drop_last());
        assert(is_digit(s[s.len() - 1]));
    }
}

/// Appending digits never makes the value smaller.
proof fn lemma_decimal_prefix(s: Seq<char>, k: int)
    requires
        all_digits(s),
        0 <= k <= s.len(),
    ensures
        decimal(s.take(k)) <= decimal(s),
    decreases s.len(),
{
    if k < s.len() {
        let t = s.drop_last();
        assert(all_digits(t)) by {
            assert forall|i: int| 0 <= i < t.len() implies is_digit(#[trigger] t[i]) by {
                assert(t[i] == s[i]);
            }
        }
        lemma_decimal_prefix(t, k);
        assert(t.take(k) =~= s.take(k));
        lemma_decimal_nonneg(t);
        assert(is_digit(s[s.len() - 1]));
    } else {
        assert(s.take(k) =~= s);
    }
}

/// The value of the digits `d`, where they are all digits and their value
/// is at most `limit`.
fn digits_value(d: &[char], limit: u64) -> (r: Option<u64>)
    requires
        limit <= u32::MAX + 1,
    ensures
        match r {
            Some(v) => d@.len() > 0 && all_digits(d@) && decimal(d@) <= limit && v == decimal(d@),
            None => !(d@.len() > 0 && all_digits(d@) && decimal(d@) <= limit),
        },
{
    if d.len() == 0 {
        return None;
    }
    let mut acc: u64 = 0;
    let mut i: usize = 0;
    while i < d.len()
        invariant
            limit <= u32::MAX + 1,
            i <= d.len(),
            forall|j: int| 0 <= j < i ==> is_digit(#[trigger] d@[j]),
            acc == decimal(d@.take(i as int)),
            acc <= limit,
        decreases d.len() - i,
    {
        let c = d[i];
        if !('0' <= c && c <= '9') {
            return None;
        }
        assert(d@.take(i + 1).drop_last() =~= d@.take(i as int));
        let dv = (c as u32 - '0' as u32) as u64;
        let next = acc * 10 + dv;
        if next > limit {
            proof {
                assert forall|j: int| 0 <= j < i + 1 implies is_digit(#[trigger] d@[j]) by {}
                if all_digits(d@) {
                    lemma_decimal_prefix(d@, i + 1);
                }
            }
            return None;
        }
        acc = next;
        i += 1;
    }
    assert(d@.take(i as int) =~= d@);
    Some(acc)
}

/// `u32::from_str`.
pub fn parse_u32_chars(s: &[char]) -> (r: Option<u32>)
    ensures
        r == parse_u32(s@),
{
    let d = if s.len() > 0 && s[0] == '+' {
        slice_of(s, 1, s.len())
    } else {
        slice_of(s, 0, s.len())
    };
    assert(s.len() > 0 && s@[0] == '+' ==> d@ =~= s@.drop_first());
    assert(!(s.len() > 0 && s@[0] == '+') ==> d@ =~= s@);
    match digits_value(d.as_slice(), 0xFFFF_FFFF) {
        Some(v) => Some(v as u32),
        None => None,
    }
}

/// `i32::from_str`.
pub fn parse_i32_chars(s: &[char]) -> (r: Option<i32>)
    ensures
        r == parse_i32(s@),
{
    let signed = s.len() > 0 && (s[0] == '+' || s[0] == '-');
    let neg = s.len() > 0 && s[0] == '-';
    let d = if signed {
        slice_of(s, 1, s.len())
    } else {
        slice_of(s, 0, s.len())
    };
    assert(signed ==> d@ =~= s@.drop_first());
    assert(!signed ==> d@ =~= s@);
    let limit: u64 = if neg {
        0x8000_0000
    } else {
        0x7FFF_FFFF
    };
    match digits_value(d.as_slice(), limit) {
        Some(v) => {
            if neg {
                Some((0 - (v as i64)) as i32)
            } else {
                Some(v as i32)
            }
        },
        None => {
            proof {
                if d@.len() > 0 && all_digits(d@) {
                    lemma_decimal_nonneg(d@);
                }
            }
            None
        },
    }
}

/// The number that the (trimmed) field text stands for, or 0xFD.
pub fn u32_value_of(s: &[char]) -> (r: u32)
    ensures
        r == u32_value(s@),
{
    let t = trim_chars(s);
    match parse_u32_chars(t.as_slice()) {
        Some(v) => v,
        None => 0xFD,
    }
}

/// The signed number that the (trimmed) field text stands for, or 0xFD.
pub fn i32_value_of(s: &[char]) -> (r: i32)
    ensures
        r == i32_value(Some(s@)),
{
    let t = trim_chars(s);
    match parse_i32_chars(t.as_slice()) {
        Some(v) => v,
        None => 0xFD,
    }
}

/// Reads a field value as a `u32`: surrounding whitespace is ignored, and
/// text that is not a `u32` gives 0xFD.
pub fn value_to_u32(input: &str) -> (r: u32)
    ensures
        r == u32_value(input@),
{
    let cs = chars_of(input);
    u32_value_of(cs.as_slice())
}

/// Reads a field value as an `i32`: surrounding whitespace is ignored, text
/// that is not an `i32` gives 0xFD, and no text at all gives 0xFF.
pub fn value_to_i32(input: Option<&str>) -> (r: i32)
    ensures
        r == i32_value(
            match input {
                Some(s) => Some(s@),
                None => None,
            },
        ),
{
    match input {
        Some(s) => {
            let cs = chars_of(s);
            i32_value_of(cs.as_slice())
        },
        None => 0xFF,
    }
}


// ---------------------------------------------------------------------
// Address ranges
// ---------------------------------------------------------------------

/// An address range such as `0x3cc-0x5c1 (502)`.
#[derive(Debug)]
pub struct AddressData {
    pub start_address: String,
    pub end_address: String,
    pub total_size: u32,
}

pub struct AddressView {
    pub start_address: Seq<char>,
    pub end_address: Seq<char>,
    pub total_size: u32,
}

impl View for AddressData {
    type V = AddressView;

    open spec fn view(&self) -> AddressView {
        AddressView {
            start_address: self.start_address@,
            end_address: self.end_address@,
            total_size: self.total_size,
        }
    }
}

pub open spec fn empty_address() -> AddressView {
    AddressView { start_address: Seq::empty(), end_address: Seq::empty(), total_size: 0 }
}

impl Default for AddressData {
    fn default() -> (r: Self)
        ensures
            r@ == empty_address(),
    {
        AddressData { start_address: String::new(), end_address: String::new(), total_size: 0 }
    }
}

/// A function's return type and its size.
#[derive(Debug)]
pub struct ReturnType {
    pub return_type: String,
    pub return_size: u32,
}

pub struct ReturnTypeView {
    pub return_type: Seq<char>,
    pub return_size: u32,
}

impl View for ReturnType {
    type V = ReturnTypeView;

    open spec fn view(&self) -> ReturnTypeView {
        ReturnTypeView { return_type: self.return_type@, return_size: self.return_size }
    }
}

/// The two ends of `start-end`: the trimmed text before the first `'-'`,
/// and the trimmed text between the first and any second `'-'`, or
/// `"Invalid"` where there is no `'-'`.
pub open spec fn address_range(s: Seq<char>) -> (Seq<char>, Seq<char>) {
    let p = split_by(s, '-', '-');
    (trim(p[0]), if p.len() > 1 { trim(p[1]) } else { "Invalid"@ })
}

pub fn address_range_of(s: &[char]) -> (r: (Vec<char>, Vec<char>))
    ensures
        (r.0@, r.1@) == address_range(s@),
{
    let p = split_chars(s, '-', '-');
    assert(texts(p@).len() == p@.len());
    let start = trim_chars(p[0].as_slice());
    assert(p@[0]@ == split_by(s@, '-', '-')[0]);
    let end = if p.len() > 1 {
        assert(p@[1]@ == split_by(s@, '-', '-')[1]);
        trim_chars(p[1].as_slice())
    } else {
        chars_of("Invalid")
    };
    (start, end)
}

/// Splits an address range like `0x13dc-0x1657` into its start and end.
pub fn parse_address_range(input: &String) -> (r: (String, String))
    ensures
        (r.0@, r.1@) == address_range(input@),
{
    let cs = chars_of(input.as_str());
    let (a, b) = address_range_of(cs.as_slice());
    (string_of(a.as_slice()), string_of(b.as_slice()))
}

/// A line that reads as an address range with its size: its second word is
/// `(size)`, and the piece between its first and any second `'-'` ends with
/// that word.
pub open spec fn address_ok(s: Seq<char>) -> bool {
    let p = split_by(s, '-', '-');
    match nth_word(s, 1) {
        Some(w) => {
            &&& w.len() >= 2
            &&& w[0] == '('
            &&& w.last() == ')'
            &&& p.len() >= 2
            &&& ends_with(p[1], w)
        },
        None => false,
    }
}

/// A line reads as an address range exactly where its second word is
/// `(` and `)` around something, the line holds a `'-'`, and the piece
/// after the first `'-'` ends with that word.
pub proof fn lemma_address_ok_iff(s: Seq<char>)
    ensures
        address_ok(s) <==> (nth_word(s, 1) matches Some(w) && w.len() >= 2 && w[0] == '('
            && w.last() == ')' && (exists|i: int| 0 <= i < s.len() && s[i] == '-') && ends_with(
            split_by(s, '-', '-')[1],
            w,
        )),
{
    lemma_split_pieces(s, '-');
}

/// The address range of such a line: the text before the first `'-'`, the
/// following piece without the size word and trailing whitespace, and the
/// size (0 where it is not a `u32`).
pub open spec fn address_of(s: Seq<char>) -> AddressView {
    let w = words(s)[1];
    let p = split_by(s, '-', '-');
    AddressView {
        start_address: p[0],
        end_address: trim_end(p[1].take(p[1].len() - w.len())),
        total_size: match parse_u32(w.subrange(1, w.len() - 1)) {
            Some(v) => v,
            None => 0,
        },
    }
}

/// The address range of a line, where the line reads as one.
pub fn address_from(s: &[char]) -> (r: Option<AddressData>)
    ensures
        r is Some <==> address_ok(s@),
        r matches Some(a) ==> a@ == address_of(s@),
{
    let ws = words_of(s);
    assert(texts(ws@).len() == ws@.len());
    if ws.len() < 2 {
        return None;
    }
    let w = &ws[1];
    assert(w@ == words(s@)[1]);
    if w.len() < 2 || w[0] != '(' || w[w.len() - 1] != ')' {
        return None;
    }
    let p = split_chars(s, '-', '-');
    assert(texts(p@).len() == p@.len());
    if p.len() < 2 {
        return None;
    }
    let second = &p[1];
    assert(second@ == split_by(s@, '-', '-')[1]);
    if w.len() > second.len() {
        return None;
    }
    let cut = second.len() - w.len();
    let tail = slice_of(second.as_slice(), cut, second.len());
    if !same(tail.as_slice(), w.as_slice()) {
        return None;
    }
    let inner = slice_of(w.as_slice(), 1, w.len() - 1);
    let total_size = match parse_u32_chars(inner.as_slice()) {
        Some(v) => v,
        None => 0,
    };
    let start = &p[0];
    assert(start@ == split_by(s@, '-', '-')[0]);
    let head = slice_of(second.as_slice(), 0, cut);
    assert(head@ =~= second@.take(cut as int));
    let end = trim_end_chars(head.as_slice());
    Some(
        AddressData {
            start_address: string_of(start.as_slice()),
            end_address: string_of(end.as_slice()),
            total_size,
        },
    )
}

/// Parses an address range with its size, like `0x3cc-0x5c1 (502)`.
pub fn parse_address(input_buffer: &str) -> (r: AddressData)
    requires
        address_ok(input_buffer@),
    ensures
        r@ == address_of(input_buffer@),
{
    let cs = chars_of(input_buffer);
    match address_from(cs.as_slice()) {
        Some(a) => a,
        None => {
            assert(false);
            AddressData::default()
        },
    }
}

/// The range `s..e`.
pub fn return_range(s: usize, e: usize) -> (r: core::ops::Range<usize>)
    ensures
        r.start == s,
        r.end == e,
{
    core::ops::Range { start: s, end: e }
}

// ---------------------------------------------------------------------
// Source locations
// ---------------------------------------------------------------------

/// Line and column of a `name:line:column` file name: the value of the
/// second `':'`-separated piece, and the value of the last piece where
/// there are three or more.
pub open spec fn location(s: Seq<char>) -> (Option<u32>, Option<u32>) {
    let p = split_by(trim(s), ':', ':');
    (
        if p.len() > 1 { Some(u32_value(p[1])) } else { None },
        if p.len() > 2 { Some(u32_value(p.last())) } else { None },
    )
}

pub fn location_of(s: &[char]) -> (r: (Option<u32>, Option<u32>))
    ensures
        r == location(s@),
{
    let t = trim_chars(s);
    let p = split_chars(t.as_slice(), ':', ':');
    assert(texts(p@).len() == p@.len());
    let row = if p.len() > 1 {
        assert(p@[1]@ == split_by(t@, ':', ':')[1]);
        Some(u32_value_of(p[1].as_slice()))
    } else {
        None
    };
    let column = if p.len() > 2 {
        assert(p@[p.len() - 1]@ == split_by(t@, ':', ':').last());
        Some(u32_value_of(p[p.len() - 1].as_slice()))
    } else {
        None
    };
    (row, column)
}

/// Line and column of a file name such as `main.c:12:3`.
pub fn get_line_number_and_column(input: &str) -> (r: (Option<u32>, Option<u32>))
    ensures
        r == location(input@),
{
    let cs = chars_of(input);
    location_of(cs.as_slice())
}

/// The last component of `/`-separated pieces that is neither empty nor `.`.
pub open spec fn last_component(ps: Seq<Seq<char>>) -> Option<Seq<char>>
    decreases ps.len(),
{
    if ps.len() == 0 {
        None
    } else if ps.last().len() == 0 || ps.last() == seq!['.'] {
        last_component(ps.drop_last())
    } else {
        Some(ps.last())
    }
}

/// `Path::file_name` on a Unix path: its final component, or none where
/// the path has none or ends in `..`.
pub open spec fn file_name(path: Seq<char>) -> Option<Seq<char>> {
    match last_component(split_by(path, '/', '/')) {
        Some(c) => if c == seq!['.', '.'] {
            None
        } else {
            Some(c)
        },
        None => None,
    }
}

/// `Path::file_name` on a Unix path.
pub fn file_name_of(path: &[char]) -> (r: Option<Vec<char>>)
    ensures
        match r {
            Some(n) => file_name(path@) == Some(n@),
            None => file_name(path@) is None,
        },
{
    let p = split_chars(path, '/', '/');
    let ghost ps = split_by(path@, '/', '/');
    assert(texts(p@).len() == p@.len());
    let mut i = p.len();
    assert(ps.take(i as int) =~= ps);
    while i > 0 && (p[i - 1].len() == 0 || (p[i - 1].len() == 1 && p[i - 1][0] == '.'))
        invariant
            i <= p.len(),
            texts(p@) == ps,
            last_component(ps.take(i as int)) == last_component(ps),
        decreases i,
    {
        proof {
            let q = ps.take(i as int);
            assert(q.last() == p@[i - 1]@);
            assert(q.drop_last() =~= ps.take(i - 1));
            if p@[i - 1]@.len() == 1 {
                assert(p@[i - 1]@ =~= seq!['.']);
            }
        }
        i -= 1;
    }
    if i == 0 {
        assert(ps.take(0) =~= Seq::<Seq<char>>::empty());
        return None;
    }
    let c = &p[i - 1];
    proof {
        let q = ps.take(i as int);
        assert(q.last() == c@);
        assert(c@ != seq!['.']) by {
            if c@ == seq!['.'] {
                assert(c@.len() == 1 && c@[0] == '.');
            }
        }
        assert(last_component(q) == Some(c@));
    }
    if c.len() == 2 && c[0] == '.' && c[1] == '.' {
        assert(c@ =~= seq!['.', '.']);
        None
    } else {
        assert(c@ != seq!['.', '.']) by {
            if c@ == seq!['.', '.'] {
                assert(c@.len() == 2 && c@[0] == '.' && c@[1] == '.');
            }
        }
        Some(slice_of(c.as_slice(), 0, c.len()))
    }
}

/// What a `source:` value tells: nothing where the path has no file name,
/// else the line and column read from that file name.
pub open spec fn source_location(value: Seq<char>) -> Option<(Option<u32>, Option<u32>)> {
    match file_name(value) {
        Some(f) => Some(location(f)),
        None => None,
    }
}

pub fn source_location_of(value: &[char]) -> (r: Option<(Option<u32>, Option<u32>)>)
    ensures
        r == source_location(value@),
{
    match file_name_of(value) {
        Some(f) => Some(location_of(f.as_slice())),
        None => None,
    }
}

/// The decimal digit `d` as a character.
pub open spec fn digit_char(d: int) -> char {
    (d + '0' as int) as char
}

/// The decimal text of `n`, without leading zeros (as `u32`'s `Display`
/// writes it).
pub open spec fn decimal_text(n: nat) -> Seq<char>
    decreases n,
{
    if n < 10 {
        seq![digit_char(n as int)]
    } else {
        decimal_text(n / 10).push(digit_char((n % 10) as int))
    }
}

proof fn lemma_digit_char(d: int)
    requires
        0 <= d <= 9,
    ensures
        is_digit(digit_char(d)),
        digit_of(digit_char(d)) == d,
        !is_white(digit_char(d)),
        digit_char(d) != '-',
        digit_char(d) != '+',
        digit_char(d) != '(',
        digit_char(d) != ')',
{
    assert((d + '0' as int) as char as int == d + 48);
}

proof fn lemma_decimal_text(n: nat)
    ensures
        decimal_text(n).len() > 0,
        all_digits(decimal_text(n)),
        decimal(decimal_text(n)) == n,
        forall|i: int|
            0 <= i < decimal_text(n).len() ==> !is_white(#[trigger] decimal_text(n)[i])
                && decimal_text(n)[i] != '-' && decimal_text(n)[i] != '+' && decimal_text(n)[i]
                != '(' && decimal_text(n)[i] != ')',
    decreases n,
{
    if n < 10 {
        lemma_digit_char(n as int);
        let t = decimal_text(n);
        assert(t.drop_last() =~= Seq::<char>::empty());
        assert(decimal(Seq::<char>::empty()) == 0);
        assert(decimal(t) == 10 * decimal(t.drop_last()) + digit_of(t.last()));
        assert(all_digits(t));
    } else {
        lemma_decimal_text(n / 10);
        lemma_digit_char((n % 10) as int);
        let t = decimal_text(n);
        assert(t.drop_last() =~= decimal_text(n / 10));
        assert(t.last() == digit_char((n % 10) as int));
        assert(10 * (n / 10) + n % 10 == n) by (nonlinear_arith);
        assert(decimal(t) == 10 * decimal(decimal_text(n / 10)) + digit_of(t.last()));
        assert(digit_of(t.last()) == n % 10);
        assert(decimal(decimal_text(n / 10)) == n / 10);
        assert forall|i: int| 0 <= i < t.len() implies is_digit(#[trigger] t[i]) && !is_white(t[i])
            && t[i] != '-' && t[i] != '+' && t[i] != '(' && t[i] != ')' by {
            if i < t.len() - 1 {
                assert(t[i] == decimal_text(n / 10)[i]);
            }
        }
    }
}

/// A `u32` written in decimal reads back as itself.
pub proof fn lemma_parse_decimal_text(n: u32)
    ensures
        parse_u32(decimal_text(n as nat)) == Some(n),
{
    lemma_decimal_text(n as nat);
}

/// An address range written as `start-end (size)` reads back as that start,
/// end and size, where start and end are non-empty and hold no whitespace
/// and no `'-'`.
#[verifier::spinoff_prover]
#[verifier::rlimit(40)]
pub proof fn lemma_address_round_trip(s: Seq<char>, e: Seq<char>, n: u32)
    requires
        s.len() > 0,
        e.len() > 0,
        forall|i: int| 0 <= i < s.len() ==> !is_white(#[trigger] s[i]) && s[i] != '-',
        forall|i: int| 0 <= i < e.len() ==> !is_white(#[trigger] e[i]) && e[i] != '-',
    ensures
        ({
            let t = s + seq!['-'] + e + seq![' ', '('] + decimal_text(n as nat) + seq![')'];
            &&& address_ok(t)
            &&& address_of(t) == (AddressView { start_address: s, end_address: e, total_size: n })
        }),
{
    let d = decimal_text(n as nat);
    lemma_decimal_text(n as nat);
    let w = seq!['('] + d + seq![')'];
    let u = e + seq![' '] + w;
    let head = s + seq!['-'] + e;
    let t = s + seq!['-'] + e + seq![' ', '('] + d + seq![')'];
    assert(t =~= s + seq!['-'] + u);
    assert(t =~= head + seq![' '] + w);
    // Its words: `start-end`, then `(size)`.
    let aw = ascii_white_pred();
    let wp = word_pred();
    assert forall|j: int| 0 <= j < head.len() implies #[trigger] wp(t[j]) by {
        if j < s.len() {
            assert(t[j] == s[j]);
        } else if j > s.len() {
            assert(t[j] == e[j - s.len() - 1]);
        }
    }
    assert(t[head.len() as int] == ' ');
    lemma_lead_run_unique(t, aw, 0);
    assert(t.skip(0) =~= t);
    lemma_lead_run_unique(t, wp, head.len() as int);
    assert(t.take(head.len() as int) =~= head);
    let r1 = t.skip(head.len() as int);
    assert(r1 =~= seq![' '] + w);
    assert(r1[1] == '(');
    lemma_lead_run_unique(r1, aw, 1);
    let r2 = r1.skip(1);
    assert(r2 =~= w);
    assert forall|j: int| 0 <= j < w.len() implies #[trigger] wp(w[j]) by {
        if 0 < j < w.len() - 1 {
            assert(w[j] == d[j - 1]);
        }
    }
    lemma_lead_run_unique(w, wp, w.len() as int);
    assert(w.take(w.len() as int) =~= w);
    assert(w.skip(w.len() as int) =~= Seq::<char>::empty());
    lemma_lead_run_unique(Seq::<char>::empty(), aw, 0);
    assert(words(Seq::<char>::empty()) =~= Seq::<Seq<char>>::empty());
    assert(words(r2) =~= seq![w]);
    assert(words(r1) =~= seq![w]);
    assert(words(t) =~= seq![head, w]);
    assert(nth_word(t, 1) == Some(w));
    // Its pieces between `'-'`: the start, then the rest.
    let ns = crate::text::non_sep('-', '-');
    assert forall|j: int| 0 <= j < s.len() implies #[trigger] ns(t[j]) by {
        assert(t[j] == s[j]);
    }
    assert(t[s.len() as int] == '-');
    lemma_lead_run_unique(t, ns, s.len() as int);
    assert(t.take(s.len() as int) =~= s);
    assert(t.skip(s.len() + 1int) =~= u);
    assert forall|j: int| 0 <= j < u.len() implies #[trigger] ns(u[j]) by {
        if j < e.len() {
            assert(u[j] == e[j]);
        } else if e.len() + 1 < j < u.len() - 1 {
            assert(u[j] == d[j - e.len() - 2]);
        }
    }
    lemma_lead_run_unique(u, ns, u.len() as int);
    assert(split_by(u, '-', '-') == seq![u]);
    assert(split_by(t, '-', '-') =~= seq![s, u]);
    // The piece after `'-'` ends with the size word.
    assert(u.subrange(u.len() - w.len(), u.len() as int) =~= w);
    assert(ends_with(u, w));
    // The end, without the size word and trailing whitespace.
    let ue = u.take(u.len() - w.len());
    assert(ue =~= e.push(' '));
    let wh = crate::text::white_pred();
    assert(!wh(ue[e.len() - 1])) by {
        assert(ue[e.len() - 1] == e[e.len() - 1]);
    }
    lemma_trail_run_unique(ue, wh, 1);
    assert(trim_end(ue) =~= e);
    // The size.
    assert(w.subrange(1, w.len() - 1) =~= d);
    assert(parse_u32(d) == Some(n));
}

} // verus!
