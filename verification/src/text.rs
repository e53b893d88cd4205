//! Character-level text operations, each specified over `Seq<char>`.
//!
//! The parsers of this crate read the text that ddbug prints with the
//! usual string operations (lines, `split_once`, `trim`, whitespace
//! splitting, substring search, character removal).  Each of them is
//! written here once, as an executable function on `&[char]` whose
//! contract pins its result to a spec function.
use vstd::prelude::*;

verus! {

broadcast use vstd::string::group_string_axioms;

// ---------------------------------------------------------------------
// Character classes
// ---------------------------------------------------------------------

/// Unicode `White_Space`, the class that `char::is_whitespace` and
/// `str::trim` use.
pub open spec fn is_white(c: char) -> bool {
    ||| ('\t' <= c && c <= '\r')
    ||| c == ' '
    ||| c == '\u{85}'
    ||| c == '\u{a0}'
    ||| c == '\u{1680}'
    ||| ('\u{2000}' <= c && c <= '\u{200a}')
    ||| c == '\u{2028}'
    ||| c == '\u{2029}'
    ||| c == '\u{202f}'
    ||| c == '\u{205f}'
    ||| c == '\u{3000}'
}

/// The ASCII whitespace that `str::split_ascii_whitespace` splits on.
pub open spec fn is_ascii_white(c: char) -> bool {
    c == ' ' || c == '\t' || c == '\n' || c == '\x0C' || c == '\r'
}

pub fn white(c: char) -> (b: bool)
    ensures
        b == is_white(c),
{
    ('\t' <= c && c <= '\r') || c == ' ' || c == '\u{85}' || c == '\u{a0}' || c == '\u{1680}' || (
    '\u{2000}' <= c && c <= '\u{200a}') || c == '\u{2028}' || c == '\u{2029}' || c == '\u{202f}'
        || c == '\u{205f}' || c == '\u{3000}'
}

pub fn ascii_white(c: char) -> (b: bool)
    ensures
        b == is_ascii_white(c),
{
    c == ' ' || c == '\t' || c == '\n' || c == '\x0C' || c == '\r'
}

// ---------------------------------------------------------------------
// Runs of characters at either end
// ---------------------------------------------------------------------

/// Length of the longest prefix of `s` whose characters all satisfy `p`.
pub open spec fn lead_run(s: Seq<char>, p: spec_fn(char) -> bool) -> nat
    decreases s.len(),
{
    if s.len() > 0 && p(s[0]) {
        1 + lead_run(s.drop_first(), p)
    } else {
        0
    }
}

/// Length of the longest suffix of `s` whose characters all satisfy `p`.
pub open spec fn trail_run(s: Seq<char>, p: spec_fn(char) -> bool) -> nat
    decreases s.len(),
{
    if s.len() > 0 && p(s.last()) {
        1 + trail_run(s.drop_last(), p)
    } else {
        0
    }
}

pub proof fn lemma_lead_run(s: Seq<char>, p: spec_fn(char) -> bool)
    ensures
        lead_run(s, p) <= s.len(),
        forall|j: int| 0 <= j < lead_run(s, p) ==> p(#[trigger] s[j]),
        lead_run(s, p) < s.len() ==> !p(s[lead_run(s, p) as int]),
    decreases s.len(),
{
    if s.len() > 0 && p(s[0]) {
        lemma_lead_run(s.drop_first(), p);
        assert forall|j: int| 0 <= j < lead_run(s, p) implies p(#[trigger] s[j]) by {
            if j > 0 {
                assert(s[j] == s.drop_first()[j - 1]);
            }
        }
    }
}

/// A prefix length `k` with the two properties of `lead_run` is `lead_run`.
pub proof fn lemma_lead_run_unique(s: Seq<char>, p: spec_fn(char) -> bool, k: int)
    requires
        0 <= k <= s.len(),
        forall|j: int| 0 <= j < k ==> p(#[trigger] s[j]),
        k < s.len() ==> !p(s[k]),
    ensures
        lead_run(s, p) == k,
{
    lemma_lead_run(s, p);
    let r = lead_run(s, p) as int;
    if r < k {
        assert(p(s[r]));
    } else if r > k {
        assert(p(s[k]));
    }
}

pub proof fn lemma_trail_run(s: Seq<char>, p: spec_fn(char) -> bool)
    ensures
        trail_run(s, p) <= s.len(),
        forall|j: int| s.len() - trail_run(s, p) <= j < s.len() ==> p(#[trigger] s[j]),
        trail_run(s, p) < s.len() ==> !p(s[s.len() - trail_run(s, p) - 1]),
    decreases s.len(),
{
    if s.len() > 0 && p(s.last()) {
        lemma_trail_run(s.drop_last(), p);
        assert forall|j: int| s.len() - trail_run(s, p) <= j < s.len() implies p(#[trigger] s[j]) by {
            if j < s.len() - 1 {
                assert(s[j] == s.drop_last()[j]);
            }
        }
    }
}

pub proof fn lemma_trail_run_unique(s: Seq<char>, p: spec_fn(char) -> bool, k: int)
    requires
        0 <= k <= s.len(),
        forall|j: int| s.len() - k <= j < s.len() ==> p(#[trigger] s[j]),
        k < s.len() ==> !p(s[s.len() - k - 1]),
    ensures
        trail_run(s, p) == k,
{
    lemma_trail_run(s, p);
    let r = trail_run(s, p) as int;
    if r < k {
        assert(p(s[s.len() - r - 1]));
    } else if r > k {
        assert(p(s[s.len() - k - 1]));
    }
}

// ---------------------------------------------------------------------
// Trimming
// ---------------------------------------------------------------------

pub open spec fn white_pred() -> spec_fn(char) -> bool {
    |c: char| is_white(c)
}

/// `str::trim_start`: drop the leading whitespace.
pub open spec fn trim_start(s: Seq<char>) -> Seq<char> {
    s.skip(lead_run(s, white_pred()) as int)
}

/// `str::trim_end`: drop the trailing whitespace.
pub open spec fn trim_end(s: Seq<char>) -> Seq<char> {
    s.take(s.len() - trail_run(s, white_pred()))
}

/// `str::trim`: drop whitespace at both ends.
pub open spec fn trim(s: Seq<char>) -> Seq<char> {
    trim_end(trim_start(s))
}

pub fn trim_start_chars(s: &[char]) -> (r: Vec<char>)
    ensures
        r@ == trim_start(s@),
{
    let mut k: usize = 0;
    while k < s.len() && white(s[k])
        invariant
            k <= s.len(),
            forall|j: int| 0 <= j < k ==> is_white(#[trigger] s@[j]),
        decreases s.len() - k,
    {
        k += 1;
    }
    proof {
        lemma_lead_run_unique(s@, white_pred(), k as int);
    }
    slice_of(s, k, s.len())
}

pub fn trim_end_chars(s: &[char]) -> (r: Vec<char>)
    ensures
        r@ == trim_end(s@),
{
    let mut e: usize = s.len();
    while e > 0 && white(s[e - 1])
        invariant
            e <= s.len(),
            forall|j: int| e <= j < s.len() ==> is_white(#[trigger] s@[j]),
        decreases e,
    {
        e -= 1;
    }
    proof {
        lemma_trail_run_unique(s@, white_pred(), s.len() - e);
    }
    slice_of(s, 0, e)
}

pub fn trim_chars(s: &[char]) -> (r: Vec<char>)
    ensures
        r@ == trim(s@),
{
    let t = trim_start_chars(s);
    trim_end_chars(&t)
}

// ---------------------------------------------------------------------
// Basic sequence helpers
// ---------------------------------------------------------------------

/// The characters of `s` from index `a` up to `b`.
pub fn slice_of(s: &[char], a: usize, b: usize) -> (r: Vec<char>)
    requires
        a <= b <= s.len(),
    ensures
        r@ == s@.subrange(a as int, b as int),
{
    let mut r: Vec<char> = Vec::new();
    let mut i: usize = a;
    while i < b
        invariant
            a <= i <= b <= s.len(),
            r@ == s@.subrange(a as int, i as int),
        decreases b - i,
    {
        r.push(s[i]);
        i += 1;
    }
    r
}

/// Character-wise equality.
pub fn same(a: &[char], b: &[char]) -> (r: bool)
    ensures
        r == (a@ == b@),
{
    if a.len() != b.len() {
        return false;
    }
    let mut i: usize = 0;
    while i < a.len()
        invariant
            a.len() == b.len(),
            i <= a.len(),
            forall|j: int| 0 <= j < i ==> a@[j] == b@[j],
        decreases a.len() - i,
    {
        if a[i] != b[i] {
            return false;
        }
        i += 1;
    }
    assert(a@ =~= b@);
    true
}

/// Whether `s` equals the string literal `lit`.
pub fn is_text(s: &[char], lit: &str) -> (r: bool)
    ensures
        r == (s@ == lit@),
{
    let l = chars_of(lit);
    same(s, &l)
}

/// The characters of a string slice, in order.
pub fn chars_of(s: &str) -> (v: Vec<char>)
    ensures
        v@ == s@,
{
    let mut v: Vec<char> = Vec::new();
    for c in it: s.chars()
        invariant
            it.seq() == s@,
            v@ == it.seq().take(it.index() as int),
    {
        v.push(c);
    }
    v
}

/// `String::push` appends one character.
pub assume_specification[ String::push ](s: &mut String, ch: char)
    ensures
        final(s)@ == old(s)@.push(ch),
;

/// A string holding exactly the given characters.
pub fn string_of(cs: &[char]) -> (s: String)
    ensures
        s@ == cs@,
{
    let mut s = String::new();
    let mut i: usize = 0;
    while i < cs.len()
        invariant
            i <= cs.len(),
            s@ == cs@.take(i as int),
        decreases cs.len() - i,
    {
        s.push(cs[i]);
        i += 1;
        assert(cs@.take(i as int) == cs@.take((i - 1) as int).push(cs@[i - 1]));
    }
    assert(cs@.take(i as int) == cs@);
    s
}


// ---------------------------------------------------------------------
// Splitting at separator characters
// ---------------------------------------------------------------------

/// Characters that are neither `a` nor `b`.
pub open spec fn non_sep(a: char, b: char) -> spec_fn(char) -> bool {
    |x: char| !(x == a || x == b)
}

/// The pieces of `s` between the characters equal to `a` or `b`
/// (`str::split` with a one- or two-character pattern): never empty.
pub open spec fn split_by(s: Seq<char>, a: char, b: char) -> Seq<Seq<char>>
    decreases s.len(),
{
    let k = lead_run(s, non_sep(a, b));
    if k < s.len() {
        seq![s.take(k as int)] + split_by(s.skip(k + 1int), a, b)
    } else {
        seq![s]
    }
}

/// Splitting on `c` gives two pieces or more exactly where `s` holds `c`.
pub proof fn lemma_split_pieces(s: Seq<char>, c: char)
    ensures
        split_by(s, c, c).len() >= 2 <==> exists|i: int| 0 <= i < s.len() && s[i] == c,
{
    let k = lead_run(s, non_sep(c, c));
    lemma_lead_run(s, non_sep(c, c));
    let r = split_by(s, c, c);
    if k < s.len() {
        let rest = split_by(s.skip(k + 1int), c, c);
        assert(r == seq![s.take(k as int)] + rest);
        assert(rest.len() >= 1);
        assert(s[k as int] == c);
    } else {
        assert(r == seq![s]);
        assert forall|i: int| 0 <= i < s.len() implies s[i] != c by {
            assert(non_sep(c, c)(s[i]));
        }
    }
}

/// `str::split_once` with a one-character pattern.
pub open spec fn split_once(s: Seq<char>, c: char) -> Option<(Seq<char>, Seq<char>)> {
    let k = lead_run(s, non_sep(c, c));
    if k < s.len() {
        Some((s.take(k as int), s.skip(k + 1int)))
    } else {
        None
    }
}

/// Splitting at the first `c` of `a + [c] + r`, where `a` holds no `c`,
/// gives `a` and `r`.
pub proof fn lemma_split_once_at(a: Seq<char>, c: char, r: Seq<char>)
    requires
        forall|i: int| 0 <= i < a.len() ==> #[trigger] a[i] != c,
    ensures
        split_once(a + seq![c] + r, c) == Some((a, r)),
{
    let s = a + seq![c] + r;
    let p = non_sep(c, c);
    assert forall|j: int| 0 <= j < a.len() implies #[trigger] p(s[j]) by {
        assert(s[j] == a[j]);
    }
    assert(s[a.len() as int] == c);
    lemma_lead_run_unique(s, p, a.len() as int);
    assert(s.take(a.len() as int) =~= a);
    assert(s.skip(a.len() + 1int) =~= r);
}

/// The pieces of `a + [c] + r` between the characters `x` and `y`, where
/// `c` is one of them and `a` holds neither, are `a`, then those of `r`.
pub proof fn lemma_split_by_cons(a: Seq<char>, c: char, r: Seq<char>, x: char, y: char)
    requires
        c == x || c == y,
        forall|i: int| 0 <= i < a.len() ==> #[trigger] a[i] != x && a[i] != y,
    ensures
        split_by(a + seq![c] + r, x, y) == seq![a] + split_by(r, x, y),
{
    let s = a + seq![c] + r;
    let p = non_sep(x, y);
    assert forall|j: int| 0 <= j < a.len() implies #[trigger] p(s[j]) by {
        assert(s[j] == a[j]);
    }
    assert(s[a.len() as int] == c);
    lemma_lead_run_unique(s, p, a.len() as int);
    assert(s.take(a.len() as int) =~= a);
    assert(s.skip(a.len() + 1int) =~= r);
}

/// Text that holds neither `x` nor `y` is one piece.
pub proof fn lemma_split_by_none(a: Seq<char>, x: char, y: char)
    requires
        forall|i: int| 0 <= i < a.len() ==> #[trigger] a[i] != x && a[i] != y,
    ensures
        split_by(a, x, y) == seq![a],
{
    let p = non_sep(x, y);
    assert forall|j: int| 0 <= j < a.len() implies #[trigger] p(a[j]) by {}
    lemma_lead_run_unique(a, p, a.len() as int);
}

/// The views of a sequence of character vectors.
pub open spec fn texts(v: Seq<Vec<char>>) -> Seq<Seq<char>> {
    v.map_values(|x: Vec<char>| x@)
}

pub proof fn lemma_texts_push(v: Seq<Vec<char>>, x: Vec<char>)
    ensures
        texts(v.push(x)) == texts(v).push(x@),
{
    assert(texts(v.push(x)) =~= texts(v).push(x@));
}

/// First index at or after `from` holding `a` or `b`, or `s.len()`;
/// measured from `from` it is the `lead_run` of the rest.
fn sep_scan(s: &[char], from: usize, a: char, b: char) -> (q: usize)
    requires
        from <= s.len(),
    ensures
        from <= q <= s.len(),
        q - from == lead_run(s@.skip(from as int), non_sep(a, b)),
{
    let mut q = from;
    while q < s.len() && s[q] != a && s[q] != b
        invariant
            from <= q <= s.len(),
            forall|j: int| from <= j < q ==> !(s@[j] == a || s@[j] == b),
        decreases s.len() - q,
    {
        q += 1;
    }
    proof {
        let t = s@.skip(from as int);
        assert forall|j: int| 0 <= j < q - from implies #[trigger] non_sep(a, b)(t[j]) by {
            assert(t[j] == s@[from + j]);
        }
        lemma_lead_run_unique(t, non_sep(a, b), q - from);
    }
    q
}

/// `str::split` on the characters `a` and `b`.
pub fn split_chars(s: &[char], a: char, b: char) -> (r: Vec<Vec<char>>)
    ensures
        texts(r@) == split_by(s@, a, b),
{
    let mut r: Vec<Vec<char>> = Vec::new();
    let mut start: usize = 0;
    assert(s@.skip(0) =~= s@);
    assert(texts(r@) + split_by(s@, a, b) =~= split_by(s@, a, b));
    loop
        invariant
            start <= s.len(),
            texts(r@) + split_by(s@.skip(start as int), a, b) == split_by(s@, a, b),
        decreases s.len() - start,
    {
        let q = sep_scan(s, start, a, b);
        let piece = slice_of(s, start, q);
        let ghost t = s@.skip(start as int);
        proof {
            lemma_texts_push(r@, piece);
            assert(t.take(q - start) =~= piece@);
        }
        if q < s.len() {
            proof {
                assert(t.skip(q - start + 1) =~= s@.skip(q + 1));
                assert(split_by(t, a, b) == seq![piece@] + split_by(s@.skip(q + 1), a, b));
                assert(texts(r@.push(piece)) + split_by(s@.skip(q + 1), a, b) =~= texts(r@)
                    + split_by(t, a, b));
            }
            r.push(piece);
            start = q + 1;
        } else {
            proof {
                assert(t =~= piece@);
                assert(texts(r@.push(piece)) =~= texts(r@) + split_by(t, a, b));
            }
            r.push(piece);
            return r;
        }
    }
}

/// `str::split_once` on the character `c`.
pub fn split_once_chars(s: &[char], c: char) -> (r: Option<(Vec<char>, Vec<char>)>)
    ensures
        match r {
            Some((x, y)) => split_once(s@, c) == Some((x@, y@)),
            None => split_once(s@, c) is None,
        },
{
    let q = sep_scan(s, 0, c, c);
    assert(s@.skip(0) =~= s@);
    if q < s.len() {
        let x = slice_of(s, 0, q);
        let y = slice_of(s, q + 1, s.len());
        assert(x@ =~= s@.take(q as int));
        assert(y@ =~= s@.skip(q + 1));
        Some((x, y))
    } else {
        None
    }
}

// ---------------------------------------------------------------------
// Lines
// ---------------------------------------------------------------------

/// A line without the `'\r'` of a `"\r\n"` ending.
pub open spec fn strip_cr(x: Seq<char>) -> Seq<char> {
    if x.len() > 0 && x.last() == '\r' {
        x.drop_last()
    } else {
        x
    }
}

/// `str::lines`: the pieces between `'\n'`, where a piece followed by
/// `'\n'` loses a final `'\r'`, and an empty last piece is no line.
pub open spec fn lines(s: Seq<char>) -> Seq<Seq<char>> {
    let p = split_by(s, '\n', '\n');
    let body = p.drop_last().map_values(|x: Seq<char>| strip_cr(x));
    if p.last().len() == 0 {
        body
    } else {
        body.push(p.last())
    }
}

fn strip_cr_chars(x: &Vec<char>) -> (r: Vec<char>)
    ensures
        r@ == strip_cr(x@),
{
    if x.len() > 0 && x[x.len() - 1] == '\r' {
        let r = slice_of(x.as_slice(), 0, x.len() - 1);
        assert(r@ =~= x@.drop_last());
        r
    } else {
        let r = slice_of(x.as_slice(), 0, x.len());
        assert(r@ =~= x@);
        r
    }
}

/// `str::lines`.
pub fn lines_of(s: &[char]) -> (r: Vec<Vec<char>>)
    ensures
        texts(r@) == lines(s@),
{
    let p = split_chars(s, '\n', '\n');
    let ghost ps = split_by(s@, '\n', '\n');
    let n = p.len();
    assert(texts(p@).len() == p@.len());
    let mut r: Vec<Vec<char>> = Vec::new();
    let mut i: usize = 0;
    while i + 1 < n
        invariant
            n == p.len() >= 1,
            texts(p@) == ps,
            i + 1 <= n,
            texts(r@) == ps.take(i as int).map_values(|x: Seq<char>| strip_cr(x)),
        decreases n - i,
    {
        let l = strip_cr_chars(&p[i]);
        proof {
            lemma_texts_push(r@, l);
            assert(ps[i as int] == p@[i as int]@);
            assert(ps.take(i + 1).map_values(|x: Seq<char>| strip_cr(x)) =~= ps.take(
                i as int,
            ).map_values(|x: Seq<char>| strip_cr(x)).push(strip_cr(ps[i as int])));
        }
        r.push(l);
        i += 1;
    }
    assert(ps.take(i as int) =~= ps.drop_last());
    let last = &p[n - 1];
    assert(last@ == ps.last());
    if last.len() == 0 {
        r
    } else {
        let l = slice_of(last.as_slice(), 0, last.len());
        assert(l@ =~= last@);
        proof {
            lemma_texts_push(r@, l);
        }
        r.push(l);
        r
    }
}

// ---------------------------------------------------------------------
// ASCII-whitespace separated words
// ---------------------------------------------------------------------

pub open spec fn ascii_white_pred() -> spec_fn(char) -> bool {
    |c: char| is_ascii_white(c)
}

pub open spec fn word_pred() -> spec_fn(char) -> bool {
    |c: char| !is_ascii_white(c)
}

/// `str::split_ascii_whitespace`: the maximal runs of characters that are
/// not ASCII whitespace.
pub open spec fn words(s: Seq<char>) -> Seq<Seq<char>>
    decreases s.len(),
{
    let k = lead_run(s, ascii_white_pred());
    if k >= s.len() {
        seq![]
    } else {
        let t = s.skip(k as int);
        let e = lead_run(t, word_pred());
        proof {
            lemma_lead_run(s, ascii_white_pred());
            lemma_lead_run(t, word_pred());
            assert(t[0] == s[k as int]);
        }
        seq![t.take(e as int)] + words(t.skip(e as int))
    }
}

/// The `n`-th word of `s`, if it has one.
pub open spec fn nth_word(s: Seq<char>, n: int) -> Option<Seq<char>> {
    if 0 <= n < words(s).len() {
        Some(words(s)[n])
    } else {
        None
    }
}

/// `str::split_ascii_whitespace`.
pub fn words_of(s: &[char]) -> (r: Vec<Vec<char>>)
    ensures
        texts(r@) == words(s@),
{
    let mut r: Vec<Vec<char>> = Vec::new();
    let mut i: usize = 0;
    assert(s@.skip(0) =~= s@);
    loop
        invariant
            i <= s.len(),
            texts(r@) + words(s@.skip(i as int)) == words(s@),
        decreases s.len() - i,
    {
        let ghost u = s@.skip(i as int);
        let mut j = i;
        while j < s.len() && ascii_white(s[j])
            invariant
                i <= j <= s.len(),
                forall|x: int| i <= x < j ==> is_ascii_white(#[trigger] s@[x]),
            decreases s.len() - j,
        {
            j += 1;
        }
        proof {
            assert forall|x: int| 0 <= x < j - i implies #[trigger] ascii_white_pred()(u[x]) by {
                assert(u[x] == s@[i + x]);
            }
            if j < s.len() {
                assert(u[j - i] == s@[j as int]);
            }
            lemma_lead_run_unique(u, ascii_white_pred(), j - i);
        }
        if j >= s.len() {
            assert(words(u) == Seq::<Seq<char>>::empty());
            assert(texts(r@) + words(u) =~= texts(r@));
            return r;
        }
        let mut m = j;
        while m < s.len() && !ascii_white(s[m])
            invariant
                j <= m <= s.len(),
                forall|x: int| j <= x < m ==> !is_ascii_white(#[trigger] s@[x]),
            decreases s.len() - m,
        {
            m += 1;
        }
        let w = slice_of(s, j, m);
        proof {
            let t = u.skip(j - i);
            assert(t =~= s@.skip(j as int));
            assert forall|x: int| 0 <= x < m - j implies #[trigger] word_pred()(t[x]) by {
                assert(t[x] == s@[j + x]);
            }
            if m < s.len() {
                assert(t[m - j] == s@[m as int]);
            }
            lemma_lead_run_unique(t, word_pred(), m - j);
            assert(t.take(m - j) =~= w@);
            assert(t.skip(m - j) =~= s@.skip(m as int));
            assert(words(u) == seq![w@] + words(s@.skip(m as int)));
            lemma_texts_push(r@, w);
            assert(texts(r@.push(w)) + words(s@.skip(m as int)) =~= texts(r@) + words(u));
        }
        r.push(w);
        i = m;
    }
}

// ---------------------------------------------------------------------
// Substrings
// ---------------------------------------------------------------------

/// `p` occurs in `s` at index `i`.
pub open spec fn matches_at(s: Seq<char>, p: Seq<char>, i: int) -> bool {
    0 <= i && i + p.len() <= s.len() && s.subrange(i, i + p.len()) == p
}

/// `str::starts_with`.
pub open spec fn starts_with(s: Seq<char>, p: Seq<char>) -> bool {
    matches_at(s, p, 0)
}

/// `str::ends_with`.
pub open spec fn ends_with(s: Seq<char>, p: Seq<char>) -> bool {
    matches_at(s, p, s.len() - p.len())
}

/// `str::find`: the first index at which `p` occurs.
pub open spec fn find(s: Seq<char>, p: Seq<char>) -> Option<int>
    decreases s.len(),
{
    if matches_at(s, p, 0) {
        Some(0)
    } else if s.len() == 0 {
        None
    } else {
        match find(s.drop_first(), p) {
            Some(i) => Some(i + 1),
            None => None,
        }
    }
}

/// `str::contains`.
pub open spec fn contains(s: Seq<char>, p: Seq<char>) -> bool {
    find(s, p) is Some
}

pub proof fn lemma_matches_shift(s: Seq<char>, p: Seq<char>, j: int)
    requires
        s.len() > 0,
        0 <= j,
    ensures
        matches_at(s.drop_first(), p, j) == matches_at(s, p, j + 1),
{
    if j + p.len() <= s.len() - 1 {
        assert(s.drop_first().subrange(j, j + p.len()) =~= s.subrange(j + 1, j + 1 + p.len()));
    }
}

pub proof fn lemma_find(s: Seq<char>, p: Seq<char>)
    ensures
        match find(s, p) {
            Some(i) => matches_at(s, p, i) && forall|j: int| 0 <= j < i ==> !matches_at(s, p, j),
            None => forall|j: int| !matches_at(s, p, j),
        },
    decreases s.len(),
{
    if matches_at(s, p, 0) {
    } else if s.len() == 0 {
        assert forall|j: int| !matches_at(s, p, j) by {
            if j > 0 && matches_at(s, p, j) {
            }
        }
    } else {
        lemma_find(s.drop_first(), p);
        match find(s.drop_first(), p) {
            Some(i) => {
                lemma_matches_shift(s, p, i);
                assert forall|j: int| 0 <= j < i + 1 implies !matches_at(s, p, j) by {
                    if j > 0 {
                        lemma_matches_shift(s, p, j - 1);
                    }
                }
            },
            None => {
                assert forall|j: int| !matches_at(s, p, j) by {
                    if j > 0 {
                        lemma_matches_shift(s, p, j - 1);
                    }
                }
            },
        }
    }
}

/// Whether `p` occurs in `s` at index `i`.
fn occurs_at(s: &[char], p: &[char], i: usize) -> (r: bool)
    ensures
        r == matches_at(s@, p@, i as int),
{
    if i > s.len() || p.len() > s.len() - i {
        return false;
    }
    let mut k: usize = 0;
    while k < p.len()
        invariant
            i + p.len() <= s.len(),
            k <= p.len(),
            forall|x: int| 0 <= x < k ==> s@[i + x] == p@[x],
        decreases p.len() - k,
    {
        if s[i + k] != p[k] {
            assert(s@.subrange(i as int, i + p.len())[k as int] == s@[i + k]);
            return false;
        }
        k += 1;
    }
    assert(s@.subrange(i as int, i + p.len()) =~= p@);
    true
}

/// `str::find`.
pub fn find_chars(s: &[char], p: &[char]) -> (r: Option<usize>)
    ensures
        match r {
            Some(i) => find(s@, p@) == Some(i as int),
            None => find(s@, p@) is None,
        },
{
    proof {
        lemma_find(s@, p@);
    }
    let mut i: usize = 0;
    loop
        invariant
            i <= s.len(),
            forall|j: int| 0 <= j < i ==> !matches_at(s@, p@, j),
        decreases s.len() - i,
    {
        if occurs_at(s, p, i) {
            proof {
                lemma_find(s@, p@);
                match find(s@, p@) {
                    Some(k) => {
                        if k < i {
                            assert(!matches_at(s@, p@, k));
                        }
                    },
                    None => {
                        assert(!matches_at(s@, p@, i as int));
                    },
                }
            }
            return Some(i);
        }
        if i == s.len() {
            proof {
                lemma_find(s@, p@);
                match find(s@, p@) {
                    Some(k) => {
                        assert(matches_at(s@, p@, k));
                        assert(k <= i);
                        if k < i {
                            assert(!matches_at(s@, p@, k));
                        }
                    },
                    None => {},
                }
            }
            return None;
        }
        i += 1;
    }
}

/// `str::starts_with`.
pub fn starts_with_chars(s: &[char], p: &[char]) -> (r: bool)
    ensures
        r == starts_with(s@, p@),
{
    occurs_at(s, p, 0)
}

/// `str::contains`.
pub fn contains_chars(s: &[char], p: &[char]) -> (r: bool)
    ensures
        r == contains(s@, p@),
{
    find_chars(s, p).is_some()
}

// ---------------------------------------------------------------------
// Removing and replacing characters
// ---------------------------------------------------------------------

/// `s` without the characters equal to `c` (`str::replace(c, "")`).
pub open spec fn drop_char(s: Seq<char>, c: char) -> Seq<char>
    decreases s.len(),
{
    if s.len() == 0 {
        s
    } else if s.last() == c {
        drop_char(s.drop_last(), c)
    } else {
        drop_char(s.drop_last(), c).push(s.last())
    }
}

pub fn drop_char_chars(s: &[char], c: char) -> (r: Vec<char>)
    ensures
        r@ == drop_char(s@, c),
{
    let mut r: Vec<char> = Vec::new();
    let mut i: usize = 0;
    while i < s.len()
        invariant
            i <= s.len(),
            r@ == drop_char(s@.take(i as int), c),
        decreases s.len() - i,
    {
        assert(s@.take(i + 1).drop_last() =~= s@.take(i as int));
        if s[i] != c {
            r.push(s[i]);
        }
        i += 1;
    }
    assert(s@.take(i as int) =~= s@);
    r
}

/// `s` with every `a` replaced by `b`.
pub open spec fn swap_char(s: Seq<char>, a: char, b: char) -> Seq<char> {
    s.map_values(|x: char| if x == a { b } else { x })
}

pub fn swap_char_chars(s: &[char], a: char, b: char) -> (r: Vec<char>)
    ensures
        r@ == swap_char(s@, a, b),
{
    let mut r: Vec<char> = Vec::new();
    let mut i: usize = 0;
    while i < s.len()
        invariant
            i <= s.len(),
            r.len() == i,
            forall|j: int| 0 <= j < i ==> r@[j] == (if s@[j] == a { b } else { s@[j] }),
        decreases s.len() - i,
    {
        if s[i] == a {
            r.push(b);
        } else {
            r.push(s[i]);
        }
        i += 1;
    }
    assert(r@ =~= swap_char(s@, a, b));
    r
}

/// `s` with every occurrence of the non-empty `p` removed, scanning from
/// the left (`str::replace(p, "")`).
pub open spec fn drop_text(s: Seq<char>, p: Seq<char>) -> Seq<char>
    decreases s.len(),
{
    if p.len() > 0 && matches_at(s, p, 0) {
        drop_text(s.skip(p.len() as int), p)
    } else if s.len() == 0 {
        s
    } else {
        seq![s[0]] + drop_text(s.drop_first(), p)
    }
}

pub fn drop_text_chars(s: &[char], p: &[char]) -> (r: Vec<char>)
    requires
        p.len() > 0,
    ensures
        r@ == drop_text(s@, p@),
{
    let mut r: Vec<char> = Vec::new();
    let mut i: usize = 0;
    assert(s@.skip(0) =~= s@);
    while i < s.len()
        invariant
            p.len() > 0,
            i <= s.len(),
            r@ + drop_text(s@.skip(i as int), p@) == drop_text(s@, p@),
        decreases s.len() - i,
    {
        let ghost u = s@.skip(i as int);
        let hit = occurs_at(s, p, i);
        proof {
            if i + p.len() <= s.len() {
                assert(u.subrange(0, p.len() as int) =~= s@.subrange(i as int, i + p.len()));
            }
            assert(matches_at(u, p@, 0) == hit);
        }
        if hit {
            assert(u.skip(p.len() as int) =~= s@.skip(i + p.len()));
            i = i + p.len();
        } else {
            assert(u.drop_first() =~= s@.skip(i + 1));
            assert(r@.push(s@[i as int]) + drop_text(s@.skip(i + 1), p@) =~= r@ + (seq![u[0]]
                + drop_text(u.drop_first(), p@)));
            r.push(s[i]);
            i = i + 1;
        }
    }
    assert(s@.skip(i as int) =~= Seq::<char>::empty());
    assert(r@ + drop_text(s@.skip(i as int), p@) =~= r@);
    r
}

// ---------------------------------------------------------------------
// Sections
// ---------------------------------------------------------------------

/// The lines of a section after its heading line.
pub open spec fn body_lines(s: Seq<char>) -> Seq<Seq<char>> {
    let ls = lines(s);
    if ls.len() == 0 {
        ls
    } else {
        ls.drop_first()
    }
}

pub fn body_lines_of(s: &[char]) -> (r: Vec<Vec<char>>)
    ensures
        texts(r@) == body_lines(s@),
{
    let mut ls = lines_of(s);
    assert(texts(ls@).len() == ls@.len());
    if ls.len() > 0 {
        let ghost before = ls@;
        ls.remove(0);
        assert(texts(ls@) =~= texts(before).drop_first());
    }
    ls
}

/// The lines that follow the line holding the first `key` of `text`, or
/// nothing where `text` does not hold `key`.
pub open spec fn lines_after(text: Seq<char>, key: Seq<char>) -> Option<Seq<Seq<char>>> {
    match find(text, key) {
        Some(i) => Some(body_lines(text.skip(i))),
        None => None,
    }
}

pub fn lines_after_of(text: &[char], key: &str) -> (r: Option<Vec<Vec<char>>>)
    ensures
        match r {
            Some(ls) => lines_after(text@, key@) == Some(texts(ls@)),
            None => lines_after(text@, key@) is None,
        },
{
    let k = chars_of(key);
    match find_chars(text, k.as_slice()) {
        Some(i) => {
            proof {
                lemma_find(text@, k@);
            }
            let rest = slice_of(text, i, text.len());
            assert(rest@ =~= text@.skip(i as int));
            Some(body_lines_of(rest.as_slice()))
        },
        None => None,
    }
}

// ---------------------------------------------------------------------
// Lines of joined text
// ---------------------------------------------------------------------

/// Where `b` holds a separator, the first one of `b + x` is the first one
/// of `b`.
proof fn lemma_lead_run_append(b: Seq<char>, x: Seq<char>, p: spec_fn(char) -> bool)
    requires
        lead_run(b, p) < b.len(),
    ensures
        lead_run(b + x, p) == lead_run(b, p),
{
    lemma_lead_run(b, p);
    let k = lead_run(b, p) as int;
    assert forall|j: int| 0 <= j < k implies p(#[trigger] (b + x)[j]) by {
        assert((b + x)[j] == b[j]);
    }
    assert((b + x)[k] == b[k]);
    lemma_lead_run_unique(b + x, p, k);
}

/// Splitting text that follows a separator splits the rest on its own: the
/// pieces of `b + x` are those of `b` but its empty last one, then those of
/// `x`.
pub proof fn lemma_split_append(b: Seq<char>, x: Seq<char>, c: char)
    requires
        b.len() > 0,
        b.last() == c,
    ensures
        split_by(b + x, c, c) == split_by(b, c, c).drop_last() + split_by(x, c, c),
        split_by(b, c, c).len() >= 2,
        split_by(b, c, c).last() == Seq::<char>::empty(),
    decreases b.len(),
{
    let p = non_sep(c, c);
    lemma_lead_run(b, p);
    let k = lead_run(b, p) as int;
    if k == b.len() {
        assert(p(b[b.len() - 1]));
    }
    lemma_lead_run_append(b, x, p);
    assert((b + x).take(k) =~= b.take(k));
    let rest = b.skip(k + 1);
    assert((b + x).skip(k + 1) =~= rest + x);
    if k == b.len() - 1 {
        assert(rest =~= Seq::<char>::empty());
        assert(rest + x =~= x);
        assert(split_by(rest, c, c) == seq![rest]);
        assert(split_by(b, c, c) =~= seq![b.take(k), Seq::<char>::empty()]);
    } else {
        assert(rest.last() == b.last());
        lemma_split_append(rest, x, c);
        let sb = split_by(b, c, c);
        assert(sb == seq![b.take(k)] + split_by(rest, c, c));
        assert(sb.drop_last() + split_by(x, c, c) =~= seq![b.take(k)] + (split_by(
            rest,
            c,
            c,
        ).drop_last() + split_by(x, c, c)));
    }
}

/// The lines of text that ends a line are those of the text before, then
/// those of the text after.
pub proof fn lemma_lines_append(b: Seq<char>, x: Seq<char>)
    requires
        b.len() > 0,
        b.last() == '\n',
    ensures
        lines(b + x) == lines(b) + lines(x),
        lines(b).len() >= 1,
{
    lemma_split_append(b, x, '\n');
    let pb = split_by(b, '\n', '\n');
    let q = split_by(x, '\n', '\n');
    let p = split_by(b + x, '\n', '\n');
    let f = |y: Seq<char>| strip_cr(y);
    assert(q.len() >= 1);
    assert(p.last() == q.last());
    assert(p.drop_last() =~= pb.drop_last() + q.drop_last());
    assert(lines(b) == pb.drop_last().map_values(f));
    assert(p.drop_last().map_values(f) =~= pb.drop_last().map_values(f) + q.drop_last().map_values(
        f,
    ));
    if q.last().len() == 0 {
        assert(lines(b + x) =~= lines(b) + lines(x));
    } else {
        assert(lines(b + x) =~= lines(b) + lines(x));
    }
}

/// A line without `'\n'` (and not ending in `'\r'`) followed by `'\n'` is
/// one line.
pub proof fn lemma_single_line(l: Seq<char>)
    requires
        forall|i: int| 0 <= i < l.len() ==> #[trigger] l[i] != '\n',
        l.len() == 0 || l.last() != '\r',
    ensures
        lines(l.push('\n')) == seq![l],
{
    let b = l.push('\n');
    let p = non_sep('\n', '\n');
    assert forall|j: int| 0 <= j < l.len() implies #[trigger] p(b[j]) by {
        assert(b[j] == l[j]);
    }
    lemma_lead_run_unique(b, p, l.len() as int);
    assert(b.take(l.len() as int) =~= l);
    assert(b.skip(l.len() + 1int) =~= Seq::<char>::empty());
    assert(split_by(Seq::<char>::empty(), '\n', '\n') == seq![Seq::<char>::empty()]);
    assert(split_by(b, '\n', '\n') =~= seq![l, Seq::<char>::empty()]);
    assert(lines(b) =~= seq![l]);
}

/// The first line of text that starts with `l` and a `'\n'` is `l`.
pub proof fn lemma_first_line(l: Seq<char>, rest: Seq<char>)
    requires
        forall|i: int| 0 <= i < l.len() ==> #[trigger] l[i] != '\n',
        l.len() == 0 || l.last() != '\r',
    ensures
        lines(l.push('\n') + rest).len() >= 1,
        lines(l.push('\n') + rest)[0] == l,
{
    lemma_single_line(l);
    lemma_lines_append(l.push('\n'), rest);
}

/// Removing a character that text does not hold leaves it as it is.
pub proof fn lemma_drop_char_absent(s: Seq<char>, c: char)
    requires
        forall|i: int| 0 <= i < s.len() ==> #[trigger] s[i] != c,
    ensures
        drop_char(s, c) == s,
    decreases s.len(),
{
    if s.len() > 0 {
        let t = s.drop_last();
        assert forall|i: int| 0 <= i < t.len() implies #[trigger] t[i] != c by {
            assert(t[i] == s[i]);
        }
        lemma_drop_char_absent(t, c);
        assert(t.push(s.last()) =~= s);
    }
}

/// The value of the last of the first `n` lines, the first line left out,
/// whose key (tabs removed, the text before the first `':'`) is `key`: the
/// text after that `':'`.
pub open spec fn last_value(ls: Seq<Seq<char>>, n: int, key: Seq<char>) -> Option<Seq<char>>
    decreases n,
{
    if n <= 1 {
        None
    } else {
        match split_once(drop_char(ls[n - 1], '\t'), ':') {
            Some((k, v)) => if k == key {
                Some(v)
            } else {
                last_value(ls, n - 1, key)
            },
            None => last_value(ls, n - 1, key),
        }
    }
}

// ---------------------------------------------------------------------
// Byte offsets into UTF-8 text
// ---------------------------------------------------------------------

/// The number of bytes that UTF-8 takes for `c`.
pub open spec fn utf8_width(c: char) -> int {
    if (c as int) < 0x80 {
        1
    } else if (c as int) < 0x800 {
        2
    } else if (c as int) < 0x10000 {
        3
    } else {
        4
    }
}

/// The length in bytes of the UTF-8 form of `s` (`str::len`).
pub open spec fn utf8_len(s: Seq<char>) -> int
    decreases s.len(),
{
    if s.len() == 0 {
        0
    } else {
        utf8_len(s.drop_last()) + utf8_width(s.last())
    }
}

/// The number of leading characters of `s` that take exactly `n` bytes, if
/// byte offset `n` is a character boundary of `s`.
pub open spec fn char_index_at_byte(s: Seq<char>, n: int) -> Option<int>
    decreases s.len(),
{
    if n == 0 {
        Some(0)
    } else if n < 0 || s.len() == 0 {
        None
    } else {
        match char_index_at_byte(s.drop_first(), n - utf8_width(s[0])) {
            Some(j) => Some(j + 1),
            None => None,
        }
    }
}

/// The rest of `text` from the byte offset at which `"s:"` first occurs in
/// `orig` (`text.drain(orig.find("s:")..)`): `Err` where that offset is not
/// a character boundary of `text`, `Ok(None)` where `orig` holds no `"s:"`.
pub open spec fn cut_at_members(orig: Seq<char>, text: Seq<char>) -> Result<Option<Seq<char>>, ()> {
    match find(orig, "s:"@) {
        Some(i) => match char_index_at_byte(text, utf8_len(orig.take(i))) {
            Some(j) => Ok(Some(text.skip(j))),
            None => Err(()),
        },
        None => Ok(None),
    }
}

pub fn utf8_width_of(c: char) -> (w: u128)
    ensures
        w == utf8_width(c),
        1 <= w <= 4,
{
    let v = c as u32;
    if v < 0x80 {
        1
    } else if v < 0x800 {
        2
    } else if v < 0x10000 {
        3
    } else {
        4
    }
}

/// The number of bytes of the first `k` characters of `s`.
pub fn utf8_len_of(s: &[char], k: usize) -> (n: u128)
    requires
        k <= s.len(),
    ensures
        n == utf8_len(s@.take(k as int)),
{
    let mut acc: u128 = 0;
    let mut j: usize = 0;
    assert(s@.take(0) =~= Seq::<char>::empty());
    while j < k
        invariant
            j <= k <= s.len(),
            acc == utf8_len(s@.take(j as int)),
            acc <= 4 * j,
        decreases k - j,
    {
        assert(s@.take(j + 1).drop_last() =~= s@.take(j as int));
        acc = acc + utf8_width_of(s[j]);
        j += 1;
    }
    acc
}

/// The character index of byte offset `n` of `s`, where `n` is a
/// character boundary.
pub fn char_index_at(s: &[char], n: u128) -> (r: Option<usize>)
    ensures
        match r {
            Some(j) => char_index_at_byte(s@, n as int) == Some(j as int),
            None => char_index_at_byte(s@, n as int) is None,
        },
{
    let mut acc: u128 = 0;
    let mut j: usize = 0;
    assert(s@.skip(0) =~= s@);
    while acc < n && j < s.len()
        invariant
            j <= s.len(),
            acc <= n,
            char_index_at_byte(s@, n as int) == (match char_index_at_byte(
                s@.skip(j as int),
                n - acc,
            ) {
                Some(x) => Some(x + j),
                None => None,
            }),
        decreases s.len() - j,
    {
        let w = utf8_width_of(s[j]);
        assert(s@.skip(j as int).drop_first() =~= s@.skip(j + 1));
        assert(s@.skip(j as int)[0] == s@[j as int]);
        if w > n - acc {
            assert(char_index_at_byte(s@.skip(j + 1), n - acc - w) is None);
            return None;
        }
        acc = acc + w;
        j += 1;
    }
    if acc == n {
        Some(j)
    } else {
        None
    }
}

pub proof fn lemma_char_index_bound(s: Seq<char>, n: int)
    ensures
        char_index_at_byte(s, n) matches Some(j) ==> 0 <= j <= s.len(),
    decreases s.len(),
{
    if n != 0 && !(n < 0 || s.len() == 0) {
        lemma_char_index_bound(s.drop_first(), n - utf8_width(s[0]));
    }
}

/// `text.drain(orig.find("s:")..)`, or `Err` where that would panic.
pub fn cut_at_members_of(orig: &[char], text: &[char]) -> (r: Result<Option<Vec<char>>, ()>)
    ensures
        match r {
            Ok(Some(t)) => cut_at_members(orig@, text@) == Ok::<Option<Seq<char>>, ()>(Some(t@)),
            Ok(None) => cut_at_members(orig@, text@) == Ok::<Option<Seq<char>>, ()>(None),
            Err(_) => cut_at_members(orig@, text@) is Err,
        },
{
    let pat = chars_of("s:");
    match find_chars(orig, pat.as_slice()) {
        Some(i) => {
            proof {
                lemma_find(orig@, pat@);
            }
            let n = utf8_len_of(orig, i);
            match char_index_at(text, n) {
                Some(j) => {
                    proof {
                        lemma_char_index_bound(text@, n as int);
                    }
                    Ok(Some(slice_of(text, j, text.len())))
                },
                None => Err(()),
            }
        },
        None => Ok(None),
    }
}

// ---------------------------------------------------------------------
// `key: value` lines
// ---------------------------------------------------------------------

/// The key of a `key: value` line, tabs removed.
pub open spec fn line_key(line: Seq<char>) -> Option<Seq<char>> {
    match split_once(drop_char(line, '\t'), ':') {
        Some((k, _)) => Some(k),
        None => None,
    }
}

/// Some line after the first has the key `key`.
pub open spec fn has_key_line(buffer: Seq<char>, key: Seq<char>) -> bool {
    exists|i: int| 1 <= i < lines(buffer).len() && line_key(#[trigger] lines(buffer)[i]) == Some(key)
}

} // verus!
