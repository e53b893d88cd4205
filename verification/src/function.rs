//! Function blocks (`fn name` with its linkage name, location, address,
//! size, return type, parameters, variables, stack frame and inlined
//! functions).
use vstd::prelude::*;
use crate::support::{
    address_range, address_range_of, empty_address, file_name, file_name_of, i32_value,
    i32_value_of, location, location_of, source_location, source_location_of, u32_value,
    u32_value_of, AddressData, AddressView, ReturnType, ReturnTypeView,
};
use crate::text::{
    body_lines, body_lines_of, chars_of, contains, contains_chars, drop_char, drop_char_chars, find, find_chars, is_text,
    lemma_split_once_at, lines, lines_of, slice_of, split_once, split_once_chars, string_of, texts,
    trim, trim_chars,
};

verus! {

pub open spec fn opt_text(o: Option<String>) -> Option<Seq<char>> {
    match o {
        Some(s) => Some(s@),
        None => None,
    }
}

pub open spec fn opt_string(o: Option<Vec<char>>) -> Option<Seq<char>> {
    match o {
        Some(s) => Some(s@),
        None => None,
    }
}

// ---------------------------------------------------------------------
// Return type
// ---------------------------------------------------------------------

/// `[size] type` lines: each sets the return size and type.
pub open spec fn return_line(rt: ReturnTypeView, line: Seq<char>) -> ReturnTypeView {
    match split_once(line, ']') {
        Some((a, b)) => ReturnTypeView {
            return_size: u32_value(trim(drop_char(drop_char(drop_char(a, '['), ']'), '\t'))),
            return_type: trim(b),
        },
        None => rt,
    }
}

pub open spec fn return_upto(ls: Seq<Seq<char>>, n: int) -> ReturnTypeView
    decreases n,
{
    if n <= 0 {
        ReturnTypeView { return_type: Seq::empty(), return_size: 0 }
    } else {
        return_line(return_upto(ls, n - 1), ls[n - 1])
    }
}

/// The return type that a `return type:` section states: its last line
/// with a `']'` decides.
pub open spec fn return_of(input: Seq<char>) -> ReturnTypeView {
    return_upto(body_lines(input), body_lines(input).len() as int)
}

fn return_from(input: &[char]) -> (r: ReturnType)
    ensures
        r@ == return_of(input@),
{
    let ls = body_lines_of(input);
    let ghost sl = body_lines(input@);
    let mut rt = ReturnType { return_type: String::new(), return_size: 0 };
    let mut i: usize = 0;
    while i < ls.len()
        invariant
            texts(ls@) == sl,
            i <= ls.len(),
            rt@ == return_upto(sl, i as int),
        decreases ls.len() - i,
    {
        assert(texts(ls@)[i as int] == ls@[i as int]@);
        match split_once_chars(ls[i].as_slice(), ']') {
            Some((a, b)) => {
                let a1 = drop_char_chars(a.as_slice(), '[');
                let a2 = drop_char_chars(a1.as_slice(), ']');
                let a3 = drop_char_chars(a2.as_slice(), '\t');
                let cleaned = trim_chars(a3.as_slice());
                rt.return_size = u32_value_of(cleaned.as_slice());
                rt.return_type = string_of(trim_chars(b.as_slice()).as_slice());
            },
            None => {},
        }
        i += 1;
    }
    rt
}

/// The return type stated by a `return type:` section.
pub fn handle_fn_return_type(input: &str) -> (r: Option<ReturnType>)
    ensures
        r matches Some(rt) && rt@ == return_of(input@),
{
    let cs = chars_of(input);
    Some(return_from(cs.as_slice()))
}

// ---------------------------------------------------------------------
// Parameters and variables
// ---------------------------------------------------------------------

#[derive(Debug)]
pub struct FnParamData {
    pub fn_param_name: String,
    pub fn_param_type: String,
    pub fn_param_size: u32,
    pub fn_param_stack_frame: i32,
}

pub struct ParamView {
    pub fn_param_name: Seq<char>,
    pub fn_param_type: Seq<char>,
    pub fn_param_size: u32,
    pub fn_param_stack_frame: i32,
}

impl View for FnParamData {
    type V = ParamView;

    open spec fn view(&self) -> ParamView {
        ParamView {
            fn_param_name: self.fn_param_name@,
            fn_param_type: self.fn_param_type@,
            fn_param_size: self.fn_param_size,
            fn_param_stack_frame: self.fn_param_stack_frame,
        }
    }
}

pub open spec fn empty_param() -> ParamView {
    ParamView {
        fn_param_name: Seq::empty(),
        fn_param_type: Seq::empty(),
        fn_param_size: 0,
        fn_param_stack_frame: 0,
    }
}

fn new_param() -> (p: FnParamData)
    ensures
        p@ == empty_param(),
{
    FnParamData {
        fn_param_name: String::new(),
        fn_param_type: String::new(),
        fn_param_size: 0,
        fn_param_stack_frame: 0,
    }
}

/// The size inside `[size]`, brackets removed.
pub open spec fn bracket_size(ps: Seq<char>) -> u32 {
    u32_value(drop_char(drop_char(ps, '['), ']'))
}

fn bracket_size_of(ps: &[char]) -> (r: u32)
    ensures
        r == bracket_size(ps@),
{
    let a = drop_char_chars(ps, '[');
    let b = drop_char_chars(a.as_slice(), ']');
    u32_value_of(b.as_slice())
}

/// A `[size] name: type` line describes the entry under way; any other
/// line gives its stack frame offset (after its `':'`) and completes it.
pub open spec fn param_line(st: (Seq<ParamView>, ParamView), line: Seq<char>) -> (
    Seq<ParamView>,
    ParamView,
) {
    let (done, cur) = st;
    if line.len() > 0 && line[0] == '[' {
        match split_once(line, ':') {
            Some((k, v)) => {
                let c1 = ParamView { fn_param_type: trim(v), ..cur };
                match split_once(k, ']') {
                    Some((ps, pn)) => (
                        done,
                        ParamView {
                            fn_param_name: trim(pn),
                            fn_param_size: bracket_size(ps),
                            ..c1
                        },
                    ),
                    None => (done, c1),
                }
            },
            None => (done, cur),
        }
    } else {
        let c1 = match split_once(line, ':') {
            Some((_, sfs)) => ParamView { fn_param_stack_frame: i32_value(Some(sfs)), ..cur },
            None => cur,
        };
        (done.push(c1), empty_param())
    }
}

pub open spec fn params_upto(ls: Seq<Seq<char>>, n: int) -> (Seq<ParamView>, ParamView)
    decreases n,
{
    if n <= 0 {
        (Seq::empty(), empty_param())
    } else {
        param_line(params_upto(ls, n - 1), ls[n - 1])
    }
}

/// The parameters of a `parameters:` section (tabs removed), if it lists
/// any.
pub open spec fn params_of(input: Seq<char>) -> Option<Seq<ParamView>> {
    let ls = body_lines(drop_char(input, '\t'));
    let r = params_upto(ls, ls.len() as int).0;
    if r.len() > 0 {
        Some(r)
    } else {
        None
    }
}

pub open spec fn param_views(ps: Seq<FnParamData>) -> Seq<ParamView> {
    ps.map_values(|p: FnParamData| p@)
}

pub open spec fn opt_param_views(o: Option<Vec<FnParamData>>) -> Option<Seq<ParamView>> {
    match o {
        Some(v) => Some(param_views(v@)),
        None => None,
    }
}

fn params_from(input: &[char]) -> (r: Option<Vec<FnParamData>>)
    ensures
        opt_param_views(r) == params_of(input@),
{
    let formatted = drop_char_chars(input, '\t');
    let ls = body_lines_of(formatted.as_slice());
    let ghost sl = body_lines(formatted@);
    let mut done: Vec<FnParamData> = Vec::new();
    let mut cur = new_param();
    assert(param_views(done@) =~= Seq::empty());
    let mut i: usize = 0;
    while i < ls.len()
        invariant
            texts(ls@) == sl,
            i <= ls.len(),
            (param_views(done@), cur@) == params_upto(sl, i as int),
        decreases ls.len() - i,
    {
        assert(texts(ls@)[i as int] == ls@[i as int]@);
        let line = ls[i].as_slice();
        if line.len() > 0 && line[0] == '[' {
            match split_once_chars(line, ':') {
                Some((k, v)) => {
                    cur.fn_param_type = string_of(trim_chars(v.as_slice()).as_slice());
                    match split_once_chars(k.as_slice(), ']') {
                        Some((ps, pn)) => {
                            cur.fn_param_name = string_of(trim_chars(pn.as_slice()).as_slice());
                            cur.fn_param_size = bracket_size_of(ps.as_slice());
                        },
                        None => {},
                    }
                },
                None => {},
            }
        } else {
            match split_once_chars(line, ':') {
                Some((_, sfs)) => {
                    cur.fn_param_stack_frame = i32_value_of(sfs.as_slice());
                },
                None => {},
            }
            let mut finished = new_param();
            std::mem::swap(&mut cur, &mut finished);
            proof {
                assert(param_views(done@.push(finished)) =~= param_views(done@).push(finished@));
            }
            done.push(finished);
        }
        i += 1;
    }
    if done.len() > 0 {
        Some(done)
    } else {
        None
    }
}

/// The parameters listed by a `parameters:` section, if any.
pub fn handle_fn_params(input: &String) -> (r: Option<Vec<FnParamData>>)
    ensures
        opt_param_views(r) == params_of(input@),
{
    let cs = chars_of(input.as_str());
    params_from(cs.as_slice())
}

/// A line that starts an entry of a parameter or variable list: it begins
/// with `[`.
pub open spec fn opens_entry(l: Seq<char>) -> bool {
    l.len() > 0 && l[0] == '['
}

/// The number of lines that complete an entry: those that do not start
/// one.
pub open spec fn closing_lines(ls: Seq<Seq<char>>) -> nat
    decreases ls.len(),
{
    if ls.len() == 0 {
        0
    } else {
        closing_lines(ls.drop_last()) + if opens_entry(ls.last()) {
            0nat
        } else {
            1nat
        }
    }
}
proof fn lemma_params_count(ls: Seq<Seq<char>>, n: int)
    requires
        0 <= n <= ls.len(),
    ensures
        params_upto(ls, n).0.len() == closing_lines(ls.take(n)),
    decreases n,
{
    if n > 0 {
        lemma_params_count(ls, n - 1);
        assert(ls.take(n).drop_last() =~= ls.take(n - 1));
        assert(ls.take(n).last() == ls[n - 1]);
    }
}

proof fn lemma_params_prefix(ls: Seq<Seq<char>>, n: int, m: int)
    requires
        0 <= n <= m,
    ensures
        params_upto(ls, n).0.len() <= params_upto(ls, m).0.len(),
        params_upto(ls, m).0.take(params_upto(ls, n).0.len() as int) == params_upto(ls, n).0,
    decreases m,
{
    if m == n {
        assert(params_upto(ls, m).0.take(params_upto(ls, n).0.len() as int) =~= params_upto(ls, n).0);
    } else {
        lemma_params_prefix(ls, n, m - 1);
        let a = params_upto(ls, n).0;
        let b = params_upto(ls, m - 1).0;
        let c = params_upto(ls, m).0;
        if !opens_entry(ls[m - 1]) {
            assert(c.take(a.len() as int) =~= b.take(a.len() as int));
        }
    }
}

proof fn lemma_params_same_start(a: Seq<Seq<char>>, b: Seq<Seq<char>>, n: int)
    requires
        0 <= n <= a.len(),
        n <= b.len(),
        forall|i: int| 0 <= i < n ==> a[i] == b[i],
    ensures
        params_upto(a, n) == params_upto(b, n),
    decreases n,
{
    if n > 0 {
        lemma_params_same_start(a, b, n - 1);
    }
}

/// A section lists one parameter per line that completes one (a line that does
/// not start with `[`), and none where it has no such line.
pub proof fn lemma_params_one_per_entry(input: Seq<char>)
    ensures
        ({
            let ls = body_lines(drop_char(input, '\t'));
            &&& params_of(input) matches Some(v) ==> v.len() == closing_lines(ls)
            &&& params_of(input) is None <==> closing_lines(ls) == 0
        }),
{
    let ls = body_lines(drop_char(input, '\t'));
    lemma_params_count(ls, ls.len() as int);
    assert(ls.take(ls.len() as int) =~= ls);
}

/// More lines after a section's lines only add parameters: every parameter of the
/// shorter section stays, in its place.
pub proof fn lemma_params_append(ls: Seq<Seq<char>>, more: Seq<Seq<char>>)
    ensures
        ({
            let a = params_upto(ls, ls.len() as int).0;
            let b = params_upto(ls + more, (ls + more).len() as int).0;
            a.len() <= b.len() && b.take(a.len() as int) == a
        }),
{
    let all = ls + more;
    lemma_params_same_start(ls, all, ls.len() as int);
    lemma_params_prefix(all, ls.len() as int, all.len() as int);
}

/// A line `[size] name: type` followed by a line `stack: offset` adds one
/// parameter, with that name, type, size and offset, after those before.
pub proof fn lemma_params_pair(ls: Seq<Seq<char>>, head: Seq<char>, stack: Seq<char>)
    requires
        opens_entry(head),
        !opens_entry(stack),
    ensures
        split_once(head, ':') matches Some((k, v)) ==> (split_once(k, ']') matches Some((sz, nm))
            ==> (split_once(stack, ':') matches Some((_, off)) ==> params_upto(
            ls + seq![head, stack],
            ls.len() + 2int,
        ).0 == params_upto(ls, ls.len() as int).0.push(ParamView {
            fn_param_name: trim(nm),
            fn_param_type: trim(v),
            fn_param_size: bracket_size(sz),
            fn_param_stack_frame: i32_value(Some(off)),
        }))),
{
    let all = ls + seq![head, stack];
    let n = ls.len() as int;
    lemma_params_same_start(ls, all, n);
    assert(all[n] == head);
    assert(all[n + 1] == stack);
    assert(params_upto(all, n + 1) == param_line(params_upto(all, n), head));
    assert(params_upto(all, n + 2) == param_line(params_upto(all, n + 1), stack));
}


#[derive(Debug)]
pub struct FnVariableData {
    pub fn_var_name: String,
    pub fn_var_type: Option<String>,
    pub fn_var_size: u32,
    pub fn_var_stack_frame: i32,
}

pub struct VarView {
    pub fn_var_name: Seq<char>,
    pub fn_var_type: Option<Seq<char>>,
    pub fn_var_size: u32,
    pub fn_var_stack_frame: i32,
}

impl View for FnVariableData {
    type V = VarView;

    open spec fn view(&self) -> VarView {
        VarView {
            fn_var_name: self.fn_var_name@,
            fn_var_type: opt_text(self.fn_var_type),
            fn_var_size: self.fn_var_size,
            fn_var_stack_frame: self.fn_var_stack_frame,
        }
    }
}

pub open spec fn empty_var() -> VarView {
    VarView { fn_var_name: Seq::empty(), fn_var_type: None, fn_var_size: 0, fn_var_stack_frame: 0 }
}

fn new_var() -> (v: FnVariableData)
    ensures
        v@ == empty_var(),
{
    FnVariableData { fn_var_name: String::new(), fn_var_type: None, fn_var_size: 0, fn_var_stack_frame: 0 }
}

/// As for parameters: `[size] name: type` lines describe the variable
/// under way, other lines give its stack frame offset and complete it.
pub open spec fn var_line(st: (Seq<VarView>, VarView), line: Seq<char>) -> (Seq<VarView>, VarView) {
    let (done, cur) = st;
    if line.len() > 0 && line[0] == '[' {
        match split_once(line, ':') {
            Some((k, v)) => {
                let c1 = VarView { fn_var_type: Some(trim(v)), ..cur };
                match split_once(k, ']') {
                    Some((ps, pn)) => (
                        done,
                        VarView { fn_var_name: trim(pn), fn_var_size: bracket_size(ps), ..c1 },
                    ),
                    None => (done, c1),
                }
            },
            None => (done, cur),
        }
    } else {
        let c1 = match split_once(line, ':') {
            Some((_, sfs)) => VarView { fn_var_stack_frame: i32_value(Some(sfs)), ..cur },
            None => cur,
        };
        (done.push(c1), empty_var())
    }
}

pub open spec fn vars_upto(ls: Seq<Seq<char>>, n: int) -> (Seq<VarView>, VarView)
    decreases n,
{
    if n <= 0 {
        (Seq::empty(), empty_var())
    } else {
        var_line(vars_upto(ls, n - 1), ls[n - 1])
    }
}

/// The variables of a `variables:` section (tabs removed), if it lists any.
pub open spec fn vars_of(input: Seq<char>) -> Option<Seq<VarView>> {
    let ls = body_lines(drop_char(input, '\t'));
    let r = vars_upto(ls, ls.len() as int).0;
    if r.len() > 0 {
        Some(r)
    } else {
        None
    }
}

pub open spec fn var_views(vs: Seq<FnVariableData>) -> Seq<VarView> {
    vs.map_values(|v: FnVariableData| v@)
}

pub open spec fn opt_var_views(o: Option<Vec<FnVariableData>>) -> Option<Seq<VarView>> {
    match o {
        Some(v) => Some(var_views(v@)),
        None => None,
    }
}

fn vars_from(input: &[char]) -> (r: Option<Vec<FnVariableData>>)
    ensures
        opt_var_views(r) == vars_of(input@),
{
    let formatted = drop_char_chars(input, '\t');
    let ls = body_lines_of(formatted.as_slice());
    let ghost sl = body_lines(formatted@);
    let mut done: Vec<FnVariableData> = Vec::new();
    let mut cur = new_var();
    assert(var_views(done@) =~= Seq::empty());
    let mut i: usize = 0;
    while i < ls.len()
        invariant
            texts(ls@) == sl,
            i <= ls.len(),
            (var_views(done@), cur@) == vars_upto(sl, i as int),
        decreases ls.len() - i,
    {
        assert(texts(ls@)[i as int] == ls@[i as int]@);
        let line = ls[i].as_slice();
        if line.len() > 0 && line[0] == '[' {
            match split_once_chars(line, ':') {
                Some((k, v)) => {
                    cur.fn_var_type = Some(string_of(trim_chars(v.as_slice()).as_slice()));
                    match split_once_chars(k.as_slice(), ']') {
                        Some((ps, pn)) => {
                            cur.fn_var_name = string_of(trim_chars(pn.as_slice()).as_slice());
                            cur.fn_var_size = bracket_size_of(ps.as_slice());
                        },
                        None => {},
                    }
                },
                None => {},
            }
        } else {
            match split_once_chars(line, ':') {
                Some((_, sfs)) => {
                    cur.fn_var_stack_frame = i32_value_of(sfs.as_slice());
                },
                None => {},
            }
            let mut finished = new_var();
            std::mem::swap(&mut cur, &mut finished);
            proof {
                assert(var_views(done@.push(finished)) =~= var_views(done@).push(finished@));
            }
            done.push(finished);
        }
        i += 1;
    }
    if done.len() > 0 {
        Some(done)
    } else {
        None
    }
}

/// The variables listed by a `variables:` section, if any.
pub fn handle_fn_vars(input: &String) -> (r: Option<Vec<FnVariableData>>)
    ensures
        opt_var_views(r) == vars_of(input@),
{
    let cs = chars_of(input.as_str());
    vars_from(cs.as_slice())
}

proof fn lemma_vars_count(ls: Seq<Seq<char>>, n: int)
    requires
        0 <= n <= ls.len(),
    ensures
        vars_upto(ls, n).0.len() == closing_lines(ls.take(n)),
    decreases n,
{
    if n > 0 {
        lemma_vars_count(ls, n - 1);
        assert(ls.take(n).drop_last() =~= ls.take(n - 1));
        assert(ls.take(n).last() == ls[n - 1]);
    }
}

proof fn lemma_vars_prefix(ls: Seq<Seq<char>>, n: int, m: int)
    requires
        0 <= n <= m,
    ensures
        vars_upto(ls, n).0.len() <= vars_upto(ls, m).0.len(),
        vars_upto(ls, m).0.take(vars_upto(ls, n).0.len() as int) == vars_upto(ls, n).0,
    decreases m,
{
    if m == n {
        assert(vars_upto(ls, m).0.take(vars_upto(ls, n).0.len() as int) =~= vars_upto(ls, n).0);
    } else {
        lemma_vars_prefix(ls, n, m - 1);
        let a = vars_upto(ls, n).0;
        let b = vars_upto(ls, m - 1).0;
        let c = vars_upto(ls, m).0;
        if !opens_entry(ls[m - 1]) {
            assert(c.take(a.len() as int) =~= b.take(a.len() as int));
        }
    }
}

proof fn lemma_vars_same_start(a: Seq<Seq<char>>, b: Seq<Seq<char>>, n: int)
    requires
        0 <= n <= a.len(),
        n <= b.len(),
        forall|i: int| 0 <= i < n ==> a[i] == b[i],
    ensures
        vars_upto(a, n) == vars_upto(b, n),
    decreases n,
{
    if n > 0 {
        lemma_vars_same_start(a, b, n - 1);
    }
}

/// A section lists one variable per line that completes one (a line that does
/// not start with `[`), and none where it has no such line.
pub proof fn lemma_vars_one_per_entry(input: Seq<char>)
    ensures
        ({
            let ls = body_lines(drop_char(input, '\t'));
            &&& vars_of(input) matches Some(v) ==> v.len() == closing_lines(ls)
            &&& vars_of(input) is None <==> closing_lines(ls) == 0
        }),
{
    let ls = body_lines(drop_char(input, '\t'));
    lemma_vars_count(ls, ls.len() as int);
    assert(ls.take(ls.len() as int) =~= ls);
}

/// More lines after a section's lines only add variables: every variable of the
/// shorter section stays, in its place.
pub proof fn lemma_vars_append(ls: Seq<Seq<char>>, more: Seq<Seq<char>>)
    ensures
        ({
            let a = vars_upto(ls, ls.len() as int).0;
            let b = vars_upto(ls + more, (ls + more).len() as int).0;
            a.len() <= b.len() && b.take(a.len() as int) == a
        }),
{
    let all = ls + more;
    lemma_vars_same_start(ls, all, ls.len() as int);
    lemma_vars_prefix(all, ls.len() as int, all.len() as int);
}

/// A line `[size] name: type` followed by a line `stack: offset` adds one
/// variable, with that name, type, size and offset, after those before.
pub proof fn lemma_vars_pair(ls: Seq<Seq<char>>, head: Seq<char>, stack: Seq<char>)
    requires
        opens_entry(head),
        !opens_entry(stack),
    ensures
        split_once(head, ':') matches Some((k, v)) ==> (split_once(k, ']') matches Some((sz, nm))
            ==> (split_once(stack, ':') matches Some((_, off)) ==> vars_upto(
            ls + seq![head, stack],
            ls.len() + 2int,
        ).0 == vars_upto(ls, ls.len() as int).0.push(VarView {
            fn_var_name: trim(nm),
            fn_var_type: Some(trim(v)),
            fn_var_size: bracket_size(sz),
            fn_var_stack_frame: i32_value(Some(off)),
        }))),
{
    let all = ls + seq![head, stack];
    let n = ls.len() as int;
    lemma_vars_same_start(ls, all, n);
    assert(all[n] == head);
    assert(all[n + 1] == stack);
    assert(vars_upto(all, n + 1) == var_line(vars_upto(all, n), head));
    assert(vars_upto(all, n + 2) == var_line(vars_upto(all, n + 1), stack));
}


// ---------------------------------------------------------------------
// Stack frame
// ---------------------------------------------------------------------

#[derive(Debug)]
pub struct FnStackFrame {
    pub fn_stack_frame_name: Option<String>,
    pub fn_stack_frame_type: Option<String>,
    pub fn_stack_frame_size: u32,
    pub fn_stack_frame_stack_offset: i32,
}

pub struct FrameView {
    pub fn_stack_frame_name: Option<Seq<char>>,
    pub fn_stack_frame_type: Option<Seq<char>>,
    pub fn_stack_frame_size: u32,
    pub fn_stack_frame_stack_offset: i32,
}

impl View for FnStackFrame {
    type V = FrameView;

    open spec fn view(&self) -> FrameView {
        FrameView {
            fn_stack_frame_name: opt_text(self.fn_stack_frame_name),
            fn_stack_frame_type: opt_text(self.fn_stack_frame_type),
            fn_stack_frame_size: self.fn_stack_frame_size,
            fn_stack_frame_stack_offset: self.fn_stack_frame_stack_offset,
        }
    }
}

pub open spec fn empty_frame() -> FrameView {
    FrameView {
        fn_stack_frame_name: None,
        fn_stack_frame_type: None,
        fn_stack_frame_size: 0,
        fn_stack_frame_stack_offset: 0,
    }
}

/// A stack frame line `offset[size] name: type`, or a gap
/// `offset[size]<unknown>`; what is missing stays empty.
pub open spec fn frame_of(line: Seq<char>) -> FrameView {
    match split_once(line, ':') {
        Some((k, v)) => {
            let f1 = FrameView { fn_stack_frame_type: Some(trim(v)), ..empty_frame() };
            match split_once(k, ']') {
                Some((ps, pn)) => {
                    let f2 = FrameView { fn_stack_frame_name: Some(trim(pn)), ..f1 };
                    match split_once(ps, '[') {
                        Some((off, sz)) => FrameView {
                            fn_stack_frame_stack_offset: i32_value(Some(off)),
                            fn_stack_frame_size: u32_value(sz),
                            ..f2
                        },
                        None => f2,
                    }
                },
                None => f1,
            }
        },
        None => if contains(line, "<unknown>"@) {
            match split_once(line, ']') {
                Some((k, v)) => match split_once(k, '[') {
                    Some((off, sz)) => FrameView {
                        fn_stack_frame_stack_offset: i32_value(Some(off)),
                        fn_stack_frame_size: u32_value(sz),
                        fn_stack_frame_name: Some(v),
                        fn_stack_frame_type: None,
                    },
                    None => empty_frame(),
                },
                None => empty_frame(),
            }
        } else {
            empty_frame()
        },
    }
}

/// The entries of a `stack frame:` section (tabs removed), one per line
/// after the heading, if there are any.
pub open spec fn frames_of(input: Seq<char>) -> Option<Seq<FrameView>> {
    let ls = body_lines(drop_char(input, '\t'));
    if ls.len() > 0 {
        Some(ls.map_values(|l: Seq<char>| frame_of(l)))
    } else {
        None
    }
}

pub open spec fn frame_views(fs: Seq<FnStackFrame>) -> Seq<FrameView> {
    fs.map_values(|f: FnStackFrame| f@)
}

pub open spec fn opt_frame_views(o: Option<Vec<FnStackFrame>>) -> Option<Seq<FrameView>> {
    match o {
        Some(v) => Some(frame_views(v@)),
        None => None,
    }
}

fn frame_from(line: &[char]) -> (f: FnStackFrame)
    ensures
        f@ == frame_of(line@),
{
    let mut f = FnStackFrame {
        fn_stack_frame_name: None,
        fn_stack_frame_type: None,
        fn_stack_frame_size: 0,
        fn_stack_frame_stack_offset: 0,
    };
    match split_once_chars(line, ':') {
        Some((k, v)) => {
            f.fn_stack_frame_type = Some(string_of(trim_chars(v.as_slice()).as_slice()));
            match split_once_chars(k.as_slice(), ']') {
                Some((ps, pn)) => {
                    f.fn_stack_frame_name = Some(string_of(trim_chars(pn.as_slice()).as_slice()));
                    match split_once_chars(ps.as_slice(), '[') {
                        Some((off, sz)) => {
                            f.fn_stack_frame_stack_offset = i32_value_of(off.as_slice());
                            f.fn_stack_frame_size = u32_value_of(sz.as_slice());
                        },
                        None => {},
                    }
                },
                None => {},
            }
        },
        None => {
            let unknown = chars_of("<unknown>");
            if contains_chars(line, unknown.as_slice()) {
                match split_once_chars(line, ']') {
                    Some((k, v)) => {
                        match split_once_chars(k.as_slice(), '[') {
                            Some((off, sz)) => {
                                f.fn_stack_frame_stack_offset = i32_value_of(off.as_slice());
                                f.fn_stack_frame_size = u32_value_of(sz.as_slice());
                                f.fn_stack_frame_name = Some(string_of(v.as_slice()));
                                f.fn_stack_frame_type = None;
                            },
                            None => {},
                        }
                    },
                    None => {},
                }
            }
        },
    }
    f
}

fn frames_from(input: &[char]) -> (r: Option<Vec<FnStackFrame>>)
    ensures
        opt_frame_views(r) == frames_of(input@),
{
    let formatted = drop_char_chars(input, '\t');
    let ls = body_lines_of(formatted.as_slice());
    let ghost sl = body_lines(formatted@);
    let mut fs: Vec<FnStackFrame> = Vec::new();
    assert(frame_views(fs@) =~= Seq::empty());
    let mut i: usize = 0;
    while i < ls.len()
        invariant
            texts(ls@) == sl,
            i <= ls.len(),
            frame_views(fs@) == sl.take(i as int).map_values(|l: Seq<char>| frame_of(l)),
        decreases ls.len() - i,
    {
        assert(texts(ls@)[i as int] == ls@[i as int]@);
        let f = frame_from(ls[i].as_slice());
        proof {
            assert(frame_views(fs@.push(f)) =~= frame_views(fs@).push(f@));
            assert(sl.take(i + 1).map_values(|l: Seq<char>| frame_of(l)) =~= sl.take(
                i as int,
            ).map_values(|l: Seq<char>| frame_of(l)).push(frame_of(sl[i as int])));
        }
        fs.push(f);
        i += 1;
    }
    assert(sl.take(i as int) =~= sl);
    if fs.len() > 0 {
        Some(fs)
    } else {
        None
    }
}

/// The entries of a `stack frame:` section, if any.
pub fn handle_fn_stack_frame(input: &String) -> (r: Option<Vec<FnStackFrame>>)
    ensures
        opt_frame_views(r) == frames_of(input@),
{
    let cs = chars_of(input.as_str());
    frames_from(cs.as_slice())
}

/// A stack frame section lists one entry per line after its heading, in
/// order, each read from its line.
pub proof fn lemma_frames_one_per_line(input: Seq<char>)
    ensures
        ({
            let ls = body_lines(drop_char(input, '\t'));
            match frames_of(input) {
                Some(v) => ls.len() > 0 && v.len() == ls.len() && forall|i: int|
                    0 <= i < ls.len() ==> #[trigger] v[i] == frame_of(ls[i]),
                None => ls.len() == 0,
            }
        }),
{
}

/// A stack frame line `offset[size] name: type`, where the offset holds no
/// bracket and no `':'`, the size no `']'` and no `':'` and the name no
/// `':'`, gives that offset, size, trimmed name and trimmed type.
pub proof fn lemma_frame_line(off: Seq<char>, size: Seq<char>, name: Seq<char>, ty: Seq<char>)
    requires
        forall|i: int| 0 <= i < off.len() ==> #[trigger] off[i] != '[' && off[i] != ']' && off[i]
            != ':',
        forall|i: int| 0 <= i < size.len() ==> #[trigger] size[i] != ']' && size[i] != ':',
        forall|i: int| 0 <= i < name.len() ==> #[trigger] name[i] != ':',
    ensures
        frame_of(off + seq!['['] + size + seq![']'] + name + seq![':'] + ty) == (FrameView {
            fn_stack_frame_name: Some(trim(name)),
            fn_stack_frame_type: Some(trim(ty)),
            fn_stack_frame_size: u32_value(size),
            fn_stack_frame_stack_offset: i32_value(Some(off)),
        }),
{
    let b = off + seq!['['] + size;
    let k = b + seq![']'] + name;
    let x = k + seq![':'] + ty;
    assert(x =~= off + seq!['['] + size + seq![']'] + name + seq![':'] + ty);
    assert forall|i: int| 0 <= i < k.len() implies #[trigger] k[i] != ':' by {
        if i < off.len() {
            assert(k[i] == off[i]);
        } else if off.len() < i < b.len() {
            assert(k[i] == size[i - off.len() - 1]);
        } else if i > b.len() {
            assert(k[i] == name[i - b.len() - 1]);
        }
    }
    lemma_split_once_at(k, ':', ty);
    assert forall|i: int| 0 <= i < b.len() implies #[trigger] b[i] != ']' by {
        if i < off.len() {
            assert(b[i] == off[i]);
        } else if i > off.len() {
            assert(b[i] == size[i - off.len() - 1]);
        }
    }
    lemma_split_once_at(b, ']', name);
    lemma_split_once_at(off, '[', size);
}

// ---------------------------------------------------------------------
// Inlined functions
// ---------------------------------------------------------------------

#[derive(Debug)]
pub struct FnInlinedFunctions {
    pub inlined_fn_name: Option<String>,
    pub inlined_fn_size: u32,
    pub inlined_fn_call_source_path: Option<String>,
    pub line_num: Option<u32>,
    pub line_col: Option<u32>,
}

pub struct InlinedView {
    pub inlined_fn_name: Option<Seq<char>>,
    pub inlined_fn_size: u32,
    pub inlined_fn_call_source_path: Option<Seq<char>>,
    pub line_num: Option<u32>,
    pub line_col: Option<u32>,
}

impl View for FnInlinedFunctions {
    type V = InlinedView;

    open spec fn view(&self) -> InlinedView {
        InlinedView {
            inlined_fn_name: opt_text(self.inlined_fn_name),
            inlined_fn_size: self.inlined_fn_size,
            inlined_fn_call_source_path: opt_text(self.inlined_fn_call_source_path),
            line_num: self.line_num,
            line_col: self.line_col,
        }
    }
}

pub open spec fn empty_inlined() -> InlinedView {
    InlinedView {
        inlined_fn_name: None,
        inlined_fn_size: 0,
        inlined_fn_call_source_path: None,
        line_num: None,
        line_col: None,
    }
}

fn new_inlined() -> (f: FnInlinedFunctions)
    ensures
        f@ == empty_inlined(),
{
    FnInlinedFunctions {
        inlined_fn_name: None,
        inlined_fn_size: 0,
        inlined_fn_call_source_path: None,
        line_num: None,
        line_col: None,
    }
}

/// A `[size] name` line describes the inlined function under way; a line
/// with a `':'` completes it, and where its key mentions `call source`, its
/// value is the call site `path:line:column`.
pub open spec fn inlined_line(st: (Seq<InlinedView>, InlinedView), line: Seq<char>) -> (
    Seq<InlinedView>,
    InlinedView,
) {
    let (done, cur) = st;
    match split_once(line, ':') {
        Some((k, v)) => {
            let c1 = if contains(k, "call source"@) {
                let p = trim(v);
                let c = InlinedView { inlined_fn_call_source_path: Some(p), ..cur };
                match file_name(p) {
                    Some(f) => match location(f) {
                        (Some(l), Some(col)) => InlinedView {
                            line_num: Some(l),
                            line_col: Some(col),
                            ..c
                        },
                        _ => c,
                    },
                    None => c,
                }
            } else {
                cur
            };
            (done.push(c1), empty_inlined())
        },
        None => match split_once(line, ']') {
            Some((k, v)) => (
                done,
                InlinedView {
                    inlined_fn_name: Some(trim(v)),
                    inlined_fn_size: u32_value(drop_char(k, '[')),
                    ..cur
                },
            ),
            None => (done, cur),
        },
    }
}

pub open spec fn inlined_upto(ls: Seq<Seq<char>>, n: int) -> (Seq<InlinedView>, InlinedView)
    decreases n,
{
    if n <= 0 {
        (Seq::empty(), empty_inlined())
    } else {
        inlined_line(inlined_upto(ls, n - 1), ls[n - 1])
    }
}

/// The inlined functions of an `inlined functions:` section (tabs
/// removed), if it lists any.
pub open spec fn inlined_of(input: Seq<char>) -> Option<Seq<InlinedView>> {
    let ls = body_lines(drop_char(input, '\t'));
    let r = inlined_upto(ls, ls.len() as int).0;
    if r.len() > 0 {
        Some(r)
    } else {
        None
    }
}

pub open spec fn inlined_views(fs: Seq<FnInlinedFunctions>) -> Seq<InlinedView> {
    fs.map_values(|f: FnInlinedFunctions| f@)
}

pub open spec fn opt_inlined_views(o: Option<Vec<FnInlinedFunctions>>) -> Option<Seq<InlinedView>> {
    match o {
        Some(v) => Some(inlined_views(v@)),
        None => None,
    }
}

/// A line that completes an inlined function: it holds a `':'`.
pub open spec fn closes_inlined(l: Seq<char>) -> bool {
    split_once(l, ':') is Some
}

/// The number of lines that complete an inlined function.
pub open spec fn inlined_closing_lines(ls: Seq<Seq<char>>) -> nat
    decreases ls.len(),
{
    if ls.len() == 0 {
        0
    } else {
        inlined_closing_lines(ls.drop_last()) + if closes_inlined(ls.last()) {
            1nat
        } else {
            0nat
        }
    }
}

proof fn lemma_inlined_count(ls: Seq<Seq<char>>, n: int)
    requires
        0 <= n <= ls.len(),
    ensures
        inlined_upto(ls, n).0.len() == inlined_closing_lines(ls.take(n)),
    decreases n,
{
    if n > 0 {
        lemma_inlined_count(ls, n - 1);
        assert(ls.take(n).drop_last() =~= ls.take(n - 1));
        assert(ls.take(n).last() == ls[n - 1]);
    }
}

proof fn lemma_inlined_prefix(ls: Seq<Seq<char>>, n: int, m: int)
    requires
        0 <= n <= m,
    ensures
        inlined_upto(ls, n).0.len() <= inlined_upto(ls, m).0.len(),
        inlined_upto(ls, m).0.take(inlined_upto(ls, n).0.len() as int) == inlined_upto(ls, n).0,
    decreases m,
{
    if m == n {
        assert(inlined_upto(ls, m).0.take(inlined_upto(ls, n).0.len() as int) =~= inlined_upto(
            ls,
            n,
        ).0);
    } else {
        lemma_inlined_prefix(ls, n, m - 1);
        let a = inlined_upto(ls, n).0;
        let b = inlined_upto(ls, m - 1).0;
        let c = inlined_upto(ls, m).0;
        if closes_inlined(ls[m - 1]) {
            assert(c.take(a.len() as int) =~= b.take(a.len() as int));
        }
    }
}

proof fn lemma_inlined_same_start(a: Seq<Seq<char>>, b: Seq<Seq<char>>, n: int)
    requires
        0 <= n <= a.len(),
        n <= b.len(),
        forall|i: int| 0 <= i < n ==> a[i] == b[i],
    ensures
        inlined_upto(a, n) == inlined_upto(b, n),
    decreases n,
{
    if n > 0 {
        lemma_inlined_same_start(a, b, n - 1);
    }
}

/// An inlined functions section lists one inlined function per line that
/// completes one (a line with a `':'`), and none where it has no such
/// line.
pub proof fn lemma_inlined_one_per_entry(input: Seq<char>)
    ensures
        ({
            let ls = body_lines(drop_char(input, '\t'));
            &&& inlined_of(input) matches Some(v) ==> v.len() == inlined_closing_lines(ls)
            &&& inlined_of(input) is None <==> inlined_closing_lines(ls) == 0
        }),
{
    let ls = body_lines(drop_char(input, '\t'));
    lemma_inlined_count(ls, ls.len() as int);
    assert(ls.take(ls.len() as int) =~= ls);
}

/// More lines after a section's lines only add inlined functions: every
/// one of the shorter section stays, in its place.
pub proof fn lemma_inlined_append(ls: Seq<Seq<char>>, more: Seq<Seq<char>>)
    ensures
        ({
            let a = inlined_upto(ls, ls.len() as int).0;
            let b = inlined_upto(ls + more, (ls + more).len() as int).0;
            a.len() <= b.len() && b.take(a.len() as int) == a
        }),
{
    let all = ls + more;
    lemma_inlined_same_start(ls, all, ls.len() as int);
    lemma_inlined_prefix(all, ls.len() as int, all.len() as int);
}

/// A line `[size] name` followed by a line `call source: path` adds one
/// inlined function, with that name, size and call site path, after those
/// before.
pub proof fn lemma_inlined_pair(ls: Seq<Seq<char>>, head: Seq<char>, call: Seq<char>)
    requires
        split_once(head, ':') is None,
        contains(call, "call source"@),
    ensures
        split_once(head, ']') matches Some((k, nm)) ==> (split_once(call, ':') matches Some((ck, p))
            ==> (contains(ck, "call source"@) ==> ({
            let before = inlined_upto(ls, ls.len() as int).0;
            let after = inlined_upto(ls + seq![head, call], ls.len() + 2int).0;
            &&& after.len() == before.len() + 1
            &&& after.take(before.len() as int) == before
            &&& after.last().inlined_fn_name == Some(trim(nm))
            &&& after.last().inlined_fn_size == u32_value(drop_char(k, '['))
            &&& after.last().inlined_fn_call_source_path == Some(trim(p))
        }))),
{
    let all = ls + seq![head, call];
    let n = ls.len() as int;
    lemma_inlined_same_start(ls, all, n);
    assert(all[n] == head);
    assert(all[n + 1] == call);
    assert(inlined_upto(all, n + 1) == inlined_line(inlined_upto(all, n), head));
    assert(inlined_upto(all, n + 2) == inlined_line(inlined_upto(all, n + 1), call));
    let after = inlined_upto(all, n + 2).0;
    let before = inlined_upto(ls, n).0;
    assert(after.take(before.len() as int) =~= before);
}

fn inlined_from(input: &[char]) -> (r: Option<Vec<FnInlinedFunctions>>)
    ensures
        opt_inlined_views(r) == inlined_of(input@),
{
    let formatted = drop_char_chars(input, '\t');
    let ls = body_lines_of(formatted.as_slice());
    let ghost sl = body_lines(formatted@);
    let mut done: Vec<FnInlinedFunctions> = Vec::new();
    let mut cur = new_inlined();
    assert(inlined_views(done@) =~= Seq::empty());
    let call_source = chars_of("call source");
    let mut i: usize = 0;
    while i < ls.len()
        invariant
            texts(ls@) == sl,
            call_source@ == "call source"@,
            i <= ls.len(),
            (inlined_views(done@), cur@) == inlined_upto(sl, i as int),
        decreases ls.len() - i,
    {
        assert(texts(ls@)[i as int] == ls@[i as int]@);
        let line = ls[i].as_slice();
        match split_once_chars(line, ':') {
            Some((k, v)) => {
                if contains_chars(k.as_slice(), call_source.as_slice()) {
                    let p = trim_chars(v.as_slice());
                    cur.inlined_fn_call_source_path = Some(string_of(p.as_slice()));
                    match file_name_of(p.as_slice()) {
                        Some(f) => {
                            match location_of(f.as_slice()) {
                                (Some(l), Some(col)) => {
                                    cur.line_num = Some(l);
                                    cur.line_col = Some(col);
                                },
                                _ => {},
                            }
                        },
                        None => {},
                    }
                }
                let mut finished = new_inlined();
                std::mem::swap(&mut cur, &mut finished);
                proof {
                    assert(inlined_views(done@.push(finished)) =~= inlined_views(done@).push(
                        finished@,
                    ));
                }
                done.push(finished);
            },
            None => {
                match split_once_chars(line, ']') {
                    Some((k, v)) => {
                        cur.inlined_fn_name = Some(string_of(trim_chars(v.as_slice()).as_slice()));
                        let k1 = drop_char_chars(k.as_slice(), '[');
                        cur.inlined_fn_size = u32_value_of(k1.as_slice());
                    },
                    None => {},
                }
            },
        }
        i += 1;
    }
    if done.len() > 0 {
        Some(done)
    } else {
        None
    }
}

/// The inlined functions listed by an `inlined functions:` section, if any.
pub fn handle_fn_inlined_functions(input: &String) -> (r: Option<Vec<FnInlinedFunctions>>)
    ensures
        opt_inlined_views(r) == inlined_of(input@),
{
    let cs = chars_of(input.as_str());
    inlined_from(cs.as_slice())
}

// ---------------------------------------------------------------------
// Sections of a function block
// ---------------------------------------------------------------------

/// `s` up to the first `p`, or all of `s` where it holds no `p`.
pub open spec fn cut_before(s: Seq<char>, p: Seq<char>) -> Seq<char> {
    match find(s, p) {
        Some(j) => s.take(j),
        None => s,
    }
}

/// The block from the first `p` on, if it holds `p`.
pub open spec fn section_from(buffer: Seq<char>, p: Seq<char>) -> Option<Seq<char>> {
    match find(buffer, p) {
        Some(i) => Some(buffer.skip(i)),
        None => None,
    }
}

/// From `"\treturn type:"` up to `"parameters:"`.
pub open spec fn return_section(buffer: Seq<char>) -> Option<Seq<char>> {
    match section_from(buffer, "\treturn type:"@) {
        Some(r) => Some(cut_before(r, "parameters:"@)),
        None => None,
    }
}

/// From `"\tparameters:"` up to `"variables:"` and then up to
/// `"stack frame:\n"`.
pub open spec fn params_section(buffer: Seq<char>) -> Option<Seq<char>> {
    match section_from(buffer, "\tparameters:"@) {
        Some(r) => Some(cut_before(cut_before(r, "variables:"@), "stack frame:\n"@)),
        None => None,
    }
}

/// Where the block holds `"\tvariables:\n"`: from the first `"\tvariables:"`
/// up to `"stack frame:\n"`.
pub open spec fn vars_section(buffer: Seq<char>) -> Option<Seq<char>> {
    if contains(buffer, "\tvariables:\n"@) {
        match section_from(buffer, "\tvariables:"@) {
            Some(r) => Some(cut_before(r, "stack frame:\n"@)),
            None => None,
        }
    } else {
        None
    }
}

/// From `"\tstack frame:\n"` up to `"\tinlined functions:\n"`.
pub open spec fn stack_section(buffer: Seq<char>) -> Option<Seq<char>> {
    match section_from(buffer, "\tstack frame:\n"@) {
        Some(r) => Some(cut_before(r, "\tinlined functions:\n"@)),
        None => None,
    }
}

/// From `"\tinlined functions:\n"` on.
pub open spec fn inlined_section(buffer: Seq<char>) -> Option<Seq<char>> {
    section_from(buffer, "\tinlined functions:\n"@)
}

fn cut_before_of(s: Vec<char>, p: &str) -> (r: Vec<char>)
    ensures
        r@ == cut_before(s@, p@),
{
    let pc = chars_of(p);
    match find_chars(s.as_slice(), pc.as_slice()) {
        Some(j) => {
            proof {
                crate::text::lemma_find(s@, pc@);
            }
            slice_of(s.as_slice(), 0, j)
        },
        None => s,
    }
}

fn section_from_of(buffer: &[char], p: &str) -> (r: Option<Vec<char>>)
    ensures
        opt_string(r) == section_from(buffer@, p@),
{
    let pc = chars_of(p);
    match find_chars(buffer, pc.as_slice()) {
        Some(i) => {
            proof {
                crate::text::lemma_find(buffer@, pc@);
            }
            Some(slice_of(buffer, i, buffer.len()))
        },
        None => None,
    }
}

fn return_section_of(buffer: &[char]) -> (r: Option<Vec<char>>)
    ensures
        opt_string(r) == return_section(buffer@),
{
    match section_from_of(buffer, "\treturn type:") {
        Some(r) => Some(cut_before_of(r, "parameters:")),
        None => None,
    }
}

fn params_section_of(buffer: &[char]) -> (r: Option<Vec<char>>)
    ensures
        opt_string(r) == params_section(buffer@),
{
    match section_from_of(buffer, "\tparameters:") {
        Some(r) => Some(cut_before_of(cut_before_of(r, "variables:"), "stack frame:\n")),
        None => None,
    }
}

fn vars_section_of(buffer: &[char]) -> (r: Option<Vec<char>>)
    ensures
        opt_string(r) == vars_section(buffer@),
{
    let marker = chars_of("\tvariables:\n");
    if contains_chars(buffer, marker.as_slice()) {
        match section_from_of(buffer, "\tvariables:") {
            Some(r) => Some(cut_before_of(r, "stack frame:\n")),
            None => None,
        }
    } else {
        None
    }
}

fn stack_section_of(buffer: &[char]) -> (r: Option<Vec<char>>)
    ensures
        opt_string(r) == stack_section(buffer@),
{
    match section_from_of(buffer, "\tstack frame:\n") {
        Some(r) => Some(cut_before_of(r, "\tinlined functions:\n")),
        None => None,
    }
}

// ---------------------------------------------------------------------
// The block
// ---------------------------------------------------------------------

#[derive(Debug)]
pub struct FnData {
    pub name: String,
    pub full_file_path: Option<String>,
    pub linkage_name: Option<String>,
    pub line_num: Option<u32>,
    pub line_col: Option<u32>,
    pub address: AddressData,
    pub total_size: u32,
    pub return_data: Option<ReturnType>,
    pub fn_params: Option<Vec<FnParamData>>,
    pub fn_vars: Option<Vec<FnVariableData>>,
    pub fn_stack_frame: Option<Vec<FnStackFrame>>,
    pub fn_inlined_functions: Option<Vec<FnInlinedFunctions>>,
}

pub struct FnView {
    pub name: Seq<char>,
    pub full_file_path: Option<Seq<char>>,
    pub linkage_name: Option<Seq<char>>,
    pub line_num: Option<u32>,
    pub line_col: Option<u32>,
    pub address: AddressView,
    pub total_size: u32,
    pub return_data: Option<ReturnTypeView>,
    pub fn_params: Option<Seq<ParamView>>,
    pub fn_vars: Option<Seq<VarView>>,
    pub fn_stack_frame: Option<Seq<FrameView>>,
    pub fn_inlined_functions: Option<Seq<InlinedView>>,
}

pub open spec fn opt_return_view(o: Option<ReturnType>) -> Option<ReturnTypeView> {
    match o {
        Some(r) => Some(r@),
        None => None,
    }
}

impl View for FnData {
    type V = FnView;

    open spec fn view(&self) -> FnView {
        FnView {
            name: self.name@,
            full_file_path: opt_text(self.full_file_path),
            linkage_name: opt_text(self.linkage_name),
            line_num: self.line_num,
            line_col: self.line_col,
            address: self.address@,
            total_size: self.total_size,
            return_data: opt_return_view(self.return_data),
            fn_params: opt_param_views(self.fn_params),
            fn_vars: opt_var_views(self.fn_vars),
            fn_stack_frame: opt_frame_views(self.fn_stack_frame),
            fn_inlined_functions: opt_inlined_views(self.fn_inlined_functions),
        }
    }
}

pub open spec fn empty_fn() -> FnView {
    FnView {
        name: Seq::empty(),
        full_file_path: None,
        linkage_name: None,
        line_num: None,
        line_col: None,
        address: empty_address(),
        total_size: 0,
        return_data: None,
        fn_params: None,
        fn_vars: None,
        fn_stack_frame: None,
        fn_inlined_functions: None,
    }
}

impl Default for FnData {
    fn default() -> (r: Self)
        ensures
            r@ == empty_fn(),
    {
        FnData {
            name: String::new(),
            full_file_path: None,
            linkage_name: None,
            line_num: None,
            line_col: None,
            address: AddressData::default(),
            total_size: 0,
            return_data: None,
            fn_params: None,
            fn_vars: None,
            fn_stack_frame: None,
            fn_inlined_functions: None,
        }
    }
}

/// A line `fn name` (tabs removed) names the function.
pub open spec fn fn_name_line(d: FnView, clean: Seq<char>) -> FnView {
    match split_once(clean, ' ') {
        Some((k, v)) => if k == "fn"@ {
            FnView { name: v, ..d }
        } else {
            d
        },
        None => d,
    }
}

/// A `key: value` line (tabs removed) of a function block: each key sets
/// its field; the section keys read their section from the whole block.
pub open spec fn fn_key_line(d: FnView, clean: Seq<char>, buffer: Seq<char>) -> FnView {
    match split_once(clean, ':') {
        Some((key, value)) => if key == "linkage name"@ {
            FnView { linkage_name: Some(trim(value)), ..d }
        } else if key == "source"@ {
            match source_location(value) {
                Some((l, c)) => FnView {
                    line_num: l,
                    line_col: c,
                    full_file_path: Some(trim(value)),
                    ..d
                },
                None => d,
            }
        } else if key == "address"@ {
            let (a, b) = address_range(value);
            FnView {
                address: AddressView {
                    start_address: a,
                    end_address: b,
                    total_size: (u32_value(b) - u32_value(a)) as u32,
                },
                ..d
            }
        } else if key == "return type"@ {
            match return_section(buffer) {
                Some(r) => FnView { return_data: Some(return_of(r)), ..d },
                None => d,
            }
        } else if key == "parameters"@ {
            match params_section(buffer) {
                Some(r) => FnView { fn_params: params_of(r), ..d },
                None => d,
            }
        } else if key == "variables"@ {
            match vars_section(buffer) {
                Some(r) => FnView { fn_vars: vars_of(r), ..d },
                None => d,
            }
        } else if key == "stack frame"@ {
            match stack_section(buffer) {
                Some(r) => FnView { fn_stack_frame: frames_of(r), ..d },
                None => d,
            }
        } else if key == "inlined functions"@ {
            match inlined_section(buffer) {
                Some(r) => FnView { fn_inlined_functions: inlined_of(r), ..d },
                None => d,
            }
        } else if key == "size"@ {
            let size = u32_value(value);
            FnView { address: AddressView { total_size: size, ..d.address }, total_size: size, ..d }
        } else {
            d
        },
        None => d,
    }
}

/// What one line of a function block does to the record.
pub open spec fn fn_line(d: FnView, line: Seq<char>, buffer: Seq<char>) -> FnView {
    let clean = drop_char(line, '\t');
    fn_key_line(fn_name_line(d, clean), clean, buffer)
}

pub open spec fn fn_upto(ls: Seq<Seq<char>>, n: int, buffer: Seq<char>) -> FnView
    decreases n,
{
    if n <= 0 {
        empty_fn()
    } else {
        fn_line(fn_upto(ls, n - 1, buffer), ls[n - 1], buffer)
    }
}

/// The function that a block describes.
pub open spec fn fn_data(buffer: Seq<char>) -> FnView {
    fn_upto(lines(buffer), lines(buffer).len() as int, buffer)
}

/// An `address:` line whose end reads as a number no smaller than its
/// start (their difference is the address range's size), or another line.
pub open spec fn address_line_ok(line: Seq<char>) -> bool {
    match split_once(drop_char(line, '\t'), ':') {
        Some((k, v)) => k == "address"@ ==> u32_value(address_range(v).0) <= u32_value(
            address_range(v).1,
        ),
        None => true,
    }
}

/// `parse_fn_data` can read the block: no address range of it
/// ends below its start.
pub open spec fn fn_ok(buffer: Seq<char>) -> bool {
    forall|i: int| 0 <= i < lines(buffer).len() ==> address_line_ok(#[trigger] lines(buffer)[i])
}

fn fn_step(d: &mut FnData, line: &[char], buffer: &[char]) -> (ok: bool)
    ensures
        ok == address_line_ok(line@),
        ok ==> final(d)@ == fn_line(old(d)@, line@, buffer@),
{
    let clean = drop_char_chars(line, '\t');
    let parts = split_once_chars(clean.as_slice(), ':');
    let ok = match &parts {
        Some((k, v)) => {
            if is_text(k.as_slice(), "address") {
                let (a, b) = address_range_of(v.as_slice());
                u32_value_of(a.as_slice()) <= u32_value_of(b.as_slice())
            } else {
                true
            }
        },
        None => true,
    };
    if !ok {
        return false;
    }
    match split_once_chars(clean.as_slice(), ' ') {
        Some((k, v)) => {
            if is_text(k.as_slice(), "fn") {
                d.name = string_of(v.as_slice());
            }
        },
        None => {},
    }
    match parts {
        Some((key, value)) => {
            let key = key.as_slice();
            let value = value.as_slice();
            if is_text(key, "linkage name") {
                d.linkage_name = Some(string_of(trim_chars(value).as_slice()));
            } else if is_text(key, "source") {
                match source_location_of(value) {
                    Some((l, c)) => {
                        d.line_num = l;
                        d.line_col = c;
                        d.full_file_path = Some(string_of(trim_chars(value).as_slice()));
                    },
                    None => {},
                }
            } else if is_text(key, "address") {
                let (a, b) = address_range_of(value);
                let size = u32_value_of(b.as_slice()) - u32_value_of(a.as_slice());
                d.address = AddressData {
                    start_address: string_of(a.as_slice()),
                    end_address: string_of(b.as_slice()),
                    total_size: size,
                };
            } else if is_text(key, "return type") {
                match return_section_of(buffer) {
                    Some(r) => {
                        d.return_data = Some(return_from(r.as_slice()));
                    },
                    None => {},
                }
            } else if is_text(key, "parameters") {
                match params_section_of(buffer) {
                    Some(r) => {
                        d.fn_params = params_from(r.as_slice());
                    },
                    None => {},
                }
            } else if is_text(key, "variables") {
                match vars_section_of(buffer) {
                    Some(r) => {
                        d.fn_vars = vars_from(r.as_slice());
                    },
                    None => {},
                }
            } else if is_text(key, "stack frame") {
                match stack_section_of(buffer) {
                    Some(r) => {
                        d.fn_stack_frame = frames_from(r.as_slice());
                    },
                    None => {},
                }
            } else if is_text(key, "inlined functions") {
                match section_from_of(buffer, "\tinlined functions:\n") {
                    Some(r) => {
                        d.fn_inlined_functions = inlined_from(r.as_slice());
                    },
                    None => {},
                }
            } else if is_text(key, "size") {
                let size = u32_value_of(value);
                d.address.total_size = size;
                d.total_size = size;
            }
        },
        None => {},
    }
    true
}

/// Parses a `fn` block, or gives `None` where it cannot be read.
pub fn try_parse_fn_data(buffer: &str) -> (r: Option<FnData>)
    ensures
        r is Some <==> fn_ok(buffer@),
        r matches Some(d) ==> d@ == fn_data(buffer@),
{
    let cs = chars_of(buffer);
    let ls = lines_of(cs.as_slice());
    let ghost sl = lines(cs@);
    let mut d = FnData::default();
    let mut i: usize = 0;
    while i < ls.len()
        invariant
            cs@ == buffer@,
            sl == lines(buffer@),
            texts(ls@) == sl,
            i <= ls.len(),
            d@ == fn_upto(sl, i as int, buffer@),
            forall|x: int| 0 <= x < i ==> address_line_ok(#[trigger] sl[x]),
        decreases ls.len() - i,
    {
        assert(texts(ls@)[i as int] == ls@[i as int]@);
        let ok = fn_step(&mut d, ls[i].as_slice(), cs.as_slice());
        if !ok {
            return None;
        }
        i += 1;
    }
    Some(d)
}

/// Parses a `fn` block of ddbug output.
pub fn parse_fn_data(buffer: &str) -> (r: FnData)
    requires
        fn_ok(buffer@),
    ensures
        r@ == fn_data(buffer@),
{
    match try_parse_fn_data(buffer) {
        Some(d) => d,
        None => {
            assert(false);
            FnData::default()
        },
    }
}

/// The lists of a function record hold something where they are present.
pub open spec fn lists_nonempty(d: FnView) -> bool {
    &&& (d.fn_params matches Some(v) ==> v.len() > 0)
    &&& (d.fn_vars matches Some(v) ==> v.len() > 0)
    &&& (d.fn_stack_frame matches Some(v) ==> v.len() > 0)
    &&& (d.fn_inlined_functions matches Some(v) ==> v.len() > 0)
}

proof fn lemma_fn_upto_nonempty(ls: Seq<Seq<char>>, n: int, buffer: Seq<char>)
    ensures
        lists_nonempty(fn_upto(ls, n, buffer)),
    decreases n,
{
    if n > 0 {
        lemma_fn_upto_nonempty(ls, n - 1, buffer);
    }
}

/// A parsed function never holds an empty list of parameters, variables,
/// stack frame entries or inlined functions: where there are none, the
/// list is absent.
pub proof fn lemma_fn_lists_nonempty(buffer: Seq<char>)
    ensures
        lists_nonempty(fn_data(buffer)),
{
    lemma_fn_upto_nonempty(lines(buffer), lines(buffer).len() as int, buffer);
}

/// The `key: value` split of a line of a function block (tabs removed).
pub open spec fn fn_line_kv(line: Seq<char>) -> Option<(Seq<char>, Seq<char>)> {
    split_once(drop_char(line, '\t'), ':')
}

/// The line has the key `key`.
pub open spec fn keyed(line: Seq<char>, key: Seq<char>) -> bool {
    fn_line_kv(line) matches Some((k, _)) && k == key
}

/// The keys of a function block are all different words.
proof fn lemma_fn_keys()
    ensures
        "size"@ != "linkage name"@,
        "size"@ != "source"@,
        "size"@ != "address"@,
        "size"@ != "return type"@,
        "size"@ != "parameters"@,
        "size"@ != "variables"@,
        "size"@ != "stack frame"@,
        "size"@ != "inlined functions"@,
        "address"@ != "linkage name"@,
        "address"@ != "source"@,
{
    reveal_strlit("size");
    reveal_strlit("linkage name");
    reveal_strlit("source");
    reveal_strlit("address");
    reveal_strlit("return type");
    reveal_strlit("parameters");
    reveal_strlit("variables");
    reveal_strlit("stack frame");
    reveal_strlit("inlined functions");
    assert("size"@.len() == 4);
    assert("linkage name"@.len() == 12);
    assert("source"@.len() == 6);
    assert("address"@.len() == 7);
    assert("return type"@.len() == 11);
    assert("parameters"@.len() == 10);
    assert("variables"@.len() == 9);
    assert("stack frame"@.len() == 11);
    assert("inlined functions"@.len() == 17);
}

/// Lines that are neither `address` nor `size` lines leave the address and
/// the size alone.
proof fn lemma_fn_upto_tail(ls: Seq<Seq<char>>, j: int, n: int, buffer: Seq<char>)
    requires
        0 <= j < n <= ls.len(),
        forall|i: int|
            j < i < n ==> !keyed(#[trigger] ls[i], "size"@) && !keyed(ls[i], "address"@),
    ensures
        fn_upto(ls, n, buffer).total_size == fn_upto(ls, j + 1, buffer).total_size,
        fn_upto(ls, n, buffer).address == fn_upto(ls, j + 1, buffer).address,
    decreases n,
{
    if n > j + 1 {
        lemma_fn_upto_tail(ls, j, n - 1, buffer);
        assert(!keyed(ls[n - 1], "size"@) && !keyed(ls[n - 1], "address"@));
    }
}

/// The last `size` line decides the size: where no `size` or `address` line
/// follows it, both the function's size and its address range's size are
/// that line's value.
pub proof fn lemma_fn_last_size(buffer: Seq<char>, j: int, v: Seq<char>)
    requires
        0 <= j < lines(buffer).len(),
        fn_line_kv(lines(buffer)[j]) == Some(("size"@, v)),
        forall|i: int|
            j < i < lines(buffer).len() ==> !keyed(#[trigger] lines(buffer)[i], "size"@) && !keyed(
                lines(buffer)[i],
                "address"@,
            ),
    ensures
        fn_data(buffer).total_size == u32_value(v),
        fn_data(buffer).address.total_size == u32_value(v),
{
    let ls = lines(buffer);
    lemma_fn_keys();
    lemma_fn_upto_tail(ls, j, ls.len() as int, buffer);
}

/// The last `address` line decides the address range: where no `size` or
/// `address` line follows it, the range is that line's start and end, its
/// size their difference.
pub proof fn lemma_fn_last_address(buffer: Seq<char>, j: int, a: Seq<char>)
    requires
        0 <= j < lines(buffer).len(),
        fn_line_kv(lines(buffer)[j]) == Some(("address"@, a)),
        forall|i: int|
            j < i < lines(buffer).len() ==> !keyed(#[trigger] lines(buffer)[i], "size"@) && !keyed(
                lines(buffer)[i],
                "address"@,
            ),
    ensures
        fn_data(buffer).address == (AddressView {
            start_address: address_range(a).0,
            end_address: address_range(a).1,
            total_size: (u32_value(address_range(a).1) - u32_value(address_range(a).0)) as u32,
        }),
{
    let ls = lines(buffer);
    lemma_fn_keys();
    lemma_fn_upto_tail(ls, j, ls.len() as int, buffer);
}

} // verus!
