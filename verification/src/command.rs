//! The command surface: parsing one line of the session shell into a
//! command, and the display truncation helper.
//!
//! The grammar mirrors the shell's line format: a keyword, then up to
//! two further fields split on single whitespace characters, the last
//! field taking the rest of the line.  A line that does not parse is
//! a malformed command and yields `None`; the shell reports it without
//! touching the ledger.
use vstd::prelude::*;

use crate::ledger::OpV;
use crate::ledger::UpdateCmd;

verus! {

/// A token separator: ASCII whitespace.
pub open spec fn is_space(c: char) -> bool {
    c == ' ' || c == '\t' || c == '\n' || c == '\r'
}

/// The position of the first separator at or after `from`; `s.len()`
/// when there is none.
pub open spec fn first_space(s: Seq<char>, from: int) -> int
    recommends
        0 <= from <= s.len(),
    decreases s.len() - from,
{
    if from < 0 || from >= s.len() {
        s.len() as int
    } else if is_space(s[from]) {
        from
    } else {
        first_space(s, from + 1)
    }
}

/// If nothing in `[from, i)` is a separator and position `i` (when it
/// exists) is one, then `i` is the first separator.
pub proof fn lemma_first_space_at(s: Seq<char>, from: int, i: int)
    requires
        0 <= from <= i <= s.len(),
        forall|k: int| from <= k < i ==> !is_space(s[k]),
        i < s.len() ==> is_space(s[i]),
    ensures
        first_space(s, from) == i,
    decreases i - from,
{
    if from < i {
        lemma_first_space_at(s, from + 1, i);
    }
}

/// `s` split on every separator, from `from` to the end; adjacent
/// separators yield empty pieces, and there is always at least one
/// piece.
pub open spec fn split_all(s: Seq<char>, from: int) -> Seq<Seq<char>>
    recommends
        0 <= from <= s.len(),
    decreases s.len() - from,
{
    let p = first_space(s, from);
    if p >= s.len() || p < from {
        seq![s.subrange(from, s.len() as int)]
    } else {
        seq![s.subrange(from, p)] + split_all(s, p + 1)
    }
}

/// A decimal digit.
pub open spec fn is_digit(c: char) -> bool {
    c == '0' || c == '1' || c == '2' || c == '3' || c == '4' || c == '5' || c == '6' || c == '7'
        || c == '8' || c == '9'
}

/// The value of a decimal digit.
pub open spec fn digit_val(c: char) -> int {
    if c == '0' {
        0
    } else if c == '1' {
        1
    } else if c == '2' {
        2
    } else if c == '3' {
        3
    } else if c == '4' {
        4
    } else if c == '5' {
        5
    } else if c == '6' {
        6
    } else if c == '7' {
        7
    } else if c == '8' {
        8
    } else {
        9
    }
}

pub open spec fn all_digits(s: Seq<char>) -> bool {
    forall|k: int| 0 <= k < s.len() ==> is_digit(s[k])
}

/// The numeric value of a digit string, most significant digit first.
pub open spec fn dec_val(s: Seq<char>) -> int
    decreases s.len(),
{
    if s.len() == 0 {
        0
    } else {
        dec_val(s.drop_last()) * 10 + digit_val(s.last())
    }
}

pub proof fn lemma_dec_val_nonneg(s: Seq<char>)
    requires
        all_digits(s),
    ensures
        dec_val(s) >= 0,
    decreases s.len(),
{
    if s.len() > 0 {
        assert(all_digits(s.drop_last()));
        lemma_dec_val_nonneg(s.drop_last());
    }
}

/// A longer digit string never has a smaller value: every digit-string
/// prefix of `s` is bounded by `s` itself.
pub proof fn lemma_dec_val_prefix(s: Seq<char>, k: int)
    requires
        all_digits(s),
        0 <= k <= s.len(),
    ensures
        dec_val(s.subrange(0, k)) <= dec_val(s),
    decreases s.len() - k,
{
    if k == s.len() {
        assert(s.subrange(0, k) =~= s);
    } else {
        let t = s.subrange(0, k + 1);
        assert(t.drop_last() =~= s.subrange(0, k));
        assert(all_digits(t));
        lemma_dec_val_nonneg(t.drop_last());
        assert(dec_val(s.subrange(0, k)) <= dec_val(t));
        lemma_dec_val_prefix(s, k + 1);
    }
}

/// What `str::parse` yields on a plain digit string: the value when the
/// string is nonempty, all digits, and the value fits the type.
pub open spec fn parse_u64_spec(s: Seq<char>) -> Option<u64> {
    if s.len() > 0 && all_digits(s) && dec_val(s) <= u64::MAX {
        Some(dec_val(s) as u64)
    } else {
        None
    }
}

pub open spec fn parse_usize_spec(s: Seq<char>) -> Option<usize> {
    if s.len() > 0 && all_digits(s) && dec_val(s) <= usize::MAX {
        Some(dec_val(s) as usize)
    } else {
        None
    }
}

/// Every token parsed as a statement index, or `None` if any fails.
pub open spec fn parse_indices(toks: Seq<Seq<char>>) -> Option<Seq<usize>>
    decreases toks.len(),
{
    if toks.len() == 0 {
        Some(Seq::empty())
    } else {
        match (parse_usize_spec(toks[0]), parse_indices(toks.drop_first())) {
            (Some(v), Some(rest)) => Some(seq![v] + rest),
            _ => None,
        }
    }
}

/// A parsed shell command, as the model sees it.
pub enum CmdV {
    Update(OpV),
    Inspect,
    Quit,
    Show,
    Dump,
}

/// What one shell line parses to.  The line is split on single
/// whitespace characters into at most three fields: a keyword, then
/// per keyword the further fields, the last one taking the rest of the
/// line.  `None` is a malformed command.
pub open spec fn spec_parse(s: Seq<char>) -> Option<CmdV> {
    let n = s.len() as int;
    let p1 = first_space(s, 0);
    let kw = s.subrange(0, p1);
    if kw == "say"@ {
        if p1 < n {
            let p2 = first_space(s, p1 + 1);
            if p2 < n {
                Some(
                    CmdV::Update(
                        OpV::Declare {
                            author: s.subrange(p1 + 1, p2),
                            payload: s.subrange(p2 + 1, n),
                        },
                    ),
                )
            } else {
                None
            }
        } else {
            None
        }
    } else if kw == "agree"@ {
        if p1 < n {
            let p2 = first_space(s, p1 + 1);
            if p2 < n {
                match (parse_usize_spec(s.subrange(p1 + 1, p2)), parse_u64_spec(
                    s.subrange(p2 + 1, n),
                )) {
                    (Some(idx), Some(at)) => Some(CmdV::Update(OpV::Bind { stmt: idx, at })),
                    _ => None,
                }
            } else {
                None
            }
        } else {
            None
        }
    } else if kw == "enact"@ {
        if p1 < n {
            let p2 = first_space(s, p1 + 1);
            if p2 < n {
                match parse_indices(split_all(s, p2 + 1)) {
                    Some(vals) => Some(
                        CmdV::Update(
                            OpV::Enact {
                                actor: s.subrange(p1 + 1, p2),
                                basis: vals[0],
                                justification: vals.drop_first(),
                            },
                        ),
                    ),
                    None => None,
                }
            } else {
                None
            }
        } else {
            None
        }
    } else if kw == "now"@ {
        if p1 < n {
            let p2 = first_space(s, p1 + 1);
            match parse_u64_spec(s.subrange(p1 + 1, p2)) {
                Some(now) => if p2 == n || p2 + 1 == n {
                    Some(CmdV::Update(OpV::SetTime { now }))
                } else {
                    None
                },
                None => None,
            }
        } else {
            None
        }
    } else if kw == "inspect"@ {
        Some(CmdV::Inspect)
    } else if kw == "quit"@ {
        Some(CmdV::Quit)
    } else if kw == "dump"@ {
        Some(CmdV::Dump)
    } else if kw == "show"@ {
        Some(CmdV::Show)
    } else {
        None
    }
}

/// A parsed shell command: a mutation request, or one of the session
/// keywords.
#[derive(Clone, Debug, PartialEq, Eq)]
pub enum Cmd {
    Update(UpdateCmd),
    Inspect,
    Quit,
    Show,
    Dump,
}

impl View for Cmd {
    type V = CmdV;

    open spec fn view(&self) -> CmdV {
        match self {
            Cmd::Update(u) => CmdV::Update(u@),
            Cmd::Inspect => CmdV::Inspect,
            Cmd::Quit => CmdV::Quit,
            Cmd::Show => CmdV::Show,
            Cmd::Dump => CmdV::Dump,
        }
    }
}

/// The position of the first separator in `s` at or after `from`,
/// executably.
fn find_space(s: &str, from: usize) -> (p: usize)
    requires
        from <= s@.len(),
    ensures
        p == first_space(s@, from as int),
        from <= p <= s@.len(),
{
    let n = s.unicode_len();
    let mut i: usize = from;
    loop
        invariant_except_break
            from <= i <= n,
            n == s@.len(),
            forall|k: int| from <= k < i ==> !is_space(s@[k]),
        ensures
            from <= i <= n,
            forall|k: int| from <= k < i ==> !is_space(s@[k]),
            i == n || is_space(s@[i as int]),
        decreases n - i,
    {
        if i == n {
            break ;
        }
        let c = s.get_char(i);
        if c == ' ' || c == '\t' || c == '\n' || c == '\r' {
            break ;
        }
        i = i + 1;
    }
    proof {
        lemma_first_space_at(s@, from as int, i as int);
    }
    i
}

/// Character-for-character string equality.
fn str_eq(a: &str, b: &str) -> (r: bool)
    ensures
        r == (a@ == b@),
{
    let na = a.unicode_len();
    let nb = b.unicode_len();
    if na != nb {
        return false;
    }
    let mut i: usize = 0;
    while i < na
        invariant
            i <= na,
            na == a@.len(),
            na == b@.len(),
            forall|k: int| 0 <= k < i ==> a@[k] == b@[k],
        decreases na - i,
    {
        let ca = a.get_char(i);
        let cb = b.get_char(i);
        if ca != cb {
            return false;
        }
        i = i + 1;
    }
    proof {
        assert(a@ =~= b@);
    }
    true
}

/// The value of one decimal digit, executably.
fn digit_val_x(c: char) -> (r: Option<u64>)
    ensures
        r == if is_digit(c) {
            Some(digit_val(c) as u64)
        } else {
            None::<u64>
        },
{
    if c == '0' {
        Some(0)
    } else if c == '1' {
        Some(1)
    } else if c == '2' {
        Some(2)
    } else if c == '3' {
        Some(3)
    } else if c == '4' {
        Some(4)
    } else if c == '5' {
        Some(5)
    } else if c == '6' {
        Some(6)
    } else if c == '7' {
        Some(7)
    } else if c == '8' {
        Some(8)
    } else if c == '9' {
        Some(9)
    } else {
        None
    }
}

/// Parses a plain digit string as a `u64`, rejecting anything else and
/// any value that does not fit.
fn parse_u64(s: &str) -> (r: Option<u64>)
    ensures
        r == parse_u64_spec(s@),
{
    let n = s.unicode_len();
    if n == 0 {
        return None;
    }
    let mut acc: u64 = 0;
    let mut i: usize = 0;
    while i < n
        invariant
            i <= n,
            n == s@.len(),
            all_digits(s@.subrange(0, i as int)),
            acc == dec_val(s@.subrange(0, i as int)),
        decreases n - i,
    {
        let c = s.get_char(i);
        match digit_val_x(c) {
            None => {
                proof {
                    assert(!is_digit(s@[i as int]));
                    assert(!all_digits(s@));
                }
                return None;
            },
            Some(d) => {
                proof {
                    let cur = s@.subrange(0, i + 1 as int);
                    assert(cur.drop_last() =~= s@.subrange(0, i as int));
                    assert(cur.last() == s@[i as int]);
                    assert(all_digits(cur));
                    assert(dec_val(cur) == acc * 10 + d);
                }
                if acc > (u64::MAX - d) / 10 {
                    proof {
                        assert(acc * 10 + d > u64::MAX);
                        if all_digits(s@) {
                            lemma_dec_val_prefix(s@, i + 1);
                            assert(dec_val(s@) > u64::MAX);
                        }
                    }
                    return None;
                }
                proof {
                    assert(acc * 10 + d <= u64::MAX);
                }
                acc = acc * 10 + d;
            },
        }
        i = i + 1;
    }
    proof {
        assert(s@.subrange(0, n as int) =~= s@);
    }
    Some(acc)
}

/// Parses a plain digit string as a `usize`, rejecting anything else
/// and any value that does not fit.
fn parse_usize(s: &str) -> (r: Option<usize>)
    ensures
        r == parse_usize_spec(s@),
{
    let n = s.unicode_len();
    if n == 0 {
        return None;
    }
    let mut acc: usize = 0;
    let mut i: usize = 0;
    while i < n
        invariant
            i <= n,
            n == s@.len(),
            all_digits(s@.subrange(0, i as int)),
            acc == dec_val(s@.subrange(0, i as int)),
        decreases n - i,
    {
        let c = s.get_char(i);
        match digit_val_x(c) {
            None => {
                proof {
                    assert(!is_digit(s@[i as int]));
                    assert(!all_digits(s@));
                }
                return None;
            },
            Some(d64) => {
                let d = (d64 % 10) as usize;
                proof {
                    assert(d == digit_val(s@[i as int]));
                    let cur = s@.subrange(0, i + 1 as int);
                    assert(cur.drop_last() =~= s@.subrange(0, i as int));
                    assert(cur.last() == s@[i as int]);
                    assert(all_digits(cur));
                    assert(dec_val(cur) == acc * 10 + d);
                }
                if acc > (usize::MAX - d) / 10 {
                    proof {
                        assert(acc * 10 + d > usize::MAX);
                        if all_digits(s@) {
                            lemma_dec_val_prefix(s@, i + 1);
                            assert(dec_val(s@) > usize::MAX);
                        }
                    }
                    return None;
                }
                proof {
                    assert(acc * 10 + d <= usize::MAX);
                }
                acc = acc * 10 + d;
            },
        }
        i = i + 1;
    }
    proof {
        assert(s@.subrange(0, n as int) =~= s@);
    }
    Some(acc)
}

/// Parses every whitespace-separated token from `from` to the end of
/// the line as a statement index.
fn parse_index_list(s: &str, from: usize) -> (r: Option<Vec<usize>>)
    requires
        from <= s@.len(),
    ensures
        r is Some <==> parse_indices(split_all(s@, from as int)) is Some,
        r matches Some(v) ==> parse_indices(split_all(s@, from as int)) == Some(v@),
    decreases s@.len() - from,
{
    let n = s.unicode_len();
    let q = find_space(s, from);
    let tok = s.substring_char(from, q);
    let ghost toks = split_all(s@, from as int);
    proof {
        assert(toks[0] == s@.subrange(from as int, if q < n { q as int } else { n as int }));
        assert(tok@ == toks[0]);
    }
    match parse_usize(tok) {
        None => None,
        Some(v) => {
            if q == n {
                let mut out: Vec<usize> = Vec::new();
                out.push(v);
                proof {
                    assert(toks =~= seq![s@.subrange(from as int, n as int)]);
                    assert(toks.drop_first() =~= Seq::<Seq<char>>::empty());
                    assert(seq![v] + Seq::<usize>::empty() =~= seq![v]);
                    assert(parse_indices(Seq::<Seq<char>>::empty()) == Some(
                        Seq::<usize>::empty(),
                    ));
                    assert(parse_indices(toks) == Some(seq![v]));
                    assert(out@ =~= seq![v]);
                }
                Some(out)
            } else {
                match parse_index_list(s, q + 1) {
                    None => {
                        proof {
                            assert(toks.drop_first() =~= split_all(s@, q + 1 as int));
                        }
                        None
                    },
                    Some(mut rest) => {
                        let ghost rest0 = rest@;
                        rest.insert(0, v);
                        proof {
                            assert(toks.drop_first() =~= split_all(s@, q + 1 as int));
                            assert(rest@ =~= seq![v] + rest0);
                        }
                        Some(rest)
                    },
                }
            }
        },
    }
}

impl Cmd {
    /// Parses one shell line.  `None` is a malformed command; the
    /// caller reports it and the session continues.
    pub fn parse(input: &str) -> (r: Option<Cmd>)
        ensures
            r is Some <==> spec_parse(input@) is Some,
            r matches Some(c) ==> spec_parse(input@) == Some(c@),
    {
        let n = input.unicode_len();
        let p1 = find_space(input, 0);
        let kw = input.substring_char(0, p1);
        if str_eq(kw, "say") {
            if p1 == n {
                return None;
            }
            let p2 = find_space(input, p1 + 1);
            if p2 == n {
                return None;
            }
            let sayer = input.substring_char(p1 + 1, p2).to_owned();
            let payload = input.substring_char(p2 + 1, n).to_owned();
            Some(Cmd::Update(UpdateCmd::Say { sayer, payload }))
        } else if str_eq(kw, "agree") {
            if p1 == n {
                return None;
            }
            let p2 = find_space(input, p1 + 1);
            if p2 == n {
                return None;
            }
            let idx = parse_usize(input.substring_char(p1 + 1, p2));
            let at = parse_u64(input.substring_char(p2 + 1, n));
            match (idx, at) {
                (Some(on_idx), Some(at)) => Some(Cmd::Update(UpdateCmd::Agree { on_idx, at })),
                _ => None,
            }
        } else if str_eq(kw, "enact") {
            if p1 == n {
                return None;
            }
            let p2 = find_space(input, p1 + 1);
            if p2 == n {
                return None;
            }
            let actor = input.substring_char(p1 + 1, p2).to_owned();
            match parse_index_list(input, p2 + 1) {
                None => None,
                Some(mut vals) => {
                    let ghost vals0 = vals@;
                    let basis = vals.remove(0);
                    proof {
                        assert(vals@ =~= vals0.drop_first());
                    }
                    Some(Cmd::Update(UpdateCmd::Enact { actor, basis, justification: vals }))
                },
            }
        } else if str_eq(kw, "now") {
            if p1 == n {
                return None;
            }
            let p2 = find_space(input, p1 + 1);
            match parse_u64(input.substring_char(p1 + 1, p2)) {
                None => None,
                Some(now) => {
                    if p2 == n || p2 + 1 == n {
                        Some(Cmd::Update(UpdateCmd::Now { now }))
                    } else {
                        None
                    }
                },
            }
        } else if str_eq(kw, "inspect") {
            Some(Cmd::Inspect)
        } else if str_eq(kw, "quit") {
            Some(Cmd::Quit)
        } else if str_eq(kw, "dump") {
            Some(Cmd::Dump)
        } else if str_eq(kw, "show") {
            Some(Cmd::Show)
        } else {
            None
        }
    }
}

/// The payload as shown by the session tables: at most 40 characters,
/// with an ellipsis marker as the second piece when something was cut.
pub fn trucated(s: &str) -> (r: [&str; 2])
    ensures
        s@.len() > 40 ==> r@[0]@ == s@.subrange(0, 40) && r@[1]@ == "..."@,
        s@.len() <= 40 ==> r@[0]@ == s@ && r@[1]@ == ""@,
{
    let n = s.unicode_len();
    if n > 40 {
        [s.substring_char(0, 40), "..."]
    } else {
        [s, ""]
    }
}

} // verus!
