//! The on-disk encoding of a store: one object mapping livery keys to
//! snapshot records, in a textual object/array/number notation. Writing is
//! deterministic and compact. Reading is tolerant: any input that does not
//! parse yields "absent" rather than an error, unknown record fields are
//! skipped, and missing switch fields default to `0.0`; only the `fuel`
//! field is required of a record.
//!
//! Byte constants name the usual punctuation: `34` is `"`, `92` is `\`,
//! `123`/`125` are `{`/`}`, `91`/`93` are `[`/`]`, `58` is `:`, `44` is `,`.

use vstd::prelude::*;

use crate::bytes::copy_range;
use crate::numtok::{is_digit, is_number_token, lemma_number_end_props, number_end, spec_number_end};
use crate::snapshot::SnapV;

verus! {

// ============================ whitespace ============================

/// A blank byte: space, tab, line feed or carriage return.
pub open spec fn is_ws(b: u8) -> bool {
    b == 32 || b == 9 || b == 10 || b == 13
}

/// The first position at or after `i` that holds no blank byte.
pub open spec fn spec_ws(s: Seq<u8>, i: int) -> int
    decreases s.len() - i,
{
    if 0 <= i && i < s.len() && is_ws(s[i]) {
        spec_ws(s, i + 1)
    } else {
        i
    }
}

/// `spec_ws` stays within bounds and lands on a non-blank byte.
pub proof fn lemma_ws_props(s: Seq<u8>, i: int)
    requires
        0 <= i <= s.len(),
    ensures
        i <= spec_ws(s, i) <= s.len(),
        spec_ws(s, i) == s.len() || !is_ws(s[spec_ws(s, i)]),
    decreases s.len() - i,
{
    if i < s.len() && is_ws(s[i]) {
        lemma_ws_props(s, i + 1);
    }
}

/// Executable whitespace skip.
pub fn ws_from(s: &Vec<u8>, i: usize) -> (r: usize)
    requires
        i <= s@.len(),
    ensures
        r as int == spec_ws(s@, i as int),
        i <= r <= s@.len(),
{
    let n: usize = s.len();
    let mut j: usize = i;
    while j < n && (s[j] == 32 || s[j] == 9 || s[j] == 10 || s[j] == 13)
        invariant
            i <= j <= n,
            n == s@.len(),
            spec_ws(s@, i as int) == spec_ws(s@, j as int),
        decreases n - j,
    {
        j = j + 1;
    }
    j
}

// ============================ strings ============================

/// A byte that may follow a backslash in a string.
pub open spec fn is_escapable(b: u8) -> bool {
    b == 34 || b == 92 || b == 47 || b == 110 || b == 116 || b == 114 || b == 98 || b == 102
}

/// The byte denoted by an escape: `n`, `t`, `r`, `b`, `f` name control
/// bytes; quote, backslash and slash name themselves.
pub open spec fn unescape_byte(b: u8) -> u8 {
    if b == 110 {
        10
    } else if b == 116 {
        9
    } else if b == 114 {
        13
    } else if b == 98 {
        8
    } else if b == 102 {
        12
    } else {
        b
    }
}

/// Scans a string body from `i` (just past the opening quote), accumulating
/// decoded bytes, up to and including the closing quote.
pub open spec fn spec_str_scan(s: Seq<u8>, i: int, acc: Seq<u8>) -> Option<(Seq<u8>, int)>
    decreases s.len() - i,
{
    if i < 0 || i >= s.len() {
        None
    } else if s[i] == 34 {
        Some((acc, i + 1))
    } else if s[i] == 92 {
        if i + 1 < s.len() && is_escapable(s[i + 1]) {
            spec_str_scan(s, i + 2, acc.push(unescape_byte(s[i + 1])))
        } else {
            None
        }
    } else {
        spec_str_scan(s, i + 1, acc.push(s[i]))
    }
}

/// Parses a quoted string starting at `i`: the decoded bytes and the
/// position just past the closing quote.
pub open spec fn spec_parse_string(s: Seq<u8>, i: int) -> Option<(Seq<u8>, int)> {
    if 0 <= i && i < s.len() && s[i] == 34 {
        spec_str_scan(s, i + 1, Seq::<u8>::empty())
    } else {
        None
    }
}

/// A successful string scan ends past its starting point and in bounds.
pub proof fn lemma_str_scan_bounds(s: Seq<u8>, i: int, acc: Seq<u8>)
    ensures
        match spec_str_scan(s, i, acc) {
            Some(p) => i < p.1 <= s.len(),
            None => true,
        },
    decreases s.len() - i,
{
    if 0 <= i && i < s.len() {
        if s[i] == 34 {
        } else if s[i] == 92 {
            if i + 1 < s.len() && is_escapable(s[i + 1]) {
                lemma_str_scan_bounds(s, i + 2, acc.push(unescape_byte(s[i + 1])));
            }
        } else {
            lemma_str_scan_bounds(s, i + 1, acc.push(s[i]));
        }
    }
}

/// Executable string parse.
pub fn parse_string(s: &Vec<u8>, i: usize) -> (r: Option<(Vec<u8>, usize)>)
    requires
        i <= s@.len(),
    ensures
        match r {
            Some(p) => spec_parse_string(s@, i as int) == Some((p.0@, p.1 as int)) && i < p.1
                <= s@.len(),
            None => spec_parse_string(s@, i as int) is None,
        },
{
    let n: usize = s.len();
    if i >= n || s[i] != 34 {
        return None;
    }
    let mut acc: Vec<u8> = Vec::new();
    let mut j: usize = i + 1;
    proof {
        assert(acc@ =~= Seq::<u8>::empty());
    }
    loop
        invariant
            i + 1 <= j <= n,
            n == s@.len(),
            spec_parse_string(s@, i as int) == spec_str_scan(s@, j as int, acc@),
        decreases n - j,
    {
        if j >= n {
            return None;
        }
        let b = s[j];
        if b == 34 {
            return Some((acc, j + 1));
        }
        if b == 92 {
            if j + 1 < n {
                let c = s[j + 1];
                if c == 34 || c == 92 || c == 47 || c == 110 || c == 116 || c == 114 || c == 98
                    || c == 102 {
                    let d: u8 = if c == 110 {
                        10
                    } else if c == 116 {
                        9
                    } else if c == 114 {
                        13
                    } else if c == 98 {
                        8
                    } else if c == 102 {
                        12
                    } else {
                        c
                    };
                    acc.push(d);
                    j = j + 2;
                } else {
                    return None;
                }
            } else {
                return None;
            }
        } else {
            acc.push(b);
            j = j + 1;
        }
    }
}

// ============================ string encoding ============================

/// The encoding of one byte inside a quoted string: quote and backslash get
/// a backslash prefix, all other bytes stand for themselves.
pub open spec fn esc_byte(b: u8) -> Seq<u8> {
    if b == 34 || b == 92 {
        seq![92u8, b]
    } else {
        seq![b]
    }
}

/// The encoding of a byte sequence inside a quoted string.
pub open spec fn escape(k: Seq<u8>) -> Seq<u8>
    decreases k.len(),
{
    if k.len() == 0 {
        Seq::<u8>::empty()
    } else {
        esc_byte(k[0]) + escape(k.skip(1))
    }
}

/// Escaping distributes over concatenation.
pub proof fn lemma_escape_app(a: Seq<u8>, b: Seq<u8>)
    ensures
        escape(a + b) == escape(a) + escape(b),
    decreases a.len(),
{
    if a.len() == 0 {
        assert(a + b =~= b);
        assert(escape(a) + escape(b) =~= escape(b));
    } else {
        assert((a + b).skip(1) =~= a.skip(1) + b);
        lemma_escape_app(a.skip(1), b);
        assert(escape(a + b) =~= escape(a) + escape(b));
    }
}

/// A quoted, escaped string.
pub open spec fn ser_string(k: Seq<u8>) -> Seq<u8> {
    seq![34u8] + escape(k) + seq![34u8]
}

/// Appends the quoted, escaped form of `k` to `out`.
pub fn ser_string_into(out: &mut Vec<u8>, k: &Vec<u8>)
    ensures
        final(out)@ == old(out)@ + ser_string(k@),
{
    out.push(34u8);
    let n: usize = k.len();
    let mut i: usize = 0;
    proof {
        assert(escape(k@.subrange(0, 0)) =~= Seq::<u8>::empty());
        assert(out@ =~= old(out)@ + seq![34u8] + escape(k@.subrange(0, 0)));
    }
    while i < n
        invariant
            i <= n,
            n == k@.len(),
            out@ == old(out)@ + seq![34u8] + escape(k@.subrange(0, i as int)),
        decreases n - i,
    {
        let b = k[i];
        proof {
            assert(k@.subrange(0, i + 1) =~= k@.subrange(0, i as int) + seq![k@[i as int]]);
            lemma_escape_app(k@.subrange(0, i as int), seq![k@[i as int]]);
            assert(seq![k@[i as int]].skip(1) =~= Seq::<u8>::empty());
            assert(escape(Seq::<u8>::empty()) =~= Seq::<u8>::empty());
            assert(escape(seq![k@[i as int]]) =~= esc_byte(k@[i as int]) + Seq::<u8>::empty());
            assert(esc_byte(k@[i as int]) + Seq::<u8>::empty() =~= esc_byte(k@[i as int]));
        }
        if b == 34 || b == 92 {
            out.push(92u8);
            out.push(b);
            proof {
                assert(out@ =~= old(out)@ + seq![34u8] + escape(k@.subrange(0, i + 1)));
            }
        } else {
            out.push(b);
            proof {
                assert(out@ =~= old(out)@ + seq![34u8] + escape(k@.subrange(0, i + 1)));
            }
        }
        i = i + 1;
    }
    out.push(34u8);
    proof {
        assert(k@.subrange(0, n as int) =~= k@);
        assert(out@ =~= old(out)@ + ser_string(k@));
    }
}


// ============================ number values ============================

/// A number token at `i` after optional blanks: the token bytes and the
/// position just past them.
pub open spec fn spec_num_value(s: Seq<u8>, i: int) -> Option<(Seq<u8>, int)> {
    let j = spec_ws(s, i);
    match spec_number_end(s, j) {
        Some(e) => Some((s.subrange(j, e), e)),
        None => None,
    }
}

/// Executable number-value parse. A returned token is itself a well-formed
/// number token.
pub fn parse_num_value(s: &Vec<u8>, i: usize) -> (r: Option<(Vec<u8>, usize)>)
    requires
        i <= s@.len(),
    ensures
        match r {
            Some(p) => spec_num_value(s@, i as int) == Some((p.0@, p.1 as int)) && i < p.1
                <= s@.len() && is_number_token(p.0@),
            None => spec_num_value(s@, i as int) is None,
        },
{
    let j = ws_from(s, i);
    match number_end(s, j) {
        Some(e) => {
            proof {
                lemma_number_end_props(s@, j as int, e as int);
            }
            let tok = copy_range(s, j, e);
            Some((tok, e))
        },
        None => None,
    }
}

/// An array of number tokens at `i` after optional blanks.
pub open spec fn spec_num_array(s: Seq<u8>, i: int) -> Option<(Seq<Seq<u8>>, int)> {
    let j = spec_ws(s, i);
    if j < s.len() && s[j] == 91 {
        let j2 = spec_ws(s, j + 1);
        if j2 < s.len() && s[j2] == 93 {
            Some((Seq::<Seq<u8>>::empty(), j2 + 1))
        } else {
            spec_nums(s, j + 1, Seq::<Seq<u8>>::empty())
        }
    } else {
        None
    }
}

/// The items of a number array from position `i` on: one token, then either
/// a comma and more items or the closing bracket.
pub open spec fn spec_nums(s: Seq<u8>, i: int, acc: Seq<Seq<u8>>) -> Option<(Seq<Seq<u8>>, int)>
    decreases s.len() - i,
{
    if i < 0 || i > s.len() {
        None
    } else {
        match spec_num_value(s, i) {
            None => None,
            Some(p) => {
                let j2 = spec_ws(s, p.1);
                if j2 < s.len() && s[j2] == 44 {
                    if j2 + 1 > i {
                        spec_nums(s, j2 + 1, acc.push(p.0))
                    } else {
                        None
                    }
                } else if j2 < s.len() && s[j2] == 93 {
                    Some((acc.push(p.0), j2 + 1))
                } else {
                    None
                }
            },
        }
    }
}

/// Executable number-array parse. Every returned token is well-formed.
pub fn parse_num_array(s: &Vec<u8>, i: usize) -> (r: Option<(Vec<Vec<u8>>, usize)>)
    requires
        i <= s@.len(),
    ensures
        match r {
            Some(p) => spec_num_array(s@, i as int) == Some((p.0.deep_view(), p.1 as int)) && i
                < p.1 <= s@.len() && (forall|k: int|
                0 <= k < p.0.deep_view().len() ==> is_number_token(#[trigger] p.0.deep_view()[k])),
            None => spec_num_array(s@, i as int) is None,
        },
{
    let n: usize = s.len();
    let j = ws_from(s, i);
    if j >= n || s[j] != 91 {
        return None;
    }
    let j2 = ws_from(s, j + 1);
    if j2 < n && s[j2] == 93 {
        let empty: Vec<Vec<u8>> = Vec::new();
        proof {
            assert(empty.deep_view() =~= Seq::<Seq<u8>>::empty());
        }
        return Some((empty, j2 + 1));
    }
    let mut acc: Vec<Vec<u8>> = Vec::new();
    let mut cur: usize = j + 1;
    proof {
        assert(acc.deep_view() =~= Seq::<Seq<u8>>::empty());
    }
    loop
        invariant
            i < cur <= n,
            n == s@.len(),
            spec_num_array(s@, i as int) == spec_nums(s@, cur as int, acc.deep_view()),
            forall|k: int| 0 <= k < acc.deep_view().len() ==> is_number_token(
                #[trigger] acc.deep_view()[k],
            ),
        decreases n - cur,
    {
        match parse_num_value(s, cur) {
            None => {
                return None;
            },
            Some((tok, e)) => {
                let j3 = ws_from(s, e);
                if j3 < n && s[j3] == 44 {
                    let ghost old_dv = acc.deep_view();
                    let ghost tokv = tok@;
                    proof {
                        assert(tok.deep_view() =~= tokv);
                    }
                    acc.push(tok);
                    proof {
                        assert(acc@[old_dv.len() as int].deep_view() == tokv);
                        assert(acc.deep_view() =~= old_dv.push(tokv));
                    }
                    cur = j3 + 1;
                } else if j3 < n && s[j3] == 93 {
                    let ghost old_dv = acc.deep_view();
                    let ghost tokv = tok@;
                    proof {
                        assert(tok.deep_view() =~= tokv);
                    }
                    acc.push(tok);
                    proof {
                        assert(acc@[old_dv.len() as int].deep_view() == tokv);
                        assert(acc.deep_view() =~= old_dv.push(tokv));
                    }
                    return Some((acc, j3 + 1));
                } else {
                    return None;
                }
            },
        }
    }
}

// ============================ skipped values ============================

/// The bytes of `true`.
pub open spec fn lit_true() -> Seq<u8> {
    seq![116u8, 114u8, 117u8, 101u8]
}

/// The bytes of `false`.
pub open spec fn lit_false() -> Seq<u8> {
    seq![102u8, 97u8, 108u8, 115u8, 101u8]
}

/// The bytes of `null`.
pub open spec fn lit_null() -> Seq<u8> {
    seq![110u8, 117u8, 108u8, 108u8]
}

/// Skips one value of any shape starting at `i` after optional blanks:
/// a string, a number, a literal word, an array or an object. Unknown
/// record fields are skipped through this.
pub open spec fn spec_skip_value(s: Seq<u8>, i: int) -> Option<int>
    decreases s.len() - i, 0int,
{
    if i < 0 || i >= s.len() {
        None
    } else {
        let j = spec_ws(s, i);
        if j >= s.len() {
            None
        } else if s[j] == 34 {
            match spec_parse_string(s, j) {
                Some(p) => Some(p.1),
                None => None,
            }
        } else if s[j] == 45 || is_digit(s[j]) {
            spec_number_end(s, j)
        } else if s[j] == 116 {
            if j + 4 <= s.len() && s.subrange(j, j + 4) == lit_true() {
                Some(j + 4)
            } else {
                None
            }
        } else if s[j] == 102 {
            if j + 5 <= s.len() && s.subrange(j, j + 5) == lit_false() {
                Some(j + 5)
            } else {
                None
            }
        } else if s[j] == 110 {
            if j + 4 <= s.len() && s.subrange(j, j + 4) == lit_null() {
                Some(j + 4)
            } else {
                None
            }
        } else if s[j] == 91 {
            let j2 = spec_ws(s, j + 1);
            if j2 < s.len() && s[j2] == 93 {
                Some(j2 + 1)
            } else if j + 1 > i {
                spec_skip_items(s, j + 1)
            } else {
                None
            }
        } else if s[j] == 123 {
            let j2 = spec_ws(s, j + 1);
            if j2 < s.len() && s[j2] == 125 {
                Some(j2 + 1)
            } else if j + 1 > i {
                spec_skip_members(s, j + 1)
            } else {
                None
            }
        } else {
            None
        }
    }
}

/// Skips the remaining items of an array: one value, then either a comma
/// and more items or the closing bracket.
pub open spec fn spec_skip_items(s: Seq<u8>, i: int) -> Option<int>
    decreases s.len() - i, 1int,
{
    if i < 0 || i > s.len() {
        None
    } else {
        match spec_skip_value(s, i) {
            None => None,
            Some(j) => {
                let j2 = spec_ws(s, j);
                if j2 < s.len() && s[j2] == 44 {
                    if j2 + 1 > i {
                        spec_skip_items(s, j2 + 1)
                    } else {
                        None
                    }
                } else if j2 < s.len() && s[j2] == 93 {
                    Some(j2 + 1)
                } else {
                    None
                }
            },
        }
    }
}

/// Skips the remaining members of an object: a key string, a colon, one
/// value, then either a comma and more members or the closing brace.
pub open spec fn spec_skip_members(s: Seq<u8>, i: int) -> Option<int>
    decreases s.len() - i, 1int,
{
    if i < 0 || i > s.len() {
        None
    } else {
        let j = spec_ws(s, i);
        match spec_parse_string(s, j) {
            None => None,
            Some(p) => {
                let j2 = spec_ws(s, p.1);
                if j2 < s.len() && s[j2] == 58 && j2 + 1 > i {
                    match spec_skip_value(s, j2 + 1) {
                        None => None,
                        Some(j3) => {
                            let j4 = spec_ws(s, j3);
                            if j4 < s.len() && s[j4] == 44 {
                                if j4 + 1 > i {
                                    spec_skip_members(s, j4 + 1)
                                } else {
                                    None
                                }
                            } else if j4 < s.len() && s[j4] == 125 {
                                Some(j4 + 1)
                            } else {
                                None
                            }
                        },
                    }
                } else {
                    None
                }
            },
        }
    }
}

/// Executable skip of one value.
pub fn skip_value(s: &Vec<u8>, i: usize) -> (r: Option<usize>)
    requires
        i <= s@.len(),
    ensures
        match r {
            Some(j) => spec_skip_value(s@, i as int) == Some(j as int) && i < j <= s@.len(),
            None => spec_skip_value(s@, i as int) is None,
        },
    decreases s@.len() - i, 0int,
{
    let n: usize = s.len();
    if i >= n {
        return None;
    }
    let j = ws_from(s, i);
    if j >= n {
        return None;
    }
    let b = s[j];
    if b == 34 {
        match parse_string(s, j) {
            Some((_k, e)) => Some(e),
            None => None,
        }
    } else if b == 45 || (48 <= b && b <= 57) {
        number_end(s, j)
    } else if b == 116 {
        if n - j >= 4 && s[j + 1] == 114 && s[j + 2] == 117 && s[j + 3] == 101 {
            proof {
                assert(s@.subrange(j as int, j + 4) =~= lit_true());
            }
            Some(j + 4)
        } else {
            proof {
                if j + 4 <= n {
                    assert(s@.subrange(j as int, j + 4) != lit_true()) by {
                        let t = s@.subrange(j as int, j + 4);
                        if t == lit_true() {
                            assert(t[1] == 114u8 && t[2] == 117u8 && t[3] == 101u8);
                        }
                    }
                }
            }
            None
        }
    } else if b == 102 {
        if n - j >= 5 && s[j + 1] == 97 && s[j + 2] == 108 && s[j + 3] == 115 && s[j + 4] == 101 {
            proof {
                assert(s@.subrange(j as int, j + 5) =~= lit_false());
            }
            Some(j + 5)
        } else {
            proof {
                if j + 5 <= n {
                    assert(s@.subrange(j as int, j + 5) != lit_false()) by {
                        let t = s@.subrange(j as int, j + 5);
                        if t == lit_false() {
                            assert(t[1] == 97u8 && t[2] == 108u8 && t[3] == 115u8 && t[4]
                                == 101u8);
                        }
                    }
                }
            }
            None
        }
    } else if b == 110 {
        if n - j >= 4 && s[j + 1] == 117 && s[j + 2] == 108 && s[j + 3] == 108 {
            proof {
                assert(s@.subrange(j as int, j + 4) =~= lit_null());
            }
            Some(j + 4)
        } else {
            proof {
                if j + 4 <= n {
                    assert(s@.subrange(j as int, j + 4) != lit_null()) by {
                        let t = s@.subrange(j as int, j + 4);
                        if t == lit_null() {
                            assert(t[1] == 117u8 && t[2] == 108u8 && t[3] == 108u8);
                        }
                    }
                }
            }
            None
        }
    } else if b == 91 {
        let j2 = ws_from(s, j + 1);
        if j2 < n && s[j2] == 93 {
            Some(j2 + 1)
        } else {
            skip_items(s, j + 1)
        }
    } else if b == 123 {
        let j2 = ws_from(s, j + 1);
        if j2 < n && s[j2] == 125 {
            Some(j2 + 1)
        } else {
            skip_members(s, j + 1)
        }
    } else {
        None
    }
}

/// Executable skip of the remaining items of an array.
pub fn skip_items(s: &Vec<u8>, i: usize) -> (r: Option<usize>)
    requires
        i <= s@.len(),
    ensures
        match r {
            Some(j) => spec_skip_items(s@, i as int) == Some(j as int) && i < j <= s@.len(),
            None => spec_skip_items(s@, i as int) is None,
        },
    decreases s@.len() - i, 1int,
{
    let n: usize = s.len();
    match skip_value(s, i) {
        None => None,
        Some(j) => {
            let j2 = ws_from(s, j);
            if j2 < n && s[j2] == 44 {
                skip_items(s, j2 + 1)
            } else if j2 < n && s[j2] == 93 {
                Some(j2 + 1)
            } else {
                None
            }
        },
    }
}

/// Executable skip of the remaining members of an object.
pub fn skip_members(s: &Vec<u8>, i: usize) -> (r: Option<usize>)
    requires
        i <= s@.len(),
    ensures
        match r {
            Some(j) => spec_skip_members(s@, i as int) == Some(j as int) && i < j <= s@.len(),
            None => spec_skip_members(s@, i as int) is None,
        },
    decreases s@.len() - i, 1int,
{
    let n: usize = s.len();
    let j = ws_from(s, i);
    match parse_string(s, j) {
        None => None,
        Some((_k, e)) => {
            let j2 = ws_from(s, e);
            if j2 < n && s[j2] == 58 {
                match skip_value(s, j2 + 1) {
                    None => None,
                    Some(j3) => {
                        let j4 = ws_from(s, j3);
                        if j4 < n && s[j4] == 44 {
                            skip_members(s, j4 + 1)
                        } else if j4 < n && s[j4] == 125 {
                            Some(j4 + 1)
                        } else {
                            None
                        }
                    },
                }
            } else {
                None
            }
        },
    }
}


// ============================ record fields ============================

/// The bytes of the field name `fuel`.
pub open spec fn key_fuel() -> Seq<u8> {
    seq![102u8, 117u8, 101u8, 108u8]
}

/// The bytes of the field name `autobrake`.
pub open spec fn key_autobrake() -> Seq<u8> {
    seq![97u8, 117u8, 116u8, 111u8, 98u8, 114u8, 97u8, 107u8, 101u8]
}

/// The bytes of the field name `autothrottle`.
pub open spec fn key_autothrottle() -> Seq<u8> {
    seq![97u8, 117u8, 116u8, 111u8, 116u8, 104u8, 114u8, 111u8, 116u8, 116u8, 108u8, 101u8]
}

/// The bytes of the field name `hf_antenna`.
pub open spec fn key_hf_antenna() -> Seq<u8> {
    seq![104u8, 102u8, 95u8, 97u8, 110u8, 116u8, 101u8, 110u8, 110u8, 97u8]
}

/// The bytes of the field name `navigation`.
pub open spec fn key_navigation() -> Seq<u8> {
    seq![110u8, 97u8, 118u8, 105u8, 103u8, 97u8, 116u8, 105u8, 111u8, 110u8]
}

fn is_key_fuel(k: &Vec<u8>) -> (r: bool)
    ensures
        r == (k@ == key_fuel()),
{
    let lit: [u8; 4] = [102u8, 117u8, 101u8, 108u8];
    let r = crate::bytes::bytes_eq_lit(k, &lit);
    proof {
        assert(lit@ =~= key_fuel());
    }
    r
}

fn is_key_autobrake(k: &Vec<u8>) -> (r: bool)
    ensures
        r == (k@ == key_autobrake()),
{
    let lit: [u8; 9] = [97u8, 117u8, 116u8, 111u8, 98u8, 114u8, 97u8, 107u8, 101u8];
    let r = crate::bytes::bytes_eq_lit(k, &lit);
    proof {
        assert(lit@ =~= key_autobrake());
    }
    r
}

fn is_key_autothrottle(k: &Vec<u8>) -> (r: bool)
    ensures
        r == (k@ == key_autothrottle()),
{
    let lit: [u8; 12] = [
        97u8,
        117u8,
        116u8,
        111u8,
        116u8,
        104u8,
        114u8,
        111u8,
        116u8,
        116u8,
        108u8,
        101u8,
    ];
    let r = crate::bytes::bytes_eq_lit(k, &lit);
    proof {
        assert(lit@ =~= key_autothrottle());
    }
    r
}

fn is_key_hf_antenna(k: &Vec<u8>) -> (r: bool)
    ensures
        r == (k@ == key_hf_antenna()),
{
    let lit: [u8; 10] = [104u8, 102u8, 95u8, 97u8, 110u8, 116u8, 101u8, 110u8, 110u8, 97u8];
    let r = crate::bytes::bytes_eq_lit(k, &lit);
    proof {
        assert(lit@ =~= key_hf_antenna());
    }
    r
}

fn is_key_navigation(k: &Vec<u8>) -> (r: bool)
    ensures
        r == (k@ == key_navigation()),
{
    let lit: [u8; 10] = [110u8, 97u8, 118u8, 105u8, 103u8, 97u8, 116u8, 105u8, 111u8, 110u8];
    let r = crate::bytes::bytes_eq_lit(k, &lit);
    proof {
        assert(lit@ =~= key_navigation());
    }
    r
}

/// A record while its fields are being read: each field is either still
/// absent or already bound.
pub ghost struct PartialSnap {
    pub fuel: Option<Seq<Seq<u8>>>,
    pub autobrake: Option<Seq<u8>>,
    pub autothrottle: Option<Seq<u8>>,
    pub hf_antenna: Option<Seq<u8>>,
    pub navigation: Option<Seq<u8>>,
}

/// An empty partial record.
pub open spec fn empty_partial() -> PartialSnap {
    PartialSnap {
        fuel: None,
        autobrake: None,
        autothrottle: None,
        hf_antenna: None,
        navigation: None,
    }
}

/// A bound switch token, or the default `0.0` token when the field was
/// absent from the stored record.
pub open spec fn or_default(o: Option<Seq<u8>>) -> Seq<u8> {
    match o {
        Some(t) => t,
        None => crate::numtok::default_token(),
    }
}

/// Closes a record: `fuel` is required, the switches default.
pub open spec fn finish_snap(p: PartialSnap) -> Option<SnapV> {
    match p.fuel {
        None => None,
        Some(f) => Some(
            SnapV {
                fuel: f,
                autobrake: or_default(p.autobrake),
                autothrottle: or_default(p.autothrottle),
                hf_antenna: or_default(p.hf_antenna),
                navigation: or_default(p.navigation),
            },
        ),
    }
}

/// Parses record fields from `i` on: a quoted field name, a colon, the
/// field value, then a comma and more fields or the closing brace. Known
/// fields bind into the record (a repeated field rebinds); unknown fields
/// are skipped.
pub open spec fn spec_fields(s: Seq<u8>, i: int, p: PartialSnap) -> Option<(SnapV, int)>
    decreases s.len() - i,
{
    if i < 0 || i > s.len() {
        None
    } else {
        let j = spec_ws(s, i);
        match spec_parse_string(s, j) {
            None => None,
            Some(kp) => {
                let j2 = spec_ws(s, kp.1);
                if !(j2 < s.len() && s[j2] == 58) {
                    None
                } else {
                    let vres: Option<(PartialSnap, int)> = if kp.0 == key_fuel() {
                        match spec_num_array(s, j2 + 1) {
                            None => None,
                            Some(ap) => Some(
                                (
                                    PartialSnap {
                                        fuel: Some(ap.0),
                                        autobrake: p.autobrake,
                                        autothrottle: p.autothrottle,
                                        hf_antenna: p.hf_antenna,
                                        navigation: p.navigation,
                                    },
                                    ap.1,
                                ),
                            ),
                        }
                    } else if kp.0 == key_autobrake() {
                        match spec_num_value(s, j2 + 1) {
                            None => None,
                            Some(np) => Some(
                                (
                                    PartialSnap {
                                        fuel: p.fuel,
                                        autobrake: Some(np.0),
                                        autothrottle: p.autothrottle,
                                        hf_antenna: p.hf_antenna,
                                        navigation: p.navigation,
                                    },
                                    np.1,
                                ),
                            ),
                        }
                    } else if kp.0 == key_autothrottle() {
                        match spec_num_value(s, j2 + 1) {
                            None => None,
                            Some(np) => Some(
                                (
                                    PartialSnap {
                                        fuel: p.fuel,
                                        autobrake: p.autobrake,
                                        autothrottle: Some(np.0),
                                        hf_antenna: p.hf_antenna,
                                        navigation: p.navigation,
                                    },
                                    np.1,
                                ),
                            ),
                        }
                    } else if kp.0 == key_hf_antenna() {
                        match spec_num_value(s, j2 + 1) {
                            None => None,
                            Some(np) => Some(
                                (
                                    PartialSnap {
                                        fuel: p.fuel,
                                        autobrake: p.autobrake,
                                        autothrottle: p.autothrottle,
                                        hf_antenna: Some(np.0),
                                        navigation: p.navigation,
                                    },
                                    np.1,
                                ),
                            ),
                        }
                    } else if kp.0 == key_navigation() {
                        match spec_num_value(s, j2 + 1) {
                            None => None,
                            Some(np) => Some(
                                (
                                    PartialSnap {
                                        fuel: p.fuel,
                                        autobrake: p.autobrake,
                                        autothrottle: p.autothrottle,
                                        hf_antenna: p.hf_antenna,
                                        navigation: Some(np.0),
                                    },
                                    np.1,
                                ),
                            ),
                        }
                    } else {
                        match spec_skip_value(s, j2 + 1) {
                            None => None,
                            Some(j3) => Some((p, j3)),
                        }
                    };
                    match vres {
                        None => None,
                        Some(pv) => {
                            let j4 = spec_ws(s, pv.1);
                            if j4 < s.len() && s[j4] == 44 {
                                if j4 + 1 > i {
                                    spec_fields(s, j4 + 1, pv.0)
                                } else {
                                    None
                                }
                            } else if j4 < s.len() && s[j4] == 125 {
                                match finish_snap(pv.0) {
                                    None => None,
                                    Some(v) => Some((v, j4 + 1)),
                                }
                            } else {
                                None
                            }
                        },
                    }
                }
            },
        }
    }
}

/// Parses one snapshot record at `i` after optional blanks: an object whose
/// `fuel` field is required; a record with no fields at all is refused.
pub open spec fn spec_snapshot(s: Seq<u8>, i: int) -> Option<(SnapV, int)> {
    let j = spec_ws(s, i);
    if j < s.len() && s[j] == 123 {
        let j2 = spec_ws(s, j + 1);
        if j2 < s.len() && s[j2] == 125 {
            None
        } else {
            spec_fields(s, j + 1, empty_partial())
        }
    } else {
        None
    }
}

/// Executable snapshot-record parse.
#[verifier::rlimit(100)]
pub fn parse_snapshot_at(s: &Vec<u8>, i: usize) -> (r: Option<(crate::snapshot::Snapshot, usize)>)
    requires
        i <= s@.len(),
    ensures
        match r {
            Some(p) => spec_snapshot(s@, i as int) == Some((p.0@, p.1 as int)) && i < p.1
                <= s@.len(),
            None => spec_snapshot(s@, i as int) is None,
        },
{
    let n: usize = s.len();
    let j = ws_from(s, i);
    if j >= n || s[j] != 123 {
        return None;
    }
    let j2 = ws_from(s, j + 1);
    if j2 < n && s[j2] == 125 {
        return None;
    }
    let mut fuel_acc: Option<Vec<Vec<u8>>> = None;
    let mut ab_acc: Option<Vec<u8>> = None;
    let mut at_acc: Option<Vec<u8>> = None;
    let mut hf_acc: Option<Vec<u8>> = None;
    let mut nav_acc: Option<Vec<u8>> = None;
    let mut cur: usize = j + 1;
    loop
        invariant
            i < cur <= n,
            n == s@.len(),
            spec_snapshot(s@, i as int) == spec_fields(
                s@,
                cur as int,
                PartialSnap {
                    fuel: fuel_acc.deep_view(),
                    autobrake: ab_acc.deep_view(),
                    autothrottle: at_acc.deep_view(),
                    hf_antenna: hf_acc.deep_view(),
                    navigation: nav_acc.deep_view(),
                },
            ),
            match fuel_acc.deep_view() {
                Some(fv) => forall|k: int| 0 <= k < fv.len() ==> is_number_token(#[trigger] fv[k]),
                None => true,
            },
            match ab_acc.deep_view() {
                Some(t) => is_number_token(t),
                None => true,
            },
            match at_acc.deep_view() {
                Some(t) => is_number_token(t),
                None => true,
            },
            match hf_acc.deep_view() {
                Some(t) => is_number_token(t),
                None => true,
            },
            match nav_acc.deep_view() {
                Some(t) => is_number_token(t),
                None => true,
            },
        decreases n - cur,
    {
        let ghost p_before = PartialSnap {
            fuel: fuel_acc.deep_view(),
            autobrake: ab_acc.deep_view(),
            autothrottle: at_acc.deep_view(),
            hf_antenna: hf_acc.deep_view(),
            navigation: nav_acc.deep_view(),
        };
        let ghost cur0 = cur as int;
        let jk = ws_from(s, cur);
        let kp = match parse_string(s, jk) {
            Some(kp) => kp,
            None => {
                return None;
            },
        };
        let key = kp.0;
        let jc = ws_from(s, kp.1);
        if !(jc < n && s[jc] == 58) {
            return None;
        }
        let after_value: usize;
        if is_key_fuel(&key) {
            match parse_num_array(s, jc + 1) {
                Some((toks, e2)) => {
                    let ghost toksdv = toks.deep_view();
                    fuel_acc = Some(toks);
                    after_value = e2;
                    proof {
                        assert(fuel_acc.deep_view() == Some(toksdv));
                    }
                },
                None => {
                    return None;
                },
            }
        } else if is_key_autobrake(&key) {
            match parse_num_value(s, jc + 1) {
                Some((tok, e2)) => {
                    let ghost tokv = tok@;
                    proof {
                        assert(tok.deep_view() =~= tokv);
                    }
                    ab_acc = Some(tok);
                    after_value = e2;
                    proof {
                        assert(ab_acc.deep_view() == Some(tokv));
                    }
                },
                None => {
                    return None;
                },
            }
        } else if is_key_autothrottle(&key) {
            match parse_num_value(s, jc + 1) {
                Some((tok, e2)) => {
                    let ghost tokv = tok@;
                    proof {
                        assert(tok.deep_view() =~= tokv);
                    }
                    at_acc = Some(tok);
                    after_value = e2;
                    proof {
                        assert(at_acc.deep_view() == Some(tokv));
                    }
                },
                None => {
                    return None;
                },
            }
        } else if is_key_hf_antenna(&key) {
            match parse_num_value(s, jc + 1) {
                Some((tok, e2)) => {
                    let ghost tokv = tok@;
                    proof {
                        assert(tok.deep_view() =~= tokv);
                    }
                    hf_acc = Some(tok);
                    after_value = e2;
                    proof {
                        assert(hf_acc.deep_view() == Some(tokv));
                    }
                },
                None => {
                    return None;
                },
            }
        } else if is_key_navigation(&key) {
            match parse_num_value(s, jc + 1) {
                Some((tok, e2)) => {
                    let ghost tokv = tok@;
                    proof {
                        assert(tok.deep_view() =~= tokv);
                    }
                    nav_acc = Some(tok);
                    after_value = e2;
                    proof {
                        assert(nav_acc.deep_view() == Some(tokv));
                    }
                },
                None => {
                    return None;
                },
            }
        } else {
            match skip_value(s, jc + 1) {
                Some(e2) => {
                    after_value = e2;
                },
                None => {
                    return None;
                },
            }
        }
        let ghost p_after = PartialSnap {
            fuel: fuel_acc.deep_view(),
            autobrake: ab_acc.deep_view(),
            autothrottle: at_acc.deep_view(),
            hf_antenna: hf_acc.deep_view(),
            navigation: nav_acc.deep_view(),
        };
        proof {
            assert(spec_fields(s@, cur0, p_before) == {
                let j4 = spec_ws(s@, after_value as int);
                if j4 < s@.len() && s@[j4] == 44 {
                    if j4 + 1 > cur0 {
                        spec_fields(s@, j4 + 1, p_after)
                    } else {
                        None
                    }
                } else if j4 < s@.len() && s@[j4] == 125 {
                    match finish_snap(p_after) {
                        None => None,
                        Some(v) => Some((v, j4 + 1)),
                    }
                } else {
                    None
                }
            });
        }
        let j4 = ws_from(s, after_value);
        if j4 < n && s[j4] == 44 {
            cur = j4 + 1;
        } else if j4 < n && s[j4] == 125 {
            let ghost fueldv = fuel_acc.deep_view();
            let f = match fuel_acc {
                Some(f) => f,
                None => {
                    return None;
                },
            };
            proof {
                assert(fueldv == Some(f.deep_view()));
            }
            let ghost abdv = ab_acc.deep_view();
            let ab = match ab_acc {
                Some(t) => t,
                None => crate::numtok::default_token_exec(),
            };
            let ghost atdv = at_acc.deep_view();
            let at = match at_acc {
                Some(t) => t,
                None => crate::numtok::default_token_exec(),
            };
            let ghost hfdv = hf_acc.deep_view();
            let hf = match hf_acc {
                Some(t) => t,
                None => crate::numtok::default_token_exec(),
            };
            let ghost navdv = nav_acc.deep_view();
            let nav = match nav_acc {
                Some(t) => t,
                None => crate::numtok::default_token_exec(),
            };
            proof {
                crate::numtok::lemma_default_token_wf();
                assert(ab.deep_view() =~= ab@);
                assert(at.deep_view() =~= at@);
                assert(hf.deep_view() =~= hf@);
                assert(nav.deep_view() =~= nav@);
                assert(ab@ == or_default(abdv));
                assert(at@ == or_default(atdv));
                assert(hf@ == or_default(hfdv));
                assert(nav@ == or_default(navdv));
            }
            let ghost target = SnapV {
                fuel: f.deep_view(),
                autobrake: ab@,
                autothrottle: at@,
                hf_antenna: hf@,
                navigation: nav@,
            };
            proof {
                assert(finish_snap(p_after) == Some(target));
                assert(crate::snapshot::wf_snap(target));
            }
            match crate::snapshot::Snapshot::new(f, ab, at, hf, nav) {
                Some(snap) => {
                    return Some((snap, j4 + 1));
                },
                None => {
                    // Cannot happen: every token was validated as it was
                    // parsed.
                    proof {
                        assert(false);
                    }
                    return None;
                },
            }
        } else {
            return None;
        }
    }
}

// ============================ the store ============================

/// Parses store entries from `i` on: a quoted livery key, a colon, one
/// snapshot record, then a comma and more entries or the closing brace.
/// Entries are kept in file order.
pub open spec fn spec_entries(
    s: Seq<u8>,
    i: int,
    acc: Seq<(Seq<u8>, SnapV)>,
) -> Option<(Seq<(Seq<u8>, SnapV)>, int)>
    decreases s.len() - i,
{
    if i < 0 || i > s.len() {
        None
    } else {
        let j = spec_ws(s, i);
        match spec_parse_string(s, j) {
            None => None,
            Some(kp) => {
                let j2 = spec_ws(s, kp.1);
                if !(j2 < s.len() && s[j2] == 58) {
                    None
                } else {
                    match spec_snapshot(s, j2 + 1) {
                        None => None,
                        Some(vp) => {
                            let j4 = spec_ws(s, vp.1);
                            let acc2 = acc.push((kp.0, vp.0));
                            if j4 < s.len() && s[j4] == 44 {
                                if j4 + 1 > i {
                                    spec_entries(s, j4 + 1, acc2)
                                } else {
                                    None
                                }
                            } else if j4 < s.len() && s[j4] == 125 {
                                Some((acc2, j4 + 1))
                            } else {
                                None
                            }
                        },
                    }
                }
            },
        }
    }
}

/// Parses a whole store object at `i` after optional blanks.
pub open spec fn spec_store(s: Seq<u8>, i: int) -> Option<(Seq<(Seq<u8>, SnapV)>, int)> {
    let j = spec_ws(s, i);
    if j < s.len() && s[j] == 123 {
        let j2 = spec_ws(s, j + 1);
        if j2 < s.len() && s[j2] == 125 {
            Some((Seq::<(Seq<u8>, SnapV)>::empty(), j2 + 1))
        } else {
            spec_entries(s, j + 1, Seq::<(Seq<u8>, SnapV)>::empty())
        }
    } else {
        None
    }
}

/// The meaning of a stored file's bytes: the entry list in file order, or
/// `None` when the content does not parse as one store object with nothing
/// but blanks after it.
pub open spec fn spec_load(s: Seq<u8>) -> Option<Seq<(Seq<u8>, SnapV)>> {
    match spec_store(s, 0) {
        None => None,
        Some(mp) => if spec_ws(s, mp.1) == s.len() {
            Some(mp.0)
        } else {
            None
        },
    }
}

/// Executable store parse: the tolerant read of a stored file's bytes.
/// Any content that does not parse yields `None`, never an error.
#[verifier::rlimit(60)]
pub fn parse_store(s: &Vec<u8>) -> (r: Option<Vec<crate::snapshot::StoreEntry>>)
    ensures
        match r {
            Some(v) => spec_load(s@) == Some(crate::snapshot::entries_view(v@)),
            None => spec_load(s@) is None,
        },
{
    let n: usize = s.len();
    let j = ws_from(s, 0);
    if j >= n || s[j] != 123 {
        return None;
    }
    let j2 = ws_from(s, j + 1);
    if j2 < n && s[j2] == 125 {
        let j3 = ws_from(s, j2 + 1);
        if j3 == n {
            let v: Vec<crate::snapshot::StoreEntry> = Vec::new();
            proof {
                assert(crate::snapshot::entries_view(v@) =~= Seq::<(Seq<u8>, SnapV)>::empty());
            }
            return Some(v);
        } else {
            return None;
        }
    }
    let mut acc: Vec<crate::snapshot::StoreEntry> = Vec::new();
    let mut cur: usize = j + 1;
    proof {
        assert(crate::snapshot::entries_view(acc@) =~= Seq::<(Seq<u8>, SnapV)>::empty());
    }
    loop
        invariant
            0 < cur <= n,
            n == s@.len(),
            spec_store(s@, 0) == spec_entries(s@, cur as int, crate::snapshot::entries_view(acc@)),
        decreases n - cur,
    {
        let ghost acc0 = crate::snapshot::entries_view(acc@);
        let ghost cur0 = cur as int;
        let jk = ws_from(s, cur);
        let kp = match parse_string(s, jk) {
            Some(kp) => kp,
            None => {
                return None;
            },
        };
        let jc = ws_from(s, kp.1);
        if !(jc < n && s[jc] == 58) {
            return None;
        }
        match parse_snapshot_at(s, jc + 1) {
            None => {
                return None;
            },
            Some((snap, e2)) => {
                let j4 = ws_from(s, e2);
                let ghost keyv = kp.0@;
                let ghost snapv = snap@;
                let entry = crate::snapshot::StoreEntry::new(kp.0, snap);
                acc.push(entry);
                proof {
                    assert(crate::snapshot::entries_view(acc@) =~= acc0.push((keyv, snapv)));
                }
                if j4 < n && s[j4] == 44 {
                    cur = j4 + 1;
                } else if j4 < n && s[j4] == 125 {
                    let j5 = ws_from(s, j4 + 1);
                    if j5 == n {
                        return Some(acc);
                    } else {
                        return None;
                    }
                } else {
                    return None;
                }
            },
        }
    }
}

// ============================ serialization ============================

/// Comma-separated number tokens.
pub open spec fn ser_num_list(toks: Seq<Seq<u8>>) -> Seq<u8>
    decreases toks.len(),
{
    if toks.len() == 0 {
        Seq::<u8>::empty()
    } else if toks.len() == 1 {
        toks[0]
    } else {
        toks[0] + seq![44u8] + ser_num_list(toks.skip(1))
    }
}

/// The encoding of one field separator, name and colon: `,"name":`.
pub open spec fn ser_field_head(name: Seq<u8>) -> Seq<u8> {
    seq![44u8] + ser_string(name) + seq![58u8]
}

/// The encoding of one snapshot record: the fields in a fixed order, the
/// fuel array first, then the four switches.
pub open spec fn ser_snap(v: SnapV) -> Seq<u8> {
    seq![123u8] + ser_string(key_fuel()) + seq![58u8, 91u8] + ser_num_list(v.fuel) + seq![93u8]
        + ser_field_head(key_autobrake()) + v.autobrake + ser_field_head(key_autothrottle())
        + v.autothrottle + ser_field_head(key_hf_antenna()) + v.hf_antenna + ser_field_head(
        key_navigation(),
    ) + v.navigation + seq![125u8]
}

/// The encoding of one store entry: the quoted key, a colon, the record.
pub open spec fn ser_entry(k: Seq<u8>, v: SnapV) -> Seq<u8> {
    ser_string(k) + seq![58u8] + ser_snap(v)
}

/// Comma-separated store entries.
pub open spec fn ser_entries(m: Seq<(Seq<u8>, SnapV)>) -> Seq<u8>
    decreases m.len(),
{
    if m.len() == 0 {
        Seq::<u8>::empty()
    } else if m.len() == 1 {
        ser_entry(m[0].0, m[0].1)
    } else {
        ser_entry(m[0].0, m[0].1) + seq![44u8] + ser_entries(m.skip(1))
    }
}

/// The encoding of a whole store: one object, entries in list order.
pub open spec fn ser_store(m: Seq<(Seq<u8>, SnapV)>) -> Seq<u8> {
    seq![123u8] + ser_entries(m) + seq![125u8]
}

/// Appends the tokens from index `k` on, comma-separated.
fn ser_nums_into(out: &mut Vec<u8>, toks: &Vec<Vec<u8>>, k: usize)
    requires
        k <= toks@.len(),
    ensures
        final(out)@ == old(out)@ + ser_num_list(toks.deep_view().skip(k as int)),
    decreases toks@.len() - k,
{
    let ghost dv = toks.deep_view();
    if k == toks.len() {
        proof {
            assert(dv.skip(k as int).len() == 0);
            assert(ser_num_list(dv.skip(k as int)) =~= Seq::<u8>::empty());
            assert(out@ =~= out@ + Seq::<u8>::empty());
        }
        return ;
    }
    proof {
        assert(dv.skip(k as int)[0] == dv[k as int]);
        assert(toks@[k as int].deep_view() =~= toks@[k as int]@);
    }
    crate::bytes::push_bytes(out, &toks[k]);
    if k + 1 == toks.len() {
        proof {
            assert(dv.skip(k as int).len() == 1);
            assert(ser_num_list(dv.skip(k as int)) == dv[k as int]);
        }
    } else {
        out.push(44u8);
        ser_nums_into(out, toks, k + 1);
        proof {
            assert(dv.skip(k as int).skip(1) =~= dv.skip(k + 1));
            assert(ser_num_list(dv.skip(k as int)) == dv[k as int] + seq![44u8] + ser_num_list(
                dv.skip(k + 1),
            ));
            assert(out@ =~= old(out)@ + ser_num_list(dv.skip(k as int)));
        }
    }
}

/// Appends the encoding of one snapshot record.
#[verifier::rlimit(100)]
pub fn ser_snap_into(out: &mut Vec<u8>, snap: &crate::snapshot::Snapshot)
    ensures
        final(out)@ == old(out)@ + ser_snap(snap@),
{
    out.push(123u8);
    let kf: Vec<u8> = vec![102u8, 117u8, 101u8, 108u8];
    proof {
        assert(kf@ =~= key_fuel());
    }
    ser_string_into(out, &kf);
    out.push(58u8);
    out.push(91u8);
    let f = snap.fuel();
    ser_nums_into(out, f, 0);
    proof {
        assert(f.deep_view().skip(0) =~= snap@.fuel);
    }
    out.push(93u8);
    out.push(44u8);
    let kab: Vec<u8> = vec![97u8, 117u8, 116u8, 111u8, 98u8, 114u8, 97u8, 107u8, 101u8];
    proof {
        assert(kab@ =~= key_autobrake());
    }
    ser_string_into(out, &kab);
    out.push(58u8);
    crate::bytes::push_bytes(out, snap.autobrake());
    out.push(44u8);
    let kat: Vec<u8> = vec![
        97u8,
        117u8,
        116u8,
        111u8,
        116u8,
        104u8,
        114u8,
        111u8,
        116u8,
        116u8,
        108u8,
        101u8,
    ];
    proof {
        assert(kat@ =~= key_autothrottle());
    }
    ser_string_into(out, &kat);
    out.push(58u8);
    crate::bytes::push_bytes(out, snap.autothrottle());
    out.push(44u8);
    let khf: Vec<u8> = vec![104u8, 102u8, 95u8, 97u8, 110u8, 116u8, 101u8, 110u8, 110u8, 97u8];
    proof {
        assert(khf@ =~= key_hf_antenna());
    }
    ser_string_into(out, &khf);
    out.push(58u8);
    crate::bytes::push_bytes(out, snap.hf_antenna());
    out.push(44u8);
    let knav: Vec<u8> = vec![110u8, 97u8, 118u8, 105u8, 103u8, 97u8, 116u8, 105u8, 111u8, 110u8];
    proof {
        assert(knav@ =~= key_navigation());
    }
    ser_string_into(out, &knav);
    out.push(58u8);
    crate::bytes::push_bytes(out, snap.navigation());
    out.push(125u8);
    proof {
        assert(out@ =~= old(out)@ + ser_snap(snap@));
    }
}

/// Appends the entries from index `k` on, comma-separated.
fn ser_entries_into(out: &mut Vec<u8>, entries: &Vec<crate::snapshot::StoreEntry>, k: usize)
    requires
        k <= entries@.len(),
    ensures
        final(out)@ == old(out)@ + ser_entries(
            crate::snapshot::entries_view(entries@).skip(k as int),
        ),
    decreases entries@.len() - k,
{
    let ghost ev = crate::snapshot::entries_view(entries@);
    if k == entries.len() {
        proof {
            assert(ev.skip(k as int).len() == 0);
            assert(ser_entries(ev.skip(k as int)) =~= Seq::<u8>::empty());
            assert(out@ =~= out@ + Seq::<u8>::empty());
        }
        return ;
    }
    proof {
        assert(ev.skip(k as int)[0] == ev[k as int]);
        assert(ev[k as int] == entries@[k as int]@);
    }
    let e = &entries[k];
    ser_string_into(out, e.key());
    out.push(58u8);
    ser_snap_into(out, e.snap());
    proof {
        assert(out@ =~= old(out)@ + ser_entry(ev[k as int].0, ev[k as int].1));
    }
    if k + 1 == entries.len() {
        proof {
            assert(ev.skip(k as int).len() == 1);
            assert(ser_entries(ev.skip(k as int)) == ser_entry(ev[k as int].0, ev[k as int].1));
        }
    } else {
        out.push(44u8);
        ser_entries_into(out, entries, k + 1);
        proof {
            assert(ev.skip(k as int).skip(1) =~= ev.skip(k + 1));
            assert(ser_entries(ev.skip(k as int)) == ser_entry(ev[k as int].0, ev[k as int].1)
                + seq![44u8] + ser_entries(ev.skip(k + 1)));
            assert(out@ =~= old(out)@ + ser_entries(ev.skip(k as int)));
        }
    }
}

/// Encodes a whole store deterministically: same entry list, same bytes.
pub fn serialize_store(entries: &Vec<crate::snapshot::StoreEntry>) -> (r: Vec<u8>)
    ensures
        r@ == ser_store(crate::snapshot::entries_view(entries@)),
{
    let mut out: Vec<u8> = Vec::new();
    out.push(123u8);
    ser_entries_into(&mut out, entries, 0);
    out.push(125u8);
    proof {
        let ev = crate::snapshot::entries_view(entries@);
        assert(ev.skip(0) =~= ev);
        assert(out@ =~= ser_store(ev));
    }
    out
}

} // verus!
