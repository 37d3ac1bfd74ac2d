//! Textual number tokens. A stored numeric value is kept as the exact byte
//! sequence of its decimal notation, so that writing a store back to bytes
//! reproduces every number bit for bit. The grammar is the usual one for
//! decimal numbers: an optional minus sign, one or more digits, an optional
//! fraction (a dot followed by digits) and an optional exponent (`e` or `E`,
//! an optional sign, digits).

use vstd::prelude::*;

verus! {

/// A decimal digit byte.
pub open spec fn is_digit(b: u8) -> bool {
    48 <= b && b <= 57
}

/// A byte that could extend a number token: a digit, dot, exponent letter or
/// sign.
pub open spec fn is_num_cont(b: u8) -> bool {
    is_digit(b) || b == 46 || b == 101 || b == 69 || b == 43 || b == 45
}

/// The first position at or after `i` that does not hold a digit.
pub open spec fn scan_digits(s: Seq<u8>, i: int) -> int
    decreases s.len() - i,
{
    if 0 <= i && i < s.len() && is_digit(s[i]) {
        scan_digits(s, i + 1)
    } else {
        i
    }
}

/// `scan_digits` lands on the first non-digit: its result is bounded, the
/// bytes it passed are digits, and the byte it stops on is not.
pub proof fn lemma_scan_digits_props(s: Seq<u8>, i: int)
    requires
        0 <= i <= s.len(),
    ensures
        i <= scan_digits(s, i) <= s.len(),
        forall|j: int| i <= j < scan_digits(s, i) ==> is_digit(s[j]),
        scan_digits(s, i) == s.len() || !is_digit(s[scan_digits(s, i)]),
    decreases s.len() - i,
{
    if i < s.len() && is_digit(s[i]) {
        lemma_scan_digits_props(s, i + 1);
    }
}

/// Conversely, any position bounding a digit run from the right is where
/// `scan_digits` lands.
pub proof fn lemma_scan_digits_char(s: Seq<u8>, i: int, k: int)
    requires
        0 <= i <= k <= s.len(),
        forall|j: int| i <= j < k ==> is_digit(s[j]),
        k == s.len() || !is_digit(s[k]),
    ensures
        scan_digits(s, i) == k,
    decreases k - i,
{
    if i < k {
        lemma_scan_digits_char(s, i + 1, k);
    }
}

/// The end of an optional fraction part starting at `i`: a dot must be
/// followed by at least one digit; no dot means an empty fraction part.
pub open spec fn scan_frac(s: Seq<u8>, i: int) -> Option<int> {
    if 0 <= i && i < s.len() && s[i] == 46 {
        let j = scan_digits(s, i + 1);
        if j > i + 1 {
            Some(j)
        } else {
            None
        }
    } else {
        Some(i)
    }
}

/// The end of an optional exponent part starting at `i`: an exponent letter
/// must be followed by an optional sign and at least one digit.
pub open spec fn scan_exp(s: Seq<u8>, i: int) -> Option<int> {
    if 0 <= i && i < s.len() && (s[i] == 101 || s[i] == 69) {
        let k = if i + 1 < s.len() && (s[i + 1] == 43 || s[i + 1] == 45) {
            i + 2
        } else {
            i + 1
        };
        let j = scan_digits(s, k);
        if j > k {
            Some(j)
        } else {
            None
        }
    } else {
        Some(i)
    }
}

/// The end of a number token starting at position `i` of `s`, or `None` when
/// no number token starts there.
pub open spec fn spec_number_end(s: Seq<u8>, i: int) -> Option<int> {
    let i1 = if 0 <= i && i < s.len() && s[i] == 45 {
        i + 1
    } else {
        i
    };
    let i2 = scan_digits(s, i1);
    if i2 == i1 {
        None
    } else {
        match scan_frac(s, i2) {
            Some(i3) => scan_exp(s, i3),
            None => None,
        }
    }
}

/// A well-formed number token: the whole sequence is one number.
pub open spec fn is_number_token(t: Seq<u8>) -> bool {
    spec_number_end(t, 0) == Some(t.len() as int)
}

/// The canonical default value token, the bytes of `0.0`.
pub open spec fn default_token() -> Seq<u8> {
    seq![48u8, 46u8, 48u8]
}

/// The default token is itself a well-formed number token.
pub proof fn lemma_default_token_wf()
    ensures
        is_number_token(default_token()),
{
    let t = default_token();
    assert(scan_digits(t, 1) == 1);
    assert(scan_digits(t, 2) == 3) by {
        assert(is_digit(t[2]));
        assert(scan_digits(t, 3) == 3);
    }
    assert(scan_digits(t, 0) == 1) by {
        assert(is_digit(t[0]));
        assert(!is_digit(t[1]));
    }
}

/// A successful number scan moved forward, stayed in bounds, and the bytes
/// it covered form a well-formed number token on their own.
pub proof fn lemma_number_end_props(s: Seq<u8>, i: int, j: int)
    requires
        0 <= i <= s.len(),
        spec_number_end(s, i) == Some(j),
    ensures
        i < j <= s.len(),
        is_number_token(s.subrange(i, j)),
{
    let t = s.subrange(i, j);
    let i1 = if i < s.len() && s[i] == 45 {
        i + 1
    } else {
        i
    };
    let i2 = scan_digits(s, i1);
    lemma_scan_digits_props(s, i1);
    assert(i2 > i1);
    let i3 = match scan_frac(s, i2) {
        Some(x) => x,
        None => 0,
    };
    assert(scan_frac(s, i2) == Some(i3));
    if i2 < s.len() && s[i2] == 46 {
        lemma_scan_digits_props(s, i2 + 1);
    }
    assert(i3 >= i2);
    assert(i3 <= s.len());
    assert(scan_exp(s, i3) == Some(j));
    if i3 < s.len() && (s[i3] == 101 || s[i3] == 69) {
        let k = if i3 + 1 < s.len() && (s[i3 + 1] == 43 || s[i3 + 1] == 45) {
            i3 + 2
        } else {
            i3 + 1
        };
        lemma_scan_digits_props(s, k);
    }
    assert(i < j <= s.len());

    // Reparse the token in isolation: every inspected byte coincides.
    assert(forall|x: int| 0 <= x < j - i ==> t[x] == s[i + x]);
    let t1 = i1 - i;
    assert(t1 == 0 || t1 == 1);
    if i < s.len() && s[i] == 45 {
        assert(t[0] == s[i]);
    }
    // Digit run of the integer part inside the token.
    let t2 = i2 - i;
    lemma_scan_digits_char(t, t1, t2);
    // Fraction part inside the token.
    let t3 = i3 - i;
    if i2 < s.len() && s[i2] == 46 && i2 < j {
        assert(t[t2] == s[i2]);
        lemma_scan_digits_char(t, t2 + 1, t3);
        assert(scan_frac(t, t2) == Some(t3));
    } else {
        // No fraction: either the token ends at the digits, or the next
        // byte is not a dot.
        if t2 < t.len() {
            assert(t[t2] == s[i2]);
            assert(s[i2] != 46);
        }
        assert(scan_frac(t, t2) == Some(t2));
    }
    // Exponent part inside the token.
    if i3 < s.len() && (s[i3] == 101 || s[i3] == 69) && i3 < j {
        let k = if i3 + 1 < s.len() && (s[i3 + 1] == 43 || s[i3 + 1] == 45) {
            i3 + 2
        } else {
            i3 + 1
        };
        assert(t[t3] == s[i3]);
        let tk = k - i;
        assert(k < j);
        if i3 + 1 < s.len() && (s[i3 + 1] == 43 || s[i3 + 1] == 45) {
            assert(t[t3 + 1] == s[i3 + 1]);
        }
        lemma_scan_digits_char(t, tk, j - i);
        assert(scan_exp(t, t3) == Some(j - i));
    } else {
        if t3 < t.len() {
            assert(t[t3] == s[i3]);
        }
        assert(scan_exp(t, t3) == Some(t3));
    }
    assert(spec_number_end(t, 0) == Some(t.len() as int));
}

/// A well-formed number token embedded in a longer sequence, followed by a
/// byte that cannot extend a number, scans to exactly its own end.
pub proof fn lemma_number_embed(s: Seq<u8>, i: int, t: Seq<u8>)
    requires
        is_number_token(t),
        0 <= i,
        i + t.len() <= s.len(),
        s.subrange(i, i + t.len() as int) == t,
        i + t.len() == s.len() || !is_num_cont(s[i + t.len()]),
    ensures
        spec_number_end(s, i) == Some(i + t.len() as int),
{
    let n = t.len() as int;
    let e = i + n;
    assert(forall|x: int| 0 <= x < n ==> t[x] == s[i + x]);
    assert forall|j: int| i <= j < e implies s[j] == t[j - i] by {
        assert(t[j - i] == s[i + (j - i)]);
    }
    // Decompose the token's own scan.
    let t1 = if 0 < t.len() && t[0] == 45 {
        1int
    } else {
        0int
    };
    assert(t.len() > 0) by {
        if t.len() == 0 {
            assert(scan_digits(t, 0) == 0);
        }
    }
    let t2 = scan_digits(t, t1);
    lemma_scan_digits_props(t, t1);
    assert(t2 > t1);
    let t3 = match scan_frac(t, t2) {
        Some(x) => x,
        None => 0,
    };
    assert(scan_frac(t, t2) == Some(t3));
    if t2 < n && t[t2] == 46 {
        lemma_scan_digits_props(t, t2 + 1);
    }
    assert(scan_exp(t, t3) == Some(n));
    if t3 < n && (t[t3] == 101 || t[t3] == 69) {
        let k = if t3 + 1 < n && (t[t3 + 1] == 43 || t[t3 + 1] == 45) {
            t3 + 2
        } else {
            t3 + 1
        };
        lemma_scan_digits_props(t, k);
    }

    // Mirror the scan on `s` starting at `i`.
    let i1 = i + t1;
    if t1 == 1 {
        assert(s[i] == t[0]);
    } else {
        if i < s.len() && s[i] == 45 {
            // A leading minus in `s` would be the token's own first byte.
            assert(t[0] == s[i]);
        }
    }
    // Integer-part digits.
    assert forall|j: int| i1 <= j < i + t2 implies is_digit(s[j]) by {
        assert(s[j] == t[j - i]);
        assert(is_digit(t[j - i]));
    }
    if t2 < n {
        assert(s[i + t2] == t[t2]);
        assert(!is_digit(s[i + t2]));
        lemma_scan_digits_char(s, i1, i + t2);
    } else {
        assert(i + t2 == e);
        assert(e == s.len() || !is_digit(s[e]));
        lemma_scan_digits_char(s, i1, e);
    }
    let i2 = i + t2;
    // Fraction part.
    if t2 < n && t[t2] == 46 {
        assert(s[i2] == 46);
        assert forall|j: int| i2 + 1 <= j < i + t3 implies is_digit(s[j]) by {
            assert(s[j] == t[j - i]);
            assert(is_digit(t[j - i]));
        }
        if t3 < n {
            assert(s[i + t3] == t[t3]);
            lemma_scan_digits_char(s, i2 + 1, i + t3);
        } else {
            lemma_scan_digits_char(s, i2 + 1, e);
        }
        assert(scan_frac(s, i2) == Some(i + t3));
    } else {
        if t2 < n {
            assert(s[i2] == t[t2]);
            assert(s[i2] != 46);
        } else {
            assert(i2 == e);
            assert(e == s.len() || !is_num_cont(s[e]));
        }
        assert(scan_frac(s, i2) == Some(i2));
    }
    let i3 = i + t3;
    // Exponent part.
    if t3 < n && (t[t3] == 101 || t[t3] == 69) {
        let k = if t3 + 1 < n && (t[t3 + 1] == 43 || t[t3 + 1] == 45) {
            t3 + 2
        } else {
            t3 + 1
        };
        assert(s[i3] == t[t3]);
        assert(k < n);
        if t3 + 1 < n && (t[t3 + 1] == 43 || t[t3 + 1] == 45) {
            assert(s[i3 + 1] == t[t3 + 1]);
        } else {
            assert(s[i3 + 1] == t[t3 + 1]);
            assert(!(s[i3 + 1] == 43 || s[i3 + 1] == 45));
        }
        assert forall|j: int| i + k <= j < e implies is_digit(s[j]) by {
            assert(s[j] == t[j - i]);
            assert(is_digit(t[j - i]));
        }
        assert(e == s.len() || !is_digit(s[e]));
        lemma_scan_digits_char(s, i + k, e);
        assert(scan_exp(s, i3) == Some(e));
    } else {
        if t3 < n {
            assert(s[i3] == t[t3]);
            assert(!(s[i3] == 101 || s[i3] == 69));
        } else {
            assert(i3 == e);
            assert(e == s.len() || !is_num_cont(s[e]));
        }
        assert(scan_exp(s, i3) == Some(i3));
        assert(i3 == e);
    }
    assert(spec_number_end(s, i) == Some(e));
}

/// Executable digit-run scan.
pub fn scan_digits_exec(s: &Vec<u8>, i: usize) -> (r: usize)
    requires
        i <= s@.len(),
    ensures
        r as int == scan_digits(s@, i as int),
        i <= r <= s@.len(),
{
    let n: usize = s.len();
    let mut j: usize = i;
    while j < n && s[j] >= 48 && s[j] <= 57
        invariant
            i <= j <= n,
            n == s@.len(),
            scan_digits(s@, i as int) == scan_digits(s@, j as int),
        decreases n - j,
    {
        j = j + 1;
    }
    proof {
        lemma_scan_digits_props(s@, j as int);
    }
    j
}

/// Executable number scan: the end of the number token starting at `i`, if
/// one starts there.
pub fn number_end(s: &Vec<u8>, i: usize) -> (r: Option<usize>)
    requires
        i <= s@.len(),
    ensures
        match r {
            Some(j) => spec_number_end(s@, i as int) == Some(j as int) && i < j <= s@.len(),
            None => spec_number_end(s@, i as int) is None,
        },
{
    let n: usize = s.len();
    let i1: usize = if i < n && s[i] == 45 {
        i + 1
    } else {
        i
    };
    let i2 = scan_digits_exec(s, i1);
    if i2 == i1 {
        return None;
    }
    // Fraction part.
    let i3: usize = if i2 < n && s[i2] == 46 {
        let j = scan_digits_exec(s, i2 + 1);
        if j > i2 + 1 {
            j
        } else {
            return None;
        }
    } else {
        i2
    };
    assert(scan_frac(s@, i2 as int) == Some(i3 as int));
    // Exponent part.
    let i4: usize = if i3 < n && (s[i3] == 101 || s[i3] == 69) {
        let k: usize = if i3 + 1 < n && (s[i3 + 1] == 43 || s[i3 + 1] == 45) {
            i3 + 2
        } else {
            i3 + 1
        };
        let j = scan_digits_exec(s, k);
        if j > k {
            j
        } else {
            return None;
        }
    } else {
        i3
    };
    assert(scan_exp(s@, i3 as int) == Some(i4 as int));
    Some(i4)
}

/// Decides whether `t` is a well-formed number token.
pub fn is_number_token_exec(t: &Vec<u8>) -> (r: bool)
    ensures
        r == is_number_token(t@),
{
    match number_end(t, 0) {
        Some(j) => j == t.len(),
        None => false,
    }
}

/// The canonical default value token, the bytes of `0.0`.
pub fn default_token_exec() -> (r: Vec<u8>)
    ensures
        r@ == default_token(),
{
    let r: Vec<u8> = vec![48u8, 46u8, 48u8];
    proof {
        assert(r@ =~= default_token());
    }
    r
}

} // verus!
