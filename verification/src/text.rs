//! Character-level text utilities: white-space classification, blank tests,
//! string equality, and building strings character by character. The score
//! format is line- and token-oriented, so everything downstream is specified
//! over `Seq<char>` views.

use vstd::prelude::*;
use vstd::string::StrSliceExecFns;

verus! {

/// The Unicode `White_Space` set, the classification `char::is_whitespace`
/// uses and hence the one `str::trim` and `str::split_whitespace` split on.
pub open spec fn is_ws(c: char) -> bool {
    let u = c as u32;
    u == 0x09 || u == 0x0a || u == 0x0b || u == 0x0c || u == 0x0d || u == 0x20
        || u == 0x85 || u == 0xa0 || u == 0x1680
        || (0x2000 <= u && u <= 0x200a)
        || u == 0x2028 || u == 0x2029 || u == 0x202f || u == 0x205f || u == 0x3000
}

pub fn char_is_ws(c: char) -> (b: bool)
    ensures
        b == is_ws(c),
{
    let u = c as u32;
    u == 0x09 || u == 0x0a || u == 0x0b || u == 0x0c || u == 0x0d || u == 0x20
        || u == 0x85 || u == 0xa0 || u == 0x1680
        || (0x2000 <= u && u <= 0x200a)
        || u == 0x2028 || u == 0x2029 || u == 0x202f || u == 0x205f || u == 0x3000
}

/// A sequence is blank when every character is white space; `s.trim().is_empty()`
/// holds exactly of such strings, the empty one included.
pub open spec fn is_blank(s: Seq<char>) -> bool {
    forall|i: int| 0 <= i < s.len() ==> is_ws(s[i])
}

pub fn str_is_blank(s: &str) -> (b: bool)
    ensures
        b == is_blank(s@),
{
    let n = s.unicode_len();
    let mut i: usize = 0;
    while i < n
        invariant
            n == s@.len(),
            0 <= i <= n,
            forall|j: int| 0 <= j < i ==> is_ws(s@[j]),
        decreases n - i,
    {
        if !char_is_ws(s.get_char(i)) {
            return false;
        }
        i += 1;
    }
    true
}

pub fn str_eq(a: &str, b: &str) -> (r: bool)
    ensures
        r == (a@ == b@),
{
    let na = a.unicode_len();
    let nb = b.unicode_len();
    if na != nb {
        return false;
    }
    let mut i: usize = 0;
    while i < na
        invariant
            na == a@.len(),
            na == b@.len(),
            0 <= i <= na,
            forall|j: int| 0 <= j < i ==> a@[j] == b@[j],
        decreases na - i,
    {
        if a.get_char(i) != b.get_char(i) {
            return false;
        }
        i += 1;
    }
    proof {
        assert(a@ =~= b@);
    }
    true
}

/// Relies on `String::push`: appends exactly the given character.
#[verifier::external_body]
pub fn push_char(s: &mut String, c: char)
    ensures
        final(s)@ == old(s)@.push(c),
{
    s.push(c);
}

/// The views of a sequence of owned strings.
pub open spec fn views_of(v: Seq<String>) -> Seq<Seq<char>> {
    v.map_values(|p: String| p@)
}

/// True when `sep` occurs in `s` starting at position `i`.
pub open spec fn matches_at(s: Seq<char>, sep: Seq<char>, i: int) -> bool {
    0 <= i && i + sep.len() <= s.len() && s.subrange(i, i + sep.len() as int) == sep
}

/// The pieces of `s` from position `start` on, with the next separator sought
/// from position `i`: the splitting `str::split` performs for a non-empty
/// pattern, taking successive leftmost matches.
pub open spec fn split_from(s: Seq<char>, sep: Seq<char>, start: int, i: int) -> Seq<Seq<char>>
    recommends
        0 <= start <= i <= s.len(),
        sep.len() > 0,
    decreases s.len() - i,
{
    if sep.len() == 0 {
        Seq::empty()
    } else if i + sep.len() > s.len() {
        seq![s.subrange(start, s.len() as int)]
    } else if matches_at(s, sep, i) {
        seq![s.subrange(start, i)] + split_from(s, sep, i + sep.len(), i + sep.len())
    } else {
        split_from(s, sep, start, i + 1)
    }
}

pub open spec fn split_on(s: Seq<char>, sep: Seq<char>) -> Seq<Seq<char>>
    recommends
        sep.len() > 0,
{
    split_from(s, sep, 0, 0)
}

pub proof fn lemma_split_from_nonempty(s: Seq<char>, sep: Seq<char>, start: int, i: int)
    requires
        sep.len() > 0,
        i <= s.len(),
    ensures
        split_from(s, sep, start, i).len() >= 1,
    decreases s.len() - i,
{
    if i + sep.len() > s.len() {
    } else if matches_at(s, sep, i) {
        lemma_split_from_nonempty(s, sep, i + sep.len() as int, i + sep.len() as int);
    } else {
        lemma_split_from_nonempty(s, sep, start, i + 1);
    }
}

fn str_matches_at(s: &str, sep: &str, i: usize) -> (b: bool)
    requires
        i + sep@.len() <= s@.len(),
        s@.len() <= usize::MAX,
    ensures
        b == matches_at(s@, sep@, i as int),
{
    let m = sep.unicode_len();
    let mut j: usize = 0;
    while j < m
        invariant
            m == sep@.len(),
            i + m <= s@.len(),
            s@.len() <= usize::MAX,
            0 <= j <= m,
            forall|k: int| 0 <= k < j ==> s@[i + k] == sep@[k],
        decreases m - j,
    {
        if s.get_char(i + j) != sep.get_char(j) {
            proof {
                assert(s@.subrange(i as int, i + sep@.len() as int)[j as int] == s@[i + j]);
            }
            return false;
        }
        j += 1;
    }
    proof {
        assert(s@.subrange(i as int, i + sep@.len() as int) =~= sep@);
    }
    true
}

pub fn split_on_str(s: &str, sep: &str) -> (r: Vec<String>)
    requires
        sep@.len() > 0,
    ensures
        views_of(r@) == split_on(s@, sep@),
{
    let n = s.unicode_len();
    let m = sep.unicode_len();
    let mut r: Vec<String> = Vec::new();
    let mut start: usize = 0;
    let mut i: usize = 0;
    if m <= n {
        while i <= n - m
            invariant
                n == s@.len(),
                m == sep@.len(),
                m > 0,
                m <= n,
                0 <= start <= i <= n,
                split_on(s@, sep@) == views_of(r@) + split_from(s@, sep@, start as int, i as int),
            decreases n - i,
        {
            if str_matches_at(s, sep, i) {
                let piece = s.substring_char(start, i).to_owned();
                proof {
                    let ghost prev = views_of(r@);
                    assert(views_of(r@.push(piece)) =~~= prev.push(piece@));
                }
                r.push(piece);
                start = i + m;
                i = i + m;
            } else {
                i = i + 1;
            }
        }
    }
    let piece = s.substring_char(start, n).to_owned();
    proof {
        let ghost prev = views_of(r@);
        assert(views_of(r@.push(piece)) =~~= prev.push(piece@));
        assert(split_from(s@, sep@, start as int, i as int) =~= seq![s@.subrange(start as int, n as int)]);
    }
    r.push(piece);
    r
}

/// One trailing carriage return is dropped from a line that a line feed
/// terminated: the `\r\n` form of line ending.
pub open spec fn strip_cr(l: Seq<char>) -> Seq<char> {
    if l.len() > 0 && l[l.len() - 1] == '\r' {
        l.drop_last()
    } else {
        l
    }
}

/// The lines of `s`, exactly as `str::lines` yields them: the pieces between
/// line feeds, with a `\r\n` ending stripped and no final empty line for a
/// trailing terminator. A carriage return not followed by a line feed stays
/// where it is.
pub open spec fn lines_of(s: Seq<char>) -> Seq<Seq<char>> {
    if s.len() == 0 {
        Seq::empty()
    } else {
        let ps = split_on(s, seq!['\n']);
        let terminated = ps.take(ps.len() - 1).map_values(|p: Seq<char>| strip_cr(p));
        if ps[ps.len() - 1].len() == 0 {
            terminated
        } else {
            terminated.push(ps[ps.len() - 1])
        }
    }
}

pub fn lines_str(s: &str) -> (r: Vec<String>)
    ensures
        views_of(r@) == lines_of(s@),
{
    proof {
        reveal_strlit("\n");
    }
    if s.unicode_len() == 0 {
        let r: Vec<String> = Vec::new();
        proof {
            assert(views_of(r@) =~~= lines_of(s@));
        }
        return r;
    }
    let ps = split_on_str(s, "\n");
    proof {
        assert("\n"@ =~= seq!['\n']);
        lemma_split_from_nonempty(s@, seq!['\n'], 0, 0);
        assert(views_of(ps@) == split_on(s@, seq!['\n']));
    }
    let k = ps.len();
    let ghost pieces = views_of(ps@);
    let ghost terminated = pieces.take(pieces.len() - 1).map_values(|p: Seq<char>| strip_cr(p));
    let mut r: Vec<String> = Vec::new();
    let mut idx: usize = 0;
    while idx < k - 1
        invariant
            k == ps@.len(),
            k >= 1,
            pieces == views_of(ps@),
            terminated == pieces.take(pieces.len() - 1).map_values(|p: Seq<char>| strip_cr(p)),
            0 <= idx <= k - 1,
            views_of(r@) == terminated.take(idx as int),
        decreases k - 1 - idx,
    {
        let p = &ps[idx];
        let pn = p.unicode_len();
        let piece = if pn > 0 && p.get_char(pn - 1) == '\r' {
            p.substring_char(0, pn - 1).to_owned()
        } else {
            p.clone()
        };
        proof {
            assert(p@.subrange(0, p@.len() - 1) =~= p@.drop_last());
            assert(piece@ == strip_cr(pieces[idx as int]));
            let ghost prev = views_of(r@);
            assert(views_of(r@.push(piece)) =~~= prev.push(piece@));
            assert(terminated.take(idx + 1) =~~= terminated.take(idx as int).push(terminated[idx as int]));
        }
        r.push(piece);
        idx += 1;
    }
    proof {
        assert(terminated.take(k - 1) =~~= terminated);
    }
    let lastp = &ps[k - 1];
    if lastp.unicode_len() > 0 {
        let piece = lastp.clone();
        proof {
            let ghost prev = views_of(r@);
            assert(views_of(r@.push(piece)) =~~= prev.push(piece@));
        }
        r.push(piece);
    }
    r
}

/// The elements of `ls` joined with the single separator character `sep`.
pub open spec fn join_with(ls: Seq<Seq<char>>, sep: char) -> Seq<char>
    decreases ls.len(),
{
    if ls.len() == 0 {
        Seq::empty()
    } else if ls.len() == 1 {
        ls[0]
    } else {
        join_with(ls.drop_last(), sep) + seq![sep] + ls.last()
    }
}

pub fn join_strings(ls: &Vec<String>, sep: char) -> (r: String)
    ensures
        r@ == join_with(views_of(ls@), sep),
{
    let mut r = String::new();
    let mut i: usize = 0;
    while i < ls.len()
        invariant
            0 <= i <= ls@.len(),
            r@ == join_with(views_of(ls@).take(i as int), sep),
        decreases ls@.len() - i,
    {
        if i > 0 {
            push_char(&mut r, sep);
        }
        r.append(ls[i].as_str());
        proof {
            let ghost vs = views_of(ls@);
            assert(vs.take(i + 1).drop_last() =~~= vs.take(i as int));
            assert(vs.take(i + 1).last() == vs[i as int]);
        }
        i += 1;
    }
    proof {
        assert(views_of(ls@).take(ls@.len() as int) =~~= views_of(ls@));
    }
    r
}

/// `n` copies of the character `c`.
pub open spec fn repeat_char(c: char, n: int) -> Seq<char>
    recommends
        n >= 0,
{
    Seq::new(n as nat, |i: int| c)
}

pub fn repeat_char_string(c: char, n: usize) -> (r: String)
    ensures
        r@ == repeat_char(c, n as int),
{
    let mut r = String::new();
    let mut i: usize = 0;
    while i < n
        invariant
            0 <= i <= n,
            r@ == repeat_char(c, i as int),
        decreases n - i,
    {
        push_char(&mut r, c);
        proof {
            assert(repeat_char(c, i as int).push(c) =~= repeat_char(c, i + 1));
        }
        i += 1;
    }
    r
}

/// The length of the run of non-white-space characters starting at `i`.
pub open spec fn run_len(s: Seq<char>, i: int) -> nat
    decreases s.len() - i,
{
    if i < 0 || i >= s.len() || is_ws(s[i]) {
        0
    } else {
        1 + run_len(s, i + 1)
    }
}

/// The white-space-separated tokens of `s` from position `i` on: what
/// `str::split_whitespace` yields, with no empty tokens.
pub open spec fn tokens_from(s: Seq<char>, i: int) -> Seq<Seq<char>>
    decreases
        (if i <= s.len() {
            s.len() - i
        } else {
            0
        }),
{
    if i < 0 || i >= s.len() {
        Seq::empty()
    } else if is_ws(s[i]) {
        tokens_from(s, i + 1)
    } else {
        seq![s.subrange(i, i + run_len(s, i))] + tokens_from(s, i + run_len(s, i))
    }
}

pub open spec fn tokens_of(s: Seq<char>) -> Seq<Seq<char>> {
    tokens_from(s, 0)
}

proof fn lemma_run_len_bounds(s: Seq<char>, i: int, j: int)
    requires
        0 <= i <= j <= s.len(),
        forall|k: int| i <= k < j ==> !is_ws(s[k]),
        j == s.len() || is_ws(s[j]),
    ensures
        run_len(s, i) == j - i,
    decreases j - i,
{
    if i < j {
        lemma_run_len_bounds(s, i + 1, j);
    }
}

pub open spec fn is_digit(c: char) -> bool {
    0x30 <= c as u32 && c as u32 <= 0x39
}

pub open spec fn digit_val(c: char) -> int {
    c as u32 - 0x30
}

/// The value of a string of decimal digits, most significant first.
pub open spec fn digits_val(s: Seq<char>) -> int
    decreases s.len(),
{
    if s.len() == 0 {
        0
    } else {
        digits_val(s.drop_last()) * 10 + digit_val(s.last())
    }
}

pub open spec fn all_digits(s: Seq<char>) -> bool {
    forall|i: int| 0 <= i < s.len() ==> is_digit(s[i])
}

/// The digit part of an integer literal: everything after an optional sign.
pub open spec fn int_digits(s: Seq<char>) -> Seq<char> {
    if s.len() > 0 && (s[0] == '+' || s[0] == '-') {
        s.skip(1)
    } else {
        s
    }
}

pub open spec fn is_negative_literal(s: Seq<char>) -> bool {
    s.len() > 0 && s[0] == '-'
}

/// The shape `str::parse::<i32>` accepts: an optional sign followed by at
/// least one decimal digit, nothing else.
pub open spec fn is_int_literal(s: Seq<char>) -> bool {
    int_digits(s).len() > 0 && all_digits(int_digits(s))
}

pub open spec fn int_value(s: Seq<char>) -> int {
    if is_negative_literal(s) {
        -digits_val(int_digits(s))
    } else {
        digits_val(int_digits(s))
    }
}

/// `str::parse::<i32>` succeeds exactly on well-shaped literals whose value
/// fits the type.
pub open spec fn parses_to_i32(s: Seq<char>) -> bool {
    is_int_literal(s) && -0x8000_0000 <= int_value(s) <= 0x7fff_ffff
}

proof fn lemma_digits_val_bounds(s: Seq<char>, k: int)
    requires
        0 <= k <= s.len(),
        all_digits(s),
    ensures
        digits_val(s) >= digits_val(s.take(k)),
        digits_val(s.take(k)) >= 0,
    decreases s.len(),
{
    if s.len() == 0 {
        assert(s.take(k) =~= s);
    } else if k == s.len() {
        assert(s.take(k) =~= s);
        lemma_digits_val_bounds(s.drop_last(), s.len() - 1);
        assert(s.drop_last().take(s.len() - 1) =~= s.drop_last());
    } else {
        let d = s.drop_last();
        assert(all_digits(d));
        lemma_digits_val_bounds(d, k);
        assert(d.take(k) =~= s.take(k));
        lemma_digits_val_bounds(d, d.len() as int);
        assert(d.take(d.len() as int) =~= d);
    }
}

pub fn parse_i32_str(s: &str) -> (r: Option<i32>)
    ensures
        r is Some <==> parses_to_i32(s@),
        r matches Some(v) ==> v == int_value(s@),
{
    let n = s.unicode_len();
    if n == 0 {
        return None;
    }
    let c0 = s.get_char(0);
    let neg = c0 == '-';
    let start: usize = if c0 == '-' || c0 == '+' {
        1
    } else {
        0
    };
    if start >= n {
        return None;
    }
    proof {
        assert(int_digits(s@) =~= s@.subrange(start as int, n as int));
    }
    let mut acc: u64 = 0;
    let mut i: usize = start;
    while i < n
        invariant
            n == s@.len(),
            start <= i <= n,
            start < n,
            int_digits(s@) =~= s@.subrange(start as int, n as int),
            neg == is_negative_literal(s@),
            all_digits(s@.subrange(start as int, i as int)),
            acc == digits_val(s@.subrange(start as int, i as int)),
            acc <= 0x8000_0000,
        decreases n - i,
    {
        let c = s.get_char(i);
        let u = c as u32;
        if u < 0x30 || u > 0x39 {
            proof {
                assert(int_digits(s@)[i - start] == s@[i as int]);
                assert(!all_digits(int_digits(s@)));
            }
            return None;
        }
        proof {
            assert(s@.subrange(start as int, i + 1).drop_last() =~= s@.subrange(
                start as int,
                i as int,
            ));
        }
        acc = acc * 10 + (u - 0x30) as u64;
        if acc > 0x8000_0000 {
            proof {
                let digits = int_digits(s@);
                if all_digits(digits) {
                    lemma_digits_val_bounds(digits, i + 1 - start);
                    assert(digits.take(i + 1 - start) =~= s@.subrange(start as int, i + 1));
                }
            }
            return None;
        }
        i += 1;
    }
    proof {
        assert(s@.subrange(start as int, n as int) =~= int_digits(s@));
    }
    if neg {
        if acc == 0x8000_0000 {
            Some(i32::MIN)
        } else {
            Some(-(acc as i32))
        }
    } else {
        if acc > 0x7fff_ffff {
            proof {
                let digits = int_digits(s@);
                lemma_digits_val_bounds(digits, digits.len() as int);
            }
            return None;
        }
        Some(acc as i32)
    }
}

pub fn tokens_str(s: &str) -> (r: Vec<String>)
    ensures
        views_of(r@) == tokens_of(s@),
{
    let n = s.unicode_len();
    let mut r: Vec<String> = Vec::new();
    let mut i: usize = 0;
    while i < n
        invariant
            n == s@.len(),
            0 <= i <= n,
            tokens_of(s@) == views_of(r@) + tokens_from(s@, i as int),
        decreases n - i,
    {
        if char_is_ws(s.get_char(i)) {
            i += 1;
        } else {
            let mut j: usize = i + 1;
            loop
                invariant
                    n == s@.len(),
                    i < j <= n,
                    forall|k: int| i <= k < j ==> !is_ws(s@[k]),
                ensures
                    i < j <= n,
                    forall|k: int| i <= k < j ==> !is_ws(s@[k]),
                    j == n || is_ws(s@[j as int]),
                decreases n - j,
            {
                if j == n {
                    break;
                }
                if char_is_ws(s.get_char(j)) {
                    break;
                }
                j += 1;
            }
            let piece = s.substring_char(i, j).to_owned();
            proof {
                lemma_run_len_bounds(s@, i as int, j as int);
                let ghost prev = views_of(r@);
                assert(views_of(r@.push(piece)) =~~= prev.push(piece@));
            }
            r.push(piece);
            i = j;
        }
    }
    r
}

} // verus!
