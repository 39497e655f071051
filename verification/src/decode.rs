//! Decoder for the CIF textual image format: a resolution header line
//! followed by lines of `#RRGGBB` color tokens, with `<--`...`-->` comment
//! spans and embedded spaces ignored.
use vstd::prelude::*;

verus! {

// ---------------------------------------------------------------------------
// Characters
// ---------------------------------------------------------------------------

/// A character is one of the ASCII hexadecimal digits.
pub open spec fn spec_is_hex_digit(c: char) -> bool {
    ('0' <= c && c <= '9') || ('a' <= c && c <= 'f') || ('A' <= c && c <= 'F')
}

/// Numeric value of a hexadecimal digit.
pub open spec fn spec_hex_val(c: char) -> int {
    if '0' <= c && c <= '9' {
        c as int - '0' as int
    } else if 'a' <= c && c <= 'f' {
        c as int - 'a' as int + 10
    } else {
        c as int - 'A' as int + 10
    }
}

/// An ASCII decimal digit.
pub open spec fn spec_is_digit(c: char) -> bool {
    '0' <= c && c <= '9'
}

/// The characters with the Unicode `White_Space` property, the set that
/// `str::trim` removes at either end of a string.
pub open spec fn spec_is_white(c: char) -> bool {
    ||| ('\u{9}' <= c && c <= '\u{d}')
    ||| c == ' '
    ||| c == '\u{85}'
    ||| c == '\u{a0}'
    ||| c == '\u{1680}'
    ||| ('\u{2000}' <= c && c <= '\u{200a}')
    ||| c == '\u{2028}'
    ||| c == '\u{2029}'
    ||| c == '\u{202f}'
    ||| c == '\u{205f}'
    ||| c == '\u{3000}'
}

fn is_white(c: char) -> (r: bool)
    ensures
        r == spec_is_white(c),
{
    ('\u{9}' <= c && c <= '\u{d}') || c == ' ' || c == '\u{85}' || c == '\u{a0}' || c
        == '\u{1680}' || ('\u{2000}' <= c && c <= '\u{200a}') || c == '\u{2028}' || c == '\u{2029}'
        || c == '\u{202f}' || c == '\u{205f}' || c == '\u{3000}'
}

fn is_hex_digit(c: char) -> (r: bool)
    ensures
        r == spec_is_hex_digit(c),
{
    ('0' <= c && c <= '9') || ('a' <= c && c <= 'f') || ('A' <= c && c <= 'F')
}

fn hex_val(c: char) -> (v: u8)
    requires
        spec_is_hex_digit(c),
    ensures
        v as int == spec_hex_val(c),
{
    let u: u32 = c as u32;
    if u >= 'a' as u32 {
        (u - 'a' as u32 + 10) as u8
    } else if u >= 'A' as u32 {
        (u - 'A' as u32 + 10) as u8
    } else {
        (u - '0' as u32) as u8
    }
}

// ---------------------------------------------------------------------------
// Utility: characters of a string, copies of a range
// ---------------------------------------------------------------------------

/// The characters of a string as a vector.
fn chars_of(s: &str) -> (v: Vec<char>)
    ensures
        v@ == s@,
{
    let n: usize = s.unicode_len();
    let mut v: Vec<char> = Vec::new();
    let mut i: usize = 0;
    while i < n
        invariant
            n == s@.len(),
            i <= n,
            v@ == s@.subrange(0, i as int),
        decreases n - i,
    {
        v.push(s.get_char(i));
        i = i + 1;
        proof {
            assert(v@ =~= s@.subrange(0, i as int));
        }
    }
    proof {
        assert(v@ =~= s@);
    }
    v
}

/// A copy of `s[a..b]`.
fn copy_range(s: &Vec<char>, a: usize, b: usize) -> (out: Vec<char>)
    requires
        a <= b <= s@.len(),
    ensures
        out@ == s@.subrange(a as int, b as int),
{
    let mut out: Vec<char> = Vec::new();
    let mut i: usize = a;
    while i < b
        invariant
            a <= i <= b <= s@.len(),
            out@ == s@.subrange(a as int, i as int),
        decreases b - i,
    {
        out.push(s[i]);
        i = i + 1;
        proof {
            assert(out@ =~= s@.subrange(a as int, i as int));
        }
    }
    out
}

// ---------------------------------------------------------------------------
// Comment stripping
// ---------------------------------------------------------------------------

/// The three characters `a b c` stand at position `i` of `s`.
pub open spec fn match3_at(s: Seq<char>, i: int, a: char, b: char, c: char) -> bool {
    &&& 0 <= i
    &&& i + 3 <= s.len()
    &&& s[i] == a
    &&& s[i + 1] == b
    &&& s[i + 2] == c
}

/// Least position `>= from` where the three characters `a b c` stand, if any.
pub open spec fn find3(s: Seq<char>, from: int, a: char, b: char, c: char) -> Option<int>
    decreases s.len() - from,
{
    if from + 3 > s.len() {
        None
    } else if match3_at(s, from, a, b, c) {
        Some(from)
    } else {
        find3(s, from + 1, a, b, c)
    }
}

pub proof fn lemma_find3_props(s: Seq<char>, from: int, a: char, b: char, c: char)
    ensures
        match find3(s, from, a, b, c) {
            Some(i) => from <= i && match3_at(s, i, a, b, c) && (forall|j: int|
                from <= j < i ==> !match3_at(s, j, a, b, c)),
            None => forall|j: int| from <= j ==> !match3_at(s, j, a, b, c),
        },
    decreases s.len() - from,
{
    if from + 3 > s.len() {
    } else if match3_at(s, from, a, b, c) {
    } else {
        lemma_find3_props(s, from + 1, a, b, c);
    }
}

/// A line with every comment span removed: repeatedly, the span from the
/// leftmost `<--` to the next `-->` after it goes, and scanning resumes
/// after that closer; an unclosed `<--` stays.
pub open spec fn strip_comments(s: Seq<char>) -> Seq<char>
    decreases s.len(),
{
    match find3(s, 0, '<', '-', '-') {
        None => s,
        Some(i) => match find3(s, i + 3, '-', '-', '>') {
            None => s,
            Some(j) => {
                proof {
                    lemma_find3_props(s, 0, '<', '-', '-');
                    lemma_find3_props(s, i + 3, '-', '-', '>');
                }
                s.subrange(0, i) + strip_comments(s.subrange(j + 3, s.len() as int))
            },
        },
    }
}

fn find3_exec(s: &Vec<char>, from: usize, a: char, b: char, c: char) -> (r: Option<usize>)
    ensures
        match r {
            Some(i) => find3(s@, from as int, a, b, c) == Some(i as int) && from <= i && i + 3
                <= s@.len(),
            None => find3(s@, from as int, a, b, c) is None,
        },
{
    let n: usize = s.len();
    let mut pos: usize = from;
    loop
        invariant
            from <= pos,
            n == s@.len(),
            find3(s@, from as int, a, b, c) == find3(s@, pos as int, a, b, c),
        decreases s@.len() - pos,
    {
        if n < 3 || pos > n - 3 {
            return None;
        }
        if s[pos] == a && s[pos + 1] == b && s[pos + 2] == c {
            return Some(pos);
        }
        pos = pos + 1;
    }
}

fn strip_comments_exec(s: &Vec<char>) -> (out: Vec<char>)
    ensures
        out@ == strip_comments(s@),
    decreases s@.len(),
{
    let n: usize = s.len();
    if let Some(i) = find3_exec(s, 0, '<', '-', '-') {
        if let Some(j) = find3_exec(s, i + 3, '-', '-', '>') {
            let mut out = copy_range(s, 0, i);
            let rest = copy_range(s, j + 3, n);
            let mut tail = strip_comments_exec(&rest);
            out.append(&mut tail);
            return out;
        }
    }
    copy_range(s, 0, n)
}

// ---------------------------------------------------------------------------
// Space removal and trimming
// ---------------------------------------------------------------------------

/// The line with every space character removed, wherever it stands.
pub open spec fn remove_spaces(s: Seq<char>) -> Seq<char>
    decreases s.len(),
{
    if s.len() == 0 {
        Seq::empty()
    } else if s.last() == ' ' {
        remove_spaces(s.drop_last())
    } else {
        remove_spaces(s.drop_last()).push(s.last())
    }
}

fn remove_spaces_exec(s: &Vec<char>) -> (out: Vec<char>)
    ensures
        out@ == remove_spaces(s@),
{
    let n: usize = s.len();
    let mut out: Vec<char> = Vec::new();
    let mut i: usize = 0;
    while i < n
        invariant
            i <= n == s@.len(),
            out@ == remove_spaces(s@.subrange(0, i as int)),
        decreases n - i,
    {
        let c = s[i];
        if c != ' ' {
            out.push(c);
        }
        i = i + 1;
        proof {
            let pre = s@.subrange(0, i as int);
            assert(pre.drop_last() =~= s@.subrange(0, i - 1));
            assert(pre.last() == s@[i - 1]);
        }
    }
    proof {
        assert(s@.subrange(0, n as int) =~= s@);
    }
    out
}

/// The string without leading white space.
pub open spec fn trim_start(s: Seq<char>) -> Seq<char>
    decreases s.len(),
{
    if s.len() > 0 && spec_is_white(s[0]) {
        trim_start(s.drop_first())
    } else {
        s
    }
}

/// The string without trailing white space.
pub open spec fn trim_end(s: Seq<char>) -> Seq<char>
    decreases s.len(),
{
    if s.len() > 0 && spec_is_white(s.last()) {
        trim_end(s.drop_last())
    } else {
        s
    }
}

/// The string without leading or trailing white space, as `str::trim` gives it.
pub open spec fn spec_trim(s: Seq<char>) -> Seq<char> {
    trim_end(trim_start(s))
}

proof fn lemma_trim_start_at(s: Seq<char>, a: int)
    requires
        0 <= a <= s.len(),
        forall|j: int| 0 <= j < a ==> spec_is_white(s[j]),
        a < s.len() ==> !spec_is_white(s[a]),
    ensures
        trim_start(s) == s.subrange(a, s.len() as int),
    decreases a,
{
    if a == 0 {
        assert(s.subrange(0, s.len() as int) =~= s);
    } else {
        let t = s.drop_first();
        assert(forall|j: int| 0 <= j < a - 1 ==> spec_is_white(t[j]));
        lemma_trim_start_at(t, a - 1);
        assert(t.subrange(a - 1, t.len() as int) =~= s.subrange(a, s.len() as int));
    }
}

proof fn lemma_trim_end_at(s: Seq<char>, b: int)
    requires
        0 <= b <= s.len(),
        forall|j: int| b <= j < s.len() ==> spec_is_white(s[j]),
        b > 0 ==> !spec_is_white(s[b - 1]),
    ensures
        trim_end(s) == s.subrange(0, b),
    decreases s.len(),
{
    if b == s.len() {
        if s.len() == 0 || !spec_is_white(s.last()) {
            assert(s.subrange(0, s.len() as int) =~= s);
        } else {
            assert(false);
        }
    } else {
        let t = s.drop_last();
        lemma_trim_end_at(t, b);
        assert(t.subrange(0, b) =~= s.subrange(0, b));
    }
}

/// A copy of `str::trim` over character vectors, with its exact contract.
fn trim_exec(s: &Vec<char>) -> (out: Vec<char>)
    ensures
        out@ == spec_trim(s@),
{
    let n: usize = s.len();
    let mut a: usize = 0;
    while a < n && is_white(s[a])
        invariant
            a <= n == s@.len(),
            forall|j: int| 0 <= j < a ==> spec_is_white(s@[j]),
        decreases n - a,
    {
        a = a + 1;
    }
    proof {
        lemma_trim_start_at(s@, a as int);
    }
    if a == n {
        proof {
            assert(s@.subrange(a as int, n as int) =~= Seq::<char>::empty());
        }
        return Vec::new();
    }
    let mut b: usize = n;
    while b > a && is_white(s[b - 1])
        invariant
            a <= b <= n == s@.len(),
            forall|j: int| b <= j < n ==> spec_is_white(s@[j]),
        decreases b,
    {
        b = b - 1;
    }
    proof {
        let st = s@.subrange(a as int, n as int);
        assert(b > a) by {
            if b == a {
                assert(spec_is_white(s@[a as int]));
            }
        }
        assert(forall|j: int| b - a <= j < st.len() ==> spec_is_white(st[j]));
        assert(!spec_is_white(st[b - a - 1]));
        lemma_trim_end_at(st, b - a);
        assert(st.subrange(0, b - a) =~= s@.subrange(a as int, b as int));
    }
    copy_range(s, a, b)
}

// ---------------------------------------------------------------------------
// Color tokens
// ---------------------------------------------------------------------------

/// A color token is valid when, after trimming, it is exactly six
/// hexadecimal digits.
pub open spec fn valid_color_token(tok: Seq<char>) -> bool {
    &&& spec_trim(tok).len() == 6
    &&& forall|i: int| 0 <= i < 6 ==> spec_is_hex_digit(#[trigger] spec_trim(tok)[i])
}

/// The packed color `(R << 16) | (G << 8) | B` that a valid token denotes.
pub open spec fn color_value(tok: Seq<char>) -> int {
    let t = spec_trim(tok);
    spec_hex_val(t[0]) * 0x100000 + spec_hex_val(t[1]) * 0x10000 + spec_hex_val(t[2]) * 0x1000
        + spec_hex_val(t[3]) * 0x100 + spec_hex_val(t[4]) * 0x10 + spec_hex_val(t[5])
}

/// The red, green and blue bytes of a valid token, and `None` exactly on an
/// invalid one.
fn token_rgb(tok: &Vec<char>) -> (r: Option<(u8, u8, u8)>)
    ensures
        match r {
            Some(rgb) => valid_color_token(tok@) && {
                let t = spec_trim(tok@);
                &&& rgb.0 as int == spec_hex_val(t[0]) * 16 + spec_hex_val(t[1])
                &&& rgb.1 as int == spec_hex_val(t[2]) * 16 + spec_hex_val(t[3])
                &&& rgb.2 as int == spec_hex_val(t[4]) * 16 + spec_hex_val(t[5])
            },
            None => !valid_color_token(tok@),
        },
{
    let t = trim_exec(tok);
    if t.len() != 6 {
        return None;
    }
    let mut k: usize = 0;
    while k < 6
        invariant
            k <= 6,
            t@.len() == 6,
            t@ == spec_trim(tok@),
            forall|i: int| 0 <= i < k ==> spec_is_hex_digit(t@[i]),
        decreases 6 - k,
    {
        if !is_hex_digit(t[k]) {
            return None;
        }
        k = k + 1;
    }
    let r: u8 = hex_val(t[0]) * 16 + hex_val(t[1]);
    let g: u8 = hex_val(t[2]) * 16 + hex_val(t[3]);
    let b: u8 = hex_val(t[4]) * 16 + hex_val(t[5]);
    Some((r, g, b))
}

/// Parses one color token: exactly six hexadecimal digits after trimming,
/// read as the `(R, G, B)` bytes of a `#RRGGBB` color.
pub fn parse_hex_color(s: &str) -> (r: Option<(u8, u8, u8)>)
    ensures
        match r {
            Some(rgb) => valid_color_token(s@) && {
                let t = spec_trim(s@);
                &&& rgb.0 as int == spec_hex_val(t[0]) * 16 + spec_hex_val(t[1])
                &&& rgb.1 as int == spec_hex_val(t[2]) * 16 + spec_hex_val(t[3])
                &&& rgb.2 as int == spec_hex_val(t[4]) * 16 + spec_hex_val(t[5])
            },
            None => !valid_color_token(s@),
        },
{
    let v = chars_of(s);
    token_rgb(&v)
}

// ---------------------------------------------------------------------------
// Splitting a cleaned line into color tokens
// ---------------------------------------------------------------------------

/// Least position `>= from` holding `'#'`, if any.
pub open spec fn find_hash(s: Seq<char>, from: int) -> Option<int>
    decreases s.len() - from,
{
    if from + 1 > s.len() {
        None
    } else if 0 <= from && s[from] == '#' {
        Some(from)
    } else {
        find_hash(s, from + 1)
    }
}

pub proof fn lemma_find_hash_props(s: Seq<char>, from: int)
    requires
        from >= 0,
    ensures
        match find_hash(s, from) {
            Some(i) => from <= i && i < s.len() && s[i] == '#' && (forall|j: int|
                from <= j < i ==> s[j] != '#'),
            None => forall|j: int| from <= j < s.len() ==> s[j] != '#',
        },
    decreases s.len() - from,
{
    if from + 1 > s.len() {
    } else if 0 <= from && s[from] == '#' {
    } else {
        lemma_find_hash_props(s, from + 1);
    }
}

/// The segments of `s` split on `'#'`, as `str::split('#')` yields them:
/// one more segment than there are hash marks, empty segments kept.
pub open spec fn split_hash(s: Seq<char>) -> Seq<Seq<char>>
    decreases s.len(),
{
    match find_hash(s, 0) {
        None => seq![s],
        Some(i) => {
            proof {
                lemma_find_hash_props(s, 0);
            }
            seq![s.subrange(0, i)] + split_hash(s.subrange(i + 1, s.len() as int))
        },
    }
}

fn find_hash_exec(s: &Vec<char>, from: usize) -> (r: Option<usize>)
    ensures
        match r {
            Some(i) => find_hash(s@, from as int) == Some(i as int) && from <= i && i < s@.len(),
            None => find_hash(s@, from as int) is None,
        },
{
    let n: usize = s.len();
    let mut pos: usize = from;
    while pos < n
        invariant
            from <= pos,
            n == s@.len(),
            find_hash(s@, from as int) == find_hash(s@, pos as int),
        decreases n - pos,
    {
        if s[pos] == '#' {
            return Some(pos);
        }
        pos = pos + 1;
    }
    None
}

fn split_hash_exec(s: &Vec<char>) -> (segs: Vec<Vec<char>>)
    ensures
        segs@.map_values(|t: Vec<char>| t@) == split_hash(s@),
    decreases s@.len(),
{
    let n: usize = s.len();
    match find_hash_exec(s, 0) {
        None => {
            let mut segs: Vec<Vec<char>> = Vec::new();
            segs.push(copy_range(s, 0, n));
            proof {
                assert(s@.subrange(0, n as int) =~= s@);
                assert(segs@.map_values(|t: Vec<char>| t@) =~~= split_hash(s@));
            }
            segs
        },
        Some(i) => {
            let mut segs: Vec<Vec<char>> = Vec::new();
            segs.push(copy_range(s, 0, i));
            let rest = copy_range(s, i + 1, n);
            let mut tail = split_hash_exec(&rest);
            segs.append(&mut tail);
            proof {
                assert(segs@.map_values(|t: Vec<char>| t@) =~~= split_hash(s@));
            }
            segs
        },
    }
}

/// The color tokens of one raw line: comments stripped, spaces removed,
/// split on `'#'`, and the segment before the first `'#'` discarded.
pub open spec fn line_tokens(line: Seq<char>) -> Seq<Seq<char>> {
    split_hash(remove_spaces(strip_comments(line))).drop_first()
}

fn line_tokens_exec(line: &Vec<char>) -> (toks: Vec<Vec<char>>)
    ensures
        toks@.map_values(|t: Vec<char>| t@) == line_tokens(line@),
{
    let stripped = strip_comments_exec(line);
    let clean = remove_spaces_exec(&stripped);
    let mut segs = split_hash_exec(&clean);
    proof {
        assert(split_hash(clean@).len() >= 1) by {
            lemma_find_hash_props(clean@, 0);
        }
    }
    segs.remove(0);
    proof {
        assert(segs@.map_values(|t: Vec<char>| t@) =~~= line_tokens(line@));
    }
    segs
}

// ---------------------------------------------------------------------------
// Resolution header
// ---------------------------------------------------------------------------

/// End of the run of decimal digits that starts at `from`: the least
/// position `>= from` that is past the end or holds a non-digit.
pub open spec fn digit_run_end(s: Seq<char>, from: int) -> int
    decreases s.len() - from,
{
    if from >= s.len() || !spec_is_digit(s[from]) {
        from
    } else {
        digit_run_end(s, from + 1)
    }
}

/// A resolution token `<W x H>` (literal brackets, literal `x`, decimal
/// digit runs) stands at position `p`.
pub open spec fn res_match_at(s: Seq<char>, p: int) -> bool {
    &&& 0 <= p < s.len()
    &&& s[p] == '<'
    &&& p + 1 < s.len() && spec_is_digit(s[p + 1])
    &&& {
        let e1 = digit_run_end(s, p + 2);
        &&& e1 < s.len() && s[e1] == 'x'
        &&& e1 + 1 < s.len() && spec_is_digit(s[e1 + 1])
        &&& {
            let e2 = digit_run_end(s, e1 + 2);
            e2 < s.len() && s[e2] == '>'
        }
    }
}

/// Least position `>= from` where a resolution token stands, if any.
pub open spec fn find_res(s: Seq<char>, from: int) -> Option<int>
    decreases s.len() - from,
{
    if from >= s.len() {
        None
    } else if res_match_at(s, from) {
        Some(from)
    } else {
        find_res(s, from + 1)
    }
}

/// The number denoted by the decimal digits `s[a..b]`, most significant
/// first.
pub open spec fn digits_val(s: Seq<char>, a: int, b: int) -> int
    decreases b - a,
{
    if b <= a {
        0
    } else {
        digits_val(s, a, b - 1) * 10 + (s[b - 1] as int - '0' as int)
    }
}

/// What the resolution line yields: at the leftmost resolution token, the
/// two digit runs read as decimal numbers, provided both fit in `u32`.
pub open spec fn spec_parse_resolution(s: Seq<char>) -> Option<(u32, u32)> {
    match find_res(s, 0) {
        None => None,
        Some(p) => {
            let e1 = digit_run_end(s, p + 2);
            let e2 = digit_run_end(s, e1 + 2);
            let w = digits_val(s, p + 1, e1);
            let h = digits_val(s, e1 + 1, e2);
            if w <= u32::MAX && h <= u32::MAX {
                Some((w as u32, h as u32))
            } else {
                None
            }
        },
    }
}

fn digit_run_end_exec(s: &Vec<char>, from: usize) -> (e: usize)
    requires
        from <= s@.len(),
    ensures
        e as int == digit_run_end(s@, from as int),
        from <= e <= s@.len(),
        forall|k: int| from <= k < e ==> spec_is_digit(s@[k]),
        e < s@.len() ==> !spec_is_digit(s@[e as int]),
{
    let n: usize = s.len();
    let mut pos: usize = from;
    while pos < n && s[pos] >= '0' && s[pos] <= '9'
        invariant
            from <= pos <= n == s@.len(),
            digit_run_end(s@, from as int) == digit_run_end(s@, pos as int),
            forall|k: int| from <= k < pos ==> spec_is_digit(s@[k]),
        decreases n - pos,
    {
        pos = pos + 1;
    }
    pos
}

fn res_match_at_exec(s: &Vec<char>, p: usize) -> (r: bool)
    requires
        p < s@.len(),
    ensures
        r == res_match_at(s@, p as int),
{
    let n: usize = s.len();
    if s[p] != '<' {
        return false;
    }
    if p + 1 >= n || s[p + 1] < '0' || s[p + 1] > '9' {
        return false;
    }
    let e1 = digit_run_end_exec(s, p + 2);
    if e1 >= n || s[e1] != 'x' {
        return false;
    }
    if e1 + 1 >= n || s[e1 + 1] < '0' || s[e1 + 1] > '9' {
        return false;
    }
    let e2 = digit_run_end_exec(s, e1 + 2);
    e2 < n && s[e2] == '>'
}

proof fn lemma_digits_val_nonneg(s: Seq<char>, a: int, b: int)
    requires
        forall|k: int| a <= k < b ==> spec_is_digit(s[k]),
    ensures
        digits_val(s, a, b) >= 0,
    decreases b - a,
{
    if b <= a {
    } else {
        lemma_digits_val_nonneg(s, a, b - 1);
    }
}

/// The decimal value of the digit run `s[a..e]`, or `None` if it exceeds
/// `u32::MAX`.
fn digits_to_u32(s: &Vec<char>, a: usize, e: usize) -> (r: Option<u32>)
    requires
        a <= e <= s@.len(),
        forall|k: int| a <= k < e ==> spec_is_digit(s@[k]),
    ensures
        match r {
            Some(w) => digits_val(s@, a as int, e as int) == w as int,
            None => digits_val(s@, a as int, e as int) > u32::MAX,
        },
{
    let mut acc: u64 = 0;
    let mut i: usize = a;
    while i < e
        invariant
            a <= i <= e <= s@.len(),
            forall|k: int| a <= k < e ==> spec_is_digit(s@[k]),
            acc <= 0xa_0000_0009,
            digits_val(s@, a as int, i as int) <= u32::MAX ==> acc == digits_val(
                s@,
                a as int,
                i as int,
            ),
            digits_val(s@, a as int, i as int) > u32::MAX ==> acc > u32::MAX,
        decreases e - i,
    {
        let c = s[i];
        let d: u64 = (c as u32 - '0' as u32) as u64;
        proof {
            lemma_digits_val_nonneg(s@, a as int, i as int);
        }
        if acc >= 0x1_0000_0000 {
            acc = 0x1_0000_0000;
        } else {
            acc = acc * 10 + d;
        }
        i = i + 1;
    }
    if acc <= 0xffff_ffff {
        Some(acc as u32)
    } else {
        None
    }
}

/// Finds the leftmost `<W x H>` resolution token embedded in the line and
/// reads its two decimal numbers; `None` when no token stands in the line
/// or either number exceeds `u32::MAX`.
pub fn parse_resolution(s: &str) -> (r: Option<(u32, u32)>)
    ensures
        r == spec_parse_resolution(s@),
{
    let v = chars_of(s);
    let n: usize = v.len();
    let mut p: usize = 0;
    while p < n
        invariant
            p <= n == v@.len(),
            v@ == s@,
            find_res(v@, 0) == find_res(v@, p as int),
        decreases n - p,
    {
        if res_match_at_exec(&v, p) {
            let e1 = digit_run_end_exec(&v, p + 2);
            let e2 = digit_run_end_exec(&v, e1 + 2);
            let w = digits_to_u32(&v, p + 1, e1);
            let h = digits_to_u32(&v, e1 + 1, e2);
            match (w, h) {
                (Some(w), Some(h)) => {
                    return Some((w, h));
                },
                _ => {
                    return None;
                },
            }
        }
        p = p + 1;
    }
    None
}

// ---------------------------------------------------------------------------
// The decoder
// ---------------------------------------------------------------------------

/// The immutable source image: its declared resolution and its pixels,
/// packed `(R << 16) | (G << 8) | B`, row-major. The pixel count is *not*
/// required to equal `width * height`; the renderer treats any index past
/// the end as background.
pub struct SourceRaster {
    pub width: u32,
    pub height: u32,
    pub pixels: Vec<u32>,
}

/// How a decode fails: no usable resolution header, or a malformed color
/// token (carried verbatim, as it stood after cleaning).
#[derive(Debug)]
pub enum DecodeError {
    Format,
    InvalidColor { token: Vec<char> },
}

/// All color tokens of a sequence of color-bearing lines, scanning lines
/// top to bottom and tokens left to right.
pub open spec fn tokens_of(lines: Seq<Seq<char>>) -> Seq<Seq<char>>
    decreases lines.len(),
{
    if lines.len() == 0 {
        Seq::empty()
    } else {
        line_tokens(lines[0]) + tokens_of(lines.drop_first())
    }
}

/// Index of the first invalid color token, if any.
pub open spec fn first_invalid(toks: Seq<Seq<char>>) -> Option<int>
    decreases toks.len(),
{
    if toks.len() == 0 {
        None
    } else if !valid_color_token(toks[0]) {
        Some(0)
    } else {
        match first_invalid(toks.drop_first()) {
            None => None,
            Some(k) => Some(k + 1),
        }
    }
}

proof fn lemma_first_invalid_append(a: Seq<Seq<char>>, b: Seq<Seq<char>>)
    ensures
        first_invalid(a + b) == match first_invalid(a) {
            Some(k) => Some(k),
            None => match first_invalid(b) {
                Some(k) => Some(k + a.len()),
                None => None::<int>,
            },
        },
    decreases a.len(),
{
    if a.len() == 0 {
        assert(a + b =~= b);
    } else {
        assert((a + b).drop_first() =~= a.drop_first() + b);
        lemma_first_invalid_append(a.drop_first(), b);
    }
}

proof fn lemma_tokens_of_concat(a: Seq<Seq<char>>, b: Seq<Seq<char>>)
    ensures
        tokens_of(a + b) == tokens_of(a) + tokens_of(b),
    decreases a.len(),
{
    if a.len() == 0 {
        assert(a + b =~= b);
        assert(tokens_of(a) + tokens_of(b) =~= tokens_of(b));
    } else {
        assert((a + b).drop_first() =~= a.drop_first() + b);
        lemma_tokens_of_concat(a.drop_first(), b);
        assert(tokens_of(a + b) =~= tokens_of(a) + tokens_of(b));
    }
}

proof fn lemma_tokens_of_push(lines: Seq<Seq<char>>, x: Seq<char>)
    ensures
        tokens_of(lines.push(x)) == tokens_of(lines) + line_tokens(x),
{
    assert(lines.push(x) =~= lines + seq![x]);
    lemma_tokens_of_concat(lines, seq![x]);
    assert(seq![x].drop_first() =~= Seq::<Seq<char>>::empty());
    assert(tokens_of(Seq::<Seq<char>>::empty()) =~= Seq::<Seq<char>>::empty());
    assert(tokens_of(seq![x]) =~= line_tokens(x));
}

/// Decodes the lines of a CIF text: the first line must carry a `<W x H>`
/// resolution token, and every `#`-introduced token of the remaining lines
/// must be a valid color. Succeeds exactly when both hold, with the pixels
/// in scan order; the pixel count is whatever the text supplies, matched
/// against the header by nobody.
pub fn decode(lines: &Vec<String>) -> (r: Result<SourceRaster, DecodeError>)
    ensures
        ({
            let ls = lines@.map_values(|l: String| l@);
            let toks = if ls.len() == 0 {
                Seq::<Seq<char>>::empty()
            } else {
                tokens_of(ls.drop_first())
            };
            match r {
                Ok(raster) => {
                    &&& ls.len() > 0
                    &&& spec_parse_resolution(ls[0]) == Some((raster.width, raster.height))
                    &&& first_invalid(toks) is None
                    &&& raster.pixels@.len() == toks.len()
                    &&& forall|i: int|
                        0 <= i < toks.len() ==> #[trigger] raster.pixels@[i] as int == color_value(
                            toks[i],
                        )
                },
                Err(e) => match e {
                    DecodeError::Format => ls.len() == 0 || spec_parse_resolution(ls[0]) is None,
                    DecodeError::InvalidColor { token } => {
                        &&& ls.len() > 0
                        &&& spec_parse_resolution(ls[0]) is Some
                        &&& match first_invalid(toks) {
                            Some(k) => token@ == toks[k],
                            None => false,
                        }
                    },
                },
            }
        }),
{
    let ghost ls = lines@.map_values(|l: String| l@);
    let nl: usize = lines.len();
    if nl == 0 {
        return Err(DecodeError::Format);
    }
    let (width, height) = match parse_resolution(lines[0].as_str()) {
        None => {
            return Err(DecodeError::Format);
        },
        Some(pair) => pair,
    };
    let mut pixels: Vec<u32> = Vec::new();
    let mut li: usize = 1;
    while li < nl
        invariant
            1 <= li <= nl == lines@.len(),
            ls == lines@.map_values(|l: String| l@),
            spec_parse_resolution(ls[0]) == Some((width, height)),
            first_invalid(tokens_of(ls.subrange(1, li as int))) is None,
            pixels@.len() == tokens_of(ls.subrange(1, li as int)).len(),
            forall|i: int|
                0 <= i < pixels@.len() ==> #[trigger] pixels@[i] as int == color_value(
                    tokens_of(ls.subrange(1, li as int))[i],
                ),
        decreases nl - li,
    {
        let lv = chars_of(lines[li].as_str());
        let toks = line_tokens_exec(&lv);
        let ghost done = tokens_of(ls.subrange(1, li as int));
        let ghost lt = line_tokens(ls[li as int]);
        proof {
            assert(lv@ == ls[li as int]);
        }
        let nt: usize = toks.len();
        let mut j: usize = 0;
        while j < nt
            invariant
                j <= nt == toks@.len(),
                toks@.map_values(|t: Vec<char>| t@) == lt,
                done == tokens_of(ls.subrange(1, li as int)),
                li < nl == lines@.len(),
                1 <= li,
                ls == lines@.map_values(|l: String| l@),
                lt == line_tokens(ls[li as int]),
                spec_parse_resolution(ls[0]) == Some((width, height)),
                first_invalid(done + lt.subrange(0, j as int)) is None,
                pixels@.len() == done.len() + j,
                forall|i: int|
                    0 <= i < pixels@.len() ==> #[trigger] pixels@[i] as int == color_value(
                        (done + lt.subrange(0, j as int))[i],
                    ),
            decreases nt - j,
        {
            proof {
                assert(toks@.map_values(|t: Vec<char>| t@)[j as int] == toks@[j as int]@);
            }
            match token_rgb(&toks[j]) {
                None => {
                    let token = copy_range(&toks[j], 0, toks[j].len());
                    proof {
                        assert(token@ =~= lt[j as int]);
                        let prefix = done + lt.subrange(0, j as int);
                        let suffix = seq![lt[j as int]] + lt.subrange(j + 1, lt.len() as int)
                            + tokens_of(ls.subrange(li + 1, nl as int));
                        assert(ls.drop_first() =~= ls.subrange(1, li as int) + (seq![
                            ls[li as int],
                        ] + ls.subrange(li + 1, nl as int)));
                        lemma_tokens_of_concat(
                            ls.subrange(1, li as int),
                            seq![ls[li as int]] + ls.subrange(li + 1, nl as int),
                        );
                        lemma_tokens_of_concat(
                            seq![ls[li as int]],
                            ls.subrange(li + 1, nl as int),
                        );
                        assert(seq![ls[li as int]].drop_first() =~= Seq::<Seq<char>>::empty());
                        assert(tokens_of(Seq::<Seq<char>>::empty()) =~= Seq::<Seq<char>>::empty());
                        assert(tokens_of(seq![ls[li as int]]) =~= lt);
                        assert(lt =~= lt.subrange(0, j as int) + (seq![lt[j as int]] + lt.subrange(
                            j + 1,
                            lt.len() as int,
                        )));
                        assert(tokens_of(ls.drop_first()) =~= prefix + suffix);
                        lemma_first_invalid_append(prefix, suffix);
                        assert(!valid_color_token(suffix[0]));
                        assert(first_invalid(suffix) == Some(0int));
                        assert(first_invalid(tokens_of(ls.drop_first())) == Some(
                            prefix.len() as int,
                        ));
                        assert((prefix + suffix)[prefix.len() as int] == lt[j as int]);
                    }
                    return Err(DecodeError::InvalidColor { token });
                },
                Some((r, g, b)) => {
                    let v: u32 = (r as u32) * 65536 + (g as u32) * 256 + (b as u32);
                    pixels.push(v);
                    proof {
                        let old_prefix = done + lt.subrange(0, j as int);
                        let new_prefix = done + lt.subrange(0, j + 1);
                        assert(new_prefix =~= old_prefix.push(lt[j as int]));
                        lemma_first_invalid_append(old_prefix, seq![lt[j as int]]);
                        assert(old_prefix + seq![lt[j as int]] =~= new_prefix);
                        assert(seq![lt[j as int]].drop_first() =~= Seq::<Seq<char>>::empty());
                        assert(first_invalid(Seq::<Seq<char>>::empty()) is None);
                        assert(valid_color_token(lt[j as int]));
                        assert(first_invalid(seq![lt[j as int]]) is None);
                        assert(v as int == color_value(lt[j as int]));
                    }
                },
            }
            j = j + 1;
        }
        proof {
            assert(lt.subrange(0, nt as int) =~= lt);
            assert(ls.subrange(1, li + 1) =~= ls.subrange(1, li as int).push(ls[li as int]));
            lemma_tokens_of_push(ls.subrange(1, li as int), ls[li as int]);
        }
        li = li + 1;
    }
    proof {
        assert(ls.subrange(1, nl as int) =~= ls.drop_first());
    }
    Ok(SourceRaster { width, height, pixels })
}

} // verus!
