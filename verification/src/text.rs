//! Character-level helpers shared by the template parser, the preset reader and
//! the renderers: decimal rendering, literal replacement, splitting into parts
//! and lines, and the few character classes of std that the engine relies on.
use vstd::prelude::*;

verus! {

// ---------------------------------------------------------------------------
// Character classes of std (Unicode properties)
// ---------------------------------------------------------------------------

/// The Unicode `White_Space` property, which `char::is_whitespace` answers:
/// the tab, line feed, vertical tab, form feed and carriage return, the space,
/// the next-line character, the no-break space, the Ogham space mark, the
/// spaces U+2000 to U+200A, the line and paragraph separators, the narrow
/// no-break space, the medium mathematical space and the ideographic space.
pub open spec fn char_is_whitespace(c: char) -> bool {
    let u = c as int;
    ||| 0x09 <= u <= 0x0D
    ||| u == 0x20
    ||| u == 0x85
    ||| u == 0xA0
    ||| u == 0x1680
    ||| 0x2000 <= u <= 0x200A
    ||| u == 0x2028
    ||| u == 0x2029
    ||| u == 0x202F
    ||| u == 0x205F
    ||| u == 0x3000
}

/// The upper-case form of an ASCII character.
pub open spec fn ascii_upper(c: char) -> char {
    if 'a' <= c && c <= 'z' {
        ((c as int) - 32) as char
    } else {
        c
    }
}

/// What `char::is_numeric` answers for `c` (general categories `Nd`, `Nl`, `No`).
pub uninterp spec fn char_is_numeric(c: char) -> bool;

/// What `char::is_alphabetic` answers for `c` (the Unicode `Alphabetic` property).
pub uninterp spec fn char_is_alphabetic(c: char) -> bool;

/// What `str::to_uppercase` gives back for the characters `s`.
pub uninterp spec fn str_to_uppercase(s: Seq<char>) -> Seq<char>;

pub open spec fn is_ascii(c: char) -> bool {
    (c as int) < 128
}

/// Whether `c` is numeric: among the ASCII characters exactly the digits,
/// beyond them what `char::is_numeric` answers.
pub open spec fn numeric_char(c: char) -> bool {
    if is_ascii(c) {
        '0' <= c && c <= '9'
    } else {
        char_is_numeric(c)
    }
}

/// Whether `c` is alphabetic: among the ASCII characters exactly the letters,
/// beyond them what `char::is_alphabetic` answers.
pub open spec fn alphabetic_char(c: char) -> bool {
    if is_ascii(c) {
        ('a' <= c && c <= 'z') || ('A' <= c && c <= 'Z')
    } else {
        char_is_alphabetic(c)
    }
}

/// The upper-case form of `s`: for an ASCII text its letters `a` to `z`
/// raised and the rest kept, beyond ASCII what `str::to_uppercase` gives.
pub open spec fn upper_text(s: Seq<char>) -> Seq<char> {
    if forall|i: int| 0 <= i < s.len() ==> is_ascii(#[trigger] s[i]) {
        s.map_values(|c: char| ascii_upper(c))
    } else {
        str_to_uppercase(s)
    }
}

/// Whether `c` has the `White_Space` property (what `char::is_whitespace`
/// answers).
pub(crate) fn is_whitespace(c: char) -> (r: bool)
    ensures
        r == char_is_whitespace(c),
{
    let u = c as u32;
    (0x09 <= u && u <= 0x0D) || u == 0x20 || u == 0x85 || u == 0xA0 || u == 0x1680 || (0x2000 <= u
        && u <= 0x200A) || u == 0x2028 || u == 0x2029 || u == 0x202F || u == 0x205F || u == 0x3000
}

/// Calls `char::is_numeric` (general categories `Nd`, `Nl`, `No`). Among the
/// ASCII characters exactly the digits are numeric; beyond ASCII the result
/// is left to the name `char_is_numeric`.
#[verifier::external_body]
pub(crate) fn is_numeric(c: char) -> (r: bool)
    ensures
        r == numeric_char(c),
        !is_ascii(c) ==> r == char_is_numeric(c),
{
    c.is_numeric()
}

/// Calls `char::is_alphabetic` (the `Alphabetic` property). Among the ASCII
/// characters exactly the letters are alphabetic; beyond ASCII the result is
/// left to the name `char_is_alphabetic`.
#[verifier::external_body]
pub(crate) fn is_alphabetic(c: char) -> (r: bool)
    ensures
        r == alphabetic_char(c),
        !is_ascii(c) ==> r == char_is_alphabetic(c),
{
    c.is_alphabetic()
}

/// Calls `str::to_uppercase`. An ASCII text has its letters `a` to `z`
/// raised and the rest kept; beyond ASCII the result is left to the name
/// `str_to_uppercase`.
#[verifier::external_body]
pub(crate) fn to_uppercase(s: &str) -> (r: String)
    ensures
        r@ == upper_text(s@),
        !(forall|i: int| 0 <= i < s@.len() ==> is_ascii(#[trigger] s@[i])) ==> r@ == str_to_uppercase(s@),
{
    s.to_uppercase()
}

/// Calls `String::push`: the character is appended at the end.
#[verifier::external_body]
pub(crate) fn push_char(s: &mut String, c: char)
    ensures
        final(s)@ == old(s)@.push(c),
{
    s.push(c)
}

/// Calls `String::pop`: the last character, if any, is removed and returned.
#[verifier::external_body]
pub(crate) fn pop_char(s: &mut String) -> (r: Option<char>)
    ensures
        old(s)@.len() == 0 ==> r is None && final(s)@ == old(s)@,
        old(s)@.len() > 0 ==> r == Some(old(s)@.last()) && final(s)@ == old(s)@.drop_last(),
{
    s.pop()
}

// ---------------------------------------------------------------------------
// Integer parsing (`str::parse::<i32>`)
// ---------------------------------------------------------------------------

pub open spec fn is_ascii_digit(c: char) -> bool {
    '0' <= c && c <= '9'
}

pub open spec fn all_ascii_digits(s: Seq<char>) -> bool {
    forall|i: int| 0 <= i < s.len() ==> is_ascii_digit(#[trigger] s[i])
}

/// The value of a run of ASCII digits, most significant first.
pub open spec fn digits_value(s: Seq<char>) -> nat
    decreases s.len(),
{
    if s.len() == 0 {
        0
    } else {
        digits_value(s.drop_last()) * 10 + ((s.last() as int - '0' as int) as nat)
    }
}

/// What `i32::from_str` accepts and gives back: an optional `+` or `-`, then at
/// least one ASCII digit, with a value that fits in an `i32`.
pub open spec fn parse_i32_spec(s: Seq<char>) -> Option<int> {
    let neg = s.len() > 0 && s[0] == '-';
    let body = if s.len() > 0 && (s[0] == '-' || s[0] == '+') {
        s.drop_first()
    } else {
        s
    };
    if body.len() > 0 && all_ascii_digits(body) {
        let v = if neg {
            -(digits_value(body) as int)
        } else {
            digits_value(body) as int
        };
        if i32::MIN <= v && v <= i32::MAX {
            Some(v)
        } else {
            None
        }
    } else {
        None
    }
}

/// Calls `str::parse::<i32>`. Its documentation: an optional sign followed by
/// digits only, the value in range, else an error.
#[verifier::external_body]
pub(crate) fn parse_i32(s: &str) -> (r: Option<i32>)
    ensures
        match r {
            Some(v) => parse_i32_spec(s@) == Some(v as int),
            None => parse_i32_spec(s@) is None,
        },
{
    s.parse::<i32>().ok()
}

// ---------------------------------------------------------------------------
// Decimal rendering (`Display` of integers)
// ---------------------------------------------------------------------------

pub open spec fn digit_char(d: nat) -> char {
    if d == 0 {
        '0'
    } else if d == 1 {
        '1'
    } else if d == 2 {
        '2'
    } else if d == 3 {
        '3'
    } else if d == 4 {
        '4'
    } else if d == 5 {
        '5'
    } else if d == 6 {
        '6'
    } else if d == 7 {
        '7'
    } else if d == 8 {
        '8'
    } else {
        '9'
    }
}

/// The decimal digits of `n`, without leading zeros.
pub open spec fn decimal(n: nat) -> Seq<char>
    decreases n,
{
    if n < 10 {
        seq![digit_char(n)]
    } else {
        decimal(n / 10).push(digit_char(n % 10))
    }
}

/// The decimal rendering of a signed number, with a leading `-` when negative.
pub open spec fn signed_decimal(n: int) -> Seq<char> {
    if n < 0 {
        seq!['-'] + decimal((-n) as nat)
    } else {
        decimal(n as nat)
    }
}

fn digit(d: u64) -> (c: char)
    requires
        d < 10,
    ensures
        c == digit_char(d as nat),
{
    if d == 0 {
        '0'
    } else if d == 1 {
        '1'
    } else if d == 2 {
        '2'
    } else if d == 3 {
        '3'
    } else if d == 4 {
        '4'
    } else if d == 5 {
        '5'
    } else if d == 6 {
        '6'
    } else if d == 7 {
        '7'
    } else if d == 8 {
        '8'
    } else {
        '9'
    }
}

/// Appends the decimal digits of `n` to `s`.
pub fn push_decimal(s: &mut String, n: u64)
    ensures
        final(s)@ == old(s)@ + decimal(n as nat),
    decreases n,
{
    if n >= 10 {
        push_decimal(s, n / 10);
    }
    let d = digit(n % 10);
    push_char(s, d);
    proof {
        assert(n < 10 ==> decimal(n as nat) == seq![digit_char(n as nat)]);
        assert(n >= 10 ==> decimal(n as nat) == decimal((n / 10) as nat).push(
            digit_char((n % 10) as nat),
        ));
        assert(final(s)@ =~= old(s)@ + decimal(n as nat));
    }
}

/// `usize::to_string`.
pub fn usize_to_string(n: usize) -> (r: String)
    ensures
        r@ == decimal(n as nat),
{
    let mut s = String::new();
    push_decimal(&mut s, n as u64);
    assert(s@ =~= decimal(n as nat));
    s
}

/// `i32::to_string`.
pub fn i32_to_string(n: i32) -> (r: String)
    ensures
        r@ == signed_decimal(n as int),
{
    let mut s = String::new();
    if n < 0 {
        push_char(&mut s, '-');
        let m: i64 = -(n as i64);
        push_decimal(&mut s, m as u64);
    } else {
        push_decimal(&mut s, n as u64);
    }
    assert(s@ =~= signed_decimal(n as int));
    s
}

// ---------------------------------------------------------------------------
// Character sequences and strings
// ---------------------------------------------------------------------------

/// The characters of `s`, in order.
pub fn chars_of(s: &str) -> (r: Vec<char>)
    ensures
        r@ == s@,
{
    broadcast use vstd::string::group_string_axioms;

    let mut r: Vec<char> = Vec::new();
    for c in it: s.chars()
        invariant
            it.seq() == s@,
            r@ == it.seq().take(it.index() as int),
    {
        r.push(c);
    }
    r
}

/// Appends the characters `v[from..to]` to `s`.
pub fn push_chars(s: &mut String, v: &Vec<char>, from: usize, to: usize)
    requires
        from <= to <= v@.len(),
    ensures
        final(s)@ == old(s)@ + v@.subrange(from as int, to as int),
{
    let mut i = from;
    while i < to
        invariant
            from <= i <= to <= v@.len(),
            s@ == old(s)@ + v@.subrange(from as int, i as int),
        decreases to - i,
    {
        push_char(s, v[i]);
        i = i + 1;
        assert(s@ =~= old(s)@ + v@.subrange(from as int, i as int));
    }
}

/// Appends a string to `s`.
pub fn push_str(s: &mut String, t: &str)
    ensures
        final(s)@ == old(s)@ + t@,
{
    let v = chars_of(t);
    push_chars(s, &v, 0, v.len());
    assert(v@.subrange(0, v@.len() as int) =~= t@);
}

/// A new string holding the characters `v[from..to]`.
pub fn string_of(v: &Vec<char>, from: usize, to: usize) -> (r: String)
    requires
        from <= to <= v@.len(),
    ensures
        r@ == v@.subrange(from as int, to as int),
{
    let mut s = String::new();
    push_chars(&mut s, v, from, to);
    assert(s@ =~= v@.subrange(from as int, to as int));
    s
}

/// Compares the characters of two strings.
pub fn same_text(a: &str, b: &str) -> (r: bool)
    ensures
        r == (a@ == b@),
{
    let x = chars_of(a);
    let y = chars_of(b);
    if x.len() != y.len() {
        return false;
    }
    let mut i: usize = 0;
    while i < x.len()
        invariant
            x@ == a@,
            y@ == b@,
            x@.len() == y@.len(),
            i <= x@.len(),
            forall|j: int| 0 <= j < i ==> x@[j] == y@[j],
        decreases x@.len() - i,
    {
        if x[i] != y[i] {
            return false;
        }
        i = i + 1;
    }
    assert(x@ =~= y@);
    true
}

/// Whether `c` occurs in `s`.
pub fn has_char(s: &str, c: char) -> (r: bool)
    ensures
        r == s@.contains(c),
{
    let v = chars_of(s);
    let mut i: usize = 0;
    while i < v.len()
        invariant
            v@ == s@,
            i <= v@.len(),
            forall|j: int| 0 <= j < i ==> v@[j] != c,
        decreases v@.len() - i,
    {
        if v[i] == c {
            return true;
        }
        i = i + 1;
    }
    false
}

// ---------------------------------------------------------------------------
// Splitting at a separator (`str::split` with a one-character pattern)
// ---------------------------------------------------------------------------

/// The parts of `s` between occurrences of `sep`; there is always at least one.
pub open spec fn split_on(s: Seq<char>, sep: char) -> Seq<Seq<char>>
    decreases s.len(),
{
    if s.len() == 0 {
        seq![Seq::<char>::empty()]
    } else {
        let rest = split_on(s.drop_last(), sep);
        if s.last() == sep {
            rest.push(Seq::<char>::empty())
        } else {
            rest.update(rest.len() - 1, rest.last().push(s.last()))
        }
    }
}

pub proof fn lemma_split_on_nonempty(s: Seq<char>, sep: char)
    ensures
        split_on(s, sep).len() >= 1,
    decreases s.len(),
{
    if s.len() > 0 {
        lemma_split_on_nonempty(s.drop_last(), sep);
    }
}

/// `s.split(sep)`, collected.
pub fn split_at_char(s: &str, sep: char) -> (r: Vec<String>)
    ensures
        r@.len() == split_on(s@, sep).len(),
        forall|i: int| 0 <= i < r@.len() ==> #[trigger] r@[i]@ == split_on(s@, sep)[i],
{
    let v = chars_of(s);
    let mut parts: Vec<String> = Vec::new();
    let mut cur = String::new();
    let mut i: usize = 0;
    while i < v.len()
        invariant
            v@ == s@,
            i <= v@.len(),
            parts@.len() + 1 == split_on(v@.take(i as int), sep).len(),
            forall|j: int| 0 <= j < parts@.len() ==> #[trigger] parts@[j]@ == split_on(v@.take(i as int), sep)[j],
            cur@ == split_on(v@.take(i as int), sep).last(),
        decreases v@.len() - i,
    {
        proof {
            lemma_split_on_nonempty(v@.take(i as int), sep);
            assert(v@.take(i + 1).drop_last() =~= v@.take(i as int));
        }
        if v[i] == sep {
            parts.push(cur);
            cur = String::new();
        } else {
            push_char(&mut cur, v[i]);
        }
        i = i + 1;
    }
    parts.push(cur);
    assert(v@.take(v@.len() as int) =~= s@);
    parts
}

// ---------------------------------------------------------------------------
// Lines (`str::lines`)
// ---------------------------------------------------------------------------

/// A finished line loses one `\r` right before its line feed.
pub open spec fn strip_cr(line: Seq<char>) -> Seq<char> {
    if line.len() > 0 && line.last() == '\r' {
        line.drop_last()
    } else {
        line
    }
}

/// The lines finished so far, and the line in progress.
pub open spec fn line_scan(s: Seq<char>) -> (Seq<Seq<char>>, Seq<char>)
    decreases s.len(),
{
    if s.len() == 0 {
        (Seq::empty(), Seq::empty())
    } else {
        let (done, cur) = line_scan(s.drop_last());
        if s.last() == '\n' {
            (done.push(strip_cr(cur)), Seq::empty())
        } else {
            (done, cur.push(s.last()))
        }
    }
}

/// What `str::lines` yields: lines end at `\n` or `\r\n`, which are not kept;
/// the last line needs no line ending, and an empty last line is not yielded.
pub open spec fn lines(s: Seq<char>) -> Seq<Seq<char>> {
    let (done, cur) = line_scan(s);
    if cur.len() > 0 {
        done.push(cur)
    } else {
        done
    }
}

/// The lines of `s`, each as characters.
pub fn split_lines(s: &Vec<char>) -> (r: Vec<Vec<char>>)
    ensures
        r@.len() == lines(s@).len(),
        forall|i: int| 0 <= i < r@.len() ==> #[trigger] r@[i]@ == lines(s@)[i],
{
    let mut done: Vec<Vec<char>> = Vec::new();
    let mut cur: Vec<char> = Vec::new();
    let mut i: usize = 0;
    while i < s.len()
        invariant
            i <= s@.len(),
            done@.len() == line_scan(s@.take(i as int)).0.len(),
            forall|j: int| 0 <= j < done@.len() ==> #[trigger] done@[j]@ == line_scan(s@.take(i as int)).0[j],
            cur@ == line_scan(s@.take(i as int)).1,
        decreases s@.len() - i,
    {
        proof {
            assert(s@.take(i + 1).drop_last() =~= s@.take(i as int));
        }
        if s[i] == '\n' {
            let n = cur.len();
            if n > 0 && cur[n - 1] == '\r' {
                cur.pop();
            }
            done.push(cur);
            cur = Vec::new();
        } else {
            cur.push(s[i]);
        }
        i = i + 1;
    }
    assert(s@.take(s@.len() as int) =~= s@);
    if cur.len() > 0 {
        done.push(cur);
    }
    done
}

// ---------------------------------------------------------------------------
// Literal replacement (`str::replace` with a non-empty pattern)
// ---------------------------------------------------------------------------

/// Whether `pat` occurs in `t` at position `i`.
pub open spec fn occurs_at(t: Seq<char>, pat: Seq<char>, i: int) -> bool {
    0 <= i && i + pat.len() <= t.len() && t.subrange(i, i + pat.len()) == pat
}

/// Every occurrence of `pat` in `t`, taken left to right without overlap,
/// replaced by `rep`.
pub open spec fn replace_all_lit(t: Seq<char>, pat: Seq<char>, rep: Seq<char>) -> Seq<char>
    decreases t.len(),
{
    if t.len() == 0 || pat.len() == 0 {
        t
    } else if occurs_at(t, pat, 0) {
        rep + replace_all_lit(t.skip(pat.len() as int), pat, rep)
    } else {
        seq![t[0]] + replace_all_lit(t.skip(1), pat, rep)
    }
}

fn occurs_at_exec(t: &Vec<char>, pat: &Vec<char>, i: usize) -> (r: bool)
    requires
        i <= t@.len(),
    ensures
        r == occurs_at(t@, pat@, i as int),
{
    if pat.len() > t.len() - i {
        return false;
    }
    let mut j: usize = 0;
    while j < pat.len()
        invariant
            i + pat@.len() <= t@.len(),
            t@.len() == t.len(),
            j <= pat@.len(),
            forall|k: int| 0 <= k < j ==> t@[i + k] == pat@[k],
        decreases pat@.len() - j,
    {
        if t[i + j] != pat[j] {
            assert(t@.subrange(i as int, i + pat@.len())[j as int] != pat@[j as int]);
            return false;
        }
        j = j + 1;
    }
    assert(t@.subrange(i as int, i + pat@.len()) =~= pat@);
    true
}

/// `t.replace(pat, rep)` for a non-empty `pat`.
pub fn replace_literal(t: &str, pat: &str, rep: &str) -> (r: String)
    requires
        pat@.len() > 0,
    ensures
        r@ == replace_all_lit(t@, pat@, rep@),
{
    let tv = chars_of(t);
    let pv = chars_of(pat);
    let mut out = String::new();
    let mut i: usize = 0;
    assert(tv@.skip(0) =~= tv@);
    assert(out@ + replace_all_lit(tv@, pat@, rep@) =~= replace_all_lit(tv@, pat@, rep@));
    while i < tv.len()
        invariant
            tv@ == t@,
            pv@ == pat@,
            pv@.len() > 0,
            i <= tv@.len(),
            replace_all_lit(t@, pat@, rep@) == out@ + replace_all_lit(tv@.skip(i as int), pat@, rep@),
        decreases tv@.len() - i,
    {
        let ghost rest = tv@.skip(i as int);
        if occurs_at_exec(&tv, &pv, i) {
            proof {
                assert(rest.subrange(0, pv@.len() as int) =~= tv@.subrange(i as int, i + pv@.len()));
                assert(rest.skip(pv@.len() as int) =~= tv@.skip(i + pv@.len()));
            }
            push_str(&mut out, rep);
            i = i + pv.len();
            assert(replace_all_lit(t@, pat@, rep@) =~= out@ + replace_all_lit(tv@.skip(i as int), pat@, rep@));
        } else {
            proof {
                if pv@.len() <= rest.len() {
                    assert(rest.subrange(0, pv@.len() as int) =~= tv@.subrange(i as int, i + pv@.len()));
                }
                assert(rest.skip(1) =~= tv@.skip(i + 1));
            }
            push_char(&mut out, tv[i]);
            i = i + 1;
            assert(replace_all_lit(t@, pat@, rep@) =~= out@ + replace_all_lit(tv@.skip(i as int), pat@, rep@));
        }
    }
    assert(tv@.skip(i as int).len() == 0);
    assert(out@ + replace_all_lit(tv@.skip(i as int), pat@, rep@) =~= out@);
    out
}

} // verus!
