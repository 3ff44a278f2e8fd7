//! Character-sequence helpers shared by the modules: building `String`s,
//! decimal numbers, whitespace trimming and splitting on a delimiter.
use vstd::prelude::*;

verus! {

/// Builds a `String` from its characters (`String: FromIterator<char>`).
/// Trusted: the resulting string holds exactly the given characters, in order.
#[verifier::external_body]
pub(crate) fn string_from_chars(chars: &Vec<char>) -> (s: String)
    ensures
        s@ == chars@,
{
    chars.iter().collect()
}

/// The characters of a string slice (`str::chars` collected into a `Vec`).
/// Trusted: the vector holds exactly the characters of `s`, in order.
#[verifier::external_body]
pub(crate) fn chars_of(s: &str) -> (v: Vec<char>)
    ensures
        v@ == s@,
{
    s.chars().collect()
}

/// `char::from_u32`: trusted to return the character with that code point
/// when the value is a Unicode scalar value (not a surrogate, at most
/// 0x10FFFF), and `None` otherwise.
#[verifier::external_body]
pub(crate) fn char_from_u32(v: u32) -> (c: Option<char>)
    ensures
        c == if v < 0xD800 || (0xE000 <= v && v <= 0x10FFFF) { Some(v as char) } else { None::<char> },
{
    char::from_u32(v)
}

} // verus!

verus! {

/// The decimal digit character for `d` (0..10).
pub open spec fn digit_char(d: int) -> char {
    (48 + d) as char
}

/// Decimal representation of `n`, without leading zeros.
pub open spec fn decimal(n: nat) -> Seq<char>
    decreases n,
{
    if n < 10 {
        seq![digit_char(n as int)]
    } else {
        decimal(n / 10).push(digit_char((n % 10) as int))
    }
}

/// Appends the decimal representation of `n` to `out`.
pub fn push_decimal(out: &mut Vec<char>, n: u64)
    ensures
        final(out)@ == old(out)@ + decimal(n as nat),
    decreases n,
{
    if n >= 10 {
        push_decimal(out, n / 10);
    }
    let d = (n % 10) as u32;
    let c = match char_from_u32(48 + d) {
        Some(c) => c,
        None => '0',
    };
    out.push(c);
    proof {
        assert(c == digit_char((n % 10) as int));
    }
}

pub open spec fn is_digit(c: char) -> bool {
    '0' <= c && c <= '9'
}

/// Whether every character is an ASCII digit.
pub open spec fn all_digits(s: Seq<char>) -> bool {
    forall|i: int| 0 <= i < s.len() ==> is_digit(#[trigger] s[i])
}

/// The text after an optional leading `+`.
pub open spec fn unsigned_body(s: Seq<char>) -> Seq<char> {
    if s.len() > 0 && s[0] == '+' { s.drop_first() } else { s }
}

/// Value of a string of decimal digits.
pub open spec fn digits_value(s: Seq<char>) -> nat
    decreases s.len(),
{
    if s.len() == 0 {
        0
    } else {
        digits_value(s.drop_last()) * 10 + ((s.last() as int - 48) as nat)
    }
}

/// What `str::parse` gives for an unsigned integer type whose largest value is
/// `max`: an optional `+`, then at least one ASCII digit and nothing else,
/// with a value that fits.
pub open spec fn parse_unsigned(s: Seq<char>, max: nat) -> Option<nat> {
    let body = unsigned_body(s);
    if body.len() == 0 || !all_digits(body) || digits_value(body) > max {
        None
    } else {
        Some(digits_value(body))
    }
}

proof fn lemma_digits_value_grows(s: Seq<char>, k: int)
    requires
        0 <= k <= s.len(),
        forall|i: int| 0 <= i < s.len() ==> is_digit(#[trigger] s[i]),
    ensures
        digits_value(s.take(k)) <= digits_value(s),
    decreases s.len() - k,
{
    if k < s.len() {
        lemma_digits_value_grows(s, k + 1);
        assert(s.take(k + 1).drop_last() =~= s.take(k));
    } else {
        assert(s.take(k) =~= s);
    }
}

/// Parses an unsigned decimal number as `str::parse` does for an unsigned
/// integer type whose largest value is `max`.
pub fn parse_unsigned_chars(s: &Vec<char>, max: u64) -> (r: Option<u64>)
    ensures
        r matches Some(v) ==> parse_unsigned(s@, max as nat) == Some(v as nat),
        r is None ==> parse_unsigned(s@, max as nat) is None,
{
    let start: usize = if s.len() > 0 && s[0] == '+' { 1 } else { 0 };
    let ghost body = unsigned_body(s@);
    proof { assert(body =~= s@.skip(start as int)); }
    if start == s.len() {
        return None;
    }
    let mut i: usize = start;
    while i < s.len()
        invariant
            start <= i <= s.len(),
            body == s@.skip(start as int),
            body == unsigned_body(s@),
            forall|k: int| 0 <= k < i - start ==> is_digit(#[trigger] body[k]),
        decreases s.len() - i,
    {
        if !(s[i] >= '0' && s[i] <= '9') {
            proof {
                assert(body[i - start] == s@[i as int]);
                assert(!is_digit(body[i - start]));
                assert(!all_digits(body));
            }
            return None;
        }
        i = i + 1;
    }
    let mut v: u64 = 0;
    let mut j: usize = start;
    while j < s.len()
        invariant
            start <= j <= s.len(),
            body == s@.skip(start as int),
            body == unsigned_body(s@),
            forall|k: int| 0 <= k < body.len() ==> is_digit(#[trigger] body[k]),
            v == digits_value(body.take(j - start)),
            v <= max,
        decreases s.len() - j,
    {
        proof {
            assert(body.take(j - start + 1).drop_last() =~= body.take(j - start));
            assert(body[j - start] == s@[j as int]);
            assert(is_digit(body[j - start]));
        }
        let d = (s[j] as u32 - 48) as u64;
        if d > max || v > (max - d) / 10 {
            proof {
                assert(v * 10 + d > max) by (nonlinear_arith)
                    requires d > max || v > (max - d) / 10, 0 <= v;
                lemma_digits_value_grows(body, j - start + 1);
                let t = body.take(j - start + 1);
                assert(t.last() == s@[j as int]);
                assert(digits_value(t) == digits_value(t.drop_last()) * 10 + d);
            }
            return None;
        }
        proof {
            assert(v * 10 + d <= max) by (nonlinear_arith)
                requires v <= (max - d) / 10, d <= max;
        }
        v = v * 10 + d;
        j = j + 1;
    }
    proof { assert(body.take(body.len() as int) =~= body); }
    Some(v)
}

} // verus!

verus! {

/// Appends the characters of `s` to `out`.
pub fn push_str(out: &mut Vec<char>, s: &str)
    ensures
        final(out)@ == old(out)@ + s@,
{
    let mut v = chars_of(s);
    out.append(&mut v);
}

/// Whether the characters in `v` are exactly those of `s`.
pub fn chars_eq_str(v: &Vec<char>, s: &str) -> (r: bool)
    ensures
        r == (v@ == s@),
{
    let w = chars_of(s);
    chars_eq(v, &w)
}

/// Whether two character vectors are equal.
pub fn chars_eq(v: &Vec<char>, w: &Vec<char>) -> (r: bool)
    ensures
        r == (v@ == w@),
{
    if v.len() != w.len() {
        return false;
    }
    let mut i: usize = 0;
    while i < v.len()
        invariant
            v@.len() == w@.len(),
            i <= v@.len(),
            forall|k: int| 0 <= k < i ==> v@[k] == w@[k],
        decreases v.len() - i,
    {
        if v[i] != w[i] {
            return false;
        }
        i = i + 1;
    }
    proof { assert(v@ =~= w@); }
    true
}

/// `format!("{:?}", s)`: the `Debug` form of a string (quoted, with escapes).
/// Trusted: the result is `str_debug` of the characters of `s`; what that
/// escaping is (it follows Unicode tables) is not stated.
#[verifier::external_body]
pub(crate) fn debug_string(s: &str) -> (r: String)
    ensures
        r@ == str_debug(s@),
{
    format!("{:?}", s)
}

/// The `Debug` rendering of a string: `"` + escaped characters + `"`.
pub uninterp spec fn str_debug(s: Seq<char>) -> Seq<char>;

} // verus!

verus! {

/// `char::is_whitespace`: the Unicode `White_Space` characters.
pub open spec fn is_ws(c: char) -> bool {
    ('\u{9}' <= c && c <= '\u{d}') || c == ' ' || c == '\u{85}' || c == '\u{a0}'
        || c == '\u{1680}' || ('\u{2000}' <= c && c <= '\u{200a}') || c == '\u{2028}'
        || c == '\u{2029}' || c == '\u{202f}' || c == '\u{205f}' || c == '\u{3000}'
}

pub fn is_ws_exec(c: char) -> (r: bool)
    ensures
        r == is_ws(c),
{
    ('\u{9}' <= c && c <= '\u{d}') || c == ' ' || c == '\u{85}' || c == '\u{a0}'
        || c == '\u{1680}' || ('\u{2000}' <= c && c <= '\u{200a}') || c == '\u{2028}'
        || c == '\u{2029}' || c == '\u{202f}' || c == '\u{205f}' || c == '\u{3000}'
}

/// `s` without its leading whitespace.
pub open spec fn trim_start(s: Seq<char>) -> Seq<char>
    decreases s.len(),
{
    if s.len() > 0 && is_ws(s[0]) { trim_start(s.drop_first()) } else { s }
}

/// `s` without its trailing whitespace.
pub open spec fn trim_end(s: Seq<char>) -> Seq<char>
    decreases s.len(),
{
    if s.len() > 0 && is_ws(s.last()) { trim_end(s.drop_last()) } else { s }
}

/// `str::trim`: `s` without leading and trailing whitespace.
pub open spec fn trim(s: Seq<char>) -> Seq<char> {
    trim_end(trim_start(s))
}

/// Copy of `v[from..to]`.
pub fn sub_chars(v: &Vec<char>, from: usize, to: usize) -> (r: Vec<char>)
    requires
        from <= to <= v@.len(),
    ensures
        r@ == v@.subrange(from as int, to as int),
{
    let mut r: Vec<char> = Vec::new();
    let mut i: usize = from;
    while i < to
        invariant
            from <= i <= to <= v@.len(),
            r@ =~= v@.subrange(from as int, i as int),
        decreases to - i,
    {
        r.push(v[i]);
        i = i + 1;
    }
    r
}

/// Removes leading and trailing whitespace, as `str::trim` does.
pub fn trim_chars(v: &Vec<char>) -> (r: Vec<char>)
    ensures
        r@ == trim(v@),
{
    let mut i: usize = 0;
    proof { assert(v@.skip(0) =~= v@); }
    while i < v.len() && is_ws_exec(v[i])
        invariant
            i <= v@.len(),
            trim_start(v@) == trim_start(v@.skip(i as int)),
        decreases v.len() - i,
    {
        proof {
            assert(v@.skip(i as int).drop_first() =~= v@.skip(i + 1));
        }
        i = i + 1;
    }
    let ghost t = v@.skip(i as int);
    proof {
        assert(trim_start(v@) == t);
    }
    let mut j: usize = v.len();
    while j > i && is_ws_exec(v[j - 1])
        invariant
            i <= j <= v@.len(),
            t == v@.skip(i as int),
            trim_end(t) == trim_end(v@.subrange(i as int, j as int)),
        decreases j,
    {
        proof {
            assert(v@.subrange(i as int, j as int).drop_last() =~= v@.subrange(i as int, j - 1));
        }
        j = j - 1;
    }
    proof {
        assert(v@.subrange(i as int, v@.len() as int) =~= t);
    }
    sub_chars(v, i, j)
}

/// Index of the first `d` in `s`, or -1.
pub open spec fn first_index(s: Seq<char>, d: char) -> int
    decreases s.len(),
{
    if s.len() == 0 {
        -1
    } else if s[0] == d {
        0
    } else {
        let r = first_index(s.drop_first(), d);
        if r < 0 { -1 } else { r + 1 }
    }
}

/// `str::split` on a character: the pieces between occurrences of `d`
/// (one more piece than there are occurrences).
pub open spec fn split_on(s: Seq<char>, d: char) -> Seq<Seq<char>>
    decreases s.len(),
{
    let i = first_index(s, d);
    if i < 0 || i >= s.len() {
        seq![s]
    } else {
        seq![s.take(i)] + split_on(s.skip(i + 1), d)
    }
}

pub(crate) proof fn lemma_first_index_after(cur: Seq<char>, t: Seq<char>, d: char)
    requires
        !cur.contains(d),
    ensures
        first_index(cur + t, d) == if first_index(t, d) < 0 { -1 } else { cur.len() + first_index(t, d) },
    decreases cur.len(),
{
    if cur.len() > 0 {
        assert((cur + t).drop_first() =~= cur.drop_first() + t);
        assert(cur[0] != d) by { if cur[0] == d { assert(cur.contains(d)); } }
        assert forall|k: int| 0 <= k < cur.drop_first().len() implies cur.drop_first()[k] != d by {
            if cur.drop_first()[k] == d { assert(cur[k + 1] == d); assert(cur.contains(d)); }
        }
        lemma_first_index_after(cur.drop_first(), t, d);
    } else {
        assert(cur + t =~= t);
    }
}

/// A character vector's pieces as sequences.
pub open spec fn views(v: Seq<Vec<char>>) -> Seq<Seq<char>> {
    v.map_values(|p: Vec<char>| p@)
}

/// Splits `v` at every `d`, as `str::split` does.
pub fn split_chars(v: &Vec<char>, d: char) -> (r: Vec<Vec<char>>)
    ensures
        views(r@) == split_on(v@, d),
        r@.len() >= 1,
{
    let mut pieces: Vec<Vec<char>> = Vec::new();
    let mut cur: Vec<char> = Vec::new();
    let mut i: usize = 0;
    proof {
        assert(cur@ + v@.skip(0) =~= v@);
    }
    while i < v.len()
        invariant
            i <= v@.len(),
            !cur@.contains(d),
            views(pieces@) + split_on(cur@ + v@.skip(i as int), d) == split_on(v@, d),
        decreases v.len() - i,
    {
        let c = v[i];
        let ghost rest = v@.skip(i + 1);
        proof {
            assert(v@.skip(i as int) =~= seq![c] + rest);
            assert(cur@ + v@.skip(i as int) =~= cur@.push(c) + rest);
        }
        if c == d {
            proof {
                let s = cur@ + v@.skip(i as int);
                lemma_first_index_after(cur@, seq![c] + rest, d);
                assert(first_index(seq![c] + rest, d) == 0);
                assert(first_index(s, d) == cur@.len());
                assert(s.take(cur@.len() as int) =~= cur@);
                assert(s.skip(cur@.len() as int + 1) =~= rest);
                assert(split_on(s, d) == seq![cur@] + split_on(rest, d));
                assert(views(pieces@.push(cur)) =~= views(pieces@).push(cur@));
            }
            pieces.push(cur);
            cur = Vec::new();
            proof {
                assert(cur@ + rest =~= rest);
            }
        } else {
            let ghost before = cur@;
            cur.push(c);
            proof {
                assert(!cur@.contains(d)) by {
                    if cur@.contains(d) {
                        let k = choose|k: int| 0 <= k < cur@.len() && cur@[k] == d;
                        if k < cur@.len() - 1 {
                            assert(before[k] == d);
                            assert(before.contains(d));
                        }
                    }
                }
            }
        }
        i = i + 1;
    }
    proof {
        assert(cur@ + v@.skip(i as int) =~= cur@);
        lemma_first_index_after(cur@, Seq::empty(), d);
        assert(cur@ + Seq::<char>::empty() =~= cur@);
        assert(split_on(cur@, d) == seq![cur@]);
        assert(views(pieces@.push(cur)) =~= views(pieces@).push(cur@));
    }
    pieces.push(cur);
    pieces
}

} // verus!

verus! {

/// The characters of each string.
pub open spec fn string_views(v: Seq<String>) -> Seq<Seq<char>> {
    v.map_values(|s: String| s@)
}

/// The non-empty lines, in order.
pub open spec fn nonempty(lines: Seq<Seq<char>>) -> Seq<Seq<char>>
    decreases lines.len(),
{
    if lines.len() == 0 {
        Seq::empty()
    } else if lines.last().len() > 0 {
        nonempty(lines.drop_last()).push(lines.last())
    } else {
        nonempty(lines.drop_last())
    }
}

/// The fields of a line: split at the delimiter, each trimmed.
pub open spec fn fields(line: Seq<char>, d: char) -> Seq<Seq<char>> {
    split_on(line, d).map_values(|p: Seq<char>| trim(p))
}

/// The pieces joined with `sep` between neighbours (`[T]::join`).
pub open spec fn join(parts: Seq<Seq<char>>, sep: Seq<char>) -> Seq<char>
    decreases parts.len(),
{
    if parts.len() == 0 {
        Seq::empty()
    } else if parts.len() == 1 {
        parts[0]
    } else {
        join(parts.drop_last(), sep) + sep + parts.last()
    }
}

/// The fields of `line` split at `d`, each trimmed.
pub fn fields_of(line: &Vec<char>, d: char) -> (r: Vec<Vec<char>>)
    ensures
        views(r@) == fields(line@, d),
        r@.len() >= 1,
{
    let pieces = split_chars(line, d);
    let mut r: Vec<Vec<char>> = Vec::new();
    let mut i: usize = 0;
    while i < pieces.len()
        invariant
            i <= pieces@.len(),
            views(pieces@) == split_on(line@, d),
            views(r@) =~= split_on(line@, d).take(i as int).map_values(|p: Seq<char>| trim(p)),
        decreases pieces.len() - i,
    {
        let t = trim_chars(&pieces[i]);
        let ghost before = r@;
        proof {
            assert(views(pieces@)[i as int] == pieces@[i as int]@);
            assert(split_on(line@, d)[i as int] == pieces@[i as int]@);
        }
        r.push(t);
        proof {
            assert(views(r@) =~= views(before).push(t@));
            assert(split_on(line@, d).take(i + 1) =~= split_on(line@, d).take(i as int).push(split_on(line@, d)[i as int]));
            assert(split_on(line@, d).take(i + 1).map_values(|p: Seq<char>| trim(p)) =~=
                split_on(line@, d).take(i as int).map_values(|p: Seq<char>| trim(p)).push(trim(split_on(line@, d)[i as int])));
        }
        i = i + 1;
    }
    proof {
        assert(split_on(line@, d).take(i as int) =~= split_on(line@, d));
    }
    r
}

} // verus!

verus! {

/// How `str::to_lowercase` lowers a character, for the characters whose
/// lowercase form is a single ASCII character: `A`-`Z` and the Kelvin sign.
/// Every other character is kept (its lowercase form holds no ASCII
/// character, so it can never equal an ASCII name either way).
pub open spec fn lower_char(c: char) -> char {
    if 'A' <= c && c <= 'Z' {
        ((c as int) + 32) as char
    } else if c == '\u{212A}' {
        'k'
    } else {
        c
    }
}

/// Whether `s`, lowered, is the (ASCII, lowercase) `name`.
pub open spec fn lower_eq(s: Seq<char>, name: Seq<char>) -> bool {
    s.map_values(|c: char| lower_char(c)) == name
}

/// The characters lowered as `lower_char` says.
pub fn lowered(v: &Vec<char>) -> (r: Vec<char>)
    ensures
        r@ == v@.map_values(|c: char| lower_char(c)),
{
    let mut r: Vec<char> = Vec::new();
    let mut i: usize = 0;
    while i < v.len()
        invariant
            i <= v@.len(),
            r@ =~= v@.take(i as int).map_values(|c: char| lower_char(c)),
        decreases v.len() - i,
    {
        let c = v[i];
        let l = if c >= 'A' && c <= 'Z' {
            match char_from_u32(c as u32 + 32) {
                Some(l) => l,
                None => c,
            }
        } else if c == '\u{212A}' {
            'k'
        } else {
            c
        };
        r.push(l);
        proof {
            assert(v@.take(i + 1) =~= v@.take(i as int).push(c));
        }
        i = i + 1;
    }
    proof { assert(v@.take(v@.len() as int) =~= v@); }
    r
}

} // verus!

verus! {

pub open spec fn is_sign(c: char) -> bool {
    c == '+' || c == '-'
}

/// The text after an optional leading sign.
pub open spec fn unsigned_part(s: Seq<char>) -> Seq<char> {
    if s.len() > 0 && is_sign(s[0]) { s.drop_first() } else { s }
}

/// Number of `.` characters.
pub open spec fn count_dots(s: Seq<char>) -> nat
    decreases s.len(),
{
    if s.len() == 0 { 0 } else { count_dots(s.drop_last()) + if s.last() == '.' { 1nat } else { 0nat } }
}

/// A mantissa: digits with at most one `.`, and at least one digit.
pub open spec fn mantissa_ok(m: Seq<char>) -> bool {
    &&& count_dots(m) <= 1
    &&& forall|i: int| 0 <= i < m.len() ==> is_digit(#[trigger] m[i]) || m[i] == '.'
    &&& exists|i: int| 0 <= i < m.len() && is_digit(#[trigger] m[i])
}

/// Index of the first `e` or `E`, or -1.
pub open spec fn first_exp_mark(s: Seq<char>) -> int
    decreases s.len(),
{
    if s.len() == 0 {
        -1
    } else if s[0] == 'e' || s[0] == 'E' {
        0
    } else {
        let r = first_exp_mark(s.drop_first());
        if r < 0 { -1 } else { r + 1 }
    }
}

/// An exponent after the `e`: an optional sign, then at least one digit.
pub open spec fn exponent_ok(x: Seq<char>) -> bool {
    unsigned_part(x).len() >= 1 && all_digits(unsigned_part(x))
}

/// A decimal number: a mantissa, then optionally `e`/`E` and an exponent.
pub open spec fn number_ok(b: Seq<char>) -> bool {
    let i = first_exp_mark(b);
    if i < 0 { mantissa_ok(b) } else { mantissa_ok(b.take(i)) && exponent_ok(b.skip(i + 1)) }
}

/// Whether `f64::from_str` accepts `s`: an optional sign, then `inf`,
/// `infinity`, `nan` (any case) or a decimal number (the grammar in the
/// documentation of `f64::from_str`).
pub open spec fn is_float_literal(s: Seq<char>) -> bool {
    let b = unsigned_part(s);
    lower_eq(b, "inf"@) || lower_eq(b, "infinity"@) || lower_eq(b, "nan"@) || number_ok(b)
}

proof fn lemma_first_exp_mark(s: Seq<char>, i: int)
    requires
        0 <= i <= s.len(),
        forall|k: int| 0 <= k < i ==> s[k] != 'e' && s[k] != 'E',
        i < s.len() ==> (s[i] == 'e' || s[i] == 'E'),
    ensures
        first_exp_mark(s) == if i < s.len() { i } else { -1 },
    decreases i,
{
    if i > 0 {
        lemma_first_exp_mark(s.drop_first(), i - 1);
    }
}

fn mantissa_check(v: &Vec<char>, from: usize, to: usize) -> (r: bool)
    requires
        from <= to <= v@.len(),
    ensures
        r == mantissa_ok(v@.subrange(from as int, to as int)),
{
    let ghost m = v@.subrange(from as int, to as int);
    let mut dots: usize = 0;
    let mut digits: bool = false;
    let mut i: usize = from;
    while i < to
        invariant
            from <= i <= to <= v@.len(),
            m == v@.subrange(from as int, to as int),
            dots == count_dots(m.take(i - from)),
            dots <= 1,
            forall|k: int| 0 <= k < i - from ==> is_digit(#[trigger] m[k]) || m[k] == '.',
            digits == exists|k: int| 0 <= k < i - from && is_digit(#[trigger] m[k]),
        decreases to - i,
    {
        let c = v[i];
        proof {
            assert(m.take(i - from + 1).drop_last() =~= m.take(i - from));
            assert(m[i - from] == c);
        }
        if c == '.' {
            if dots == 1 {
                proof {
                    lemma_count_dots_grows(m, i - from + 1);
                }
                return false;
            }
            dots = dots + 1;
        } else if c >= '0' && c <= '9' {
            digits = true;
            proof { assert(is_digit(m[i - from])); }
        } else {
            proof { assert(!(is_digit(m[i - from]) || m[i - from] == '.')); }
            return false;
        }
        proof {
            if !digits {
                assert forall|k: int| 0 <= k < i - from + 1 implies !is_digit(#[trigger] m[k]) by {
                    if k < i - from {
                    }
                }
            }
        }
        i = i + 1;
    }
    proof { assert(m.take(to - from) =~= m); }
    digits
}

proof fn lemma_count_dots_grows(s: Seq<char>, k: int)
    requires
        0 <= k <= s.len(),
    ensures
        count_dots(s.take(k)) <= count_dots(s),
    decreases s.len() - k,
{
    if k < s.len() {
        lemma_count_dots_grows(s, k + 1);
        assert(s.take(k + 1).drop_last() =~= s.take(k));
    } else {
        assert(s.take(k) =~= s);
    }
}

/// Whether `f64::from_str` would accept the text (see `is_float_literal`).
pub fn float_literal_check(v: &Vec<char>) -> (r: bool)
    ensures
        r == is_float_literal(v@),
{
    let from: usize = if v.len() > 0 && (v[0] == '+' || v[0] == '-') { 1 } else { 0 };
    let body = sub_chars(v, from, v.len());
    proof { assert(body@ =~= unsigned_part(v@)); }
    let low = lowered(&body);
    if chars_eq_str(&low, "inf") || chars_eq_str(&low, "infinity") || chars_eq_str(&low, "nan") {
        return true;
    }
    let mut e: usize = 0;
    while e < body.len() && body[e] != 'e' && body[e] != 'E'
        invariant
            e <= body@.len(),
            forall|k: int| 0 <= k < e ==> body@[k] != 'e' && body@[k] != 'E',
        decreases body.len() - e,
    {
        e = e + 1;
    }
    proof { lemma_first_exp_mark(body@, e as int); }
    if e == body.len() {
        proof { assert(body@.subrange(0, e as int) =~= body@); }
        return mantissa_check(&body, 0, e);
    }
    let m_ok = mantissa_check(&body, 0, e);
    proof { assert(body@.subrange(0, e as int) =~= body@.take(e as int)); }
    if !m_ok {
        return false;
    }
    let x = sub_chars(&body, e + 1, body.len());
    proof { assert(x@ =~= body@.skip(e + 1)); }
    exponent_check(&x)
}

fn exponent_check(x: &Vec<char>) -> (r: bool)
    ensures
        r == exponent_ok(x@),
{
    let xs: usize = if x.len() > 0 && (x[0] == '+' || x[0] == '-') { 1 } else { 0 };
    proof { assert(x@.subrange(xs as int, x@.len() as int) =~= unsigned_part(x@)); }
    if xs == x.len() {
        return false;
    }
    let mut k: usize = xs;
    while k < x.len()
        invariant
            xs <= k <= x@.len(),
            x@.subrange(xs as int, x@.len() as int) == unsigned_part(x@),
            forall|q: int| xs <= q < k ==> is_digit(#[trigger] x@[q]),
        decreases x.len() - k,
    {
        if !(x[k] >= '0' && x[k] <= '9') {
            proof {
                assert(unsigned_part(x@)[k - xs] == x@[k as int]);
                assert(!all_digits(unsigned_part(x@)));
            }
            return false;
        }
        k = k + 1;
    }
    proof {
        assert forall|q: int| 0 <= q < unsigned_part(x@).len() implies is_digit(#[trigger] unsigned_part(x@)[q]) by {
            assert(unsigned_part(x@)[q] == x@[q + xs]);
        }
    }
    true
}

} // verus!
