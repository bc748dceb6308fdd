//! Character-level text handling: whitespace, trimming, splitting on a
//! separator, line splitting and decimal integers.  Each operation has a spec
//! function that states the documented behaviour of the `str` method of std
//! that the format relies on, and an executable function proved against it.
use vstd::prelude::*;

verus! {

// ---------------------------------------------------------------------------
// Specifications
// ---------------------------------------------------------------------------

/// The Unicode `White_Space` characters, which is what `char::is_whitespace`
/// tests and what `str::trim` removes.
pub open spec fn is_white(c: char) -> bool {
    ||| c == '\t'
    ||| c == '\n'
    ||| c == '\u{0B}'
    ||| c == '\u{0C}'
    ||| c == '\r'
    ||| c == ' '
    ||| c == '\u{85}'
    ||| c == '\u{A0}'
    ||| c == '\u{1680}'
    ||| (0x2000 <= (c as u32) && (c as u32) <= 0x200A)
    ||| c == '\u{2028}'
    ||| c == '\u{2029}'
    ||| c == '\u{202F}'
    ||| c == '\u{205F}'
    ||| c == '\u{3000}'
}

/// `s` without its leading whitespace.
pub open spec fn trim_start(s: Seq<char>) -> Seq<char>
    decreases s.len(),
{
    if s.len() > 0 && is_white(s[0]) {
        trim_start(s.drop_first())
    } else {
        s
    }
}

/// `s` without its trailing whitespace.
pub open spec fn trim_end(s: Seq<char>) -> Seq<char>
    decreases s.len(),
{
    if s.len() > 0 && is_white(s.last()) {
        trim_end(s.drop_last())
    } else {
        s
    }
}

/// `s` without leading and trailing whitespace (`str::trim`).
pub open spec fn trim(s: Seq<char>) -> Seq<char> {
    trim_end(trim_start(s))
}

/// The position of the first `c` in `s`, or the length of `s` when `s` holds
/// no `c`.
pub open spec fn index_or_len(s: Seq<char>, c: char) -> nat
    decreases s.len(),
{
    if s.len() == 0 {
        0
    } else if s[0] == c {
        0
    } else {
        1 + index_or_len(s.drop_first(), c)
    }
}

/// The pieces of `s` between the occurrences of `c` (`str::split` with a
/// `char` pattern): one more piece than there are separators, empty pieces
/// included.
pub open spec fn split_on(s: Seq<char>, c: char) -> Seq<Seq<char>>
    decreases s.len(),
{
    let k = index_or_len(s, c) as int;
    if k < s.len() {
        seq![s.take(k as int)] + split_on(s.skip(k + 1 as int), c)
    } else {
        seq![s]
    }
}

/// A line without the carriage return of a `\r\n` line ending.
pub open spec fn strip_cr(line: Seq<char>) -> Seq<char> {
    if line.len() > 0 && line.last() == '\r' {
        line.drop_last()
    } else {
        line
    }
}

/// The lines of `s` (`str::lines`): split at `\n`, a `\r` just before the
/// `\n` dropped, and no empty last line for a text that ends with a line
/// ending.  A `\r` not followed by `\n` stays in its line.
pub open spec fn lines_of(s: Seq<char>) -> Seq<Seq<char>>
    decreases s.len(),
{
    if s.len() == 0 {
        seq![]
    } else {
        let k = index_or_len(s, '\n');
        if k < s.len() {
            seq![strip_cr(s.take(k as int))] + lines_of(s.skip(k + 1 as int))
        } else {
            seq![s]
        }
    }
}

/// An ASCII decimal digit.
pub open spec fn is_digit(c: char) -> bool {
    '0' <= c && c <= '9'
}

pub open spec fn all_digits(s: Seq<char>) -> bool {
    forall|i: int| 0 <= i < s.len() ==> is_digit(#[trigger] s[i])
}

/// The value of a string of decimal digits, most significant first.
pub open spec fn decimal_value(s: Seq<char>) -> int
    decreases s.len(),
{
    if s.len() == 0 {
        0
    } else {
        10 * decimal_value(s.drop_last()) + ((s.last() as int) - ('0' as int))
    }
}

/// The integer written by an optional sign (`+` or `-`) followed by one or
/// more decimal digits, and nothing else.
pub open spec fn signed_decimal(s: Seq<char>) -> Option<int> {
    if s.len() > 0 && (s[0] == '-' || s[0] == '+') {
        let d = s.drop_first();
        if d.len() > 0 && all_digits(d) {
            Some(if s[0] == '-' { -decimal_value(d) } else { decimal_value(d) })
        } else {
            None
        }
    } else if s.len() > 0 && all_digits(s) {
        Some(decimal_value(s))
    } else {
        None
    }
}

/// What `s.parse::<i32>()` gives: the value of a signed decimal that fits in
/// an `i32`, and an error for anything else.
pub open spec fn spec_parse_i32(s: Seq<char>) -> Option<i32> {
    match signed_decimal(s) {
        Some(v) => if i32::MIN <= v && v <= i32::MAX {
            Some(v as i32)
        } else {
            None
        },
        None => None,
    }
}

/// The pieces joined back together with `c` between neighbours
/// (`slice::join`).
pub open spec fn join(parts: Seq<Seq<char>>, c: char) -> Seq<char>
    decreases parts.len(),
{
    if parts.len() == 0 {
        Seq::empty()
    } else if parts.len() == 1 {
        parts[0]
    } else {
        parts[0] + seq![c] + join(parts.drop_first(), c)
    }
}

/// The views of a vector of string slices.
pub open spec fn views(v: Seq<&str>) -> Seq<Seq<char>> {
    v.map_values(|x: &str| x@)
}

// ---------------------------------------------------------------------------
// Lemmas
// ---------------------------------------------------------------------------

/// `index_or_len` is the first position of `c`, if there is one.
pub proof fn lemma_index_or_len(s: Seq<char>, c: char)
    ensures
        index_or_len(s, c) <= s.len(),
        forall|j: int| 0 <= j < index_or_len(s, c) ==> s[j] != c,
        index_or_len(s, c) < s.len() ==> s[index_or_len(s, c) as int] == c,
    decreases s.len(),
{
    if s.len() > 0 && s[0] != c {
        lemma_index_or_len(s.drop_first(), c);
        assert forall|j: int| 0 <= j < index_or_len(s, c) implies s[j] != c by {
            if j > 0 {
                assert(s[j] == s.drop_first()[j - 1]);
            }
        }
    }
}

/// A position before which there is no `c`, and which is either the end or a
/// `c`, is `index_or_len`.
pub proof fn lemma_index_or_len_at(s: Seq<char>, c: char, k: int)
    requires
        0 <= k <= s.len(),
        forall|j: int| 0 <= j < k ==> s[j] != c,
        k < s.len() ==> s[k] == c,
    ensures
        index_or_len(s, c) == k,
    decreases k,
{
    if k > 0 {
        lemma_index_or_len_at(s.drop_first(), c, k - 1);
    }
}

/// `trim_start(s)` is a suffix of `s` that does not start with whitespace.
pub proof fn lemma_trim_start_shape(s: Seq<char>)
    ensures
        trim_start(s).len() <= s.len(),
        trim_start(s) == s.skip(s.len() - trim_start(s).len()),
        trim_start(s).len() > 0 ==> !is_white(trim_start(s)[0]),
        forall|j: int| 0 <= j < s.len() - trim_start(s).len() ==> is_white(#[trigger] s[j]),
    decreases s.len(),
{
    if s.len() > 0 && is_white(s[0]) {
        lemma_trim_start_shape(s.drop_first());
        assert forall|j: int| 0 <= j < s.len() - trim_start(s).len() implies is_white(
            #[trigger] s[j],
        ) by {
            if j > 0 {
                assert(s[j] == s.drop_first()[j - 1]);
            }
        }
        assert(s.drop_first().skip(s.drop_first().len() - trim_start(s).len()) =~= s.skip(
            s.len() - trim_start(s).len(),
        ));
    } else {
        assert(s.skip(0) =~= s);
    }
}

/// `trim_end(s)` is a prefix of `s` that does not end with whitespace.
pub proof fn lemma_trim_end_shape(s: Seq<char>)
    ensures
        trim_end(s).len() <= s.len(),
        trim_end(s) == s.take(trim_end(s).len() as int),
        trim_end(s).len() > 0 ==> !is_white(trim_end(s).last()),
        forall|j: int| trim_end(s).len() <= j < s.len() ==> is_white(#[trigger] s[j]),
    decreases s.len(),
{
    if s.len() > 0 && is_white(s.last()) {
        lemma_trim_end_shape(s.drop_last());
        assert forall|j: int| trim_end(s).len() <= j < s.len() implies is_white(#[trigger] s[j]) by {
            if j < s.len() - 1 {
                assert(s[j] == s.drop_last()[j]);
            }
        }
        assert(s.drop_last().take(trim_end(s).len() as int) =~= s.take(trim_end(s).len() as int));
    } else {
        assert(s.take(s.len() as int) =~= s);
    }
}

/// `trim(s)` is what is left of `s` between its leading and its trailing
/// whitespace, and trimming it again changes nothing.
pub proof fn lemma_trim_shape(s: Seq<char>)
    ensures
        exists|a: int, b: int| {
            &&& 0 <= a <= b <= s.len()
            &&& trim(s) == s.subrange(a, b)
            &&& forall|j: int| 0 <= j < a ==> is_white(#[trigger] s[j])
            &&& forall|j: int| b <= j < s.len() ==> is_white(#[trigger] s[j])
            &&& a < b ==> !is_white(s[a]) && !is_white(s[b - 1])
        },
        trim(s).len() > 0 ==> !is_white(trim(s)[0]) && !is_white(trim(s).last()),
        trim(trim(s)) == trim(s),
{
    let u = trim_start(s);
    lemma_trim_start_shape(s);
    lemma_trim_end_shape(u);
    let a = s.len() - u.len();
    let m = trim(s).len();
    assert(trim(s) =~= s.subrange(a, a + m));
    assert forall|j: int| a + m <= j < s.len() implies is_white(#[trigger] s[j]) by {
        assert(s[j] == u[j - a]);
    }
    if m > 0 {
        assert(s[a] == u[0]);
        assert(s[a + m - 1] == trim(s).last());
    }

    if m > 0 {
        assert(trim(s)[0] == u[0]);
    }
    let t = trim(s);
    lemma_trim_start_at(t, 0);
    assert(t.skip(0) =~= t);
    if t.len() > 0 {
        lemma_trim_end_at(t, t.len() as int);
    }
    assert(t.take(t.len() as int) =~= t);
}

proof fn lemma_trim_start_at(s: Seq<char>, k: int)
    requires
        0 <= k <= s.len(),
        forall|j: int| 0 <= j < k ==> is_white(s[j]),
        k < s.len() ==> !is_white(s[k]),
    ensures
        trim_start(s) == s.skip(k),
    decreases k,
{
    if k > 0 {
        lemma_trim_start_at(s.drop_first(), k - 1);
        assert(s.drop_first().skip(k - 1) =~= s.skip(k));
    } else {
        assert(s.skip(0) =~= s);
    }
}

proof fn lemma_trim_end_at(s: Seq<char>, k: int)
    requires
        0 <= k <= s.len(),
        forall|j: int| k <= j < s.len() ==> is_white(s[j]),
        k > 0 ==> !is_white(s[k - 1]),
    ensures
        trim_end(s) == s.take(k),
    decreases s.len() - k,
{
    if k < s.len() {
        lemma_trim_end_at(s.drop_last(), k);
        assert(s.drop_last().take(k) =~= s.take(k));
    } else {
        assert(s.take(k) =~= s);
    }
}

/// The pieces of `split_on` hold no separator.
pub proof fn lemma_split_pieces(s: Seq<char>, c: char)
    ensures
        split_on(s, c).len() >= 1,
        forall|i: int, j: int|
            0 <= i < split_on(s, c).len() && 0 <= j < split_on(s, c)[i].len() ==> split_on(
                s,
                c,
            )[i][j] != c,
    decreases s.len(),
{
    lemma_index_or_len(s, c);
    let k = index_or_len(s, c) as int;
    if k < s.len() {
        lemma_split_pieces(s.skip(k + 1), c);
        let rest = split_on(s.skip(k + 1), c);
        assert forall|i: int, j: int|
            0 <= i < split_on(s, c).len() && 0 <= j < split_on(s, c)[i].len() implies split_on(
            s,
            c,
        )[i][j] != c by {
            if i > 0 {
                assert(split_on(s, c)[i] == rest[i - 1]);
            }
        }
    }
}

/// Splitting at `c` and joining the pieces with `c` gives `s` back.
pub proof fn lemma_split_join(s: Seq<char>, c: char)
    ensures
        join(split_on(s, c), c) == s,
    decreases s.len(),
{
    lemma_index_or_len(s, c);
    let k = index_or_len(s, c) as int;
    if k < s.len() {
        let rest = s.skip(k + 1);
        lemma_split_join(rest, c);
        lemma_split_pieces(rest, c);
        let parts = split_on(s, c);
        assert(parts.drop_first() =~= split_on(rest, c));
        assert(s.take(k as int) + seq![c] + rest =~= s);
    }
}

/// How `lines_of` takes a text apart: an empty text has no lines, a text
/// without a line feed is one line, and otherwise the first line is what
/// comes before the first line feed, without a carriage return that ends it,
/// followed by the lines of the rest.
pub proof fn lemma_lines_cases(x: Seq<char>, y: Seq<char>)
    requires
        forall|j: int| 0 <= j < x.len() ==> #[trigger] x[j] != '\n',
    ensures
        lines_of(Seq::<char>::empty()) == Seq::<Seq<char>>::empty(),
        x.len() > 0 ==> lines_of(x) == seq![x],
        (x.len() == 0 || x.last() != '\r') ==> lines_of(x + seq!['\n'] + y) == seq![x]
            + lines_of(y),
        x.len() > 0 && x.last() == '\r' ==> lines_of(x + seq!['\n'] + y) == seq![x.drop_last()]
            + lines_of(y),
{
    lemma_index_or_len_at(x, '\n', x.len() as int);
    let s = x + seq!['\n'] + y;
    assert forall|j: int| 0 <= j < x.len() implies s[j] != '\n' by {
        assert(s[j] == x[j]);
    }
    lemma_index_or_len_at(s, '\n', x.len() as int);
    assert(s.take(x.len() as int) =~= x);
    assert(s.skip(x.len() + 1 as int) =~= y);
}

/// No line of `lines_of` holds a line feed.
pub proof fn lemma_lines_no_newline(s: Seq<char>)
    ensures
        forall|i: int, j: int|
            0 <= i < lines_of(s).len() && 0 <= j < lines_of(s)[i].len() ==> lines_of(s)[i][j]
                != '\n',
    decreases s.len(),
{
    if s.len() > 0 {
        lemma_index_or_len(s, '\n');
        let k = index_or_len(s, '\n') as int;
        if k < s.len() {
            lemma_lines_no_newline(s.skip(k + 1));
            let first = strip_cr(s.take(k));
            assert forall|i: int, j: int|
                0 <= i < lines_of(s).len() && 0 <= j < lines_of(s)[i].len() implies lines_of(
                s,
            )[i][j] != '\n' by {
                if i == 0 {
                    assert(lines_of(s)[0] == first);
                    assert(first[j] == s[j]);
                } else {
                    assert(lines_of(s)[i] == lines_of(s.skip(k + 1))[i - 1]);
                }
            }
        }
    }
}

/// The value of a single digit.
pub proof fn lemma_decimal_digit(c: char)
    ensures
        decimal_value(seq![c]) == (c as int) - ('0' as int),
{
    assert(seq![c].drop_last() =~= Seq::<char>::empty());
    assert(decimal_value(Seq::<char>::empty()) == 0);
    assert(seq![c].last() == c);
}

/// The digits `s` followed by the digits `t` are worth `s` times ten to the
/// number of digits of `t`, plus `t`.
pub proof fn lemma_decimal_concat(s: Seq<char>, t: Seq<char>)
    ensures
        decimal_value(s + t) == decimal_value(s) * vstd::arithmetic::power::pow(10, t.len())
            + decimal_value(t),
    decreases t.len(),
{
    if t.len() == 0 {
        assert(s + t =~= s);
        vstd::arithmetic::power::lemma_pow0(10);
    } else {
        let t2 = t.drop_last();
        lemma_decimal_concat(s, t2);
        assert((s + t).drop_last() =~= s + t2);
        assert((s + t).last() == t.last());
        vstd::arithmetic::power::lemma_pow_adds(10, t2.len(), 1);
        vstd::arithmetic::power::lemma_pow1(10);
        let p = vstd::arithmetic::power::pow(10, t2.len());
        let v = decimal_value(s);
        assert(10 * (v * p) == v * (p * 10)) by (nonlinear_arith);
    }
}

/// What `s.parse::<i32>()` accepts: digits, or a `-` or `+` followed by
/// digits, whose value (negated after `-`) fits in an `i32`.
pub proof fn lemma_parse_i32_cases(s: Seq<char>)
    ensures
        all_digits(s) && s.len() > 0 ==> spec_parse_i32(s) == if decimal_value(s) <= i32::MAX {
            Some(decimal_value(s) as i32)
        } else {
            None
        },
        s.len() > 1 && s[0] == '-' && all_digits(s.drop_first()) ==> spec_parse_i32(s) == if -decimal_value(
            s.drop_first(),
        ) >= i32::MIN {
            Some((-decimal_value(s.drop_first())) as i32)
        } else {
            None
        },
        s.len() > 1 && s[0] == '+' && all_digits(s.drop_first()) ==> spec_parse_i32(s) == if decimal_value(
            s.drop_first(),
        ) <= i32::MAX {
            Some(decimal_value(s.drop_first()) as i32)
        } else {
            None
        },
        spec_parse_i32(s) is Some ==> s.len() > 0 && (all_digits(s) || ((s[0] == '-' || s[0]
            == '+') && s.len() > 1 && all_digits(s.drop_first()))),
{
    if all_digits(s) && s.len() > 0 {
        lemma_decimal_nonneg(s);
        assert(is_digit(s[0]));
    }
    if s.len() > 1 && all_digits(s.drop_first()) {
        lemma_decimal_nonneg(s.drop_first());
    }
}

proof fn lemma_decimal_nonneg(s: Seq<char>)
    requires
        all_digits(s),
    ensures
        decimal_value(s) >= 0,
    decreases s.len(),
{
    if s.len() > 0 {
        assert(is_digit(s[s.len() - 1]));
        lemma_decimal_nonneg(s.drop_last());
    }
}

// ---------------------------------------------------------------------------
// Executable functions
// ---------------------------------------------------------------------------

/// The characters of a string slice, in order.
pub fn chars_of(s: &str) -> (v: Vec<char>)
    ensures
        v@ == s@,
{
    broadcast use vstd::string::group_string_axioms;

    let mut v: Vec<char> = Vec::new();
    for c in it: s.chars()
        invariant
            it.seq() == s@,
            v@ == it.seq().take(it.index()),
    {
        v.push(c);
    }
    v
}

/// `char::is_whitespace`.
pub fn is_whitespace(c: char) -> (b: bool)
    ensures
        b == is_white(c),
{
    let u = c as u32;
    u == 9 || u == 10 || u == 11 || u == 12 || u == 13 || u == 32 || u == 0x85 || u == 0xA0
        || u == 0x1680 || (0x2000 <= u && u <= 0x200A) || u == 0x2028 || u == 0x2029 || u
        == 0x202F || u == 0x205F || u == 0x3000
}

/// The position of the first `c` in `v[lo..hi]`, counted from the start of
/// `v`, or `hi` when there is none.
pub fn find_char(v: &Vec<char>, lo: usize, hi: usize, c: char) -> (r: usize)
    requires
        lo <= hi <= v.len(),
    ensures
        r == lo + index_or_len(v@.subrange(lo as int, hi as int), c),
        lo <= r <= hi,
{
    let ghost s = v@.subrange(lo as int, hi as int);
    let mut i = lo;
    while i < hi && v[i] != c
        invariant
            lo <= i <= hi <= v.len(),
            s == v@.subrange(lo as int, hi as int),
            forall|j: int| lo <= j < i ==> v@[j] != c,
        decreases hi - i,
    {
        i = i + 1;
    }
    proof {
        lemma_index_or_len_at(s, c, i - lo);
    }
    i
}

/// The bounds of `trim(v[lo..hi])` within `v`.
pub fn trim_bounds(v: &Vec<char>, lo: usize, hi: usize) -> (r: (usize, usize))
    requires
        lo <= hi <= v.len(),
    ensures
        lo <= r.0 <= r.1 <= hi,
        v@.subrange(r.0 as int, r.1 as int) == trim(v@.subrange(lo as int, hi as int)),
{
    let ghost s = v@.subrange(lo as int, hi as int);
    let mut a = lo;
    while a < hi && is_whitespace(v[a])
        invariant
            lo <= a <= hi <= v.len(),
            forall|j: int| lo <= j < a ==> is_white(v@[j]),
        decreases hi - a,
    {
        a = a + 1;
    }
    proof {
        lemma_trim_start_at(s, a - lo);
        assert(s.skip(a - lo) =~= v@.subrange(a as int, hi as int));
    }
    let ghost t = v@.subrange(a as int, hi as int);
    let mut b = hi;
    while b > a && is_whitespace(v[b - 1])
        invariant
            lo <= a <= b <= hi <= v.len(),
            forall|j: int| b <= j < hi ==> is_white(v@[j]),
        decreases b - a,
    {
        b = b - 1;
    }
    proof {
        lemma_trim_end_at(t, b - a);
        assert(t.take(b - a) =~= v@.subrange(a as int, b as int));
    }
    (a, b)
}

/// `s.split(' ')`: the fields of `s` between single spaces.
pub fn split_fields(s: &str) -> (fields: Vec<&str>)
    ensures
        views(fields@) == split_on(s@, ' '),
{
    let v = chars_of(s);
    let n = v.len();
    let mut fields: Vec<&str> = Vec::new();
    let mut start: usize = 0;
    let mut i: usize = 0;
    assert(s@.skip(0) =~= s@);
    while i < n
        invariant
            n == v.len(),
            v@ == s@,
            start <= i <= n,
            forall|j: int| start <= j < i ==> v@[j] != ' ',
            split_on(s@, ' ') == views(fields@) + split_on(s@.skip(start as int), ' '),
        decreases n - i,
    {
        if v[i] == ' ' {
            let piece = s.substring_char(start, i);
            proof {
                let rest = s@.skip(start as int);
                lemma_index_or_len_at(rest, ' ', i - start);
                assert(rest.take(i - start) =~= piece@);
                assert(rest.skip(i - start + 1) =~= s@.skip(i + 1));
                assert(views(fields@.push(piece)) =~= views(fields@).push(piece@));
                assert(views(fields@) + split_on(rest, ' ') =~= views(fields@).push(piece@)
                    + split_on(s@.skip(i + 1), ' '));
            }
            fields.push(piece);
            start = i + 1;
        }
        i = i + 1;
    }
    let piece = s.substring_char(start, n);
    proof {
        let rest = s@.skip(start as int);
        lemma_index_or_len_at(rest, ' ', n - start);
        assert(rest =~= piece@);
        assert(views(fields@.push(piece)) =~= views(fields@).push(piece@));
        assert(views(fields@) + split_on(rest, ' ') =~= views(fields@).push(piece@));
    }
    fields.push(piece);
    fields
}

/// `s.lines()`: the lines of `s`, each without its line ending.
pub fn lines(s: &str) -> (ls: Vec<&str>)
    ensures
        views(ls@) == lines_of(s@),
{
    let v = chars_of(s);
    let n = v.len();
    let mut ls: Vec<&str> = Vec::new();
    let mut start: usize = 0;
    let mut i: usize = 0;
    assert(s@.skip(0) =~= s@);
    while i < n
        invariant
            n == v.len(),
            v@ == s@,
            start <= i <= n,
            forall|j: int| start <= j < i ==> v@[j] != '\n',
            lines_of(s@) == views(ls@) + lines_of(s@.skip(start as int)),
        decreases n - i,
    {
        if v[i] == '\n' {
            let end = if i > start && v[i - 1] == '\r' {
                i - 1
            } else {
                i
            };
            let line = s.substring_char(start, end);
            proof {
                let rest = s@.skip(start as int);
                lemma_index_or_len_at(rest, '\n', i - start);
                assert(strip_cr(rest.take(i - start)) =~= line@);
                assert(rest.skip(i - start + 1) =~= s@.skip(i + 1));
                assert(views(ls@.push(line)) =~= views(ls@).push(line@));
                assert(views(ls@) + lines_of(rest) =~= views(ls@).push(line@) + lines_of(
                    s@.skip(i + 1),
                ));
            }
            ls.push(line);
            start = i + 1;
        }
        i = i + 1;
    }
    if start < n {
        let line = s.substring_char(start, n);
        proof {
            let rest = s@.skip(start as int);
            lemma_index_or_len_at(rest, '\n', n - start);
            assert(rest =~= line@);
            assert(views(ls@.push(line)) =~= views(ls@).push(line@));
            assert(views(ls@) + lines_of(rest) =~= views(ls@).push(line@));
        }
        ls.push(line);
    } else {
        proof {
            assert(s@.skip(start as int) =~= Seq::<char>::empty());
            assert(views(ls@) + lines_of(s@.skip(start as int)) =~= views(ls@));
        }
    }
    ls
}

/// `s.parse::<i32>()`, with `None` for the error.
pub fn parse_i32(s: &str) -> (r: Option<i32>)
    ensures
        r == spec_parse_i32(s@),
{
    let v = chars_of(s);
    let n = v.len();
    if n == 0 {
        return None;
    }
    let neg = v[0] == '-';
    let start: usize = if v[0] == '-' || v[0] == '+' {
        1
    } else {
        0
    };
    if start == n {
        return None;
    }
    let ghost d = v@.skip(start as int);
    proof {
        if start == 1 {
            assert(s@.drop_first() =~= d);
        } else {
            assert(s@ =~= d);
        }
    }
    // Values above `cap` can fit in no `i32`, so the accumulator stops there.
    let cap: u64 = 2147483649;
    let mut acc: u64 = 0;
    let mut i = start;
    while i < n
        invariant
            start <= i <= n == v.len(),
            v@ == s@,
            n > 0,
            start <= 1,
            start == 1 ==> (s@[0] == '-' || s@[0] == '+') && s@.drop_first() == d,
            start == 0 ==> !(s@[0] == '-' || s@[0] == '+') && s@ == d,
            d == v@.skip(start as int),
            all_digits(d.take(i - start)),
            acc as int == if decimal_value(d.take(i - start)) < cap {
                decimal_value(d.take(i - start))
            } else {
                cap as int
            },
            cap == 2147483649,
        decreases n - i,
    {
        let c = v[i];
        if !('0' <= c && c <= '9') {
            proof {
                assert(d[i - start] == c);
                assert(!is_digit(d[i - start]));
                assert(!all_digits(d));
            }
            return None;
        }
        let digit = (c as u64) - ('0' as u64);
        proof {
            let p = d.take(i - start);
            let q = d.take(i - start + 1);
            assert(q.drop_last() =~= p);
            assert(q.last() == c);
            lemma_decimal_nonneg(p);
            assert(all_digits(q));
        }
        let next = acc * 10 + digit;
        acc = if next < cap {
            next
        } else {
            cap
        };
        i = i + 1;
    }
    proof {
        assert(d.take(n - start) =~= d);
    }
    if neg {
        if acc <= 2147483648 {
            Some((0 - (acc as i64)) as i32)
        } else {
            None
        }
    } else {
        if acc <= 2147483647 {
            Some(acc as i32)
        } else {
            None
        }
    }
}

} // verus!
