//! Spline kinds and the index bookkeeping of sweeping cross sections: which
//! sections are interpolated together, how many rows the output announces,
//! how the control points of a closed section are grouped, and how curves
//! computed per control point are regrouped into sections.
use vstd::prelude::*;

use crate::strings::chars_of;

verus! {

/// The kind of spline that interpolates the sections of an object.
#[derive(Debug, Clone, Copy, PartialEq, Eq, Structural)]
pub enum Spline {
    Bspline,
    Catmull,
    Natural,
}

// ---------------------------------------------------------------------------
// Spline names
// ---------------------------------------------------------------------------

/// The code of `c` after `char::to_ascii_uppercase`: ASCII lower-case
/// letters become upper case, everything else stays.
pub open spec fn upper_code(c: char) -> u32 {
    if 97 <= (c as u32) && (c as u32) <= 122 {
        ((c as u32) - 32) as u32
    } else {
        c as u32
    }
}

/// `s.to_ascii_uppercase()` equals `word`.
pub open spec fn upper_eq(s: Seq<char>, word: Seq<char>) -> bool {
    &&& s.len() == word.len()
    &&& forall|i: int| 0 <= i < s.len() ==> upper_code(s[i]) == (word[i] as u32)
}

pub open spec fn word_bspline() -> Seq<char> {
    seq!['B', 'S', 'P', 'L', 'I', 'N', 'E']
}

pub open spec fn word_catmull_rom() -> Seq<char> {
    seq!['C', 'A', 'T', 'M', 'U', 'L', 'L', '_', 'R', 'O', 'M']
}

pub open spec fn word_catmull() -> Seq<char> {
    seq!['C', 'A', 'T', 'M', 'U', 'L', 'L']
}

pub open spec fn word_natural() -> Seq<char> {
    seq!['N', 'A', 'T', 'N', 'U', 'R', 'A', 'L']
}

/// The spline kind that a name selects, ignoring ASCII case, if any.
pub open spec fn spline_kind(s: Seq<char>) -> Option<Spline> {
    if upper_eq(s, word_bspline()) {
        Some(Spline::Bspline)
    } else if upper_eq(s, word_catmull_rom()) || upper_eq(s, word_catmull()) {
        Some(Spline::Catmull)
    } else if upper_eq(s, word_natural()) {
        Some(Spline::Natural)
    } else {
        None
    }
}

/// The spline kind does not depend on the ASCII case of its name: two names
/// that agree once upper-cased select the same kind.
pub proof fn lemma_spline_kind_ignores_case(s: Seq<char>, t: Seq<char>)
    requires
        s.len() == t.len(),
        forall|i: int| 0 <= i < s.len() ==> upper_code(#[trigger] s[i]) == upper_code(t[i]),
    ensures
        spline_kind(s) == spline_kind(t),
{
    assert forall|w: Seq<char>| upper_eq(s, w) <==> upper_eq(t, w) by {
        if upper_eq(s, w) {
            assert forall|i: int| 0 <= i < t.len() implies upper_code(t[i]) == (w[i] as u32) by {
                assert(upper_code(s[i]) == upper_code(t[i]));
            }
        }
        if upper_eq(t, w) {
            assert forall|i: int| 0 <= i < s.len() implies upper_code(s[i]) == (w[i] as u32) by {
                assert(upper_code(s[i]) == upper_code(t[i]));
            }
        }
    }
}

/// The names of the spline kinds: `BSPLINE` selects the B-spline,
/// `CATMULL_ROM` and `CATMULL` the Catmull-Rom spline, `NATNURAL` the
/// natural spline, each in any ASCII case, and nothing else selects a kind.
pub proof fn lemma_spline_names(s: Seq<char>)
    ensures
        spline_kind(s) == Some(Spline::Bspline) <==> upper_eq(s, seq!['B', 'S', 'P', 'L', 'I', 'N', 'E']),
        spline_kind(s) == Some(Spline::Catmull) <==> upper_eq(s, seq!['C', 'A', 'T', 'M', 'U', 'L', 'L', '_', 'R', 'O', 'M']) || upper_eq(s, seq!['C', 'A', 'T', 'M', 'U', 'L', 'L']),
        spline_kind(s) == Some(Spline::Natural) <==> upper_eq(s, seq!['N', 'A', 'T', 'N', 'U', 'R', 'A', 'L']),
        spline_kind(s) is None <==> !upper_eq(s, seq!['B', 'S', 'P', 'L', 'I', 'N', 'E']) && !upper_eq(s, seq!['C', 'A', 'T', 'M', 'U', 'L', 'L', '_', 'R', 'O', 'M']) && !upper_eq(s, seq!['C', 'A', 'T', 'M', 'U', 'L', 'L'])
            && !upper_eq(s, seq!['N', 'A', 'T', 'N', 'U', 'R', 'A', 'L']),
{
    assert(word_bspline() =~= seq!['B', 'S', 'P', 'L', 'I', 'N', 'E']);
    assert(word_catmull_rom() =~= seq!['C', 'A', 'T', 'M', 'U', 'L', 'L', '_', 'R', 'O', 'M']);
    assert(word_catmull() =~= seq!['C', 'A', 'T', 'M', 'U', 'L', 'L']);
    assert(word_natural() =~= seq!['N', 'A', 'T', 'N', 'U', 'R', 'A', 'L']);
    if s.len() > 0 {
        let c = upper_code(s[0]);
        assert(upper_eq(s, seq!['B', 'S', 'P', 'L', 'I', 'N', 'E']) ==> c == ('B' as u32));
        assert(upper_eq(s, seq!['C', 'A', 'T', 'M', 'U', 'L', 'L', '_', 'R', 'O', 'M']) ==> c == ('C' as u32));
        assert(upper_eq(s, seq!['C', 'A', 'T', 'M', 'U', 'L', 'L']) ==> c == ('C' as u32));
        assert(upper_eq(s, seq!['N', 'A', 'T', 'N', 'U', 'R', 'A', 'L']) ==> c == ('N' as u32));
    }
}

/// Upper-casing to a word of capital ASCII letters and `_` leaves each
/// character of the word as it is and turns its lower-case letter into it:
/// `s` matches such a word exactly when each character is the word's or,
/// for a letter, that letter in lower case (32 code points further).
pub proof fn lemma_upper_eq_letters(s: Seq<char>, w: Seq<char>)
    requires
        forall|i: int|
            0 <= i < w.len() ==> (65 <= (#[trigger] w[i] as u32) && (w[i] as u32) <= 90) || (w[i]
                as u32) == 95,
    ensures
        upper_eq(s, w) <==> s.len() == w.len() && forall|i: int|
            0 <= i < s.len() ==> (#[trigger] s[i] as u32) == (w[i] as u32) || ((w[i] as u32) != 95
                && (s[i] as u32) == (w[i] as u32) + 32),
{
    if s.len() == w.len() {
        if upper_eq(s, w) {
            assert forall|i: int| 0 <= i < s.len() implies (#[trigger] s[i] as u32) == (w[i]
                as u32) || ((w[i] as u32) != 95 && (s[i] as u32) == (w[i] as u32) + 32) by {
                assert(upper_code(s[i]) == (w[i] as u32));
            }
        }
        if forall|i: int|
            0 <= i < s.len() ==> (#[trigger] s[i] as u32) == (w[i] as u32) || ((w[i] as u32)
                != 95 && (s[i] as u32) == (w[i] as u32) + 32) {
            assert forall|i: int| 0 <= i < s.len() implies upper_code(s[i]) == (w[i] as u32) by {
                assert((s[i] as u32) == (w[i] as u32) || ((w[i] as u32) != 95 && (s[i] as u32) == (
                    w[i] as u32) + 32));
            }
        }
    }
}

/// Whether `v` upper-cased is `word`.
fn upper_matches(v: &Vec<char>, word: &[char]) -> (b: bool)
    ensures
        b == upper_eq(v@, word@),
{
    if v.len() != word.len() {
        return false;
    }
    let mut i: usize = 0;
    while i < v.len()
        invariant
            v.len() == word@.len(),
            i <= v.len(),
            forall|j: int| 0 <= j < i ==> upper_code(v@[j]) == (word@[j] as u32),
        decreases v.len() - i,
    {
        let c = v[i] as u32;
        let w = word[i] as u32;
        let up = if 97 <= c && c <= 122 {
            c - 32
        } else {
            c
        };
        if up != w {
            return false;
        }
        i = i + 1;
    }
    true
}

impl Spline {
    /// The spline kind named by `s` (`BSPLINE`, `CATMULL_ROM` or `CATMULL`,
    /// `NATNURAL`, in any ASCII case), or `None` for any other name.
    pub fn from_name(s: &str) -> (r: Option<Spline>)
        ensures
            r == spline_kind(s@),
            r == Some(Spline::Bspline) <==> upper_eq(s@, seq!['B', 'S', 'P', 'L', 'I', 'N', 'E']),
            r == Some(Spline::Catmull) <==> upper_eq(s@, seq!['C', 'A', 'T', 'M', 'U', 'L', 'L', '_', 'R', 'O', 'M']) || upper_eq(
                s@,
                seq!['C', 'A', 'T', 'M', 'U', 'L', 'L'],
            ),
            r == Some(Spline::Natural) <==> upper_eq(s@, seq!['N', 'A', 'T', 'N', 'U', 'R', 'A', 'L']),
    {
        proof {
            lemma_spline_names(s@);
        }
        let v = chars_of(s);
        let bspline: [char; 7] = ['B', 'S', 'P', 'L', 'I', 'N', 'E'];
        let catmull_rom: [char; 11] = ['C', 'A', 'T', 'M', 'U', 'L', 'L', '_', 'R', 'O', 'M'];
        let catmull: [char; 7] = ['C', 'A', 'T', 'M', 'U', 'L', 'L'];
        let natural: [char; 8] = ['N', 'A', 'T', 'N', 'U', 'R', 'A', 'L'];
        proof {
            assert(bspline@ =~= word_bspline());
            assert(catmull_rom@ =~= word_catmull_rom());
            assert(catmull@ =~= word_catmull());
            assert(natural@ =~= word_natural());
        }
        if upper_matches(&v, bspline.as_slice()) {
            Some(Spline::Bspline)
        } else if upper_matches(&v, catmull_rom.as_slice()) || upper_matches(&v, catmull.as_slice()) {
            Some(Spline::Catmull)
        } else if upper_matches(&v, natural.as_slice()) {
            Some(Spline::Natural)
        } else {
            None
        }
    }

    /// The spline kind named by `s`, B-spline for an unknown name.
    pub fn new(s: &str) -> (r: Spline)
        ensures
            r == match spline_kind(s@) {
                Some(k) => k,
                None => Spline::Bspline,
            },
    {
        match Spline::from_name(s) {
            Some(k) => k,
            None => Spline::Bspline,
        }
    }
}

// ---------------------------------------------------------------------------
// Sweeping sections along the spline
// ---------------------------------------------------------------------------

/// Four indices of sections (or control points) that one spline segment
/// interpolates.
pub type Window = (usize, usize, usize, usize);

/// The groups of four sections that the swept surface interpolates, in
/// order: with two sections the ends are doubled, with three the first and
/// the last, and otherwise every run of four consecutive sections.  The last
/// section is written on its own after these.
pub open spec fn spec_sweep_windows(sect_n: int) -> Seq<Window> {
    if sect_n == 2 {
        seq![(0usize, 0usize, 1usize, 1usize)]
    } else if sect_n == 3 {
        seq![(0usize, 0usize, 1usize, 2usize), (0usize, 1usize, 2usize, 2usize)]
    } else if sect_n > 3 {
        Seq::new(
            (sect_n - 3) as nat,
            |i: int| (i as usize, (i + 1) as usize, (i + 2) as usize, (i + 3) as usize),
        )
    } else {
        Seq::empty()
    }
}

/// Every index of the window lies below `n`.
pub open spec fn window_below(w: Window, n: int) -> bool {
    w.0 < n && w.1 < n && w.2 < n && w.3 < n
}

/// The windows of sections that `make_swept_file` interpolates for an object
/// of `sect_n` sections.
pub fn sweep_windows(sect_n: i32) -> (r: Vec<Window>)
    ensures
        r@ == spec_sweep_windows(sect_n as int),
        sect_n <= 1 ==> r@.len() == 0,
        sect_n == 2 ==> r@ == seq![(0usize, 0usize, 1usize, 1usize)],
        sect_n == 3 ==> r@ == seq![(0usize, 0usize, 1usize, 2usize), (0usize, 1usize, 2usize, 2usize)],
        sect_n > 3 ==> r@.len() == sect_n - 3,
        sect_n > 3 ==> forall|j: int|
            0 <= j < sect_n - 3 ==> #[trigger] r@[j] == (
                j as usize,
                (j + 1) as usize,
                (j + 2) as usize,
                (j + 3) as usize,
            ),
{
    let mut r: Vec<Window> = Vec::new();
    if sect_n == 2 {
        r.push((0, 0, 1, 1));
    } else if sect_n == 3 {
        r.push((0, 0, 1, 2));
        r.push((0, 1, 2, 2));
    } else if sect_n > 3 {
        let n = (sect_n - 3) as usize;
        let mut i: usize = 0;
        while i < n
            invariant
                n == sect_n - 3,
                sect_n > 3,
                i <= n,
                r@ =~= Seq::new(
                    i as nat,
                    |j: int| (j as usize, (j + 1) as usize, (j + 2) as usize, (j + 3) as usize),
                ),
            decreases n - i,
        {
            r.push((i, i + 1, i + 2, i + 3));
            i = i + 1;
        }
    }
    proof {
        if sect_n == 2 {
            assert(r@ =~= seq![(0usize, 0usize, 1usize, 1usize)]);
        } else if sect_n == 3 {
            assert(r@ =~= seq![(0usize, 0usize, 1usize, 2usize), (0usize, 1usize, 2usize, 2usize)]);
        } else if sect_n <= 1 {
            assert(r@ =~= Seq::<Window>::empty());
        }
    }
    r
}

/// The windows of an object with two or more sections run from the first
/// section to the last: the first window starts at section 0, the last one
/// ends at section `sect_n - 1`, and beyond three sections each window is
/// the one before moved on by one section, starting at `(0, 1, 2, 3)`.
pub proof fn lemma_sweep_windows_cover(sect_n: int)
    requires
        2 <= sect_n <= i32::MAX,
    ensures
        spec_sweep_windows(sect_n).len() >= 1,
        spec_sweep_windows(sect_n)[0].0 == 0,
        spec_sweep_windows(sect_n).last().3 == sect_n - 1,
        sect_n > 3 ==> spec_sweep_windows(sect_n)[0] == (0usize, 1usize, 2usize, 3usize),
        sect_n > 3 ==> forall|j: int|
            0 <= j < spec_sweep_windows(sect_n).len() - 1 ==> {
                let w = #[trigger] spec_sweep_windows(sect_n)[j];
                let v = spec_sweep_windows(sect_n)[j + 1];
                v.0 == w.1 && v.1 == w.2 && v.2 == w.3 && v.3 == w.3 + 1
            },
        sect_n > 3 ==> spec_sweep_windows(sect_n).len() == sect_n - 3,
        sect_n == 2 ==> spec_sweep_windows(sect_n) == seq![(0usize, 0usize, 1usize, 1usize)],
        sect_n == 3 ==> spec_sweep_windows(sect_n) == seq![
            (0usize, 0usize, 1usize, 2usize),
            (0usize, 1usize, 2usize, 2usize),
        ],
{
    if sect_n > 3 {
        let ws = spec_sweep_windows(sect_n);
        assert(ws.last() == ws[sect_n - 4]);
    }
}

/// The two counts on the first line of a swept file: the rows of sections,
/// `(sect_n - 1) * s_part + 1`, and the points per row, `point_n * b_part`,
/// when the `i32` arithmetic of both stays in range.
pub open spec fn spec_swept_header(sect_n: i32, point_n: i32, s_part: i32, b_part: i32) -> Option<
    (i32, i32),
> {
    let a = sect_n - 1;
    let b = a * s_part;
    let c = b + 1;
    let d = point_n * b_part;
    if i32::MIN <= a <= i32::MAX && i32::MIN <= b <= i32::MAX && i32::MIN <= c <= i32::MAX
        && i32::MIN <= d <= i32::MAX {
        Some((c as i32, d as i32))
    } else {
        None
    }
}

/// Every step of `(sect_n - 1) * s_part + 1` and `point_n * b_part` stays
/// within `i32`.
pub open spec fn header_in_range(sect_n: i32, point_n: i32, s_part: i32, b_part: i32) -> bool {
    &&& i32::MIN <= sect_n - 1 <= i32::MAX
    &&& i32::MIN <= (sect_n - 1) * s_part <= i32::MAX
    &&& i32::MIN <= (sect_n - 1) * s_part + 1 <= i32::MAX
    &&& i32::MIN <= point_n * b_part <= i32::MAX
}

/// The header counts are `(sect_n - 1) * s_part + 1` rows and
/// `point_n * b_part` points per row, whenever that arithmetic fits in
/// `i32`, and there are none otherwise.
pub proof fn lemma_swept_header_value(sect_n: i32, point_n: i32, s_part: i32, b_part: i32)
    ensures
        header_in_range(sect_n, point_n, s_part, b_part) ==> spec_swept_header(
            sect_n,
            point_n,
            s_part,
            b_part,
        ) == Some((((sect_n - 1) * s_part + 1) as i32, (point_n * b_part) as i32)),
        !header_in_range(sect_n, point_n, s_part, b_part) ==> spec_swept_header(
            sect_n,
            point_n,
            s_part,
            b_part,
        ) is None,
{
}

/// The header counts of a swept file, or `None` where the `i32` arithmetic
/// overflows.
pub fn swept_header(sect_n: i32, point_n: i32, s_part: i32, b_part: i32) -> (r: Option<(i32, i32)>)
    ensures
        r == spec_swept_header(sect_n, point_n, s_part, b_part),
        r is Some <==> header_in_range(sect_n, point_n, s_part, b_part),
        r is Some ==> r == Some(
            (((sect_n - 1) * s_part + 1) as i32, (point_n * b_part) as i32),
        ),
{
    let a = match sect_n.checked_sub(1) {
        Some(x) => x,
        None => {
            return None;
        },
    };
    let b = match a.checked_mul(s_part) {
        Some(x) => x,
        None => {
            return None;
        },
    };
    let c = match b.checked_add(1) {
        Some(x) => x,
        None => {
            return None;
        },
    };
    let d = match point_n.checked_mul(b_part) {
        Some(x) => x,
        None => {
            return None;
        },
    };
    Some((c, d))
}

/// How many rows of sections `make_swept_file` writes: `s_part` for every
/// window, and the last section.
pub open spec fn written_rows(sect_n: int, s_part: int) -> int {
    spec_sweep_windows(sect_n).len() * s_part + 1
}

/// Every window of an object with at least one section names only sections
/// that exist, and so does the last section, `sect_n - 1`.
pub proof fn lemma_sweep_windows_in_bounds(sect_n: int)
    requires
        sect_n >= 1,
    ensures
        forall|i: int|
            0 <= i < spec_sweep_windows(sect_n).len() ==> window_below(
                #[trigger] spec_sweep_windows(sect_n)[i],
                sect_n,
            ),
        0 <= sect_n - 1 < sect_n,
{
}

/// For one to three sections, the row count in the header of a swept file
/// is the number of rows that are written after it.
pub proof fn lemma_header_counts_rows(sect_n: int, s_part: int)
    requires
        1 <= sect_n <= 3,
    ensures
        (sect_n - 1) * s_part + 1 == written_rows(sect_n, s_part),
{
    assert(spec_sweep_windows(sect_n).len() == sect_n - 1);
}

// ---------------------------------------------------------------------------
// Closed sections
// ---------------------------------------------------------------------------

/// The window that starts at control point `i` of a closed section of `len`
/// points: `i` and the three points after it, wrapping around.
pub open spec fn closed_window(len: int, i: int) -> Window {
    (i as usize, ((i + 1) % len) as usize, ((i + 2) % len) as usize, ((i + 3) % len) as usize)
}

/// The point after `j` on a closed section of `len` points.
fn next_on_ring(j: usize, len: usize) -> (r: usize)
    requires
        j < len,
    ensures
        r == (j + 1) % (len as int),
{
    proof {
        if j + 1 < len {
            vstd::arithmetic::div_mod::lemma_fundamental_div_mod_converse(
                j + 1,
                len as int,
                0,
                j + 1,
            );
        } else {
            vstd::arithmetic::div_mod::lemma_fundamental_div_mod_converse(
                j + 1,
                len as int,
                1,
                0,
            );
        }
    }
    if j + 1 == len {
        0
    } else {
        j + 1
    }
}

proof fn lemma_mod_step(x: int, len: int)
    requires
        len > 0,
        x >= 0,
    ensures
        ((x % len) + 1) % len == (x + 1) % len,
{
    vstd::arithmetic::div_mod::lemma_add_mod_noop(x, 1, len);
    vstd::arithmetic::div_mod::lemma_mod_twice(x, len);
    vstd::arithmetic::div_mod::lemma_add_mod_noop(x % len, 1, len);
}

/// The windows of a closed section of `len` control points, one per point,
/// as `to_vertex_bs` and `to_vertex_cm` walk them.
pub fn closed_windows(len: usize) -> (r: Vec<Window>)
    ensures
        r@.len() == len,
        forall|i: int| 0 <= i < len ==> #[trigger] r@[i] == closed_window(len as int, i),
        forall|i: int|
            0 <= i < len ==> #[trigger] r@[i] == (
                i as usize,
                ((i + 1) % (len as int)) as usize,
                ((i + 2) % (len as int)) as usize,
                ((i + 3) % (len as int)) as usize,
            ),
{
    let mut r: Vec<Window> = Vec::new();
    let mut i: usize = 0;
    while i < len
        invariant
            i <= len,
            r@.len() == i,
            forall|j: int| 0 <= j < i ==> #[trigger] r@[j] == closed_window(len as int, j),
        decreases len - i,
    {
        let i1 = next_on_ring(i, len);
        let i2 = next_on_ring(i1, len);
        let i3 = next_on_ring(i2, len);
        proof {
            lemma_mod_step(i + 1, len as int);
            lemma_mod_step(i + 2, len as int);
        }
        r.push((i, i1, i2, i3));
        i = i + 1;
    }
    r
}

/// Every window of a closed section names points of that section.
pub proof fn lemma_closed_windows_in_bounds(len: int, i: int)
    requires
        0 <= i < len,
    ensures
        window_below(closed_window(len, i), len),
{
    vstd::arithmetic::div_mod::lemma_mod_bound(i + 1, len);
    vstd::arithmetic::div_mod::lemma_mod_bound(i + 2, len);
    vstd::arithmetic::div_mod::lemma_mod_bound(i + 3, len);
}

/// The windows of a closed section follow the ring of its points: window
/// `i` starts at point `i`, the window of the next point on the ring (point
/// 0 after the last) starts where window `i` continues, and so on for its
/// other points; the window of the last point goes on at point 0.
pub proof fn lemma_closed_windows_ring(len: int, i: int)
    requires
        0 <= i < len <= usize::MAX,
    ensures
        closed_window(len, i).0 == i,
        ({
            let w = closed_window(len, i);
            let v = closed_window(len, (i + 1) % len);
            v.0 == w.1 && v.1 == w.2 && v.2 == w.3
        }),
        i == len - 1 ==> closed_window(len, i).1 == 0,
{
    lemma_mod_step(i + 1, len);
    lemma_mod_step(i + 2, len);
    vstd::arithmetic::div_mod::lemma_add_mod_noop(i + 1, 2, len);
    vstd::arithmetic::div_mod::lemma_mod_twice(i + 1, len);
    vstd::arithmetic::div_mod::lemma_add_mod_noop((i + 1) % len, 2, len);
    vstd::arithmetic::div_mod::lemma_mod_bound(i + 1, len);
    if i == len - 1 {
        vstd::arithmetic::div_mod::lemma_fundamental_div_mod_converse(i + 1, len, 1, 0);
    }
}

// ---------------------------------------------------------------------------
// Regrouping curves into sections
// ---------------------------------------------------------------------------

/// The views of a vector of vectors.
pub open spec fn rows<T>(m: Seq<Vec<T>>) -> Seq<Seq<T>> {
    m.map_values(|row: Vec<T>| row@)
}

/// Every row of `m` has `cols` entries.
pub open spec fn is_rectangular<T>(m: Seq<Seq<T>>, cols: int) -> bool {
    forall|j: int| 0 <= j < m.len() ==> (#[trigger] m[j]).len() == cols
}

/// Rows and columns exchanged: row `i` of the result holds entry `i` of
/// every row of `m`.
pub open spec fn spec_transpose<T>(m: Seq<Seq<T>>, cols: nat) -> Seq<Seq<T>> {
    Seq::new(cols, |i: int| Seq::new(m.len(), |j: int| m[j][i]))
}

/// Regroups curves sampled per control point into sections: `curves[j]`
/// holds the `part` samples of control point `j`, and row `i` of the result
/// holds sample `i` of every control point (the regrouping in
/// `make_spline`).
pub fn transpose<T: Copy>(curves: &Vec<Vec<T>>, part: usize) -> (r: Vec<Vec<T>>)
    requires
        is_rectangular(rows(curves@), part as int),
    ensures
        rows(r@) == spec_transpose(rows(curves@), part as nat),
        r@.len() == part,
        forall|i: int| 0 <= i < part ==> (#[trigger] r@[i])@.len() == curves@.len(),
        forall|i: int, j: int|
            0 <= i < part && 0 <= j < curves@.len() ==> #[trigger] r@[i]@[j] == curves@[j]@[i],
{
    let ghost m = rows(curves@);
    let mut r: Vec<Vec<T>> = Vec::new();
    let mut i: usize = 0;
    while i < part
        invariant
            m == rows(curves@),
            is_rectangular(m, part as int),
            i <= part,
            rows(r@) =~= Seq::new(i as nat, |a: int| Seq::new(m.len(), |j: int| m[j][a])),
        decreases part - i,
    {
        let mut row: Vec<T> = Vec::new();
        let mut j: usize = 0;
        while j < curves.len()
            invariant
                m == rows(curves@),
                is_rectangular(m, part as int),
                i < part,
                j <= curves.len(),
                row@ =~= Seq::new(j as nat, |b: int| m[b][i as int]),
            decreases curves.len() - j,
        {
            proof {
                assert(m[j as int] == curves@[j as int]@);
                assert(m[j as int].len() == part);
            }
            row.push(curves[j][i]);
            j = j + 1;
        }
        proof {
            let old_rows = rows(r@);
            let new_rows = rows(r@.push(row));
            assert(old_rows.len() == i);
            assert(new_rows.len() == i + 1);
            assert forall|a: int| 0 <= a < i implies new_rows[a] == old_rows[a] by {
                assert(r@.push(row)[a] == r@[a]);
            }
            assert(new_rows[i as int] == row@);
        }
        r.push(row);
        i = i + 1;
    }
    proof {
        assert forall|a: int| 0 <= a < part implies (#[trigger] r@[a])@.len() == curves@.len() by {
            assert(rows(r@)[a] == r@[a]@);
        }
        assert forall|a: int, j: int|
            0 <= a < part && 0 <= j < curves@.len() implies #[trigger] r@[a]@[j] == curves@[j]@[a] by {
            assert(rows(r@)[a] == r@[a]@);
            assert(m[j] == curves@[j]@);
        }
    }
    r
}

/// Row `i` of the transpose holds entry `i` of every row of `m`, in the
/// order of the rows: there are `cols` rows of `m.len()` entries, and entry
/// `j` of row `i` is entry `i` of row `j` of `m`.
pub proof fn lemma_transpose_entries<T>(m: Seq<Seq<T>>, cols: nat)
    ensures
        spec_transpose(m, cols).len() == cols,
        forall|i: int| 0 <= i < cols ==> (#[trigger] spec_transpose(m, cols)[i]).len() == m.len(),
        forall|i: int, j: int|
            0 <= i < cols && 0 <= j < m.len() ==> #[trigger] spec_transpose(m, cols)[i][j]
                == m[j][i],
{
}

/// Regrouping twice gives back the curves: a rectangular matrix of `m.len()`
/// rows and `cols` columns, transposed and transposed again, is itself.
pub proof fn lemma_transpose_involution<T>(m: Seq<Seq<T>>, cols: nat)
    requires
        is_rectangular(m, cols as int),
    ensures
        spec_transpose(spec_transpose(m, cols), m.len()) == m,
{
    let t = spec_transpose(spec_transpose(m, cols), m.len());
    assert forall|j: int| 0 <= j < m.len() implies #[trigger] t[j] =~= m[j] by {
        assert(m[j].len() == cols);
    }
    assert(t =~= m);
}

} // verus!
