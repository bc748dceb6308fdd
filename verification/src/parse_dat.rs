//! The `.dat` object format.
//!
//! A file describes an object by its cross sections.  Every line may carry a
//! comment after `#`; what stays of a line is its text before the first `#`,
//! without surrounding whitespace.  In order, the lines hold:
//!
//! * the spline kind (a name, see `Spline::new`);
//! * the number of sections `sect_n` (an `i32`);
//! * the number of control points per section `point_n` (an `i32`);
//! * then, for each section, `point_n` lines with the two coordinates of a
//!   control point, one line with the scale, one line with the rotation
//!   (angle and axis: four numbers) and one line with the position (three
//!   numbers).
//!
//! Numbers on a line are separated by single spaces.  This module splits the
//! text into those fields and checks the layout; turning the fields into
//! floating-point numbers is left to the caller.
use vstd::prelude::*;

use crate::strings::{
    chars_of, find_char, index_or_len, is_white, join, lemma_index_or_len, lemma_index_or_len_at,
    lemma_split_join, lemma_split_pieces, lemma_trim_shape, lines, lines_of, parse_i32, spec_parse_i32, split_fields,
    split_on, trim, trim_bounds, views,
};

verus! {

/// Why a text is not an object description.  `line` is the position of the
/// offending line, counted from 0.
#[derive(Debug, Clone, Copy, PartialEq, Eq, Structural)]
pub enum DatError {
    /// The text ends before a line that the layout needs.
    MissingLine { line: usize },
    /// The line of a count does not hold an `i32`.
    BadCount { line: usize },
    /// The number of sections is negative.
    NegativeSections,
    /// The number of control points is negative while there are sections.
    NegativePoints,
    /// The line holds fewer fields than its role asks for (two for a control
    /// point, four for a rotation, three for a position).
    TooFewFields { line: usize },
}

/// The fields of one section, as text.
pub struct SectionFields<'a> {
    pub points: Vec<Vec<&'a str>>,
    pub scale: Vec<&'a str>,
    pub rot: Vec<&'a str>,
    pub pos: Vec<&'a str>,
}

/// An object description, with its numbers still as text.
pub struct DatLayout<'a> {
    pub spline_name: &'a str,
    pub sect_n: i32,
    pub point_n: i32,
    pub sections: Vec<SectionFields<'a>>,
}

/// The views of the lines of control points of a section.
pub open spec fn point_views<'a>(v: Seq<Vec<&'a str>>) -> Seq<Seq<Seq<char>>> {
    v.map_values(|f: Vec<&'a str>| views(f@))
}

/// The abstract values of a sequence of sections.
pub open spec fn section_views<'a>(v: Seq<SectionFields<'a>>) -> Seq<SectionModel> {
    v.map_values(|s: SectionFields<'a>| s@)
}

/// The abstract value of a `SectionFields`.
pub ghost struct SectionModel {
    pub points: Seq<Seq<Seq<char>>>,
    pub scale: Seq<Seq<char>>,
    pub rot: Seq<Seq<char>>,
    pub pos: Seq<Seq<char>>,
}

/// The abstract value of a `DatLayout`.
pub ghost struct LayoutModel {
    pub spline_name: Seq<char>,
    pub sect_n: i32,
    pub point_n: i32,
    pub sections: Seq<SectionModel>,
}

impl<'a> View for SectionFields<'a> {
    type V = SectionModel;

    open spec fn view(&self) -> SectionModel {
        SectionModel {
            points: point_views(self.points@),
            scale: views(self.scale@),
            rot: views(self.rot@),
            pos: views(self.pos@),
        }
    }
}

impl<'a> View for DatLayout<'a> {
    type V = LayoutModel;

    open spec fn view(&self) -> LayoutModel {
        LayoutModel {
            spline_name: self.spline_name@,
            sect_n: self.sect_n,
            point_n: self.point_n,
            sections: section_views(self.sections@),
        }
    }
}

// ---------------------------------------------------------------------------
// Specification of the format
// ---------------------------------------------------------------------------

/// What is left of a line: the text before the first `#`, trimmed.
pub open spec fn clean(line: Seq<char>) -> Seq<char> {
    trim(line.take(index_or_len(line, '#') as int))
}

/// The number fields of a line: its clean text split at single spaces.
pub open spec fn fields(line: Seq<char>) -> Seq<Seq<char>> {
    split_on(clean(line), ' ')
}

/// The number of lines that a layout with these counts takes.
pub open spec fn needed_lines(sect_n: int, point_n: int) -> int {
    3 + sect_n * (point_n + 3)
}

/// The first line of section `s`.
pub open spec fn section_start(point_n: int, s: int) -> int {
    3 + s * (point_n + 3)
}

/// The role of line `k` (from 3 on) within its section: below `point_n` a
/// control point, then the scale, the rotation and the position.
pub open spec fn line_role(point_n: int, k: int) -> int {
    (k - 3) % (point_n + 3)
}

/// How many fields a line of this role needs.
pub open spec fn min_fields(point_n: int, role: int) -> nat {
    if role < point_n {
        2
    } else if role == point_n {
        1
    } else if role == point_n + 1 {
        4
    } else {
        3
    }
}

/// Section line `k` exists and has enough fields.
pub open spec fn line_ok(ls: Seq<Seq<char>>, point_n: int, k: int) -> bool {
    &&& k < ls.len()
    &&& fields(ls[k]).len() >= min_fields(point_n, line_role(point_n, k))
}

/// `k` is the first section line that is missing or short.
pub open spec fn is_first_bad(ls: Seq<Seq<char>>, point_n: int, total: int, k: int) -> bool {
    &&& 3 <= k < total
    &&& !line_ok(ls, point_n, k)
    &&& forall|j: int| 3 <= j < k ==> line_ok(ls, point_n, j)
}

/// The fields of section `s`.
pub open spec fn section_model(ls: Seq<Seq<char>>, point_n: int, s: int) -> SectionModel {
    let base = section_start(point_n, s);
    SectionModel {
        points: Seq::new(point_n as nat, |p: int| fields(ls[base + p])),
        scale: fields(ls[base + point_n]),
        rot: fields(ls[base + point_n + 1]),
        pos: fields(ls[base + point_n + 2]),
    }
}

/// The description of an object, or the first reason why `text` is none.
/// The checks come in the order in which the lines are read.
pub open spec fn spec_layout(text: Seq<char>) -> Result<LayoutModel, DatError> {
    let ls = lines_of(text);
    if ls.len() < 1 {
        Err(DatError::MissingLine { line: 0 })
    } else if ls.len() < 2 {
        Err(DatError::MissingLine { line: 1 })
    } else {
        match spec_parse_i32(clean(ls[1])) {
            None => Err(DatError::BadCount { line: 1 }),
            Some(sect_n) => if ls.len() < 3 {
                Err(DatError::MissingLine { line: 2 })
            } else {
                match spec_parse_i32(clean(ls[2])) {
                    None => Err(DatError::BadCount { line: 2 }),
                    Some(point_n) => if sect_n < 0 {
                        Err(DatError::NegativeSections)
                    } else if sect_n > 0 && point_n < 0 {
                        Err(DatError::NegativePoints)
                    } else {
                        let total = needed_lines(sect_n as int, point_n as int);
                        if exists|k: int| is_first_bad(ls, point_n as int, total, k) {
                            let k = choose|k: int| is_first_bad(ls, point_n as int, total, k);
                            if k >= ls.len() {
                                Err(DatError::MissingLine { line: k as usize })
                            } else {
                                Err(DatError::TooFewFields { line: k as usize })
                            }
                        } else {
                            Ok(
                                LayoutModel {
                                    spline_name: clean(ls[0]),
                                    sect_n: sect_n,
                                    point_n: point_n,
                                    sections: Seq::new(
                                        sect_n as nat,
                                        |s: int| section_model(ls, point_n as int, s),
                                    ),
                                },
                            )
                        }
                    },
                }
            },
        }
    }
}

/// The abstract value of the result of `parse_layout`.
pub open spec fn result_view<'a>(r: Result<DatLayout<'a>, DatError>) -> Result<
    LayoutModel,
    DatError,
> {
    match r {
        Ok(l) => Ok(l@),
        Err(e) => Err(e),
    }
}

/// The header lines hold counts that let the sections be read.
pub open spec fn header_ok(ls: Seq<Seq<char>>, sect_n: i32, point_n: i32) -> bool {
    &&& ls.len() >= 3
    &&& spec_parse_i32(clean(ls[1])) == Some(sect_n)
    &&& spec_parse_i32(clean(ls[2])) == Some(point_n)
    &&& sect_n >= 0
    &&& sect_n > 0 ==> point_n >= 0
}

// ---------------------------------------------------------------------------
// Lemmas
// ---------------------------------------------------------------------------

proof fn lemma_first_bad_unique(ls: Seq<Seq<char>>, point_n: int, total: int, k: int)
    requires
        is_first_bad(ls, point_n, total, k),
    ensures
        (choose|j: int| is_first_bad(ls, point_n, total, j)) == k,
{
    let c = choose|j: int| is_first_bad(ls, point_n, total, j);
    assert(is_first_bad(ls, point_n, total, c));
    if c < k {
        assert(line_ok(ls, point_n, c));
    } else if c > k {
        assert(line_ok(ls, point_n, k));
    }
}

/// With a good header, the first bad section line decides the error.
proof fn lemma_error_at(text: Seq<char>, sect_n: i32, point_n: i32, k: int)
    requires
        header_ok(lines_of(text), sect_n, point_n),
        is_first_bad(lines_of(text), point_n as int, needed_lines(sect_n as int, point_n as int), k),
    ensures
        spec_layout(text) == if k >= lines_of(text).len() {
            Err::<LayoutModel, DatError>(DatError::MissingLine { line: k as usize })
        } else {
            Err::<LayoutModel, DatError>(DatError::TooFewFields { line: k as usize })
        },
{
    lemma_first_bad_unique(
        lines_of(text),
        point_n as int,
        needed_lines(sect_n as int, point_n as int),
        k,
    );
}

/// Line `section_start(point_n, s) + r` has role `r`.
proof fn lemma_role(point_n: int, s: int, r: int)
    requires
        point_n >= 0,
        s >= 0,
        0 <= r < point_n + 3,
    ensures
        line_role(point_n, section_start(point_n, s) + r) == r,
{
    vstd::arithmetic::div_mod::lemma_fundamental_div_mod_converse(
        s * (point_n + 3) + r,
        point_n + 3,
        s,
        r,
    );
    assert(s * (point_n + 3) == (point_n + 3) * s) by (nonlinear_arith);
}

proof fn lemma_next_section(point_n: int, s: int, sect_n: int)
    requires
        point_n >= 0,
        0 <= s < sect_n,
    ensures
        section_start(point_n, s + 1) == section_start(point_n, s) + point_n + 3,
        section_start(point_n, s + 1) <= needed_lines(sect_n, point_n),
        section_start(point_n, s) >= 3,
{
    assert((s + 1) * (point_n + 3) == s * (point_n + 3) + (point_n + 3)) by (nonlinear_arith);
    assert((s + 1) * (point_n + 3) <= sect_n * (point_n + 3)) by (nonlinear_arith)
        requires
            s + 1 <= sect_n,
            point_n + 3 >= 0,
    ;
    assert(s * (point_n + 3) >= 0) by (nonlinear_arith)
        requires
            s >= 0,
            point_n + 3 >= 0,
    ;
}

/// If some section line is bad, there is a first bad one.
proof fn lemma_first_bad_exists(ls: Seq<Seq<char>>, point_n: int, total: int, j: int)
    requires
        3 <= j < total,
        !line_ok(ls, point_n, j),
    ensures
        exists|k: int| is_first_bad(ls, point_n, total, k),
    decreases j,
{
    if forall|i: int| 3 <= i < j ==> line_ok(ls, point_n, i) {
        assert(is_first_bad(ls, point_n, total, j));
    } else {
        let i = choose|i: int| 3 <= i < j && !line_ok(ls, point_n, i);
        lemma_first_bad_exists(ls, point_n, total, i);
    }
}

// ---------------------------------------------------------------------------
// Laws
// ---------------------------------------------------------------------------

/// A clean line holds no `#` and no whitespace at either end, and cleaning
/// it again gives the same text.
pub proof fn lemma_clean_idempotent(line: Seq<char>)
    ensures
        forall|i: int| 0 <= i < clean(line).len() ==> clean(line)[i] != '#',
        clean(line).len() > 0 ==> !is_white(clean(line)[0]) && !is_white(clean(line).last()),
        clean(clean(line)) == clean(line),
{
    let h = index_or_len(line, '#') as int;
    lemma_index_or_len(line, '#');
    let before = line.take(h);
    let c = clean(line);
    lemma_trim_shape(before);
    let (a, b) = choose|a: int, b: int|
        {
            &&& 0 <= a <= b <= before.len()
            &&& trim(before) == before.subrange(a, b)
            &&& forall|j: int| 0 <= j < a ==> is_white(#[trigger] before[j])
            &&& forall|j: int| b <= j < before.len() ==> is_white(#[trigger] before[j])
            &&& a < b ==> !is_white(before[a]) && !is_white(before[b - 1])
        };
    assert forall|i: int| 0 <= i < c.len() implies c[i] != '#' by {
        assert(c[i] == before[a + i]);
    }
    lemma_index_or_len_at(c, '#', c.len() as int);
    assert(c.take(c.len() as int) =~= c);
}

/// The clean text of a line is the part of the line before its first `#`
/// (or the whole line), without the whitespace at both ends of that part.
pub proof fn lemma_clean_spec(line: Seq<char>)
    ensures
        ({
            let h = index_or_len(line, '#') as int;
            &&& 0 <= h <= line.len()
            &&& forall|j: int| 0 <= j < h ==> #[trigger] line[j] != '#'
            &&& h < line.len() ==> line[h] == '#'
        }),
        exists|a: int, b: int|
            {
                &&& 0 <= a <= b <= index_or_len(line, '#')
                &&& clean(line) == #[trigger] line.subrange(a, b)
                &&& forall|j: int| 0 <= j < a ==> is_white(#[trigger] line[j])
                &&& forall|j: int| b <= j < index_or_len(line, '#') ==> is_white(#[trigger] line[j])
                &&& a < b ==> !is_white(line[a]) && !is_white(line[b - 1])
            },
{
    let h = index_or_len(line, '#') as int;
    lemma_index_or_len(line, '#');
    let before = line.take(h);
    lemma_trim_shape(before);
    let (a, b) = choose|a: int, b: int|
        {
            &&& 0 <= a <= b <= before.len()
            &&& trim(before) == before.subrange(a, b)
            &&& forall|j: int| 0 <= j < a ==> is_white(#[trigger] before[j])
            &&& forall|j: int| b <= j < before.len() ==> is_white(#[trigger] before[j])
            &&& a < b ==> !is_white(before[a]) && !is_white(before[b - 1])
        };
    assert(clean(line) =~= line.subrange(a, b));
    assert forall|j: int| 0 <= j < a implies is_white(#[trigger] line[j]) by {
        assert(line[j] == before[j]);
    }
    assert forall|j: int| b <= j < h implies is_white(#[trigger] line[j]) by {
        assert(line[j] == before[j]);
    }
    if a < b {
        assert(line[a] == before[a]);
        assert(line[b - 1] == before[b - 1]);
    }
}

/// Splitting a line into fields and joining them with single spaces gives
/// its clean text back, and no field holds a space.
pub proof fn lemma_fields_join(line: Seq<char>)
    ensures
        join(fields(line), ' ') == clean(line),
        forall|i: int, j: int|
            0 <= i < fields(line).len() && 0 <= j < fields(line)[i].len() ==> fields(line)[i][j]
                != ' ',
{
    lemma_split_join(clean(line), ' ');
    lemma_split_pieces(clean(line), ' ');
}

/// Where the fields of a successfully read object come from: the spline
/// name is line 0, the counts are lines 1 and 2, and section `s` takes the
/// `point_n + 3` lines from `3 + s * (point_n + 3)` on, in order: its
/// control points, then its scale, rotation and position.
pub proof fn lemma_layout_reads_lines(text: Seq<char>)
    requires
        spec_layout(text) is Ok,
    ensures
        ({
            let l = spec_layout(text)->Ok_0;
            let ls = lines_of(text);
            let pn = l.point_n as int;
            &&& ls.len() >= 3 + l.sect_n * (pn + 3)
            &&& l.spline_name == clean(ls[0])
            &&& spec_parse_i32(clean(ls[1])) == Some(l.sect_n)
            &&& spec_parse_i32(clean(ls[2])) == Some(l.point_n)
            &&& l.sections.len() == l.sect_n
            &&& forall|s: int|
                0 <= s < l.sect_n ==> {
                    let sec = #[trigger] l.sections[s];
                    &&& sec.points.len() == pn
                    &&& forall|p: int|
                        0 <= p < pn ==> #[trigger] sec.points[p] == fields(
                            ls[3 + s * (pn + 3) + p],
                        )
                    &&& sec.scale == fields(ls[3 + s * (pn + 3) + pn])
                    &&& sec.rot == fields(ls[3 + s * (pn + 3) + pn + 1])
                    &&& sec.pos == fields(ls[3 + s * (pn + 3) + pn + 2])
                }
        }),
{
    let ls = lines_of(text);
    let l = spec_layout(text)->Ok_0;
    let sect_n = l.sect_n as int;
    let pn = l.point_n as int;
    let total = needed_lines(sect_n, pn);
    if sect_n > 0 {
        assert(!exists|k: int| is_first_bad(ls, pn, total, k));
        lemma_next_section(pn, sect_n - 1, sect_n);
        if !line_ok(ls, pn, total - 1) {
            lemma_first_bad_exists(ls, pn, total, total - 1);
        }
        assert(line_ok(ls, pn, total - 1));
    } else {
        assert(sect_n == 0);
        assert(sect_n * (pn + 3) == 0) by (nonlinear_arith)
            requires
                sect_n == 0,
        ;
    }
    assert(ls.len() >= 3 + l.sect_n * (pn + 3));
    assert(l.spline_name == clean(ls[0]));
    assert(l.sections.len() == l.sect_n);
    assert forall|s: int| 0 <= s < l.sect_n implies {
        let sec = #[trigger] l.sections[s];
        &&& sec.points.len() == pn
        &&& forall|p: int|
            0 <= p < pn ==> #[trigger] sec.points[p] == fields(ls[3 + s * (pn + 3) + p])
        &&& sec.scale == fields(ls[3 + s * (pn + 3) + pn])
        &&& sec.rot == fields(ls[3 + s * (pn + 3) + pn + 1])
        &&& sec.pos == fields(ls[3 + s * (pn + 3) + pn + 2])
    } by {
        assert(l.sections[s] == section_model(ls, pn, s));
        assert(section_start(pn, s) == 3 + s * (pn + 3));
    }
}

/// What each error says of the text: a missing line is the first line past
/// its end; a bad count is line 1 or 2 and holds no `i32` (line 2 only after
/// line 1 held one); a negative count is the number read; a short line is a
/// section line that exists and has fewer fields than its role needs (two
/// for a control point, one for the scale, four for the rotation, three for
/// the position).
pub proof fn lemma_layout_errors(text: Seq<char>)
    requires
        lines_of(text).len() <= usize::MAX,
    ensures
        ({
            let ls = lines_of(text);
            match spec_layout(text) {
                Ok(_) => true,
                Err(DatError::MissingLine { line }) => line == ls.len(),
                Err(DatError::BadCount { line }) => {
                    &&& line == 1 || line == 2
                    &&& line < ls.len()
                    &&& spec_parse_i32(clean(ls[line as int])) is None
                    &&& line == 2 ==> spec_parse_i32(clean(ls[1])) is Some
                },
                Err(DatError::NegativeSections) => {
                    &&& ls.len() >= 3
                    &&& spec_parse_i32(clean(ls[1])) matches Some(n) && n < 0
                },
                Err(DatError::NegativePoints) => {
                    &&& ls.len() >= 3
                    &&& spec_parse_i32(clean(ls[1])) matches Some(n) && n > 0
                    &&& spec_parse_i32(clean(ls[2])) matches Some(p) && p < 0
                },
                Err(DatError::TooFewFields { line }) => {
                    &&& 3 <= line < ls.len()
                    &&& spec_parse_i32(clean(ls[2])) matches Some(pn) && {
                        let r = (line - 3) % (pn + 3);
                        fields(ls[line as int]).len() < if r < pn {
                            2int
                        } else if r == pn {
                            1int
                        } else if r == pn + 1 {
                            4int
                        } else {
                            3int
                        }
                    }
                    &&& spec_parse_i32(clean(ls[2])) matches Some(pn) && forall|j: int|
                        3 <= j < line ==> {
                            let r = (j - 3) % (pn + 3);
                            (#[trigger] fields(ls[j])).len() >= if r < pn {
                                2int
                            } else if r == pn {
                                1int
                            } else if r == pn + 1 {
                                4int
                            } else {
                                3int
                            }
                        }
                },
            }
        }),
{
    let ls = lines_of(text);
    if ls.len() >= 3 {
        if let Some(sect_n) = spec_parse_i32(clean(ls[1])) {
            if let Some(point_n) = spec_parse_i32(clean(ls[2])) {
                let pn = point_n as int;
                let total = needed_lines(sect_n as int, pn);
                if sect_n >= 0 && !(sect_n > 0 && point_n < 0) && exists|k: int|
                    is_first_bad(ls, pn, total, k) {
                    let k = choose|k: int| is_first_bad(ls, pn, total, k);
                    if k > 3 {
                        assert(line_ok(ls, pn, k - 1));
                    }
                    assert(k < ls.len() ==> (k as usize) as int == k);
                    assert forall|j: int| 3 <= j < k implies {
                        let r = (j - 3) % (pn + 3);
                        (#[trigger] fields(ls[j])).len() >= if r < pn {
                            2int
                        } else if r == pn {
                            1int
                        } else if r == pn + 1 {
                            4int
                        } else {
                            3int
                        }
                    } by {
                        assert(line_ok(ls, pn, j));
                    }
                    assert(k >= ls.len() ==> k == ls.len());
                }
            }
        }
    }
}

/// A successfully read object has as many sections as its count says, each
/// with as many control points as its count says, two or more numbers for
/// each control point, one or more for the scale, four or more for the
/// rotation and three or more for the position.
pub proof fn lemma_layout_shape(text: Seq<char>)
    requires
        spec_layout(text) is Ok,
    ensures
        ({
            let l = spec_layout(text)->Ok_0;
            &&& l.sect_n >= 0
            &&& l.sections.len() == l.sect_n
            &&& forall|s: int|
                0 <= s < l.sect_n ==> {
                    let sec = #[trigger] l.sections[s];
                    &&& sec.points.len() == l.point_n
                    &&& forall|p: int| 0 <= p < l.point_n ==> (#[trigger] sec.points[p]).len() >= 2
                    &&& sec.scale.len() >= 1
                    &&& sec.rot.len() >= 4
                    &&& sec.pos.len() >= 3
                }
        }),
{
    let ls = lines_of(text);
    let l = spec_layout(text)->Ok_0;
    let sect_n = l.sect_n as int;
    let pn = l.point_n as int;
    let total = needed_lines(sect_n, pn);
    assert(!exists|k: int| is_first_bad(ls, pn, total, k));
    assert forall|k: int| 3 <= k < total implies line_ok(ls, pn, k) by {
        if !line_ok(ls, pn, k) {
            lemma_first_bad_exists(ls, pn, total, k);
        }
    }
    assert forall|s: int| 0 <= s < sect_n implies {
        let sec = #[trigger] l.sections[s];
        &&& sec.points.len() == pn
        &&& forall|p: int| 0 <= p < pn ==> (#[trigger] sec.points[p]).len() >= 2
        &&& sec.scale.len() >= 1
        &&& sec.rot.len() >= 4
        &&& sec.pos.len() >= 3
    } by {
        lemma_next_section(pn, s, sect_n);
        let base = section_start(pn, s);
        assert forall|p: int| 0 <= p < pn implies (#[trigger] l.sections[s].points[p]).len() >= 2 by {
            lemma_role(pn, s, p);
            assert(line_ok(ls, pn, base + p));
        }
        lemma_role(pn, s, pn);
        lemma_role(pn, s, pn + 1);
        lemma_role(pn, s, pn + 2);
        assert(line_ok(ls, pn, base + pn));
        assert(line_ok(ls, pn, base + pn + 1));
        assert(line_ok(ls, pn, base + pn + 2));
    }
}

// ---------------------------------------------------------------------------
// Executable functions
// ---------------------------------------------------------------------------

/// The text of a line before its comment, without surrounding whitespace
/// (`args.split("#").next().unwrap().trim()`).
pub fn parse_str(args: &str) -> (r: &str)
    ensures
        r@ == clean(args@),
{
    let v = chars_of(args);
    let h = find_char(&v, 0, v.len(), '#');
    let (a, b) = trim_bounds(&v, 0, h);
    proof {
        assert(v@.subrange(0, v@.len() as int) =~= v@);
        assert(v@.subrange(0, h as int) =~= args@.take(h as int));
    }
    args.substring_char(a, b)
}

/// The number fields of a line (`parse_str(args).split(' ')`).
pub fn line_fields(args: &str) -> (r: Vec<&str>)
    ensures
        views(r@) == fields(args@),
{
    split_fields(parse_str(args))
}

/// The fields of section line `k`, when it exists and has at least `need`
/// of them.
fn read_fields<'a>(ls: &Vec<&'a str>, k: usize, need: usize) -> (r: Result<Vec<&'a str>, DatError>)
    ensures
        match r {
            Ok(f) => k < ls.len() && views(f@) == fields(ls@[k as int]@) && fields(
                ls@[k as int]@,
            ).len() >= need,
            Err(e) => !(k < ls.len() && fields(ls@[k as int]@).len() >= need) && e == if k
                >= ls.len() {
                DatError::MissingLine { line: k }
            } else {
                DatError::TooFewFields { line: k }
            },
        },
{
    if k >= ls.len() {
        return Err(DatError::MissingLine { line: k });
    }
    let f = line_fields(ls[k]);
    if f.len() < need {
        return Err(DatError::TooFewFields { line: k });
    }
    Ok(f)
}

/// Splits the text of an object description into its fields and checks its
/// layout: `Ok` exactly when `spec_layout` says so, with the same fields,
/// and otherwise the first error in reading order.
pub fn parse_layout<'a>(text: &'a str) -> (r: Result<DatLayout<'a>, DatError>)
    ensures
        result_view(r) == spec_layout(text@),
        r matches Ok(l) ==> {
            let ls = lines_of(text@);
            let pn = l.point_n as int;
            &&& l.spline_name@ == clean(ls[0])
            &&& spec_parse_i32(clean(ls[1])) == Some(l.sect_n)
            &&& spec_parse_i32(clean(ls[2])) == Some(l.point_n)
            &&& l@.sections.len() == l.sect_n
            &&& forall|s: int|
                0 <= s < l.sect_n ==> {
                    let sec = #[trigger] l@.sections[s];
                    &&& sec.points.len() == pn
                    &&& forall|p: int|
                        0 <= p < pn ==> #[trigger] sec.points[p] == fields(
                            ls[3 + s * (pn + 3) + p],
                        )
                    &&& sec.scale == fields(ls[3 + s * (pn + 3) + pn])
                    &&& sec.rot == fields(ls[3 + s * (pn + 3) + pn + 1])
                    &&& sec.pos == fields(ls[3 + s * (pn + 3) + pn + 2])
                }
        },
        r matches Err(e) ==> {
            let ls = lines_of(text@);
            match e {
                DatError::MissingLine { line } => line == ls.len(),
                DatError::BadCount { line } => {
                    &&& line == 1 || line == 2
                    &&& line < ls.len()
                    &&& spec_parse_i32(clean(ls[line as int])) is None
                    &&& line == 2 ==> spec_parse_i32(clean(ls[1])) is Some
                },
                DatError::NegativeSections => {
                    &&& ls.len() >= 3
                    &&& spec_parse_i32(clean(ls[1])) matches Some(n) && n < 0
                },
                DatError::NegativePoints => {
                    &&& ls.len() >= 3
                    &&& spec_parse_i32(clean(ls[1])) matches Some(n) && n > 0
                    &&& spec_parse_i32(clean(ls[2])) matches Some(p) && p < 0
                },
                DatError::TooFewFields { line } => {
                    &&& 3 <= line < ls.len()
                    &&& spec_parse_i32(clean(ls[2])) matches Some(pn) && {
                        let r = (line - 3) % (pn + 3);
                        fields(ls[line as int]).len() < if r < pn {
                            2int
                        } else if r == pn {
                            1int
                        } else if r == pn + 1 {
                            4int
                        } else {
                            3int
                        }
                    }
                    &&& spec_parse_i32(clean(ls[2])) matches Some(pn) && forall|j: int|
                        3 <= j < line ==> {
                            let r = (j - 3) % (pn + 3);
                            (#[trigger] fields(ls[j])).len() >= if r < pn {
                                2int
                            } else if r == pn {
                                1int
                            } else if r == pn + 1 {
                                4int
                            } else {
                                3int
                            }
                        }
                },
            }
        },
{
    let r = read_layout(text);
    proof {
        lemma_layout_errors(text@);
        if r is Ok {
            lemma_layout_reads_lines(text@);
        }
    }
    r
}

/// The layout of `text`, as `spec_layout` gives it.
fn read_layout<'a>(text: &'a str) -> (r: Result<DatLayout<'a>, DatError>)
    ensures
        result_view(r) == spec_layout(text@),
        lines_of(text@).len() <= usize::MAX,
{
    let ls = lines(text);
    let ghost lv = lines_of(text@);
    assert(lv.len() == ls@.len());
    if ls.len() < 1 {
        return Err(DatError::MissingLine { line: 0 });
    }
    let spline_name = parse_str(ls[0]);
    if ls.len() < 2 {
        return Err(DatError::MissingLine { line: 1 });
    }
    let sect_n = match parse_i32(parse_str(ls[1])) {
        Some(x) => x,
        None => {
            return Err(DatError::BadCount { line: 1 });
        },
    };
    if ls.len() < 3 {
        return Err(DatError::MissingLine { line: 2 });
    }
    let point_n = match parse_i32(parse_str(ls[2])) {
        Some(x) => x,
        None => {
            return Err(DatError::BadCount { line: 2 });
        },
    };
    if sect_n < 0 {
        return Err(DatError::NegativeSections);
    }
    if sect_n > 0 && point_n < 0 {
        return Err(DatError::NegativePoints);
    }
    assert(header_ok(lv, sect_n, point_n));
    let ghost pn = point_n as int;
    let ghost total = needed_lines(sect_n as int, pn);
    let mut sections: Vec<SectionFields<'a>> = Vec::new();
    let mut k: usize = 3;
    let mut s: i32 = 0;
    while s < sect_n
        invariant
            views(ls@) == lv,
            lv == lines_of(text@),
            header_ok(lv, sect_n, point_n),
            pn == point_n as int,
            total == needed_lines(sect_n as int, pn),
            0 <= s <= sect_n,
            k as int == section_start(pn, s as int),
            forall|j: int| 3 <= j < k ==> line_ok(lv, pn, j),
            section_views(sections@) == Seq::new(
                s as nat,
                |t: int| section_model(lv, pn, t),
            ),
        decreases sect_n - s,
    {
        proof {
            lemma_next_section(pn, s as int, sect_n as int);
        }
        let ghost base = k as int;
        let mut points: Vec<Vec<&'a str>> = Vec::new();
        let mut p: i32 = 0;
        while p < point_n
            invariant
                views(ls@) == lv,
                lv == lines_of(text@),
                header_ok(lv, sect_n, point_n),
                pn == point_n as int,
                pn >= 0,
                total == needed_lines(sect_n as int, pn),
                0 <= s < sect_n,
                base == section_start(pn, s as int),
                base + pn + 3 <= total,
                base >= 3,
                0 <= p <= point_n,
                k as int == base + p,
                forall|j: int| 3 <= j < k ==> line_ok(lv, pn, j),
                point_views(points@) == Seq::new(
                    p as nat,
                    |q: int| fields(lv[base + q]),
                ),
            decreases point_n - p,
        {
            proof {
                lemma_role(pn, s as int, p as int);
            }
            match read_fields(&ls, k, 2) {
                Ok(f) => {
                    proof {
                        let old_view = point_views(points@);
                        let new_view = point_views(points@.push(f));
                        assert(lv[k as int] == ls@[k as int]@);
                        assert(old_view.len() == p);
                        assert(points@.len() == p);
                        assert(new_view.len() == p + 1);
                        assert forall|q: int| 0 <= q < p + 1 implies new_view[q] == fields(
                            lv[base + q],
                        ) by {
                            if q < p {
                                assert(new_view[q] == old_view[q]);
                            }
                        }
                        assert(new_view =~= Seq::new((p + 1) as nat, |q: int| fields(lv[base + q])));
                    }
                    points.push(f);
                },
                Err(e) => {
                    proof {
                        lemma_error_at(text@, sect_n, point_n, k as int);
                    }
                    return Err(e);
                },
            }
            k = k + 1;
            p = p + 1;
        }
        proof {
            lemma_role(pn, s as int, pn);
        }
        let scale = match read_fields(&ls, k, 1) {
            Ok(f) => f,
            Err(e) => {
                proof {
                    lemma_error_at(text@, sect_n, point_n, k as int);
                }
                return Err(e);
            },
        };
        k = k + 1;
        proof {
            lemma_role(pn, s as int, pn + 1);
        }
        let rot = match read_fields(&ls, k, 4) {
            Ok(f) => f,
            Err(e) => {
                proof {
                    lemma_error_at(text@, sect_n, point_n, k as int);
                }
                return Err(e);
            },
        };
        k = k + 1;
        proof {
            lemma_role(pn, s as int, pn + 2);
        }
        let pos = match read_fields(&ls, k, 3) {
            Ok(f) => f,
            Err(e) => {
                proof {
                    lemma_error_at(text@, sect_n, point_n, k as int);
                }
                return Err(e);
            },
        };
        k = k + 1;
        let section = SectionFields { points, scale, rot, pos };
        proof {
            assert(section@ == section_model(lv, pn, s as int));
            let old_view = section_views(sections@);
            let new_view = section_views(sections@.push(section));
            assert(old_view.len() == s);
            assert(sections@.len() == s);
            assert(new_view.len() == s + 1);
            assert(new_view[s as int] == section@);
            assert forall|t: int| 0 <= t < s + 1 implies new_view[t] == section_model(lv, pn, t) by {
                if t < s {
                    assert(new_view[t] == old_view[t]);
                }
            }
            assert(new_view =~= Seq::new((s + 1) as nat, |t: int| section_model(lv, pn, t)));
        }
        sections.push(section);
        s = s + 1;
    }
    let layout = DatLayout { spline_name, sect_n, point_n, sections };
    proof {
        assert(k as int == total);
        assert(!exists|j: int| is_first_bad(lv, pn, total, j));
        assert(layout@.sections =~= Seq::new(
            sect_n as nat,
            |t: int| section_model(lv, point_n as int, t),
        ));
    }
    Ok(layout)
}

} // verus!
